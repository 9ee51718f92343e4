//! The settings of the program that times tree automata on a file of trees.
use super::comparison;
use crate::arguments;
use crate::arguments::{read, Fault, Refuse, Shape, ValueRule};
use crate::evaluation::settings;
use crate::evaluation::settings::value_number;
use crate::text;
use crate::text::copy_text;
use vstd::prelude::*;

verus! {

/// The settings of the program.
#[derive(Debug)]
pub struct TreeArgs {
    pub auto: String,
    pub trees: String,
    pub iterations: usize,
    pub warmup: usize,
}

/// What is wrong with a command line.
#[derive(Debug)]
pub enum TreeArgsFault {
    Arguments(Fault),
    /// The automaton or the trees are not named.
    MissingPath,
}

/// Whether `shape` is that of the program.
pub open spec fn is_tree_shape(shape: Shape) -> bool {
    let f = shape.flags@;
    &&& settings::called(shape.help@, seq!["--help"@, "-h"@])
    &&& shape.refuse == Refuse::All
    &&& f.len() == 4
    &&& settings::called(f[0].0@, seq!["--auto"@]) && f[0].1 == ValueRule::Text
    &&& settings::called(f[1].0@, seq!["--trees"@]) && f[1].1 == ValueRule::Text
    &&& settings::called(f[2].0@, seq!["--iterations"@]) && f[2].1 == ValueRule::Number
    &&& settings::called(f[3].0@, seq!["--warmup"@]) && f[3].1 == ValueRule::Number
}

/// What the program accepts.
pub fn tree_shape() -> (shape: Shape)
    ensures
        is_tree_shape(shape),
{
    let mut flags: Vec<(Vec<&'static str>, ValueRule)> = Vec::new();
    flags.push((vec!["--auto"], ValueRule::Text));
    flags.push((vec!["--trees"], ValueRule::Text));
    flags.push((vec!["--iterations"], ValueRule::Number));
    flags.push((vec!["--warmup"], ValueRule::Number));
    Shape { help: vec!["--help", "-h"], flags, refuse: Refuse::All, plain: None }
}

/// Whether a command line names both files.
pub open spec fn names_both(args: Seq<Seq<char>>, shape: Shape) -> bool {
    let list = arguments::steps(args, shape);
    arguments::last_value(list, 0) is Some && arguments::last_value(list, 1) is Some
}

/// Sets up the program from its command line.
pub fn tree_args(args: &Vec<String>, shape: &Shape) -> (r: Result<TreeArgs, TreeArgsFault>)
    requires
        is_tree_shape(*shape),
    ensures
        match r {
            Ok(found) => {
                let list = arguments::steps(text::texts(args@), *shape);
                &&& comparison::is_sound(text::texts(args@), *shape)
                &&& arguments::last_value(list, 0) == Some(found.auto@)
                &&& arguments::last_value(list, 1) == Some(found.trees@)
                &&& found.iterations == comparison::number(text::texts(args@), *shape, 2, 100)
                &&& found.warmup == comparison::number(text::texts(args@), *shape, 3, 10)
            },
            Err(TreeArgsFault::Arguments(f)) => comparison::is_first_fault(
                text::texts(args@),
                *shape,
                f@,
            ),
            Err(TreeArgsFault::MissingPath) => comparison::is_sound(text::texts(args@), *shape)
                && !names_both(text::texts(args@), *shape),
        },
{
    let parsed = match read(args, shape) {
        Ok(parsed) => parsed,
        Err(fault) => {
            return Err(TreeArgsFault::Arguments(fault));
        },
    };
    let ghost list = arguments::steps(text::texts(args@), *shape);
    proof {
        assert(list.take(list.len() as int) =~= list);
        settings::lemma_last_value(list, *shape, list.len() as int, 2);
        settings::lemma_last_value(list, *shape, list.len() as int, 3);
        assert forall|k: int| 0 <= k < 4 implies arguments::value_text(#[trigger] parsed.values@[k])
            == arguments::last_value(list, k as usize) by {}
    }
    let iterations: usize = match value_number(&parsed.values[2]) {
        Some(n) => n,
        None => 100,
    };
    let warmup: usize = match value_number(&parsed.values[3]) {
        Some(n) => n,
        None => 10,
    };
    match (&parsed.values[0], &parsed.values[1]) {
        (Some(auto), Some(trees)) => Ok(
            TreeArgs { auto: copy_text(auto), trees: copy_text(trees), iterations, warmup },
        ),
        _ => Err(TreeArgsFault::MissingPath),
    }
}

} // verus!
