//! The settings of an evaluation.
use crate::arguments;
use crate::arguments::{parse_usize, read, Fault, Refuse, Shape, StepModel, ValueRule};
use crate::text;
use crate::text::{copy_text, is_text};
use vstd::prelude::*;

verus! {

/// How a chart is made.
#[derive(Clone, Copy, PartialEq, Eq, Structural, Debug)]
pub enum Algorithm {
    Exhaustive,
    Astar,
}

/// What estimates the rest of a derivation.
#[derive(Clone, Copy, PartialEq, Eq, Structural, Debug)]
pub enum Heuristic {
    Zero,
    Outside,
    Sx,
    Sxf,
}

impl Algorithm {
    /// The name of this algorithm.
    pub open spec fn name(self) -> Seq<char> {
        match self {
            Algorithm::Exhaustive => "exhaustive"@,
            Algorithm::Astar => "astar"@,
        }
    }
}

impl Heuristic {
    /// The name of this heuristic.
    pub open spec fn name(self) -> Seq<char> {
        match self {
            Heuristic::Zero => "zero"@,
            Heuristic::Outside => "outside"@,
            Heuristic::Sx => "sx"@,
            Heuristic::Sxf => "sxf"@,
        }
    }
}

/// The name of an algorithm.
pub fn algorithm_label(a: Algorithm) -> (s: &'static str)
    ensures
        s@ == a.name(),
{
    match a {
        Algorithm::Exhaustive => "exhaustive",
        Algorithm::Astar => "astar",
    }
}

/// The name of a heuristic.
pub fn heuristic_label(h: Heuristic) -> (s: &'static str)
    ensures
        s@ == h.name(),
{
    match h {
        Heuristic::Zero => "zero",
        Heuristic::Outside => "outside",
        Heuristic::Sx => "sx",
        Heuristic::Sxf => "sxf",
    }
}

/// The settings of an evaluation.
#[derive(Debug)]
pub struct EvalArgs {
    pub grammar: String,
    pub corpus: String,
    pub output: Option<String>,
    pub limit: Option<usize>,
    pub algorithm: Algorithm,
    pub heuristic: Heuristic,
    pub times: Option<String>,
    pub astar_stats: Option<String>,
    pub jobs: usize,
    pub input: Option<String>,
    pub parseval: Option<String>,
    pub parseval_output: Option<String>,
    pub evalb_param: Option<String>,
}

/// Why no evaluation is set up.
#[derive(Debug)]
pub enum EvalFault {
    Arguments(Fault),
    MissingGrammar,
    MissingCorpus,
}

/// The names of one flag.
pub open spec fn called(names: Seq<&'static str>, wanted: Seq<Seq<char>>) -> bool {
    names.len() == wanted.len() && forall|i: int|
        0 <= i < names.len() ==> (#[trigger] names[i])@ == wanted[i]
}

/// Whether `shape` is that of the evaluation program.
pub open spec fn is_eval_shape(shape: Shape) -> bool {
    let f = shape.flags@;
    &&& called(shape.help@, seq!["-h"@, "--help"@])
    &&& shape.refuse == Refuse::Dash
    &&& shape.plain == Some(2usize)
    &&& f.len() == 11
    &&& called(f[0].0@, seq!["-o"@, "--output"@]) && f[0].1 == ValueRule::Text
    &&& called(f[1].0@, seq!["--limit"@]) && f[1].1 == ValueRule::Number
    &&& called(f[2].0@, seq!["--algorithm"@]) && (f[2].1 matches ValueRule::OneOf(names) && called(
        names@,
        seq![Algorithm::Exhaustive.name(), Algorithm::Astar.name()],
    ))
    &&& called(f[3].0@, seq!["--heuristic"@]) && (f[3].1 matches ValueRule::OneOf(names) && called(
        names@,
        seq![
            Heuristic::Zero.name(),
            Heuristic::Outside.name(),
            Heuristic::Sx.name(),
            Heuristic::Sxf.name(),
        ],
    ))
    &&& called(f[4].0@, seq!["--times"@]) && f[4].1 == ValueRule::Text
    &&& called(f[5].0@, seq!["--astar-stats"@]) && f[5].1 == ValueRule::Text
    &&& called(f[6].0@, seq!["--jobs"@]) && f[6].1 == ValueRule::Positive
    &&& called(f[7].0@, seq!["--input"@]) && f[7].1 == ValueRule::Text
    &&& called(f[8].0@, seq!["--parseval"@]) && f[8].1 == ValueRule::Text
    &&& called(f[9].0@, seq!["--parseval-output"@]) && f[9].1 == ValueRule::Text
    &&& called(f[10].0@, seq!["--evalb-param"@]) && f[10].1 == ValueRule::Text
}

/// What the evaluation program accepts.
pub fn eval_shape() -> (shape: Shape)
    ensures
        is_eval_shape(shape),
{
    let mut flags: Vec<(Vec<&'static str>, ValueRule)> = Vec::new();
    flags.push((vec!["-o", "--output"], ValueRule::Text));
    flags.push((vec!["--limit"], ValueRule::Number));
    flags.push((vec!["--algorithm"], ValueRule::OneOf(vec!["exhaustive", "astar"])));
    flags.push((vec!["--heuristic"], ValueRule::OneOf(vec!["zero", "outside", "sx", "sxf"])));
    flags.push((vec!["--times"], ValueRule::Text));
    flags.push((vec!["--astar-stats"], ValueRule::Text));
    flags.push((vec!["--jobs"], ValueRule::Positive));
    flags.push((vec!["--input"], ValueRule::Text));
    flags.push((vec!["--parseval"], ValueRule::Text));
    flags.push((vec!["--parseval-output"], ValueRule::Text));
    flags.push((vec!["--evalb-param"], ValueRule::Text));
    Shape { help: vec!["-h", "--help"], flags, refuse: Refuse::Dash, plain: Some(2) }
}

/// The number that a value spells, or another where there is no value.
pub open spec fn number_or(value: Option<Seq<char>>, other: nat) -> nat {
    match value {
        Some(s) => match arguments::spelled_number(s) {
            Some(n) => n,
            None => other,
        },
        None => other,
    }
}

/// Whether the settings are those of an accepted command line.
pub open spec fn settings_hold(list: Seq<StepModel>, args: EvalArgs, jobs: usize) -> bool {
    let plain = arguments::plain_texts(list);
    &&& plain.len() == 2
    &&& args.grammar@ == plain[0]
    &&& args.corpus@ == plain[1]
    &&& arguments::value_text(args.output) == arguments::last_value(list, 0)
    &&& match arguments::last_value(list, 1) {
        Some(s) => args.limit matches Some(n) && arguments::spelled_number(s) == Some(n as nat),
        None => args.limit is None,
    }
    &&& match arguments::last_value(list, 2) {
        Some(s) => args.algorithm.name() == s,
        None => args.algorithm == Algorithm::Exhaustive,
    }
    &&& match arguments::last_value(list, 3) {
        Some(s) => args.heuristic.name() == s,
        None => args.heuristic == Heuristic::Zero,
    }
    &&& arguments::value_text(args.times) == arguments::last_value(list, 4)
    &&& arguments::value_text(args.astar_stats) == arguments::last_value(list, 5)
    &&& args.jobs == number_or(arguments::last_value(list, 6), jobs as nat)
    &&& arguments::value_text(args.input) == arguments::last_value(list, 7)
    &&& arguments::value_text(args.parseval) == arguments::last_value(list, 8)
    &&& arguments::value_text(args.parseval_output) == arguments::last_value(list, 9)
    &&& arguments::value_text(args.evalb_param) == arguments::last_value(list, 10)
}

/// The last value of a flag in an accepted command line is in order.
pub proof fn lemma_last_value(list: Seq<StepModel>, shape: Shape, n: int, k: usize)
    requires
        0 <= n <= list.len(),
        arguments::in_order(list, shape, n),
    ensures
        arguments::last_value(list.take(n), k) matches Some(s) ==> arguments::value_fault(
            shape.flags@[k as int].1,
            k,
            s,
        ) is None,
    decreases n,
{
    if n > 0 {
        lemma_last_value(list, shape, n - 1, k);
        assert(list.take(n).drop_last() =~= list.take(n - 1));
        assert(list.take(n).last() == list[n - 1]);
        assert(arguments::fault_at(list, shape, n - 1) is None);
    }
}

/// A copy of an optional text.
pub fn copy_value(value: &Option<String>) -> (r: Option<String>)
    ensures
        arguments::value_text(r) == arguments::value_text(*value),
{
    match value {
        Some(s) => Some(copy_text(s)),
        None => None,
    }
}

/// The number that an optional text spells.
pub fn value_number(value: &Option<String>) -> (r: Option<usize>)
    ensures
        match arguments::value_text(*value) {
            Some(s) => match r {
                Some(n) => arguments::spelled_number(s) == Some(n as nat),
                None => arguments::spelled_number(s) is None,
            },
            None => r is None,
        },
{
    match value {
        Some(s) => parse_usize(s.as_str()),
        None => None,
    }
}

/// Sets up an evaluation from its command line. `jobs` is used where no number of jobs
/// is given.
pub fn eval_args(args: &Vec<String>, shape: &Shape, jobs: usize) -> (r: Result<
    EvalArgs,
    EvalFault,
>)
    requires
        is_eval_shape(*shape),
    ensures
        ({
            let list = arguments::steps(text::texts(args@), *shape);
            match r {
                Ok(settings) => arguments::in_order(list, *shape, list.len() as int)
                    && settings_hold(list, settings, jobs),
                Err(EvalFault::Arguments(f)) => exists|i: int|
                    0 <= i < list.len() && #[trigger] arguments::fault_at(list, *shape, i)
                        == Some(f@) && arguments::in_order(list, *shape, i),
                Err(EvalFault::MissingGrammar) => arguments::in_order(
                    list,
                    *shape,
                    list.len() as int,
                ) && arguments::plain_texts(list).len() == 0,
                Err(EvalFault::MissingCorpus) => arguments::in_order(
                    list,
                    *shape,
                    list.len() as int,
                ) && arguments::plain_texts(list).len() == 1,
            }
        }),
{
    let parsed = match read(args, shape) {
        Ok(parsed) => parsed,
        Err(fault) => {
            return Err(EvalFault::Arguments(fault));
        },
    };
    let ghost list = arguments::steps(text::texts(args@), *shape);
    let ghost n = list.len() as int;
    proof {
        assert(list.take(n) =~= list);
        lemma_last_value(list, *shape, n, 1);
        lemma_last_value(list, *shape, n, 2);
        lemma_last_value(list, *shape, n, 3);
        lemma_last_value(list, *shape, n, 6);
        lemma_plain_bounded(list, *shape, n);
        assert(text::texts(parsed.plain@).len() == parsed.plain@.len());
        assert forall|k: int| 0 <= k < 11 implies arguments::value_text(
            #[trigger] parsed.values@[k],
        ) == arguments::last_value(list, k as usize) by {}
    }
    if parsed.plain.len() == 0 {
        return Err(EvalFault::MissingGrammar);
    }
    if parsed.plain.len() == 1 {
        return Err(EvalFault::MissingCorpus);
    }
    let mut algorithm = Algorithm::Exhaustive;
    if let Some(s) = &parsed.values[2] {
        if is_text(s, "astar") {
            algorithm = Algorithm::Astar;
        }
    }
    let mut heuristic = Heuristic::Zero;
    if let Some(s) = &parsed.values[3] {
        if is_text(s, "outside") {
            heuristic = Heuristic::Outside;
        } else if is_text(s, "sx") {
            heuristic = Heuristic::Sx;
        } else if is_text(s, "sxf") {
            heuristic = Heuristic::Sxf;
        }
    }
    let chosen: Option<usize> = value_number(&parsed.values[6]);
    let settings = EvalArgs {
        grammar: copy_text(&parsed.plain[0]),
        corpus: copy_text(&parsed.plain[1]),
        output: copy_value(&parsed.values[0]),
        limit: value_number(&parsed.values[1]),
        algorithm,
        heuristic,
        times: copy_value(&parsed.values[4]),
        astar_stats: copy_value(&parsed.values[5]),
        jobs: match chosen {
            Some(n) => n,
            None => jobs,
        },
        input: copy_value(&parsed.values[7]),
        parseval: copy_value(&parsed.values[8]),
        parseval_output: copy_value(&parsed.values[9]),
        evalb_param: copy_value(&parsed.values[10]),
    };
    proof {
        let plain = arguments::plain_texts(list);
        assert(plain[0] == parsed.plain@[0]@);
        assert(plain[1] == parsed.plain@[1]@);
    }
    Ok(settings)
}

/// An accepted command line has no more other arguments than the limit.
proof fn lemma_plain_bounded(list: Seq<StepModel>, shape: Shape, n: int)
    requires
        0 <= n <= list.len(),
        arguments::in_order(list, shape, n),
        shape.plain is Some,
    ensures
        arguments::plain_texts(list.take(n)).len() <= shape.plain->0,
    decreases n,
{
    if n > 0 {
        lemma_plain_bounded(list, shape, n - 1);
        assert(list.take(n).drop_last() =~= list.take(n - 1));
        assert(list.take(n).last() == list[n - 1]);
        assert(arguments::fault_at(list, shape, n - 1) is None);
    }
}

} // verus!
