//! The settings of the programs that compare intersection algorithms.
use crate::arguments;
use crate::arguments::{read, Fault, Parsed, Refuse, Shape, ValueRule};
use crate::evaluation::settings;
use crate::evaluation::settings::value_number;
use crate::text;
use crate::text::is_text;
use vstd::prelude::*;

verus! {

/// How two explicit automata are intersected.
#[derive(Clone, Copy, PartialEq, Eq, Structural, Debug)]
pub enum PairAlgorithm {
    Naive,
    Sibling,
}

impl PairAlgorithm {
    /// The name of an algorithm.
    pub open spec fn called(self) -> Seq<char> {
        match self {
            PairAlgorithm::Naive => "naive"@,
            PairAlgorithm::Sibling => "sibling"@,
        }
    }

    /// The name of an algorithm.
    pub fn name(self) -> (s: &'static str)
        ensures
            s@ == self.called(),
    {
        match self {
            PairAlgorithm::Naive => "naive",
            PairAlgorithm::Sibling => "sibling",
        }
    }
}

/// How the decompositions of a sentence are represented.
#[derive(Clone, Copy, PartialEq, Eq, Structural, Debug)]
pub enum DecompMode {
    Explicit,
    Implicit,
}

impl DecompMode {
    /// The name of a representation.
    pub open spec fn called(self) -> Seq<char> {
        match self {
            DecompMode::Explicit => "explicit"@,
            DecompMode::Implicit => "implicit"@,
        }
    }

    /// The name of a representation.
    pub fn name(self) -> (s: &'static str)
        ensures
            s@ == self.called(),
    {
        match self {
            DecompMode::Explicit => "explicit",
            DecompMode::Implicit => "implicit",
        }
    }
}

/// How a grammar is intersected with the decompositions of a sentence.
#[derive(Clone, Copy, PartialEq, Eq, Structural, Debug)]
pub enum IntersectionMode {
    Eager,
    IndexedCondensed,
    Sibling,
}

impl IntersectionMode {
    /// The name of an algorithm.
    pub open spec fn called(self) -> Seq<char> {
        match self {
            IntersectionMode::Eager => "eager"@,
            IntersectionMode::IndexedCondensed => "indexed-condensed"@,
            IntersectionMode::Sibling => "sibling"@,
        }
    }

    /// The name of an algorithm.
    pub fn name(self) -> (s: &'static str)
        ensures
            s@ == self.called(),
    {
        match self {
            IntersectionMode::Eager => "eager",
            IntersectionMode::IndexedCondensed => "indexed-condensed",
            IntersectionMode::Sibling => "sibling",
        }
    }

    /// The name of the family of an algorithm.
    pub fn family_name(self) -> (s: &'static str)
        ensures
            s@ == (if self == IntersectionMode::Sibling {
                "sibling-intersection"@
            } else {
                "condensed-invhom"@
            }),
    {
        match self {
            IntersectionMode::Sibling => "sibling-intersection",
            IntersectionMode::Eager | IntersectionMode::IndexedCondensed => "condensed-invhom",
        }
    }
}

/// What is wrong with a command line.
#[derive(Debug)]
pub enum ComparisonFault {
    Arguments(Fault),
    /// A number that has to be positive is zero.
    NotPositive,
    /// The sibling algorithm is asked for on explicit decompositions.
    SiblingNeedsImplicit,
}

/// Whether a fault is the first in a command line.
pub open spec fn is_first_fault(args: Seq<Seq<char>>, shape: Shape, f: arguments::FaultModel) -> bool {
    let list = arguments::steps(args, shape);
    exists|i: int|
        0 <= i < list.len() && #[trigger] arguments::fault_at(list, shape, i) == Some(f)
            && arguments::in_order(list, shape, i)
}

/// Whether a command line has no fault.
pub open spec fn is_sound(args: Seq<Seq<char>>, shape: Shape) -> bool {
    let list = arguments::steps(args, shape);
    arguments::in_order(list, shape, list.len() as int)
}

/// The number that a flag is given, or a default.
pub open spec fn number(args: Seq<Seq<char>>, shape: Shape, k: usize, default: int) -> int {
    match arguments::last_value(arguments::steps(args, shape), k) {
        Some(s) => arguments::spelled_number(s)->0 as int,
        None => default,
    }
}

/// The text that a flag is given, or a default.
pub open spec fn chosen(
    args: Seq<Seq<char>>,
    shape: Shape,
    k: usize,
    default: Seq<char>,
) -> Seq<char> {
    match arguments::last_value(arguments::steps(args, shape), k) {
        Some(s) => s,
        None => default,
    }
}

/// Whether the values are those of a sound command line.
pub open spec fn holds_values(parsed: Parsed, args: Seq<Seq<char>>, shape: Shape) -> bool {
    let list = arguments::steps(args, shape);
    &&& is_sound(args, shape)
    &&& parsed.values@.len() == shape.flags@.len()
    &&& forall|k: int|
        0 <= k < parsed.values@.len() ==> arguments::value_text(#[trigger] parsed.values@[k])
            == arguments::last_value(list, k as usize)
}

/// The number that a flag is given, or a default.
fn number_of(
    parsed: &Parsed,
    k: usize,
    default: usize,
    Ghost(args): Ghost<Seq<Seq<char>>>,
    Ghost(shape): Ghost<Shape>,
) -> (n: usize)
    requires
        holds_values(*parsed, args, shape),
        k < shape.flags@.len(),
        shape.flags@[k as int].1 == ValueRule::Number,
    ensures
        n == number(args, shape, k, default as int),
{
    proof {
        let list = arguments::steps(args, shape);
        assert(list.take(list.len() as int) =~= list);
        settings::lemma_last_value(list, shape, list.len() as int, k);
        assert(arguments::value_text(parsed.values@[k as int]) == arguments::last_value(list, k));
    }
    match value_number(&parsed.values[k]) {
        Some(n) => n,
        None => default,
    }
}

/// The settings of the comparison on explicit automata.
#[derive(Debug)]
pub struct PairArgs {
    pub algorithm: PairAlgorithm,
    pub states: usize,
    pub len: usize,
    pub vocab: usize,
    pub iterations: usize,
    pub warmup: usize,
}

/// Whether `shape` is that of the comparison on explicit automata.
pub open spec fn is_pair_shape(shape: Shape) -> bool {
    let f = shape.flags@;
    &&& settings::called(shape.help@, seq!["-h"@, "--help"@])
    &&& shape.refuse == Refuse::All
    &&& f.len() == 6
    &&& settings::called(f[0].0@, seq!["--algorithm"@])
    &&& f[0].1 matches ValueRule::OneOf(names) && settings::called(
        names@,
        seq![PairAlgorithm::Naive.called(), PairAlgorithm::Sibling.called()],
    )
    &&& settings::called(f[1].0@, seq!["--states"@]) && f[1].1 == ValueRule::Number
    &&& settings::called(f[2].0@, seq!["--len"@]) && f[2].1 == ValueRule::Number
    &&& settings::called(f[3].0@, seq!["--vocab"@]) && f[3].1 == ValueRule::Number
    &&& settings::called(f[4].0@, seq!["--iterations"@]) && f[4].1 == ValueRule::Number
    &&& settings::called(f[5].0@, seq!["--warmup"@]) && f[5].1 == ValueRule::Number
}

/// What the comparison on explicit automata accepts.
pub fn pair_shape() -> (shape: Shape)
    ensures
        is_pair_shape(shape),
{
    let mut flags: Vec<(Vec<&'static str>, ValueRule)> = Vec::new();
    flags.push((vec!["--algorithm"], ValueRule::OneOf(vec!["naive", "sibling"])));
    flags.push((vec!["--states"], ValueRule::Number));
    flags.push((vec!["--len"], ValueRule::Number));
    flags.push((vec!["--vocab"], ValueRule::Number));
    flags.push((vec!["--iterations"], ValueRule::Number));
    flags.push((vec!["--warmup"], ValueRule::Number));
    Shape { help: vec!["-h", "--help"], flags, refuse: Refuse::All, plain: None }
}

/// The settings that a command line asks for.
pub open spec fn pair_settings(found: PairArgs, args: Seq<Seq<char>>, shape: Shape) -> bool {
    &&& found.algorithm.called() == chosen(args, shape, 0, PairAlgorithm::Sibling.called())
    &&& found.states == number(args, shape, 1, 16)
    &&& found.len == number(args, shape, 2, 12)
    &&& found.vocab == number(args, shape, 3, 4)
    &&& found.iterations == number(args, shape, 4, 100)
    &&& found.warmup == number(args, shape, 5, 10)
}

/// Whether the sizes that a command line asks for are all positive.
pub open spec fn pair_positive(args: Seq<Seq<char>>, shape: Shape) -> bool {
    &&& 0 < number(args, shape, 1, 16)
    &&& 0 < number(args, shape, 2, 12)
    &&& 0 < number(args, shape, 3, 4)
    &&& 0 < number(args, shape, 4, 100)
}

/// Sets up the comparison on explicit automata from its command line.
pub fn pair_args(args: &Vec<String>, shape: &Shape) -> (r: Result<PairArgs, ComparisonFault>)
    requires
        is_pair_shape(*shape),
    ensures
        match r {
            Ok(found) => {
                &&& is_sound(text::texts(args@), *shape)
                &&& pair_positive(text::texts(args@), *shape)
                &&& pair_settings(found, text::texts(args@), *shape)
            },
            Err(ComparisonFault::Arguments(f)) => is_first_fault(text::texts(args@), *shape, f@),
            Err(ComparisonFault::NotPositive) => is_sound(text::texts(args@), *shape)
                && !pair_positive(text::texts(args@), *shape),
            Err(ComparisonFault::SiblingNeedsImplicit) => false,
        },
{
    let parsed = match read(args, shape) {
        Ok(parsed) => parsed,
        Err(fault) => {
            return Err(ComparisonFault::Arguments(fault));
        },
    };
    let ghost texts = text::texts(args@);
    let ghost list = arguments::steps(texts, *shape);
    proof {
        assert(holds_values(parsed, texts, *shape));
        assert(list.take(list.len() as int) =~= list);
        settings::lemma_last_value(list, *shape, list.len() as int, 0);
        assert(arguments::value_text(parsed.values@[0]) == arguments::last_value(list, 0));
    }
    let mut algorithm = PairAlgorithm::Sibling;
    if let Some(s) = &parsed.values[0] {
        if is_text(s, "naive") {
            algorithm = PairAlgorithm::Naive;
        }
    }
    let states: usize = number_of(&parsed, 1, 16, Ghost(texts), Ghost(*shape));
    let len: usize = number_of(&parsed, 2, 12, Ghost(texts), Ghost(*shape));
    let vocab: usize = number_of(&parsed, 3, 4, Ghost(texts), Ghost(*shape));
    let iterations: usize = number_of(&parsed, 4, 100, Ghost(texts), Ghost(*shape));
    let warmup: usize = number_of(&parsed, 5, 10, Ghost(texts), Ghost(*shape));
    if states == 0 || len == 0 || vocab == 0 || iterations == 0 {
        return Err(ComparisonFault::NotPositive);
    }
    Ok(PairArgs { algorithm, states, len, vocab, iterations, warmup })
}

/// The settings of the comparison on generated strings.
#[derive(Debug)]
pub struct CondensedArgs {
    pub states: usize,
    pub len: usize,
    pub vocab: usize,
    pub lexical_labels: usize,
    pub binary_labels: usize,
    pub iterations: usize,
    pub warmup: usize,
    pub decomp: DecompMode,
    pub intersection: IntersectionMode,
}

/// Whether `shape` is that of the comparison on generated strings.
pub open spec fn is_condensed_shape(shape: Shape) -> bool {
    let f = shape.flags@;
    &&& settings::called(shape.help@, seq!["-h"@, "--help"@])
    &&& shape.refuse == Refuse::All
    &&& f.len() == 9
    &&& settings::called(f[0].0@, seq!["--states"@]) && f[0].1 == ValueRule::Number
    &&& settings::called(f[1].0@, seq!["--len"@]) && f[1].1 == ValueRule::Number
    &&& settings::called(f[2].0@, seq!["--vocab"@]) && f[2].1 == ValueRule::Number
    &&& settings::called(f[3].0@, seq!["--lexical-labels"@]) && f[3].1 == ValueRule::Number
    &&& settings::called(f[4].0@, seq!["--binary-labels"@]) && f[4].1 == ValueRule::Number
    &&& settings::called(f[5].0@, seq!["--iterations"@]) && f[5].1 == ValueRule::Number
    &&& settings::called(f[6].0@, seq!["--warmup"@]) && f[6].1 == ValueRule::Number
    &&& settings::called(f[7].0@, seq!["--decomp"@])
    &&& f[7].1 matches ValueRule::OneOf(names) && settings::called(
        names@,
        seq![DecompMode::Explicit.called(), DecompMode::Implicit.called()],
    )
    &&& settings::called(f[8].0@, seq!["--intersection"@])
    &&& f[8].1 matches ValueRule::OneOf(names) && settings::called(
        names@,
        seq![
            IntersectionMode::Eager.called(),
            IntersectionMode::IndexedCondensed.called(),
            IntersectionMode::Sibling.called(),
        ],
    )
}

/// What the comparison on generated strings accepts.
pub fn condensed_shape() -> (shape: Shape)
    ensures
        is_condensed_shape(shape),
{
    let mut flags: Vec<(Vec<&'static str>, ValueRule)> = Vec::new();
    flags.push((vec!["--states"], ValueRule::Number));
    flags.push((vec!["--len"], ValueRule::Number));
    flags.push((vec!["--vocab"], ValueRule::Number));
    flags.push((vec!["--lexical-labels"], ValueRule::Number));
    flags.push((vec!["--binary-labels"], ValueRule::Number));
    flags.push((vec!["--iterations"], ValueRule::Number));
    flags.push((vec!["--warmup"], ValueRule::Number));
    flags.push((vec!["--decomp"], ValueRule::OneOf(vec!["explicit", "implicit"])));
    flags.push(
        (vec!["--intersection"], ValueRule::OneOf(vec!["eager", "indexed-condensed", "sibling"])),
    );
    Shape { help: vec!["-h", "--help"], flags, refuse: Refuse::All, plain: None }
}

/// The settings that a command line asks for.
pub open spec fn condensed_settings(
    found: CondensedArgs,
    args: Seq<Seq<char>>,
    shape: Shape,
) -> bool {
    &&& found.states == number(args, shape, 0, 16)
    &&& found.len == number(args, shape, 1, 12)
    &&& found.vocab == number(args, shape, 2, 4)
    &&& found.lexical_labels == number(args, shape, 3, 4)
    &&& found.binary_labels == number(args, shape, 4, 16)
    &&& found.iterations == number(args, shape, 5, 10)
    &&& found.warmup == number(args, shape, 6, 2)
    &&& found.decomp.called() == chosen(args, shape, 7, DecompMode::Explicit.called())
    &&& found.intersection.called() == chosen(args, shape, 8, IntersectionMode::Eager.called())
}

/// Whether the sizes that a command line asks for are all positive.
pub open spec fn condensed_positive(args: Seq<Seq<char>>, shape: Shape) -> bool {
    &&& 0 < number(args, shape, 0, 16)
    &&& 0 < number(args, shape, 1, 12)
    &&& 0 < number(args, shape, 2, 4)
    &&& 0 < number(args, shape, 3, 4)
    &&& 0 < number(args, shape, 4, 16)
    &&& 0 < number(args, shape, 5, 10)
}

/// Whether a command line asks for the sibling algorithm on explicit decompositions.
pub open spec fn sibling_on_explicit(args: Seq<Seq<char>>, shape: Shape) -> bool {
    &&& chosen(args, shape, 7, DecompMode::Explicit.called()) == DecompMode::Explicit.called()
    &&& chosen(args, shape, 8, IntersectionMode::Eager.called())
        == IntersectionMode::Sibling.called()
}

/// Sets up the comparison on generated strings from its command line.
pub fn condensed_args(args: &Vec<String>, shape: &Shape) -> (r: Result<
    CondensedArgs,
    ComparisonFault,
>)
    requires
        is_condensed_shape(*shape),
    ensures
        match r {
            Ok(found) => {
                &&& is_sound(text::texts(args@), *shape)
                &&& condensed_positive(text::texts(args@), *shape)
                &&& !sibling_on_explicit(text::texts(args@), *shape)
                &&& condensed_settings(found, text::texts(args@), *shape)
            },
            Err(ComparisonFault::Arguments(f)) => is_first_fault(text::texts(args@), *shape, f@),
            Err(ComparisonFault::NotPositive) => is_sound(text::texts(args@), *shape)
                && !condensed_positive(text::texts(args@), *shape),
            Err(ComparisonFault::SiblingNeedsImplicit) => {
                &&& is_sound(text::texts(args@), *shape)
                &&& condensed_positive(text::texts(args@), *shape)
                &&& sibling_on_explicit(text::texts(args@), *shape)
            },
        },
{
    let parsed = match read(args, shape) {
        Ok(parsed) => parsed,
        Err(fault) => {
            return Err(ComparisonFault::Arguments(fault));
        },
    };
    let ghost texts = text::texts(args@);
    let ghost list = arguments::steps(texts, *shape);
    proof {
        assert(holds_values(parsed, texts, *shape));
        assert(list.take(list.len() as int) =~= list);
        settings::lemma_last_value(list, *shape, list.len() as int, 7);
        settings::lemma_last_value(list, *shape, list.len() as int, 8);
        assert(arguments::value_text(parsed.values@[7]) == arguments::last_value(list, 7));
        assert(arguments::value_text(parsed.values@[8]) == arguments::last_value(list, 8));
        reveal_strlit("explicit");
        reveal_strlit("implicit");
        reveal_strlit("eager");
        reveal_strlit("indexed-condensed");
        reveal_strlit("sibling");
    }
    let mut decomp = DecompMode::Explicit;
    if let Some(s) = &parsed.values[7] {
        if is_text(s, "implicit") {
            decomp = DecompMode::Implicit;
        }
    }
    let mut intersection = IntersectionMode::Eager;
    if let Some(s) = &parsed.values[8] {
        if is_text(s, "indexed-condensed") {
            intersection = IntersectionMode::IndexedCondensed;
        } else if is_text(s, "sibling") {
            intersection = IntersectionMode::Sibling;
        }
    }
    proof {
        assert("explicit"@[0] != "implicit"@[0]);
        assert("sibling"@[0] != "eager"@[0]);
        assert("sibling"@[0] != "indexed-condensed"@[0]);
        assert(decomp.called() == chosen(texts, *shape, 7, DecompMode::Explicit.called()));
        assert(intersection.called() == chosen(texts, *shape, 8, IntersectionMode::Eager.called()));
    }
    let states: usize = number_of(&parsed, 0, 16, Ghost(texts), Ghost(*shape));
    let len: usize = number_of(&parsed, 1, 12, Ghost(texts), Ghost(*shape));
    let vocab: usize = number_of(&parsed, 2, 4, Ghost(texts), Ghost(*shape));
    let lexical_labels: usize = number_of(&parsed, 3, 4, Ghost(texts), Ghost(*shape));
    let binary_labels: usize = number_of(&parsed, 4, 16, Ghost(texts), Ghost(*shape));
    let iterations: usize = number_of(&parsed, 5, 10, Ghost(texts), Ghost(*shape));
    let warmup: usize = number_of(&parsed, 6, 2, Ghost(texts), Ghost(*shape));
    if states == 0 || len == 0 || vocab == 0 || lexical_labels == 0 || binary_labels == 0
        || iterations == 0 {
        return Err(ComparisonFault::NotPositive);
    }
    if decomp == DecompMode::Explicit && intersection == IntersectionMode::Sibling {
        return Err(ComparisonFault::SiblingNeedsImplicit);
    }
    Ok(
        CondensedArgs {
            states,
            len,
            vocab,
            lexical_labels,
            binary_labels,
            iterations,
            warmup,
            decomp,
            intersection,
        },
    )
}

} // verus!
