//! What an evaluation does with a corpus.
use crate::evaluation::settings::{
    algorithm_label, heuristic_label, Algorithm, EvalArgs, Heuristic,
};
use crate::irtg::assemble::Irtg;
use crate::irtg::grammar::InterpretationKind;
use crate::text;
use crate::text::{chars_of, copy_text, is_text, joined, same_text};
use crate::alto_ast;
use crate::alto_ast::decimal_text;
use vstd::prelude::*;

verus! {

/// How many words, separated by white space, a text has: as many as there are places
/// where a word starts.
pub open spec fn word_total(s: Seq<char>) -> nat
    decreases s.len(),
{
    if s.len() == 0 {
        0
    } else {
        let n = s.len() - 1;
        word_total(s.drop_last()) + if !text::white_space(s[n]) && (n == 0 || text::white_space(
            s[n - 1],
        )) {
            1nat
        } else {
            0nat
        }
    }
}

/// Counts the words of an optional text.
pub fn word_count(t: Option<&str>) -> (n: usize)
    ensures
        n == (match t {
            Some(s) => word_total(s@),
            None => 0,
        }),
{
    let s = match t {
        Some(s) => s,
        None => {
            return 0;
        },
    };
    let c = chars_of(s);
    let mut n: usize = 0;
    let mut i: usize = 0;
    let mut between = true;
    assert(c@.take(0) =~= Seq::empty());
    while i < c.len()
        invariant
            i <= c@.len(),
            n <= i,
            n == word_total(c@.take(i as int)),
            between == (i == 0 || text::white_space(c@[i - 1])),
        decreases c@.len() - i,
    {
        proof {
            let next = c@.take(i + 1);
            assert(next.drop_last() =~= c@.take(i as int));
            assert(next[i as int] == c@[i as int]);
            if i > 0 {
                assert(next[i - 1] == c@[i - 1]);
            }
        }
        let space = c[i].is_whitespace();
        if !space && between {
            n += 1;
        }
        between = space;
        i += 1;
    }
    assert(c@.take(i as int) =~= c@);
    n
}

/// Whether a name is listed.
pub open spec fn has_name(names: Seq<Seq<char>>, name: Seq<char>) -> bool {
    exists|i: int| 0 <= i < names.len() && #[trigger] names[i] == name
}

/// Whether a name is listed.
pub fn contains_name(names: &Vec<String>, name: &String) -> (r: bool)
    ensures
        r == has_name(text::texts(names@), name@),
{
    let ghost all = text::texts(names@);
    let mut i: usize = 0;
    while i < names.len()
        invariant
            i <= names@.len(),
            all == text::texts(names@),
            forall|j: int| 0 <= j < i ==> #[trigger] all[j] != name@,
        decreases names@.len() - i,
    {
        if same_text(&names[i], name) {
            assert(all[i as int] == name@);
            return true;
        }
        i += 1;
    }
    false
}

/// The first preferred name that is listed, or else the first name of the list.
pub open spec fn preferred(names: Seq<Seq<char>>, favourites: Seq<Seq<char>>) -> Option<Seq<char>>
    decreases favourites.len(),
{
    if favourites.len() == 0 {
        if names.len() == 0 {
            None
        } else {
            Some(names[0])
        }
    } else if has_name(names, favourites[0]) {
        Some(favourites[0])
    } else {
        preferred(names, favourites.skip(1))
    }
}

/// Chooses a name: the first preferred one that is listed, or else the first.
pub fn choose_name(names: &Vec<String>, favourites: &Vec<&'static str>) -> (r: Option<String>)
    ensures
        ({
            let wanted = Seq::new(favourites@.len(), |i: int| favourites@[i]@);
            match r {
                Some(s) => preferred(text::texts(names@), wanted) == Some(s@),
                None => preferred(text::texts(names@), wanted) is None,
            }
        }),
{
    let ghost wanted = Seq::new(favourites@.len(), |i: int| favourites@[i]@);
    let ghost all = text::texts(names@);
    let mut i: usize = 0;
    assert(wanted.skip(0) =~= wanted);
    while i < favourites.len()
        invariant
            i <= favourites@.len(),
            wanted == Seq::new(favourites@.len(), |i: int| favourites@[i]@),
            all == text::texts(names@),
            preferred(all, wanted) == preferred(all, wanted.skip(i as int)),
        decreases favourites@.len() - i,
    {
        assert(wanted.skip(i as int)[0] == favourites@[i as int]@);
        assert(wanted.skip(i as int).skip(1) =~= wanted.skip(i + 1));
        let name = favourites[i].to_owned();
        if contains_name(names, &name) {
            return Some(name);
        }
        i += 1;
    }
    assert(wanted.skip(i as int) =~= Seq::empty());
    if names.len() == 0 {
        None
    } else {
        assert(all[0] == names@[0]@);
        Some(copy_text(&names[0]))
    }
}

/// The names that an evaluation prefers to parse.
pub open spec fn evaluation_favourites() -> Seq<Seq<char>> {
    seq!["english"@, "i"@]
}

/// Chooses the interpretation that sets the length of a sentence; nothing where there is
/// none.
pub fn choose_primary(names: &Vec<String>) -> (r: String)
    ensures
        match preferred(text::texts(names@), evaluation_favourites()) {
            Some(s) => r@ == s,
            None => r@ == Seq::<char>::empty(),
        },
{
    let favourites: Vec<&'static str> = vec!["english", "i"];
    assert(Seq::new(favourites@.len(), |i: int| favourites@[i]@) =~= evaluation_favourites());
    match choose_name(names, &favourites) {
        Some(s) => s,
        None => {
            proof {
                reveal_strlit("");
            }
            let empty = "".to_owned();
            assert(empty@ =~= Seq::<char>::empty());
            empty
        },
    }
}

/// Chooses the string interpretation of a grammar to parse with.
pub fn choose_string_interpretation(irtg: &Irtg) -> (r: Option<String>)
    ensures
        exists|names: Seq<Seq<char>>| #[trigger]
            lists_strings(irtg, names) && (match r {
                Some(s) => preferred(names, evaluation_favourites()) == Some(s@),
                None => preferred(names, evaluation_favourites()) is None,
            }),
{
    let names = irtg.string_interpretation_names();
    let favourites: Vec<&'static str> = vec!["english", "i"];
    assert(Seq::new(favourites@.len(), |i: int| favourites@[i]@) =~= evaluation_favourites());
    assert(lists_strings(irtg, text::texts(names@)));
    choose_name(&names, &favourites)
}

/// Whether `names` are the names of the string interpretations, in order.
pub open spec fn lists_strings(irtg: &Irtg, names: Seq<Seq<char>>) -> bool {
    names == crate::codecs::tulipac::compile::sorted_texts(
        crate::irtg::parse::names_where(
            irtg@.interpretations,
            |k: InterpretationKind| crate::irtg::parse::is_string(k),
        ),
    )
}

/// Whether `names` are the names of the interpretations that can be parsed, in order.
pub open spec fn lists_inputs(irtg: &Irtg, names: Seq<Seq<char>>) -> bool {
    names == crate::codecs::tulipac::compile::sorted_texts(
        crate::irtg::parse::names_where(
            irtg@.interpretations,
            |k: InterpretationKind| crate::irtg::parse::is_input(k),
        ),
    )
}

/// The names that the interactive program prefers to parse.
pub open spec fn interactive_favourites() -> Seq<Seq<char>> {
    seq!["string"@, "english"@, "i"@]
}

/// Chooses the interpretation that sentences are parsed with.
pub fn choose_input_interpretation(irtg: &Irtg) -> (r: Option<String>)
    ensures
        exists|names: Seq<Seq<char>>| #[trigger]
            lists_inputs(irtg, names) && (match r {
                Some(s) => preferred(names, interactive_favourites()) == Some(s@),
                None => preferred(names, interactive_favourites()) is None,
            }),
{
    let names = irtg.input_interpretation_names();
    let favourites: Vec<&'static str> = vec!["string", "english", "i"];
    assert(Seq::new(favourites@.len(), |i: int| favourites@[i]@) =~= interactive_favourites());
    assert(lists_inputs(irtg, text::texts(names@)));
    choose_name(&names, &favourites)
}

/// Why an evaluation does not start.
#[derive(Debug)]
pub enum RunFault {
    /// The corpus lacks the interpretation to be scored.
    UndeclaredParseval(String),
    NoInterpretations,
    NothingToParse,
    /// The interpretation that sets the length cannot be parsed.
    NotInputable(String),
}

/// What an evaluation parses from.
#[derive(Debug)]
pub struct RunPlan {
    pub inputable: Vec<String>,
    pub primary: String,
}

/// The names that are marked.
pub open spec fn marked_names(names: Seq<Seq<char>>, marks: Seq<bool>) -> Seq<Seq<char>>
    decreases names.len(),
{
    if names.len() == 0 {
        Seq::empty()
    } else {
        let earlier = marked_names(names.drop_last(), marks.drop_last());
        if marks.last() {
            earlier.push(names.last())
        } else {
            earlier
        }
    }
}

/// The interpretation that sets the length of a sentence.
pub open spec fn primary_of(input: Option<Seq<char>>, inputable: Seq<Seq<char>>) -> Seq<char> {
    match input {
        Some(s) => s,
        None => match preferred(inputable, evaluation_favourites()) {
            Some(s) => s,
            None => Seq::empty(),
        },
    }
}

/// Whether the heuristic depends on the length of the sentence.
pub open spec fn needs_length(args: EvalArgs) -> bool {
    args.algorithm == Algorithm::Astar && (args.heuristic == Heuristic::Sx || args.heuristic
        == Heuristic::Sxf)
}

/// The optional text of a setting.
pub open spec fn setting(value: Option<String>) -> Option<Seq<char>> {
    match value {
        Some(s) => Some(s@),
        None => None,
    }
}

/// What comes of planning an evaluation of a corpus with these interpretations.
pub open spec fn planned(
    args: EvalArgs,
    order: Seq<Seq<char>>,
    marks: Seq<bool>,
    r: Result<RunPlan, RunFault>,
) -> bool {
    let inputable = marked_names(order, marks);
    let primary = primary_of(setting(args.input), inputable);
    if args.parseval is Some && !has_name(order, args.parseval->0@) {
        r matches Err(RunFault::UndeclaredParseval(s)) && s@ == args.parseval->0@
    } else if order.len() == 0 {
        r matches Err(RunFault::NoInterpretations)
    } else if inputable.len() == 0 {
        r matches Err(RunFault::NothingToParse)
    } else if needs_length(args) && !has_name(inputable, primary) {
        r matches Err(RunFault::NotInputable(s)) && s@ == primary
    } else {
        r matches Ok(plan) && text::texts(plan.inputable@) == inputable && plan.primary@ == primary
    }
}

/// Plans an evaluation of a corpus that declares the interpretations `order`, of which
/// the marked ones can be parsed.
pub fn plan_run(args: &EvalArgs, order: &Vec<String>, marks: &Vec<bool>) -> (r: Result<
    RunPlan,
    RunFault,
>)
    requires
        marks@.len() == order@.len(),
    ensures
        planned(*args, text::texts(order@), marks@, r),
{
    let ghost all = text::texts(order@);
    if let Some(name) = &args.parseval {
        if !contains_name(order, name) {
            return Err(RunFault::UndeclaredParseval(copy_text(name)));
        }
    }
    assert(all.len() == order@.len());
    if order.len() == 0 {
        return Err(RunFault::NoInterpretations);
    }
    let mut inputable: Vec<String> = Vec::new();
    let mut i: usize = 0;
    proof {
        assert(all.take(0) =~= Seq::empty());
        assert(marks@.take(0) =~= Seq::empty());
        assert(text::texts(inputable@) =~= Seq::empty());
    }
    while i < order.len()
        invariant
            i <= order@.len(),
            marks@.len() == order@.len(),
            all == text::texts(order@),
            text::texts(inputable@) == marked_names(all.take(i as int), marks@.take(i as int)),
        decreases order@.len() - i,
    {
        let ghost before = inputable@;
        proof {
            assert(all.take(i + 1).drop_last() =~= all.take(i as int));
            assert(marks@.take(i + 1).drop_last() =~= marks@.take(i as int));
            assert(all.take(i + 1).last() == order@[i as int]@);
            assert(marks@.take(i + 1).last() == marks@[i as int]);
        }
        if marks[i] {
            inputable.push(copy_text(&order[i]));
            assert(text::texts(inputable@) =~= text::texts(before).push(order@[i as int]@));
        }
        i += 1;
    }
    proof {
        assert(all.take(i as int) =~= all);
        assert(marks@.take(i as int) =~= marks@);
        assert(text::texts(inputable@).len() == inputable@.len());
    }
    if inputable.len() == 0 {
        return Err(RunFault::NothingToParse);
    }
    let primary = match &args.input {
        Some(name) => copy_text(name),
        None => choose_primary(&inputable),
    };
    let by_length = match args.heuristic {
        Heuristic::Sx => true,
        Heuristic::Sxf => true,
        _ => false,
    };
    if by_length && args.algorithm == Algorithm::Astar && !contains_name(&inputable, &primary) {
        return Err(RunFault::NotInputable(primary));
    }
    Ok(RunPlan { inputable, primary })
}

/// The resources that an algorithm and a heuristic need.
#[derive(Clone, Copy, PartialEq, Eq, Structural, Debug)]
pub struct Resources {
    pub prepared_grammar: bool,
    pub outside: bool,
    pub sx_table: bool,
    pub obligations: bool,
}

/// The resources to build before sentences are parsed.
pub fn resources(algorithm: Algorithm, heuristic: Heuristic) -> (r: Resources)
    ensures
        r.prepared_grammar == (algorithm == Algorithm::Astar),
        r.outside == (algorithm == Algorithm::Astar && heuristic == Heuristic::Outside),
        r.sx_table == (algorithm == Algorithm::Astar && (heuristic == Heuristic::Sx || heuristic
            == Heuristic::Sxf)),
        r.obligations == (algorithm == Algorithm::Astar && heuristic == Heuristic::Sxf),
{
    let search = algorithm == Algorithm::Astar;
    Resources {
        prepared_grammar: search,
        outside: search && heuristic == Heuristic::Outside,
        sx_table: search && (heuristic == Heuristic::Sx || heuristic == Heuristic::Sxf),
        obligations: search && heuristic == Heuristic::Sxf,
    }
}

/// Whether `m` is the greatest of the numbers, or zero where there is none.
pub open spec fn is_greatest(numbers: Seq<usize>, m: usize) -> bool {
    &&& forall|i: int| 0 <= i < numbers.len() ==> (#[trigger] numbers[i]) <= m
    &&& numbers.len() == 0 ==> m == 0
    &&& numbers.len() > 0 ==> numbers.contains(m)
}

/// The greatest of the numbers.
pub fn greatest(numbers: &Vec<usize>) -> (m: usize)
    ensures
        is_greatest(numbers@, m),
{
    let mut m: usize = 0;
    let mut i: usize = 0;
    while i < numbers.len()
        invariant
            i <= numbers@.len(),
            forall|j: int| 0 <= j < i ==> (#[trigger] numbers@[j]) <= m,
            i == 0 ==> m == 0,
            i > 0 ==> exists|j: int| 0 <= j < i && numbers@[j] == m,
        decreases numbers@.len() - i,
    {
        let n: usize = numbers[i];
        if i == 0 || n > m {
            m = n;
            assert(numbers@[i as int] == m);
        }
        i += 1;
    }
    m
}

/// How a scored interpretation represents its trees.
#[derive(Clone, Copy, PartialEq, Eq, Structural, Debug)]
pub enum TreeInterpretationKind {
    Plain,
    Binarizing,
}

/// Why nothing can be scored.
#[derive(Debug, PartialEq, Eq)]
pub enum ParsevalFault {
    /// Scoring options without an interpretation to score.
    NotRequested,
    UnknownInterpretation,
    /// The interpretation has no constituency trees.
    NoTrees,
}

/// The kind of the trees that an algebra builds.
pub open spec fn tree_kind(class: Seq<char>) -> Option<TreeInterpretationKind> {
    if class == "de.up.ling.irtg.algebra.TreeWithAritiesAlgebra"@ {
        Some(TreeInterpretationKind::Plain)
    } else if class == "de.up.ling.irtg.algebra.BinarizingTreeWithAritiesAlgebra"@ {
        Some(TreeInterpretationKind::Binarizing)
    } else {
        None
    }
}

/// Decides what to score: `class` is the algebra of the interpretation to be scored, if
/// the grammar has that interpretation.
pub fn parseval_request(args: &EvalArgs, class: Option<&String>) -> (r: Result<
    Option<TreeInterpretationKind>,
    ParsevalFault,
>)
    ensures
        if args.parseval is None {
            if args.evalb_param is Some || args.parseval_output is Some {
                r == Err::<Option<TreeInterpretationKind>, ParsevalFault>(
                    ParsevalFault::NotRequested,
                )
            } else {
                r == Ok::<Option<TreeInterpretationKind>, ParsevalFault>(None)
            }
        } else {
            match class {
                None => r == Err::<Option<TreeInterpretationKind>, ParsevalFault>(
                    ParsevalFault::UnknownInterpretation,
                ),
                Some(c) => match tree_kind(c@) {
                    Some(kind) => r == Ok::<Option<TreeInterpretationKind>, ParsevalFault>(
                        Some(kind),
                    ),
                    None => r == Err::<Option<TreeInterpretationKind>, ParsevalFault>(
                        ParsevalFault::NoTrees,
                    ),
                },
            }
        },
        args.parseval is Some && class is Some ==> {
            let name = class->0@;
            &&& name == "de.up.ling.irtg.algebra.TreeWithAritiesAlgebra"@ <==> r == Ok::<
                Option<TreeInterpretationKind>,
                ParsevalFault,
            >(Some(TreeInterpretationKind::Plain))
            &&& name == "de.up.ling.irtg.algebra.BinarizingTreeWithAritiesAlgebra"@ <==> r == Ok::<
                Option<TreeInterpretationKind>,
                ParsevalFault,
            >(Some(TreeInterpretationKind::Binarizing))
            &&& r is Err <==> name != "de.up.ling.irtg.algebra.TreeWithAritiesAlgebra"@ && name
                != "de.up.ling.irtg.algebra.BinarizingTreeWithAritiesAlgebra"@
        },
{
    proof {
        crate::evaluation::plan_laws::law_scored_classes(Seq::empty());
    }
    if args.parseval.is_none() {
        if args.evalb_param.is_some() || args.parseval_output.is_some() {
            return Err(ParsevalFault::NotRequested);
        }
        return Ok(None);
    }
    match class {
        None => Err(ParsevalFault::UnknownInterpretation),
        Some(c) => if is_text(c, "de.up.ling.irtg.algebra.TreeWithAritiesAlgebra") {
            Ok(Some(TreeInterpretationKind::Plain))
        } else if is_text(c, "de.up.ling.irtg.algebra.BinarizingTreeWithAritiesAlgebra") {
            Ok(Some(TreeInterpretationKind::Binarizing))
        } else {
            Err(ParsevalFault::NoTrees)
        },
    }
}

/// The comment lines at the head of an output corpus.
pub open spec fn comment_texts(
    args: EvalArgs,
    primary: Seq<char>,
    timestamp: Seq<char>,
) -> Seq<Seq<char>> {
    let first = seq![
        "Parsed by rusty-alto eval on "@ + timestamp,
        "grammar = "@ + args.grammar@,
        "corpus = "@ + args.corpus@,
        "algorithm = "@ + args.algorithm.name(),
    ];
    let search = if args.algorithm == Algorithm::Astar {
        seq!["heuristic = "@ + args.heuristic.name(), "input interpretation = "@ + primary]
    } else {
        Seq::empty()
    };
    first + search + seq!["jobs = "@ + alto_ast::decimal(args.jobs as nat)]
}

/// Writes the comment lines at the head of an output corpus.
pub fn header_comments(args: &EvalArgs, primary: &String, timestamp: &String) -> (r: Vec<String>)
    ensures
        text::texts(r@) == comment_texts(*args, primary@, timestamp@),
{
    let mut r: Vec<String> = Vec::new();
    r.push(joined("Parsed by rusty-alto eval on ", timestamp.as_str()));
    r.push(joined("grammar = ", args.grammar.as_str()));
    r.push(joined("corpus = ", args.corpus.as_str()));
    r.push(joined("algorithm = ", algorithm_label(args.algorithm)));
    if args.algorithm == Algorithm::Astar {
        r.push(joined("heuristic = ", heuristic_label(args.heuristic)));
        r.push(joined("input interpretation = ", primary.as_str()));
    }
    r.push(joined("jobs = ", decimal_text(args.jobs).as_str()));
    assert(text::texts(r@) =~= comment_texts(*args, primary@, timestamp@));
    r
}

} // verus!
