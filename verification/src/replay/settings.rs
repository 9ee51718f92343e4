//! The settings of the replay.
use super::strategies::JoinStrategy;
use crate::arguments;
use crate::arguments::{read, split_commas, Fault, Refuse, Shape, ValueRule};
use crate::bench::comparison;
use crate::evaluation::settings;
use crate::evaluation::settings::value_number;
use crate::text;
use crate::text::copy_text;
use vstd::prelude::*;

verus! {

/// The settings of the replay.
#[derive(Debug)]
pub struct ReplayArgs {
    pub grammar: String,
    pub sentences: String,
    /// The sentence to parse, counted from one.
    pub sentence: usize,
    pub max_events: Option<usize>,
    pub strategies: Vec<JoinStrategy>,
}

/// What is wrong with the command line of the replay.
#[derive(Debug)]
pub enum ReplayFault {
    /// The grammar or the sentences are not named.
    MissingPath,
    Arguments(Fault),
}

/// All strategies.
pub open spec fn all_strategies() -> Seq<JoinStrategy> {
    seq![
        JoinStrategy::Singleton,
        JoinStrategy::SingletonJoinOnly,
        JoinStrategy::SingletonLocalProduct,
        JoinStrategy::SingletonNoAlloc,
        JoinStrategy::Batched,
        JoinStrategy::ExactBinary,
        JoinStrategy::ChildNarrow,
        JoinStrategy::SingletonSymbols,
    ]
}

/// The names of strategies.
pub open spec fn names_of(list: Seq<JoinStrategy>) -> Seq<Seq<char>> {
    Seq::new(list.len(), |i: int| list[i].called())
}

/// Whether `shape` is that of the replay's flags.
pub open spec fn is_replay_shape(shape: Shape) -> bool {
    let f = shape.flags@;
    &&& shape.help@.len() == 0
    &&& shape.refuse == Refuse::All
    &&& f.len() == 3
    &&& settings::called(f[0].0@, seq!["--sentence"@]) && f[0].1 == ValueRule::Number
    &&& settings::called(f[1].0@, seq!["--max-events"@]) && f[1].1 == ValueRule::Number
    &&& settings::called(f[2].0@, seq!["--strategies"@])
    &&& f[2].1 matches ValueRule::ListOf(names) && settings::called(
        names@,
        names_of(all_strategies()),
    )
}

/// What the replay accepts behind its two paths.
pub fn replay_shape() -> (shape: Shape)
    ensures
        is_replay_shape(shape),
{
    let mut flags: Vec<(Vec<&'static str>, ValueRule)> = Vec::new();
    flags.push((vec!["--sentence"], ValueRule::Number));
    flags.push((vec!["--max-events"], ValueRule::Number));
    let names: Vec<&'static str> = vec![
        "singleton",
        "singleton-join-only",
        "singleton-local-product",
        "singleton-no-alloc",
        "batched",
        "exact-binary",
        "child-narrow",
        "singleton-symbols",
    ];
    flags.push((vec!["--strategies"], ValueRule::ListOf(names)));
    Shape { help: Vec::new(), flags, refuse: Refuse::All, plain: None }
}

/// The settings that a command line asks for: two paths, then flags.
pub open spec fn replay_settings(
    found: ReplayArgs,
    args: Seq<Seq<char>>,
    shape: Shape,
) -> bool {
    let rest = args.skip(2);
    let list = arguments::steps(rest, shape);
    &&& found.grammar@ == args[0]
    &&& found.sentences@ == args[1]
    &&& found.sentence == comparison::number(rest, shape, 0, 1)
    &&& match arguments::last_value(list, 1) {
        Some(s) => found.max_events matches Some(n) && arguments::spelled_number(s) == Some(
            n as nat,
        ),
        None => found.max_events is None,
    }
    &&& names_of(found.strategies@) == match arguments::last_value(list, 2) {
        Some(s) => arguments::comma_parts(s),
        None => names_of(all_strategies()),
    }
}

proof fn lemma_all_listed(names: Seq<&'static str>, parts: Seq<Seq<char>>, i: int)
    requires
        arguments::first_unlisted(names, parts) is None,
        0 <= i < parts.len(),
    ensures
        arguments::is_listed(names, parts[i]),
    decreases parts.len(),
{
    if i > 0 {
        lemma_all_listed(names, parts.skip(1), i - 1);
        assert(parts.skip(1)[i - 1] == parts[i]);
    }
}

/// All strategies, in the order in which they are run.
pub fn every_strategy() -> (r: Vec<JoinStrategy>)
    ensures
        r@ == all_strategies(),
{
    vec![
        JoinStrategy::Singleton,
        JoinStrategy::SingletonJoinOnly,
        JoinStrategy::SingletonLocalProduct,
        JoinStrategy::SingletonNoAlloc,
        JoinStrategy::Batched,
        JoinStrategy::ExactBinary,
        JoinStrategy::ChildNarrow,
        JoinStrategy::SingletonSymbols,
    ]
}

/// Sets up the replay from its command line.
pub fn replay_args(args: &Vec<String>, shape: &Shape) -> (r: Result<ReplayArgs, ReplayFault>)
    requires
        is_replay_shape(*shape),
    ensures
        match r {
            Ok(found) => {
                &&& args@.len() >= 2
                &&& comparison::is_sound(text::texts(args@).skip(2), *shape)
                &&& replay_settings(found, text::texts(args@), *shape)
            },
            Err(ReplayFault::MissingPath) => args@.len() < 2,
            Err(ReplayFault::Arguments(f)) => args@.len() >= 2 && comparison::is_first_fault(
                text::texts(args@).skip(2),
                *shape,
                f@,
            ),
        },
{
    if args.len() < 2 {
        return Err(ReplayFault::MissingPath);
    }
    let ghost all = text::texts(args@);
    let mut rest: Vec<String> = Vec::new();
    let mut i: usize = 2;
    while i < args.len()
        invariant
            2 <= i <= args@.len(),
            rest@.len() == i - 2,
            forall|k: int| 0 <= k < rest@.len() ==> (#[trigger] rest@[k])@ == args@[k + 2]@,
        decreases args@.len() - i,
    {
        rest.push(copy_text(&args[i]));
        i += 1;
    }
    assert(text::texts(rest@) =~= all.skip(2));
    let parsed = match read(&rest, shape) {
        Ok(parsed) => parsed,
        Err(fault) => {
            return Err(ReplayFault::Arguments(fault));
        },
    };
    let ghost list = arguments::steps(all.skip(2), *shape);
    proof {
        assert(list.take(list.len() as int) =~= list);
        settings::lemma_last_value(list, *shape, list.len() as int, 0);
        settings::lemma_last_value(list, *shape, list.len() as int, 1);
        settings::lemma_last_value(list, *shape, list.len() as int, 2);
        assert forall|k: int| 0 <= k < 3 implies arguments::value_text(#[trigger] parsed.values@[k])
            == arguments::last_value(list, k as usize) by {}
    }
    let sentence: usize = match value_number(&parsed.values[0]) {
        Some(n) => n,
        None => 1,
    };
    let max_events = value_number(&parsed.values[1]);
    let strategies: Vec<JoinStrategy> = match &parsed.values[2] {
        None => every_strategy(),
        Some(s) => {
            let parts = split_commas(s);
            let ghost words = arguments::comma_parts(s@);
            let mut found: Vec<JoinStrategy> = Vec::new();
            let mut k: usize = 0;
            while k < parts.len()
                invariant
                    k <= parts@.len(),
                    is_replay_shape(*shape),
                    words == text::texts(parts@),
                    arguments::value_fault(shape.flags@[2].1, 2, s@) is None,
                    words == arguments::comma_parts(s@),
                    names_of(found@) =~= words.take(k as int),
                decreases parts@.len() - k,
            {
                proof {
                    let names = shape.flags@[2].1->ListOf_0@;
                    lemma_all_listed(names, words, k as int);
                    let x = choose|x: int| 0 <= x < names.len() && (#[trigger] names[x])@
                        == words[k as int];
                    assert(names[x]@ == names_of(all_strategies())[x]);
                    assert(all_strategies()[x].called() == parts@[k as int]@);
                }
                if let Some(strategy) = JoinStrategy::parse(&parts[k]) {
                    let ghost earlier = found@;
                    found.push(strategy);
                    proof {
                        assert(names_of(found@) =~= names_of(earlier).push(strategy.called()));
                        assert(words[k as int] == parts@[k as int]@);
                        assert(words.take(k + 1) =~= words.take(k as int).push(words[k as int]));
                    }
                }
                k += 1;
            }
            assert(words.take(k as int) =~= words);
            found
        },
    };
    Ok(
        ReplayArgs {
            grammar: copy_text(&args[0]),
            sentences: copy_text(&args[1]),
            sentence,
            max_events,
            strategies,
        },
    )
}

/// The strategies in a list, each where it comes first.
pub open spec fn firsts(list: Seq<JoinStrategy>) -> Seq<JoinStrategy>
    decreases list.len(),
{
    if list.len() == 0 {
        Seq::empty()
    } else {
        let earlier = firsts(list.drop_last());
        if list.drop_last().contains(list.last()) {
            earlier
        } else {
            earlier.push(list.last())
        }
    }
}

/// Which strategies are run: each listed one, once.
pub fn runs(list: &Vec<JoinStrategy>) -> (r: Vec<JoinStrategy>)
    ensures
        r@ == firsts(list@),
{
    let mut r: Vec<JoinStrategy> = Vec::new();
    let mut i: usize = 0;
    assert(list@.take(0) =~= Seq::empty());
    while i < list.len()
        invariant
            i <= list@.len(),
            r@ == firsts(list@.take(i as int)),
        decreases list@.len() - i,
    {
        let mut seen = false;
        let mut k: usize = 0;
        while k < i
            invariant
                k <= i < list@.len(),
                seen == list@.take(k as int).contains(list@[i as int]),
            decreases i - k,
        {
            proof {
                let now = list@.take(k + 1);
                let before = list@.take(k as int);
                assert(now[k as int] == list@[k as int]);
                assert forall|x: JoinStrategy| now.contains(x) == (before.contains(x) || x
                    == list@[k as int]) by {
                    if now.contains(x) {
                        let y = choose|y: int| 0 <= y < now.len() && now[y] == x;
                        if y < k {
                            assert(before[y] == x);
                        }
                    }
                    if before.contains(x) {
                        let y = choose|y: int| 0 <= y < before.len() && before[y] == x;
                        assert(now[y] == x);
                    }
                }
            }
            if list[k] == list[i] {
                seen = true;
            }
            k += 1;
        }
        proof {
            assert(list@.take(i + 1).drop_last() =~= list@.take(i as int));
            assert(list@.take(i + 1).last() == list@[i as int]);
        }
        if !seen {
            r.push(list[i]);
        }
        i += 1;
    }
    assert(list@.take(i as int) =~= list@);
    r
}

/// The sentence with a number, counted from one.
pub fn sentence_numbered(lines: &Vec<String>, wanted: usize) -> (r: Option<&String>)
    ensures
        match r {
            Some(line) => 1 <= wanted <= lines@.len() && *line == lines@[wanted - 1],
            None => !(1 <= wanted <= lines@.len()),
        },
{
    if wanted == 0 || wanted > lines.len() {
        None
    } else {
        Some(&lines[wanted - 1])
    }
}

} // verus!
