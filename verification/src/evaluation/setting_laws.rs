//! What a command line asks an evaluation for.
use crate::arguments;
use crate::arguments::{Shape, StepModel};
use crate::evaluation::settings;
use crate::evaluation::settings::EvalArgs;
use vstd::prelude::*;

verus! {

/// What is given on a command line: an option with its value, or an argument.
pub enum Given {
    Option(Seq<char>, Seq<char>),
    Argument(Seq<char>),
}

/// A command line as it is written.
pub open spec fn written(given: Seq<Given>) -> Seq<Seq<char>>
    decreases given.len(),
{
    if given.len() == 0 {
        Seq::empty()
    } else {
        match given[0] {
            Given::Option(name, value) => seq![name, value] + written(given.skip(1)),
            Given::Argument(s) => seq![s] + written(given.skip(1)),
        }
    }
}

/// The value that was given last for an option with one of these names.
pub open spec fn said(given: Seq<Given>, names: Seq<Seq<char>>) -> Option<Seq<char>>
    decreases given.len(),
{
    if given.len() == 0 {
        None
    } else {
        match given.last() {
            Given::Option(name, value) if names.contains(name) => Some(value),
            _ => said(given.drop_last(), names),
        }
    }
}

/// The arguments that are no options, in their order.
pub open spec fn unnamed(given: Seq<Given>) -> Seq<Seq<char>>
    decreases given.len(),
{
    if given.len() == 0 {
        Seq::empty()
    } else {
        match given.last() {
            Given::Argument(s) => unnamed(given.drop_last()).push(s),
            _ => unnamed(given.drop_last()),
        }
    }
}

/// The names of the options of an evaluation.
pub open spec fn option_names() -> Seq<Seq<Seq<char>>> {
    seq![
        seq!["-o"@, "--output"@],
        seq!["--limit"@],
        seq!["--algorithm"@],
        seq!["--heuristic"@],
        seq!["--times"@],
        seq!["--astar-stats"@],
        seq!["--jobs"@],
        seq!["--input"@],
        seq!["--parseval"@],
        seq!["--parseval-output"@],
        seq!["--evalb-param"@],
    ]
}

/// Whether what is given is an option of an evaluation, or an argument that cannot be taken
/// for an option.
pub open spec fn can_be_given(one: Given) -> bool {
    match one {
        Given::Option(name, value) => exists|k: int|
            0 <= k < 11 && (#[trigger] option_names()[k]).contains(name),
        Given::Argument(s) => s.len() > 0 && s[0] != '-',
    }
}

proof fn lemma_two(names: Seq<&'static str>, a: Seq<char>, b: Seq<char>, s: Seq<char>)
    requires
        settings::called(names, seq![a, b]),
    ensures
        arguments::is_listed(names, s) <==> seq![a, b].contains(s),
{
    let w = seq![a, b];
    assert(names[0]@ == w[0] && names[1]@ == w[1]);
    if w.contains(s) {
        let i = choose|i: int| 0 <= i < w.len() && w[i] == s;
        assert(names[i]@ == s);
    }
    if arguments::is_listed(names, s) {
        let i = choose|i: int| 0 <= i < names.len() && (#[trigger] names[i])@ == s;
        assert(w[i] == s);
    }
}

proof fn lemma_one(names: Seq<&'static str>, a: Seq<char>, s: Seq<char>)
    requires
        settings::called(names, seq![a]),
    ensures
        arguments::is_listed(names, s) <==> seq![a].contains(s),
{
    let w = seq![a];
    assert(names[0]@ == w[0]);
    if w.contains(s) {
        assert(names[0]@ == s);
    }
    if arguments::is_listed(names, s) {
        let i = choose|i: int| 0 <= i < names.len() && (#[trigger] names[i])@ == s;
        assert(w[i] == s);
    }
}

/// The flags of an evaluation go by the names of its options.
proof fn lemma_flags(shape: Shape, s: Seq<char>)
    requires
        settings::is_eval_shape(shape),
    ensures
        forall|k: int|
            0 <= k < 11 ==> (arguments::is_listed((#[trigger] shape.flags@[k]).0@, s)
                <==> option_names()[k].contains(s)),
        arguments::is_listed(shape.help@, s) <==> seq!["-h"@, "--help"@].contains(s),
{
    let f = shape.flags@;
    lemma_two(shape.help@, "-h"@, "--help"@, s);
    lemma_two(f[0].0@, "-o"@, "--output"@, s);
    lemma_one(f[1].0@, "--limit"@, s);
    lemma_one(f[2].0@, "--algorithm"@, s);
    lemma_one(f[3].0@, "--heuristic"@, s);
    lemma_one(f[4].0@, "--times"@, s);
    lemma_one(f[5].0@, "--astar-stats"@, s);
    lemma_one(f[6].0@, "--jobs"@, s);
    lemma_one(f[7].0@, "--input"@, s);
    lemma_one(f[8].0@, "--parseval"@, s);
    lemma_one(f[9].0@, "--parseval-output"@, s);
    lemma_one(f[10].0@, "--evalb-param"@, s);
}

/// A text that tells an option from every other one: its length and its third character.
spec fn mark(s: Seq<char>) -> (nat, char) {
    (s.len(), s[2])
}

/// Names that belong to two options are none.
proof fn lemma_names_differ(k: int, l: int, s: Seq<char>)
    requires
        0 <= k < 11,
        0 <= l < 11,
        option_names()[k].contains(s),
        option_names()[l].contains(s),
    ensures
        k == l,
        !seq!["-h"@, "--help"@].contains(s),
        s.len() > 0,
        s[0] == '-',
{
    reveal_strlit("-o");
    reveal_strlit("--output");
    reveal_strlit("--limit");
    reveal_strlit("--algorithm");
    reveal_strlit("--heuristic");
    reveal_strlit("--times");
    reveal_strlit("--astar-stats");
    reveal_strlit("--jobs");
    reveal_strlit("--input");
    reveal_strlit("--parseval");
    reveal_strlit("--parseval-output");
    reveal_strlit("--evalb-param");
    reveal_strlit("-h");
    reveal_strlit("--help");
    lemma_mark(k, s);
    lemma_mark(l, s);
    assert("-h"@.len() == 2 && "-h"@[1] == 'h');
    assert("-o"@.len() == 2 && "-o"@[1] == 'o');
    assert(mark("--help"@) == (6nat, 'h'));
}

/// What is known of the length and the third character of the name of an option.
spec fn mark_of(k: int) -> (nat, char) {
    if k == 1 {
        (7, 'l')
    } else if k == 2 {
        (11, 'a')
    } else if k == 3 {
        (11, 'h')
    } else if k == 4 {
        (7, 't')
    } else if k == 5 {
        (13, 'a')
    } else if k == 6 {
        (6, 'j')
    } else if k == 7 {
        (7, 'i')
    } else if k == 8 {
        (10, 'p')
    } else if k == 9 {
        (17, 'p')
    } else if k == 10 {
        (13, 'e')
    } else {
        (8, 'o')
    }
}

proof fn lemma_mark(k: int, s: Seq<char>)
    requires
        0 <= k < 11,
        option_names()[k].contains(s),
    ensures
        mark(s) == mark_of(k) || (k == 0 && s == "-o"@ && s.len() == 2),
        s.len() > 0,
        s[0] == '-',
{
    reveal_strlit("-o");
    reveal_strlit("--output");
    reveal_strlit("--limit");
    reveal_strlit("--algorithm");
    reveal_strlit("--heuristic");
    reveal_strlit("--times");
    reveal_strlit("--astar-stats");
    reveal_strlit("--jobs");
    reveal_strlit("--input");
    reveal_strlit("--parseval");
    reveal_strlit("--parseval-output");
    reveal_strlit("--evalb-param");
    let names = option_names()[k];
    let i = choose|i: int| 0 <= i < names.len() && names[i] == s;
    assert(names[i] == s);
}

/// Whether a step is what was given.
pub open spec fn is_step(one: Given, step: StepModel) -> bool {
    match one {
        Given::Option(name, value) => step matches StepModel::Valued(k, v) && v == value && k < 11
            && option_names()[k as int].contains(name),
        Given::Argument(s) => step == StepModel::Plain(s),
    }
}

/// A command line is read one option or argument after another.
proof fn lemma_steps(given: Seq<Given>, shape: Shape)
    requires
        settings::is_eval_shape(shape),
        forall|i: int| 0 <= i < given.len() ==> can_be_given(#[trigger] given[i]),
    ensures
        arguments::steps(written(given), shape).len() == given.len(),
        forall|i: int|
            0 <= i < given.len() ==> is_step(
                #[trigger] given[i],
                arguments::steps(written(given), shape)[i],
            ),
    decreases given.len(),
{
    if given.len() > 0 {
        let rest = given.skip(1);
        assert forall|i: int| 0 <= i < rest.len() implies can_be_given(#[trigger] rest[i]) by {
            assert(rest[i] == given[i + 1]);
        }
        lemma_steps(rest, shape);
        let args = written(given);
        let step = arguments::first_step(args, shape);
        assert(can_be_given(given[0]));
        match given[0] {
            Given::Option(name, value) => {
                let k = choose|k: int|
                    0 <= k < 11 && (#[trigger] option_names()[k]).contains(name);
                lemma_flags(shape, name);
                lemma_names_differ(k, k, name);
                assert(arguments::is_listed(shape.flags@[k].0@, name));
                assert forall|j: int| 0 <= j < k implies !arguments::is_listed(
                    (#[trigger] shape.flags@[j]).0@,
                    name,
                ) by {
                    if option_names()[j].contains(name) {
                        lemma_names_differ(j, k, name);
                    }
                }
                assert(arguments::is_flag(shape.flags@, name, k));
                let found = choose|l: int| arguments::is_flag(shape.flags@, name, l);
                assert(arguments::is_flag(shape.flags@, name, found));
                assert(option_names()[found].contains(name));
                lemma_names_differ(k, found, name);
                assert(args[0] == name && args[1] == value);
                assert(args.skip(2) =~= written(rest));
                assert(is_step(given[0], step));
            },
            Given::Argument(s) => {
                assert(args[0] == s);
                lemma_flags(shape, s);
                assert forall|k: int| !#[trigger] arguments::is_flag(shape.flags@, s, k) by {
                    if arguments::is_flag(shape.flags@, s, k) {
                        assert(option_names()[k].contains(s));
                        lemma_names_differ(k, k, s);
                    }
                }
                reveal_strlit("-h");
                reveal_strlit("--help");
                let help = seq!["-h"@, "--help"@];
                if help.contains(s) {
                    let i = choose|i: int| 0 <= i < help.len() && help[i] == s;
                    assert(help[i][0] == '-');
                }
                assert(args.skip(1) =~= written(rest));
                assert(is_step(given[0], step));
            },
        }
        let all = arguments::steps(args, shape);
        assert(all =~= seq![step] + arguments::steps(written(rest), shape));
        assert forall|i: int| 0 <= i < given.len() implies is_step(#[trigger] given[i], all[i]) by {
            if i > 0 {
                assert(rest[i - 1] == given[i]);
                assert(all[i] == arguments::steps(written(rest), shape)[i - 1]);
            }
        }
    }
}

/// The last value of a flag is the value that was given last.
proof fn lemma_said(given: Seq<Given>, list: Seq<StepModel>, k: usize)
    requires
        k < 11,
        list.len() == given.len(),
        forall|i: int| 0 <= i < given.len() ==> is_step(#[trigger] given[i], list[i]),
    ensures
        arguments::last_value(list, k) == said(given, option_names()[k as int]),
    decreases given.len(),
{
    if given.len() > 0 {
        let n = given.len() - 1;
        let front = given.drop_last();
        assert forall|i: int| 0 <= i < front.len() implies is_step(
            #[trigger] front[i],
            list.drop_last()[i],
        ) by {
            assert(front[i] == given[i]);
        }
        lemma_said(front, list.drop_last(), k);
        assert(is_step(given[n], list[n]));
        if let Given::Option(name, value) = given[n] {
            let j = list[n]->Valued_0;
            if option_names()[k as int].contains(name) {
                lemma_names_differ(j as int, k as int, name);
            }
        }
    }
}

/// The arguments that are no flags are those that were given.
proof fn lemma_unnamed(given: Seq<Given>, list: Seq<StepModel>)
    requires
        list.len() == given.len(),
        forall|i: int| 0 <= i < given.len() ==> is_step(#[trigger] given[i], list[i]),
    ensures
        arguments::plain_texts(list) == unnamed(given),
    decreases given.len(),
{
    if given.len() > 0 {
        let n = given.len() - 1;
        let front = given.drop_last();
        assert forall|i: int| 0 <= i < front.len() implies is_step(
            #[trigger] front[i],
            list.drop_last()[i],
        ) by {
            assert(front[i] == given[i]);
        }
        lemma_unnamed(front, list.drop_last());
        assert(is_step(given[n], list[n]));
    }
}

/// The text of a setting that may be missing.
pub open spec fn text_of(value: Option<String>) -> Option<Seq<char>> {
    match value {
        Some(s) => Some(s@),
        None => None,
    }
}

/// An evaluation does what its command line says: the first argument is the grammar and the
/// second the corpus, every option has the value that was given last for it, and what is
/// not given is left out, but for an exhaustive search without estimates and the number of
/// jobs of the machine.
pub proof fn law_settings_are_as_given(
    given: Seq<Given>,
    shape: Shape,
    args: EvalArgs,
    jobs: usize,
)
    requires
        settings::is_eval_shape(shape),
        forall|i: int| 0 <= i < given.len() ==> can_be_given(#[trigger] given[i]),
        settings::settings_hold(arguments::steps(written(given), shape), args, jobs),
    ensures
        unnamed(given) == seq![args.grammar@, args.corpus@],
        text_of(args.output) == said(given, seq!["-o"@, "--output"@]),
        match said(given, seq!["--limit"@]) {
            Some(s) => args.limit is Some && arguments::spelled_number(s) == Some(
                args.limit->0 as nat,
            ),
            None => args.limit is None,
        },
        match said(given, seq!["--algorithm"@]) {
            Some(s) => (args.algorithm is Exhaustive ==> s == "exhaustive"@) && (
            args.algorithm is Astar ==> s == "astar"@),
            None => args.algorithm is Exhaustive,
        },
        match said(given, seq!["--heuristic"@]) {
            Some(s) => {
                &&& args.heuristic is Zero ==> s == "zero"@
                &&& args.heuristic is Outside ==> s == "outside"@
                &&& args.heuristic is Sx ==> s == "sx"@
                &&& args.heuristic is Sxf ==> s == "sxf"@
            },
            None => args.heuristic is Zero,
        },
        text_of(args.times) == said(given, seq!["--times"@]),
        text_of(args.astar_stats) == said(given, seq!["--astar-stats"@]),
        match said(given, seq!["--jobs"@]) {
            Some(s) => arguments::spelled_number(s) matches Some(n) ==> args.jobs == n,
            None => args.jobs == jobs,
        },
        text_of(args.input) == said(given, seq!["--input"@]),
        text_of(args.parseval) == said(given, seq!["--parseval"@]),
        text_of(args.parseval_output) == said(given, seq!["--parseval-output"@]),
        text_of(args.evalb_param) == said(given, seq!["--evalb-param"@]),
{
    let list = arguments::steps(written(given), shape);
    lemma_steps(given, shape);
    lemma_unnamed(given, list);
    lemma_said(given, list, 0);
    lemma_said(given, list, 1);
    lemma_said(given, list, 2);
    lemma_said(given, list, 3);
    lemma_said(given, list, 4);
    lemma_said(given, list, 5);
    lemma_said(given, list, 6);
    lemma_said(given, list, 7);
    lemma_said(given, list, 8);
    lemma_said(given, list, 9);
    lemma_said(given, list, 10);
    assert(unnamed(given) =~= seq![args.grammar@, args.corpus@]);
}

} // verus!
