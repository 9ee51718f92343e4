//! Command lines: flags with values, and what the values may be.
use crate::text;
use crate::text::{chars_of, copy_text, is_ascii_digit, is_text, text_of, trimmed};
use vstd::prelude::*;

verus! {

/// The value of decimal digits; `None` where something else occurs.
pub open spec fn digits_value(s: Seq<char>) -> Option<nat>
    decreases s.len(),
{
    if s.len() == 0 {
        Some(0)
    } else {
        match digits_value(s.drop_last()) {
            Some(v) if text::ascii_digit(s.last()) => Some(
                10 * v + (s.last() as u32 - '0' as u32) as nat,
            ),
            _ => None,
        }
    }
}

/// The digits of a number: a plus sign may stand in front.
pub open spec fn number_body(s: Seq<char>) -> Seq<char> {
    if s.len() > 0 && s[0] == '+' {
        s.skip(1)
    } else {
        s
    }
}

/// The number that a text spells, if it spells one that fits.
pub open spec fn spelled_number(s: Seq<char>) -> Option<nat> {
    if number_body(s).len() == 0 {
        None
    } else {
        match digits_value(number_body(s)) {
            Some(v) if v <= usize::MAX => Some(v),
            _ => None,
        }
    }
}

proof fn lemma_digits_prefix(s: Seq<char>, k: int)
    requires
        0 <= k <= s.len(),
        digits_value(s) is Some,
    ensures
        digits_value(s.take(k)) is Some,
        digits_value(s.take(k))->0 <= digits_value(s)->0,
    decreases s.len(),
{
    if k == s.len() {
        assert(s.take(k) =~= s);
    } else {
        lemma_digits_prefix(s.drop_last(), k);
        assert(s.drop_last().take(k) =~= s.take(k));
    }
}

/// Reads a number: decimal digits, perhaps behind a plus sign.
pub fn parse_usize(s: &str) -> (r: Option<usize>)
    ensures
        match r {
            Some(n) => spelled_number(s@) == Some(n as nat),
            None => spelled_number(s@) is None,
        },
{
    let c = chars_of(s);
    let mut start: usize = 0;
    if c.len() > 0 && c[0] == '+' {
        start = 1;
    }
    let ghost body = number_body(s@);
    assert(c@.skip(start as int) =~= body);
    if c.len() == start {
        return None;
    }
    let mut value: usize = 0;
    let mut i: usize = start;
    assert(body.take(0) =~= Seq::empty());
    while i < c.len()
        invariant
            start <= i <= c@.len(),
            c@ == s@,
            c@.skip(start as int) == body,
            body == number_body(s@),
            body.len() > 0,
            digits_value(body.take(i - start)) == Some(value as nat),
        decreases c@.len() - i,
    {
        let ghost next = body.take(i - start + 1);
        proof {
            assert(next.drop_last() =~= body.take(i - start));
            assert(c@.skip(start as int)[i - start] == c@[i as int]);
            assert(next.last() == c@[i as int]);
            if digits_value(body) is Some {
                lemma_digits_prefix(body, i - start + 1);
            }
        }
        if !is_ascii_digit(c[i]) {
            return None;
        }
        let digit: u32 = c[i] as u32 - '0' as u32;
        if value > (usize::MAX - digit as usize) / 10 {
            return None;
        }
        value = value * 10 + digit as usize;
        i += 1;
    }
    assert(body.take(i - start) =~= body);
    Some(value)
}

/// What a flag's value may be.
#[derive(Debug)]
pub enum ValueRule {
    Text,
    Number,
    Positive,
    /// One of the listed names.
    OneOf(Vec<&'static str>),
    /// Listed names, separated by commas.
    ListOf(Vec<&'static str>),
}

/// Which arguments that are no flags are refused.
#[derive(Clone, Copy, PartialEq, Eq, Structural, Debug)]
pub enum Refuse {
    /// Those that start with a dash, but for the dash alone.
    Dash,
    /// Those that start with two dashes.
    TwoDashes,
    All,
}

/// What a program accepts.
#[derive(Debug)]
pub struct Shape {
    /// Flags that ask for help.
    pub help: Vec<&'static str>,
    /// Flags with a value, each with its names.
    pub flags: Vec<(Vec<&'static str>, ValueRule)>,
    pub refuse: Refuse,
    /// How many other arguments may be given; `None` for any number.
    pub plain: Option<usize>,
}

/// Why a command line is refused, or help.
#[derive(Debug)]
pub enum Fault {
    Help,
    /// A flag without its value, as it was written.
    Missing(usize, String),
    NotANumber(usize, String),
    NotPositive(usize),
    /// A name that the flag does not know.
    Unlisted(usize, String),
    Unknown(String),
    Unexpected(String),
}

/// One argument, with its value where it is a flag.
#[derive(Debug)]
pub enum Step {
    Help,
    Missing(usize, String),
    Valued(usize, String),
    Refused(String),
    Plain(String),
}

/// The model of a [`Step`].
pub enum StepModel {
    Help,
    Missing(usize, Seq<char>),
    Valued(usize, Seq<char>),
    Refused(Seq<char>),
    Plain(Seq<char>),
}

impl View for Step {
    type V = StepModel;

    open spec fn view(&self) -> StepModel {
        match self {
            Step::Help => StepModel::Help,
            Step::Missing(k, s) => StepModel::Missing(*k, s@),
            Step::Valued(k, value) => StepModel::Valued(*k, value@),
            Step::Refused(s) => StepModel::Refused(s@),
            Step::Plain(s) => StepModel::Plain(s@),
        }
    }
}

/// Whether a name is listed.
pub open spec fn is_listed(names: Seq<&'static str>, s: Seq<char>) -> bool {
    exists|i: int| 0 <= i < names.len() && (#[trigger] names[i])@ == s
}

/// Whether `k` is the first flag with this name.
pub open spec fn is_flag(
    flags: Seq<(Vec<&'static str>, ValueRule)>,
    s: Seq<char>,
    k: int,
) -> bool {
    &&& 0 <= k < flags.len()
    &&& is_listed(flags[k].0@, s)
    &&& forall|j: int| 0 <= j < k ==> !is_listed((#[trigger] flags[j]).0@, s)
}

/// The first flag with this name.
pub open spec fn flag_of(
    flags: Seq<(Vec<&'static str>, ValueRule)>,
    s: Seq<char>,
) -> Option<int> {
    if exists|k: int| is_flag(flags, s, k) {
        Some(choose|k: int| is_flag(flags, s, k))
    } else {
        None
    }
}

/// Whether an argument that is no flag is refused.
pub open spec fn is_refused(refuse: Refuse, s: Seq<char>) -> bool {
    match refuse {
        Refuse::Dash => s.len() > 1 && s[0] == '-',
        Refuse::TwoDashes => s.len() > 1 && s[0] == '-' && s[1] == '-',
        Refuse::All => true,
    }
}

/// What the first of some arguments is.
pub open spec fn first_step(args: Seq<Seq<char>>, shape: Shape) -> StepModel {
    if is_listed(shape.help@, args[0]) {
        StepModel::Help
    } else {
        match flag_of(shape.flags@, args[0]) {
            Some(k) => if args.len() > 1 {
                StepModel::Valued(k as usize, args[1])
            } else {
                StepModel::Missing(k as usize, args[0])
            },
            None => if is_refused(shape.refuse, args[0]) {
                StepModel::Refused(args[0])
            } else {
                StepModel::Plain(args[0])
            },
        }
    }
}

/// The arguments, each flag with its value.
pub open spec fn steps(args: Seq<Seq<char>>, shape: Shape) -> Seq<StepModel>
    decreases args.len(),
{
    if args.len() == 0 {
        Seq::empty()
    } else {
        let step = first_step(args, shape);
        let used: int = if step is Valued {
            2
        } else {
            1
        };
        seq![step] + steps(args.skip(used), shape)
    }
}

/// The models of steps.
pub open spec fn step_models(list: Seq<Step>) -> Seq<StepModel> {
    Seq::new(list.len(), |i: int| list[i]@)
}

/// The part before the first comma.
pub open spec fn before_comma(s: Seq<char>) -> Seq<char> {
    text::before_char(s, ',')
}

/// The parts between commas, without the white space around them.
pub open spec fn comma_parts(s: Seq<char>) -> Seq<Seq<char>>
    decreases s.len(),
{
    let head = before_comma(s);
    if head.len() >= s.len() {
        seq![text::trim(s)]
    } else {
        seq![text::trim(head)] + comma_parts(s.skip(head.len() as int + 1))
    }
}

/// The first part of a list that is not among the names.
pub open spec fn first_unlisted(
    names: Seq<&'static str>,
    parts: Seq<Seq<char>>,
) -> Option<Seq<char>>
    decreases parts.len(),
{
    if parts.len() == 0 {
        None
    } else if !is_listed(names, parts[0]) {
        Some(parts[0])
    } else {
        first_unlisted(names, parts.skip(1))
    }
}

/// The model of a [`Fault`].
pub enum FaultModel {
    Help,
    Missing(usize, Seq<char>),
    NotANumber(usize, Seq<char>),
    NotPositive(usize),
    Unlisted(usize, Seq<char>),
    Unknown(Seq<char>),
    Unexpected(Seq<char>),
}

impl View for Fault {
    type V = FaultModel;

    open spec fn view(&self) -> FaultModel {
        match self {
            Fault::Help => FaultModel::Help,
            Fault::Missing(k, s) => FaultModel::Missing(*k, s@),
            Fault::NotANumber(k, s) => FaultModel::NotANumber(*k, s@),
            Fault::NotPositive(k) => FaultModel::NotPositive(*k),
            Fault::Unlisted(k, s) => FaultModel::Unlisted(*k, s@),
            Fault::Unknown(s) => FaultModel::Unknown(s@),
            Fault::Unexpected(s) => FaultModel::Unexpected(s@),
        }
    }
}

/// What is wrong with the value of flag `k`, if anything.
pub open spec fn value_fault(rule: ValueRule, k: usize, s: Seq<char>) -> Option<FaultModel> {
    match rule {
        ValueRule::Text => None,
        ValueRule::Number => if spelled_number(s) is None {
            Some(FaultModel::NotANumber(k, s))
        } else {
            None
        },
        ValueRule::Positive => if spelled_number(s) is None {
            Some(FaultModel::NotANumber(k, s))
        } else if spelled_number(s) == Some(0nat) {
            Some(FaultModel::NotPositive(k))
        } else {
            None
        },
        ValueRule::OneOf(names) => if !is_listed(names@, s) {
            Some(FaultModel::Unlisted(k, s))
        } else {
            None
        },
        ValueRule::ListOf(names) => match first_unlisted(names@, comma_parts(s)) {
            Some(part) => Some(FaultModel::Unlisted(k, part)),
            None => None,
        },
    }
}

/// What is wrong with a step that `plain` other arguments precede, if anything.
pub open spec fn step_fault(step: StepModel, shape: Shape, plain: nat) -> Option<FaultModel> {
    match step {
        StepModel::Help => Some(FaultModel::Help),
        StepModel::Missing(k, s) => Some(FaultModel::Missing(k, s)),
        StepModel::Valued(k, s) => value_fault(shape.flags@[k as int].1, k, s),
        StepModel::Refused(s) => Some(FaultModel::Unknown(s)),
        StepModel::Plain(s) => match shape.plain {
            Some(limit) if plain >= limit => Some(FaultModel::Unexpected(s)),
            _ => None,
        },
    }
}

/// The arguments among the steps that are no flags.
pub open spec fn plain_texts(list: Seq<StepModel>) -> Seq<Seq<char>>
    decreases list.len(),
{
    if list.len() == 0 {
        Seq::empty()
    } else {
        let earlier = plain_texts(list.drop_last());
        match list.last() {
            StepModel::Plain(s) => earlier.push(s),
            _ => earlier,
        }
    }
}

/// The last value of flag `k` among the steps.
pub open spec fn last_value(list: Seq<StepModel>, k: usize) -> Option<Seq<char>>
    decreases list.len(),
{
    if list.len() == 0 {
        None
    } else {
        match list.last() {
            StepModel::Valued(j, s) if j == k => Some(s),
            _ => last_value(list.drop_last(), k),
        }
    }
}

/// What is wrong with step `i`, if anything.
pub open spec fn fault_at(list: Seq<StepModel>, shape: Shape, i: int) -> Option<FaultModel> {
    step_fault(list[i], shape, plain_texts(list.take(i)).len())
}

/// Whether the first `n` steps are in order.
pub open spec fn in_order(list: Seq<StepModel>, shape: Shape, n: int) -> bool {
    forall|i: int| 0 <= i < n ==> #[trigger] fault_at(list, shape, i) is None
}

/// An accepted command line.
#[derive(Debug)]
pub struct Parsed {
    /// The last value of every flag.
    pub values: Vec<Option<String>>,
    /// The arguments that are no flags.
    pub plain: Vec<String>,
}

/// The text of an optional value.
pub open spec fn value_text(value: Option<String>) -> Option<Seq<char>> {
    match value {
        Some(s) => Some(s@),
        None => None,
    }
}

impl Parsed {
    /// Whether this holds the last values and the other arguments of the steps.
    pub open spec fn holds(&self, list: Seq<StepModel>, flags: nat) -> bool {
        &&& self.values@.len() == flags
        &&& forall|k: int|
            0 <= k < flags ==> value_text(#[trigger] self.values@[k]) == last_value(
                list,
                k as usize,
            )
        &&& text::texts(self.plain@) == plain_texts(list)
    }
}

/// Whether a name is listed.
fn listed(names: &Vec<&'static str>, s: &String) -> (r: bool)
    ensures
        r == is_listed(names@, s@),
{
    let mut i: usize = 0;
    while i < names.len()
        invariant
            i <= names@.len(),
            forall|j: int| 0 <= j < i ==> (#[trigger] names@[j])@ != s@,
        decreases names@.len() - i,
    {
        if is_text(s, names[i]) {
            return true;
        }
        i += 1;
    }
    false
}

/// The position of a name in a list of names.
pub fn position_of(names: &Vec<&'static str>, s: &String) -> (r: Option<usize>)
    ensures
        match r {
            Some(i) => i < names@.len() && names@[i as int]@ == s@ && forall|j: int|
                0 <= j < i ==> (#[trigger] names@[j])@ != s@,
            None => !is_listed(names@, s@),
        },
{
    let mut i: usize = 0;
    while i < names.len()
        invariant
            i <= names@.len(),
            forall|j: int| 0 <= j < i ==> (#[trigger] names@[j])@ != s@,
        decreases names@.len() - i,
    {
        if is_text(s, names[i]) {
            return Some(i);
        }
        i += 1;
    }
    None
}

/// Finds the flag with a name.
fn find_flag(flags: &Vec<(Vec<&'static str>, ValueRule)>, s: &String) -> (r: Option<usize>)
    ensures
        match r {
            Some(k) => flag_of(flags@, s@) == Some(k as int) && k < flags@.len(),
            None => flag_of(flags@, s@) is None,
        },
{
    let mut k: usize = 0;
    while k < flags.len()
        invariant
            k <= flags@.len(),
            forall|j: int| 0 <= j < k ==> !is_listed((#[trigger] flags@[j]).0@, s@),
        decreases flags@.len() - k,
    {
        if listed(&flags[k].0, s) {
            proof {
                assert(is_flag(flags@, s@, k as int));
                let c = choose|c: int| is_flag(flags@, s@, c);
                if c < k {
                    assert(!is_listed(flags@[c].0@, s@));
                } else if c > k {
                    assert(!is_listed(flags@[k as int].0@, s@));
                }
            }
            return Some(k);
        }
        k += 1;
    }
    assert forall|c: int| !is_flag(flags@, s@, c) by {
        if is_flag(flags@, s@, c) {
            assert(!is_listed(flags@[c].0@, s@));
        }
    }
    None
}

/// Whether an argument that is no flag is refused.
fn refused(refuse: Refuse, s: &String) -> (r: bool)
    ensures
        r == is_refused(refuse, s@),
{
    let c = chars_of(s.as_str());
    match refuse {
        Refuse::Dash => c.len() > 1 && c[0] == '-',
        Refuse::TwoDashes => c.len() > 1 && c[0] == '-' && c[1] == '-',
        Refuse::All => true,
    }
}

/// Splits a command line into steps.
pub fn split(args: &Vec<String>, shape: &Shape) -> (r: Vec<Step>)
    ensures
        step_models(r@) == steps(text::texts(args@), *shape),
        forall|i: int|
            0 <= i < r@.len() ==> ((#[trigger] r@[i])@ matches StepModel::Valued(k, _) ==> k
                < shape.flags@.len()),
{
    let ghost all = text::texts(args@);
    let mut r: Vec<Step> = Vec::new();
    let mut i: usize = 0;
    proof {
        assert(all.skip(0) =~= all);
        assert(step_models(r@) + steps(all, *shape) =~= steps(all, *shape));
    }
    while i < args.len()
        invariant
            i <= args@.len(),
            all == text::texts(args@),
            step_models(r@) + steps(all.skip(i as int), *shape) == steps(all, *shape),
            forall|j: int|
                0 <= j < r@.len() ==> ((#[trigger] r@[j])@ matches StepModel::Valued(k, _) ==> k
                    < shape.flags@.len()),
        decreases args@.len() - i,
    {
        let ghost rest = all.skip(i as int);
        let ghost before = r@;
        let arg = &args[i];
        assert(rest[0] == arg@);
        let step = if listed(&shape.help, arg) {
            Step::Help
        } else {
            match find_flag(&shape.flags, arg) {
                Some(k) => if args.len() - i > 1 {
                    assert(rest[1] == args@[i + 1]@);
                    Step::Valued(k, copy_text(&args[i + 1]))
                } else {
                    Step::Missing(k, copy_text(arg))
                },
                None => if refused(shape.refuse, arg) {
                    Step::Refused(copy_text(arg))
                } else {
                    Step::Plain(copy_text(arg))
                },
            }
        };
        assert(step@ == first_step(rest, *shape));
        let used: usize = match step {
            Step::Valued(_, _) => 2,
            _ => 1,
        };
        proof {
            assert(rest.skip(used as int) =~= all.skip(i + used));
            assert(step_models(before).push(step@) + steps(all.skip(i + used), *shape)
                =~= step_models(before) + (seq![step@] + steps(all.skip(i + used), *shape)));
        }
        r.push(step);
        assert(step_models(r@) =~= step_models(before).push(step@));
        i += used;
    }
    proof {
        assert(all.skip(i as int) =~= Seq::empty());
        assert(step_models(r@) =~= steps(all, *shape));
    }
    r
}

/// Splits a list at its commas.
pub fn split_commas(s: &String) -> (r: Vec<String>)
    ensures
        text::texts(r@) == comma_parts(s@),
{
    let c = chars_of(s.as_str());
    let mut r: Vec<String> = Vec::new();
    let mut start: usize = 0;
    let mut i: usize = 0;
    proof {
        assert(c@.skip(0) =~= s@);
        assert(text::texts(r@) + comma_parts(c@.skip(0)) =~= comma_parts(s@));
        assert(c@.subrange(0, 0) =~= Seq::empty());
        assert(c@.subrange(0, 0) + before_comma(c@.skip(0)) =~= before_comma(c@.skip(0)));
    }
    while i < c.len()
        invariant
            start <= i <= c@.len(),
            c@ == s@,
            text::texts(r@) + comma_parts(c@.skip(start as int)) == comma_parts(s@),
            before_comma(c@.skip(start as int)) == c@.subrange(start as int, i as int)
                + before_comma(c@.skip(i as int)),
        decreases c@.len() - i,
    {
        let ghost rest = c@.skip(i as int);
        let ghost part = c@.skip(start as int);
        proof {
            assert(rest[0] == c@[i as int]);
            assert(rest.skip(1) =~= c@.skip(i + 1));
        }
        if c[i] == ',' {
            let word = text_of(&c, start, i);
            let ghost before = r@;
            proof {
                assert(before_comma(rest) =~= Seq::empty());
                assert(before_comma(part) =~= c@.subrange(start as int, i as int));
                assert(part.skip(before_comma(part).len() as int + 1) =~= c@.skip(i + 1));
            }
            let trimmed_word = trimmed(word.as_str());
            r.push(trimmed_word);
            start = i + 1;
            proof {
                assert(text::texts(r@) =~= text::texts(before).push(text::trim(word@)));
                assert(text::texts(r@) + comma_parts(c@.skip(start as int)) =~= text::texts(before)
                    + (seq![text::trim(word@)] + comma_parts(c@.skip(i + 1))));
                assert(c@.subrange(start as int, i + 1) =~= Seq::empty());
                assert(c@.subrange(start as int, i + 1) + before_comma(c@.skip(i + 1))
                    =~= before_comma(c@.skip(start as int)));
            }
        } else {
            proof {
                assert(before_comma(rest) == seq![c@[i as int]] + before_comma(c@.skip(i + 1)));
                assert(c@.subrange(start as int, i + 1) =~= c@.subrange(start as int, i as int)
                    + seq![c@[i as int]]);
                assert(before_comma(part) =~= c@.subrange(start as int, i + 1) + before_comma(
                    c@.skip(i + 1),
                ));
            }
        }
        i += 1;
    }
    let n: usize = c.len();
    let word = text_of(&c, start, n);
    let ghost before = r@;
    let last = trimmed(word.as_str());
    r.push(last);
    proof {
        let part = c@.skip(start as int);
        assert(c@.skip(i as int) =~= Seq::empty());
        assert(before_comma(c@.skip(i as int)) =~= Seq::empty());
        assert(before_comma(part) =~= part);
        assert(word@ =~= part);
        assert(text::texts(r@) =~= text::texts(before).push(text::trim(word@)));
        assert(text::texts(r@) =~= text::texts(before) + comma_parts(part));
    }
    r
}

/// What is wrong with the value of flag `k`, if anything.
fn check_value(rule: &ValueRule, k: usize, s: &String) -> (r: Option<Fault>)
    ensures
        match r {
            Some(f) => value_fault(*rule, k, s@) == Some(f@),
            None => value_fault(*rule, k, s@) is None,
        },
{
    match rule {
        ValueRule::Text => None,
        ValueRule::Number => match parse_usize(s.as_str()) {
            Some(_) => None,
            None => Some(Fault::NotANumber(k, copy_text(s))),
        },
        ValueRule::Positive => match parse_usize(s.as_str()) {
            Some(n) => if n == 0 {
                Some(Fault::NotPositive(k))
            } else {
                None
            },
            None => Some(Fault::NotANumber(k, copy_text(s))),
        },
        ValueRule::OneOf(names) => if listed(names, s) {
            None
        } else {
            Some(Fault::Unlisted(k, copy_text(s)))
        },
        ValueRule::ListOf(names) => {
            let parts = split_commas(s);
            let ghost all = text::texts(parts@);
            let mut i: usize = 0;
            assert(all.skip(0) =~= all);
            while i < parts.len()
                invariant
                    i <= parts@.len(),
                    all == text::texts(parts@),
                    all == comma_parts(s@),
                    *rule == ValueRule::ListOf(*names),
                    first_unlisted(names@, all) == first_unlisted(names@, all.skip(i as int)),
                decreases parts@.len() - i,
            {
                assert(all.skip(i as int)[0] == parts@[i as int]@);
                assert(all.skip(i as int).skip(1) =~= all.skip(i + 1));
                if !listed(names, &parts[i]) {
                    return Some(Fault::Unlisted(k, copy_text(&parts[i])));
                }
                i += 1;
            }
            None
        },
    }
}

/// Reads a command line: the last value of every flag and the other arguments, or the
/// first thing that is wrong.
pub fn read(args: &Vec<String>, shape: &Shape) -> (r: Result<Parsed, Fault>)
    ensures
        match r {
            Ok(parsed) => {
                let list = steps(text::texts(args@), *shape);
                in_order(list, *shape, list.len() as int) && parsed.holds(list, shape.flags@.len())
            },
            Err(f) => {
                let list = steps(text::texts(args@), *shape);
                exists|i: int|
                    0 <= i < list.len() && #[trigger] fault_at(list, *shape, i) == Some(f@)
                        && in_order(list, *shape, i)
            },
        },
{
    let list = split(args, shape);
    let ghost model = steps(text::texts(args@), *shape);
    let mut values: Vec<Option<String>> = Vec::new();
    let mut k: usize = 0;
    while k < shape.flags.len()
        invariant
            k <= shape.flags@.len(),
            values@.len() == k,
            forall|j: int| 0 <= j < k ==> #[trigger] values@[j] is None,
        decreases shape.flags@.len() - k,
    {
        values.push(None);
        k += 1;
    }
    let mut plain: Vec<String> = Vec::new();
    let mut i: usize = 0;
    proof {
        assert(model.take(0) =~= Seq::empty());
        assert(text::texts(plain@) =~= Seq::empty());
    }
    while i < list.len()
        invariant
            i <= list@.len(),
            model == steps(text::texts(args@), *shape),
            step_models(list@) == model,
            forall|j: int|
                0 <= j < list@.len() ==> ((#[trigger] list@[j])@ matches StepModel::Valued(k, _)
                    ==> k < shape.flags@.len()),
            in_order(model, *shape, i as int),
            values@.len() == shape.flags@.len(),
            forall|k: int|
                0 <= k < values@.len() ==> value_text(#[trigger] values@[k]) == last_value(
                    model.take(i as int),
                    k as usize,
                ),
            text::texts(plain@) == plain_texts(model.take(i as int)),
        decreases list@.len() - i,
    {
        let ghost before = values@;
        let ghost others = plain@;
        proof {
            assert(step_models(list@)[i as int] == list@[i as int]@);
            assert(model.take(i + 1).drop_last() =~= model.take(i as int));
            assert(model.take(i + 1).last() == model[i as int]);
            assert(text::texts(plain@).len() == plain@.len());
        }
        let fault = match &list[i] {
            Step::Help => Some(Fault::Help),
            Step::Missing(k, s) => Some(Fault::Missing(*k, copy_text(s))),
            Step::Valued(k, s) => check_value(&shape.flags[*k].1, *k, s),
            Step::Refused(s) => Some(Fault::Unknown(copy_text(s))),
            Step::Plain(s) => match shape.plain {
                Some(limit) => if plain.len() >= limit {
                    Some(Fault::Unexpected(copy_text(s)))
                } else {
                    None
                },
                None => None,
            },
        };
        if let Some(fault) = fault {
            assert(fault_at(model, *shape, i as int) == Some(fault@));
            return Err(fault);
        }
        assert(fault_at(model, *shape, i as int) is None);
        match &list[i] {
            Step::Valued(k, s) => {
                values.set(*k, Some(copy_text(s)));
            },
            Step::Plain(s) => {
                plain.push(copy_text(s));
                assert(text::texts(plain@) =~= text::texts(others).push(s@));
            },
            _ => {},
        }
        i += 1;
        let count: usize = values.len();
        proof {
            assert forall|k: int| 0 <= k < values@.len() implies value_text(
                #[trigger] values@[k],
            ) == last_value(model.take(i as int), k as usize) by {
                assert(k < count);
                assert(value_text(before[k]) == last_value(model.take(i - 1), k as usize));
            }
        }
    }
    assert(model.take(i as int) =~= model);
    Ok(Parsed { values, plain })
}

} // verus!
