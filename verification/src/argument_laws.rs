//! Which numbers and lists the values of options spell.
use crate::alto_ast;
use crate::arguments;
use crate::arguments::ValueRule;
use crate::text;
use crate::text_laws;
use vstd::prelude::*;

verus! {

proof fn lemma_digits(n: nat)
    ensures
        alto_ast::decimal(n).len() > 0,
        arguments::digits_value(alto_ast::decimal(n)) == Some(n),
        alto_ast::decimal(n)[0] != '+',
    decreases n,
{
    let s = alto_ast::decimal(n);
    let none: Seq<char> = Seq::empty();
    assert(arguments::digits_value(none) == Some(0nat));
    if n < 10 {
        assert(s.drop_last() =~= none);
        assert(s.last() == alto_ast::digit_char(n));
    } else {
        lemma_digits(n / 10);
        assert(s.drop_last() =~= alto_ast::decimal(n / 10));
        assert(s.last() == alto_ast::digit_char(n % 10));
        assert(s[0] == alto_ast::decimal(n / 10)[0]);
    }
}

/// A number in decimal spells that number, with or without a plus sign, as far as it fits.
pub proof fn law_numbers_read_back(n: nat)
    ensures
        arguments::spelled_number(alto_ast::decimal(n)) == (if n <= usize::MAX {
            Some(n)
        } else {
            None
        }),
        arguments::spelled_number(seq!['+'] + alto_ast::decimal(n)) == (if n <= usize::MAX {
            Some(n)
        } else {
            None
        }),
{
    lemma_digits(n);
    assert((seq!['+'] + alto_ast::decimal(n)).skip(1) =~= alto_ast::decimal(n));
}

/// What spells a number has digits only, behind a plus sign at most.
pub proof fn law_only_digits_spell_numbers(s: Seq<char>)
    requires
        arguments::spelled_number(s) is Some,
    ensures
        s.len() > 0,
        forall|i: int|
            0 < i < s.len() ==> '0' <= (#[trigger] s[i]) && s[i] <= '9',
        s[0] == '+' && s.len() > 1 || ('0' <= s[0] && s[0] <= '9'),
{
    let body = arguments::number_body(s);
    lemma_only_digits(body);
    if s[0] == '+' {
        assert forall|i: int| 0 < i < s.len() implies '0' <= (#[trigger] s[i]) && s[i] <= '9' by {
            assert(body[i - 1] == s[i]);
        }
    }
}

proof fn lemma_only_digits(s: Seq<char>)
    requires
        arguments::digits_value(s) is Some,
    ensures
        forall|i: int| 0 <= i < s.len() ==> '0' <= (#[trigger] s[i]) && s[i] <= '9',
    decreases s.len(),
{
    if s.len() > 0 {
        let front = s.drop_last();
        lemma_only_digits(front);
        assert forall|i: int| 0 <= i < s.len() implies '0' <= (#[trigger] s[i]) && s[i] <= '9' by {
            if i < front.len() {
                assert(front[i] == s[i]);
            }
        }
    }
}

/// Parts with commas between them.
pub open spec fn with_commas(parts: Seq<Seq<char>>) -> Seq<char>
    decreases parts.len(),
{
    if parts.len() == 0 {
        Seq::empty()
    } else if parts.len() == 1 {
        parts[0]
    } else {
        parts[0] + seq![','] + with_commas(parts.skip(1))
    }
}

proof fn lemma_before(a: Seq<char>, b: Seq<char>)
    requires
        !a.contains(','),
        b.len() > 0 ==> b[0] == ',',
    ensures
        text::before_char(a + b, ',') == a,
    decreases a.len(),
{
    if a.len() == 0 {
        assert(a + b =~= b);
        assert(text::before_char(a + b, ',') =~= a);
    } else {
        assert(a.contains(a[0]));
        let rest = a.skip(1);
        assert forall|i: int| 0 <= i < rest.len() implies rest[i] != ',' by {
            assert(rest[i] == a[i + 1]);
            assert(a.contains(a[i + 1]));
        }
        lemma_before(rest, b);
        assert((a + b).skip(1) =~= rest + b);
        assert(seq![(a + b)[0]] + rest =~= a);
    }
}

/// A list has the parts between its commas, all of them in their order, without the white
/// space around them.
pub proof fn law_lists_have_their_parts(parts: Seq<Seq<char>>)
    requires
        parts.len() > 0,
        forall|i: int| 0 <= i < parts.len() ==> !(#[trigger] parts[i]).contains(','),
    ensures
        arguments::comma_parts(with_commas(parts)).len() == parts.len(),
        forall|i: int|
            0 <= i < parts.len() ==> text_laws::is_trimmed(
                #[trigger] parts[i],
                arguments::comma_parts(with_commas(parts))[i],
            ),
    decreases parts.len(),
{
    let s = with_commas(parts);
    text_laws::law_trim(parts[0]);
    if parts.len() == 1 {
        lemma_before(s, Seq::empty());
        assert(s + Seq::empty() =~= s);
    } else {
        let rest = parts.skip(1);
        assert forall|i: int| 0 <= i < rest.len() implies !(#[trigger] rest[i]).contains(',') by {
            assert(rest[i] == parts[i + 1]);
        }
        law_lists_have_their_parts(rest);
        let tail = seq![','] + with_commas(rest);
        assert(s =~= parts[0] + tail);
        lemma_before(parts[0], tail);
        assert(s.skip(parts[0].len() as int + 1) =~= with_commas(rest));
        let found = arguments::comma_parts(s);
        assert forall|i: int| 0 <= i < parts.len() implies text_laws::is_trimmed(
            #[trigger] parts[i],
            found[i],
        ) by {
            if i > 0 {
                assert(rest[i - 1] == parts[i]);
                assert(found[i] == arguments::comma_parts(with_commas(rest))[i - 1]);
            }
        }
    }
}

proof fn lemma_all_listed(names: Seq<&'static str>, parts: Seq<Seq<char>>)
    ensures
        arguments::first_unlisted(names, parts) is None <==> forall|i: int|
            0 <= i < parts.len() ==> exists|k: int|
                0 <= k < names.len() && (#[trigger] names[k])@ == #[trigger] parts[i],
    decreases parts.len(),
{
    if parts.len() > 0 {
        let rest = parts.skip(1);
        lemma_all_listed(names, rest);
        if arguments::first_unlisted(names, parts) is None {
            assert forall|i: int| 0 <= i < parts.len() implies exists|k: int|
                0 <= k < names.len() && (#[trigger] names[k])@ == #[trigger] parts[i] by {
                if i > 0 {
                    assert(rest[i - 1] == parts[i]);
                }
            }
        } else if arguments::is_listed(names, parts[0]) {
            let i = choose|i: int|
                0 <= i < rest.len() && !exists|k: int|
                    0 <= k < names.len() && (#[trigger] names[k])@ == #[trigger] rest[i];
            assert(rest[i] == parts[i + 1]);
        } else {
            assert(parts[0] == parts[0]);
        }
    }
}

/// What an option takes: any text, a number, a number above zero, a listed name, or a list
/// of such names.
pub proof fn law_accepted_values(rule: ValueRule, k: usize, s: Seq<char>)
    ensures
        arguments::value_fault(rule, k, s) is None <==> match rule {
            ValueRule::Text => true,
            ValueRule::Number => arguments::spelled_number(s) is Some,
            ValueRule::Positive => arguments::spelled_number(s) matches Some(n) && n > 0,
            ValueRule::OneOf(names) => exists|i: int|
                0 <= i < names@.len() && (#[trigger] names@[i])@ == s,
            ValueRule::ListOf(names) => forall|j: int|
                0 <= j < arguments::comma_parts(s).len() ==> exists|i: int|
                    0 <= i < names@.len() && (#[trigger] names@[i])@
                        == #[trigger] arguments::comma_parts(s)[j],
        },
{
    if let ValueRule::ListOf(names) = rule {
        lemma_all_listed(names@, arguments::comma_parts(s));
    }
}

} // verus!
