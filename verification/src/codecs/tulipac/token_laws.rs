//! Where the tokens of a grammar stand.
use super::tokens;
use super::tokens::{LexFault, Lexeme, TokenModel};
use crate::text;
use vstd::prelude::*;
use vstd::utf8;

verus! {

/// Whether an offset is that of a character that is no white space.
pub open spec fn is_place(s: Seq<char>, offset: usize) -> bool {
    exists|i: int|
        0 <= i < s.len() && offset == #[trigger] text::byte_offset(s, i) && !text::white_space(s[i])
}

/// Later characters have later offsets.
proof fn lemma_offsets_increase(s: Seq<char>, i: int, j: int)
    requires
        0 <= i < j <= s.len(),
    ensures
        text::byte_offset(s, i) < text::byte_offset(s, j),
    decreases j - i,
{
    text::lemma_byte_offset_step(s, j - 1);
    lemma_scalar_length(s[j - 1]);
    if i < j - 1 {
        lemma_offsets_increase(s, i, j - 1);
    }
}

/// Every character takes some byte.
proof fn lemma_scalar_length(c: char)
    ensures
        utf8::encode_scalar(c as u32).len() > 0,
{
}

proof fn lemma_total(s: Seq<char>)
    ensures
        text::byte_offset(s, s.len() as int) == utf8::encode_utf8(s).len(),
{
    assert(s.take(s.len() as int) =~= s);
}

proof fn lemma_tokens_from(s: Seq<char>, i: int)
    requires
        0 <= i <= s.len(),
        utf8::encode_utf8(s).len() <= usize::MAX,
    ensures
        tokens::tokens_from(s, i) matches Ok(list) ==> {
            &&& forall|k: int|
                0 <= k < list.len() ==> is_place(s, (#[trigger] list[k]).1) && list[k].1
                    >= text::byte_offset(s, i)
            &&& forall|k: int, l: int|
                0 <= k < l < list.len() ==> (#[trigger] list[k]).1 < (#[trigger] list[l]).1
        },
    decreases s.len() - i,
{
    if i < s.len() {
        tokens::lemma_lexeme_moves(s, i);
        lemma_total(s);
        lemma_offsets_increase(s, i, s.len() as int);
        match tokens::lexeme(s, i) {
            Lexeme::Skip(next) => {
                lemma_tokens_from(s, next);
                lemma_offsets_increase(s, i, next);
            },
            Lexeme::Token(t, next) => {
                lemma_tokens_from(s, next);
                lemma_offsets_increase(s, i, next);
                if tokens::tokens_from(s, i) is Ok {
                    let rest = tokens::tokens_from(s, next)->Ok_0;
                    let list = tokens::tokens_from(s, i)->Ok_0;
                    assert(list =~= seq![(t, text::byte_offset(s, i) as usize)] + rest);
                    assert forall|k: int| 0 <= k < list.len() implies is_place(
                        s,
                        (#[trigger] list[k]).1,
                    ) && list[k].1 >= text::byte_offset(s, i) by {
                        if k > 0 {
                            assert(list[k] == rest[k - 1]);
                        } else {
                            assert(list[0].1 == text::byte_offset(s, i));
                        }
                    }
                    assert forall|k: int, l: int| 0 <= k < l < list.len() implies (
                    #[trigger] list[k]).1 < (#[trigger] list[l]).1 by {
                        assert(list[l] == rest[l - 1]);
                        if k > 0 {
                            assert(list[k] == rest[k - 1]);
                        } else {
                            assert(rest[l - 1].1 >= text::byte_offset(s, next));
                        }
                    }
                }
            },
            Lexeme::Fault(e) => {},
        }
    }
}

/// Tokens start at characters of the text that are no white space, each behind the last.
pub proof fn law_tokens_increase(s: Seq<char>, list: Seq<(TokenModel, usize)>)
    requires
        utf8::encode_utf8(s).len() <= usize::MAX,
        tokens::tokens_of(s) == Ok::<Seq<(TokenModel, usize)>, (usize, LexFault)>(list),
    ensures
        forall|k: int, l: int|
            0 <= k < l < list.len() ==> (#[trigger] list[k]).1 < (#[trigger] list[l]).1,
        forall|k: int|
            0 <= k < list.len() ==> is_place(s, (#[trigger] list[k]).1) && list[k].1
                < utf8::encode_utf8(s).len(),
{
    lemma_tokens_from(s, 0);
    lemma_total(s);
    let found = tokens::tokens_from(s, 0);
    assert(found is Ok && found->Ok_0 == list);
    assert(forall|k: int| 0 <= k < list.len() ==> is_place(s, (#[trigger] list[k]).1));
    assert forall|k: int| 0 <= k < list.len() implies is_place(s, (#[trigger] list[k]).1)
        && list[k].1 < utf8::encode_utf8(s).len() by {
        let i = choose|i: int|
            0 <= i < s.len() && list[k].1 == #[trigger] text::byte_offset(s, i)
                && !text::white_space(s[i]);
        lemma_offsets_increase(s, i, s.len() as int);
    }
}

/// A text behind a space.
pub open spec fn spaced(s: Seq<char>) -> Seq<char> {
    seq![' '] + s
}

proof fn lemma_shift_ends(s: Seq<char>, c: char, i: int)
    requires
        0 <= i <= s.len(),
    ensures
        tokens::find_char(spaced(s), c, i + 1) == tokens::find_char(s, c, i) + 1,
        tokens::word_end(spaced(s), i + 1) == tokens::word_end(s, i) + 1,
        tokens::letters_end(spaced(s), i + 1) == tokens::letters_end(s, i) + 1,
        tokens::find_comment_end(spaced(s), i + 1) == tokens::find_comment_end(s, i) + 1,
    decreases s.len() - i,
{
    if i < s.len() {
        assert(spaced(s)[i + 1] == s[i]);
        if i + 1 < s.len() {
            assert(spaced(s)[i + 2] == s[i + 1]);
        }
        lemma_shift_ends(s, c, i + 1);
    }
}

proof fn lemma_shift_range(s: Seq<char>, i: int, j: int)
    requires
        0 <= i <= j <= s.len(),
    ensures
        spaced(s).subrange(i + 1, j + 1) == s.subrange(i, j),
{
    assert(spaced(s).subrange(i + 1, j + 1) =~= s.subrange(i, j));
}

/// A space in front moves what follows by one place.
proof fn lemma_shift_lexeme(s: Seq<char>, i: int)
    requires
        0 <= i < s.len(),
    ensures
        tokens::lexeme(spaced(s), i + 1) == (match tokens::lexeme(s, i) {
            Lexeme::Skip(next) => Lexeme::Skip(next + 1),
            Lexeme::Token(t, next) => Lexeme::Token(t, next + 1),
            Lexeme::Fault(e) => Lexeme::Fault(e),
        }),
{
    let c = s[i];
    assert(spaced(s)[i + 1] == c);
    lemma_shift_ends(s, c, i + 1);
    lemma_shift_ends(s, '>', i + 1);
    tokens::lemma_ends(s, c, i + 1);
    tokens::lemma_ends(s, '>', i + 1);
    if i + 1 < s.len() {
        assert(spaced(s)[i + 2] == s[i + 1]);
        lemma_shift_ends(s, '\n', i + 2);
    }
    lemma_shift_range(s, i + 1, tokens::find_char(s, c, i + 1));
    lemma_shift_range(s, i + 1, tokens::find_char(s, '>', i + 1));
    lemma_shift_range(s, i + 1, tokens::word_end(s, i + 1));
    lemma_shift_range(s, i, tokens::word_end(s, i + 1));
    lemma_shift_range(s, i, tokens::letters_end(s, i + 1));
}

proof fn lemma_shift_offset(s: Seq<char>, i: int)
    requires
        0 <= i <= s.len(),
    ensures
        text::byte_offset(spaced(s), i + 1) == text::byte_offset(s, i) + 1,
{
    let all = spaced(s).take(i + 1);
    assert(all.drop_first() =~= s.take(i));
    assert(all[0] == ' ');
    assert(utf8::encode_scalar(' ' as u32).len() == 1);
}

/// Tokens with their offsets moved by one, or a fault with its own moved.
pub open spec fn moved(r: Result<Seq<(TokenModel, usize)>, (usize, LexFault)>) -> Result<
    Seq<(TokenModel, usize)>,
    (usize, LexFault),
> {
    match r {
        Ok(list) => Ok(moved_tokens(list)),
        Err((offset, e)) => Err(((offset + 1) as usize, e)),
    }
}

/// Tokens with their offsets moved by one.
pub open spec fn moved_tokens(list: Seq<(TokenModel, usize)>) -> Seq<(TokenModel, usize)> {
    Seq::new(list.len(), |k: int| (list[k].0, (list[k].1 + 1) as usize))
}

proof fn lemma_shift_tokens(s: Seq<char>, i: int)
    requires
        0 <= i <= s.len(),
        utf8::encode_utf8(s).len() < usize::MAX,
    ensures
        tokens::tokens_from(spaced(s), i + 1) == moved(tokens::tokens_from(s, i)),
    decreases s.len() - i,
{
    let none = Seq::<(TokenModel, usize)>::empty();
    if i >= s.len() {
        assert(moved_tokens(none) =~= none);
    } else {
        tokens::lemma_lexeme_moves(s, i);
        lemma_shift_lexeme(s, i);
        lemma_shift_offset(s, i);
        lemma_total(s);
        lemma_offsets_increase(s, i, s.len() as int);
        match tokens::lexeme(s, i) {
            Lexeme::Skip(next) => {
                lemma_shift_tokens(s, next);
            },
            Lexeme::Token(t, next) => {
                lemma_shift_tokens(s, next);
                if tokens::tokens_from(s, next) is Ok {
                    let rest = tokens::tokens_from(s, next)->Ok_0;
                    let one = seq![(t, text::byte_offset(s, i) as usize)];
                    assert(moved_tokens(one + rest) =~= seq![
                        (t, text::byte_offset(spaced(s), i + 1) as usize),
                    ] + moved_tokens(rest));
                }
            },
            Lexeme::Fault(e) => {},
        }
    }
}

/// A space in front of a text moves every token, or the fault, by one byte and changes
/// nothing else.
pub proof fn law_leading_space(s: Seq<char>)
    requires
        utf8::encode_utf8(s).len() < usize::MAX,
    ensures
        tokens::tokens_of(spaced(s)) == moved(tokens::tokens_of(s)),
{
    assert(spaced(s)[0] == ' ');
    assert(text::white_space(' '));
    lemma_shift_tokens(s, 0);
}

} // verus!
