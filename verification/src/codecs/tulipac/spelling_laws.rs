//! Spelling tokens: a text that spells tokens has these tokens.
use crate::codecs::tulipac::tokens;
use crate::codecs::tulipac::tokens::{Lexeme, TokenModel};
use vstd::prelude::*;

verus! {

/// A piece of a text: a token as it is spelled, a blank, or a comment.
pub enum Piece {
    Token(TokenModel, Seq<char>),
    Blank(char),
    LineComment(Seq<char>),
    BlockComment(Seq<char>),
}

/// Whether a character is a letter.
pub open spec fn is_letter(c: char) -> bool {
    ('a' <= c && c <= 'z') || ('A' <= c && c <= 'Z')
}

/// Whether all characters from place `from` on are letters, digits or underscores.
pub open spec fn is_wordy(s: Seq<char>, from: int) -> bool {
    forall|i: int|
        from <= i < s.len() ==> (is_letter(#[trigger] s[i]) || ('0' <= s[i] && s[i] <= '9') || s[i]
            == '_')
}

/// Whether a text is an identifier and no keyword.
pub open spec fn is_plain_name(s: Seq<char>) -> bool {
    &&& s.len() > 0
    &&& is_letter(s[0]) || s[0] == '_'
    &&& is_wordy(s, 0)
    &&& s != "tree"@ && s != "family"@ && s != "word"@ && s != "lemma"@
}

/// Whether a text is another one between two characters, the second of which it lacks.
pub open spec fn is_between(s: Seq<char>, open: char, inner: Seq<char>, close: char) -> bool {
    s == seq![open] + inner + seq![close] && !inner.contains(close)
}

/// Whether a text is a sigil and a word.
pub open spec fn is_marked(s: Seq<char>, sigil: char, word: Seq<char>) -> bool {
    s == seq![sigil] + word && word.len() > 0 && is_wordy(word, 0)
}

/// Whether a text spells a token.
pub open spec fn spells(t: TokenModel, s: Seq<char>) -> bool {
    match t {
        TokenModel::Tree => s == "tree"@,
        TokenModel::Family => s == "family"@,
        TokenModel::Word => s == "word"@,
        TokenModel::Lemma => s == "lemma"@,
        TokenModel::Include => s == "#include"@,
        TokenModel::Name(n) => {
            ||| s == n && is_plain_name(n)
            ||| is_between(s, '\'', n, '\'')
            ||| is_between(s, '"', n, '"')
        },
        TokenModel::FamilyName(n) => is_between(s, '<', n, '>'),
        TokenModel::Annotation(n) => is_marked(s, '@', n),
        TokenModel::Variable(n) => is_marked(s, '?', n),
        TokenModel::Bang => s == seq!['!'],
        TokenModel::Star => s == seq!['*'],
        TokenModel::Plus => s == seq!['+'],
        TokenModel::Colon => s == seq![':'],
        TokenModel::LBrace => s == seq!['{'],
        TokenModel::RBrace => s == seq!['}'],
        TokenModel::LBracket => s == seq!['['],
        TokenModel::RBracket => s == seq![']'],
        TokenModel::Comma => s == seq![','],
        TokenModel::Equals => s == seq!['='],
    }
}

/// Whether a text ends a comment with its last two characters and nowhere before.
pub open spec fn ends_once(s: Seq<char>) -> bool {
    forall|i: int| 0 <= i < s.len() - 2 ==> !(#[trigger] s[i] == '*' && s[i + 1] == '/')
}

/// The text of a piece.
pub open spec fn piece_text(piece: Piece) -> Seq<char> {
    match piece {
        Piece::Token(t, s) => s,
        Piece::Blank(c) => seq![c],
        Piece::LineComment(s) => seq!['/', '/'] + s + seq!['\n'],
        Piece::BlockComment(s) => seq!['/', '*'] + (s + seq!['*', '/']),
    }
}

/// Whether a piece is spelled as it should be.
pub open spec fn is_piece(piece: Piece) -> bool {
    match piece {
        Piece::Token(t, s) => spells(t, s),
        Piece::Blank(c) => c == ' ' || c == '\t' || c == '\r' || c == '\n',
        Piece::LineComment(s) => !s.contains('\n'),
        Piece::BlockComment(s) => ends_once(s + seq!['*', '/']),
    }
}

/// Whether pieces make a text: a blank follows every token.
pub open spec fn are_pieces(list: Seq<Piece>) -> bool {
    &&& forall|i: int| 0 <= i < list.len() ==> is_piece(#[trigger] list[i])
    &&& forall|i: int|
        0 <= i < list.len() && (#[trigger] list[i]) is Token ==> i + 1 < list.len() && list[i
            + 1] is Blank
}

/// The text of pieces.
pub open spec fn pieces_text(list: Seq<Piece>) -> Seq<char>
    decreases list.len(),
{
    if list.len() == 0 {
        Seq::empty()
    } else {
        piece_text(list[0]) + pieces_text(list.skip(1))
    }
}

/// The tokens among pieces.
pub open spec fn pieces_tokens(list: Seq<Piece>) -> Seq<TokenModel>
    decreases list.len(),
{
    if list.len() == 0 {
        Seq::empty()
    } else {
        match list[0] {
            Piece::Token(t, s) => seq![t] + pieces_tokens(list.skip(1)),
            _ => pieces_tokens(list.skip(1)),
        }
    }
}

/// Whether a text lies at place `p` of another.
pub open spec fn lies(text: Seq<char>, p: int, s: Seq<char>) -> bool {
    &&& 0 <= p
    &&& p + s.len() <= text.len()
    &&& forall|i: int| 0 <= i < s.len() ==> #[trigger] s[i] == text[p + i]
}

/// Texts lie one after another.
pub proof fn lemma_split(text: Seq<char>, p: int, a: Seq<char>, b: Seq<char>)
    requires
        lies(text, p, a + b),
    ensures
        lies(text, p, a),
        lies(text, p + a.len(), b),
{
    assert forall|i: int| 0 <= i < a.len() implies #[trigger] a[i] == text[p + i] by {
        assert((a + b)[i] == text[p + i]);
    }
    assert forall|i: int| 0 <= i < b.len() implies #[trigger] b[i] == text[p + a.len() + i] by {
        assert((a + b)[a.len() + i] == text[p + (a.len() + i)]);
    }
}

proof fn lemma_cut(text: Seq<char>, p: int, s: Seq<char>)
    requires
        lies(text, p, s),
    ensures
        text.subrange(p, p + s.len()) == s,
{
    assert(text.subrange(p, p + s.len()) =~= s);
}

proof fn lemma_find(text: Seq<char>, c: char, i: int, e: int)
    requires
        0 <= i <= e < text.len(),
        text[e] == c,
        forall|k: int| i <= k < e ==> #[trigger] text[k] != c,
    ensures
        tokens::find_char(text, c, i) == e,
    decreases e - i,
{
    if i < e {
        assert(text[i] != c);
        lemma_find(text, c, i + 1, e);
    }
}

proof fn lemma_word_end(text: Seq<char>, i: int, e: int)
    requires
        0 <= i <= e < text.len(),
        !tokens::word_char(text[e]),
        forall|k: int| i <= k < e ==> tokens::word_char(#[trigger] text[k]),
    ensures
        tokens::word_end(text, i) == e,
    decreases e - i,
{
    if i < e {
        assert(tokens::word_char(text[i]));
        lemma_word_end(text, i + 1, e);
    }
}

proof fn lemma_letters_end(text: Seq<char>, i: int, e: int)
    requires
        0 <= i <= e < text.len(),
        !is_letter(text[e]),
        forall|k: int| i <= k < e ==> is_letter(#[trigger] text[k]),
    ensures
        tokens::letters_end(text, i) == e,
    decreases e - i,
{
    if i < e {
        assert(is_letter(text[i]));
        lemma_letters_end(text, i + 1, e);
    }
}

proof fn lemma_comment_end(text: Seq<char>, i: int, e: int)
    requires
        0 <= i <= e,
        e + 1 < text.len(),
        text[e] == '*',
        text[e + 1] == '/',
        forall|k: int| i <= k < e ==> !(#[trigger] text[k] == '*' && text[k + 1] == '/'),
    ensures
        tokens::find_comment_end(text, i) == e + 1,
    decreases e - i,
{
    if i < e {
        assert(!(text[i] == '*' && text[i + 1] == '/'));
        lemma_comment_end(text, i + 1, e);
    }
}

/// A word of letters, digits and underscores is one token.
proof fn lemma_word(text: Seq<char>, p: int, s: Seq<char>)
    requires
        lies(text, p, s),
        s.len() > 0,
        is_letter(s[0]) || s[0] == '_',
        is_wordy(s, 0),
        p + s.len() < text.len(),
        !tokens::word_char(text[p + s.len()]),
    ensures
        tokens::lexeme(text, p) == Lexeme::Token(
            if s == "tree"@ {
                TokenModel::Tree
            } else if s == "family"@ {
                TokenModel::Family
            } else if s == "word"@ {
                TokenModel::Word
            } else if s == "lemma"@ {
                TokenModel::Lemma
            } else {
                TokenModel::Name(s)
            },
            p + s.len(),
        ),
{
    let e = p + s.len();
    assert(s[0] == text[p + 0]);
    assert forall|k: int| p + 1 <= k < e implies tokens::word_char(#[trigger] text[k]) by {
        assert(s[k - p] == text[p + (k - p)]);
    }
    lemma_word_end(text, p + 1, e);
    lemma_cut(text, p, s);
}

/// A text between two characters is one token.
proof fn lemma_between(text: Seq<char>, p: int, s: Seq<char>, open: char, n: Seq<char>, close: char)
    requires
        lies(text, p, s),
        is_between(s, open, n, close),
    ensures
        text[p] == open,
        tokens::find_char(text, close, p + 1) == p + 1 + n.len(),
        text.subrange(p + 1, p + 1 + n.len()) == n,
        p + 1 + n.len() < text.len(),
        s.len() == n.len() + 2,
{
    let e = p + 1 + n.len();
    assert(s[0] == text[p + 0]);
    assert(s[n.len() as int + 1] == close);
    assert(s[n.len() as int + 1] == text[p + (n.len() + 1)]);
    assert forall|k: int| p + 1 <= k < e implies #[trigger] text[k] != close by {
        assert(s[k - p] == text[p + (k - p)]);
        assert(s[k - p] == n[k - p - 1]);
        assert(n.contains(n[k - p - 1]));
    }
    lemma_find(text, close, p + 1, e);
    assert forall|i: int| 0 <= i < n.len() implies #[trigger] n[i] == text[p + 1 + i] by {
        assert(s[i + 1] == text[p + (i + 1)]);
    }
    lemma_cut(text, p + 1, n);
}

/// A word behind a sigil is one token.
proof fn lemma_marked(text: Seq<char>, p: int, s: Seq<char>, sigil: char, n: Seq<char>)
    requires
        lies(text, p, s),
        is_marked(s, sigil, n),
        p + s.len() < text.len(),
        !tokens::word_char(text[p + s.len()]),
    ensures
        text[p] == sigil,
        tokens::word_end(text, p + 1) == p + s.len(),
        text.subrange(p + 1, p + s.len()) == n,
        s.len() == n.len() + 1,
{
    let e = p + s.len();
    assert(s[0] == text[p + 0]);
    assert forall|k: int| p + 1 <= k < e implies tokens::word_char(#[trigger] text[k]) by {
        assert(s[k - p] == text[p + (k - p)]);
        assert(s[k - p] == n[k - p - 1]);
    }
    lemma_word_end(text, p + 1, e);
    assert forall|i: int| 0 <= i < n.len() implies #[trigger] n[i] == text[p + 1 + i] by {
        assert(s[i + 1] == text[p + (i + 1)]);
    }
    lemma_cut(text, p + 1, n);
}

/// A spelled token is recognized.
proof fn lemma_token(text: Seq<char>, p: int, t: TokenModel, s: Seq<char>)
    requires
        lies(text, p, s),
        spells(t, s),
        p + s.len() < text.len(),
        is_piece(Piece::Blank(text[p + s.len()])),
    ensures
        s.len() > 0,
        tokens::lexeme(text, p) == Lexeme::Token(t, p + s.len()),
{
    reveal_strlit("tree");
    reveal_strlit("family");
    reveal_strlit("word");
    reveal_strlit("lemma");
    reveal_strlit("#include");
    match t {
        TokenModel::Tree => {
            lemma_word(text, p, s);
        },
        TokenModel::Family => {
            assert("tree"@.len() != "family"@.len());
            lemma_word(text, p, s);
        },
        TokenModel::Word => {
            assert("tree"@[0] != "word"@[0]);
            assert("family"@.len() != "word"@.len());
            lemma_word(text, p, s);
        },
        TokenModel::Lemma => {
            assert("tree"@.len() != "lemma"@.len());
            assert("family"@.len() != "lemma"@.len());
            assert("word"@.len() != "lemma"@.len());
            lemma_word(text, p, s);
        },
        TokenModel::Include => {
            assert(s[0] == text[p + 0]);
            assert forall|k: int| p + 1 <= k < p + 8 implies is_letter(#[trigger] text[k]) by {
                assert(s[k - p] == text[p + (k - p)]);
            }
            lemma_letters_end(text, p + 1, p + 8);
            lemma_cut(text, p, s);
        },
        TokenModel::Name(n) => {
            if s == n && is_plain_name(n) {
                lemma_word(text, p, s);
            } else if is_between(s, '\'', n, '\'') {
                lemma_between(text, p, s, '\'', n, '\'');
            } else {
                lemma_between(text, p, s, '"', n, '"');
            }
        },
        TokenModel::FamilyName(n) => {
            lemma_between(text, p, s, '<', n, '>');
        },
        TokenModel::Annotation(n) => {
            lemma_marked(text, p, s, '@', n);
        },
        TokenModel::Variable(n) => {
            lemma_marked(text, p, s, '?', n);
        },
        _ => {
            assert(s[0] == text[p + 0]);
        },
    }
}

/// A comment is skipped.
proof fn lemma_comment(text: Seq<char>, p: int, piece: Piece)
    requires
        is_piece(piece),
        piece is LineComment || piece is BlockComment,
        lies(text, p, piece_text(piece)),
    ensures
        tokens::lexeme(text, p) == Lexeme::Skip(p + piece_text(piece).len()),
{
    let w = piece_text(piece);
    assert(w[0] == text[p + 0]);
    assert(w[1] == text[p + 1]);
    match piece {
        Piece::LineComment(s) => {
            let e = p + 2 + s.len();
            assert(w[2 + s.len() as int] == '\n');
            assert(w[2 + s.len() as int] == text[p + (2 + s.len())]);
            assert forall|k: int| p + 2 <= k < e implies #[trigger] text[k] != '\n' by {
                assert(w[k - p] == text[p + (k - p)]);
                assert(w[k - p] == s[k - p - 2]);
                assert(s.contains(s[k - p - 2]));
            }
            lemma_find(text, '\n', p + 2, e);
        },
        Piece::BlockComment(s) => {
            let body = s + seq!['*', '/'];
            let e = p + 2 + s.len();
            assert forall|i: int| 0 <= i < body.len() implies #[trigger] body[i] == text[p + 2
                + i] by {
                assert(w[i + 2] == text[p + (i + 2)]);
            }
            assert(body[s.len() as int] == '*');
            assert(body[s.len() as int + 1] == '/');
            assert forall|k: int| p + 2 <= k < e implies !(#[trigger] text[k] == '*' && text[k + 1]
                == '/') by {
                assert(body[k - p - 2] == text[p + 2 + (k - p - 2)]);
                assert(body[k - p - 1] == text[p + 2 + (k - p - 1)]);
            }
            lemma_comment_end(text, p + 2, e);
        },
        _ => {},
    }
}

/// The tokens of a text from a place on are those of the pieces there.
proof fn lemma_pieces(text: Seq<char>, p: int, list: Seq<Piece>)
    requires
        are_pieces(list),
        lies(text, p, pieces_text(list)),
        p + pieces_text(list).len() == text.len(),
    ensures
        tokens::tokens_from(text, p) matches Ok(found) && found.len() == pieces_tokens(list).len()
            && forall|k: int| 0 <= k < found.len() ==> (#[trigger] found[k]).0 == pieces_tokens(
            list,
        )[k],
    decreases list.len(),
{
    if list.len() > 0 {
        let w = piece_text(list[0]);
        let rest = list.skip(1);
        let q = p + w.len();
        assert(is_piece(list[0]));
        lemma_split(text, p, w, pieces_text(rest));
        assert forall|i: int| 0 <= i < rest.len() implies is_piece(#[trigger] rest[i]) by {
            assert(rest[i] == list[i + 1]);
        }
        assert forall|i: int| 0 <= i < rest.len() && (#[trigger] rest[i]) is Token implies i + 1
            < rest.len() && rest[i + 1] is Blank by {
            assert(rest[i] == list[i + 1]);
            assert(rest[i + 1] == list[i + 2]);
        }
        lemma_pieces(text, q, rest);
        let later = tokens::tokens_from(text, q)->Ok_0;
        match list[0] {
            Piece::Token(t, s) => {
                assert(list[0] is Token);
                assert(rest[0] == list[1]);
                let blank = piece_text(rest[0]);
                assert(is_piece(rest[0]));
                lemma_split(text, q, blank, pieces_text(rest.skip(1)));
                assert(blank[0] == text[q + 0]);
                lemma_token(text, p, t, s);
                let found = tokens::tokens_from(text, p)->Ok_0;
                assert forall|k: int| 0 <= k < found.len() implies (#[trigger] found[k]).0
                    == pieces_tokens(list)[k] by {
                    if k > 0 {
                        assert(found[k] == later[k - 1]);
                    }
                }
            },
            Piece::Blank(c) => {
                assert(w[0] == text[p + 0]);
            },
            _ => {
                lemma_comment(text, p, list[0]);
            },
        }
    }
}

/// A text that spells tokens, with blanks and comments between them, has these tokens.
pub proof fn law_tokens_are_as_spelled(list: Seq<Piece>)
    requires
        are_pieces(list),
    ensures
        tokens::tokens_of(pieces_text(list)) matches Ok(found) && found.len() == pieces_tokens(
            list,
        ).len() && forall|k: int|
            0 <= k < found.len() ==> (#[trigger] found[k]).0 == pieces_tokens(list)[k],
{
    lemma_pieces(pieces_text(list), 0, list);
}

} // verus!
