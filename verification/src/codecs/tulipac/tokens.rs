//! The tokens of a Tulipac grammar.
use crate::text;
use crate::text::{byte_offsets, chars_of, is_ascii_digit, is_ascii_letter, is_text, text_of};
use vstd::prelude::*;

verus! {

/// One token, without its place.
#[derive(Debug)]
pub enum TokenKind {
    Tree,
    Family,
    Word,
    Lemma,
    Include,
    Name(String),
    FamilyName(String),
    Annotation(String),
    Variable(String),
    Bang,
    Star,
    Plus,
    Colon,
    LBrace,
    RBrace,
    LBracket,
    RBracket,
    Comma,
    Equals,
}

/// What a token says.
pub enum TokenModel {
    Tree,
    Family,
    Word,
    Lemma,
    Include,
    Name(Seq<char>),
    FamilyName(Seq<char>),
    Annotation(Seq<char>),
    Variable(Seq<char>),
    Bang,
    Star,
    Plus,
    Colon,
    LBrace,
    RBrace,
    LBracket,
    RBracket,
    Comma,
    Equals,
}

impl View for TokenKind {
    type V = TokenModel;

    open spec fn view(&self) -> TokenModel {
        match self {
            TokenKind::Tree => TokenModel::Tree,
            TokenKind::Family => TokenModel::Family,
            TokenKind::Word => TokenModel::Word,
            TokenKind::Lemma => TokenModel::Lemma,
            TokenKind::Include => TokenModel::Include,
            TokenKind::Name(s) => TokenModel::Name(s@),
            TokenKind::FamilyName(s) => TokenModel::FamilyName(s@),
            TokenKind::Annotation(s) => TokenModel::Annotation(s@),
            TokenKind::Variable(s) => TokenModel::Variable(s@),
            TokenKind::Bang => TokenModel::Bang,
            TokenKind::Star => TokenModel::Star,
            TokenKind::Plus => TokenModel::Plus,
            TokenKind::Colon => TokenModel::Colon,
            TokenKind::LBrace => TokenModel::LBrace,
            TokenKind::RBrace => TokenModel::RBrace,
            TokenKind::LBracket => TokenModel::LBracket,
            TokenKind::RBracket => TokenModel::RBracket,
            TokenKind::Comma => TokenModel::Comma,
            TokenKind::Equals => TokenModel::Equals,
        }
    }
}

/// A token and the byte offset at which it starts.
#[derive(Debug)]
pub struct Token {
    pub kind: TokenKind,
    pub offset: usize,
}

impl View for Token {
    type V = (TokenModel, usize);

    open spec fn view(&self) -> (TokenModel, usize) {
        (self.kind@, self.offset)
    }
}

/// What tokens say, and where.
pub open spec fn token_views(tokens: Seq<Token>) -> Seq<(TokenModel, usize)> {
    Seq::new(tokens.len(), |i: int| tokens[i]@)
}

/// Why a text has no tokens.
#[derive(Debug)]
pub enum LexErrorKind {
    UnterminatedComment,
    UnterminatedQuote,
    UnterminatedFamily,
    /// The sigil that no identifier follows.
    MissingIdentifier(char),
    UnknownDirective(String),
    UnexpectedCharacter(char),
}

/// What is wrong with a text.
pub enum LexFault {
    UnterminatedComment,
    UnterminatedQuote,
    UnterminatedFamily,
    MissingIdentifier(char),
    UnknownDirective(Seq<char>),
    UnexpectedCharacter(char),
}

impl View for LexErrorKind {
    type V = LexFault;

    open spec fn view(&self) -> LexFault {
        match self {
            LexErrorKind::UnterminatedComment => LexFault::UnterminatedComment,
            LexErrorKind::UnterminatedQuote => LexFault::UnterminatedQuote,
            LexErrorKind::UnterminatedFamily => LexFault::UnterminatedFamily,
            LexErrorKind::MissingIdentifier(c) => LexFault::MissingIdentifier(*c),
            LexErrorKind::UnknownDirective(s) => LexFault::UnknownDirective(s@),
            LexErrorKind::UnexpectedCharacter(c) => LexFault::UnexpectedCharacter(*c),
        }
    }
}

/// Why a text has no tokens, and at which byte.
#[derive(Debug)]
pub struct LexError {
    pub offset: usize,
    pub kind: LexErrorKind,
}

impl View for LexError {
    type V = (usize, LexFault);

    open spec fn view(&self) -> (usize, LexFault) {
        (self.offset, self.kind@)
    }
}

/// Whether a character may continue an identifier.
pub open spec fn word_char(c: char) -> bool {
    text::ascii_letter(c) || text::ascii_digit(c) || c == '_'
}

/// The first place at or after `i` that holds `c`, or the end.
pub open spec fn find_char(text: Seq<char>, c: char, i: int) -> int
    decreases text.len() - i,
{
    if i >= text.len() {
        text.len() as int
    } else if text[i] == c {
        i
    } else {
        find_char(text, c, i + 1)
    }
}

/// The first place at or after `i` that ends a comment with `*/`, or the end. The
/// star may not stand before `i`.
pub open spec fn find_comment_end(text: Seq<char>, i: int) -> int
    decreases text.len() - i,
{
    if i + 1 >= text.len() {
        text.len() as int
    } else if text[i] == '*' && text[i + 1] == '/' {
        i + 1
    } else {
        find_comment_end(text, i + 1)
    }
}

/// Where the run of identifier characters that starts at `i` ends.
pub open spec fn word_end(text: Seq<char>, i: int) -> int
    decreases text.len() - i,
{
    if i >= text.len() {
        text.len() as int
    } else if word_char(text[i]) {
        word_end(text, i + 1)
    } else {
        i
    }
}

/// Where the run of letters that starts at `i` ends.
pub open spec fn letters_end(text: Seq<char>, i: int) -> int
    decreases text.len() - i,
{
    if i >= text.len() {
        text.len() as int
    } else if text::ascii_letter(text[i]) {
        letters_end(text, i + 1)
    } else {
        i
    }
}

/// What stands at one place of a text: something to skip, a token, or a fault. The
/// number is the place that follows.
pub enum Lexeme {
    Skip(int),
    Token(TokenModel, int),
    Fault(LexFault),
}

/// The token for an identifier: a keyword or a name.
pub open spec fn word_token(word: Seq<char>) -> TokenModel {
    if word == "tree"@ {
        TokenModel::Tree
    } else if word == "family"@ {
        TokenModel::Family
    } else if word == "word"@ {
        TokenModel::Word
    } else if word == "lemma"@ {
        TokenModel::Lemma
    } else {
        TokenModel::Name(word)
    }
}

/// The token that one character is by itself.
pub open spec fn punctuation(c: char) -> Option<TokenModel> {
    if c == '!' {
        Some(TokenModel::Bang)
    } else if c == '*' {
        Some(TokenModel::Star)
    } else if c == '+' {
        Some(TokenModel::Plus)
    } else if c == ':' {
        Some(TokenModel::Colon)
    } else if c == '{' {
        Some(TokenModel::LBrace)
    } else if c == '}' {
        Some(TokenModel::RBrace)
    } else if c == '[' {
        Some(TokenModel::LBracket)
    } else if c == ']' {
        Some(TokenModel::RBracket)
    } else if c == ',' {
        Some(TokenModel::Comma)
    } else if c == '=' {
        Some(TokenModel::Equals)
    } else {
        None
    }
}

/// What stands at place `i` of a text.
pub open spec fn lexeme(text: Seq<char>, i: int) -> Lexeme {
    let c = text[i];
    if text::white_space(c) {
        Lexeme::Skip(i + 1)
    } else if c == '/' && i + 1 < text.len() && text[i + 1] == '/' {
        let end = find_char(text, '\n', i + 2);
        Lexeme::Skip(
            if end < text.len() {
                end + 1
            } else {
                end
            },
        )
    } else if c == '/' && i + 1 < text.len() && text[i + 1] == '*' {
        let end = find_comment_end(text, i + 2);
        if end < text.len() {
            Lexeme::Skip(end + 1)
        } else {
            Lexeme::Fault(LexFault::UnterminatedComment)
        }
    } else if c == '\'' || c == '"' {
        let end = find_char(text, c, i + 1);
        if end < text.len() {
            Lexeme::Token(TokenModel::Name(text.subrange(i + 1, end)), end + 1)
        } else {
            Lexeme::Fault(LexFault::UnterminatedQuote)
        }
    } else if c == '<' {
        let end = find_char(text, '>', i + 1);
        if end < text.len() {
            Lexeme::Token(TokenModel::FamilyName(text.subrange(i + 1, end)), end + 1)
        } else {
            Lexeme::Fault(LexFault::UnterminatedFamily)
        }
    } else if c == '@' || c == '?' {
        let end = word_end(text, i + 1);
        if end == i + 1 {
            Lexeme::Fault(LexFault::MissingIdentifier(c))
        } else if c == '@' {
            Lexeme::Token(TokenModel::Annotation(text.subrange(i + 1, end)), end)
        } else {
            Lexeme::Token(TokenModel::Variable(text.subrange(i + 1, end)), end)
        }
    } else if c == '#' {
        let end = letters_end(text, i + 1);
        let directive = text.subrange(i, end);
        if directive == "#include"@ {
            Lexeme::Token(TokenModel::Include, end)
        } else {
            Lexeme::Fault(LexFault::UnknownDirective(directive))
        }
    } else if punctuation(c) is Some {
        Lexeme::Token(punctuation(c)->0, i + 1)
    } else if text::ascii_letter(c) || c == '_' {
        let end = word_end(text, i + 1);
        Lexeme::Token(word_token(text.subrange(i, end)), end)
    } else {
        Lexeme::Fault(LexFault::UnexpectedCharacter(c))
    }
}

/// The tokens from place `i` on, or the first fault.
pub open spec fn tokens_from(text: Seq<char>, i: int) -> Result<
    Seq<(TokenModel, usize)>,
    (usize, LexFault),
>
    decreases text.len() - i,
{
    if i >= text.len() {
        Ok(Seq::empty())
    } else {
        match lexeme(text, i) {
            Lexeme::Skip(next) => if i < next <= text.len() {
                tokens_from(text, next)
            } else {
                Ok(Seq::empty())
            },
            Lexeme::Token(t, next) => if i < next <= text.len() {
                match tokens_from(text, next) {
                    Ok(rest) => Ok(seq![(t, text::byte_offset(text, i) as usize)] + rest),
                    Err(e) => Err(e),
                }
            } else {
                Ok(Seq::empty())
            },
            Lexeme::Fault(e) => Err((text::byte_offset(text, i) as usize, e)),
        }
    }
}

/// The tokens of a text, or the first fault.
pub open spec fn tokens_of(text: Seq<char>) -> Result<
    Seq<(TokenModel, usize)>,
    (usize, LexFault),
> {
    tokens_from(text, 0)
}

pub(super) proof fn lemma_ends(text: Seq<char>, c: char, i: int)
    requires
        0 <= i <= text.len(),
    ensures
        i <= find_char(text, c, i) <= text.len(),
        i <= word_end(text, i) <= text.len(),
        i <= letters_end(text, i) <= text.len(),
        i <= find_comment_end(text, i) <= text.len(),
    decreases text.len() - i,
{
    if i < text.len() {
        lemma_ends(text, c, i + 1);
    }
}

/// The place after a skipped or recognized piece lies further on.
pub(super) proof fn lemma_lexeme_moves(text: Seq<char>, i: int)
    requires
        0 <= i < text.len(),
    ensures
        lexeme(text, i) matches Lexeme::Skip(next) ==> i < next <= text.len(),
        lexeme(text, i) matches Lexeme::Token(t, next) ==> i < next <= text.len(),
{
    lemma_ends(text, text[i], i + 1);
    lemma_ends(text, '>', i + 1);
    if i + 1 < text.len() {
        lemma_ends(text, '\n', i + 2);
    }
}

fn seek_char(text: &Vec<char>, c: char, from: usize) -> (r: usize)
    requires
        from <= text@.len(),
    ensures
        r == find_char(text@, c, from as int),
        from <= r <= text@.len(),
{
    let mut i: usize = from;
    while i < text.len()
        invariant
            from <= i <= text@.len(),
            find_char(text@, c, from as int) == find_char(text@, c, i as int),
        decreases text@.len() - i,
    {
        if text[i] == c {
            return i;
        }
        i += 1;
    }
    i
}

fn seek_comment_end(text: &Vec<char>, from: usize) -> (r: usize)
    requires
        from <= text@.len(),
    ensures
        r == find_comment_end(text@, from as int),
        from <= r <= text@.len(),
{
    let n: usize = text.len();
    let mut i: usize = from;
    while i < n && i + 1 < n
        invariant
            from <= i <= text@.len(),
            n == text@.len(),
            find_comment_end(text@, from as int) == find_comment_end(text@, i as int),
        decreases text@.len() - i,
    {
        if text[i] == '*' && text[i + 1] == '/' {
            return i + 1;
        }
        i += 1;
    }
    text.len()
}

fn seek_word_end(text: &Vec<char>, from: usize) -> (r: usize)
    requires
        from <= text@.len(),
    ensures
        r == word_end(text@, from as int),
        from <= r <= text@.len(),
{
    let mut i: usize = from;
    while i < text.len()
        invariant
            from <= i <= text@.len(),
            word_end(text@, from as int) == word_end(text@, i as int),
        decreases text@.len() - i,
    {
        let c = text[i];
        if !(is_ascii_letter(c) || is_ascii_digit(c) || c == '_') {
            return i;
        }
        i += 1;
    }
    i
}

fn seek_letters_end(text: &Vec<char>, from: usize) -> (r: usize)
    requires
        from <= text@.len(),
    ensures
        r == letters_end(text@, from as int),
        from <= r <= text@.len(),
{
    let mut i: usize = from;
    while i < text.len()
        invariant
            from <= i <= text@.len(),
            letters_end(text@, from as int) == letters_end(text@, i as int),
        decreases text@.len() - i,
    {
        if !is_ascii_letter(text[i]) {
            return i;
        }
        i += 1;
    }
    i
}

fn keyword_or_name(word: String) -> (t: TokenKind)
    ensures
        t@ == word_token(word@),
{
    if is_text(&word, "tree") {
        TokenKind::Tree
    } else if is_text(&word, "family") {
        TokenKind::Family
    } else if is_text(&word, "word") {
        TokenKind::Word
    } else if is_text(&word, "lemma") {
        TokenKind::Lemma
    } else {
        TokenKind::Name(word)
    }
}

fn punctuation_token(c: char) -> (t: Option<TokenKind>)
    ensures
        match t {
            Some(k) => punctuation(c) == Some(k@),
            None => punctuation(c) is None,
        },
{
    if c == '!' {
        Some(TokenKind::Bang)
    } else if c == '*' {
        Some(TokenKind::Star)
    } else if c == '+' {
        Some(TokenKind::Plus)
    } else if c == ':' {
        Some(TokenKind::Colon)
    } else if c == '{' {
        Some(TokenKind::LBrace)
    } else if c == '}' {
        Some(TokenKind::RBrace)
    } else if c == '[' {
        Some(TokenKind::LBracket)
    } else if c == ']' {
        Some(TokenKind::RBracket)
    } else if c == ',' {
        Some(TokenKind::Comma)
    } else if c == '=' {
        Some(TokenKind::Equals)
    } else {
        None
    }
}

/// Something to skip, or a token; in both cases the place that follows.
enum Piece {
    Skip(usize),
    Token(TokenKind, usize),
}

/// Reads what stands at one place.
fn read_piece(text: &Vec<char>, i: usize) -> (r: Result<Piece, LexErrorKind>)
    requires
        i < text@.len(),
    ensures
        match r {
            Ok(Piece::Skip(next)) => lexeme(text@, i as int) == Lexeme::Skip(next as int) && i
                < next <= text@.len(),
            Ok(Piece::Token(t, next)) => lexeme(text@, i as int) == Lexeme::Token(t@, next as int)
                && i < next <= text@.len(),
            Err(e) => lexeme(text@, i as int) == Lexeme::Fault(e@),
        },
{
    proof {
        lemma_lexeme_moves(text@, i as int);
    }
    let n: usize = text.len();
    let c = text[i];
    if c.is_whitespace() {
        return Ok(Piece::Skip(i + 1));
    }
    if c == '/' && i + 1 < n && text[i + 1] == '/' {
        let end: usize = seek_char(text, '\n', i + 2);
        if end < n {
            return Ok(Piece::Skip(end + 1));
        }
        return Ok(Piece::Skip(end));
    }
    if c == '/' && i + 1 < n && text[i + 1] == '*' {
        let end: usize = seek_comment_end(text, i + 2);
        if end < n {
            return Ok(Piece::Skip(end + 1));
        }
        return Err(LexErrorKind::UnterminatedComment);
    }
    if c == '\'' || c == '"' {
        let end: usize = seek_char(text, c, i + 1);
        if end < n {
            return Ok(Piece::Token(TokenKind::Name(text_of(text, i + 1, end)), end + 1));
        }
        return Err(LexErrorKind::UnterminatedQuote);
    }
    if c == '<' {
        let end: usize = seek_char(text, '>', i + 1);
        if end < n {
            return Ok(Piece::Token(TokenKind::FamilyName(text_of(text, i + 1, end)), end + 1));
        }
        return Err(LexErrorKind::UnterminatedFamily);
    }
    if c == '@' || c == '?' {
        let end: usize = seek_word_end(text, i + 1);
        if end == i + 1 {
            return Err(LexErrorKind::MissingIdentifier(c));
        }
        let value = text_of(text, i + 1, end);
        if c == '@' {
            return Ok(Piece::Token(TokenKind::Annotation(value), end));
        }
        return Ok(Piece::Token(TokenKind::Variable(value), end));
    }
    if c == '#' {
        let end: usize = seek_letters_end(text, i + 1);
        let directive = text_of(text, i, end);
        if is_text(&directive, "#include") {
            return Ok(Piece::Token(TokenKind::Include, end));
        }
        return Err(LexErrorKind::UnknownDirective(directive));
    }
    if let Some(t) = punctuation_token(c) {
        return Ok(Piece::Token(t, i + 1));
    }
    if is_ascii_letter(c) || c == '_' {
        let end: usize = seek_word_end(text, i + 1);
        return Ok(Piece::Token(keyword_or_name(text_of(text, i, end)), end));
    }
    Err(LexErrorKind::UnexpectedCharacter(c))
}

/// Splits a text into tokens.
///
/// White space, line comments and block comments are skipped. Offsets count bytes of
/// the UTF-8 encoding.
pub fn lex(input: &str) -> (r: Result<Vec<Token>, LexError>)
    ensures
        match r {
            Ok(tokens) => tokens_of(input@) == Ok::<
                Seq<(TokenModel, usize)>,
                (usize, LexFault),
            >(token_views(tokens@)),
            Err(e) => tokens_of(input@) == Err::<Seq<(TokenModel, usize)>, (usize, LexFault)>(e@),
        },
{
    let text = chars_of(input);
    let offsets = byte_offsets(&text);
    let mut tokens: Vec<Token> = Vec::new();
    let mut i: usize = 0;
    assert(token_views(tokens@) =~= Seq::empty());
    assert(after(token_views(tokens@), tokens_from(text@, 0)) == tokens_from(text@, 0)) by {
        lemma_after_nothing(tokens_from(text@, 0));
    }
    while i < text.len()
        invariant
            i <= text@.len(),
            text@ == input@,
            offsets@.len() == text@.len() + 1,
            forall|j: int|
                0 <= j < offsets@.len() ==> #[trigger] offsets@[j] == text::byte_offset(text@, j),
            tokens_of(input@) == after(token_views(tokens@), tokens_from(text@, i as int)),
        decreases text@.len() - i,
    {
        assert(offsets@[i as int] == text::byte_offset(text@, i as int));
        match read_piece(&text, i) {
            Ok(Piece::Skip(next)) => {
                i = next;
            },
            Ok(Piece::Token(kind, next)) => {
                let ghost before = token_views(tokens@);
                let token = Token { kind, offset: offsets[i] };
                let ghost one = token@;
                tokens.push(token);
                proof {
                    assert(token_views(tokens@) =~= before.push(one));
                    lemma_after_step(before, one, tokens_from(text@, next as int));
                }
                i = next;
            },
            Err(kind) => {
                return Err(LexError { offset: offsets[i], kind });
            },
        }
    }
    proof {
        assert(token_views(tokens@) + Seq::<(TokenModel, usize)>::empty() =~= token_views(tokens@));
    }
    Ok(tokens)
}

/// Tokens in front of further ones.
spec fn after(
    front: Seq<(TokenModel, usize)>,
    rest: Result<Seq<(TokenModel, usize)>, (usize, LexFault)>,
) -> Result<Seq<(TokenModel, usize)>, (usize, LexFault)> {
    match rest {
        Ok(tokens) => Ok(front + tokens),
        Err(e) => Err(e),
    }
}

proof fn lemma_after_nothing(rest: Result<Seq<(TokenModel, usize)>, (usize, LexFault)>)
    ensures
        after(Seq::empty(), rest) == rest,
{
    if let Ok(tokens) = rest {
        assert(Seq::<(TokenModel, usize)>::empty() + tokens =~= tokens);
    }
}

proof fn lemma_after_step(
    front: Seq<(TokenModel, usize)>,
    one: (TokenModel, usize),
    rest: Result<Seq<(TokenModel, usize)>, (usize, LexFault)>,
)
    ensures
        after(front.push(one), rest) == after(
            front,
            match rest {
                Ok(tokens) => Ok(seq![one] + tokens),
                Err(e) => Err(e),
            },
        ),
{
    if let Ok(tokens) = rest {
        assert(front.push(one) + tokens =~= front + (seq![one] + tokens));
    }
}

} // verus!
