//! The texts of errors in tree-adjoining grammars.
use crate::alto_ast;
use crate::alto_ast::decimal_text;
use crate::codecs::tulipac::compile::{CompileError, TulipacError};
use crate::codecs::tulipac::features::{FeatureAtom, FeatureClash};
use crate::codecs::tulipac::images::ImageError;
use crate::codecs::tulipac::lexicon::{Context, LexiconError};
use crate::codecs::tulipac::read::TulipacReadError;
use crate::codecs::tulipac::syntax::ParseErrorKind;
use crate::codecs::tulipac::tokens::{LexErrorKind, TokenKind};
use crate::quoting;
use crate::quoting::{quoted_char_text, quoted_text};
use vstd::prelude::*;
use vstd::string::StringExecFns;

verus! {

impl LexErrorKind {
    /// The text of the error.
    pub open spec fn message(&self) -> Seq<char> {
        match self {
            LexErrorKind::UnterminatedComment => "unterminated block comment"@,
            LexErrorKind::UnterminatedQuote => "unterminated quoted identifier"@,
            LexErrorKind::UnterminatedFamily => "unterminated family identifier"@,
            LexErrorKind::MissingIdentifier(c) => seq![*c] + " must be followed by an identifier"@,
            LexErrorKind::UnknownDirective(word) => "unknown directive "@ + quoting::quoted(word@),
            LexErrorKind::UnexpectedCharacter(c) => "unexpected character "@
                + quoting::quoted_char(*c),
        }
    }

    /// The text of the error.
    pub fn text(&self) -> (s: String)
        ensures
            s@ == self.message(),
    {
        match self {
            LexErrorKind::UnterminatedComment => {
                "unterminated block comment".to_owned()
            },
            LexErrorKind::UnterminatedQuote => {
                "unterminated quoted identifier".to_owned()
            },
            LexErrorKind::UnterminatedFamily => {
                "unterminated family identifier".to_owned()
            },
            LexErrorKind::MissingIdentifier(c) => {
                let mut s = String::new();
                s.push(*c);
                assert(s@ =~= seq![*c]);
                s.append(" must be followed by an identifier");
                s
            },
            LexErrorKind::UnknownDirective(word) => {
                let mut s = "unknown directive ".to_owned();
                s.append(quoted_text(word.as_str()).as_str());
                s
            },
            LexErrorKind::UnexpectedCharacter(c) => {
                let mut s = "unexpected character ".to_owned();
                s.append(quoted_char_text(*c).as_str());
                s
            },
        }
    }
}

impl TokenKind {
    /// The token in a message.
    pub open spec fn message(&self) -> Seq<char> {
        match self {
            TokenKind::Tree => "Tree"@,
            TokenKind::Family => "Family"@,
            TokenKind::Word => "Word"@,
            TokenKind::Lemma => "Lemma"@,
            TokenKind::Include => "Include"@,
            TokenKind::Name(word) => "Name("@ + quoting::quoted(word@) + ")"@,
            TokenKind::FamilyName(word) => "FamilyName("@ + quoting::quoted(word@) + ")"@,
            TokenKind::Annotation(word) => "Annotation("@ + quoting::quoted(word@) + ")"@,
            TokenKind::Variable(word) => "Variable("@ + quoting::quoted(word@) + ")"@,
            TokenKind::Bang => "Bang"@,
            TokenKind::Star => "Star"@,
            TokenKind::Plus => "Plus"@,
            TokenKind::Colon => "Colon"@,
            TokenKind::LBrace => "LBrace"@,
            TokenKind::RBrace => "RBrace"@,
            TokenKind::LBracket => "LBracket"@,
            TokenKind::RBracket => "RBracket"@,
            TokenKind::Comma => "Comma"@,
            TokenKind::Equals => "Equals"@,
        }
    }

    /// The token in a message.
    pub fn text(&self) -> (s: String)
        ensures
            s@ == self.message(),
    {
        match self {
            TokenKind::Tree => {
                "Tree".to_owned()
            },
            TokenKind::Family => {
                "Family".to_owned()
            },
            TokenKind::Word => {
                "Word".to_owned()
            },
            TokenKind::Lemma => {
                "Lemma".to_owned()
            },
            TokenKind::Include => {
                "Include".to_owned()
            },
            TokenKind::Name(word) => {
                let mut s = "Name(".to_owned();
                s.append(quoted_text(word.as_str()).as_str());
                s.append(")");
                s
            },
            TokenKind::FamilyName(word) => {
                let mut s = "FamilyName(".to_owned();
                s.append(quoted_text(word.as_str()).as_str());
                s.append(")");
                s
            },
            TokenKind::Annotation(word) => {
                let mut s = "Annotation(".to_owned();
                s.append(quoted_text(word.as_str()).as_str());
                s.append(")");
                s
            },
            TokenKind::Variable(word) => {
                let mut s = "Variable(".to_owned();
                s.append(quoted_text(word.as_str()).as_str());
                s.append(")");
                s
            },
            TokenKind::Bang => {
                "Bang".to_owned()
            },
            TokenKind::Star => {
                "Star".to_owned()
            },
            TokenKind::Plus => {
                "Plus".to_owned()
            },
            TokenKind::Colon => {
                "Colon".to_owned()
            },
            TokenKind::LBrace => {
                "LBrace".to_owned()
            },
            TokenKind::RBrace => {
                "RBrace".to_owned()
            },
            TokenKind::LBracket => {
                "LBracket".to_owned()
            },
            TokenKind::RBracket => {
                "RBracket".to_owned()
            },
            TokenKind::Comma => {
                "Comma".to_owned()
            },
            TokenKind::Equals => {
                "Equals".to_owned()
            },
        }
    }
}

impl ParseErrorKind {
    /// The text of the error.
    pub open spec fn message(&self) -> Seq<char> {
        match self {
            ParseErrorKind::ExpectedDeclaration => "expected tree, family, word, lemma, or #include"@,
            ParseErrorKind::UnterminatedChildren => "unterminated node child block"@,
            ParseErrorKind::EmptyLemma => "lemma must contain at least one word"@,
            ParseErrorKind::ExpectedFeatureValue => "expected feature value or variable"@,
            ParseErrorKind::ExpectedTreeName => "expected elementary-tree or family name"@,
            ParseErrorKind::ExpectedIdentifier => "expected identifier"@,
            ParseErrorKind::Expected { wanted, found: Some(found) } => "expected "@
                + wanted.message() + ", found "@ + found.message(),
            ParseErrorKind::Expected { wanted, found: None } => "expected "@ + wanted.message(),
        }
    }

    /// The text of the error.
    pub fn text(&self) -> (s: String)
        ensures
            s@ == self.message(),
    {
        match self {
            ParseErrorKind::ExpectedDeclaration => {
                "expected tree, family, word, lemma, or #include".to_owned()
            },
            ParseErrorKind::UnterminatedChildren => {
                "unterminated node child block".to_owned()
            },
            ParseErrorKind::EmptyLemma => {
                "lemma must contain at least one word".to_owned()
            },
            ParseErrorKind::ExpectedFeatureValue => {
                "expected feature value or variable".to_owned()
            },
            ParseErrorKind::ExpectedTreeName => {
                "expected elementary-tree or family name".to_owned()
            },
            ParseErrorKind::ExpectedIdentifier => {
                "expected identifier".to_owned()
            },
            ParseErrorKind::Expected { wanted, found: Some(found) } => {
                let mut s = "expected ".to_owned();
                s.append(wanted.text().as_str());
                s.append(", found ");
                s.append(found.text().as_str());
                s
            },
            ParseErrorKind::Expected { wanted, found: None } => {
                let mut s = "expected ".to_owned();
                s.append(wanted.text().as_str());
                s
            },
        }
    }
}

impl FeatureAtom {
    /// The value in a message.
    pub open spec fn message(&self) -> Seq<char> {
        match self {
            FeatureAtom::Constant(value) => "Constant("@ + quoting::quoted(value@) + ")"@,
            FeatureAtom::Variable(value) => "Variable("@ + quoting::quoted(value@) + ")"@,
        }
    }

    /// The value in a message.
    pub fn text(&self) -> (s: String)
        ensures
            s@ == self.message(),
    {
        match self {
            FeatureAtom::Constant(value) => {
                let mut s = "Constant(".to_owned();
                s.append(quoted_text(value.as_str()).as_str());
                s.append(")");
                s
            },
            FeatureAtom::Variable(value) => {
                let mut s = "Variable(".to_owned();
                s.append(quoted_text(value.as_str()).as_str());
                s.append(")");
                s
            },
        }
    }
}

impl FeatureClash {
    /// The text of the error.
    pub open spec fn message(&self) -> Seq<char> {
        match self {
            FeatureClash { attribute, existing, candidate } => "feature clash for "@
                + quoting::quoted(attribute@) + ": "@ + existing.message() + " versus "@
                + candidate.message(),
        }
    }

    /// The text of the error.
    pub fn text(&self) -> (s: String)
        ensures
            s@ == self.message(),
    {
        match self {
            FeatureClash { attribute, existing, candidate } => {
                let mut s = "feature clash for ".to_owned();
                s.append(quoted_text(attribute.as_str()).as_str());
                s.append(": ");
                s.append(existing.text().as_str());
                s.append(" versus ");
                s.append(candidate.text().as_str());
                s
            },
        }
    }
}

impl Context {
    /// The declaration in a message.
    pub open spec fn message(&self) -> Seq<char> {
        match self {
            Context::Word(word) => "word "@ + quoting::quoted(word@),
            Context::Lemma(lemma) => "lemma "@ + quoting::quoted(lemma@),
        }
    }

    /// The declaration in a message.
    pub fn text(&self) -> (s: String)
        ensures
            s@ == self.message(),
    {
        match self {
            Context::Word(word) => {
                let mut s = "word ".to_owned();
                s.append(quoted_text(word.as_str()).as_str());
                s
            },
            Context::Lemma(lemma) => {
                let mut s = "lemma ".to_owned();
                s.append(quoted_text(lemma.as_str()).as_str());
                s
            },
        }
    }
}

impl LexiconError {
    /// The text of the error.
    pub open spec fn message(&self) -> Seq<char> {
        match self {
            LexiconError::UnknownTree { context, tree } => context.message()
                + " references unknown elementary tree "@ + quoting::quoted(tree@),
            LexiconError::UnknownFamily { context, family } => context.message()
                + " references unknown tree family "@ + quoting::quoted(family@),
            LexiconError::UnknownMember { context, family, tree } => context.message()
                + " references family "@ + quoting::quoted(family@)
                + ", which contains unknown tree "@ + quoting::quoted(tree@),
            LexiconError::Clash(c) => c.message(),
        }
    }

    /// The text of the error.
    pub fn text(&self) -> (s: String)
        ensures
            s@ == self.message(),
    {
        match self {
            LexiconError::UnknownTree { context, tree } => {
                let mut s = context.text();
                s.append(" references unknown elementary tree ");
                s.append(quoted_text(tree.as_str()).as_str());
                s
            },
            LexiconError::UnknownFamily { context, family } => {
                let mut s = context.text();
                s.append(" references unknown tree family ");
                s.append(quoted_text(family.as_str()).as_str());
                s
            },
            LexiconError::UnknownMember { context, family, tree } => {
                let mut s = context.text();
                s.append(" references family ");
                s.append(quoted_text(family.as_str()).as_str());
                s.append(", which contains unknown tree ");
                s.append(quoted_text(tree.as_str()).as_str());
                s
            },
            LexiconError::Clash(c) => {
                c.text()
            },
        }
    }
}

impl ImageError {
    /// The text of the error.
    pub open spec fn message(&self) -> Seq<char> {
        match self {
            ImageError::InvalidVariable(v) => "invalid variable ?"@ + alto_ast::decimal(*v as nat),
            ImageError::WrapSorts(a, b) => "invalid TAG wrap sorts ("@
                + alto_ast::decimal(*a as nat) + ", "@ + alto_ast::decimal(*b as nat) + ")"@,
            ImageError::ConcatSorts(a, b) => "cannot concatenate TAG string sorts ("@
                + alto_ast::decimal(*a as nat) + ", "@ + alto_ast::decimal(*b as nat) + ")"@,
            ImageError::Clash(c) => c.message(),
            ImageError::RootNotOrdinary => "elementary-tree root cannot be a foot or substitution node"@,
        }
    }

    /// The text of the error.
    pub fn text(&self) -> (s: String)
        ensures
            s@ == self.message(),
    {
        match self {
            ImageError::InvalidVariable(v) => {
                let mut s = "invalid variable ?".to_owned();
                s.append(decimal_text(*v as usize).as_str());
                s
            },
            ImageError::WrapSorts(a, b) => {
                let mut s = "invalid TAG wrap sorts (".to_owned();
                s.append(decimal_text(*a as usize).as_str());
                s.append(", ");
                s.append(decimal_text(*b as usize).as_str());
                s.append(")");
                s
            },
            ImageError::ConcatSorts(a, b) => {
                let mut s = "cannot concatenate TAG string sorts (".to_owned();
                s.append(decimal_text(*a as usize).as_str());
                s.append(", ");
                s.append(decimal_text(*b as usize).as_str());
                s.append(")");
                s
            },
            ImageError::Clash(c) => {
                c.text()
            },
            ImageError::RootNotOrdinary => {
                "elementary-tree root cannot be a foot or substitution node".to_owned()
            },
        }
    }
}

impl CompileError {
    /// The text of the error.
    pub open spec fn message(&self) -> Seq<char> {
        match self {
            CompileError::Lexicon(e) => e.message(),
            CompileError::Image(e) => e.message(),
            CompileError::NoInitialTree => "grammar has no initial tree rooted in S"@,
        }
    }

    /// The text of the error.
    pub fn text(&self) -> (s: String)
        ensures
            s@ == self.message(),
    {
        match self {
            CompileError::Lexicon(e) => {
                e.text()
            },
            CompileError::Image(e) => {
                e.text()
            },
            CompileError::NoInitialTree => {
                "grammar has no initial tree rooted in S".to_owned()
            },
        }
    }
}

impl TulipacError {
    /// The text of the error.
    pub open spec fn message(&self) -> Seq<char> {
        match self {
            TulipacError::Lex(e) => "Tulipac lexical error at byte "@
                + alto_ast::decimal(e.offset as nat) + ": "@ + e.kind.message(),
            TulipacError::Parse(e) => "Tulipac syntax error at byte "@
                + alto_ast::decimal(e.offset as nat) + ": "@ + e.kind.message(),
            TulipacError::Includes(name) => "invalid Tulipac grammar: #include "@
                + quoting::quoted(name@) + " requires TulipacInputCodec::read_path"@,
            TulipacError::Cycle(path) => "invalid Tulipac grammar: cyclic #include involving "@
                + path@,
            TulipacError::Compile(e) => "invalid Tulipac grammar: "@ + e.message(),
        }
    }

    /// The text of the error.
    pub fn text(&self) -> (s: String)
        ensures
            s@ == self.message(),
    {
        match self {
            TulipacError::Lex(e) => {
                let mut s = "Tulipac lexical error at byte ".to_owned();
                s.append(decimal_text(e.offset).as_str());
                s.append(": ");
                s.append(e.kind.text().as_str());
                s
            },
            TulipacError::Parse(e) => {
                let mut s = "Tulipac syntax error at byte ".to_owned();
                s.append(decimal_text(e.offset).as_str());
                s.append(": ");
                s.append(e.kind.text().as_str());
                s
            },
            TulipacError::Includes(name) => {
                let mut s = "invalid Tulipac grammar: #include ".to_owned();
                s.append(quoted_text(name.as_str()).as_str());
                s.append(" requires TulipacInputCodec::read_path");
                s
            },
            TulipacError::Cycle(path) => {
                let mut s = "invalid Tulipac grammar: cyclic #include involving ".to_owned();
                s.append(path.as_str());
                s
            },
            TulipacError::Compile(e) => {
                let mut s = "invalid Tulipac grammar: ".to_owned();
                s.append(e.text().as_str());
                s
            },
        }
    }
}

impl TulipacReadError {
    /// The text of the error. Where it names the weight of a rule, that weight reads `weight`.
    pub open spec fn message(&self, weight: Seq<char>) -> Seq<char> {
        match self {
            TulipacReadError::Tulipac(e) => e.message(),
            TulipacReadError::Ambiguous => "invalid Tulipac grammar: a head is the word @"@,
            TulipacReadError::TooLarge => "invalid Tulipac grammar: too many parts to be numbered"@,
            TulipacReadError::Irtg(e) => "cannot construct IRTG: "@ + e.message(weight),
        }
    }

    /// The text of the error. Where it names the weight of a rule, that weight reads `weight`.
    pub fn text(&self, weight: &str) -> (s: String)
        ensures
            s@ == self.message(weight@),
    {
        match self {
            TulipacReadError::Tulipac(e) => {
                e.text()
            },
            TulipacReadError::Ambiguous => {
                "invalid Tulipac grammar: a head is the word @".to_owned()
            },
            TulipacReadError::TooLarge => {
                "invalid Tulipac grammar: too many parts to be numbered".to_owned()
            },
            TulipacReadError::Irtg(e) => {
                let mut s = "cannot construct IRTG: ".to_owned();
                s.append(e.text(weight).as_str());
                s
            },
        }
    }
}

} // verus!
