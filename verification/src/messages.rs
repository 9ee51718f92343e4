//! The texts of errors.
use crate::alto_ast;
use crate::alto_ast::decimal_text;
use crate::builder::ExplicitBuildError;
use crate::codec::{InputCodecError, InputCodecRegistryError};
use crate::corpus::CorpusError;
use crate::explicit::ProbabilityWeightError;
use crate::finite_language::plan::FiniteLanguageError;
use crate::homomorphism::HomomorphismError;
use crate::irtg::assemble::IrtgError;
use crate::output::OutputCodecError;
use crate::quoting;
use crate::quoting::{quoted_text, state_name, state_names, symbol_name};
use crate::signature::SignatureError;
use vstd::prelude::*;
use vstd::string::StringExecFns;

verus! {

impl HomomorphismError {
    /// The text of the error.
    pub open spec fn message(&self) -> Seq<char> {
        match self {
            HomomorphismError::ArityMismatch { symbol, first, second } => "source symbol "@
                + quoting::symbol_text(*symbol) + " was registered with arity "@
                + alto_ast::decimal(*first as nat) + ", then "@ + alto_ast::decimal(*second as nat),
            HomomorphismError::ConflictingSourceTerm { symbol } => "source symbol "@
                + quoting::symbol_text(*symbol) + " was registered with a different image term"@,
            HomomorphismError::MissingVariable { symbol, variable } => "source symbol "@
                + quoting::symbol_text(*symbol) + " image is missing variable ?"@
                + alto_ast::decimal(*variable as nat),
            HomomorphismError::DuplicateVariable { symbol, variable } => "source symbol "@
                + quoting::symbol_text(*symbol) + " image uses variable ?"@
                + alto_ast::decimal(*variable as nat) + " more than once"@,
            HomomorphismError::OutOfRangeVariable { symbol, variable, arity } => "source symbol "@
                + quoting::symbol_text(*symbol) + " image uses variable ?"@
                + alto_ast::decimal(*variable as nat) + ", but arity is "@
                + alto_ast::decimal(*arity as nat),
            HomomorphismError::UnmappedSymbol { symbol } => "source symbol "@
                + quoting::symbol_text(*symbol) + " has no homomorphic image"@,
            HomomorphismError::ApplyVariableOutOfRange { variable, arity } => "image variable ?"@
                + alto_ast::decimal(*variable as nat) + " cannot be substituted for source arity "@
                + alto_ast::decimal(*arity as nat),
        }
    }

    /// The text of the error.
    pub fn text(&self) -> (s: String)
        ensures
            s@ == self.message(),
    {
        match self {
            HomomorphismError::ArityMismatch { symbol, first, second } => {
                let mut s = "source symbol ".to_owned();
                s.append(symbol_name(*symbol).as_str());
                s.append(" was registered with arity ");
                s.append(decimal_text(*first as usize).as_str());
                s.append(", then ");
                s.append(decimal_text(*second as usize).as_str());
                s
            },
            HomomorphismError::ConflictingSourceTerm { symbol } => {
                let mut s = "source symbol ".to_owned();
                s.append(symbol_name(*symbol).as_str());
                s.append(" was registered with a different image term");
                s
            },
            HomomorphismError::MissingVariable { symbol, variable } => {
                let mut s = "source symbol ".to_owned();
                s.append(symbol_name(*symbol).as_str());
                s.append(" image is missing variable ?");
                s.append(decimal_text(*variable as usize).as_str());
                s
            },
            HomomorphismError::DuplicateVariable { symbol, variable } => {
                let mut s = "source symbol ".to_owned();
                s.append(symbol_name(*symbol).as_str());
                s.append(" image uses variable ?");
                s.append(decimal_text(*variable as usize).as_str());
                s.append(" more than once");
                s
            },
            HomomorphismError::OutOfRangeVariable { symbol, variable, arity } => {
                let mut s = "source symbol ".to_owned();
                s.append(symbol_name(*symbol).as_str());
                s.append(" image uses variable ?");
                s.append(decimal_text(*variable as usize).as_str());
                s.append(", but arity is ");
                s.append(decimal_text(*arity as usize).as_str());
                s
            },
            HomomorphismError::UnmappedSymbol { symbol } => {
                let mut s = "source symbol ".to_owned();
                s.append(symbol_name(*symbol).as_str());
                s.append(" has no homomorphic image");
                s
            },
            HomomorphismError::ApplyVariableOutOfRange { variable, arity } => {
                let mut s = "image variable ?".to_owned();
                s.append(decimal_text(*variable as usize).as_str());
                s.append(" cannot be substituted for source arity ");
                s.append(decimal_text(*arity as usize).as_str());
                s
            },
        }
    }
}

impl ExplicitBuildError {
    /// The text of the error.
    pub open spec fn message(&self) -> Seq<char> {
        match self {
            ExplicitBuildError::DuplicateTransition { symbol, children, result } => "duplicate transition for symbol "@
                + quoting::symbol_text(*symbol) + ", children "@ + quoting::states_text(children@)
                + ", result "@ + quoting::state_text(*result),
        }
    }

    /// The text of the error.
    pub fn text(&self) -> (s: String)
        ensures
            s@ == self.message(),
    {
        match self {
            ExplicitBuildError::DuplicateTransition { symbol, children, result } => {
                let mut s = "duplicate transition for symbol ".to_owned();
                s.append(symbol_name(*symbol).as_str());
                s.append(", children ");
                s.append(state_names(children).as_str());
                s.append(", result ");
                s.append(state_name(*result).as_str());
                s
            },
        }
    }
}

impl FiniteLanguageError {
    /// The text of the error.
    pub open spec fn message(&self) -> Seq<char> {
        match self {
            FiniteLanguageError::InfiniteLanguage => "the accepting derivation language is infinite"@,
        }
    }

    /// The text of the error.
    pub fn text(&self) -> (s: String)
        ensures
            s@ == self.message(),
    {
        match self {
            FiniteLanguageError::InfiniteLanguage => {
                "the accepting derivation language is infinite".to_owned()
            },
        }
    }
}

impl SignatureError {
    /// The text of the error.
    pub open spec fn message(&self) -> Seq<char> {
        match self {
            SignatureError::ArityMismatch { name, first, second } => "symbol "@
                + quoting::quoted(name@) + " was registered with arity "@
                + alto_ast::decimal(*first as nat) + ", then "@ + alto_ast::decimal(*second as nat),
        }
    }

    /// The text of the error.
    pub fn text(&self) -> (s: String)
        ensures
            s@ == self.message(),
    {
        match self {
            SignatureError::ArityMismatch { name, first, second } => {
                let mut s = "symbol ".to_owned();
                s.append(quoted_text(name.as_str()).as_str());
                s.append(" was registered with arity ");
                s.append(decimal_text(*first as usize).as_str());
                s.append(", then ");
                s.append(decimal_text(*second as usize).as_str());
                s
            },
        }
    }
}

impl CorpusError {
    /// The text of the error.
    pub open spec fn message(&self) -> Seq<char> {
        match self {
            CorpusError::BadHeader => "invalid corpus header (expected '<prefix>IRTG [un]annotated corpus file, v1.0')"@,
            CorpusError::BadVersion => "unsupported corpus version (expected v1.0)"@,
            CorpusError::MalformedInstance { line, expected, found } => "line "@
                + alto_ast::decimal(*line as nat) + ": malformed instance (expected "@
                + alto_ast::decimal(*expected as nat) + " lines, found "@
                + alto_ast::decimal(*found as nat) + ")"@,
            CorpusError::ObjectParse { line, interpretation, message } => "line "@
                + alto_ast::decimal(*line as nat) + ": cannot parse object for interpretation "@
                + quoting::quoted(interpretation@) + ": "@ + message@,
            CorpusError::TreeParse { line, message } => "line "@ + alto_ast::decimal(*line as nat)
                + ": cannot parse derivation tree: "@ + message@,
        }
    }

    /// The text of the error.
    pub fn text(&self) -> (s: String)
        ensures
            s@ == self.message(),
    {
        match self {
            CorpusError::BadHeader => {
                "invalid corpus header (expected '<prefix>IRTG [un]annotated corpus file, v1.0')".to_owned()
            },
            CorpusError::BadVersion => {
                "unsupported corpus version (expected v1.0)".to_owned()
            },
            CorpusError::MalformedInstance { line, expected, found } => {
                let mut s = "line ".to_owned();
                s.append(decimal_text(*line as usize).as_str());
                s.append(": malformed instance (expected ");
                s.append(decimal_text(*expected as usize).as_str());
                s.append(" lines, found ");
                s.append(decimal_text(*found as usize).as_str());
                s.append(")");
                s
            },
            CorpusError::ObjectParse { line, interpretation, message } => {
                let mut s = "line ".to_owned();
                s.append(decimal_text(*line as usize).as_str());
                s.append(": cannot parse object for interpretation ");
                s.append(quoted_text(interpretation.as_str()).as_str());
                s.append(": ");
                s.append(message.as_str());
                s
            },
            CorpusError::TreeParse { line, message } => {
                let mut s = "line ".to_owned();
                s.append(decimal_text(*line as usize).as_str());
                s.append(": cannot parse derivation tree: ");
                s.append(message.as_str());
                s
            },
        }
    }
}

impl InputCodecRegistryError {
    /// The text of the error.
    pub open spec fn message(&self) -> Seq<char> {
        match self {
            InputCodecRegistryError::DuplicateName(name) => "duplicate input codec name "@
                + quoting::quoted(name@) + " for one result type"@,
            InputCodecRegistryError::DuplicateExtension(extension) => "duplicate input codec extension "@
                + quoting::quoted(extension@) + " for one result type"@,
        }
    }

    /// The text of the error.
    pub fn text(&self) -> (s: String)
        ensures
            s@ == self.message(),
    {
        match self {
            InputCodecRegistryError::DuplicateName(name) => {
                let mut s = "duplicate input codec name ".to_owned();
                s.append(quoted_text(name.as_str()).as_str());
                s.append(" for one result type");
                s
            },
            InputCodecRegistryError::DuplicateExtension(extension) => {
                let mut s = "duplicate input codec extension ".to_owned();
                s.append(quoted_text(extension.as_str()).as_str());
                s.append(" for one result type");
                s
            },
        }
    }
}

impl OutputCodecError {
    /// The text of the error.
    pub open spec fn message(&self) -> Seq<char> {
        match self {
            OutputCodecError::UnknownCodec(name) => "no output codec registered with name "@
                + quoting::quoted(name@),
        }
    }

    /// The text of the error.
    pub fn text(&self) -> (s: String)
        ensures
            s@ == self.message(),
    {
        match self {
            OutputCodecError::UnknownCodec(name) => {
                let mut s = "no output codec registered with name ".to_owned();
                s.append(quoted_text(name.as_str()).as_str());
                s
            },
        }
    }
}

impl IrtgError {
    /// The text of the error. Where it names the weight of a rule, that weight reads `weight`.
    pub open spec fn message(&self, weight: Seq<char>) -> Seq<char> {
        match self {
            IrtgError::Cancelled => "parsing cancelled"@,
            IrtgError::TooLarge => "the chart needs more states or rules than can be numbered"@,
            IrtgError::ZeroVariable => "Alto homomorphism variables are one-based; ?0 is invalid"@,
            IrtgError::Signature(e) => e.message(),
            IrtgError::Homomorphism(e) => e.message(),
            IrtgError::Automaton(e) => e.message(),
            IrtgError::UnknownInterpretation(name) => "unknown interpretation "@
                + quoting::quoted(name@),
            IrtgError::WrongInputType { interpretation } => "wrong input value type for interpretation "@
                + quoting::quoted(interpretation@),
            IrtgError::NotInputable { interpretation } => "interpretation "@
                + quoting::quoted(interpretation@) + " is output-only and cannot be a parse input"@,
            IrtgError::NonNullFilterUnsupported { interpretation, class_name } => "interpretation "@
                + quoting::quoted(interpretation@) + " with algebra "@ + class_name@
                + " does not support non-null filtering"@,
            IrtgError::IncompatibleHeuristic {
                interpretation,
                message,
            } => "heuristic is incompatible with interpretation "@ + quoting::quoted(interpretation@)
                + ": "@ + message@,
            IrtgError::UnsupportedAlgebra { interpretation, class_name } => "unsupported algebra "@
                + class_name@ + " for interpretation "@ + quoting::quoted(interpretation@),
            IrtgError::AstarWeightPrecondition { weight: _, symbol } => "A* requires all grammar rule weights ≤ 1, but found weight "@
                + weight + " for rule "@ + quoting::quoted(symbol@),
        }
    }

    /// The text of the error. Where it names the weight of a rule, that weight reads `weight`.
    pub fn text(&self, weight: &str) -> (s: String)
        ensures
            s@ == self.message(weight@),
    {
        match self {
            IrtgError::Cancelled => {
                "parsing cancelled".to_owned()
            },
            IrtgError::TooLarge => {
                "the chart needs more states or rules than can be numbered".to_owned()
            },
            IrtgError::ZeroVariable => {
                "Alto homomorphism variables are one-based; ?0 is invalid".to_owned()
            },
            IrtgError::Signature(e) => {
                e.text()
            },
            IrtgError::Homomorphism(e) => {
                e.text()
            },
            IrtgError::Automaton(e) => {
                e.text()
            },
            IrtgError::UnknownInterpretation(name) => {
                let mut s = "unknown interpretation ".to_owned();
                s.append(quoted_text(name.as_str()).as_str());
                s
            },
            IrtgError::WrongInputType { interpretation } => {
                let mut s = "wrong input value type for interpretation ".to_owned();
                s.append(quoted_text(interpretation.as_str()).as_str());
                s
            },
            IrtgError::NotInputable { interpretation } => {
                let mut s = "interpretation ".to_owned();
                s.append(quoted_text(interpretation.as_str()).as_str());
                s.append(" is output-only and cannot be a parse input");
                s
            },
            IrtgError::NonNullFilterUnsupported { interpretation, class_name } => {
                let mut s = "interpretation ".to_owned();
                s.append(quoted_text(interpretation.as_str()).as_str());
                s.append(" with algebra ");
                s.append(class_name.as_str());
                s.append(" does not support non-null filtering");
                s
            },
            IrtgError::IncompatibleHeuristic { interpretation, message } => {
                let mut s = "heuristic is incompatible with interpretation ".to_owned();
                s.append(quoted_text(interpretation.as_str()).as_str());
                s.append(": ");
                s.append(message.as_str());
                s
            },
            IrtgError::UnsupportedAlgebra { interpretation, class_name } => {
                let mut s = "unsupported algebra ".to_owned();
                s.append(class_name.as_str());
                s.append(" for interpretation ");
                s.append(quoted_text(interpretation.as_str()).as_str());
                s
            },
            IrtgError::AstarWeightPrecondition { weight: _, symbol } => {
                let mut s = "A* requires all grammar rule weights ≤ 1, but found weight ".to_owned();
                s.append(weight);
                s.append(" for rule ");
                s.append(quoted_text(symbol.as_str()).as_str());
                s
            },
        }
    }
}

impl ProbabilityWeightError {
    /// The text of the error; the weight reads `weight`.
    pub open spec fn message(&self, weight: Seq<char>) -> Seq<char> {
        "rule "@ + alto_ast::decimal(self.rule_index as nat) + " has weight "@ + weight
            + "; expected a finite value in [0, 1]"@
    }

    /// The text of the error; the weight reads `weight`.
    pub fn text(&self, weight: &str) -> (s: String)
        ensures
            s@ == self.message(weight@),
    {
        let mut s = "rule ".to_owned();
        s.append(decimal_text(self.rule_index).as_str());
        s.append(" has weight ");
        s.append(weight);
        s.append("; expected a finite value in [0, 1]");
        s
    }
}

impl<E> InputCodecError<E> {
    /// The text of the error; the text of a codec's own error is given.
    pub open spec fn message(&self, own: Seq<char>) -> Seq<char> {
        match self {
            InputCodecError::Io(error) => "failed to read codec input: "@ + error@,
            InputCodecError::Utf8 => "codec input is not valid UTF-8"@,
            InputCodecError::Codec(_) => own,
            InputCodecError::MissingExtension => "input path has no filename extension"@,
            InputCodecError::UnknownCodec(format) => "no input codec registered for "@
                + quoting::quoted(format@),
        }
    }

    /// The text of the error; the text of a codec's own error is given.
    pub fn text(&self, own: &str) -> (s: String)
        ensures
            s@ == self.message(own@),
    {
        match self {
            InputCodecError::Io(error) => {
                let mut s = "failed to read codec input: ".to_owned();
                s.append(error.as_str());
                s
            },
            InputCodecError::Utf8 => "codec input is not valid UTF-8".to_owned(),
            InputCodecError::Codec(_) => own.to_owned(),
            InputCodecError::MissingExtension => "input path has no filename extension".to_owned(),
            InputCodecError::UnknownCodec(format) => {
                let mut s = "no input codec registered for ".to_owned();
                s.append(quoted_text(format.as_str()).as_str());
                s
            },
        }
    }
}

} // verus!
