//! Values as they stand in messages.
use crate::alto_ast;
use crate::alto_ast::decimal_text;
use crate::codecs::tulipac::feature_images;
use crate::codecs::tulipac::feature_images::separate;
use crate::ids::{StateId, Symbol};
use crate::text;
use vstd::prelude::*;
use vstd::string::StringExecFns;

verus! {

/// A text in quotes, with what has to be escaped.
pub uninterp spec fn quoted(s: Seq<char>) -> Seq<char>;

/// A character in quotes, with what has to be escaped.
pub uninterp spec fn quoted_char(c: char) -> Seq<char>;

/// The `Debug` form of a `str`. What is escaped in it, and how, the contract leaves to
/// the name; the result depends on the text alone.
#[verifier::external_body]
pub(crate) fn quoted_text(s: &str) -> (r: String)
    ensures
        r@ == quoted(s@),
{
    format!("{s:?}")
}

/// The `Debug` form of a `char`. What is escaped in it, and how, the contract leaves to
/// the name; the result depends on the character alone.
#[verifier::external_body]
pub(crate) fn quoted_char_text(c: char) -> (r: String)
    ensures
        r@ == quoted_char(c),
{
    format!("{c:?}")
}

/// A symbol in a message.
pub open spec fn symbol_text(f: Symbol) -> Seq<char> {
    "Symbol("@ + alto_ast::decimal(f.0 as nat) + ")"@
}

/// A state in a message.
pub open spec fn state_text(q: StateId) -> Seq<char> {
    if q.0 == StateId::STUCK {
        "StateId::STUCK"@
    } else {
        "StateId("@ + alto_ast::decimal(q.0 as nat) + ")"@
    }
}

/// A list of states in a message.
pub open spec fn states_text(list: Seq<StateId>) -> Seq<char> {
    "["@ + feature_images::separated(
        Seq::new(list.len(), |i: int| state_text(list[i])),
        ", "@,
    ) + "]"@
}

/// Writes a symbol.
pub(crate) fn symbol_name(f: Symbol) -> (s: String)
    ensures
        s@ == symbol_text(f),
{
    let mut s = "Symbol(".to_owned();
    s.append(decimal_text(f.0 as usize).as_str());
    s.append(")");
    s
}

/// Writes a state.
pub(crate) fn state_name(q: StateId) -> (s: String)
    ensures
        s@ == state_text(q),
{
    if q.is_stuck() {
        return "StateId::STUCK".to_owned();
    }
    let mut s = "StateId(".to_owned();
    s.append(decimal_text(q.0 as usize).as_str());
    s.append(")");
    s
}

/// Writes a list of states.
pub(crate) fn state_names(list: &Vec<StateId>) -> (s: String)
    ensures
        s@ == states_text(list@),
{
    let mut parts: Vec<String> = Vec::new();
    let mut i: usize = 0;
    while i < list.len()
        invariant
            i <= list@.len(),
            parts@.len() == i,
            forall|k: int| 0 <= k < i ==> (#[trigger] parts@[k])@ == state_text(list@[k]),
        decreases list@.len() - i,
    {
        parts.push(state_name(list[i]));
        i += 1;
    }
    assert(text::texts(parts@) =~= Seq::new(list@.len(), |i: int| state_text(list@[i])));
    let mut s = "[".to_owned();
    s.append(separate(&parts, ", ").as_str());
    s.append("]");
    s
}

} // verus!
