//! Images of grammar rules: from named terms to terms over algebra symbols.
use crate::alto_ast;
use crate::alto_ast::{AstHomTerm, HomAst};
use crate::arena;
use crate::arena::hom_add;
use crate::homomorphism::HomLabel;
use crate::ids::Symbol;
use crate::signature;
use crate::signature::{NameList, Signature, SignatureError, SignatureFault};
use crate::terms;
use crate::terms::Term;
use crate::text;
use packed_term_arena::tree::{Tree, TreeArena};
use vstd::prelude::*;

verus! {

/// The current name of a feature-structure operation: the older `emba_top_bottom` is
/// a renaming of the root and the foot.
pub open spec fn current_label(label: Seq<char>) -> Seq<char> {
    let rest = label.skip(5);
    let top = text::before_char(rest, '_');
    if text::stands_at(label, "emba_"@, 0) && top.len() < rest.len() {
        let bottom = text::before_char(rest.skip((top.len() + 1) as int), '_');
        "remap_root="@ + top + ",foot="@ + bottom
    } else {
        label
    }
}

/// A term with the current names of feature-structure operations.
pub open spec fn normalized(t: HomAst) -> HomAst
    decreases t,
{
    match t {
        HomAst::Variable(v) => HomAst::Variable(v),
        HomAst::Symbol(label, children) => HomAst::Symbol(
            current_label(label),
            Seq::new(
                children.len(),
                |i: int|
                    if 0 <= i < children.len() {
                        normalized(children[i])
                    } else {
                        HomAst::Variable(0)
                    },
            ),
        ),
    }
}

/// Terms with the current names of feature-structure operations.
pub open spec fn all_normalized(ts: Seq<HomAst>) -> Seq<HomAst> {
    Seq::new(ts.len(), |i: int| normalized(ts[i]))
}

fn update_label(label: &String) -> (r: String)
    ensures
        r@ == current_label(label@),
{
    proof {
        reveal_strlit("emba_");
    }
    if text::starts_with(label.as_str(), "emba_") {
        let rest = text::text_after(label.as_str(), 5);
        let top = text::text_before(rest.as_str(), '_');
        let n: usize = text::chars_of(rest.as_str()).len();
        let k: usize = text::chars_of(top.as_str()).len();
        if k < n {
            let after = text::text_after(rest.as_str(), k + 1);
            let bottom = text::text_before(after.as_str(), '_');
            let head = text::joined("remap_root=", top.as_str());
            let middle = text::joined(head.as_str(), ",foot=");
            return text::joined(middle.as_str(), bottom.as_str());
        }
    }
    text::copy_text(label)
}

/// Gives feature-structure operations their current names.
pub fn normalize_legacy_feature_term(term: &AstHomTerm) -> (r: AstHomTerm)
    ensures
        r@ == normalized(term@),
    decreases term,
{
    match term {
        AstHomTerm::Variable(v) => AstHomTerm::Variable(*v),
        AstHomTerm::Symbol(label, children) => {
            let mut parts: Vec<AstHomTerm> = Vec::new();
            let mut i: usize = 0;
            let ghost all = alto_ast::hom_asts(children@);
            proof {
                alto_ast::lemma_hom_symbol(*label, *children);
            }
            while i < children.len()
                invariant
                    i <= children@.len(),
                    *term == AstHomTerm::Symbol(*label, *children),
                    all == alto_ast::hom_asts(children@),
                    term@ == HomAst::Symbol(label@, all),
                    alto_ast::hom_asts(parts@) == all_normalized(all.take(i as int)),
                decreases children@.len() - i,
            {
                assert(decreases_to!(term => *children));
                assert(decreases_to!(*children => children@));
                assert(decreases_to!(children@ => children@[i as int]));
                let part = normalize_legacy_feature_term(&children[i]);
                let ghost before = parts@;
                parts.push(part);
                proof {
                    assert(all.take(i + 1) =~= all.take(i as int).push(all[i as int]));
                    assert(alto_ast::hom_asts(parts@) =~= alto_ast::hom_asts(before).push(part@));
                    assert(all_normalized(all.take(i + 1)) =~= all_normalized(
                        all.take(i as int),
                    ).push(normalized(all[i as int])));
                }
                i += 1;
            }
            proof {
                assert(all.take(i as int) =~= all);
                assert(normalized(term@)->Symbol_1 =~= all_normalized(all));
            }
            alto_ast::symbol(update_label(label), parts)
        },
    }
}

/// Why an image is not a term.
#[derive(Debug)]
pub enum LowerError {
    /// Variables are numbered from one; this one is `?0`.
    ZeroVariable,
    Signature(SignatureError),
}

/// Why an image is not a term.
pub enum LowerFault {
    ZeroVariable,
    Signature(SignatureFault),
}

impl View for LowerError {
    type V = LowerFault;

    open spec fn view(&self) -> LowerFault {
        match self {
            LowerError::ZeroVariable => LowerFault::ZeroVariable,
            LowerError::Signature(e) => LowerFault::Signature(e@),
        }
    }
}

/// The term that an image is over the symbols of a signature, which is extended by
/// the names that occur, the children's before their parent's.
pub open spec fn lowered(t: HomAst, names: NameList) -> Result<(Term, NameList), LowerFault>
    decreases t,
{
    match t {
        HomAst::Variable(v) => if v == 0 {
            Err(LowerFault::ZeroVariable)
        } else {
            Ok((Term::Var((v - 1) as usize), names))
        },
        HomAst::Symbol(label, children) => match lowered_list(children, names) {
            Ok((args, known)) => match signature::interned(known, label, children.len() as usize) {
                Ok((f, now)) => Ok((Term::App(f, args), now)),
                Err(e) => Err(LowerFault::Signature(e)),
            },
            Err(e) => Err(e),
        },
    }
}

/// The terms that images are, from left to right.
pub open spec fn lowered_list(ts: Seq<HomAst>, names: NameList) -> Result<
    (Seq<Term>, NameList),
    LowerFault,
>
    decreases ts,
{
    if ts.len() == 0 {
        Ok((Seq::empty(), names))
    } else {
        match lowered_list(ts.drop_last(), names) {
            Ok((args, known)) => match lowered(ts.last(), known) {
                Ok((arg, now)) => Ok((args.push(arg), now)),
                Err(e) => Err(e),
            },
            Err(e) => Err(e),
        }
    }
}

/// A prefix that fails makes the list fail.
proof fn lemma_lowered_list_error(ts: Seq<HomAst>, names: NameList, k: int)
    requires
        0 <= k <= ts.len(),
        lowered_list(ts.take(k), names) is Err,
    ensures
        lowered_list(ts, names) == lowered_list(ts.take(k), names),
    decreases ts.len(),
{
    if k < ts.len() {
        assert(ts.drop_last().take(k) =~= ts.take(k));
        lemma_lowered_list_error(ts.drop_last(), names, k);
    } else {
        assert(ts.take(k) =~= ts);
    }
}

/// The number of nodes of a term.
pub open spec fn term_size(t: HomAst) -> nat
    decreases t,
{
    match t {
        HomAst::Variable(_) => 1,
        HomAst::Symbol(_, children) => 1 + list_size(children),
    }
}

/// The number of nodes of terms.
pub open spec fn list_size(ts: Seq<HomAst>) -> nat
    decreases ts,
{
    if ts.len() == 0 {
        0
    } else {
        list_size(ts.drop_last()) + term_size(ts.last())
    }
}

proof fn lemma_list_size_take(ts: Seq<HomAst>, k: int)
    requires
        0 <= k < ts.len(),
    ensures
        list_size(ts.take(k)) + term_size(ts[k]) <= list_size(ts),
    decreases ts.len(),
{
    if k == ts.len() - 1 {
        assert(ts.drop_last() =~= ts.take(k));
    } else {
        assert(ts.drop_last().take(k) =~= ts.take(k));
        lemma_list_size_take(ts.drop_last(), k);
    }
}

/// Whether one arena continues another.
pub open spec fn continues(a: Seq<(HomLabel, Seq<nat>)>, b: Seq<(HomLabel, Seq<nat>)>) -> bool {
    a.len() <= b.len() && forall|i: int| 0 <= i < a.len() ==> #[trigger] b[i] == a[i]
}

/// Growing an arena keeps its terms.
pub proof fn lemma_term_stable(
    a: Seq<(HomLabel, Seq<nat>)>,
    b: Seq<(HomLabel, Seq<nat>)>,
    i: nat,
)
    requires
        arena::children_first(a),
        continues(a, b),
        i < a.len(),
    ensures
        terms::term_at(a, i) == terms::term_at(b, i),
    decreases i,
{
    assert(b[i as int] == a[i as int]);
    if let HomLabel::Symbol(f) = a[i as int].0 {
        let x = terms::term_at(a, i)->App_1;
        let y = terms::term_at(b, i)->App_1;
        assert forall|c: int| 0 <= c < x.len() implies x[c] == y[c] by {
            assert(a[i as int].1[c] < i);
            lemma_term_stable(a, b, a[i as int].1[c]);
        }
        assert(x =~= y);
    }
}

/// Whether the handles name nodes whose terms are the given ones.
pub open spec fn handles_terms(
    nodes: Seq<(HomLabel, Seq<nat>)>,
    handles: Seq<Tree>,
    args: Seq<Term>,
) -> bool {
    handles.len() == args.len() && forall|i: int|
        0 <= i < handles.len() ==> arena::tree_number(#[trigger] handles[i]) < nodes.len()
            && terms::term_at(nodes, arena::tree_number(handles[i])) == args[i]
}

proof fn lemma_handles_stable(
    a: Seq<(HomLabel, Seq<nat>)>,
    b: Seq<(HomLabel, Seq<nat>)>,
    handles: Seq<Tree>,
    args: Seq<Term>,
)
    requires
        arena::children_first(a),
        continues(a, b),
        handles_terms(a, handles, args),
    ensures
        handles_terms(b, handles, args),
{
    assert forall|i: int| 0 <= i < handles.len() implies arena::tree_number(#[trigger] handles[i])
        < b.len() && terms::term_at(b, arena::tree_number(handles[i])) == args[i] by {
        lemma_term_stable(a, b, arena::tree_number(handles[i]));
    }
}

/// Adds an image to the arena of images and its names to the signature.
pub fn lower_hom_term(
    term: &AstHomTerm,
    nodes: &mut TreeArena<HomLabel>,
    names: &mut Signature,
) -> (r: Result<Tree, LowerError>)
    requires
        arena::children_first(arena::hom_nodes(*old(nodes))),
        old(names)@.len() + term_size(term@) < u32::MAX,
    ensures
        arena::children_first(arena::hom_nodes(*final(nodes))),
        continues(arena::hom_nodes(*old(nodes)), arena::hom_nodes(*final(nodes))),
        final(names)@.len() <= old(names)@.len() + term_size(term@),
        match r {
            Ok(t) => {
                &&& arena::tree_number(t) < arena::hom_nodes(*final(nodes)).len()
                &&& lowered(term@, old(names)@) == Ok::<(Term, NameList), LowerFault>(
                    (
                        terms::term_at(arena::hom_nodes(*final(nodes)), arena::tree_number(t)),
                        final(names)@,
                    ),
                )
            },
            Err(e) => lowered(term@, old(names)@) == Err::<(Term, NameList), LowerFault>(e@),
        },
    decreases term,
{
    let ghost start = arena::hom_nodes(*nodes);
    let ghost start_names = names@;
    match term {
        AstHomTerm::Variable(v) => {
            let variable: usize = *v;
            if variable == 0 {
                return Err(LowerError::ZeroVariable);
            }
            let none: Vec<Tree> = Vec::new();
            let t = hom_add(nodes, HomLabel::Var(variable - 1), none);
            proof {
                let now = arena::hom_nodes(*nodes);
                assert(arena::tree_numbers(none@) =~= Seq::<nat>::empty());
                lemma_children_first_push(start, (HomLabel::Var((variable - 1) as usize), Seq::empty()));
                terms::lemma_term_args(now, arena::tree_number(t));
            }
            Ok(t)
        },
        AstHomTerm::Symbol(label, children) => {
            let ghost all = alto_ast::hom_asts(children@);
            proof {
                alto_ast::lemma_hom_symbol(*label, *children);
                assert(all.take(0) =~= Seq::<HomAst>::empty());
            }
            let mut handles: Vec<Tree> = Vec::new();
            let ghost mut args = Seq::<Term>::empty();
            let mut i: usize = 0;
            while i < children.len()
                invariant
                    i <= children@.len(),
                    *term == AstHomTerm::Symbol(*label, *children),
                    all == alto_ast::hom_asts(children@),
                    term@ == HomAst::Symbol(label@, all),
                    start == arena::hom_nodes(*old(nodes)),
                    start_names == old(names)@,
                    start_names.len() + 1 + list_size(all) < u32::MAX,
                    handles@.len() == i,
                    arena::children_first(arena::hom_nodes(*nodes)),
                    continues(start, arena::hom_nodes(*nodes)),
                    handles_terms(arena::hom_nodes(*nodes), handles@, args),
                    lowered_list(all.take(i as int), start_names) == Ok::<
                        (Seq<Term>, NameList),
                        LowerFault,
                    >((args, names@)),
                    names@.len() <= start_names.len() + list_size(all.take(i as int)),
                decreases children@.len() - i,
            {
                assert(decreases_to!(term => *children));
                assert(decreases_to!(*children => children@));
                assert(decreases_to!(children@ => children@[i as int]));
                let ghost before = arena::hom_nodes(*nodes);
                let ghost then = names@;
                proof {
                    assert(all[i as int] == children@[i as int]@);
                    lemma_list_size_take(all, i as int);
                    let now = all.take(i + 1);
                    assert(now.drop_last() =~= all.take(i as int));
                    assert(now.last() == all[i as int]);
                }
                match lower_hom_term(&children[i], nodes, names) {
                    Ok(t) => {
                        proof {
                            let now = arena::hom_nodes(*nodes);
                            lemma_handles_stable(before, now, handles@, args);
                            args = args.push(terms::term_at(now, arena::tree_number(t)));
                        }
                        handles.push(t);
                    },
                    Err(e) => {
                        proof {
                            lemma_lowered_list_error(all, start_names, i + 1);
                            lemma_list_size_take(all, i as int);
                        }
                        return Err(e);
                    },
                }
                i += 1;
            }
            assert(all.take(i as int) =~= all);
            let ghost middle = arena::hom_nodes(*nodes);
            let n: usize = handles.len();
            match names.intern(text::copy_text(label), n) {
                Ok(f) => {
                    let t = hom_add(nodes, HomLabel::Symbol(f), handles);
                    proof {
                        let now = arena::hom_nodes(*nodes);
                        let numbers = arena::tree_numbers(handles@);
                        assert forall|c: int| 0 <= c < numbers.len() implies #[trigger] numbers[c]
                            < middle.len() by {
                            assert(arena::tree_number(handles@[c]) < middle.len());
                        }
                        lemma_children_first_push(middle, (HomLabel::Symbol(f), numbers));
                        terms::lemma_term_args(now, arena::tree_number(t));
                        lemma_handles_stable(middle, now, handles@, args);
                        assert(terms::terms_at(now, numbers) =~= args) by {
                            assert forall|c: int| 0 <= c < numbers.len() implies terms::terms_at(
                                now,
                                numbers,
                            )[c] == args[c] by {
                                assert(arena::tree_number(handles@[c]) < now.len());
                            }
                        }
                    }
                    Ok(t)
                },
                Err(e) => Err(LowerError::Signature(e)),
            }
        },
    }
}

proof fn lemma_children_first_push(
    nodes: Seq<(HomLabel, Seq<nat>)>,
    node: (HomLabel, Seq<nat>),
)
    requires
        arena::children_first(nodes),
        forall|c: int| 0 <= c < node.1.len() ==> #[trigger] node.1[c] < nodes.len(),
    ensures
        arena::children_first(nodes.push(node)),
        continues(nodes, nodes.push(node)),
{
    let now = nodes.push(node);
    assert forall|i: int, c: int|
        0 <= i < now.len() && 0 <= c < now[i].1.len() implies #[trigger] now[i].1[c] < i by {
        if i < nodes.len() {
            assert(nodes[i].1[c] < i);
        } else {
            assert(node.1[c] < nodes.len());
        }
    }
}

} // verus!
