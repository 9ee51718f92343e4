//! Terms over output symbols and variables.
use crate::arena;
use crate::arena::{hom_children, hom_label};
use crate::homomorphism::HomLabel;
use crate::ids::Symbol;
use packed_term_arena::tree::{Tree, TreeArena};
use vstd::prelude::*;

verus! {

/// A right-hand side of a homomorphism.
pub enum Term {
    Var(usize),
    App(Symbol, Seq<Term>),
}

/// The term below node `i` of an arena whose children come first.
pub open spec fn term_at(nodes: Seq<(HomLabel, Seq<nat>)>, i: nat) -> Term
    decreases i,
{
    if i < nodes.len() {
        match nodes[i as int].0 {
            HomLabel::Var(v) => Term::Var(v),
            HomLabel::Symbol(f) => Term::App(
                f,
                Seq::new(
                    nodes[i as int].1.len(),
                    |c: int|
                        if nodes[i as int].1[c] < i {
                            term_at(nodes, nodes[i as int].1[c])
                        } else {
                            Term::Var(0)
                        },
                ),
            ),
        }
    } else {
        Term::Var(0)
    }
}

/// The terms below the listed nodes.
pub open spec fn terms_at(nodes: Seq<(HomLabel, Seq<nat>)>, list: Seq<nat>) -> Seq<Term> {
    Seq::new(list.len(), |c: int| term_at(nodes, list[c]))
}

/// The variables of a term from left to right.
pub open spec fn term_vars(t: Term) -> Seq<usize>
    decreases t,
{
    match t {
        Term::Var(v) => seq![v],
        Term::App(f, args) => list_vars(args),
    }
}

/// The variables of a list of terms from left to right.
pub open spec fn list_vars(args: Seq<Term>) -> Seq<usize>
    decreases args,
{
    if args.len() == 0 {
        Seq::empty()
    } else {
        term_vars(args[0]) + list_vars(args.skip(1))
    }
}

/// A word that stands for a number.
pub open spec fn number_word(v: usize) -> Seq<u32> {
    seq![(v as u64 / 0x1_0000_0000) as u32, (v as u64 % 0x1_0000_0000) as u32]
}

/// A word that stands for a term.
pub open spec fn term_word(t: Term) -> Seq<u32>
    decreases t,
{
    match t {
        Term::Var(v) => seq![0u32] + number_word(v),
        Term::App(f, args) => seq![1u32, f.0] + list_word(args) + seq![2u32],
    }
}

/// The words of a list of terms, one after the other.
pub open spec fn list_word(args: Seq<Term>) -> Seq<u32>
    decreases args,
{
    if args.len() == 0 {
        Seq::empty()
    } else {
        term_word(args[0]) + list_word(args.skip(1))
    }
}

pub proof fn lemma_number_word(v: usize, w: usize)
    requires
        number_word(v) == number_word(w),
    ensures
        v == w,
{
    assert(number_word(v)[0] == (v as u64 / 0x1_0000_0000) as u32);
    assert(number_word(w)[0] == (w as u64 / 0x1_0000_0000) as u32);
    assert(number_word(v)[1] == (v as u64 % 0x1_0000_0000) as u32);
    assert(number_word(w)[1] == (w as u64 % 0x1_0000_0000) as u32);
    assert(v as u64 / 0x1_0000_0000 == w as u64 / 0x1_0000_0000);
    assert(v as u64 % 0x1_0000_0000 == w as u64 % 0x1_0000_0000);
}

/// The word of a term can be read off the front of any word.
pub proof fn lemma_term_word_prefix(a: Term, x: Seq<u32>, b: Term, y: Seq<u32>)
    requires
        term_word(a) + x == term_word(b) + y,
    ensures
        a == b,
        x == y,
    decreases a,
{
    let left = term_word(a) + x;
    let right = term_word(b) + y;
    assert(left[0] == right[0]);
    match a {
        Term::Var(v) => {
            assert(left[0] == 0);
            match b {
                Term::Var(w) => {
                    assert(left.skip(1).take(2) =~= number_word(v));
                    assert(right.skip(1).take(2) =~= number_word(w));
                    lemma_number_word(v, w);
                    assert(left.skip(3) =~= x);
                    assert(right.skip(3) =~= y);
                },
                Term::App(g, args) => {
                    assert(right[0] == 1);
                },
            }
        },
        Term::App(f, args) => {
            assert(left[0] == 1);
            match b {
                Term::Var(w) => {
                    assert(right[0] == 0);
                },
                Term::App(g, more) => {
                    assert(left[1] == f.0 && right[1] == g.0);
                    assert(left.skip(2) =~= list_word(args) + (seq![2u32] + x));
                    assert(right.skip(2) =~= list_word(more) + (seq![2u32] + y));
                    lemma_list_word_prefix(args, x, more, y);
                },
            }
        },
    }
}

/// The words of a closed list of terms can be read off the front of any word.
pub proof fn lemma_list_word_prefix(a: Seq<Term>, x: Seq<u32>, b: Seq<Term>, y: Seq<u32>)
    requires
        list_word(a) + (seq![2u32] + x) == list_word(b) + (seq![2u32] + y),
    ensures
        a == b,
        x == y,
    decreases a,
{
    let left = list_word(a) + (seq![2u32] + x);
    let right = list_word(b) + (seq![2u32] + y);
    if a.len() == 0 {
        assert(left[0] == 2);
        if b.len() > 0 {
            lemma_word_start(b[0]);
            assert(right[0] == term_word(b[0])[0]);
        }
        assert(a =~= b);
        assert(left.skip(1) =~= x);
        assert(right.skip(1) =~= y);
    } else {
        lemma_word_start(a[0]);
        assert(left[0] == term_word(a[0])[0]);
        if b.len() == 0 {
            assert(right[0] == 2);
        } else {
            let p = list_word(a.skip(1)) + (seq![2u32] + x);
            let q = list_word(b.skip(1)) + (seq![2u32] + y);
            assert(left =~= term_word(a[0]) + p);
            assert(right =~= term_word(b[0]) + q);
            lemma_term_word_prefix(a[0], p, b[0], q);
            lemma_list_word_prefix(a.skip(1), x, b.skip(1), y);
            assert(a =~= seq![a[0]] + a.skip(1));
            assert(b =~= seq![b[0]] + b.skip(1));
        }
    }
}

proof fn lemma_word_start(t: Term)
    ensures
        term_word(t).len() > 0,
        term_word(t)[0] < 2,
{
}

/// Different terms have different words.
pub proof fn lemma_term_word_injective(a: Term, b: Term)
    requires
        term_word(a) == term_word(b),
    ensures
        a == b,
{
    assert(term_word(a) + Seq::<u32>::empty() =~= term_word(a));
    assert(term_word(b) + Seq::<u32>::empty() =~= term_word(b));
    lemma_term_word_prefix(a, Seq::empty(), b, Seq::empty());
}

pub proof fn lemma_list_vars_push(args: Seq<Term>, t: Term)
    ensures
        list_vars(args.push(t)) == list_vars(args) + term_vars(t),
    decreases args.len(),
{
    let all = args.push(t);
    if args.len() == 0 {
        assert(all.skip(1) =~= Seq::empty());
        assert(list_vars(all.skip(1)) =~= Seq::empty());
        assert(list_vars(all) =~= term_vars(t));
    } else {
        lemma_list_vars_push(args.skip(1), t);
        assert(all.skip(1) =~= args.skip(1).push(t));
        assert(all[0] == args[0]);
        assert(list_vars(all) =~= list_vars(args) + term_vars(t));
    }
}

pub proof fn lemma_list_word_push(args: Seq<Term>, t: Term)
    ensures
        list_word(args.push(t)) == list_word(args) + term_word(t),
    decreases args.len(),
{
    let all = args.push(t);
    if args.len() == 0 {
        assert(all.skip(1) =~= Seq::empty());
        assert(list_word(all.skip(1)) =~= Seq::empty());
        assert(list_word(all) =~= term_word(t));
    } else {
        lemma_list_word_push(args.skip(1), t);
        assert(all.skip(1) =~= args.skip(1).push(t));
        assert(all[0] == args[0]);
        assert(list_word(all) =~= list_word(args) + term_word(t));
    }
}

/// The arguments of the term below an application node.
pub proof fn lemma_term_args(nodes: Seq<(HomLabel, Seq<nat>)>, i: nat)
    requires
        arena::children_first(nodes),
        i < nodes.len(),
    ensures
        nodes[i as int].0 matches HomLabel::Symbol(f) ==> term_at(nodes, i) == Term::App(
            f,
            terms_at(nodes, nodes[i as int].1),
        ),
        nodes[i as int].0 matches HomLabel::Var(v) ==> term_at(nodes, i) == Term::Var(v),
        forall|c: int| 0 <= c < nodes[i as int].1.len() ==> #[trigger] nodes[i as int].1[c] < i,
{
    if let HomLabel::Symbol(f) = nodes[i as int].0 {
        assert(term_at(nodes, i)->App_1 =~= terms_at(nodes, nodes[i as int].1));
    }
}

/// Appends the variables below a node, from left to right.
pub fn collect_vars(arena: &TreeArena<HomLabel>, term: Tree, out: &mut Vec<usize>)
    requires
        arena::children_first(arena::hom_nodes(*arena)),
        arena::tree_number(term) < arena::hom_nodes(*arena).len(),
    ensures
        final(out)@ == old(out)@ + term_vars(
            term_at(arena::hom_nodes(*arena), arena::tree_number(term)),
        ),
    decreases arena::tree_number(term),
{
    let ghost nodes = arena::hom_nodes(*arena);
    let ghost i = arena::tree_number(term);
    proof {
        lemma_term_args(nodes, i);
    }
    match hom_label(arena, term) {
        HomLabel::Var(variable) => {
            out.push(variable);
            assert(out@ =~= old(out)@ + seq![variable]);
        },
        HomLabel::Symbol(_) => {
            let children = hom_children(arena, term);
            let ghost numbers = nodes[i as int].1;
            let ghost args = terms_at(nodes, numbers);
            let ghost before = out@;
            let mut c: usize = 0;
            assert(args.take(0) =~= Seq::empty());
            assert(before + list_vars(args.take(0)) =~= before);
            while c < children.len()
                invariant
                    c <= children@.len(),
                    nodes == arena::hom_nodes(*arena),
                    arena::children_first(nodes),
                    i == arena::tree_number(term),
                    i < nodes.len(),
                    numbers == nodes[i as int].1,
                    args == terms_at(nodes, numbers),
                    arena::tree_numbers(children@) == numbers,
                    forall|d: int| 0 <= d < numbers.len() ==> #[trigger] numbers[d] < i,
                    out@ == before + list_vars(args.take(c as int)),
                decreases children@.len() - c,
            {
                assert(arena::tree_numbers(children@)[c as int] == arena::tree_number(
                    children@[c as int],
                ));
                assert(numbers[c as int] < i);
                collect_vars(arena, children[c], out);
                proof {
                    lemma_list_vars_push(args.take(c as int), args[c as int]);
                    assert(args.take(c + 1) =~= args.take(c as int).push(args[c as int]));
                    assert(out@ =~= before + list_vars(args.take(c + 1)));
                }
                c += 1;
            }
            assert(args.take(c as int) =~= args);
        },
    }
}

/// Appends the word of the term below a node.
pub fn write_term_word(arena: &TreeArena<HomLabel>, term: Tree, out: &mut Vec<u32>)
    requires
        arena::children_first(arena::hom_nodes(*arena)),
        arena::tree_number(term) < arena::hom_nodes(*arena).len(),
    ensures
        final(out)@ == old(out)@ + term_word(
            term_at(arena::hom_nodes(*arena), arena::tree_number(term)),
        ),
    decreases arena::tree_number(term),
{
    let ghost nodes = arena::hom_nodes(*arena);
    let ghost i = arena::tree_number(term);
    proof {
        lemma_term_args(nodes, i);
    }
    match hom_label(arena, term) {
        HomLabel::Var(variable) => {
            out.push(0);
            out.push((variable as u64 / 0x1_0000_0000) as u32);
            out.push((variable as u64 % 0x1_0000_0000) as u32);
            assert(out@ =~= old(out)@ + (seq![0u32] + number_word(variable)));
        },
        HomLabel::Symbol(symbol) => {
            let children = hom_children(arena, term);
            let ghost numbers = nodes[i as int].1;
            let ghost args = terms_at(nodes, numbers);
            out.push(1);
            out.push(symbol.0);
            let ghost before = out@;
            let mut c: usize = 0;
            assert(args.take(0) =~= Seq::empty());
            assert(before + list_word(args.take(0)) =~= before);
            while c < children.len()
                invariant
                    c <= children@.len(),
                    nodes == arena::hom_nodes(*arena),
                    arena::children_first(nodes),
                    i == arena::tree_number(term),
                    i < nodes.len(),
                    numbers == nodes[i as int].1,
                    args == terms_at(nodes, numbers),
                    arena::tree_numbers(children@) == numbers,
                    forall|d: int| 0 <= d < numbers.len() ==> #[trigger] numbers[d] < i,
                    out@ == before + list_word(args.take(c as int)),
                decreases children@.len() - c,
            {
                assert(arena::tree_numbers(children@)[c as int] == arena::tree_number(
                    children@[c as int],
                ));
                assert(numbers[c as int] < i);
                write_term_word(arena, children[c], out);
                proof {
                    lemma_list_word_push(args.take(c as int), args[c as int]);
                    assert(args.take(c + 1) =~= args.take(c as int).push(args[c as int]));
                    assert(out@ =~= before + list_word(args.take(c + 1)));
                }
                c += 1;
            }
            assert(args.take(c as int) =~= args);
            out.push(2);
            assert(out@ =~= old(out)@ + (seq![1u32, symbol.0] + list_word(args) + seq![2u32]));
        },
    }
}

} // verus!
