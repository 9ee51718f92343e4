//! Applying a homomorphism to a tree.
use crate::arena;
use crate::arena::{hom_children, hom_label, symbol_add, symbol_children, symbol_label};
use crate::homomorphism::{HomLabel, HomModel, HomTerm, Homomorphism, HomomorphismError};
use crate::ids::Symbol;
use crate::terms;
use crate::terms::Term;
use packed_term_arena::tree::{Tree, TreeArena};
use vstd::prelude::*;

verus! {

/// A tree of symbols.
pub struct SymbolTree {
    pub symbol: Symbol,
    pub children: Seq<SymbolTree>,
}

/// The tree below node `i` of an arena whose children come first.
pub open spec fn tree_at(nodes: Seq<(Symbol, Seq<nat>)>, i: nat) -> SymbolTree
    decreases i,
{
    SymbolTree {
        symbol: nodes[i as int].0,
        children: Seq::new(
            nodes[i as int].1.len(),
            |c: int|
                if nodes[i as int].1[c] < i {
                    tree_at(nodes, nodes[i as int].1[c])
                } else {
                    SymbolTree { symbol: Symbol(0), children: Seq::empty() }
                },
        ),
    }
}

/// The trees below the listed nodes.
pub open spec fn trees_at(nodes: Seq<(Symbol, Seq<nat>)>, list: Seq<nat>) -> Seq<SymbolTree> {
    Seq::new(list.len(), |c: int| tree_at(nodes, list[c]))
}

/// A term with trees put in place of its variables.
pub open spec fn substitute(t: Term, args: Seq<SymbolTree>) -> Result<
    SymbolTree,
    HomomorphismError,
>
    decreases t,
{
    match t {
        Term::Var(v) => if v < args.len() {
            Ok(args[v as int])
        } else {
            Err(
                HomomorphismError::ApplyVariableOutOfRange {
                    variable: v,
                    arity: args.len() as usize,
                },
            )
        },
        Term::App(f, parts) => match substitute_list(parts, args) {
            Ok(children) => Ok(SymbolTree { symbol: f, children }),
            Err(e) => Err(e),
        },
    }
}

/// Terms with trees put in place of their variables; the leftmost failure counts.
pub open spec fn substitute_list(parts: Seq<Term>, args: Seq<SymbolTree>) -> Result<
    Seq<SymbolTree>,
    HomomorphismError,
>
    decreases parts,
{
    if parts.len() == 0 {
        Ok(Seq::empty())
    } else {
        match substitute_list(parts.drop_last(), args) {
            Ok(front) => match substitute(parts.last(), args) {
                Ok(last) => Ok(front.push(last)),
                Err(e) => Err(e),
            },
            Err(e) => Err(e),
        }
    }
}

/// The image of a tree, or the failure at the first node that has none, children
/// before parents.
pub open spec fn image_of(m: HomModel, t: SymbolTree) -> Result<SymbolTree, HomomorphismError>
    decreases t,
{
    match images_of(m, t.children) {
        Ok(children) => if m.maps(t.symbol) {
            substitute(m.image(t.symbol), children)
        } else {
            Err(HomomorphismError::UnmappedSymbol { symbol: t.symbol })
        },
        Err(e) => Err(e),
    }
}

/// The images of trees; the leftmost failure counts.
pub open spec fn images_of(m: HomModel, ts: Seq<SymbolTree>) -> Result<
    Seq<SymbolTree>,
    HomomorphismError,
>
    decreases ts,
{
    if ts.len() == 0 {
        Ok(Seq::empty())
    } else {
        match images_of(m, ts.drop_last()) {
            Ok(front) => match image_of(m, ts.last()) {
                Ok(last) => Ok(front.push(last)),
                Err(e) => Err(e),
            },
            Err(e) => Err(e),
        }
    }
}

/// Whether `b` continues `a`.
pub open spec fn grows(a: Seq<(Symbol, Seq<nat>)>, b: Seq<(Symbol, Seq<nat>)>) -> bool {
    a.len() <= b.len() && forall|i: int| 0 <= i < a.len() ==> #[trigger] b[i] == a[i]
}

/// Growing an arena keeps its trees.
pub proof fn lemma_tree_stable(
    a: Seq<(Symbol, Seq<nat>)>,
    b: Seq<(Symbol, Seq<nat>)>,
    i: nat,
)
    requires
        arena::children_first(a),
        grows(a, b),
        i < a.len(),
    ensures
        tree_at(a, i) == tree_at(b, i),
    decreases i,
{
    assert(b[i as int] == a[i as int]);
    let x = tree_at(a, i).children;
    let y = tree_at(b, i).children;
    assert forall|c: int| 0 <= c < x.len() implies x[c] == y[c] by {
        assert(a[i as int].1[c] < i);
        lemma_tree_stable(a, b, a[i as int].1[c]);
    }
    assert(x =~= y);
}

/// The children of the tree below a node.
pub proof fn lemma_tree_children(nodes: Seq<(Symbol, Seq<nat>)>, i: nat)
    requires
        arena::children_first(nodes),
        i < nodes.len(),
    ensures
        tree_at(nodes, i).symbol == nodes[i as int].0,
        tree_at(nodes, i).children == trees_at(nodes, nodes[i as int].1),
        forall|c: int| 0 <= c < nodes[i as int].1.len() ==> #[trigger] nodes[i as int].1[c] < i,
{
    assert(tree_at(nodes, i).children =~= trees_at(nodes, nodes[i as int].1));
}

/// A failure stays when more trees follow.
proof fn lemma_images_error(m: HomModel, ts: Seq<SymbolTree>, k: int)
    requires
        0 <= k <= ts.len(),
        images_of(m, ts.take(k)) is Err,
    ensures
        images_of(m, ts) == images_of(m, ts.take(k)),
    decreases ts.len(),
{
    if k < ts.len() {
        assert(ts.drop_last().take(k) =~= ts.take(k));
        lemma_images_error(m, ts.drop_last(), k);
    } else {
        assert(ts.take(k) =~= ts);
    }
}

/// A failure stays when more terms follow.
proof fn lemma_substitute_error(parts: Seq<Term>, args: Seq<SymbolTree>, k: int)
    requires
        0 <= k <= parts.len(),
        substitute_list(parts.take(k), args) is Err,
    ensures
        substitute_list(parts, args) == substitute_list(parts.take(k), args),
    decreases parts.len(),
{
    if k < parts.len() {
        assert(parts.drop_last().take(k) =~= parts.take(k));
        lemma_substitute_error(parts.drop_last(), args, k);
    } else {
        assert(parts.take(k) =~= parts);
    }
}

/// Whether the handles name trees of the arena, and which.
pub open spec fn handles_ok(
    nodes: Seq<(Symbol, Seq<nat>)>,
    handles: Seq<Tree>,
    trees: Seq<SymbolTree>,
) -> bool {
    &&& handles.len() == trees.len()
    &&& forall|i: int|
        0 <= i < handles.len() ==> {
            &&& arena::tree_number(#[trigger] handles[i]) < nodes.len()
            &&& tree_at(nodes, arena::tree_number(handles[i])) == trees[i]
        }
}

proof fn lemma_handles_grow(
    a: Seq<(Symbol, Seq<nat>)>,
    b: Seq<(Symbol, Seq<nat>)>,
    handles: Seq<Tree>,
    trees: Seq<SymbolTree>,
)
    requires
        arena::children_first(a),
        grows(a, b),
        handles_ok(a, handles, trees),
    ensures
        handles_ok(b, handles, trees),
{
    assert forall|i: int| 0 <= i < handles.len() implies {
        &&& arena::tree_number(#[trigger] handles[i]) < b.len()
        &&& tree_at(b, arena::tree_number(handles[i])) == trees[i]
    } by {
        lemma_tree_stable(a, b, arena::tree_number(handles[i]));
    }
}

/// Appending a node whose children are known trees.
proof fn lemma_add(
    nodes: Seq<(Symbol, Seq<nat>)>,
    f: Symbol,
    handles: Seq<Tree>,
    trees: Seq<SymbolTree>,
)
    requires
        arena::children_first(nodes),
        handles_ok(nodes, handles, trees),
    ensures
        ({
            let now = nodes.push((f, arena::tree_numbers(handles)));
            &&& arena::children_first(now)
            &&& grows(nodes, now)
            &&& tree_at(now, nodes.len()) == (SymbolTree { symbol: f, children: trees })
        }),
{
    let now = nodes.push((f, arena::tree_numbers(handles)));
    assert forall|i: int, c: int| 0 <= i < now.len() && 0 <= c < now[i].1.len() implies
        #[trigger] now[i].1[c] < i by {
        if i < nodes.len() {
            assert(nodes[i].1[c] < i);
        } else {
            assert(now[i].1[c] == arena::tree_number(handles[c]));
        }
    }
    let t = tree_at(now, nodes.len());
    assert forall|c: int| 0 <= c < t.children.len() implies t.children[c] == trees[c] by {
        assert(now[nodes.len() as int].1[c] == arena::tree_number(handles[c]));
        lemma_tree_stable(nodes, now, arena::tree_number(handles[c]));
    }
    assert(t.children =~= trees);
}

impl<'a> Homomorphism<'a> {
    /// Applies the homomorphism to a tree of source symbols.
    ///
    /// The result is appended to `output_arena`; variables are replaced by the
    /// images of the children. Nodes that the arena held before stay as they are.
    pub fn apply(
        &self,
        input_arena: &TreeArena<Symbol>,
        input_root: Tree,
        output_arena: &mut TreeArena<Symbol>,
    ) -> (r: Result<Tree, HomomorphismError>)
        requires
            arena::children_first(arena::symbol_nodes(*input_arena)),
            arena::children_first(arena::symbol_nodes(*old(output_arena))),
            arena::tree_number(input_root) < arena::symbol_nodes(*input_arena).len(),
        ensures
            arena::children_first(arena::symbol_nodes(*final(output_arena))),
            grows(
                arena::symbol_nodes(*old(output_arena)),
                arena::symbol_nodes(*final(output_arena)),
            ),
            ({
                let source = tree_at(
                    arena::symbol_nodes(*input_arena),
                    arena::tree_number(input_root),
                );
                match r {
                    Ok(t) => arena::tree_number(t) < arena::symbol_nodes(
                        *final(output_arena),
                    ).len() && image_of(self@, source) == Ok::<SymbolTree, HomomorphismError>(
                        tree_at(
                            arena::symbol_nodes(*final(output_arena)),
                            arena::tree_number(t),
                        ),
                    ),
                    Err(e) => image_of(self@, source) == Err::<SymbolTree, HomomorphismError>(e),
                }
            }),
        decreases arena::tree_number(input_root),
    {
        proof {
            use_type_invariant(self);
            self.lemma_well_formed();
        }
        let ghost nodes = arena::symbol_nodes(*input_arena);
        let ghost number = arena::tree_number(input_root);
        let ghost source = tree_at(nodes, number);
        proof {
            lemma_tree_children(nodes, number);
        }
        let children = symbol_children(input_arena, input_root);
        let mut mapped: Vec<Tree> = Vec::new();
        let mut failure: Option<HomomorphismError> = None;
        let ghost mut trees: Seq<SymbolTree> = Seq::empty();
        let ghost start = arena::symbol_nodes(*output_arena);
        let mut c: usize = 0;
        assert(source.children.take(0) =~= Seq::empty());
        while c < children.len()
            invariant
                c <= children@.len(),
                nodes == arena::symbol_nodes(*input_arena),
                arena::children_first(nodes),
                number < nodes.len(),
                number == arena::tree_number(input_root),
                source.children == trees_at(nodes, nodes[number as int].1),
                arena::tree_numbers(children@) == nodes[number as int].1,
                forall|d: int|
                    0 <= d < nodes[number as int].1.len() ==> #[trigger] nodes[number as int].1[d]
                        < number,
                arena::children_first(arena::symbol_nodes(*output_arena)),
                grows(start, arena::symbol_nodes(*output_arena)),
                match failure {
                    Some(e) => images_of(self@, source.children.take(c as int)) == Err::<
                        Seq<SymbolTree>,
                        HomomorphismError,
                    >(e),
                    None => images_of(self@, source.children.take(c as int)) == Ok::<
                        Seq<SymbolTree>,
                        HomomorphismError,
                    >(trees) && handles_ok(
                        arena::symbol_nodes(*output_arena),
                        mapped@,
                        trees,
                    ),
                },
            decreases children@.len() - c,
        {
            let ghost before = arena::symbol_nodes(*output_arena);
            assert(arena::tree_numbers(children@)[c as int] == arena::tree_number(
                children@[c as int],
            ));
            assert(nodes[number as int].1[c as int] < number);
            let result = self.apply(input_arena, children[c], output_arena);
            let ghost after = arena::symbol_nodes(*output_arena);
            proof {
                let now = source.children.take(c + 1);
                assert(now.drop_last() =~= source.children.take(c as int));
                assert(now.last() == source.children[c as int]);
                assert forall|i: int| 0 <= i < start.len() implies #[trigger] after[i]
                    == start[i] by {
                    assert(before[i] == start[i]);
                }
            }
            if failure.is_none() {
                match result {
                    Ok(t) => {
                        proof {
                            lemma_handles_grow(before, after, mapped@, trees);
                            trees = trees.push(tree_at(after, arena::tree_number(t)));
                        }
                        mapped.push(t);
                    },
                    Err(e) => {
                        failure = Some(e);
                    },
                }
            }
            c += 1;
        }
        assert(source.children.take(c as int) =~= source.children);
        if let Some(e) = failure {
            return Err(e);
        }
        let symbol = symbol_label(input_arena, input_root);
        match self.get(symbol) {
            Some(rhs) => {
                let ghost before = arena::symbol_nodes(*output_arena);
                let r = self.instantiate(rhs, &mapped, output_arena, Ghost(trees));
                proof {
                    let after = arena::symbol_nodes(*output_arena);
                    assert forall|i: int| 0 <= i < start.len() implies #[trigger] after[i]
                        == start[i] by {
                        assert(before[i] == start[i]);
                    }
                }
                r
            },
            None => Err(HomomorphismError::UnmappedSymbol { symbol }),
        }
    }

    /// Writes an image out with the given trees in place of its variables.
    fn instantiate(
        &self,
        rhs: HomTerm,
        mapped_children: &Vec<Tree>,
        output_arena: &mut TreeArena<Symbol>,
        Ghost(trees): Ghost<Seq<SymbolTree>>,
    ) -> (r: Result<Tree, HomomorphismError>)
        requires
            arena::tree_number(rhs) < arena::hom_nodes(self.term_arena()).len(),
            arena::children_first(arena::symbol_nodes(*old(output_arena))),
            handles_ok(arena::symbol_nodes(*old(output_arena)), mapped_children@, trees),
        ensures
            arena::children_first(arena::symbol_nodes(*final(output_arena))),
            grows(
                arena::symbol_nodes(*old(output_arena)),
                arena::symbol_nodes(*final(output_arena)),
            ),
            ({
                let image = terms::term_at(
                    arena::hom_nodes(self.term_arena()),
                    arena::tree_number(rhs),
                );
                match r {
                    Ok(t) => arena::tree_number(t) < arena::symbol_nodes(
                        *final(output_arena),
                    ).len() && substitute(image, trees) == Ok::<SymbolTree, HomomorphismError>(
                        tree_at(
                            arena::symbol_nodes(*final(output_arena)),
                            arena::tree_number(t),
                        ),
                    ),
                    Err(e) => substitute(image, trees) == Err::<SymbolTree, HomomorphismError>(e),
                }
            }),
        decreases arena::tree_number(rhs),
    {
        proof {
            use_type_invariant(self);
            self.lemma_well_formed();
        }
        let hom_arena = self.arena();
        let ghost nodes = arena::hom_nodes(*hom_arena);
        let ghost number = arena::tree_number(rhs);
        proof {
            terms::lemma_term_args(nodes, number);
        }
        match hom_label(hom_arena, rhs) {
            HomLabel::Var(variable) => {
                if variable < mapped_children.len() {
                    Ok(mapped_children[variable])
                } else {
                    Err(
                        HomomorphismError::ApplyVariableOutOfRange {
                            variable,
                            arity: mapped_children.len(),
                        },
                    )
                }
            },
            HomLabel::Symbol(symbol) => {
                let parts = hom_children(hom_arena, rhs);
                let ghost numbers = nodes[number as int].1;
                let ghost args = terms::terms_at(nodes, numbers);
                let ghost start = arena::symbol_nodes(*output_arena);
                let mut children: Vec<Tree> = Vec::new();
                let ghost mut done: Seq<SymbolTree> = Seq::empty();
                let mut c: usize = 0;
                assert(args.take(0) =~= Seq::empty());
                while c < parts.len()
                    invariant
                        c <= parts@.len(),
                        nodes == arena::hom_nodes(self.term_arena()),
                        arena::children_first(nodes),
                        number == arena::tree_number(rhs),
                        number < nodes.len(),
                        numbers == nodes[number as int].1,
                        args == terms::terms_at(nodes, numbers),
                        arena::tree_numbers(parts@) == numbers,
                        terms::term_at(nodes, number) == Term::App(symbol, args),
                        forall|d: int| 0 <= d < numbers.len() ==> #[trigger] numbers[d] < number,
                        arena::children_first(start),
                        arena::children_first(arena::symbol_nodes(*output_arena)),
                        start == arena::symbol_nodes(*old(output_arena)),
                        grows(start, arena::symbol_nodes(*output_arena)),
                        handles_ok(start, mapped_children@, trees),
                        handles_ok(arena::symbol_nodes(*output_arena), children@, done),
                        substitute_list(args.take(c as int), trees) == Ok::<
                            Seq<SymbolTree>,
                            HomomorphismError,
                        >(done),
                    decreases parts@.len() - c,
                {
                    let ghost before = arena::symbol_nodes(*output_arena);
                    assert(arena::tree_numbers(parts@)[c as int] == arena::tree_number(
                        parts@[c as int],
                    ));
                    assert(numbers[c as int] < number);
                    proof {
                        lemma_handles_grow(start, before, mapped_children@, trees);
                    }
                    let result = self.instantiate(
                        parts[c],
                        mapped_children,
                        output_arena,
                        Ghost(trees),
                    );
                    let ghost after = arena::symbol_nodes(*output_arena);
                    proof {
                        let now = args.take(c + 1);
                        assert(now.drop_last() =~= args.take(c as int));
                        assert(now.last() == args[c as int]);
                        assert forall|i: int| 0 <= i < start.len() implies #[trigger] after[i]
                            == start[i] by {
                            assert(before[i] == start[i]);
                        }
                    }
                    match result {
                        Ok(t) => {
                            proof {
                                lemma_handles_grow(before, after, children@, done);
                                done = done.push(tree_at(after, arena::tree_number(t)));
                            }
                            children.push(t);
                        },
                        Err(e) => {
                            proof {
                                lemma_substitute_error(args, trees, c + 1);
                            }
                            return Err(e);
                        },
                    }
                    c += 1;
                }
                proof {
                    assert(args.take(c as int) =~= args);
                    lemma_add(arena::symbol_nodes(*output_arena), symbol, children@, done);
                }
                let ghost before = arena::symbol_nodes(*output_arena);
                let t = symbol_add(output_arena, symbol, children);
                proof {
                    let after = arena::symbol_nodes(*output_arena);
                    assert forall|i: int| 0 <= i < start.len() implies #[trigger] after[i]
                        == start[i] by {
                        assert(before[i] == start[i]);
                    }
                }
                Ok(t)
            },
        }
    }
}

} // verus!
