//! Nondeleting tree homomorphisms.
use crate::arena;
use crate::arena::hom_label;
use crate::ids::Symbol;
use crate::key_index::KeyIndex;
use crate::symbol_set;
use crate::tables::KeyTable;
use crate::terms;
use crate::terms::{collect_vars, write_term_word, Term};
use packed_term_arena::tree::{Tree, TreeArena};
use vstd::prelude::*;

verus! {

/// Label used in a homomorphism right-hand side.
///
/// Variables are kept apart from output symbols, so a homomorphism can share
/// symbol numbers with automata and parsed trees.
#[derive(Clone, Copy, PartialEq, Eq, Structural, Hash, PartialOrd, Ord, Debug)]
pub enum HomLabel {
    /// An output-signature symbol.
    Symbol(Symbol),
    /// Variable `?i`, standing for the image of source child `i`.
    Var(usize),
}

/// Root handle of a homomorphism right-hand side.
pub type HomTerm = Tree;

/// Why a homomorphism cannot be built or applied.
#[derive(Clone, Copy, PartialEq, Eq, Structural, Debug)]
pub enum HomomorphismError {
    /// The same source symbol was registered twice with different source arity.
    ArityMismatch {
        /// Source symbol whose arity conflicts.
        symbol: Symbol,
        /// Previously registered arity.
        first: usize,
        /// Newly requested arity.
        second: usize,
    },
    /// The same source symbol was registered twice with different image terms.
    ConflictingSourceTerm {
        /// Source symbol whose image term conflicts.
        symbol: Symbol,
    },
    /// A required variable does not occur in the image term.
    MissingVariable {
        /// Source symbol being registered.
        symbol: Symbol,
        /// Missing source-child variable.
        variable: usize,
    },
    /// A variable occurs more than once in the image term.
    DuplicateVariable {
        /// Source symbol being registered.
        symbol: Symbol,
        /// Duplicated source-child variable.
        variable: usize,
    },
    /// The image term mentions a variable outside the source arity.
    OutOfRangeVariable {
        /// Source symbol being registered.
        symbol: Symbol,
        /// Variable index found in the image.
        variable: usize,
        /// Source arity of the symbol.
        arity: usize,
    },
    /// A source tree contains a symbol for which no image term was registered.
    UnmappedSymbol {
        /// Unmapped source symbol.
        symbol: Symbol,
    },
    /// Applying a homomorphism found a variable that has no corresponding child.
    ApplyVariableOutOfRange {
        /// Variable index in the image term.
        variable: usize,
        /// Number of mapped source children available.
        arity: usize,
    },
}

/// Whether variable number `j` is out of range or occurred before.
pub open spec fn faulty(vars: Seq<usize>, arity: usize, j: int) -> bool {
    vars[j] >= arity || vars.take(j).contains(vars[j])
}

/// Whether variable number `j` is the first that is out of range or occurred before.
pub open spec fn first_fault(vars: Seq<usize>, arity: usize, j: int) -> bool {
    &&& 0 <= j < vars.len()
    &&& faulty(vars, arity, j)
    &&& forall|i: int| 0 <= i < j ==> !#[trigger] faulty(vars, arity, i)
}

/// Whether `v` is the first variable below the arity that does not occur.
pub open spec fn first_missing(vars: Seq<usize>, arity: usize, v: usize) -> bool {
    &&& v < arity
    &&& !vars.contains(v)
    &&& forall|u: usize| u < v ==> #[trigger] vars.contains(u)
}

/// Whether the variables below the arity occur once each, and no others.
pub open spec fn nondeleting(vars: Seq<usize>, arity: usize) -> bool {
    &&& forall|j: int| 0 <= j < vars.len() ==> !#[trigger] faulty(vars, arity, j)
    &&& forall|v: usize| v < arity ==> #[trigger] vars.contains(v)
}

/// Whether `r` is what validating the variables of an image owes.
pub open spec fn validation(
    symbol: Symbol,
    arity: usize,
    vars: Seq<usize>,
    r: Result<(), HomomorphismError>,
) -> bool {
    match r {
        Ok(()) => nondeleting(vars, arity),
        Err(e) => {
            ||| exists|j: int| #[trigger]
                first_fault(vars, arity, j) && e == (if vars[j] >= arity {
                    HomomorphismError::OutOfRangeVariable { symbol, variable: vars[j], arity }
                } else {
                    HomomorphismError::DuplicateVariable { symbol, variable: vars[j] }
                })
            ||| (forall|j: int| 0 <= j < vars.len() ==> !#[trigger] faulty(vars, arity, j))
                && exists|v: usize| #[trigger]
                first_missing(vars, arity, v) && e == (HomomorphismError::MissingVariable {
                    symbol,
                    variable: v,
                })
        },
    }
}

/// What a homomorphism holds: for every mapped symbol its arity and the number of
/// its image, the distinct images, and for every image the symbols mapped to it.
pub struct HomModel {
    pub arities: Map<Symbol, usize>,
    pub ids: Map<Symbol, usize>,
    pub terms: Seq<Term>,
    pub labels: Seq<Seq<Symbol>>,
}

impl HomModel {
    /// Whether a source symbol has an image.
    pub open spec fn maps(self, f: Symbol) -> bool {
        self.ids.dom().contains(f)
    }

    /// The image of a source symbol.
    pub open spec fn image(self, f: Symbol) -> Term {
        self.terms[self.ids[f] as int]
    }

    /// Whether the model is consistent: every mapped symbol has an arity and a
    /// nondeleting image, images are distinct, and every image lists its symbols.
    pub open spec fn well_formed(self) -> bool {
        &&& self.arities.dom() == self.ids.dom()
        &&& self.labels.len() == self.terms.len()
        &&& forall|f: Symbol| #[trigger]
            self.maps(f) ==> self.ids[f] < self.terms.len() && nondeleting(
                terms::term_vars(self.image(f)),
                self.arities[f],
            )
        &&& forall|i: int, j: int|
            0 <= i < j < self.terms.len() ==> #[trigger] self.terms[i] != #[trigger] self.terms[j]
        &&& forall|t: int, f: Symbol|
            0 <= t < self.terms.len() ==> (#[trigger] self.labels[t].contains(f) <==> (self.maps(f)
                && self.ids[f] == t))
        &&& forall|t: int| 0 <= t < self.labels.len() ==> (#[trigger] self.labels[t]).len() > 0
        &&& forall|t: int|
            0 <= t < self.labels.len() ==> (#[trigger] self.labels[t]).no_duplicates()
    }

    /// The model after a new symbol was registered.
    pub open spec fn with(self, f: Symbol, arity: usize, image: Term) -> HomModel {
        if self.terms.contains(image) {
            let t = self.terms.index_of(image);
            HomModel {
                arities: self.arities.insert(f, arity),
                ids: self.ids.insert(f, t as usize),
                terms: self.terms,
                labels: self.labels.update(t, self.labels[t].push(f)),
            }
        } else {
            HomModel {
                arities: self.arities.insert(f, arity),
                ids: self.ids.insert(f, self.terms.len() as usize),
                terms: self.terms.push(image),
                labels: self.labels.push(seq![f]),
            }
        }
    }
}

/// What registering a symbol owes: the error and the new model.
pub open spec fn add_result(
    before: HomModel,
    f: Symbol,
    arity: usize,
    image: Term,
    r: Result<(), HomomorphismError>,
    after: HomModel,
) -> bool {
    if before.maps(f) && before.arities[f] != arity {
        after == before && r == Err::<(), HomomorphismError>(
            HomomorphismError::ArityMismatch {
                symbol: f,
                first: before.arities[f],
                second: arity,
            },
        )
    } else if !nondeleting(terms::term_vars(image), arity) {
        after == before && r is Err && validation(f, arity, terms::term_vars(image), r)
    } else if before.maps(f) {
        after == before && r == (if before.image(f) == image {
            Ok::<(), HomomorphismError>(())
        } else {
            Err(HomomorphismError::ConflictingSourceTerm { symbol: f })
        })
    } else {
        r is Ok && after == before.with(f, arity, image)
    }
}

/// Checks the variables of an image.
fn check_variables(symbol: Symbol, arity: usize, vars: &Vec<usize>) -> (r: Result<
    (),
    HomomorphismError,
>)
    ensures
        validation(symbol, arity, vars@, r),
{
    let mut seen: Vec<bool> = vec![false; arity];
    let mut j: usize = 0;
    while j < vars.len()
        invariant
            j <= vars@.len(),
            seen@.len() == arity,
            forall|v: usize|
                v < arity ==> (#[trigger] seen@[v as int] <==> vars@.take(j as int).contains(v)),
            forall|i: int| 0 <= i < j ==> !#[trigger] faulty(vars@, arity, i),
        decreases vars@.len() - j,
    {
        let variable: usize = vars[j];
        if variable >= arity {
            assert(first_fault(vars@, arity, j as int));
            return Err(HomomorphismError::OutOfRangeVariable { symbol, variable, arity });
        }
        if seen[variable] {
            assert(vars@.take(j as int).contains(variable));
            assert(first_fault(vars@, arity, j as int));
            return Err(HomomorphismError::DuplicateVariable { symbol, variable });
        }
        let ghost before = seen@;
        seen.set(variable, true);
        proof {
            let now = vars@.take(j + 1);
            assert(now =~= vars@.take(j as int).push(variable));
            assert forall|v: usize| v < arity implies (#[trigger] seen@[v as int] <==> now.contains(
                v,
            )) by {
                symbol_set::lemma_push_contains(vars@.take(j as int), variable, v);
                assert(before[v as int] <==> vars@.take(j as int).contains(v));
            }
        }
        j += 1;
    }
    assert(vars@.take(j as int) =~= vars@);
    let mut v: usize = 0;
    while v < arity
        invariant
            v <= arity,
            seen@.len() == arity,
            forall|u: usize| u < arity ==> (#[trigger] seen@[u as int] <==> vars@.contains(u)),
            forall|i: int| 0 <= i < vars@.len() ==> !#[trigger] faulty(vars@, arity, i),
            forall|u: usize| u < v ==> #[trigger] vars@.contains(u),
        decreases arity - v,
    {
        if !seen[v] {
            assert(first_missing(vars@, arity, v));
            return Err(HomomorphismError::MissingVariable { symbol, variable: v });
        }
        assert(vars@.contains(v));
        v += 1;
    }
    Ok(())
}

/// A nondeleting tree homomorphism from source symbols to output terms.
///
/// Each source symbol of arity `k` maps to a term whose variables are exactly
/// `?0 .. ?{k-1}`, each occurring once. Structurally identical images are stored
/// once, under one number, together with all symbols that map to them.
pub struct Homomorphism<'a> {
    arena: &'a TreeArena<HomLabel>,
    terms: Vec<HomTerm>,
    labels: Vec<Vec<Symbol>>,
    symbol_to_term: KeyTable,
    arities: KeyTable,
    term_dedup: KeyTable,
    root_index: KeyIndex,
}

/// The key of a symbol.
pub open spec fn symbol_key(f: Symbol) -> Seq<u32> {
    seq![f.0]
}

/// The entries of a table under the keys of symbols.
pub open spec fn symbol_map(t: Map<Seq<u32>, usize>) -> Map<Symbol, usize> {
    Map::new(|f: Symbol| t.dom().contains(symbol_key(f)), |f: Symbol| t[symbol_key(f)])
}

/// Whether a term has `f` at its root.
pub open spec fn has_root(t: Term, f: Symbol) -> bool {
    t matches Term::App(g, args) && f == g
}

/// The numbers of the images with root symbol `f`, in increasing order.
pub open spec fn images_with_root(images: Seq<Term>, f: Symbol) -> Seq<usize>
    decreases images.len(),
{
    if images.len() == 0 {
        Seq::empty()
    } else {
        let earlier = images_with_root(images.drop_last(), f);
        if has_root(images.last(), f) {
            earlier.push((images.len() - 1) as usize)
        } else {
            earlier
        }
    }
}

/// Whether the table finds the number of every image by its word.
pub open spec fn dedup_ok(images: Seq<Term>, t: Map<Seq<u32>, usize>) -> bool {
    &&& forall|k: int|
        0 <= k < images.len() ==> t.dom().contains(terms::term_word(#[trigger] images[k]))
            && t[terms::term_word(images[k])] == k
    &&& forall|w: Seq<u32>| #[trigger]
        t.dom().contains(w) ==> t[w] < images.len() && terms::term_word(images[t[w] as int]) == w
}

/// Whether the index finds the images by root symbol.
pub open spec fn root_index_ok(images: Seq<Term>, index: KeyIndex) -> bool {
    forall|f: Symbol| index.at(#[trigger] symbol_key(f)) == images_with_root(images, f)
}

/// The nodes that image handles name.
pub open spec fn image_terms(arena: TreeArena<HomLabel>, list: Seq<Tree>) -> Seq<Term> {
    Seq::new(
        list.len(),
        |i: int| terms::term_at(arena::hom_nodes(arena), arena::tree_number(list[i])),
    )
}

/// What lists of symbols hold.
pub open spec fn label_lists(labels: Seq<Vec<Symbol>>) -> Seq<Seq<Symbol>> {
    Seq::new(labels.len(), |i: int| labels[i]@)
}

fn key_of(f: Symbol) -> (k: Vec<u32>)
    ensures
        k@ == symbol_key(f),
{
    let k: Vec<u32> = vec![f.0];
    assert(k@ =~= symbol_key(f));
    k
}

proof fn lemma_symbol_map_insert(t: Map<Seq<u32>, usize>, f: Symbol, v: usize)
    ensures
        symbol_map(t.insert(symbol_key(f), v)) == symbol_map(t).insert(f, v),
{
    assert forall|g: Symbol| symbol_key(g) == symbol_key(f) implies g == f by {
        assert(symbol_key(g)[0] == g.0 && symbol_key(f)[0] == f.0);
    }
    assert(symbol_map(t.insert(symbol_key(f), v)) =~= symbol_map(t).insert(f, v));
}

impl<'a> View for Homomorphism<'a> {
    type V = HomModel;

    closed spec fn view(&self) -> HomModel {
        HomModel {
            arities: symbol_map(self.arities@),
            ids: symbol_map(self.symbol_to_term@),
            terms: image_terms(*self.arena, self.terms@),
            labels: label_lists(self.labels@),
        }
    }
}

impl<'a> Homomorphism<'a> {
    #[verifier::type_invariant]
    pub closed spec fn wf(&self) -> bool {
        &&& arena::children_first(arena::hom_nodes(*self.arena))
        &&& forall|k: int|
            0 <= k < self.terms@.len() ==> arena::tree_number(#[trigger] self.terms@[k])
                < arena::hom_nodes(*self.arena).len()
        &&& self@.well_formed()
        &&& dedup_ok(self@.terms, self.term_dedup@)
        &&& self.root_index.wf()
        &&& root_index_ok(self@.terms, self.root_index)
    }

    pub proof fn lemma_well_formed(&self)
        requires
            self.wf(),
        ensures
            self@.well_formed(),
            arena::children_first(arena::hom_nodes(self.term_arena())),
    {
    }

    /// The arena that owns the images.
    pub closed spec fn term_arena(&self) -> TreeArena<HomLabel> {
        *self.arena
    }

    /// An empty homomorphism whose right-hand sides live in `arena`.
    pub fn new(arena: &'a TreeArena<HomLabel>) -> (h: Self)
        requires
            arena::children_first(arena::hom_nodes(*arena)),
        ensures
            h.term_arena() == *arena,
            h@.ids == Map::<Symbol, usize>::empty(),
            h@.arities == Map::<Symbol, usize>::empty(),
            h@.terms == Seq::<Term>::empty(),
            h@.labels == Seq::<Seq<Symbol>>::empty(),
    {
        let terms: Vec<HomTerm> = Vec::new();
        let labels: Vec<Vec<Symbol>> = Vec::new();
        let symbol_to_term = KeyTable::new();
        let arities = KeyTable::new();
        proof {
            assert(symbol_map(symbol_to_term@) =~= Map::<Symbol, usize>::empty());
            assert(symbol_map(arities@) =~= Map::<Symbol, usize>::empty());
            assert(image_terms(*arena, terms@) =~= Seq::<Term>::empty());
            assert(label_lists(labels@) =~= Seq::<Seq<Symbol>>::empty());
        }
        Homomorphism {
            arena,
            terms,
            labels,
            symbol_to_term,
            arities,
            term_dedup: KeyTable::new(),
            root_index: KeyIndex::new(),
        }
    }

    /// The arena that owns all registered images.
    pub fn arena(&self) -> (a: &'a TreeArena<HomLabel>)
        ensures
            *a == self.term_arena(),
    {
        self.arena
    }

    /// The number of the image of `src`, or `None` if `src` is unmapped.
    pub fn term_id(&self, src: Symbol) -> (r: Option<usize>)
        ensures
            r == (if self@.maps(src) {
                Some(self@.ids[src])
            } else {
                None
            }),
            r matches Some(t) ==> t < self@.terms.len(),
    {
        proof {
            use_type_invariant(self);
        }
        let key = key_of(src);
        let r = self.symbol_to_term.get(key.as_slice());
        assert(self@.maps(src) <==> r is Some);
        r
    }

    /// The source arity of `src`, or `None` if `src` is unmapped.
    pub fn source_arity(&self, src: Symbol) -> (r: Option<usize>)
        ensures
            r == (if self@.maps(src) {
                Some(self@.arities[src])
            } else {
                None
            }),
    {
        proof {
            use_type_invariant(self);
        }
        let key = key_of(src);
        let r = self.arities.get(key.as_slice());
        assert(self@.arities.dom().contains(src) <==> r is Some);
        r
    }

    /// The image of `src`, or `None` if `src` is unmapped.
    pub fn get(&self, src: Symbol) -> (r: Option<HomTerm>)
        ensures
            match r {
                Some(t) => self@.maps(src) && arena::tree_number(t) < arena::hom_nodes(
                    self.term_arena(),
                ).len() && terms::term_at(
                    arena::hom_nodes(self.term_arena()),
                    arena::tree_number(t),
                ) == self@.image(src),
                None => !self@.maps(src),
            },
    {
        match self.term_id(src) {
            Some(tid) => Some(self.term_by_id(tid)),
            None => None,
        }
    }

    /// The root of image number `term_id`.
    pub fn term_by_id(&self, term_id: usize) -> (t: HomTerm)
        requires
            term_id < self@.terms.len(),
        ensures
            arena::tree_number(t) < arena::hom_nodes(self.term_arena()).len(),
            terms::term_at(arena::hom_nodes(self.term_arena()), arena::tree_number(t))
                == self@.terms[term_id as int],
    {
        proof {
            use_type_invariant(self);
        }
        self.terms[term_id]
    }

    /// The source symbols whose image has the given number, in order of
    /// registration.
    pub fn label_set(&self, term_id: usize) -> (s: &[Symbol])
        requires
            term_id < self@.terms.len(),
        ensures
            s@ == self@.labels[term_id as int],
    {
        proof {
            use_type_invariant(self);
        }
        self.labels[term_id].as_slice()
    }

    /// The number of structurally distinct images.
    pub fn num_terms(&self) -> (n: usize)
        ensures
            n == self@.terms.len(),
    {
        self.terms.len()
    }

    /// The numbers of the images with root symbol `sym`, in increasing order.
    pub fn terms_with_root(&self, sym: Symbol) -> (s: &[usize])
        ensures
            s@ == images_with_root(self@.terms, sym),
    {
        proof {
            use_type_invariant(self);
        }
        let key = key_of(sym);
        self.root_index.get(key.as_slice())
    }

    /// Registers `src` with arity `src_arity` and image `rhs`.
    ///
    /// Registering a symbol again is accepted only with the same arity and the same
    /// image.
    pub fn add(&mut self, src: Symbol, src_arity: usize, rhs: HomTerm) -> (r: Result<
        (),
        HomomorphismError,
    >)
        requires
            arena::tree_number(rhs) < arena::hom_nodes(old(self).term_arena()).len(),
        ensures
            final(self).term_arena() == old(self).term_arena(),
            add_result(
                old(self)@,
                src,
                src_arity,
                terms::term_at(
                    arena::hom_nodes(old(self).term_arena()),
                    arena::tree_number(rhs),
                ),
                r,
                final(self)@,
            ),
    {
        proof {
            use_type_invariant(&*self);
        }
        let ghost before = self@;
        let ghost nodes = arena::hom_nodes(*self.arena);
        let ghost image = terms::term_at(nodes, arena::tree_number(rhs));
        if let Some(first) = self.source_arity(src) {
            if first != src_arity {
                return Err(
                    HomomorphismError::ArityMismatch { symbol: src, first, second: src_arity },
                );
            }
        }
        let mut vars: Vec<usize> = Vec::new();
        collect_vars(self.arena, rhs, &mut vars);
        assert(vars@ =~= terms::term_vars(image));
        match check_variables(src, src_arity, &vars) {
            Ok(()) => {},
            Err(e) => {
                proof {
                    lemma_validation_exclusive(src, src_arity, vars@, e);
                }
                return Err(e);
            },
        }
        let mut word: Vec<u32> = Vec::new();
        write_term_word(self.arena, rhs, &mut word);
        assert(word@ =~= terms::term_word(image));
        let ghost image_word = word@;
        if let Some(old_id) = self.term_id(src) {
            let same = match self.term_dedup.get(word.as_slice()) {
                Some(tid) => tid == old_id,
                None => false,
            };
            proof {
                let t = before.ids[src] as int;
                if same {
                    terms::lemma_term_word_injective(before.terms[t], image);
                } else if before.terms[t] == image {
                    assert(self.term_dedup@.dom().contains(terms::term_word(before.terms[t])));
                }
            }
            if !same {
                return Err(HomomorphismError::ConflictingSourceTerm { symbol: src });
            }
            return Ok(());
        }
        let found = self.term_dedup.get(word.as_slice());
        match found {
            Some(tid) => {
                proof {
                    terms::lemma_term_word_injective(before.terms[tid as int], image);
                    assert(before.terms.contains(image));
                    let k = before.terms.index_of(image);
                    assert(before.terms[k] == image);
                    if k < tid {
                        assert(before.terms[k] != before.terms[tid as int]);
                    } else if tid < k {
                        assert(before.terms[tid as int] != before.terms[k]);
                    }
                }
                let mut current = Homomorphism::new(self.arena);
                std::mem::swap(self, &mut current);
                *self = current.registered(src, src_arity, tid, Ghost(image));
            },
            None => {
                proof {
                    if before.terms.contains(image) {
                        let k = choose|k: int|
                            0 <= k < before.terms.len() && before.terms[k] == image;
                        assert(self.term_dedup@.dom().contains(terms::term_word(before.terms[k])));
                    }
                }
                let mut current = Homomorphism::new(self.arena);
                std::mem::swap(self, &mut current);
                *self = current.registered_new(src, src_arity, rhs, word, Ghost(image));
            },
        }
        Ok(())
    }
}

/// A failed validation means that the variables do not fit the arity.
proof fn lemma_validation_exclusive(
    symbol: Symbol,
    arity: usize,
    vars: Seq<usize>,
    e: HomomorphismError,
)
    requires
        validation(symbol, arity, vars, Err(e)),
    ensures
        !nondeleting(vars, arity),
{
    if exists|j: int| #[trigger] first_fault(vars, arity, j) {
        let j = choose|j: int| #[trigger] first_fault(vars, arity, j);
        assert(faulty(vars, arity, j));
    } else {
        let v = choose|v: usize| #[trigger] first_missing(vars, arity, v);
        assert(!vars.contains(v));
    }
}

/// The new model is consistent when the old one was.
proof fn lemma_with_well_formed(m: HomModel, f: Symbol, arity: usize, image: Term)
    requires
        m.well_formed(),
        !m.maps(f),
        nondeleting(terms::term_vars(image), arity),
        m.terms.len() <= usize::MAX,
    ensures
        m.with(f, arity, image).well_formed(),
{
    let n = m.with(f, arity, image);
    assert(n.arities.dom() =~= n.ids.dom());
    if m.terms.contains(image) {
        let t = m.terms.index_of(image);
        assert(0 <= t < m.terms.len() && m.terms[t] == image);
        assert forall|g: Symbol| #[trigger] n.maps(g) implies n.ids[g] < n.terms.len()
            && nondeleting(terms::term_vars(n.image(g)), n.arities[g]) by {
            if g != f {
                assert(m.maps(g));
            }
        }
        assert forall|k: int, g: Symbol| 0 <= k < n.terms.len() implies (
        #[trigger] n.labels[k].contains(g) <==> (n.maps(g) && n.ids[g] == k)) by {
            assert(m.labels[k].contains(g) <==> (m.maps(g) && m.ids[g] == k));
            if k == t {
                symbol_set::lemma_push_contains(m.labels[k], f, g);
            }
        }
        assert forall|k: int| 0 <= k < n.labels.len() implies (
        #[trigger] n.labels[k]).no_duplicates() by {
            assert(m.labels[k].no_duplicates());
            if k == t {
                assert(!m.labels[k].contains(f));
                lemma_push_distinct(m.labels[k], f);
            }
        }
    } else {
        assert forall|g: Symbol| #[trigger] n.maps(g) implies n.ids[g] < n.terms.len()
            && nondeleting(terms::term_vars(n.image(g)), n.arities[g]) by {
            if g != f {
                assert(m.maps(g));
                assert(n.image(g) == m.image(g));
            }
        }
        assert forall|i: int, j: int| 0 <= i < j < n.terms.len() implies #[trigger] n.terms[i]
            != #[trigger] n.terms[j] by {
            if j == m.terms.len() {
                assert(m.terms.contains(m.terms[i]));
            }
        }
        assert forall|k: int, g: Symbol| 0 <= k < n.terms.len() implies (
        #[trigger] n.labels[k].contains(g) <==> (n.maps(g) && n.ids[g] == k)) by {
            if k < m.terms.len() {
                assert(m.labels[k].contains(g) <==> (m.maps(g) && m.ids[g] == k));
            } else {
                assert(n.labels[k] == seq![f]);
                assert(seq![f][0] == f);
                if g != f && m.maps(g) {
                    assert(m.ids[g] < m.terms.len());
                }
            }
        }
        assert forall|k: int| 0 <= k < n.labels.len() implies (
        #[trigger] n.labels[k]).no_duplicates() && n.labels[k].len() > 0 by {
            if k < m.labels.len() {
                assert(m.labels[k].no_duplicates() && m.labels[k].len() > 0);
            }
        }
    }
}

proof fn lemma_push_distinct<T>(s: Seq<T>, x: T)
    requires
        s.no_duplicates(),
        !s.contains(x),
    ensures
        s.push(x).no_duplicates(),
{
    let t = s.push(x);
    assert forall|i: int, j: int| 0 <= i < t.len() && 0 <= j < t.len() && i != j implies t[i]
        != t[j] by {
        if i == s.len() {
            assert(s.contains(s[j]));
        } else if j == s.len() {
            assert(s.contains(s[i]));
        }
    }
}

impl<'a> Homomorphism<'a> {
    /// Registers a symbol whose image is known under number `tid`.
    fn registered(
        self,
        src: Symbol,
        src_arity: usize,
        tid: usize,
        Ghost(image): Ghost<Term>,
    ) -> (h: Self)
        requires
            !self@.maps(src),
            tid < self@.terms.len(),
            self@.terms[tid as int] == image,
            self@.terms.index_of(image) == tid,
            nondeleting(terms::term_vars(image), src_arity),
        ensures
            h.term_arena() == self.term_arena(),
            h@ == self@.with(src, src_arity, image),
    {
        proof {
            use_type_invariant(&self);
        }
        let ghost before = self@;
        let Homomorphism {
            arena,
            terms,
            mut labels,
            mut symbol_to_term,
            mut arities,
            term_dedup,
            root_index,
        } = self;
        let ghost old_labels = labels@;
        let ghost table = symbol_to_term@;
        let ghost arity_table = arities@;
        assert(terms.len() <= usize::MAX);
        labels[tid].push(src);
        symbol_to_term.insert(key_of(src), tid);
        arities.insert(key_of(src), src_arity);
        proof {
            assert(before.terms.contains(image));
            lemma_symbol_map_insert(table, src, tid);
            lemma_symbol_map_insert(arity_table, src, src_arity);
            assert(label_lists(labels@) =~= label_lists(old_labels).update(
                tid as int,
                label_lists(old_labels)[tid as int].push(src),
            ));
            lemma_with_well_formed(before, src, src_arity, image);
        }
        Homomorphism { arena, terms, labels, symbol_to_term, arities, term_dedup, root_index }
    }

    /// Registers a symbol whose image is new.
    fn registered_new(
        self,
        src: Symbol,
        src_arity: usize,
        rhs: HomTerm,
        word: Vec<u32>,
        Ghost(image): Ghost<Term>,
    ) -> (h: Self)
        requires
            !self@.maps(src),
            !self@.terms.contains(image),
            arena::tree_number(rhs) < arena::hom_nodes(self.term_arena()).len(),
            image == terms::term_at(
                arena::hom_nodes(self.term_arena()),
                arena::tree_number(rhs),
            ),
            word@ == terms::term_word(image),
            nondeleting(terms::term_vars(image), src_arity),
        ensures
            h.term_arena() == self.term_arena(),
            h@ == self@.with(src, src_arity, image),
    {
        proof {
            use_type_invariant(&self);
        }
        let ghost before = self@;
        let Homomorphism {
            arena,
            mut terms,
            mut labels,
            mut symbol_to_term,
            mut arities,
            mut term_dedup,
            mut root_index,
        } = self;
        let ghost nodes = arena::hom_nodes(*arena);
        let ghost old_terms = terms@;
        let ghost old_labels = labels@;
        let ghost table = symbol_to_term@;
        let ghost arity_table = arities@;
        let ghost dedup_table = term_dedup@;
        let ghost old_index = root_index;
        let tid: usize = terms.len();
        proof {
            terms::lemma_term_args(nodes, arena::tree_number(rhs));
        }
        if let HomLabel::Symbol(symbol) = hom_label(arena, rhs) {
            root_index.push(key_of(symbol), tid);
        }
        term_dedup.insert(word, tid);
        terms.push(rhs);
        labels.push(vec![src]);
        symbol_to_term.insert(key_of(src), tid);
        arities.insert(key_of(src), src_arity);
        proof {
            let now = image_terms(*arena, terms@);
            assert(now =~= before.terms.push(image));
            assert(labels@.last()@ =~= seq![src]);
            assert(label_lists(labels@) =~= label_lists(old_labels).push(seq![src]));
            lemma_symbol_map_insert(table, src, tid);
            lemma_symbol_map_insert(arity_table, src, src_arity);
            assert(now.drop_last() =~= before.terms);
            assert forall|f: Symbol| root_index.at(#[trigger] symbol_key(f)) == images_with_root(
                now,
                f,
            ) by {
                assert(old_index.at(symbol_key(f)) == images_with_root(before.terms, f));
                if let HomLabel::Symbol(g) = nodes[arena::tree_number(rhs) as int].0 {
                    if symbol_key(f) == symbol_key(g) {
                        assert(symbol_key(f)[0] == f.0 && symbol_key(g)[0] == g.0);
                    }
                }
            }
            assert forall|k: int| 0 <= k < now.len() implies term_dedup@.dom().contains(
                terms::term_word(#[trigger] now[k]),
            ) && term_dedup@[terms::term_word(now[k])] == k by {
                if k < before.terms.len() {
                    assert(before.terms.contains(before.terms[k]));
                    if terms::term_word(before.terms[k]) == terms::term_word(image) {
                        terms::lemma_term_word_injective(before.terms[k], image);
                    }
                    assert(dedup_table.dom().contains(terms::term_word(before.terms[k])));
                }
            }
            assert forall|w: Seq<u32>| #[trigger] term_dedup@.dom().contains(w) implies term_dedup@[w]
                < now.len() && terms::term_word(now[term_dedup@[w] as int]) == w by {
                if w != terms::term_word(image) {
                    assert(dedup_table.dom().contains(w));
                }
            }
            lemma_with_well_formed(before, src, src_arity, image);
        }
        Homomorphism { arena, terms, labels, symbol_to_term, arities, term_dedup, root_index }
    }
}

} // verus!
