//! The symbols, sentences and homomorphisms of generated workloads.
use super::workload;
use super::workload::{word_symbol, BIN_BASE, CONCAT, LEX_BASE, WORD_BASE};
use crate::arena;
use crate::arena::{hom_add, hom_arena};
use crate::homomorphism;
use crate::homomorphism::{HomLabel, Homomorphism, HomomorphismError};
use crate::ids::Symbol;
use crate::irtg::grammar;
use crate::terms;
use crate::terms::Term;
use packed_term_arena::tree::{Tree, TreeArena};
use vstd::prelude::*;

verus! {

/// The symbols of the first `vocab` words.
pub fn words(vocab: usize) -> (r: Vec<Symbol>)
    requires
        vocab <= u32::MAX - WORD_BASE,
    ensures
        r@ == Seq::new(vocab as nat, |w: int| workload::word_of(w)),
        r@.no_duplicates(),
{
    let mut r: Vec<Symbol> = Vec::new();
    let mut w: usize = 0;
    while w < vocab
        invariant
            w <= vocab <= u32::MAX - WORD_BASE,
            r@ == Seq::new(w as nat, |w: int| workload::word_of(w)),
        decreases vocab - w,
    {
        r.push(word_symbol(w));
        w += 1;
        assert(r@ =~= Seq::new(w as nat, |w: int| workload::word_of(w)));
    }
    r
}

/// The symbols of a sentence of `len` words that repeats the first `vocab` words.
pub fn sentence_symbols(len: usize, vocab: usize) -> (r: Vec<Symbol>)
    requires
        0 < vocab <= u32::MAX - WORD_BASE,
    ensures
        r@ == Seq::new(len as nat, |i: int| workload::word_of(i % (vocab as int))),
{
    let mut r: Vec<Symbol> = Vec::new();
    let mut i: usize = 0;
    while i < len
        invariant
            i <= len,
            0 < vocab <= u32::MAX - WORD_BASE,
            r@ == Seq::new(i as nat, |i: int| workload::word_of(i % (vocab as int))),
        decreases len - i,
    {
        r.push(word_symbol(i % vocab));
        i += 1;
        assert(r@ =~= Seq::new(i as nat, |i: int| workload::word_of(i % (vocab as int))));
    }
    r
}

/// The lexical symbols: `lexical_labels` for each word.
pub fn lexical_symbols(vocab: usize, lexical_labels: usize) -> (r: Vec<Symbol>)
    requires
        vocab * lexical_labels <= u32::MAX - LEX_BASE,
    ensures
        r@ == Seq::new(
            (vocab * lexical_labels) as nat,
            |i: int| Symbol((LEX_BASE + i) as u32),
        ),
        r@.no_duplicates(),
{
    proof {
        assert(vocab * lexical_labels >= 0) by (nonlinear_arith);
    }
    let count: usize = vocab * lexical_labels;
    let mut r: Vec<Symbol> = Vec::new();
    let mut i: usize = 0;
    while i < count
        invariant
            i <= count <= u32::MAX - LEX_BASE,
            r@ == Seq::new(i as nat, |i: int| Symbol((LEX_BASE + i) as u32)),
        decreases count - i,
    {
        r.push(Symbol(LEX_BASE + i as u32));
        i += 1;
        assert(r@ =~= Seq::new(i as nat, |i: int| Symbol((LEX_BASE + i) as u32)));
    }
    r
}

/// The binary symbols, each with its shift.
pub fn binary_symbols(binary_labels: usize) -> (r: Vec<(Symbol, usize)>)
    requires
        binary_labels <= u32::MAX - BIN_BASE,
        binary_labels * 13 <= usize::MAX,
    ensures
        r@ == Seq::new(
            binary_labels as nat,
            |op: int| (Symbol((BIN_BASE + op) as u32), (op * 13) as usize),
        ),
        workload::distinct_symbols(Seq::empty(), r@),
{
    let mut r: Vec<(Symbol, usize)> = Vec::new();
    let mut op: usize = 0;
    while op < binary_labels
        invariant
            op <= binary_labels <= u32::MAX - BIN_BASE,
            binary_labels * 13 <= usize::MAX,
            r@ == Seq::new(
                op as nat,
                |op: int| (Symbol((BIN_BASE + op) as u32), (op * 13) as usize),
            ),
        decreases binary_labels - op,
    {
        r.push((Symbol(BIN_BASE + op as u32), op * 13));
        op += 1;
        assert(r@ =~= Seq::new(
            op as nat,
            |op: int| (Symbol((BIN_BASE + op) as u32), (op * 13) as usize),
        ));
    }
    r
}

/// The terms that words and concatenation are mapped to.
pub struct StringTerms {
    pub arena: TreeArena<HomLabel>,
    pub words: Vec<Tree>,
    pub concat: Tree,
}

/// The nodes of the first `n` words.
pub open spec fn word_nodes(n: nat) -> Seq<(HomLabel, Seq<nat>)> {
    Seq::new(n, |w: int| (HomLabel::Symbol(workload::word_of(w)), Seq::<nat>::empty()))
}

/// The nodes of the words, of two variables and of their concatenation.
pub open spec fn string_nodes(vocab: nat) -> Seq<(HomLabel, Seq<nat>)> {
    word_nodes(vocab) + seq![
        (HomLabel::Var(0), Seq::<nat>::empty()),
        (HomLabel::Var(1), Seq::<nat>::empty()),
        (HomLabel::Symbol(Symbol(CONCAT)), seq![vocab, vocab + 1]),
    ]
}

/// Builds the terms that words and concatenation are mapped to.
pub fn string_terms(vocab: usize) -> (r: StringTerms)
    requires
        vocab <= u32::MAX - WORD_BASE,
    ensures
        arena::hom_nodes(r.arena) == string_nodes(vocab as nat),
        arena::children_first(arena::hom_nodes(r.arena)),
        arena::tree_numbers(r.words@) == Seq::new(vocab as nat, |w: int| w as nat),
        arena::tree_number(r.concat) == vocab + 2,
{
    let mut arena = hom_arena();
    let mut words: Vec<Tree> = Vec::new();
    let mut w: usize = 0;
    proof {
        assert(arena::hom_nodes(arena) =~= word_nodes(0));
    }
    while w < vocab
        invariant
            w <= vocab <= u32::MAX - WORD_BASE,
            arena::hom_nodes(arena) == word_nodes(w as nat),
            arena::tree_numbers(words@) == Seq::new(w as nat, |w: int| w as nat),
            words@.len() == w,
        decreases vocab - w,
    {
        let none: Vec<Tree> = Vec::new();
        let ghost before = arena::tree_numbers(words@);
        let t = hom_add(&mut arena, HomLabel::Symbol(word_symbol(w)), none);
        words.push(t);
        w += 1;
        proof {
            assert(arena::tree_numbers(none@) =~= Seq::empty());
            assert(arena::hom_nodes(arena) =~= word_nodes(w as nat));
            assert(arena::tree_numbers(words@) =~= before.push(arena::tree_number(t)));
            assert(before.push(arena::tree_number(t)) =~= Seq::new(w as nat, |w: int| w as nat));
        }
    }
    let first: Vec<Tree> = Vec::new();
    let second: Vec<Tree> = Vec::new();
    proof {
        assert(arena::tree_numbers(first@) =~= Seq::empty());
        assert(arena::tree_numbers(second@) =~= Seq::empty());
    }
    let v0 = hom_add(&mut arena, HomLabel::Var(0), first);
    let v1 = hom_add(&mut arena, HomLabel::Var(1), second);
    let pair: Vec<Tree> = vec![v0, v1];
    proof {
        assert(arena::tree_numbers(pair@) =~= seq![vocab as nat, (vocab + 1) as nat]);
    }
    let concat = hom_add(&mut arena, HomLabel::Symbol(Symbol(CONCAT)), pair);
    proof {
        assert(arena::hom_nodes(arena) =~= string_nodes(vocab as nat));
    }
    StringTerms { arena, words, concat }
}

/// The images of the lexical and the binary symbols.
pub open spec fn string_images(
    words: Seq<Term>,
    concat: Term,
    lexical_labels: int,
    binary_labels: nat,
) -> Seq<(Symbol, usize, Term)> {
    Seq::new(
        (words.len() * lexical_labels) as nat,
        |i: int| (Symbol((LEX_BASE + i) as u32), 0usize, words[i / lexical_labels]),
    ) + Seq::new(
        binary_labels,
        |op: int| (Symbol((BIN_BASE + op) as u32), 2usize, concat),
    )
}

/// The terms that handles name.
pub open spec fn terms_of(a: TreeArena<HomLabel>, trees: Seq<Tree>) -> Seq<Term> {
    Seq::new(
        trees.len(),
        |i: int| terms::term_at(arena::hom_nodes(a), arena::tree_number(trees[i])),
    )
}

/// Whether image `k` is the first that is refused, with an error.
pub open spec fn refused_at(
    images: Seq<(Symbol, usize, Term)>,
    k: int,
    e: HomomorphismError,
) -> bool {
    0 <= k < images.len() && exists|m: homomorphism::HomModel|
        grammar::registered(images.take(k), m) && #[trigger] homomorphism::add_result(
            m,
            images[k].0,
            images[k].1,
            images[k].2,
            Err(e),
            m,
        )
}

/// Whether some image is refused with an error.
pub open spec fn is_refused(images: Seq<(Symbol, usize, Term)>, e: HomomorphismError) -> bool {
    exists|k: int| #[trigger] refused_at(images, k, e)
}

/// Maps every lexical symbol to its word and every binary symbol to concatenation.
pub fn string_homomorphism<'a>(
    terms: &'a StringTerms,
    lexical_labels: usize,
    binary_labels: usize,
) -> (r: Result<Homomorphism<'a>, HomomorphismError>)
    requires
        arena::children_first(arena::hom_nodes(terms.arena)),
        forall|i: int|
            0 <= i < terms.words@.len() ==> arena::tree_number(#[trigger] terms.words@[i])
                < arena::hom_nodes(terms.arena).len(),
        arena::tree_number(terms.concat) < arena::hom_nodes(terms.arena).len(),
        0 < lexical_labels,
        terms.words@.len() * lexical_labels <= u32::MAX - LEX_BASE,
        binary_labels <= u32::MAX - BIN_BASE,
    ensures
        ({
            let images = string_images(
                terms_of(terms.arena, terms.words@),
                terms::term_at(arena::hom_nodes(terms.arena), arena::tree_number(terms.concat)),
                lexical_labels as int,
                binary_labels as nat,
            );
            match r {
                Ok(h) => h.term_arena() == terms.arena && grammar::registered(images, h@),
                Err(e) => is_refused(images, e),
            }
        }),
{
    let ghost nodes = arena::hom_nodes(terms.arena);
    let ghost images = string_images(
        terms_of(terms.arena, terms.words@),
        terms::term_at(nodes, arena::tree_number(terms.concat)),
        lexical_labels as int,
        binary_labels as nat,
    );
    let word_count: usize = terms.words.len();
    proof {
        assert(word_count * lexical_labels >= 0) by (nonlinear_arith);
    }
    let count: usize = word_count * lexical_labels;
    let mut hom = Homomorphism::new(&terms.arena);
    proof {
        assert(hom@ == grammar::empty_hom());
        assert(images.take(0) =~= Seq::empty());
    }
    let total: u64 = count as u64 + binary_labels as u64;
    let mut i: u64 = 0;
    while i < total
        invariant
            i <= total,
            total == count + binary_labels,
            count == word_count * lexical_labels,
            word_count == terms.words@.len(),
            count <= u32::MAX - LEX_BASE,
            binary_labels <= u32::MAX - BIN_BASE,
            0 < lexical_labels,
            nodes == arena::hom_nodes(terms.arena),
            forall|i: int|
                0 <= i < terms.words@.len() ==> arena::tree_number(#[trigger] terms.words@[i])
                    < nodes.len(),
            arena::tree_number(terms.concat) < nodes.len(),
            images == string_images(
                terms_of(terms.arena, terms.words@),
                terms::term_at(nodes, arena::tree_number(terms.concat)),
                lexical_labels as int,
                binary_labels as nat,
            ),
            images.len() == total,
            hom.term_arena() == terms.arena,
            grammar::registered(images.take(i as int), hom@),
        decreases total - i,
    {
        let ghost before = hom@;
        let added = if i < count as u64 {
            let word: usize = (i as usize) / lexical_labels;
            proof {
                assert(word < word_count) by (nonlinear_arith)
                    requires
                        word == i / (lexical_labels as u64),
                        i < word_count * lexical_labels,
                        0 < lexical_labels,
                ;
                assert(images[i as int] == (
                    Symbol((LEX_BASE + i) as u32),
                    0usize,
                    terms::term_at(nodes, arena::tree_number(terms.words@[word as int])),
                ));
            }
            hom.add(Symbol(LEX_BASE + i as u32), 0, terms.words[word])
        } else {
            let op: u64 = i - count as u64;
            proof {
                assert(images[i as int] == (
                    Symbol((BIN_BASE + op) as u32),
                    2usize,
                    terms::term_at(nodes, arena::tree_number(terms.concat)),
                ));
            }
            hom.add(Symbol(BIN_BASE + op as u32), 2, terms.concat)
        };
        match added {
            Ok(_) => {
                proof {
                    grammar::lemma_registered_push(
                        images.take(i as int),
                        before,
                        images[i as int],
                        hom@,
                    );
                    assert(images.take(i + 1) =~= images.take(i as int).push(images[i as int]));
                }
                i += 1;
            },
            Err(e) => {
                proof {
                    assert(hom@ == before);
                    assert(refused_at(images, i as int, e));
                }
                return Err(e);
            },
        }
    }
    proof {
        assert(images.take(total as int) =~= images);
    }
    Ok(hom)
}

} // verus!
