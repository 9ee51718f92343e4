//! From the text of a tree-adjoining grammar to the grammar itself.
use crate::alto_ast::IrtgAst;
use crate::arena;
use crate::arena::{tag_children, tag_label};
use crate::codecs::tulipac::compile;
use crate::codecs::tulipac::compile::{
    compile as compile_declarations, parse_declarations, TulipacError, TulipacFault,
};
use crate::codecs::tulipac::images;
use crate::codecs::tulipac::includes::TulipacInputCodec;
use crate::codecs::tulipac::lexicon;
use crate::codecs::tulipac::lexicon::{collect_lexicon, find_tree, EntryModel, LexiconFault};
use crate::codecs::tulipac::syntax;
use crate::codecs::tulipac::syntax::{DeclModel, Declarations, NodeType, TagNode};
use crate::irtg::assemble;
use crate::irtg::assemble::{build_irtg, Irtg, IrtgError};
use crate::irtg::draft;
use crate::irtg::size::can_number;
use crate::label_tree;
use crate::text::is_text;
use packed_term_arena::tree::{Tree, TreeArena};
use vstd::prelude::*;

verus! {

/// Why no grammar is made of a text.
#[derive(Debug)]
pub enum TulipacReadError {
    Tulipac(TulipacError),
    /// A head is the word `@`, which would read as a substitution.
    Ambiguous,
    /// The grammar has more parts than can be numbered.
    TooLarge,
    Irtg(IrtgError),
}

/// Whether some node below is a head.
fn find_head(nodes: &TreeArena<TagNode>, node: Tree) -> (b: bool)
    requires
        arena::children_first(syntax::arena_models(*nodes)),
        arena::tree_number(node) < syntax::arena_models(*nodes).len(),
    ensures
        b == images::has_head(
            label_tree::tree_at(syntax::arena_models(*nodes), arena::tree_number(node)),
        ),
    decreases arena::tree_number(node),
{
    let ghost models = syntax::arena_models(*nodes);
    let ghost number = arena::tree_number(node);
    let ghost tree = label_tree::tree_at(models, number);
    proof {
        label_tree::lemma_tree_children(models, number);
    }
    let data = tag_label(nodes, node);
    assert(data@ == tree.label);
    if let NodeType::Head = data.node_type {
        return true;
    }
    let parts = tag_children(nodes, node);
    let ghost numbers = models[number as int].1;
    let mut c: usize = 0;
    while c < parts.len()
        invariant
            c <= parts@.len(),
            models == syntax::arena_models(*nodes),
            arena::children_first(models),
            number == arena::tree_number(node),
            number < models.len(),
            numbers == models[number as int].1,
            arena::tree_numbers(parts@) == numbers,
            tree == label_tree::tree_at(models, number),
            tree.children == label_tree::trees_at(models, numbers),
            forall|d: int| 0 <= d < numbers.len() ==> #[trigger] numbers[d] < number,
            forall|d: int| 0 <= d < c ==> !images::has_head(#[trigger] tree.children[d]),
        decreases parts@.len() - c,
    {
        assert(arena::tree_numbers(parts@)[c as int] == arena::tree_number(parts@[c as int]));
        assert(numbers[c as int] < number);
        if find_head(nodes, parts[c]) {
            assert(images::has_head(tree.children[c as int]));
            return true;
        }
        assert(!images::has_head(tree.children[c as int]));
        c += 1;
    }
    false
}

/// Whether no head is the word `@`, which would read as a substitution.
pub fn is_unambiguous(d: &Declarations) -> (b: bool)
    requires
        d.wf(),
    ensures
        b == compile::unambiguous(d@),
{
    let ghost model = d@;
    let entries = match collect_lexicon(d) {
        Ok(entries) => entries,
        Err(_) => {
            return true;
        },
    };
    let ghost list = lexicon::entry_views(entries@);
    proof {
        assert(lexicon::lexicon_of(model) == Ok::<Seq<EntryModel>, LexiconFault>(list));
        lexicon::lemma_entries_known(model);
        let known = lexicon::lexicon_of(model)->Ok_0;
        assert(known == list);
        assert forall|k: int| 0 <= k < list.len() implies lexicon::knows_tree(
            model,
            (#[trigger] list[k]).tree,
        ) by {
            assert(lexicon::knows_tree(model, known[k].tree));
        }
    }
    let mut i: usize = 0;
    while i < entries.len()
        invariant
            i <= entries@.len(),
            d.wf(),
            model == d@,
            list == lexicon::entry_views(entries@),
            lexicon::lexicon_of(model) == Ok::<Seq<EntryModel>, LexiconFault>(list),
            forall|k: int|
                0 <= k < list.len() ==> lexicon::knows_tree(model, (#[trigger] list[k]).tree),
            forall|k: int|
                0 <= k < i ==> ((#[trigger] list[k]).word == "@"@ ==> !images::has_head(
                    compile::tree_of(model, list[k].tree),
                )),
        decreases entries@.len() - i,
    {
        let e = &entries[i];
        proof {
            assert(list[i as int] == e@);
            assert(lexicon::knows_tree(model, list[i as int].tree));
        }
        let found = find_tree(&d.trees, &e.tree);
        assert(found is Some);
        if let Some(k) = found {
            let tree = &d.trees[k].tree;
            proof {
                assert(model.trees[k as int] == d.trees@[k as int]@);
                assert(tree@ == compile::tree_of(model, e.tree@));
                assert(d.trees@[k as int].tree.wf());
            }
            if is_text(&e.word, "@") && find_head(&tree.arena, tree.root) {
                proof {
                    let known = lexicon::lexicon_of(model)->Ok_0;
                    assert(known[i as int].word == "@"@ && images::has_head(
                        compile::tree_of(model, known[i as int].tree),
                    ));
                }
                return false;
            }
        }
        i += 1;
    }
    true
}

/// What is made of the rules of a grammar.
pub open spec fn rules_outcome(g: IrtgAst, r: Result<Irtg, TulipacReadError>) -> bool {
    if draft::rules_size(g.rules) >= u32::MAX {
        r matches Err(TulipacReadError::TooLarge)
    } else {
        match r {
            Ok(i) => assemble::build_outcome(g, Ok(i)),
            Err(TulipacReadError::Irtg(e)) => assemble::build_outcome(g, Err(e)),
            Err(_) => false,
        }
    }
}

/// What is made of declarations.
pub open spec fn declarations_outcome(d: DeclModel, r: Result<Irtg, TulipacReadError>) -> bool {
    if !compile::unambiguous(d) {
        r matches Err(TulipacReadError::Ambiguous)
    } else {
        match compile::compiled(d) {
            Ok(g) => rules_outcome(g, r),
            Err(f) => r matches Err(TulipacReadError::Tulipac(e)) && e@ == TulipacFault::Compile(f),
        }
    }
}

/// What is made of a text.
pub open spec fn text_outcome(input: Seq<char>, r: Result<Irtg, TulipacReadError>) -> bool {
    match compile::parsed(input) {
        Ok(d) => if d.includes.len() > 0 {
            r matches Err(TulipacReadError::Tulipac(e)) && e@ == TulipacFault::Includes(
                d.includes[0],
            )
        } else {
            declarations_outcome(d, r)
        },
        Err(f) => r matches Err(TulipacReadError::Tulipac(e)) && e@ == f,
    }
}

/// Makes a grammar of declarations.
pub fn build_declarations(d: &Declarations) -> (r: Result<Irtg, TulipacReadError>)
    requires
        d.wf(),
    ensures
        declarations_outcome(d@, r),
{
    if !is_unambiguous(d) {
        return Err(TulipacReadError::Ambiguous);
    }
    let ast = match compile_declarations(d) {
        Ok(ast) => ast,
        Err(e) => {
            return Err(TulipacReadError::Tulipac(TulipacError::Compile(e)));
        },
    };
    if !can_number(&ast) {
        return Err(TulipacReadError::TooLarge);
    }
    match build_irtg(&ast) {
        Ok(g) => Ok(g),
        Err(e) => Err(TulipacReadError::Irtg(e)),
    }
}

impl TulipacInputCodec {
    /// Reads a grammar from a text that includes no file.
    pub fn decode(&self, input: &str) -> (r: Result<Irtg, TulipacReadError>)
        ensures
            text_outcome(input@, r),
    {
        let d = match parse_declarations(input) {
            Ok(d) => d,
            Err(e) => {
                return Err(TulipacReadError::Tulipac(e));
            },
        };
        if d.includes.len() > 0 {
            assert(d@.includes[0] == d.includes@[0]@);
            return Err(TulipacReadError::Tulipac(TulipacError::Includes(d.includes[0].clone())));
        }
        build_declarations(&d)
    }
}

} // verus!
