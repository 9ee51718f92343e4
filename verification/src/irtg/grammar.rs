//! Interpretations and the homomorphisms that their images make.
use super::draft;
use super::draft::{Image, ImageEntry, Slot};
use crate::arena;
use crate::homomorphism;
use crate::homomorphism::{HomLabel, HomModel, Homomorphism, HomomorphismError};
use crate::ids::Symbol;
use crate::signature::{NameList, Signature};
use crate::terms;
use crate::terms::Term;
use crate::text;
use packed_term_arena::tree::{Tree, TreeArena};
use vstd::prelude::*;

verus! {

/// What an interpretation can be used for.
#[derive(Clone, Copy, PartialEq, Eq, Structural, Debug)]
pub enum InterpretationKind {
    /// Strings, which can be parsed.
    String,
    /// TAG strings, which can be parsed.
    TagString,
    /// TAG derived trees, which can be parsed.
    TagTree,
    /// Binarized TAG derived trees, which can be parsed.
    BinarizedTagTree,
    /// Values that derivations have but that cannot be parsed.
    OutputOnly,
}

/// The kind of the interpretations with the given algebra.
pub open spec fn kind_of(class: Seq<char>) -> Option<InterpretationKind> {
    if class == "de.up.ling.irtg.algebra.StringAlgebra"@ {
        Some(InterpretationKind::String)
    } else if class == "de.up.ling.irtg.algebra.TagStringAlgebra"@ {
        Some(InterpretationKind::TagString)
    } else if class == "de.up.ling.irtg.algebra.TagTreeAlgebra"@ || class
        == "de.up.ling.irtg.algebra.TagTreeWithAritiesAlgebra"@ {
        Some(InterpretationKind::TagTree)
    } else if class == "de.up.ling.irtg.algebra.BinarizingTagTreeAlgebra"@ || class
        == "de.up.ling.irtg.algebra.BinarizingTagTreeWithAritiesAlgebra"@ {
        Some(InterpretationKind::BinarizedTagTree)
    } else if class == "de.up.ling.irtg.algebra.FeatureStructureAlgebra"@ || class
        == "de.up.ling.irtg.algebra.TreeWithAritiesAlgebra"@ || class
        == "de.up.ling.irtg.algebra.BinarizingTreeWithAritiesAlgebra"@ {
        Some(InterpretationKind::OutputOnly)
    } else {
        None
    }
}

/// The kind of the interpretations with the given algebra.
pub fn algebra_kind(class: &String) -> (k: Option<InterpretationKind>)
    ensures
        k == kind_of(class@),
{
    if text::is_text(class, "de.up.ling.irtg.algebra.StringAlgebra") {
        Some(InterpretationKind::String)
    } else if text::is_text(class, "de.up.ling.irtg.algebra.TagStringAlgebra") {
        Some(InterpretationKind::TagString)
    } else if text::is_text(class, "de.up.ling.irtg.algebra.TagTreeAlgebra")
        || text::is_text(class, "de.up.ling.irtg.algebra.TagTreeWithAritiesAlgebra") {
        Some(InterpretationKind::TagTree)
    } else if text::is_text(class, "de.up.ling.irtg.algebra.BinarizingTagTreeAlgebra")
        || text::is_text(class, "de.up.ling.irtg.algebra.BinarizingTagTreeWithAritiesAlgebra") {
        Some(InterpretationKind::BinarizedTagTree)
    } else if text::is_text(class, "de.up.ling.irtg.algebra.FeatureStructureAlgebra")
        || text::is_text(class, "de.up.ling.irtg.algebra.TreeWithAritiesAlgebra")
        || text::is_text(class, "de.up.ling.irtg.algebra.BinarizingTreeWithAritiesAlgebra") {
        Some(InterpretationKind::OutputOnly)
    } else {
        None
    }
}

/// A homomorphism without images.
pub open spec fn empty_hom() -> HomModel {
    HomModel {
        arities: Map::empty(),
        ids: Map::empty(),
        terms: Seq::empty(),
        labels: Seq::empty(),
    }
}

/// Whether the images, registered one after the other, make a homomorphism.
pub open spec fn has_homomorphism(list: Seq<(Symbol, usize, Term)>) -> bool {
    exists|m: HomModel| #[trigger] registered(list, m)
}

/// Whether a homomorphism is what registering the images one after the other makes.
pub open spec fn registered(list: Seq<(Symbol, usize, Term)>, m: HomModel) -> bool
    decreases list.len(),
{
    if list.len() == 0 {
        m == empty_hom()
    } else {
        exists|before: HomModel|
            registered(list.drop_last(), before) && #[trigger] homomorphism::add_result(
                before,
                list.last().0,
                list.last().1,
                list.last().2,
                Ok(()),
                m,
            )
    }
}

/// The images of one interpretation.
pub open spec fn slot_images(images: Seq<Image>, slot: nat) -> Seq<(Symbol, usize, Term)>
    decreases images.len(),
{
    if images.len() == 0 {
        Seq::empty()
    } else {
        let earlier = slot_images(images.drop_last(), slot);
        let last = images.last();
        if last.slot == slot {
            earlier.push((last.symbol, last.arity, last.term))
        } else {
            earlier
        }
    }
}

/// Whether the images of every interpretation make a homomorphism.
pub open spec fn registrable(images: Seq<Image>) -> bool {
    forall|slot: nat| #[trigger] slot_registrable(images, slot)
}

/// Whether the images of one interpretation make a homomorphism.
pub open spec fn slot_registrable(images: Seq<Image>, slot: nat) -> bool {
    exists|m: HomModel| registered(slot_images(images, slot), m)
}

/// Whether image `k` is the first that its interpretation's homomorphism refuses.
pub open spec fn bad_image(images: Seq<Image>, k: int, e: HomomorphismError) -> bool {
    &&& 0 <= k < images.len()
    &&& registrable(images.take(k))
    &&& exists|m: HomModel|
        registered(slot_images(images.take(k), images[k].slot), m)
            && #[trigger] homomorphism::add_result(
            m,
            images[k].symbol,
            images[k].arity,
            images[k].term,
            Err(e),
            m,
        )
}

pub proof fn lemma_registered_push(
    list: Seq<(Symbol, usize, Term)>,
    m: HomModel,
    image: (Symbol, usize, Term),
    after: HomModel,
)
    requires
        registered(list, m),
        homomorphism::add_result(m, image.0, image.1, image.2, Ok(()), after),
    ensures
        registered(list.push(image), after),
{
    let now = list.push(image);
    assert(now.drop_last() =~= list);
    assert(now.last() == image);
    assert(registered(now.drop_last(), m) && homomorphism::add_result(
        m,
        now.last().0,
        now.last().1,
        now.last().2,
        Ok(()),
        after,
    ));
}

/// Registers the images in order; reports the first that is refused.
pub(crate) fn check_images(slots: &Vec<Slot>, images: &Vec<ImageEntry>) -> (r: Option<HomomorphismError>)
    requires
        forall|i: int|
            0 <= i < slots@.len() ==> arena::children_first(
                arena::hom_nodes((#[trigger] slots@[i]).nodes),
            ),
        forall|k: int| 0 <= k < images@.len() ==> draft::entry_ok(slots@, #[trigger] images@[k]),
    ensures
        match r {
            None => registrable(draft::image_views(slots@, images@)),
            Some(e) => exists|k: int| #[trigger]
                bad_image(draft::image_views(slots@, images@), k, e),
        },
{
    let ghost all = draft::image_views(slots@, images@);
    let mut homs: Vec<Homomorphism<'_>> = Vec::new();
    let mut i: usize = 0;
    while i < slots.len()
        invariant
            i <= slots@.len(),
            forall|j: int|
                0 <= j < slots@.len() ==> arena::children_first(
                    arena::hom_nodes((#[trigger] slots@[j]).nodes),
                ),
            homs@.len() == i,
            forall|j: int|
                0 <= j < i ==> (#[trigger] homs@[j]).term_arena() == slots@[j].nodes && homs@[j]@
                    == empty_hom(),
        decreases slots@.len() - i,
    {
        let h = Homomorphism::new(&slots[i].nodes);
        homs.push(h);
        i += 1;
    }
    let mut k: usize = 0;
    proof {
        assert(all.take(0) =~= Seq::<Image>::empty());
        assert forall|j: int| 0 <= j < homs@.len() implies registered(
            slot_images(all.take(0), j as nat),
            (#[trigger] homs@[j])@,
        ) by {}
    }
    while k < images.len()
        invariant
            k <= images@.len(),
            all == draft::image_views(slots@, images@),
            forall|j: int|
                0 <= j < images@.len() ==> draft::entry_ok(slots@, #[trigger] images@[j]),
            homs@.len() == slots@.len(),
            forall|j: int|
                0 <= j < homs@.len() ==> (#[trigger] homs@[j]).term_arena() == slots@[j].nodes
                    && registered(slot_images(all.take(k as int), j as nat), homs@[j]@),
        decreases images@.len() - k,
    {
        let entry = &images[k];
        assert(draft::entry_ok(slots@, images@[k as int]));
        let ghost s = entry.slot as int;
        let ghost before = homs@;
        let ghost image = all[k as int];
        let ghost prior = all.take(k as int);
        let ghost now = all.take(k + 1);
        proof {
            assert(image == draft::image_view(slots@, *entry));
            assert(now.drop_last() =~= prior);
            assert(now.last() == image);
        }
        let outcome = homs[entry.slot].add(entry.symbol, entry.arity, entry.term);
        if let Err(e) = outcome {
            proof {
                assert forall|slot: nat| #[trigger] slot_registrable(prior, slot) by {
                    if slot < before.len() {
                        assert(registered(slot_images(prior, slot), before[slot as int]@));
                    } else {
                        lemma_no_slot(slots@, images@, k as int, slot);
                        assert(registered(slot_images(prior, slot), empty_hom()));
                    }
                }
                let m = before[s]@;
                assert(registered(slot_images(prior, image.slot), m));
                assert(homomorphism::add_result(
                    m,
                    image.symbol,
                    image.arity,
                    image.term,
                    Err(e),
                    m,
                ));
                assert(bad_image(all, k as int, e));
            }
            return Some(e);
        }
        proof {
            assert forall|j: int| 0 <= j < homs@.len() implies (#[trigger] homs@[j]).term_arena()
                == slots@[j].nodes && registered(slot_images(now, j as nat), homs@[j]@) by {
                assert(registered(slot_images(prior, j as nat), before[j]@));
                if j == s {
                    lemma_registered_push(
                        slot_images(prior, j as nat),
                        before[j]@,
                        (image.symbol, image.arity, image.term),
                        homs@[j]@,
                    );
                }
            }
        }
        k += 1;
    }
    proof {
        assert(all.take(k as int) =~= all);
        assert forall|slot: nat| #[trigger] slot_registrable(all, slot) by {
            if slot < homs@.len() {
                assert(registered(slot_images(all, slot), homs@[slot as int]@));
            } else {
                lemma_no_slot(slots@, images@, images@.len() as int, slot);
                assert(registered(slot_images(all, slot), empty_hom()));
            }
        }
    }
    None
}

/// There are no images of interpretations that do not exist.
proof fn lemma_no_slot(slots: Seq<Slot>, images: Seq<ImageEntry>, k: int, slot: nat)
    requires
        0 <= k <= images.len(),
        slot >= slots.len(),
        forall|j: int| 0 <= j < images.len() ==> draft::entry_ok(slots, #[trigger] images[j]),
    ensures
        slot_images(draft::image_views(slots, images).take(k), slot) == Seq::<
            (Symbol, usize, Term),
        >::empty(),
    decreases k,
{
    let all = draft::image_views(slots, images);
    if k > 0 {
        assert(all.take(k).drop_last() =~= all.take(k - 1));
        assert(all.take(k).last() == all[k - 1]);
        assert(draft::entry_ok(slots, images[k - 1]));
        lemma_no_slot(slots, images, k - 1, slot);
    }
}

/// What an interpretation is: its name, its algebra and kind, the algebra symbols, and
/// the images of grammar symbols.
pub struct InterpretationModel {
    pub name: Seq<char>,
    pub class_name: Seq<char>,
    pub kind: InterpretationKind,
    pub names: NameList,
    pub images: Seq<(Symbol, usize, Term)>,
}

/// A named interpretation of a grammar.
pub struct Interpretation {
    name: String,
    class_name: String,
    kind: InterpretationKind,
    names: Signature,
    nodes: TreeArena<HomLabel>,
    images: Vec<(Symbol, usize, Tree)>,
}

/// The images behind handles.
pub open spec fn handle_images(
    nodes: Seq<(HomLabel, Seq<nat>)>,
    list: Seq<(Symbol, usize, Tree)>,
) -> Seq<(Symbol, usize, Term)> {
    Seq::new(
        list.len(),
        |i: int| (list[i].0, list[i].1, terms::term_at(nodes, arena::tree_number(list[i].2))),
    )
}

impl View for Interpretation {
    type V = InterpretationModel;

    closed spec fn view(&self) -> InterpretationModel {
        InterpretationModel {
            name: self.name@,
            class_name: self.class_name@,
            kind: self.kind,
            names: self.names@,
            images: handle_images(arena::hom_nodes(self.nodes), self.images@),
        }
    }
}

/// A registered list is registered up to every place.
pub proof fn lemma_registered_prefix(list: Seq<(Symbol, usize, Term)>, m: HomModel, k: int) -> (before: HomModel)
    requires
        registered(list, m),
        0 <= k <= list.len(),
    ensures
        registered(list.take(k), before),
    decreases list.len(),
{
    if k == list.len() {
        assert(list.take(k) =~= list);
        m
    } else {
        let before = choose|before: HomModel|
            registered(list.drop_last(), before) && #[trigger] homomorphism::add_result(
                before,
                list.last().0,
                list.last().1,
                list.last().2,
                Ok(()),
                m,
            );
        assert(list.drop_last().take(k) =~= list.take(k));
        lemma_registered_prefix(list.drop_last(), before, k)
    }
}

/// Registering a list makes one homomorphism only.
pub proof fn law_registration_is_determined(
    list: Seq<(Symbol, usize, Term)>,
    a: HomModel,
    b: HomModel,
)
    requires
        registered(list, a),
        registered(list, b),
    ensures
        a == b,
    decreases list.len(),
{
    if list.len() > 0 {
        let x = choose|before: HomModel|
            registered(list.drop_last(), before) && #[trigger] homomorphism::add_result(
                before,
                list.last().0,
                list.last().1,
                list.last().2,
                Ok(()),
                a,
            );
        let y = choose|before: HomModel|
            registered(list.drop_last(), before) && #[trigger] homomorphism::add_result(
                before,
                list.last().0,
                list.last().1,
                list.last().2,
                Ok(()),
                b,
            );
        law_registration_is_determined(list.drop_last(), x, y);
    }
}

impl Interpretation {
    /// An interpretation with the given images, which must make a homomorphism.
    pub(crate) fn new(
        name: String,
        class_name: String,
        kind: InterpretationKind,
        names: Signature,
        nodes: TreeArena<HomLabel>,
        images: Vec<(Symbol, usize, Tree)>,
    ) -> (r: Self)
        requires
            arena::children_first(arena::hom_nodes(nodes)),
            forall|i: int|
                0 <= i < images@.len() ==> arena::tree_number((#[trigger] images@[i]).2)
                    < arena::hom_nodes(nodes).len(),
            has_homomorphism(handle_images(arena::hom_nodes(nodes), images@)),
        ensures
            r@ == (InterpretationModel {
                name: name@,
                class_name: class_name@,
                kind,
                names: names@,
                images: handle_images(arena::hom_nodes(nodes), images@),
            }),
    {
        Interpretation { name, class_name, kind, names, nodes, images }
    }

    #[verifier::type_invariant]
    spec fn wf(&self) -> bool {
        &&& arena::children_first(arena::hom_nodes(self.nodes))
        &&& forall|i: int|
            0 <= i < self.images@.len() ==> arena::tree_number((#[trigger] self.images@[i]).2)
                < arena::hom_nodes(self.nodes).len()
        &&& has_homomorphism(handle_images(arena::hom_nodes(self.nodes), self.images@))
    }

    /// The interpretation name.
    pub fn name(&self) -> (s: &String)
        ensures
            s@ == self@.name,
    {
        &self.name
    }

    /// The declared algebra class name.
    pub fn class_name(&self) -> (s: &String)
        ensures
            s@ == self@.class_name,
    {
        &self.class_name
    }

    /// What the interpretation can be used for.
    pub fn kind(&self) -> (k: InterpretationKind)
        ensures
            k == self@.kind,
    {
        self.kind
    }

    /// The algebra signature.
    pub fn algebra_signature(&self) -> (s: &Signature)
        ensures
            s@ == self@.names,
    {
        &self.names
    }

    /// The homomorphism: the images registered one after the other.
    pub fn homomorphism(&self) -> (h: Homomorphism<'_>)
        ensures
            registered(self@.images, h@),
    {
        proof {
            use_type_invariant(self);
        }
        let ghost nodes = arena::hom_nodes(self.nodes);
        let ghost all = handle_images(nodes, self.images@);
        let ghost whole = choose|m: HomModel| registered(all, m);
        let mut h = Homomorphism::new(&self.nodes);
        let mut i: usize = 0;
        assert(all.take(0) =~= Seq::<(Symbol, usize, Term)>::empty());
        while i < self.images.len()
            invariant
                i <= self.images@.len(),
                nodes == arena::hom_nodes(self.nodes),
                all == handle_images(nodes, self.images@),
                registered(all, whole),
                forall|j: int|
                    0 <= j < self.images@.len() ==> arena::tree_number(
                        (#[trigger] self.images@[j]).2,
                    ) < nodes.len(),
                h.term_arena() == self.nodes,
                registered(all.take(i as int), h@),
            decreases self.images@.len() - i,
        {
            let ghost before = h@;
            let (f, arity, term) = self.images[i];
            let ghost now = all.take(i + 1);
            let outcome = h.add(f, arity, term);
            proof {
                assert(now.drop_last() =~= all.take(i as int));
                assert(now.last() == all[i as int]);
                let reached = lemma_registered_prefix(all, whole, i + 1);
                let earlier = choose|m: HomModel|
                    registered(now.drop_last(), m) && #[trigger] homomorphism::add_result(
                        m,
                        now.last().0,
                        now.last().1,
                        now.last().2,
                        Ok(()),
                        reached,
                    );
                law_registration_is_determined(all.take(i as int), earlier, before);
                assert(outcome is Ok);
                lemma_registered_push(all.take(i as int), before, all[i as int], h@);
                assert(all.take(i as int).push(all[i as int]) =~= now);
            }
            i += 1;
        }
        assert(all.take(i as int) =~= all);
        h
    }

    /// Whether this interpretation can serve as a parse input.
    pub fn is_inputable(&self) -> (b: bool)
        ensures
            b == (self@.kind != InterpretationKind::OutputOnly),
    {
        self.kind != InterpretationKind::OutputOnly
    }

    /// Whether this interpretation can restrict parsing to defined values.
    pub fn supports_non_null_filter(&self) -> (b: bool)
        ensures
            b == (self@.class_name == "de.up.ling.irtg.algebra.FeatureStructureAlgebra"@),
    {
        text::is_text(&self.class_name, "de.up.ling.irtg.algebra.FeatureStructureAlgebra")
    }

    /// Whether interpreted values use the textual representation of trees.
    pub fn is_tree_valued(&self) -> (b: bool)
        ensures
            b == (self@.kind == InterpretationKind::TagTree || self@.kind
                == InterpretationKind::BinarizedTagTree || (self@.kind
                == InterpretationKind::OutputOnly && self@.class_name
                != "de.up.ling.irtg.algebra.FeatureStructureAlgebra"@)),
    {
        self.kind == InterpretationKind::TagTree || self.kind
            == InterpretationKind::BinarizedTagTree || (self.kind == InterpretationKind::OutputOnly
            && !text::is_text(
            &self.class_name,
            "de.up.ling.irtg.algebra.FeatureStructureAlgebra",
        ))
    }
}

} // verus!
