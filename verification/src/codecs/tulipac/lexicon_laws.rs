//! What the lexicon of a grammar has for the words and lemmas that are declared.
use crate::alto_ast::{IrtgAst, RuleAst};
use crate::codecs::tulipac::compile;
use crate::codecs::tulipac::compile::CompileFault;
use crate::codecs::tulipac::features;
use crate::codecs::tulipac::features::{AtomModel, Features};
use crate::codecs::tulipac::lexicon;
use crate::codecs::tulipac::lexicon::{ContextModel, EntryModel, LexiconFault};
use crate::codecs::tulipac::syntax::{DeclModel, LemmaModel, RefModel, WordModel};
use vstd::prelude::*;

verus! {

/// Whether declaration `i` is the last one of a name.
pub open spec fn is_last<T>(list: Seq<(Seq<char>, T)>, name: Seq<char>, i: int) -> bool {
    &&& 0 <= i < list.len()
    &&& list[i].0 == name
    &&& forall|j: int| i < j < list.len() ==> (#[trigger] list[j]).0 != name
}

/// Whether an elementary tree with the given name is declared.
pub open spec fn is_declared(d: DeclModel, name: Seq<char>) -> bool {
    exists|i: int| 0 <= i < d.trees.len() && (#[trigger] d.trees[i]).0 == name
}

/// Whether a reference stands for the named tree, among others: it names the tree, or a
/// family whose last declaration has the tree as a member.
pub open spec fn stands_for(d: DeclModel, target: RefModel, tree: Seq<char>) -> bool {
    match target {
        RefModel::Tree(name) => name == tree,
        RefModel::Family(family) => exists|f: int| #[trigger]
            is_last(d.families, family, f) && d.families[f].1.contains(tree),
    }
}

/// Whether all that a reference names is declared.
pub open spec fn is_resolvable(d: DeclModel, target: RefModel) -> bool {
    &&& forall|tree: Seq<char>| #[trigger] stands_for(d, target, tree) ==> is_declared(d, tree)
    &&& target matches RefModel::Family(family) ==> exists|f: int|
        0 <= f < d.families.len() && (#[trigger] d.families[f]).0 == family
}

/// Whether features give an attribute a value.
pub open spec fn gives(f: Features, attribute: Seq<char>, value: AtomModel) -> bool {
    f.contains((attribute, value))
}

/// Whether no attribute has two values.
pub open spec fn is_single_valued(f: Features) -> bool {
    forall|i: int, j: int|
        0 <= i < j < f.len() ==> (#[trigger] f[i]).0 != (#[trigger] f[j]).0
}

/// Whether features give an attribute some value.
pub open spec fn has_attribute(f: Features, attribute: Seq<char>) -> bool {
    exists|i: int| 0 <= i < f.len() && (#[trigger] f[i]).0 == attribute
}

/// Whether `c` unites two lists of features: it has what only one of them has, where both
/// have a value it has the constant one, and it has nothing else.
pub open spec fn unites(a: Features, b: Features, c: Features) -> bool {
    &&& is_single_valued(c)
    &&& forall|x: Seq<char>, v: AtomModel| #[trigger]
        gives(a, x, v) && !has_attribute(b, x) ==> gives(c, x, v)
    &&& forall|x: Seq<char>, v: AtomModel| #[trigger]
        gives(b, x, v) && !has_attribute(a, x) ==> gives(c, x, v)
    &&& forall|x: Seq<char>, v: AtomModel, w: AtomModel|
        #![trigger gives(a, x, v), gives(b, x, w)]
        gives(a, x, v) && gives(b, x, w) ==> gives(
            c,
            x,
            if w is Variable && v is Constant {
                v
            } else {
                w
            },
        )
    &&& forall|x: Seq<char>| #[trigger]
        has_attribute(c, x) ==> has_attribute(a, x) || has_attribute(b, x)
}

/// Whether two lists of features give an attribute different constants.
pub open spec fn clash(a: Features, b: Features) -> bool {
    exists|x: Seq<char>, v: AtomModel, w: AtomModel|
        #![trigger gives(a, x, v), gives(b, x, w)]
        gives(a, x, v) && gives(b, x, w) && v is Constant && w is Constant && v != w
}

/// Whether the features of lemmas and their forms are those of feature maps: attributes
/// increase.
pub open spec fn features_valid(d: DeclModel) -> bool {
    forall|i: int|
        0 <= i < d.lemmas.len() ==> features::sorted_features((#[trigger] d.lemmas[i]).features)
            && forall|k: int|
            0 <= k < d.lemmas[i].words.len() ==> features::sorted_features(
                (#[trigger] d.lemmas[i].words[k]).1,
            )
}

/// Whether an entry pairs a word with a tree and features that unite two lists.
pub open spec fn is_form_entry(
    e: EntryModel,
    word: Seq<char>,
    tree: Seq<char>,
    a: Features,
    b: Features,
) -> bool {
    e.word == word && e.tree == tree && unites(a, b, e.features)
}

/// Whether the lexicon has an entry for a form of a lemma with the named tree.
pub open spec fn has_form_entry(
    list: Seq<EntryModel>,
    l: LemmaModel,
    k: int,
    tree: Seq<char>,
) -> bool {
    exists|i: int|
        0 <= i < list.len() && is_form_entry(
            #[trigger] list[i],
            l.words[k].0,
            tree,
            l.features,
            l.words[k].1,
        )
}

/// Whether an entry stands for a declared word.
pub open spec fn from_word(d: DeclModel, e: EntryModel) -> bool {
    exists|i: int|
        0 <= i < d.words.len() && (#[trigger] d.words[i]).word == e.word && d.words[i].features
            == e.features && stands_for(d, d.words[i].target, e.tree)
}

/// Whether an entry stands for a form of a declared lemma.
pub open spec fn from_lemma(d: DeclModel, e: EntryModel) -> bool {
    exists|i: int, k: int|
        0 <= i < d.lemmas.len() && 0 <= k < d.lemmas[i].words.len() && stands_for(
            d,
            d.lemmas[i].target,
            e.tree,
        ) && is_form_entry(
            e,
            (#[trigger] d.lemmas[i].words[k]).0,
            e.tree,
            d.lemmas[i].features,
            d.lemmas[i].words[k].1,
        )
}

pub proof fn lemma_last_named<T>(list: Seq<(Seq<char>, T)>, name: Seq<char>)
    ensures
        match lexicon::last_named(list, name) {
            Some(i) => is_last(list, name, i),
            None => forall|i: int| 0 <= i < list.len() ==> (#[trigger] list[i]).0 != name,
        },
    decreases list.len(),
{
    if list.len() > 0 && list.last().0 != name {
        let front = list.drop_last();
        lemma_last_named(front, name);
        match lexicon::last_named(front, name) {
            Some(i) => {
                assert forall|j: int| i < j < list.len() implies (#[trigger] list[j]).0 != name by {
                    if j < front.len() {
                        assert(front[j] == list[j]);
                    }
                }
            },
            None => {
                assert forall|i: int| 0 <= i < list.len() implies (#[trigger] list[i]).0 != name by {
                    if i < front.len() {
                        assert(front[i] == list[i]);
                    }
                }
            },
        }
    }
}

pub proof fn lemma_last_unique<T>(list: Seq<(Seq<char>, T)>, name: Seq<char>, i: int, j: int)
    requires
        is_last(list, name, i),
        is_last(list, name, j),
    ensures
        i == j,
{
    if i < j {
        assert(list[j].0 != name);
    } else if j < i {
        assert(list[i].0 != name);
    }
}

proof fn lemma_known(d: DeclModel, name: Seq<char>)
    ensures
        lexicon::knows_tree(d, name) <==> is_declared(d, name),
{
    lemma_last_named(d.trees, name);
    if let Some(i) = lexicon::last_named(d.trees, name) {
        assert(d.trees[i].0 == name);
    }
}

/// What a reference is resolved to.
proof fn lemma_resolved(d: DeclModel, target: RefModel, context: ContextModel)
    ensures
        lexicon::resolved(d, target, context) is Ok <==> is_resolvable(d, target),
        lexicon::resolved(d, target, context) matches Ok(names) ==> forall|tree: Seq<char>|
            #[trigger] names.contains(tree) <==> stands_for(d, target, tree),
{
    match target {
        RefModel::Tree(tree) => {
            lemma_known(d, tree);
            assert(stands_for(d, target, tree));
            assert forall|other: Seq<char>| #[trigger] seq![tree].contains(other) <==> stands_for(
                d,
                target,
                other,
            ) by {
                assert(seq![tree][0] == tree);
            }
        },
        RefModel::Family(family) => {
            lemma_last_named(d.families, family);
            match lexicon::last_named(d.families, family) {
                Some(f) => {
                    let members = d.families[f].1;
                    assert(d.families[f].0 == family);
                    assert forall|tree: Seq<char>| #[trigger] members.contains(tree) <==> stands_for(
                        d,
                        target,
                        tree,
                    ) by {
                        if stands_for(d, target, tree) {
                            let g = choose|g: int| #[trigger]
                                is_last(d.families, family, g) && d.families[g].1.contains(tree);
                            lemma_last_unique(d.families, family, f, g);
                        }
                    }
                    if exists|i: int| lexicon::first_unknown(d, members, i) {
                        let i = choose|i: int| lexicon::first_unknown(d, members, i);
                        lemma_known(d, members[i]);
                        assert(members.contains(members[i]));
                        assert(stands_for(d, target, members[i]));
                    } else {
                        assert forall|tree: Seq<char>| #[trigger]
                            stands_for(d, target, tree) implies is_declared(d, tree) by {
                            assert(members.contains(tree));
                            let i = choose|i: int| 0 <= i < members.len() && members[i] == tree;
                            lemma_all_known(d, members, i);
                            lemma_known(d, tree);
                        }
                    }
                },
                None => {
                    if is_resolvable(d, target) {
                        let f = choose|f: int|
                            0 <= f < d.families.len() && (#[trigger] d.families[f]).0 == family;
                        assert(d.families[f].0 != family);
                    }
                },
            }
        },
    }
}

proof fn lemma_all_known(d: DeclModel, members: Seq<Seq<char>>, i: int)
    requires
        0 <= i < members.len(),
        !exists|k: int| lexicon::first_unknown(d, members, k),
    ensures
        lexicon::knows_tree(d, members[i]),
    decreases i,
{
    assert forall|j: int| 0 <= j < i implies lexicon::knows_tree(d, #[trigger] members[j]) by {
        lemma_all_known(d, members, j);
    }
    assert(!lexicon::first_unknown(d, members, i));
}

/// What adding entries does.
proof fn lemma_with_entries(
    done: Seq<EntryModel>,
    word: Seq<char>,
    names: Seq<Seq<char>>,
    f: Features,
)
    requires
        done.no_duplicates(),
    ensures
        ({
            let now = lexicon::with_entries(done, word, names, f);
            &&& done.is_prefix_of(now)
            &&& now.no_duplicates()
            &&& forall|e: EntryModel| #[trigger]
                now.contains(e) <==> (done.contains(e) || (e.word == word && e.features == f
                    && names.contains(e.tree)))
        }),
    decreases names.len(),
{
    let now = lexicon::with_entries(done, word, names, f);
    if names.len() > 0 {
        let front = names.drop_last();
        lemma_with_entries(done, word, front, f);
        let before = lexicon::with_entries(done, word, front, f);
        let entry = EntryModel { word, tree: names.last(), features: f };
        if !before.contains(entry) {
            assert forall|i: int, j: int|
                0 <= i < now.len() && 0 <= j < now.len() && i != j implies now[i] != now[j] by {
                if i < before.len() {
                    assert(before.contains(before[i]));
                }
                if j < before.len() {
                    assert(before.contains(before[j]));
                }
            }
        }
        assert forall|e: EntryModel| #[trigger] now.contains(e) <==> (done.contains(e) || (e.word
            == word && e.features == f && names.contains(e.tree))) by {
            lemma_push_contains(before, entry, e);
            lemma_push_contains(front, names.last(), e.tree);
            assert(names =~= front.push(names.last()));
            if e.word == word && e.features == f && e.tree == names.last() {
                assert(e == entry);
            }
        }
    }
}

pub proof fn lemma_push_contains<T>(s: Seq<T>, x: T, y: T)
    ensures
        s.push(x).contains(y) <==> (s.contains(y) || y == x),
{
    if s.contains(y) {
        let i = choose|i: int| 0 <= i < s.len() && s[i] == y;
        assert(s.push(x)[i] == y);
    }
    assert(s.push(x)[s.len() as int] == x);
    if s.push(x).contains(y) {
        let i = choose|i: int| 0 <= i < s.push(x).len() && s.push(x)[i] == y;
        if i < s.len() {
            assert(s[i] == y);
        }
    }
}

/// The entries of words.
proof fn lemma_word_entries(d: DeclModel, words: Seq<WordModel>)
    ensures
        lexicon::word_entries(d, words) is Ok <==> forall|i: int|
            0 <= i < words.len() ==> is_resolvable(d, (#[trigger] words[i]).target),
        lexicon::word_entries(d, words) matches Ok(list) ==> {
            &&& list.no_duplicates()
            &&& forall|e: EntryModel| #[trigger]
                list.contains(e) <==> exists|i: int|
                    0 <= i < words.len() && (#[trigger] words[i]).word == e.word
                        && words[i].features == e.features && stands_for(
                        d,
                        words[i].target,
                        e.tree,
                    )
        },
    decreases words.len(),
{
    if words.len() > 0 {
        let front = words.drop_last();
        let n = words.len() - 1;
        let w = words.last();
        lemma_word_entries(d, front);
        lemma_resolved(d, w.target, ContextModel::Word(w.word));
        assert forall|i: int| 0 <= i < n implies front[i] == #[trigger] words[i] by {}
        if forall|i: int| 0 <= i < words.len() ==> is_resolvable(d, (#[trigger] words[i]).target) {
            assert(is_resolvable(d, words[n].target));
            assert forall|i: int| 0 <= i < front.len() implies is_resolvable(
                d,
                (#[trigger] front[i]).target,
            ) by {
                assert(words[i] == front[i]);
            }
        }
        if lexicon::word_entries(d, words) is Ok {
            assert forall|i: int| 0 <= i < words.len() implies is_resolvable(
                d,
                (#[trigger] words[i]).target,
            ) by {
                if i < n {
                    assert(is_resolvable(d, front[i].target));
                }
            }
            let done = lexicon::word_entries(d, front)->Ok_0;
            let names = lexicon::resolved(d, w.target, ContextModel::Word(w.word))->Ok_0;
            lemma_with_entries(done, w.word, names, w.features);
            let list = lexicon::word_entries(d, words)->Ok_0;
            assert forall|e: EntryModel| #[trigger] list.contains(e) <==> exists|i: int|
                0 <= i < words.len() && (#[trigger] words[i]).word == e.word && words[i].features
                    == e.features && stands_for(d, words[i].target, e.tree) by {
                if done.contains(e) {
                    let i = choose|i: int|
                        0 <= i < front.len() && (#[trigger] front[i]).word == e.word
                            && front[i].features == e.features && stands_for(
                            d,
                            front[i].target,
                            e.tree,
                        );
                    assert(words[i] == front[i]);
                } else if list.contains(e) {
                    assert(names.contains(e.tree));
                    assert(words[n] == w);
                }
                if exists|i: int|
                    0 <= i < words.len() && (#[trigger] words[i]).word == e.word
                        && words[i].features == e.features && stands_for(
                        d,
                        words[i].target,
                        e.tree,
                    ) {
                    let i = choose|i: int|
                        0 <= i < words.len() && (#[trigger] words[i]).word == e.word
                            && words[i].features == e.features && stands_for(
                            d,
                            words[i].target,
                            e.tree,
                        );
                    if i < n {
                        assert(front[i] == words[i]);
                    } else {
                        assert(names.contains(e.tree));
                    }
                }
            }
        }
    }
}

proof fn lemma_single_value(f: Features, x: Seq<char>)
    requires
        is_single_valued(f),
    ensures
        match features::value_of(f, x) {
            Some(v) => gives(f, x, v) && forall|w: AtomModel| #[trigger]
                gives(f, x, w) ==> w == v,
            None => !has_attribute(f, x),
        },
{
    if let Some(v) = features::value_of(f, x) {
        let i = choose|i: int| 0 <= i < f.len() && (#[trigger] f[i]).0 == x;
        assert(f[i] == (x, v));
        assert forall|w: AtomModel| #[trigger] gives(f, x, w) implies w == v by {
            let j = choose|j: int| 0 <= j < f.len() && f[j] == (x, w);
            if i < j {
                assert(f[i].0 != f[j].0);
            } else if j < i {
                assert(f[j].0 != f[i].0);
            }
        }
    }
}

proof fn lemma_gives_attribute(f: Features, x: Seq<char>, v: AtomModel)
    requires
        gives(f, x, v),
    ensures
        has_attribute(f, x),
{
    let i = choose|i: int| 0 <= i < f.len() && f[i] == (x, v);
    assert(f[i].0 == x);
}

pub proof fn lemma_sorted_is_single(f: Features)
    requires
        features::sorted_features(f),
    ensures
        is_single_valued(f),
{
    assert forall|i: int, j: int| 0 <= i < j < f.len() implies (#[trigger] f[i]).0 != (
    #[trigger] f[j]).0 by {
        crate::text::lemma_text_less_total(f[i].0, f[i].0);
    }
}

/// What putting features together gives.
pub proof fn lemma_merged_features(a: Features, b: Features)
    requires
        is_single_valued(a),
        is_single_valued(b),
        features::merge_result(a, b, features::merge_of(a, b)),
    ensures
        features::merge_of(a, b) is Ok <==> !clash(a, b),
        features::merge_of(a, b) matches Ok(c) ==> unites(a, b, c),
{
    match features::merge_of(a, b) {
        Ok(c) => {
            lemma_sorted_is_single(c);
            assert forall|x: Seq<char>| true implies {
                &&& features::value_of(c, x) == features::union_value(a, b, x)
                &&& (match #[trigger] features::value_of(c, x) {
                    Some(v) => gives(c, x, v),
                    None => !has_attribute(c, x),
                })
            } by {
                lemma_single_value(c, x);
            }
            assert forall|x: Seq<char>, v: AtomModel| #[trigger]
                gives(a, x, v) && !has_attribute(b, x) implies gives(c, x, v) by {
                lemma_single_value(a, x);
                lemma_single_value(b, x);
                lemma_gives_attribute(a, x, v);
                lemma_single_value(c, x);
                assert(features::value_of(c, x) == features::union_value(a, b, x));
            }
            assert forall|x: Seq<char>, v: AtomModel| #[trigger]
                gives(b, x, v) && !has_attribute(a, x) implies gives(c, x, v) by {
                lemma_single_value(a, x);
                lemma_single_value(b, x);
                lemma_gives_attribute(b, x, v);
                lemma_single_value(c, x);
                assert(features::value_of(c, x) == features::union_value(a, b, x));
            }
            assert forall|x: Seq<char>, v: AtomModel, w: AtomModel|
                #![trigger gives(a, x, v), gives(b, x, w)]
                gives(a, x, v) && gives(b, x, w) implies gives(
                c,
                x,
                if w is Variable && v is Constant {
                    v
                } else {
                    w
                },
            ) && !(v is Constant && w is Constant && v != w) by {
                lemma_single_value(a, x);
                lemma_single_value(b, x);
                lemma_gives_attribute(a, x, v);
                lemma_gives_attribute(b, x, w);
                lemma_single_value(c, x);
                let i = choose|i: int| 0 <= i < b.len() && b[i] == (x, w);
                assert(features::merged_value(features::value_of(a, b[i].0), b[i].1) is Some);
                assert(features::value_of(c, x) == features::union_value(a, b, x));
            }
            assert forall|x: Seq<char>| #[trigger] has_attribute(c, x) implies has_attribute(a, x)
                || has_attribute(b, x) by {
                lemma_single_value(a, x);
                lemma_single_value(b, x);
                lemma_single_value(c, x);
                assert(features::value_of(c, x) == features::union_value(a, b, x));
                if let Some(v) = features::value_of(a, x) {
                    lemma_gives_attribute(a, x, v);
                }
                if let Some(v) = features::value_of(b, x) {
                    lemma_gives_attribute(b, x, v);
                }
            }
        },
        Err(e) => {
            let i = choose|i: int| #[trigger] features::first_clash(a, b, i);
            let x = b[i].0;
            let w = b[i].1;
            lemma_single_value(a, x);
            assert(b.contains(b[i]));
            assert(gives(b, x, w));
            let v = features::value_of(a, x)->0;
            assert(gives(a, x, v));
        },
    }
}

/// The entries of the forms of a lemma.
proof fn lemma_form_entries(
    done: Seq<EntryModel>,
    lemma: Features,
    names: Seq<Seq<char>>,
    forms: Seq<(Seq<char>, Features)>,
)
    requires
        done.no_duplicates(),
        is_single_valued(lemma),
        forall|k: int| 0 <= k < forms.len() ==> is_single_valued((#[trigger] forms[k]).1),
        forall|k: int|
            0 <= k < forms.len() ==> features::merge_result(
                lemma,
                (#[trigger] forms[k]).1,
                features::merge_of(lemma, forms[k].1),
            ),
    ensures
        lexicon::form_entries(done, lemma, names, forms) is Ok <==> forall|k: int|
            0 <= k < forms.len() ==> !clash(lemma, (#[trigger] forms[k]).1),
        lexicon::form_entries(done, lemma, names, forms) matches Ok(list) ==> {
            &&& list.no_duplicates()
            &&& done.is_prefix_of(list)
            &&& forall|k: int, tree: Seq<char>|
                #![trigger forms[k], names.contains(tree)]
                0 <= k < forms.len() && names.contains(tree) ==> exists|i: int|
                    0 <= i < list.len() && is_form_entry(
                        #[trigger] list[i],
                        forms[k].0,
                        tree,
                        lemma,
                        forms[k].1,
                    )
            &&& forall|e: EntryModel| #[trigger]
                list.contains(e) ==> done.contains(e) || exists|k: int|
                    0 <= k < forms.len() && names.contains(e.tree) && is_form_entry(
                        e,
                        (#[trigger] forms[k]).0,
                        e.tree,
                        lemma,
                        forms[k].1,
                    )
        },
    decreases forms.len(),
{
    if forms.len() > 0 {
        let front = forms.drop_last();
        let n = forms.len() - 1;
        let last = forms.last();
        assert forall|k: int| 0 <= k < n implies front[k] == #[trigger] forms[k] by {}
        assert(last == forms[n]);
        lemma_form_entries(done, lemma, names, front);
        lemma_merged_features(lemma, last.1);
        if forall|k: int| 0 <= k < forms.len() ==> !clash(lemma, (#[trigger] forms[k]).1) {
            assert(!clash(lemma, forms[n].1));
            assert forall|k: int| 0 <= k < front.len() implies !clash(
                lemma,
                (#[trigger] front[k]).1,
            ) by {
                assert(front[k] == forms[k]);
            }
        }
        if lexicon::form_entries(done, lemma, names, forms) is Ok {
            let before = lexicon::form_entries(done, lemma, names, front)->Ok_0;
            let f = features::merge_of(lemma, last.1)->Ok_0;
            let list = lexicon::form_entries(done, lemma, names, forms)->Ok_0;
            lemma_with_entries(before, last.0, names, f);
            assert forall|k: int| 0 <= k < forms.len() implies !clash(
                lemma,
                (#[trigger] forms[k]).1,
            ) by {
                if k < n {
                    assert(!clash(lemma, front[k].1));
                }
            }
            assert forall|k: int, tree: Seq<char>|
                #![trigger forms[k], names.contains(tree)]
                0 <= k < forms.len() && names.contains(tree) implies exists|i: int|
                0 <= i < list.len() && is_form_entry(
                    #[trigger] list[i],
                    forms[k].0,
                    tree,
                    lemma,
                    forms[k].1,
                ) by {
                if k < n {
                    let p = front[k];
                    let i = choose|i: int|
                        0 <= i < before.len() && is_form_entry(
                            #[trigger] before[i],
                            front[k].0,
                            tree,
                            lemma,
                            front[k].1,
                        );
                    assert(list[i] == before[i]);
                } else {
                    let e = EntryModel { word: last.0, tree, features: f };
                    assert(list.contains(e));
                    let i = choose|i: int| 0 <= i < list.len() && list[i] == e;
                    assert(is_form_entry(list[i], forms[k].0, tree, lemma, forms[k].1));
                }
            }
            assert forall|e: EntryModel| #[trigger] list.contains(e) implies done.contains(e)
                || exists|k: int|
                0 <= k < forms.len() && names.contains(e.tree) && is_form_entry(
                    e,
                    (#[trigger] forms[k]).0,
                    e.tree,
                    lemma,
                    forms[k].1,
                ) by {
                if before.contains(e) {
                    if !done.contains(e) {
                        let k = choose|k: int|
                            0 <= k < front.len() && names.contains(e.tree) && is_form_entry(
                                e,
                                (#[trigger] front[k]).0,
                                e.tree,
                                lemma,
                                front[k].1,
                            );
                        assert(forms[k] == front[k]);
                    }
                } else {
                    assert(is_form_entry(e, forms[n].0, e.tree, lemma, forms[n].1));
                }
            }
        }
    }
}

spec fn merges_known(lemmas: Seq<LemmaModel>) -> bool {
    forall|i: int, k: int|
        #![trigger lemmas[i].words[k]]
        0 <= i < lemmas.len() && 0 <= k < lemmas[i].words.len() ==> features::merge_result(
            lemmas[i].features,
            lemmas[i].words[k].1,
            features::merge_of(lemmas[i].features, lemmas[i].words[k].1),
        )
}

spec fn lemmas_valid(lemmas: Seq<LemmaModel>) -> bool {
    forall|i: int|
        0 <= i < lemmas.len() ==> is_single_valued((#[trigger] lemmas[i]).features) && forall|k: int|
            0 <= k < lemmas[i].words.len() ==> is_single_valued((#[trigger] lemmas[i].words[k]).1)
}

/// Whether nothing keeps a lemma from having its entries.
pub open spec fn lemma_ok(d: DeclModel, l: LemmaModel) -> bool {
    is_resolvable(d, l.target) && forall|k: int|
        0 <= k < l.words.len() ==> !clash(l.features, (#[trigger] l.words[k]).1)
}

/// The entries of lemmas.
proof fn lemma_lemma_entries(d: DeclModel, done: Seq<EntryModel>, lemmas: Seq<LemmaModel>)
    requires
        done.no_duplicates(),
        lemmas_valid(lemmas),
        merges_known(lemmas),
    ensures
        lexicon::lemma_entries(d, done, lemmas) is Ok <==> forall|i: int|
            0 <= i < lemmas.len() ==> lemma_ok(d, #[trigger] lemmas[i]),
        lexicon::lemma_entries(d, done, lemmas) matches Ok(list) ==> {
            &&& list.no_duplicates()
            &&& done.is_prefix_of(list)
            &&& forall|i: int, k: int, tree: Seq<char>|
                #![trigger has_form_entry(list, lemmas[i], k, tree)]
                0 <= i < lemmas.len() && 0 <= k < lemmas[i].words.len() && stands_for(
                    d,
                    lemmas[i].target,
                    tree,
                ) ==> has_form_entry(list, lemmas[i], k, tree)
            &&& forall|e: EntryModel| #[trigger]
                list.contains(e) ==> done.contains(e) || exists|i: int, k: int|
                    0 <= i < lemmas.len() && 0 <= k < lemmas[i].words.len() && stands_for(
                        d,
                        lemmas[i].target,
                        e.tree,
                    ) && is_form_entry(
                        e,
                        (#[trigger] lemmas[i].words[k]).0,
                        e.tree,
                        lemmas[i].features,
                        lemmas[i].words[k].1,
                    )
        },
    decreases lemmas.len(),
{
    if lemmas.len() > 0 {
        let front = lemmas.drop_last();
        let n = lemmas.len() - 1;
        let l = lemmas.last();
        assert(l == lemmas[n]);
        assert(lemmas_valid(front)) by {
            assert forall|i: int| 0 <= i < front.len() implies is_single_valued(
                (#[trigger] front[i]).features,
            ) && forall|k: int|
                0 <= k < front[i].words.len() ==> is_single_valued(
                    (#[trigger] front[i].words[k]).1,
                ) by {
                assert(front[i] == lemmas[i]);
            }
        }
        assert(merges_known(front)) by {
            assert forall|i: int, k: int|
                #![trigger front[i].words[k]]
                0 <= i < front.len() && 0 <= k < front[i].words.len() implies
                features::merge_result(
                front[i].features,
                front[i].words[k].1,
                features::merge_of(front[i].features, front[i].words[k].1),
            ) by {
                assert(lemmas[i].words[k] == front[i].words[k]);
            }
        }
        lemma_lemma_entries(d, done, front);
        lemma_resolved(d, l.target, ContextModel::Lemma(l.lemma));
        if forall|i: int| 0 <= i < lemmas.len() ==> lemma_ok(d, #[trigger] lemmas[i]) {
            assert(lemma_ok(d, lemmas[n]));
            assert forall|i: int| 0 <= i < front.len() implies lemma_ok(d, #[trigger] front[i]) by {
                assert(front[i] == lemmas[i]);
            }
        }
        if lexicon::lemma_entries(d, done, front) is Ok {
            let before = lexicon::lemma_entries(d, done, front)->Ok_0;
            let resolved = lexicon::resolved(d, l.target, ContextModel::Lemma(l.lemma));
            if resolved is Ok {
                let names = resolved->Ok_0;
                assert forall|k: int| 0 <= k < l.words.len() implies features::merge_result(
                    l.features,
                    (#[trigger] l.words[k]).1,
                    features::merge_of(l.features, l.words[k].1),
                ) by {
                    assert(lemmas[n].words[k] == l.words[k]);
                }
                lemma_form_entries(before, l.features, names, l.words);
            }
        }
        if lexicon::lemma_entries(d, done, lemmas) is Ok {
            let before = lexicon::lemma_entries(d, done, front)->Ok_0;
            let names = lexicon::resolved(d, l.target, ContextModel::Lemma(l.lemma))->Ok_0;
            let list = lexicon::lemma_entries(d, done, lemmas)->Ok_0;
            assert forall|i: int| 0 <= i < lemmas.len() implies lemma_ok(d, #[trigger] lemmas[i]) by {
                if i < n {
                    assert(lemma_ok(d, front[i]));
                }
            }
            assert forall|i: int, k: int, tree: Seq<char>|
                #![trigger has_form_entry(list, lemmas[i], k, tree)]
                0 <= i < lemmas.len() && 0 <= k < lemmas[i].words.len() && stands_for(
                    d,
                    lemmas[i].target,
                    tree,
                ) implies has_form_entry(list, lemmas[i], k, tree) by {
                let m = lemmas[i];
                if i < n {
                    assert(front[i] == m);
                    assert(has_form_entry(before, front[i], k, tree));
                    let p = choose|p: int|
                        0 <= p < before.len() && is_form_entry(
                            #[trigger] before[p],
                            m.words[k].0,
                            tree,
                            m.features,
                            m.words[k].1,
                        );
                    assert(list[p] == before[p]);
                } else {
                    assert(names.contains(tree));
                    let w = l.words[k];
                }
            }
            assert forall|e: EntryModel| #[trigger] list.contains(e) implies done.contains(e)
                || exists|i: int, k: int|
                0 <= i < lemmas.len() && 0 <= k < lemmas[i].words.len() && stands_for(
                    d,
                    lemmas[i].target,
                    e.tree,
                ) && is_form_entry(
                    e,
                    (#[trigger] lemmas[i].words[k]).0,
                    e.tree,
                    lemmas[i].features,
                    lemmas[i].words[k].1,
                ) by {
                if before.contains(e) {
                    if !done.contains(e) {
                        let (i, k) = choose|i: int, k: int|
                            0 <= i < front.len() && 0 <= k < front[i].words.len() && stands_for(
                                d,
                                front[i].target,
                                e.tree,
                            ) && is_form_entry(
                                e,
                                (#[trigger] front[i].words[k]).0,
                                e.tree,
                                front[i].features,
                                front[i].words[k].1,
                            );
                        assert(lemmas[i].words[k] == front[i].words[k]);
                    }
                } else {
                    let k = choose|k: int|
                        0 <= k < l.words.len() && names.contains(e.tree) && is_form_entry(
                            e,
                            (#[trigger] l.words[k]).0,
                            e.tree,
                            l.features,
                            l.words[k].1,
                        );
                    assert(lemmas[n].words[k] == l.words[k]);
                }
            }
        }
    }
}

proof fn lemma_valid(d: DeclModel)
    requires
        features_valid(d),
    ensures
        lemmas_valid(d.lemmas),
        merges_known(d.lemmas),
{
    assert forall|i: int| 0 <= i < d.lemmas.len() implies is_single_valued(
        (#[trigger] d.lemmas[i]).features,
    ) && forall|k: int|
        0 <= k < d.lemmas[i].words.len() ==> is_single_valued(
            (#[trigger] d.lemmas[i].words[k]).1,
        ) by {
        lemma_sorted_is_single(d.lemmas[i].features);
        assert forall|k: int| 0 <= k < d.lemmas[i].words.len() implies is_single_valued(
            (#[trigger] d.lemmas[i].words[k]).1,
        ) by {
            lemma_sorted_is_single(d.lemmas[i].words[k].1);
        }
    }
    assert forall|i: int, k: int|
        #![trigger d.lemmas[i].words[k]]
        0 <= i < d.lemmas.len() && 0 <= k < d.lemmas[i].words.len() implies features::merge_result(
        d.lemmas[i].features,
        d.lemmas[i].words[k].1,
        features::merge_of(d.lemmas[i].features, d.lemmas[i].words[k].1),
    ) by {
        let l = d.lemmas[i];
        features::lemma_merge_exists(l.features, l.words[k].1);
    }
}

/// A lexicon has, for every word and for every form of every lemma, an entry with each of the
/// trees that its reference stands for, all members of a family included. A word's entries
/// have its own features, a form's unite those of the lemma and the form. There is no other
/// entry, and none comes twice.
pub proof fn law_lexicon_has_every_tree_of_every_word(d: DeclModel, list: Seq<EntryModel>)
    requires
        features_valid(d),
        lexicon::lexicon_of(d) == Ok::<Seq<EntryModel>, LexiconFault>(list),
    ensures
        forall|i: int, tree: Seq<char>|
            #![trigger stands_for(d, d.words[i].target, tree)]
            0 <= i < d.words.len() && stands_for(d, d.words[i].target, tree) ==> list.contains(
                EntryModel { word: d.words[i].word, tree, features: d.words[i].features },
            ),
        forall|i: int, k: int, tree: Seq<char>|
            #![trigger has_form_entry(list, d.lemmas[i], k, tree)]
            0 <= i < d.lemmas.len() && 0 <= k < d.lemmas[i].words.len() && stands_for(
                d,
                d.lemmas[i].target,
                tree,
            ) ==> has_form_entry(list, d.lemmas[i], k, tree),
        forall|e: EntryModel| #[trigger]
            list.contains(e) ==> is_declared(d, e.tree) && (from_word(d, e) || from_lemma(d, e)),
        list.no_duplicates(),
{
    lemma_valid(d);
    lemma_word_entries(d, d.words);
    let done = lexicon::word_entries(d, d.words)->Ok_0;
    lemma_lemma_entries(d, done, d.lemmas);
    assert forall|i: int, tree: Seq<char>|
        #![trigger stands_for(d, d.words[i].target, tree)]
        0 <= i < d.words.len() && stands_for(d, d.words[i].target, tree) implies list.contains(
        EntryModel { word: d.words[i].word, tree, features: d.words[i].features },
    ) by {
        let e = EntryModel { word: d.words[i].word, tree, features: d.words[i].features };
        assert(done.contains(e));
        let p = choose|p: int| 0 <= p < done.len() && done[p] == e;
        assert(list[p] == e);
    }
    assert forall|e: EntryModel| #[trigger] list.contains(e) implies is_declared(d, e.tree) && (
    from_word(d, e) || from_lemma(d, e)) by {
        if done.contains(e) {
            let i = choose|i: int|
                0 <= i < d.words.len() && (#[trigger] d.words[i]).word == e.word
                    && d.words[i].features == e.features && stands_for(
                    d,
                    d.words[i].target,
                    e.tree,
                );
            assert(is_resolvable(d, d.words[i].target));
        } else {
            let (i, k) = choose|i: int, k: int|
                0 <= i < d.lemmas.len() && 0 <= k < d.lemmas[i].words.len() && stands_for(
                    d,
                    d.lemmas[i].target,
                    e.tree,
                ) && is_form_entry(
                    e,
                    (#[trigger] d.lemmas[i].words[k]).0,
                    e.tree,
                    d.lemmas[i].features,
                    d.lemmas[i].words[k].1,
                );
            assert(lemma_ok(d, d.lemmas[i]));
        }
    }
}

/// There is a lexicon just where every tree and family that is referred to is declared, with
/// all its members, and no form of a lemma contradicts the lemma.
pub proof fn law_lexicon_exists(d: DeclModel)
    requires
        features_valid(d),
    ensures
        lexicon::lexicon_of(d) is Ok <==> (forall|i: int|
            0 <= i < d.words.len() ==> is_resolvable(d, (#[trigger] d.words[i]).target)) && (
        forall|i: int| 0 <= i < d.lemmas.len() ==> lemma_ok(d, #[trigger] d.lemmas[i])),
{
    lemma_valid(d);
    lemma_word_entries(d, d.words);
    if let Ok(done) = lexicon::word_entries(d, d.words) {
        lemma_lemma_entries(d, done, d.lemmas);
    }
}

/// Whether a rule is named after a tree and a word.
pub open spec fn is_named_after(rule: RuleAst, tree: Seq<char>, word: Seq<char>) -> bool {
    (tree + "-"@ + word).is_prefix_of(rule.symbol)
}

/// Whether a grammar has a rule that is named after a tree and a word.
pub open spec fn has_rule(g: IrtgAst, tree: Seq<char>, word: Seq<char>) -> bool {
    exists|k: int| 0 <= k < g.rules.len() && is_named_after(#[trigger] g.rules[k], tree, word)
}

/// The rules of entries, one for each.
proof fn lemma_entry_rules(d: DeclModel, list: Seq<EntryModel>, with_features: bool)
    ensures
        compile::entry_rules(d, list, with_features) matches Ok(rules) ==> {
            &&& rules.len() == list.len()
            &&& forall|i: int|
                0 <= i < list.len() ==> is_named_after(
                    rules[i],
                    (#[trigger] list[i]).tree,
                    list[i].word,
                )
        },
    decreases list.len(),
{
    if list.len() > 0 {
        let front = list.drop_last();
        lemma_entry_rules(d, front, with_features);
        if let Ok(rules) = compile::entry_rules(d, list, with_features) {
            let before = compile::entry_rules(d, front, with_features)->Ok_0;
            let e = list.last();
            assert forall|i: int| 0 <= i < list.len() implies is_named_after(
                rules[i],
                (#[trigger] list[i]).tree,
                list[i].word,
            ) by {
                if i < front.len() {
                    assert(front[i] == list[i]);
                    assert(rules[i] == before[i]);
                } else {
                    let head = e.tree + "-"@ + e.word;
                    let tail = lexicon::safe_text(lexicon::features_word(e.features));
                    assert(rules[i].symbol =~= head + tail);
                }
            }
        }
    }
}

/// A compiled grammar has, for every word and every form of a lemma, a rule with each of the
/// trees that its reference stands for, named after the tree and the word. No member of a
/// family is left out.
pub proof fn law_every_tree_of_every_word_has_a_rule(d: DeclModel, g: IrtgAst)
    requires
        features_valid(d),
        compile::compiled(d) == Ok::<IrtgAst, CompileFault>(g),
    ensures
        forall|i: int, tree: Seq<char>|
            #![trigger stands_for(d, d.words[i].target, tree)]
            0 <= i < d.words.len() && stands_for(d, d.words[i].target, tree) ==> has_rule(
                g,
                tree,
                d.words[i].word,
            ),
        forall|i: int, k: int, tree: Seq<char>|
            #![trigger has_rule(g, tree, d.lemmas[i].words[k].0)]
            0 <= i < d.lemmas.len() && 0 <= k < d.lemmas[i].words.len() && stands_for(
                d,
                d.lemmas[i].target,
                tree,
            ) ==> has_rule(g, tree, d.lemmas[i].words[k].0),
{
    let list = lexicon::lexicon_of(d)->Ok_0;
    law_lexicon_has_every_tree_of_every_word(d, list);
    lemma_entry_rules(d, list, compile::has_features(d));
    let front = compile::entry_rules(d, list, compile::has_features(d))->Ok_0;
    assert forall|i: int, tree: Seq<char>|
        #![trigger stands_for(d, d.words[i].target, tree)]
        0 <= i < d.words.len() && stands_for(d, d.words[i].target, tree) implies has_rule(
        g,
        tree,
        d.words[i].word,
    ) by {
        let e = EntryModel { word: d.words[i].word, tree, features: d.words[i].features };
        assert(list.contains(e));
        let p = choose|p: int| 0 <= p < list.len() && list[p] == e;
        assert(g.rules[p] == front[p]);
        assert(is_named_after(g.rules[p], tree, d.words[i].word));
    }
    assert forall|i: int, k: int, tree: Seq<char>|
        #![trigger has_rule(g, tree, d.lemmas[i].words[k].0)]
        0 <= i < d.lemmas.len() && 0 <= k < d.lemmas[i].words.len() && stands_for(
            d,
            d.lemmas[i].target,
            tree,
        ) implies has_rule(g, tree, d.lemmas[i].words[k].0) by {
        let l = d.lemmas[i];
        assert(has_form_entry(list, d.lemmas[i], k, tree));
        let p = choose|p: int|
            0 <= p < list.len() && is_form_entry(
                #[trigger] list[p],
                l.words[k].0,
                tree,
                l.features,
                l.words[k].1,
            );
        assert(g.rules[p] == front[p]);
        assert(is_named_after(g.rules[p], tree, l.words[k].0));
    }
}

} // verus!
