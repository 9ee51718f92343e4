//! The lexicon of a Tulipac grammar.
use crate::codecs::tulipac::features;
use crate::codecs::tulipac::features::{
    AtomModel, FeatureAtom, FeatureClash, FeatureMap, Features,
};
use crate::codecs::tulipac::syntax;
use crate::codecs::tulipac::syntax::{
    DeclModel, Declarations, FamilyDecl, LemmaModel, RefModel, TreeDecl, TreeRef, WordForm,
    WordModel,
};
use crate::text;
use crate::text::{copy_texts, is_ascii_digit, is_ascii_letter, same_text};
use vstd::prelude::*;
use vstd::string::StringExecFns;

verus! {

/// Which declaration refers to a tree.
#[derive(Debug)]
pub enum Context {
    Word(String),
    Lemma(String),
}

/// What a context says.
pub enum ContextModel {
    Word(Seq<char>),
    Lemma(Seq<char>),
}

impl View for Context {
    type V = ContextModel;

    open spec fn view(&self) -> ContextModel {
        match self {
            Context::Word(s) => ContextModel::Word(s@),
            Context::Lemma(s) => ContextModel::Lemma(s@),
        }
    }
}

/// Why declarations do not form a lexicon.
#[derive(Debug)]
pub enum LexiconError {
    UnknownTree { context: Context, tree: String },
    UnknownFamily { context: Context, family: String },
    /// A family that is referred to has a member that does not exist.
    UnknownMember { context: Context, family: String, tree: String },
    Clash(FeatureClash),
}

/// What keeps declarations from forming a lexicon.
pub enum LexiconFault {
    UnknownTree { context: ContextModel, tree: Seq<char> },
    UnknownFamily { context: ContextModel, family: Seq<char> },
    UnknownMember { context: ContextModel, family: Seq<char>, tree: Seq<char> },
    Clash((Seq<char>, AtomModel, AtomModel)),
}

impl View for LexiconError {
    type V = LexiconFault;

    open spec fn view(&self) -> LexiconFault {
        match self {
            LexiconError::UnknownTree { context, tree } => LexiconFault::UnknownTree {
                context: context@,
                tree: tree@,
            },
            LexiconError::UnknownFamily { context, family } => LexiconFault::UnknownFamily {
                context: context@,
                family: family@,
            },
            LexiconError::UnknownMember { context, family, tree } => LexiconFault::UnknownMember {
                context: context@,
                family: family@,
                tree: tree@,
            },
            LexiconError::Clash(c) => LexiconFault::Clash(c@),
        }
    }
}

/// A word with one of its elementary trees.
#[derive(Debug)]
pub struct LexiconEntry {
    pub word: String,
    pub tree: String,
    pub features: FeatureMap,
}

/// What an entry says.
pub struct EntryModel {
    pub word: Seq<char>,
    pub tree: Seq<char>,
    pub features: Features,
}

impl View for LexiconEntry {
    type V = EntryModel;

    open spec fn view(&self) -> EntryModel {
        EntryModel { word: self.word@, tree: self.tree@, features: self.features@ }
    }
}

/// What entries say.
pub open spec fn entry_views(list: Seq<LexiconEntry>) -> Seq<EntryModel> {
    Seq::new(list.len(), |i: int| list[i]@)
}

/// The last declaration of a name.
pub open spec fn last_named<T>(list: Seq<(Seq<char>, T)>, name: Seq<char>) -> Option<int>
    decreases list.len(),
{
    if list.len() == 0 {
        None
    } else if list.last().0 == name {
        Some(list.len() - 1)
    } else {
        last_named(list.drop_last(), name)
    }
}

pub proof fn lemma_last_named<T>(list: Seq<(Seq<char>, T)>, name: Seq<char>)
    ensures
        last_named(list, name) matches Some(i) ==> 0 <= i < list.len() && list[i].0 == name,
    decreases list.len(),
{
    if list.len() > 0 && list.last().0 != name {
        lemma_last_named(list.drop_last(), name);
    }
}

/// Whether an elementary tree has the given name.
pub open spec fn knows_tree(d: DeclModel, name: Seq<char>) -> bool {
    last_named(d.trees, name) is Some
}

/// The first member of a family that does not exist.
pub open spec fn first_unknown(d: DeclModel, members: Seq<Seq<char>>, i: int) -> bool {
    &&& 0 <= i < members.len()
    &&& !knows_tree(d, members[i])
    &&& forall|j: int| 0 <= j < i ==> knows_tree(d, #[trigger] members[j])
}

/// The names of the trees that a reference stands for.
pub open spec fn resolved(d: DeclModel, target: RefModel, context: ContextModel) -> Result<
    Seq<Seq<char>>,
    LexiconFault,
> {
    match target {
        RefModel::Tree(tree) => if knows_tree(d, tree) {
            Ok(seq![tree])
        } else {
            Err(LexiconFault::UnknownTree { context, tree })
        },
        RefModel::Family(family) => match last_named(d.families, family) {
            Some(f) => {
                let members = d.families[f].1;
                if exists|i: int| first_unknown(d, members, i) {
                    Err(
                        LexiconFault::UnknownMember {
                            context,
                            family,
                            tree: members[choose|i: int| first_unknown(d, members, i)],
                        },
                    )
                } else {
                    Ok(members)
                }
            },
            None => Err(LexiconFault::UnknownFamily { context, family }),
        },
    }
}

/// Entries followed by one for each of the named trees, unless it is there already.
pub open spec fn with_entries(
    done: Seq<EntryModel>,
    word: Seq<char>,
    names: Seq<Seq<char>>,
    features: Features,
) -> Seq<EntryModel>
    decreases names.len(),
{
    if names.len() == 0 {
        done
    } else {
        let front = with_entries(done, word, names.drop_last(), features);
        let entry = EntryModel { word, tree: names.last(), features };
        if front.contains(entry) {
            front
        } else {
            front.push(entry)
        }
    }
}

/// The entries of declared words.
pub open spec fn word_entries(d: DeclModel, words: Seq<WordModel>) -> Result<
    Seq<EntryModel>,
    LexiconFault,
>
    decreases words.len(),
{
    if words.len() == 0 {
        Ok(Seq::empty())
    } else {
        match word_entries(d, words.drop_last()) {
            Ok(done) => {
                let w = words.last();
                match resolved(d, w.target, ContextModel::Word(w.word)) {
                    Ok(names) => Ok(with_entries(done, w.word, names, w.features)),
                    Err(e) => Err(e),
                }
            },
            Err(e) => Err(e),
        }
    }
}

/// Entries followed by those of the word forms of a lemma.
pub open spec fn form_entries(
    done: Seq<EntryModel>,
    lemma: Features,
    names: Seq<Seq<char>>,
    forms: Seq<(Seq<char>, Features)>,
) -> Result<Seq<EntryModel>, LexiconFault>
    decreases forms.len(),
{
    if forms.len() == 0 {
        Ok(done)
    } else {
        match form_entries(done, lemma, names, forms.drop_last()) {
            Ok(front) => match features::merge_of(lemma, forms.last().1) {
                Ok(f) => Ok(with_entries(front, forms.last().0, names, f)),
                Err(e) => Err(LexiconFault::Clash(e)),
            },
            Err(e) => Err(e),
        }
    }
}

/// Entries followed by those of declared lemmas.
pub open spec fn lemma_entries(
    d: DeclModel,
    done: Seq<EntryModel>,
    lemmas: Seq<LemmaModel>,
) -> Result<Seq<EntryModel>, LexiconFault>
    decreases lemmas.len(),
{
    if lemmas.len() == 0 {
        Ok(done)
    } else {
        match lemma_entries(d, done, lemmas.drop_last()) {
            Ok(front) => {
                let l = lemmas.last();
                match resolved(d, l.target, ContextModel::Lemma(l.lemma)) {
                    Ok(names) => form_entries(front, l.features, names, l.words),
                    Err(e) => Err(e),
                }
            },
            Err(e) => Err(e),
        }
    }
}

/// The lexicon of a grammar, or the first failure.
pub open spec fn lexicon_of(d: DeclModel) -> Result<Seq<EntryModel>, LexiconFault> {
    match word_entries(d, d.words) {
        Ok(done) => lemma_entries(d, done, d.lemmas),
        Err(e) => Err(e),
    }
}

/// Finds the last declaration of a tree.
pub fn find_tree(trees: &Vec<TreeDecl>, name: &String) -> (r: Option<usize>)
    ensures
        match r {
            Some(i) => last_named(syntax::tree_views(trees@), name@) == Some(i as int) && i
                < trees@.len(),
            None => last_named(syntax::tree_views(trees@), name@) is None,
        },
{
    let ghost all = syntax::tree_views(trees@);
    let mut i: usize = trees.len();
    assert(all.take(i as int) =~= all);
    while i > 0
        invariant
            i <= trees@.len(),
            all == syntax::tree_views(trees@),
            last_named(all, name@) == last_named(all.take(i as int), name@),
        decreases i,
    {
        proof {
            assert(all.take(i as int).last() == trees@[i - 1]@);
            assert(all.take(i as int).drop_last() =~= all.take(i - 1));
        }
        if same_text(&trees[i - 1].name, name) {
            return Some(i - 1);
        }
        i -= 1;
    }
    None
}

fn find_family(families: &Vec<FamilyDecl>, name: &String) -> (r: Option<usize>)
    ensures
        match r {
            Some(i) => last_named(syntax::family_views(families@), name@) == Some(i as int) && i
                < families@.len(),
            None => last_named(syntax::family_views(families@), name@) is None,
        },
{
    let ghost all = syntax::family_views(families@);
    let mut i: usize = families.len();
    assert(all.take(i as int) =~= all);
    while i > 0
        invariant
            i <= families@.len(),
            all == syntax::family_views(families@),
            last_named(all, name@) == last_named(all.take(i as int), name@),
        decreases i,
    {
        proof {
            assert(all.take(i as int).last() == families@[i - 1]@);
            assert(all.take(i as int).drop_last() =~= all.take(i - 1));
        }
        if same_text(&families[i - 1].name, name) {
            return Some(i - 1);
        }
        i -= 1;
    }
    None
}

fn resolve(d: &Declarations, target: &TreeRef, context: Context) -> (r: Result<
    Vec<String>,
    LexiconError,
>)
    ensures
        match r {
            Ok(names) => resolved(d@, target@, context@) == Ok::<
                Seq<Seq<char>>,
                LexiconFault,
            >(text::texts(names@)),
            Err(e) => resolved(d@, target@, context@) == Err::<Seq<Seq<char>>, LexiconFault>(e@),
        },
{
    match target {
        TreeRef::Tree(tree) => {
            if find_tree(&d.trees, tree).is_some() {
                let mut names: Vec<String> = Vec::new();
                names.push(tree.clone());
                assert(text::texts(names@) =~= seq![tree@]);
                Ok(names)
            } else {
                Err(LexiconError::UnknownTree { context, tree: tree.clone() })
            }
        },
        TreeRef::Family(family) => {
            match find_family(&d.families, family) {
                Some(f) => {
                    let members = &d.families[f].members;
                    let ghost all = text::texts(members@);
                    assert(d@.families[f as int].1 == all);
                    let mut i: usize = 0;
                    while i < members.len()
                        invariant
                            i <= members@.len(),
                            all == text::texts(members@),
                            forall|j: int| 0 <= j < i ==> knows_tree(d@, #[trigger] all[j]),
                            target@ == RefModel::Family(family@),
                            last_named(d@.families, family@) == Some(f as int),
                            d@.families[f as int].1 == all,
                        decreases members@.len() - i,
                    {
                        assert(all[i as int] == members@[i as int]@);
                        if find_tree(&d.trees, &members[i]).is_none() {
                            proof {
                                assert(first_unknown(d@, all, i as int));
                                let k = choose|k: int| first_unknown(d@, all, k);
                                if k < i {
                                    assert(knows_tree(d@, all[k]));
                                } else if i < k {
                                    assert(knows_tree(d@, all[i as int]));
                                }
                            }
                            return Err(
                                LexiconError::UnknownMember {
                                    context,
                                    family: family.clone(),
                                    tree: members[i].clone(),
                                },
                            );
                        }
                        i += 1;
                    }
                    proof {
                        assert forall|k: int| !first_unknown(d@, all, k) by {
                            if 0 <= k < all.len() {
                                assert(knows_tree(d@, all[k]));
                            }
                        }
                    }
                    Ok(copy_texts(members))
                },
                None => Err(LexiconError::UnknownFamily { context, family: family.clone() }),
            }
        },
    }
}

fn holds_entry(list: &Vec<LexiconEntry>, e: &LexiconEntry) -> (b: bool)
    ensures
        b == entry_views(list@).contains(e@),
{
    let ghost all = entry_views(list@);
    let mut i: usize = 0;
    while i < list.len()
        invariant
            i <= list@.len(),
            all == entry_views(list@),
            forall|j: int| 0 <= j < i ==> #[trigger] all[j] != e@,
        decreases list@.len() - i,
    {
        let other = &list[i];
        assert(all[i as int] == other@);
        if same_text(&other.word, &e.word) && same_text(&other.tree, &e.tree)
            && other.features.same(&e.features) {
            return true;
        }
        i += 1;
    }
    false
}

fn add_entries(
    list: &mut Vec<LexiconEntry>,
    word: &String,
    names: &Vec<String>,
    features: &FeatureMap,
)
    ensures
        entry_views(final(list)@) == with_entries(
            entry_views(old(list)@),
            word@,
            text::texts(names@),
            features@,
        ),
{
    let ghost done = entry_views(list@);
    let ghost all = text::texts(names@);
    let mut i: usize = 0;
    assert(all.take(0) =~= Seq::empty());
    while i < names.len()
        invariant
            i <= names@.len(),
            all == text::texts(names@),
            entry_views(list@) == with_entries(done, word@, all.take(i as int), features@),
        decreases names@.len() - i,
    {
        let ghost before = entry_views(list@);
        proof {
            let now = all.take(i + 1);
            assert(now.drop_last() =~= all.take(i as int));
            assert(now.last() == names@[i as int]@);
        }
        let entry = LexiconEntry {
            word: word.clone(),
            tree: names[i].clone(),
            features: features.duplicate(),
        };
        let ghost one = entry@;
        if !holds_entry(list, &entry) {
            list.push(entry);
            assert(entry_views(list@) =~= before.push(one));
        }
        i += 1;
    }
    assert(all.take(i as int) =~= all);
}

proof fn lemma_word_entries_error(d: DeclModel, words: Seq<WordModel>, k: int)
    requires
        0 <= k <= words.len(),
        word_entries(d, words.take(k)) is Err,
    ensures
        word_entries(d, words) == word_entries(d, words.take(k)),
    decreases words.len(),
{
    if k < words.len() {
        assert(words.drop_last().take(k) =~= words.take(k));
        lemma_word_entries_error(d, words.drop_last(), k);
    } else {
        assert(words.take(k) =~= words);
    }
}

proof fn lemma_form_entries_error(
    done: Seq<EntryModel>,
    lemma: Features,
    names: Seq<Seq<char>>,
    forms: Seq<(Seq<char>, Features)>,
    k: int,
)
    requires
        0 <= k <= forms.len(),
        form_entries(done, lemma, names, forms.take(k)) is Err,
    ensures
        form_entries(done, lemma, names, forms) == form_entries(
            done,
            lemma,
            names,
            forms.take(k),
        ),
    decreases forms.len(),
{
    if k < forms.len() {
        assert(forms.drop_last().take(k) =~= forms.take(k));
        lemma_form_entries_error(done, lemma, names, forms.drop_last(), k);
    } else {
        assert(forms.take(k) =~= forms);
    }
}

proof fn lemma_lemma_entries_error(
    d: DeclModel,
    done: Seq<EntryModel>,
    lemmas: Seq<LemmaModel>,
    k: int,
)
    requires
        0 <= k <= lemmas.len(),
        lemma_entries(d, done, lemmas.take(k)) is Err,
    ensures
        lemma_entries(d, done, lemmas) == lemma_entries(d, done, lemmas.take(k)),
    decreases lemmas.len(),
{
    if k < lemmas.len() {
        assert(lemmas.drop_last().take(k) =~= lemmas.take(k));
        lemma_lemma_entries_error(d, done, lemmas.drop_last(), k);
    } else {
        assert(lemmas.take(k) =~= lemmas);
    }
}

fn add_forms(
    list: &mut Vec<LexiconEntry>,
    lemma: &FeatureMap,
    names: &Vec<String>,
    forms: &Vec<WordForm>,
) -> (r: Result<(), LexiconError>)
    ensures
        match r {
            Ok(()) => form_entries(
                entry_views(old(list)@),
                lemma@,
                text::texts(names@),
                syntax::form_views(forms@),
            ) == Ok::<Seq<EntryModel>, LexiconFault>(entry_views(final(list)@)),
            Err(e) => form_entries(
                entry_views(old(list)@),
                lemma@,
                text::texts(names@),
                syntax::form_views(forms@),
            ) == Err::<Seq<EntryModel>, LexiconFault>(e@),
        },
{
    let ghost done = entry_views(list@);
    let ghost all = syntax::form_views(forms@);
    let ghost tree_names = text::texts(names@);
    let mut i: usize = 0;
    assert(all.take(0) =~= Seq::empty());
    while i < forms.len()
        invariant
            i <= forms@.len(),
            all == syntax::form_views(forms@),
            tree_names == text::texts(names@),
            done == entry_views(old(list)@),
            form_entries(done, lemma@, tree_names, all.take(i as int)) == Ok::<
                Seq<EntryModel>,
                LexiconFault,
            >(entry_views(list@)),
        decreases forms@.len() - i,
    {
        let form = &forms[i];
        proof {
            let now = all.take(i + 1);
            assert(now.drop_last() =~= all.take(i as int));
            assert(now.last() == form@);
        }
        match lemma.merge(&form.features) {
            Ok(features) => {
                proof {
                    features::lemma_merge_unique(
                        lemma@,
                        form.features@,
                        Ok(features@),
                        features::merge_of(lemma@, form.features@),
                    );
                }
                add_entries(list, &form.word, names, &features);
            },
            Err(e) => {
                proof {
                    features::lemma_merge_unique(
                        lemma@,
                        form.features@,
                        Err(e@),
                        features::merge_of(lemma@, form.features@),
                    );
                    lemma_form_entries_error(done, lemma@, tree_names, all, i + 1);
                }
                return Err(LexiconError::Clash(e));
            },
        }
        i += 1;
    }
    assert(all.take(i as int) =~= all);
    Ok(())
}

/// Collects the lexicon of a grammar: every word and every word form of a lemma with
/// each of its elementary trees, once.
pub fn collect_lexicon(d: &Declarations) -> (r: Result<Vec<LexiconEntry>, LexiconError>)
    ensures
        match r {
            Ok(list) => lexicon_of(d@) == Ok::<Seq<EntryModel>, LexiconFault>(entry_views(list@)),
            Err(e) => lexicon_of(d@) == Err::<Seq<EntryModel>, LexiconFault>(e@),
        },
{
    let ghost model = d@;
    let mut list: Vec<LexiconEntry> = Vec::new();
    let mut i: usize = 0;
    proof {
        assert(model.words.take(0) =~= Seq::empty());
        assert(entry_views(list@) =~= Seq::empty());
    }
    while i < d.words.len()
        invariant
            i <= d.words@.len(),
            model == d@,
            word_entries(model, model.words.take(i as int)) == Ok::<Seq<EntryModel>, LexiconFault>(
                entry_views(list@),
            ),
        decreases d.words@.len() - i,
    {
        let w = &d.words[i];
        proof {
            let now = model.words.take(i + 1);
            assert(now.drop_last() =~= model.words.take(i as int));
            assert(now.last() == w@);
        }
        match resolve(d, &w.target, Context::Word(w.word.clone())) {
            Ok(names) => {
                add_entries(&mut list, &w.word, &names, &w.features);
            },
            Err(e) => {
                proof {
                    lemma_word_entries_error(model, model.words, i + 1);
                }
                return Err(e);
            },
        }
        i += 1;
    }
    assert(model.words.take(i as int) =~= model.words);
    let ghost done = entry_views(list@);
    let mut k: usize = 0;
    assert(model.lemmas.take(0) =~= Seq::empty());
    while k < d.lemmas.len()
        invariant
            k <= d.lemmas@.len(),
            model == d@,
            word_entries(model, model.words) == Ok::<Seq<EntryModel>, LexiconFault>(done),
            lemma_entries(model, done, model.lemmas.take(k as int)) == Ok::<
                Seq<EntryModel>,
                LexiconFault,
            >(entry_views(list@)),
        decreases d.lemmas@.len() - k,
    {
        let l = &d.lemmas[k];
        proof {
            let now = model.lemmas.take(k + 1);
            assert(now.drop_last() =~= model.lemmas.take(k as int));
            assert(now.last() == l@);
        }
        let names = match resolve(d, &l.target, Context::Lemma(l.lemma.clone())) {
            Ok(names) => names,
            Err(e) => {
                proof {
                    lemma_lemma_entries_error(model, done, model.lemmas, k + 1);
                }
                return Err(e);
            },
        };
        match add_forms(&mut list, &l.features, &names, &l.words) {
            Ok(()) => {},
            Err(e) => {
                proof {
                    lemma_lemma_entries_error(model, done, model.lemmas, k + 1);
                }
                return Err(e);
            },
        }
        k += 1;
    }
    assert(model.lemmas.take(k as int) =~= model.lemmas);
    Ok(list)
}

/// The trees of all entries exist.
pub proof fn lemma_entries_known(d: DeclModel)
    ensures
        lexicon_of(d) matches Ok(list) ==> forall|i: int|
            0 <= i < list.len() ==> knows_tree(d, (#[trigger] list[i]).tree),
{
    lemma_word_entries_known(d, d.words);
    if let Ok(done) = word_entries(d, d.words) {
        lemma_lemma_entries_known(d, done, d.lemmas);
    }
}

spec fn all_known(d: DeclModel, list: Seq<EntryModel>) -> bool {
    forall|i: int| 0 <= i < list.len() ==> knows_tree(d, (#[trigger] list[i]).tree)
}

proof fn lemma_resolved_known(d: DeclModel, target: RefModel, context: ContextModel)
    ensures
        resolved(d, target, context) matches Ok(names) ==> forall|i: int|
            0 <= i < names.len() ==> knows_tree(d, #[trigger] names[i]),
{
    if let RefModel::Family(family) = target {
        if let Some(f) = last_named(d.families, family) {
            let members = d.families[f].1;
            if !exists|i: int| first_unknown(d, members, i) {
                assert forall|i: int| 0 <= i < members.len() implies knows_tree(
                    d,
                    #[trigger] members[i],
                ) by {
                    lemma_first_unknown(d, members, i);
                }
            }
        }
    }
}

proof fn lemma_first_unknown(d: DeclModel, members: Seq<Seq<char>>, i: int)
    requires
        0 <= i < members.len(),
        !exists|k: int| first_unknown(d, members, k),
    ensures
        knows_tree(d, members[i]),
    decreases i,
{
    assert forall|j: int| 0 <= j < i implies knows_tree(d, #[trigger] members[j]) by {
        lemma_first_unknown(d, members, j);
    }
    assert(!first_unknown(d, members, i));
}

proof fn lemma_with_entries_known(
    d: DeclModel,
    done: Seq<EntryModel>,
    word: Seq<char>,
    names: Seq<Seq<char>>,
    features: Features,
)
    requires
        all_known(d, done),
        forall|i: int| 0 <= i < names.len() ==> knows_tree(d, #[trigger] names[i]),
    ensures
        all_known(d, with_entries(done, word, names, features)),
    decreases names.len(),
{
    if names.len() > 0 {
        let front = names.drop_last();
        assert forall|i: int| 0 <= i < front.len() implies knows_tree(d, #[trigger] front[i]) by {
            assert(front[i] == names[i]);
        }
        lemma_with_entries_known(d, done, word, front, features);
        assert(knows_tree(d, names[names.len() - 1]));
    }
}

proof fn lemma_word_entries_known(d: DeclModel, words: Seq<WordModel>)
    ensures
        word_entries(d, words) matches Ok(list) ==> all_known(d, list),
    decreases words.len(),
{
    if words.len() > 0 {
        lemma_word_entries_known(d, words.drop_last());
        if let Ok(done) = word_entries(d, words.drop_last()) {
            let w = words.last();
            lemma_resolved_known(d, w.target, ContextModel::Word(w.word));
            if let Ok(names) = resolved(d, w.target, ContextModel::Word(w.word)) {
                lemma_with_entries_known(d, done, w.word, names, w.features);
            }
        }
    }
}

proof fn lemma_form_entries_known(
    d: DeclModel,
    done: Seq<EntryModel>,
    lemma: Features,
    names: Seq<Seq<char>>,
    forms: Seq<(Seq<char>, Features)>,
)
    requires
        all_known(d, done),
        forall|i: int| 0 <= i < names.len() ==> knows_tree(d, #[trigger] names[i]),
    ensures
        form_entries(done, lemma, names, forms) matches Ok(list) ==> all_known(d, list),
    decreases forms.len(),
{
    if forms.len() > 0 {
        lemma_form_entries_known(d, done, lemma, names, forms.drop_last());
        if let Ok(front) = form_entries(done, lemma, names, forms.drop_last()) {
            if let Ok(f) = features::merge_of(lemma, forms.last().1) {
                lemma_with_entries_known(d, front, forms.last().0, names, f);
            }
        }
    }
}

proof fn lemma_lemma_entries_known(
    d: DeclModel,
    done: Seq<EntryModel>,
    lemmas: Seq<LemmaModel>,
)
    requires
        all_known(d, done),
    ensures
        lemma_entries(d, done, lemmas) matches Ok(list) ==> all_known(d, list),
    decreases lemmas.len(),
{
    if lemmas.len() > 0 {
        lemma_lemma_entries_known(d, done, lemmas.drop_last());
        if let Ok(front) = lemma_entries(d, done, lemmas.drop_last()) {
            let l = lemmas.last();
            lemma_resolved_known(d, l.target, ContextModel::Lemma(l.lemma));
            if let Ok(names) = resolved(d, l.target, ContextModel::Lemma(l.lemma)) {
                lemma_form_entries_known(d, front, l.features, names, l.words);
            }
        }
    }
}

/// A character of a symbol name: letters and digits stay, others become `_`.
pub open spec fn safe_char(c: char) -> char {
    if text::ascii_letter(c) || text::ascii_digit(c) {
        c
    } else {
        '_'
    }
}

/// A text with every character made safe.
pub open spec fn safe_text(s: Seq<char>) -> Seq<char> {
    Seq::new(s.len(), |i: int| safe_char(s[i]))
}

/// One feature as part of a symbol name.
pub open spec fn feature_word(f: (Seq<char>, AtomModel)) -> Seq<char> {
    "["@ + f.0 + "="@ + (match f.1 {
        AtomModel::Constant(s) => s,
        AtomModel::Variable(s) => "?"@ + s,
    }) + "]"@
}

/// Features as part of a symbol name.
pub open spec fn features_word(f: Features) -> Seq<char>
    decreases f.len(),
{
    if f.len() == 0 {
        Seq::empty()
    } else {
        features_word(f.drop_last()) + feature_word(f.last())
    }
}

/// The end of a symbol name that tells features apart.
pub fn safe_suffix(f: &FeatureMap) -> (s: String)
    ensures
        s@ == safe_text(features_word(f@)),
{
    let entries = f.entries();
    let ghost all = f@;
    let mut raw = String::new();
    let mut i: usize = 0;
    assert(all.take(0) =~= Features::empty());
    while i < entries.len()
        invariant
            i <= entries@.len(),
            all == f@,
            features::entry_views(entries@) == all,
            raw@ == features_word(all.take(i as int)),
        decreases entries@.len() - i,
    {
        let entry = &entries[i];
        let ghost before = raw@;
        proof {
            let now = all.take(i + 1);
            assert(now.drop_last() =~= all.take(i as int));
            assert(now.last() == entry@);
        }
        raw.append("[");
        raw.append(entry.attribute.as_str());
        raw.append("=");
        match &entry.value {
            FeatureAtom::Constant(s) => {
                raw.append(s.as_str());
            },
            FeatureAtom::Variable(s) => {
                raw.append("?");
                raw.append(s.as_str());
            },
        }
        raw.append("]");
        assert(raw@ =~= before + feature_word(entry@));
        i += 1;
    }
    assert(all.take(i as int) =~= all);
    let mut s = String::new();
    for c in it: raw.as_str().chars()
        invariant
            it.seq() == raw@,
            s@.len() == it.index(),
            forall|j: int| 0 <= j < s@.len() ==> #[trigger] s@[j] == safe_char(raw@[j]),
    {
        if is_ascii_letter(c) || is_ascii_digit(c) {
            s.push(c);
        } else {
            s.push('_');
        }
    }
    assert(s@ =~= safe_text(raw@));
    s
}

} // verus!
