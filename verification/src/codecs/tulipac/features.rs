//! Feature maps of a Tulipac grammar.
use crate::text;
use crate::text::{is_text_less, same_text};
use vstd::prelude::*;
use vstd::string::StringExecFns;

verus! {

/// The value of a feature.
#[derive(Debug)]
pub enum FeatureAtom {
    Constant(String),
    Variable(String),
}

/// What the value of a feature says.
pub enum AtomModel {
    Constant(Seq<char>),
    Variable(Seq<char>),
}

impl View for FeatureAtom {
    type V = AtomModel;

    open spec fn view(&self) -> AtomModel {
        match self {
            FeatureAtom::Constant(s) => AtomModel::Constant(s@),
            FeatureAtom::Variable(s) => AtomModel::Variable(s@),
        }
    }
}

impl FeatureAtom {
    /// The same value once more.
    pub fn duplicate(&self) -> (a: Self)
        ensures
            a@ == self@,
    {
        match self {
            FeatureAtom::Constant(s) => FeatureAtom::Constant(s.clone()),
            FeatureAtom::Variable(s) => FeatureAtom::Variable(s.clone()),
        }
    }

    /// Whether two values are the same.
    pub fn same(&self, other: &Self) -> (b: bool)
        ensures
            b == (self@ == other@),
    {
        match (self, other) {
            (FeatureAtom::Constant(a), FeatureAtom::Constant(b)) => same_text(a, b),
            (FeatureAtom::Variable(a), FeatureAtom::Variable(b)) => same_text(a, b),
            _ => false,
        }
    }
}

/// One feature and its value.
#[derive(Debug)]
pub struct FeatureEntry {
    pub attribute: String,
    pub value: FeatureAtom,
}

impl View for FeatureEntry {
    type V = (Seq<char>, AtomModel);

    open spec fn view(&self) -> (Seq<char>, AtomModel) {
        (self.attribute@, self.value@)
    }
}

/// Features and their values.
pub type Features = Seq<(Seq<char>, AtomModel)>;

/// Whether the attributes increase.
pub open spec fn sorted_features(f: Features) -> bool {
    forall|i: int, j: int|
        0 <= i < j < f.len() ==> text::text_less((#[trigger] f[i]).0, (#[trigger] f[j]).0)
}

/// The value of a feature, if it has one.
pub open spec fn value_of(f: Features, attribute: Seq<char>) -> Option<AtomModel> {
    if exists|i: int| 0 <= i < f.len() && (#[trigger] f[i]).0 == attribute {
        Some(f[choose|i: int| 0 <= i < f.len() && (#[trigger] f[i]).0 == attribute].1)
    } else {
        None
    }
}

/// Whether `after` is `before` with one feature set, in place of an older value.
pub open spec fn sets_feature(
    before: Features,
    attribute: Seq<char>,
    value: AtomModel,
    after: Features,
) -> bool {
    &&& sorted_features(after)
    &&& value_of(after, attribute) == Some(value)
    &&& forall|a: Seq<char>| a != attribute ==> #[trigger] value_of(after, a) == value_of(before, a)
}

/// Feature maps: attributes in increasing order, each with one value.
#[derive(Debug)]
pub struct FeatureMap {
    entries: Vec<FeatureEntry>,
}

/// What entries say.
pub open spec fn entry_views(entries: Seq<FeatureEntry>) -> Features {
    Seq::new(entries.len(), |i: int| entries[i]@)
}

impl View for FeatureMap {
    type V = Features;

    closed spec fn view(&self) -> Features {
        entry_views(self.entries@)
    }
}

/// Sorted features are determined by their values.
pub proof fn lemma_value_at(f: Features, i: int)
    requires
        sorted_features(f),
        0 <= i < f.len(),
    ensures
        value_of(f, f[i].0) == Some(f[i].1),
{
    let k = choose|k: int| 0 <= k < f.len() && (#[trigger] f[k]).0 == f[i].0;
    text::lemma_text_less_total(f[i].0, f[i].0);
    if k < i {
        assert(text::text_less(f[k].0, f[i].0));
    } else if i < k {
        assert(text::text_less(f[i].0, f[k].0));
    }
}

/// Two sorted lists of features with the same values are the same list.
pub proof fn lemma_features_extensional(a: Features, b: Features)
    requires
        sorted_features(a),
        sorted_features(b),
        forall|x: Seq<char>| #[trigger] value_of(a, x) == value_of(b, x),
    ensures
        a == b,
    decreases a.len() + b.len(),
{
    if a.len() == 0 {
        if b.len() > 0 {
            lemma_value_at(b, 0);
            assert(value_of(a, b[0].0) is None);
        }
        assert(a =~= b);
    } else if b.len() == 0 {
        lemma_value_at(a, 0);
        assert(value_of(b, a[0].0) is None);
    } else {
        let x = a.last().0;
        let y = b.last().0;
        lemma_value_at(a, a.len() - 1);
        lemma_value_at(b, b.len() - 1);
        assert(value_of(b, x) is Some);
        assert(value_of(a, y) is Some);
        let i = choose|i: int| 0 <= i < b.len() && (#[trigger] b[i]).0 == x;
        let j = choose|j: int| 0 <= j < a.len() && (#[trigger] a[j]).0 == y;
        text::lemma_text_less_total(x, y);
        if i < b.len() - 1 {
            assert(text::text_less(b[i].0, b[b.len() - 1].0));
        }
        if j < a.len() - 1 {
            assert(text::text_less(a[j].0, a[a.len() - 1].0));
        }
        assert(x == y);
        let c = a.drop_last();
        let d = b.drop_last();
        assert forall|z: Seq<char>| #[trigger] value_of(c, z) == value_of(d, z) by {
            lemma_value_drop_last(a, z);
            lemma_value_drop_last(b, z);
            assert(value_of(a, z) == value_of(b, z));
        }
        lemma_features_extensional(c, d);
        assert(a =~= c.push(a.last()));
        assert(b =~= d.push(b.last()));
    }
}

proof fn lemma_value_drop_last(a: Features, z: Seq<char>)
    requires
        sorted_features(a),
        a.len() > 0,
    ensures
        sorted_features(a.drop_last()),
        value_of(a.drop_last(), z) == (if z == a.last().0 {
            None
        } else {
            value_of(a, z)
        }),
{
    let c = a.drop_last();
    assert(sorted_features(c)) by {
        assert forall|i: int, j: int| 0 <= i < j < c.len() implies text::text_less(
            (#[trigger] c[i]).0,
            (#[trigger] c[j]).0,
        ) by {
            assert(text::text_less(a[i].0, a[j].0));
        }
    }
    if exists|i: int| 0 <= i < c.len() && (#[trigger] c[i]).0 == z {
        let i = choose|i: int| 0 <= i < c.len() && (#[trigger] c[i]).0 == z;
        assert(text::text_less(a[i].0, a[a.len() - 1].0));
        text::lemma_text_less_total(z, z);
        lemma_value_at(c, i);
        lemma_value_at(a, i);
    } else if z != a.last().0 {
        if exists|i: int| 0 <= i < a.len() && (#[trigger] a[i]).0 == z {
            let i = choose|i: int| 0 <= i < a.len() && (#[trigger] a[i]).0 == z;
            assert(c[i].0 == z);
        }
    }
}

/// Setting a feature has one result.
pub proof fn lemma_sets_feature_unique(
    before: Features,
    attribute: Seq<char>,
    value: AtomModel,
    a: Features,
    b: Features,
)
    requires
        sets_feature(before, attribute, value, a),
        sets_feature(before, attribute, value, b),
    ensures
        a == b,
{
    assert forall|x: Seq<char>| #[trigger] value_of(a, x) == value_of(b, x) by {
        if x == attribute {
        } else {
            assert(value_of(a, x) == value_of(before, x));
            assert(value_of(b, x) == value_of(before, x));
        }
    }
    lemma_features_extensional(a, b);
}

/// The features with one of them set.
pub open spec fn with_feature(
    before: Features,
    attribute: Seq<char>,
    value: AtomModel,
) -> Features {
    choose|after: Features| sets_feature(before, attribute, value, after)
}

/// What putting together two values of one feature gives: a constant beats a
/// variable, and different constants clash.
pub open spec fn merged_value(existing: Option<AtomModel>, candidate: AtomModel) -> Option<
    AtomModel,
> {
    match existing {
        None => Some(candidate),
        Some(old) => if old == candidate || old is Variable {
            Some(candidate)
        } else if candidate is Variable {
            Some(old)
        } else {
            None
        },
    }
}

/// A feature with two values that exclude each other.
#[derive(Debug)]
pub struct FeatureClash {
    pub attribute: String,
    pub existing: FeatureAtom,
    pub candidate: FeatureAtom,
}

impl View for FeatureClash {
    type V = (Seq<char>, AtomModel, AtomModel);

    open spec fn view(&self) -> (Seq<char>, AtomModel, AtomModel) {
        (self.attribute@, self.existing@, self.candidate@)
    }
}

/// Whether `i` is the first feature of `b` that clashes with `a`.
pub open spec fn first_clash(a: Features, b: Features, i: int) -> bool {
    &&& 0 <= i < b.len()
    &&& merged_value(value_of(a, b[i].0), b[i].1) is None
    &&& forall|j: int|
        0 <= j < i ==> merged_value(value_of(a, (#[trigger] b[j]).0), b[j].1) is Some
}

/// The value of a feature in the union of two maps.
pub open spec fn union_value(a: Features, b: Features, x: Seq<char>) -> Option<AtomModel> {
    match value_of(b, x) {
        Some(v) => merged_value(value_of(a, x), v),
        None => value_of(a, x),
    }
}

/// Whether `r` is what putting two feature maps together owes.
pub open spec fn merge_result(
    a: Features,
    b: Features,
    r: Result<Features, (Seq<char>, AtomModel, AtomModel)>,
) -> bool {
    match r {
        Ok(c) => {
            &&& sorted_features(c)
            &&& forall|i: int|
                0 <= i < b.len() ==> merged_value(value_of(a, (#[trigger] b[i]).0), b[i].1) is Some
            &&& forall|x: Seq<char>| #[trigger] value_of(c, x) == union_value(a, b, x)
        },
        Err(e) => exists|i: int| #[trigger]
            first_clash(a, b, i) && value_of(a, b[i].0) is Some && e == (
                b[i].0,
                value_of(a, b[i].0)->0,
                b[i].1,
            ),
    }
}

/// The union of two feature maps, or their first clash.
pub open spec fn merge_of(a: Features, b: Features) -> Result<
    Features,
    (Seq<char>, AtomModel, AtomModel),
> {
    choose|r: Result<Features, (Seq<char>, AtomModel, AtomModel)>| merge_result(a, b, r)
}

/// Putting two feature maps together has one result.
pub proof fn lemma_merge_unique(
    a: Features,
    b: Features,
    r: Result<Features, (Seq<char>, AtomModel, AtomModel)>,
    s: Result<Features, (Seq<char>, AtomModel, AtomModel)>,
)
    requires
        merge_result(a, b, r),
        merge_result(a, b, s),
    ensures
        r == s,
{
    match (r, s) {
        (Ok(c), Ok(d)) => {
            assert forall|x: Seq<char>| #[trigger] value_of(c, x) == value_of(d, x) by {
                assert(value_of(c, x) == union_value(a, b, x));
            }
            lemma_features_extensional(c, d);
        },
        (Err(e), Err(f)) => {
            let i = choose|i: int| #[trigger]
                first_clash(a, b, i) && value_of(a, b[i].0) is Some && e == (
                    b[i].0,
                    value_of(a, b[i].0)->0,
                    b[i].1,
                );
            let j = choose|j: int| #[trigger]
                first_clash(a, b, j) && value_of(a, b[j].0) is Some && f == (
                    b[j].0,
                    value_of(a, b[j].0)->0,
                    b[j].1,
                );
            if i < j {
                assert(merged_value(value_of(a, b[i].0), b[i].1) is Some);
            } else if j < i {
                assert(merged_value(value_of(a, b[j].0), b[j].1) is Some);
            }
        },
        (Ok(c), Err(f)) => {
            let j = choose|j: int| #[trigger] first_clash(a, b, j);
            assert(merged_value(value_of(a, b[j].0), b[j].1) is Some);
        },
        (Err(e), Ok(d)) => {
            let i = choose|i: int| #[trigger] first_clash(a, b, i);
            assert(merged_value(value_of(a, b[i].0), b[i].1) is Some);
        },
    }
}

impl FeatureMap {
    #[verifier::type_invariant]
    pub closed spec fn wf(&self) -> bool {
        sorted_features(entry_views(self.entries@))
    }

    /// No features.
    pub fn new() -> (m: Self)
        ensures
            m@ == Features::empty(),
    {
        let m = FeatureMap { entries: Vec::new() };
        assert(m@ =~= Features::empty());
        m
    }

    /// The entries in the order of their attributes.
    pub fn entries(&self) -> (e: &Vec<FeatureEntry>)
        ensures
            entry_views(e@) == self@,
    {
        &self.entries
    }

    /// The same features once more.
    pub fn duplicate(&self) -> (m: Self)
        ensures
            m@ == self@,
    {
        proof {
            use_type_invariant(self);
        }
        let mut entries: Vec<FeatureEntry> = Vec::new();
        let mut i: usize = 0;
        while i < self.entries.len()
            invariant
                i <= self.entries@.len(),
                entries@.len() == i,
                forall|j: int| 0 <= j < i ==> (#[trigger] entries@[j])@ == self.entries@[j]@,
            decreases self.entries@.len() - i,
        {
            let entry = &self.entries[i];
            entries.push(
                FeatureEntry {
                    attribute: entry.attribute.clone(),
                    value: entry.value.duplicate(),
                },
            );
            i += 1;
        }
        assert(entry_views(entries@) =~= entry_views(self.entries@));
        FeatureMap { entries }
    }

    /// Whether two maps hold the same features.
    pub fn same(&self, other: &Self) -> (b: bool)
        ensures
            b == (self@ == other@),
    {
        if self.entries.len() != other.entries.len() {
            assert(self@.len() != other@.len());
            return false;
        }
        let mut i: usize = 0;
        while i < self.entries.len()
            invariant
                i <= self.entries@.len(),
                self.entries@.len() == other.entries@.len(),
                forall|j: int| 0 <= j < i ==> self@[j] == other@[j],
            decreases self.entries@.len() - i,
        {
            let a = &self.entries[i];
            let b = &other.entries[i];
            assert(self@[i as int] == a@ && other@[i as int] == b@);
            if !(same_text(&a.attribute, &b.attribute) && a.value.same(&b.value)) {
                return false;
            }
            i += 1;
        }
        assert(self@ =~= other@);
        true
    }

    /// The first entry whose attribute is not before the given one, and whether it
    /// is that attribute.
    fn place(&self, attribute: &String) -> (r: (usize, bool))
        ensures
            r.0 <= self@.len(),
            forall|k: int| 0 <= k < r.0 ==> text::text_less((#[trigger] self@[k]).0, attribute@),
            forall|k: int|
                r.0 <= k < self@.len() ==> !text::text_less(
                    (#[trigger] self@[k]).0,
                    attribute@,
                ),
            r.1 == (r.0 < self@.len() && self@[r.0 as int].0 == attribute@),
    {
        proof {
            use_type_invariant(self);
        }
        let mut i: usize = 0;
        while i < self.entries.len() && is_text_less(&self.entries[i].attribute, attribute)
            invariant
                i <= self.entries@.len(),
                self@.len() == self.entries@.len(),
                forall|k: int| 0 <= k < i ==> text::text_less((#[trigger] self@[k]).0, attribute@),
            ensures
                i <= self.entries@.len(),
                forall|k: int| 0 <= k < i ==> text::text_less((#[trigger] self@[k]).0, attribute@),
                i < self.entries@.len() ==> !text::text_less(self@[i as int].0, attribute@),
            decreases self.entries@.len() - i,
        {
            i += 1;
        }
        proof {
            assert forall|k: int| i <= k < self@.len() implies !text::text_less(
                (#[trigger] self@[k]).0,
                attribute@,
            ) by {
                if k > i {
                    assert(text::text_less(self@[i as int].0, self@[k].0));
                    if text::text_less(self@[k].0, attribute@) {
                        text::lemma_text_less_transitive(
                            self@[i as int].0,
                            self@[k].0,
                            attribute@,
                        );
                    }
                }
            }
        }
        let found = i < self.entries.len() && same_text(&self.entries[i].attribute, attribute);
        (i, found)
    }

    /// The value of a feature, if it has one.
    pub fn get(&self, attribute: &String) -> (r: Option<&FeatureAtom>)
        ensures
            match r {
                Some(v) => value_of(self@, attribute@) == Some(v@),
                None => value_of(self@, attribute@) is None,
            },
    {
        proof {
            use_type_invariant(self);
        }
        let (i, found) = self.place(attribute);
        if found {
            proof {
                lemma_value_at(self@, i as int);
            }
            return Some(&self.entries[i].value);
        }
        proof {
            if exists|k: int| 0 <= k < self@.len() && (#[trigger] self@[k]).0 == attribute@ {
                let k = choose|k: int| 0 <= k < self@.len() && (#[trigger] self@[k]).0 == attribute@;
                text::lemma_text_less_total(attribute@, attribute@);
                if k > i {
                    assert(text::text_less(self@[i as int].0, self@[k].0));
                }
            }
        }
        None
    }

    /// Sets a feature, in place of an older value.
    pub fn insert(&mut self, attribute: String, value: FeatureAtom)
        ensures
            sets_feature(old(self)@, attribute@, value@, final(self)@),
    {
        proof {
            use_type_invariant(&*self);
        }
        let ghost before = self@;
        let (i, found) = self.place(&attribute);
        let mut entries: Vec<FeatureEntry> = Vec::new();
        std::mem::swap(&mut entries, &mut self.entries);
        let ghost key = attribute@;
        let ghost val = value@;
        let entry = FeatureEntry { attribute, value };
        let ghost one = entry@;
        if found {
            entries.set(i, entry);
            proof {
                let after = entry_views(entries@);
                assert(after =~= before.update(i as int, one));
                assert(sorted_features(after)) by {
                    assert forall|a: int, b: int| 0 <= a < b < after.len() implies text::text_less(
                        (#[trigger] after[a]).0,
                        (#[trigger] after[b]).0,
                    ) by {
                        assert(text::text_less(before[a].0, before[b].0));
                    }
                }
                lemma_set(before, after, key, val, i as int, true);
            }
        } else {
            entries.insert(i, entry);
            proof {
                let after = entry_views(entries@);
                assert(after =~= before.insert(i as int, one));
                assert(sorted_features(after)) by {
                    assert forall|a: int, b: int| 0 <= a < b < after.len() implies text::text_less(
                        (#[trigger] after[a]).0,
                        (#[trigger] after[b]).0,
                    ) by {
                        let x = if a < i { a } else { a - 1 };
                        let y = if b < i { b } else { b - 1 };
                        if a != i && b != i {
                            assert(text::text_less(before[x].0, before[y].0));
                        } else if b == i {
                            assert(text::text_less(before[a].0, key));
                        } else {
                            text::lemma_text_less_total(key, before[y].0);
                            assert(!text::text_less(before[y].0, key));
                            if before[y].0 == key && y > i {
                                assert(text::text_less(before[i as int].0, before[y].0));
                            }
                        }
                    }
                }
                lemma_set(before, after, key, val, i as int, false);
            }
        }
        self.entries = entries;
    }

    /// Puts two feature maps together: a constant beats a variable, and different
    /// constants clash.
    pub fn merge(&self, other: &Self) -> (r: Result<FeatureMap, FeatureClash>)
        ensures
            match r {
                Ok(m) => merge_result(self@, other@, Ok(m@)),
                Err(c) => merge_result(self@, other@, Err(c@)),
            },
    {
        proof {
            use_type_invariant(self);
            use_type_invariant(other);
        }
        let ghost a = self@;
        let ghost b = other@;
        let mut result = self.duplicate();
        let mut i: usize = 0;
        assert(b.take(0) =~= Features::empty());
        while i < other.entries.len()
            invariant
                i <= other.entries@.len(),
                a == self@,
                b == other@,
                sorted_features(a),
                sorted_features(b),
                forall|j: int|
                    0 <= j < i ==> merged_value(value_of(a, (#[trigger] b[j]).0), b[j].1) is Some,
                forall|x: Seq<char>| #[trigger]
                    value_of(result@, x) == union_value(a, b.take(i as int), x),
            decreases other.entries@.len() - i,
        {
            let entry = &other.entries[i];
            let ghost key = entry.attribute@;
            let ghost candidate = entry.value@;
            assert(b[i as int] == (key, candidate));
            let ghost before = result@;
            proof {
                lemma_take_step(b, i as int);
                assert(value_of(before, key) == union_value(a, b.take(i as int), key));
            }
            let mut replace = false;
            match result.get(&entry.attribute) {
                None => {
                    replace = true;
                },
                Some(existing) => {
                    if !existing.same(&entry.value) {
                        match (existing, &entry.value) {
                            (FeatureAtom::Variable(_), _) => {
                                replace = true;
                            },
                            (_, FeatureAtom::Variable(_)) => {},
                            _ => {
                                assert(first_clash(a, b, i as int));
                                return Err(
                                    FeatureClash {
                                        attribute: entry.attribute.clone(),
                                        existing: existing.duplicate(),
                                        candidate: entry.value.duplicate(),
                                    },
                                );
                            },
                        }
                    }
                },
            }
            if replace {
                result.insert(entry.attribute.clone(), entry.value.duplicate());
            }
            proof {
                assert forall|x: Seq<char>| #[trigger] value_of(result@, x) == union_value(
                    a,
                    b.take(i + 1),
                    x,
                ) by {
                    lemma_value_take(b, i as int, x);
                    assert(value_of(before, x) == union_value(a, b.take(i as int), x));
                }
            }
            i += 1;
        }
        assert(b.take(i as int) =~= b);
        proof {
            use_type_invariant(&result);
        }
        Ok(result)
    }
}

/// Features up to a place do not have the one at that place.
proof fn lemma_take_step(b: Features, i: int)
    requires
        sorted_features(b),
        0 <= i < b.len(),
    ensures
        value_of(b.take(i), b[i].0) is None,
{
    let front = b.take(i);
    if exists|k: int| 0 <= k < front.len() && (#[trigger] front[k]).0 == b[i].0 {
        let k = choose|k: int| 0 <= k < front.len() && (#[trigger] front[k]).0 == b[i].0;
        assert(text::text_less(b[k].0, b[i].0));
        text::lemma_text_less_total(b[i].0, b[i].0);
    }
}

proof fn lemma_value_take(b: Features, i: int, x: Seq<char>)
    requires
        sorted_features(b),
        0 <= i < b.len(),
    ensures
        value_of(b.take(i + 1), x) == (if x == b[i].0 {
            Some(b[i].1)
        } else {
            value_of(b.take(i), x)
        }),
{
    let now = b.take(i + 1);
    assert(sorted_features(now)) by {
        assert forall|p: int, q: int| 0 <= p < q < now.len() implies text::text_less(
            (#[trigger] now[p]).0,
            (#[trigger] now[q]).0,
        ) by {
            assert(text::text_less(b[p].0, b[q].0));
        }
    }
    assert(now.drop_last() =~= b.take(i));
    lemma_value_drop_last(now, x);
    lemma_value_at(now, i);
}

/// Replacing or adding an entry at its place sets the feature.
proof fn lemma_set(
    before: Features,
    after: Features,
    key: Seq<char>,
    value: AtomModel,
    i: int,
    found: bool,
)
    requires
        sorted_features(before),
        sorted_features(after),
        0 <= i <= before.len(),
        found ==> i < before.len() && before[i].0 == key && after == before.update(
            i,
            (key, value),
        ),
        !found ==> after == before.insert(i, (key, value)),
    ensures
        sets_feature(before, key, value, after),
{
    assert(after[i] == (key, value));
    lemma_value_at(after, i);
    assert forall|a: Seq<char>| a != key implies #[trigger] value_of(after, a) == value_of(
        before,
        a,
    ) by {
        if exists|k: int| 0 <= k < before.len() && (#[trigger] before[k]).0 == a {
            let k = choose|k: int| 0 <= k < before.len() && (#[trigger] before[k]).0 == a;
            lemma_value_at(before, k);
            let m = if found || k < i { k } else { k + 1 };
            assert(after[m] == before[k]);
            lemma_value_at(after, m);
        } else if exists|k: int| 0 <= k < after.len() && (#[trigger] after[k]).0 == a {
            let k = choose|k: int| 0 <= k < after.len() && (#[trigger] after[k]).0 == a;
            let m = if found || k < i { k } else { k - 1 };
            assert(before[m] == after[k]);
        }
    }
}

/// A feature can always be set.
pub proof fn lemma_set_exists(before: Features, attribute: Seq<char>, value: AtomModel) -> (after:
    Features)
    requires
        sorted_features(before),
    ensures
        sets_feature(before, attribute, value, after),
    decreases before.len(),
{
    let n = before.len() as int;
    if n == 0 {
        let after = before.insert(0, (attribute, value));
        assert(after.len() == 1);
        lemma_set(before, after, attribute, value, 0, false);
        after
    } else if before.last().0 == attribute {
        let after = before.update(n - 1, (attribute, value));
        assert(sorted_features(after)) by {
            assert forall|i: int, j: int| 0 <= i < j < after.len() implies text::text_less(
                (#[trigger] after[i]).0,
                (#[trigger] after[j]).0,
            ) by {
                assert(text::text_less(before[i].0, before[j].0));
            }
        }
        lemma_set(before, after, attribute, value, n - 1, true);
        after
    } else if text::text_less(before.last().0, attribute) {
        let after = before.insert(n, (attribute, value));
        assert(sorted_features(after)) by {
            assert forall|i: int, j: int| 0 <= i < j < after.len() implies text::text_less(
                (#[trigger] after[i]).0,
                (#[trigger] after[j]).0,
            ) by {
                if j < n {
                    assert(text::text_less(before[i].0, before[j].0));
                } else if i < n - 1 {
                    assert(text::text_less(before[i].0, before[n - 1].0));
                    text::lemma_text_less_transitive(before[i].0, before[n - 1].0, attribute);
                }
            }
        }
        lemma_set(before, after, attribute, value, n, false);
        after
    } else {
        let last = before.last();
        text::lemma_text_less_total(last.0, attribute);
        let front = before.drop_last();
        lemma_value_drop_last(before, attribute);
        let rec = lemma_set_exists(front, attribute, value);
        let after = rec.push(last);
        assert forall|i: int| 0 <= i < rec.len() implies text::text_less(
            (#[trigger] rec[i]).0,
            last.0,
        ) by {
            lemma_value_at(rec, i);
            if rec[i].0 != attribute {
                assert(value_of(rec, rec[i].0) == value_of(front, rec[i].0));
                let k = choose|k: int| 0 <= k < front.len() && (#[trigger] front[k]).0 == rec[i].0;
                assert(text::text_less(before[k].0, before[n - 1].0));
            }
        }
        assert(sorted_features(after)) by {
            assert forall|i: int, j: int| 0 <= i < j < after.len() implies text::text_less(
                (#[trigger] after[i]).0,
                (#[trigger] after[j]).0,
            ) by {
                if j < rec.len() {
                    assert(text::text_less(rec[i].0, rec[j].0));
                }
            }
        }
        assert(after.drop_last() =~= rec);
        lemma_value_drop_last(after, attribute);
        text::lemma_text_less_total(attribute, attribute);
        assert forall|x: Seq<char>| x != attribute implies #[trigger] value_of(after, x) == value_of(
            before,
            x,
        ) by {
            lemma_value_drop_last(after, x);
            lemma_value_drop_last(before, x);
            lemma_value_at(after, after.len() - 1);
            lemma_value_at(before, n - 1);
            assert(value_of(rec, x) == value_of(front, x));
        }
        after
    }
}

/// Two feature maps can be put together, or clash.
pub proof fn lemma_merge_exists(a: Features, b: Features)
    requires
        sorted_features(a),
        sorted_features(b),
    ensures
        merge_result(a, b, merge_of(a, b)),
{
    let r = lemma_merge_prefix(a, b, b.len() as int);
    assert(b.take(b.len() as int) =~= b);
    assert(merge_result(a, b, r));
}

proof fn lemma_merge_prefix(a: Features, b: Features, k: int) -> (r: Result<
    Features,
    (Seq<char>, AtomModel, AtomModel),
>)
    requires
        sorted_features(a),
        sorted_features(b),
        0 <= k <= b.len(),
    ensures
        merge_result(a, b.take(k), r),
    decreases k,
{
    if k == 0 {
        assert forall|x: Seq<char>| #[trigger] value_of(a, x) == union_value(a, b.take(0), x) by {
            assert(value_of(b.take(0), x) is None);
        }
        Ok(a)
    } else {
        let i = k - 1;
        let shorter = b.take(i);
        let longer = b.take(k);
        let before = lemma_merge_prefix(a, b, i);
        match before {
            Err(e) => {
                let j = choose|j: int| #[trigger]
                    first_clash(a, shorter, j) && value_of(a, shorter[j].0) is Some && e == (
                        shorter[j].0,
                        value_of(a, shorter[j].0)->0,
                        shorter[j].1,
                    );
                assert(longer[j] == shorter[j]);
                assert(first_clash(a, longer, j)) by {
                    assert forall|m: int| 0 <= m < j implies merged_value(
                        value_of(a, (#[trigger] longer[m]).0),
                        longer[m].1,
                    ) is Some by {
                        assert(longer[m] == shorter[m]);
                    }
                }
                Err(e)
            },
            Ok(c) => {
                let key = b[i].0;
                assert forall|m: int| 0 <= m < i implies merged_value(
                    value_of(a, (#[trigger] longer[m]).0),
                    longer[m].1,
                ) is Some by {
                    assert(longer[m] == shorter[m]);
                }
                assert(longer[i] == b[i]);
                match merged_value(value_of(a, key), b[i].1) {
                    None => {
                        assert(first_clash(a, longer, i));
                        Err((key, value_of(a, key)->0, b[i].1))
                    },
                    Some(v) => {
                        let d = lemma_set_exists(c, key, v);
                        assert forall|x: Seq<char>| #[trigger] value_of(d, x) == union_value(
                            a,
                            longer,
                            x,
                        ) by {
                            lemma_value_take(b, i, x);
                            if x != key {
                                assert(value_of(d, x) == value_of(c, x));
                                assert(value_of(c, x) == union_value(a, shorter, x));
                            }
                        }
                        Ok(d)
                    },
                }
            },
        }
    }
}

} // verus!
