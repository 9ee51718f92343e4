//! Which codecs a registry has, and when names and extensions are the same.
use crate::codec;
use crate::codec::{InputCodecRegistryError, Registered, ValueKind};
use crate::codecs::tulipac::feature_images;
use crate::text_laws;
use vstd::prelude::*;

verus! {

/// Whether a list has exactly the codecs of a kind, in the order of registration; `at` are
/// their places.
pub open spec fn selects_kind<C>(
    entries: Seq<Registered<C>>,
    kind: ValueKind,
    chosen: Seq<Registered<C>>,
    at: Seq<int>,
) -> bool {
    &&& at.len() == chosen.len()
    &&& forall|k: int, l: int| 0 <= k < l < at.len() ==> (#[trigger] at[k]) < (#[trigger] at[l])
    &&& forall|k: int|
        0 <= k < at.len() ==> 0 <= (#[trigger] at[k]) < entries.len() && entries[at[k]].kind == kind
            && chosen[k] == entries[at[k]]
    &&& forall|i: int|
        0 <= i < entries.len() && (#[trigger] entries[i]).kind == kind ==> at.contains(i)
}

/// The codecs of a kind are those that were registered for it, all of them and no other, in
/// the order of registration.
pub proof fn law_codecs_of_a_kind<C>(entries: Seq<Registered<C>>, kind: ValueKind) -> (at: Seq<int>)
    ensures
        selects_kind(entries, kind, codec::of_kind(entries, kind), at),
    decreases entries.len(),
{
    if entries.len() == 0 {
        Seq::empty()
    } else {
        let n = entries.len() as int;
        let front = entries.drop_last();
        let at = law_codecs_of_a_kind(front, kind);
        let before = codec::of_kind(front, kind);
        let now = codec::of_kind(entries, kind);
        let all = if entries.last().kind == kind {
            at.push(n - 1)
        } else {
            at
        };
        assert forall|k: int| 0 <= k < all.len() implies 0 <= (#[trigger] all[k]) < entries.len()
            && entries[all[k]].kind == kind && now[k] == entries[all[k]] by {
            if k < at.len() {
                assert(all[k] == at[k]);
                assert(front[at[k]] == entries[at[k]]);
                assert(now[k] == before[k]);
            }
        }
        assert forall|i: int|
            0 <= i < entries.len() && (#[trigger] entries[i]).kind == kind implies all.contains(
            i,
        ) by {
            if i < n - 1 {
                assert(front[i] == entries[i]);
                assert(at.contains(i));
                let k = choose|k: int| 0 <= k < at.len() && at[k] == i;
                assert(all[k] == i);
            } else {
                assert(all[all.len() - 1] == n - 1);
            }
        }
        assert forall|k: int, l: int| 0 <= k < l < all.len() implies (#[trigger] all[k]) < (
        #[trigger] all[l]) by {
            assert(all[k] == at[k]);
        }
        all
    }
}

/// Whether two characters are the same, but for the case of the letters `A` to `Z`.
pub open spec fn same_letter(a: char, b: char) -> bool {
    ||| a == b
    ||| 'a' <= a <= 'z' && b as int + 32 == a as int
    ||| 'a' <= b <= 'z' && a as int + 32 == b as int
}

/// Whether two texts are the same, but for the case of the letters `A` to `Z`.
pub open spec fn same_letters(a: Seq<char>, b: Seq<char>) -> bool {
    a.len() == b.len() && forall|i: int|
        0 <= i < a.len() ==> same_letter(#[trigger] a[i], #[trigger] b[i])
}

proof fn lemma_lower(a: Seq<char>, b: Seq<char>)
    ensures
        codec::lower(a) == codec::lower(b) <==> same_letters(a, b),
{
    if codec::lower(a) == codec::lower(b) {
        assert(codec::lower(a).len() == codec::lower(b).len());
        assert forall|i: int| 0 <= i < a.len() implies same_letter(
            #[trigger] a[i],
            #[trigger] b[i],
        ) by {
            assert(codec::lower(a)[i] == codec::lower(b)[i]);
        }
    }
    if same_letters(a, b) {
        assert forall|i: int| 0 <= i < a.len() implies codec::lower(a)[i] == codec::lower(b)[i] by {
            assert(same_letter(a[i], b[i]));
        }
        assert(codec::lower(a) =~= codec::lower(b));
    }
}

/// Names of codecs are the same where they have the same letters, whatever their case and
/// the white space around them, and only there.
pub proof fn law_names_are_compared(a: Seq<char>, b: Seq<char>, ra: Seq<char>, rb: Seq<char>)
    requires
        text_laws::is_trimmed(a, ra),
        text_laws::is_trimmed(b, rb),
    ensures
        codec::normal_name(a) == codec::normal_name(b) <==> same_letters(ra, rb),
{
    text_laws::lemma_trimmed_once(a, ra);
    text_laws::lemma_trimmed_once(b, rb);
    lemma_lower(ra, rb);
}

/// Extensions are compared as names are, and without the dots in front of them.
pub proof fn law_extensions_are_compared(a: Seq<char>, ra: Seq<char>, dots: nat, rest: Seq<char>)
    requires
        text_laws::is_trimmed(a, ra),
        ra == Seq::new(dots, |i: int| '.') + rest,
        rest.len() > 0 ==> rest[0] != '.',
    ensures
        codec::normal_extension(a) == codec::lower(rest),
        forall|other: Seq<char>|
            codec::lower(rest) == #[trigger] codec::lower(other) <==> same_letters(rest, other),
{
    text_laws::lemma_trimmed_once(a, ra);
    lemma_dots(dots, rest);
    assert forall|other: Seq<char>| codec::lower(rest) == #[trigger] codec::lower(
        other,
    ) <==> same_letters(rest, other) by {
        lemma_lower(rest, other);
    }
}

proof fn lemma_dots(dots: nat, rest: Seq<char>)
    requires
        rest.len() > 0 ==> rest[0] != '.',
    ensures
        codec::without_dots(Seq::new(dots, |i: int| '.') + rest) == rest,
    decreases dots,
{
    let all = Seq::new(dots, |i: int| '.') + rest;
    if dots == 0 {
        assert(all =~= rest);
    } else {
        assert(all[0] == '.');
        assert(all.skip(1) =~= Seq::new((dots - 1) as nat, |i: int| '.') + rest);
        lemma_dots((dots - 1) as nat, rest);
    }
}

/// Whether two codecs of one kind share a name or an extension.
pub open spec fn collide<C>(a: Registered<C>, b: Registered<C>) -> bool {
    a.kind == b.kind && {
        ||| codec::normal_name(a.metadata.name@) == codec::normal_name(b.metadata.name@)
        ||| a.metadata.extension is Some && b.metadata.extension is Some
            && codec::normal_extension(a.metadata.extension->0@) == codec::normal_extension(
            b.metadata.extension->0@,
        )
    }
}

/// A codec is registered behind the others exactly where it shares no name and no extension
/// with a codec of its kind; else the registry stays as it is.
pub proof fn law_registration_is_refused_for_collisions<C>(
    before: Seq<Registered<C>>,
    entry: Registered<C>,
    after: Seq<Registered<C>>,
    r: Result<(), InputCodecRegistryError>,
)
    requires
        codec::registration(before, entry, after, r),
    ensures
        r is Ok <==> forall|i: int|
            0 <= i < before.len() ==> !collide(#[trigger] before[i], entry),
        r is Ok ==> after == before.push(entry),
        r is Err ==> after == before,
{
    let rivals = codec::of_kind(before, entry.kind);
    let at = law_codecs_of_a_kind(before, entry.kind);
    let name = codec::normal_name(entry.metadata.name@);
    if r is Ok {
        assert forall|i: int| 0 <= i < before.len() implies !collide(
            #[trigger] before[i],
            entry,
        ) by {
            if before[i].kind == entry.kind {
                assert(at.contains(i));
                let k = choose|k: int| 0 <= k < at.len() && at[k] == i;
                assert(at[k] == i);
                assert(rivals[k] == before[i]);
                assert(!codec::has_name(rivals[k], name));
                if entry.metadata.extension is Some {
                    assert(!codec::has_extension(
                        rivals[k],
                        codec::normal_extension(entry.metadata.extension->0@),
                    ));
                }
            }
        }
    } else if codec::some_named(rivals, name) {
        let k = choose|k: int| 0 <= k < rivals.len() && codec::has_name(#[trigger] rivals[k], name);
        assert(rivals[k] == before[at[k]]);
        assert(collide(before[at[k]], entry));
    } else {
        let x = codec::normal_extension(entry.metadata.extension->0@);
        let k = choose|k: int|
            0 <= k < rivals.len() && codec::has_extension(#[trigger] rivals[k], x);
        assert(rivals[k] == before[at[k]]);
        assert(collide(before[at[k]], entry));
    }
}

/// Words are joined from left to right with the separator between every two of them.
pub proof fn law_words_are_joined(a: Seq<Seq<char>>, b: Seq<Seq<char>>, separator: Seq<char>)
    requires
        a.len() > 0,
        b.len() > 0,
    ensures
        feature_images::separated(a + b, separator) == feature_images::separated(a, separator)
            + separator + feature_images::separated(b, separator),
        forall|word: Seq<char>| #[trigger]
            feature_images::separated(seq![word], separator) == word,
        feature_images::separated(Seq::empty(), separator) == Seq::<char>::empty(),
    decreases b.len(),
{
    assert forall|word: Seq<char>| #[trigger]
        feature_images::separated(seq![word], separator) == word by {
        let one = seq![word];
        assert(one.drop_last() =~= Seq::empty());
        assert(one.last() == word);
    }
    let all = a + b;
    assert(all.drop_last() =~= a + b.drop_last());
    assert(all.last() == b.last());
    if b.len() == 1 {
        assert(b.drop_last() =~= Seq::empty());
        assert(a + b.drop_last() =~= a);
        assert(b =~= seq![b[0]]);
        assert(feature_images::separated(seq![b[0]], separator) == b[0]);
    } else {
        law_words_are_joined(a, b.drop_last(), separator);
    }
    assert(feature_images::separated(all, separator) =~= feature_images::separated(a, separator)
        + separator + feature_images::separated(b, separator));
}

} // verus!
