//! In which order the declarations of several files come together.
use crate::codecs::tulipac::includes;
use crate::codecs::tulipac::includes::{OpenModel, WalkModel};
use crate::codecs::tulipac::syntax::DeclModel;
use vstd::prelude::*;

verus! {

/// The own declarations of the files from the last one back to file `k`.
pub open spec fn own_back<T>(
    open: Seq<OpenModel>,
    k: int,
    part: spec_fn(DeclModel) -> Seq<T>,
) -> Seq<T>
    decreases open.len(),
{
    if open.len() <= k || k < 0 {
        Seq::empty()
    } else {
        part(open.last().own) + own_back(open.drop_last(), k, part)
    }
}

/// Whether a file waits for no further inclusion.
pub open spec fn is_finished(file: OpenModel) -> bool {
    file.next >= file.includes.len()
}

/// Whether files from `k` on are closed, from the last one back: their declarations follow
/// those that were collected, kind by kind, and the files before `k` stay open.
pub open spec fn closes_from(walk: WalkModel, k: int, after: WalkModel) -> bool {
    &&& 0 <= k <= walk.open.len()
    &&& after.open == walk.open.take(k)
    &&& forall|i: int| k <= i < walk.open.len() ==> is_finished(#[trigger] walk.open[i])
    &&& k > 0 ==> !is_finished(walk.open[k - 1])
    &&& after.collected.trees == walk.collected.trees + own_back(
        walk.open,
        k,
        |d: DeclModel| d.trees,
    )
    &&& after.collected.families == walk.collected.families + own_back(
        walk.open,
        k,
        |d: DeclModel| d.families,
    )
    &&& after.collected.words == walk.collected.words + own_back(
        walk.open,
        k,
        |d: DeclModel| d.words,
    )
    &&& after.collected.lemmas == walk.collected.lemmas + own_back(
        walk.open,
        k,
        |d: DeclModel| d.lemmas,
    )
}

proof fn lemma_back<T>(open: Seq<OpenModel>, k: int, part: spec_fn(DeclModel) -> Seq<T>)
    requires
        0 <= k < open.len(),
    ensures
        own_back(open, k, part) == part(open.last().own) + own_back(open.drop_last(), k, part),
        own_back(open.drop_last(), open.len() as int, part) == Seq::<T>::empty(),
{
}

/// The files that wait for no further inclusion are closed from the last one back: what an
/// included file declares comes before what the file that includes it declares, and a file
/// with an inclusion left stays open.
pub proof fn law_included_files_come_first(walk: WalkModel) -> (k: int)
    ensures
        closes_from(walk, k, includes::settled(walk)),
    decreases walk.open.len(),
{
    let n = walk.open.len() as int;
    if n == 0 || !is_finished(walk.open.last()) {
        let after = includes::settled(walk);
        assert(walk.open.take(n) =~= walk.open);
        assert(after.collected.trees + Seq::empty() =~= after.collected.trees);
        assert(after.collected.families + Seq::empty() =~= after.collected.families);
        assert(after.collected.words + Seq::empty() =~= after.collected.words);
        assert(after.collected.lemmas + Seq::empty() =~= after.collected.lemmas);
        n
    } else {
        let front = walk.open.drop_last();
        let own = walk.open.last().own;
        let next = WalkModel {
            open: front,
            collected: DeclModel {
                trees: walk.collected.trees + own.trees,
                families: walk.collected.families + own.families,
                words: walk.collected.words + own.words,
                lemmas: walk.collected.lemmas + own.lemmas,
                includes: walk.collected.includes + own.includes,
            },
        };
        let k = law_included_files_come_first(next);
        let after = includes::settled(walk);
        assert(after == includes::settled(next));
        assert(front.take(k) =~= walk.open.take(k));
        assert forall|i: int| k <= i < walk.open.len() implies is_finished(
            #[trigger] walk.open[i],
        ) by {
            if i < n - 1 {
                assert(front[i] == walk.open[i]);
            }
        }
        if k > 0 {
            assert(front[k - 1] == walk.open[k - 1]);
        }
        lemma_back(walk.open, k, |d: DeclModel| d.trees);
        lemma_back(walk.open, k, |d: DeclModel| d.families);
        lemma_back(walk.open, k, |d: DeclModel| d.words);
        lemma_back(walk.open, k, |d: DeclModel| d.lemmas);
        assert(after.collected.trees =~= walk.collected.trees + own_back(
            walk.open,
            k,
            |d: DeclModel| d.trees,
        ));
        assert(after.collected.families =~= walk.collected.families + own_back(
            walk.open,
            k,
            |d: DeclModel| d.families,
        ));
        assert(after.collected.words =~= walk.collected.words + own_back(
            walk.open,
            k,
            |d: DeclModel| d.words,
        ));
        assert(after.collected.lemmas =~= walk.collected.lemmas + own_back(
            walk.open,
            k,
            |d: DeclModel| d.lemmas,
        ));
        k
    }
}

/// Opening a file puts it behind the open files, with all its inclusions still to come and
/// with its own declarations, which change nothing that was collected.
pub proof fn law_opened_files_wait(walk: WalkModel, path: Seq<char>, d: DeclModel)
    ensures
        ({
            let after = includes::with_open(walk, path, d);
            let file = after.open.last();
            &&& after.open.drop_last() == walk.open
            &&& after.open.len() == walk.open.len() + 1
            &&& after.collected == walk.collected
            &&& file.path == path && file.includes == d.includes && file.next == 0
            &&& file.own.trees == d.trees && file.own.families == d.families
            &&& file.own.words == d.words && file.own.lemmas == d.lemmas
        }),
{
    assert(includes::with_open(walk, path, d).open.drop_last() =~= walk.open);
}

} // verus!
