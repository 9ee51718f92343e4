//! Which lines of a corpus its instances are.
use crate::arena;
use crate::corpus;
use crate::corpus::{CorpusFault, GoldModel, HeaderModel, InstanceModel, ObjectReader};
use crate::text;
use crate::text_laws;
use vstd::prelude::*;

verus! {

/// Whether `at` are the lines from `from` up to `end` that are not blank, in their order.
pub open spec fn are_places(lines: Seq<Seq<char>>, from: int, end: int, at: Seq<int>) -> bool {
    &&& forall|k: int, l: int| 0 <= k < l < at.len() ==> (#[trigger] at[k]) < (#[trigger] at[l])
    &&& forall|k: int|
        0 <= k < at.len() ==> from <= (#[trigger] at[k]) < end && !text_laws::is_blank(lines[at[k]])
    &&& forall|i: int|
        from <= i < end && !text_laws::is_blank(#[trigger] lines[i]) ==> at.contains(i)
}

/// How many lines an instance has: one for each interpretation, and one more with the
/// derivation in an annotated corpus.
pub open spec fn lines_each(h: HeaderModel) -> nat {
    if h.annotated {
        h.names.len() + 1
    } else {
        h.names.len()
    }
}

/// Whether an instance says what stands in the lines at the given places: a line for each
/// interpretation in the declared order, with its number, and then the derivation.
pub open spec fn reads_one(
    lines: Seq<Seq<char>>,
    h: HeaderModel,
    one: InstanceModel,
    at: Seq<int>,
) -> bool {
    &&& at.len() == lines_each(h)
    &&& one.objects.len() == h.names.len()
    &&& forall|k: int|
        0 <= k < h.names.len() ==> #[trigger] one.objects[k] == (
            h.names[k],
            lines[at[k]],
            at[k] + 1,
        )
    &&& if h.annotated {
        one.gold is Some && arena::spelled_tree(lines[at[h.names.len() as int]]) == Ok::<
            GoldModel,
            Seq<char>,
        >(one.gold->0)
    } else {
        one.gold is None
    }
}

/// Whether instances say what stands in the lines at the given places, one after another.
pub open spec fn reads_all(
    lines: Seq<Seq<char>>,
    h: HeaderModel,
    list: Seq<InstanceModel>,
    at: Seq<int>,
) -> bool
    decreases list.len(),
{
    if list.len() == 0 {
        at.len() == 0
    } else {
        &&& at.len() >= lines_each(h)
        &&& reads_one(lines, h, list[0], at.take(lines_each(h) as int))
        &&& reads_all(lines, h, list.skip(1), at.skip(lines_each(h) as int))
    }
}

proof fn lemma_skip(lines: Seq<Seq<char>>, i: int)
    requires
        0 <= i <= lines.len(),
    ensures
        i <= corpus::skip_blank(lines, i) <= lines.len(),
        forall|k: int|
            i <= k < corpus::skip_blank(lines, i) ==> text_laws::is_blank(#[trigger] lines[k]),
        corpus::skip_blank(lines, i) < lines.len() ==> !text_laws::is_blank(
            lines[corpus::skip_blank(lines, i)],
        ),
    decreases lines.len() - i,
{
    if i < lines.len() {
        text_laws::law_trim(lines[i]);
        if text::blank(lines[i]) {
            lemma_skip(lines, i + 1);
        }
    }
}

proof fn lemma_join(lines: Seq<Seq<char>>, a: int, b: int, c: int, x: Seq<int>, y: Seq<int>)
    requires
        a <= b <= c,
        are_places(lines, a, b, x),
        are_places(lines, b, c, y),
    ensures
        are_places(lines, a, c, x + y),
{
    let all = x + y;
    assert forall|k: int| 0 <= k < all.len() implies a <= (#[trigger] all[k]) < c
        && !text_laws::is_blank(lines[all[k]]) by {
        if k < x.len() {
            assert(all[k] == x[k]);
        } else {
            assert(all[k] == y[k - x.len()]);
        }
    }
    assert forall|k: int, l: int| 0 <= k < l < all.len() implies (#[trigger] all[k]) < (
    #[trigger] all[l]) by {
        if l < x.len() {
            assert(all[k] == x[k] && all[l] == x[l]);
        } else if k >= x.len() {
            assert(all[k] == y[k - x.len()] && all[l] == y[l - x.len()]);
        } else {
            assert(all[k] == x[k] && all[l] == y[l - x.len()]);
        }
    }
    assert forall|i: int| a <= i < c && !text_laws::is_blank(#[trigger] lines[i]) implies all.contains(
        i,
    ) by {
        if i < b {
            assert(x.contains(i));
            let k = choose|k: int| 0 <= k < x.len() && x[k] == i;
            assert(all[k] == i);
        } else {
            assert(y.contains(i));
            let k = choose|k: int| 0 <= k < y.len() && y[k] == i;
            assert(all[x.len() + k] == i);
        }
    }
}

/// A block has the next lines that are not blank.
proof fn lemma_block(lines: Seq<Seq<char>>, i: int, n: nat, done: Seq<int>) -> (more: Seq<int>)
    requires
        0 <= i <= lines.len(),
        done.len() <= n,
    ensures
        ({
            let (block, next) = corpus::block_from(lines, i, n, done);
            &&& block == done + more
            &&& i <= next <= lines.len()
            &&& are_places(lines, i, next, more)
            &&& block.len() <= n
            &&& block.len() < n ==> next == lines.len()
        }),
    decreases n - done.len(),
{
    if done.len() >= n {
        let none: Seq<int> = Seq::empty();
        assert(done + none =~= done);
        none
    } else {
        let k = corpus::skip_blank(lines, i);
        lemma_skip(lines, i);
        if k >= lines.len() {
            let none: Seq<int> = Seq::empty();
            assert(done + none =~= done);
            none
        } else {
            let rest = lemma_block(lines, k + 1, n, done.push(k));
            let one = seq![k];
            assert(one.contains(k)) by {
                assert(one[0] == k);
            }
            assert(are_places(lines, i, k + 1, one));
            let next = corpus::block_from(lines, i, n, done).1;
            lemma_join(lines, i, k + 1, next, one, rest);
            assert(done.push(k) + rest =~= done + (one + rest));
            one + rest
        }
    }
}

/// Whether instances are the lines from `from` on: `at` are the places of their lines and
/// `end` is the line behind them.
pub open spec fn are_instances(
    lines: Seq<Seq<char>>,
    h: HeaderModel,
    from: int,
    end: int,
    list: Seq<InstanceModel>,
    at: Seq<int>,
) -> bool {
    &&& from <= end
    &&& are_places(lines, from, end, at)
    &&& reads_all(lines, h, list, at)
}

proof fn lemma_instances<R: ObjectReader>(
    lines: Seq<Seq<char>>,
    h: HeaderModel,
    i: int,
    reader: &R,
    limit: Option<usize>,
    done: Seq<InstanceModel>,
) -> (r: (Seq<InstanceModel>, Seq<int>, int))
    requires
        0 <= i <= lines.len(),
        lines_each(h) > 0,
        corpus::instances_from(lines, h, i, reader, limit, done) is Ok,
        limit matches Some(l) ==> done.len() <= l,
    ensures
        corpus::instances_from(lines, h, i, reader, limit, done) == Ok::<
            Seq<InstanceModel>,
            CorpusFault,
        >(done + r.0),
        are_instances(lines, h, i, r.2, r.0, r.1),
        r.2 <= lines.len(),
        limit matches Some(l) ==> done.len() + r.0.len() <= l,
        (limit matches Some(l) ==> done.len() + r.0.len() < l) ==> r.2 == lines.len(),
    decreases lines.len() - i,
{
    let none: Seq<InstanceModel> = Seq::empty();
    let nowhere: Seq<int> = Seq::empty();
    assert(done + none =~= done);
    assert(are_places(lines, i, i, nowhere));
    if i >= lines.len() || (limit matches Some(l) && done.len() >= l) {
        (none, nowhere, i)
    } else {
        let size = lines_each(h);
        assert(corpus::block_size(h) == size);
        let (block, next) = corpus::block_from(lines, i, size, Seq::empty());
        let found = lemma_block(lines, i, size, Seq::empty());
        assert(Seq::<int>::empty() + found =~= found);
        if block.len() == 0 {
            (none, nowhere, lines.len() as int)
        } else {
            assert(block.len() == size);
            let read = corpus::instance_at(lines, h, i, reader)->Ok_0;
            let (one, behind) = read->0;
            assert(reads_one(lines, h, one, found));
            assert(found[0] < next);
            let (list, at, end) = lemma_instances(lines, h, next, reader, limit, done.push(one));
            let all = seq![one] + list;
            lemma_join(lines, i, next, end, found, at);
            assert(all.skip(1) =~= list);
            assert((found + at).take(size as int) =~= found);
            assert((found + at).skip(size as int) =~= at);
            assert(done.push(one) + list =~= done + all);
            (all, found + at, end)
        }
    }
}

/// The instances of a corpus are the lines behind its header: blank lines apart, none is
/// left out, none is read twice, and each stands for the interpretation that is declared at
/// its place. With a limit, reading stops behind that many instances and no earlier.
pub proof fn law_instances_are_the_lines<R: ObjectReader>(
    lines: Seq<Seq<char>>,
    reader: &R,
    limit: Option<usize>,
    h: HeaderModel,
    list: Seq<InstanceModel>,
) -> (r: (Seq<int>, int))
    requires
        corpus::header_of(lines) == Ok::<HeaderModel, CorpusFault>(h),
        0 <= h.next <= lines.len(),
        lines_each(h) > 0,
        corpus::corpus_of(lines, reader, limit) is Ok,
        corpus::corpus_of(lines, reader, limit)->Ok_0.instances == list,
    ensures
        are_instances(lines, h, h.next, r.1, list, r.0),
        limit matches Some(l) ==> list.len() <= l,
        (limit matches Some(l) ==> list.len() < l) ==> r.1 == lines.len(),
{
    let none: Seq<InstanceModel> = Seq::empty();
    let (found, at, end) = lemma_instances(lines, h, h.next, reader, limit, none);
    assert(none + found =~= found);
    (at, end)
}

} // verus!
