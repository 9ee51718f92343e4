//! What trimming a text leaves.
use crate::text;
use vstd::prelude::*;

verus! {

/// Whether a text is white space throughout.
pub open spec fn is_blank(s: Seq<char>) -> bool {
    forall|i: int| 0 <= i < s.len() ==> text::white_space(#[trigger] s[i])
}

/// Whether a text is another one without white space at its ends; `i` is where it starts.
pub open spec fn is_trimmed_at(s: Seq<char>, r: Seq<char>, i: int) -> bool {
    &&& 0 <= i
    &&& i + r.len() <= s.len()
    &&& r == s.subrange(i, i + r.len())
    &&& is_blank(s.take(i))
    &&& is_blank(s.skip(i + r.len()))
    &&& r.len() > 0 ==> !text::white_space(r[0]) && !text::white_space(r.last())
}

/// Whether a text is another one without the white space at its ends.
pub open spec fn is_trimmed(s: Seq<char>, r: Seq<char>) -> bool {
    exists|i: int| #[trigger] is_trimmed_at(s, r, i)
}

proof fn lemma_trim_start(s: Seq<char>) -> (i: int)
    ensures
        0 <= i <= s.len(),
        text::trim_start(s) == s.skip(i),
        is_blank(s.take(i)),
        i < s.len() ==> !text::white_space(s[i]),
    decreases s.len(),
{
    if s.len() == 0 || !text::white_space(s[0]) {
        assert(s.skip(0) =~= s);
        0
    } else {
        let rest = s.skip(1);
        let i = lemma_trim_start(rest);
        assert(rest.skip(i) =~= s.skip(i + 1));
        assert forall|k: int| 0 <= k < s.take(i + 1).len() implies text::white_space(
            #[trigger] s.take(i + 1)[k],
        ) by {
            if k > 0 {
                assert(rest.take(i)[k - 1] == s[k]);
            }
        }
        if i < rest.len() {
            assert(rest[i] == s[i + 1]);
        }
        i + 1
    }
}

proof fn lemma_trim_end(s: Seq<char>) -> (n: int)
    ensures
        0 <= n <= s.len(),
        text::trim_end(s) == s.take(n),
        is_blank(s.skip(n)),
        n > 0 ==> !text::white_space(s[n - 1]),
    decreases s.len(),
{
    if s.len() == 0 || !text::white_space(s.last()) {
        assert(s.take(s.len() as int) =~= s);
        s.len() as int
    } else {
        let front = s.drop_last();
        let n = lemma_trim_end(front);
        assert(front.take(n) =~= s.take(n));
        assert forall|k: int| 0 <= k < s.skip(n).len() implies text::white_space(
            #[trigger] s.skip(n)[k],
        ) by {
            if n + k < front.len() {
                assert(front.skip(n)[k] == s[n + k]);
            }
        }
        n
    }
}

/// Trimming takes away the white space at both ends of a text, all of it and nothing else.
/// Nothing is left exactly where all was white space.
pub proof fn law_trim(s: Seq<char>)
    ensures
        is_trimmed(s, text::trim(s)),
        text::trim(s).len() == 0 <==> is_blank(s),
{
    let i = lemma_trim_start(s);
    let rest = s.skip(i);
    let n = lemma_trim_end(rest);
    let r = text::trim(s);
    assert(r =~= s.subrange(i, i + n));
    assert(r.len() == n);
    assert forall|k: int| 0 <= k < s.skip(i + n).len() implies text::white_space(
        #[trigger] s.skip(i + n)[k],
    ) by {
        assert(rest.skip(n)[k] == s[i + n + k]);
    }
    if n > 0 {
        assert(r.last() == rest[n - 1]);
        assert(i < s.len());
        assert(r[0] == s[i]);
        assert(!is_blank(s));
    } else {
        assert forall|k: int| 0 <= k < s.len() implies text::white_space(#[trigger] s[k]) by {
            if k < i {
                assert(s.take(i)[k] == s[k]);
            } else {
                assert(rest.skip(0)[k - i] == s[k]);
            }
        }
    }
    assert(is_trimmed_at(s, r, i));
}

/// Only one text is another one without the white space at its ends.
pub proof fn lemma_trimmed_once(s: Seq<char>, r: Seq<char>)
    requires
        is_trimmed(s, r),
    ensures
        text::trim(s) == r,
{
    law_trim(s);
    let t = text::trim(s);
    let i = choose|i: int| #[trigger] is_trimmed_at(s, r, i);
    let j = choose|j: int| #[trigger] is_trimmed_at(s, t, j);
    if r.len() == 0 {
        assert forall|k: int| 0 <= k < s.len() implies text::white_space(#[trigger] s[k]) by {
            if k < i {
                assert(s.take(i)[k] == s[k]);
            } else {
                assert(s.skip(i)[k - i] == s[k]);
            }
        }
        assert(t =~= r);
    } else {
        assert(r[0] == s[i]);
        assert(r.last() == s[i + r.len() - 1]);
        assert(!is_blank(s));
        assert(t[0] == s[j]);
        assert(t.last() == s[j + t.len() - 1]);
        if i < j {
            assert(s.take(j)[i] == s[i]);
        }
        if j < i {
            assert(s.take(i)[j] == s[j]);
        }
        if i + r.len() < j + t.len() {
            let k = j + t.len() - 1;
            assert(s.skip(i + r.len())[k - (i + r.len())] == s[k]);
        }
        if j + t.len() < i + r.len() {
            let k = i + r.len() - 1;
            assert(s.skip(j + t.len())[k - (j + t.len())] == s[k]);
        }
    }
}

} // verus!
