//! What reading a corpus gives back of writing it.
use crate::arena;
use crate::corpus;
use crate::corpus::{CorpusFault, CorpusModel, GoldModel, HeaderModel, InstanceModel, ObjectReader};
use crate::corpus_writer;
use crate::text;
use vstd::prelude::*;

verus! {

/// What is left of a text without the white space at its end is its start.
proof fn lemma_trim_end(s: Seq<char>)
    ensures
        text::trim_end(s).len() <= s.len(),
        text::trim_end(s) == s.take(text::trim_end(s).len() as int),
        forall|i: int|
            text::trim_end(s).len() <= i < s.len() ==> text::white_space(#[trigger] s[i]),
        text::trim_end(s).len() > 0 ==> !text::white_space(text::trim_end(s).last()),
    decreases s.len(),
{
    if s.len() > 0 && text::white_space(s.last()) {
        lemma_trim_end(s.drop_last());
        let n = text::trim_end(s).len() as int;
        assert(s.drop_last().take(n) =~= s.take(n));
        assert forall|i: int| n <= i < s.len() implies text::white_space(#[trigger] s[i]) by {
            if i < s.len() - 1 {
                assert(s.drop_last()[i] == s[i]);
            }
        }
    } else {
        assert(s.take(s.len() as int) =~= s);
    }
}

/// White space in front of a text that starts with none is all that is dropped.
proof fn lemma_trim_start_concat(space: Seq<char>, s: Seq<char>)
    requires
        text::blank(space),
        s.len() > 0,
        !text::white_space(s[0]),
    ensures
        text::trim_start(space + s) == s,
    decreases space.len(),
{
    if space.len() == 0 {
        assert(space + s =~= s);
    } else {
        assert(text::white_space(space[0]));
        let rest = space.skip(1);
        assert forall|i: int| 0 <= i < rest.len() implies text::white_space(#[trigger] rest[i]) by {
            assert(space[i + 1] == rest[i]);
        }
        lemma_trim_start_concat(rest, s);
        assert((space + s).skip(1) =~= rest + s);
    }
}

/// A text without `c` in front of `c` is what stands before it.
proof fn lemma_before_char(s: Seq<char>, c: char, rest: Seq<char>)
    requires
        forall|i: int| 0 <= i < s.len() ==> #[trigger] s[i] != c,
    ensures
        text::before_char(s + seq![c] + rest, c) == s,
    decreases s.len(),
{
    let all = s + seq![c] + rest;
    if s.len() == 0 {
        assert(all[0] == c);
        assert(s =~= Seq::empty());
    } else {
        let tail = s.skip(1);
        assert forall|i: int| 0 <= i < tail.len() implies #[trigger] tail[i] != c by {
            assert(s[i + 1] == tail[i]);
        }
        lemma_before_char(tail, c, rest);
        assert(all[0] == s[0]);
        assert(all.skip(1) =~= tail + seq![c] + rest);
        assert(seq![s[0]] + tail =~= s);
    }
}

/// The name in the version line starts where the prefix ends.
proof fn lemma_name_place(prefix: Seq<char>, rest: Seq<char>)
    requires
        !text::occurs(prefix, "IRTG"@),
    ensures
        text::first_at(prefix + ("IRTG"@ + rest), "IRTG"@, prefix.len() as int),
{
    reveal_strlit("IRTG");
    let name = "IRTG"@;
    let line = prefix + (name + rest);
    let n = prefix.len() as int;
    assert(line.subrange(n, n + 4) =~= name);
    assert forall|j: int| 0 <= j < n implies !text::stands_at(line, name, j) by {
        if text::stands_at(line, name, j) {
            let part = line.subrange(j, j + 4);
            assert(part[0] == 'I' && part[1] == 'R' && part[2] == 'T' && part[3] == 'G');
            if j + 4 <= n {
                assert(prefix.subrange(j, j + 4) =~= name);
                assert(text::stands_at(prefix, name, j));
            } else {
                let d = n - j;
                assert(line[n] == name[0]);
                assert(part[d] == line[n]);
            }
        }
    }
}

/// The version line says what it was written from.
proof fn lemma_version_line(prefix: Seq<char>, annotated: bool)
    requires
        !text::occurs(prefix, "IRTG"@),
    ensures
        corpus::first_line(corpus_writer::version_line(prefix, annotated)) == Ok::<
            (bool, Seq<char>),
            CorpusFault,
        >((annotated, text::trim_end(prefix))),
{
    reveal_strlit("IRTG");
    reveal_strlit("IRTG ");
    reveal_strlit("annotated");
    reveal_strlit("unannotated");
    reveal_strlit(" corpus file, v1.0");
    reveal_strlit("1.0");
    let line = corpus_writer::version_line(prefix, annotated);
    let kind = if annotated { "annotated"@ } else { "unannotated"@ };
    let tail = seq![' '] + kind + " corpus file, v1.0"@;
    let rest = "IRTG"@ + tail;
    assert("IRTG "@ =~= "IRTG"@ + seq![' ']);
    assert(line =~= prefix + rest);
    lemma_name_place(prefix, tail);
    let n = prefix.len() as int;
    assert(text::stands_at(line, "IRTG"@, n));
    assert(text::occurs(line, "IRTG"@));
    let at = choose|i: int| text::first_at(line, "IRTG"@, i);
    assert(at == n) by {
        if at < n {
            assert(!text::stands_at(line, "IRTG"@, at));
        } else if n < at {
            assert(!text::stands_at(line, "IRTG"@, n));
        }
    }
    assert(line.skip(n) =~= rest);
    assert(line.take(n) =~= prefix);
    let k = kind.len() as int;
    let version = 5 + k + 15;
    assert(rest.subrange(version, version + 3) =~= "1.0"@);
    assert(text::stands_at(rest, "1.0"@, version));
    assert(rest.subrange(5, 5 + k) =~= kind);
    assert(text::stands_at(rest, kind, 5));
    if annotated {
        assert forall|i: int| !text::stands_at(rest, "unannotated"@, i) by {
            if text::stands_at(rest, "unannotated"@, i) {
                let part = rest.subrange(i, i + 11);
                assert(part[0] == 'u' && part[1] == 'n');
                assert(rest[i] == 'u' && rest[i + 1] == 'n');
                lemma_no_un(rest, i);
            }
        }
    }
}

/// The annotated version line has no `un`.
proof fn lemma_no_un(rest: Seq<char>, i: int)
    requires
        rest == "IRTG"@ + (seq![' '] + "annotated"@ + " corpus file, v1.0"@),
        0 <= i,
        i + 1 < rest.len(),
    ensures
        !(rest[i] == 'u' && rest[i + 1] == 'n'),
{
    reveal_strlit("IRTG");
    reveal_strlit("annotated");
    reveal_strlit(" corpus file, v1.0");
    let a = "annotated"@;
    let b = " corpus file, v1.0"@;
    if i < 5 {
        assert(rest[0] == 'I' && rest[1] == 'R' && rest[2] == 'T' && rest[3] == 'G' && rest[4]
            == ' ');
    } else if i < 14 {
        assert(rest[i] == a[i - 5]);
        let j = i - 5;
        assert(a[j] != 'u') by {
            assert(j == 0 || j == 1 || j == 2 || j == 3 || j == 4 || j == 5 || j == 6 || j == 7
                || j == 8);
        }
    } else {
        assert(rest[i] == b[i - 14]);
        assert(rest[i + 1] == b[i - 13]);
        let j = i - 14;
        if b[j] == 'u' {
            assert(j == 5) by {
                assert(j == 0 || j == 1 || j == 2 || j == 3 || j == 4 || j == 5 || j == 6 || j == 7
                    || j == 8 || j == 9 || j == 10 || j == 11 || j == 12 || j == 13 || j == 14 || j
                    == 15 || j == 16);
            }
            assert(b[6] == 's');
        }
    }
}

/// Whether a prefix and the names of interpretations can be read back, and no comment
/// reads as the declaration of one.
pub open spec fn readable(
    prefix: Seq<char>,
    comments: Seq<Seq<char>>,
    decls: Seq<(Seq<char>, Seq<char>)>,
) -> bool {
    &&& text::trim_end(prefix).len() > 0
    &&& !text::occurs(prefix, "IRTG"@)
    &&& forall|i: int|
        0 <= i < comments.len() ==> corpus::declared(
            prefix + #[trigger] comments[i],
            text::trim_end(prefix),
        ) is None
    &&& forall|i: int|
        0 <= i < decls.len() ==> text::trim((#[trigger] decls[i]).0) == decls[i].0
            && !decls[i].0.contains(':')
}

/// A line that starts with the marker is a comment of the header.
proof fn lemma_header_comment(prefix: Seq<char>, rest: Seq<char>)
    requires
        text::trim_end(prefix).len() > 0,
    ensures
        corpus::header_comment(prefix + rest, text::trim_end(prefix)),
        corpus::header_comment(text::trim_end(prefix), text::trim_end(prefix)),
{
    lemma_trim_end(prefix);
    let marker = text::trim_end(prefix);
    let n = marker.len() as int;
    let line = prefix + rest;
    assert(line[n - 1] == marker.last());
    assert(!text::blank(line));
    assert(line.subrange(0, n) =~= marker);
    assert(!text::blank(marker)) by {
        assert(marker[n - 1] == marker.last());
    }
    assert(marker.subrange(0, n) =~= marker);
}

/// A declaration reads back as the name it was written from.
proof fn lemma_declared(prefix: Seq<char>, name: Seq<char>, class: Seq<char>)
    requires
        text::trim_end(prefix).len() > 0,
        text::trim(name) == name,
        !name.contains(':'),
    ensures
        corpus::declared(
            prefix + "interpretation "@ + name + ": "@ + class,
            text::trim_end(prefix),
        ) == Some(name),
{
    reveal_strlit("interpretation ");
    reveal_strlit(": ");
    lemma_trim_end(prefix);
    let marker = text::trim_end(prefix);
    let n = marker.len() as int;
    let keyword = "interpretation "@;
    let content = keyword + (name + seq![':'] + (seq![' '] + class));
    let line = prefix + keyword + name + ": "@ + class;
    assert(": "@ =~= seq![':'] + seq![' ']);
    let space = prefix.skip(n);
    assert(line.skip(n) =~= space + content);
    assert forall|i: int| 0 <= i < space.len() implies text::white_space(#[trigger] space[i]) by {
        assert(prefix[n + i] == space[i]);
    }
    assert(content[0] == 'i');
    lemma_trim_start_concat(space, content);
    assert(content.subrange(0, keyword.len() as int) =~= keyword);
    assert(text::stands_at(content, keyword, 0));
    assert(content.skip(keyword.len() as int) =~= name + seq![':'] + (seq![' '] + class));
    assert forall|i: int| 0 <= i < name.len() implies #[trigger] name[i] != ':' by {
        assert(name.contains(name[i]));
    }
    lemma_before_char(name, ':', seq![' '] + class);
}

/// Comments and empty comments declare nothing.
proof fn lemma_bare_marker(marker: Seq<char>)
    ensures
        corpus::declared(marker, marker) is None,
{
    reveal_strlit("interpretation ");
    assert(marker.skip(marker.len() as int) =~= Seq::empty());
}

/// The names of interpretations.
pub open spec fn names_of(decls: Seq<(Seq<char>, Seq<char>)>) -> Seq<Seq<char>> {
    Seq::new(decls.len(), |i: int| decls[i].0)
}

proof fn lemma_comments(
    lines: Seq<Seq<char>>,
    i: int,
    marker: Seq<char>,
    names: Seq<Seq<char>>,
    n: int,
)
    requires
        0 <= i,
        0 <= n,
        i + n <= lines.len(),
        forall|k: int|
            i <= k < i + n ==> corpus::header_comment(#[trigger] lines[k], marker)
                && corpus::declared(lines[k], marker) is None,
    ensures
        corpus::declarations(lines, i, marker, names) == corpus::declarations(
            lines,
            i + n,
            marker,
            names,
        ),
    decreases n,
{
    if n > 0 {
        assert(corpus::header_comment(lines[i], marker));
        lemma_comments(lines, i + 1, marker, names, n - 1);
    }
}

proof fn lemma_decls(
    lines: Seq<Seq<char>>,
    i: int,
    marker: Seq<char>,
    names: Seq<Seq<char>>,
    more: Seq<Seq<char>>,
)
    requires
        0 <= i,
        i + more.len() <= lines.len(),
        forall|k: int|
            0 <= k < more.len() ==> corpus::header_comment(#[trigger] lines[i + k], marker)
                && corpus::declared(lines[i + k], marker) == Some(more[k]),
    ensures
        corpus::declarations(lines, i, marker, names) == corpus::declarations(
            lines,
            i + more.len(),
            marker,
            names + more,
        ),
    decreases more.len(),
{
    if more.len() == 0 {
        assert(names + more =~= names);
    } else {
        assert(corpus::header_comment(lines[i + 0], marker));
        let rest = more.skip(1);
        assert forall|k: int| 0 <= k < rest.len() implies corpus::header_comment(
            #[trigger] lines[i + 1 + k],
            marker,
        ) && corpus::declared(lines[i + 1 + k], marker) == Some(rest[k]) by {
            assert(lines[i + (k + 1)] == lines[i + 1 + k]);
        }
        lemma_decls(lines, i + 1, marker, names.push(more[0]), rest);
        assert(names.push(more[0]) + rest =~= names + more);
    }
}

/// Reading gives back the header that was written: whether the corpus is annotated,
/// the prefix without the white space at its end, and the names of the
/// interpretations. The next line is the first one after the header.
pub proof fn law_header_reads_back(
    prefix: Seq<char>,
    comments: Seq<Seq<char>>,
    decls: Seq<(Seq<char>, Seq<char>)>,
    annotated: bool,
    rest: Seq<Seq<char>>,
)
    requires
        readable(prefix, comments, decls),
    ensures
        ({
            let header = corpus_writer::header_lines(prefix, comments, decls, annotated);
            corpus::header_of(header + rest) == Ok::<HeaderModel, CorpusFault>(
                HeaderModel {
                    annotated,
                    marker: text::trim_end(prefix),
                    names: names_of(decls),
                    next: header.len() as int,
                },
            )
        }),
{
    let header = corpus_writer::header_lines(prefix, comments, decls, annotated);
    let lines = header + rest;
    let marker = text::trim_end(prefix);
    let c = comments.len() as int;
    let d = decls.len() as int;
    let version = corpus_writer::version_line(prefix, annotated);
    assert(lines[0] == version);
    lemma_version_line(prefix, annotated);
    lemma_trim_end(prefix);
    assert(!text::blank(version)) by {
        let n = marker.len() as int;
        assert(version[n - 1] == marker.last());
    }
    assert(corpus::skip_blank(lines, 0) == 0);
    lemma_bare_marker(marker);
    assert forall|k: int| 1 <= k < 1 + (c + 2) implies corpus::header_comment(
        #[trigger] lines[k],
        marker,
    ) && corpus::declared(lines[k], marker) is None by {
        if k == 1 || k == c + 2 {
            assert(lines[k] == marker);
            lemma_header_comment(prefix, Seq::empty());
        } else {
            assert(lines[k] == prefix + comments[k - 2]);
            lemma_header_comment(prefix, comments[k - 2]);
        }
    }
    lemma_comments(lines, 1, marker, Seq::empty(), c + 2);
    let more = names_of(decls);
    assert forall|k: int| 0 <= k < more.len() implies corpus::header_comment(
        #[trigger] lines[c + 3 + k],
        marker,
    ) && corpus::declared(lines[c + 3 + k], marker) == Some(more[k]) by {
        let line = prefix + "interpretation "@ + decls[k].0 + ": "@ + decls[k].1;
        assert(lines[c + 3 + k] == line);
        lemma_declared(prefix, decls[k].0, decls[k].1);
        let tail = "interpretation "@ + decls[k].0 + ": "@ + decls[k].1;
        assert(line =~= prefix + tail);
        lemma_header_comment(prefix, tail);
    }
    lemma_decls(lines, c + 3, marker, Seq::empty(), more);
    assert(Seq::<Seq<char>>::empty() + more =~= more);
    let end = c + 3 + d;
    assert(header.len() == end + 1);
    assert(lines[end] == Seq::<char>::empty());
    assert(text::blank(lines[end]));
}

/// The lines of an instance that was written with a derivation are found one after the other
/// where they were written, unless one of them is blank.
proof fn lemma_instance_reads_back(
    before: Seq<Seq<char>>,
    h: HeaderModel,
    values: Seq<Seq<char>>,
    tree: Seq<char>,
    after: Seq<Seq<char>>,
)
    requires
        values.len() == h.names.len(),
        corpus::block_size(h) > 0,
        forall|k: int| 0 <= k < values.len() ==> !text::blank(#[trigger] values[k]),
        h.annotated ==> !text::blank(tree),
    ensures
        ({
            let written = corpus_writer::instance_lines(
                h.names,
                Some((values, tree)),
                Seq::empty(),
                h.annotated,
            );
            let lines = before + written + after;
            let n = corpus::block_size(h);
            let block = Seq::new(n, |k: int| before.len() + k);
            &&& corpus::block_at(lines, h, before.len() as int) == Ok::<
                Option<(Seq<int>, int)>,
                CorpusFault,
            >(Some((block, (before.len() + n) as int)))
            &&& forall|k: int|
                0 <= k < values.len() ==> (#[trigger] corpus::objects_of(
                    lines,
                    h.names,
                    block,
                )[k]) == (h.names[k], values[k], before.len() + k + 1)
            &&& h.annotated ==> lines[block[h.names.len() as int]] == tree
        }),
{
    let written = corpus_writer::instance_lines(
        h.names,
        Some((values, tree)),
        Seq::empty(),
        h.annotated,
    );
    let lines = before + written + after;
    let n = corpus::block_size(h);
    let p = before.len() as int;
    assert forall|k: int| 0 <= k < n implies !text::blank(#[trigger] lines[p + k]) by {
        assert(lines[p + k] == written[k]);
        if k < values.len() {
            assert(written[k] == values[k]);
        }
    }
    lemma_block_found(lines, p, n, Seq::empty());
    let block = Seq::new(n, |k: int| before.len() + k);
    assert(Seq::<int>::empty() + block =~= block);
    assert forall|k: int| 0 <= k < values.len() implies (#[trigger] corpus::objects_of(
        lines,
        h.names,
        block,
    )[k]) == (h.names[k], values[k], before.len() + k + 1) by {
        assert(lines[p + k] == written[k]);
        assert(written[k] == values[k]);
    }
    if h.annotated {
        let k = h.names.len() as int;
        assert(lines[p + k] == written[k]);
    }
}

proof fn lemma_block_found(lines: Seq<Seq<char>>, i: int, n: nat, done: Seq<int>)
    requires
        0 <= i,
        done.len() <= n,
        i + (n - done.len()) <= lines.len(),
        forall|k: int| i <= k < i + (n - done.len()) ==> !text::blank(#[trigger] lines[k]),
    ensures
        corpus::block_from(lines, i, n, done) == (
            done + Seq::new((n - done.len()) as nat, |k: int| i + k),
            i + (n - done.len()),
        ),
    decreases n - done.len(),
{
    let more = Seq::new((n - done.len()) as nat, |k: int| i + k);
    if done.len() == n {
        assert(done + more =~= done);
    } else {
        assert(!text::blank(lines[i]));
        assert(corpus::skip_blank(lines, i) == i);
        lemma_block_found(lines, i + 1, n, done.push(i));
        let rest = Seq::new((n - done.push(i).len()) as nat, |k: int| i + 1 + k);
        assert(done.push(i) + rest =~= done + more);
    }
}

/// The values and the derivation tree of an instance.
pub type Written = (Seq<Seq<char>>, Seq<char>);

/// The lines of instances with derivations, one after the other.
spec fn derived_lines(h: HeaderModel, list: Seq<Written>) -> Seq<Seq<char>>
    decreases list.len(),
{
    if list.len() == 0 {
        Seq::empty()
    } else {
        corpus_writer::instance_lines(h.names, Some(list[0]), Seq::empty(), h.annotated)
            + derived_lines(h, list.skip(1))
    }
}

/// What is read of an instance whose first line has the number `at`, counted from zero.
pub open spec fn instance_back(h: HeaderModel, one: Written, at: int) -> InstanceModel {
    InstanceModel {
        objects: Seq::new(h.names.len(), |k: int| (h.names[k], one.0[k], at + k + 1)),
        gold: if h.annotated {
            Some(arena::spelled_tree(one.1)->Ok_0)
        } else {
            None
        },
    }
}

/// What is read of instances whose first line has the number `at`, counted from zero.
pub open spec fn instances_back(h: HeaderModel, list: Seq<Written>, at: int) -> Seq<InstanceModel>
    decreases list.len(),
{
    if list.len() == 0 {
        Seq::empty()
    } else {
        seq![instance_back(h, list[0], at)] + instances_back(
            h,
            list.skip(1),
            at + corpus::block_size(h) + 1,
        )
    }
}

/// Whether an instance can be read: no line is blank, the texts are objects, and the
/// derivation is a tree.
pub open spec fn instance_readable<R: ObjectReader>(h: HeaderModel, one: Written, reader: &R) -> bool {
    &&& one.0.len() == h.names.len()
    &&& forall|k: int|
        0 <= k < one.0.len() ==> !text::blank(#[trigger] one.0[k]) && reader.refusal(
            h.names[k],
            one.0[k],
        ) is None
    &&& h.annotated ==> !text::blank(one.1) && arena::spelled_tree(one.1) is Ok
}

/// A blank line in front of an instance makes no difference.
proof fn lemma_blank_before(lines: Seq<Seq<char>>, i: int, n: nat, done: Seq<int>)
    requires
        0 <= i < lines.len(),
        text::blank(lines[i]),
        done.len() < n,
    ensures
        corpus::block_from(lines, i, n, done) == corpus::block_from(lines, i + 1, n, done),
{
    assert(corpus::skip_blank(lines, i) == corpus::skip_blank(lines, i + 1));
}

/// Objects that are not refused give no fault.
proof fn lemma_not_refused<R: ObjectReader>(
    objects: Seq<(Seq<char>, Seq<char>, int)>,
    reader: &R,
)
    requires
        forall|k: int|
            0 <= k < objects.len() ==> reader.refusal(
                (#[trigger] objects[k]).0,
                objects[k].1,
            ) is None,
    ensures
        corpus::refused(objects, reader) is None,
    decreases objects.len(),
{
    if objects.len() > 0 {
        let rest = objects.skip(1);
        assert forall|k: int| 0 <= k < rest.len() implies reader.refusal(
            (#[trigger] rest[k]).0,
            rest[k].1,
        ) is None by {
            assert(rest[k] == objects[k + 1]);
        }
        lemma_not_refused(rest, reader);
    }
}

/// Reading from the first line of the instances, or from a blank line in front of it,
/// gives back the instances.
proof fn lemma_instances_back<R: ObjectReader>(
    before: Seq<Seq<char>>,
    h: HeaderModel,
    list: Seq<Written>,
    reader: &R,
    i: int,
    done: Seq<InstanceModel>,
)
    requires
        corpus::block_size(h) > 0,
        forall|k: int| 0 <= k < list.len() ==> instance_readable(h, #[trigger] list[k], reader),
        0 <= i,
        i == before.len() || (i == before.len() - 1 && text::blank(before[i])),
    ensures
        corpus::instances_from(
            before + derived_lines(h, list),
            h,
            i,
            reader,
            None,
            done,
        ) == Ok::<Seq<InstanceModel>, CorpusFault>(
            done + instances_back(h, list, before.len() as int),
        ),
    decreases list.len(),
{
    let lines = before + derived_lines(h, list);
    let n = corpus::block_size(h);
    let p = before.len() as int;
    if list.len() == 0 {
        assert(lines =~= before);
        assert(done + instances_back(h, list, p) =~= done);
        if i < lines.len() {
            lemma_blank_before(lines, i, n, Seq::empty());
            assert(corpus::skip_blank(lines, p) == lines.len());
        }
    } else {
        let one = list[0];
        let rest = list.skip(1);
        let written = corpus_writer::instance_lines(
            h.names,
            Some(one),
            Seq::empty(),
            h.annotated,
        );
        let after = derived_lines(h, rest);
        assert(instance_readable(h, one, reader));
        assert(lines =~= before + written + after);
        lemma_instance_reads_back(before, h, one.0, one.1, after);
        if i < p {
            assert(lines[i] == before[i]);
            lemma_blank_before(lines, i, n, Seq::empty());
        }
        let block = Seq::new(n, |k: int| before.len() + k);
        assert(corpus::block_at(lines, h, i) == corpus::block_at(lines, h, p));
        let objects = corpus::objects_of(lines, h.names, block);
        let back = instance_back(h, one, p);
        assert(objects =~= back.objects) by {
            assert forall|k: int| 0 <= k < objects.len() implies objects[k] == back.objects[k] by {
                assert(corpus::objects_of(lines, h.names, block)[k] == (
                    h.names[k],
                    one.0[k],
                    p + k + 1,
                ));
            }
        }
        assert forall|k: int| 0 <= k < objects.len() implies reader.refusal(
            (#[trigger] objects[k]).0,
            objects[k].1,
        ) is None by {
            assert(objects[k] == back.objects[k]);
            assert(reader.refusal(h.names[k], one.0[k]) is None);
        }
        lemma_not_refused(objects, reader);
        assert(corpus::gold_of(lines, h, block) == Ok::<Option<GoldModel>, CorpusFault>(back.gold));
        let next = p + n as int;
        assert(corpus::instance_at(lines, h, i, reader) == Ok::<
            Option<(InstanceModel, int)>,
            CorpusFault,
        >(Some((back, next))));
        let longer = before + written;
        assert(written.len() == n + 1);
        assert(longer[next] == Seq::<char>::empty());
        assert forall|k: int| 0 <= k < rest.len() implies instance_readable(
            h,
            #[trigger] rest[k],
            reader,
        ) by {
            assert(rest[k] == list[k + 1]);
        }
        lemma_instances_back(longer, h, rest, reader, next, done.push(back));
        assert(longer + after =~= lines);
        assert(done.push(back) + instances_back(h, rest, p + n + 1) =~= done + instances_back(
            h,
            list,
            p,
        ));
    }
}

/// An instance as it is handed to the writer: a derivation with its values, if there is
/// one, and the objects that are echoed otherwise.
pub struct WrittenInstance {
    pub derivation: Option<Written>,
    pub objects: Seq<(Seq<char>, Seq<char>, int)>,
}

/// What the lines of an instance say: without a derivation the texts of its objects, with
/// `_null_` for each that is missing and for the derivation.
pub open spec fn said(h: HeaderModel, one: WrittenInstance) -> Written {
    match one.derivation {
        Some(d) => d,
        None => (
            Seq::new(
                h.names.len(),
                |k: int|
                    match corpus::text_of(one.objects, h.names[k]) {
                        Some(text) => text,
                        None => "_null_"@,
                    },
            ),
            "_null_"@,
        ),
    }
}

/// What the lines of instances say.
pub open spec fn all_said(h: HeaderModel, list: Seq<WrittenInstance>) -> Seq<Written> {
    Seq::new(list.len(), |i: int| said(h, list[i]))
}

/// The lines of instances, one after the other.
pub open spec fn written_lines(h: HeaderModel, list: Seq<WrittenInstance>) -> Seq<Seq<char>>
    decreases list.len(),
{
    if list.len() == 0 {
        Seq::empty()
    } else {
        corpus_writer::instance_lines(h.names, list[0].derivation, list[0].objects, h.annotated)
            + written_lines(h, list.skip(1))
    }
}

/// The lines of an instance are those of a derivation that says the same.
proof fn lemma_said(h: HeaderModel, one: WrittenInstance)
    ensures
        corpus_writer::instance_lines(h.names, one.derivation, one.objects, h.annotated)
            == corpus_writer::instance_lines(
            h.names,
            Some(said(h, one)),
            Seq::empty(),
            h.annotated,
        ),
{
    let a = corpus_writer::instance_lines(h.names, one.derivation, one.objects, h.annotated);
    let b = corpus_writer::instance_lines(
        h.names,
        Some(said(h, one)),
        Seq::empty(),
        h.annotated,
    );
    assert(a.len() == b.len());
    assert forall|k: int| 0 <= k < a.len() implies a[k] == b[k] by {
    }
    assert(a =~= b);
}

proof fn lemma_written_lines(h: HeaderModel, list: Seq<WrittenInstance>)
    ensures
        written_lines(h, list) == derived_lines(h, all_said(h, list)),
    decreases list.len(),
{
    if list.len() > 0 {
        lemma_said(h, list[0]);
        lemma_written_lines(h, list.skip(1));
        assert(all_said(h, list).skip(1) =~= all_said(h, list.skip(1)));
    }
}

/// Reading gives back an instance that was written, with a derivation or without one: its
/// lines are found one after the other where they were written, unless one of them is blank.
pub proof fn law_instance_reads_back(
    before: Seq<Seq<char>>,
    h: HeaderModel,
    one: WrittenInstance,
    after: Seq<Seq<char>>,
)
    requires
        said(h, one).0.len() == h.names.len(),
        corpus::block_size(h) > 0,
        forall|k: int|
            0 <= k < said(h, one).0.len() ==> !text::blank(#[trigger] said(h, one).0[k]),
        h.annotated ==> !text::blank(said(h, one).1),
    ensures
        ({
            let written = corpus_writer::instance_lines(
                h.names,
                one.derivation,
                one.objects,
                h.annotated,
            );
            let lines = before + written + after;
            let n = corpus::block_size(h);
            let block = Seq::new(n, |k: int| before.len() + k);
            &&& corpus::block_at(lines, h, before.len() as int) == Ok::<
                Option<(Seq<int>, int)>,
                CorpusFault,
            >(Some((block, (before.len() + n) as int)))
            &&& forall|k: int|
                0 <= k < h.names.len() ==> (#[trigger] corpus::objects_of(
                    lines,
                    h.names,
                    block,
                )[k]) == (h.names[k], said(h, one).0[k], before.len() + k + 1)
            &&& h.annotated ==> lines[block[h.names.len() as int]] == said(h, one).1
        }),
{
    lemma_said(h, one);
    let d = said(h, one);
    lemma_instance_reads_back(before, h, d.0, d.1, after);
}

/// Reading gives back the corpus that was written: the header, and every instance with its
/// values, the numbers of its lines and, in an annotated corpus, the tree that its last
/// line spells. An instance without a derivation gives back the texts that were echoed.
pub proof fn law_corpus_reads_back<R: ObjectReader>(
    prefix: Seq<char>,
    comments: Seq<Seq<char>>,
    decls: Seq<(Seq<char>, Seq<char>)>,
    annotated: bool,
    list: Seq<WrittenInstance>,
    reader: &R,
)
    requires
        readable(prefix, comments, decls),
        decls.len() > 0 || annotated,
        ({
            let header = corpus_writer::header_lines(prefix, comments, decls, annotated);
            let h = HeaderModel {
                annotated,
                marker: text::trim_end(prefix),
                names: names_of(decls),
                next: header.len() as int,
            };
            forall|k: int|
                0 <= k < list.len() ==> instance_readable(
                    h,
                    said(h, #[trigger] list[k]),
                    reader,
                )
        }),
    ensures
        ({
            let header = corpus_writer::header_lines(prefix, comments, decls, annotated);
            let h = HeaderModel {
                annotated,
                marker: text::trim_end(prefix),
                names: names_of(decls),
                next: header.len() as int,
            };
            corpus::corpus_of(header + written_lines(h, list), reader, None) == Ok::<
                CorpusModel,
                CorpusFault,
            >(
                CorpusModel {
                    annotated,
                    marker: h.marker,
                    names: h.names,
                    instances: instances_back(h, all_said(h, list), header.len() as int),
                },
            )
        }),
{
    let header = corpus_writer::header_lines(prefix, comments, decls, annotated);
    let h = HeaderModel {
        annotated,
        marker: text::trim_end(prefix),
        names: names_of(decls),
        next: header.len() as int,
    };
    let told = all_said(h, list);
    assert forall|k: int| 0 <= k < told.len() implies instance_readable(
        h,
        #[trigger] told[k],
        reader,
    ) by {
        assert(told[k] == said(h, list[k]));
    }
    lemma_written_lines(h, list);
    law_header_reads_back(prefix, comments, decls, annotated, written_lines(h, list));
    lemma_instances_back(header, h, told, reader, header.len() as int, Seq::empty());
    let back = instances_back(h, told, header.len() as int);
    assert(Seq::<InstanceModel>::empty() + back =~= back);
}

} // verus!
