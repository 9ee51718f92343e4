//! Trees written as text: labels with their children in brackets.
use crate::arena;
use crate::text;
use crate::text::{byte_offsets, chars_of, text_of};
use vstd::prelude::*;
use vstd::utf8;

verus! {

/// A node as it is written: its label and the numbers of its children.
pub type TextNode = (Seq<char>, Seq<nat>);

/// Why a text is no tree; positions are counted in bytes.
#[derive(Debug, PartialEq, Eq)]
pub enum TreeFault {
    ExpectedLabel(usize),
    /// A quoted label without its end.
    Unterminated(usize),
    Expected(char, usize),
    /// Something follows the tree.
    Trailing(usize),
}

/// The model of a [`TreeFault`].
pub enum TextFault {
    ExpectedLabel(nat),
    Unterminated(nat),
    Expected(char, nat),
    Trailing(nat),
}

impl View for TreeFault {
    type V = TextFault;

    open spec fn view(&self) -> TextFault {
        match self {
            TreeFault::ExpectedLabel(p) => TextFault::ExpectedLabel(*p as nat),
            TreeFault::Unterminated(p) => TextFault::Unterminated(*p as nat),
            TreeFault::Expected(c, p) => TextFault::Expected(*c, *p as nat),
            TreeFault::Trailing(p) => TextFault::Trailing(*p as nat),
        }
    }
}

/// Where white space that starts at `i` ends.
pub open spec fn after_space(c: Seq<char>, i: int) -> int
    decreases c.len() - i,
{
    if 0 <= i < c.len() && text::white_space(c[i]) {
        after_space(c, i + 1)
    } else {
        i
    }
}

/// Whether a character ends a label without quotes.
pub open spec fn ends_label(c: char) -> bool {
    text::white_space(c) || c == '(' || c == ')' || c == ','
}

/// Where a label without quotes that starts at `i` ends.
pub open spec fn label_end(c: Seq<char>, i: int) -> int
    decreases c.len() - i,
{
    if 0 <= i < c.len() && !ends_label(c[i]) {
        label_end(c, i + 1)
    } else {
        i
    }
}

/// The first place of a quote from `i` on, or the end.
pub open spec fn quote_end(c: Seq<char>, i: int, quote: char) -> int
    decreases c.len() - i,
{
    if 0 <= i < c.len() && c[i] != quote {
        quote_end(c, i + 1, quote)
    } else {
        i
    }
}

/// The label at `i` and where it ends.
pub open spec fn label_at(c: Seq<char>, i: int) -> Result<(Seq<char>, int), TextFault> {
    if i >= c.len() {
        Err(TextFault::ExpectedLabel(text::byte_offset(c, i)))
    } else if c[i] == '\'' || c[i] == '"' {
        let end = quote_end(c, i + 1, c[i]);
        if end < c.len() {
            Ok((c.subrange(i + 1, end), end + 1))
        } else {
            Err(TextFault::Unterminated(text::byte_offset(c, i + 1)))
        }
    } else {
        let end = label_end(c, i);
        if end > i {
            Ok((c.subrange(i, end), end))
        } else {
            Err(TextFault::ExpectedLabel(text::byte_offset(c, i)))
        }
    }
}

/// Whether character `i` is the given one.
pub open spec fn is_char(c: Seq<char>, i: int, wanted: char) -> bool {
    0 <= i < c.len() && c[i] == wanted
}

/// Reads a tree at `i`: the nodes with those of the tree, children first, and where it
/// ends.
pub open spec fn tree_from(c: Seq<char>, i: int, nodes: Seq<TextNode>) -> (
    Seq<TextNode>,
    Result<int, TextFault>,
)
    decreases c.len() - i, 0nat,
{
    match label_at(c, after_space(c, i)) {
        Err(f) => (nodes, Err(f)),
        Ok((label, k)) => {
            let open = after_space(c, k);
            let first = after_space(c, open + 1);
            if !is_char(c, open, '(') {
                (nodes.push((label, Seq::empty())), Ok(open))
            } else if is_char(c, first, ')') {
                (nodes.push((label, Seq::empty())), Ok(first + 1))
            } else if i < first <= c.len() {
                let (all, kids, end) = trees_from(c, first, nodes, Seq::empty());
                match end {
                    Err(f) => (all, Err(f)),
                    Ok(e) => (all.push((label, kids)), Ok(e)),
                }
            } else {
                arbitrary()
            }
        },
    }
}

/// Reads the rest of a list of children at `i`, which ends with a bracket.
pub open spec fn trees_from(
    c: Seq<char>,
    i: int,
    nodes: Seq<TextNode>,
    kids: Seq<nat>,
) -> (Seq<TextNode>, Seq<nat>, Result<int, TextFault>)
    decreases c.len() - i, 1nat,
{
    let (all, end) = tree_from(c, i, nodes);
    match end {
        Err(f) => (all, kids, Err(f)),
        Ok(e) => {
            let more = kids.push((all.len() - 1) as nat);
            let next = after_space(c, e);
            if is_char(c, next, ',') {
                if i < next + 1 <= c.len() {
                    trees_from(c, next + 1, all, more)
                } else {
                    arbitrary()
                }
            } else if is_char(c, next, ')') {
                (all, more, Ok(next + 1))
            } else {
                (all, more, Err(TextFault::Expected(')', text::byte_offset(c, next))))
            }
        },
    }
}

/// The nodes of a text, and what is wrong with it, if anything.
pub open spec fn spelled(c: Seq<char>) -> (Seq<TextNode>, Option<TextFault>) {
    let (nodes, end) = tree_from(c, 0, Seq::empty());
    match end {
        Err(f) => (nodes, Some(f)),
        Ok(e) => if after_space(c, e) < c.len() {
            (nodes, Some(TextFault::Trailing(text::byte_offset(c, after_space(c, e)))))
        } else {
            (nodes, None)
        },
    }
}

/// Skips white space.
fn skip_space(c: &Vec<char>, i: usize) -> (r: usize)
    requires
        i <= c@.len(),
    ensures
        r == after_space(c@, i as int),
        i <= r <= c@.len(),
{
    let mut r: usize = i;
    while r < c.len() && c[r].is_whitespace()
        invariant
            i <= r <= c@.len(),
            after_space(c@, i as int) == after_space(c@, r as int),
        decreases c@.len() - r,
    {
        r += 1;
    }
    r
}

/// Reads a label.
fn read_label(c: &Vec<char>, i: usize, offsets: &Vec<usize>) -> (r: Result<
    (String, usize),
    TreeFault,
>)
    requires
        i <= c@.len(),
        offsets@.len() == c@.len() + 1,
        forall|j: int| 0 <= j < offsets@.len() ==> #[trigger] offsets@[j] == text::byte_offset(c@, j),
    ensures
        match r {
            Ok((label, end)) => label_at(c@, i as int) == Ok::<(Seq<char>, int), TextFault>(
                (label@, end as int),
            ) && i < end <= c@.len(),
            Err(f) => label_at(c@, i as int) == Err::<(Seq<char>, int), TextFault>(f@),
        },
{
    if i >= c.len() {
        return Err(TreeFault::ExpectedLabel(offsets[i]));
    }
    let quote = c[i];
    if quote == '\'' || quote == '"' {
        let start: usize = i + 1;
        let mut end: usize = start;
        while end < c.len() && c[end] != quote
            invariant
                start <= end <= c@.len(),
                quote_end(c@, start as int, quote) == quote_end(c@, end as int, quote),
            decreases c@.len() - end,
        {
            end += 1;
        }
        if end < c.len() {
            return Ok((text_of(c, start, end), end + 1));
        }
        return Err(TreeFault::Unterminated(offsets[start]));
    }
    let mut end: usize = i;
    while end < c.len() && !(c[end].is_whitespace() || c[end] == '(' || c[end] == ')' || c[end]
        == ',')
        invariant
            i <= end <= c@.len(),
            label_end(c@, i as int) == label_end(c@, end as int),
        decreases c@.len() - end,
    {
        end += 1;
    }
    if end > i {
        Ok((text_of(c, i, end), end))
    } else {
        Err(TreeFault::ExpectedLabel(offsets[i]))
    }
}

/// A node that has been read.
#[derive(Debug)]
pub struct LabelNode {
    pub label: String,
    pub children: Vec<usize>,
}

/// The numbers of a list.
pub open spec fn numbers_of(list: Seq<usize>) -> Seq<nat> {
    Seq::new(list.len(), |i: int| list[i] as nat)
}

/// The models of nodes.
pub open spec fn node_texts(nodes: Seq<LabelNode>) -> Seq<TextNode> {
    Seq::new(nodes.len(), |i: int| (nodes[i].label@, numbers_of(nodes[i].children@)))
}

/// Whether the nodes only grew, no faster than the text was read, children first.
spec fn grown(before: Seq<LabelNode>, after: Seq<LabelNode>, from: int, to: int) -> bool {
    &&& before.len() <= after.len()
    &&& after.len() - before.len() <= to - from
    &&& arena::children_first(node_texts(before)) ==> arena::children_first(node_texts(after))
}

/// Whether all numbers are below `n`.
spec fn all_below(list: Seq<usize>, n: nat) -> bool {
    forall|j: int| 0 <= j < list.len() ==> (#[trigger] list[j]) < n
}

/// Adds a node whose children are there.
fn add_node(nodes: &mut Vec<LabelNode>, label: String, children: Vec<usize>)
    requires
        all_below(children@, old(nodes)@.len()),
    ensures
        node_texts(final(nodes)@) == node_texts(old(nodes)@).push(
            (label@, numbers_of(children@)),
        ),
        final(nodes)@.len() == old(nodes)@.len() + 1,
        arena::children_first(node_texts(old(nodes)@)) ==> arena::children_first(
            node_texts(final(nodes)@),
        ),
{
    let ghost before = node_texts(nodes@);
    nodes.push(LabelNode { label, children });
    proof {
        let after = node_texts(nodes@);
        assert(after =~= before.push((label@, numbers_of(children@))));
        if arena::children_first(before) {
            assert forall|i: int, k: int|
                0 <= i < after.len() && 0 <= k < after[i].1.len() implies #[trigger] after[i].1[k]
                < i by {
                if i < before.len() {
                    assert(after[i] == before[i]);
                    assert(before[i].1[k] < i);
                } else {
                    assert(children@[k] < nodes@.len() - 1);
                }
            }
        }
    }
}

/// Reads a tree.
fn read_tree(
    c: &Vec<char>,
    i: usize,
    offsets: &Vec<usize>,
    nodes: &mut Vec<LabelNode>,
) -> (r: Result<usize, TreeFault>)
    requires
        i <= c@.len(),
        offsets@.len() == c@.len() + 1,
        forall|j: int| 0 <= j < offsets@.len() ==> #[trigger] offsets@[j] == text::byte_offset(c@, j),
    ensures
        match r {
            Ok(end) => tree_from(c@, i as int, node_texts(old(nodes)@)) == (
                node_texts(final(nodes)@),
                Ok::<int, TextFault>(end as int),
            ) && i < end <= c@.len() && final(nodes)@.len() > old(nodes)@.len() && grown(
                old(nodes)@,
                final(nodes)@,
                i as int,
                end as int,
            ),
            Err(f) => tree_from(c@, i as int, node_texts(old(nodes)@)) == (
                node_texts(final(nodes)@),
                Err::<int, TextFault>(f@),
            ) && grown(old(nodes)@, final(nodes)@, i as int, c@.len() as int),
        },
    decreases c@.len() - i, 0nat,
{
    let start: usize = skip_space(c, i);
    let (label, k) = match read_label(c, start, offsets) {
        Ok(found) => found,
        Err(fault) => {
            return Err(fault);
        },
    };
    let open: usize = skip_space(c, k);
    if open >= c.len() || c[open] != '(' {
        let none: Vec<usize> = Vec::new();
        assert(numbers_of(none@) =~= Seq::empty());
        add_node(nodes, label, none);
        return Ok(open);
    }
    let first: usize = skip_space(c, open + 1);
    if first < c.len() && c[first] == ')' {
        let none: Vec<usize> = Vec::new();
        assert(numbers_of(none@) =~= Seq::empty());
        add_node(nodes, label, none);
        return Ok(first + 1);
    }
    let mut children: Vec<usize> = Vec::new();
    assert(numbers_of(children@) =~= Seq::empty());
    let end: usize = match read_trees(c, first, offsets, nodes, &mut children) {
        Ok(end) => end,
        Err(fault) => {
            return Err(fault);
        },
    };
    add_node(nodes, label, children);
    Ok(end)
}

/// Reads the rest of a list of children.
fn read_trees(
    c: &Vec<char>,
    i: usize,
    offsets: &Vec<usize>,
    nodes: &mut Vec<LabelNode>,
    children: &mut Vec<usize>,
) -> (r: Result<usize, TreeFault>)
    requires
        i <= c@.len(),
        offsets@.len() == c@.len() + 1,
        forall|j: int| 0 <= j < offsets@.len() ==> #[trigger] offsets@[j] == text::byte_offset(c@, j),
        all_below(old(children)@, old(nodes)@.len()),
    ensures
        all_below(final(children)@, final(nodes)@.len()),
        match r {
            Ok(end) => trees_from(
                c@,
                i as int,
                node_texts(old(nodes)@),
                numbers_of(old(children)@),
            ) == (
                node_texts(final(nodes)@),
                numbers_of(final(children)@),
                Ok::<int, TextFault>(end as int),
            ) && i < end <= c@.len() && grown(
                old(nodes)@,
                final(nodes)@,
                i as int,
                end as int - 1,
            ),
            Err(f) => {
                let found = trees_from(
                    c@,
                    i as int,
                    node_texts(old(nodes)@),
                    numbers_of(old(children)@),
                );
                found.0 == node_texts(final(nodes)@) && found.2 == Err::<int, TextFault>(f@)
                    && grown(old(nodes)@, final(nodes)@, i as int, c@.len() as int)
            },
        },
    decreases c@.len() - i, 1nat,
{
    let ghost before = children@;
    let end: usize = match read_tree(c, i, offsets, nodes) {
        Ok(end) => end,
        Err(fault) => {
            return Err(fault);
        },
    };
    let number: usize = nodes.len() - 1;
    children.push(number);
    proof {
        assert(numbers_of(children@) =~= numbers_of(before).push(number as nat));
        assert(node_texts(nodes@).len() == nodes@.len());
    }
    let next: usize = skip_space(c, end);
    if next < c.len() && c[next] == ',' {
        return read_trees(c, next + 1, offsets, nodes, children);
    }
    if next < c.len() && c[next] == ')' {
        return Ok(next + 1);
    }
    Err(TreeFault::Expected(')', offsets[next]))
}

/// A text that has been read: nodes, children first, and what is wrong, if anything.
#[derive(Debug)]
pub struct SpelledTree {
    pub nodes: Vec<LabelNode>,
    pub fault: Option<TreeFault>,
}

/// Reads a tree; the root is the last node.
pub fn spell(s: &str) -> (r: SpelledTree)
    requires
        utf8::encode_utf8(s@).len() <= usize::MAX,
    ensures
        node_texts(r.nodes@) == spelled(s@).0,
        match r.fault {
            Some(f) => spelled(s@).1 == Some(f@),
            None => spelled(s@).1 is None && r.nodes@.len() > 0,
        },
        arena::children_first(node_texts(r.nodes@)),
        r.nodes@.len() <= s@.len(),
{
    let c = chars_of(s);
    let offsets = byte_offsets(&c);
    let mut nodes: Vec<LabelNode> = Vec::new();
    assert(node_texts(nodes@) =~= Seq::empty());
    let end: usize = match read_tree(&c, 0, &offsets, &mut nodes) {
        Ok(end) => end,
        Err(fault) => {
            return SpelledTree { nodes, fault: Some(fault) };
        },
    };
    let rest: usize = skip_space(&c, end);
    if rest < c.len() {
        return SpelledTree { nodes, fault: Some(TreeFault::Trailing(offsets[rest])) };
    }
    SpelledTree { nodes, fault: None }
}

} // verus!
