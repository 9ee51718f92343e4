//! Corpora of annotated or unannotated instances.
//!
//! A header declares the comment marker, whether the corpus is annotated, and the
//! interpretations. An instance is one line for each interpretation, in the declared
//! order, and in an annotated corpus one more line with a derivation tree. Blank
//! lines are skipped.
use crate::arena;
use crate::arena::parse_text_tree;
use crate::text;
use crate::text::{
    find_text, is_blank, same_text, starts_with, text_after, text_before, text_start, trimmed,
    trimmed_end, trimmed_rest,
};
use packed_term_arena::tree::{Tree, TreeArena};
use vstd::prelude::*;
use vstd::string::StringExecFns;

verus! {

/// Why lines do not form a corpus.
#[derive(Debug)]
pub enum CorpusError {
    /// The header line is missing or malformed.
    BadHeader,
    /// The header declares another version than `1.0`.
    BadVersion,
    /// An instance ends before all of its lines were there.
    MalformedInstance {
        /// Number of the first line of the instance, counted from one.
        line: usize,
        /// Number of lines that an instance has.
        expected: usize,
        /// Number of lines that are there.
        found: usize,
    },
    /// A line is not an object of its interpretation.
    ObjectParse {
        /// Number of the line, counted from one.
        line: usize,
        interpretation: String,
        message: String,
    },
    /// A line is not a derivation tree.
    TreeParse {
        /// Number of the line, counted from one.
        line: usize,
        message: String,
    },
}

/// What is wrong with lines.
pub enum CorpusFault {
    BadHeader,
    BadVersion,
    MalformedInstance { line: nat, expected: nat, found: nat },
    ObjectParse { line: nat, interpretation: Seq<char>, message: Seq<char> },
    TreeParse { line: nat, message: Seq<char> },
}

impl View for CorpusError {
    type V = CorpusFault;

    open spec fn view(&self) -> CorpusFault {
        match self {
            CorpusError::BadHeader => CorpusFault::BadHeader,
            CorpusError::BadVersion => CorpusFault::BadVersion,
            CorpusError::MalformedInstance { line, expected, found } => {
                CorpusFault::MalformedInstance {
                    line: *line as nat,
                    expected: *expected as nat,
                    found: *found as nat,
                }
            },
            CorpusError::ObjectParse { line, interpretation, message } => {
                CorpusFault::ObjectParse {
                    line: *line as nat,
                    interpretation: interpretation@,
                    message: message@,
                }
            },
            CorpusError::TreeParse { line, message } => CorpusFault::TreeParse {
                line: *line as nat,
                message: message@,
            },
        }
    }
}

/// The header of a corpus, and the first line after it.
#[derive(Debug)]
pub struct CorpusHeader {
    pub annotated: bool,
    pub comment_prefix: String,
    pub interpretation_order: Vec<String>,
    pub next: usize,
}

/// What a header says.
pub struct HeaderModel {
    pub annotated: bool,
    pub marker: Seq<char>,
    pub names: Seq<Seq<char>>,
    pub next: int,
}

impl View for CorpusHeader {
    type V = HeaderModel;

    open spec fn view(&self) -> HeaderModel {
        HeaderModel {
            annotated: self.annotated,
            marker: self.comment_prefix@,
            names: text::texts(self.interpretation_order@),
            next: self.next as int,
        }
    }
}

/// The first line at or after `i` that is not blank, or the end.
pub open spec fn skip_blank(lines: Seq<Seq<char>>, i: int) -> int
    decreases lines.len() - i,
{
    if i >= lines.len() {
        lines.len() as int
    } else if text::blank(lines[i]) {
        skip_blank(lines, i + 1)
    } else {
        i
    }
}

/// Whether the header line of a corpus says that it is annotated, and the marker
/// before its name.
pub open spec fn first_line(line: Seq<char>) -> Result<(bool, Seq<char>), CorpusFault> {
    if !text::occurs(line, "IRTG"@) {
        Err(CorpusFault::BadHeader)
    } else {
        let at = choose|i: int| text::first_at(line, "IRTG"@, i);
        let rest = line.skip(at);
        let marker = text::trim_end(line.take(at));
        if !text::occurs(rest, "1.0"@) {
            Err(CorpusFault::BadVersion)
        } else if text::occurs(rest, "unannotated"@) {
            Ok((false, marker))
        } else if text::occurs(rest, "annotated"@) {
            Ok((true, marker))
        } else {
            Err(CorpusFault::BadHeader)
        }
    }
}

/// Whether a line is a comment of the header.
pub open spec fn header_comment(line: Seq<char>, marker: Seq<char>) -> bool {
    !text::blank(line) && marker.len() > 0 && text::stands_at(line, marker, 0)
}

/// The interpretation that a comment of the header declares, if any.
pub open spec fn declared(line: Seq<char>, marker: Seq<char>) -> Option<Seq<char>> {
    let content = text::trim_start(line.skip(marker.len() as int));
    if text::stands_at(content, "interpretation "@, 0) {
        Some(text::trim(text::before_char(content.skip("interpretation "@.len() as int), ':')))
    } else {
        None
    }
}

/// The interpretations declared from line `i` on, after `names`, and the first line
/// after the header. A blank line ends the header and belongs to it.
pub open spec fn declarations(
    lines: Seq<Seq<char>>,
    i: int,
    marker: Seq<char>,
    names: Seq<Seq<char>>,
) -> (Seq<Seq<char>>, int)
    decreases lines.len() - i,
{
    if i >= lines.len() {
        (names, i)
    } else if text::blank(lines[i]) {
        (names, i + 1)
    } else if header_comment(lines[i], marker) {
        match declared(lines[i], marker) {
            Some(name) => declarations(lines, i + 1, marker, names.push(name)),
            None => declarations(lines, i + 1, marker, names),
        }
    } else {
        (names, i)
    }
}

/// The header of a corpus.
pub open spec fn header_of(lines: Seq<Seq<char>>) -> Result<HeaderModel, CorpusFault> {
    let i = skip_blank(lines, 0);
    if i >= lines.len() {
        Err(CorpusFault::BadHeader)
    } else {
        match first_line(lines[i]) {
            Ok((annotated, marker)) => {
                let (names, next) = declarations(lines, i + 1, marker, Seq::empty());
                Ok(HeaderModel { annotated, marker, names, next })
            },
            Err(e) => Err(e),
        }
    }
}

/// The next `n` lines that are not blank, from line `i` on, after `done`; fewer at
/// the end. Also the line that follows.
pub open spec fn block_from(lines: Seq<Seq<char>>, i: int, n: nat, done: Seq<int>) -> (
    Seq<int>,
    int,
)
    decreases n - done.len(),
{
    if done.len() >= n {
        (done, i)
    } else {
        let k = skip_blank(lines, i);
        if k >= lines.len() {
            (done, k)
        } else {
            block_from(lines, k + 1, n, done.push(k))
        }
    }
}

/// The number of lines of an instance.
pub open spec fn block_size(h: HeaderModel) -> nat {
    h.names.len() + (if h.annotated {
        1nat
    } else {
        0
    })
}

/// The text of one interpretation of an instance.
#[derive(Debug)]
pub struct InterpObject {
    /// Interpretation name.
    pub name: String,
    /// The line as it stands in the corpus.
    pub text: String,
    /// Number of the line, counted from one.
    pub line: usize,
}

impl View for InterpObject {
    type V = (Seq<char>, Seq<char>, int);

    open spec fn view(&self) -> (Seq<char>, Seq<char>, int) {
        (self.name@, self.text@, self.line as int)
    }
}

/// What objects say.
pub open spec fn object_views(list: Seq<InterpObject>) -> Seq<(Seq<char>, Seq<char>, int)> {
    Seq::new(list.len(), |i: int| list[i]@)
}

/// The objects of an instance.
pub open spec fn objects_of(lines: Seq<Seq<char>>, names: Seq<Seq<char>>, block: Seq<int>) -> Seq<
    (Seq<char>, Seq<char>, int),
> {
    Seq::new(names.len(), |k: int| (names[k], lines[block[k]], block[k] + 1))
}

/// A derivation tree in its arena.
pub struct GoldDerivation {
    pub arena: TreeArena<String>,
    pub root: Tree,
}

/// The nodes of a derivation tree and the number of its root.
pub type GoldModel = (Seq<(Seq<char>, Seq<nat>)>, nat);

impl View for GoldDerivation {
    type V = GoldModel;

    open spec fn view(&self) -> GoldModel {
        (arena::text_nodes(self.arena), arena::tree_number(self.root))
    }
}

/// The derivation tree of an instance of an annotated corpus.
pub open spec fn gold_of(lines: Seq<Seq<char>>, h: HeaderModel, block: Seq<int>) -> Result<
    Option<GoldModel>,
    CorpusFault,
> {
    if h.annotated {
        let k = block[h.names.len() as int];
        match arena::spelled_tree(lines[k]) {
            Ok(t) => Ok(Some(t)),
            Err(message) => Err(CorpusFault::TreeParse { line: (k + 1) as nat, message }),
        }
    } else {
        Ok(None)
    }
}

/// An instance of a corpus.
pub struct Instance {
    /// One object for each interpretation, in the declared order.
    pub objects: Vec<InterpObject>,
    /// The derivation tree, in an annotated corpus.
    pub gold_derivation: Option<GoldDerivation>,
}

/// What an instance says.
pub struct InstanceModel {
    pub objects: Seq<(Seq<char>, Seq<char>, int)>,
    pub gold: Option<GoldModel>,
}

/// What an optional derivation tree says.
pub open spec fn optional_gold(g: Option<GoldDerivation>) -> Option<GoldModel> {
    match g {
        Some(t) => Some(t@),
        None => None,
    }
}

impl View for Instance {
    type V = InstanceModel;

    open spec fn view(&self) -> InstanceModel {
        InstanceModel {
            objects: object_views(self.objects@),
            gold: optional_gold(self.gold_derivation),
        }
    }
}

/// The lines of the instance from line `i` on, none at the end of the corpus.
pub open spec fn block_at(lines: Seq<Seq<char>>, h: HeaderModel, i: int) -> Result<
    Option<(Seq<int>, int)>,
    CorpusFault,
> {
    let (block, next) = block_from(lines, i, block_size(h), Seq::empty());
    if block.len() == 0 {
        Ok(None)
    } else if block.len() < block_size(h) {
        Err(
            CorpusFault::MalformedInstance {
                line: (block[0] + 1) as nat,
                expected: block_size(h),
                found: block.len(),
            },
        )
    } else {
        Ok(Some((block, next)))
    }
}

/// The algebras of a grammar, as far as reading a corpus asks them.
pub trait ObjectReader {
    /// Why a text is no object of an interpretation; `None` where it is one, and where
    /// the interpretation only has output.
    spec fn refusal(&self, interpretation: Seq<char>, text: Seq<char>) -> Option<Seq<char>>;

    /// Says why a text is no object of an interpretation.
    fn refuse(&self, interpretation: &String, text: &String) -> (r: Option<String>)
        ensures
            match r {
                Some(message) => self.refusal(interpretation@, text@) == Some(message@),
                None => self.refusal(interpretation@, text@) is None,
            },
    ;
}

/// Takes every text as it stands.
#[derive(Clone, Copy, Debug, Default)]
pub struct RawObjects;

impl ObjectReader for RawObjects {
    open spec fn refusal(&self, interpretation: Seq<char>, text: Seq<char>) -> Option<Seq<char>> {
        None
    }

    fn refuse(&self, interpretation: &String, text: &String) -> (r: Option<String>) {
        None
    }
}

/// The fault of the first object that is refused.
pub open spec fn refused<R: ObjectReader>(
    objects: Seq<(Seq<char>, Seq<char>, int)>,
    reader: &R,
) -> Option<CorpusFault>
    decreases objects.len(),
{
    if objects.len() == 0 {
        None
    } else {
        match reader.refusal(objects[0].0, objects[0].1) {
            Some(message) => Some(
                CorpusFault::ObjectParse {
                    line: objects[0].2 as nat,
                    interpretation: objects[0].0,
                    message,
                },
            ),
            None => refused(objects.skip(1), reader),
        }
    }
}

/// The instance from line `i` on and the line that follows, none at the end.
pub open spec fn instance_at<R: ObjectReader>(
    lines: Seq<Seq<char>>,
    h: HeaderModel,
    i: int,
    reader: &R,
) -> Result<Option<(InstanceModel, int)>, CorpusFault> {
    match block_at(lines, h, i) {
        Ok(Some((block, next))) => match refused(objects_of(lines, h.names, block), reader) {
            Some(e) => Err(e),
            None => match gold_of(lines, h, block) {
                Ok(gold) => Ok(
                    Some(
                        (InstanceModel { objects: objects_of(lines, h.names, block), gold }, next),
                    ),
                ),
                Err(e) => Err(e),
            },
        },
        Ok(None) => Ok(None),
        Err(e) => Err(e),
    }
}

/// The instances from line `i` on, after `done`, up to a limit.
pub open spec fn instances_from<R: ObjectReader>(
    lines: Seq<Seq<char>>,
    h: HeaderModel,
    i: int,
    reader: &R,
    limit: Option<usize>,
    done: Seq<InstanceModel>,
) -> Result<Seq<InstanceModel>, CorpusFault>
    decreases lines.len() - i,
{
    if i >= lines.len() || (limit matches Some(l) && done.len() >= l) {
        Ok(done)
    } else {
        match instance_at(lines, h, i, reader) {
            Ok(Some((one, next))) => if i < next <= lines.len() {
                instances_from(lines, h, next, reader, limit, done.push(one))
            } else {
                Ok(done.push(one))
            },
            Ok(None) => Ok(done),
            Err(e) => Err(e),
        }
    }
}

/// A corpus.
pub struct Corpus {
    pub annotated: bool,
    /// The comment marker found in the header.
    pub comment_prefix: String,
    /// Interpretation names in the declared order.
    pub interpretation_order: Vec<String>,
    /// The instances, at most as many as were asked for.
    pub instances: Vec<Instance>,
}

/// What a corpus says.
pub struct CorpusModel {
    pub annotated: bool,
    pub marker: Seq<char>,
    pub names: Seq<Seq<char>>,
    pub instances: Seq<InstanceModel>,
}

/// What instances say.
pub open spec fn instance_views(list: Seq<Instance>) -> Seq<InstanceModel> {
    Seq::new(list.len(), |i: int| list[i]@)
}

impl View for Corpus {
    type V = CorpusModel;

    open spec fn view(&self) -> CorpusModel {
        CorpusModel {
            annotated: self.annotated,
            marker: self.comment_prefix@,
            names: text::texts(self.interpretation_order@),
            instances: instance_views(self.instances@),
        }
    }
}

/// The corpus that lines form, up to a number of instances, or the first fault.
pub open spec fn corpus_of<R: ObjectReader>(
    lines: Seq<Seq<char>>,
    reader: &R,
    limit: Option<usize>,
) -> Result<CorpusModel, CorpusFault> {
    match header_of(lines) {
        Ok(h) => match instances_from(lines, h, h.next, reader, limit, Seq::empty()) {
            Ok(instances) => Ok(
                CorpusModel {
                    annotated: h.annotated,
                    marker: h.marker,
                    names: h.names,
                    instances,
                },
            ),
            Err(e) => Err(e),
        },
        Err(e) => Err(e),
    }
}

fn seek_line(lines: &Vec<String>, from: usize) -> (i: usize)
    requires
        from <= lines@.len(),
    ensures
        i == skip_blank(text::texts(lines@), from as int),
        from <= i <= lines@.len(),
{
    let ghost all = text::texts(lines@);
    let mut i: usize = from;
    while i < lines.len()
        invariant
            from <= i <= lines@.len(),
            all == text::texts(lines@),
            skip_blank(all, from as int) == skip_blank(all, i as int),
        decreases lines@.len() - i,
    {
        assert(all[i as int] == lines@[i as int]@);
        if !is_blank(&lines[i]) {
            return i;
        }
        i += 1;
    }
    i
}

/// Reads the first line of a header.
fn read_first_line(line: &String) -> (r: Result<(bool, String), CorpusError>)
    ensures
        match r {
            Ok((annotated, marker)) => first_line(line@) == Ok::<(bool, Seq<char>), CorpusFault>(
                (annotated, marker@),
            ),
            Err(e) => first_line(line@) == Err::<(bool, Seq<char>), CorpusFault>(e@),
        },
{
    match find_text(line.as_str(), "IRTG") {
        Some(at) => {
            proof {
                let other = choose|i: int| text::first_at(line@, "IRTG"@, i);
                assert(text::stands_at(line@, "IRTG"@, at as int));
                assert(text::first_at(line@, "IRTG"@, at as int));
                if other < at {
                    assert(!text::stands_at(line@, "IRTG"@, other));
                } else if at < other {
                    assert(!text::stands_at(line@, "IRTG"@, at as int));
                }
            }
            let rest = text_after(line.as_str(), at);
            if find_text(rest.as_str(), "1.0").is_none() {
                return Err(CorpusError::BadVersion);
            }
            proof {
                lemma_found(rest@, "1.0"@);
            }
            let marker = trimmed_end(text_start(line.as_str(), at).as_str());
            if find_text(rest.as_str(), "unannotated").is_some() {
                return Ok((false, marker));
            }
            if find_text(rest.as_str(), "annotated").is_some() {
                return Ok((true, marker));
            }
            Err(CorpusError::BadHeader)
        },
        None => Err(CorpusError::BadHeader),
    }
}

proof fn lemma_found(s: Seq<char>, part: Seq<char>)
    ensures
        (exists|i: int| text::first_at(s, part, i)) ==> text::occurs(s, part),
{
    if exists|i: int| text::first_at(s, part, i) {
        let i = choose|i: int| text::first_at(s, part, i);
        assert(text::stands_at(s, part, i));
    }
}

/// Reads the header of a corpus.
pub fn read_header(lines: &Vec<String>) -> (r: Result<CorpusHeader, CorpusError>)
    ensures
        match r {
            Ok(h) => header_of(text::texts(lines@)) == Ok::<HeaderModel, CorpusFault>(h@) && h.next
                <= lines@.len(),
            Err(e) => header_of(text::texts(lines@)) == Err::<HeaderModel, CorpusFault>(e@),
        },
{
    let ghost all = text::texts(lines@);
    let start: usize = seek_line(lines, 0);
    if start >= lines.len() {
        return Err(CorpusError::BadHeader);
    }
    assert(all[start as int] == lines@[start as int]@);
    let (annotated, marker) = read_first_line(&lines[start])?;
    let mut names: Vec<String> = Vec::new();
    let mut i: usize = start + 1;
    let mut inside = true;
    let ghost owed = declarations(all, start + 1, marker@, Seq::empty());
    assert(text::texts(names@) =~= Seq::empty());
    while inside && i < lines.len()
        invariant
            i <= lines@.len(),
            all == text::texts(lines@),
            inside ==> owed == declarations(all, i as int, marker@, text::texts(names@)),
            !inside ==> owed == (text::texts(names@), i as int),
        decreases lines@.len() - i + (if inside {
            1int
        } else {
            0
        }),
    {
        let line = &lines[i];
        assert(all[i as int] == line@);
        if is_blank(line) {
            i += 1;
            inside = false;
        } else if !marker.as_str().is_empty() && starts_with(line.as_str(), marker.as_str()) {
            let count: usize = marker_length(&marker);
            let content = trimmed_rest(line.as_str(), count);
            if starts_with(content.as_str(), "interpretation ") {
                let keyword: usize = marker_length(&"interpretation ".to_owned());
                let decl = text_after(content.as_str(), keyword);
                let name = trimmed(text_before(decl.as_str(), ':').as_str());
                let ghost before = text::texts(names@);
                let ghost one = name@;
                names.push(name);
                assert(text::texts(names@) =~= before.push(one));
            }
            i += 1;
        } else {
            inside = false;
        }
    }
    Ok(CorpusHeader { annotated, comment_prefix: marker, interpretation_order: names, next: i })
}

/// The number of characters of a text.
fn marker_length(s: &String) -> (n: usize)
    ensures
        n == s@.len(),
{
    text::chars_of(s.as_str()).len()
}

/// The lines of one instance, and the line that follows.
pub struct Block {
    pub lines: Vec<usize>,
    pub next: usize,
}

/// Line numbers.
pub open spec fn numbers(list: Seq<usize>) -> Seq<int> {
    Seq::new(list.len(), |i: int| list[i] as int)
}

/// The lines of a block lie in the corpus.
proof fn lemma_block(lines: Seq<Seq<char>>, i: int, n: nat, done: Seq<int>)
    requires
        0 <= i,
        i <= lines.len(),
        forall|k: int| 0 <= k < done.len() ==> 0 <= #[trigger] done[k] < lines.len(),
    ensures
        ({
            let (block, next) = block_from(lines, i, n, done);
            &&& i <= next <= lines.len()
            &&& block.len() > done.len() ==> i < next
            &&& forall|k: int| 0 <= k < block.len() ==> 0 <= #[trigger] block[k] < lines.len()
            &&& done.len() <= n ==> block.len() <= n
            &&& done.len() <= block.len()
        }),
    decreases n - done.len(),
{
    if done.len() < n {
        lemma_skip(lines, i);
        let k = skip_blank(lines, i);
        if k < lines.len() {
            lemma_block(lines, k + 1, n, done.push(k));
        }
    }
}

proof fn lemma_skip(lines: Seq<Seq<char>>, i: int)
    requires
        0 <= i <= lines.len(),
    ensures
        i <= skip_blank(lines, i) <= lines.len(),
    decreases lines.len() - i,
{
    if i < lines.len() {
        lemma_skip(lines, i + 1);
    }
}

/// Finds the lines of the instance that starts at or after a line.
pub fn read_block(lines: &Vec<String>, header: &CorpusHeader, from: usize) -> (r: Result<
    Option<Block>,
    CorpusError,
>)
    requires
        from <= lines@.len(),
        header.interpretation_order@.len() < usize::MAX,
    ensures
        match r {
            Ok(Some(b)) => {
                &&& block_at(text::texts(lines@), header@, from as int) == Ok::<
                    Option<(Seq<int>, int)>,
                    CorpusFault,
                >(Some((numbers(b.lines@), b.next as int)))
                &&& from < b.next <= lines@.len()
                &&& b.lines@.len() == block_size(header@)
                &&& forall|k: int| 0 <= k < b.lines@.len() ==> #[trigger] b.lines@[k] < lines@.len()
            },
            Ok(None) => block_at(text::texts(lines@), header@, from as int) == Ok::<
                Option<(Seq<int>, int)>,
                CorpusFault,
            >(None),
            Err(e) => block_at(text::texts(lines@), header@, from as int) == Err::<
                Option<(Seq<int>, int)>,
                CorpusFault,
            >(e@),
        },
{
    let ghost all = text::texts(lines@);
    let mut size: usize = header.interpretation_order.len();
    if header.annotated {
        size = size + 1;
    }
    let mut block: Vec<usize> = Vec::new();
    let mut i: usize = from;
    let mut ended = false;
    let ghost owed = block_from(all, from as int, size as nat, Seq::empty());
    proof {
        assert(numbers(block@) =~= Seq::empty());
        lemma_block(all, from as int, size as nat, Seq::empty());
    }
    while !ended && block.len() < size
        invariant
            i <= lines@.len(),
            all == text::texts(lines@),
            block@.len() <= size,
            forall|k: int| 0 <= k < block@.len() ==> #[trigger] block@[k] < lines@.len(),
            !ended ==> owed == block_from(all, i as int, size as nat, numbers(block@)),
            ended ==> owed == (numbers(block@), i as int),
        decreases size - block@.len() + (if ended {
            0int
        } else {
            1
        }),
    {
        let k: usize = seek_line(lines, i);
        if k >= lines.len() {
            i = k;
            ended = true;
        } else {
            let ghost before = numbers(block@);
            block.push(k);
            assert(numbers(block@) =~= before.push(k as int));
            i = k + 1;
        }
    }
    assert(owed == (numbers(block@), i as int));
    if block.len() == 0 {
        return Ok(None);
    }
    assert(numbers(block@)[0] == block@[0]);
    if block.len() < size {
        let count: usize = lines.len();
        assert(block@[0] < count);
        return Err(
            CorpusError::MalformedInstance {
                line: block[0] + 1,
                expected: size,
                found: block.len(),
            },
        );
    }
    Ok(Some(Block { lines: block, next: i }))
}

/// The objects of an instance.
pub fn read_objects(lines: &Vec<String>, header: &CorpusHeader, block: &Block) -> (r: Vec<
    InterpObject,
>)
    requires
        block.lines@.len() == block_size(header@),
        forall|k: int| 0 <= k < block.lines@.len() ==> #[trigger] block.lines@[k] < lines@.len(),
    ensures
        object_views(r@) == objects_of(
            text::texts(lines@),
            header@.names,
            numbers(block.lines@),
        ),
{
    let mut r: Vec<InterpObject> = Vec::new();
    let mut k: usize = 0;
    while k < header.interpretation_order.len()
        invariant
            k <= header.interpretation_order@.len(),
            block.lines@.len() == block_size(header@),
            forall|j: int|
                0 <= j < block.lines@.len() ==> #[trigger] block.lines@[j] < lines@.len(),
            r@.len() == k,
            forall|j: int|
                0 <= j < k ==> (#[trigger] r@[j])@ == (
                    header.interpretation_order@[j]@,
                    lines@[block.lines@[j] as int]@,
                    block.lines@[j] + 1,
                ),
        decreases header.interpretation_order@.len() - k,
    {
        let at: usize = block.lines[k];
        let count: usize = lines.len();
        assert(at < count);
        r.push(
            InterpObject {
                name: header.interpretation_order[k].clone(),
                text: lines[at].clone(),
                line: at + 1,
            },
        );
        k += 1;
    }
    assert(object_views(r@) =~= objects_of(
        text::texts(lines@),
        header@.names,
        numbers(block.lines@),
    ));
    r
}

/// The derivation tree of an instance, in an annotated corpus.
pub fn read_gold(lines: &Vec<String>, header: &CorpusHeader, block: &Block) -> (r: Result<
    Option<GoldDerivation>,
    CorpusError,
>)
    requires
        block.lines@.len() == block_size(header@),
        forall|k: int| 0 <= k < block.lines@.len() ==> #[trigger] block.lines@[k] < lines@.len(),
    ensures
        match r {
            Ok(g) => gold_of(text::texts(lines@), header@, numbers(block.lines@)) == Ok::<
                Option<GoldModel>,
                CorpusFault,
            >(optional_gold(g)),
            Err(e) => gold_of(text::texts(lines@), header@, numbers(block.lines@)) == Err::<
                Option<GoldModel>,
                CorpusFault,
            >(e@),
        },
{
    if !header.annotated {
        return Ok(None);
    }
    let n: usize = header.interpretation_order.len();
    let at: usize = block.lines[n];
    assert(numbers(block.lines@)[n as int] == at);
    let count: usize = lines.len();
    assert(at < count);
    match parse_text_tree(lines[at].as_str()) {
        Ok((arena, root)) => Ok(Some(GoldDerivation { arena, root })),
        Err(message) => Err(CorpusError::TreeParse { line: at + 1, message }),
    }
}

/// Finds the first object that is refused.
fn check_objects<R: ObjectReader>(objects: &Vec<InterpObject>, reader: &R) -> (r: Option<
    CorpusError,
>)
    ensures
        match r {
            Some(e) => refused(object_views(objects@), reader) == Some(e@),
            None => refused(object_views(objects@), reader) is None,
        },
{
    let ghost all = object_views(objects@);
    let mut i: usize = 0;
    assert(all.skip(0) =~= all);
    while i < objects.len()
        invariant
            i <= objects@.len(),
            all == object_views(objects@),
            refused(all, reader) == refused(all.skip(i as int), reader),
        decreases objects@.len() - i,
    {
        let o = &objects[i];
        assert(all.skip(i as int)[0] == o@);
        if let Some(message) = reader.refuse(&o.name, &o.text) {
            return Some(
                CorpusError::ObjectParse {
                    line: o.line,
                    interpretation: o.name.clone(),
                    message,
                },
            );
        }
        assert(all.skip(i as int).skip(1) =~= all.skip(i + 1));
        i += 1;
    }
    None
}

/// Reads a corpus from its lines, up to a number of instances.
pub fn read_corpus<R: ObjectReader>(
    lines: &Vec<String>,
    reader: &R,
    limit: Option<usize>,
) -> (r: Result<Corpus, CorpusError>)
    ensures
        match r {
            Ok(c) => corpus_of(text::texts(lines@), reader, limit) == Ok::<
                CorpusModel,
                CorpusFault,
            >(c@),
            Err(e) => corpus_of(text::texts(lines@), reader, limit) == Err::<
                CorpusModel,
                CorpusFault,
            >(e@),
        },
{
    let ghost all = text::texts(lines@);
    let header = read_header(lines)?;
    proof {
        lemma_names_fit(all);
    }
    let ghost h = header@;
    let count: usize = lines.len();
    assert(header.interpretation_order@.len() < count);
    let mut instances: Vec<Instance> = Vec::new();
    let mut i: usize = header.next;
    let mut ended = false;
    let ghost owed = instances_from(all, h, h.next, reader, limit, Seq::empty());
    assert(instance_views(instances@) =~= Seq::empty());
    while !ended && i < lines.len()
        invariant
            i <= lines@.len(),
            all == text::texts(lines@),
            h == header@,
            header_of(all) == Ok::<HeaderModel, CorpusFault>(h),
            header.interpretation_order@.len() < usize::MAX,
            owed == instances_from(all, h, h.next, reader, limit, Seq::empty()),
            !ended ==> owed == instances_from(
                all,
                h,
                i as int,
                reader,
                limit,
                instance_views(instances@),
            ),
            ended ==> owed == Ok::<Seq<InstanceModel>, CorpusFault>(instance_views(instances@)),
        decreases lines@.len() - i + (if ended {
            0int
        } else {
            1
        }),
    {
        let full = match limit {
            Some(l) => instances.len() >= l,
            None => false,
        };
        if full {
            ended = true;
        } else {
            match read_block(lines, &header, i)? {
                Some(block) => {
                    let objects = read_objects(lines, &header, &block);
                    if let Some(e) = check_objects(&objects, reader) {
                        return Err(e);
                    }
                    let gold_derivation = read_gold(lines, &header, &block)?;
                    let ghost before = instance_views(instances@);
                    let instance = Instance { objects, gold_derivation };
                    let ghost one = instance@;
                    instances.push(instance);
                    assert(instance_views(instances@) =~= before.push(one));
                    i = block.next;
                },
                None => {
                    ended = true;
                },
            }
        }
    }
    Ok(
        Corpus {
            annotated: header.annotated,
            comment_prefix: header.comment_prefix,
            interpretation_order: header.interpretation_order,
            instances,
        },
    )
}

proof fn lemma_names_fit(lines: Seq<Seq<char>>)
    ensures
        header_of(lines) matches Ok(h) ==> h.names.len() < lines.len(),
{
    lemma_skip(lines, 0);
    let i = skip_blank(lines, 0);
    if i < lines.len() {
        if let Ok((annotated, marker)) = first_line(lines[i]) {
            lemma_declaration_count(lines, i + 1, marker, Seq::empty());
        }
    }
}

proof fn lemma_declaration_count(
    lines: Seq<Seq<char>>,
    i: int,
    marker: Seq<char>,
    names: Seq<Seq<char>>,
)
    requires
        0 <= i <= lines.len(),
    ensures
        declarations(lines, i, marker, names).0.len() <= names.len() + lines.len() - i,
    decreases lines.len() - i,
{
    if i < lines.len() && !text::blank(lines[i]) && header_comment(lines[i], marker) {
        match declared(lines[i], marker) {
            Some(name) => {
                lemma_declaration_count(lines, i + 1, marker, names.push(name));
            },
            None => {
                lemma_declaration_count(lines, i + 1, marker, names);
            },
        }
    }
}

impl Instance {
    /// The text of the interpretation with the given name: the first object that has
    /// it.
    pub fn text(&self, name: &str) -> (r: Option<&str>)
        ensures
            match r {
                Some(s) => text_of(self@.objects, name@) == Some(s@),
                None => text_of(self@.objects, name@) is None,
            },
    {
        let ghost all = self@.objects;
        let wanted = name.to_owned();
        let mut i: usize = 0;
        assert(all.skip(0) =~= all);
        while i < self.objects.len()
            invariant
                i <= self.objects@.len(),
                all == object_views(self.objects@),
                wanted@ == name@,
                text_of(all, name@) == text_of(all.skip(i as int), name@),
            decreases self.objects@.len() - i,
        {
            assert(all.skip(i as int)[0] == self.objects@[i as int]@);
            if same_text(&self.objects[i].name, &wanted) {
                return Some(self.objects[i].text.as_str());
            }
            assert(all.skip(i as int).skip(1) =~= all.skip(i + 1));
            i += 1;
        }
        None
    }
}

/// The text of the first object with the given name.
pub open spec fn text_of(
    objects: Seq<(Seq<char>, Seq<char>, int)>,
    name: Seq<char>,
) -> Option<Seq<char>>
    decreases objects.len(),
{
    if objects.len() == 0 {
        None
    } else if objects[0].0 == name {
        Some(objects[0].1)
    } else {
        text_of(objects.skip(1), name)
    }
}

} // verus!
