//! Codec descriptions and the registry of input codecs.
//!
//! Registries are keyed by the kind of value that a codec produces or encodes, so
//! one registry can offer several formats for one kind without mixing in codecs for
//! other kinds. Looking a codec up only reads descriptions; nothing is encoded.
use crate::codecs::tulipac::TulipacInputCodec;
use crate::text;
use vstd::prelude::*;

verus! {

/// `char::to_ascii_lowercase`: `A` to `Z` become `a` to `z`, other characters stay.
pub assume_specification[ char::to_ascii_lowercase ](c: &char) -> (r: char)
    ensures
        r == ascii_lower(*c),
;

/// A character in ASCII lower case.
pub open spec fn ascii_lower(c: char) -> char {
    if 'A' <= c <= 'Z' {
        ((c as int) + 32) as char
    } else {
        c
    }
}

/// A text in ASCII lower case.
pub open spec fn lower(s: Seq<char>) -> Seq<char> {
    Seq::new(s.len(), |i: int| ascii_lower(s[i]))
}

/// A text without the dots at its start.
pub open spec fn without_dots(s: Seq<char>) -> Seq<char>
    decreases s.len(),
{
    if s.len() == 0 || s[0] != '.' {
        s
    } else {
        without_dots(s.skip(1))
    }
}

/// A codec name as it is compared.
pub open spec fn normal_name(name: Seq<char>) -> Seq<char> {
    lower(text::trim(name))
}

/// A file extension as it is compared.
pub open spec fn normal_extension(extension: Seq<char>) -> Seq<char> {
    lower(without_dots(text::trim(extension)))
}

fn lowered(s: &str, from: usize) -> (r: String)
    requires
        from <= s@.len(),
    ensures
        r@ == lower(s@.skip(from as int)),
{
    let c = text::chars_of(s);
    let mut r = String::new();
    let mut i: usize = from;
    while i < c.len()
        invariant
            from <= i <= c@.len(),
            c@ == s@,
            r@ == lower(s@.subrange(from as int, i as int)),
        decreases c@.len() - i,
    {
        let x: char = c[i].to_ascii_lowercase();
        r.push(x);
        proof {
            let before = s@.subrange(from as int, i as int);
            let now = s@.subrange(from as int, i + 1);
            assert(now =~= before.push(s@[i as int]));
            assert(lower(now) =~= lower(before).push(x));
        }
        i += 1;
    }
    proof {
        assert(s@.subrange(from as int, c@.len() as int) =~= s@.skip(from as int));
    }
    r
}

pub(crate) fn normalize_name(name: &str) -> (r: String)
    ensures
        r@ == normal_name(name@),
{
    let t = text::trimmed(name);
    assert(t@.skip(0) =~= t@);
    lowered(t.as_str(), 0)
}

fn normalize_extension(extension: &str) -> (r: String)
    ensures
        r@ == normal_extension(extension@),
{
    let t = text::trimmed(extension);
    let c = text::chars_of(t.as_str());
    let mut i: usize = 0;
    assert(t@.skip(0) =~= t@);
    while i < c.len() && c[i] == '.'
        invariant
            i <= c@.len(),
            c@ == t@,
            without_dots(t@.skip(i as int)) == without_dots(t@),
        decreases c@.len() - i,
    {
        assert(t@.skip(i as int).skip(1) =~= t@.skip(i + 1));
        i += 1;
    }
    lowered(t.as_str(), i)
}

/// What a codec is called and which files it is for.
#[derive(Clone, Copy, Debug, PartialEq, Eq)]
pub struct CodecMetadata {
    /// Stable programmatic codec name.
    pub name: &'static str,
    /// Human-readable description suitable for menus.
    pub description: &'static str,
    /// Conventional filename extension, without a leading dot.
    pub extension: Option<&'static str>,
}

/// The kinds of values that codecs produce or encode.
#[derive(Clone, Copy, PartialEq, Eq, Structural, Debug)]
pub enum ValueKind {
    /// An interpreted regular tree grammar.
    Irtg,
    /// A tree automaton with its signature.
    TreeAutomaton,
    /// A sequence of words.
    Words,
    /// A value of the TAG string algebra.
    TagString,
    /// A tree with textual labels.
    Tree,
    /// A feature structure.
    FeatureStructure,
    /// A kind that an application adds.
    Other(u64),
}

/// A registered codec: the kind of value it is for, its description, and the codec.
#[derive(Debug)]
pub struct Registered<C> {
    pub kind: ValueKind,
    pub metadata: CodecMetadata,
    pub codec: C,
}

/// The registered codecs of one kind, in the order of registration.
pub open spec fn of_kind<C>(entries: Seq<Registered<C>>, kind: ValueKind) -> Seq<Registered<C>>
    decreases entries.len(),
{
    if entries.len() == 0 {
        Seq::empty()
    } else {
        let earlier = of_kind(entries.drop_last(), kind);
        if entries.last().kind == kind {
            earlier.push(entries.last())
        } else {
            earlier
        }
    }
}

/// Whether the codec has the given name, once both are normalized.
pub open spec fn has_name<C>(entry: Registered<C>, normal: Seq<char>) -> bool {
    normal_name(entry.metadata.name@) == normal
}

/// Whether the codec is for files with the given extension, once both are normalized.
pub open spec fn has_extension<C>(entry: Registered<C>, normal: Seq<char>) -> bool {
    match entry.metadata.extension {
        Some(extension) => normal_extension(extension@) == normal,
        None => false,
    }
}

/// Whether some codec of the list has the given name.
pub open spec fn some_named<C>(list: Seq<Registered<C>>, normal: Seq<char>) -> bool {
    exists|i: int| 0 <= i < list.len() && has_name(#[trigger] list[i], normal)
}

/// Whether some codec of the list is for the given extension.
pub open spec fn some_extension<C>(list: Seq<Registered<C>>, normal: Seq<char>) -> bool {
    exists|i: int| 0 <= i < list.len() && has_extension(#[trigger] list[i], normal)
}

/// Whether `i` is the first codec of the list with the given name.
pub open spec fn first_named<C>(
    list: Seq<Registered<C>>,
    normal: Seq<char>,
    i: int,
) -> bool {
    &&& 0 <= i < list.len()
    &&& has_name(list[i], normal)
    &&& forall|j: int| 0 <= j < i ==> !has_name(#[trigger] list[j], normal)
}

/// Only one codec of a list is the first with a name.
pub proof fn lemma_first_named<C>(
    list: Seq<Registered<C>>,
    normal: Seq<char>,
    i: int,
    j: int,
)
    requires
        first_named(list, normal, i),
        first_named(list, normal, j),
    ensures
        i == j,
        some_named(list, normal),
{
    if i < j {
        assert(!has_name(list[i], normal));
    } else if j < i {
        assert(!has_name(list[j], normal));
    }
}

/// Whether `i` is the first codec of the list that is for the given extension.
pub open spec fn first_extension<C>(
    list: Seq<Registered<C>>,
    normal: Seq<char>,
    i: int,
) -> bool {
    &&& 0 <= i < list.len()
    &&& has_extension(list[i], normal)
    &&& forall|j: int| 0 <= j < i ==> !has_extension(#[trigger] list[j], normal)
}

/// Whether no two codecs of one kind share a name or an extension.
pub open spec fn unambiguous<C>(entries: Seq<Registered<C>>) -> bool {
    forall|i: int, j: int|
        0 <= i < j < entries.len() && (#[trigger] entries[i]).kind == (#[trigger] entries[j]).kind
            ==> told_apart(entries[i], entries[j])
}

/// Whether two codecs differ in name, and in extension where both have one.
pub open spec fn told_apart<C>(a: Registered<C>, b: Registered<C>) -> bool {
    &&& normal_name(a.metadata.name@) != normal_name(b.metadata.name@)
    &&& match (a.metadata.extension, b.metadata.extension) {
        (Some(x), Some(y)) => normal_extension(x@) != normal_extension(y@),
        _ => true,
    }
}

/// What the references of a list refer to.
pub open spec fn targets<T>(list: Seq<&T>) -> Seq<T> {
    Seq::new(list.len(), |i: int| *list[i])
}

/// The registered codecs of one kind, in the order of registration.
pub(crate) fn select<C>(entries: &Vec<Registered<C>>, kind: ValueKind) -> (r: Vec<&Registered<C>>)
    ensures
        targets(r@) == of_kind(entries@, kind),
{
    let mut r: Vec<&Registered<C>> = Vec::new();
    let mut i: usize = 0;
    assert(targets(r@) =~= of_kind(entries@.take(0), kind));
    while i < entries.len()
        invariant
            i <= entries@.len(),
            targets(r@) == of_kind(entries@.take(i as int), kind),
        decreases entries@.len() - i,
    {
        let entry = &entries[i];
        assert(entries@.take(i + 1).drop_last() =~= entries@.take(i as int));
        if entry.kind == kind {
            let ghost before = r@;
            r.push(entry);
            assert(targets(r@) =~= targets(before).push(*entry));
        }
        i += 1;
    }
    assert(entries@.take(i as int) =~= entries@);
    r
}

/// The place of the first codec with the given normalized name.
pub(crate) fn find_name<C>(list: &Vec<&Registered<C>>, normal: &String) -> (r: Option<usize>)
    ensures
        r matches Some(i) ==> first_named(targets(list@), normal@, i as int),
        r is None ==> !some_named(targets(list@), normal@),
{
    let mut i: usize = 0;
    while i < list.len()
        invariant
            i <= list@.len(),
            forall|j: int| 0 <= j < i ==> !has_name(#[trigger] targets(list@)[j], normal@),
        decreases list@.len() - i,
    {
        let name = normalize_name(list[i].metadata.name);
        assert(targets(list@)[i as int] == *list@[i as int]);
        if text::same_text(&name, normal) {
            return Some(i);
        }
        i += 1;
    }
    None
}

/// The place of the first codec that is for the given normalized extension.
fn find_extension<C>(list: &Vec<&Registered<C>>, normal: &String) -> (r: Option<usize>)
    ensures
        r matches Some(i) ==> first_extension(targets(list@), normal@, i as int),
        r is None ==> !some_extension(targets(list@), normal@),
{
    let mut i: usize = 0;
    while i < list.len()
        invariant
            i <= list@.len(),
            forall|j: int| 0 <= j < i ==> !has_extension(#[trigger] targets(list@)[j], normal@),
        decreases list@.len() - i,
    {
        assert(targets(list@)[i as int] == *list@[i as int]);
        if let Some(extension) = list[i].metadata.extension {
            let own = normalize_extension(extension);
            if text::same_text(&own, normal) {
                return Some(i);
            }
        }
        i += 1;
    }
    None
}

/// Failure while selecting or invoking an input codec.
#[derive(Debug)]
pub enum InputCodecError<E> {
    /// Reading the input failed; the message says why.
    Io(String),
    /// Input bytes were not valid UTF-8.
    Utf8,
    /// A concrete codec rejected the input.
    Codec(E),
    /// A path has no usable filename extension.
    MissingExtension,
    /// No codec of the requested kind has this name or extension.
    UnknownCodec(String),
}

impl<E> InputCodecError<E> {
    /// Wraps a concrete codec error.
    pub fn codec(error: E) -> (r: Self)
        ensures
            r == InputCodecError::Codec(error),
    {
        InputCodecError::Codec(error)
    }
}

/// A registration that conflicts with an existing codec.
#[derive(Debug, PartialEq, Eq)]
pub enum InputCodecRegistryError {
    /// Two codecs of the same kind use the same normalized name.
    DuplicateName(String),
    /// Two codecs of the same kind use the same normalized extension.
    DuplicateExtension(String),
}

/// Input codec for Alto's textual `.irtg` format.
#[derive(Clone, Copy, Debug, Default)]
pub struct IrtgInputCodec;

/// Input codec for Alto's textual `.auto` tree-automaton format.
#[derive(Clone, Copy, Debug, Default)]
pub struct AltoTreeAutomatonInputCodec;

impl IrtgInputCodec {
    pub fn metadata(&self) -> (r: CodecMetadata)
        ensures
            r == (CodecMetadata {
                name: "irtg",
                description: "IRTG grammar",
                extension: Some("irtg"),
            }),
    {
        CodecMetadata { name: "irtg", description: "IRTG grammar", extension: Some("irtg") }
    }
}

impl AltoTreeAutomatonInputCodec {
    pub fn metadata(&self) -> (r: CodecMetadata)
        ensures
            r == (CodecMetadata {
                name: "auto",
                description: "Tree automaton",
                extension: Some("auto"),
            }),
    {
        CodecMetadata { name: "auto", description: "Tree automaton", extension: Some("auto") }
    }
}

/// The built-in input formats.
#[derive(Clone, Copy, Debug)]
pub enum InputFormat {
    Irtg(IrtgInputCodec),
    Tulipac(TulipacInputCodec),
    TreeAutomaton(AltoTreeAutomatonInputCodec),
}

/// Registry of input codecs, keyed first by result kind and then by description.
#[derive(Debug)]
pub struct InputCodecRegistry<C> {
    entries: Vec<Registered<C>>,
}

impl<C> View for InputCodecRegistry<C> {
    type V = Seq<Registered<C>>;

    closed spec fn view(&self) -> Seq<Registered<C>> {
        self.entries@
    }
}

/// What a registration does to the registered codecs.
pub open spec fn registration<C>(
    before: Seq<Registered<C>>,
    entry: Registered<C>,
    after: Seq<Registered<C>>,
    r: Result<(), InputCodecRegistryError>,
) -> bool {
    let rivals = of_kind(before, entry.kind);
    let name = normal_name(entry.metadata.name@);
    if some_named(rivals, name) {
        &&& r matches Err(InputCodecRegistryError::DuplicateName(n)) && n@ == name
        &&& after == before
    } else if entry.metadata.extension is Some && some_extension(
        rivals,
        normal_extension(entry.metadata.extension->0@),
    ) {
        &&& r matches Err(InputCodecRegistryError::DuplicateExtension(e)) && e@
            == normal_extension(entry.metadata.extension->0@)
        &&& after == before
    } else {
        r is Ok && after == before.push(entry)
    }
}

impl<C> InputCodecRegistry<C> {
    #[verifier::type_invariant]
    spec fn wf(&self) -> bool {
        unambiguous(self.entries@)
    }

    /// A registry without codecs.
    pub fn new() -> (r: Self)
        ensures
            r@ == Seq::<Registered<C>>::empty(),
    {
        let r = InputCodecRegistry { entries: Vec::new() };
        assert(r@ =~= Seq::<Registered<C>>::empty());
        r
    }

    /// Registers a codec for values of the given kind. A name or an extension that a
    /// codec of the same kind has already is refused.
    pub fn register(&mut self, kind: ValueKind, metadata: CodecMetadata, codec: C) -> (r: Result<
        (),
        InputCodecRegistryError,
    >)
        ensures
            registration(
                old(self)@,
                (Registered { kind, metadata, codec }),
                final(self)@,
                r,
            ),
            unambiguous(final(self)@),
    {
        proof {
            use_type_invariant(&*self);
        }
        let rivals = select(&self.entries, kind);
        let name = normalize_name(metadata.name);
        if find_name(&rivals, &name).is_some() {
            return Err(InputCodecRegistryError::DuplicateName(name));
        }
        if let Some(extension) = metadata.extension {
            let normal = normalize_extension(extension);
            if find_extension(&rivals, &normal).is_some() {
                return Err(InputCodecRegistryError::DuplicateExtension(normal));
            }
        }
        let ghost before = self.entries@;
        let entry = Registered { kind, metadata, codec };
        let mut entries: Vec<Registered<C>> = Vec::new();
        std::mem::swap(&mut entries, &mut self.entries);
        proof {
            law_registration_keeps_codecs_apart(before, entry);
        }
        entries.push(entry);
        self.entries = entries;
        Ok(())
    }

    /// All codecs of the given kind, in the order of registration.
    pub fn codecs_for(&self, kind: ValueKind) -> (r: Vec<&Registered<C>>)
        ensures
            targets(r@) == of_kind(self@, kind),
    {
        select(&self.entries, kind)
    }

    /// Finds a codec by its name, whatever its case.
    pub fn codec_for_name<E>(&self, kind: ValueKind, name: &str) -> (r: Result<
        &Registered<C>,
        InputCodecError<E>,
    >)
        ensures
            match r {
                Ok(entry) => exists|i: int|
                    first_named(of_kind(self@, kind), normal_name(name@), i) && *entry
                        == #[trigger] of_kind(self@, kind)[i],
                Err(e) => !some_named(of_kind(self@, kind), normal_name(name@)) && (e matches
                    InputCodecError::UnknownCodec(n) && n@ == name@),
            },
    {
        let list = select(&self.entries, kind);
        let normal = normalize_name(name);
        let found: Option<usize> = find_name(&list, &normal);
        match found {
            Some(i) => {
                assert(of_kind(self@, kind)[i as int] == *list@[i as int]);
                Ok(list[i])
            },
            None => Err(InputCodecError::UnknownCodec(name.to_owned())),
        }
    }

    /// Finds a codec by filename extension.
    pub fn codec_for_extension<E>(&self, kind: ValueKind, extension: &str) -> (r: Result<
        &Registered<C>,
        InputCodecError<E>,
    >)
        ensures
            match r {
                Ok(entry) => exists|i: int|
                    first_extension(of_kind(self@, kind), normal_extension(extension@), i)
                        && *entry == #[trigger] of_kind(self@, kind)[i],
                Err(e) => !some_extension(of_kind(self@, kind), normal_extension(extension@)) && (
                e matches InputCodecError::UnknownCodec(n) && n@ == extension@),
            },
    {
        let list = select(&self.entries, kind);
        let normal = normalize_extension(extension);
        let found: Option<usize> = find_extension(&list, &normal);
        match found {
            Some(i) => {
                assert(of_kind(self@, kind)[i as int] == *list@[i as int]);
                Ok(list[i])
            },
            None => Err(InputCodecError::UnknownCodec(extension.to_owned())),
        }
    }

    /// Finds a codec by the extension that a path has, if any.
    pub fn codec_for_path_extension<E>(&self, kind: ValueKind, extension: Option<&str>) -> (r:
        Result<&Registered<C>, InputCodecError<E>>)
        ensures
            found_by_extension(
                self@,
                kind,
                match extension {
                    Some(x) => Some(x@),
                    None => None,
                },
                r,
            ),
    {
        match extension {
            Some(x) => self.codec_for_extension(kind, x),
            None => Err(InputCodecError::MissingExtension),
        }
    }

    /// Finds a codec for a path, by its extension.
    pub fn codec_for_path<E>(&self, kind: ValueKind, path: &str) -> (r: Result<
        &Registered<C>,
        InputCodecError<E>,
    >)
        ensures
            exists|x: Option<Seq<char>>| #[trigger]
                may_be_extension(path@, x) && found_by_extension(self@, kind, x, r),
    {
        match path_extension(path) {
            Some(x) => {
                assert(may_be_extension(path@, Some(x@)));
                self.codec_for_path_extension(kind, Some(x))
            },
            None => {
                assert(may_be_extension(path@, None));
                self.codec_for_path_extension(kind, None)
            },
        }
    }
}

/// What a search by the extension of a path finds.
pub open spec fn found_by_extension<C, E>(
    entries: Seq<Registered<C>>,
    kind: ValueKind,
    extension: Option<Seq<char>>,
    r: Result<&Registered<C>, InputCodecError<E>>,
) -> bool {
    match (extension, r) {
        (None, _) => r matches Err(InputCodecError::MissingExtension),
        (Some(x), Ok(entry)) => exists|i: int|
            first_extension(of_kind(entries, kind), normal_extension(x), i) && *entry
                == #[trigger] of_kind(entries, kind)[i],
        (Some(x), Err(e)) => !some_extension(of_kind(entries, kind), normal_extension(x)) && (
        e matches InputCodecError::UnknownCodec(n) && n@ == x),
    }
}

/// Whether a character separates the parts of a path: a slash does everywhere, a backslash
/// on some platforms.
pub open spec fn separates(c: char, backslash: bool) -> bool {
    c == '/' || (backslash && c == '\\')
}

/// Where the last part of a path starts.
pub open spec fn last_part(path: Seq<char>, backslash: bool) -> int
    decreases path.len(),
{
    if path.len() == 0 || separates(path.last(), backslash) {
        path.len() as int
    } else {
        last_part(path.drop_last(), backslash)
    }
}

/// The file name of a path: its last part that is not empty and no single dot. There is
/// none where that part is a double dot.
pub open spec fn file_name(path: Seq<char>, backslash: bool) -> Option<Seq<char>>
    decreases path.len(),
{
    let at = last_part(path, backslash);
    let name = path.skip(at);
    if name.len() == 0 || name == seq!['.'] {
        if 0 < at <= path.len() {
            file_name(path.take(at - 1), backslash)
        } else {
            None
        }
    } else if name == seq!['.', '.'] {
        None
    } else {
        Some(name)
    }
}

/// What follows the last dot of a file name, unless that dot is its first character.
pub open spec fn name_extension(name: Seq<char>) -> Option<Seq<char>> {
    if exists|i: int| 0 < i < name.len() && #[trigger] name[i] == '.' {
        Some(after_dot(name))
    } else {
        None
    }
}

/// What follows the last dot.
pub open spec fn after_dot(s: Seq<char>) -> Seq<char>
    decreases s.len(),
{
    if s.len() == 0 || s.last() == '.' {
        Seq::empty()
    } else {
        after_dot(s.drop_last()).push(s.last())
    }
}

/// The extension of a path.
pub open spec fn extension_of(path: Seq<char>, backslash: bool) -> Option<Seq<char>> {
    match file_name(path, backslash) {
        Some(name) => name_extension(name),
        None => None,
    }
}

/// Whether a path is read in the same way on every platform: it holds no backslash and no
/// colon, and does not start with two slashes.
pub open spec fn portable(path: Seq<char>) -> bool {
    &&& !path.contains('\\')
    &&& !path.contains(':')
    &&& !(path.len() >= 2 && path[0] == '/' && path[1] == '/')
}

/// A path without the letter of a drive at its start.
pub open spec fn without_drive(path: Seq<char>) -> Seq<char> {
    if path.len() >= 2 && text::ascii_letter(path[0]) && path[1] == ':' {
        path.skip(2)
    } else {
        path
    }
}

/// What is known of the extension of a path. A portable path has the extension of its file
/// name. Any other that does not start with two separators is read with slashes alone, or
/// with a drive, slashes and backslashes, as the platform has it.
pub open spec fn may_be_extension(path: Seq<char>, extension: Option<Seq<char>>) -> bool {
    &&& !path.contains('.') ==> extension is None
    &&& portable(path) ==> extension == extension_of(path, false)
    &&& !(path.len() >= 2 && separates(path[0], true) && separates(path[1], true)) ==> (
    extension == extension_of(path, false) || extension == extension_of(without_drive(path), true))
}

/// `Path::extension` of a path that is text: what follows the last dot of the file name,
/// where parts that are empty or a single dot are passed over at the end. A path without a
/// dot has none. For a path that platforms read in different ways the contract gives both
/// readings. Of a path that starts with two separators, which may name a host or a device,
/// it says no more than that an extension needs a dot.
#[verifier::external_body]
fn path_extension(path: &str) -> (r: Option<&str>)
    ensures
        may_be_extension(
            path@,
            match r {
                Some(x) => Some(x@),
                None => None,
            },
        ),
{
    std::path::Path::new(path).extension().and_then(|part| part.to_str())
}

/// The built-in input codecs.
pub open spec fn standard_inputs() -> Seq<Registered<InputFormat>> {
    seq![
        Registered {
            kind: ValueKind::Irtg,
            metadata: CodecMetadata {
                name: "irtg",
                description: "IRTG grammar",
                extension: Some("irtg"),
            },
            codec: InputFormat::Irtg(IrtgInputCodec),
        },
        Registered {
            kind: ValueKind::Irtg,
            metadata: CodecMetadata {
                name: "tulipac",
                description: "TAG grammar (Tulipac format)",
                extension: Some("tag"),
            },
            codec: InputFormat::Tulipac(TulipacInputCodec),
        },
        Registered {
            kind: ValueKind::TreeAutomaton,
            metadata: CodecMetadata {
                name: "auto",
                description: "Tree automaton",
                extension: Some("auto"),
            },
            codec: InputFormat::TreeAutomaton(AltoTreeAutomatonInputCodec),
        },
    ]
}

proof fn lemma_trimmed(s: Seq<char>)
    requires
        s.len() > 0,
        !text::white_space(s[0]),
        !text::white_space(s.last()),
    ensures
        text::trim(s) == s,
{
}

impl InputCodecRegistry<InputFormat> {
    /// The registry of the built-in file formats.
    pub fn standard() -> (r: Self)
        ensures
            r@ == standard_inputs(),
    {
        let mut registry = InputCodecRegistry::new();
        let irtg = IrtgInputCodec;
        let tulipac = TulipacInputCodec::new();
        let auto = AltoTreeAutomatonInputCodec;
        let ghost all = standard_inputs();
        let _ = registry.register(ValueKind::Irtg, irtg.metadata(), InputFormat::Irtg(irtg));
        proof {
            assert(of_kind(Seq::<Registered<InputFormat>>::empty(), ValueKind::Irtg).len() == 0);
            assert(registry@ =~= all.take(1));
            reveal_strlit("irtg");
            reveal_strlit("tulipac");
            reveal_strlit("tag");
            lemma_trimmed("irtg"@);
            lemma_trimmed("tulipac"@);
            lemma_trimmed("tag"@);
            let rivals = of_kind(registry@, ValueKind::Irtg);
            assert(registry@.drop_last() =~= Seq::<Registered<InputFormat>>::empty());
            assert(rivals =~= seq![all[0]]);
            assert(normal_name("irtg"@).len() == 4 && normal_name("tulipac"@).len() == 7);
            assert(normal_extension("irtg"@).len() == 4 && normal_extension("tag"@).len() == 3);
        }
        let _ = registry.register(
            ValueKind::Irtg,
            tulipac.metadata(),
            InputFormat::Tulipac(tulipac),
        );
        proof {
            assert(registry@ =~= all.take(2));
            assert(of_kind(registry@, ValueKind::TreeAutomaton).len() == 0) by {
                assert(registry@.drop_last() =~= all.take(1));
                assert(all.take(1).drop_last() =~= Seq::<Registered<InputFormat>>::empty());
                assert(all.take(1).last() == all[0]);
                assert(of_kind(
                    Seq::<Registered<InputFormat>>::empty(),
                    ValueKind::TreeAutomaton,
                ).len() == 0);
                assert(of_kind(all.take(1), ValueKind::TreeAutomaton).len() == 0);
            }
        }
        let _ = registry.register(
            ValueKind::TreeAutomaton,
            auto.metadata(),
            InputFormat::TreeAutomaton(auto),
        );
        assert(registry@ =~= all);
        registry
    }
}

/// What stands in the selection stands in the registry.
proof fn lemma_of_kind<C>(entries: Seq<Registered<C>>, kind: ValueKind, i: int) -> (k: int)
    requires
        0 <= i < entries.len(),
        entries[i].kind == kind,
    ensures
        0 <= k < of_kind(entries, kind).len(),
        of_kind(entries, kind)[k] == entries[i],
    decreases entries.len(),
{
    let earlier = of_kind(entries.drop_last(), kind);
    if i == entries.len() - 1 {
        earlier.len() as int
    } else {
        lemma_of_kind(entries.drop_last(), kind, i)
    }
}

/// A registration that is not refused leaves every two codecs of one kind told apart
/// by name and by extension.
pub proof fn law_registration_keeps_codecs_apart<C>(
    entries: Seq<Registered<C>>,
    entry: Registered<C>,
)
    requires
        unambiguous(entries),
        !some_named(of_kind(entries, entry.kind), normal_name(entry.metadata.name@)),
        entry.metadata.extension matches Some(x) ==> !some_extension(
            of_kind(entries, entry.kind),
            normal_extension(x@),
        ),
    ensures
        unambiguous(entries.push(entry)),
{
    let now = entries.push(entry);
    assert forall|i: int, j: int|
        0 <= i < j < now.len() && (#[trigger] now[i]).kind == (#[trigger] now[j]).kind implies told_apart(
        now[i],
        now[j],
    ) by {
        if j < entries.len() {
            assert(told_apart(entries[i], entries[j]));
        } else {
            let k = lemma_of_kind(entries, entry.kind, i);
            assert(!has_name(of_kind(entries, entry.kind)[k], normal_name(entry.metadata.name@)));
            if let Some(x) = entry.metadata.extension {
                assert(!has_extension(of_kind(entries, entry.kind)[k], normal_extension(x@)));
            }
        }
    }
}

} // verus!
