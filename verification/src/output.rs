//! Output codecs: the textual and visual representations of public values.
use crate::alto_ast;
use crate::alto_ast::decimal_text;
use crate::codec;
use crate::codec::{find_name, normalize_name, select, CodecMetadata, Registered, ValueKind};
use crate::codecs::tulipac::feature_images;
use crate::text;
use vstd::prelude::*;

verus! {

/// Encodes a public value of type `V`.
///
/// Textual codecs have text as output; display codecs have a
/// [`VisualRepresentation`].
pub trait OutputCodec<V: ?Sized> {
    /// The representation produced by this codec.
    type Output: View;

    /// How this codec describes itself.
    spec fn described(&self) -> CodecMetadata;

    /// What the representation of `value` says.
    spec fn encoding(&self, value: &V) -> <Self::Output as View>::V;

    /// The description. No value is inspected or encoded.
    fn metadata(&self) -> (m: CodecMetadata)
        ensures
            m == self.described(),
    ;

    /// Encodes `value`.
    fn encode(&self, value: &V) -> (out: Self::Output)
        ensures
            out@ == self.encoding(value),
    ;
}

/// A value that has one text.
pub trait Shown {
    /// The text.
    spec fn shown(&self) -> Seq<char>;

    /// Writes the text.
    fn show(&self) -> (s: String)
        ensures
            s@ == self.shown(),
    ;
}

impl Shown for str {
    open spec fn shown(&self) -> Seq<char> {
        self@
    }

    fn show(&self) -> (s: String) {
        self.to_owned()
    }
}

impl Shown for String {
    open spec fn shown(&self) -> Seq<char> {
        self@
    }

    fn show(&self) -> (s: String) {
        self.clone()
    }
}

impl Shown for u8 {
    open spec fn shown(&self) -> Seq<char> {
        alto_ast::decimal(*self as nat)
    }

    fn show(&self) -> (s: String) {
        decimal_text(*self as usize)
    }
}

impl Shown for u32 {
    open spec fn shown(&self) -> Seq<char> {
        alto_ast::decimal(*self as nat)
    }

    fn show(&self) -> (s: String) {
        decimal_text(*self as usize)
    }
}

impl Shown for usize {
    open spec fn shown(&self) -> Seq<char> {
        alto_ast::decimal(*self as nat)
    }

    fn show(&self) -> (s: String) {
        decimal_text(*self)
    }
}

/// A value that can be copied with all that it says.
pub trait Duplicate: View + Sized {
    /// The copy.
    fn duplicate(&self) -> (r: Self)
        ensures
            r@ == self@,
    ;
}

impl Duplicate for u8 {
    fn duplicate(&self) -> (r: Self) {
        *self
    }
}

impl Duplicate for u32 {
    fn duplicate(&self) -> (r: Self) {
        *self
    }
}

impl Duplicate for String {
    fn duplicate(&self) -> (r: Self) {
        self.clone()
    }
}

/// Codec for values that show themselves.
#[derive(Clone, Copy, Debug, Default)]
pub struct DisplayCodec;

/// How [`DisplayCodec`] describes itself.
pub open spec fn display_metadata() -> CodecMetadata {
    CodecMetadata {
        name: "display",
        description: "Default string representation",
        extension: Some("txt"),
    }
}

impl<V: Shown + ?Sized> OutputCodec<V> for DisplayCodec {
    type Output = String;

    open spec fn described(&self) -> CodecMetadata {
        display_metadata()
    }

    open spec fn encoding(&self, value: &V) -> Seq<char> {
        value.shown()
    }

    fn metadata(&self) -> (m: CodecMetadata) {
        CodecMetadata {
            name: "display",
            description: "Default string representation",
            extension: Some("txt"),
        }
    }

    fn encode(&self, value: &V) -> (out: String) {
        value.show()
    }
}

/// Codec for a sequence of words: joins the words with single spaces.
#[derive(Clone, Copy, Debug, Default)]
pub struct SpaceJoinCodec;

/// How [`SpaceJoinCodec`] describes itself.
pub open spec fn space_join_metadata() -> CodecMetadata {
    CodecMetadata {
        name: "string",
        description: "Space-separated string",
        extension: Some("txt"),
    }
}

impl OutputCodec<Vec<String>> for SpaceJoinCodec {
    type Output = String;

    open spec fn described(&self) -> CodecMetadata {
        space_join_metadata()
    }

    open spec fn encoding(&self, value: &Vec<String>) -> Seq<char> {
        feature_images::separated(text::texts(value@), " "@)
    }

    fn metadata(&self) -> (m: CodecMetadata) {
        CodecMetadata {
            name: "string",
            description: "Space-separated string",
            extension: Some("txt"),
        }
    }

    fn encode(&self, value: &Vec<String>) -> (out: String) {
        feature_images::separate(value, " ")
    }
}

/// Preferred representation of an algebra value of type `V`, whatever displays it.
#[derive(Debug)]
pub enum VisualRepresentation<V> {
    /// Plain textual display.
    Text(String),
    /// A structured tree.
    Tree(V),
    /// A structured feature structure.
    FeatureStructure(V),
}

/// What a representation says.
pub enum VisualModel<M> {
    Text(Seq<char>),
    Tree(M),
    FeatureStructure(M),
}

impl<V: View> View for VisualRepresentation<V> {
    type V = VisualModel<V::V>;

    open spec fn view(&self) -> VisualModel<V::V> {
        match self {
            VisualRepresentation::Text(text) => VisualModel::Text(text@),
            VisualRepresentation::Tree(value) => VisualModel::Tree(value@),
            VisualRepresentation::FeatureStructure(value) => VisualModel::FeatureStructure(value@),
        }
    }
}

/// Adapts a textual codec to a display codec.
#[derive(Clone, Copy, Debug, Default)]
pub struct TextVisualizationCodec<C> {
    pub codec: C,
}

impl<C> TextVisualizationCodec<C> {
    /// Wraps `codec`.
    pub fn new(codec: C) -> (r: Self)
        ensures
            r.codec == codec,
    {
        TextVisualizationCodec { codec }
    }
}

impl<V: View, C: OutputCodec<V, Output = String>> OutputCodec<V> for TextVisualizationCodec<C> {
    type Output = VisualRepresentation<V>;

    open spec fn described(&self) -> CodecMetadata {
        self.codec.described()
    }

    open spec fn encoding(&self, value: &V) -> VisualModel<V::V> {
        VisualModel::Text(self.codec.encoding(value))
    }

    fn metadata(&self) -> (m: CodecMetadata) {
        self.codec.metadata()
    }

    fn encode(&self, value: &V) -> (out: VisualRepresentation<V>) {
        VisualRepresentation::Text(self.codec.encode(value))
    }
}

/// Display codec that preserves tree structure.
#[derive(Clone, Copy, Debug, Default)]
pub struct TreeVisualizationCodec;

impl<V: Duplicate> OutputCodec<V> for TreeVisualizationCodec {
    type Output = VisualRepresentation<V>;

    open spec fn described(&self) -> CodecMetadata {
        CodecMetadata {
            name: "tree-visualization",
            description: "Tree visualization",
            extension: None,
        }
    }

    open spec fn encoding(&self, value: &V) -> VisualModel<V::V> {
        VisualModel::Tree(value@)
    }

    fn metadata(&self) -> (m: CodecMetadata) {
        CodecMetadata {
            name: "tree-visualization",
            description: "Tree visualization",
            extension: None,
        }
    }

    fn encode(&self, value: &V) -> (out: VisualRepresentation<V>) {
        VisualRepresentation::Tree(value.duplicate())
    }
}

/// Display codec that preserves feature-structure topology.
#[derive(Clone, Copy, Debug, Default)]
pub struct FeatureStructureVisualizationCodec;

impl<V: Duplicate> OutputCodec<V> for FeatureStructureVisualizationCodec {
    type Output = VisualRepresentation<V>;

    open spec fn described(&self) -> CodecMetadata {
        CodecMetadata {
            name: "feature-structure-visualization",
            description: "Feature-structure visualization",
            extension: None,
        }
    }

    open spec fn encoding(&self, value: &V) -> VisualModel<V::V> {
        VisualModel::FeatureStructure(value@)
    }

    fn metadata(&self) -> (m: CodecMetadata) {
        CodecMetadata {
            name: "feature-structure-visualization",
            description: "Feature-structure visualization",
            extension: None,
        }
    }

    fn encode(&self, value: &V) -> (out: VisualRepresentation<V>) {
        VisualRepresentation::FeatureStructure(value.duplicate())
    }
}

/// Failure while selecting a textual output codec.
#[derive(Debug, PartialEq, Eq)]
pub enum OutputCodecError {
    /// No codec for the value's kind has this name.
    UnknownCodec(String),
}

/// The built-in textual codecs.
#[derive(Clone, Copy, Debug)]
pub enum TextFormat {
    Display(DisplayCodec),
    SpaceJoin(SpaceJoinCodec),
}

/// A value that the built-in textual codecs write: words, or a value that shows itself.
#[derive(Debug)]
pub enum TextValue<V> {
    Words(Vec<String>),
    Shown(V),
}

impl<V: Shown> OutputCodec<TextValue<V>> for TextFormat {
    type Output = String;

    open spec fn described(&self) -> CodecMetadata {
        match self {
            TextFormat::Display(_) => display_metadata(),
            TextFormat::SpaceJoin(_) => space_join_metadata(),
        }
    }

    open spec fn encoding(&self, value: &TextValue<V>) -> Seq<char> {
        match value {
            TextValue::Words(words) => feature_images::separated(text::texts(words@), " "@),
            TextValue::Shown(v) => v.shown(),
        }
    }

    fn metadata(&self) -> (m: CodecMetadata) {
        match self {
            TextFormat::Display(codec) => <DisplayCodec as OutputCodec<V>>::metadata(codec),
            TextFormat::SpaceJoin(codec) => codec.metadata(),
        }
    }

    /// Words are joined with single spaces, any other value shows itself.
    fn encode(&self, value: &TextValue<V>) -> (out: String) {
        match value {
            TextValue::Words(words) => SpaceJoinCodec.encode(words),
            TextValue::Shown(v) => DisplayCodec.encode(v),
        }
    }
}

/// Registry of independent textual output codecs, keyed by the kind of value.
#[derive(Debug)]
pub struct OutputCodecRegistry<C> {
    entries: Vec<Registered<C>>,
}

impl<C> View for OutputCodecRegistry<C> {
    type V = Seq<Registered<C>>;

    closed spec fn view(&self) -> Seq<Registered<C>> {
        self.entries@
    }
}

impl<C> OutputCodecRegistry<C> {
    /// A registry without codecs.
    pub fn new() -> (r: Self)
        ensures
            r@ == Seq::<Registered<C>>::empty(),
    {
        let r = OutputCodecRegistry { entries: Vec::new() };
        assert(r@ =~= Seq::<Registered<C>>::empty());
        r
    }

    /// Registers a textual codec for values of the given kind. Names may repeat.
    pub fn register<V: ?Sized>(&mut self, kind: ValueKind, codec: C) where
        C: OutputCodec<V, Output = String>,

        ensures
            final(self)@ == old(self)@.push(
                (Registered { kind, metadata: codec.described(), codec }),
            ),
    {
        let metadata = codec.metadata();
        self.entries.push(Registered { kind, metadata, codec });
    }

    /// The codecs registered for values of the given kind. Nothing is encoded.
    pub fn codecs_for(&self, kind: ValueKind) -> (r: Vec<&Registered<C>>)
        ensures
            codec::targets(r@) == codec::of_kind(self@, kind),
    {
        select(&self.entries, kind)
    }

    /// Finds a codec by its name, whatever its case: the first one that was
    /// registered.
    pub fn codec_for_name(&self, kind: ValueKind, name: &str) -> (r: Result<
        &Registered<C>,
        OutputCodecError,
    >)
        ensures
            match r {
                Ok(entry) => exists|i: int|
                    codec::first_named(
                        codec::of_kind(self@, kind),
                        codec::normal_name(name@),
                        i,
                    ) && *entry == #[trigger] codec::of_kind(self@, kind)[i],
                Err(OutputCodecError::UnknownCodec(n)) => n@ == name@ && !codec::some_named(
                    codec::of_kind(self@, kind),
                    codec::normal_name(name@),
                ),
            },
    {
        let list = select(&self.entries, kind);
        let normal = normalize_name(name);
        let found: Option<usize> = find_name(&list, &normal);
        match found {
            Some(i) => {
                assert(codec::of_kind(self@, kind)[i as int] == *list@[i as int]);
                Ok(list[i])
            },
            None => Err(OutputCodecError::UnknownCodec(name.to_owned())),
        }
    }
}

/// The built-in textual codecs.
pub open spec fn standard_outputs() -> Seq<Registered<TextFormat>> {
    seq![
        Registered {
            kind: ValueKind::Words,
            metadata: space_join_metadata(),
            codec: TextFormat::SpaceJoin(SpaceJoinCodec),
        },
        Registered {
            kind: ValueKind::TagString,
            metadata: display_metadata(),
            codec: TextFormat::Display(DisplayCodec),
        },
        Registered {
            kind: ValueKind::Tree,
            metadata: display_metadata(),
            codec: TextFormat::Display(DisplayCodec),
        },
        Registered {
            kind: ValueKind::FeatureStructure,
            metadata: display_metadata(),
            codec: TextFormat::Display(DisplayCodec),
        },
    ]
}

impl OutputCodecRegistry<TextFormat> {
    /// The registry of the built-in textual codecs.
    pub fn standard() -> (r: Self)
        ensures
            r@ == standard_outputs(),
    {
        let words = <SpaceJoinCodec as OutputCodec<Vec<String>>>::metadata(&SpaceJoinCodec);
        let display = <DisplayCodec as OutputCodec<str>>::metadata(&DisplayCodec);
        let mut entries: Vec<Registered<TextFormat>> = Vec::new();
        entries.push(
            Registered {
                kind: ValueKind::Words,
                metadata: words,
                codec: TextFormat::SpaceJoin(SpaceJoinCodec),
            },
        );
        entries.push(
            Registered {
                kind: ValueKind::TagString,
                metadata: display,
                codec: TextFormat::Display(DisplayCodec),
            },
        );
        entries.push(
            Registered {
                kind: ValueKind::Tree,
                metadata: display,
                codec: TextFormat::Display(DisplayCodec),
            },
        );
        entries.push(
            Registered {
                kind: ValueKind::FeatureStructure,
                metadata: display,
                codec: TextFormat::Display(DisplayCodec),
            },
        );
        assert(entries@ =~= standard_outputs());
        OutputCodecRegistry { entries }
    }
}

/// An evaluated algebra value together with the codecs for its kind.
#[derive(Debug)]
pub struct EvaluatedAlgebraValue<V, C> {
    pub kind: ValueKind,
    pub value: V,
    pub visual: VisualRepresentation<V>,
    pub registry: OutputCodecRegistry<C>,
}

/// The descriptions of the codecs of a list.
pub open spec fn descriptions<C>(list: Seq<Registered<C>>) -> Seq<CodecMetadata> {
    Seq::new(list.len(), |i: int| list[i].metadata)
}

impl<V, C> EvaluatedAlgebraValue<V, C> {
    /// The algebra's preferred visualization.
    pub fn visual(&self) -> (r: &VisualRepresentation<V>)
        ensures
            *r == self.visual,
    {
        &self.visual
    }

    /// The descriptions of the textual codecs registered for this value's kind.
    pub fn codecs(&self) -> (r: Vec<CodecMetadata>)
        ensures
            r@ == descriptions(codec::of_kind(self.registry@, self.kind)),
    {
        let list = self.registry.codecs_for(self.kind);
        let mut r: Vec<CodecMetadata> = Vec::new();
        let mut i: usize = 0;
        while i < list.len()
            invariant
                i <= list@.len(),
                r@.len() == i,
                forall|j: int| 0 <= j < i ==> #[trigger] r@[j] == (*list@[j]).metadata,
            decreases list@.len() - i,
        {
            r.push(list[i].metadata);
            i += 1;
        }
        proof {
            let all = codec::of_kind(self.registry@, self.kind);
            assert forall|j: int| 0 <= j < all.len() implies r@[j] == #[trigger] descriptions(
                all,
            )[j] by {
                assert(codec::targets(list@)[j] == *list@[j]);
            }
            assert(r@ =~= descriptions(all));
        }
        r
    }
}

/// The text of a value: what the first codec writes that its registry has for its kind under
/// the given name, whatever the case of the name; none where there is no such codec.
pub open spec fn encoded<V, C: OutputCodec<V, Output = String>>(
    e: EvaluatedAlgebraValue<V, C>,
    name: Seq<char>,
) -> Option<Seq<char>> {
    let all = codec::of_kind(e.registry@, e.kind);
    if codec::some_named(all, codec::normal_name(name)) {
        let i = choose|i: int| codec::first_named(all, codec::normal_name(name), i);
        Some(all[i].codec.encoding(&e.value))
    } else {
        None
    }
}

impl<V, C: OutputCodec<V, Output = String>> EvaluatedAlgebraValue<V, C> {
    /// Encodes the value with a registered textual codec. Equal calls give equal texts.
    pub fn encode(&self, codec_name: &str) -> (r: Result<String, OutputCodecError>)
        ensures
            match r {
                Ok(out) => encoded(*self, codec_name@) == Some(out@),
                Err(OutputCodecError::UnknownCodec(n)) => n@ == codec_name@ && encoded(
                    *self,
                    codec_name@,
                ) is None,
            },
            r is Ok <==> codec::some_named(
                codec::of_kind(self.registry@, self.kind),
                codec::normal_name(codec_name@),
            ),
    {
        match self.registry.codec_for_name(self.kind, codec_name) {
            Ok(entry) => {
                let out = entry.codec.encode(&self.value);
                proof {
                    let all = codec::of_kind(self.registry@, self.kind);
                    let name = codec::normal_name(codec_name@);
                    let i = choose|i: int|
                        codec::first_named(all, name, i) && *entry == #[trigger] all[i];
                    let j = choose|j: int| codec::first_named(all, name, j);
                    codec::lemma_first_named(all, name, i, j);
                }
                Ok(out)
            },
            Err(e) => Err(e),
        }
    }
}

} // verus!
