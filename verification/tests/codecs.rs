use rusty_alto::codec::{
    AltoTreeAutomatonInputCodec, CodecMetadata, InputCodecError, InputCodecRegistry,
    InputCodecRegistryError, InputFormat, IrtgInputCodec, ValueKind,
};
use rusty_alto::output::{
    DisplayCodec, EvaluatedAlgebraValue, FeatureStructureVisualizationCodec, OutputCodec,
    OutputCodecError, OutputCodecRegistry, SpaceJoinCodec, TextFormat, TextValue,
    TextVisualizationCodec, TreeVisualizationCodec, VisualRepresentation,
};
use std::sync::atomic::{AtomicUsize, Ordering};
use std::sync::Arc;

const U32: ValueKind = ValueKind::Other(32);
const U64: ValueKind = ValueKind::Other(64);

const COUNTING_METADATA: CodecMetadata = CodecMetadata {
    name: "count",
    description: "Count",
    extension: Some("count"),
};

const DUPLICATE_NAME_METADATA: CodecMetadata = CodecMetadata {
    name: "COUNT",
    description: "Duplicate count",
    extension: Some("other"),
};

const DUPLICATE_EXTENSION_METADATA: CodecMetadata = CodecMetadata {
    name: "other",
    description: "Duplicate extension",
    extension: Some(".COUNT"),
};

struct CountingInputCodec {
    calls: Arc<AtomicUsize>,
}

impl CountingInputCodec {
    fn decode(&self, input: &str) -> Result<u32, InputCodecError<std::num::ParseIntError>> {
        self.calls.fetch_add(1, Ordering::Relaxed);
        input.trim().parse().map_err(InputCodecError::codec)
    }
}

#[test]
fn standard_input_registry_is_partitioned_by_exact_result_type() {
    let registry = InputCodecRegistry::<InputFormat>::standard();
    let irtg_extensions: Vec<&str> = registry
        .codecs_for(ValueKind::Irtg)
        .iter()
        .filter_map(|codec| codec.metadata.extension)
        .collect();
    assert_eq!(irtg_extensions, vec!["irtg", "tag"]);

    let auto_extensions: Vec<&str> = registry
        .codecs_for(ValueKind::TreeAutomaton)
        .iter()
        .filter_map(|codec| codec.metadata.extension)
        .collect();
    assert_eq!(auto_extensions, vec!["auto"]);
    assert!(registry.codecs_for(U32).is_empty());
}

#[test]
fn input_registry_lookup_is_normalized_and_lazy() {
    let calls = Arc::new(AtomicUsize::new(0));
    let mut registry = InputCodecRegistry::new();
    registry
        .register(U32, COUNTING_METADATA, CountingInputCodec { calls: calls.clone() })
        .unwrap();

    assert_eq!(
        registry.codec_for_name::<()>(U32, "COUNT").ok().unwrap().metadata.name,
        "count"
    );
    assert_eq!(
        registry.codec_for_extension::<()>(U32, ".CoUnT").ok().unwrap().metadata.extension,
        Some("count")
    );
    assert_eq!(
        registry.codec_for_path::<()>(U32, "value.COUNT").ok().unwrap().metadata.name,
        "count"
    );
    assert_eq!(calls.load(Ordering::Relaxed), 0);
    assert_eq!(
        registry
            .codec_for_extension::<()>(U32, "count")
            .ok()
            .unwrap()
            .codec
            .decode("17")
            .ok(),
        Some(17)
    );
    assert_eq!(calls.load(Ordering::Relaxed), 1);
    assert!(matches!(
        registry.codec_for_path::<()>(U32, "no-extension"),
        Err(InputCodecError::MissingExtension)
    ));
    assert!(matches!(
        registry.codec_for_extension::<()>(U32, "unknown"),
        Err(InputCodecError::UnknownCodec(_))
    ));
}

#[test]
fn input_registry_rejects_duplicate_names_and_extensions_per_type() {
    let calls = Arc::new(AtomicUsize::new(0));
    let mut registry = InputCodecRegistry::new();
    registry
        .register(U32, COUNTING_METADATA, CountingInputCodec { calls: calls.clone() })
        .unwrap();
    assert_eq!(
        registry.register(
            U32,
            DUPLICATE_NAME_METADATA,
            CountingInputCodec { calls: calls.clone() }
        ),
        Err(InputCodecRegistryError::DuplicateName("count".to_owned()))
    );
    assert_eq!(
        registry.register(
            U32,
            DUPLICATE_EXTENSION_METADATA,
            CountingInputCodec { calls: calls.clone() }
        ),
        Err(InputCodecRegistryError::DuplicateExtension("count".to_owned()))
    );
    assert!(
        registry
            .register(U64, COUNTING_METADATA, CountingInputCodec { calls })
            .is_ok(),
        "the same metadata is allowed for another result type"
    );
}

#[test]
fn built_in_input_codecs_describe_themselves() {
    assert_eq!(IrtgInputCodec.metadata().extension, Some("irtg"));
    assert_eq!(AltoTreeAutomatonInputCodec.metadata().extension, Some("auto"));
}

#[test]
fn display_codec_uses_display() {
    assert_eq!(DisplayCodec.encode(&2u8), "2");
    assert_eq!(DisplayCodec.encode("hi"), "hi");
    assert_eq!(
        <DisplayCodec as OutputCodec<u8>>::metadata(&DisplayCodec).extension,
        Some("txt")
    );
}

#[test]
fn space_join_codec_joins_words() {
    assert_eq!(
        SpaceJoinCodec.encode(&vec!["the".to_owned(), "woman".to_owned()]),
        "the woman"
    );
    assert_eq!(SpaceJoinCodec.encode(&vec![]), "");
    assert_eq!(SpaceJoinCodec.encode(&vec!["the".to_owned()]), "the");
}

#[test]
fn text_visualization_wraps_text() {
    let codec = TextVisualizationCodec::new(SpaceJoinCodec);
    let value = vec!["hello".to_owned(), "world".to_owned()];
    assert!(matches!(
        codec.encode(&value),
        VisualRepresentation::Text(text) if text == "hello world"
    ));
}

struct CountingCodec(Arc<AtomicUsize>);

impl OutputCodec<u32> for CountingCodec {
    type Output = String;

    fn described(&self) -> CodecMetadata {
        self.metadata()
    }

    fn encoding(&self, _value: &u32) -> vstd::prelude::Seq<char> {
        unreachable!()
    }

    fn metadata(&self) -> CodecMetadata {
        CodecMetadata {
            name: "counting",
            description: "Counting codec",
            extension: Some("count"),
        }
    }

    fn encode(&self, value: &u32) -> Self::Output {
        self.0.fetch_add(1, Ordering::Relaxed);
        value.to_string()
    }
}

#[test]
fn registry_uses_exact_types_and_does_not_encode_during_lookup() {
    let calls = Arc::new(AtomicUsize::new(0));
    let mut registry = OutputCodecRegistry::new();
    registry.register::<u32>(U32, CountingCodec(calls.clone()));

    let codecs = registry.codecs_for(U32);
    assert_eq!(codecs.len(), 1);
    assert_eq!(codecs[0].codec.metadata().extension, Some("count"));
    assert!(registry.codecs_for(U64).is_empty());
    assert_eq!(calls.load(Ordering::Relaxed), 0);

    assert_eq!(
        registry.codec_for_name(U32, "COUNTING").ok().unwrap().codec.encode(&7),
        "7"
    );
    assert_eq!(calls.load(Ordering::Relaxed), 1);
    assert!(matches!(
        registry.codec_for_name(U64, "counting"),
        Err(OutputCodecError::UnknownCodec(_))
    ));
}

#[test]
fn an_evaluated_value_offers_the_codecs_of_its_kind() {
    let mut registry = OutputCodecRegistry::new();
    let calls = Arc::new(AtomicUsize::new(0));
    registry.register::<u32>(U32, CountingCodec(calls.clone()));
    registry.register::<u32>(U64, CountingCodec(calls.clone()));
    let value = EvaluatedAlgebraValue {
        kind: U32,
        value: 7u32,
        visual: VisualRepresentation::Tree(7u32),
        registry,
    };
    assert!(matches!(value.visual(), VisualRepresentation::Tree(7)));
    assert_eq!(value.codecs().len(), 1);
    assert_eq!(value.encode("Counting").ok().unwrap(), "7");
    assert_eq!(
        value.encode("other"),
        Err(OutputCodecError::UnknownCodec("other".to_owned()))
    );
    assert_eq!(calls.load(Ordering::Relaxed), 1);
    assert_eq!(value.encode("counting").ok(), value.encode("COUNTING").ok());
    assert_eq!(calls.load(Ordering::Relaxed), 3);
}

#[test]
fn structured_visualizations_keep_the_value() {
    assert!(matches!(
        TreeVisualizationCodec.encode(&3u8),
        VisualRepresentation::Tree(3)
    ));
    assert!(matches!(
        FeatureStructureVisualizationCodec.encode(&3u8),
        VisualRepresentation::FeatureStructure(3)
    ));
}

#[test]
fn the_standard_registry_encodes_words_and_shown_values() {
    let words = EvaluatedAlgebraValue {
        kind: ValueKind::Words,
        value: TextValue::<u32>::Words(vec!["the".to_owned(), "woman".to_owned()]),
        visual: VisualRepresentation::Text("the woman".to_owned()),
        registry: OutputCodecRegistry::standard(),
    };
    assert_eq!(words.encode("string").ok().unwrap(), "the woman");
    assert_eq!(
        words.encode("display").err().unwrap().text(),
        "no output codec registered with name \"display\""
    );
    let tree = EvaluatedAlgebraValue {
        kind: ValueKind::Tree,
        value: TextValue::Shown(17u32),
        visual: VisualRepresentation::Text("17".to_owned()),
        registry: OutputCodecRegistry::standard(),
    };
    assert_eq!(tree.encode("Display").ok().unwrap(), "17");
    let format = TextFormat::SpaceJoin(SpaceJoinCodec);
    assert_eq!(
        <TextFormat as OutputCodec<TextValue<u32>>>::metadata(&format).name,
        "string"
    );
}

#[test]
fn paths_are_read_up_to_their_last_dot() {
    let registry = InputCodecRegistry::standard();
    let name = |path: &str| {
        registry.codec_for_path::<()>(ValueKind::Irtg, path).ok().map(|found| found.metadata.name)
    };
    assert_eq!(name("grammars/v1.2/english.TAG"), Some("tulipac"));
    assert_eq!(name("english.old.irtg"), Some("irtg"));
    assert_eq!(name(".tag"), None);
    assert_eq!(name("english.tag/notes"), None);
    assert_eq!(name("english.tag/"), Some("tulipac"));
    assert_eq!(name("english..irtg"), Some("irtg"));
    for path in ["./notes", "../notes", "dir.v2/README", ".hidden", "dir.v2/.irtg", "..", "", "tag"] {
        let found = registry.codec_for_path::<()>(ValueKind::Irtg, path);
        assert!(matches!(found, Err(InputCodecError::MissingExtension)), "{path}");
    }
    let err = registry.codec_for_path::<()>(ValueKind::Irtg, "a..b").err().unwrap();
    assert_eq!(err.text(""), "no input codec registered for \"b\"");
    let err = registry.codec_for_path::<()>(ValueKind::Irtg, "a.b").err().unwrap();
    assert_eq!(err.text(""), "no input codec registered for \"b\"");
    let err = registry.codec_for_path_extension::<()>(ValueKind::Irtg, None).err().unwrap();
    assert_eq!(err.text(""), "input path has no filename extension");
}

#[test]
fn registry_errors_have_texts() {
    assert_eq!(
        InputCodecRegistryError::DuplicateName("count".to_owned()).text(),
        "duplicate input codec name \"count\" for one result type"
    );
    assert_eq!(
        InputCodecRegistryError::DuplicateExtension("a\nb".to_owned()).text(),
        "duplicate input codec extension \"a\\nb\" for one result type"
    );
    assert_eq!(InputCodecError::codec(7u8).text("seven"), "seven");
}
