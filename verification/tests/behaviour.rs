use mdx_rs::asset::{
    asset_lookup_candidates, is_resource_ref, normalize_asset_ref, normalize_mdd_key,
    parse_mdict_resource_redirect, resolve_step, trim_resource_scheme, ResolveStep,
};
use mdx_rs::binary::{
    be_u16, be_u8, decode_utf16le, decode_utf8, header_attr, read_meta_uint, read_slice,
};
use mdx_rs::index::fuzzy_score;
use mdx_rs::library::{DictionarySpec, OpenPlan};
use mdx_rs::version::version_at_least_2;
use mdx_rs::{
    extract_resource_refs, normalize_comparable_key, AssetResolver, AssetSource, Dictionary,
    DictionaryAssetSource, DictionaryLibrary, FileAssetSource, FuzzyIndexStore, IndexStore,
    MDictKeywordEntry, MdxError, MemoryAssetSource, MemoryFuzzyIndexStore, MemoryIndexStore,
    RecordBlockInfo, RecordRangeTree, SearchHit,
};
use std::cmp::Ordering;
use std::sync::Arc;

fn utf16le(text: &str) -> Vec<u8> {
    text.encode_utf16().flat_map(u16::to_le_bytes).collect()
}

fn words_dict() -> Dictionary {
    Dictionary::builder("words")
        .entry(MDictKeywordEntry::new("world", 0, 1).unwrap())
        .entry(MDictKeywordEntry::new("word", 1, 2).unwrap())
        .entry(MDictKeywordEntry::new("sword", 2, 3).unwrap())
        .entry(MDictKeywordEntry::new("Worm", 3, 4).unwrap())
        .records(b"abcd".to_vec())
        .build()
}

#[test]
fn errors_describe_themselves() {
    assert_eq!(MdxError::InvalidInput("x".into()).describe(), "invalid input: x");
    assert_eq!(MdxError::InvalidFormat("y".into()).describe(), "invalid MDict format: y");
    assert_eq!(MdxError::Unsupported("z".into()).describe(), "unsupported MDict feature: z");
    assert_eq!(
        MdxError::IndexMiss { dictionary: "d".into(), keyword: "k".into() }.describe(),
        "index miss in dictionary 'd' for 'k'"
    );
    assert_eq!(MdxError::DictionaryNotFound("n".into()).describe(), "dictionary not found: n");
    assert_eq!(MdxError::UnsafeAssetPath("p".into()).describe(), "unsafe asset path: p");
    assert_eq!(MdxError::AssetNotFound("a".into()).describe(), "asset not found: a");
    assert_eq!(
        MdxError::io(Some("/tmp/f".into()), "gone".into()).describe(),
        "io error at /tmp/f: gone"
    );
    assert_eq!(MdxError::io(None, "gone".into()).describe(), "io error: gone");
}

#[test]
fn binary_readers_give_exact_values_and_errors() {
    assert_eq!(be_u8(&[7]).unwrap(), 7);
    assert_eq!(be_u16(&[1, 2]).unwrap(), 258);
    assert!(matches!(be_u16(&[1]), Err(MdxError::InvalidFormat(_))));
    assert_eq!(read_slice(&[1, 2, 3, 4], 1, 2).unwrap(), &[2, 3]);
    assert!(read_slice(&[1, 2, 3, 4], 3, 2).is_err());
    assert_eq!(decode_utf8(b"caf\xc3\xa9").unwrap(), "café");
    assert!(decode_utf8(&[0xff]).is_err());
    assert_eq!(decode_utf16le(&utf16le("a😀b")).unwrap(), "a😀b");
    assert!(decode_utf16le(&[0x00, 0xd8]).is_err());
    assert_eq!(
        header_attr(r#"<Dictionary Title="T" Encoding=" UTF-8 "/>"#, "Encoding").as_deref(),
        Some(" UTF-8 ")
    );
    assert_eq!(header_attr(r#"<Dictionary Title="T"/>"#, "Missing"), None);
}

#[test]
fn comparable_keys_drop_punctuation_and_lowercase() {
    assert_eq!(normalize_comparable_key("He-llo World!"), "helloworld");
    assert_eq!(normalize_comparable_key("ÄBC"), "äbc");
    assert_eq!(normalize_comparable_key(" :.,-_'\"()#<>! "), "");
}

#[test]
fn fuzzy_scores_rank_kinds_of_match() {
    assert_eq!(fuzzy_score("world", " World "), Some((100, "exact".to_string())));
    assert_eq!(fuzzy_score("WOR", "world"), Some((80, "prefix".to_string())));
    assert_eq!(fuzzy_score("orl", "world"), Some((60, "substring".to_string())));
    assert_eq!(fuzzy_score("wrl", "world"), Some((30, "subsequence".to_string())));
    assert_eq!(fuzzy_score("xyz", "world"), None);
    assert_eq!(fuzzy_score("  ", "world"), None);
}

#[test]
fn fuzzy_hits_come_best_first_and_respect_the_limit() {
    let dict = words_dict();
    let mut fuzzy = MemoryFuzzyIndexStore::new();
    fuzzy.put(dict.dictionary_info(), dict.export_index()).unwrap();
    let hits = fuzzy.search("words", " wor ", 0).unwrap();
    let keys: Vec<&str> = hits.iter().map(|h| h.entry.keyword.as_str()).collect();
    assert_eq!(keys, vec!["Worm", "word", "world", "sword"]);
    assert_eq!(hits[0].score, 80);
    assert_eq!(hits[3].score, 60);
    assert_eq!(hits[3].source, "substring");
    let two = fuzzy.search("words", "wor", 2).unwrap();
    assert_eq!(two.len(), 2);
    assert!(matches!(
        fuzzy.search("words", "   ", 2),
        Err(MdxError::IndexMiss { keyword, .. }) if keyword.is_empty()
    ));
    assert!(matches!(
        fuzzy.search("words", "qqq", 2),
        Err(MdxError::IndexMiss { keyword, .. }) if keyword == "qqq"
    ));
    assert!(matches!(fuzzy.search("other", "wor", 2), Err(MdxError::IndexMiss { .. })));
}

#[test]
fn search_hits_order_by_score_then_key() {
    let entry = |k: &str| MDictKeywordEntry::new(k, 0, 1).unwrap();
    let a = SearchHit { entry: entry("b"), score: 80, source: "prefix".into() };
    let b = SearchHit { entry: entry("a"), score: 60, source: "substring".into() };
    let c = SearchHit { entry: entry("c"), score: 80, source: "prefix".into() };
    assert_eq!(a.cmp(&b), Ordering::Less);
    assert_eq!(b.cmp(&a), Ordering::Greater);
    assert_eq!(a.cmp(&c), Ordering::Less);
    assert_eq!(a.cmp(&a.clone()), Ordering::Equal);
    assert_eq!(c.partial_cmp(&a), Some(Ordering::Greater));
}

#[test]
fn store_put_replaces_and_delete_forgets() {
    let dict = words_dict();
    let mut store = MemoryIndexStore::new();
    let mut blank = dict.dictionary_info();
    blank.name = "  ".into();
    assert!(matches!(store.put(blank, Vec::new()), Err(MdxError::InvalidInput(_))));
    store.put(dict.dictionary_info(), dict.export_index()).unwrap();
    assert_eq!(store.get_exact("words", "word").unwrap().record_start_offset, 1);
    assert_eq!(store.dictionary_info("words").unwrap().entry_count, 4);
    store.put(dict.dictionary_info(), Vec::new()).unwrap();
    assert!(store.get_exact("words", "word").is_err());
    store.delete_dictionary("words").unwrap();
    assert!(store.dictionary_info("words").is_none());
    assert!(matches!(
        store.get_exact("words", "word"),
        Err(MdxError::IndexMiss { dictionary, keyword }) if dictionary == "words" && keyword == "word"
    ));
}

#[test]
fn prefix_search_lowercases_trims_and_limits() {
    let dict = words_dict();
    let mut store = MemoryIndexStore::new();
    store.put(dict.dictionary_info(), dict.export_index()).unwrap();
    let hits = store.prefix_search("words", " WOR ", 0).unwrap();
    let keys: Vec<&str> = hits.iter().map(|e| e.keyword.as_str()).collect();
    assert_eq!(keys, vec!["world", "word", "Worm"]);
    assert_eq!(store.prefix_search("words", "wor", 2).unwrap().len(), 2);
    assert_eq!(store.prefix_search("words", "", 0).unwrap().len(), 4);
    assert!(matches!(
        store.prefix_search("words", " XY ", 0),
        Err(MdxError::IndexMiss { keyword, .. }) if keyword == "xy"
    ));
    assert!(matches!(
        store.prefix_search("nothing", "Wo", 0),
        Err(MdxError::IndexMiss { keyword, .. }) if keyword == "Wo"
    ));
}

#[test]
fn range_tree_sorts_blocks_and_reports_ends() {
    let late = RecordBlockInfo {
        compressed_size: 3,
        decompressed_size: 5,
        compressed_accumulator_offset: 4,
        decompressed_accumulator_offset: 10,
    };
    let early = RecordBlockInfo {
        compressed_size: 4,
        decompressed_size: 10,
        compressed_accumulator_offset: 0,
        decompressed_accumulator_offset: 0,
    };
    let tree = RecordRangeTree::new(vec![late, early]).unwrap();
    assert_eq!(tree.len(), 2);
    assert!(!tree.is_empty());
    assert_eq!(tree.blocks()[0], early);
    assert_eq!(tree.blocks()[1], late);
    assert_eq!(tree.query(9), Some(&early));
    assert_eq!(tree.query(10), Some(&late));
    assert_eq!(tree.query(15), None);
    assert_eq!(late.decompressed_end().unwrap(), 15);
    let huge = RecordBlockInfo {
        compressed_size: 1,
        decompressed_size: u64::MAX,
        compressed_accumulator_offset: 0,
        decompressed_accumulator_offset: 1,
    };
    assert!(huge.decompressed_end().is_err());
    assert!(RecordRangeTree::new(Vec::new()).unwrap().is_empty());
}

#[test]
fn asset_references_normalize_or_are_refused() {
    assert_eq!(normalize_asset_ref("FILE://Img/A.png").unwrap(), r"Img\A.png");
    assert_eq!(normalize_asset_ref(" \\\\a\\b ").unwrap(), r"a\b");
    assert!(matches!(normalize_asset_ref("   "), Err(MdxError::InvalidInput(_))));
    assert!(matches!(normalize_asset_ref("a//b"), Err(MdxError::UnsafeAssetPath(p)) if p == "a//b"));
    assert!(matches!(normalize_asset_ref("a/../b"), Err(MdxError::UnsafeAssetPath(_))));
    assert!(matches!(normalize_asset_ref("a/"), Err(MdxError::UnsafeAssetPath(_))));
    assert_eq!(trim_resource_scheme("CSS://site.css"), "site.css");
    assert_eq!(trim_resource_scheme(" img://x"), " img://x");
    assert_eq!(normalize_mdd_key(""), r"\");
    assert_eq!(normalize_mdd_key(" a/b "), r"\a\b");
    assert_eq!(normalize_mdd_key(r"\x"), r"\x");
}

#[test]
fn lookup_candidates_cover_schemes_separators_and_extensions() {
    assert_eq!(
        asset_lookup_candidates("sound://audio/a.spx"),
        vec![
            "sound://audio/a.spx",
            r"\sound:\\audio\a.spx",
            "sound://audio/a",
            r"\sound:\\audio\a",
            "audio/a.spx",
            r"\audio\a.spx",
            "audio/a",
            r"\audio\a",
            "snd://audio/a.spx",
            r"\snd:\\audio\a.spx",
            "snd://audio/a",
            r"\snd:\\audio\a",
        ]
    );
    assert_eq!(asset_lookup_candidates("/x.css"), vec!["/x.css", "x.css", r"\x.css", "x", r"\x"]);
    assert!(asset_lookup_candidates("  ").is_empty());
}

#[test]
fn resource_refs_are_recognised_by_scheme_prefix_and_extension() {
    assert!(is_resource_ref(" SND://a "));
    assert!(is_resource_ref("style.CSS"));
    assert!(is_resource_ref("mp3"));
    assert!(!is_resource_ref("x:foo.png"));
    assert!(!is_resource_ref("https://a/b.png"));
    assert!(!is_resource_ref("notes.txt"));
    assert!(!is_resource_ref(""));
}

#[test]
fn extracted_refs_are_unique_and_skip_bad_text() {
    let refs = extract_resource_refs(
        b"<img src=\"a.png\"><img src=\" a.png \"><img src=a.png> IMG://b.gif) <a href='c.mp3",
    );
    assert_eq!(refs, vec!["a.png".to_string(), "IMG://b.gif".to_string()]);
    assert!(extract_resource_refs(&[0xff, 0xfe]).is_empty());
}

#[test]
fn resource_redirects_are_parsed_from_utf16() {
    let mut data = utf16le("@@@LINK= img/a.png ");
    data.extend_from_slice(&[0, 0, b'x', 0, 7]);
    assert_eq!(parse_mdict_resource_redirect(&data).as_deref(), Some("img/a.png"));
    assert_eq!(parse_mdict_resource_redirect(&utf16le("@@@LINK=   ")), None);
    assert_eq!(parse_mdict_resource_redirect(b"@@@LINK=x"), None);
    let mut odd = utf16le("@@@LINK=ab");
    odd.push(1);
    assert_eq!(parse_mdict_resource_redirect(&odd).as_deref(), Some("ab"));
}

#[test]
fn resolve_step_decides_on_each_answer() {
    assert!(matches!(resolve_step(Ok(b"x".to_vec())), ResolveStep::Done(b) if b == b"x"));
    assert!(matches!(
        resolve_step(Ok(utf16le("@@@LINK=t"))),
        ResolveStep::Follow(t) if t == "t"
    ));
    assert!(matches!(resolve_step(Err(MdxError::AssetNotFound("a".into()))), ResolveStep::TryNext));
    assert!(matches!(
        resolve_step(Err(MdxError::IndexMiss { dictionary: "d".into(), keyword: "k".into() })),
        ResolveStep::TryNext
    ));
    assert!(matches!(
        resolve_step(Err(MdxError::InvalidFormat("bad".into()))),
        ResolveStep::Stop(MdxError::InvalidFormat(m)) if m == "bad"
    ));
}

#[test]
fn memory_source_reads_back_what_was_inserted() {
    let source = MemoryAssetSource::new()
        .insert("img/a.png", b"one".to_vec())
        .insert(r"img\a.png", b"two".to_vec());
    assert_eq!(source.read_asset("img/a.png").unwrap(), b"two");
    assert_eq!(source.clone().read_asset("file://img/a.png").unwrap(), b"two");
    assert!(matches!(source.read_asset("img/b.png"), Err(MdxError::AssetNotFound(r)) if r == "img/b.png"));
    assert!(matches!(source.read_asset("../x"), Err(MdxError::UnsafeAssetPath(r)) if r == "../x"));
    assert!(matches!(
        MemoryAssetSource::new().try_insert("../x", Vec::new()),
        Err(MdxError::UnsafeAssetPath(_))
    ));
}

#[test]
fn resolver_tries_sources_in_order_and_stops_on_loops() {
    let first = MemoryAssetSource::new()
        .insert("a.png", utf16le("@@@LINK=b.png"))
        .insert("b.png", utf16le("@@@LINK=a.png"));
    let second = MemoryAssetSource::new().insert("c.png", b"c".to_vec());
    let mut resolver = AssetResolver::new().with_source(Box::new(first));
    resolver.add_source(Box::new(second));
    assert_eq!(resolver.read("c.png").unwrap(), b"c");
    assert!(matches!(resolver.read("a.png"), Err(MdxError::AssetNotFound(r)) if r == "a.png"));
    assert!(matches!(AssetResolver::new().read("c.png"), Err(MdxError::AssetNotFound(_))));
}

#[test]
fn dictionary_source_finds_entries_case_insensitively() {
    let dict = Dictionary::builder("assets")
        .entry(MDictKeywordEntry::new(r"\IMG\A.png", 0, 3).unwrap())
        .records(b"png".to_vec())
        .build();
    let source = DictionaryAssetSource::new(Arc::new(dict));
    assert_eq!(source.read_asset("img/a.png").unwrap(), b"png");
    assert!(matches!(source.read_asset("img/b.png"), Err(MdxError::AssetNotFound(_))));
}

#[test]
fn file_source_lists_keys_to_try() {
    let source = FileAssetSource::new("/data".into());
    assert_eq!(source.root(), "/data");
    assert_eq!(source.lookup_keys("/x.css"), vec![r"x.css", r"x.css", r"x.css", "x", "x"]);
    assert_eq!(source.lookup_keys(".."), vec![".", "."]);
    assert_eq!(
        source.lookup_keys("sound://a/b.spx"),
        vec![r"a\b.spx", r"a\b", r"a\b.spx", r"a\b.spx", r"a\b", r"a\b", r"a\b.spx", r"a\b"]
    );
}

#[test]
fn library_plans_and_installs_dictionaries() {
    let mut library = DictionaryLibrary::new();
    assert!(matches!(
        library.register(DictionarySpec::new(" ", "a.mdx")),
        Err(MdxError::InvalidInput(m)) if m == "dictionary id is required"
    ));
    assert!(matches!(
        library.register(DictionarySpec::new("a", "")),
        Err(MdxError::InvalidInput(m)) if m == "mdx path is required"
    ));
    library.register(DictionarySpec::new("a", "a.mdx").with_mdd("a.mdd")).unwrap();
    assert_eq!(library.specs().len(), 1);
    assert_eq!(library.specs()[0].mdd_paths, vec!["a.mdd".to_string()]);
    match library.plan_open("a") {
        OpenPlan::Load(spec) => assert_eq!(spec.mdx_path, "a.mdx"),
        _ => panic!("a registered spec must be loaded"),
    }
    assert!(matches!(library.plan_open("b"), OpenPlan::Missing));
    assert!(matches!(library.open("a"), Err(MdxError::DictionaryNotFound(id)) if id == "a"));

    let mdd = Dictionary::builder("a")
        .entry(MDictKeywordEntry::new(r"\pic.png", 0, 3).unwrap())
        .records(b"pic".to_vec())
        .build();
    library.install("a", words_dict(), AssetResolver::new(), vec![mdd]);
    assert!(matches!(library.plan_open("a"), OpenPlan::Ready));
    assert_eq!(library.companions("a").len(), 1);
    assert!(library.companions("b").is_empty());
    let dict = library.open("a").unwrap();
    assert_eq!(dict.name(), "words");
    let resolver = dict.asset_resolver().expect("installed dictionaries carry a resolver");
    assert_eq!(resolver.read("pic.png").unwrap(), b"pic");
    assert!(library.get("b").is_none());
}

#[test]
fn dictionary_clone_keeps_entries_and_resolver() {
    let mut dict = words_dict();
    assert!(dict.asset_resolver().is_none());
    dict.set_asset_resolver(AssetResolver::new());
    let copy = dict.clone();
    assert!(copy.asset_resolver().is_some());
    assert_eq!(copy.lookup("sword").unwrap(), b"c");
    assert_eq!(copy.export_index(), dict.export_index());
}

#[test]
fn engine_versions_are_read_as_floats() {
    assert_eq!(version_at_least_2("2.0"), Some(true));
    assert_eq!(version_at_least_2("1.2"), Some(false));
    assert_eq!(version_at_least_2("1.99999999"), Some(true));
    assert_eq!(version_at_least_2("1.9999999"), Some(false));
    assert_eq!(version_at_least_2("1.999999940395355224609375"), Some(true));
    assert_eq!(version_at_least_2("1.999999940395355224609374"), Some(false));
    assert_eq!(version_at_least_2("1e1"), Some(true));
    assert_eq!(version_at_least_2("2E0"), Some(true));
    assert_eq!(version_at_least_2("20e-1"), Some(true));
    assert_eq!(version_at_least_2("2e-1"), Some(false));
    assert_eq!(version_at_least_2(".5e1"), Some(true));
    assert_eq!(version_at_least_2("1."), Some(false));
    assert_eq!(version_at_least_2("+2"), Some(true));
    assert_eq!(version_at_least_2("-3"), Some(false));
    assert_eq!(version_at_least_2("inf"), Some(true));
    assert_eq!(version_at_least_2("-Infinity"), Some(false));
    assert_eq!(version_at_least_2("NaN"), Some(false));
    assert_eq!(version_at_least_2("0.000"), Some(false));
    assert_eq!(version_at_least_2("1e99999999999999999999999"), Some(true));
    assert_eq!(version_at_least_2("5e-99999999999999999999999"), Some(false));
    for bad in ["", ".", "e5", "1e", "1.5.2", " 2", "abc", "1e+"] {
        assert_eq!(version_at_least_2(bad), None, "{bad}");
    }
    for text in ["2.0", "1.99999999", "1e1", "inf", "NaN", "-0", "0.5"] {
        let f: f32 = text.parse().unwrap();
        assert_eq!(version_at_least_2(text), Some(f >= 2.0), "{text}");
    }
}

#[test]
fn resolver_reaches_an_archive_by_a_sound_reference() {
    let mdd = Dictionary::builder("archive")
        .entry(MDictKeywordEntry::new(r"\audio\uk\example.spx", 0, 5).unwrap())
        .records(b"sound".to_vec())
        .build();
    let archive = Arc::new(mdd);
    let resolver = AssetResolver::new()
        .with_source(Box::new(DictionaryAssetSource::new(archive.clone())));
    assert_eq!(resolver.read("sound://audio/uk/example.spx").unwrap(), b"sound");
    // A memory source asked first refuses the `\sound:\\...` candidate as
    // unsafe, and that error ends the read.
    let guarded = AssetResolver::new()
        .with_source(Box::new(MemoryAssetSource::new()))
        .with_source(Box::new(DictionaryAssetSource::new(archive)));
    assert!(matches!(
        guarded.read("sound://audio/uk/example.spx"),
        Err(MdxError::UnsafeAssetPath(_))
    ));
}

#[test]
fn memory_source_reads_back_a_reference_written_with_white_space() {
    let source = MemoryAssetSource::new()
        .insert("  audio/a.spx\t", b"spx".to_vec())
        .insert("FILE://img/b.png  ", b"png".to_vec());
    assert_eq!(source.read_asset("  audio/a.spx\t").unwrap(), b"spx");
    assert_eq!(source.read_asset("audio/a.spx").unwrap(), b"spx");
    assert_eq!(source.read_asset("FILE://img/b.png  ").unwrap(), b"png");
}

#[test]
fn redirect_targets_come_back_from_their_encoding() {
    for target in ["x", "snd://audio/b.spx", "\u{1F600}/ü.png"] {
        let mut data = utf16le(&format!("@@@LINK={target}"));
        assert_eq!(parse_mdict_resource_redirect(&data).as_deref(), Some(target));
        data.push(9);
        assert_eq!(parse_mdict_resource_redirect(&data).as_deref(), Some(target));
        data.pop();
        data.extend_from_slice(&[0, 0, b'z', 0]);
        assert_eq!(parse_mdict_resource_redirect(&data).as_deref(), Some(target));
    }
    assert_eq!(utf16le("@@@LINK="), vec![64, 0, 64, 0, 64, 0, 76, 0, 73, 0, 78, 0, 75, 0, 61, 0]);
}

#[test]
fn mdd_keys_are_their_own_keys() {
    for name in ["", " a/b ", r"\x", "img/a.png", r"\\y/z"] {
        let key = normalize_mdd_key(name);
        assert!(key.starts_with('\\'));
        assert!(!key.contains('/'));
        assert_eq!(normalize_mdd_key(&key), key);
    }
}

#[test]
fn error_messages_name_offsets_and_lengths() {
    assert!(matches!(
        read_meta_uint(&[0, 0, 0], 1, 4),
        Err(MdxError::InvalidFormat(m)) if m == "metadata integer at offset 1 with width 4 exceeds buffer length 3"
    ));
    assert!(matches!(
        read_meta_uint(&[0; 8], 0, 2),
        Err(MdxError::InvalidFormat(m)) if m == "unsupported metadata integer width 2"
    ));
    assert!(matches!(
        read_slice(&[1, 2, 3], 2, 5),
        Err(MdxError::InvalidFormat(m)) if m == "slice 2..7 exceeds buffer length 3"
    ));
    assert!(matches!(
        MDictKeywordEntry::new("k", 10, 3),
        Err(MdxError::InvalidInput(m)) if m == "record end offset 3 precedes start offset 10"
    ));
    let lone = String::from_utf16(&[0xD800]).unwrap_err().to_string();
    assert!(matches!(
        decode_utf16le(&[0x00, 0xD8]),
        Err(MdxError::InvalidFormat(m)) if m == format!("invalid UTF-16LE: {lone}")
    ));
    let bad: std::result::Result<f32, _> = "1.2.3".parse::<f32>();
    assert_eq!(bad.unwrap_err().to_string(), "invalid float literal");
    let empty: std::result::Result<f32, _> = "".parse::<f32>();
    assert_eq!(empty.unwrap_err().to_string(), "cannot parse float from empty string");
}

#[test]
fn utf8_errors_carry_the_standard_description() {
    let cause = std::str::from_utf8(&[b'a', 0xff]).unwrap_err().to_string();
    assert!(matches!(
        decode_utf8(&[b'a', 0xff]),
        Err(MdxError::InvalidFormat(m)) if m == format!("invalid UTF-8: {cause}")
    ));
}

#[test]
fn white_space_is_what_the_standard_library_calls_white_space() {
    for code in 0u32..0x3100 {
        if let Some(c) = char::from_u32(code) {
            if c == '/' || c == '\\' {
                continue;
            }
            let key = normalize_mdd_key(&format!("{c}a"));
            assert_eq!(key == "\\a", c.is_whitespace(), "{code:#x}");
        }
    }
}
