//! The bundle decoder, the format parsers and the extraction engine.
use limn::bundle::assemble_stream;
use limn::bundle::parse_header;
use limn::bundle::split_blocks;
use limn::bundle::Bundle;
use limn::dupes::DuplicateMap;
use limn::extract::extract_bundle;
use limn::extract::ExtractOptions;
use limn::extract::Oodle;
use limn::hash::murmur_hash64a;
use limn::hash::short_hash;
use limn::hash::Dictionary;
use limn::hash::ExtensionTable;
use limn::lua::extract_script;
use limn::package::extract_package;
use limn::scoped_fs::ScopedFs;
use limn::strings::extract_strings_variant;
use limn::strings::Language;
use limn::ExtractBuilder;

fn le32(v: u32) -> [u8; 4] {
    v.to_le_bytes()
}

fn le64(v: u64) -> [u8; 8] {
    v.to_le_bytes()
}

/// A one-file index with a single variant, followed by the body.
fn tiny_stream(ext: u64, name: u64, kind: u32, body: &[u8]) -> Vec<u8> {
    let mut s = Vec::new();
    s.extend_from_slice(&le64(ext));
    s.extend_from_slice(&le64(name));
    s.extend_from_slice(&le32(1)); // one variant
    s.extend_from_slice(&le32(kind));
    s.extend_from_slice(&le32(body.len() as u32));
    s.extend_from_slice(&le32(0));
    s.extend_from_slice(body);
    s
}

fn options(dict: Dictionary, skip_unknown: bool, as_blob: bool) -> ExtractOptions {
    ExtractOptions {
        target: b"bundles".to_vec(),
        out: ScopedFs::new_null(b"./out"),
        oodle: Oodle {},
        dictionary: dict,
        skip_extract: false,
        skip_unknown,
        as_blob,
        extract_lua_source: false,
        exts: ExtensionTable::standard(),
    }
}

#[test]
fn header_and_blocks() {
    let mut data = Vec::new();
    data.extend_from_slice(&le32(4));
    data.extend_from_slice(&le32(1));
    data.extend_from_slice(&le32(0));
    data.extend_from_slice(&le32(3));
    data.extend_from_slice(&[7, 8, 9]);
    let h = parse_header(&data).unwrap();
    assert_eq!(h.version, 4);
    assert_eq!(h.num_files, 1);
    let blocks = split_blocks(&data, 12).unwrap();
    assert_eq!(blocks.len(), 1);
    assert_eq!(blocks[0].payload, vec![7, 8, 9]);
    assert!(!blocks[0].stored);
    assert!(parse_header(&data[..8]).is_none());
    assert!(split_blocks(&data, 14).is_none());
}

#[test]
fn stored_block_passes_through_verbatim() {
    // a block of exactly CHUNK_SIZE bytes is stored uncompressed
    let payload: Vec<u8> = (0..limn::CHUNK_SIZE).map(|i| (i % 251) as u8).collect();
    let mut data = Vec::new();
    data.extend_from_slice(&le32(limn::CHUNK_SIZE as u32));
    data.extend_from_slice(&payload);
    let blocks = split_blocks(&data, 0).unwrap();
    assert_eq!(blocks.len(), 1);
    assert!(blocks[0].stored);
    let stream = assemble_stream(&blocks, &Vec::new()).unwrap();
    assert_eq!(stream, payload);
}

#[test]
fn compressed_blocks_consume_supplied_chunks() {
    let mut data = Vec::new();
    data.extend_from_slice(&le32(3));
    data.extend_from_slice(&[1, 2, 3]);
    data.extend_from_slice(&le32(2));
    data.extend_from_slice(&[4, 5]);
    let blocks = split_blocks(&data, 0).unwrap();
    assert_eq!(blocks.len(), 2);
    let chunks = vec![vec![9, 9, 9, 9], vec![8]];
    let stream = assemble_stream(&blocks, &chunks).unwrap();
    assert_eq!(stream, vec![9, 9, 9, 9, 8]);
    assert!(assemble_stream(&blocks, &Vec::new()).is_none());
}

#[test]
fn bundle_entries_partition_the_stream() {
    let mut s = Vec::new();
    // two files: one with a single 3-byte variant, one with two variants
    s.extend_from_slice(&le64(0x10));
    s.extend_from_slice(&le64(0x20));
    s.extend_from_slice(&le32(1));
    s.extend_from_slice(&le32(0));
    s.extend_from_slice(&le32(3));
    s.extend_from_slice(&le32(0));
    s.extend_from_slice(&le64(0x11));
    s.extend_from_slice(&le64(0x21));
    s.extend_from_slice(&le32(2));
    s.extend_from_slice(&le32(0));
    s.extend_from_slice(&le32(2));
    s.extend_from_slice(&le32(0));
    s.extend_from_slice(&le32(1));
    s.extend_from_slice(&le32(2));
    s.extend_from_slice(&le32(0));
    let index_len = s.len();
    s.extend_from_slice(b"abcWXyz");
    let b = Bundle::new(s.clone(), 2).unwrap();
    assert_eq!(b.num_files(), 2);
    assert_eq!(b.file_ext(0), 0x10);
    assert_eq!(b.file_name(1), 0x21);
    assert_eq!(b.variants(1).len(), 2);
    let b0 = b.body(0);
    let b1 = b.body(1);
    assert_eq!(b0, b"abc".to_vec());
    assert_eq!(b1, b"WXyz".to_vec());
    // the bodies tile the stream after the index, in order
    assert_eq!(b0.len() + b1.len(), s.len() - index_len);
    assert!(Bundle::new(s[..s.len() - 1].to_vec(), 2).is_none());
    assert!(Bundle::new(s, 3).is_none());
}

#[test]
fn raw_extraction_copies_the_body() {
    let stream = tiny_stream(0x1111111111111111, 0x2222222222222222, 0, b"hello");
    let bundle = Bundle::new(stream, 1).unwrap();
    let mut dupes = DuplicateMap::new();
    let opts = options(Dictionary::new(), false, true);
    let (arts, count) = extract_bundle(&bundle, &mut dupes, &opts, None).unwrap();
    assert_eq!(count, 1);
    assert_eq!(arts.len(), 1);
    assert_eq!(arts[0].path, b"1111111111111111/2222222222222222".to_vec());
    assert_eq!(arts[0].data, b"hello".to_vec());
}

#[test]
fn raw_path_keeps_the_suffix_for_known_extensions() {
    let ext = murmur_hash64a(b"texture", 0);
    let stream = tiny_stream(ext, 0x2222222222222222, 0, b"pixels");
    let bundle = Bundle::new(stream, 1).unwrap();
    let mut dupes = DuplicateMap::new();
    let opts = options(Dictionary::new(), false, true);
    let (arts, _) = extract_bundle(&bundle, &mut dupes, &opts, None).unwrap();
    assert_eq!(
        arts[0].path,
        b"texture/2222222222222222.texture".to_vec()
    );
}

#[test]
fn refused_recognized_bodies_are_bundle_fatal() {
    let lua_ext = murmur_hash64a(b"lua", 0);
    let name = 0x5555;
    // a script with a magic neither accepted value
    let body = script_body(12345, None, b"a.lua", b"LJBC");
    let bundle = Bundle::new(tiny_stream(lua_ext, name, 0, &body), 1).unwrap();
    let mut dupes = DuplicateMap::new();
    let opts = options(Dictionary::new(), false, false);
    let err = extract_bundle(&bundle, &mut dupes, &opts, None).unwrap_err();
    assert_eq!(err.index, 0);
    assert_eq!(err.ext, lua_ext);
    assert_eq!(err.name, name);
    // raw mode never refuses: the same body copies through verbatim
    let opts = options(Dictionary::new(), false, true);
    let (arts, _) = extract_bundle(&bundle, &mut dupes, &opts, None).unwrap();
    assert_eq!(arts[0].data, body);
}

#[test]
fn multi_variant_script_files_are_refused() {
    let lua_ext = murmur_hash64a(b"lua", 0);
    let body = script_body(38423579, None, b"a.lua", b"LJBC");
    let half = body.len() / 2;
    let mut s = Vec::new();
    s.extend_from_slice(&le64(lua_ext));
    s.extend_from_slice(&le64(0x66));
    s.extend_from_slice(&le32(2));
    s.extend_from_slice(&le32(0));
    s.extend_from_slice(&le32(half as u32));
    s.extend_from_slice(&le32(0));
    s.extend_from_slice(&le32(0));
    s.extend_from_slice(&le32((body.len() - half) as u32));
    s.extend_from_slice(&le32(0));
    s.extend_from_slice(&body);
    let bundle = Bundle::new(s, 1).unwrap();
    let mut dupes = DuplicateMap::new();
    let opts = options(Dictionary::new(), false, false);
    let err = extract_bundle(&bundle, &mut dupes, &opts, None).unwrap_err();
    assert_eq!(err.ext, lua_ext);
    assert_eq!(err.name, 0x66);
}

#[test]
fn first_occurrence_only_across_bundles() {
    let ext = 0x1111111111111111;
    let name = 0x2222222222222222;
    let mut dupes = DuplicateMap::new();
    let opts = options(Dictionary::new(), false, true);
    let b1 = Bundle::new(tiny_stream(ext, name, 0, b"one"), 1).unwrap();
    let b2 = Bundle::new(tiny_stream(ext, name, 0, b"two"), 1).unwrap();
    let (arts1, count1) = extract_bundle(&b1, &mut dupes, &opts, Some(ext)).unwrap();
    let (arts2, count2) = extract_bundle(&b2, &mut dupes, &opts, Some(ext)).unwrap();
    assert_eq!(count1, 1);
    assert_eq!(arts1.len(), 1);
    assert_eq!(count2, 0);
    assert_eq!(arts2.len(), 0);
    assert_eq!(dupes.count(ext, name), 2);
}

#[test]
fn filter_skips_other_extensions() {
    let mut dupes = DuplicateMap::new();
    let opts = options(Dictionary::new(), false, true);
    let b = Bundle::new(tiny_stream(0x10, 0x20, 0, b"x"), 1).unwrap();
    let (arts, count) = extract_bundle(&b, &mut dupes, &opts, Some(0x999)).unwrap();
    assert_eq!(count, 0);
    assert!(arts.is_empty());
    // the pair was still counted
    assert_eq!(dupes.count(0x10, 0x20), 1);
}

#[test]
fn package_parser_emits_hex_fallbacks() {
    let mut body = Vec::new();
    body.extend_from_slice(&le32(43));
    body.extend_from_slice(&le32(2));
    body.extend_from_slice(&le64(0xaaaaaaaaaaaaaaaa));
    body.extend_from_slice(&le64(0xbbbbbbbbbbbbbbbb));
    body.extend_from_slice(&le64(0xcccccccccccccccc));
    body.extend_from_slice(&le64(0xdddddddddddddddd));
    body.push(1);
    let json = extract_package(&body, &Dictionary::new(), &ExtensionTable::standard()).unwrap();
    let text = String::from_utf8(json).unwrap();
    let parsed: serde_json::Value = serde_json::from_str(&text).unwrap();
    let arr = parsed.as_array().unwrap();
    assert_eq!(arr.len(), 2);
    for el in arr {
        let obj = el.as_object().unwrap();
        assert!(obj.contains_key("name_hash"));
        assert!(obj.contains_key("ext_hash") != obj.contains_key("ext"));
        assert!(!obj.contains_key("name"));
    }
    assert_eq!(arr[0]["name_hash"], "bbbbbbbbbbbbbbbb");
    assert_eq!(arr[0]["ext_hash"], "aaaaaaaaaaaaaaaa");
    // a bad magic, a bad trailer and a short body are all refused
    let mut bad = body.clone();
    bad[0] = 42;
    assert!(extract_package(&bad, &Dictionary::new(), &ExtensionTable::standard()).is_none());
    let mut bad = body.clone();
    *bad.last_mut().unwrap() = 0;
    assert!(extract_package(&bad, &Dictionary::new(), &ExtensionTable::standard()).is_none());
    assert!(extract_package(&body[..8], &Dictionary::new(), &ExtensionTable::standard()).is_none());
}

#[test]
fn package_parser_resolves_names_and_extensions() {
    let mut dict = Dictionary::new();
    dict.insert(b"content/fx/smoke");
    let name = murmur_hash64a(b"content/fx/smoke", 0);
    let ext = murmur_hash64a(b"lua", 0);
    let mut body = Vec::new();
    body.extend_from_slice(&le32(43));
    body.extend_from_slice(&le32(1));
    body.extend_from_slice(&le64(ext));
    body.extend_from_slice(&le64(name));
    body.push(1);
    let json = extract_package(&body, &dict, &ExtensionTable::standard()).unwrap();
    let parsed: serde_json::Value =
        serde_json::from_str(&String::from_utf8(json).unwrap()).unwrap();
    let obj = parsed.as_array().unwrap()[0].as_object().unwrap();
    assert_eq!(obj["name"], "content/fx/smoke");
    assert_eq!(obj["ext"], "lua");
    assert!(!obj.contains_key("ext_hash"));
}

/// One string-table variant: a metadata word, the item count, the
/// (short hash, offset) index, then the NUL-terminated strings.
fn strings_variant(items: &[(u32, u32)], strings: &[u8]) -> Vec<u8> {
    let mut v = Vec::new();
    v.extend_from_slice(&le32(0));
    v.extend_from_slice(&le32(items.len() as u32));
    for (h, off) in items {
        v.extend_from_slice(&le32(*h));
        v.extend_from_slice(&le32(*off));
    }
    v.extend_from_slice(strings);
    v
}

#[test]
fn string_table_variant_decodes_to_json() {
    let v = strings_variant(&[(0x11111111, 24), (0x22222222, 27)], b"hi\0bye\0");
    let json = extract_strings_variant(&v, &Dictionary::new(), false).unwrap();
    assert_eq!(
        String::from_utf8(json).unwrap(),
        "{\"11111111\":\"hi\",\"22222222\":\"bye\"}"
    );
}

#[test]
fn string_table_rejects_malformed_variants() {
    // first offset must sit right after the index
    let v = strings_variant(&[(1, 25)], b"\0hi\0");
    assert!(extract_strings_variant(&v, &Dictionary::new(), false).is_none());
    // a string must end with its NUL terminator
    let v = strings_variant(&[(1, 16)], b"hi!");
    assert!(extract_strings_variant(&v, &Dictionary::new(), false).is_none());
    // an empty table must have nothing after the prelude
    let v = strings_variant(&[], b"junk");
    assert!(extract_strings_variant(&v, &Dictionary::new(), false).is_none());
    let v = strings_variant(&[], b"");
    assert_eq!(
        String::from_utf8(extract_strings_variant(&v, &Dictionary::new(), false).unwrap()).unwrap(),
        "{}"
    );
}

#[test]
fn string_values_truncate_at_internal_nul_and_escape() {
    let raw = b"a\tb\"\0[Dev]\0";
    let v = strings_variant(&[(0xab, 16)], raw);
    let json = extract_strings_variant(&v, &Dictionary::new(), false).unwrap();
    assert_eq!(
        String::from_utf8(json).unwrap(),
        "{\"000000ab\":\"a\\tb\\\"\"}"
    );
    let v = strings_variant(&[(0xcd, 16)], b"x\ny\r\0\0");
    let json = extract_strings_variant(&v, &Dictionary::new(), false).unwrap();
    assert_eq!(
        String::from_utf8(json).unwrap(),
        "{\"000000cd\":\"x\\ny\\r\"}"
    );
}

#[test]
fn string_table_keys_resolve_through_the_dictionary() {
    let mut dict = Dictionary::new();
    dict.insert(b"loc/title");
    let long = murmur_hash64a(b"loc/title", 0);
    let short = short_hash(long);
    let v = strings_variant(&[(short, 16)], b"Hello\0");
    let json = extract_strings_variant(&v, &dict, false).unwrap();
    assert_eq!(
        String::from_utf8(json).unwrap(),
        "{\"loc/title\":\"Hello\"}"
    );
    // with skip_unknown set, unresolved keys are left out entirely
    let v = strings_variant(&[(short ^ 1, 16)], b"Hello\0");
    let json = extract_strings_variant(&v, &dict, true).unwrap();
    assert_eq!(String::from_utf8(json).unwrap(), "{}");
}

#[test]
fn language_codes() {
    assert!(matches!(Language::from_code(0), Some(Language::English)));
    assert!(matches!(Language::from_code(1), Some(Language::Polish)));
    assert!(matches!(Language::from_code(2048), Some(Language::French)));
    assert!(Language::from_code(3).is_none());
    assert_eq!(Language::from_code(0).unwrap().name(), "english");
    assert_eq!(
        Language::from_code(16).unwrap().name(),
        "chinese_traditional"
    );
}

#[test]
fn string_table_artifact_is_labelled_by_language() {
    let ext = murmur_hash64a(b"strings", 0);
    let name = 0x3333333333333333;
    let body = strings_variant(&[(0x11111111, 24), (0x22222222, 27)], b"hi\0bye\0");
    let bundle = Bundle::new(tiny_stream(ext, name, 0, &body), 1).unwrap();
    let mut dupes = DuplicateMap::new();
    let opts = options(Dictionary::new(), false, false);
    let (arts, count) = extract_bundle(&bundle, &mut dupes, &opts, None).unwrap();
    assert_eq!(count, 1);
    assert_eq!(arts.len(), 1);
    assert_eq!(
        String::from_utf8(arts[0].path.clone()).unwrap(),
        "strings/3333333333333333.english.json"
    );
    assert_eq!(
        String::from_utf8(arts[0].data.clone()).unwrap(),
        "{\"11111111\":\"hi\",\"22222222\":\"bye\"}"
    );
}

#[test]
fn multi_variant_string_table_emits_one_artifact_per_language() {
    let ext = murmur_hash64a(b"strings", 0);
    let name = 0x4444444444444444;
    let v0 = strings_variant(&[(0xa1, 16)], b"one\0");
    let v1 = strings_variant(&[(0xb2, 16)], b"two\0");
    let mut s = Vec::new();
    s.extend_from_slice(&le64(ext));
    s.extend_from_slice(&le64(name));
    s.extend_from_slice(&le32(2));
    s.extend_from_slice(&le32(0)); // english
    s.extend_from_slice(&le32(v0.len() as u32));
    s.extend_from_slice(&le32(0));
    s.extend_from_slice(&le32(3)); // no such language code
    s.extend_from_slice(&le32(v1.len() as u32));
    s.extend_from_slice(&le32(0));
    s.extend_from_slice(&v0);
    s.extend_from_slice(&v1);
    let bundle = Bundle::new(s, 1).unwrap();
    let mut dupes = DuplicateMap::new();
    let opts = options(Dictionary::new(), false, false);
    let (arts, count) = extract_bundle(&bundle, &mut dupes, &opts, None).unwrap();
    assert_eq!(count, 1);
    assert_eq!(arts.len(), 2);
    assert_eq!(
        String::from_utf8(arts[0].path.clone()).unwrap(),
        "strings/4444444444444444.english.json"
    );
    assert_eq!(
        String::from_utf8(arts[1].path.clone()).unwrap(),
        "strings/4444444444444444.0003.json"
    );
    assert_eq!(arts[0].data, b"{\"000000a1\":\"one\"}".to_vec());
    assert_eq!(arts[1].data, b"{\"000000b2\":\"two\"}".to_vec());
}

/// A script body: the prelude, an optional source-attached header, the
/// magic, the sigil-prefixed path, the bytecode, and any attached source.
fn script_body(magic: u32, with_source: Option<&[u8]>, path: &[u8], bytecode: &[u8]) -> Vec<u8> {
    let mut b = Vec::new();
    let header_len = 4 + 1 + 1 + 1 + path.len(); // magic, zero, short length, sigil, path
    b.extend_from_slice(&le32(0));
    b.extend_from_slice(&le32((header_len + bytecode.len()) as u32));
    b.extend_from_slice(&le32(0));
    if with_source.is_some() {
        b.extend_from_slice(&le32(2));
        b.extend_from_slice(&le32(0));
        b.extend_from_slice(&le32(0));
    }
    b.extend_from_slice(&le32(magic));
    b.push(0);
    b.push((path.len() + 1) as u8); // single-byte length of sigil plus path
    b.push(b'@');
    b.extend_from_slice(path);
    b.extend_from_slice(bytecode);
    if let Some(src) = with_source {
        b.extend_from_slice(src);
    }
    b
}

#[test]
fn script_header_is_rewritten_canonically() {
    let body = script_body(38423579, Some(b"print(1)"), b"a.lua", b"BYTECODE");
    let (path, out) = extract_script(&body, false).unwrap();
    assert_eq!(path, b"a.lua".to_vec());
    let mut expected = Vec::new();
    expected.extend_from_slice(&le32(38423579));
    expected.extend_from_slice(&[0, 6, b'@']);
    expected.extend_from_slice(b"a.lua");
    expected.extend_from_slice(b"BYTECODE");
    assert_eq!(out, expected);
    // the alternate magic is accepted but never emitted
    let body = script_body(2186495515, None, b"a.lua", b"BYTECODE");
    let (_, out2) = extract_script(&body, false).unwrap();
    assert_eq!(out2[..4], le32(38423579));
    // any other magic is refused
    let body = script_body(12345, None, b"a.lua", b"BYTECODE");
    assert!(extract_script(&body, false).is_none());
}

#[test]
fn script_source_extraction_skips_the_bytecode() {
    let body = script_body(38423579, Some(b"print(1)"), b"a.lua", b"BYTECODE");
    let (path, out) = extract_script(&body, true).unwrap();
    assert_eq!(path, b"a.lua".to_vec());
    assert_eq!(out, b"print(1)".to_vec());
    // without an attached source the option changes nothing
    let body = script_body(38423579, None, b"a.lua", b"BYTECODE");
    let (_, out) = extract_script(&body, true).unwrap();
    assert_eq!(&out[out.len() - 8..], b"BYTECODE");
}

#[test]
fn script_artifact_lands_at_its_source_path() {
    let ext = murmur_hash64a(b"lua", 0);
    let body = script_body(38423579, None, b"scripts/boot.lua", b"LJBC");
    let bundle = Bundle::new(tiny_stream(ext, 0x44, 0, &body), 1).unwrap();
    let mut dupes = DuplicateMap::new();
    let opts = options(Dictionary::new(), false, false);
    let (arts, count) = extract_bundle(&bundle, &mut dupes, &opts, None).unwrap();
    assert_eq!(count, 1);
    assert_eq!(arts[0].path, b"scripts/boot.lua".to_vec());
}

#[test]
fn skip_unknown_drops_unresolved_names_but_keeps_scripts() {
    let mut dict = Dictionary::new();
    dict.insert(b"known/file");
    let lua_ext = murmur_hash64a(b"lua", 0);
    let script = script_body(38423579, None, b"a.lua", b"LJBC");
    let b1 = Bundle::new(tiny_stream(0x10, 0x9999, 0, b"data"), 1).unwrap();
    let b2 = Bundle::new(tiny_stream(lua_ext, 0x9999, 0, &script), 1).unwrap();
    let mut dupes = DuplicateMap::new();
    let opts = options(dict, true, false);
    let (arts, _) = extract_bundle(&b1, &mut dupes, &opts, None).unwrap();
    assert!(arts.is_empty());
    let (arts, _) = extract_bundle(&b2, &mut dupes, &opts, None).unwrap();
    assert_eq!(arts.len(), 1);
}

fn build_error(b: ExtractBuilder) -> &'static str {
    match b.build() {
        Ok(_) => panic!("build succeeded unexpectedly"),
        Err(e) => e,
    }
}

#[test]
fn builder_requires_input_output_and_oodle() {
    let b = ExtractBuilder::new();
    assert_eq!(build_error(b), "missing input");
    let mut b = ExtractBuilder::new();
    b.input("bundles");
    assert_eq!(build_error(b), "missing output");
    let mut b = ExtractBuilder::new();
    b.input("bundles");
    b.output(Some("out"));
    assert_eq!(build_error(b), "missing oodle");
    let mut b = ExtractBuilder::new();
    b.input("bundles");
    b.output(None);
    b.oodle(Oodle {});
    b.dump_hashes(true);
    b.dump_raw(true);
    let opts = b.build().unwrap();
    assert_eq!(opts.target, b"bundles".to_vec());
    assert!(opts.skip_extract);
    assert!(opts.as_blob);
    assert!(!opts.skip_unknown);
}

#[test]
fn builder_dictionary_enables_skip_unknown() {
    let mut b = ExtractBuilder::new();
    b.input("bundles");
    b.output(Some("out"));
    b.oodle(Oodle {});
    b.dictionary(&vec!["some/name".to_string()]);
    let opts = b.build().unwrap();
    assert!(opts.skip_unknown);
    let long = murmur_hash64a(b"some/name", 0);
    assert!(opts.dictionary.get(long).is_some());
}

#[test]
fn dump_hashes_counts_without_extracting() {
    let ext = 0x77;
    let b1 = Bundle::new(tiny_stream(ext, 0x1, 0, b"abc"), 1).unwrap();
    let mut dupes = DuplicateMap::new();
    let mut opts = options(Dictionary::new(), false, false);
    opts.skip_extract = true;
    let (arts, count) = extract_bundle(&b1, &mut dupes, &opts, Some(ext)).unwrap();
    assert!(arts.is_empty());
    assert_eq!(count, 1);
    assert_eq!(dupes.count(ext, 0x1), 1);
}
