//! Byte-level codecs, hashing, path safety and duplicate tracking.
use limn::bundle_hash_from;
use limn::bytes::push_hex;
use limn::bytes::push_u32_le;
use limn::bytes::push_u64_le;
use limn::bytes::read_leb128;
use limn::bytes::read_u32_le;
use limn::bytes::read_u64_le;
use limn::bytes::write_leb128;
use limn::dupes::DuplicateMap;
use limn::hash::murmur_hash64a;
use limn::hash::short_hash;
use limn::hash::Dictionary;
use limn::hash::ExtensionTable;
use limn::scoped_fs::ScopedFs;

#[test]
fn le_round_trips() {
    let mut buf = Vec::new();
    push_u32_le(&mut buf, 0xdeadbeef);
    assert_eq!(buf, vec![0xef, 0xbe, 0xad, 0xde]);
    assert_eq!(read_u32_le(&buf, 0), 0xdeadbeef);
    let mut buf = Vec::new();
    push_u64_le(&mut buf, 0x0123456789abcdef);
    assert_eq!(buf, vec![0xef, 0xcd, 0xab, 0x89, 0x67, 0x45, 0x23, 0x01]);
    assert_eq!(read_u64_le(&buf, 0), 0x0123456789abcdef);
}

#[test]
fn hex_rendering() {
    let mut buf = Vec::new();
    push_hex(&mut buf, 0xdeadbeef, 16);
    assert_eq!(buf, b"00000000deadbeef".to_vec());
    let mut buf = Vec::new();
    push_hex(&mut buf, 0x1a2b, 4);
    assert_eq!(buf, b"1a2b".to_vec());
}

#[test]
fn leb128_matches_reference_encoder() {
    for v in [0u64, 1, 127, 128, 300, 16384, 624485, u64::MAX] {
        let mut ours = Vec::new();
        write_leb128(&mut ours, v);
        let mut reference = Vec::new();
        leb128::write::unsigned(&mut reference, v).unwrap();
        assert_eq!(ours, reference, "encoding of {v}");
        let (back, used) = read_leb128(&ours, 0).unwrap();
        assert_eq!(back, v);
        assert_eq!(used, ours.len());
        let from_reference = leb128::read::unsigned(&mut &ours[..]).unwrap();
        assert_eq!(from_reference, v);
    }
}

#[test]
fn murmur_known_extension_hashes() {
    assert_eq!(murmur_hash64a(b"lua", 0), 0xa14e8dfa2cd117e2);
    assert_eq!(murmur_hash64a(b"strings", 0), 0x0d972bab10b40fd3);
}

#[test]
fn murmur_seed_and_length_sensitivity() {
    assert_ne!(murmur_hash64a(b"lua", 0), murmur_hash64a(b"lua", 1));
    assert_ne!(murmur_hash64a(b"", 0), murmur_hash64a(b"a", 0));
    assert_ne!(
        murmur_hash64a(b"a_longer_input_covering_chunks!!", 0),
        murmur_hash64a(b"a_longer_input_covering_chunks!?", 0)
    );
}

#[test]
fn short_hash_is_upper_half() {
    assert_eq!(short_hash(0x1122334455667788), 0x11223344);
}

#[test]
fn dictionary_resolves_both_hash_widths() {
    let mut dict = Dictionary::new();
    dict.insert(b"content/characters/hero");
    let long = murmur_hash64a(b"content/characters/hero", 0);
    assert_eq!(dict.get(long).unwrap(), &b"content/characters/hero".to_vec());
    assert_eq!(dict.get_short(short_hash(long)), Some(long));
    assert!(dict.get(long ^ 1).is_none());
    assert!(dict.get_short(short_hash(long) ^ 1).is_none());
    assert!(dict.contains(long));
}

#[test]
fn extension_table_round_trip() {
    let exts = ExtensionTable::standard();
    let lua = murmur_hash64a(b"lua", 0);
    assert_eq!(exts.get(lua).unwrap(), &b"lua".to_vec());
    assert!(exts.get(0x1111111111111111).is_none());
}

#[test]
fn scope() {
    let scoped = ScopedFs::new(b"sandbox");
    assert!(scoped.format_path(b"../target/test.bin").is_none());
}

#[test]
fn scoped_paths_stay_under_root() {
    let scoped = ScopedFs::new(b"/tmp/out");
    let p = scoped.format_path(b"a/b.json").unwrap();
    assert_eq!(p, b"/tmp/out/a/b.json".to_vec());
    assert!(scoped.format_path(b"a/../b").is_none());
    assert!(scoped.format_path(b"/etc/passwd").is_none());
    assert!(scoped.format_path(b"..").is_none());
    let dotted = scoped.format_path(b"a..b/c").unwrap();
    assert_eq!(dotted, b"/tmp/out/a..b/c".to_vec());
}

#[test]
fn duplicate_counts_accumulate() {
    let mut dupes = DuplicateMap::new();
    assert_eq!(dupes.note(2, 9), 1);
    assert_eq!(dupes.note(1, 5), 1);
    assert_eq!(dupes.note(1, 3), 1);
    assert_eq!(dupes.note(1, 3), 2);
    assert_eq!(dupes.count(1, 3), 2);
    assert_eq!(dupes.count(1, 5), 1);
    assert_eq!(dupes.count(7, 7), 0);
    assert_eq!(dupes.len(), 3);
}

#[test]
fn hash_dump_is_sorted_and_filtered() {
    let mut dupes = DuplicateMap::new();
    dupes.note(2, 9);
    dupes.note(1, 5);
    dupes.note(1, 3);
    dupes.note(1, 3);
    let mut expected = Vec::new();
    for (e, n) in [(1u64, 3u64), (1, 5), (2, 9)] {
        expected.extend_from_slice(&e.to_le_bytes());
        expected.extend_from_slice(&n.to_le_bytes());
    }
    assert_eq!(dupes.dump(None), expected);
    assert_eq!(dupes.dump(Some(1)), expected[..32].to_vec());
    assert_eq!(dupes.dump(Some(7)), Vec::<u8>::new());
}

#[test]
fn bundle_hash_from_parses_the_stem() {
    assert_eq!(
        bundle_hash_from("bundles/0123456789abcdef"),
        Some(0x0123456789abcdef)
    );
    assert_eq!(bundle_hash_from("x/00FF.dat"), Some(0xff));
    assert_eq!(bundle_hash_from("deadBEEF"), Some(0xdeadbeef));
    assert_eq!(bundle_hash_from("bundles/"), None);
    assert_eq!(bundle_hash_from("not-hex"), None);
    assert_eq!(bundle_hash_from(""), None);
    // seventeen digits overflow 64 bits unless they lead with zeros
    assert_eq!(bundle_hash_from("11111111111111111"), None);
    assert_eq!(bundle_hash_from("00000000000000001"), Some(1));
}
