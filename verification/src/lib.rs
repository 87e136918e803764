//! Extraction library for the resource-bundle archive format used by the
//! game Darktide: a bundle is a compressed container of many typed assets
//! addressed by 64-bit (extension-hash, name-hash) pairs.  The library
//! decodes bundle blocks, walks the per-file index, dispatches each file to
//! a format-specific parser, and prepares path-safe output artifacts.
use vstd::prelude::*;
use vstd::utf8::encode_utf8;
use vstd::string::StringSliceAdditionalSpecFns;

pub mod bundle;
pub mod bytes;
pub mod dupes;
pub mod extract;
pub mod hash;
pub mod json;
pub mod lua;
pub mod package;
pub mod scoped_fs;
pub mod strings;

use crate::extract::ExtractOptions;
use crate::extract::Oodle;
use crate::hash::murmur64a;
use crate::hash::short_of;
use crate::hash::Dictionary;
use crate::hash::ExtensionTable;
use crate::scoped_fs::ScopedFs;

verus! {

/// Number of decompressed bytes a single bundle block may carry; a block
/// whose compressed length equals this is stored uncompressed.
pub const CHUNK_SIZE: usize = 0x10000;

/// The dictionary contents built from a list of candidate names.
pub open spec fn dict_entries_of(keys: Seq<Seq<char>>) -> Seq<(u64, Seq<u8>)> {
    Seq::new(keys.len(), |i: int| (murmur64a(encode_utf8(keys[i]), 0), encode_utf8(keys[i])))
}

/// The short-hash bridge built from a list of candidate names.
pub open spec fn dict_shorts_of(keys: Seq<Seq<char>>) -> Seq<(u32, u64)> {
    Seq::new(
        keys.len(),
        |i: int|
            (
                short_of(murmur64a(encode_utf8(keys[i]), 0)),
                murmur64a(encode_utf8(keys[i]), 0),
            ),
    )
}

/// Assembles the configuration of a run step by step; `build` refuses a
/// configuration that misses its input, its output or its decompressor.
pub struct ExtractBuilder {
    input: Option<Vec<u8>>,
    output: Option<ScopedFs>,
    oodle: Option<Oodle>,
    dictionary: Option<Dictionary>,
    dump_hashes: bool,
    dump_raw: bool,
}

impl ExtractBuilder {
    /// What has been configured so far: the input path, the output sink,
    /// whether a decompressor was given, the dictionary, and the two mode
    /// toggles.
    pub closed spec fn parts(&self) -> (
        Option<Seq<u8>>,
        Option<ScopedFs>,
        bool,
        Option<Dictionary>,
        bool,
        bool,
    ) {
        (
            match self.input {
                Option::Some(v) => Some(v@),
                Option::None => None,
            },
            self.output,
            self.oodle is Some,
            self.dictionary,
            self.dump_hashes,
            self.dump_raw,
        )
    }

    /// An empty configuration: nothing set, both toggles off.
    pub fn new() -> (r: ExtractBuilder)
        ensures
            r.parts() == (
                Option::<Seq<u8>>::None,
                Option::<ScopedFs>::None,
                false,
                Option::<Dictionary>::None,
                false,
                false,
            ),
    {
        ExtractBuilder {
            input: None,
            output: None,
            oodle: None,
            dictionary: None,
            dump_hashes: false,
            dump_raw: false,
        }
    }

    /// Sets the bundle file or directory to extract.
    pub fn input(&mut self, path: &str)
        ensures
            final(self).parts() == (
                Some(path.spec_bytes()),
                old(self).parts().1,
                old(self).parts().2,
                old(self).parts().3,
                old(self).parts().4,
                old(self).parts().5,
            ),
    {
        let mut owned: Vec<u8> = Vec::new();
        crate::bytes::push_bytes(&mut owned, path.as_bytes());
        proof {
            assert(owned@ =~= path.spec_bytes());
        }
        self.input = Some(owned);
    }

    /// Sets the output sink: a writing one rooted at the given directory,
    /// or, with no directory, a discarding one for hash dumping.
    pub fn output(&mut self, path: Option<&str>)
        ensures
            final(self).parts().0 == old(self).parts().0,
            final(self).parts().2 == old(self).parts().2,
            final(self).parts().3 == old(self).parts().3,
            final(self).parts().4 == old(self).parts().4,
            final(self).parts().5 == old(self).parts().5,
            match final(self).parts().1 {
                Option::Some(s) => match path {
                    Option::Some(p) => s.spec_root() == p.spec_bytes() && !s.spec_is_null(),
                    Option::None => s.spec_root() == "./out".spec_bytes() && s.spec_is_null(),
                },
                Option::None => false,
            },
    {
        let scoped = match path {
            Some(p) => ScopedFs::new(p.as_bytes()),
            None => ScopedFs::new_null("./out".as_bytes()),
        };
        self.output = Some(scoped);
    }

    /// Sets the resolved decompressor.
    pub fn oodle(&mut self, oodle: Oodle)
        ensures
            final(self).parts() == (
                old(self).parts().0,
                old(self).parts().1,
                true,
                old(self).parts().3,
                old(self).parts().4,
                old(self).parts().5,
            ),
    {
        self.oodle = Some(oodle);
    }

    /// Loads the dictionary from a list of candidate names: each is
    /// recorded under its long hash, with the short-hash bridge beside it.
    pub fn dictionary(&mut self, keys: &Vec<String>)
        ensures
            final(self).parts().0 == old(self).parts().0,
            final(self).parts().1 == old(self).parts().1,
            final(self).parts().2 == old(self).parts().2,
            final(self).parts().4 == old(self).parts().4,
            final(self).parts().5 == old(self).parts().5,
            match final(self).parts().3 {
                Option::Some(d) => d.entries() == dict_entries_of(keys@.map_values(|k: String| k@))
                    && d.shorts() == dict_shorts_of(keys@.map_values(|k: String| k@)),
                Option::None => false,
            },
    {
        let ghost kviews = keys@.map_values(|k: String| k@);
        let mut dict = Dictionary::new();
        let mut i: usize = 0;
        proof {
            assert(dict.entries() =~= dict_entries_of(kviews.take(0)));
            assert(dict.shorts() =~= dict_shorts_of(kviews.take(0)));
        }
        while i < keys.len()
            invariant
                i <= keys@.len(),
                kviews == keys@.map_values(|k: String| k@),
                dict.entries() == dict_entries_of(kviews.take(i as int)),
                dict.shorts() == dict_shorts_of(kviews.take(i as int)),
            decreases keys@.len() - i,
        {
            dict.insert(keys[i].as_str().as_bytes());
            proof {
                assert(dict.entries() =~= dict_entries_of(kviews.take(i as int + 1)));
                assert(dict.shorts() =~= dict_shorts_of(kviews.take(i as int + 1)));
            }
            i += 1;
        }
        proof {
            assert(kviews.take(keys@.len() as int) =~= kviews);
        }
        self.dictionary = Some(dict);
    }

    /// Toggles hash-dump mode: no file is decoded, the observed pairs are
    /// collected instead.
    pub fn dump_hashes(&mut self, toggle: bool)
        ensures
            final(self).parts() == (
                old(self).parts().0,
                old(self).parts().1,
                old(self).parts().2,
                old(self).parts().3,
                toggle,
                old(self).parts().5,
            ),
    {
        self.dump_hashes = toggle;
    }

    /// Toggles raw mode: every extracted file is written as its bare body
    /// bytes, without format-specific conversion.
    pub fn dump_raw(&mut self, toggle: bool)
        ensures
            final(self).parts() == (
                old(self).parts().0,
                old(self).parts().1,
                old(self).parts().2,
                old(self).parts().3,
                old(self).parts().4,
                toggle,
            ),
    {
        self.dump_raw = toggle;
    }

    /// Closes the configuration.  Succeeds exactly when the input, the
    /// output and the decompressor were all given; otherwise names the
    /// first missing one.  A run skips unknown names exactly when a
    /// dictionary was loaded.
    pub fn build(self) -> (r: Result<ExtractOptions, &'static str>)
        ensures
            r is Ok <==> (self.parts().0 is Some && self.parts().1 is Some && self.parts().2),
            match r {
                Result::Ok(o) => {
                    &&& Some(o.target@) == self.parts().0
                    &&& Some(o.out) == self.parts().1
                    &&& (match self.parts().3 {
                        Option::Some(d) => o.dictionary == d,
                        Option::None => o.dictionary.entries().len() == 0
                            && o.dictionary.shorts().len() == 0,
                    })
                    &&& o.skip_extract == self.parts().4
                    &&& o.skip_unknown == (self.parts().3 is Some)
                    &&& o.as_blob == self.parts().5
                    &&& !o.extract_lua_source
                    &&& o.exts.wf()
                    &&& o.exts.entries() == crate::hash::extension_table_of(
                        crate::hash::standard_extension_names(),
                    )
                },
                Result::Err(e) => e@ == (if self.parts().0 is None {
                    "missing input"@
                } else if self.parts().1 is None {
                    "missing output"@
                } else {
                    "missing oodle"@
                }),
            },
    {
        let ExtractBuilder { input, output, oodle, dictionary, dump_hashes, dump_raw } = self;
        let skip_unknown = dictionary.is_some();
        let target = match input {
            Some(t) => t,
            None => {
                return Err("missing input");
            },
        };
        let out = match output {
            Some(o) => o,
            None => {
                return Err("missing output");
            },
        };
        let oodle = match oodle {
            Some(o) => o,
            None => {
                return Err("missing oodle");
            },
        };
        let dictionary = match dictionary {
            Some(d) => d,
            None => Dictionary::new(),
        };
        Ok(
            ExtractOptions {
                target,
                out,
                oodle,
                dictionary,
                skip_extract: dump_hashes,
                skip_unknown,
                as_blob: dump_raw,
                extract_lua_source: false,
                exts: ExtensionTable::standard(),
            },
        )
    }
}

/// The value of a hexadecimal digit byte.
pub open spec fn hex_digit_value(c: u8) -> Option<int> {
    if 0x30 <= c <= 0x39 {
        Some((c - 0x30) as int)
    } else if 0x61 <= c <= 0x66 {
        Some((c - 0x61 + 10) as int)
    } else if 0x41 <= c <= 0x46 {
        Some((c - 0x41 + 10) as int)
    } else {
        None
    }
}

/// The value of a hexadecimal digit string, most significant digit first;
/// refused when empty or holding a non-digit.
pub open spec fn hex_string_value(s: Seq<u8>) -> Option<int>
    decreases s.len(),
{
    if s.len() == 0 {
        None
    } else if s.len() == 1 {
        hex_digit_value(s[0])
    } else {
        match (hex_string_value(s.drop_last()), hex_digit_value(s.last())) {
            (Option::Some(v), Option::Some(d)) => Some(v * 16 + d),
            _ => None,
        }
    }
}

/// A digit string's value only grows as digits are appended.
proof fn lemma_hex_value_grows(s: Seq<u8>, j: int)
    requires
        1 <= j <= s.len(),
        hex_string_value(s) is Some,
    ensures
        hex_string_value(s.take(j)) is Some,
        hex_string_value(s.take(j))->0 <= hex_string_value(s)->0,
        hex_string_value(s)->0 >= 0,
    decreases s.len(),
{
    if s.len() == 1 {
        assert(s.take(1) =~= s);
    } else {
        assert(s.take(s.len() as int) =~= s);
        if j == s.len() {
            lemma_hex_value_grows(s.drop_last(), if j > 1 {
                j - 1
            } else {
                1
            });
        } else {
            assert(s.drop_last().take(j) =~= s.take(j));
            lemma_hex_value_grows(s.drop_last(), j);
        }
    }
}

/// The position of the last occurrence of `c` in `s`.
pub open spec fn last_index_of(s: Seq<u8>, c: u8) -> Option<int>
    decreases s.len(),
{
    if s.len() == 0 {
        None
    } else if s.last() == c {
        Some(s.len() - 1)
    } else {
        last_index_of(s.drop_last(), c)
    }
}

/// The stem of the last path component: what stands after the last slash,
/// with a dot-extension removed (a leading dot begins no extension).
pub open spec fn path_stem(p: Seq<u8>) -> Seq<u8> {
    let name = match last_index_of(p, 0x2f) {
        Option::Some(i) => p.skip(i + 1),
        Option::None => p,
    };
    match last_index_of(name, 0x2e) {
        Option::Some(i) => if i >= 1 {
            name.take(i)
        } else {
            name
        },
        Option::None => name,
    }
}

/// The bundle hash a bundle file is named by: its file stem read as a
/// 64-bit hexadecimal number.  Refused when the stem is empty, holds a
/// non-digit, or overflows 64 bits.
pub open spec fn spec_bundle_hash(p: Seq<u8>) -> Option<u64> {
    match hex_string_value(path_stem(p)) {
        Option::Some(v) => if v <= u64::MAX {
            Some(v as u64)
        } else {
            None
        },
        Option::None => None,
    }
}

fn find_last(s: &[u8], from: usize, c: u8) -> (r: Option<usize>)
    requires
        from <= s@.len(),
    ensures
        match last_index_of(s@.skip(from as int), c) {
            Option::Some(i) => 0 <= i < s@.len() - from && r == Some((i + from) as usize),
            Option::None => r is None,
        },
{
    let ghost t = s@.skip(from as int);
    let n = s.len();
    let mut i: usize = n;
    proof {
        assert(t.take(n - from) =~= t);
    }
    while i > from
        invariant
            from <= i <= n,
            n == s@.len(),
            t == s@.skip(from as int),
            last_index_of(t, c) == last_index_of(t.take(i - from), c),
        decreases i,
    {
        if s[i - 1] == c {
            proof {
                assert(t.take(i - from).last() == s@[i - 1]);
            }
            return Some(i - 1);
        }
        proof {
            assert(t.take(i - from).last() == s@[i - 1]);
            assert(t.take(i - from).drop_last() =~= t.take(i - from - 1));
        }
        i -= 1;
    }
    proof {
        assert(t.take(0) =~= Seq::<u8>::empty());
    }
    None
}

/// Finds the byte range of the file stem inside a path.
fn stem_range(p: &[u8]) -> (r: (usize, usize))
    ensures
        r.0 <= r.1 <= p@.len(),
        path_stem(p@) == p@.subrange(r.0 as int, r.1 as int),
{
    let n = p.len();
    let name_start: usize = match find_last(p, 0, 0x2f) {
        Some(i) => i + 1,
        None => 0,
    };
    proof {
        assert(p@.skip(0) =~= p@);
    }
    let ghost name = match last_index_of(p@, 0x2f) {
        Option::Some(i) => p@.skip(i + 1),
        Option::None => p@,
    };
    proof {
        assert(name =~= p@.skip(name_start as int));
    }
    let stem_end: usize = match find_last(p, name_start, 0x2e) {
        Some(i) => if i > name_start {
            i
        } else {
            n
        },
        None => n,
    };
    proof {
        match last_index_of(name, 0x2e) {
            Option::Some(i) => {
                assert(last_index_of(p@.skip(name_start as int), 0x2e) == Some(i));
                if i >= 1 {
                    assert(stem_end == i + name_start);
                    assert(path_stem(p@) =~= p@.subrange(name_start as int, stem_end as int));
                } else {
                    assert(stem_end == n);
                    assert(path_stem(p@) =~= p@.subrange(name_start as int, stem_end as int));
                }
            },
            Option::None => {
                assert(stem_end == n);
                assert(path_stem(p@) =~= p@.subrange(name_start as int, stem_end as int));
            },
        }
    }
    (name_start, stem_end)
}

/// Reads the bundle hash a bundle file is named by.
#[verifier::rlimit(100)]
pub fn bundle_hash_from(path: &str) -> (r: Option<u64>)
    ensures
        r == spec_bundle_hash(path.spec_bytes()),
{
    let p = path.as_bytes();
    let (name_start, stem_end) = stem_range(p);
    let ghost stem = path_stem(p@);
    if stem_end == name_start {
        return None;
    }
    let mut acc: u64 = 0;
    let mut i: usize = name_start;
    while i < stem_end
        invariant
            name_start <= i <= stem_end <= p@.len(),
            name_start < stem_end,
            p@ == path.spec_bytes(),
            stem == path_stem(p@),
            stem == p@.subrange(name_start as int, stem_end as int),
            i > name_start ==> hex_string_value(stem.take(i - name_start)) == Some(acc as int),
            i == name_start ==> acc == 0,
        decreases stem_end - i,
    {
        let c = p[i];
        let d: u64 = if 0x30 <= c && c <= 0x39 {
            (c - 0x30) as u64
        } else if 0x61 <= c && c <= 0x66 {
            (c - 0x61 + 10) as u64
        } else if 0x41 <= c && c <= 0x46 {
            (c - 0x41 + 10) as u64
        } else {
            proof {
                assert(stem[i - name_start] == c);
                lemma_hex_none(stem, i - name_start);
            }
            return None;
        };
        if i > name_start && acc > (u64::MAX - d) / 16 {
            proof {
                assert(stem[i - name_start] == c);
                lemma_hex_overflow(stem, i - name_start, acc as int, d as int);
            }
            return None;
        }
        proof {
            assert(acc * 16 + d <= u64::MAX) by (nonlinear_arith)
                requires
                    acc <= (u64::MAX - d) / 16 || acc == 0,
                    d <= 15,
            ;
            assert(stem.take((i - name_start) + 1).drop_last() =~= stem.take(i - name_start));
            assert(stem.take((i - name_start) + 1).last() == c);
        }
        acc = acc * 16 + d;
        i += 1;
    }
    proof {
        assert(stem.take(stem_end - name_start) =~= stem);
    }
    Some(acc)
}

/// A digit string with a non-digit at `j` has no value.
proof fn lemma_hex_none(s: Seq<u8>, j: int)
    requires
        0 <= j < s.len(),
        hex_digit_value(s[j]) is None,
    ensures
        hex_string_value(s) is None,
    decreases s.len(),
{
    if s.len() > 1 {
        if j == s.len() - 1 {
        } else {
            lemma_hex_none(s.drop_last(), j);
        }
    }
}

/// When a prefix already overflows 64 bits, the whole string's value does.
proof fn lemma_hex_overflow(s: Seq<u8>, j: int, acc: int, d: int)
    requires
        0 <= j < s.len(),
        j >= 1,
        hex_string_value(s.take(j)) == Some(acc),
        hex_digit_value(s[j]) == Some(d),
        acc * 16 + d > u64::MAX,
    ensures
        match hex_string_value(s) {
            Option::Some(v) => v > u64::MAX,
            Option::None => true,
        },
{
    if hex_string_value(s) is Some {
        lemma_hex_value_grows(s, j + 1);
        assert(s.take(j + 1).drop_last() =~= s.take(j));
        assert(s.take(j + 1).last() == s[j]);
        assert(hex_string_value(s.take(j + 1)) == Some(acc * 16 + d));
    }
}

} // verus!
