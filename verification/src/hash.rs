//! The 64-bit content hash the bundle format addresses files by (a
//! Murmur-family hash of a name or extension string), its 32-bit derivative
//! used as an in-file key by string tables, and the dictionary that recovers
//! readable names for known hashes.
use vstd::prelude::*;
use vstd::string::StringSliceAdditionalSpecFns;

verus! {

/// The Murmur mixing multiplier.
pub const MURMUR_M: u64 = 0xc6a4a7935bd1e995;

/// One mixing round over an eight-byte chunk.
pub open spec fn murmur_round(h: u64, kin: u64) -> u64 {
    let k1 = kin.wrapping_mul(MURMUR_M);
    let k2 = (k1 ^ (k1 >> 47)).wrapping_mul(MURMUR_M);
    (h ^ k2).wrapping_mul(MURMUR_M)
}

/// The value of a trailing chunk of fewer than eight bytes, read as a
/// little-endian partial word.
pub open spec fn murmur_tail_word(t: Seq<u8>) -> u64
    recommends
        t.len() < 8,
{
    ((if t.len() >= 1 {
        t[0] as int
    } else {
        0
    }) + (if t.len() >= 2 {
        t[1] * 0x100
    } else {
        0
    }) + (if t.len() >= 3 {
        t[2] * 0x10000
    } else {
        0
    }) + (if t.len() >= 4 {
        t[3] * 0x1000000
    } else {
        0
    }) + (if t.len() >= 5 {
        t[4] * 0x100000000
    } else {
        0
    }) + (if t.len() >= 6 {
        t[5] * 0x10000000000
    } else {
        0
    }) + (if t.len() >= 7 {
        t[6] * 0x1000000000000
    } else {
        0
    })) as u64
}

/// Folds the trailing bytes into the state.
pub open spec fn murmur_tail(h: u64, t: Seq<u8>) -> u64
    recommends
        t.len() < 8,
{
    if t.len() == 0 {
        h
    } else {
        (h ^ murmur_tail_word(t)).wrapping_mul(MURMUR_M)
    }
}

/// The final avalanche.
pub open spec fn murmur_fmix(h: u64) -> u64 {
    let a = (h ^ (h >> 47)).wrapping_mul(MURMUR_M);
    a ^ (a >> 47)
}

/// Runs the rounds over every full chunk of `s`, then the tail and the
/// avalanche.
pub open spec fn murmur_core(h: u64, s: Seq<u8>) -> u64
    decreases s.len(),
{
    if s.len() >= 8 {
        murmur_core(murmur_round(h, crate::bytes::le_u64(s.take(8))), s.skip(8))
    } else {
        murmur_fmix(murmur_tail(h, s))
    }
}

/// MurmurHash64A of a byte string: the 64-bit content hash the bundle format
/// derives extension and name identifiers from.
pub open spec fn murmur64a(s: Seq<u8>, seed: u64) -> u64 {
    murmur_core(seed ^ (s.len() as u64).wrapping_mul(MURMUR_M), s)
}

/// The 32-bit derivative of a long hash: its upper half.  String tables key
/// their entries by it.
pub open spec fn short_of(h: u64) -> u32 {
    (h >> 32) as u32
}

/// Computes MurmurHash64A of `data` under `seed`.
#[verifier::rlimit(50)]
pub fn murmur_hash64a(data: &[u8], seed: u64) -> (r: u64)
    ensures
        r == murmur64a(data@, seed),
{
    let len = data.len();
    let mut h: u64 = seed ^ (len as u64).wrapping_mul(MURMUR_M);
    let mut i: usize = 0;
    proof {
        assert(data@.skip(0) =~= data@);
    }
    while len - i >= 8
        invariant
            len == data@.len(),
            i <= len,
            murmur_core(h, data@.skip(i as int)) == murmur64a(data@, seed),
        decreases len - i,
    {
        let k0 = crate::bytes::read_u64_le(data, i);
        let k1 = k0.wrapping_mul(MURMUR_M);
        let k2 = k1 ^ (k1 >> 47);
        let k3 = k2.wrapping_mul(MURMUR_M);
        proof {
            let s = data@.skip(i as int);
            assert(s.take(8) =~= data@.subrange(i as int, i as int + 8));
            assert(s.skip(8) =~= data@.skip(i as int + 8));
        }
        h = (h ^ k3).wrapping_mul(MURMUR_M);
        i += 8;
    }
    let ghost t = data@.skip(i as int);
    let rem = len - i;
    proof {
        assert(t.len() == len - i);
    }
    if rem >= 1 {
        let mut x: u64 = data[i] as u64;
        if rem >= 2 {
            x = x + (data[i + 1] as u64) * 0x100;
        }
        if rem >= 3 {
            x = x + (data[i + 2] as u64) * 0x10000;
        }
        if rem >= 4 {
            x = x + (data[i + 3] as u64) * 0x1000000;
        }
        if rem >= 5 {
            x = x + (data[i + 4] as u64) * 0x100000000;
        }
        if rem >= 6 {
            x = x + (data[i + 5] as u64) * 0x10000000000;
        }
        if rem == 7 {
            x = x + (data[i + 6] as u64) * 0x1000000000000;
        }
        proof {
            assert(forall|j: int| 0 <= j < t.len() ==> t[j] == data@[i + j]);
            assert(x == murmur_tail_word(t));
        }
        h = (h ^ x).wrapping_mul(MURMUR_M);
    }
    let a = (h ^ (h >> 47)).wrapping_mul(MURMUR_M);
    a ^ (a >> 47)
}

/// Computes the 32-bit short hash of a long hash.
pub fn short_hash(h: u64) -> (r: u32)
    ensures
        r == short_of(h),
{
    (h >> 32) as u32
}

/// Recovers readable names for known hashes: candidate strings keyed by
/// their long hash, and a short-to-long bridge for string-table keys.
pub struct Dictionary {
    entries: Vec<(u64, Vec<u8>)>,
    shorts: Vec<(u32, u64)>,
}

/// The name recorded under a long hash: the latest inserted match.
pub open spec fn dict_get(s: Seq<(u64, Seq<u8>)>, h: u64) -> Option<Seq<u8>>
    decreases s.len(),
{
    if s.len() == 0 {
        None
    } else if s[s.len() - 1].0 == h {
        Some(s[s.len() - 1].1)
    } else {
        dict_get(s.drop_last(), h)
    }
}

/// The long hash recorded under a short hash: the latest inserted match.
pub open spec fn dict_get_short(s: Seq<(u32, u64)>, h: u32) -> Option<u64> {
    if exists|i: int| 0 <= i < s.len() && (#[trigger] s[i]).0 == h {
        let i = choose|i: int| 0 <= i < s.len() && (#[trigger] s[i]).0 == h && forall|j: int|
            i < j < s.len() ==> (#[trigger] s[j]).0 != h;
        Some(s[i].1)
    } else {
        None
    }
}

impl Dictionary {
    /// The recorded (long hash, name) pairs, oldest first.
    pub closed spec fn entries(&self) -> Seq<(u64, Seq<u8>)> {
        self.entries@.map_values(|e: (u64, Vec<u8>)| (e.0, e.1@))
    }

    /// The recorded (short hash, long hash) pairs, oldest first.
    pub closed spec fn shorts(&self) -> Seq<(u32, u64)> {
        self.shorts@
    }

    /// An empty dictionary: no hash resolves.
    pub fn new() -> (r: Dictionary)
        ensures
            r.entries().len() == 0,
            r.shorts().len() == 0,
    {
        Dictionary { entries: Vec::new(), shorts: Vec::new() }
    }

    /// Records one candidate name: its long hash maps to the name and the
    /// short hash of that long hash maps to the long hash.
    pub fn insert(&mut self, key: &[u8])
        ensures
            final(self).entries() == old(self).entries().push(
                (murmur64a(key@, 0), key@),
            ),
            final(self).shorts() == old(self).shorts().push(
                (short_of(murmur64a(key@, 0)), murmur64a(key@, 0)),
            ),
    {
        let h = murmur_hash64a(key, 0);
        let s = short_hash(h);
        let mut owned: Vec<u8> = Vec::new();
        crate::bytes::push_bytes(&mut owned, key);
        proof {
            assert(owned@ =~= key@);
        }
        self.entries.push((h, owned));
        self.shorts.push((s, h));
        proof {
            assert(self.entries@.map_values(|e: (u64, Vec<u8>)| (e.0, e.1@)) =~= old(
                self,
            ).entries().push((murmur64a(key@, 0), key@)));
        }
    }

    /// How many names are recorded.
    pub fn len(&self) -> (r: usize)
        ensures
            r == self.entries().len(),
    {
        self.entries.len()
    }

    /// Looks a long hash up.
    pub fn get(&self, h: u64) -> (r: Option<&Vec<u8>>)
        ensures
            match r {
                Some(v) => dict_get(self.entries(), h) == Some(v@),
                None => dict_get(self.entries(), h) is None,
            },
    {
        let n = self.entries.len();
        proof {
            assert(self.entries().take(n as int) =~= self.entries());
        }
        let mut i: usize = n;
        while i > 0
            invariant
                i <= n,
                n == self.entries@.len(),
                dict_get(self.entries(), h) == dict_get(self.entries().take(i as int), h),
            decreases i,
        {
            proof {
                assert(self.entries().take(i as int).drop_last() =~= self.entries().take(
                    i as int - 1,
                ));
                assert(self.entries().take(i as int).last() == self.entries()[i - 1]);
            }
            if self.entries[i - 1].0 == h {
                return Some(&self.entries[i - 1].1);
            }
            i -= 1;
        }
        proof {
            assert(self.entries().take(0) =~= Seq::<(u64, Seq<u8>)>::empty());
        }
        None
    }

    /// True when a long hash is recorded.
    pub fn contains(&self, h: u64) -> (r: bool)
        ensures
            r == (dict_get(self.entries(), h) is Some),
    {
        match self.get(h) {
            Some(_) => true,
            None => false,
        }
    }

    /// Looks a short hash up, giving the recorded long hash.
    pub fn get_short(&self, h: u32) -> (r: Option<u64>)
        ensures
            r == dict_get_short(self.shorts(), h),
    {
        let n = self.shorts.len();
        let mut i: usize = n;
        while i > 0
            invariant
                i <= n,
                n == self.shorts@.len(),
                forall|j: int| i <= j < n ==> (#[trigger] self.shorts@[j]).0 != h,
            decreases i,
        {
            if self.shorts[i - 1].0 == h {
                let ghost w = i - 1;
                proof {
                    assert(0 <= w < self.shorts().len() && self.shorts()[w].0 == h
                        && forall|j: int|
                        w < j < self.shorts().len() ==> (#[trigger] self.shorts()[j]).0 != h);
                    let c = choose|k: int|
                        0 <= k < self.shorts().len() && (#[trigger] self.shorts()[k]).0 == h
                            && forall|j: int|
                            k < j < self.shorts().len() ==> (#[trigger] self.shorts()[j]).0 != h;
                    if c < w {
                        assert((#[trigger] self.shorts()[w]).0 == h);
                        assert(false);
                    } else if c > w {
                        assert(self.shorts()[c].0 != h);
                        assert(false);
                    }
                }
                return Some(self.shorts[i - 1].1);
            }
            i -= 1;
        }
        None
    }
}

/// The extension strings the standard dispatch table recognizes, in order.
pub open spec fn standard_extension_names() -> Seq<Seq<u8>> {
    seq![
        crate::json::lit("animation"),
        crate::json::lit("animation_curves"),
        crate::json::lit("blend_set"),
        crate::json::lit("bones"),
        crate::json::lit("camera_shake"),
        crate::json::lit("config"),
        crate::json::lit("data"),
        crate::json::lit("entity"),
        crate::json::lit("flow"),
        crate::json::lit("font"),
        crate::json::lit("ivf"),
        crate::json::lit("level"),
        crate::json::lit("lua"),
        crate::json::lit("material"),
        crate::json::lit("mod"),
        crate::json::lit("mouse_cursor"),
        crate::json::lit("nav_data"),
        crate::json::lit("network_config"),
        crate::json::lit("package"),
        crate::json::lit("particles"),
        crate::json::lit("physics_properties"),
        crate::json::lit("render_config"),
        crate::json::lit("scene"),
        crate::json::lit("shader_library"),
        crate::json::lit("shader_library_group"),
        crate::json::lit("state_machine"),
        crate::json::lit("strings"),
        crate::json::lit("texture"),
        crate::json::lit("theme"),
        crate::json::lit("timpani_bank"),
        crate::json::lit("timpani_master"),
        crate::json::lit("unit"),
        crate::json::lit("vector_field"),
        crate::json::lit("wwise_bank"),
        crate::json::lit("wwise_dep"),
        crate::json::lit("wwise_event"),
        crate::json::lit("wwise_metadata"),
        crate::json::lit("wwise_stream"),
    ]
}

/// The table a list of extension names builds: each name under its content
/// hash.
pub open spec fn extension_table_of(names: Seq<Seq<u8>>) -> Seq<(u64, Seq<u8>)> {
    Seq::new(names.len(), |i: int| (murmur64a(names[i], 0), names[i]))
}

/// The extension strings the extractor recognizes, keyed by their content
/// hash; an extension hash outside the table falls through to the raw
/// writer and is rendered in hexadecimal.
pub struct ExtensionTable {
    entries: Vec<(u64, Vec<u8>)>,
}

impl ExtensionTable {
    /// The recorded (hash, extension string) pairs.
    pub closed spec fn entries(&self) -> Seq<(u64, Seq<u8>)> {
        self.entries@.map_values(|e: (u64, Vec<u8>)| (e.0, e.1@))
    }

    /// Every recorded hash is the content hash of its extension string.
    pub open spec fn wf(&self) -> bool {
        forall|i: int|
            0 <= i < self.entries().len() ==> (#[trigger] self.entries()[i]).0 == murmur64a(
                self.entries()[i].1,
                0,
            )
    }

    /// An empty table.
    pub fn new() -> (r: ExtensionTable)
        ensures
            r.wf(),
            r.entries().len() == 0,
    {
        ExtensionTable { entries: Vec::new() }
    }

    /// Records one extension string under its content hash.
    pub fn add(&mut self, ext: &str)
        requires
            old(self).wf(),
        ensures
            final(self).wf(),
            final(self).entries() == old(self).entries().push(
                (murmur64a(ext.spec_bytes(), 0), ext.spec_bytes()),
            ),
    {
        let bytes = ext.as_bytes();
        let h = murmur_hash64a(bytes, 0);
        let mut owned: Vec<u8> = Vec::new();
        crate::bytes::push_bytes(&mut owned, bytes);
        proof {
            assert(owned@ =~= ext.spec_bytes());
        }
        self.entries.push((h, owned));
        proof {
            assert(self.entries@.map_values(|e: (u64, Vec<u8>)| (e.0, e.1@)) =~= old(
                self,
            ).entries().push((murmur64a(ext.spec_bytes(), 0), ext.spec_bytes())));
        }
    }

    /// The extension strings the dispatch recognizes: exactly the standard
    /// list, each under its content hash, in order.
    #[verifier::rlimit(100)]
    pub fn standard() -> (r: ExtensionTable)
        ensures
            r.wf(),
            r.entries() == extension_table_of(standard_extension_names()),
    {
        let mut t = ExtensionTable::new();
        proof {
            assert(t.entries() =~= extension_table_of(standard_extension_names()).take(0));
        }
        t.add("animation");
        proof {
            assert(t.entries() =~= extension_table_of(standard_extension_names()).take(1));
        }
        t.add("animation_curves");
        proof {
            assert(t.entries() =~= extension_table_of(standard_extension_names()).take(2));
        }
        t.add("blend_set");
        proof {
            assert(t.entries() =~= extension_table_of(standard_extension_names()).take(3));
        }
        t.add("bones");
        proof {
            assert(t.entries() =~= extension_table_of(standard_extension_names()).take(4));
        }
        t.add("camera_shake");
        proof {
            assert(t.entries() =~= extension_table_of(standard_extension_names()).take(5));
        }
        t.add("config");
        proof {
            assert(t.entries() =~= extension_table_of(standard_extension_names()).take(6));
        }
        t.add("data");
        proof {
            assert(t.entries() =~= extension_table_of(standard_extension_names()).take(7));
        }
        t.add("entity");
        proof {
            assert(t.entries() =~= extension_table_of(standard_extension_names()).take(8));
        }
        t.add("flow");
        proof {
            assert(t.entries() =~= extension_table_of(standard_extension_names()).take(9));
        }
        t.add("font");
        proof {
            assert(t.entries() =~= extension_table_of(standard_extension_names()).take(10));
        }
        t.add("ivf");
        proof {
            assert(t.entries() =~= extension_table_of(standard_extension_names()).take(11));
        }
        t.add("level");
        proof {
            assert(t.entries() =~= extension_table_of(standard_extension_names()).take(12));
        }
        t.add("lua");
        proof {
            assert(t.entries() =~= extension_table_of(standard_extension_names()).take(13));
        }
        t.add("material");
        proof {
            assert(t.entries() =~= extension_table_of(standard_extension_names()).take(14));
        }
        t.add("mod");
        proof {
            assert(t.entries() =~= extension_table_of(standard_extension_names()).take(15));
        }
        t.add("mouse_cursor");
        proof {
            assert(t.entries() =~= extension_table_of(standard_extension_names()).take(16));
        }
        t.add("nav_data");
        proof {
            assert(t.entries() =~= extension_table_of(standard_extension_names()).take(17));
        }
        t.add("network_config");
        proof {
            assert(t.entries() =~= extension_table_of(standard_extension_names()).take(18));
        }
        t.add("package");
        proof {
            assert(t.entries() =~= extension_table_of(standard_extension_names()).take(19));
        }
        t.add("particles");
        proof {
            assert(t.entries() =~= extension_table_of(standard_extension_names()).take(20));
        }
        t.add("physics_properties");
        proof {
            assert(t.entries() =~= extension_table_of(standard_extension_names()).take(21));
        }
        t.add("render_config");
        proof {
            assert(t.entries() =~= extension_table_of(standard_extension_names()).take(22));
        }
        t.add("scene");
        proof {
            assert(t.entries() =~= extension_table_of(standard_extension_names()).take(23));
        }
        t.add("shader_library");
        proof {
            assert(t.entries() =~= extension_table_of(standard_extension_names()).take(24));
        }
        t.add("shader_library_group");
        proof {
            assert(t.entries() =~= extension_table_of(standard_extension_names()).take(25));
        }
        t.add("state_machine");
        proof {
            assert(t.entries() =~= extension_table_of(standard_extension_names()).take(26));
        }
        t.add("strings");
        proof {
            assert(t.entries() =~= extension_table_of(standard_extension_names()).take(27));
        }
        t.add("texture");
        proof {
            assert(t.entries() =~= extension_table_of(standard_extension_names()).take(28));
        }
        t.add("theme");
        proof {
            assert(t.entries() =~= extension_table_of(standard_extension_names()).take(29));
        }
        t.add("timpani_bank");
        proof {
            assert(t.entries() =~= extension_table_of(standard_extension_names()).take(30));
        }
        t.add("timpani_master");
        proof {
            assert(t.entries() =~= extension_table_of(standard_extension_names()).take(31));
        }
        t.add("unit");
        proof {
            assert(t.entries() =~= extension_table_of(standard_extension_names()).take(32));
        }
        t.add("vector_field");
        proof {
            assert(t.entries() =~= extension_table_of(standard_extension_names()).take(33));
        }
        t.add("wwise_bank");
        proof {
            assert(t.entries() =~= extension_table_of(standard_extension_names()).take(34));
        }
        t.add("wwise_dep");
        proof {
            assert(t.entries() =~= extension_table_of(standard_extension_names()).take(35));
        }
        t.add("wwise_event");
        proof {
            assert(t.entries() =~= extension_table_of(standard_extension_names()).take(36));
        }
        t.add("wwise_metadata");
        proof {
            assert(t.entries() =~= extension_table_of(standard_extension_names()).take(37));
        }
        t.add("wwise_stream");
        proof {
            assert(t.entries() =~= extension_table_of(standard_extension_names()).take(38));
        }
        proof {
            assert(extension_table_of(standard_extension_names()).take(38) =~= extension_table_of(standard_extension_names()));
        }
        t
    }

    /// Looks an extension hash up, giving the recorded extension string.
    pub fn get(&self, h: u64) -> (r: Option<&Vec<u8>>)
        ensures
            match r {
                Some(v) => dict_get(self.entries(), h) == Some(v@),
                None => dict_get(self.entries(), h) is None,
            },
    {
        let n = self.entries.len();
        proof {
            assert(self.entries().take(n as int) =~= self.entries());
        }
        let mut i: usize = n;
        while i > 0
            invariant
                i <= n,
                n == self.entries@.len(),
                dict_get(self.entries(), h) == dict_get(self.entries().take(i as int), h),
            decreases i,
        {
            proof {
                assert(self.entries().take(i as int).drop_last() =~= self.entries().take(
                    i as int - 1,
                ));
                assert(self.entries().take(i as int).last() == self.entries()[i - 1]);
            }
            if self.entries[i - 1].0 == h {
                return Some(&self.entries[i - 1].1);
            }
            i -= 1;
        }
        proof {
            assert(self.entries().take(0) =~= Seq::<(u64, Seq<u8>)>::empty());
        }
        None
    }
}

} // verus!
