//! The localized string-table parser.  A string-table file carries one
//! variant per language: a word of metadata, an item count, that many
//! (short-hash, offset) index entries, then the NUL-terminated strings
//! back to back.  The decoded artifact is one JSON object per variant.
use vstd::prelude::*;
use vstd::string::StringSliceAdditionalSpecFns;
use crate::bytes::le_u32;
use crate::bytes::hex_bytes;
use crate::bundle::Variant;
use crate::bundle::body_size_prefix;
use crate::hash::dict_get;
use crate::hash::dict_get_short;
use crate::hash::Dictionary;
use crate::json::lit;
use crate::json::json_escape;
use crate::json::truncate_nul;

verus! {

/// The language a variant kind stands for.  The codes are best effort and
/// may shift between game updates.
#[derive(Clone, Copy, PartialEq, Eq, Structural)]
pub enum Language {
    ChineseTraditional,
    ChineseSimplified,
    English,
    English2,
    French,
    German,
    Italian,
    Japanese,
    Korean,
    Polish,
    Portuguese,
    Russian,
    Spanish,
}

/// Which language a variant kind code names, if any.
pub open spec fn language_of_code(code: u32) -> Option<Language> {
    if code == 0 {
        Some(Language::English)
    } else if code == 1 {
        Some(Language::Polish)
    } else if code == 2 {
        Some(Language::Japanese)
    } else if code == 4 {
        Some(Language::Spanish)
    } else if code == 8 {
        Some(Language::English2)
    } else if code == 16 {
        Some(Language::ChineseTraditional)
    } else if code == 32 {
        Some(Language::Portuguese)
    } else if code == 64 {
        Some(Language::German)
    } else if code == 128 {
        Some(Language::Korean)
    } else if code == 256 {
        Some(Language::Russian)
    } else if code == 512 {
        Some(Language::Italian)
    } else if code == 1024 {
        Some(Language::ChineseSimplified)
    } else if code == 2048 {
        Some(Language::French)
    } else {
        None
    }
}

/// The lowercase name of a language, as it appears in output filenames.
pub open spec fn language_label(l: Language) -> Seq<u8> {
    match l {
        Language::ChineseTraditional => lit("chinese_traditional"),
        Language::ChineseSimplified => lit("chinese_simplified"),
        Language::English => lit("english"),
        Language::English2 => lit("english2"),
        Language::French => lit("french"),
        Language::German => lit("german"),
        Language::Italian => lit("italian"),
        Language::Japanese => lit("japanese"),
        Language::Korean => lit("korean"),
        Language::Polish => lit("polish"),
        Language::Portuguese => lit("portuguese"),
        Language::Russian => lit("russian"),
        Language::Spanish => lit("spanish"),
    }
}

impl Language {
    /// Maps a variant kind code to its language.
    pub fn from_code(code: u32) -> (r: Option<Language>)
        ensures
            r == language_of_code(code),
    {
        if code == 0 {
            Some(Language::English)
        } else if code == 1 {
            Some(Language::Polish)
        } else if code == 2 {
            Some(Language::Japanese)
        } else if code == 4 {
            Some(Language::Spanish)
        } else if code == 8 {
            Some(Language::English2)
        } else if code == 16 {
            Some(Language::ChineseTraditional)
        } else if code == 32 {
            Some(Language::Portuguese)
        } else if code == 64 {
            Some(Language::German)
        } else if code == 128 {
            Some(Language::Korean)
        } else if code == 256 {
            Some(Language::Russian)
        } else if code == 512 {
            Some(Language::Italian)
        } else if code == 1024 {
            Some(Language::ChineseSimplified)
        } else if code == 2048 {
            Some(Language::French)
        } else {
            None
        }
    }

    /// The language's lowercase name.
    pub fn name(&self) -> (r: &'static str)
        ensures
            r.spec_bytes() == language_label(*self),
    {
        match *self {
            Language::ChineseTraditional => "chinese_traditional",
            Language::ChineseSimplified => "chinese_simplified",
            Language::English => "english",
            Language::English2 => "english2",
            Language::French => "french",
            Language::German => "german",
            Language::Italian => "italian",
            Language::Japanese => "japanese",
            Language::Korean => "korean",
            Language::Polish => "polish",
            Language::Portuguese => "portuguese",
            Language::Russian => "russian",
            Language::Spanish => "spanish",
        }
    }
}

/// The filename label of a variant kind: the language name when the code is
/// known, else the code in hexadecimal.
pub open spec fn kind_label(kind: u32) -> Seq<u8> {
    match language_of_code(kind) {
        Option::Some(l) => language_label(l),
        Option::None => if kind < 0x10000 {
            hex_bytes(kind as u64, 4)
        } else {
            hex_bytes(kind as u64, 8)
        },
    }
}

/// Appends the filename label of a variant kind.
pub fn push_kind_label(out: &mut Vec<u8>, kind: u32)
    ensures
        final(out)@ == old(out)@ + kind_label(kind),
{
    match Language::from_code(kind) {
        Some(l) => {
            crate::bytes::push_bytes(out, l.name().as_bytes());
        },
        None => {
            if kind < 0x10000 {
                crate::bytes::push_hex(out, kind as u64, 4);
            } else {
                crate::bytes::push_hex(out, kind as u64, 8);
            }
        },
    }
}

/// The item count a variant declares.
pub open spec fn st_n(s: Seq<u8>) -> int {
    le_u32(s.subrange(4, 8)) as int
}

/// The short hash of index entry `i`.
pub open spec fn st_hash(s: Seq<u8>, i: int) -> u32 {
    le_u32(s.subrange(8 + 8 * i, 8 + 8 * i + 4))
}

/// The declared offset of string `i`.
pub open spec fn st_off(s: Seq<u8>, i: int) -> int {
    le_u32(s.subrange(8 + 8 * i + 4, 8 + 8 * i + 8)) as int
}

/// Where string `i` ends: at the next string's offset, or at the end of the
/// variant for the last one.
pub open spec fn st_end(s: Seq<u8>, i: int) -> int {
    if i == st_n(s) - 1 {
        s.len() as int
    } else {
        st_off(s, i + 1)
    }
}

/// A well-formed string-table variant: the index fits, the first string
/// begins right after the index, the strings tile the rest of the variant
/// in order, and each ends with a NUL terminator.
pub open spec fn strings_valid(s: Seq<u8>) -> bool {
    &&& s.len() >= 8
    &&& 8 + 8 * st_n(s) <= s.len()
    &&& (st_n(s) == 0 ==> s.len() == 8)
    &&& (st_n(s) > 0 ==> st_off(s, 0) == 8 + 8 * st_n(s))
    &&& forall|i: int|
        0 <= i < st_n(s) ==> st_off(s, i) < #[trigger] st_end(s, i) <= s.len() && s[st_end(s, i)
            - 1] == 0
}

/// The JSON key emitted for a short hash: the dictionary-resolved name
/// (escaped) when the short hash bridges to a recorded name, the hash in
/// hexadecimal when unknown names are kept, nothing when they are skipped.
pub open spec fn strings_key(
    h: u32,
    dict: Seq<(u64, Seq<u8>)>,
    shorts: Seq<(u32, u64)>,
    skip: bool,
) -> Option<Seq<u8>> {
    let resolved = match dict_get_short(shorts, h) {
        Option::Some(long) => dict_get(dict, long),
        Option::None => None,
    };
    match resolved {
        Option::Some(nm) => Some(json_escape(nm)),
        Option::None => if skip {
            None
        } else {
            Some(hex_bytes(h as u64, 8))
        },
    }
}

/// When unknown names are kept, every index entry yields exactly one key:
/// the escaped dictionary name where the short hash bridges to one, the
/// hash itself in hexadecimal everywhere else.
pub proof fn lemma_strings_key_total(h: u32, dict: Seq<(u64, Seq<u8>)>, shorts: Seq<(u32, u64)>)
    ensures
        strings_key(h, dict, shorts, false) is Some,
        strings_key(h, dict, shorts, false) == (match dict_get_short(shorts, h) {
            Option::Some(long) => match dict_get(dict, long) {
                Option::Some(nm) => Some(json_escape(nm)),
                Option::None => Some(hex_bytes(h as u64, 8)),
            },
            Option::None => Some(hex_bytes(h as u64, 8)),
        }),
{
}

/// The JSON value of string `i`: the bytes before the terminator, cut at
/// the first internal NUL, escaped.
pub open spec fn strings_value(s: Seq<u8>, i: int) -> Seq<u8> {
    json_escape(truncate_nul(s.subrange(st_off(s, i), st_end(s, i)).drop_last()))
}

/// What item `i` contributes to the JSON object: nothing when its key is
/// skipped, else a separator (unless it is the first emission) and the
/// key/value pair.
pub open spec fn item_emission(
    s: Seq<u8>,
    i: int,
    dict: Seq<(u64, Seq<u8>)>,
    shorts: Seq<(u32, u64)>,
    skip: bool,
    first: bool,
) -> Seq<u8> {
    match strings_key(st_hash(s, i), dict, shorts, skip) {
        Option::None => Seq::empty(),
        Option::Some(k) => (if first {
            Seq::<u8>::empty()
        } else {
            lit(",")
        }) + lit("\"") + k + lit("\":\"") + strings_value(s, i) + lit("\""),
    }
}

/// The emissions of items `i` onward, given whether anything was emitted
/// before.
pub open spec fn strings_entries(
    s: Seq<u8>,
    i: int,
    dict: Seq<(u64, Seq<u8>)>,
    shorts: Seq<(u32, u64)>,
    skip: bool,
    first: bool,
) -> Seq<u8>
    decreases st_n(s) - i,
{
    if i < 0 || i >= st_n(s) {
        Seq::empty()
    } else {
        item_emission(s, i, dict, shorts, skip, first) + strings_entries(
            s,
            i + 1,
            dict,
            shorts,
            skip,
            first && strings_key(st_hash(s, i), dict, shorts, skip) is None,
        )
    }
}

/// The JSON object of one well-formed variant.
pub open spec fn strings_object(
    s: Seq<u8>,
    dict: Seq<(u64, Seq<u8>)>,
    shorts: Seq<(u32, u64)>,
    skip: bool,
) -> Seq<u8> {
    lit("{") + strings_entries(s, 0, dict, shorts, skip, true) + lit("}")
}

/// Appends the emission of item `i` and says whether it printed anything.
#[verifier::rlimit(100)]
fn push_item(
    out: &mut Vec<u8>,
    s: &[u8],
    o: usize,
    e: usize,
    h: u32,
    dict: &Dictionary,
    skip: bool,
    first: bool,
    Ghost(i): Ghost<int>,
)
    requires
        0 <= i < st_n(s@),
        o == st_off(s@, i),
        e == st_end(s@, i),
        o < e <= s@.len(),
        h == st_hash(s@, i),
    ensures
        final(out)@ == old(out)@ + item_emission(s@, i, dict.entries(), dict.shorts(), skip, first),
        (final(out)@ == old(out)@) == (strings_key(h, dict.entries(), dict.shorts(), skip)
            is None),
{
    let resolved: Option<&Vec<u8>> = match dict.get_short(h) {
        Some(long) => dict.get(long),
        None => None,
    };
    let emit_key: bool = match resolved {
        Some(_) => true,
        None => !skip,
    };
    if !emit_key {
        proof {
            assert(out@ =~= old(out)@ + item_emission(
                s@,
                i,
                dict.entries(),
                dict.shorts(),
                skip,
                first,
            ));
        }
        return ;
    }
    if !first {
        crate::json::push_lit(out, ",");
    }
    crate::json::push_lit(out, "\"");
    match resolved {
        Some(nm) => {
            crate::json::push_json_escaped(out, nm.as_slice());
        },
        None => {
            crate::bytes::push_hex(out, h as u64, 8);
        },
    }
    crate::json::push_lit(out, "\":\"");
    let raw = &s[o..e];
    let content = &raw[0..raw.len() - 1];
    let nn = crate::json::find_nul(content);
    proof {
        crate::json::lemma_truncate_nul_take(content@, nn as int);
        assert(content@ =~= s@.subrange(st_off(s@, i), st_end(s@, i)).drop_last());
        assert(content@.subrange(0, nn as int) =~= content@.take(nn as int));
    }
    crate::json::push_json_escaped(out, &content[0..nn]);
    crate::json::push_lit(out, "\"");
    proof {
        assert(out@ =~= old(out)@ + item_emission(
            s@,
            i,
            dict.entries(),
            dict.shorts(),
            skip,
            first,
        ));
        reveal_strlit("\"");
        assert(out@.len() > old(out)@.len());
    }
}

/// Decodes one string-table variant into its JSON object.  Refused exactly
/// when the variant is not well-formed.
#[verifier::rlimit(100)]
pub fn extract_strings_variant(s: &[u8], dict: &Dictionary, skip_unknown: bool) -> (r: Option<
    Vec<u8>,
>)
    ensures
        match r {
            Some(v) => strings_valid(s@) && v@ == strings_object(
                s@,
                dict.entries(),
                dict.shorts(),
                skip_unknown,
            ),
            None => !strings_valid(s@),
        },
{
    let len = s.len();
    if len < 8 {
        return None;
    }
    let n32 = crate::bytes::read_u32_le(s, 4);
    let n = n32 as usize;
    proof {
        assert(st_n(s@) == n32 as int);
    }
    if (len as u64 - 8) / 8 < n32 as u64 {
        proof {
            assert(8 * (n32 as int) > len - 8) by (nonlinear_arith)
                requires
                    (len as int - 8) / 8 < n32 as int,
                    len >= 8,
            ;
        }
        return None;
    }
    proof {
        assert(8 * (n32 as int) <= len - 8) by (nonlinear_arith)
            requires
                (len as int - 8) / 8 >= n32 as int,
                len >= 8,
        ;
    }
    if n == 0 && len != 8 {
        return None;
    }
    let mut out: Vec<u8> = Vec::new();
    crate::json::push_lit(&mut out, "{");
    let mut first: bool = true;
    let mut i: usize = 0;
    while i < n
        invariant
            i <= n,
            n == n32,
            len == s@.len(),
            st_n(s@) == n as int,
            8 + 8 * (n as int) <= len,
            n == 0 ==> len == 8,
            i > 0 ==> st_off(s@, 0) == 8 + 8 * (n as int),
            forall|j: int|
                0 <= j < i ==> st_off(s@, j) < #[trigger] st_end(s@, j) <= s@.len() && s@[st_end(
                    s@,
                    j,
                ) - 1] == 0,
            strings_object(s@, dict.entries(), dict.shorts(), skip_unknown) == out@
                + strings_entries(s@, i as int, dict.entries(), dict.shorts(), skip_unknown, first)
                + lit("}"),
        decreases n - i,
    {
        let o = crate::bytes::read_u32_le(s, 8 + 8 * i + 4) as usize;
        proof {
            assert(o == st_off(s@, i as int));
        }
        if i == 0 && o != 8 + 8 * n {
            return None;
        }
        let e = if i == n - 1 {
            len
        } else {
            let e0 = crate::bytes::read_u32_le(s, 8 + 8 * (i + 1) + 4) as usize;
            proof {
                assert(e0 == st_off(s@, i as int + 1));
            }
            e0
        };
        proof {
            assert(e == st_end(s@, i as int));
        }
        if o >= e || e > len {
            proof {
                assert(!strings_valid(s@));
            }
            return None;
        }
        if s[e - 1] != 0 {
            proof {
                assert(!strings_valid(s@));
            }
            return None;
        }
        let h = crate::bytes::read_u32_le(s, 8 + 8 * i);
        proof {
            assert(h == st_hash(s@, i as int));
        }
        let ghost out_before = out@;
        let before_len = out.len();
        push_item(&mut out, s, o, e, h, dict, skip_unknown, first, Ghost(i as int));
        let printed = out.len() != before_len;
        proof {
            let ghost k = strings_key(h, dict.entries(), dict.shorts(), skip_unknown);
            assert(printed == (k is Some));
            assert(out_before + (item_emission(
                s@,
                i as int,
                dict.entries(),
                dict.shorts(),
                skip_unknown,
                first,
            ) + strings_entries(
                s@,
                i as int + 1,
                dict.entries(),
                dict.shorts(),
                skip_unknown,
                first && k is None,
            )) =~= (out_before + item_emission(
                s@,
                i as int,
                dict.entries(),
                dict.shorts(),
                skip_unknown,
                first,
            )) + strings_entries(
                s@,
                i as int + 1,
                dict.entries(),
                dict.shorts(),
                skip_unknown,
                first && k is None,
            ));
        }
        first = first && !printed;
        i += 1;
    }
    crate::json::push_lit(&mut out, "}");
    proof {
        assert(strings_entries(s@, n as int, dict.entries(), dict.shorts(), skip_unknown, first)
            =~= Seq::<u8>::empty());
        assert(out@ =~= strings_object(s@, dict.entries(), dict.shorts(), skip_unknown));
        assert(strings_valid(s@));
    }
    Some(out)
}

/// The bytes of variant `k` inside an entry body: the variants' bodies tile
/// the body in descriptor order.
pub open spec fn variant_slice(vs: Seq<Variant>, body: Seq<u8>, k: int) -> Seq<u8> {
    body.subrange(body_size_prefix(vs, k), body_size_prefix(vs, k) + vs[k].body_size)
}

/// A well-formed string-table file: the variant bodies tile the entry body
/// exactly and every variant is well-formed.
pub open spec fn strings_all_valid(vs: Seq<Variant>, body: Seq<u8>) -> bool {
    &&& body_size_prefix(vs, vs.len() as int) == body.len()
    &&& forall|k: int| 0 <= k < vs.len() ==> strings_valid(#[trigger] variant_slice(vs, body, k))
}

/// Decodes a string-table file into one JSON object per variant, each
/// labelled with its kind.  Refused exactly when the file is not
/// well-formed.
pub fn extract_strings(
    variants: &Vec<Variant>,
    body: &[u8],
    dict: &Dictionary,
    skip_unknown: bool,
) -> (r: Option<Vec<(u32, Vec<u8>)>>)
    ensures
        match r {
            Some(outs) => strings_all_valid(variants@, body@) && outs@.len() == variants@.len()
                && forall|k: int|
                0 <= k < outs@.len() ==> (#[trigger] outs@[k]).0 == variants@[k].kind
                    && outs@[k].1@ == strings_object(
                    variant_slice(variants@, body@, k),
                    dict.entries(),
                    dict.shorts(),
                    skip_unknown,
                ),
            None => !strings_all_valid(variants@, body@),
        },
{
    let ghost vs = variants@;
    let mut outs: Vec<(u32, Vec<u8>)> = Vec::new();
    let mut start: usize = 0;
    let mut k: usize = 0;
    while k < variants.len()
        invariant
            k <= vs.len(),
            vs == variants@,
            start <= body@.len(),
            start == body_size_prefix(vs, k as int),
            outs@.len() == k,
            forall|t: int|
                0 <= t < k ==> (#[trigger] outs@[t]).0 == vs[t].kind && outs@[t].1@
                    == strings_object(
                    variant_slice(vs, body@, t),
                    dict.entries(),
                    dict.shorts(),
                    skip_unknown,
                ),
            forall|t: int| 0 <= t < k ==> strings_valid(#[trigger] variant_slice(vs, body@, t)),
        decreases vs.len() - k,
    {
        let size = variants[k].body_size as usize;
        if body.len() - start < size {
            proof {
                crate::bundle::lemma_body_prefix_mono(vs, k as int + 1, vs.len() as int);
            }
            return None;
        }
        let slice = &body[start..start + size];
        proof {
            assert(slice@ =~= variant_slice(vs, body@, k as int));
        }
        match extract_strings_variant(slice, dict, skip_unknown) {
            None => {
                return None;
            },
            Some(json) => {
                outs.push((variants[k].kind, json));
            },
        }
        start = start + size;
        k += 1;
    }
    if start != body.len() {
        return None;
    }
    Some(outs)
}

} // verus!
