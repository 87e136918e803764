//! The package-manifest parser: a manifest lists the (extension hash, name
//! hash) pairs of the files a package pulls in; the decoded artifact is a
//! JSON array describing each pair.
use vstd::prelude::*;
use crate::bytes::le_u32;
use crate::bytes::le_u64;
use crate::bytes::hex_bytes;
use crate::hash::dict_get;
use crate::json::lit;
use crate::json::json_escape;

verus! {

/// Parses a manifest body: a leading word of 43, a pair count, that many
/// (extension hash, name hash) pairs, and a single trailing byte of 1.
pub open spec fn parse_package(s: Seq<u8>) -> Option<Seq<(u64, u64)>> {
    if s.len() >= 9 && le_u32(s.subrange(0, 4)) == 43 && 8 + 16 * (le_u32(
        s.subrange(4, 8),
    ) as int) + 1 == s.len() && s[s.len() - 1] == 1 {
        let n = le_u32(s.subrange(4, 8));
        Some(
            Seq::new(
                n as nat,
                |i: int|
                    (
                        le_u64(s.subrange(8 + 16 * i, 8 + 16 * i + 8)),
                        le_u64(s.subrange(8 + 16 * i + 8, 8 + 16 * i + 16)),
                    ),
            ),
        )
    } else {
        None
    }
}

/// The name field of a manifest element: present exactly when the
/// dictionary resolves the name hash.
pub open spec fn package_name_part(dict: Seq<(u64, Seq<u8>)>, name: u64) -> Seq<u8> {
    match dict_get(dict, name) {
        Option::Some(nm) => lit(",\"name\":\"") + json_escape(nm) + lit("\""),
        Option::None => Seq::<u8>::empty(),
    }
}

/// The extension field closing a manifest element: the extension string
/// when the table knows the hash, else the hash itself — one of the two,
/// never both.
pub open spec fn package_ext_part(exts: Seq<(u64, Seq<u8>)>, ext: u64) -> Seq<u8> {
    match dict_get(exts, ext) {
        Option::Some(es) => lit(",\"ext\":\"") + json_escape(es) + lit("\"}"),
        Option::None => lit(",\"ext_hash\":\"") + hex_bytes(ext, 16) + lit("\"}"),
    }
}

/// One element of the manifest JSON: always the name hash, then the name
/// field, then the extension field.
pub open spec fn package_element(
    r: (u64, u64),
    dict: Seq<(u64, Seq<u8>)>,
    exts: Seq<(u64, Seq<u8>)>,
) -> Seq<u8> {
    lit("{\"name_hash\":\"") + hex_bytes(r.1, 16) + lit("\"") + package_name_part(dict, r.1)
        + package_ext_part(exts, r.0)
}

/// A manifest element carries a readable name exactly when the dictionary
/// resolves its name hash: the name field is empty for an unresolved hash
/// and never empty for a resolved one.
pub proof fn lemma_package_name_presence(dict: Seq<(u64, Seq<u8>)>, name: u64)
    ensures
        (package_name_part(dict, name).len() == 0) <==> (dict_get(dict, name) is None),
{
    reveal_strlit(",\"name\":\"");
}

/// The comma-separated elements of the manifest JSON.
pub open spec fn package_items(
    rs: Seq<(u64, u64)>,
    dict: Seq<(u64, Seq<u8>)>,
    exts: Seq<(u64, Seq<u8>)>,
) -> Seq<u8>
    decreases rs.len(),
{
    if rs.len() == 0 {
        Seq::empty()
    } else {
        package_items(rs.drop_last(), dict, exts) + (if rs.len() > 1 {
            lit(",")
        } else {
            Seq::<u8>::empty()
        }) + package_element(rs.last(), dict, exts)
    }
}

/// The manifest JSON: an array of one element per listed pair.
pub open spec fn package_json(
    rs: Seq<(u64, u64)>,
    dict: Seq<(u64, Seq<u8>)>,
    exts: Seq<(u64, Seq<u8>)>,
) -> Seq<u8> {
    lit("[") + package_items(rs, dict, exts) + lit("]")
}

/// Appends one manifest element.
fn push_package_element(
    out: &mut Vec<u8>,
    ext: u64,
    name: u64,
    dict: &crate::hash::Dictionary,
    exts: &crate::hash::ExtensionTable,
)
    ensures
        final(out)@ == old(out)@ + package_element((ext, name), dict.entries(), exts.entries()),
{
    crate::json::push_lit(out, "{\"name_hash\":\"");
    crate::bytes::push_hex(out, name, 16);
    crate::json::push_lit(out, "\"");
    match dict.get(name) {
        Some(nm) => {
            crate::json::push_lit(out, ",\"name\":\"");
            crate::json::push_json_escaped(out, nm.as_slice());
            crate::json::push_lit(out, "\"");
        },
        None => {},
    }
    match exts.get(ext) {
        Some(es) => {
            crate::json::push_lit(out, ",\"ext\":\"");
            crate::json::push_json_escaped(out, es.as_slice());
            crate::json::push_lit(out, "\"}");
        },
        None => {
            crate::json::push_lit(out, ",\"ext_hash\":\"");
            crate::bytes::push_hex(out, ext, 16);
            crate::json::push_lit(out, "\"}");
        },
    }
    proof {
        assert(out@ =~= old(out)@ + package_element((ext, name), dict.entries(), exts.entries()));
    }
}

/// Decodes a package manifest into its JSON artifact.  Refused exactly when
/// the body is not a well-formed manifest.
#[verifier::rlimit(100)]
pub fn extract_package(body: &[u8], dict: &crate::hash::Dictionary, exts: &crate::hash::ExtensionTable) -> (r: Option<
    Vec<u8>,
>)
    ensures
        match r {
            Some(v) => parse_package(body@) is Some && v@ == package_json(
                parse_package(body@)->Some_0,
                dict.entries(),
                exts.entries(),
            ),
            None => parse_package(body@) is None,
        },
{
    if body.len() < 9 {
        return None;
    }
    if crate::bytes::read_u32_le(body, 0) != 43 {
        return None;
    }
    let n = crate::bytes::read_u32_le(body, 4);
    if 8 + 16 * (n as u64) + 1 != body.len() as u64 {
        return None;
    }
    if body[body.len() - 1] != 1 {
        return None;
    }
    let ghost rs = parse_package(body@)->Some_0;
    proof {
        assert(parse_package(body@) is Some);
        assert(rs.len() == n);
    }
    let mut out: Vec<u8> = Vec::new();
    crate::json::push_lit(&mut out, "[");
    let mut i: usize = 0;
    proof {
        assert(out@ =~= lit("[") + package_items(rs.take(0), dict.entries(), exts.entries()));
    }
    while i < n as usize
        invariant
            i <= n,
            rs == parse_package(body@)->Some_0,
            parse_package(body@) is Some,
            rs.len() == n,
            body@.len() == 8 + 16 * (n as int) + 1,
            body@.len() <= usize::MAX,
            out@ == lit("[") + package_items(rs.take(i as int), dict.entries(), exts.entries()),
        decreases n - i,
    {
        let pos = 8 + 16 * i;
        let ext = crate::bytes::read_u64_le(body, pos);
        let name = crate::bytes::read_u64_le(body, pos + 8);
        proof {
            assert(rs[i as int] == (ext, name));
        }
        if i > 0 {
            crate::json::push_lit(&mut out, ",");
        }
        push_package_element(&mut out, ext, name, dict, exts);
        proof {
            assert(rs.take(i as int + 1).drop_last() =~= rs.take(i as int));
            assert(rs.take(i as int + 1).last() == rs[i as int]);
            assert(out@ =~= lit("[") + package_items(
                rs.take(i as int + 1),
                dict.entries(),
                exts.entries(),
            ));
        }
        i += 1;
    }
    crate::json::push_lit(&mut out, "]");
    proof {
        assert(rs.take(n as int) =~= rs);
        assert(out@ =~= package_json(rs, dict.entries(), exts.entries()));
    }
    Some(out)
}

} // verus!
