//! The script-bytecode parser.  A script file carries a small prelude, an
//! optional source-attached secondary header, the bytecode magic, and a
//! sigil-prefixed source path.  The decoded artifact rewrites the header
//! canonically — always the canonical magic — and copies either the
//! bytecode tail or, on request when a source is attached, the source text.
use vstd::prelude::*;
use crate::bytes::le_u32;
use crate::bytes::u32_le_bytes;
use crate::bytes::leb_bytes;
use crate::bytes::leb_decode;

verus! {

/// The canonical bytecode magic, always emitted.
pub const SCRIPT_MAGIC: u32 = 38423579;

/// The alternate magic, accepted on input and never emitted.
pub const SCRIPT_MAGIC_ALT: u32 = 2186495515;

/// The canonical script header: the canonical magic, a zero byte, the
/// length-prefixed sigil, and the source path.  `n` counts the sigil and
/// the path bytes together.
pub open spec fn canonical_script_header(n: u64, path: Seq<u8>) -> Seq<u8> {
    u32_le_bytes(SCRIPT_MAGIC) + seq![0u8] + leb_bytes(n) + seq![64u8] + path
}

/// Parses a script stream that begins directly with its header: either
/// accepted magic, the zero byte, the path length, the `@` sigil and the
/// path.  Gives the magic, the declared length, the path, and where the
/// tail begins.
pub open spec fn parse_script_header(s: Seq<u8>) -> Option<(u32, u64, Seq<u8>, int)> {
    if s.len() < 5 {
        None
    } else {
        let magic = le_u32(s.subrange(0, 4));
        if magic != SCRIPT_MAGIC && magic != SCRIPT_MAGIC_ALT {
            None
        } else if s[4] != 0 {
            None
        } else {
            match leb_decode(s, 5) {
                Option::None => None,
                Option::Some((n, ll)) => {
                    let at = 5 + ll;
                    if at >= s.len() || s[at] != 64 {
                        None
                    } else if n < 1 || at + n > s.len() {
                        None
                    } else {
                        Some((magic, n, s.subrange(at + 1, at + n), at + n))
                    }
                },
            }
        }
    }
}

/// Re-parsing an emitted canonical header yields the canonical magic, the
/// same declared length, the same path, and leaves exactly the appended
/// tail bytes.
pub proof fn lemma_script_round_trip(n: u64, path: Seq<u8>, tail: Seq<u8>)
    requires
        n >= 1,
        path.len() == n - 1,
    ensures
        parse_script_header(canonical_script_header(n, path) + tail) == Some(
            (SCRIPT_MAGIC, n, path, canonical_script_header(n, path).len() as int),
        ),
        (canonical_script_header(n, path) + tail).subrange(
            canonical_script_header(n, path).len() as int,
            (canonical_script_header(n, path) + tail).len() as int,
        ) == tail,
{
    let head = canonical_script_header(n, path);
    let s = head + tail;
    let ll = leb_bytes(n).len() as int;
    assert(head.len() == 4 + 1 + ll + 1 + path.len());
    assert(s.subrange(0, 4) =~= u32_le_bytes(SCRIPT_MAGIC));
    crate::bytes::lemma_u32_le_round_trip(SCRIPT_MAGIC);
    assert(s[4] == 0);
    assert(s.subrange(5, 5 + ll) =~= leb_bytes(n));
    crate::bytes::lemma_leb_round_trip(s, 5, n);
    assert(leb_decode(s, 5) == Some((n, ll)));
    assert(s[5 + ll] == 64);
    let at = 5 + ll;
    assert(at + n <= s.len());
    assert(s.subrange(at + 1, at + n) =~= path);
    assert(s.subrange(head.len() as int, s.len() as int) =~= tail);
}

/// Decodes a script body: the declared file length and the optional
/// source-attached header from the prelude, the accepted magic, then the
/// path.  The artifact is the recovered path and either the canonical
/// header with the bytecode tail, or — when `extract_source` is set and a
/// source is attached — the source text alone.
pub open spec fn parse_script(s: Seq<u8>, extract_source: bool) -> Option<(Seq<u8>, Seq<u8>)> {
    if s.len() < 16 {
        None
    } else {
        let file_len0 = le_u32(s.subrange(4, 8)) as int;
        let h = le_u32(s.subrange(12, 16));
        let has_source = h == 2;
        if has_source && s.len() < 28 {
            None
        } else {
            let magic = if has_source {
                le_u32(s.subrange(24, 28))
            } else {
                h
            };
            let file_len = if has_source {
                file_len0
            } else {
                s.len() as int
            };
            let p0: int = if has_source {
                28
            } else {
                16
            };
            if magic != SCRIPT_MAGIC && magic != SCRIPT_MAGIC_ALT {
                None
            } else if p0 >= s.len() || s[p0] != 0 {
                None
            } else {
                match leb_decode(s, p0 + 1) {
                    Option::None => None,
                    Option::Some((plen, ll)) => {
                        let at = p0 + 1 + ll;
                        if at >= s.len() || s[at] != 64 {
                            None
                        } else if plen < 1 || at + plen > s.len() {
                            None
                        } else {
                            let path = s.subrange(at + 1, at + plen);
                            let cursor = at + plen;
                            let head = canonical_script_header(plen, path);
                            let k = file_len - head.len();
                            if k < 0 {
                                None
                            } else {
                                let avail = s.len() - cursor;
                                let k2 = if k <= avail {
                                    k
                                } else {
                                    avail as int
                                };
                                if extract_source && has_source {
                                    Some((path, s.subrange(cursor + k2, s.len() as int)))
                                } else {
                                    Some((path, head + s.subrange(cursor, cursor + k2)))
                                }
                            }
                        }
                    },
                }
            }
        }
    }
}

/// Decodes a script body into its artifact: the recovered source path and
/// the rewritten stream.  Refused exactly when the body is not a
/// well-formed script file.
#[verifier::rlimit(100)]
pub fn extract_script(body: &[u8], extract_source: bool) -> (r: Option<(Vec<u8>, Vec<u8>)>)
    ensures
        match r {
            Some(p) => parse_script(body@, extract_source) == Some((p.0@, p.1@)),
            None => parse_script(body@, extract_source) is None,
        },
{
    let len = body.len();
    if len < 16 {
        return None;
    }
    let file_len0 = crate::bytes::read_u32_le(body, 4);
    let h = crate::bytes::read_u32_le(body, 12);
    let has_source = h == 2;
    if has_source && len < 28 {
        return None;
    }
    let magic = if has_source {
        crate::bytes::read_u32_le(body, 24)
    } else {
        h
    };
    let file_len: usize = if has_source {
        file_len0 as usize
    } else {
        len
    };
    let p0: usize = if has_source {
        28
    } else {
        16
    };
    if magic != SCRIPT_MAGIC && magic != SCRIPT_MAGIC_ALT {
        return None;
    }
    if p0 >= len || body[p0] != 0 {
        return None;
    }
    let decoded = crate::bytes::read_leb128(body, p0 + 1);
    match decoded {
        None => None,
        Some((plen, ll)) => {
            let at = p0 + 1 + ll;
            if at >= len || body[at] != 64 {
                return None;
            }
            if plen < 1 || plen > (len - at) as u64 {
                return None;
            }
            let plen_us = plen as usize;
            let path = crate::bytes::copy_range(body, at + 1, at + plen_us);
            let cursor = at + plen_us;
            let mut out: Vec<u8> = Vec::new();
            crate::bytes::push_u32_le(&mut out, SCRIPT_MAGIC);
            out.push(0);
            crate::bytes::write_leb128(&mut out, plen);
            out.push(64);
            crate::bytes::push_bytes(&mut out, path.as_slice());
            proof {
                assert(out@ =~= canonical_script_header(plen, path@));
            }
            if file_len < out.len() {
                return None;
            }
            let k = file_len - out.len();
            let avail = len - cursor;
            let k2 = if k <= avail {
                k
            } else {
                avail
            };
            if extract_source && has_source {
                let src = crate::bytes::copy_range(body, cursor + k2, len);
                Some((path, src))
            } else {
                let ghost head = out@;
                crate::bytes::push_bytes(
                    &mut out,
                    &body[cursor..cursor + k2],
                );
                proof {
                    assert(out@ =~= head + body@.subrange(cursor as int, cursor as int + k2 as int));
                }
                Some((path, out))
            }
        },
    }
}

} // verus!
