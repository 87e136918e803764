//! JSON text assembly for the decoded artifacts: escaping of the control
//! characters the string tables carry, and truncation at an internal NUL.
use vstd::prelude::*;
use vstd::string::StringSliceAdditionalSpecFns;

verus! {

/// The byte sequence of a string literal.
pub open spec fn lit(s: &str) -> Seq<u8> {
    s.spec_bytes()
}

/// How one byte appears inside a JSON string: tab, newline, carriage return
/// and the double quote take a backslash escape, every other byte passes
/// through.
pub open spec fn escape1(c: u8) -> Seq<u8> {
    if c == 9 {
        seq![92u8, 116u8]
    } else if c == 10 {
        seq![92u8, 110u8]
    } else if c == 13 {
        seq![92u8, 114u8]
    } else if c == 34 {
        seq![92u8, 34u8]
    } else {
        seq![c]
    }
}

/// A byte string escaped for use inside a JSON string.
pub open spec fn json_escape(s: Seq<u8>) -> Seq<u8>
    decreases s.len(),
{
    if s.len() == 0 {
        Seq::empty()
    } else {
        json_escape(s.drop_last()) + escape1(s.last())
    }
}

/// Appends `s` escaped for use inside a JSON string.
pub fn push_json_escaped(out: &mut Vec<u8>, s: &[u8])
    ensures
        final(out)@ == old(out)@ + json_escape(s@),
{
    let n = s.len();
    let mut i: usize = 0;
    proof {
        assert(out@ =~= out@ + json_escape(s@.take(0)));
    }
    while i < n
        invariant
            i <= n,
            n == s@.len(),
            out@ == old(out)@ + json_escape(s@.take(i as int)),
        decreases n - i,
    {
        let c = s[i];
        if c == 9 {
            out.push(92);
            out.push(116);
        } else if c == 10 {
            out.push(92);
            out.push(110);
        } else if c == 13 {
            out.push(92);
            out.push(114);
        } else if c == 34 {
            out.push(92);
            out.push(34);
        } else {
            out.push(c);
        }
        proof {
            assert(s@.take(i as int + 1).drop_last() =~= s@.take(i as int));
            assert(s@.take(i as int + 1).last() == c);
            assert(out@ =~= old(out)@ + json_escape(s@.take(i as int + 1)));
        }
        i += 1;
    }
    proof {
        assert(s@.take(n as int) =~= s@);
    }
}

/// Appends the bytes of a string literal.
pub fn push_lit(out: &mut Vec<u8>, s: &str)
    ensures
        final(out)@ == old(out)@ + lit(s),
{
    crate::bytes::push_bytes(out, s.as_bytes());
}

/// The prefix of `s` before its first NUL byte; all of `s` when it has
/// none.  Text after an internal NUL is metadata and is discarded.
pub open spec fn truncate_nul(s: Seq<u8>) -> Seq<u8>
    decreases s.len(),
{
    if s.len() == 0 {
        Seq::empty()
    } else if s[0] == 0 {
        Seq::empty()
    } else {
        seq![s[0]] + truncate_nul(s.skip(1))
    }
}

/// Finds the first NUL of `s`, or its length when it has none.
pub fn find_nul(s: &[u8]) -> (r: usize)
    ensures
        r <= s@.len(),
        forall|j: int| 0 <= j < r ==> s@[j] != 0,
        r < s@.len() ==> s@[r as int] == 0,
{
    let n = s.len();
    let mut i: usize = 0;
    while i < n
        invariant
            i <= n,
            n == s@.len(),
            forall|j: int| 0 <= j < i ==> s@[j] != 0,
        decreases n - i,
    {
        if s[i] == 0 {
            return i;
        }
        i += 1;
    }
    n
}

/// The NUL-truncated prefix is exactly the bytes before the first NUL.
pub proof fn lemma_truncate_nul_take(s: Seq<u8>, r: int)
    requires
        0 <= r <= s.len(),
        forall|j: int| 0 <= j < r ==> s[j] != 0,
        r < s.len() ==> s[r] == 0,
    ensures
        truncate_nul(s) == s.take(r),
    decreases s.len(),
{
    if s.len() == 0 {
        assert(truncate_nul(s) =~= s.take(r));
    } else if s[0] == 0 {
        assert(truncate_nul(s) =~= s.take(r));
    } else {
        lemma_truncate_nul_take(s.skip(1), r - 1);
        assert(s.skip(1).take(r - 1) =~= s.take(r).skip(1));
        assert(seq![s[0]] + s.take(r).skip(1) =~= s.take(r));
    }
}

} // verus!
