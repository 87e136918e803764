//! Cross-bundle duplicate tracking: a count for every (extension-hash,
//! name-hash) pair observed, kept in ascending pair order so the hash dump
//! comes out sorted.
use vstd::prelude::*;
use crate::bytes::push_u64_le;
use crate::bytes::u64_le_bytes;

verus! {

/// Strict ascending order on (extension-hash, name-hash) pairs.
pub open spec fn key_lt(a: (u64, u64), b: (u64, u64)) -> bool {
    a.0 < b.0 || (a.0 == b.0 && a.1 < b.1)
}

/// The occurrence counter shared by all workers of a run.
pub struct DuplicateMap {
    entries: Vec<(u64, u64, u64)>,
}

impl DuplicateMap {
    /// The tracked (extension-hash, name-hash, count) triples in ascending
    /// pair order.
    pub closed spec fn entries(&self) -> Seq<(u64, u64, u64)> {
        self.entries@
    }

    /// The entries are strictly sorted by pair, so every pair occurs once.
    pub open spec fn wf(&self) -> bool {
        forall|i: int, j: int|
            0 <= i < j < self.entries().len() ==> key_lt(
                ((#[trigger] self.entries()[i]).0, self.entries()[i].1),
                ((#[trigger] self.entries()[j]).0, self.entries()[j].1),
            )
    }

    /// How often the pair has been noted; zero for one never seen.
    pub open spec fn spec_count(&self, ext: u64, name: u64) -> u64 {
        count_of(self.entries(), ext, name)
    }

    /// An empty tracker: no pair has been seen.
    pub fn new() -> (r: DuplicateMap)
        ensures
            r.wf(),
            forall|e: u64, n: u64| r.spec_count(e, n) == 0,
            r.entries().len() == 0,
    {
        DuplicateMap { entries: Vec::new() }
    }

    /// Notes one occurrence of a pair and returns its new count (which
    /// saturates instead of wrapping).  The count of every other pair is
    /// unchanged.
    pub fn note(&mut self, ext: u64, name: u64) -> (c: u64)
        requires
            old(self).wf(),
        ensures
            final(self).wf(),
            c == final(self).spec_count(ext, name),
            c == if old(self).spec_count(ext, name) == u64::MAX {
                u64::MAX
            } else {
                (old(self).spec_count(ext, name) + 1) as u64
            },
            forall|e: u64, n: u64|
                !(e == ext && n == name) ==> final(self).spec_count(e, n) == old(self).spec_count(
                    e,
                    n,
                ),
    {
        let ghost s0 = self.entries@;
        proof {
            assert forall|x: int, y: int| 0 <= x < y < s0.len() implies key_lt(
                ((#[trigger] s0[x]).0, s0[x].1),
                ((#[trigger] s0[y]).0, s0[y].1),
            ) by {
                assert(s0[x] == old(self).entries()[x]);
                assert(s0[y] == old(self).entries()[y]);
            }
        }
        let mut i: usize = 0;
        while i < self.entries.len() && key_lt_exec(
            (self.entries[i].0, self.entries[i].1),
            (ext, name),
        )
            invariant
                self.entries@ == s0,
                i <= s0.len(),
                forall|j: int| 0 <= j < i ==> key_lt(((#[trigger] s0[j]).0, s0[j].1), (ext, name)),
            decreases s0.len() - i,
        {
            i += 1;
        }
        if i < self.entries.len() && self.entries[i].0 == ext && self.entries[i].1 == name {
            let cur = self.entries[i].2;
            let c = if cur == u64::MAX {
                u64::MAX
            } else {
                cur + 1
            };
            self.entries[i] = (ext, name, c);
            proof {
                let s1 = self.entries@;
                assert(s1.len() == s0.len());
                assert(forall|j: int| 0 <= j < s0.len() && j != i ==> s1[j] == s0[j]);
                assert(s1[i as int] == (ext, name, c));
                assert forall|a: int, b: int| 0 <= a < b < s1.len() implies key_lt(
                    ((#[trigger] s1[a]).0, s1[a].1),
                    ((#[trigger] s1[b]).0, s1[b].1),
                ) by {
                    assert(s1[a].0 == s0[a].0 && s1[a].1 == s0[a].1);
                    assert(s1[b].0 == s0[b].0 && s1[b].1 == s0[b].1);
                    assert(key_lt((s0[a].0, s0[a].1), (s0[b].0, s0[b].1)));
                }
                lemma_found_index(s0, ext, name, i as int);
                lemma_found_index(self.entries@, ext, name, i as int);
                assert forall|e: u64, n: u64| !(e == ext && n == name) implies self.spec_count(e, n)
                    == old(self).spec_count(e, n) by {
                    lemma_count_other(s0, self.entries@, i as int, e, n);
                }
            }
            c
        } else {
            self.entries.insert(i, (ext, name, 1));
            proof {
                let s1 = self.entries@;
                assert forall|a: int, b: int| 0 <= a < b < s1.len() implies key_lt(
                    ((#[trigger] s1[a]).0, s1[a].1),
                    ((#[trigger] s1[b]).0, s1[b].1),
                ) by {
                    lemma_insert_sorted(s0, s1, i as int, ext, name, a, b);
                }
                assert(s1[i as int].0 == ext && s1[i as int].1 == name);
                lemma_found_index(s1, ext, name, i as int);
                assert(old(self).spec_count(ext, name) == 0) by {
                    if exists|k: int|
                        0 <= k < s0.len() && (#[trigger] s0[k]).0 == ext && s0[k].1 == name {
                        let k = choose|k: int|
                            0 <= k < s0.len() && (#[trigger] s0[k]).0 == ext && s0[k].1 == name;
                        if k < i {
                            assert(key_lt((s0[k].0, s0[k].1), (ext, name)));
                        } else {
                            assert(!key_lt((s0[i as int].0, s0[i as int].1), (ext, name)));
                            if k > i {
                                assert(key_lt((s0[i as int].0, s0[i as int].1), (s0[k].0, s0[k].1)));
                            }
                        }
                    }
                }
                assert forall|e: u64, n: u64| !(e == ext && n == name) implies self.spec_count(e, n)
                    == old(self).spec_count(e, n) by {
                    lemma_count_insert_other(s0, s1, i as int, ext, name, e, n);
                }
            }
            1
        }
    }

    /// How often a pair has been noted.
    pub fn count(&self, ext: u64, name: u64) -> (c: u64)
        requires
            self.wf(),
        ensures
            c == self.spec_count(ext, name),
    {
        let n = self.entries.len();
        let mut i: usize = 0;
        while i < n
            invariant
                i <= n,
                n == self.entries@.len(),
                self.wf(),
                forall|j: int|
                    0 <= j < i ==> !((#[trigger] self.entries@[j]).0 == ext && self.entries@[j].1
                        == name),
            decreases n - i,
        {
            if self.entries[i].0 == ext && self.entries[i].1 == name {
                proof {
                    assert forall|x: int, y: int| 0 <= x < y < self.entries@.len() implies key_lt(
                        ((#[trigger] self.entries@[x]).0, self.entries@[x].1),
                        ((#[trigger] self.entries@[y]).0, self.entries@[y].1),
                    ) by {
                        assert(key_lt(
                            ((self.entries()[x]).0, self.entries()[x].1),
                            ((self.entries()[y]).0, self.entries()[y].1),
                        ));
                    }
                    lemma_found_index(self.entries@, ext, name, i as int);
                }
                return self.entries[i].2;
            }
            i += 1;
        }
        proof {
            if exists|k: int|
                0 <= k < self.entries().len() && (#[trigger] self.entries()[k]).0 == ext
                    && self.entries()[k].1 == name {
                let k = choose|k: int|
                    0 <= k < self.entries().len() && (#[trigger] self.entries()[k]).0 == ext
                        && self.entries()[k].1 == name;
                assert(false);
            }
        }
        0
    }

    /// How many distinct pairs have been seen.
    pub fn len(&self) -> (r: usize)
        ensures
            r == self.entries().len(),
    {
        self.entries.len()
    }

    /// The binary hash-dump: for every pair in ascending order — kept to the
    /// filter extension where one below is given — the extension hash then
    /// the name hash, each as eight little-endian bytes.
    pub fn dump(&self, filter: Option<u64>) -> (r: Vec<u8>)
        ensures
            r@ == dump_bytes(self.entries(), filter),
    {
        let mut out: Vec<u8> = Vec::new();
        let n = self.entries.len();
        let mut i: usize = 0;
        while i < n
            invariant
                n == self.entries().len(),
                out@ == dump_bytes(self.entries().take(i as int), filter),
                i <= n,
            decreases n - i,
        {
            let (ext, name, _count) = self.entries[i];
            let keep = match filter {
                Some(f) => ext == f,
                None => true,
            };
            if keep {
                push_u64_le(&mut out, ext);
                push_u64_le(&mut out, name);
            }
            proof {
                lemma_dump_bytes_push(self.entries().take(i as int), self.entries()[i as int], filter);
                assert(self.entries().take(i as int).push(self.entries()[i as int])
                    =~= self.entries().take(i as int + 1));
            }
            i += 1;
        }
        proof {
            assert(self.entries().take(n as int) =~= self.entries());
        }
        out
    }
}

/// The dump record stream of a sequence of tracked pairs.
pub open spec fn dump_bytes(s: Seq<(u64, u64, u64)>, filter: Option<u64>) -> Seq<u8>
    decreases s.len(),
{
    if s.len() == 0 {
        Seq::empty()
    } else {
        let last = s[s.len() - 1];
        let head = dump_bytes(s.drop_last(), filter);
        if filter is None || last.0 == filter->0 {
            head + u64_le_bytes(last.0) + u64_le_bytes(last.1)
        } else {
            head
        }
    }
}

proof fn lemma_dump_bytes_push(s: Seq<(u64, u64, u64)>, e: (u64, u64, u64), filter: Option<u64>)
    ensures
        dump_bytes(s.push(e), filter) == if filter is None || e.0 == filter->0 {
            dump_bytes(s, filter) + u64_le_bytes(e.0) + u64_le_bytes(e.1)
        } else {
            dump_bytes(s, filter)
        },
{
    assert(s.push(e).drop_last() =~= s);
    assert(s.push(e)[s.push(e).len() - 1] == e);
}

fn key_lt_exec(a: (u64, u64), b: (u64, u64)) -> (r: bool)
    ensures
        r == key_lt(a, b),
{
    a.0 < b.0 || (a.0 == b.0 && a.1 < b.1)
}

/// In a strictly sorted entry sequence the index holding a pair is the index
/// `spec_count` chooses.
proof fn lemma_found_index(s: Seq<(u64, u64, u64)>, ext: u64, name: u64, i: int)
    requires
        0 <= i < s.len(),
        s[i].0 == ext && s[i].1 == name,
        forall|a: int, b: int|
            0 <= a < b < s.len() ==> key_lt(
                ((#[trigger] s[a]).0, s[a].1),
                ((#[trigger] s[b]).0, s[b].1),
            ),
    ensures
        (exists|k: int| 0 <= k < s.len() && (#[trigger] s[k]).0 == ext && s[k].1 == name),
        (choose|k: int| 0 <= k < s.len() && (#[trigger] s[k]).0 == ext && s[k].1 == name) == i,
        count_of(s, ext, name) == s[i].2,
{
    assert(0 <= i < s.len() && s[i].0 == ext && s[i].1 == name);
    let k = choose|k: int| 0 <= k < s.len() && (#[trigger] s[k]).0 == ext && s[k].1 == name;
    if k < i {
        assert(key_lt((s[k].0, s[k].1), (s[i].0, s[i].1)));
    } else if k > i {
        assert(key_lt((s[i].0, s[i].1), (s[k].0, s[k].1)));
    }
}

/// Replacing the count at one index leaves every other pair's count as it
/// was.
proof fn lemma_count_other(
    s0: Seq<(u64, u64, u64)>,
    s1: Seq<(u64, u64, u64)>,
    i: int,
    e: u64,
    n: u64,
)
    requires
        0 <= i < s0.len(),
        s1.len() == s0.len(),
        forall|j: int| 0 <= j < s0.len() && j != i ==> s1[j] == s0[j],
        s1[i].0 == s0[i].0 && s1[i].1 == s0[i].1,
        !(e == s0[i].0 && n == s0[i].1),
        forall|x: int, y: int|
            0 <= x < y < s0.len() ==> key_lt(
                ((#[trigger] s0[x]).0, s0[x].1),
                ((#[trigger] s0[y]).0, s0[y].1),
            ),
        forall|x: int, y: int|
            0 <= x < y < s1.len() ==> key_lt(
                ((#[trigger] s1[x]).0, s1[x].1),
                ((#[trigger] s1[y]).0, s1[y].1),
            ),
    ensures
        count_of(s1, e, n) == count_of(s0, e, n),
{
    if exists|k: int| 0 <= k < s0.len() && (#[trigger] s0[k]).0 == e && s0[k].1 == n {
        let k = choose|k: int| 0 <= k < s0.len() && (#[trigger] s0[k]).0 == e && s0[k].1 == n;
        assert(k != i);
        assert(s1[k] == s0[k]);
        lemma_found_index(s0, e, n, k);
        lemma_found_index(s1, e, n, k);
    } else {
        if exists|k: int| 0 <= k < s1.len() && (#[trigger] s1[k]).0 == e && s1[k].1 == n {
            let k1 = choose|k: int| 0 <= k < s1.len() && (#[trigger] s1[k]).0 == e && s1[k].1 == n;
            assert(k1 != i);
            assert(s0[k1] == s1[k1]);
            assert(0 <= k1 < s0.len() && s0[k1].0 == e && s0[k1].1 == n);
            assert(false);
        }
    }
}

/// The pair count over a bare entry sequence, as `spec_count` reads it.
pub open spec fn count_of(s: Seq<(u64, u64, u64)>, ext: u64, name: u64) -> u64 {
    if exists|i: int| 0 <= i < s.len() && (#[trigger] s[i]).0 == ext && s[i].1 == name {
        let i = choose|i: int| 0 <= i < s.len() && (#[trigger] s[i]).0 == ext && s[i].1 == name;
        s[i].2
    } else {
        0
    }
}

/// Inserting a fresh pair keeps the entries strictly sorted when it lands at
/// its ordered position.
proof fn lemma_insert_sorted(
    s0: Seq<(u64, u64, u64)>,
    s1: Seq<(u64, u64, u64)>,
    i: int,
    ext: u64,
    name: u64,
    a: int,
    b: int,
)
    requires
        0 <= i <= s0.len(),
        s1 == s0.insert(i, (ext, name, 1u64)),
        forall|x: int, y: int|
            0 <= x < y < s0.len() ==> key_lt(
                ((#[trigger] s0[x]).0, s0[x].1),
                ((#[trigger] s0[y]).0, s0[y].1),
            ),
        forall|j: int| 0 <= j < i ==> key_lt(((#[trigger] s0[j]).0, s0[j].1), (ext, name)),
        i < s0.len() ==> !key_lt((s0[i].0, s0[i].1), (ext, name)),
        i < s0.len() ==> !(s0[i].0 == ext && s0[i].1 == name),
        0 <= a < b < s1.len(),
    ensures
        key_lt((s1[a].0, s1[a].1), (s1[b].0, s1[b].1)),
{
    assert(s1.len() == s0.len() + 1);
    if i < s0.len() {
        assert(key_lt((ext, name), (s0[i].0, s0[i].1)));
    }
}

/// Inserting a pair leaves every other pair's count as it was.
proof fn lemma_count_insert_other(
    s0: Seq<(u64, u64, u64)>,
    s1: Seq<(u64, u64, u64)>,
    i: int,
    ext: u64,
    name: u64,
    e: u64,
    n: u64,
)
    requires
        0 <= i <= s0.len(),
        s1 == s0.insert(i, (ext, name, 1u64)),
        !(e == ext && n == name),
        forall|x: int, y: int|
            0 <= x < y < s0.len() ==> key_lt(
                ((#[trigger] s0[x]).0, s0[x].1),
                ((#[trigger] s0[y]).0, s0[y].1),
            ),
        forall|x: int, y: int|
            0 <= x < y < s1.len() ==> key_lt(
                ((#[trigger] s1[x]).0, s1[x].1),
                ((#[trigger] s1[y]).0, s1[y].1),
            ),
    ensures
        count_of(s1, e, n) == count_of(s0, e, n),
{
    assert(s1.len() == s0.len() + 1);
    assert(forall|j: int| 0 <= j < i ==> s1[j] == s0[j]);
    assert(forall|j: int| i < j < s1.len() ==> s1[j] == s0[j - 1]);
    assert(s1[i] == (ext, name, 1u64));
    if exists|k: int| 0 <= k < s0.len() && (#[trigger] s0[k]).0 == e && s0[k].1 == n {
        let k = choose|k: int| 0 <= k < s0.len() && (#[trigger] s0[k]).0 == e && s0[k].1 == n;
        let k2 = if k < i {
            k
        } else {
            k + 1
        };
        assert(s1[k2] == s0[k]);
        lemma_found_index(s0, e, n, k);
        lemma_found_index(s1, e, n, k2);
    } else {
        if exists|k: int| 0 <= k < s1.len() && (#[trigger] s1[k]).0 == e && s1[k].1 == n {
            let k1 = choose|k: int| 0 <= k < s1.len() && (#[trigger] s1[k]).0 == e && s1[k].1 == n;
            assert(k1 != i);
            let k0 = if k1 < i {
                k1
            } else {
                k1 - 1
            };
            assert(s0[k0] == s1[k1]);
            assert(0 <= k0 < s0.len() && s0[k0].0 == e && s0[k0].1 == n);
            assert(false);
        }
    }
}

} // verus!
