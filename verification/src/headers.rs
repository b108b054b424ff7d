//! The header multimap: an ordered map from header name to an ordered list
//! of values. Keys are case-sensitive; insertion order among distinct keys
//! is preserved so that encoding is deterministic; repeated headers append
//! to the existing key's list.

use vstd::prelude::*;

use crate::error::StompError;
use crate::util::lower_bytes;

verus! {

/// One entry: a key and its non-empty, ordered list of values.
pub type SpecEntries = Seq<(Seq<u8>, Seq<Seq<u8>>)>;

/// Index of the first entry with key `k`, or `m.len()` if absent.
pub open spec fn key_index(m: SpecEntries, k: Seq<u8>) -> int
    decreases m.len(),
{
    if m.len() == 0 {
        0
    } else if m[0].0 == k {
        0
    } else {
        1 + key_index(m.subrange(1, m.len() as int), k)
    }
}

pub proof fn lemma_key_index(m: SpecEntries, k: Seq<u8>)
    ensures
        0 <= key_index(m, k) <= m.len(),
        key_index(m, k) < m.len() ==> m[key_index(m, k)].0 == k,
        forall|i: int| 0 <= i < key_index(m, k) ==> m[i].0 != k,
    decreases m.len(),
{
    if m.len() == 0 {
    } else if m[0].0 == k {
    } else {
        let t = m.subrange(1, m.len() as int);
        lemma_key_index(t, k);
        assert forall|i: int| 0 <= i < key_index(m, k) implies m[i].0 != k by {
            if i >= 1 {
                assert(m[i] == t[i - 1]);
            }
        }
    }
}

/// If `m` has no entry keyed `k` before `j` and entry `j` is keyed `k`,
/// the first index for `k` is `j`.
pub proof fn lemma_key_index_at(m: SpecEntries, k: Seq<u8>, j: int)
    requires
        0 <= j < m.len(),
        m[j].0 == k,
        forall|i: int| 0 <= i < j ==> m[i].0 != k,
    ensures
        key_index(m, k) == j,
    decreases m.len(),
{
    if j == 0 {
    } else {
        let t = m.subrange(1, m.len() as int);
        lemma_key_index_at(t, k, j - 1);
    }
}

/// If no entry of `m` is keyed `k`, the first index for `k` is `m.len()`.
pub proof fn lemma_key_index_absent(m: SpecEntries, k: Seq<u8>)
    requires
        forall|i: int| 0 <= i < m.len() ==> m[i].0 != k,
    ensures
        key_index(m, k) == m.len(),
    decreases m.len(),
{
    if m.len() > 0 {
        lemma_key_index_absent(m.subrange(1, m.len() as int), k);
    }
}

/// Entries are well formed when keys are pairwise distinct and every value
/// list is non-empty.
pub open spec fn entries_wf(m: SpecEntries) -> bool {
    &&& forall|i: int, j: int| 0 <= i < j < m.len() ==> m[i].0 != m[j].0
    &&& forall|i: int| 0 <= i < m.len() ==> m[i].1.len() >= 1
}

/// `set`: overwrite the value list for `k` with the single value `v`,
/// keeping the entry's position; a fresh key goes to the end.
pub open spec fn entries_set(m: SpecEntries, k: Seq<u8>, v: Seq<u8>) -> SpecEntries {
    let i = key_index(m, k);
    if i < m.len() {
        m.update(i, (k, seq![v]))
    } else {
        m.push((k, seq![v]))
    }
}

/// `append`: push `v` onto `k`'s list, creating the entry if absent.
pub open spec fn entries_append(m: SpecEntries, k: Seq<u8>, v: Seq<u8>) -> SpecEntries {
    let i = key_index(m, k);
    if i < m.len() {
        m.update(i, (k, m[i].1.push(v)))
    } else {
        m.push((k, seq![v]))
    }
}

/// `first`: the first value recorded under `k`, if any.
pub open spec fn entries_first(m: SpecEntries, k: Seq<u8>) -> Option<Seq<u8>> {
    let i = key_index(m, k);
    if i < m.len() {
        Some(m[i].1[0])
    } else {
        None
    }
}

/// `all`: every value recorded under `k`, oldest first; empty if absent.
pub open spec fn entries_all(m: SpecEntries, k: Seq<u8>) -> Seq<Seq<u8>> {
    let i = key_index(m, k);
    if i < m.len() {
        m[i].1
    } else {
        Seq::empty()
    }
}

/// Index of the first entry whose key equals `k` up to ASCII case, or
/// `m.len()` if none does.
pub open spec fn key_index_ci(m: SpecEntries, k: Seq<u8>) -> int
    decreases m.len(),
{
    if m.len() == 0 {
        0
    } else if lower_bytes(m[0].0) == k {
        0
    } else {
        1 + key_index_ci(m.subrange(1, m.len() as int), k)
    }
}

/// If `m` has no entry matching `k` up to case before `j` and entry `j`
/// matches, the first case-insensitive index for `k` is `j`.
pub proof fn lemma_key_index_ci_at(m: SpecEntries, k: Seq<u8>, j: int)
    requires
        0 <= j < m.len(),
        lower_bytes(m[j].0) == k,
        forall|i: int| 0 <= i < j ==> lower_bytes(m[i].0) != k,
    ensures
        key_index_ci(m, k) == j,
    decreases m.len(),
{
    if j == 0 {
    } else {
        let t = m.subrange(1, m.len() as int);
        lemma_key_index_ci_at(t, k, j - 1);
    }
}

/// If no entry of `m` matches `k` up to case, the first case-insensitive
/// index for `k` is `m.len()`.
pub proof fn lemma_key_index_ci_absent(m: SpecEntries, k: Seq<u8>)
    requires
        forall|i: int| 0 <= i < m.len() ==> lower_bytes(m[i].0) != k,
    ensures
        key_index_ci(m, k) == m.len(),
    decreases m.len(),
{
    if m.len() > 0 {
        lemma_key_index_ci_absent(m.subrange(1, m.len() as int), k);
    }
}

/// Ordered key-to-values store for protocol headers.
#[derive(Debug, Clone, PartialEq, Eq)]
pub struct HeaderMultimap {
    pub entries: Vec<(Vec<u8>, Vec<Vec<u8>>)>,
}

impl View for HeaderMultimap {
    type V = SpecEntries;

    open spec fn view(&self) -> SpecEntries {
        self.entries@.map_values(|e: (Vec<u8>, Vec<Vec<u8>>)| (e.0@, e.1.deep_view()))
    }
}

impl HeaderMultimap {
    /// Distinct keys, every value list non-empty.
    pub open spec fn wf(&self) -> bool {
        entries_wf(self@)
    }

    /// The empty header map.
    pub fn new() -> (r: HeaderMultimap)
        ensures
            r@ == Seq::<(Seq<u8>, Seq<Seq<u8>>)>::empty(),
            r.wf(),
    {
        let r = HeaderMultimap { entries: Vec::new() };
        proof {
            assert(r@ =~= Seq::<(Seq<u8>, Seq<Seq<u8>>)>::empty());
        }
        r
    }

    /// Position of the first entry holding `key`, if any.
    fn find_key(&self, key: &[u8]) -> (r: usize)
        ensures
            r == key_index(self@, key@),
    {
        let mut i: usize = 0;
        while i < self.entries.len()
            invariant
                0 <= i <= self.entries@.len(),
                forall|j: int| 0 <= j < i ==> self@[j].0 != key@,
            decreases self.entries@.len() - i,
        {
            if crate::util::bytes_eq(self.entries[i].0.as_slice(), key) {
                proof {
                    lemma_key_index_at(self@, key@, i as int);
                }
                return i;
            }
            i += 1;
        }
        proof {
            lemma_key_index_absent(self@, key@);
        }
        i
    }

    /// Position of the first entry whose key equals the lower-case `key`
    /// up to ASCII case, or the number of entries if none does.
    pub fn find_key_ci(&self, key: &[u8]) -> (r: usize)
        ensures
            r == key_index_ci(self@, key@),
            r <= self@.len(),
    {
        let mut i: usize = 0;
        while i < self.entries.len()
            invariant
                0 <= i <= self.entries@.len(),
                forall|j: int| 0 <= j < i ==> lower_bytes(self@[j].0) != key@,
            decreases self.entries@.len() - i,
        {
            let low = crate::util::lower_vec(self.entries[i].0.as_slice());
            if crate::util::bytes_eq(low.as_slice(), key) {
                proof {
                    lemma_key_index_ci_at(self@, key@, i as int);
                }
                return i;
            }
            i += 1;
        }
        proof {
            lemma_key_index_ci_absent(self@, key@);
        }
        i
    }

    /// Overwrite the value list for `key` with the single value `value`;
    /// reports whether the key was previously absent.
    pub fn set(&mut self, key: Vec<u8>, value: Vec<u8>) -> (fresh: bool)
        ensures
            final(self)@ == entries_set(old(self)@, key@, value@),
            fresh == (key_index(old(self)@, key@) == old(self)@.len()),
            old(self).wf() ==> final(self).wf(),
    {
        let i = self.find_key(key.as_slice());
        if i < self.entries.len() {
            let mut vs: Vec<Vec<u8>> = Vec::new();
            vs.push(value);
            self.entries[i] = (key, vs);
            proof {
                assert(vs.deep_view() =~~= seq![value@]);
                assert(final(self)@ =~~= entries_set(old(self)@, key@, value@));
                lemma_key_index(old(self)@, key@);
                if old(self).wf() {
                    assert(entries_wf(final(self)@));
                }
            }
            false
        } else {
            let mut vs: Vec<Vec<u8>> = Vec::new();
            vs.push(value);
            self.entries.push((key, vs));
            proof {
                assert(vs.deep_view() =~~= seq![value@]);
                assert(final(self)@ =~~= entries_set(old(self)@, key@, value@));
                lemma_key_index(old(self)@, key@);
                if old(self).wf() {
                    assert forall|a: int, b: int|
                        0 <= a < b < final(self)@.len() implies final(self)@[a].0
                        != final(self)@[b].0 by {
                        if b == final(self)@.len() - 1 {
                            assert(final(self)@[a].0 == old(self)@[a].0);
                        }
                    }
                }
            }
            true
        }
    }

    /// Push `value` onto `key`'s list, creating the entry if absent.
    pub fn append(&mut self, key: Vec<u8>, value: Vec<u8>)
        ensures
            final(self)@ == entries_append(old(self)@, key@, value@),
            old(self).wf() ==> final(self).wf(),
    {
        let i = self.find_key(key.as_slice());
        if i < self.entries.len() {
            let mut entry = self.entries.remove(i);
            entry.1.push(value);
            self.entries.insert(i, entry);
            proof {
                lemma_key_index(old(self)@, key@);
                assert(final(self)@ =~~= entries_append(old(self)@, key@, value@));
                if old(self).wf() {
                    assert(entries_wf(final(self)@));
                }
            }
        } else {
            let mut vs: Vec<Vec<u8>> = Vec::new();
            vs.push(value);
            self.entries.push((key, vs));
            proof {
                assert(vs.deep_view() =~~= seq![value@]);
                assert(final(self)@ =~~= entries_append(old(self)@, key@, value@));
                lemma_key_index(old(self)@, key@);
                if old(self).wf() {
                    assert forall|a: int, b: int|
                        0 <= a < b < final(self)@.len() implies final(self)@[a].0
                        != final(self)@[b].0 by {
                        if b == final(self)@.len() - 1 {
                            assert(final(self)@[a].0 == old(self)@[a].0);
                        }
                    }
                }
            }
        }
    }

    /// The first value recorded under `key`, or `HeaderNotFound`.
    pub fn first(&self, key: &[u8]) -> (r: Result<Vec<u8>, StompError>)
        requires
            self.wf(),
        ensures
            match r {
                Ok(v) => entries_first(self@, key@) == Some(v@),
                Err(e) => entries_first(self@, key@) is None && e@
                    == crate::error::SpecStompError::HeaderNotFound(key@),
            },
    {
        let i = self.find_key(key);
        if i < self.entries.len() {
            let vs = &self.entries[i].1;
            proof {
                lemma_key_index(self@, key@);
                assert(self@[i as int].1 == vs.deep_view());
            }
            let out = crate::util::copy_range(vs[0].as_slice(), 0, vs[0].len());
            proof {
                assert(out@ =~= vs.deep_view()[0]);
            }
            Ok(out)
        } else {
            let k = crate::util::copy_range(key, 0, key.len());
            proof {
                assert(k@ =~= key@);
            }
            Err(StompError::HeaderNotFound(k))
        }
    }

    /// Every value recorded under `key`, oldest first; empty if absent.
    pub fn all(&self, key: &[u8]) -> (r: Vec<Vec<u8>>)
        ensures
            r.deep_view() == entries_all(self@, key@),
    {
        let i = self.find_key(key);
        if i < self.entries.len() {
            let vs = &self.entries[i].1;
            let mut out: Vec<Vec<u8>> = Vec::new();
            let mut j: usize = 0;
            while j < vs.len()
                invariant
                    0 <= j <= vs@.len(),
                    out@.len() == j,
                    forall|k: int| 0 <= k < j ==> out@[k]@ == vs.deep_view()[k],
                decreases vs@.len() - j,
            {
                let c = crate::util::copy_range(vs[j].as_slice(), 0, vs[j].len());
                proof {
                    assert(c@ =~= vs.deep_view()[j as int]);
                }
                out.push(c);
                j += 1;
            }
            proof {
                assert(self@[i as int].1 == vs.deep_view());
                assert forall|k: int| 0 <= k < out@.len() implies out.deep_view()[k]
                    == vs.deep_view()[k] by {
                    assert(out.deep_view()[k] =~= out@[k]@);
                }
                assert(out.deep_view() =~= vs.deep_view());
            }
            out
        } else {
            let out: Vec<Vec<u8>> = Vec::new();
            proof {
                assert(out.deep_view() =~= Seq::<Seq<u8>>::empty());
            }
            out
        }
    }

    /// How many distinct keys are recorded.
    pub fn len(&self) -> (r: usize)
        ensures
            r == self@.len(),
    {
        self.entries.len()
    }
}

} // verus!
