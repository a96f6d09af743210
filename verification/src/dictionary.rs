//! Dictionary management utilities.

use vstd::prelude::*;
use crate::bytes::{bytes_eq, copy_bytes, is_prefix_of};
use crate::lzw_encode::{
    best_match, match_len, entries_view, initial_dict, initial_entries, longest_match,
};

verus! {

/// The code of the first entry holding the bytes `s`.
pub open spec fn code_for(entries: Seq<(Seq<u8>, u16)>, s: Seq<u8>) -> Option<u16>
    decreases entries.len(),
{
    if entries.len() == 0 {
        None
    } else {
        match code_for(entries.drop_last(), s) {
            Some(c) => Some(c),
            None => if entries.last().0 == s {
                Some(entries.last().1)
            } else {
                None
            },
        }
    }
}

/// The bytes of the first entry with code `code`.
pub open spec fn seq_for(entries: Seq<(Seq<u8>, u16)>, code: u16) -> Option<Seq<u8>>
    decreases entries.len(),
{
    if entries.len() == 0 {
        None
    } else {
        match seq_for(entries.drop_last(), code) {
            Some(s) => Some(s),
            None => if entries.last().1 == code {
                Some(entries.last().0)
            } else {
                None
            },
        }
    }
}

/// The byte sequences of the entries, in order.
pub open spec fn keys(entries: Seq<(Seq<u8>, u16)>) -> Seq<Seq<u8>> {
    entries.map_values(|e: (Seq<u8>, u16)| e.0)
}

/// The 256 single-byte entries, each with its byte value as code.
pub open spec fn initial_pairs() -> Seq<(Seq<u8>, u16)> {
    Seq::new(256, |i: int| (seq![i as u8], i as u16))
}

/// The code and length of the longest entry that is a prefix of `data`
/// (the earliest among equally long ones), or `(None, 0)`.
pub open spec fn longest_entry(entries: Seq<(Seq<u8>, u16)>, data: Seq<u8>) -> (Option<u16>, int) {
    match best_match(keys(entries), data, entries.len() as int) {
        Some(k) => (Some(entries[k].1), entries[k].0.len() as int),
        None => (None, 0),
    }
}

/// A first match found in a prefix of the entries is the first match overall.
proof fn lemma_code_for_prefix(e: Seq<(Seq<u8>, u16)>, k: int, s: Seq<u8>)
    requires
        0 <= k <= e.len(),
        code_for(e.take(k), s) is Some,
    ensures
        code_for(e, s) == code_for(e.take(k), s),
    decreases e.len(),
{
    if k < e.len() {
        assert(e.drop_last().take(k) =~= e.take(k));
        lemma_code_for_prefix(e.drop_last(), k, s);
    } else {
        assert(e.take(k) =~= e);
    }
}

/// A first match found in a prefix of the entries is the first match overall.
proof fn lemma_seq_for_prefix(e: Seq<(Seq<u8>, u16)>, k: int, code: u16)
    requires
        0 <= k <= e.len(),
        seq_for(e.take(k), code) is Some,
    ensures
        seq_for(e, code) == seq_for(e.take(k), code),
    decreases e.len(),
{
    if k < e.len() {
        assert(e.drop_last().take(k) =~= e.take(k));
        lemma_seq_for_prefix(e.drop_last(), k, code);
    } else {
        assert(e.take(k) =~= e);
    }
}

/// Adding an entry leaves every earlier lookup as it was; the added bytes
/// look up to the added code unless they were already present, and the added
/// code looks up to the added bytes unless it was already in use.
pub proof fn lemma_lookup_after_add(e: Seq<(Seq<u8>, u16)>, s: Seq<u8>, c: u16, t: Seq<u8>, d: u16)
    ensures
        code_for(e.push((s, c)), t) == (match code_for(e, t) {
            Some(x) => Some(x),
            None => if t == s {
                Some(c)
            } else {
                None
            },
        }),
        seq_for(e.push((s, c)), d) == (match seq_for(e, d) {
            Some(x) => Some(x),
            None => if d == c {
                Some(s)
            } else {
                None
            },
        }),
{
    assert(e.push((s, c)).drop_last() =~= e);
}

/// No entry carries `d`, so looking it up finds nothing.
proof fn lemma_seq_for_absent(e: Seq<(Seq<u8>, u16)>, d: u16)
    requires
        forall|i: int| 0 <= i < e.len() ==> (#[trigger] e[i]).1 != d,
    ensures
        seq_for(e, d) is None,
    decreases e.len(),
{
    if e.len() > 0 {
        assert forall|i: int| 0 <= i < e.drop_last().len() implies (#[trigger] e.drop_last()[i]).1
            != d by {
            assert(e.drop_last()[i] == e[i]);
        }
        lemma_seq_for_absent(e.drop_last(), d);
    }
}

/// In the initial entries each single byte looks up to its own value, and
/// each code below 256 to its single byte.
pub proof fn lemma_initial_lookup(b: u8)
    ensures
        code_for(initial_pairs(), seq![b]) == Some(b as u16),
        seq_for(initial_pairs(), b as u16) == Some(seq![b]),
{
    lemma_initial_lookup_upto(b, 256);
    assert(initial_pairs().take(256) =~= initial_pairs());
}

proof fn lemma_initial_lookup_upto(b: u8, k: int)
    requires
        0 <= k <= 256,
    ensures
        code_for(initial_pairs().take(k), seq![b]) == (if (b as int) < k {
            Some(b as u16)
        } else {
            None
        }),
        seq_for(initial_pairs().take(k), b as u16) == (if (b as int) < k {
            Some(seq![b])
        } else {
            None
        }),
    decreases k,
{
    let e = initial_pairs().take(k);
    if k > 0 {
        lemma_initial_lookup_upto(b, k - 1);
        assert(e.drop_last() =~= initial_pairs().take(k - 1));
        let last = e.last();
        assert(last == (seq![(k - 1) as u8], (k - 1) as u16));
        if (b as int) != k - 1 {
            assert(seq![(k - 1) as u8][0] != seq![b][0]);
        }
    } else {
        assert(e.len() == 0);
    }
}

/// `code_for` finds the first entry holding the given bytes: it finds
/// nothing exactly when no entry holds them, and otherwise the code of the
/// earliest one.
pub proof fn lemma_code_for_first(e: Seq<(Seq<u8>, u16)>, s: Seq<u8>)
    ensures
        code_for(e, s) is None <==> (forall|i: int| 0 <= i < e.len() ==> (#[trigger] e[i]).0 != s),
        forall|i: int|
            0 <= i < e.len() && (#[trigger] e[i]).0 == s && (forall|j: int|
                0 <= j < i ==> e[j].0 != s) ==> code_for(e, s) == Some(e[i].1),
    decreases e.len(),
{
    if e.len() > 0 {
        let d = e.drop_last();
        lemma_code_for_first(d, s);
        assert forall|i: int| 0 <= i < d.len() implies #[trigger] d[i] == e[i] by {}
        if code_for(d, s) is None && e.last().0 != s {
            assert forall|i: int| 0 <= i < e.len() implies (#[trigger] e[i]).0 != s by {
                if i < d.len() {
                    assert(d[i] == e[i]);
                }
            }
        }
        assert forall|i: int|
            0 <= i < e.len() && (#[trigger] e[i]).0 == s && (forall|j: int|
                0 <= j < i ==> e[j].0 != s) implies code_for(e, s) == Some(e[i].1) by {
            if i < d.len() {
                assert(d[i] == e[i]);
                assert(forall|j: int| 0 <= j < i ==> d[j].0 != s);
            } else {
                assert forall|j: int| 0 <= j < d.len() implies (#[trigger] d[j]).0 != s by {
                    assert(d[j] == e[j]);
                }
            }
        }
    }
}

/// `longest_prefix` in terms of lookups: it reports the longest non-empty
/// prefix of `data` that looks up to a code, with that code, or `(None, 0)`
/// when no non-empty prefix does.
pub proof fn lemma_longest_prefix_lookup(e: Seq<(Seq<u8>, u16)>, data: Seq<u8>)
    ensures
        longest_entry(e, data).1 <= data.len(),
        longest_entry(e, data).0 is None <==> longest_entry(e, data).1 == 0,
        longest_entry(e, data).1 > 0 ==> longest_entry(e, data).0 == code_for(
            e,
            data.take(longest_entry(e, data).1),
        ),
        forall|m: int|
            1 <= m <= data.len() && #[trigger] code_for(e, data.take(m)) is Some ==> m
                <= longest_entry(e, data).1,
{
    let kd = keys(e);
    crate::lzw_encode::lemma_best_match(kd, data, e.len() as int);
    assert forall|i: int| 0 <= i < e.len() implies #[trigger] kd[i] == e[i].0 by {}
    let r = longest_entry(e, data);
    assert forall|m: int|
        1 <= m <= data.len() && #[trigger] code_for(e, data.take(m)) is Some implies m <= r.1 by {
        lemma_code_for_first(e, data.take(m));
        let i = choose|i: int| 0 <= i < e.len() && (#[trigger] e[i]).0 == data.take(m);
        assert(kd[i] == data.take(m));
        assert(data.subrange(0, m) == data.take(m));
        assert(is_prefix_of(kd[i], data));
    }
    if let Some(k) = best_match(kd, data, e.len() as int) {
        let s = e[k].0;
        assert(kd[k] == s);
        assert(data.take(s.len() as int) == s);
        lemma_code_for_first(e, s);
        assert forall|j: int| 0 <= j < k implies e[j].0 != s by {
            if e[j].0 == s {
                assert(kd[j] == s);
                assert(is_prefix_of(kd[j], data));
            }
        }
    }
}

/// In a well-formed dictionary every non-empty input has a match of at least
/// one byte.
pub proof fn lemma_longest_prefix_nonempty(d: Dictionary, data: Seq<u8>)
    requires
        d.wf(),
        data.len() > 0,
    ensures
        longest_entry(d.spec_entries(), data).1 >= 1,
{
    let e = d.spec_entries();
    let kd = keys(e);
    crate::lzw_encode::lemma_best_match(kd, data, e.len() as int);
    let j = data[0] as int;
    assert(kd[j] == e[j].0);
    assert(e[j].0 == seq![data[0]]);
    assert(data.subrange(0, 1) =~= seq![data[0]]);
    assert(is_prefix_of(kd[j], data));
}

/// A simple dictionary mapping byte sequences to codes and back.
#[derive(Debug)]
pub struct Dictionary {
    /// Forward map: byte sequence to code.
    entries: Vec<(Vec<u8>, u16)>,
    /// Next code.
    next_code: u16,
}

impl Dictionary {
    /// The entries, in insertion order.
    pub closed spec fn spec_entries(&self) -> Seq<(Seq<u8>, u16)> {
        Seq::new(self.entries@.len(), |i: int| (self.entries@[i].0@, self.entries@[i].1))
    }

    /// The next code `add` hands out.
    pub closed spec fn spec_next_code(&self) -> u16 {
        self.next_code
    }

    /// Well-formedness: entry `i` carries code `i`, the next code is the
    /// number of entries, and the first 256 entries are the single bytes.
    pub open spec fn wf(&self) -> bool {
        &&& self.spec_next_code() == self.spec_entries().len()
        &&& self.spec_entries().len() >= 256
        &&& forall|i: int|
            0 <= i < self.spec_entries().len() ==> (#[trigger] self.spec_entries()[i]).1 == i
        &&& forall|i: int| 0 <= i < 256 ==> (#[trigger] self.spec_entries()[i]).0 == seq![i as u8]
    }

    /// The entries of a fresh dictionary.
    fn fresh_entries() -> (entries: Vec<(Vec<u8>, u16)>)
        ensures
            Seq::new(entries@.len(), |i: int| (entries@[i].0@, entries@[i].1)) == initial_pairs(),
    {
        let entries = initial_entries();
        proof {
            assert(entries_view(entries@).len() == initial_dict().len());
            assert(entries@.len() == 256);
            assert forall|i: int| 0 <= i < 256 implies (entries@[i].0@, entries@[i].1) == (
            #[trigger] initial_pairs()[i]) by {
                assert(entries_view(entries@)[i] == initial_dict()[i]);
                assert(entries@[i].1 == i);
            }
            assert(Seq::new(entries@.len(), |i: int| (entries@[i].0@, entries@[i].1))
                =~= initial_pairs());
        }
        entries
    }

    /// Create a new dictionary initialized with single-byte entries.
    pub fn new() -> (d: Self)
        ensures
            d.wf(),
            d.spec_entries() == initial_pairs(),
            d.spec_next_code() == 256,
    {
        Dictionary { entries: Self::fresh_entries(), next_code: 256 }
    }

    /// Look up a code by byte sequence.
    pub fn lookup(&self, seq: &[u8]) -> (r: Option<u16>)
        ensures
            r == code_for(self.spec_entries(), seq@),
    {
        let ghost e = self.spec_entries();
        let mut idx: usize = 0;
        while idx < self.entries.len()
            invariant
                idx <= e.len(),
                e == self.spec_entries(),
                code_for(e.take(idx as int), seq@) is None,
            decreases self.entries.len() - idx,
        {
            let entry = &self.entries[idx];
            proof {
                assert(e.take(idx + 1).drop_last() =~= e.take(idx as int));
                assert(e.take(idx + 1).last() == e[idx as int]);
            }
            if bytes_eq(entry.0.as_slice(), seq) {
                proof {
                    lemma_code_for_prefix(e, idx + 1, seq@);
                }
                return Some(entry.1);
            }
            idx += 1;
        }
        proof {
            assert(e.take(idx as int) =~= e);
        }
        None
    }

    /// Look up a byte sequence by code.
    pub fn lookup_code(&self, code: u16) -> (r: Option<&[u8]>)
        ensures
            r matches Some(s) ==> seq_for(self.spec_entries(), code) == Some(s@),
            r is None ==> seq_for(self.spec_entries(), code) is None,
    {
        let ghost e = self.spec_entries();
        let mut idx: usize = 0;
        while idx < self.entries.len()
            invariant
                idx <= e.len(),
                e == self.spec_entries(),
                seq_for(e.take(idx as int), code) is None,
            decreases self.entries.len() - idx,
        {
            let entry = &self.entries[idx];
            proof {
                assert(e.take(idx + 1).drop_last() =~= e.take(idx as int));
                assert(e.take(idx + 1).last() == e[idx as int]);
            }
            if entry.1 == code {
                proof {
                    lemma_seq_for_prefix(e, idx + 1, code);
                }
                return Some(entry.0.as_slice());
            }
            idx += 1;
        }
        proof {
            assert(e.take(idx as int) =~= e);
        }
        None
    }

    /// Add a new entry. Returns the assigned code.
    pub fn add(&mut self, seq: Vec<u8>) -> (code: u16)
        requires
            old(self).wf(),
            old(self).spec_next_code() < 65535,
        ensures
            final(self).wf(),
            code == old(self).spec_next_code(),
            final(self).spec_entries() == old(self).spec_entries().push((seq@, code)),
            final(self).spec_next_code() == old(self).spec_next_code() + 1,
            seq_for(final(self).spec_entries(), code) == Some(seq@),
            code_for(final(self).spec_entries(), seq@) == (match code_for(
                old(self).spec_entries(),
                seq@,
            ) {
                Some(c) => Some(c),
                None => Some(code),
            }),
            forall|t: Seq<u8>|
                t != seq@ ==> #[trigger] code_for(final(self).spec_entries(), t) == code_for(
                    old(self).spec_entries(),
                    t,
                ),
            forall|d: u16|
                d != code ==> #[trigger] seq_for(final(self).spec_entries(), d) == seq_for(
                    old(self).spec_entries(),
                    d,
                ),
    {
        let ghost before = self.spec_entries();
        let code = self.next_code;
        let ghost s = seq@;
        self.entries.push((seq, code));
        self.next_code += 1;
        proof {
            assert(self.spec_entries() =~= before.push((s, code)));
            assert forall|i: int| 0 <= i < before.len() implies (#[trigger] before[i]).1 != code by {}
            lemma_seq_for_absent(before, code);
            lemma_lookup_after_add(before, s, code, s, code);
            assert forall|t: Seq<u8>| t != s implies #[trigger] code_for(self.spec_entries(), t)
                == code_for(before, t) by {
                lemma_lookup_after_add(before, s, code, t, code);
            }
            assert forall|d: u16| d != code implies #[trigger] seq_for(self.spec_entries(), d)
                == seq_for(before, d) by {
                lemma_lookup_after_add(before, s, code, s, d);
            }
        }
        code
    }

    /// Number of entries.
    pub fn len(&self) -> (r: usize)
        ensures
            r == self.spec_entries().len(),
    {
        self.entries.len()
    }

    /// Whether the dictionary is empty.
    pub fn is_empty(&self) -> (r: bool)
        ensures
            r == (self.spec_entries().len() == 0),
    {
        self.entries.len() == 0
    }

    /// Next code to be assigned.
    pub fn next_code(&self) -> (r: u16)
        ensures
            r == self.spec_next_code(),
    {
        self.next_code
    }

    /// Reset to initial state.
    pub fn reset(&mut self)
        ensures
            final(self).wf(),
            final(self).spec_entries() == initial_pairs(),
            final(self).spec_next_code() == 256,
    {
        self.entries = Self::fresh_entries();
        self.next_code = 256;
    }

    /// Find the longest prefix of `data` in the dictionary.
    ///
    /// Returns `(code, match_length)`.
    pub fn longest_prefix(&self, data: &[u8]) -> (r: (Option<u16>, usize))
        ensures
            r.0 == longest_entry(self.spec_entries(), data@).0,
            r.1 == longest_entry(self.spec_entries(), data@).1,
    {
        let ghost e = self.spec_entries();
        proof {
            assert(entries_view(self.entries@) =~= keys(e));
            assert(data@.skip(0) =~= data@);
            crate::lzw_encode::lemma_best_match(keys(e), data@, e.len() as int);
        }
        let (best_idx, best_len) = longest_match(&self.entries, data, 0);
        match best_idx {
            Some(idx) => (Some(self.entries[idx].1), best_len),
            None => (None, best_len),
        }
    }
}

impl Clone for Dictionary {
    fn clone(&self) -> (r: Self)
        ensures
            r.spec_entries() == self.spec_entries(),
            r.spec_next_code() == self.spec_next_code(),
            self.wf() ==> r.wf(),
    {
        let mut entries: Vec<(Vec<u8>, u16)> = Vec::new();
        let mut i: usize = 0;
        while i < self.entries.len()
            invariant
                i <= self.entries@.len(),
                entries@.len() == i,
                forall|j: int|
                    0 <= j < i ==> (#[trigger] entries@[j]).0@ == self.entries@[j].0@
                        && entries@[j].1 == self.entries@[j].1,
            decreases self.entries.len() - i,
        {
            let entry = &self.entries[i];
            entries.push((copy_bytes(entry.0.as_slice()), entry.1));
            i += 1;
        }
        let r = Dictionary { entries, next_code: self.next_code };
        proof {
            assert(r.spec_entries() =~= self.spec_entries());
        }
        r
    }
}

impl Default for Dictionary {
    fn default() -> (d: Self)
        ensures
            d.wf(),
            d.spec_entries() == initial_pairs(),
            d.spec_next_code() == 256,
    {
        Self::new()
    }
}

} // verus!
