//! LZW encoding (compress) and 12-bit code packing.

use vstd::prelude::*;
use crate::bytes::{is_prefix_of, copy_bytes, matches_at};
use crate::lzw_table::LzwTable;

verus! {

/// The 256 single-byte entries every LZW dictionary starts with; entry `i`
/// is the byte `i`, and its code is its index.
pub open spec fn initial_dict() -> Seq<Seq<u8>> {
    Seq::new(256, |i: int| seq![i as u8])
}

/// A dictionary whose first 256 entries are the single bytes and whose
/// entries are all non-empty.
pub open spec fn dict_wf(dict: Seq<Seq<u8>>) -> bool {
    &&& dict.len() >= 256
    &&& forall|i: int| 0 <= i < 256 ==> #[trigger] dict[i] == seq![i as u8]
    &&& forall|i: int| 0 <= i < dict.len() ==> (#[trigger] dict[i]).len() > 0
}

/// Length of the entry selected by `best` (zero when nothing is selected).
pub open spec fn match_len(dict: Seq<Seq<u8>>, best: Option<int>) -> int {
    match best {
        Some(i) => dict[i].len() as int,
        None => 0,
    }
}

/// The longest non-empty entry among the first `n` entries of `dict` that is
/// a prefix of `rest`; among entries of equal length the earliest one wins.
pub open spec fn best_match(dict: Seq<Seq<u8>>, rest: Seq<u8>, n: int) -> Option<int>
    decreases n,
{
    if n <= 0 {
        None
    } else {
        let prev = best_match(dict, rest, n - 1);
        if dict[n - 1].len() > match_len(dict, prev) && is_prefix_of(dict[n - 1], rest) {
            Some(n - 1)
        } else {
            prev
        }
    }
}

/// The selected entry is a non-empty prefix of `rest`, no entry that is a
/// prefix is longer, and every earlier prefix entry is strictly shorter.
pub proof fn lemma_best_match(dict: Seq<Seq<u8>>, rest: Seq<u8>, n: int)
    requires
        0 <= n <= dict.len(),
    ensures
        best_match(dict, rest, n) matches Some(k) ==> {
            &&& 0 <= k < n
            &&& dict[k].len() > 0
            &&& is_prefix_of(dict[k], rest)
        },
        forall|j: int|
            0 <= j < n && dict[j].len() > 0 && #[trigger] is_prefix_of(dict[j], rest) ==> {
                &&& best_match(dict, rest, n) is Some
                &&& dict[j].len() <= match_len(dict, best_match(dict, rest, n))
                &&& j < best_match(dict, rest, n)->0 ==> dict[j].len() < match_len(
                    dict,
                    best_match(dict, rest, n),
                )
            },
    decreases n,
{
    if n > 0 {
        lemma_best_match(dict, rest, n - 1);
    }
}

/// With a well-formed dictionary a non-empty input always has a match.
pub proof fn lemma_best_match_exists(dict: Seq<Seq<u8>>, rest: Seq<u8>)
    requires
        dict_wf(dict),
        rest.len() > 0,
    ensures
        best_match(dict, rest, dict.len() as int) is Some,
{
    lemma_best_match(dict, rest, dict.len() as int);
    let j = rest[0] as int;
    assert(dict[j] == seq![rest[0]]);
    assert(rest.subrange(0, 1) =~= seq![rest[0]]);
    assert(is_prefix_of(dict[j], rest));
}

/// The codes LZW emits for `rest` when the dictionary currently is `dict`:
/// emit the code of the longest match, add the match extended by the next
/// byte to the dictionary, and continue after the match.
pub open spec fn encode_from(dict: Seq<Seq<u8>>, rest: Seq<u8>) -> Seq<u16>
    decreases rest.len(),
{
    if rest.len() == 0 {
        Seq::empty()
    } else {
        match best_match(dict, rest, dict.len() as int) {
            Some(k) => {
                proof {
                    lemma_best_match(dict, rest, dict.len() as int);
                }
                let m = dict[k];
                if m.len() < rest.len() {
                    seq![k as u16] + encode_from(
                        dict.push(m.push(rest[m.len() as int])),
                        rest.skip(m.len() as int),
                    )
                } else {
                    seq![k as u16]
                }
            },
            None => seq![rest[0] as u16] + encode_from(dict, rest.skip(1)),
        }
    }
}

/// The LZW code sequence of `data`.
pub open spec fn encoded(data: Seq<u8>) -> Seq<u16> {
    encode_from(initial_dict(), data)
}

/// The byte contents of a list of dictionary entries.
pub open spec fn entries_view(entries: Seq<(Vec<u8>, u16)>) -> Seq<Seq<u8>> {
    Seq::new(entries.len(), |i: int| entries[i].0@)
}

/// The 256 single-byte entries, each with its own byte value as code.
pub(crate) fn initial_entries() -> (dict: Vec<(Vec<u8>, u16)>)
    ensures
        entries_view(dict@) == initial_dict(),
        forall|i: int| 0 <= i < dict@.len() ==> (#[trigger] dict@[i]).1 == i,
{
    let mut dict: Vec<(Vec<u8>, u16)> = Vec::new();
    let mut i: u16 = 0;
    while i < 256
        invariant
            i <= 256,
            dict@.len() == i,
            forall|j: int| 0 <= j < i ==> (#[trigger] dict@[j]).0@ == seq![j as u8],
            forall|j: int| 0 <= j < i ==> (#[trigger] dict@[j]).1 == j,
        decreases 256 - i,
    {
        let mut entry: Vec<u8> = Vec::new();
        entry.push(i as u8);
        dict.push((entry, i));
        i += 1;
    }
    assert(entries_view(dict@) =~= initial_dict());
    dict
}

/// Find the longest entry of `dict` that occurs in `data` at `pos`.
pub(crate) fn longest_match(dict: &Vec<(Vec<u8>, u16)>, data: &[u8], pos: usize) -> (r: (Option<usize>, usize))
    requires
        pos <= data@.len(),
    ensures
        r.0 matches Some(i) ==> best_match(
            entries_view(dict@),
            data@.skip(pos as int),
            dict@.len() as int,
        ) == Some(i as int),
        r.0 is None ==> best_match(entries_view(dict@), data@.skip(pos as int), dict@.len() as int)
            is None,
        r.1 == match_len(
            entries_view(dict@),
            best_match(entries_view(dict@), data@.skip(pos as int), dict@.len() as int),
        ),
{
    let ghost dv = entries_view(dict@);
    let ghost rest = data@.skip(pos as int);
    let mut best_idx: Option<usize> = None;
    let mut best_len: usize = 0;
    let mut idx: usize = 0;
    while idx < dict.len()
        invariant
            idx <= dict@.len(),
            pos <= data@.len(),
            dv == entries_view(dict@),
            rest == data@.skip(pos as int),
            best_idx matches Some(i) ==> best_match(dv, rest, idx as int) == Some(i as int),
            best_idx is None ==> best_match(dv, rest, idx as int) is None,
            best_len == match_len(dv, best_match(dv, rest, idx as int)),
        decreases dict.len() - idx,
    {
        let entry = &dict[idx].0;
        assert(entry@ == dv[idx as int]);
        if entry.len() > best_len {
            if matches_at(data, pos, entry.as_slice()) {
                best_idx = Some(idx);
                best_len = entry.len();
            }
        }
        idx += 1;
    }
    (best_idx, best_len)
}

/// LZW-encode a byte slice into a vector of codes.
///
/// Uses variable-width codes starting at 9 bits, growing up to 16 bits.
/// No special clear/EOF codes are emitted (simplified LZW).
///
/// 1. Initialize dictionary with single-byte entries (0-255).
/// 2. Read input bytes, building the longest match in the dictionary.
/// 3. When no match, emit the code for the current prefix, add the new
///    prefix+byte to the dictionary, and start fresh from the current byte.
///
/// The code table counts codes in 16 bits and cannot move past code 65535,
/// so at most 65280 codes (one per added entry, plus the last) can be produced.
pub fn encode(data: &[u8]) -> (codes: Vec<u16>)
    requires
        encoded(data@).len() <= 65280,
    ensures
        codes@ == encoded(data@),
{
    if data.len() == 0 {
        return Vec::new();
    }
    let mut table = LzwTable::new(false);
    let mut dict = initial_entries();
    let mut codes: Vec<u16> = Vec::new();
    let mut pos: usize = 0;
    assert(data@.skip(0) =~= data@);

    while pos < data.len()
        invariant
            pos <= data@.len(),
            dict_wf(entries_view(dict@)),
            forall|i: int| 0 <= i < dict@.len() ==> (#[trigger] dict@[i]).1 == i,
            table.wf(),
            table@.max_code == 65535,
            table@.next_code == dict@.len(),
            pos < data@.len() ==> dict@.len() == 256 + codes@.len(),
            codes@ + encode_from(entries_view(dict@), data@.skip(pos as int)) == encoded(data@),
            encoded(data@).len() <= 65280,
        decreases data.len() - pos,
    {
        let ghost dv = entries_view(dict@);
        let ghost rest = data@.skip(pos as int);
        proof {
            lemma_best_match(dv, rest, dv.len() as int);
            lemma_best_match_exists(dv, rest);
        }
        let (best_idx, best_len) = longest_match(&dict, data, pos);
        match best_idx {
            Some(idx) => {
                let ghost m = dv[idx as int];
                codes.push(dict[idx].1);
                let match_end = pos + best_len;
                if match_end < data.len() {
                    let ghost next_dv = dv.push(m.push(rest[m.len() as int]));
                    // Add new entry: matched sequence + next byte
                    let mut new_entry = copy_bytes(dict[idx].0.as_slice());
                    new_entry.push(data[match_end]);
                    proof {
                        assert(rest[m.len() as int] == data@[match_end as int]);
                        assert(encode_from(dv, rest) == seq![idx as u16] + encode_from(
                            next_dv,
                            rest.skip(m.len() as int),
                        ));
                        assert(rest.skip(m.len() as int).len() > 0);
                        assert(encode_from(next_dv, rest.skip(m.len() as int)).len() > 0);
                    }
                    if let Some(code) = table.alloc_code() {
                        dict.push((new_entry, code));
                    }
                    proof {
                        assert(entries_view(dict@) =~= next_dv);
                        assert(data@.skip((pos + best_len) as int) =~= rest.skip(m.len() as int));
                    }
                } else {
                    proof {
                        assert(data@.skip((pos + best_len) as int) =~= Seq::<u8>::empty());
                    }
                }
                pos += best_len;
            },
            None => {
                // Single byte (should always match from initial dict)
                codes.push(data[pos] as u16);
                pos += 1;
            },
        }
    }
    proof {
        assert(data@.skip(pos as int) =~= Seq::<u8>::empty());
    }
    codes
}

} // verus!

verus! {

/// The three bytes that hold two 12-bit codes (each code keeps its low 12 bits).
pub open spec fn pack_pair(a: u16, b: u16) -> Seq<u8> {
    let a = a & 0x0FFF;
    let b = b & 0x0FFF;
    seq![(a >> 4) as u8, (((a & 0x0F) << 4) | (b >> 8)) as u8, (b & 0xFF) as u8]
}

/// The two bytes that hold a trailing 12-bit code, padded with four zero bits.
pub open spec fn pack_single(a: u16) -> Seq<u8> {
    let a = a & 0x0FFF;
    seq![(a >> 4) as u8, ((a & 0x0F) << 4) as u8]
}

/// The 12-bit packing of `codes`: three bytes per pair, two for a last odd code.
pub open spec fn packed12(codes: Seq<u16>) -> Seq<u8>
    decreases codes.len(),
{
    if codes.len() >= 2 {
        pack_pair(codes[0], codes[1]) + packed12(codes.skip(2))
    } else if codes.len() == 1 {
        pack_single(codes[0])
    } else {
        Seq::empty()
    }
}

/// The code held in the first byte and the high half of the second byte.
pub open spec fn high_code(x: u8, y: u8) -> u16 {
    ((x as u16) << 4) | ((y as u16) >> 4)
}

/// The code held in the low half of the second byte and the third byte.
pub open spec fn low_code(y: u8, z: u8) -> u16 {
    (((y as u16) & 0x0F) << 8) | (z as u16)
}

/// The codes read back from 12-bit packed bytes: two per full group of three
/// bytes, one for a trailing group of two, nothing for a trailing single byte.
pub open spec fn unpacked12(data: Seq<u8>) -> Seq<u16>
    decreases data.len(),
{
    if data.len() >= 3 {
        seq![high_code(data[0], data[1]), low_code(data[1], data[2])] + unpacked12(data.skip(3))
    } else if data.len() == 2 {
        seq![high_code(data[0], data[1])]
    } else {
        Seq::empty()
    }
}

proof fn lemma_packed12_skip(codes: Seq<u16>, i: int)
    requires
        0 <= i,
        i + 2 <= codes.len(),
    ensures
        packed12(codes.skip(i)) == pack_pair(codes[i], codes[i + 1]) + packed12(codes.skip(i + 2)),
{
    assert(codes.skip(i).skip(2) =~= codes.skip(i + 2));
}

proof fn lemma_unpacked12_skip(data: Seq<u8>, i: int)
    requires
        0 <= i,
        i + 3 <= data.len(),
    ensures
        unpacked12(data.skip(i)) == seq![
            high_code(data[i], data[i + 1]),
            low_code(data[i + 1], data[i + 2]),
        ] + unpacked12(data.skip(i + 3)),
{
    assert(data.skip(i).skip(3) =~= data.skip(i + 3));
}

/// Encode to packed bytes (12-bit fixed-width codes).
///
/// Each pair of codes is packed into 3 bytes (2 x 12 bits).
/// If odd number of codes, the last code is stored in the remaining 12 bits
/// of a 2-byte group (padded).
pub fn encode_packed12(data: &[u8]) -> (out: Vec<u8>)
    requires
        encoded(data@).len() <= 65280,
    ensures
        out@ == packed12(encoded(data@)),
{
    let codes = encode(data);
    pack_codes_12bit(codes.as_slice())
}

/// Pack u16 codes (assumed <= 4095) into bytes using 12-bit packing; only the
/// low 12 bits of each code are kept.
pub fn pack_codes_12bit(codes: &[u16]) -> (out: Vec<u8>)
    ensures
        out@ == packed12(codes@),
{
    let mut out: Vec<u8> = Vec::new();
    let mut i: usize = 0;
    assert(codes@.skip(0) =~= codes@);
    while i < codes.len() && codes.len() - i > 1
        invariant
            i <= codes@.len(),
            out@ + packed12(codes@.skip(i as int)) == packed12(codes@),
        decreases codes.len() - i,
    {
        let a = codes[i] & 0x0FFF;
        let b = codes[i + 1] & 0x0FFF;
        proof {
            lemma_packed12_skip(codes@, i as int);
        }
        out.push((a >> 4) as u8);
        out.push((((a & 0x0F) << 4) | (b >> 8)) as u8);
        out.push((b & 0xFF) as u8);
        i += 2;
    }
    if i < codes.len() {
        let a = codes[i] & 0x0FFF;
        proof {
            assert(codes@.skip(i as int).len() == 1);
        }
        out.push((a >> 4) as u8);
        out.push(((a & 0x0F) << 4) as u8);
    } else {
        assert(codes@.skip(i as int) =~= Seq::<u16>::empty());
    }
    out
}

/// Unpack 12-bit packed bytes back to codes.
pub fn unpack_codes_12bit(data: &[u8]) -> (codes: Vec<u16>)
    ensures
        codes@ == unpacked12(data@),
{
    let mut codes: Vec<u16> = Vec::new();
    let mut i: usize = 0;
    assert(data@.skip(0) =~= data@);
    while i < data.len() && data.len() - i > 2
        invariant
            i <= data@.len(),
            codes@ + unpacked12(data@.skip(i as int)) == unpacked12(data@),
        decreases data.len() - i,
    {
        let a = ((data[i] as u16) << 4) | ((data[i + 1] as u16) >> 4);
        let b = ((data[i + 1] as u16 & 0x0F) << 8) | (data[i + 2] as u16);
        proof {
            lemma_unpacked12_skip(data@, i as int);
        }
        codes.push(a);
        codes.push(b);
        i += 3;
    }
    // Handle remaining bytes (single code)
    if i < data.len() && data.len() - i > 1 {
        let a = ((data[i] as u16) << 4) | ((data[i + 1] as u16) >> 4);
        proof {
            assert(data@.skip(i as int).len() == 2);
        }
        codes.push(a);
    } else {
        assert(data@.skip(i as int).len() < 2);
    }
    codes
}

} // verus!
