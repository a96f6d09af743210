//! Laws relating compression and decompression.

use vstd::prelude::*;
use crate::bytes::is_prefix_of;
use crate::lzw_encode::{
    initial_dict, dict_wf, best_match, lemma_best_match, lemma_best_match_exists, encode_from,
    encoded, pack_pair, pack_single, packed12, high_code, low_code, unpacked12,
};
use crate::lzw_decode::{decode_entry, next_entry, decode_from, decoded, decode_fits, valid_run};

verus! {

/// The starting dictionary is well formed.
pub proof fn lemma_initial_dict_wf()
    ensures
        dict_wf(initial_dict()),
{
    assert forall|i: int| 0 <= i < initial_dict().len() implies (#[trigger] initial_dict()[i]).len()
        > 0 by {
        assert(initial_dict()[i] == seq![i as u8]);
    }
}

/// A non-empty prefix starts with the first byte of the sequence.
proof fn lemma_prefix_first(m: Seq<u8>, s: Seq<u8>)
    requires
        m.len() > 0,
        is_prefix_of(m, s),
    ensures
        m[0] == s[0],
        s.len() > 0,
{
    assert(s.subrange(0, m.len() as int)[0] == s[0]);
}

/// Each emitted code consumes at least one byte of input, so LZW never
/// produces more codes than there are input bytes.
pub proof fn lemma_encode_from_len(dict: Seq<Seq<u8>>, rest: Seq<u8>)
    ensures
        encode_from(dict, rest).len() <= rest.len(),
    decreases rest.len(),
{
    if rest.len() > 0 {
        lemma_best_match(dict, rest, dict.len() as int);
        match best_match(dict, rest, dict.len() as int) {
            Some(k) => {
                let m = dict[k];
                if m.len() < rest.len() {
                    lemma_encode_from_len(
                        dict.push(m.push(rest[m.len() as int])),
                        rest.skip(m.len() as int),
                    );
                }
            },
            None => {
                lemma_encode_from_len(dict, rest.skip(1));
            },
        }
    }
}

/// LZW emits no more codes than the input has bytes.
pub proof fn lemma_encoded_len(data: Seq<u8>)
    ensures
        encoded(data).len() <= data.len(),
{
    lemma_encode_from_len(initial_dict(), data);
}

/// Code `i` of the output names an entry that already existed: it is below
/// the dictionary size at that point, `dict.len() + i`.
pub proof fn lemma_encode_from_codes_bound(dict: Seq<Seq<u8>>, rest: Seq<u8>)
    requires
        dict_wf(dict),
        dict.len() + encode_from(dict, rest).len() <= 65537,
    ensures
        forall|i: int|
            0 <= i < encode_from(dict, rest).len() ==> (#[trigger] encode_from(dict, rest)[i]) < dict.len()
                + i,
    decreases rest.len(),
{
    if rest.len() > 0 {
        lemma_best_match(dict, rest, dict.len() as int);
        lemma_best_match_exists(dict, rest);
        let k = best_match(dict, rest, dict.len() as int)->0;
        let m = dict[k];
        let codes = encode_from(dict, rest);
        if m.len() < rest.len() {
            let next = dict.push(m.push(rest[m.len() as int]));
            let tail = encode_from(next, rest.skip(m.len() as int));
            assert(codes == seq![k as u16] + tail);
            lemma_encode_from_codes_bound(next, rest.skip(m.len() as int));
            assert forall|i: int| 0 <= i < codes.len() implies (#[trigger] codes[i]) < dict.len()
                + i by {
                if i > 0 {
                    assert(codes[i] == tail[i - 1]);
                }
            }
        }
    }
}

/// Every LZW code of `data` is smaller than 256 plus its position.
pub proof fn lemma_encoded_codes_bound(data: Seq<u8>)
    requires
        encoded(data).len() <= 65280,
    ensures
        forall|i: int| 0 <= i < encoded(data).len() ==> (#[trigger] encoded(data)[i]) < 256 + i,
{
    lemma_initial_dict_wf();
    lemma_encode_from_codes_bound(initial_dict(), data);
}

/// Decoding the codes of `rest` from the table one entry behind the encoder's
/// dictionary, with the previous match as the previous string, gives back
/// `rest`; every code is accepted.
proof fn lemma_decode_encode_from(
    dict: Seq<Seq<u8>>,
    rest: Seq<u8>,
    table: Seq<Seq<u8>>,
    prev: Seq<u8>,
)
    requires
        dict_wf(dict),
        rest.len() > 0,
        prev.len() > 0,
        dict == table.push(prev.push(rest[0])),
        dict.len() + encode_from(dict, rest).len() <= 65537,
    ensures
        decode_from(table, prev, encode_from(dict, rest)) == rest,
        valid_run(encode_from(dict, rest), table.len() as int) == encode_from(dict, rest).len(),
    decreases rest.len(),
{
    lemma_best_match(dict, rest, dict.len() as int);
    lemma_best_match_exists(dict, rest);
    let k = best_match(dict, rest, dict.len() as int)->0;
    let m = dict[k];
    let codes = encode_from(dict, rest);
    lemma_prefix_first(m, rest);
    assert(codes[0] == k as u16);
    assert(codes[0] as int == k);
    // The decoder reconstructs the entry the encoder matched.
    if k == table.len() {
        assert(m == prev.push(rest[0]));
        assert(m[0] == prev[0]);
        assert(prev.push(prev[0]) == m);
    } else {
        assert(table[k] == m);
    }
    assert(table.push(prev.push(m[0])) == dict);
    assert(rest.subrange(0, m.len() as int) == m);
    assert(decode_entry(table, prev, codes[0] as int) == m);
    assert(next_entry(prev, m) == prev.push(m[0]));
    assert(decode_from(table, prev, codes) == m + decode_from(dict, m, codes.drop_first()));
    assert(valid_run(codes, table.len() as int) == 1 + valid_run(codes.drop_first(), dict.len() as int));
    if m.len() < rest.len() {
        let next = dict.push(m.push(rest[m.len() as int]));
        let rest2 = rest.skip(m.len() as int);
        assert(codes == seq![k as u16] + encode_from(next, rest2));
        assert(codes.drop_first() == encode_from(next, rest2));
        assert forall|i: int| 0 <= i < next.len() implies (#[trigger] next[i]).len() > 0 by {
            if i < dict.len() {
                assert(next[i] == dict[i]);
            }
        }
        assert(forall|i: int| 0 <= i < 256 ==> #[trigger] next[i] == dict[i]);
        assert(rest2[0] == rest[m.len() as int]);
        lemma_decode_encode_from(next, rest2, dict, m);
        assert(m + rest2 =~= rest);
    } else {
        assert(codes == seq![k as u16]);
        assert(codes.drop_first() =~= Seq::<u16>::empty());
        assert(m + Seq::<u8>::empty() =~= rest);
    }
}

/// Decompression inverts compression: for every input on which `encode`
/// runs, `decode` accepts its codes and gives the input back.
pub proof fn lemma_lzw_roundtrip(data: Seq<u8>)
    requires
        encoded(data).len() <= 65280,
    ensures
        decode_fits(encoded(data)),
        decoded(encoded(data)) == data,
{
    let init = initial_dict();
    let codes = encoded(data);
    lemma_initial_dict_wf();
    if data.len() > 0 {
        lemma_best_match(init, data, 256);
        lemma_best_match_exists(init, data);
        let k = best_match(init, data, 256)->0;
        let m = init[k];
        assert(m == seq![k as u8]);
        lemma_prefix_first(m, data);
        assert(m =~= seq![data[0]]);
        assert(codes[0] == k as u16);
        if data.len() > 1 {
            let next = init.push(m.push(data[1]));
            let rest = data.skip(1);
            assert(codes == seq![k as u16] + encode_from(next, rest));
            assert(codes.drop_first() == encode_from(next, rest));
            assert forall|i: int| 0 <= i < next.len() implies (#[trigger] next[i]).len() > 0 by {
                if i < init.len() {
                    assert(next[i] == init[i]);
                }
            }
            assert(forall|i: int| 0 <= i < 256 ==> #[trigger] next[i] == init[i]);
            assert(rest[0] == data[1]);
            assert(data.subrange(0, 1) == m);
            lemma_decode_encode_from(next, rest, init, m);
            assert(m + rest =~= data);
        } else {
            assert(codes == seq![k as u16]);
            assert(codes.drop_first() =~= Seq::<u16>::empty());
            assert(m + Seq::<u8>::empty() =~= data);
        }
    } else {
        assert(codes =~= Seq::<u16>::empty());
        assert(decoded(codes) =~= data);
    }
}

/// The bytes of a packed pair give back both codes' low 12 bits.
proof fn lemma_pack_pair_roundtrip(a: u16, b: u16)
    ensures
        high_code(pack_pair(a, b)[0], pack_pair(a, b)[1]) == a & 0x0FFF,
        low_code(pack_pair(a, b)[1], pack_pair(a, b)[2]) == b & 0x0FFF,
{
    let p = pack_pair(a, b);
    let x = p[0];
    let y = p[1];
    let z = p[2];
    assert(x == ((a & 0x0FFF) >> 4) as u8);
    assert(y == ((((a & 0x0FFF) & 0x0F) << 4) | ((b & 0x0FFF) >> 8)) as u8);
    assert(z == ((b & 0x0FFF) & 0xFF) as u8);
    assert(((x as u16) << 4) | ((y as u16) >> 4) == a & 0x0FFF) by (bit_vector)
        requires
            x == ((a & 0x0FFF) >> 4) as u8,
            y == ((((a & 0x0FFF) & 0x0F) << 4) | ((b & 0x0FFF) >> 8)) as u8,
    ;
    assert((((y as u16) & 0x0F) << 8) | (z as u16) == b & 0x0FFF) by (bit_vector)
        requires
            y == ((((a & 0x0FFF) & 0x0F) << 4) | ((b & 0x0FFF) >> 8)) as u8,
            z == ((b & 0x0FFF) & 0xFF) as u8,
    ;
}

/// The two bytes of a trailing packed code give back its low 12 bits.
proof fn lemma_pack_single_roundtrip(a: u16)
    ensures
        high_code(pack_single(a)[0], pack_single(a)[1]) == a & 0x0FFF,
{
    let p = pack_single(a);
    let x = p[0];
    let y = p[1];
    assert(x == ((a & 0x0FFF) >> 4) as u8);
    assert(y == (((a & 0x0FFF) & 0x0F) << 4) as u8);
    assert(((x as u16) << 4) | ((y as u16) >> 4) == a & 0x0FFF) by (bit_vector)
        requires
            x == ((a & 0x0FFF) >> 4) as u8,
            y == (((a & 0x0FFF) & 0x0F) << 4) as u8,
    ;
}

/// The low 12 bits of each code.
pub open spec fn low12(codes: Seq<u16>) -> Seq<u16> {
    codes.map_values(|c: u16| c & 0x0FFF)
}

/// Unpacking packed codes gives back the low 12 bits of every code.
pub proof fn lemma_pack_roundtrip(codes: Seq<u16>)
    ensures
        unpacked12(packed12(codes)) == low12(codes),
    decreases codes.len(),
{
    if codes.len() >= 2 {
        let p = pack_pair(codes[0], codes[1]);
        let rest = packed12(codes.skip(2));
        let bytes = packed12(codes);
        assert(bytes == p + rest);
        lemma_pack_pair_roundtrip(codes[0], codes[1]);
        lemma_pack_roundtrip(codes.skip(2));
        assert(bytes.len() >= 3);
        assert(bytes[0] == p[0] && bytes[1] == p[1] && bytes[2] == p[2]);
        assert(bytes.skip(3) =~= rest);
        assert(low12(codes) =~= seq![codes[0] & 0x0FFF, codes[1] & 0x0FFF] + low12(codes.skip(2)));
    } else if codes.len() == 1 {
        lemma_pack_single_roundtrip(codes[0]);
        assert(low12(codes) =~= seq![codes[0] & 0x0FFF]);
    } else {
        assert(low12(codes) =~= Seq::<u16>::empty());
    }
}

/// Codes that fit in 12 bits survive packing and unpacking unchanged.
pub proof fn lemma_pack_roundtrip_fits(codes: Seq<u16>)
    requires
        forall|i: int| 0 <= i < codes.len() ==> #[trigger] codes[i] <= 0x0FFF,
    ensures
        unpacked12(packed12(codes)) == codes,
{
    lemma_pack_roundtrip(codes);
    assert forall|i: int| 0 <= i < codes.len() implies #[trigger] low12(codes)[i] == codes[i] by {
        let c = codes[i];
        assert(c <= 0x0FFF ==> c & 0x0FFF == c) by (bit_vector);
    }
    assert(low12(codes) =~= codes);
}

/// Packed compression round-trips whenever every LZW code fits in 12 bits.
pub proof fn lemma_packed_lzw_roundtrip(data: Seq<u8>)
    requires
        encoded(data).len() <= 65280,
        forall|i: int| 0 <= i < encoded(data).len() ==> #[trigger] encoded(data)[i] <= 0x0FFF,
    ensures
        decode_fits(unpacked12(packed12(encoded(data)))),
        decoded(unpacked12(packed12(encoded(data)))) == data,
{
    lemma_pack_roundtrip_fits(encoded(data));
    lemma_lzw_roundtrip(data);
}

/// Inputs of at most 3841 codes only use codes that fit in 12 bits.
pub proof fn lemma_short_encoding_fits_12bit(data: Seq<u8>)
    requires
        encoded(data).len() <= 3841,
    ensures
        forall|i: int| 0 <= i < encoded(data).len() ==> #[trigger] encoded(data)[i] <= 0x0FFF,
{
    lemma_encoded_codes_bound(data);
}

/// Decoding stops at a code beyond the table's end: from that code on,
/// nothing more is produced.
proof fn lemma_decode_from_cut(table: Seq<Seq<u8>>, prev: Seq<u8>, codes: Seq<u16>, k: int)
    requires
        0 <= k < codes.len(),
        codes[k] as int > table.len() + k,
    ensures
        decode_from(table, prev, codes) == decode_from(table, prev, codes.take(k)),
    decreases k,
{
    let cut = codes.take(k);
    if k == 0 {
        assert(cut.len() == 0);
    } else {
        assert(cut[0] == codes[0]);
        if codes[0] as int <= table.len() {
            let entry = decode_entry(table, prev, codes[0] as int);
            let next = table.push(next_entry(prev, entry));
            assert(cut.drop_first() =~= codes.drop_first().take(k - 1));
            assert(codes.drop_first()[k - 1] == codes[k]);
            lemma_decode_from_cut(next, entry, codes.drop_first(), k - 1);
        }
    }
}

/// Decoding stops at the first code that names no entry yet: a code at
/// position `j` that is at least `256 + j` ends the output, so the codes
/// from `j` on contribute nothing.
pub proof fn lemma_decode_stops(codes: Seq<u16>, j: int)
    requires
        0 <= j < codes.len(),
        codes[j] as int >= 256 + j,
    ensures
        decoded(codes) == decoded(codes.take(j)),
{
    let cut = codes.take(j);
    if j == 0 {
        assert(cut.len() == 0);
    } else {
        assert(cut[0] == codes[0]);
        if codes[0] < 256 {
            assert(cut.drop_first() =~= codes.drop_first().take(j - 1));
            assert(codes.drop_first()[j - 1] == codes[j]);
            lemma_decode_from_cut(
                initial_dict(),
                initial_dict()[codes[0] as int],
                codes.drop_first(),
                j - 1,
            );
        }
    }
}

/// Codes read from packed bytes: two per full group of three bytes, one for
/// a trailing pair, and every code fits in 12 bits.
pub proof fn lemma_unpacked12_shape(data: Seq<u8>)
    ensures
        unpacked12(data).len() == 2 * (data.len() / 3) + (if data.len() % 3 == 2 {
            1int
        } else {
            0
        }),
        forall|i: int| 0 <= i < unpacked12(data).len() ==> #[trigger] unpacked12(data)[i] <= 0x0FFF,
    decreases data.len(),
{
    if data.len() >= 3 {
        let (x, y, z) = (data[0], data[1], data[2]);
        assert(high_code(x, y) <= 0x0FFF) by (bit_vector);
        assert(low_code(y, z) <= 0x0FFF) by (bit_vector);
        lemma_unpacked12_shape(data.skip(3));
        let u = unpacked12(data);
        let rest = unpacked12(data.skip(3));
        assert(u == seq![high_code(x, y), low_code(y, z)] + rest);
        assert forall|i: int| 0 <= i < u.len() implies #[trigger] u[i] <= 0x0FFF by {
            if i >= 2 {
                assert(u[i] == rest[i - 2]);
            }
        }
    } else if data.len() == 2 {
        let (x, y) = (data[0], data[1]);
        assert(high_code(x, y) <= 0x0FFF) by (bit_vector);
    }
}

/// Packing a group of three bytes read as two codes gives the bytes back.
proof fn lemma_repack_triple(x: u8, y: u8, z: u8)
    ensures
        pack_pair(high_code(x, y), low_code(y, z)) == seq![x, y, z],
{
    let h = high_code(x, y);
    let l = low_code(y, z);
    assert(((h & 0x0FFF) >> 4) as u8 == x) by (bit_vector)
        requires
            h == ((x as u16) << 4) | ((y as u16) >> 4),
    ;
    assert((((h & 0x0FFF) & 0x0F) << 4 | ((l & 0x0FFF) >> 8)) as u8 == y) by (bit_vector)
        requires
            h == ((x as u16) << 4) | ((y as u16) >> 4),
            l == (((y as u16) & 0x0F) << 8) | (z as u16),
    ;
    assert(((l & 0x0FFF) & 0xFF) as u8 == z) by (bit_vector)
        requires
            l == (((y as u16) & 0x0F) << 8) | (z as u16),
    ;
    assert(pack_pair(h, l) =~= seq![x, y, z]);
}

/// Packing a trailing pair of bytes read as one code gives the first byte
/// back and the high half of the second.
proof fn lemma_repack_pair(x: u8, y: u8)
    ensures
        pack_single(high_code(x, y)) == seq![x, y & 0xF0],
{
    let h = high_code(x, y);
    assert(((h & 0x0FFF) >> 4) as u8 == x) by (bit_vector)
        requires
            h == ((x as u16) << 4) | ((y as u16) >> 4),
    ;
    assert((((h & 0x0FFF) & 0x0F) << 4) as u8 == y & 0xF0) by (bit_vector)
        requires
            h == ((x as u16) << 4) | ((y as u16) >> 4),
    ;
    assert(pack_single(h) =~= seq![x, y & 0xF0]);
}

/// The bytes that survive unpacking and repacking: a trailing single byte is
/// dropped, and the low four bits of a trailing pair's last byte are cleared.
pub open spec fn repacked_form(data: Seq<u8>) -> Seq<u8> {
    if data.len() % 3 == 1 {
        data.drop_last()
    } else if data.len() % 3 == 2 {
        data.drop_last().push(data.last() & 0xF0)
    } else {
        data
    }
}

/// Repacking the codes read from packed bytes gives the bytes back, up to a
/// dropped trailing byte or the cleared padding bits of a trailing pair.
pub proof fn lemma_repack(data: Seq<u8>)
    ensures
        packed12(unpacked12(data)) == repacked_form(data),
    decreases data.len(),
{
    if data.len() >= 3 {
        let (x, y, z) = (data[0], data[1], data[2]);
        let rest = data.skip(3);
        let u = unpacked12(data);
        let ur = unpacked12(rest);
        assert(u == seq![high_code(x, y), low_code(y, z)] + ur);
        assert(u.len() >= 2);
        assert(u.skip(2) =~= ur);
        assert(packed12(u) == pack_pair(u[0], u[1]) + packed12(u.skip(2)));
        lemma_repack_triple(x, y, z);
        lemma_repack(rest);
        assert(rest.len() % 3 == data.len() % 3);
        assert(data =~= seq![x, y, z] + rest);
        if rest.len() % 3 == 1 {
            assert(repacked_form(data) =~= seq![x, y, z] + rest.drop_last());
        } else if rest.len() % 3 == 2 {
            assert(data.last() == rest.last());
            assert(repacked_form(data) =~= seq![x, y, z] + rest.drop_last().push(rest.last() & 0xF0));
        } else {
            assert(repacked_form(data) =~= seq![x, y, z] + rest);
        }
    } else if data.len() == 2 {
        lemma_repack_pair(data[0], data[1]);
        assert(repacked_form(data) =~= seq![data[0], data[1] & 0xF0]);
    } else if data.len() == 1 {
        assert(repacked_form(data) =~= Seq::<u8>::empty());
    } else {
        assert(repacked_form(data) =~= data);
    }
}

/// The dictionary after `j` steps of a parse of `data` at the cut points
/// `p`: the starting entries, then for each earlier step the piece it
/// consumed extended by the byte that follows it.
pub open spec fn grown_dict(init: Seq<Seq<u8>>, data: Seq<u8>, p: Seq<int>, j: int) -> Seq<
    Seq<u8>,
> {
    init + Seq::new(j as nat, |i: int| data.subrange(p[i], p[i + 1] + 1))
}

/// Step `j` of a parse is greedy: its code names, in the dictionary of that
/// moment, exactly the piece `data[p[j]..p[j + 1]]`; no entry of that
/// dictionary that is a prefix of the remaining input is longer; and no
/// earlier entry holds the same bytes.
pub open spec fn greedy_step(
    init: Seq<Seq<u8>>,
    data: Seq<u8>,
    codes: Seq<u16>,
    p: Seq<int>,
    j: int,
) -> bool {
    let d = grown_dict(init, data, p, j);
    let c = codes[j] as int;
    &&& 0 <= c < d.len()
    &&& d[c] == data.subrange(p[j], p[j + 1])
    &&& forall|i: int|
        0 <= i < d.len() && #[trigger] is_prefix_of(d[i], data.skip(p[j])) ==> d[i].len() <= p[j
            + 1] - p[j]
    &&& forall|i: int| 0 <= i < c ==> #[trigger] d[i] != d[c]
}

/// `codes` is the greedy longest-match parse of `data[p[0]..]` starting from
/// the dictionary `init`: the cut points `p` rise strictly to the end of the
/// input and every step is greedy.
pub open spec fn is_greedy_parse(
    init: Seq<Seq<u8>>,
    data: Seq<u8>,
    codes: Seq<u16>,
    p: Seq<int>,
) -> bool {
    &&& p.len() == codes.len() + 1
    &&& p[codes.len() as int] == data.len()
    &&& forall|j: int| 0 <= j < codes.len() ==> #[trigger] p[j] < p[j + 1]
    &&& forall|j: int| 0 <= j < codes.len() ==> #[trigger] greedy_step(init, data, codes, p, j)
}

/// From dictionary `dict` at input position `s`, the codes LZW emits form a
/// greedy parse of the rest of the input; the cut points are returned.
proof fn lemma_greedy_from(dict: Seq<Seq<u8>>, data: Seq<u8>, s: int) -> (p: Seq<int>)
    requires
        dict_wf(dict),
        0 <= s <= data.len(),
        dict.len() + encode_from(dict, data.skip(s)).len() <= 65537,
    ensures
        p.len() > 0,
        p[0] == s,
        is_greedy_parse(dict, data, encode_from(dict, data.skip(s)), p),
    decreases data.len() - s,
{
    let rest = data.skip(s);
    let codes = encode_from(dict, rest);
    if s == data.len() {
        assert(rest.len() == 0);
        let p = seq![s];
        assert(codes.len() == 0);
        p
    } else {
        lemma_best_match(dict, rest, dict.len() as int);
        lemma_best_match_exists(dict, rest);
        let k = best_match(dict, rest, dict.len() as int)->0;
        let m = dict[k];
        let l = m.len() as int;
        assert(rest.subrange(0, l) == m);
        assert(data.subrange(s, s + l) =~= m);
        assert(codes[0] == k as u16);
        assert(codes[0] as int == k);
        // The first step is greedy in `dict`.
        assert(grown_dict(dict, data, seq![s, s + l], 0) =~= dict);
        let first_ok = forall|i: int|
            0 <= i < dict.len() && #[trigger] is_prefix_of(dict[i], data.skip(s)) ==> dict[i].len()
                <= l;
        assert(first_ok);
        assert forall|i: int| 0 <= i < k implies #[trigger] dict[i] != dict[k] by {
            if dict[i] == dict[k] {
                assert(is_prefix_of(dict[i], rest));
            }
        }
        if l < rest.len() {
            let next = dict.push(m.push(rest[l]));
            assert(m.push(rest[l]) =~= data.subrange(s, s + l + 1));
            assert forall|i: int| 0 <= i < next.len() implies (#[trigger] next[i]).len() > 0 by {
                if i < dict.len() {
                    assert(next[i] == dict[i]);
                }
            }
            assert(forall|i: int| 0 <= i < 256 ==> #[trigger] next[i] == dict[i]);
            assert(data.skip(s + l) =~= rest.skip(l));
            let tail = encode_from(next, rest.skip(l));
            assert(codes == seq![k as u16] + tail);
            let q = lemma_greedy_from(next, data, s + l);
            let p = seq![s] + q;
            assert(p.len() == codes.len() + 1);
            assert(p[codes.len() as int] == q[tail.len() as int]);
            assert forall|j: int| 0 <= j < codes.len() implies #[trigger] p[j] < p[j + 1] by {
                if j > 0 {
                    assert(p[j] == q[j - 1] && p[j + 1] == q[j]);
                }
            }
            assert forall|j: int| 0 <= j < codes.len() implies #[trigger] greedy_step(
                dict,
                data,
                codes,
                p,
                j,
            ) by {
                if j == 0 {
                    assert(grown_dict(dict, data, p, 0) =~= dict);
                } else {
                    assert(greedy_step(next, data, tail, q, j - 1));
                    assert(codes[j] == tail[j - 1]);
                    assert(p[j] == q[j - 1] && p[j + 1] == q[j]);
                    assert(grown_dict(dict, data, p, j) =~= grown_dict(next, data, q, j - 1)) by {
                        assert(p[0] == s && p[1] == s + l);
                        assert forall|i: int| 0 <= i < q.len() implies #[trigger] p[i + 1] == q[i] by {}
                    }
                }
            }
            p
        } else {
            assert(codes == seq![k as u16]);
            let p = seq![s, s + l];
            assert(s + l == data.len());
            assert forall|j: int| 0 <= j < codes.len() implies #[trigger] greedy_step(
                dict,
                data,
                codes,
                p,
                j,
            ) by {
                assert(grown_dict(dict, data, p, 0) =~= dict);
            }
            p
        }
    }
}

/// LZW is greedy longest-match parsing: the codes `encode` produces for
/// `data` cut the whole input into pieces, each named by its code in the
/// dictionary of that moment (the single bytes, plus each earlier piece
/// extended by the byte after it); no entry of that dictionary that is a
/// prefix of the remaining input is longer than the piece taken, and no
/// earlier entry holds the same bytes.
pub proof fn lemma_encode_greedy(data: Seq<u8>)
    requires
        encoded(data).len() <= 65280,
    ensures
        exists|p: Seq<int>| p[0] == 0 && #[trigger] is_greedy_parse(initial_dict(), data, encoded(data), p),
{
    lemma_initial_dict_wf();
    assert(data.skip(0) =~= data);
    let p = lemma_greedy_from(initial_dict(), data, 0);
}

/// Three bytes read as a big-endian 24-bit number.
pub open spec fn word24(x: u8, y: u8, z: u8) -> int {
    x as int * 65536 + y as int * 256 + z as int
}

/// Two bytes read as a big-endian 16-bit number.
pub open spec fn word16(x: u8, y: u8) -> int {
    x as int * 256 + y as int
}

proof fn lemma_pack_pair_word(a: u16, b: u16)
    ensures
        word24(pack_pair(a, b)[0], pack_pair(a, b)[1], pack_pair(a, b)[2]) == (a & 0x0FFF) as int
            * 4096 + (b & 0x0FFF) as int,
{
    let p = pack_pair(a, b);
    let (x, y, z) = (p[0], p[1], p[2]);
    assert((x as u32) * 65536 + (y as u32) * 256 + (z as u32) == ((a & 0x0FFF) as u32) * 4096 + ((b
        & 0x0FFF) as u32)) by (bit_vector)
        requires
            x == ((a & 0x0FFF) >> 4) as u8,
            y == ((((a & 0x0FFF) & 0x0F) << 4) | ((b & 0x0FFF) >> 8)) as u8,
            z == ((b & 0x0FFF) & 0xFF) as u8,
    ;
}

proof fn lemma_pack_single_word(a: u16)
    ensures
        word16(pack_single(a)[0], pack_single(a)[1]) == (a & 0x0FFF) as int * 16,
{
    let p = pack_single(a);
    let (x, y) = (p[0], p[1]);
    assert((x as u32) * 256 + (y as u32) == ((a & 0x0FFF) as u32) * 16) by (bit_vector)
        requires
            x == ((a & 0x0FFF) >> 4) as u8,
            y == (((a & 0x0FFF) & 0x0F) << 4) as u8,
    ;
}

/// The packed layout: codes form a big-endian stream of 12-bit fields.
/// Each pair of codes takes three bytes whose 24-bit value is the first
/// code's low 12 bits followed by the second's; a last odd code takes two
/// bytes whose 16-bit value is its low 12 bits followed by four zero bits.
pub proof fn lemma_packed12_layout(codes: Seq<u16>)
    ensures
        packed12(codes).len() == 3 * (codes.len() / 2) + 2 * (codes.len() % 2),
        forall|k: int|
            0 <= k < codes.len() / 2 ==> #[trigger] word24(
                packed12(codes)[3 * k],
                packed12(codes)[3 * k + 1],
                packed12(codes)[3 * k + 2],
            ) == (codes[2 * k] & 0x0FFF) as int * 4096 + (codes[2 * k + 1] & 0x0FFF) as int,
        codes.len() % 2 == 1 ==> word16(
            packed12(codes)[3 * (codes.len() as int / 2)],
            packed12(codes)[3 * (codes.len() as int / 2) + 1],
        ) == (codes[codes.len() - 1] & 0x0FFF) as int * 16,
    decreases codes.len(),
{
    let out = packed12(codes);
    if codes.len() >= 2 {
        let rest = codes.skip(2);
        let pr = packed12(rest);
        lemma_packed12_layout(rest);
        lemma_pack_pair_word(codes[0], codes[1]);
        let pp = pack_pair(codes[0], codes[1]);
        assert(out == pp + pr);
        assert(rest.len() / 2 == codes.len() / 2 - 1);
        assert(rest.len() % 2 == codes.len() % 2);
        assert forall|k: int| 0 <= k < codes.len() / 2 implies #[trigger] word24(
            out[3 * k],
            out[3 * k + 1],
            out[3 * k + 2],
        ) == (codes[2 * k] & 0x0FFF) as int * 4096 + (codes[2 * k + 1] & 0x0FFF) as int by {
            if k > 0 {
                assert(out[3 * k] == pr[3 * (k - 1)]);
                assert(out[3 * k + 1] == pr[3 * (k - 1) + 1]);
                assert(out[3 * k + 2] == pr[3 * (k - 1) + 2]);
                assert(codes[2 * k] == rest[2 * (k - 1)]);
                assert(codes[2 * k + 1] == rest[2 * (k - 1) + 1]);
                assert(word24(pr[3 * (k - 1)], pr[3 * (k - 1) + 1], pr[3 * (k - 1) + 2]) == (rest[2 * (
                k - 1)] & 0x0FFF) as int * 4096 + (rest[2 * (k - 1) + 1] & 0x0FFF) as int);
            }
        }
        if codes.len() % 2 == 1 {
            let h = rest.len() as int / 2;
            assert(out[3 * (codes.len() as int / 2)] == pr[3 * h]);
            assert(out[3 * (codes.len() as int / 2) + 1] == pr[3 * h + 1]);
            assert(codes[codes.len() - 1] == rest[rest.len() - 1]);
        }
    } else if codes.len() == 1 {
        lemma_pack_single_word(codes[0]);
    }
}

/// The unpacked layout: each full group of three bytes, read as a 24-bit
/// big-endian number, gives two codes (its high and low 12 bits); a trailing
/// pair of bytes gives one code, the high 12 bits of its 16-bit value.
pub proof fn lemma_unpacked12_layout(data: Seq<u8>)
    ensures
        forall|k: int|
            0 <= k < data.len() / 3 ==> {
                &&& #[trigger] unpacked12(data)[2 * k] as int == word24(
                    data[3 * k],
                    data[3 * k + 1],
                    data[3 * k + 2],
                ) / 4096
                &&& unpacked12(data)[2 * k + 1] as int == word24(
                    data[3 * k],
                    data[3 * k + 1],
                    data[3 * k + 2],
                ) % 4096
            },
        data.len() % 3 == 2 ==> unpacked12(data)[2 * (data.len() as int / 3)] as int == word16(
            data[3 * (data.len() as int / 3)],
            data[3 * (data.len() as int / 3) + 1],
        ) / 16,
    decreases data.len(),
{
    let u = unpacked12(data);
    lemma_unpacked12_shape(data);
    if data.len() >= 3 {
        let (x, y, z) = (data[0], data[1], data[2]);
        let rest = data.skip(3);
        let ur = unpacked12(rest);
        lemma_unpacked12_layout(rest);
        lemma_unpacked12_shape(rest);
        assert(u == seq![high_code(x, y), low_code(y, z)] + ur);
        let h = high_code(x, y);
        let l = low_code(y, z);
        assert(h as u32 == ((x as u32) * 65536 + (y as u32) * 256 + (z as u32)) / 4096) by (bit_vector)
            requires
                h == ((x as u16) << 4) | ((y as u16) >> 4),
        ;
        assert(l as u32 == ((x as u32) * 65536 + (y as u32) * 256 + (z as u32)) % 4096) by (bit_vector)
            requires
                l == (((y as u16) & 0x0F) << 8) | (z as u16),
        ;
        assert(rest.len() / 3 == data.len() / 3 - 1);
        assert(rest.len() % 3 == data.len() % 3);
        assert forall|k: int| 0 <= k < data.len() / 3 implies {
            &&& #[trigger] u[2 * k] as int == word24(data[3 * k], data[3 * k + 1], data[3 * k + 2])
                / 4096
            &&& u[2 * k + 1] as int == word24(data[3 * k], data[3 * k + 1], data[3 * k + 2]) % 4096
        } by {
            if k > 0 {
                assert(u[2 * k] == ur[2 * (k - 1)]);
                assert(u[2 * k + 1] == ur[2 * (k - 1) + 1]);
                assert(data[3 * k] == rest[3 * (k - 1)]);
                assert(data[3 * k + 1] == rest[3 * (k - 1) + 1]);
                assert(data[3 * k + 2] == rest[3 * (k - 1) + 2]);
                assert(ur[2 * (k - 1)] as int == word24(
                    rest[3 * (k - 1)],
                    rest[3 * (k - 1) + 1],
                    rest[3 * (k - 1) + 2],
                ) / 4096);
            }
        }
        if data.len() % 3 == 2 {
            let m = rest.len() as int / 3;
            assert(u[2 * (data.len() as int / 3)] == ur[2 * m]);
            assert(data[3 * (data.len() as int / 3)] == rest[3 * m]);
            assert(data[3 * (data.len() as int / 3) + 1] == rest[3 * m + 1]);
        }
    } else if data.len() == 2 {
        let (x, y) = (data[0], data[1]);
        let h = high_code(x, y);
        assert(h as u32 == ((x as u32) * 256 + (y as u32)) / 16) by (bit_vector)
            requires
                h == ((x as u16) << 4) | ((y as u16) >> 4),
        ;
    }
}

/// The decoder's table when it reaches code `j`, given the pieces `w` the
/// codes decode to: the single bytes, then for each earlier step the piece
/// before it extended by the first byte of the piece after it.
pub open spec fn piece_table(w: Seq<Seq<u8>>, j: int) -> Seq<Seq<u8>> {
    if j <= 0 {
        initial_dict()
    } else {
        initial_dict() + Seq::new((j - 1) as nat, |i: int| w[i].push(w[i + 1][0]))
    }
}

/// Code `j` decodes to piece `w[j]`: a non-empty string, the table entry the
/// code names, or, for the code just past the table's end, the previous piece
/// extended by its own first byte.
pub open spec fn piece_ok(codes: Seq<u16>, w: Seq<Seq<u8>>, j: int) -> bool {
    let t = piece_table(w, j);
    let c = codes[j] as int;
    &&& w[j].len() > 0
    &&& c < t.len() ==> w[j] == t[c]
    &&& c >= t.len() ==> c == t.len() && j >= 1 && w[j] == w[j - 1].push(w[j - 1][0])
}

/// Every code names an entry of the table at its point of decoding (or the
/// entry just past its end).
pub open spec fn all_codes_valid(codes: Seq<u16>) -> bool {
    &&& codes.len() > 0 ==> codes[0] < 256
    &&& forall|j: int| 1 <= j < codes.len() ==> #[trigger] codes[j] as int <= 255 + j
}

proof fn lemma_pieces_from(codes: Seq<u16>, h_pieces: Seq<Seq<u8>>) -> (w: Seq<Seq<u8>>)
    requires
        1 <= h_pieces.len() <= codes.len(),
        all_codes_valid(codes),
        forall|j: int| 0 <= j < h_pieces.len() ==> #[trigger] piece_ok(codes, h_pieces, j),
    ensures
        w.len() == codes.len() - h_pieces.len(),
        decode_from(
            piece_table(h_pieces, h_pieces.len() as int),
            h_pieces.last(),
            codes.skip(h_pieces.len() as int),
        ) == w.flatten(),
        forall|j: int| 0 <= j < codes.len() ==> #[trigger] piece_ok(codes, h_pieces + w, j),
    decreases codes.len() - h_pieces.len(),
{
    let h = h_pieces.len() as int;
    let t = piece_table(h_pieces, h);
    let prev = h_pieces.last();
    assert(piece_ok(codes, h_pieces, h - 1));
    if h == codes.len() {
        let w = Seq::<Seq<u8>>::empty();
        assert(codes.skip(h) =~= Seq::<u16>::empty());
        assert(h_pieces + w =~= h_pieces);
        w
    } else {
        let c = codes[h] as int;
        assert(c <= 255 + h);
        assert(t.len() == 255 + h);
        assert forall|i: int| 0 <= i < t.len() implies (#[trigger] t[i]).len() > 0 by {
            if i < 256 {
                assert(t[i] == initial_dict()[i]);
            }
        }
        let entry = decode_entry(t, prev, c);
        let hp = h_pieces.push(entry);
        assert forall|j: int| 0 <= j < hp.len() implies #[trigger] piece_ok(codes, hp, j) by {
            if j < h {
                assert(piece_ok(codes, h_pieces, j));
                assert(hp[j] == h_pieces[j]);
                if j > 0 {
                    assert(hp[j - 1] == h_pieces[j - 1]);
                    assert(piece_table(hp, j) =~= piece_table(h_pieces, j));
                }
            } else {
                assert(piece_table(hp, h) =~= t);
                assert(hp[h - 1] == prev);
            }
        }
        let next_t = t.push(next_entry(prev, entry));
        assert(next_t =~= piece_table(hp, h + 1));
        assert(codes.skip(h).drop_first() =~= codes.skip(h + 1));
        assert(codes.skip(h)[0] == codes[h]);
        let w2 = lemma_pieces_from(codes, hp);
        let w = seq![entry] + w2;
        assert(w.drop_first() =~= w2);
        assert(hp.last() == entry);
        assert(decode_from(t, prev, codes.skip(h)) == entry + decode_from(
            next_t,
            entry,
            codes.skip(h + 1),
        ));
        assert(hp + w2 =~= h_pieces + w);
        w
    }
}

/// LZW decoding, stated by what each code means: when every code names an
/// entry of the table at its point of decoding (or the entry just past its
/// end), the output is the concatenation of one piece per code, where each
/// piece is the entry its code names in a table that starts with the single
/// bytes and gains, after each step, the previous piece extended by the first
/// byte of the next; the code just past the table's end stands for the
/// previous piece extended by its own first byte.
pub proof fn lemma_decode_pieces(codes: Seq<u16>)
    requires
        all_codes_valid(codes),
    ensures
        exists|w: Seq<Seq<u8>>|
            w.len() == codes.len() && decoded(codes) == w.flatten() && forall|j: int|
                0 <= j < codes.len() ==> #[trigger] piece_ok(codes, w, j),
{
    if codes.len() == 0 {
        let w = Seq::<Seq<u8>>::empty();
        assert(decoded(codes) =~= w.flatten());
    } else {
        let first = initial_dict()[codes[0] as int];
        let hp = seq![first];
        assert(piece_ok(codes, hp, 0));
        let w2 = lemma_pieces_from(codes, hp);
        let w = hp + w2;
        assert(piece_table(hp, 1) =~= initial_dict());
        assert(codes.skip(1) =~= codes.drop_first());
        assert(w.drop_first() =~= w2);
        assert(w[0] == first);
        assert(decoded(codes) == w.flatten());
    }
}

} // verus!
