//! LZW decoding (decompress).

use vstd::prelude::*;
use crate::bytes::{copy_bytes, append_bytes};
use crate::lzw_encode::{initial_dict, unpacked12, unpack_codes_12bit};
use crate::lzw_table::LzwTable;

verus! {

/// The string a code stands for, given the table and the previous string: a
/// known code gives its entry; the code just past the table gives the previous
/// string extended by its own first byte.
pub open spec fn decode_entry(table: Seq<Seq<u8>>, prev: Seq<u8>, code: int) -> Seq<u8> {
    if code < table.len() {
        table[code]
    } else if prev.len() > 0 {
        prev.push(prev[0])
    } else {
        prev
    }
}

/// The entry the decoder adds after decoding `entry`: the previous string
/// extended by the first byte of `entry`.
pub open spec fn next_entry(prev: Seq<u8>, entry: Seq<u8>) -> Seq<u8> {
    if entry.len() > 0 {
        prev.push(entry[0])
    } else {
        prev
    }
}

/// The bytes the decoder produces for `codes` from the given table and
/// previous string; decoding stops at the first code beyond the table's end.
pub open spec fn decode_from(table: Seq<Seq<u8>>, prev: Seq<u8>, codes: Seq<u16>) -> Seq<u8>
    decreases codes.len(),
{
    if codes.len() == 0 || codes[0] as int > table.len() {
        Seq::empty()
    } else {
        let entry = decode_entry(table, prev, codes[0] as int);
        entry + decode_from(table.push(next_entry(prev, entry)), entry, codes.drop_first())
    }
}

/// The bytes LZW decoding produces for `codes`: nothing for an empty input
/// or a first code that is not a literal byte.
pub open spec fn decoded(codes: Seq<u16>) -> Seq<u8> {
    if codes.len() == 0 || codes[0] >= 256 {
        Seq::empty()
    } else {
        let first = initial_dict()[codes[0] as int];
        first + decode_from(initial_dict(), first, codes.drop_first())
    }
}

/// How many of `codes` the decoder accepts, in order, when the table holds
/// `next` entries before the first of them.
pub open spec fn valid_run(codes: Seq<u16>, next: int) -> nat
    decreases codes.len(),
{
    if codes.len() == 0 || codes[0] as int > next {
        0
    } else {
        1 + valid_run(codes.drop_first(), next + 1)
    }
}

/// Whether decoding `codes` stays within the code table's 16-bit counter:
/// at most 65279 codes after the first one add table entries.
pub open spec fn decode_fits(codes: Seq<u16>) -> bool {
    codes.len() == 0 || codes[0] >= 256 || valid_run(codes.drop_first(), 256) <= 65279
}

/// The 256 single-byte strings.
fn initial_table() -> (table: Vec<Vec<u8>>)
    ensures
        table@.len() == 256,
        forall|i: int| 0 <= i < 256 ==> (#[trigger] table@[i])@ == initial_dict()[i],
{
    let mut table: Vec<Vec<u8>> = Vec::new();
    let mut i: u16 = 0;
    while i < 256
        invariant
            i <= 256,
            table@.len() == i,
            forall|j: int| 0 <= j < i ==> (#[trigger] table@[j])@ == initial_dict()[j],
        decreases 256 - i,
    {
        let mut entry: Vec<u8> = Vec::new();
        entry.push(i as u8);
        table.push(entry);
        i += 1;
    }
    table
}

/// The byte contents of the decoder's table.
pub open spec fn table_view(table: Seq<Vec<u8>>) -> Seq<Seq<u8>> {
    Seq::new(table.len(), |i: int| table[i]@)
}

/// LZW-decode a vector of codes back into the original byte data.
///
/// 1. Initialize dictionary with single-byte entries.
/// 2. For each code, look up the corresponding string.
/// 3. Add the previous string + first byte of current string to the dictionary.
///
/// Decoding stops at the first code that is neither in the table nor the code
/// right after it.
pub fn decode(codes: &[u16]) -> (output: Vec<u8>)
    requires
        decode_fits(codes@),
    ensures
        output@ == decoded(codes@),
{
    if codes.len() == 0 {
        return Vec::new();
    }
    let mut table = initial_table();
    let mut lzw_table = LzwTable::new(false);
    let mut output: Vec<u8> = Vec::new();

    // First code must be a literal
    let first_code = codes[0] as usize;
    if first_code >= table.len() {
        return output;
    }
    append_bytes(&mut output, table[first_code].as_slice());
    let mut prev = copy_bytes(table[first_code].as_slice());
    proof {
        assert(table_view(table@) =~= initial_dict());
        assert(codes@.skip(1) =~= codes@.drop_first());
    }

    let mut i: usize = 1;
    while i < codes.len()
        invariant
            1 <= i <= codes@.len(),
            codes@[0] < 256,
            lzw_table.wf(),
            lzw_table@.max_code == 65535,
            lzw_table@.next_code == table@.len(),
            table@.len() == 256 + (i - 1),
            (i - 1) + valid_run(codes@.skip(i as int), table@.len() as int) == valid_run(
                codes@.drop_first(),
                256,
            ),
            valid_run(codes@.drop_first(), 256) <= 65279,
            output@ + decode_from(table_view(table@), prev@, codes@.skip(i as int)) == decoded(
                codes@,
            ),
        ensures
            i >= codes@.len() || codes@[i as int] as int > table@.len(),
        decreases codes.len() - i,
    {
        let ghost tv = table_view(table@);
        let ghost rest = codes@.skip(i as int);
        let code = codes[i];
        assert(rest[0] == code);
        if (code as usize) > table.len() {
            // Invalid code
            break;
        }
        let entry = if (code as usize) < table.len() {
            copy_bytes(table[code as usize].as_slice())
        } else {
            // Special case: code equals next dictionary entry
            let mut e = copy_bytes(prev.as_slice());
            if e.len() > 0 {
                let first = e[0];
                e.push(first);
            }
            e
        };
        assert(entry@ == decode_entry(tv, prev@, code as int));

        append_bytes(&mut output, entry.as_slice());

        proof {
            assert(rest.drop_first() =~= codes@.skip(i + 1));
        }
        // Add prev + first byte of entry to dictionary
        if let Some(_new_code) = lzw_table.alloc_code() {
            let mut new_entry = copy_bytes(prev.as_slice());
            if entry.len() > 0 {
                new_entry.push(entry[0]);
            }
            table.push(new_entry);
        }
        proof {
            assert(table_view(table@) =~= tv.push(next_entry(prev@, entry@)));
        }
        prev = entry;
        i += 1;
    }
    assert(i >= codes@.len() || codes@[i as int] as int > table@.len());
    proof {
        if i >= codes.len() {
            assert(codes@.skip(i as int) =~= Seq::<u16>::empty());
        } else {
            assert(codes@.skip(i as int)[0] == codes@[i as int]);
            assert(table_view(table@).len() == table@.len());
            let rest = codes@.skip(i as int);
            assert(rest.len() > 0);
            assert(rest[0] as int > table_view(table@).len());
            assert(decode_from(table_view(table@), prev@, rest) == Seq::<u8>::empty());
        }
        assert(output@ + Seq::<u8>::empty() =~= output@);
    }
    output
}

/// Decode from 12-bit packed bytes.
pub fn decode_packed12(data: &[u8]) -> (output: Vec<u8>)
    requires
        decode_fits(unpacked12(data@)),
    ensures
        output@ == decoded(unpacked12(data@)),
{
    let codes = unpack_codes_12bit(data);
    decode(codes.as_slice())
}

} // verus!
