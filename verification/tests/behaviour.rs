use compress_trie_rs::dictionary::Dictionary;
use compress_trie_rs::lzw_decode::{decode, decode_packed12};
use compress_trie_rs::lzw_encode::{encode, encode_packed12, pack_codes_12bit, unpack_codes_12bit};
use compress_trie_rs::lzw_table::{LzwTable, INITIAL_CODE_WIDTH, MAX_CODE_WIDTH};
use compress_trie_rs::trie::{Trie, TrieNode};

// ── LZW codes on known inputs ───────────────────────────────────────

#[test]
fn encode_exact_codes() {
    // A, B, AB, ABA: the dictionary gains AB=256, BA=257, ABA=258.
    assert_eq!(encode(b"ABABABA"), vec![65, 66, 256, 258]);
}

#[test]
fn encode_repeated_byte_codes() {
    // a, aa, aaa: entries aa=256, aaa=257.
    assert_eq!(encode(b"aaaaaa"), vec![97, 256, 257]);
}

#[test]
fn encode_empty_is_empty() {
    assert_eq!(encode(b""), Vec::<u16>::new());
}

#[test]
fn encode_never_longer_than_input() {
    let inputs: Vec<Vec<u8>> = vec![
        b"abcdefghij".to_vec(),
        b"ABABABABABABABAB".to_vec(),
        (0..=255).collect(),
        (0..=255).cycle().take(700).collect(),
    ];
    for data in inputs {
        assert!(encode(&data).len() <= data.len());
    }
}

#[test]
fn encode_codes_below_dictionary_size() {
    let data: Vec<u8> = b"the rain in spain stays mainly in the plain".to_vec();
    let codes = encode(&data);
    for (i, c) in codes.iter().enumerate() {
        assert!((*c as usize) < 256 + i);
    }
}

// ── LZW decoding edge cases ─────────────────────────────────────────

#[test]
fn decode_code_just_past_table() {
    // 256 is not yet in the table: it stands for prev + prev[0].
    assert_eq!(decode(&[65, 256]), b"AAA".to_vec());
}

#[test]
fn decode_stops_at_invalid_code() {
    assert_eq!(decode(&[65, 300, 66]), b"A".to_vec());
}

#[test]
fn decode_rejects_non_literal_first_code() {
    assert_eq!(decode(&[300, 65]), Vec::<u8>::new());
    assert_eq!(decode(&[256]), Vec::<u8>::new());
}

#[test]
fn decode_empty_is_empty() {
    assert_eq!(decode(&[]), Vec::<u8>::new());
}

#[test]
fn roundtrip_on_many_inputs() {
    let inputs: Vec<Vec<u8>> = vec![
        b"TOBEORNOTTOBEORTOBEORNOT".to_vec(),
        b"abababababababababababab".to_vec(),
        b"z".to_vec(),
        (0..=255).rev().collect(),
        (0u32..2000).map(|i| (i * 7 % 13) as u8).collect(),
    ];
    for data in inputs {
        assert_eq!(decode(&encode(&data)), data);
    }
}

// ── 12-bit packing ──────────────────────────────────────────────────

#[test]
fn pack_pair_exact_bytes() {
    assert_eq!(pack_codes_12bit(&[0xABC, 0x123]), vec![0xAB, 0xC1, 0x23]);
}

#[test]
fn pack_single_exact_bytes() {
    assert_eq!(pack_codes_12bit(&[0xABC]), vec![0xAB, 0xC0]);
}

#[test]
fn pack_keeps_low_twelve_bits() {
    let packed = pack_codes_12bit(&[0xFABC, 0x1123]);
    assert_eq!(packed, vec![0xAB, 0xC1, 0x23]);
    assert_eq!(unpack_codes_12bit(&packed), vec![0xABC, 0x123]);
}

#[test]
fn unpack_exact_codes() {
    assert_eq!(unpack_codes_12bit(&[0xAB, 0xC1, 0x23]), vec![0xABC, 0x123]);
    assert_eq!(unpack_codes_12bit(&[0xAB, 0xC0]), vec![0xABC]);
}

#[test]
fn unpack_ignores_trailing_single_byte() {
    assert_eq!(unpack_codes_12bit(&[0x01]), Vec::<u16>::new());
    assert_eq!(unpack_codes_12bit(&[0xAB, 0xC1, 0x23, 0x45]), vec![0xABC, 0x123]);
}

#[test]
fn pack_empty_is_empty() {
    assert_eq!(pack_codes_12bit(&[]), Vec::<u8>::new());
    assert_eq!(unpack_codes_12bit(&[]), Vec::<u16>::new());
}

#[test]
fn packed_roundtrip_text() {
    let data = b"TOBEORNOTTOBEORTOBEORNOT";
    assert_eq!(decode_packed12(&encode_packed12(data)), data.to_vec());
}

// ── Code table ──────────────────────────────────────────────────────

#[test]
fn table_reserved_start() {
    let t = LzwTable::new(true);
    assert_eq!(t.peek_code(), 258);
    assert_eq!(t.code_width(), 10);
    assert_eq!(t.max_code(), 65535);
    assert!(!t.is_empty());
}

#[test]
fn table_width_grows_past_power_of_two() {
    let mut t = LzwTable::new(false);
    for _ in 0..255 {
        t.alloc_code();
    }
    assert_eq!(t.peek_code(), 511);
    assert_eq!(t.code_width(), INITIAL_CODE_WIDTH);
    // Handing out 511 fills the 9-bit range: the width grows.
    assert_eq!(t.alloc_code(), Some(511));
    assert_eq!(t.peek_code(), 512);
    assert_eq!(t.code_width(), 10);
    for _ in 0..512 {
        t.alloc_code();
    }
    assert_eq!(t.peek_code(), 1024);
    assert_eq!(t.code_width(), 11);
    assert!(t.code_width() <= MAX_CODE_WIDTH);
}

#[test]
fn table_with_max_width_fills_up() {
    let mut t = LzwTable::with_max_width(9);
    assert_eq!(t.max_code(), 511);
    for expected in 256u16..512 {
        assert_eq!(t.alloc_code(), Some(expected));
    }
    assert!(t.is_full());
    assert_eq!(t.alloc_code(), None);
    assert_eq!(t.peek_code(), 512);
}

#[test]
fn table_small_max_width_is_full_at_once() {
    let mut t = LzwTable::with_max_width(8);
    assert_eq!(t.max_code(), 255);
    assert!(t.is_full());
    assert_eq!(t.alloc_code(), None);
}

// ── Dictionary ──────────────────────────────────────────────────────

#[test]
fn dictionary_unknown_lookups() {
    let d = Dictionary::default();
    assert_eq!(d.lookup(b"ab"), None);
    assert_eq!(d.lookup(b""), None);
    assert_eq!(d.lookup_code(256), None);
    assert_eq!(d.lookup_code(7), Some(&[7u8][..]));
    assert!(!d.is_empty());
}

#[test]
fn dictionary_first_entry_wins() {
    let mut d = Dictionary::new();
    assert_eq!(d.add(b"ab".to_vec()), 256);
    assert_eq!(d.add(b"ab".to_vec()), 257);
    assert_eq!(d.lookup(b"ab"), Some(256));
    assert_eq!(d.len(), 258);
    assert_eq!(d.next_code(), 258);
}

#[test]
fn dictionary_longest_prefix_no_data() {
    let d = Dictionary::new();
    assert_eq!(d.longest_prefix(b""), (None, 0));
    assert_eq!(d.longest_prefix(b"q"), (Some(113), 1));
}

#[test]
fn dictionary_reset_forgets_additions() {
    let mut d = Dictionary::new();
    d.add(b"xyz".to_vec());
    d.reset();
    assert_eq!(d.lookup(b"xyz"), None);
    assert_eq!(d.next_code(), 256);
}

// ── Trie ────────────────────────────────────────────────────────────

#[test]
fn trie_insert_by_prefix_code() {
    let mut t = Trie::default();
    assert_eq!(t.insert(b'a' as u16, b'b'), Some(256));
    assert_eq!(t.longest_prefix(b"abc", 0), (Some(256), 2));
    // Same sequence again: no new code.
    assert_eq!(t.insert(b'a' as u16, b'b'), Some(256));
    assert_eq!(t.next_code(), 257);
    // Extend the new entry by its code.
    assert_eq!(t.insert(256, b'c'), Some(257));
    assert_eq!(t.longest_prefix(b"abcd", 0), (Some(257), 3));
}

#[test]
fn trie_insert_unknown_prefix_code() {
    let mut t = Trie::new();
    assert_eq!(t.insert(300, b'x'), None);
    assert_eq!(t.next_code(), 256);
    assert!(t.is_only_initial());
}

#[test]
fn trie_walk_through_node_without_code() {
    let mut t = Trie::new();
    t.insert_sequence(b"abc");
    // The node for "ab" exists but carries no code: the longest entry is "a".
    assert_eq!(t.longest_prefix(b"abx", 0), (Some(97), 1));
    assert_eq!(t.longest_prefix(b"zab", 1), (Some(97), 1));
    assert_eq!(t.longest_prefix(b"xabc", 1), (Some(256), 3));
}

#[test]
fn trie_insert_sequence_existing_returns_code() {
    let mut t = Trie::new();
    assert_eq!(t.insert_sequence(b"q"), Some(113));
    assert_eq!(t.insert_sequence(b"qr"), Some(256));
    assert_eq!(t.insert_sequence(b"qr"), Some(256));
    assert_eq!(t.len(), 257);
}

#[test]
fn trie_full_still_creates_nodes() {
    let mut t = Trie::with_max_code(255);
    assert_eq!(t.insert_sequence(b"xy"), None);
    // The node for "xy" exists without a code; "x" is the longest entry.
    assert_eq!(t.longest_prefix(b"xy", 0), (Some(120), 1));
    assert_eq!(t.insert(b'x' as u16, b'y'), None);
    assert_eq!(t.insert(b'x' as u16, b'z'), None);
    assert_eq!(t.next_code(), 256);
}

#[test]
fn trie_longest_prefix_at_end_of_data() {
    let t = Trie::new();
    assert_eq!(t.longest_prefix(b"abc", 3), (None, 0));
    assert!(!t.is_empty());
}

#[test]
fn trie_node_children() {
    let mut n = TrieNode::new();
    {
        let child = n.get_or_create_child(7);
        child.set_code(9);
    }
    assert_eq!(n.child_count(), 1);
    let child = n.get_child(7).unwrap();
    assert_eq!(child.code(), Some(9));
    assert!(child.is_terminal());
    assert!(n.get_child(8).is_none());
    // Existing child is returned, not replaced.
    assert_eq!(n.get_or_create_child(7).code(), Some(9));
    assert_eq!(n.child_count(), 1);
}

#[test]
fn trie_insert_onto_node_without_code() {
    let mut t = Trie::new();
    assert_eq!(t.insert_sequence(b"abc"), Some(256));
    // "ab" has a node but no code; the trie is not full, so it gets one.
    assert_eq!(t.insert(97, b'b'), Some(257));
    assert_eq!(t.next_code(), 258);
    assert_eq!(t.longest_prefix(b"ab", 0), (Some(257), 2));
    assert_eq!(t.longest_prefix(b"abc", 0), (Some(256), 3));
}

#[test]
fn trie_initial_children_are_terminal() {
    let t = Trie::new();
    assert!(!t.root().is_terminal());
    for b in 0..=255u8 {
        let child = t.root().get_child(b).unwrap();
        assert_eq!(child.code(), Some(b as u16));
        assert!(child.is_terminal());
        assert_eq!(child.child_count(), 0);
    }
}

#[test]
fn trie_clone_is_independent() {
    let mut t = Trie::new();
    t.insert_sequence(b"hello");
    let copy = t.clone();
    t.insert_sequence(b"world");
    assert_eq!(copy.next_code(), 257);
    assert_eq!(copy.longest_prefix(b"hello!", 0), (Some(256), 5));
    assert_eq!(copy.longest_prefix(b"world", 0), (Some(119), 1));
    assert_eq!(t.longest_prefix(b"world", 0), (Some(257), 5));
}

#[test]
fn trie_node_clone_copies_subtree() {
    let mut n = TrieNode::new();
    n.get_or_create_child(1).get_or_create_child(2).set_code(300);
    let copy = n.clone();
    assert_eq!(copy.child_count(), 1);
    let grandchild = copy.get_child(1).unwrap().get_child(2).unwrap();
    assert_eq!(grandchild.code(), Some(300));
    assert!(grandchild.is_terminal());
    assert!(!copy.get_child(1).unwrap().is_terminal());
}

#[test]
fn dictionary_add_then_lookup_code() {
    let mut d = Dictionary::new();
    let code = d.add(b"hey".to_vec());
    assert_eq!(d.lookup_code(code), Some(&b"hey"[..]));
    assert_eq!(d.lookup(b"hey"), Some(code));
    assert_eq!(d.lookup_code(code + 1), None);
}

#[test]
fn decode_ignores_codes_after_first_invalid() {
    let codes = [65u16, 66, 400, 65, 66];
    assert_eq!(decode(&codes), decode(&codes[..2]));
    assert_eq!(decode(&codes), b"AB".to_vec());
}

#[test]
fn unpack_shape_and_repack() {
    let data = [0x12u8, 0x34, 0x56, 0x78, 0x9A];
    let codes = unpack_codes_12bit(&data);
    assert_eq!(codes.len(), 3);
    assert!(codes.iter().all(|&c| c <= 0x0FFF));
    assert_eq!(pack_codes_12bit(&codes), vec![0x12, 0x34, 0x56, 0x78, 0x90]);
    let data4 = [0x12u8, 0x34, 0x56, 0x78];
    assert_eq!(pack_codes_12bit(&unpack_codes_12bit(&data4)), vec![0x12, 0x34, 0x56]);
}

#[test]
fn table_max_width_sixteen() {
    let t = LzwTable::with_max_width(MAX_CODE_WIDTH);
    assert_eq!(t.max_code(), 65535);
    assert_eq!(t.peek_code(), 256);
    assert_eq!(t.code_width(), INITIAL_CODE_WIDTH);
}

#[test]
fn table_allocates_at_width_sixteen() {
    let mut t = LzwTable::new(false);
    for _ in 256..32768 {
        t.alloc_code();
    }
    assert_eq!(t.peek_code(), 32768);
    assert_eq!(t.code_width(), 16);
    assert_eq!(t.alloc_code(), Some(32768));
    assert_eq!(t.code_width(), 16);
    for _ in 32769..65535 {
        t.alloc_code();
    }
    assert_eq!(t.peek_code(), 65535);
    assert_eq!(t.code_width(), 16);
    assert!(!t.is_full());
    let copy = t.clone();
    assert_eq!(copy.peek_code(), 65535);
    assert_eq!(copy.code_width(), 16);
}

#[test]
fn trie_insert_root_code_is_no_prefix() {
    let mut t = Trie::new();
    assert_eq!(t.insert_sequence(b""), Some(256));
    assert_eq!(t.insert(256, b'a'), None);
    assert_eq!(t.next_code(), 257);
}

#[test]
fn dictionary_clone_is_independent() {
    let mut d = Dictionary::new();
    d.add(b"ab".to_vec());
    let copy = d.clone();
    d.add(b"cd".to_vec());
    assert_eq!(copy.len(), 257);
    assert_eq!(copy.lookup(b"cd"), None);
    assert_eq!(copy.lookup(b"ab"), Some(256));
    assert_eq!(d.lookup(b"cd"), Some(257));
}
