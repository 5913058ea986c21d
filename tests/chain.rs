use bytes::Bytes;
use faststr::FastStr;
use linkedbytes::{advance, LinkedBytes, Node, WriteError};

/// Drives the ranges of `chain` into a sink that accepts what `accept` says,
/// recording every byte it took. Returns the outcome and the number of calls.
fn drain_into(
    chain: &LinkedBytes,
    out: &mut Vec<u8>,
    mut accept: impl FnMut(&[&[u8]]) -> usize,
) -> (Result<(), WriteError>, usize) {
    let mut ranges = chain.io_slice();
    let mut calls = 0;
    while !ranges.is_empty() {
        calls += 1;
        let n = accept(&ranges);
        let mut left = n;
        for r in ranges.iter() {
            let take = left.min(r.len());
            out.extend_from_slice(&r[..take]);
            left -= take;
        }
        if let Err(e) = advance(&mut ranges, n) {
            return (Err(e), calls);
        }
    }
    (Ok(()), calls)
}

fn total(ranges: &[&[u8]]) -> usize {
    ranges.iter().map(|r| r.len()).sum()
}

#[test]
fn single_append_gives_one_range() {
    let mut chain = LinkedBytes::new();
    chain.append_bytes(b"hello");
    let view = chain.io_slice();
    assert_eq!(view.len(), 1);
    assert_eq!(view[0], b"hello");
}

#[test]
fn append_insert_append_gives_three_ranges() {
    let mut chain = LinkedBytes::new();
    chain.append_bytes(b"XY");
    chain.insert(Bytes::from_static(b"abc"));
    chain.append_bytes(b"Z");
    let view = chain.io_slice();
    assert_eq!(view, vec![&b"XY"[..], &b"abc"[..], &b"Z"[..]]);
    let mut out = Vec::new();
    let (r, _) = drain_into(&chain, &mut out, |rs| total(rs));
    assert_eq!(r, Ok(()));
    assert_eq!(out, b"XYabcZ");
}

#[test]
fn two_calls_of_four_bytes() {
    let mut chain = LinkedBytes::new();
    chain.append_bytes(b"AAAA");
    chain.insert(Bytes::from_static(b"BBBB"));
    assert_eq!(chain.io_slice(), vec![&b"AAAA"[..], &b"BBBB"[..]]);
    let mut out = Vec::new();
    let (r, calls) = drain_into(&chain, &mut out, |_| 4);
    assert_eq!(r, Ok(()));
    assert_eq!(calls, 2);
    assert_eq!(out, b"AAAABBBB");
}

#[test]
fn six_bytes_shrink_second_range() {
    let a: &[u8] = b"AAAA";
    let b: &[u8] = b"BBBB";
    let mut ranges = vec![a, b];
    assert_eq!(advance(&mut ranges, 6), Ok(()));
    assert_eq!(ranges, vec![&b"BB"[..]]);
}

#[test]
fn advance_inside_first_range() {
    let a: &[u8] = b"AAAA";
    let b: &[u8] = b"BBBB";
    let mut ranges = vec![a, b];
    assert_eq!(advance(&mut ranges, 1), Ok(()));
    assert_eq!(ranges, vec![&b"AAA"[..], &b"BBBB"[..]]);
    assert_eq!(advance(&mut ranges, 7), Ok(()));
    assert!(ranges.is_empty());
}

#[test]
fn zero_progress_fails_at_once() {
    let mut chain = LinkedBytes::new();
    chain.append_bytes(b"data");
    let mut out = Vec::new();
    let (r, calls) = drain_into(&chain, &mut out, |_| 0);
    assert_eq!(r, Err(WriteError::NoProgress));
    assert_eq!(calls, 1);
    let a: &[u8] = b"AAAA";
    let mut ranges = vec![a];
    assert_eq!(advance(&mut ranges, 0), Err(WriteError::NoProgress));
    assert_eq!(ranges, vec![&b"AAAA"[..]]);
}

#[test]
fn advance_on_no_ranges_is_done() {
    let mut ranges: Vec<&[u8]> = Vec::new();
    assert_eq!(advance(&mut ranges, 0), Ok(()));
    assert!(ranges.is_empty());
}

#[test]
fn capped_sink_delivers_in_order() {
    let mut chain = LinkedBytes::new();
    chain.append_bytes(b"hello ");
    chain.insert(Bytes::from_static(b"big "));
    chain.insert_faststr(FastStr::from_static_str("wide "));
    chain.append_bytes(b"world");
    let k = 3;
    let mut out = Vec::new();
    let (r, calls) = drain_into(&chain, &mut out, |rs| total(rs).min(k));
    assert_eq!(r, Ok(()));
    assert_eq!(out, b"hello big wide world");
    assert_eq!(calls, (chain.len() + k - 1) / k);
    let segments = chain.iter_list().len();
    let mut out = Vec::new();
    let (r, calls) = drain_into(&chain, &mut out, |rs| rs[0].len().min(k));
    assert_eq!(r, Ok(()));
    assert_eq!(out, b"hello big wide world");
    assert!(calls <= (chain.len() + k - 1) / k + segments);
}

#[test]
fn total_length_counts_every_piece() {
    let mut chain = LinkedBytes::with_capacity(4);
    assert_eq!(chain.len(), 0);
    assert!(chain.is_empty());
    chain.append_bytes(b"");
    chain.insert(Bytes::new());
    chain.insert_faststr(FastStr::from_static_str(""));
    assert_eq!(chain.len(), 0);
    assert!(chain.is_empty());
    chain.append_bytes(b"abcdefgh");
    chain.insert(Bytes::from_static(b"xyz"));
    chain.insert_faststr(FastStr::from_static_str("uv"));
    chain.append_bytes(b"q");
    assert_eq!(chain.len(), 8 + 3 + 2 + 1);
    assert!(!chain.is_empty());
}

#[test]
fn view_leaves_out_empty_pieces() {
    let mut chain = LinkedBytes::new();
    chain.insert(Bytes::from_static(b"a"));
    chain.insert(Bytes::new());
    chain.append_bytes(b"");
    let view = chain.io_slice();
    assert_eq!(view, vec![&b"a"[..]]);
    assert_eq!(LinkedBytes::new().io_slice().len(), 0);
}

#[test]
fn reset_empties_and_keeps_capacity() {
    let mut chain = LinkedBytes::with_capacity(64);
    chain.append_bytes(b"0123456789");
    chain.insert(Bytes::from_static(b"frozen"));
    chain.append_bytes(b"Z");
    let mut out = Vec::new();
    let (r, _) = drain_into(&chain, &mut out, |rs| total(rs));
    assert_eq!(r, Ok(()));
    assert_eq!(out, b"0123456789frozenZ");
    chain.reset();
    assert_eq!(chain.len(), 0);
    assert!(chain.is_empty());
    assert_eq!(chain.iter_list().len(), 0);
    assert!(chain.bytes().capacity() >= 64);
    let ptr = chain.bytes().as_ptr();
    chain.append_bytes(&[7u8; 64]);
    assert_eq!(chain.bytes().as_ptr(), ptr);
    assert_eq!(chain.len(), 64);
}

#[test]
fn reset_without_segments_clears_tail() {
    let mut chain = LinkedBytes::default();
    chain.append_bytes(b"abc");
    chain.reset();
    assert!(chain.is_empty());
    chain.append_bytes(b"de");
    assert_eq!(chain.io_slice(), vec![&b"de"[..]]);
}

#[test]
fn split_detaches_tail() {
    let mut chain = LinkedBytes::new();
    chain.append_bytes(b"ab");
    assert_eq!(chain.split(), 0);
    chain.append_bytes(b"cd");
    assert_eq!(chain.split(), 1);
    assert_eq!(chain.bytes().len(), 0);
    let nodes = chain.iter_list();
    assert_eq!(nodes.len(), 2);
    assert!(matches!(nodes[0], Node::BytesMut(_)));
    assert_eq!(nodes[1].as_slice(), b"cd");
    assert_eq!(chain.len(), 4);
    chain.reset();
    assert!(chain.is_empty());
}

#[test]
fn insert_keeps_node_kinds() {
    let mut chain = LinkedBytes::new();
    chain.append_bytes(b"h");
    chain.insert(Bytes::from_static(b"b"));
    chain.insert_faststr(FastStr::from_static_str("s"));
    let nodes = chain.iter_list();
    assert_eq!(nodes.len(), 4);
    assert!(matches!(nodes[0], Node::BytesMut(_)));
    assert!(matches!(nodes[1], Node::Bytes(_)));
    assert!(matches!(nodes[2], Node::BytesMut(_)));
    assert!(matches!(nodes[3], Node::FastStr(_)));
    assert_eq!(nodes[3].as_slice(), b"s");
}

#[test]
fn into_iter_list_ends_with_tail() {
    let mut chain = LinkedBytes::new();
    chain.append_bytes(b"one");
    chain.insert(Bytes::from_static(b"two"));
    chain.append_bytes(b"three");
    let nodes = chain.into_iter_list();
    let parts: Vec<&[u8]> = nodes.iter().map(|n| n.as_slice()).collect();
    assert_eq!(parts, vec![&b"one"[..], &b"two"[..], &b"three"[..]]);
    assert!(matches!(nodes[2], Node::BytesMut(_)));
}

#[test]
fn reserve_keeps_content() {
    let mut chain = LinkedBytes::with_capacity(0);
    chain.append_bytes(b"keep");
    chain.reserve(100);
    assert!(chain.bytes().capacity() >= 104);
    assert_eq!(chain.io_slice(), vec![&b"keep"[..]]);
}

#[test]
fn reset_keeps_room_of_a_grown_tail() {
    let mut chain = LinkedBytes::with_capacity(4);
    chain.append_bytes(b"abcd");
    chain.insert(Bytes::from_static(b"x"));
    chain.reserve(10000);
    chain.append_bytes(b"y");
    chain.reset();
    assert!(chain.is_empty());
    assert!(chain.bytes().capacity() >= 10000);
}

#[test]
fn reset_without_segments_keeps_capacity_in_place() {
    let mut chain = LinkedBytes::with_capacity(100);
    chain.append_bytes(b"abc");
    let cap = chain.bytes().capacity();
    let ptr = chain.bytes().as_ptr();
    chain.reset();
    assert_eq!(chain.bytes().capacity(), cap);
    assert_eq!(chain.bytes().as_ptr(), ptr);
    chain.reset();
    assert_eq!(chain.bytes().capacity(), cap);
    assert_eq!(chain.len(), 0);
}

#[test]
fn constructors_reserve_room() {
    assert!(LinkedBytes::new().bytes().capacity() >= 8192);
    assert!(LinkedBytes::default().bytes().capacity() >= 8192);
    assert!(LinkedBytes::with_capacity(300).bytes().capacity() >= 300);
    let mut chain = LinkedBytes::with_capacity(0);
    chain.append_bytes(b"ab");
    chain.reserve(50);
    assert!(chain.bytes().capacity() - chain.bytes().len() >= 50);
}

#[test]
fn split_keeps_old_nodes() {
    let mut chain = LinkedBytes::new();
    chain.append_bytes(b"ab");
    chain.insert_faststr(FastStr::from_static_str("cd"));
    chain.append_bytes(b"ef");
    assert_eq!(chain.split(), 2);
    let nodes = chain.iter_list();
    assert_eq!(nodes.len(), 3);
    assert!(matches!(nodes[1], Node::FastStr(_)));
    assert!(matches!(nodes[2], Node::BytesMut(_)));
    assert_eq!(nodes[2].as_slice(), b"ef");
    assert_eq!(chain.len(), 6);
}
