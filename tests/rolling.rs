use std::collections::VecDeque;

use rolling_crc::{RollingCRC, RollingCRCContext};

fn collect(context: &RollingCRCContext, bytes: &[u8]) -> Vec<(usize, u32)> {
    let rolling_crc = RollingCRC::new(context);
    let mut it = rolling_crc.iter(VecDeque::from(bytes.to_vec()));
    let mut out = Vec::new();
    while let Some(pair) = it.next() {
        out.push(pair);
    }
    out
}

#[test]
fn test_iterator_index() {
    // Set up the byte source.
    let s = b"llllollllollll";
    // Set up the collection context.
    let context = RollingCRCContext::new(4);
    let target = context.crc(b"llll");
    let rolling_crc = RollingCRC::new(&context);
    // Collect the rolling CRCs.
    let mut it = rolling_crc.iter(s.iter().cloned().collect());
    while let Some((index, crc)) = it.next() {
        if index == 0 || index == 5 || index == 10 {
            assert_eq!(crc, target);
        } else {
            assert!(crc != target);
        }
    }
}

#[test]
fn iterator_index_positions_are_contiguous() {
    let s = b"llllollllollll";
    let context = RollingCRCContext::new(4);
    let out = collect(&context, s);
    assert_eq!(out.len(), 11);
    for (k, (index, crc)) in out.iter().enumerate() {
        assert_eq!(*index, k);
        assert_eq!(*crc, context.crc(&s[k..k + 4]));
    }
}

#[test]
fn crc_of_hello_world() {
    let context = RollingCRCContext::new(0);
    assert_eq!(context.crc(b"hello world"), 0x0d4a1185);
    assert_eq!(context.crc(b""), 0);
    assert_eq!(context.crc(b"123456789"), 0xcbf43926);
}

#[test]
fn push_window_two() {
    let context = RollingCRCContext::new(2);
    let mut roll_crc = RollingCRC::new(&context);
    let bytes = "hello world".as_bytes();
    for i in 0..bytes.len() {
        let crc = roll_crc.push(bytes[i]);
        if i == 0 {
            assert_eq!(crc, None);
        } else {
            assert_eq!(crc, Some(context.crc(&bytes[i - 1..=i])));
        }
    }
    assert_eq!(roll_crc.count(), bytes.len());
}

#[test]
fn iter_window_five_last_pair() {
    let s = "hello world";
    let ns = s.len();
    let context = RollingCRCContext::new(5);
    let mut crcs = collect(&context, s.as_bytes());
    assert_eq!(ns - 4, crcs.len());
    let crc = context.crc(&s.as_bytes()[ns - 5..ns]);
    assert_eq!(Some((ns - 5, crc)), crcs.pop());
}

#[test]
fn zero_window_emits_nothing() {
    let context = RollingCRCContext::new(0);
    assert_eq!(context.window_size(), 0);
    assert!(collect(&context, b"hello world").is_empty());
    let mut roll_crc = RollingCRC::new(&context);
    for i in 0..1000u32 {
        assert_eq!(roll_crc.push((i % 256) as u8), None);
    }
    assert_eq!(roll_crc.count(), 1000);
}

#[test]
fn window_equal_to_input_length() {
    let s = b"hello world";
    let context = RollingCRCContext::new(s.len());
    let out = collect(&context, s);
    assert_eq!(out, vec![(0, context.crc(s))]);
    assert_eq!(out[0].1, 0x0d4a1185);
}

#[test]
fn window_longer_than_input() {
    let context = RollingCRCContext::new(12);
    assert!(collect(&context, b"hello world").is_empty());
    assert!(collect(&context, b"").is_empty());
}

#[test]
fn rolling_matches_recompute_for_many_windows() {
    let stream: Vec<u8> = (0..200usize)
        .map(|i| ((11 + i * 31 + i / 17) & 0xff) as u8)
        .collect();
    for w in 1..32usize {
        let context = RollingCRCContext::new(w);
        let out = collect(&context, &stream);
        assert_eq!(out.len(), stream.len() - w + 1);
        for (k, (index, crc)) in out.iter().enumerate() {
            assert_eq!(*index, k);
            assert_eq!(*crc, context.crc(&stream[k..k + w]));
            assert_eq!(*crc, crc::crc32::checksum_ieee(&stream[k..k + w]));
        }
    }
}

#[test]
fn cloned_engines_are_independent() {
    let context = RollingCRCContext::new(3);
    let mut a = RollingCRC::new(&context);
    a.push(b'a');
    a.push(b'b');
    let mut b = a.clone();
    assert_eq!(a.push(b'c'), Some(context.crc(b"abc")));
    assert_eq!(b.push(b'x'), Some(context.crc(b"abx")));
    assert_eq!(a.push(b'd'), Some(context.crc(b"bcd")));
    assert_eq!(b.push(b'y'), Some(context.crc(b"bxy")));
}

#[test]
fn iter_after_pushes_counts_from_start() {
    let context = RollingCRCContext::new(3);
    let mut engine = RollingCRC::new(&context);
    engine.push(b'h');
    engine.push(b'e');
    let mut it = engine.iter(VecDeque::from(b"llo".to_vec()));
    assert_eq!(it.next(), Some((0, context.crc(b"hel"))));
    assert_eq!(it.next(), Some((1, context.crc(b"ell"))));
    assert_eq!(it.next(), Some((2, context.crc(b"llo"))));
    assert_eq!(it.next(), None);
    assert_eq!(it.next(), None);
}

#[test]
fn errors_pass_through_in_place() {
    let context = RollingCRCContext::new(3);
    let clean = b"hello world";
    let mut items: VecDeque<Result<u8, String>> = VecDeque::new();
    for (i, b) in clean.iter().enumerate() {
        if i == 4 {
            items.push_back(Err("bad read".to_string()));
        }
        items.push_back(Ok(*b));
    }
    items.push_back(Err("end".to_string()));
    let mut it = RollingCRC::new(&context).iter_result(items);
    let mut out = Vec::new();
    while let Some(r) = it.next() {
        out.push(r);
    }
    let expected_pairs = collect(&context, clean);
    assert_eq!(out.len(), expected_pairs.len() + 2);
    // Windows starting at 0 and 1 end before the error (bytes 0..=3).
    assert_eq!(out[0], Ok(expected_pairs[0]));
    assert_eq!(out[1], Ok(expected_pairs[1]));
    assert_eq!(out[2], Err("bad read".to_string()));
    for k in 2..expected_pairs.len() {
        assert_eq!(out[k + 1], Ok(expected_pairs[k]));
    }
    assert_eq!(out[out.len() - 1], Err("end".to_string()));
}

#[test]
fn errors_before_window_fills() {
    let context = RollingCRCContext::new(2);
    let items: VecDeque<Result<u8, u32>> = vec![Err(7), Ok(b'a'), Err(8), Ok(b'b'), Ok(b'c')]
        .into_iter()
        .collect();
    let mut it = RollingCRC::new(&context).iter_result(items);
    assert_eq!(it.next(), Some(Err(7)));
    assert_eq!(it.next(), Some(Err(8)));
    assert_eq!(it.next(), Some(Ok((0, context.crc(b"ab")))));
    assert_eq!(it.next(), Some(Ok((1, context.crc(b"bc")))));
    assert_eq!(it.next(), None);
}
