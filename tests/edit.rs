use scalpel::edit::{AnnotatedBytes, EditError};
use scalpel::fill::{pad_with, FillPattern};
use scalpel::offset::{ByteOffset, Magnitude};

fn unit(n: u64) -> ByteOffset {
    ByteOffset::new(n, Magnitude::Unit)
}

fn bytes_of(a: &AnnotatedBytes) -> Vec<u8> {
    a.bytes.to_vec()
}

#[test]
fn test_graft_ones() {
    let size = 40usize;
    let mut in_bytes = AnnotatedBytes::from_vec((0..64u8).map(|i| i.wrapping_mul(37) | 1).collect());
    let graft_bytes = AnnotatedBytes::from_vec(vec![0u8; 8]);
    let graft_len = graft_bytes.bytes.len();

    in_bytes
        .graft(graft_bytes, ByteOffset::new(0, Magnitude::Unit), ByteOffset::new(size as u64, Magnitude::Unit), FillPattern::One)
        .expect("Failed to graft");

    let ones = vec![255u8; size - graft_len];
    let zeros = vec![0u8; graft_len];
    assert_eq!(in_bytes.bytes[0..graft_len], zeros[..]);
    assert_eq!(in_bytes.bytes[graft_len..size], ones[..]);
    assert_ne!(in_bytes.bytes[size], 255u8);
}

#[test]
fn graft_fill_one_over_zeros() {
    let mut target = AnnotatedBytes::from_vec(vec![0u8; 40]);
    let repl = AnnotatedBytes::from_vec(vec![0x5A]);
    target.graft(repl, unit(0), unit(40), FillPattern::One).unwrap();
    let mut expected = vec![0x5Au8];
    expected.extend(vec![0xFFu8; 39]);
    assert_eq!(bytes_of(&target), expected);
    assert_eq!(target.bytes.len(), 40);
}

#[test]
fn graft_too_long_replacement_fails() {
    let mut target = AnnotatedBytes::from_vec(vec![1, 2, 3, 4]);
    let repl = AnnotatedBytes::from_vec(vec![9, 9, 9]);
    assert_eq!(target.graft(repl, unit(1), unit(2), FillPattern::Zero), Err(EditError::DoesNotFit));
    assert_eq!(bytes_of(&target), vec![1, 2, 3, 4]);
}

#[test]
fn graft_keeps_suffix() {
    let mut target = AnnotatedBytes::from_vec(vec![1, 2, 3, 4, 5, 6, 7, 8]);
    let repl = AnnotatedBytes::from_vec(vec![9]);
    target.graft(repl, unit(2), unit(3), FillPattern::Zero).unwrap();
    assert_eq!(bytes_of(&target), vec![1, 2, 9, 0, 0, 6, 7, 8]);
}

#[test]
fn graft_grows_past_end() {
    let mut target = AnnotatedBytes::from_vec(vec![1, 2, 3]);
    let repl = AnnotatedBytes::from_vec(vec![7, 7]);
    target.graft(repl, unit(2), unit(4), FillPattern::One).unwrap();
    assert_eq!(bytes_of(&target), vec![1, 2, 7, 7, 0xFF, 0xFF]);
}

#[test]
fn graft_start_past_end_pads() {
    let mut target = AnnotatedBytes::from_vec(vec![1]);
    let repl = AnnotatedBytes::from_vec(vec![7]);
    target.graft(repl, unit(3), unit(1), FillPattern::Zero).unwrap();
    assert_eq!(bytes_of(&target), vec![1, 0, 0, 7]);
}

#[test]
fn graft_random_keeps_replacement_and_length() {
    let mut target = AnnotatedBytes::from_vec(vec![3u8; 10]);
    let repl = AnnotatedBytes::from_vec(vec![1, 2]);
    target.graft(repl, unit(4), unit(5), FillPattern::Random).unwrap();
    let b = bytes_of(&target);
    assert_eq!(b.len(), 10);
    assert_eq!(&b[0..4], &[3u8; 4][..]);
    assert_eq!(&b[4..6], &[1u8, 2][..]);
    assert_eq!(b[9], 3);
}

#[test]
fn stance_from_start_keeps_prefix() {
    let mut b = AnnotatedBytes::from_vec(vec![1, 2, 3, 4, 5]);
    b.stance(unit(0), unit(3));
    assert_eq!(bytes_of(&b), vec![1, 2, 3]);
    let mut b = AnnotatedBytes::from_vec(vec![1, 2, 3]);
    b.stance(unit(0), unit(10));
    assert_eq!(bytes_of(&b), vec![1, 2, 3]);
}

#[test]
fn stance_start_is_first_kept_byte() {
    let mut b = AnnotatedBytes::from_vec(vec![10, 11, 12, 13, 14, 15]);
    b.stance(unit(2), unit(3));
    assert_eq!(bytes_of(&b), vec![12, 13, 14]);
}

#[test]
fn stance_past_end_is_empty() {
    let mut b = AnnotatedBytes::from_vec(vec![1, 2]);
    b.stance(unit(5), unit(3));
    assert_eq!(bytes_of(&b), Vec::<u8>::new());
}

#[test]
fn stitch_orders_and_pads() {
    let f1 = AnnotatedBytes::from_vec(vec![1, 2, 3]);
    let f2 = AnnotatedBytes::from_vec(vec![4, 5]);
    let out = AnnotatedBytes::stitch(vec![(f2, unit(20)), (f1, unit(5))], FillPattern::Zero).unwrap();
    let b = bytes_of(&out);
    assert_eq!(b.len(), 22);
    assert_eq!(&b[0..5], &[0u8; 5][..]);
    assert_eq!(&b[5..8], &[1u8, 2, 3][..]);
    assert_eq!(&b[8..20], &[0u8; 12][..]);
    assert_eq!(&b[20..], &[4u8, 5][..]);
}

#[test]
fn stitch_pads_with_ones() {
    let f1 = AnnotatedBytes::from_vec(vec![1]);
    let f2 = AnnotatedBytes::from_vec(vec![2]);
    let out = AnnotatedBytes::stitch(vec![(f1, unit(1)), (f2, unit(3))], FillPattern::One).unwrap();
    assert_eq!(bytes_of(&out), vec![0xFF, 1, 0xFF, 2]);
}

#[test]
fn stitch_overlap_fails() {
    let f1 = AnnotatedBytes::from_vec(vec![1, 2]);
    let f2 = AnnotatedBytes::from_vec(vec![3]);
    let r = AnnotatedBytes::stitch(vec![(f1, unit(0)), (f2, unit(1))], FillPattern::Zero);
    assert_eq!(r.err(), Some(EditError::Overlap));
}

#[test]
fn stitch_equal_offsets_keep_given_order() {
    let f1 = AnnotatedBytes::from_vec(vec![]);
    let f2 = AnnotatedBytes::from_vec(vec![7]);
    let out = AnnotatedBytes::stitch(vec![(f1, unit(2)), (f2, unit(2))], FillPattern::Zero).unwrap();
    assert_eq!(bytes_of(&out), vec![0, 0, 7]);
    let f1 = AnnotatedBytes::from_vec(vec![]);
    let f2 = AnnotatedBytes::from_vec(vec![7]);
    let r = AnnotatedBytes::stitch(vec![(f2, unit(2)), (f1, unit(2))], FillPattern::Zero);
    assert_eq!(r.err(), Some(EditError::Overlap));
}

#[test]
fn stitch_nothing_is_empty() {
    let out = AnnotatedBytes::stitch(Vec::new(), FillPattern::One).unwrap();
    assert_eq!(out.bytes.len(), 0);
}

#[test]
fn stitch_random_keeps_fragments() {
    let f1 = AnnotatedBytes::from_vec(vec![1, 2]);
    let out = AnnotatedBytes::stitch(vec![(f1, unit(6))], FillPattern::Random).unwrap();
    let b = bytes_of(&out);
    assert_eq!(b.len(), 8);
    assert_eq!(&b[6..], &[1u8, 2][..]);
}

#[test]
fn fill_default_is_zero() {
    assert_eq!(FillPattern::default(), FillPattern::Zero);
}

#[test]
fn offsets_apply_units() {
    assert_eq!(ByteOffset::new(3, Magnitude::Ki).as_u64(), 3072);
    assert_eq!(ByteOffset::new(2, Magnitude::M).as_u64(), 2_000_000);
    assert_eq!(ByteOffset::new(1, Magnitude::Gi).as_usize(), 1 << 30);
}

#[test]
fn graft_too_long_with_huge_start_fails() {
    let mut target = AnnotatedBytes::from_vec(vec![1, 2]);
    let repl = AnnotatedBytes::from_vec(vec![9, 9]);
    let r = target.graft(repl, unit(u64::MAX), unit(1), FillPattern::Random);
    assert_eq!(r, Err(EditError::DoesNotFit));
    assert_eq!(bytes_of(&target), vec![1, 2]);
}

#[test]
fn graft_own_window_back_is_identity() {
    let mut target = AnnotatedBytes::from_vec(vec![1, 2, 3, 4, 5]);
    let repl = AnnotatedBytes::from_vec(vec![2, 3, 4]);
    target.graft(repl, unit(1), unit(3), FillPattern::Random).unwrap();
    assert_eq!(bytes_of(&target), vec![1, 2, 3, 4, 5]);
}

#[test]
fn stitch_random_without_gaps() {
    let f1 = AnnotatedBytes::from_vec(vec![1, 2]);
    let f2 = AnnotatedBytes::from_vec(vec![3]);
    let out = AnnotatedBytes::stitch(vec![(f2, unit(2)), (f1, unit(0))], FillPattern::Random).unwrap();
    assert_eq!(bytes_of(&out), vec![1, 2, 3]);
}

#[test]
fn pad_with_appends_pattern_or_noise() {
    let mut b = bytes::BytesMut::from(&[7u8][..]);
    pad_with(&mut b, 3, FillPattern::One, &[]);
    assert_eq!(&b[..], &[7u8, 0xFF, 0xFF][..]);
    let mut b = bytes::BytesMut::from(&[7u8][..]);
    pad_with(&mut b, 3, FillPattern::Random, &[4, 5]);
    assert_eq!(&b[..], &[7u8, 4, 5][..]);
    let mut b = bytes::BytesMut::from(&[7u8][..]);
    pad_with(&mut b, 2, FillPattern::Zero, &[]);
    assert_eq!(&b[..], &[7u8, 0][..]);
}
