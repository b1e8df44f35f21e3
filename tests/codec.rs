use ord::retry::retry_delay;
use ord::codec::{
    decode_outpoint, decode_range, decode_satpoint, encode_outpoint, encode_range, encode_satpoint,
    OutPoint, SatPoint,
};
use ord::error::IndexError;
use ord::height::{is_common, starting_ordinal, subsidy};

#[test]
fn range_bytes_are_base_then_length() {
    let b = encode_range(1, 3).unwrap();
    assert_eq!(b, vec![1, 0, 0, 0, 0, 0, 0x10, 0, 0, 0, 0]);
    assert_eq!(decode_range(&b, 0), (1, 3));
}

#[test]
fn range_round_trip() {
    let cases: Vec<(u64, u64)> = vec![
        (0, 1),
        (0, 1_000_000),
        ((1u64 << 51) - 1, (1u64 << 51) - 1 + 2_097_151),
        (123_456_789, 123_456_790),
        (210_000_000_000, 210_000_500_000),
    ];
    for (base, end) in cases {
        let b = encode_range(base, end).unwrap();
        assert_eq!(b.len(), 11);
        assert_eq!(decode_range(&b, 0), (base, end));
    }
}

#[test]
fn range_out_of_domain() {
    assert_eq!(encode_range(1u64 << 51, (1u64 << 51) + 1), Err(IndexError::DomainEncode));
    assert_eq!(encode_range(0, 1u64 << 21), Err(IndexError::DomainEncode));
    assert_eq!(encode_range(7, 7 + (1u64 << 21)), Err(IndexError::DomainEncode));
    assert_eq!(encode_range(5, 4), Err(IndexError::DomainEncode));
    assert!(encode_range(0, (1u64 << 21) - 1).is_ok());
}

#[test]
fn range_unused_bits_are_zero() {
    let b = encode_range((1u64 << 51) - 1, (1u64 << 51) - 1 + (1u64 << 21) - 1).unwrap();
    assert_eq!(b[9], 0);
    assert_eq!(b[10], 0);
    assert_eq!(b[8], 0xff);
}

#[test]
fn outpoint_layout_and_round_trip() {
    let op = OutPoint { txid: [7u8; 32], vout: 0x0102_0304 };
    let b = encode_outpoint(op);
    assert_eq!(b.len(), 36);
    assert_eq!(&b[0..32], &[7u8; 32][..]);
    assert_eq!(&b[32..36], &[4, 3, 2, 1][..]);
    assert_eq!(decode_outpoint(&b), op);
}

#[test]
fn satpoint_layout_and_round_trip() {
    let mut txid = [0u8; 32];
    txid[0] = 9;
    txid[31] = 200;
    let sp = SatPoint { outpoint: OutPoint { txid, vout: 5 }, offset: 0x0a0b };
    let b = encode_satpoint(sp);
    assert_eq!(b.len(), 44);
    assert_eq!(&b[36..44], &[0x0b, 0x0a, 0, 0, 0, 0, 0, 0][..]);
    assert_eq!(decode_satpoint(&b), sp);
}

#[test]
fn subsidy_schedule() {
    assert_eq!(subsidy(0), 1_000_000);
    assert_eq!(subsidy(209_999), 1_000_000);
    assert_eq!(subsidy(210_000), 500_000);
    assert_eq!(subsidy(19 * 210_000), 1);
    assert_eq!(subsidy(20 * 210_000), 0);
    assert_eq!(subsidy(64 * 210_000), 0);
    assert_eq!(subsidy(u64::MAX), 0);
}

#[test]
fn starting_ordinals() {
    assert_eq!(starting_ordinal(0), 0);
    assert_eq!(starting_ordinal(1), 1_000_000);
    assert_eq!(starting_ordinal(210_000), 210_000_000_000);
    assert_eq!(starting_ordinal(210_001), 210_000_500_000);
    assert_eq!(starting_ordinal(u64::MAX), starting_ordinal(64 * 210_000));
}

#[test]
fn uncommon_ordinals_start_blocks() {
    assert!(!is_common(0));
    assert!(is_common(1));
    assert!(!is_common(1_000_000));
    assert!(is_common(999_999));
    assert!(!is_common(210_000_000_000));
    assert!(!is_common(210_000_500_000));
    assert!(is_common(210_000_200_000));
    assert!(is_common(u64::MAX));
}

#[test]
fn retry_backoff_doubles_then_gives_up() {
    assert_eq!(retry_delay(1), Some(100));
    assert_eq!(retry_delay(2), Some(200));
    assert_eq!(retry_delay(7), Some(6400));
    assert_eq!(retry_delay(8), None);
    assert_eq!(retry_delay(100), None);
}

#[test]
fn subsidy_ranges_fit_the_encoding() {
    for h in [0u64, 1, 209_999, 210_000, 19 * 210_000 + 5] {
        let s = subsidy(h);
        let start = starting_ordinal(h);
        assert!(encode_range(start, start + s).is_ok());
        assert!(start + s <= 1u64 << 51);
    }
}
