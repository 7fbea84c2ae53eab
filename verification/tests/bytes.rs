use lsm_core::bytes::{equal, rank, Rank};
use lsm_core::types::{
    is_tombstone, tombstone_value, BLOCK_MAX_SIZE, BLOCK_MIN_FREE_SIZE, TOMBSTONE,
    WAL_LOG_MAX_SIZE,
};

#[test]
fn equal_compares_length_and_bytes() {
    assert!(equal(b"", b""));
    assert!(equal(b"abc", b"abc"));
    assert!(!equal(b"abc", b"abd"));
    assert!(!equal(b"abc", b"ab"));
    assert!(!equal(b"", b"a"));
    assert!(!equal(b"xbc", b"abc"));
}

#[test]
fn rank_is_dictionary_order() {
    assert_eq!(rank(b"", b""), Rank::Same);
    assert_eq!(rank(b"", b"a"), Rank::Below);
    assert_eq!(rank(b"a", b""), Rank::Above);
    assert_eq!(rank(b"abc", b"abc"), Rank::Same);
    assert_eq!(rank(b"abc", b"abd"), Rank::Below);
    assert_eq!(rank(b"abd", b"abc"), Rank::Above);
    assert_eq!(rank(b"ab", b"abc"), Rank::Below);
    assert_eq!(rank(b"abc", b"ab"), Rank::Above);
    assert_eq!(rank(b"b", b"abc"), Rank::Above);
    assert_eq!(rank(b"\x7f", b"\x80"), Rank::Below);
    assert_eq!(rank(b"\xff", b"\x00\xff"), Rank::Above);
}

#[test]
fn rank_agrees_with_the_order_of_byte_vectors() {
    let samples: Vec<Vec<u8>> = vec![
        vec![],
        vec![0],
        vec![0, 0],
        vec![0, 1],
        vec![1],
        vec![1, 0],
        vec![127],
        vec![128],
        vec![255],
        vec![255, 255],
    ];
    for a in samples.iter() {
        for b in samples.iter() {
            let expected = if a < b {
                Rank::Below
            } else if a == b {
                Rank::Same
            } else {
                Rank::Above
            };
            assert_eq!(rank(a, b), expected);
        }
    }
}

#[test]
fn the_tombstone_is_four_fixed_bytes() {
    assert_eq!(TOMBSTONE, [0x6b, 0xe5, 0xa5, 0xa2]);
    assert_eq!(TOMBSTONE, 1810212258u32.to_be_bytes());
    assert_eq!(tombstone_value(), vec![0x6b, 0xe5, 0xa5, 0xa2]);
    assert!(is_tombstone(&TOMBSTONE));
    assert!(is_tombstone(&tombstone_value()));
    assert!(!is_tombstone(&[0x6b, 0xe5, 0xa5]));
    assert!(!is_tombstone(&[0x6b, 0xe5, 0xa5, 0xa3]));
    assert!(!is_tombstone(&[0x6b, 0xe5, 0xa5, 0xa2, 0]));
    assert!(!is_tombstone(&[]));
}

#[test]
fn sizes_of_block_and_file() {
    assert_eq!(BLOCK_MAX_SIZE, 32 * 1024);
    assert_eq!(WAL_LOG_MAX_SIZE, 4 * 1024 * 1024);
    assert_eq!(BLOCK_MIN_FREE_SIZE, 6);
}
