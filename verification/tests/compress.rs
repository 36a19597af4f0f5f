//! Compression of payloads.
use spark::tunnel::compress::{
    decompress, keep_if_smaller, maybe_compress, CompressError, ALGO_LZ4, ALGO_NONE,
    DEFAULT_MIN_SIZE,
};

#[test]
fn compressible_payload_round_trips() {
    let payload = vec![0xABu8; 4096]; // highly compressible
    let c = maybe_compress(&payload, DEFAULT_MIN_SIZE).expect("should compress");
    assert!(c.len() < payload.len());
    assert_eq!(decompress(ALGO_LZ4, &c).unwrap(), payload);
}

#[test]
fn tiny_or_incompressible_returns_none() {
    // Below the threshold.
    assert!(maybe_compress(&[1, 2, 3], DEFAULT_MIN_SIZE).is_none());
    // Incompressible (pseudo-random) data does not shrink.
    let mut s = 0x1234_5678_9abc_def0u64;
    let random: Vec<u8> = (0..1024)
        .map(|_| {
            s = s.wrapping_mul(6364136223846793005).wrapping_add(1);
            (s >> 33) as u8
        })
        .collect();
    assert!(maybe_compress(&random, DEFAULT_MIN_SIZE).is_none());
}

#[test]
fn algo_none_passes_through() {
    assert_eq!(decompress(ALGO_NONE, b"raw").unwrap(), b"raw");
}

#[test]
fn decompress_rejects_bomb_unknown_and_garbage() {
    // Forged size prefix claiming 2 MiB → rejected before allocating.
    let mut bomb = (2u32 * 1024 * 1024).to_le_bytes().to_vec();
    bomb.extend_from_slice(&[0u8; 8]);
    assert!(matches!(
        decompress(ALGO_LZ4, &bomb),
        Err(CompressError::TooLarge(_))
    ));
    assert_eq!(
        decompress(ALGO_LZ4, &bomb),
        Err(CompressError::TooLarge(2 * 1024 * 1024))
    );
    // Unknown algorithm.
    assert!(matches!(
        decompress(7, b"x"),
        Err(CompressError::UnknownAlgo(7))
    ));
    // Garbage LZ4 (valid small size prefix, corrupt body).
    let mut garbage = 16u32.to_le_bytes().to_vec();
    garbage.extend_from_slice(&[0xFF; 3]);
    assert!(matches!(
        decompress(ALGO_LZ4, &garbage),
        Err(CompressError::Lz4)
    ));
    // Too short for even a size prefix.
    assert!(matches!(
        decompress(ALGO_LZ4, &[1, 2]),
        Err(CompressError::Lz4)
    ));
}

#[test]
fn a_compressed_form_is_kept_only_where_it_is_smaller() {
    assert_eq!(keep_if_smaller(b"abcd", vec![1, 2, 3]), Some(vec![1, 2, 3]));
    assert_eq!(keep_if_smaller(b"abcd", vec![1, 2, 3, 4]), None);
}
