use adb_fastboot::compress::{
    compress, compress_outcome, decompress, decompress_outcome, lz4_can_read, CompressionError, CompressionType,
};
use adb_fastboot::constants::{SYNC_FLAG_BROTLI, SYNC_FLAG_LZ4, SYNC_FLAG_NONE, SYNC_FLAG_ZSTD};

#[test]
fn test_compression_type_flag_roundtrip() {
    for (ct, flag) in &[
        (CompressionType::Uncompressed, SYNC_FLAG_NONE),
        (CompressionType::Brotli, SYNC_FLAG_BROTLI),
        (CompressionType::LZ4, SYNC_FLAG_LZ4),
        (CompressionType::Zstd, SYNC_FLAG_ZSTD),
    ] {
        assert_eq!(ct.to_flag(), *flag);
        assert_eq!(CompressionType::from_flag(*flag).unwrap(), *ct);
    }
}

#[test]
fn test_compress_decompress_none() {
    let data = b"hello world";
    let compressed = compress(CompressionType::Uncompressed, data).unwrap();
    assert_eq!(compressed, data);
    let decompressed = decompress(CompressionType::Uncompressed, &compressed).unwrap();
    assert_eq!(decompressed, data);
}

#[test]
fn test_compress_decompress_lz4() {
    let data = b"hello world, this is a test of LZ4 compression in adb sendrecv_v2";
    let compressed = compress(CompressionType::LZ4, data).unwrap();
    assert!(compressed.len() <= data.len() + 8, "LZ4 should not expand much");
    let decompressed = decompress(CompressionType::LZ4, &compressed).unwrap();
    assert_eq!(decompressed, data);
}

#[test]
fn test_compress_decompress_brotli() {
    let data = b"hello world, this is a test of brotli compression in adb sendrecv_v2";
    let compressed = compress(CompressionType::Brotli, data).unwrap();
    let decompressed = decompress(CompressionType::Brotli, &compressed).unwrap();
    assert_eq!(decompressed, data);
}

#[test]
fn test_compress_decompress_zstd() {
    let data = b"hello world, this is a test of zstd compression in adb sendrecv_v2";
    let compressed = compress(CompressionType::Zstd, data).unwrap();
    let decompressed = decompress(CompressionType::Zstd, &compressed).unwrap();
    assert_eq!(decompressed, data);
}

#[test]
fn test_from_flag_unknown_type() {
    let result = CompressionType::from_flag(0xFF);
    assert!(result.is_err());
    assert!(matches!(result, Err(CompressionError::UnknownType(0xFF))));
}

#[test]
fn compressed_data_is_smaller_and_differs() {
    let data = vec![7u8; 10_000];
    for ct in [CompressionType::Brotli, CompressionType::LZ4, CompressionType::Zstd] {
        let packed = compress(ct, &data).unwrap();
        assert!(packed.len() < 1_000);
        assert_eq!(decompress(ct, &packed).unwrap(), data);
    }
}

#[test]
fn empty_data_goes_there_and_back() {
    for ct in
        [CompressionType::Uncompressed, CompressionType::Brotli, CompressionType::LZ4, CompressionType::Zstd]
    {
        let packed = compress(ct, &[]).unwrap();
        assert_eq!(decompress(ct, &packed).unwrap(), Vec::<u8>::new());
    }
}

#[test]
fn garbage_is_refused() {
    for (ct, garbage) in [
        (CompressionType::Brotli, [0xff, 0xff, 0xff, 0x7f, 1]),
        (CompressionType::LZ4, [5, 0, 0, 0, 0xf0]),
        (CompressionType::Zstd, [0xff, 0xff, 0xff, 0x7f, 1]),
    ] {
        assert!(matches!(decompress(ct, &garbage), Err(CompressionError::Decompress(_))));
    }
}

#[test]
fn outcomes_become_results() {
    assert_eq!(compress_outcome(Ok(vec![1])), Ok(vec![1]));
    assert_eq!(compress_outcome(Err("x".to_string())), Err(CompressionError::Compress("x".to_string())));
    assert_eq!(decompress_outcome(Err("y".to_string())), Err(CompressionError::Decompress("y".to_string())));
    assert!(CompressionError::UnknownType(255).message().len() > 0);
}

#[test]
fn lengths_that_cannot_be_added_up_are_refused() {
    let mut data = vec![0xffu8; 5 + 16_843_009];
    data[..5].copy_from_slice(&[10, 0, 0, 0, 0xf0]);
    assert!(!lz4_can_read(&data));
    assert_eq!(
        decompress(CompressionType::LZ4, &data),
        Err(CompressionError::Decompress("a length in the data is too large".to_string()))
    );
    data.truncate(5 + 1_000_000);
    assert!(lz4_can_read(&data));
    assert!(matches!(
        decompress(CompressionType::LZ4, &data),
        Err(CompressionError::Decompress(m)) if m != "a length in the data is too large"
    ));
}

#[test]
fn long_runs_go_there_and_back() {
    let data = vec![0xffu8; 3_000_000];
    let packed = compress(CompressionType::LZ4, &data).unwrap();
    assert!(lz4_can_read(&packed));
    assert_eq!(&packed[..4], (data.len() as u32).to_le_bytes());
    assert_eq!(decompress(CompressionType::LZ4, &packed).unwrap(), data);
}

#[test]
fn literals_may_be_any_bytes() {
    let size: usize = 17_000_000;
    let mut data = (size as u32).to_le_bytes().to_vec();
    data.push(0xf0);
    data.extend(vec![0xffu8; (size - 15) / 255]);
    data.push(((size - 15) % 255) as u8);
    data.extend(vec![0xffu8; size]);
    assert!(lz4_can_read(&data));
    assert_eq!(decompress(CompressionType::LZ4, &data).unwrap(), vec![0xffu8; size]);
}

#[test]
fn lengths_of_matches_are_checked_too() {
    let mut data = vec![0xffu8; 9 + 16_843_009];
    data[..9].copy_from_slice(&[10, 0, 0, 0, 0x1f, 7, 1, 0, 0xff]);
    assert!(!lz4_can_read(&data));
    assert!(matches!(decompress(CompressionType::LZ4, &data), Err(CompressionError::Decompress(_))));
    assert!(lz4_can_read(&[10, 0, 0, 0, 0x1f, 7, 1, 0, 0xff, 3]));
}
