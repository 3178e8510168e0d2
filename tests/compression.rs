use mcstream::compression::{compress_data, compression_type_from_u8, decompress_data};
use mcstream::error::McStreamError;
use mcstream::CompressionType;

const ALL: [CompressionType; 4] = [
    CompressionType::Uncompressed,
    CompressionType::Zstandard,
    CompressionType::LZ4,
    CompressionType::Brotli,
];

fn large_input() -> Vec<u8> {
    (0..(1usize << 20) + 4097).map(|i| ((i * 31) % 251) as u8 ^ (i >> 12) as u8).collect()
}

fn check_round_trip(data: &[u8]) {
    for alg in ALL {
        let packed = compress_data(data, alg).unwrap();
        let unpacked = decompress_data(&packed, alg).unwrap();
        assert_eq!(unpacked, data, "algorithm {:?}", alg);
    }
}

#[test]
fn compression_round_trips_empty_input() {
    check_round_trip(&[]);
}

#[test]
fn compression_round_trips_one_byte() {
    check_round_trip(&[0x5A]);
}

#[test]
fn compression_round_trips_more_than_a_megabyte() {
    check_round_trip(&large_input());
}

#[test]
fn compressors_actually_compress_repetitive_data() {
    let data = vec![7u8; 100_000];
    for alg in [CompressionType::Zstandard, CompressionType::LZ4, CompressionType::Brotli] {
        let packed = compress_data(&data, alg).unwrap();
        assert!(packed.len() < data.len() / 10, "algorithm {:?}", alg);
        assert_ne!(packed, data);
    }
    assert_eq!(compress_data(&data, CompressionType::Uncompressed).unwrap(), data);
}

#[test]
fn garbage_is_a_decompression_error() {
    let garbage = vec![0xFFu8; 64];
    assert!(matches!(
        decompress_data(&garbage, CompressionType::Zstandard),
        Err(McStreamError::DecompressionError(_))
    ));
    assert!(matches!(
        decompress_data(&garbage, CompressionType::LZ4),
        Err(McStreamError::DecompressionError(_))
    ));
}

#[test]
fn compression_ids_map_to_algorithms() {
    assert_eq!(compression_type_from_u8(0).unwrap(), CompressionType::Uncompressed);
    assert_eq!(compression_type_from_u8(1).unwrap(), CompressionType::Zstandard);
    assert_eq!(compression_type_from_u8(2).unwrap(), CompressionType::LZ4);
    assert_eq!(compression_type_from_u8(3).unwrap(), CompressionType::Brotli);
    assert_eq!(compression_type_from_u8(4), Err(McStreamError::UnsupportedCompression(4)));
    for alg in ALL {
        assert_eq!(compression_type_from_u8(alg.id()).unwrap(), alg);
    }
}
