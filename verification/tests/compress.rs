use std::io::Write;

use nbt::decode::from_gzip;
use nbt::decode::from_zlib;
use nbt::encode::encode;
use nbt::error::Error;
use nbt::value::Value;

fn sample() -> Value {
    Value::Compound(vec![
        ("name".to_string(), Value::String("Bananrama".to_string())),
        ("count".to_string(), Value::Int(7)),
    ])
}

#[test]
fn gzip_round_trip() {
    let raw = encode(&sample(), None).unwrap();
    let mut gz = flate2::write::GzEncoder::new(Vec::new(), flate2::Compression::default());
    gz.write_all(&raw).unwrap();
    let compressed = gz.finish().unwrap();
    assert_ne!(compressed, raw);
    assert_eq!(from_gzip(&compressed).unwrap(), sample());
}

#[test]
fn zlib_round_trip() {
    let raw = encode(&sample(), None).unwrap();
    let mut z = flate2::write::ZlibEncoder::new(Vec::new(), flate2::Compression::default());
    z.write_all(&raw).unwrap();
    let compressed = z.finish().unwrap();
    assert_ne!(compressed, raw);
    assert_eq!(from_zlib(&compressed).unwrap(), sample());
}

#[test]
fn gzip_rejects_malformed_input() {
    let garbage = vec![0x1F, 0x8B, 0xFF, 0x00, 0x01, 0x02];
    match from_gzip(&garbage) {
        Err(Error::Io(_)) | Err(Error::IncompleteNbtValue) => (),
        other => panic!("expected a transport failure, got {:?}", other),
    }
}

#[test]
fn zlib_rejects_truncated_input() {
    let raw = encode(&sample(), None).unwrap();
    let mut z = flate2::write::ZlibEncoder::new(Vec::new(), flate2::Compression::default());
    z.write_all(&raw).unwrap();
    let mut compressed = z.finish().unwrap();
    compressed.truncate(compressed.len() / 2);
    match from_zlib(&compressed) {
        Err(Error::Io(_)) | Err(Error::IncompleteNbtValue) => (),
        other => panic!("expected a transport failure, got {:?}", other),
    }
}

#[test]
fn gzip_error_in_payload_still_surfaces() {
    // Compress a stream whose first byte is not the record tag: the
    // decompression succeeds, the decode then fails.
    let mut gz = flate2::write::GzEncoder::new(Vec::new(), flate2::Compression::default());
    gz.write_all(&[0x01]).unwrap();
    let compressed = gz.finish().unwrap();
    assert_eq!(from_gzip(&compressed), Err(Error::NoRootCompound));
}
