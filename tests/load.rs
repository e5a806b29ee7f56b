use byteorder::ByteOrder;
use pcd_reader::{PcdError, PointCloud};

/// An LZF block made only of literal runs, which expands to `data`.
fn literal_block(data: &[u8]) -> Vec<u8> {
    let mut out = Vec::new();
    for chunk in data.chunks(32) {
        out.push((chunk.len() - 1) as u8);
        out.extend_from_slice(chunk);
    }
    out
}

fn file_with_block(header: &str, block: &[u8], uncompressed: u32) -> Vec<u8> {
    let mut f = header.as_bytes().to_vec();
    f.extend_from_slice(&(block.len() as u32).to_le_bytes());
    f.extend_from_slice(&uncompressed.to_le_bytes());
    f.extend_from_slice(block);
    f
}

fn file(header: &str, payload: &[u8]) -> Vec<u8> {
    file_with_block(header, &literal_block(payload), payload.len() as u32)
}

const SMALL_HEADER: &str = "# .PCD v0.7 - Point Cloud Data file format\n\
VERSION 0.7\n\
FIELDS a b\n\
SIZE 2 1\n\
TYPE U U\n\
COUNT 1 1\n\
WIDTH 3\n\
HEIGHT 1\n\
VIEWPOINT 0 0 0 1 0 0 0\n\
POINTS 3\n\
DATA binary_compressed\n";

fn small_payload() -> Vec<u8> {
    vec![1, 0, 2, 1, 255, 255, 7, 8, 9]
}

#[test]
fn loads_schema_and_payload() {
    let pcd = PointCloud::from_bytes(&file(SMALL_HEADER, &small_payload())).unwrap();
    assert_eq!(pcd.header.data_format, "binary_compressed");
    assert_eq!(pcd.header.num_points, 3);
    assert_eq!(pcd.header.field_names, ["a", "b"]);
    assert_eq!(pcd.header.size_list, [2, 1]);
    assert_eq!(pcd.header.type_list, ["U", "U"]);
    assert_eq!(pcd.decompressed_buffer, small_payload());
}

#[test]
fn layout_sum_matches_payload() {
    let pcd = PointCloud::from_bytes(&file(SMALL_HEADER, &small_payload())).unwrap();
    let sum: usize = pcd.header.size_list.iter().sum();
    assert_eq!(sum * pcd.header.num_points, pcd.decompressed_buffer.len());
}

#[test]
fn repeated_spaces_and_crlf_are_whitespace() {
    let header = "FIELDS  a\tb\r\nSIZE 2 1\r\nTYPE U U\r\nPOINTS 3\r\nDATA binary_compressed\r\n";
    let pcd = PointCloud::from_bytes(&file(header, &small_payload())).unwrap();
    assert_eq!(pcd.header.field_names, ["a", "b"]);
    assert_eq!(pcd.header.num_points, 3);
}

#[test]
fn other_data_format_is_unsupported() {
    let header = "FIELDS a\nSIZE 1\nTYPE U\nPOINTS 1\nDATA ascii\n1\n";
    let r = PointCloud::from_bytes(header.as_bytes());
    assert_eq!(r.err(), Some(PcdError::UnsupportedFormat));
    let header = "FIELDS a\nSIZE 1\nTYPE U\nPOINTS 1\nDATA binary\n";
    let r = PointCloud::from_bytes(&file(header, &[5]));
    assert_eq!(r.err(), Some(PcdError::UnsupportedFormat));
}

#[test]
fn unknown_directive_is_rejected() {
    let header = "FIELDS a\nCOLOUR red\nDATA binary_compressed\n";
    let r = PointCloud::from_bytes(&file(header, &[]));
    assert_eq!(r.err(), Some(PcdError::HeaderParseFailure));
}

#[test]
fn points_needs_one_integer() {
    let r = PointCloud::from_bytes(&file("POINTS 1 2\nDATA binary_compressed\n", &[]));
    assert_eq!(r.err(), Some(PcdError::HeaderParseFailure));
    let r = PointCloud::from_bytes(&file("POINTS x\nDATA binary_compressed\n", &[]));
    assert_eq!(r.err(), Some(PcdError::HeaderParseFailure));
    let r = PointCloud::from_bytes(&file("POINTS 99999999999999999999999\nDATA binary_compressed\n", &[]));
    assert_eq!(r.err(), Some(PcdError::HeaderParseFailure));
}

#[test]
fn size_needs_integers() {
    let header = "FIELDS a\nSIZE four\nTYPE U\nPOINTS 1\nDATA binary_compressed\n";
    let r = PointCloud::from_bytes(&file(header, &[1]));
    assert_eq!(r.err(), Some(PcdError::HeaderParseFailure));
}

#[test]
fn data_needs_one_value() {
    let header = "FIELDS a\nSIZE 1\nTYPE U\nPOINTS 1\nDATA binary_compressed extra\n";
    let r = PointCloud::from_bytes(&file(header, &[1]));
    assert_eq!(r.err(), Some(PcdError::HeaderParseFailure));
}

#[test]
fn schema_lists_must_agree() {
    let header = "FIELDS a b\nSIZE 1\nTYPE U U\nPOINTS 1\nDATA binary_compressed\n";
    let r = PointCloud::from_bytes(&file(header, &[1]));
    assert_eq!(r.err(), Some(PcdError::HeaderParseFailure));
}

#[test]
fn truncated_input_is_an_io_failure() {
    let r = PointCloud::from_bytes(b"FIELDS a\nSIZE 1");
    assert_eq!(r.err(), Some(PcdError::IoFailure));
    let r = PointCloud::from_bytes(b"DATA binary_compressed\n\x03\x00\x00");
    assert_eq!(r.err(), Some(PcdError::IoFailure));
    let full = file(SMALL_HEADER, &small_payload());
    let r = PointCloud::from_bytes(&full[..full.len() - 1]);
    assert_eq!(r.err(), Some(PcdError::IoFailure));
}

#[test]
fn corrupt_block_fails_to_decompress() {
    // a back reference before the start of the output
    let r = PointCloud::from_bytes(&file_with_block(SMALL_HEADER, &[0x20, 0x05], 9));
    assert_eq!(r.err(), Some(PcdError::DecompressionFailure));
    let r = PointCloud::from_bytes(&file_with_block(SMALL_HEADER, &[], 9));
    assert_eq!(r.err(), Some(PcdError::DecompressionFailure));
}

#[test]
fn short_expansion_fails_to_decompress() {
    // the block holds 8 bytes but the prefix promises 9
    let block = literal_block(&small_payload()[..8]);
    let r = PointCloud::from_bytes(&file_with_block(SMALL_HEADER, &block, 9));
    assert_eq!(r.err(), Some(PcdError::DecompressionFailure));
}

#[test]
fn payload_must_match_schema() {
    let r = PointCloud::from_bytes(&file(SMALL_HEADER, &small_payload()[..6]));
    assert_eq!(r.err(), Some(PcdError::DecompressionFailure));
}

#[test]
fn round_trip_sample_layout() {
    let n: usize = 159602;
    let mut payload = Vec::with_capacity(n * 14);
    for i in 0..n {
        payload.extend_from_slice(&(i as f32).to_le_bytes());
    }
    for i in 0..n {
        payload.extend_from_slice(&((i % 100) as f32 * 0.5).to_le_bytes());
    }
    for _ in 0..n {
        payload.extend_from_slice(&1.25f32.to_le_bytes());
    }
    for i in 0..n {
        payload.push((i % 256) as u8);
    }
    for i in 0..n {
        payload.push((i % 32) as u8);
    }
    assert_eq!(payload.len(), 2234428);
    let block = lzf::compress(&payload).unwrap();
    let header = "# .PCD v0.7 - Point Cloud Data file format\n\
VERSION 0.7\n\
FIELDS x y z intensity ring\n\
SIZE 4 4 4 1 1\n\
TYPE F F F U U\n\
COUNT 1 1 1 1 1\n\
WIDTH 159602\n\
HEIGHT 1\n\
VIEWPOINT 0 0 0 1 0 0 0\n\
POINTS 159602\n\
DATA binary_compressed\n";
    let pcd = PointCloud::from_bytes(&file_with_block(header, &block, payload.len() as u32)).unwrap();
    assert_eq!(pcd.header.data_format, "binary_compressed");
    assert_eq!(pcd.header.num_points, 159602);
    assert_eq!(pcd.header.field_names, ["x", "y", "z", "intensity", "ring"]);
    assert_eq!(pcd.header.size_list, [4, 4, 4, 1, 1]);
    assert_eq!(pcd.header.type_list, ["F", "F", "F", "U", "U"]);
    assert_eq!(pcd.decompressed_buffer.len(), 2234428);
    for name in ["x", "y", "z"] {
        let bytes = pcd.read_data(name, "F", 4).unwrap();
        let mut values = vec![0f32; pcd.header.num_points];
        byteorder::LittleEndian::read_f32_into(bytes, &mut values);
        assert_eq!(values.len(), 159602);
    }
    let x = pcd.read_data("x", "F", 4).unwrap();
    assert_eq!(&x[4..8], &1.0f32.to_le_bytes());
    let intensity = pcd.get_data_u8("intensity").unwrap();
    let ring = pcd.get_data_u8("ring").unwrap();
    assert_eq!(intensity.len(), 159602);
    assert_eq!(ring.len(), 159602);
    assert_eq!(intensity[300], (300 % 256) as u8);
    assert_eq!(ring[33], 1);
}

#[test]
fn oversized_expansion_is_refused() {
    // a single literal, but a promised size beyond what the decompressor supports
    let r = PointCloud::from_bytes(&file_with_block(SMALL_HEADER, &[0, 1], 0x8000_0000));
    assert_eq!(r.err(), Some(PcdError::DecompressionFailure));
    let r = PointCloud::from_bytes(&file_with_block(SMALL_HEADER, &[0, 1], u32::MAX));
    assert_eq!(r.err(), Some(PcdError::DecompressionFailure));
}

#[test]
fn comment_lines_may_hold_any_text() {
    let header = format!("# caf\u{e9} \u{2014} r\u{e9}sum\u{e9}\n{}", SMALL_HEADER);
    let pcd = PointCloud::from_bytes(&file(&header, &small_payload())).unwrap();
    assert_eq!(pcd.header.field_names, ["a", "b"]);
}

#[test]
fn non_ascii_directive_token_is_rejected() {
    let header = "FIELDS \u{e9}\nSIZE 1\nTYPE U\nPOINTS 1\nDATA binary_compressed\n";
    let r = PointCloud::from_bytes(&file(header, &[1]));
    assert_eq!(r.err(), Some(PcdError::HeaderParseFailure));
}
