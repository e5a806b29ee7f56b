use pcd_reader::{PcdError, PointCloud};

fn literal_block(data: &[u8]) -> Vec<u8> {
    let mut out = Vec::new();
    for chunk in data.chunks(32) {
        out.push((chunk.len() - 1) as u8);
        out.extend_from_slice(chunk);
    }
    out
}

fn load(header: &str, payload: &[u8]) -> PointCloud {
    let mut f = header.as_bytes().to_vec();
    let block = literal_block(payload);
    f.extend_from_slice(&(block.len() as u32).to_le_bytes());
    f.extend_from_slice(&(payload.len() as u32).to_le_bytes());
    f.extend_from_slice(&block);
    PointCloud::from_bytes(&f).unwrap()
}

/// Two points; one column of every supported integer kind.
fn all_kinds() -> PointCloud {
    let header = "FIELDS a b c d e f g\n\
SIZE 1 2 4 8 2 4 8\n\
TYPE U U U U I I I\n\
POINTS 2\n\
DATA binary_compressed\n";
    let mut p = Vec::new();
    p.extend_from_slice(&[7, 200]);
    p.extend_from_slice(&[0x34, 0x12, 0xff, 0xff]);
    p.extend_from_slice(&[1, 0, 0, 0, 0x78, 0x56, 0x34, 0x12]);
    p.extend_from_slice(&[1, 2, 3, 4, 5, 6, 7, 8]);
    p.extend_from_slice(&u64::MAX.to_le_bytes());
    p.extend_from_slice(&(-2i16).to_le_bytes());
    p.extend_from_slice(&300i16.to_le_bytes());
    p.extend_from_slice(&(-70000i32).to_le_bytes());
    p.extend_from_slice(&i32::MIN.to_le_bytes());
    p.extend_from_slice(&(-1i64).to_le_bytes());
    p.extend_from_slice(&123456789012i64.to_le_bytes());
    load(header, &p)
}

#[test]
fn u8_column_is_the_raw_slice() {
    let pcd = all_kinds();
    assert_eq!(pcd.get_data_u8("a").unwrap(), vec![7, 200]);
    assert_eq!(pcd.get_data_u8("a").unwrap(), pcd.decompressed_buffer[0..2].to_vec());
}

#[test]
fn unsigned_columns_are_little_endian() {
    let pcd = all_kinds();
    assert_eq!(pcd.get_data_u16("b").unwrap(), vec![0x1234, 0xffff]);
    assert_eq!(pcd.get_data_u32("c").unwrap(), vec![1, 0x12345678]);
    assert_eq!(pcd.get_data_u64("d").unwrap(), vec![0x0807060504030201, u64::MAX]);
}

#[test]
fn signed_columns_are_twos_complement() {
    let pcd = all_kinds();
    assert_eq!(pcd.get_data_i16("e").unwrap(), vec![-2, 300]);
    assert_eq!(pcd.get_data_i32("f").unwrap(), vec![-70000, i32::MIN]);
    assert_eq!(pcd.get_data_i64("g").unwrap(), vec![-1, 123456789012]);
}

#[test]
fn column_offsets_follow_declaration_order() {
    let pcd = all_kinds();
    assert_eq!(pcd.get_data_offset("a", "U", 1), Ok(0));
    assert_eq!(pcd.get_data_offset("b", "U", 2), Ok(1));
    assert_eq!(pcd.get_data_offset("c", "U", 4), Ok(3));
    assert_eq!(pcd.get_data_offset("g", "I", 8), Ok(21));
    assert_eq!(pcd.read_data("b", "U", 2).unwrap(), &[0x34, 0x12, 0xff, 0xff]);
}

#[test]
fn every_declared_field_has_num_points_elements() {
    let pcd = all_kinds();
    assert_eq!(pcd.get_data_u8("a").unwrap().len(), 2);
    assert_eq!(pcd.get_data_u16("b").unwrap().len(), 2);
    assert_eq!(pcd.get_data_u32("c").unwrap().len(), 2);
    assert_eq!(pcd.get_data_u64("d").unwrap().len(), 2);
    assert_eq!(pcd.get_data_i16("e").unwrap().len(), 2);
    assert_eq!(pcd.get_data_i32("f").unwrap().len(), 2);
    assert_eq!(pcd.get_data_i64("g").unwrap().len(), 2);
}

#[test]
fn wrong_type_or_width_is_a_mismatch() {
    let pcd = all_kinds();
    assert_eq!(pcd.read_data("a", "F", 4).err(), Some(PcdError::TypeMismatch));
    assert_eq!(pcd.get_data_u16("a").err(), Some(PcdError::TypeMismatch));
    assert_eq!(pcd.get_data_i16("b").err(), Some(PcdError::TypeMismatch));
    assert_eq!(pcd.get_data_u64("g").err(), Some(PcdError::TypeMismatch));
    assert_eq!(pcd.get_data_offset("c", "U", 8), Err(PcdError::TypeMismatch));
}

#[test]
fn absent_name_is_not_found() {
    let pcd = all_kinds();
    assert_eq!(pcd.get_data_u8("z").err(), Some(PcdError::FieldNotFound));
    assert_eq!(pcd.get_data_i32("").err(), Some(PcdError::FieldNotFound));
    assert_eq!(pcd.get_data_offset("A", "U", 1), Err(PcdError::FieldNotFound));
}

#[test]
fn first_of_duplicate_names_wins() {
    let pcd = load(
        "FIELDS a a\nSIZE 1 2\nTYPE U U\nPOINTS 1\nDATA binary_compressed\n",
        &[9, 1, 0],
    );
    assert_eq!(pcd.get_data_u8("a").unwrap(), vec![9]);
    assert_eq!(pcd.get_data_u16("a").err(), Some(PcdError::TypeMismatch));
}

#[test]
fn loaded_cloud_is_well_formed() {
    let mut pcd = all_kinds();
    assert!(pcd.is_well_formed());
    pcd.decompressed_buffer.pop();
    assert!(!pcd.is_well_formed());
    let mut pcd = all_kinds();
    pcd.header.type_list.pop();
    assert!(!pcd.is_well_formed());
}
