use puyomdtool::convert::{mapping_type, pal_filename, Convert, Mapping, MappingType};
use puyomdtool::PMDTError;

fn converted(
    input_name: &str,
    output_name: &str,
    common_word: u16,
    map: Vec<u8>,
    pal: Vec<u8>,
) -> (Vec<u8>, Vec<u8>) {
    let input = Mapping::new(input_name, common_word, map, pal).unwrap();
    let output = Mapping::new(output_name, 0, Vec::new(), Vec::new()).unwrap();
    let out = Convert::run(input, output);
    (out.map_data().clone(), out.pal_data().clone())
}

#[test]
fn mapping_type_from_extension() {
    assert_eq!(mapping_type("bg/stage1.bgbyte"), Ok(MappingType::Byte));
    assert_eq!(mapping_type("stage1.bgpalm"), Ok(MappingType::Pal));
    assert_eq!(mapping_type("stage1.bgword"), Ok(MappingType::Word));
    assert_eq!(mapping_type("stage1.bin"), Err(PMDTError::UnknownMappingType));
    assert_eq!(mapping_type(""), Err(PMDTError::UnknownMappingType));
}

#[test]
fn palette_side_file_name() {
    assert_eq!(pal_filename("stage1.bgpalm"), "stage1.bgpalp");
    assert_eq!(pal_filename(""), "p");
}

#[test]
fn mapping_sizes_are_checked() {
    assert_eq!(
        Mapping::new("a.bgword", 0, vec![1, 2, 3], Vec::new()).err(),
        Some(PMDTError::WrongMappingSize)
    );
    assert_eq!(
        Mapping::new("a.bgpalm", 0, vec![1, 2, 3, 4], vec![0, 0]).err(),
        Some(PMDTError::WrongMappingSize)
    );
    assert_eq!(
        Mapping::new("a.txt", 0, Vec::new(), Vec::new()).err(),
        Some(PMDTError::UnknownMappingType)
    );
    assert!(Mapping::new("a.bgpalm", 0, vec![1, 2, 3, 4], vec![0]).is_ok());
}

#[test]
fn byte_to_word_ors_common_word() {
    let (map, pal) = converted("in.bgbyte", "out.bgword", 0x2000, vec![0x01, 0xFF], Vec::new());
    assert_eq!(map, vec![0x20, 0x01, 0x20, 0xFF]);
    assert!(pal.is_empty());
}

#[test]
fn word_to_byte_keeps_low_bytes() {
    let (map, _) = converted("in.bgword", "out.bgbyte", 0, vec![0x12, 0x34, 0xAB, 0xCD], Vec::new());
    assert_eq!(map, vec![0x34, 0xCD]);
}

#[test]
fn byte_to_pal_packs_palette_fields() {
    let (map, pal) = converted("in.bgbyte", "out.bgpalm", 0x6000, vec![1, 2, 3, 4, 5], Vec::new());
    assert_eq!(map, vec![1, 2, 3, 4, 5]);
    assert_eq!(pal, vec![0xFF, 0xC0]);
}

#[test]
fn pal_to_word_reads_palette_fields() {
    let (map, _) = converted("in.bgpalm", "out.bgword", 0, vec![0x10, 0, 0, 0], vec![0x0C]);
    assert_eq!(map, vec![0x60, 0x10, 0x00, 0x00, 0x00, 0x00, 0x80, 0x00]);
}

#[test]
fn reading_and_writing_tiles() {
    let mut m = Mapping::new("x.bgword", 0, vec![0x12, 0x34], Vec::new()).unwrap();
    assert_eq!(m.read(), Some(0x1234));
    assert_eq!(m.read(), None);
    m.write(0xBEEF);
    assert_eq!(m.map_data(), &vec![0x12, 0x34, 0xBE, 0xEF]);
    assert_eq!(m.map_type(), MappingType::Word);
    assert_eq!(m.filename(), "x.bgword");
}
