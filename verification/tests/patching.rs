use dex_access_modifier::patch::{modify_dex, update_access_flags_uleb128};
use dex_access_modifier::structures::DexFileHeader;
use dex_access_modifier::DexError;

fn put_u32(buf: &mut Vec<u8>, off: usize, v: u32) {
    buf[off] = (v & 0xff) as u8;
    buf[off + 1] = ((v >> 8) & 0xff) as u8;
    buf[off + 2] = ((v >> 16) & 0xff) as u8;
    buf[off + 3] = ((v >> 24) & 0xff) as u8;
}

fn get_u32(buf: &[u8], off: usize) -> u32 {
    buf[off] as u32
        | (buf[off + 1] as u32) << 8
        | (buf[off + 2] as u32) << 16
        | (buf[off + 3] as u32) << 24
}

/// A header of `total` bytes with the little-endian tag set and one class
/// definition table of `class_defs_size` entries at `class_defs_offset`.
fn make_header(total: usize, class_defs_size: u32, class_defs_offset: u32) -> Vec<u8> {
    let mut buf = vec![0u8; total];
    buf[0..8].copy_from_slice(b"dex\n035\0");
    put_u32(&mut buf, 32, total as u32);
    put_u32(&mut buf, 36, 112);
    put_u32(&mut buf, 40, 0x12345678);
    put_u32(&mut buf, 96, class_defs_size);
    put_u32(&mut buf, 100, class_defs_offset);
    buf
}

fn check_integrity(buf: &[u8]) {
    let stored_checksum = get_u32(buf, 8);
    let computed_checksum = adler32::RollingAdler32::from_buffer(&buf[12..]).hash();
    assert_eq!(stored_checksum, computed_checksum);
    let mut hasher = sha1::Sha1::new();
    hasher.update(&buf[32..]);
    assert_eq!(&buf[12..32], &hasher.digest().bytes());
}

#[test]
fn single_private_class_becomes_public() {
    // one class def with access_flags = PRIVATE and no class data
    let mut buf = make_header(144, 1, 112);
    put_u32(&mut buf, 116, 0x2);
    let input_len = buf.len();
    let filters: Vec<Vec<u8>> = Vec::new();
    assert_eq!(modify_dex(&mut buf, &filters, true), Ok(()));
    assert_eq!(buf.len(), input_len);
    assert_eq!(get_u32(&buf, 116), 0x1);
    check_integrity(&buf);
}

#[test]
fn big_endian_archive_is_rejected_unchanged() {
    let mut buf = make_header(144, 1, 112);
    put_u32(&mut buf, 40, 0x78563412);
    put_u32(&mut buf, 116, 0x2);
    let before = buf.clone();
    let filters: Vec<Vec<u8>> = Vec::new();
    assert_eq!(modify_dex(&mut buf, &filters, true), Err(DexError::UnsupportedFormat));
    assert_eq!(buf, before);
}

#[test]
fn short_buffer_is_rejected() {
    let mut buf = vec![1u8, 2, 3];
    let filters: Vec<Vec<u8>> = Vec::new();
    assert_eq!(modify_dex(&mut buf, &filters, true), Err(DexError::Decode));
    assert_eq!(buf, vec![1u8, 2, 3]);
}

#[test]
fn archive_without_class_defs_is_left_untouched() {
    let mut buf = make_header(112, 0, 0);
    let before = buf.clone();
    let filters: Vec<Vec<u8>> = Vec::new();
    assert_eq!(modify_dex(&mut buf, &filters, true), Ok(()));
    // nothing to patch: not even the integrity fields are rewritten
    assert_eq!(buf, before);
}

#[test]
fn members_are_widened_with_method_exemption() {
    // one class def with a class-data block of one field and two methods
    let mut buf = make_header(156, 1, 112);
    put_u32(&mut buf, 116, 0x12);  // FINAL | PRIVATE
    put_u32(&mut buf, 136, 144);  // class_data_offset
    // counts: 1 static field, 0 instance fields, 1 direct method, 1 virtual method
    buf[144] = 1;
    buf[145] = 0;
    buf[146] = 1;
    buf[147] = 1;
    // field: idx_diff 0, flags PRIVATE
    buf[148] = 0;
    buf[149] = 0x2;
    // direct method: idx_diff 0, flags PRIVATE | STATIC, code_off 0
    buf[150] = 0;
    buf[151] = 0xa;
    buf[152] = 0;
    // virtual method: idx_diff 0, flags PRIVATE (exempt), code_off 0
    buf[153] = 0;
    buf[154] = 0x2;
    buf[155] = 0;
    let filters: Vec<Vec<u8>> = Vec::new();
    assert_eq!(modify_dex(&mut buf, &filters, true), Ok(()));
    // class flags: widened and FINAL cleared
    assert_eq!(get_u32(&buf, 116), 0x1);
    // field: widened
    assert_eq!(buf[149], 0x1);
    // private static method: widened, STATIC kept
    assert_eq!(buf[151], 0x9);
    // private instance method: exempt, byte-identical
    assert_eq!(buf[154], 0x2);
    check_integrity(&buf);
}

#[test]
fn final_bit_is_kept_without_the_toggle() {
    let mut buf = make_header(144, 1, 112);
    put_u32(&mut buf, 116, 0x12);  // FINAL | PRIVATE
    let filters: Vec<Vec<u8>> = Vec::new();
    assert_eq!(modify_dex(&mut buf, &filters, false), Ok(()));
    assert_eq!(get_u32(&buf, 116), 0x11);
    check_integrity(&buf);
}

#[test]
fn patching_twice_changes_nothing_more() {
    let mut buf = make_header(156, 1, 112);
    put_u32(&mut buf, 116, 0x12);
    put_u32(&mut buf, 136, 144);
    buf[144] = 1;
    buf[145] = 0;
    buf[146] = 1;
    buf[147] = 1;
    buf[148] = 0;
    buf[149] = 0x2;
    buf[150] = 0;
    buf[151] = 0xa;
    buf[152] = 0;
    buf[153] = 0;
    buf[154] = 0x2;
    buf[155] = 0;
    let filters: Vec<Vec<u8>> = Vec::new();
    assert_eq!(modify_dex(&mut buf, &filters, true), Ok(()));
    let first = buf.clone();
    assert_eq!(modify_dex(&mut buf, &filters, true), Ok(()));
    assert_eq!(buf, first);
}

#[test]
fn malformed_class_data_aborts_with_decode_error() {
    let mut buf = make_header(156, 1, 112);
    put_u32(&mut buf, 116, 0x2);
    put_u32(&mut buf, 136, 144);
    // ten continuation bytes: the first count cannot be decoded
    for j in 0..10 {
        buf[144 + j] = 0x80;
    }
    buf[153] = 0x05;
    let filters: Vec<Vec<u8>> = Vec::new();
    assert_eq!(modify_dex(&mut buf, &filters, true), Err(DexError::Decode));
}

#[test]
fn class_data_offset_outside_buffer_aborts() {
    let mut buf = make_header(144, 1, 112);
    put_u32(&mut buf, 116, 0x2);
    put_u32(&mut buf, 136, 4096);
    let filters: Vec<Vec<u8>> = Vec::new();
    assert_eq!(modify_dex(&mut buf, &filters, true), Err(DexError::Decode));
}

/// An archive with a type table and string table, so that the class filter
/// has names to resolve: one class of type 0, named "Lcom/a;".
fn make_filterable_dex() -> Vec<u8> {
    let mut buf = make_header(182, 1, 128);
    put_u32(&mut buf, 56, 2);  // string_ids_size
    put_u32(&mut buf, 60, 112);  // string_ids_offset
    put_u32(&mut buf, 64, 2);  // type_ids_size
    put_u32(&mut buf, 68, 120);  // type_ids_offset
    // string data offsets
    put_u32(&mut buf, 112, 166);
    put_u32(&mut buf, 116, 174);
    // type table: type 0 -> string 0, type 1 -> string 1
    put_u32(&mut buf, 120, 0);
    put_u32(&mut buf, 124, 1);
    // class def at 128: class_idx 0, flags PRIVATE, class data at 160
    put_u32(&mut buf, 128, 0);
    put_u32(&mut buf, 132, 0x2);
    put_u32(&mut buf, 152, 160);
    // class data: one static field (idx_diff 0, flags PRIVATE)
    buf[160] = 1;
    buf[161] = 0;
    buf[162] = 0;
    buf[163] = 0;
    buf[164] = 0;
    buf[165] = 0x2;
    // string data: ULEB128 utf16 length, then the raw name bytes
    buf[166] = 7;
    buf[167..174].copy_from_slice(b"Lcom/a;");
    buf[174] = 7;
    buf[175..182].copy_from_slice(b"Lcom/b;");
    buf
}

#[test]
fn filtered_class_is_excluded_from_patching() {
    let mut buf = make_filterable_dex();
    let filters: Vec<Vec<u8>> = vec![b"Lcom/a".to_vec()];
    assert_eq!(modify_dex(&mut buf, &filters, true), Ok(()));
    // the class's own flags and its member's flags are byte-identical
    assert_eq!(get_u32(&buf, 132), 0x2);
    assert_eq!(buf[165], 0x2);
    // the integrity fields are still recomputed
    check_integrity(&buf);
}

#[test]
fn non_matching_filter_leaves_class_eligible() {
    let mut buf = make_filterable_dex();
    let filters: Vec<Vec<u8>> = vec![b"Lcom/b".to_vec()];
    assert_eq!(modify_dex(&mut buf, &filters, true), Ok(()));
    assert_eq!(get_u32(&buf, 132), 0x1);
    assert_eq!(buf[165], 0x1);
    check_integrity(&buf);
}

#[test]
fn rewrite_slot_skips_when_reencoding_would_shrink() {
    // a padded two-byte encoding of PRIVATE: the widened value would encode
    // in one byte, so the slot is kept unchanged
    let mut data = vec![0x82, 0x00];
    let r = update_access_flags_uleb128(&mut data, 0, false);
    assert_eq!(r, Some(2));
    assert_eq!(data, vec![0x82, 0x00]);
}

#[test]
fn rewrite_slot_writes_equal_length_value() {
    // PRIVATE plus a high bit: 0x182 encodes in two bytes, and so does the
    // widened 0x181
    let mut data = vec![0x82, 0x03];
    let r = update_access_flags_uleb128(&mut data, 0, false);
    assert_eq!(r, Some(2));
    assert_eq!(data, vec![0x81, 0x03]);
}

#[test]
fn rewrite_slot_keeps_exempt_method() {
    let mut data = vec![0x02];
    let r = update_access_flags_uleb128(&mut data, 0, true);
    assert_eq!(r, Some(1));
    assert_eq!(data, vec![0x02]);
}

#[test]
fn header_parse_reads_every_field() {
    let buf = make_header(144, 1, 112);
    let header = DexFileHeader::parse(&buf).unwrap();
    assert_eq!(header.magic, u64::from_le_bytes(*b"dex\n035\0"));
    assert_eq!(header.endian_tag, 0x12345678);
    assert_eq!(header.header_size, 112);
    assert_eq!(header.file_size, 144);
    assert_eq!(header.class_defs_size, 1);
    assert_eq!(header.class_defs_offset, 112);
    assert_eq!(header.signature, vec![0u8; 20]);
    assert!(DexFileHeader::parse(&vec![0u8; 50]).is_none());
}

#[test]
fn any_of_several_prefixes_excludes_the_class() {
    let mut buf = make_filterable_dex();
    let filters: Vec<Vec<u8>> = vec![b"Lx/".to_vec(), b"Lcom/a".to_vec()];
    assert_eq!(modify_dex(&mut buf, &filters, true), Ok(()));
    assert_eq!(get_u32(&buf, 132), 0x2);
    assert_eq!(buf[165], 0x2);
}

#[test]
fn patching_twice_with_a_filter_changes_nothing_more() {
    let mut buf = make_filterable_dex();
    let filters: Vec<Vec<u8>> = vec![b"Lcom/a".to_vec()];
    assert_eq!(modify_dex(&mut buf, &filters, true), Ok(()));
    let first = buf.clone();
    assert_eq!(modify_dex(&mut buf, &filters, true), Ok(()));
    assert_eq!(buf, first);
}
