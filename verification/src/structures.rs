//! Fixed-layout records of the archive: the file header and one
//! class-definition table entry, read field by field from the buffer.

use vstd::prelude::*;
use crate::buffer::{le_u32_at, le_u64_at, read_u32_at, read_u64_at};

verus! {

/// Byte offset of the endian tag inside the header.
pub const ENDIAN_TAG_OFFSET: usize = 40;

/// Byte offset of the class-definitions count inside the header.
pub const CLASS_DEFS_SIZE_OFFSET: usize = 96;

/// Byte offset of the class-definitions table offset inside the header.
pub const CLASS_DEFS_OFFSET_OFFSET: usize = 100;

/// Total size of the fixed file header.
pub const HEADER_SIZE: usize = 112;

/// Size of one class-definition table entry.
pub const CLASS_DEF_SIZE: usize = 32;

/// The little-endian marker that the endian tag must hold.
pub const LITTLE_ENDIAN: u32 = 0x12345678;

/// The marker of a byte-swapped archive, which is not supported.
pub const BIG_ENDIAN: u32 = 0x78563412;

/// The fixed-size record at offset 0 of the archive.
pub struct DexFileHeader {
    pub magic: u64,
    pub checksum: u32,
    pub signature: Vec<u8>,
    pub file_size: u32,
    pub header_size: u32,
    pub endian_tag: u32,
    pub link_size: u32,
    pub link_offset: u32,
    pub map_offset: u32,
    pub string_ids_size: u32,
    pub string_ids_offset: u32,
    pub type_ids_size: u32,
    pub type_ids_offset: u32,
    pub proto_ids_size: u32,
    pub proto_ids_offset: u32,
    pub field_ids_size: u32,
    pub field_ids_offset: u32,
    pub method_ids_size: u32,
    pub method_ids_offset: u32,
    pub class_defs_size: u32,
    pub class_defs_offset: u32,
    pub data_size: u32,
    pub data_offset: u32,
}

impl DexFileHeader {
    /// The header's fields are exactly the little-endian reads of the first
    /// `HEADER_SIZE` bytes of `s`.
    pub open spec fn matches(self, s: Seq<u8>) -> bool {
        &&& self.magic == le_u64_at(s, 0)
        &&& self.checksum == le_u32_at(s, 8)
        &&& self.signature@ == s.subrange(12, 32)
        &&& self.file_size == le_u32_at(s, 32)
        &&& self.header_size == le_u32_at(s, 36)
        &&& self.endian_tag == le_u32_at(s, 40)
        &&& self.link_size == le_u32_at(s, 44)
        &&& self.link_offset == le_u32_at(s, 48)
        &&& self.map_offset == le_u32_at(s, 52)
        &&& self.string_ids_size == le_u32_at(s, 56)
        &&& self.string_ids_offset == le_u32_at(s, 60)
        &&& self.type_ids_size == le_u32_at(s, 64)
        &&& self.type_ids_offset == le_u32_at(s, 68)
        &&& self.proto_ids_size == le_u32_at(s, 72)
        &&& self.proto_ids_offset == le_u32_at(s, 76)
        &&& self.field_ids_size == le_u32_at(s, 80)
        &&& self.field_ids_offset == le_u32_at(s, 84)
        &&& self.method_ids_size == le_u32_at(s, 88)
        &&& self.method_ids_offset == le_u32_at(s, 92)
        &&& self.class_defs_size == le_u32_at(s, 96)
        &&& self.class_defs_offset == le_u32_at(s, 100)
        &&& self.data_size == le_u32_at(s, 104)
        &&& self.data_offset == le_u32_at(s, 108)
    }

    /// Reads the header out of the buffer, or nothing where the buffer is too
    /// short to hold one.
    pub fn parse(data: &Vec<u8>) -> (r: Option<DexFileHeader>)
        ensures
            match r {
                Some(h) => data.len() >= HEADER_SIZE && h.matches(data@),
                None => data.len() < HEADER_SIZE,
            },
    {
        if data.len() < HEADER_SIZE {
            return None;
        }
        let mut signature: Vec<u8> = Vec::new();
        let mut j: usize = 12;
        while j < 32
            invariant
                12 <= j <= 32,
                data.len() >= HEADER_SIZE,
                signature@ == data@.subrange(12, j as int),
            decreases 32 - j,
        {
            signature.push(data[j]);
            proof {
                assert(data@.subrange(12, j + 1 as int) =~= data@.subrange(12, j as int).push(
                    data@[j as int],
                ));
            }
            j = j + 1;
        }
        Some(
            DexFileHeader {
                magic: read_u64_at(data, 0),
                checksum: read_u32_at(data, 8),
                signature,
                file_size: read_u32_at(data, 32),
                header_size: read_u32_at(data, 36),
                endian_tag: read_u32_at(data, 40),
                link_size: read_u32_at(data, 44),
                link_offset: read_u32_at(data, 48),
                map_offset: read_u32_at(data, 52),
                string_ids_size: read_u32_at(data, 56),
                string_ids_offset: read_u32_at(data, 60),
                type_ids_size: read_u32_at(data, 64),
                type_ids_offset: read_u32_at(data, 68),
                proto_ids_size: read_u32_at(data, 72),
                proto_ids_offset: read_u32_at(data, 76),
                field_ids_size: read_u32_at(data, 80),
                field_ids_offset: read_u32_at(data, 84),
                method_ids_size: read_u32_at(data, 88),
                method_ids_offset: read_u32_at(data, 92),
                class_defs_size: read_u32_at(data, 96),
                class_defs_offset: read_u32_at(data, 100),
                data_size: read_u32_at(data, 104),
                data_offset: read_u32_at(data, 108),
            },
        )
    }
}

/// One fixed-size entry of the class-definitions table.
pub struct ClassDefItem {
    pub class_idx: u32,
    pub access_flags: u32,
    pub superclass_idx: u32,
    pub interfaces_offset: u32,
    pub source_file_idx: u32,
    pub annotations_offset: u32,
    pub class_data_offset: u32,
    pub static_values_offset: u32,
}

impl ClassDefItem {
    /// The entry's fields are exactly the little-endian reads of the
    /// `CLASS_DEF_SIZE` bytes at `off`.
    pub open spec fn matches(self, s: Seq<u8>, off: int) -> bool {
        &&& self.class_idx == le_u32_at(s, off)
        &&& self.access_flags == le_u32_at(s, off + 4)
        &&& self.superclass_idx == le_u32_at(s, off + 8)
        &&& self.interfaces_offset == le_u32_at(s, off + 12)
        &&& self.source_file_idx == le_u32_at(s, off + 16)
        &&& self.annotations_offset == le_u32_at(s, off + 20)
        &&& self.class_data_offset == le_u32_at(s, off + 24)
        &&& self.static_values_offset == le_u32_at(s, off + 28)
    }

    /// Reads one entry at `off`, or nothing where the buffer ends before the
    /// entry does.
    pub fn parse(data: &Vec<u8>, off: usize) -> (r: Option<ClassDefItem>)
        ensures
            match r {
                Some(c) => off + CLASS_DEF_SIZE <= data.len() && c.matches(data@, off as int),
                None => off + CLASS_DEF_SIZE > data.len(),
            },
    {
        if data.len() < CLASS_DEF_SIZE || off > data.len() - CLASS_DEF_SIZE {
            return None;
        }
        Some(
            ClassDefItem {
                class_idx: read_u32_at(data, off),
                access_flags: read_u32_at(data, off + 4),
                superclass_idx: read_u32_at(data, off + 8),
                interfaces_offset: read_u32_at(data, off + 12),
                source_file_idx: read_u32_at(data, off + 16),
                annotations_offset: read_u32_at(data, off + 20),
                class_data_offset: read_u32_at(data, off + 24),
                static_values_offset: read_u32_at(data, off + 28),
            },
        )
    }
}

} // verus!
