//! Access-flag constants and the flag rewrite policy.
//!
//! The policy widens visibility: it clears `ACC_PRIVATE` and `ACC_PROTECTED`
//! and sets `ACC_PUBLIC`. A method that is private but neither static nor a
//! constructor is exempt: widening it would change virtual-dispatch
//! resolution.

use vstd::prelude::*;

verus! {

pub const ACC_PUBLIC: u32 = 0x1;
pub const ACC_PRIVATE: u32 = 0x2;
pub const ACC_PROTECTED: u32 = 0x4;
pub const ACC_STATIC: u32 = 0x8;
pub const ACC_FINAL: u32 = 0x10;
pub const ACC_SYNCHRONIZED: u32 = 0x20;
pub const ACC_VOLATILE: u32 = 0x40;
pub const ACC_BRIDGE: u32 = 0x40;
pub const ACC_TRANSIENT: u32 = 0x80;
pub const ACC_VARARGS: u32 = 0x80;
pub const ACC_NATIVE: u32 = 0x100;
pub const ACC_INTERFACE: u32 = 0x200;
pub const ACC_ABSTRACT: u32 = 0x400;
pub const ACC_STRICT: u32 = 0x800;
pub const ACC_SYNTHETIC: u32 = 0x1000;
pub const ACC_ANNOTATION: u32 = 0x2000;
pub const ACC_ENUM: u32 = 0x4000;
pub const ACC_CONSTRUCTOR: u32 = 0x10000;
pub const ACC_DECLARED_SYNCHRONIZED: u32 = 0x20000;

/// The widened form of a flags word: private and protected cleared, public set.
pub open spec fn spec_update_access_flags(access_flags: u32) -> u32 {
    (access_flags & !(ACC_PRIVATE | ACC_PROTECTED)) | ACC_PUBLIC
}

/// A method flags word that the rewrite must leave untouched: private, but
/// neither static nor a constructor.
pub open spec fn spec_method_exempt(access_flags: u32) -> bool {
    access_flags & (ACC_STATIC | ACC_CONSTRUCTOR | ACC_PRIVATE) == ACC_PRIVATE
}

/// Widen one flags word: clear `ACC_PRIVATE` and `ACC_PROTECTED`, set
/// `ACC_PUBLIC`. All other bits are kept.
pub fn update_access_flags(access_flags: u32) -> (r: u32)
    ensures
        r == spec_update_access_flags(access_flags),
        r & ACC_PRIVATE == 0,
        r & ACC_PROTECTED == 0,
        r & ACC_PUBLIC == ACC_PUBLIC,
{
    proof {
        lemma_update_access_flags_bits(access_flags);
    }
    (access_flags & !(ACC_PRIVATE | ACC_PROTECTED)) | ACC_PUBLIC
}

/// The widened word has private and protected clear and public set.
pub proof fn lemma_update_access_flags_bits(f: u32)
    ensures
        spec_update_access_flags(f) & ACC_PRIVATE == 0,
        spec_update_access_flags(f) & ACC_PROTECTED == 0,
        spec_update_access_flags(f) & ACC_PUBLIC == ACC_PUBLIC,
{
    assert(((f & !(0x2u32 | 0x4u32)) | 0x1u32) & 0x2u32 == 0) by (bit_vector);
    assert(((f & !(0x2u32 | 0x4u32)) | 0x1u32) & 0x4u32 == 0) by (bit_vector);
    assert(((f & !(0x2u32 | 0x4u32)) | 0x1u32) & 0x1u32 == 0x1u32) by (bit_vector);
}

/// Widening is idempotent: a word already widened is unchanged by a second
/// pass, with or without the final-bit clearing step.
pub proof fn lemma_update_access_flags_idempotent(f: u32)
    ensures
        spec_update_access_flags(spec_update_access_flags(f)) == spec_update_access_flags(f),
        spec_update_access_flags(spec_update_access_flags(f) & !ACC_FINAL) & !ACC_FINAL
            == spec_update_access_flags(f) & !ACC_FINAL,
{
    assert((((f & !(0x2u32 | 0x4u32)) | 0x1u32) & !(0x2u32 | 0x4u32)) | 0x1u32
        == (f & !(0x2u32 | 0x4u32)) | 0x1u32) by (bit_vector);
    assert(((((((f & !(0x2u32 | 0x4u32)) | 0x1u32) & !0x10u32) & !(0x2u32 | 0x4u32)) | 0x1u32)
        & !0x10u32) == ((f & !(0x2u32 | 0x4u32)) | 0x1u32) & !0x10u32) by (bit_vector);
}

/// A widened word is never exempt: widening cleared its private bit.
pub proof fn lemma_updated_not_exempt(f: u32)
    ensures
        !spec_method_exempt(spec_update_access_flags(f)),
{
    assert(((f & !(0x2u32 | 0x4u32)) | 0x1u32) & (0x8u32 | 0x10000u32 | 0x2u32) != 0x2u32)
        by (bit_vector);
}

} // verus!
