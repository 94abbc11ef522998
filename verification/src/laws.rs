//! Laws of the patch: what a second pass sees, what the rewrite does to a
//! slot, and what the class filter excludes.

use vstd::prelude::*;
use crate::buffer::{le_u32_at, le_bytes_of_u32, splice, lemma_splice_facts, lemma_splice_identity,
    lemma_le_u32_at_agree};
use crate::flags::{spec_update_access_flags, spec_method_exempt, ACC_PRIVATE, ACC_PROTECTED,
    ACC_PUBLIC, ACC_FINAL, lemma_update_access_flags_bits, lemma_update_access_flags_idempotent,
    lemma_updated_not_exempt};
use crate::patch::{spec_new_member_flags, spec_rewrite_slot, spec_walk_fields, spec_walk_methods,
    spec_walk_class_data, spec_patch_one_class, spec_patch_classes, spec_resolve_filters,
    spec_type_matches, spec_patch};
use crate::integrity::{spec_with_integrity, sha1_of, adler32_of};
use crate::structures::{CLASS_DEF_SIZE, HEADER_SIZE, LITTLE_ENDIAN};
use crate::uleb128::{spec_uleb_result, uleb_encode, lemma_uleb_len_from_bounds,
    lemma_uleb_encode_decodes_at, lemma_uleb_decode_agree};

verus! {

/// Exemption: a method slot whose flags are private but neither static nor a
/// constructor is byte-identical before and after the rewrite.
pub proof fn lemma_exempt_method_slot_untouched(s: Seq<u8>, i: int, v: u32, l: int)
    requires
        spec_uleb_result(s, i) == Some((v, l)),
        spec_method_exempt(v),
    ensures
        spec_rewrite_slot(s, i, true) == Some((s, l)),
{
}

/// Widening a slot: where the new flags re-encode to the slot's old length
/// the slot afterwards decodes to the widened flags, with private and
/// protected clear and public set; where they do not, the slot's bytes are
/// kept unchanged.
pub proof fn lemma_slot_rewrite_exact(s: Seq<u8>, i: int, v: u32, l: int, is_method: bool)
    requires
        spec_uleb_result(s, i) == Some((v, l)),
        !(is_method && spec_method_exempt(v)),
    ensures
        spec_rewrite_slot(s, i, is_method) is Some,
        spec_rewrite_slot(s, i, is_method)->Some_0.1 == l,
        uleb_encode(spec_update_access_flags(v) as nat).len() == l ==> spec_uleb_result(
            spec_rewrite_slot(s, i, is_method)->Some_0.0,
            i,
        ) == Some((spec_update_access_flags(v), l)),
        uleb_encode(spec_update_access_flags(v) as nat).len() == l ==> {
            let nv = spec_update_access_flags(v);
            &&& nv & ACC_PRIVATE == 0
            &&& nv & ACC_PROTECTED == 0
            &&& nv & ACC_PUBLIC == ACC_PUBLIC
        },
        uleb_encode(spec_update_access_flags(v) as nat).len() != l ==> spec_rewrite_slot(
            s,
            i,
            is_method,
        )->Some_0.0 == s,
{
    let nv = spec_update_access_flags(v);
    lemma_update_access_flags_bits(v);
    lemma_uleb_len_from_bounds(s, i, 0, l);
    if nv != v && uleb_encode(nv as nat).len() == l {
        let t = splice(s, i, uleb_encode(nv as nat));
        lemma_splice_facts(s, i, uleb_encode(nv as nat));
        assert(t.subrange(i, i + l) =~= uleb_encode(nv as nat));
        lemma_uleb_encode_decodes_at(t, i, nv as nat);
    }
}

/// Rewriting a slot is idempotent: the slot a rewrite produced is left
/// unchanged by a second rewrite.
pub proof fn lemma_slot_rewrite_idempotent(s: Seq<u8>, i: int, is_method: bool, t: Seq<u8>, l: int)
    requires
        spec_rewrite_slot(s, i, is_method) == Some((t, l)),
    ensures
        spec_rewrite_slot(t, i, is_method) == Some((t, l)),
{
    let (v, _) = spec_uleb_result(s, i)->Some_0;
    let nv = spec_new_member_flags(v, is_method);
    if nv == v || uleb_encode(nv as nat).len() != l {
        assert(t == s);
    } else {
        lemma_uleb_len_from_bounds(s, i, 0, l);
        lemma_splice_facts(s, i, uleb_encode(nv as nat));
        assert(t.subrange(i, i + l) =~= uleb_encode(nv as nat));
        lemma_uleb_encode_decodes_at(t, i, nv as nat);
        assert(spec_uleb_result(t, i) == Some((nv, l)));
        lemma_updated_not_exempt(v);
        lemma_update_access_flags_idempotent(v);
        assert(spec_new_member_flags(nv, is_method) == nv);
    }
}

/// A rewritten slot differs from the old buffer only inside its own window.
pub proof fn lemma_rewrite_slot_frame(s: Seq<u8>, i: int, is_method: bool, t: Seq<u8>, l: int)
    requires
        spec_rewrite_slot(s, i, is_method) == Some((t, l)),
    ensures
        t.len() == s.len(),
        0 <= i,
        1 <= l,
        i + l <= s.len(),
        forall|m: int| 0 <= m < i ==> t[m] == s[m],
        forall|m: int| i + l <= m < s.len() ==> t[m] == s[m],
{
    lemma_uleb_len_from_bounds(s, i, 0, l);
    let (v, _) = spec_uleb_result(s, i)->Some_0;
    let nv = spec_new_member_flags(v, is_method);
    if nv != v && uleb_encode(nv as nat).len() == l {
        lemma_splice_facts(s, i, uleb_encode(nv as nat));
    }
}

/// A slot the rewrite leaves fixed stays fixed in any buffer of the same
/// length that holds the same window.
pub proof fn lemma_rewrite_slot_fixpoint_agree(
    s: Seq<u8>,
    u: Seq<u8>,
    i: int,
    is_method: bool,
    l: int,
)
    requires
        spec_rewrite_slot(s, i, is_method) == Some((s, l)),
        u.len() == s.len(),
        forall|m: int| i <= m < i + l ==> u[m] == s[m],
    ensures
        spec_rewrite_slot(u, i, is_method) == Some((u, l)),
{
    let (v, _) = spec_uleb_result(s, i)->Some_0;
    lemma_uleb_len_from_bounds(s, i, 0, l);
    lemma_uleb_decode_agree(s, u, i, 0, l);
    assert(spec_uleb_result(u, i) == Some((v, l)));
    let nv = spec_new_member_flags(v, is_method);
    if nv != v && uleb_encode(nv as nat).len() == l {
        // the first rewrite wrote the window, so the window already holds the
        // canonical encoding of the widened flags
        let e = uleb_encode(nv as nat);
        lemma_splice_facts(s, i, e);
        assert(splice(s, i, e) == s);
        assert forall|m: int| i <= m < i + l implies s[m] == e[m - i] by {
            assert(splice(s, i, e)[m] == e[m - i]);
        }
        assert(u.subrange(i, i + l) =~= e);
        lemma_splice_identity(u, i, e);
    }
}

/// The field walk changes no byte before its start or past its end cursor.
pub proof fn lemma_walk_fields_frame(s: Seq<u8>, i: int, n: nat, t: Seq<u8>, j: int)
    requires
        spec_walk_fields(s, i, n) == Some((t, j)),
    ensures
        t.len() == s.len(),
        i <= j,
        n > 0 ==> 0 <= i && j <= s.len(),
        forall|m: int| 0 <= m < i ==> t[m] == s[m],
        forall|m: int| j <= m < s.len() ==> t[m] == s[m],
    decreases n,
{
    if n > 0 {
        let (_d, l1) = spec_uleb_result(s, i)->Some_0;
        lemma_uleb_len_from_bounds(s, i, 0, l1);
        let (s2, l2) = spec_rewrite_slot(s, i + l1, false)->Some_0;
        lemma_rewrite_slot_frame(s, i + l1, false, s2, l2);
        lemma_walk_fields_frame(s2, i + l1 + l2, (n - 1) as nat, t, j);
        if n == 1 {
            assert(j == i + l1 + l2);
            assert(j <= s.len());
        }
    }
}

/// The method walk changes no byte before its start or past its end cursor.
pub proof fn lemma_walk_methods_frame(s: Seq<u8>, i: int, n: nat, t: Seq<u8>, j: int)
    requires
        spec_walk_methods(s, i, n) == Some((t, j)),
    ensures
        t.len() == s.len(),
        i <= j,
        n > 0 ==> 0 <= i && j <= s.len(),
        forall|m: int| 0 <= m < i ==> t[m] == s[m],
        forall|m: int| j <= m < s.len() ==> t[m] == s[m],
    decreases n,
{
    if n > 0 {
        let (_d, l1) = spec_uleb_result(s, i)->Some_0;
        lemma_uleb_len_from_bounds(s, i, 0, l1);
        let (s2, l2) = spec_rewrite_slot(s, i + l1, true)->Some_0;
        lemma_rewrite_slot_frame(s, i + l1, true, s2, l2);
        let (_c, l3) = spec_uleb_result(s2, i + l1 + l2)->Some_0;
        lemma_uleb_len_from_bounds(s2, i + l1 + l2, 0, l3);
        lemma_walk_methods_frame(s2, i + l1 + l2 + l3, (n - 1) as nat, t, j);
        if n == 1 {
            assert(j == i + l1 + l2 + l3);
        }
    }
}

/// A second field walk over a walked range finds nothing left to change:
/// any same-length buffer that holds the walked bytes is a fixpoint.
pub proof fn lemma_walk_fields_second_pass(
    s: Seq<u8>,
    i: int,
    n: nat,
    t: Seq<u8>,
    j: int,
    u: Seq<u8>,
)
    requires
        spec_walk_fields(s, i, n) == Some((t, j)),
        u.len() == t.len(),
        forall|m: int| i <= m < j ==> u[m] == t[m],
    ensures
        spec_walk_fields(u, i, n) == Some((u, j)),
    decreases n,
{
    if n > 0 {
        let (d, l1) = spec_uleb_result(s, i)->Some_0;
        lemma_uleb_len_from_bounds(s, i, 0, l1);
        let (s2, l2) = spec_rewrite_slot(s, i + l1, false)->Some_0;
        lemma_rewrite_slot_frame(s, i + l1, false, s2, l2);
        lemma_walk_fields_frame(s2, i + l1 + l2, (n - 1) as nat, t, j);
        // the delta window was never rewritten, so `u` agrees with `s` there
        assert(forall|m: int| i <= m < i + l1 ==> u[m] == s[m]);
        lemma_uleb_decode_agree(s, u, i, 0, l1);
        assert(spec_uleb_result(u, i) == Some((d, l1)));
        // the slot is a fixpoint of the rewrite and `u` holds its bytes
        lemma_slot_rewrite_idempotent(s, i + l1, false, s2, l2);
        assert(forall|m: int| i + l1 <= m < i + l1 + l2 ==> u[m] == s2[m]);
        lemma_rewrite_slot_fixpoint_agree(s2, u, i + l1, false, l2);
        lemma_walk_fields_second_pass(s2, i + l1 + l2, (n - 1) as nat, t, j, u);
    }
}

/// A second method walk over a walked range finds nothing left to change.
pub proof fn lemma_walk_methods_second_pass(
    s: Seq<u8>,
    i: int,
    n: nat,
    t: Seq<u8>,
    j: int,
    u: Seq<u8>,
)
    requires
        spec_walk_methods(s, i, n) == Some((t, j)),
        u.len() == t.len(),
        forall|m: int| i <= m < j ==> u[m] == t[m],
    ensures
        spec_walk_methods(u, i, n) == Some((u, j)),
    decreases n,
{
    if n > 0 {
        let (d, l1) = spec_uleb_result(s, i)->Some_0;
        lemma_uleb_len_from_bounds(s, i, 0, l1);
        let (s2, l2) = spec_rewrite_slot(s, i + l1, true)->Some_0;
        lemma_rewrite_slot_frame(s, i + l1, true, s2, l2);
        let (c, l3) = spec_uleb_result(s2, i + l1 + l2)->Some_0;
        lemma_uleb_len_from_bounds(s2, i + l1 + l2, 0, l3);
        lemma_walk_methods_frame(s2, i + l1 + l2 + l3, (n - 1) as nat, t, j);
        assert(forall|m: int| i <= m < i + l1 ==> u[m] == s[m]);
        lemma_uleb_decode_agree(s, u, i, 0, l1);
        assert(spec_uleb_result(u, i) == Some((d, l1)));
        lemma_slot_rewrite_idempotent(s, i + l1, true, s2, l2);
        assert(forall|m: int| i + l1 <= m < i + l1 + l2 ==> u[m] == s2[m]);
        lemma_rewrite_slot_fixpoint_agree(s2, u, i + l1, true, l2);
        assert(forall|m: int| i + l1 + l2 <= m < i + l1 + l2 + l3 ==> u[m] == s2[m]);
        lemma_uleb_decode_agree(s2, u, i + l1 + l2, 0, l3);
        assert(spec_uleb_result(u, i + l1 + l2) == Some((c, l3)));
        lemma_walk_methods_second_pass(s2, i + l1 + l2 + l3, (n - 1) as nat, t, j, u);
    }
}

/// Walking a class-data block is idempotent: a second walk of the block a
/// first walk produced changes nothing.
pub proof fn lemma_walk_class_data_idempotent(s: Seq<u8>, off: int, t: Seq<u8>)
    requires
        spec_walk_class_data(s, off) == Some(t),
    ensures
        spec_walk_class_data(t, off) == Some(t),
        t.len() == s.len(),
        forall|m: int| 0 <= m < off ==> t[m] == s[m],
{
    let (sf, l1) = spec_uleb_result(s, off)->Some_0;
    let (inf, l2) = spec_uleb_result(s, off + l1)->Some_0;
    let (dm, l3) = spec_uleb_result(s, off + l1 + l2)->Some_0;
    let (vm, l4) = spec_uleb_result(s, off + l1 + l2 + l3)->Some_0;
    let p0 = off + l1 + l2 + l3 + l4;
    lemma_uleb_len_from_bounds(s, off, 0, l1);
    lemma_uleb_len_from_bounds(s, off + l1, 0, l2);
    lemma_uleb_len_from_bounds(s, off + l1 + l2, 0, l3);
    lemma_uleb_len_from_bounds(s, off + l1 + l2 + l3, 0, l4);
    let (s2, jf) = spec_walk_fields(s, p0, (sf + inf) as nat)->Some_0;
    let (s3, je) = spec_walk_methods(s2, jf, (dm + vm) as nat)->Some_0;
    assert(s3 == t);
    lemma_walk_fields_frame(s, p0, (sf + inf) as nat, s2, jf);
    lemma_walk_methods_frame(s2, jf, (dm + vm) as nat, t, je);
    // the four counts sit below the walked range and read the same in `t`
    assert(forall|m: int| off <= m < p0 ==> t[m] == s[m]);
    lemma_uleb_decode_agree(s, t, off, 0, l1);
    lemma_uleb_decode_agree(s, t, off + l1, 0, l2);
    lemma_uleb_decode_agree(s, t, off + l1 + l2, 0, l3);
    lemma_uleb_decode_agree(s, t, off + l1 + l2 + l3, 0, l4);
    // the walked field range is a fixpoint, and `t` holds it
    assert(forall|m: int| p0 <= m < jf ==> t[m] == s2[m]);
    lemma_walk_fields_second_pass(s, p0, (sf + inf) as nat, s2, jf, t);
    lemma_walk_methods_second_pass(s2, jf, (dm + vm) as nat, t, je, t);
}

/// The cursor just past a class-data block: the four counts, the field list
/// and the method list, as the walk consumes them. Meaningful only where the
/// walk of the block succeeds.
#[verifier::opaque]
pub open spec fn spec_class_data_end(s: Seq<u8>, off: int) -> int {
    let (sf, l1) = spec_uleb_result(s, off)->Some_0;
    let (inf, l2) = spec_uleb_result(s, off + l1)->Some_0;
    let (dm, l3) = spec_uleb_result(s, off + l1 + l2)->Some_0;
    let (vm, l4) = spec_uleb_result(s, off + l1 + l2 + l3)->Some_0;
    let p0 = off + l1 + l2 + l3 + l4;
    let (s2, jf) = spec_walk_fields(s, p0, (sf + inf) as nat)->Some_0;
    spec_walk_methods(s2, jf, (dm + vm) as nat)->Some_0.1
}

/// A walked class-data block changes no byte outside `[off, end)`.
pub proof fn lemma_walk_class_data_frame(s: Seq<u8>, off: int, t: Seq<u8>)
    requires
        spec_walk_class_data(s, off) == Some(t),
    ensures
        t.len() == s.len(),
        0 <= off < spec_class_data_end(s, off),
        spec_class_data_end(s, off) <= s.len(),
        forall|m: int| 0 <= m < off ==> t[m] == s[m],
        forall|m: int| spec_class_data_end(s, off) <= m < s.len() ==> t[m] == s[m],
{
    reveal(spec_class_data_end);
    let (sf, l1) = spec_uleb_result(s, off)->Some_0;
    let (inf, l2) = spec_uleb_result(s, off + l1)->Some_0;
    let (dm, l3) = spec_uleb_result(s, off + l1 + l2)->Some_0;
    let (vm, l4) = spec_uleb_result(s, off + l1 + l2 + l3)->Some_0;
    let p0 = off + l1 + l2 + l3 + l4;
    lemma_uleb_len_from_bounds(s, off, 0, l1);
    lemma_uleb_len_from_bounds(s, off + l1, 0, l2);
    lemma_uleb_len_from_bounds(s, off + l1 + l2, 0, l3);
    lemma_uleb_len_from_bounds(s, off + l1 + l2 + l3, 0, l4);
    let (s2, jf) = spec_walk_fields(s, p0, (sf + inf) as nat)->Some_0;
    let (s3, je) = spec_walk_methods(s2, jf, (dm + vm) as nat)->Some_0;
    lemma_walk_fields_frame(s, p0, (sf + inf) as nat, s2, jf);
    lemma_walk_methods_frame(s2, jf, (dm + vm) as nat, t, je);
    if (dm + vm) == 0 {
        assert(je == jf);
        if (sf + inf) == 0 {
            assert(jf == p0);
        }
    }
}

/// A second walk of a walked class-data block changes nothing — also in any
/// same-length buffer that holds the walked block's bytes.
pub proof fn lemma_walk_class_data_second_pass(s: Seq<u8>, off: int, t: Seq<u8>, u: Seq<u8>)
    requires
        spec_walk_class_data(s, off) == Some(t),
        u.len() == t.len(),
        forall|m: int| off <= m < spec_class_data_end(s, off) ==> u[m] == t[m],
    ensures
        spec_walk_class_data(u, off) == Some(u),
        spec_class_data_end(u, off) == spec_class_data_end(s, off),
{
    reveal(spec_class_data_end);
    let (sf, l1) = spec_uleb_result(s, off)->Some_0;
    let (inf, l2) = spec_uleb_result(s, off + l1)->Some_0;
    let (dm, l3) = spec_uleb_result(s, off + l1 + l2)->Some_0;
    let (vm, l4) = spec_uleb_result(s, off + l1 + l2 + l3)->Some_0;
    let p0 = off + l1 + l2 + l3 + l4;
    lemma_uleb_len_from_bounds(s, off, 0, l1);
    lemma_uleb_len_from_bounds(s, off + l1, 0, l2);
    lemma_uleb_len_from_bounds(s, off + l1 + l2, 0, l3);
    lemma_uleb_len_from_bounds(s, off + l1 + l2 + l3, 0, l4);
    let (s2, jf) = spec_walk_fields(s, p0, (sf + inf) as nat)->Some_0;
    let (s3, je) = spec_walk_methods(s2, jf, (dm + vm) as nat)->Some_0;
    assert(s3 == t);
    assert(je == spec_class_data_end(s, off));
    lemma_walk_fields_frame(s, p0, (sf + inf) as nat, s2, jf);
    lemma_walk_methods_frame(s2, jf, (dm + vm) as nat, t, je);
    // the counts sit below the walked range, so `t` and then `u` hold them
    assert(forall|m: int| off <= m < p0 ==> t[m] == s[m]);
    assert(forall|m: int| off <= m < p0 ==> u[m] == s[m]);
    lemma_uleb_decode_agree(s, u, off, 0, l1);
    lemma_uleb_decode_agree(s, u, off + l1, 0, l2);
    lemma_uleb_decode_agree(s, u, off + l1 + l2, 0, l3);
    lemma_uleb_decode_agree(s, u, off + l1 + l2 + l3, 0, l4);
    // the walked ranges are fixpoints and `u` holds their bytes
    assert(forall|m: int| p0 <= m < jf ==> u[m] == s2[m]);
    lemma_walk_fields_second_pass(s, p0, (sf + inf) as nat, s2, jf, u);
    assert(forall|m: int| jf <= m < je ==> u[m] == t[m]);
    lemma_walk_methods_second_pass(s2, jf, (dm + vm) as nat, t, je, u);
    assert(spec_walk_class_data(u, off) == Some(u));
    // the second walk consumes the same cursor positions
    assert(spec_class_data_end(u, off) == je);
}

/// Patching one class definition is idempotent, for an entry whose
/// class-data block does not overlap the entry itself.
#[verifier::rlimit(100)]
#[verifier::spinoff_prover]
pub proof fn lemma_patch_one_class_idempotent(
    s: Seq<u8>,
    def_off: int,
    ignore: Set<u32>,
    clear_final: bool,
    t: Seq<u8>,
)
    requires
        spec_patch_one_class(s, def_off, ignore, clear_final) == Some(t),
        le_u32_at(s, def_off + 24) == 0 || le_u32_at(s, def_off + 24) >= def_off
            + CLASS_DEF_SIZE,
    ensures
        spec_patch_one_class(t, def_off, ignore, clear_final) == Some(t),
{
    reveal(spec_patch_one_class);
    let class_idx = le_u32_at(s, def_off);
    if !ignore.contains(class_idx) {
        let f = le_u32_at(s, def_off + 4);
        let nf = if clear_final {
            spec_update_access_flags(f) & !ACC_FINAL
        } else {
            spec_update_access_flags(f)
        };
        let cdo = le_u32_at(s, def_off + 24);
        let s1 = splice(s, def_off + 4, le_bytes_of_u32(nf));
        lemma_splice_facts(s, def_off + 4, le_bytes_of_u32(nf));
        if cdo == 0 {
            assert(t == s1);
        } else {
            lemma_walk_class_data_idempotent(s1, cdo as int, t);
        }
        // everything of the entry below the class-data offset is unchanged
        assert(t.len() == s.len());
        assert(forall|m: int| 0 <= m < def_off + 4 ==> t[m] == s[m]);
        assert(forall|m: int| def_off + 4 <= m < def_off + 8 ==> t[m] == s1[m]);
        assert(forall|m: int| def_off + 8 <= m < def_off + CLASS_DEF_SIZE ==> t[m] == s[m]);
        lemma_le_u32_at_agree(s, t, def_off);
        assert(le_u32_at(t, def_off) == class_idx);
        lemma_le_u32_at_agree(s1, t, def_off + 4);
        crate::buffer::lemma_le_u32_at_splice(s, def_off + 4, nf);
        assert(le_u32_at(t, def_off + 4) == nf);
        lemma_le_u32_at_agree(s, t, def_off + 24);
        assert(le_u32_at(t, def_off + 24) == cdo);
        lemma_update_access_flags_idempotent(f);
        let nf2 = if clear_final {
            spec_update_access_flags(nf) & !ACC_FINAL
        } else {
            spec_update_access_flags(nf)
        };
        assert(nf2 == nf);
        // the second flags write stores the bytes the field already holds
        assert forall|m: int| def_off + 4 <= m < def_off + 8 implies t[m] == le_bytes_of_u32(
            nf,
        )[m - (def_off + 4)] by {
            assert(s1[m] == le_bytes_of_u32(nf)[m - (def_off + 4)]);
        }
        assert(t.subrange(def_off + 4, def_off + 8) =~= le_bytes_of_u32(nf));
        lemma_splice_identity(t, def_off + 4, le_bytes_of_u32(nf));
        assert(splice(t, def_off + 4, le_bytes_of_u32(nf2)) == t);
        if cdo != 0 {
            assert(spec_walk_class_data(t, cdo as int) == Some(t));
        }
    }
}

/// Well-formed layout of the class-definition table: every class patches,
/// and every class's data block (where it has one) lies at or past `lo` and
/// past the end of every earlier class's block.
pub open spec fn spec_classes_separated(
    s: Seq<u8>,
    def_off: int,
    n: nat,
    ignore: Set<u32>,
    clear_final: bool,
    lo: int,
) -> bool
    decreases n,
{
    if n == 0 {
        true
    } else {
        let class_idx = le_u32_at(s, def_off);
        let cdo = le_u32_at(s, def_off + 24);
        match spec_patch_one_class(s, def_off, ignore, clear_final) {
            None => false,
            Some(s1) => {
                if ignore.contains(class_idx) || cdo == 0 {
                    spec_classes_separated(
                        s1,
                        def_off + CLASS_DEF_SIZE,
                        (n - 1) as nat,
                        ignore,
                        clear_final,
                        lo,
                    )
                } else {
                    let f = le_u32_at(s, def_off + 4);
                    let nf = if clear_final {
                        spec_update_access_flags(f) & !ACC_FINAL
                    } else {
                        spec_update_access_flags(f)
                    };
                    let sw = splice(s, def_off + 4, le_bytes_of_u32(nf));
                    &&& lo <= cdo
                    &&& spec_classes_separated(
                        s1,
                        def_off + CLASS_DEF_SIZE,
                        (n - 1) as nat,
                        ignore,
                        clear_final,
                        spec_class_data_end(sw, cdo as int),
                    )
                }
            },
        }
    }
}

/// One patched class changes only its flags field and, where it has a
/// class-data block past `lo`, bytes from the block's start on.
#[verifier::rlimit(100)]
#[verifier::spinoff_prover]
pub proof fn lemma_patch_one_class_changes(
    s: Seq<u8>,
    def_off: int,
    ignore: Set<u32>,
    clear_final: bool,
    s1: Seq<u8>,
    lo: int,
)
    requires
        spec_patch_one_class(s, def_off, ignore, clear_final) == Some(s1),
        def_off + CLASS_DEF_SIZE <= lo,
        !ignore.contains(le_u32_at(s, def_off)) && le_u32_at(s, def_off + 24) != 0 ==> lo
            <= le_u32_at(s, def_off + 24),
    ensures
        s1.len() == s.len(),
        forall|m: int| 0 <= m < def_off + 4 ==> s1[m] == s[m],
        forall|m: int| def_off + 8 <= m < lo && m < s.len() ==> s1[m] == s[m],
{
    reveal(spec_patch_one_class);
    let class_idx = le_u32_at(s, def_off);
    let cdo = le_u32_at(s, def_off + 24);
    if !ignore.contains(class_idx) {
        let f = le_u32_at(s, def_off + 4);
        let nf = if clear_final {
            spec_update_access_flags(f) & !ACC_FINAL
        } else {
            spec_update_access_flags(f)
        };
        let sw = splice(s, def_off + 4, le_bytes_of_u32(nf));
        lemma_splice_facts(s, def_off + 4, le_bytes_of_u32(nf));
        if cdo != 0 {
            lemma_walk_class_data_frame(sw, cdo as int, s1);
        }
    }
}

/// Patching a well-formed class-definition table changes nothing below the
/// table, nor between the table's end and the first data block.
#[verifier::rlimit(100)]
#[verifier::spinoff_prover]
pub proof fn lemma_patch_classes_frame(
    s: Seq<u8>,
    def_off: int,
    n: nat,
    ignore: Set<u32>,
    clear_final: bool,
    lo: int,
    t: Seq<u8>,
)
    requires
        spec_patch_classes(s, def_off, n, ignore, clear_final) == Some(t),
        spec_classes_separated(s, def_off, n, ignore, clear_final, lo),
        0 <= def_off,
        def_off + CLASS_DEF_SIZE * n <= lo,
    ensures
        t.len() == s.len(),
        forall|m: int| 0 <= m < def_off ==> t[m] == s[m],
        forall|m: int| def_off + CLASS_DEF_SIZE * n <= m < lo && m < s.len() ==> t[m] == s[m],
    decreases n,
{
    reveal(spec_patch_one_class);
    if n > 0 {
        assert(CLASS_DEF_SIZE * (n as int) == CLASS_DEF_SIZE * ((n - 1) as int) + CLASS_DEF_SIZE)
            by (nonlinear_arith);
        let class_idx = le_u32_at(s, def_off);
        let cdo = le_u32_at(s, def_off + 24);
        let s1 = spec_patch_one_class(s, def_off, ignore, clear_final)->Some_0;
        let rest_lo: int = if ignore.contains(class_idx) || cdo == 0 {
            lo
        } else {
            let f = le_u32_at(s, def_off + 4);
            let nf = if clear_final {
                spec_update_access_flags(f) & !ACC_FINAL
            } else {
                spec_update_access_flags(f)
            };
            spec_class_data_end(splice(s, def_off + 4, le_bytes_of_u32(nf)), cdo as int)
        };
        if !(ignore.contains(class_idx) || cdo == 0) {
            let f = le_u32_at(s, def_off + 4);
            let nf = if clear_final {
                spec_update_access_flags(f) & !ACC_FINAL
            } else {
                spec_update_access_flags(f)
            };
            lemma_walk_class_data_frame(splice(s, def_off + 4, le_bytes_of_u32(nf)), cdo as int, s1);
        }
        assert(lo <= rest_lo);
        lemma_patch_one_class_changes(s, def_off, ignore, clear_final, s1, lo);
        lemma_patch_classes_frame(
            s1,
            def_off + CLASS_DEF_SIZE,
            (n - 1) as nat,
            ignore,
            clear_final,
            rest_lo,
            t,
        );
        assert forall|m: int| 0 <= m < def_off implies t[m] == s[m] by {
            assert(t[m] == s1[m]);
            assert(s1[m] == s[m]);
        }
        assert forall|m: int| def_off + CLASS_DEF_SIZE * n <= m < lo && m < s.len() implies t[m]
            == s[m] by {
            assert(t[m] == s1[m]);
            assert(s1[m] == s[m]);
        }
    }
}

/// A second pass over the class-definition table of a well-formed archive
/// changes nothing — also in any same-length buffer `u` that holds the table
/// and everything from the first data block on.
#[verifier::rlimit(100)]
#[verifier::spinoff_prover]
pub proof fn lemma_patch_classes_second_pass(
    s: Seq<u8>,
    def_off: int,
    n: nat,
    ignore: Set<u32>,
    clear_final: bool,
    lo: int,
    t: Seq<u8>,
    u: Seq<u8>,
)
    requires
        spec_patch_classes(s, def_off, n, ignore, clear_final) == Some(t),
        spec_classes_separated(s, def_off, n, ignore, clear_final, lo),
        0 <= def_off,
        def_off + CLASS_DEF_SIZE * n <= lo,
        u.len() == t.len(),
        forall|m: int| def_off <= m < def_off + CLASS_DEF_SIZE * n && m < t.len() ==> u[m]
            == t[m],
        forall|m: int| lo <= m < t.len() ==> u[m] == t[m],
    ensures
        spec_patch_classes(u, def_off, n, ignore, clear_final) == Some(u),
    decreases n,
{
    reveal(spec_patch_one_class);
    if n > 0 {
        assert(CLASS_DEF_SIZE * (n as int) == CLASS_DEF_SIZE * ((n - 1) as int) + CLASS_DEF_SIZE)
            by (nonlinear_arith);
        let class_idx = le_u32_at(s, def_off);
        let cdo = le_u32_at(s, def_off + 24);
        let s1 = spec_patch_one_class(s, def_off, ignore, clear_final)->Some_0;
        let rest_lo: int = if ignore.contains(class_idx) || cdo == 0 {
            lo
        } else {
            let f = le_u32_at(s, def_off + 4);
            let nf = if clear_final {
                spec_update_access_flags(f) & !ACC_FINAL
            } else {
                spec_update_access_flags(f)
            };
            spec_class_data_end(splice(s, def_off + 4, le_bytes_of_u32(nf)), cdo as int)
        };
        let f = le_u32_at(s, def_off + 4);
        let nf = if clear_final {
            spec_update_access_flags(f) & !ACC_FINAL
        } else {
            spec_update_access_flags(f)
        };
        let sw = splice(s, def_off + 4, le_bytes_of_u32(nf));
        lemma_splice_facts(s, def_off + 4, le_bytes_of_u32(nf));
        if !ignore.contains(class_idx) && cdo != 0 {
            lemma_walk_class_data_frame(sw, cdo as int, s1);
        }
        assert(s1.len() == s.len());
        lemma_patch_classes_frame(
            s1,
            def_off + CLASS_DEF_SIZE,
            (n - 1) as nat,
            ignore,
            clear_final,
            rest_lo,
            t,
        );
        // the entry's own bytes reach `u` unchanged, but for the flags field
        assert(forall|m: int| def_off <= m < def_off + CLASS_DEF_SIZE ==> t[m] == s1[m]);
        assert forall|m: int| def_off <= m < def_off + CLASS_DEF_SIZE implies u[m] == s1[m] by {
            assert(m < t.len());
            assert(u[m] == t[m]);
        }
        assert(forall|m: int|
            def_off <= m < def_off + 4 || def_off + 8 <= m < def_off + CLASS_DEF_SIZE ==> s1[m]
                == s[m]);
        lemma_le_u32_at_agree(s, u, def_off);
        lemma_le_u32_at_agree(s, u, def_off + 24);
        assert(le_u32_at(u, def_off) == class_idx);
        assert(le_u32_at(u, def_off + 24) == cdo);
        if ignore.contains(class_idx) {
            assert(spec_patch_one_class(u, def_off, ignore, clear_final) == Some(u));
            lemma_patch_classes_second_pass(
                s1,
                def_off + CLASS_DEF_SIZE,
                (n - 1) as nat,
                ignore,
                clear_final,
                lo,
                t,
                u,
            );
        } else {
            // the flags field of `u` holds the widened word, which a second
            // widening reproduces
            lemma_le_u32_at_agree(sw, u, def_off + 4);
            crate::buffer::lemma_le_u32_at_splice(s, def_off + 4, nf);
            assert(le_u32_at(u, def_off + 4) == nf);
            lemma_update_access_flags_idempotent(f);
            let nf2 = if clear_final {
                spec_update_access_flags(nf) & !ACC_FINAL
            } else {
                spec_update_access_flags(nf)
            };
            assert(nf2 == nf);
            assert forall|m: int| def_off + 4 <= m < def_off + 8 implies u[m] == le_bytes_of_u32(
                nf,
            )[m - (def_off + 4)] by {
                assert(u[m] == s1[m]);
                assert(s1[m] == sw[m]);
                assert(sw[m] == le_bytes_of_u32(nf)[m - (def_off + 4)]);
            }
            assert(u.subrange(def_off + 4, def_off + 8) =~= le_bytes_of_u32(nf));
            lemma_splice_identity(u, def_off + 4, le_bytes_of_u32(nf));
            assert(splice(u, def_off + 4, le_bytes_of_u32(nf2)) == u);
            if cdo == 0 {
                assert(spec_patch_one_class(u, def_off, ignore, clear_final) == Some(u));
            } else {
                let je = spec_class_data_end(sw, cdo as int);
                // `u` holds the walked block, which a second walk leaves alone
                assert forall|m: int| cdo <= m < je implies u[m] == t[m] by {
                    assert(m < t.len());
                }
                assert(forall|m: int| cdo <= m < je ==> t[m] == s1[m]);
                lemma_walk_class_data_second_pass(sw, cdo as int, s1, u);
                assert(spec_walk_class_data(u, cdo as int) == Some(u));
                assert(spec_patch_one_class(u, def_off, ignore, clear_final) == Some(u));
            }
            lemma_patch_classes_second_pass(
                s1,
                def_off + CLASS_DEF_SIZE,
                (n - 1) as nat,
                ignore,
                clear_final,
                rest_lo,
                t,
                u,
            );
        }
        assert(spec_patch_classes(u, def_off, n, ignore, clear_final) == Some(u));
    }
}

/// Re-running the class-definition pass on its own output changes nothing,
/// for a well-formed table.
pub proof fn lemma_patch_classes_idempotent(
    s: Seq<u8>,
    def_off: int,
    n: nat,
    ignore: Set<u32>,
    clear_final: bool,
    lo: int,
    t: Seq<u8>,
)
    requires
        spec_patch_classes(s, def_off, n, ignore, clear_final) == Some(t),
        spec_classes_separated(s, def_off, n, ignore, clear_final, lo),
        0 <= def_off,
        def_off + CLASS_DEF_SIZE * n <= lo,
    ensures
        spec_patch_classes(t, def_off, n, ignore, clear_final) == Some(t),
{
    lemma_patch_classes_frame(s, def_off, n, ignore, clear_final, lo, t);
    lemma_patch_classes_second_pass(s, def_off, n, ignore, clear_final, lo, t, t);
}

/// A class whose type index the filter resolved is skipped whole: the class
/// patch step returns the buffer unchanged, so neither its flags nor any of
/// its members' bytes move.
pub proof fn lemma_filtered_class_skipped(
    s: Seq<u8>,
    def_off: int,
    ignore: Set<u32>,
    clear_final: bool,
)
    requires
        0 <= def_off,
        def_off + CLASS_DEF_SIZE <= s.len(),
        ignore.contains(le_u32_at(s, def_off)),
    ensures
        spec_patch_one_class(s, def_off, ignore, clear_final) == Some(s),
{
    reveal(spec_patch_one_class);
}

/// What the resolved ignore set holds: exactly the type indices below `n`
/// whose names start with one of the prefixes.
pub proof fn lemma_resolve_filters_membership(
    s: Seq<u8>,
    type_ids_off: int,
    string_ids_off: int,
    n: nat,
    prefixes: Seq<Seq<u8>>,
    ig: Set<u32>,
)
    requires
        n <= 0x100000000,
        spec_resolve_filters(s, type_ids_off, string_ids_off, n, prefixes) == Some(ig),
    ensures
        forall|t: u32| ig.contains(t) <==> t < n && spec_type_matches(
            s,
            type_ids_off,
            string_ids_off,
            t as int,
            prefixes,
        ) == Some(true),
    decreases n,
{
    if n == 0 {
        assert(ig =~= Set::<u32>::empty());
    } else {
        let prev = spec_resolve_filters(s, type_ids_off, string_ids_off, (n - 1) as nat, prefixes);
        let acc = prev->Some_0;
        lemma_resolve_filters_membership(
            s,
            type_ids_off,
            string_ids_off,
            (n - 1) as nat,
            prefixes,
            acc,
        );
        let last = (n - 1) as u32;
        let tm = spec_type_matches(s, type_ids_off, string_ids_off, n - 1, prefixes);
        assert forall|t: u32|
            ig.contains(t) <==> t < n && spec_type_matches(
                s,
                type_ids_off,
                string_ids_off,
                t as int,
                prefixes,
            ) == Some(true) by {
            if t == last {
                if tm == Some(true) {
                    assert(ig == acc.insert(last));
                    assert(ig.contains(t));
                } else {
                    assert(ig == acc);
                    assert(!acc.contains(t));
                }
            } else {
                if tm == Some(true) {
                    assert(ig == acc.insert(last));
                    assert(ig.contains(t) == acc.contains(t));
                } else {
                    assert(ig == acc);
                }
            }
        }
    }
}

/// Restoring the integrity fields is idempotent: a buffer whose signature
/// and checksum were just written gets the same two values again.
pub proof fn lemma_with_integrity_idempotent(s: Seq<u8>)
    requires
        s.len() >= 32,
        sha1_of(s.subrange(32, s.len() as int)).len() == 20,
    ensures
        spec_with_integrity(spec_with_integrity(s)) == spec_with_integrity(s),
{
    reveal(spec_with_integrity);
    let sig = sha1_of(s.subrange(32, s.len() as int));
    let signed = splice(s, 12, sig);
    let ck = adler32_of(signed.subrange(12, signed.len() as int));
    let v = splice(signed, 8, le_bytes_of_u32(ck));
    lemma_splice_facts(s, 12, sig);
    lemma_splice_facts(signed, 8, le_bytes_of_u32(ck));
    assert(v.len() == s.len());
    assert(v.subrange(32, v.len() as int) =~= s.subrange(32, s.len() as int));
    // the signature field already holds the digest of an unchanged range
    let sig2 = sha1_of(v.subrange(32, v.len() as int));
    assert(sig2 == sig);
    assert forall|m: int| 12 <= m < 32 implies v[m] == sig[m - 12] by {
        assert(v[m] == signed[m]);
        assert(signed[m] == sig[m - 12]);
    }
    assert(v.subrange(12, 32) =~= sig);
    lemma_splice_identity(v, 12, sig);
    let signed2 = splice(v, 12, sig2);
    assert(signed2 == v);
    // the checksum's input range is unchanged by the checksum write itself
    assert(signed2.subrange(12, signed2.len() as int) =~= signed.subrange(
        12,
        signed.len() as int,
    ));
    let ck2 = adler32_of(signed2.subrange(12, signed2.len() as int));
    assert(ck2 == ck);
    assert forall|m: int| 8 <= m < 12 implies v[m] == le_bytes_of_u32(ck)[m - 8] by {
        assert(v[m] == le_bytes_of_u32(ck)[m - 8]);
    }
    assert(v.subrange(8, 12) =~= le_bytes_of_u32(ck));
    lemma_splice_identity(v, 8, le_bytes_of_u32(ck));
    assert(spec_with_integrity(v) == v);
}

/// The integrity write touches bytes 8 to 31 only.
pub proof fn lemma_with_integrity_frame(w: Seq<u8>)
    requires
        w.len() >= 32,
        sha1_of(w.subrange(32, w.len() as int)).len() == 20,
    ensures
        spec_with_integrity(w).len() == w.len(),
        forall|m: int| 0 <= m < 8 ==> spec_with_integrity(w)[m] == w[m],
        forall|m: int| 32 <= m < w.len() ==> spec_with_integrity(w)[m] == w[m],
{
    reveal(spec_with_integrity);
    let sig = sha1_of(w.subrange(32, w.len() as int));
    let signed = splice(w, 12, sig);
    let ck = adler32_of(signed.subrange(12, signed.len() as int));
    lemma_splice_facts(w, 12, sig);
    lemma_splice_facts(signed, 8, le_bytes_of_u32(ck));
}

/// The integrity write keeps the length, everything from byte 32 on, and
/// the first eight bytes, so every header field but the integrity pair reads
/// unchanged.
proof fn lemma_second_write_agrees(w: Seq<u8>, t: Seq<u8>)
    requires
        w.len() >= HEADER_SIZE,
        t == spec_with_integrity(w),
        sha1_of(w.subrange(32, w.len() as int)).len() == 20,
    ensures
        t.len() == w.len(),
        le_u32_at(t, 40) == le_u32_at(w, 40),
        le_u32_at(t, 96) == le_u32_at(w, 96),
        le_u32_at(t, 100) == le_u32_at(w, 100),
        forall|m: int| 32 <= m < w.len() ==> t[m] == w[m],
        w.subrange(32, w.len() as int) == t.subrange(32, t.len() as int),
{
    lemma_with_integrity_frame(w);
    lemma_le_u32_at_agree(w, t, 40);
    lemma_le_u32_at_agree(w, t, 96);
    lemma_le_u32_at_agree(w, t, 100);
    assert(w.subrange(32, w.len() as int) =~= t.subrange(32, t.len() as int));
}

/// Finish of whole-pass idempotence: with the agreements in hand, the
/// second class pass and the second integrity write change nothing.
#[verifier::rlimit(100)]
#[verifier::spinoff_prover]
proof fn lemma_patch_idempotent_finish(
    s: Seq<u8>,
    clear_final: bool,
    w: Seq<u8>,
    t: Seq<u8>,
    base: int,
    n: nat,
    lo: int,
)
    requires
        spec_patch_classes(s, base, n, Set::empty(), clear_final) == Some(w),
        spec_classes_separated(s, base, n, Set::empty(), clear_final, lo),
        0 <= base,
        base + CLASS_DEF_SIZE * n <= lo,
        w.len() >= 32,
        t.len() == w.len(),
        forall|m: int| base <= m < base + CLASS_DEF_SIZE * n && m < w.len() ==> t[m] == w[m],
        forall|m: int| lo <= m < w.len() ==> t[m] == w[m],
        t == spec_with_integrity(w),
        sha1_of(w.subrange(32, w.len() as int)).len() == 20,
    ensures
        spec_patch_classes(t, base, n, Set::empty(), clear_final) == Some(t),
        spec_with_integrity(t) == t,
{
    lemma_patch_classes_second_pass(s, base, n, Set::empty(), clear_final, lo, w, t);
    lemma_with_integrity_idempotent(w);
}

/// Middle of whole-pass idempotence: from the class pass's result and the
/// integrity write, the header reads unchanged and both passes are fixed.
#[verifier::rlimit(100)]
#[verifier::spinoff_prover]
proof fn lemma_patch_idempotent_core(
    s: Seq<u8>,
    clear_final: bool,
    w: Seq<u8>,
    t: Seq<u8>,
    lo: int,
)
    requires
        s.len() >= HEADER_SIZE,
        HEADER_SIZE <= le_u32_at(s, 100),
        spec_patch_classes(
            s,
            le_u32_at(s, 100) as int,
            le_u32_at(s, 96) as nat,
            Set::empty(),
            clear_final,
        ) == Some(w),
        spec_classes_separated(
            s,
            le_u32_at(s, 100) as int,
            le_u32_at(s, 96) as nat,
            Set::empty(),
            clear_final,
            lo,
        ),
        le_u32_at(s, 100) + CLASS_DEF_SIZE * le_u32_at(s, 96) <= lo,
        HEADER_SIZE <= lo,
        t == spec_with_integrity(w),
        sha1_of(w.subrange(32, w.len() as int)).len() == 20,
    ensures
        t.len() == s.len(),
        le_u32_at(t, 40) == le_u32_at(s, 40),
        le_u32_at(t, 96) == le_u32_at(s, 96),
        le_u32_at(t, 100) == le_u32_at(s, 100),
        spec_patch_classes(
            t,
            le_u32_at(s, 100) as int,
            le_u32_at(s, 96) as nat,
            Set::empty(),
            clear_final,
        ) == Some(t),
        spec_with_integrity(t) == t,
{
    let base = le_u32_at(s, 100) as int;
    let n = le_u32_at(s, 96) as nat;
    let ig = Set::<u32>::empty();
    lemma_patch_classes_frame(s, base, n, ig, clear_final, lo, w);
    assert(w.len() == s.len());
    assert(forall|m: int| 0 <= m < base ==> w[m] == s[m]);
    lemma_second_write_agrees(w, t);
    lemma_le_u32_at_agree(s, w, 40);
    lemma_le_u32_at_agree(s, w, 96);
    lemma_le_u32_at_agree(s, w, 100);
    assert forall|m: int| base <= m < base + CLASS_DEF_SIZE * n && m < w.len() implies t[m]
        == w[m] by {
        assert(m >= 32);
    }
    assert forall|m: int| lo <= m < w.len() implies t[m] == w[m] by {
        assert(m >= 32);
    }
    lemma_patch_idempotent_finish(s, clear_final, w, t, base, n, lo);
}

/// Idempotence of the whole pass, run without class filters: on an archive
/// whose class-definition table sits past the header and whose class-data
/// blocks follow the table in order without overlap, re-running the patch on
/// its own output reproduces that output byte for byte.
#[verifier::rlimit(100)]
#[verifier::spinoff_prover]
pub proof fn lemma_patch_idempotent(s: Seq<u8>, clear_final: bool, t: Seq<u8>, lo: int)
    requires
        spec_patch(s, Seq::<Seq<u8>>::empty(), clear_final) == Ok::<Seq<u8>, crate::DexError>(t),
        le_u32_at(s, 100) != 0,
        HEADER_SIZE <= le_u32_at(s, 100),
        spec_classes_separated(
            s,
            le_u32_at(s, 100) as int,
            le_u32_at(s, 96) as nat,
            Set::empty(),
            clear_final,
            lo,
        ),
        le_u32_at(s, 100) + CLASS_DEF_SIZE * le_u32_at(s, 96) <= lo,
        HEADER_SIZE <= lo,
        ({
            let w = spec_patch_classes(
                s,
                le_u32_at(s, 100) as int,
                le_u32_at(s, 96) as nat,
                Set::empty(),
                clear_final,
            )->Some_0;
            sha1_of(w.subrange(32, w.len() as int)).len() == 20
        }),
    ensures
        spec_patch(t, Seq::<Seq<u8>>::empty(), clear_final) == Ok::<Seq<u8>, crate::DexError>(t),
{
    let base = le_u32_at(s, 100) as int;
    let n = le_u32_at(s, 96) as nat;
    let ig = Set::<u32>::empty();
    let w = spec_patch_classes(s, base, n, ig, clear_final)->Some_0;
    assert(t == spec_with_integrity(w));
    lemma_patch_idempotent_core(s, clear_final, w, t, lo);
    assert(le_u32_at(t, 40) == LITTLE_ENDIAN);
    assert(t.len() >= HEADER_SIZE);
}

} // verus!