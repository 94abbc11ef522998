//! The patching engine: a specification-level model of the whole pass, the
//! in-place flag rewriter, the class-data walker, the optional class-name
//! filter and the top-level driver.

use vstd::prelude::*;
use crate::DexError;
use crate::buffer::{le_u32_at, le_bytes_of_u32, splice, write_u32_at, write_bytes_at,
    lemma_splice_facts, lemma_le_u32_at_agree, read_u32_at};
use crate::flags::{spec_update_access_flags, spec_method_exempt, update_access_flags,
    ACC_PRIVATE, ACC_STATIC, ACC_CONSTRUCTOR, ACC_FINAL};
use crate::integrity::{spec_with_integrity, recompute_integrity, sha1_of, adler32_of};
use crate::structures::{DexFileHeader, ClassDefItem, LITTLE_ENDIAN, HEADER_SIZE, CLASS_DEF_SIZE};
use crate::uleb128::{spec_uleb_result, uleb_encode, read_uleb128, write_uleb128, ULeb128Read,
    uleb_len_at};

verus! {

/// The flags a member slot should carry: exempt method slots keep theirs,
/// every other slot is widened.
pub open spec fn spec_new_member_flags(v: u32, is_method: bool) -> u32 {
    if is_method && spec_method_exempt(v) {
        v
    } else {
        spec_update_access_flags(v)
    }
}

/// One member flags slot at `i`: the buffer afterwards and the slot's byte
/// length, or `None` where the slot does not decode. The slot is rewritten
/// only when the new value re-encodes to exactly the old length; otherwise
/// the original bytes are kept, so that no later offset shifts.
pub open spec fn spec_rewrite_slot(s: Seq<u8>, i: int, is_method: bool) -> Option<(Seq<u8>, int)> {
    match spec_uleb_result(s, i) {
        None => None,
        Some((v, l)) => {
            let nv = spec_new_member_flags(v, is_method);
            if nv == v {
                Some((s, l))
            } else if uleb_encode(nv as nat).len() == l {
                Some((splice(s, i, uleb_encode(nv as nat)), l))
            } else {
                Some((s, l))
            }
        },
    }
}

/// Decodes the flags at `offset`, widens them under the member policy, and
/// writes the new value back only where its encoding is exactly as long as
/// the old one. Returns the slot's byte length for the caller's cursor.
pub fn update_access_flags_uleb128(data: &mut Vec<u8>, offset: usize, is_method: bool) -> (r:
    Option<u8>)
    ensures
        final(data).len() == old(data).len(),
        match r {
            Some(l) => {
                &&& spec_rewrite_slot(old(data)@, offset as int, is_method) == Some(
                    (final(data)@, l as int),
                )
                &&& 1 <= l <= 10
                &&& offset + l <= old(data).len()
            },
            None => {
                &&& spec_rewrite_slot(old(data)@, offset as int, is_method) is None
                &&& final(data)@ == old(data)@
            },
        },
{
    let read = read_uleb128(data, offset);
    let access_flags = match read {
        Some(u) => u,
        None => {
            return None;
        },
    };
    // skip private instance methods: widening them would change dispatch
    if is_method && access_flags.value & (ACC_STATIC | ACC_CONSTRUCTOR | ACC_PRIVATE)
        == ACC_PRIVATE {
        return Some(access_flags.length);
    }
    let new_flags = update_access_flags(access_flags.value);
    if new_flags == access_flags.value {
        return Some(access_flags.length);
    }
    let encoded = write_uleb128(new_flags);
    if encoded.len() != access_flags.length as usize {
        // a different length cannot be written in place; keep the old bytes
        return Some(access_flags.length);
    }
    write_bytes_at(data, offset, &encoded);
    Some(access_flags.length)
}

/// `n` field entries from `i` on: each is an index delta followed by a flags
/// slot that is rewritten under the field policy. Returns the buffer
/// afterwards and the cursor past the last entry.
pub open spec fn spec_walk_fields(s: Seq<u8>, i: int, n: nat) -> Option<(Seq<u8>, int)>
    decreases n,
{
    if n == 0 {
        Some((s, i))
    } else {
        match spec_uleb_result(s, i) {
            None => None,
            Some((_d, l1)) => match spec_rewrite_slot(s, i + l1, false) {
                None => None,
                Some((s2, l2)) => spec_walk_fields(s2, i + l1 + l2, (n - 1) as nat),
            },
        }
    }
}

/// `n` method entries from `i` on: an index delta, a flags slot rewritten
/// under the method policy, and a code offset.
pub open spec fn spec_walk_methods(s: Seq<u8>, i: int, n: nat) -> Option<(Seq<u8>, int)>
    decreases n,
{
    if n == 0 {
        Some((s, i))
    } else {
        match spec_uleb_result(s, i) {
            None => None,
            Some((_d, l1)) => match spec_rewrite_slot(s, i + l1, true) {
                None => None,
                Some((s2, l2)) => match spec_uleb_result(s2, i + l1 + l2) {
                    None => None,
                    Some((_c, l3)) => spec_walk_methods(s2, i + l1 + l2 + l3, (n - 1) as nat),
                },
            },
        }
    }
}

/// One class-data block at `off`: four counts, then the field list, then the
/// method list.
pub open spec fn spec_walk_class_data(s: Seq<u8>, off: int) -> Option<Seq<u8>> {
    match spec_uleb_result(s, off) {
        None => None,
        Some((sf, l1)) => match spec_uleb_result(s, off + l1) {
            None => None,
            Some((inf, l2)) => match spec_uleb_result(s, off + l1 + l2) {
                None => None,
                Some((dm, l3)) => match spec_uleb_result(s, off + l1 + l2 + l3) {
                    None => None,
                    Some((vm, l4)) => match spec_walk_fields(
                        s,
                        off + l1 + l2 + l3 + l4,
                        (sf + inf) as nat,
                    ) {
                        None => None,
                        Some((s2, j)) => match spec_walk_methods(s2, j, (dm + vm) as nat) {
                            None => None,
                            Some((s3, _end)) => Some(s3),
                        },
                    },
                },
            },
        },
    }
}

/// Walks one class-data block at `off`, rewriting every member's flags slot
/// in place. On failure the buffer may hold the rewrites already made before
/// the malformed entry; its length never changes.
#[verifier::loop_isolation(false)]
#[verifier::rlimit(50)]
pub fn walk_class_data(data: &mut Vec<u8>, off: u32) -> (r: Result<(), DexError>)
    ensures
        final(data).len() == old(data).len(),
        match r {
            Ok(()) => spec_walk_class_data(old(data)@, off as int) == Some(final(data)@),
            Err(e) => e == DexError::Decode && spec_walk_class_data(
                old(data)@,
                off as int,
            ) is None,
        },
{
    let ghost s0 = data@;
    let mut offset: usize = off as usize;
    let static_fields = match read_uleb128(data, offset) {
        Some(u) => u,
        None => {
            return Err(DexError::Decode);
        },
    };
    offset = offset + static_fields.length as usize;
    let instance_fields = match read_uleb128(data, offset) {
        Some(u) => u,
        None => {
            return Err(DexError::Decode);
        },
    };
    offset = offset + instance_fields.length as usize;
    let direct_methods = match read_uleb128(data, offset) {
        Some(u) => u,
        None => {
            return Err(DexError::Decode);
        },
    };
    offset = offset + direct_methods.length as usize;
    let virtual_methods = match read_uleb128(data, offset) {
        Some(u) => u,
        None => {
            return Err(DexError::Decode);
        },
    };
    offset = offset + virtual_methods.length as usize;

    let field_count: u64 = static_fields.value as u64 + instance_fields.value as u64;
    let method_count: u64 = direct_methods.value as u64 + virtual_methods.value as u64;
    let ghost s1 = data@;
    assert(s1 == s0);

    let mut k: u64 = 0;
    while k < field_count
        invariant
            0 <= k <= field_count,
            data.len() == old(data).len(),
            spec_walk_fields(s1, off as int + static_fields.length + instance_fields.length
                + direct_methods.length + virtual_methods.length, field_count as nat)
                == spec_walk_fields(data@, offset as int, (field_count - k) as nat),
            offset <= data.len(),
        decreases field_count - k,
    {
        let ghost cur = data@;
        let ghost cur_off = offset as int;
        let idx_diff = match read_uleb128(data, offset) {
            Some(u) => u,
            None => {
                assert(spec_walk_fields(cur, cur_off, (field_count - k) as nat) is None);
                return Err(DexError::Decode);
            },
        };
        offset = offset + idx_diff.length as usize;
        let flags_len = match update_access_flags_uleb128(data, offset, false) {
            Some(l) => l,
            None => {
                assert(spec_walk_fields(cur, cur_off, (field_count - k) as nat) is None);
                return Err(DexError::Decode);
            },
        };
        offset = offset + flags_len as usize;
        k = k + 1;
        assert(spec_walk_fields(cur, cur_off, (field_count - k + 1) as nat) == spec_walk_fields(
            data@,
            offset as int,
            (field_count - k) as nat,
        ));
    }
    assert(spec_walk_fields(data@, offset as int, 0) == Some((data@, offset as int)));

    let ghost s2 = data@;
    let ghost fields_end = offset as int;
    let mut k2: u64 = 0;
    while k2 < method_count
        invariant
            0 <= k2 <= method_count,
            data.len() == old(data).len(),
            spec_walk_methods(s2, fields_end, method_count as nat) == spec_walk_methods(
                data@,
                offset as int,
                (method_count - k2) as nat,
            ),
            offset <= data.len(),
        decreases method_count - k2,
    {
        let ghost cur = data@;
        let ghost cur_off = offset as int;
        let idx_diff = match read_uleb128(data, offset) {
            Some(u) => u,
            None => {
                assert(spec_walk_methods(cur, cur_off, (method_count - k2) as nat) is None);
                return Err(DexError::Decode);
            },
        };
        offset = offset + idx_diff.length as usize;
        let flags_len = match update_access_flags_uleb128(data, offset, true) {
            Some(l) => l,
            None => {
                assert(spec_walk_methods(cur, cur_off, (method_count - k2) as nat) is None);
                return Err(DexError::Decode);
            },
        };
        offset = offset + flags_len as usize;
        let code_off = match read_uleb128(data, offset) {
            Some(u) => u,
            None => {
                assert(spec_walk_methods(cur, cur_off, (method_count - k2) as nat) is None);
                return Err(DexError::Decode);
            },
        };
        offset = offset + code_off.length as usize;
        k2 = k2 + 1;
        assert(spec_walk_methods(cur, cur_off, (method_count - k2 + 1) as nat)
            == spec_walk_methods(data@, offset as int, (method_count - k2) as nat));
    }
    assert(spec_walk_methods(data@, offset as int, 0) == Some((data@, offset as int)));
    assert(spec_walk_class_data(s0, off as int) == Some(data@));
    Ok(())
}

/// The raw bytes at `j` start with `pre`.
pub open spec fn spec_prefix_matches(s: Seq<u8>, j: int, pre: Seq<u8>) -> bool {
    &&& 0 <= j
    &&& j + pre.len() <= s.len()
    &&& s.subrange(j, j + pre.len() as int) == pre
}

/// Whether the name of type `t` starts with any of the `prefixes`: the type
/// table gives a string id, the string table gives the name's offset, and the
/// name's raw bytes follow its ULEB128 length prefix. `None` where any of
/// those reads leaves the buffer or the prefix does not decode.
pub open spec fn spec_type_matches(
    s: Seq<u8>,
    type_ids_off: int,
    string_ids_off: int,
    t: int,
    prefixes: Seq<Seq<u8>>,
) -> Option<bool> {
    let sid_off = type_ids_off + 4 * t;
    if sid_off < 0 || sid_off + 4 > s.len() {
        None
    } else {
        let sid = le_u32_at(s, sid_off) as int;
        let soff_off = string_ids_off + 4 * sid;
        if soff_off < 0 || soff_off + 4 > s.len() {
            None
        } else {
            let str_off = le_u32_at(s, soff_off) as int;
            match uleb_len_at(s, str_off) {
                None => None,
                Some(l) => Some(
                    exists|p: int|
                        0 <= p < prefixes.len() && spec_prefix_matches(s, str_off + l, prefixes[p]),
                ),
            }
        }
    }
}

/// The set of type indices below `n` whose names start with one of the
/// `prefixes`, or `None` where any lookup fails.
pub open spec fn spec_resolve_filters(
    s: Seq<u8>,
    type_ids_off: int,
    string_ids_off: int,
    n: nat,
    prefixes: Seq<Seq<u8>>,
) -> Option<Set<u32>>
    decreases n,
{
    if n == 0 {
        Some(Set::empty())
    } else {
        match spec_resolve_filters(s, type_ids_off, string_ids_off, (n - 1) as nat, prefixes) {
            None => None,
            Some(acc) => match spec_type_matches(
                s,
                type_ids_off,
                string_ids_off,
                n - 1,
                prefixes,
            ) {
                None => None,
                Some(true) => Some(acc.insert((n - 1) as u32)),
                Some(false) => Some(acc),
            },
        }
    }
}

/// The ignore set that a table of per-type booleans stands for.
pub open spec fn ignore_set_of(v: Seq<bool>) -> Set<u32> {
    Set::new(|t: u32| 0 <= t < v.len() && v[t as int])
}

/// Compares the bytes at `j` against `pre`, byte for byte.
fn prefix_matches(data: &Vec<u8>, j: usize, pre: &Vec<u8>) -> (r: bool)
    ensures
        r == spec_prefix_matches(data@, j as int, pre@),
{
    let n = pre.len();
    if n > data.len() || j > data.len() - n {
        return false;
    }
    let mut q: usize = 0;
    while q < n
        invariant
            0 <= q <= n,
            n == pre.len(),
            j + n <= data.len(),
            forall|m: int| 0 <= m < q ==> data@[j + m] == pre@[m],
        decreases n - q,
    {
        if data[j + q] != pre[q] {
            assert(data@.subrange(j as int, j + n as int)[q as int] != pre@[q as int]);
            return false;
        }
        q = q + 1;
    }
    assert(data@.subrange(j as int, j + n as int) =~= pre@);
    true
}

/// Whether the name of type `t` starts with any of the filter prefixes.
#[verifier::loop_isolation(false)]
fn type_matches(
    data: &Vec<u8>,
    type_ids_off: u32,
    string_ids_off: u32,
    t: u32,
    filters: &Vec<Vec<u8>>,
) -> (r: Result<bool, DexError>)
    ensures
        match r {
            Ok(b) => spec_type_matches(
                data@,
                type_ids_off as int,
                string_ids_off as int,
                t as int,
                filters.deep_view(),
            ) == Some(b),
            Err(e) => e == DexError::Decode && spec_type_matches(
                data@,
                type_ids_off as int,
                string_ids_off as int,
                t as int,
                filters.deep_view(),
            ) is None,
        },
{
    let sid_off64: u64 = type_ids_off as u64 + 4 * (t as u64);
    if sid_off64 + 4 > data.len() as u64 {
        return Err(DexError::Decode);
    }
    let sid_off = sid_off64 as usize;
    let sid = read_u32_at(data, sid_off);
    let soff_off64: u64 = string_ids_off as u64 + 4 * (sid as u64);
    if soff_off64 + 4 > data.len() as u64 {
        return Err(DexError::Decode);
    }
    let soff_off = soff_off64 as usize;
    let str_off = read_u32_at(data, soff_off);
    let len_prefix = match read_uleb128(data, str_off as usize) {
        Some(u) => u,
        None => {
            return Err(DexError::Decode);
        },
    };
    let name_start: usize = str_off as usize + len_prefix.length as usize;
    let ghost prefixes = filters.deep_view();
    let mut p: usize = 0;
    while p < filters.len()
        invariant
            0 <= p <= filters.len(),
            prefixes == filters.deep_view(),
            forall|m: int| 0 <= m < p ==> !spec_prefix_matches(
                data@,
                name_start as int,
                #[trigger] prefixes[m],
            ),
        decreases filters.len() - p,
    {
        proof {
            assert(prefixes[p as int] =~= filters@[p as int]@);
        }
        if prefix_matches(data, name_start, &filters[p]) {
            return Ok(true);
        }
        p = p + 1;
    }
    Ok(false)
}

/// `None` propagates up the filter resolution: once one lookup fails, the
/// whole resolution fails.
proof fn lemma_resolve_none_propagates(
    s: Seq<u8>,
    type_ids_off: int,
    string_ids_off: int,
    k: nat,
    n: nat,
    prefixes: Seq<Seq<u8>>,
)
    requires
        k <= n,
        spec_resolve_filters(s, type_ids_off, string_ids_off, k, prefixes) is None,
    ensures
        spec_resolve_filters(s, type_ids_off, string_ids_off, n, prefixes) is None,
    decreases n - k,
{
    if k < n {
        lemma_resolve_none_propagates(s, type_ids_off, string_ids_off, k, (n - 1) as nat, prefixes);
    }
}

/// Resolves the ignore table: one boolean per type index, true where the
/// type's name starts with a filter prefix.
fn resolve_filters(
    data: &Vec<u8>,
    type_ids_size: u32,
    type_ids_off: u32,
    string_ids_off: u32,
    filters: &Vec<Vec<u8>>,
) -> (r: Result<Vec<bool>, DexError>)
    ensures
        match r {
            Ok(v) => {
                &&& v.len() == type_ids_size
                &&& spec_resolve_filters(
                    data@,
                    type_ids_off as int,
                    string_ids_off as int,
                    type_ids_size as nat,
                    filters.deep_view(),
                ) == Some(ignore_set_of(v@))
            },
            Err(e) => e == DexError::Decode && spec_resolve_filters(
                data@,
                type_ids_off as int,
                string_ids_off as int,
                type_ids_size as nat,
                filters.deep_view(),
            ) is None,
        },
{
    let ghost prefixes = filters.deep_view();
    let mut ignored: Vec<bool> = Vec::new();
    let mut t: u32 = 0;
    assert(ignore_set_of(ignored@) =~= Set::<u32>::empty());
    while t < type_ids_size
        invariant
            0 <= t <= type_ids_size,
            ignored.len() == t,
            prefixes == filters.deep_view(),
            spec_resolve_filters(
                data@,
                type_ids_off as int,
                string_ids_off as int,
                t as nat,
                prefixes,
            ) == Some(ignore_set_of(ignored@)),
        decreases type_ids_size - t,
    {
        let b = match type_matches(data, type_ids_off, string_ids_off, t, filters) {
            Ok(b) => b,
            Err(e) => {
                proof {
                    lemma_resolve_none_propagates(
                        data@,
                        type_ids_off as int,
                        string_ids_off as int,
                        (t + 1) as nat,
                        type_ids_size as nat,
                        prefixes,
                    );
                }
                return Err(e);
            },
        };
        let ghost before = ignored@;
        ignored.push(b);
        proof {
            if b {
                assert(ignore_set_of(ignored@) =~= ignore_set_of(before).insert(t));
            } else {
                assert(ignore_set_of(ignored@) =~= ignore_set_of(before));
            }
        }
        t = t + 1;
    }
    Ok(ignored)
}

/// One class-definition entry at `def_off`: an ignored class is skipped
/// whole; otherwise its own flags are widened (and, under the toggle, its
/// final bit cleared) and its class-data block, where it has one, is walked.
#[verifier::opaque]
pub open spec fn spec_patch_one_class(
    s: Seq<u8>,
    def_off: int,
    ignore: Set<u32>,
    clear_final: bool,
) -> Option<Seq<u8>> {
    if def_off < 0 || def_off + CLASS_DEF_SIZE > s.len() {
        None
    } else {
        let class_idx = le_u32_at(s, def_off);
        if ignore.contains(class_idx) {
            Some(s)
        } else {
            let f = le_u32_at(s, def_off + 4);
            let nf = if clear_final {
                spec_update_access_flags(f) & !ACC_FINAL
            } else {
                spec_update_access_flags(f)
            };
            let cdo = le_u32_at(s, def_off + 24);
            let s1 = splice(s, def_off + 4, le_bytes_of_u32(nf));
            if cdo == 0 {
                Some(s1)
            } else {
                spec_walk_class_data(s1, cdo as int)
            }
        }
    }
}

/// `n` class-definition entries, each `CLASS_DEF_SIZE` bytes after the one
/// before it.
pub open spec fn spec_patch_classes(
    s: Seq<u8>,
    def_off: int,
    n: nat,
    ignore: Set<u32>,
    clear_final: bool,
) -> Option<Seq<u8>>
    decreases n,
{
    if n == 0 {
        Some(s)
    } else {
        match spec_patch_one_class(s, def_off, ignore, clear_final) {
            None => None,
            Some(s1) => spec_patch_classes(
                s1,
                def_off + CLASS_DEF_SIZE,
                (n - 1) as nat,
                ignore,
                clear_final,
            ),
        }
    }
}

/// Patches one class-definition entry in place.
#[verifier::loop_isolation(false)]
fn patch_one_class(
    data: &mut Vec<u8>,
    def_off: usize,
    ignored: &Vec<bool>,
    clear_final: bool,
) -> (r: Result<(), DexError>)
    ensures
        final(data).len() == old(data).len(),
        match r {
            Ok(()) => spec_patch_one_class(
                old(data)@,
                def_off as int,
                ignore_set_of(ignored@),
                clear_final,
            ) == Some(final(data)@),
            Err(e) => e == DexError::Decode && spec_patch_one_class(
                old(data)@,
                def_off as int,
                ignore_set_of(ignored@),
                clear_final,
            ) is None,
        },
{
    proof {
        reveal(spec_patch_one_class);
    }
    let item = match ClassDefItem::parse(data, def_off) {
        Some(c) => c,
        None => {
            return Err(DexError::Decode);
        },
    };
    if (item.class_idx as usize) < ignored.len() && ignored[item.class_idx as usize] {
        assert(ignore_set_of(ignored@).contains(item.class_idx));
        return Ok(());
    }
    assert(!ignore_set_of(ignored@).contains(item.class_idx));
    let mut new_flags = update_access_flags(item.access_flags);
    if clear_final {
        new_flags = new_flags & !ACC_FINAL;
    }
    write_u32_at(data, def_off + 4, new_flags);
    if item.class_data_offset == 0 {
        return Ok(());
    }
    walk_class_data(data, item.class_data_offset)
}

/// What one whole patch pass makes of a buffer: reject a short or
/// byte-swapped header; do nothing where there is no class-definitions
/// table; otherwise resolve the filters, patch every class definition and
/// restore the two integrity fields.
pub open spec fn spec_patch(s: Seq<u8>, prefixes: Seq<Seq<u8>>, clear_final: bool) -> Result<
    Seq<u8>,
    DexError,
> {
    if s.len() < HEADER_SIZE {
        Err(DexError::Decode)
    } else if le_u32_at(s, 40) != LITTLE_ENDIAN {
        Err(DexError::UnsupportedFormat)
    } else if le_u32_at(s, 100) == 0 {
        Ok(s)
    } else {
        let ignore = if prefixes.len() == 0 {
            Some(Set::<u32>::empty())
        } else {
            spec_resolve_filters(s, le_u32_at(s, 68) as int, le_u32_at(s, 60) as int, le_u32_at(
                s,
                64,
            ) as nat, prefixes)
        };
        match ignore {
            None => Err(DexError::Decode),
            Some(ig) => match spec_patch_classes(s, le_u32_at(s, 100) as int, le_u32_at(
                s,
                96,
            ) as nat, ig, clear_final) {
                None => Err(DexError::Decode),
                Some(s1) => Ok(spec_with_integrity(s1)),
            },
        }
    }
}

/// Patches the archive in `bytes` in place: widens every class's and
/// member's access flags under the policy, skipping classes whose type name
/// starts with one of the `filters` prefixes, then restores the checksum and
/// signature. With `clear_final` set, the final bit of class flags is also
/// cleared. On a decode failure the classes walked before the malformed one
/// keep their rewrites; the buffer's length never changes.
#[verifier::loop_isolation(false)]
#[verifier::rlimit(100)]
pub fn modify_dex(bytes: &mut Vec<u8>, filters: &Vec<Vec<u8>>, clear_final: bool) -> (r: Result<
    (),
    DexError,
>)
    ensures
        final(bytes).len() == old(bytes).len(),
        match r {
            Ok(()) => spec_patch(old(bytes)@, filters.deep_view(), clear_final) == Ok::<
                Seq<u8>,
                DexError,
            >(final(bytes)@),
            Err(e) => spec_patch(old(bytes)@, filters.deep_view(), clear_final) == Err::<
                Seq<u8>,
                DexError,
            >(e),
        },
        r == Err::<(), DexError>(DexError::UnsupportedFormat) ==> final(bytes)@ == old(bytes)@,
        r is Ok && old(bytes).len() >= HEADER_SIZE && le_u32_at(old(bytes)@, 100) == 0
            ==> final(bytes)@ == old(bytes)@,
        (old(bytes).len() >= HEADER_SIZE && le_u32_at(old(bytes)@, 40) != LITTLE_ENDIAN) <==> r
            == Err::<(), DexError>(DexError::UnsupportedFormat),
        r is Ok && old(bytes).len() >= HEADER_SIZE && le_u32_at(old(bytes)@, 100) != 0 ==> {
            let out = final(bytes)@;
            &&& le_u32_at(out, 8) == adler32_of(out.subrange(12, out.len() as int))
            &&& out.subrange(12, 32) == sha1_of(out.subrange(32, out.len() as int))
        },
{
    proof {
        reveal(spec_patch_one_class);
    }
    let ghost s0 = bytes@;
    let header = match DexFileHeader::parse(bytes) {
        Some(h) => h,
        None => {
            return Err(DexError::Decode);
        },
    };
    if header.endian_tag != LITTLE_ENDIAN {
        return Err(DexError::UnsupportedFormat);
    }
    if header.class_defs_offset == 0 {
        return Ok(());
    }
    let ignored: Vec<bool> = if filters.len() == 0 {
        Vec::new()
    } else {
        match resolve_filters(
            bytes,
            header.type_ids_size,
            header.type_ids_offset,
            header.string_ids_offset,
            filters,
        ) {
            Ok(v) => v,
            Err(e) => {
                return Err(e);
            },
        }
    };
    let ghost ig = ignore_set_of(ignored@);
    proof {
        if filters.len() == 0 {
            assert(ig =~= Set::<u32>::empty());
        }
    }
    let n = header.class_defs_size;
    let mut def_off: usize = header.class_defs_offset as usize;
    let mut idx: u32 = 0;
    while idx < n
        invariant
            0 <= idx <= n,
            bytes.len() == old(bytes).len(),
            spec_patch_classes(s0, header.class_defs_offset as int, n as nat, ig, clear_final)
                == spec_patch_classes(bytes@, def_off as int, (n - idx) as nat, ig, clear_final),
            idx < n ==> def_off == header.class_defs_offset + CLASS_DEF_SIZE * idx,
        decreases n - idx,
    {
        let ghost cur = bytes@;
        match patch_one_class(bytes, def_off, &ignored, clear_final) {
            Ok(()) => {},
            Err(e) => {
                assert(spec_patch_classes(cur, def_off as int, (n - idx) as nat, ig, clear_final)
                    is None);
                return Err(e);
            },
        }
        assert(def_off + CLASS_DEF_SIZE <= bytes.len());
        def_off = def_off + CLASS_DEF_SIZE;
        idx = idx + 1;
        assert(spec_patch_classes(cur, def_off - CLASS_DEF_SIZE, (n - idx + 1) as nat, ig,
            clear_final) == spec_patch_classes(bytes@, def_off as int, (n - idx) as nat, ig,
            clear_final));
    }
    assert(spec_patch_classes(bytes@, def_off as int, 0, ig, clear_final) == Some(bytes@));
    recompute_integrity(bytes);
    Ok(())
}

} // verus!
