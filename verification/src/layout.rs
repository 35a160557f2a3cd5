//! Node layout planning.
//!
//! A node occupies a single contiguous block. The planner computes, from the
//! key and value types and a capacity (or a byte budget), the total block
//! size, its alignment and the offset of every field: header, sibling links
//! (sized and aligned like `usize`), the key array and the value-or-child
//! array. The descriptors are immutable once computed.

use vstd::layout::{align_of, size_of};
use vstd::prelude::*;

verus! {

broadcast use vstd::layout::group_align_properties;

/// Tag distinguishing the two node kinds in a block header.
#[derive(Copy, Clone, Debug, PartialEq, Eq, Structural)]
pub enum NodeTag {
    Branch,
    Leaf,
}

/// Header embedded at offset zero of every node block.
#[derive(Copy, Clone, Debug)]
pub struct NodeHdr {
    /// Distinguishes leaf blocks from branch blocks.
    pub tag: NodeTag,
    /// Number of initialized keys currently in the node.
    pub len: u16,
    /// Reserved for flags.
    pub flags: u8,
}

/// Layout descriptor for leaf blocks.
#[derive(Copy, Clone, Debug)]
pub struct LeafLayout {
    /// Total block size in bytes.
    pub bytes: usize,
    /// Maximum number of key/value pairs.
    pub cap: u16,
    /// Overall block alignment.
    pub max_align: usize,
    /// Header size padded to the overall alignment.
    pub hdr_size: usize,
    /// Offset of the forward sibling link.
    pub next_off: usize,
    /// Offset of the backward sibling link, when doubly linked.
    pub prev_off: Option<usize>,
    /// Offset of the key array.
    pub keys_off: usize,
    /// Offset of the value array.
    pub vals_off: usize,
}

/// Layout descriptor for branch blocks.
#[derive(Copy, Clone, Debug)]
pub struct BranchLayout {
    /// Total block size in bytes.
    pub bytes: usize,
    /// Maximum number of separator keys; child pointers number one more.
    pub cap: u16,
    /// Overall block alignment.
    pub max_align: usize,
    /// Header size padded to the overall alignment.
    pub hdr_size: usize,
    /// Offset of the child-pointer array.
    pub children_off: usize,
    /// Offset of the separator-key array.
    pub keys_off: usize,
}

/// `x` rounded up to the next multiple of `a`.
pub open spec fn sp_align_up(x: int, a: int) -> int {
    ((x + a - 1) / a) * a
}

/// The larger of two values.
pub open spec fn sp_max(a: int, b: int) -> int {
    if a >= b {
        a
    } else {
        b
    }
}

/// Rounds `x` up to the next multiple of `a`.
pub fn align_up(x: usize, a: usize) -> (r: usize)
    requires
        a > 0,
        x + a <= usize::MAX + 1,
    ensures
        r == sp_align_up(x as int, a as int),
        x <= r < x + a,
        r % a == 0,
{
    proof {
        lemma_align_up_props(x as int, a as int);
    }
    ((x + (a - 1)) / a) * a
}

/// Basic facts about `sp_align_up`.
pub proof fn lemma_align_up_props(x: int, a: int)
    requires
        a > 0,
        x >= 0,
    ensures
        x <= sp_align_up(x, a) < x + a,
        sp_align_up(x, a) % a == 0,
{
    let y = x + a - 1;
    let q = y / a;
    vstd::arithmetic::div_mod::lemma_fundamental_div_mod(y, a);
    vstd::arithmetic::div_mod::lemma_mod_bound(y, a);
    assert(q * a == y - y % a);
    vstd::arithmetic::div_mod::lemma_mod_multiples_basic(q, a);
}

/// When the alignment is a power of two and `x + a - 1` overflows `usize`,
/// the aligned value itself lies past `usize::MAX`: every multiple of `a`
/// that fits is at most `usize::MAX + 1 - a`.
pub proof fn lemma_align_up_overflow(x: int, a: int)
    requires
        0 <= x,
        0 < a <= usize::MAX,
        vstd::arithmetic::power2::is_pow2(a),
        x + a - 1 > usize::MAX,
    ensures
        sp_align_up(x, a) > usize::MAX,
{
    broadcast use vstd::arithmetic::power2::is_pow2_equiv;
    broadcast use vstd::arithmetic::power2::lemma_pow2_pos;
    broadcast use vstd::arithmetic::power2::lemma_pow2;

    assert(vstd::arithmetic::power2::is_pow2_exists(a));
    let k = choose|k: nat| vstd::arithmetic::power::pow(2, k) == a;
    assert(a == vstd::arithmetic::power2::pow2(k));
    vstd::layout::unsigned_int_max_values();
    let bits = usize::BITS as nat;
    assert(usize::MAX + 1 == vstd::arithmetic::power2::pow2(bits));
    if k >= bits {
        if k > bits {
            vstd::arithmetic::power2::lemma_pow2_strictly_increases(bits, k);
        }
        assert(a >= usize::MAX + 1);
    } else {
        vstd::arithmetic::power2::lemma_pow2_adds(k, (bits - k) as nat);
        let m = vstd::arithmetic::power2::pow2((bits - k) as nat) as int;
        assert(a * m == usize::MAX + 1);
        let y = x + a - 1;
        let q = y / a;
        vstd::arithmetic::div_mod::lemma_fundamental_div_mod(y, a);
        vstd::arithmetic::div_mod::lemma_mod_bound(y, a);
        assert(sp_align_up(x, a) == a * q);
        assert(a * q >= x);
        if q <= m - 1 {
            vstd::arithmetic::mul::lemma_mul_inequality(q, m - 1, a);
            assert(a * q <= a * (m - 1)) by (nonlinear_arith)
                requires
                    q <= m - 1,
                    a > 0,
            ;
            assert(a * (m - 1) == a * m - a) by (nonlinear_arith);
            assert(x <= usize::MAX + 1 - a);
            assert(false);
        }
        assert(q >= m);
        assert(a * q >= a * m) by (nonlinear_arith)
            requires
                q >= m,
                a > 0,
        ;
    }
}

/// Overall alignment of a leaf block for keys `K` and values `V`.
pub open spec fn leaf_max_align<K, V>() -> int {
    sp_max(
        align_of::<usize>() as int,
        sp_max(align_of::<K>() as int, sp_max(align_of::<V>() as int, align_of::<NodeHdr>() as int)),
    )
}

/// Header size of a leaf block, padded to the overall alignment.
pub open spec fn leaf_hdr_size<K, V>() -> int {
    sp_align_up(size_of::<NodeHdr>() as int, leaf_max_align::<K, V>())
}

/// Offset of the first sibling link in a leaf block.
pub open spec fn leaf_sib_off<K, V>() -> int {
    sp_align_up(leaf_hdr_size::<K, V>(), align_of::<usize>() as int)
}

/// First free offset after the sibling links.
pub open spec fn leaf_after_sib<K, V>(doubly: bool) -> int {
    leaf_sib_off::<K, V>() + if doubly {
        2 * size_of::<usize>() as int
    } else {
        size_of::<usize>() as int
    }
}

/// The key array is placed first iff its alignment is at least the value
/// array's.
pub open spec fn leaf_keys_first<K, V>() -> bool {
    align_of::<K>() >= align_of::<V>()
}

/// Offset of whichever array is placed first in a leaf block.
pub open spec fn leaf_first_off<K, V>(doubly: bool) -> int {
    if leaf_keys_first::<K, V>() {
        sp_align_up(leaf_after_sib::<K, V>(doubly), align_of::<K>() as int)
    } else {
        sp_align_up(leaf_after_sib::<K, V>(doubly), align_of::<V>() as int)
    }
}

/// Offset of whichever array is placed second in a leaf block.
pub open spec fn leaf_second_off<K, V>(cap: int, doubly: bool) -> int {
    if leaf_keys_first::<K, V>() {
        sp_align_up(
            leaf_first_off::<K, V>(doubly) + cap * size_of::<K>() as int,
            align_of::<V>() as int,
        )
    } else {
        sp_align_up(
            leaf_first_off::<K, V>(doubly) + cap * size_of::<V>() as int,
            align_of::<K>() as int,
        )
    }
}

/// Total leaf block size for capacity `cap`, padded to the overall alignment.
pub open spec fn leaf_end<K, V>(cap: int, doubly: bool) -> int {
    if leaf_keys_first::<K, V>() {
        sp_align_up(
            leaf_second_off::<K, V>(cap, doubly) + cap * size_of::<V>() as int,
            leaf_max_align::<K, V>(),
        )
    } else {
        sp_align_up(
            leaf_second_off::<K, V>(cap, doubly) + cap * size_of::<K>() as int,
            leaf_max_align::<K, V>(),
        )
    }
}

/// Offset of the key array in a leaf block of capacity `cap`.
pub open spec fn leaf_keys_off<K, V>(cap: int, doubly: bool) -> int {
    if leaf_keys_first::<K, V>() {
        leaf_first_off::<K, V>(doubly)
    } else {
        leaf_second_off::<K, V>(cap, doubly)
    }
}

/// Offset of the value array in a leaf block of capacity `cap`.
pub open spec fn leaf_vals_off<K, V>(cap: int, doubly: bool) -> int {
    if leaf_keys_first::<K, V>() {
        leaf_second_off::<K, V>(cap, doubly)
    } else {
        leaf_first_off::<K, V>(doubly)
    }
}

/// The leaf layout descriptor the planner owes for capacity `cap`, as a spec
/// value.
pub open spec fn leaf_layout_for<K, V>(cap: int, doubly: bool) -> LeafLayout {
    LeafLayout {
        bytes: leaf_end::<K, V>(cap, doubly) as usize,
        cap: cap as u16,
        max_align: leaf_max_align::<K, V>() as usize,
        hdr_size: leaf_hdr_size::<K, V>() as usize,
        next_off: leaf_sib_off::<K, V>() as usize,
        prev_off: if doubly {
            Some((leaf_sib_off::<K, V>() + size_of::<usize>() as int) as usize)
        } else {
            None
        },
        keys_off: leaf_keys_off::<K, V>(cap, doubly) as usize,
        vals_off: leaf_vals_off::<K, V>(cap, doubly) as usize,
    }
}

/// Ordering chain through the leaf packing formula: every intermediate offset
/// is nonnegative and no later offset is smaller than an earlier one.
pub proof fn lemma_leaf_chain<K, V>(cap: int, doubly: bool)
    requires
        cap >= 0,
    ensures
        leaf_max_align::<K, V>() >= 1,
        0 <= leaf_hdr_size::<K, V>(),
        leaf_hdr_size::<K, V>() <= leaf_sib_off::<K, V>(),
        leaf_sib_off::<K, V>() <= leaf_after_sib::<K, V>(doubly),
        leaf_after_sib::<K, V>(doubly) <= leaf_first_off::<K, V>(doubly),
        cap * size_of::<K>() as int >= 0,
        cap * size_of::<V>() as int >= 0,
        leaf_first_off::<K, V>(doubly) + cap * (if leaf_keys_first::<K, V>() {
            size_of::<K>() as int
        } else {
            size_of::<V>() as int
        }) <= leaf_second_off::<K, V>(cap, doubly),
        leaf_second_off::<K, V>(cap, doubly) + cap * (if leaf_keys_first::<K, V>() {
            size_of::<V>() as int
        } else {
            size_of::<K>() as int
        }) <= leaf_end::<K, V>(cap, doubly),
{
    broadcast use vstd::layout::align_nonzero;

    let ma = leaf_max_align::<K, V>();
    assert(align_of::<usize>() > 0);
    assert(align_of::<K>() > 0);
    assert(align_of::<V>() > 0);
    assert(align_of::<NodeHdr>() > 0);
    vstd::arithmetic::mul::lemma_mul_nonnegative(cap, size_of::<K>() as int);
    vstd::arithmetic::mul::lemma_mul_nonnegative(cap, size_of::<V>() as int);
    lemma_align_up_props(size_of::<NodeHdr>() as int, ma);
    lemma_align_up_props(leaf_hdr_size::<K, V>(), align_of::<usize>() as int);
    let s1 = if leaf_keys_first::<K, V>() {
        size_of::<K>() as int
    } else {
        size_of::<V>() as int
    };
    let s2 = if leaf_keys_first::<K, V>() {
        size_of::<V>() as int
    } else {
        size_of::<K>() as int
    };
    let a1 = if leaf_keys_first::<K, V>() {
        align_of::<K>() as int
    } else {
        align_of::<V>() as int
    };
    let a2 = if leaf_keys_first::<K, V>() {
        align_of::<V>() as int
    } else {
        align_of::<K>() as int
    };
    lemma_align_up_props(leaf_after_sib::<K, V>(doubly), a1);
    vstd::arithmetic::mul::lemma_mul_nonnegative(cap, s1);
    lemma_align_up_props(leaf_first_off::<K, V>(doubly) + cap * s1, a2);
    vstd::arithmetic::mul::lemma_mul_nonnegative(cap, s2);
    lemma_align_up_props(leaf_second_off::<K, V>(cap, doubly) + cap * s2, ma);
}

/// The larger of two `usize` values.
fn usize_max(a: usize, b: usize) -> (r: usize)
    ensures
        r == sp_max(a as int, b as int),
{
    if a >= b {
        a
    } else {
        b
    }
}

/// `align_up` with an overflow check: `None` when the rounded value does not
/// fit in `usize`.
fn align_up_checked(x: usize, a: usize) -> (r: Option<usize>)
    requires
        a > 0,
        vstd::arithmetic::power2::is_pow2(a as int),
    ensures
        match r {
            Some(v) => v == sp_align_up(x as int, a as int),
            None => sp_align_up(x as int, a as int) > usize::MAX,
        },
{
    proof {
        lemma_align_up_props(x as int, a as int);
    }
    match x.checked_add(a - 1) {
        Some(y) => Some((y / a) * a),
        None => {
            proof {
                lemma_align_up_overflow(x as int, a as int);
            }
            None
        },
    }
}

/// The leaf block size grows at least linearly with the capacity.
pub proof fn lemma_leaf_end_lower<K, V>(cap: int, doubly: bool)
    requires
        cap >= 0,
    ensures
        leaf_end::<K, V>(cap, doubly) >= leaf_after_sib::<K, V>(doubly) + cap * (size_of::<K>()
            + size_of::<V>()),
{
    lemma_leaf_chain::<K, V>(cap, doubly);
    let s1 = if leaf_keys_first::<K, V>() {
        size_of::<K>() as int
    } else {
        size_of::<V>() as int
    };
    let s2 = if leaf_keys_first::<K, V>() {
        size_of::<V>() as int
    } else {
        size_of::<K>() as int
    };
    vstd::arithmetic::mul::lemma_mul_is_distributive_add(cap, s1, s2);
    assert(cap * (s1 + s2) == cap * s1 + cap * s2);
    assert(s1 + s2 == size_of::<K>() + size_of::<V>());
}

/// The branch block size grows at least linearly with the capacity.
pub proof fn lemma_branch_end_lower<K>(cap: int)
    requires
        cap >= 0,
    ensures
        branch_end::<K>(cap) >= branch_hdr_size::<K>() + cap * (size_of::<K>()
            + size_of::<usize>()),
{
    lemma_branch_chain::<K>(cap);
    vstd::arithmetic::mul::lemma_mul_is_distributive_add(cap, size_of::<K>() as int, size_of::<
        usize,
    >() as int);
    assert((cap + 1) * size_of::<usize>() as int == cap * size_of::<usize>() as int + size_of::<
        usize,
    >() as int) by (nonlinear_arith);
    vstd::arithmetic::mul::lemma_mul_nonnegative(cap, size_of::<K>() as int);
    vstd::arithmetic::mul::lemma_mul_nonnegative(cap, size_of::<usize>() as int);
}

/// Any capacity above `avail / denom` costs more than `avail` bytes, at
/// `denom` bytes or more per key.
proof fn lemma_guess_bound(avail: int, denom: int, c: int)
    requires
        avail >= 0,
        denom > 0,
        c > avail / denom,
    ensures
        c * denom > avail,
{
    let q = avail / denom;
    vstd::arithmetic::div_mod::lemma_fundamental_div_mod(avail, denom);
    vstd::arithmetic::div_mod::lemma_mod_bound(avail, denom);
    vstd::arithmetic::mul::lemma_mul_inequality(q + 1, c, denom);
    assert((q + 1) * denom == q * denom + denom) by (nonlinear_arith);
    assert(q * denom == denom * q) by (nonlinear_arith);
}

impl LeafLayout {
    /// Compute the leaf layout with the largest capacity whose block fits in
    /// `bytes`; the returned descriptor keeps the whole budget as its block
    /// size. Capacity 0 reports that not even one pair fits.
    pub fn compute<K, V>(bytes: usize, doubly_linked: bool) -> (r: LeafLayout)
        requires
            size_of::<K>() + size_of::<V>() >= 1,
        ensures
            r.bytes == bytes,
            r.cap > 0 ==> {
                let lf = leaf_layout_for::<K, V>(r.cap as int, doubly_linked);
                &&& leaf_end::<K, V>(r.cap as int, doubly_linked) <= bytes
                &&& r.max_align == lf.max_align
                &&& r.hdr_size == lf.hdr_size
                &&& r.next_off == lf.next_off
                &&& r.prev_off == lf.prev_off
                &&& r.keys_off == lf.keys_off
                &&& r.vals_off == lf.vals_off
            },
            forall|c: int|
                r.cap < c <= 65535 ==> #[trigger] leaf_end::<K, V>(c, doubly_linked) > bytes,
    {
        let failed = LeafLayout {
            bytes,
            cap: 0,
            max_align: 0,
            hdr_size: 0,
            next_off: 0,
            prev_off: None,
            keys_off: 0,
            vals_off: 0,
        };
        let s_k = core::mem::size_of::<K>();
        let s_v = core::mem::size_of::<V>();
        // Each key/value pair costs at least `denom` bytes, so no capacity
        // above `bytes / denom` can fit.
        let denom = match s_k.checked_add(s_v) {
            Some(d) => d,
            None => {
                proof {
                    assert forall|c: int| 0 < c <= 65535 implies #[trigger] leaf_end::<K, V>(
                        c,
                        doubly_linked,
                    ) > bytes by {
                        lemma_leaf_pairs_cost::<K, V>(bytes, doubly_linked, c);
                    }
                }
                return failed;
            },
        };
        let mut cap_guess = bytes / denom;
        if cap_guess > 65535 {
            cap_guess = 65535;
        }
        proof {
            assert forall|c: int| cap_guess < c <= 65535 implies #[trigger] leaf_end::<K, V>(
                c,
                doubly_linked,
            ) > bytes by {
                if cap_guess < 65535 {
                    lemma_guess_bound(bytes as int, denom as int, c);
                    lemma_leaf_pairs_cost::<K, V>(bytes, doubly_linked, c);
                }
            }
        }
        while cap_guess > 0
            invariant
                cap_guess <= 65535,
                forall|c: int|
                    cap_guess < c <= 65535 ==> #[trigger] leaf_end::<K, V>(c, doubly_linked)
                        > bytes,
            decreases cap_guess,
        {
            let l = LeafLayout::compute_for_cap::<K, V>(cap_guess as u16, doubly_linked);
            proof {
                lemma_leaf_chain::<K, V>(cap_guess as int, doubly_linked);
            }
            if l.cap as usize == cap_guess && l.bytes <= bytes {
                return LeafLayout {
                    bytes,
                    cap: l.cap,
                    max_align: l.max_align,
                    hdr_size: l.hdr_size,
                    next_off: l.next_off,
                    prev_off: l.prev_off,
                    keys_off: l.keys_off,
                    vals_off: l.vals_off,
                };
            }
            proof {
                if leaf_end::<K, V>(cap_guess as int, doubly_linked) <= usize::MAX {
                    assert(leaf_end::<K, V>(cap_guess as int, doubly_linked) > bytes);
                }
            }
            cap_guess = cap_guess - 1;
        }
        failed
    }
}

/// A leaf block of capacity `c >= 1` whose per-pair cost alone exceeds the
/// budget does not fit.
proof fn lemma_leaf_pairs_cost<K, V>(bytes: usize, doubly: bool, c: int)
    requires
        c >= 1,
    ensures
        c * (size_of::<K>() + size_of::<V>()) > bytes ==> leaf_end::<K, V>(c, doubly) > bytes,
        size_of::<K>() + size_of::<V>() > usize::MAX ==> leaf_end::<K, V>(c, doubly) > bytes,
{
    lemma_leaf_end_lower::<K, V>(c, doubly);
    lemma_leaf_chain::<K, V>(c, doubly);
    assert(c * (size_of::<K>() + size_of::<V>()) >= 1 * (size_of::<K>() + size_of::<V>()))
        by (nonlinear_arith)
        requires
            c >= 1,
            size_of::<K>() + size_of::<V>() >= 0,
    ;
}

impl LeafLayout {
    /// Compute a leaf layout holding exactly `cap` key/value pairs. When the
    /// block would exceed the address space the returned descriptor has
    /// capacity 0.
    pub fn compute_for_cap<K, V>(cap: u16, doubly_linked: bool) -> (r: LeafLayout)
        ensures
            leaf_end::<K, V>(cap as int, doubly_linked) <= usize::MAX ==> r == leaf_layout_for::<
                K,
                V,
            >(cap as int, doubly_linked),
            leaf_end::<K, V>(cap as int, doubly_linked) > usize::MAX ==> r.cap == 0,
    {
        let a_ptr = core::mem::align_of::<usize>();
        let a_k = core::mem::align_of::<K>();
        let a_v = core::mem::align_of::<V>();
        let s_ptr = core::mem::size_of::<usize>();
        let s_k = core::mem::size_of::<K>();
        let s_v = core::mem::size_of::<V>();
        let a_h = core::mem::align_of::<NodeHdr>();
        let s_h = core::mem::size_of::<NodeHdr>();

        let max_align = usize_max(a_ptr, usize_max(a_k, usize_max(a_v, a_h)));
        let failed = LeafLayout {
            bytes: 0,
            cap: 0,
            max_align,
            hdr_size: 0,
            next_off: 0,
            prev_off: None,
            keys_off: 0,
            vals_off: 0,
        };
        proof {
            lemma_leaf_chain::<K, V>(cap as int, doubly_linked);
        }
        let hdr_size = match align_up_checked(s_h, max_align) {
            Some(v) => v,
            None => {
                return failed;
            },
        };
        let sib_off = match align_up_checked(hdr_size, a_ptr) {
            Some(v) => v,
            None => {
                return failed;
            },
        };
        let sib_bytes = if doubly_linked {
            match s_ptr.checked_mul(2) {
                Some(v) => v,
                None => {
                    return failed;
                },
            }
        } else {
            s_ptr
        };
        let after_sib = match sib_off.checked_add(sib_bytes) {
            Some(v) => v,
            None => {
                return failed;
            },
        };
        let first_is_keys = a_k >= a_v;
        let (a1, s1, a2, s2) = if first_is_keys {
            (a_k, s_k, a_v, s_v)
        } else {
            (a_v, s_v, a_k, s_k)
        };
        let first_off = match align_up_checked(after_sib, a1) {
            Some(v) => v,
            None => {
                return failed;
            },
        };
        let arr1 = match (cap as usize).checked_mul(s1) {
            Some(v) => v,
            None => {
                return failed;
            },
        };
        let arr1_end = match first_off.checked_add(arr1) {
            Some(v) => v,
            None => {
                return failed;
            },
        };
        let second_off = match align_up_checked(arr1_end, a2) {
            Some(v) => v,
            None => {
                return failed;
            },
        };
        let arr2 = match (cap as usize).checked_mul(s2) {
            Some(v) => v,
            None => {
                return failed;
            },
        };
        let end = match second_off.checked_add(arr2) {
            Some(v) => v,
            None => {
                return failed;
            },
        };
        let end_aligned = match align_up_checked(end, max_align) {
            Some(v) => v,
            None => {
                return failed;
            },
        };
        let (keys_off, vals_off) = if first_is_keys {
            (first_off, second_off)
        } else {
            (second_off, first_off)
        };
        LeafLayout {
            bytes: end_aligned,
            cap,
            max_align,
            hdr_size,
            next_off: sib_off,
            prev_off: if doubly_linked {
                Some(sib_off + s_ptr)
            } else {
                None
            },
            keys_off,
            vals_off,
        }
    }
}

/// Overall alignment of a branch block for keys `K`.
pub open spec fn branch_max_align<K>() -> int {
    sp_max(
        align_of::<usize>() as int,
        sp_max(align_of::<K>() as int, align_of::<NodeHdr>() as int),
    )
}

/// Header size of a branch block, padded to the overall alignment.
pub open spec fn branch_hdr_size<K>() -> int {
    sp_align_up(size_of::<NodeHdr>() as int, branch_max_align::<K>())
}

/// The child-pointer array is placed first iff its alignment is at least the
/// key alignment.
pub open spec fn branch_children_first<K>() -> bool {
    align_of::<usize>() >= align_of::<K>()
}

/// Offset of whichever array is placed first in a branch block.
pub open spec fn branch_first_off<K>() -> int {
    if branch_children_first::<K>() {
        sp_align_up(branch_hdr_size::<K>(), align_of::<usize>() as int)
    } else {
        sp_align_up(branch_hdr_size::<K>(), align_of::<K>() as int)
    }
}

/// Offset of whichever array is placed second in a branch block of capacity
/// `cap`.
pub open spec fn branch_second_off<K>(cap: int) -> int {
    if branch_children_first::<K>() {
        sp_align_up(
            branch_first_off::<K>() + (cap + 1) * size_of::<usize>() as int,
            align_of::<K>() as int,
        )
    } else {
        sp_align_up(
            branch_first_off::<K>() + cap * size_of::<K>() as int,
            align_of::<usize>() as int,
        )
    }
}

/// Total branch block size for capacity `cap`, padded to the overall
/// alignment.
pub open spec fn branch_end<K>(cap: int) -> int {
    if branch_children_first::<K>() {
        sp_align_up(branch_second_off::<K>(cap) + cap * size_of::<K>() as int, branch_max_align::<K>())
    } else {
        sp_align_up(
            branch_second_off::<K>(cap) + (cap + 1) * size_of::<usize>() as int,
            branch_max_align::<K>(),
        )
    }
}

/// The branch layout descriptor the planner owes for capacity `cap`, as a
/// spec value.
pub open spec fn branch_layout_for<K>(cap: int) -> BranchLayout {
    BranchLayout {
        bytes: branch_end::<K>(cap) as usize,
        cap: cap as u16,
        max_align: branch_max_align::<K>() as usize,
        hdr_size: branch_hdr_size::<K>() as usize,
        children_off: if branch_children_first::<K>() {
            branch_first_off::<K>() as usize
        } else {
            branch_second_off::<K>(cap) as usize
        },
        keys_off: if branch_children_first::<K>() {
            branch_second_off::<K>(cap) as usize
        } else {
            branch_first_off::<K>() as usize
        },
    }
}

/// Ordering chain through the branch packing formula.
pub proof fn lemma_branch_chain<K>(cap: int)
    requires
        cap >= 0,
    ensures
        branch_max_align::<K>() >= 1,
        0 <= branch_hdr_size::<K>(),
        branch_hdr_size::<K>() <= branch_first_off::<K>(),
        cap * size_of::<K>() as int >= 0,
        (cap + 1) * size_of::<usize>() as int >= 0,
        branch_first_off::<K>() + (if branch_children_first::<K>() {
            (cap + 1) * size_of::<usize>() as int
        } else {
            cap * size_of::<K>() as int
        }) <= branch_second_off::<K>(cap),
        branch_second_off::<K>(cap) + (if branch_children_first::<K>() {
            cap * size_of::<K>() as int
        } else {
            (cap + 1) * size_of::<usize>() as int
        }) <= branch_end::<K>(cap),
{
    broadcast use vstd::layout::align_nonzero;

    let ma = branch_max_align::<K>();
    assert(align_of::<usize>() > 0);
    assert(align_of::<K>() > 0);
    assert(align_of::<NodeHdr>() > 0);
    vstd::arithmetic::mul::lemma_mul_nonnegative(cap, size_of::<K>() as int);
    vstd::arithmetic::mul::lemma_mul_nonnegative(cap + 1, size_of::<usize>() as int);
    lemma_align_up_props(size_of::<NodeHdr>() as int, ma);
    let a1 = if branch_children_first::<K>() {
        align_of::<usize>() as int
    } else {
        align_of::<K>() as int
    };
    let a2 = if branch_children_first::<K>() {
        align_of::<K>() as int
    } else {
        align_of::<usize>() as int
    };
    let arr1 = if branch_children_first::<K>() {
        (cap + 1) * size_of::<usize>() as int
    } else {
        cap * size_of::<K>() as int
    };
    let arr2 = if branch_children_first::<K>() {
        cap * size_of::<K>() as int
    } else {
        (cap + 1) * size_of::<usize>() as int
    };
    lemma_align_up_props(branch_hdr_size::<K>(), a1);
    lemma_align_up_props(branch_first_off::<K>() + arr1, a2);
    lemma_align_up_props(branch_second_off::<K>(cap) + arr2, ma);
}

/// A branch block of capacity `c >= 1` whose per-key cost alone exceeds the
/// budget does not fit.
proof fn lemma_branch_keys_cost<K>(bytes: usize, c: int)
    requires
        c >= 1,
    ensures
        c * (size_of::<K>() + size_of::<usize>()) > bytes ==> branch_end::<K>(c) > bytes,
        size_of::<K>() + size_of::<usize>() > usize::MAX ==> branch_end::<K>(c) > bytes,
{
    lemma_branch_end_lower::<K>(c);
    lemma_branch_chain::<K>(c);
    assert(c * (size_of::<K>() + size_of::<usize>()) >= 1 * (size_of::<K>() + size_of::<usize>()))
        by (nonlinear_arith)
        requires
            c >= 1,
            size_of::<K>() + size_of::<usize>() >= 0,
    ;
}

impl BranchLayout {
    /// Compute the branch layout with the largest capacity whose block fits
    /// in `bytes`; the returned descriptor keeps the whole budget as its
    /// block size. Capacity 0 reports that not even one separator fits.
    pub fn compute<K>(bytes: usize) -> (r: BranchLayout)
        ensures
            r.bytes == bytes,
            r.cap > 0 ==> {
                let bf = branch_layout_for::<K>(r.cap as int);
                &&& branch_end::<K>(r.cap as int) <= bytes
                &&& r.max_align == bf.max_align
                &&& r.hdr_size == bf.hdr_size
                &&& r.children_off == bf.children_off
                &&& r.keys_off == bf.keys_off
            },
            forall|c: int| r.cap < c <= 65535 ==> #[trigger] branch_end::<K>(c) > bytes,
    {
        let failed = BranchLayout {
            bytes,
            cap: 0,
            max_align: 0,
            hdr_size: 0,
            children_off: 0,
            keys_off: 0,
        };
        let s_k = core::mem::size_of::<K>();
        let s_ptr = core::mem::size_of::<usize>();
        // Each separator costs at least `denom` bytes (its key plus one more
        // child slot), so no capacity above `bytes / denom` can fit.
        let denom = match s_k.checked_add(s_ptr) {
            Some(d) => d,
            None => {
                proof {
                    assert forall|c: int| 0 < c <= 65535 implies #[trigger] branch_end::<K>(c)
                        > bytes by {
                        lemma_branch_keys_cost::<K>(bytes, c);
                    }
                }
                return failed;
            },
        };
        proof {
            broadcast use vstd::layout::layout_of_primitives;

            assert(size_of::<usize>() > 0);
        }
        let mut cap_guess = bytes / denom;
        if cap_guess > 65535 {
            cap_guess = 65535;
        }
        proof {
            assert forall|c: int| cap_guess < c <= 65535 implies #[trigger] branch_end::<K>(c)
                > bytes by {
                if cap_guess < 65535 {
                    lemma_guess_bound(bytes as int, denom as int, c);
                    lemma_branch_keys_cost::<K>(bytes, c);
                }
            }
        }
        while cap_guess > 0
            invariant
                cap_guess <= 65535,
                forall|c: int| cap_guess < c <= 65535 ==> #[trigger] branch_end::<K>(c) > bytes,
            decreases cap_guess,
        {
            let l = BranchLayout::compute_for_cap::<K>(cap_guess as u16);
            proof {
                lemma_branch_chain::<K>(cap_guess as int);
            }
            if l.cap as usize == cap_guess && l.bytes <= bytes {
                return BranchLayout {
                    bytes,
                    cap: l.cap,
                    max_align: l.max_align,
                    hdr_size: l.hdr_size,
                    children_off: l.children_off,
                    keys_off: l.keys_off,
                };
            }
            proof {
                if branch_end::<K>(cap_guess as int) <= usize::MAX {
                    assert(branch_end::<K>(cap_guess as int) > bytes);
                }
            }
            cap_guess = cap_guess - 1;
        }
        failed
    }

    /// Compute a branch layout holding exactly `cap` separator keys and
    /// `cap + 1` children. When the block would exceed the address space the
    /// returned descriptor has capacity 0.
    pub fn compute_for_cap<K>(cap: u16) -> (r: BranchLayout)
        ensures
            branch_end::<K>(cap as int) <= usize::MAX ==> r == branch_layout_for::<K>(cap as int),
            branch_end::<K>(cap as int) > usize::MAX ==> r.cap == 0,
    {
        let a_ptr = core::mem::align_of::<usize>();
        let a_k = core::mem::align_of::<K>();
        let s_ptr = core::mem::size_of::<usize>();
        let s_k = core::mem::size_of::<K>();
        let a_h = core::mem::align_of::<NodeHdr>();
        let s_h = core::mem::size_of::<NodeHdr>();

        let max_align = usize_max(a_ptr, usize_max(a_k, a_h));
        let failed = BranchLayout {
            bytes: 0,
            cap: 0,
            max_align,
            hdr_size: 0,
            children_off: 0,
            keys_off: 0,
        };
        proof {
            lemma_branch_chain::<K>(cap as int);
        }
        let hdr_size = match align_up_checked(s_h, max_align) {
            Some(v) => v,
            None => {
                return failed;
            },
        };
        let children_first = a_ptr >= a_k;
        let (a1, a2) = if children_first {
            (a_ptr, a_k)
        } else {
            (a_k, a_ptr)
        };
        let first_off = match align_up_checked(hdr_size, a1) {
            Some(v) => v,
            None => {
                return failed;
            },
        };
        let n_child = cap as usize + 1;
        let arr1 = if children_first {
            match n_child.checked_mul(s_ptr) {
                Some(v) => v,
                None => {
                    return failed;
                },
            }
        } else {
            match (cap as usize).checked_mul(s_k) {
                Some(v) => v,
                None => {
                    return failed;
                },
            }
        };
        let arr1_end = match first_off.checked_add(arr1) {
            Some(v) => v,
            None => {
                return failed;
            },
        };
        let second_off = match align_up_checked(arr1_end, a2) {
            Some(v) => v,
            None => {
                return failed;
            },
        };
        let arr2 = if children_first {
            match (cap as usize).checked_mul(s_k) {
                Some(v) => v,
                None => {
                    return failed;
                },
            }
        } else {
            match n_child.checked_mul(s_ptr) {
                Some(v) => v,
                None => {
                    return failed;
                },
            }
        };
        let end = match second_off.checked_add(arr2) {
            Some(v) => v,
            None => {
                return failed;
            },
        };
        let end_aligned = match align_up_checked(end, max_align) {
            Some(v) => v,
            None => {
                return failed;
            },
        };
        let (children_off, keys_off) = if children_first {
            (first_off, second_off)
        } else {
            (second_off, first_off)
        };
        BranchLayout { bytes: end_aligned, cap, max_align, hdr_size, children_off, keys_off }
    }
}

} // verus!
