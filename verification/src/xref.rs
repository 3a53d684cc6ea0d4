//! Cross-reference resolution.
//!
//! A cross-reference is a location holding a 4-byte little-endian signed
//! displacement that, relative to its own position, points at a target: the
//! value at address `A` resolves to `A + 4 + displacement`, with address
//! arithmetic wrapping around the end of the address space.

use vstd::prelude::*;

verus! {

use vstd::arithmetic::div_mod::{
    lemma_mod_add_multiples_vanish, lemma_mod_sub_multiples_vanish, lemma_small_mod,
};

/// The size of the address space: one more than the largest address.
pub open spec fn addr_space() -> int {
    usize::MAX as int + 1
}

/// Address arithmetic is modular: sums wrap around the end of the address
/// space.
pub open spec fn wrap_addr(x: int) -> int {
    x % addr_space()
}

proof fn lemma_wrap_addr_small(x: int)
    requires
        0 <= x <= usize::MAX,
    ensures
        wrap_addr(x) == x,
{
    lemma_small_mod(x as nat, addr_space() as nat);
}

proof fn lemma_wrap_addr_shift(x: int)
    ensures
        wrap_addr(x + addr_space()) == wrap_addr(x),
        wrap_addr(x - addr_space()) == wrap_addr(x),
{
    lemma_mod_add_multiples_vanish(x, addr_space());
    lemma_mod_sub_multiples_vanish(x, addr_space());
}

/// Values that differ by a few whole address spaces wrap to the same
/// address.
proof fn lemma_wrap_addr_eq(x: int, y: int)
    requires
        x == y || x == y + addr_space() || x == y - addr_space() || x == y + 2 * addr_space()
            || x == y - 2 * addr_space() || x == y + 3 * addr_space() || x == y - 3
            * addr_space(),
    ensures
        wrap_addr(x) == wrap_addr(y),
{
    lemma_wrap_addr_shift(y);
    lemma_wrap_addr_shift(y + addr_space());
    lemma_wrap_addr_shift(y - addr_space());
    lemma_wrap_addr_shift(y + 2 * addr_space());
    lemma_wrap_addr_shift(y - 2 * addr_space());
}

/// The unsigned value of the 4 little-endian bytes at `off`.
pub open spec fn le_u32_at(mem: Seq<u8>, off: int) -> int {
    mem[off] + 0x100 * mem[off + 1] + 0x1_0000 * mem[off + 2] + 0x100_0000 * mem[off + 3]
}

/// The signed (two's-complement) value of the 4 little-endian bytes at
/// `off`.
pub open spec fn disp_at(mem: Seq<u8>, off: int) -> int {
    if le_u32_at(mem, off) < 0x8000_0000 {
        le_u32_at(mem, off)
    } else {
        le_u32_at(mem, off) - 0x1_0000_0000
    }
}

/// The absolute address that the displacement stored at `base + off`
/// resolves to: the displacement's own address, plus its 4-byte width, plus
/// its signed value, wrapped to the address space.
pub open spec fn resolved_at(mem: Seq<u8>, base: int, off: int) -> int {
    wrap_addr(base + off + 4 + disp_at(mem, off))
}

/// The location `base + off` is a cross-reference to `target`: a 4-byte
/// window starts there and its displacement resolves to `target`.
pub open spec fn is_xref_at(mem: Seq<u8>, base: int, off: int, target: int) -> bool {
    &&& 0 <= off
    &&& off + 4 <= mem.len()
    &&& resolved_at(mem, base, off) == target
}

/// What a first-cross-reference search returns: the lowest address whose
/// displacement resolves to the target, or `None` when no offset of the
/// span does.
pub open spec fn xref_first_ok(mem: Seq<u8>, base: int, target: int, r: Option<usize>) -> bool {
    match r {
        Some(a) => {
            &&& base <= a
            &&& is_xref_at(mem, base, a - base, target)
            &&& forall|o: int| 0 <= o < a - base ==> !is_xref_at(mem, base, o, target)
        },
        None => forall|o: int| !is_xref_at(mem, base, o, target),
    }
}

/// What an exhaustive cross-reference search returns: every such address,
/// each exactly once, in strictly ascending order.
pub open spec fn xref_all_ok(mem: Seq<u8>, base: int, target: int, rs: Seq<usize>) -> bool {
    &&& forall|k: int|
        0 <= k < rs.len() ==> base <= #[trigger] rs[k] && is_xref_at(
            mem,
            base,
            rs[k] - base,
            target,
        )
    &&& forall|k1: int, k2: int| 0 <= k1 < k2 < rs.len() ==> rs[k1] < rs[k2]
    &&& forall|o: int| is_xref_at(mem, base, o, target) ==> rs.contains((base + o) as usize)
}

/// Reads the 4-byte displacement at offset `i` of the span and resolves it
/// to an absolute address.
fn resolve_at(mem: &[u8], base: usize, i: usize) -> (r: usize)
    requires
        i + 4 <= mem@.len(),
    ensures
        r as int == resolved_at(mem@, base as int, i as int),
{
    let mlen: usize = mem.len();
    let b0 = mem[i];
    let b1 = mem[i + 1];
    let b2 = mem[i + 2];
    let b3 = mem[i + 3];
    let u: u32 = b0 as u32 + 256 * (b1 as u32) + 65536 * (b2 as u32) + 16777216 * (b3 as u32);
    proof {
        assert(u == le_u32_at(mem@, i as int));
    }
    let anchor: usize = base.wrapping_add(i).wrapping_add(4);
    let ghost a = base as int + i as int + 4;
    let ghost d = disp_at(mem@, i as int);
    if u < 0x8000_0000u32 {
        let r = anchor.wrapping_add(u as usize);
        proof {
            lemma_wrap_addr_eq(a + d, r as int);
            lemma_wrap_addr_small(r as int);
        }
        r
    } else {
        let delta: usize = (0x1_0000_0000u64 - u as u64) as usize;
        let r = anchor.wrapping_sub(delta);
        proof {
            lemma_wrap_addr_eq(a + d, r as int);
            lemma_wrap_addr_small(r as int);
        }
        r
    }
}

/// Resolves the displacement stored in the 4 leading bytes of `window`,
/// which were read at `address`: the result is
/// `address + 4 + displacement`, wrapped to the address space.
pub fn resolve_displacement(address: usize, window: &[u8]) -> (r: usize)
    requires
        window@.len() >= 4,
    ensures
        r as int == resolved_at(window@, address as int, 0),
{
    resolve_at(window, address, 0)
}

/// Forward search: the lowest address in the span whose displacement
/// resolves to `address`, or `None` when there is none.
pub fn xref(mem: &[u8], base: usize, address: usize) -> (r: Option<usize>)
    requires
        mem@.len() >= 4 ==> base + mem@.len() - 4 <= usize::MAX,
    ensures
        xref_first_ok(mem@, base as int, address as int, r),
{
    let n: usize = mem.len();
    if n < 4 {
        return None;
    }
    let last: usize = n - 4;
    let mut i: usize = 0;
    loop
        invariant
            i <= last,
            last == n - 4,
            4 <= n,
            n == mem@.len(),
            base + last <= usize::MAX,
            forall|o: int| 0 <= o < i ==> !is_xref_at(mem@, base as int, o, address as int),
        ensures
            forall|o: int| !is_xref_at(mem@, base as int, o, address as int),
        decreases last - i,
    {
        let a = resolve_at(mem, base, i);
        if a == address {
            return Some(base + i);
        }
        if i == last {
            break;
        }
        i = i + 1;
    }
    None
}

/// Exhaustive search: every address in the span whose displacement resolves
/// to `address`, in strictly ascending order.
pub fn xrefs(mem: &[u8], base: usize, address: usize) -> (rs: Vec<usize>)
    requires
        mem@.len() >= 4 ==> base + mem@.len() - 4 <= usize::MAX,
    ensures
        xref_all_ok(mem@, base as int, address as int, rs@),
{
    let mut refs: Vec<usize> = Vec::new();
    let n: usize = mem.len();
    if n < 4 {
        return refs;
    }
    let last: usize = n - 4;
    let mut i: usize = 0;
    loop
        invariant_except_break
            forall|k: int| 0 <= k < refs@.len() ==> #[trigger] refs@[k] < base + i,
            forall|o: int|
                0 <= o < i && is_xref_at(mem@, base as int, o, address as int) ==> refs@.contains(
                    (base + o) as usize,
                ),
        invariant
            i <= last,
            last == n - 4,
            4 <= n,
            n == mem@.len(),
            base + last <= usize::MAX,
            forall|k: int|
                0 <= k < refs@.len() ==> base <= #[trigger] refs@[k] && is_xref_at(
                    mem@,
                    base as int,
                    refs@[k] - base,
                    address as int,
                ),
            forall|k1: int, k2: int| 0 <= k1 < k2 < refs@.len() ==> refs@[k1] < refs@[k2],
        ensures
            forall|k: int|
                0 <= k < refs@.len() ==> base <= #[trigger] refs@[k] && is_xref_at(
                    mem@,
                    base as int,
                    refs@[k] - base,
                    address as int,
                ),
            forall|k1: int, k2: int| 0 <= k1 < k2 < refs@.len() ==> refs@[k1] < refs@[k2],
            forall|o: int|
                is_xref_at(mem@, base as int, o, address as int) ==> refs@.contains(
                    (base + o) as usize,
                ),
        decreases last - i,
    {
        let a = resolve_at(mem, base, i);
        if a == address {
            let ghost old_refs = refs@;
            refs.push(base + i);
            proof {
                assert forall|o: int|
                    0 <= o <= i && is_xref_at(mem@, base as int, o, address as int)
                        implies refs@.contains((base + o) as usize) by {
                    if o < i {
                        let idx = choose|idx: int|
                            0 <= idx < old_refs.len() && old_refs[idx] == (base + o) as usize;
                        assert(refs@[idx] == (base + o) as usize);
                    } else {
                        assert(refs@[refs@.len() - 1] == (base + i) as usize);
                    }
                }
            }
        }
        if i == last {
            break;
        }
        i = i + 1;
    }
    refs
}

/// An address stands in the result of the exhaustive search exactly when it
/// lies in the span and its displacement resolves to the target.
pub proof fn lemma_xrefs_characterization(
    mem: Seq<u8>,
    base: int,
    target: int,
    rs: Seq<usize>,
    a: usize,
)
    requires
        xref_all_ok(mem, base, target, rs),
    ensures
        rs.contains(a) <==> (base <= a && is_xref_at(mem, base, a - base, target)),
{
    if rs.contains(a) {
        let j = choose|j: int| 0 <= j < rs.len() && rs[j] == a;
        assert(base <= rs[j] && is_xref_at(mem, base, rs[j] - base, target));
    }
    if base <= a && is_xref_at(mem, base, a - base, target) {
        assert(rs.contains((base + (a - base)) as usize));
        assert((base + (a - base)) as usize == a);
    }
}

} // verus!
