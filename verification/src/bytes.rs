//! Little-endian fields inside a byte slice.

use vstd::prelude::*;

verus! {

/// The little-endian 16-bit value stored at `off`.
pub open spec fn u16_at(s: Seq<u8>, off: int) -> u16 {
    (s[off] + 0x100 * s[off + 1]) as u16
}

/// The little-endian 32-bit value stored at `off`.
pub open spec fn u32_at(s: Seq<u8>, off: int) -> u32 {
    (u16_at(s, off) + 0x1_0000 * u16_at(s, off + 2)) as u32
}

/// The little-endian 64-bit value stored at `off`.
pub open spec fn u64_at(s: Seq<u8>, off: int) -> u64 {
    (u32_at(s, off) + 0x1_0000_0000 * u32_at(s, off + 4)) as u64
}

/// The 16-bit value at `off`, or 0 where it is not inside `s`.
pub open spec fn u16_or_zero(s: Seq<u8>, off: int) -> u16 {
    if off + 2 <= s.len() {
        u16_at(s, off)
    } else {
        0
    }
}

/// The 32-bit value at `off`, or 0 where it is not inside `s`.
pub open spec fn u32_or_zero(s: Seq<u8>, off: int) -> u32 {
    if off + 4 <= s.len() {
        u32_at(s, off)
    } else {
        0
    }
}

/// The 64-bit value at `off`, or 0 where it is not inside `s`.
pub open spec fn u64_or_zero(s: Seq<u8>, off: int) -> u64 {
    if off + 8 <= s.len() {
        u64_at(s, off)
    } else {
        0
    }
}

/// `safe_read::le_u16` reads two little-endian bytes at `off`, and gives 0 where they are
/// not inside the slice. Claimed: just that.
pub assume_specification[ safe_read::le_u16 ](slice: &[u8], off: usize) -> (r: u16)
    ensures
        r == u16_or_zero(slice@, off as int),
;

/// `safe_read::le_u32` reads four little-endian bytes at `off`, and gives 0 where they
/// are not inside the slice. Claimed: just that.
pub assume_specification[ safe_read::le_u32 ](slice: &[u8], off: usize) -> (r: u32)
    ensures
        r == u32_or_zero(slice@, off as int),
;

/// `safe_read::le_u64` reads eight little-endian bytes at `off`, and gives 0 where they
/// are not inside the slice. Claimed: just that.
pub assume_specification[ safe_read::le_u64 ](slice: &[u8], off: usize) -> (r: u64)
    ensures
        r == u64_or_zero(slice@, off as int),
;

/// Whether `s` carries the bytes `pattern` from `off` on.
pub open spec fn has_at(s: Seq<u8>, off: int, pattern: Seq<u8>) -> bool {
    &&& 0 <= off
    &&& off + pattern.len() <= s.len()
    &&& s.subrange(off, off + pattern.len()) == pattern
}

/// The four bytes stored at `off`.
pub open spec fn quad_at(s: Seq<u8>, off: int) -> [u8; 4] {
    [s[off], s[off + 1], s[off + 2], s[off + 3]]
}

/// Reads the 16-bit value at `off`.
pub fn le_u16(s: &[u8], off: usize) -> (r: u16)
    requires
        off + 2 <= s.len(),
    ensures
        r == u16_at(s@, off as int),
{
    (s[off] as u16) + 0x100 * (s[off + 1] as u16)
}

/// Reads the 32-bit value at `off`.
pub fn le_u32(s: &[u8], off: usize) -> (r: u32)
    requires
        off + 4 <= s.len(),
    ensures
        r == u32_at(s@, off as int),
{
    (le_u16(s, off) as u32) + 0x1_0000 * (le_u16(s, off + 2) as u32)
}

/// Reads the 64-bit value at `off`.
pub fn le_u64(s: &[u8], off: usize) -> (r: u64)
    requires
        off + 8 <= s.len(),
    ensures
        r == u64_at(s@, off as int),
{
    (le_u32(s, off) as u64) + 0x1_0000_0000 * (le_u32(s, off + 4) as u64)
}

/// Copies out the four bytes at `off`.
pub fn quad(s: &[u8], off: usize) -> (r: [u8; 4])
    requires
        off + 4 <= s.len(),
    ensures
        r == quad_at(s@, off as int),
        r@ == s@.subrange(off as int, off + 4),
{
    let r: [u8; 4] = [s[off], s[off + 1], s[off + 2], s[off + 3]];
    assert(r =~= quad_at(s@, off as int));
    assert(r@ =~= s@.subrange(off as int, off + 4));
    r
}

/// The bytes of `s` in `[start, end)`, or `None` when that range is not inside `s`.
pub fn window<'a>(s: &'a [u8], start: usize, end: usize) -> (r: Option<&'a [u8]>)
    ensures
        r is Some <==> start <= end <= s.len(),
        r matches Some(w) ==> w@ == s@.subrange(start as int, end as int),
{
    if start <= end && end <= s.len() {
        Some(vstd::slice::slice_subrange(s, start, end))
    } else {
        None
    }
}

/// Whether `a + b + c` is at most `limit`.
pub fn fits(a: usize, b: usize, c: usize, limit: usize) -> (r: bool)
    ensures
        r == (a + b + c <= limit),
{
    a <= limit && b <= limit - a && c <= limit - a - b
}

/// Whether the four bytes at `off` are `pattern`.
pub fn quad_is(s: &[u8], off: usize, pattern: [u8; 4]) -> (r: bool)
    requires
        off + 4 <= s.len(),
    ensures
        r == has_at(s@, off as int, pattern@),
{
    let r = s[off] == pattern[0] && s[off + 1] == pattern[1] && s[off + 2] == pattern[2] && s[off
        + 3] == pattern[3];
    proof {
        let sub = s@.subrange(off as int, off + 4);
        assert(sub[0] == s@[off as int] && sub[1] == s@[off + 1] && sub[2] == s@[off + 2] && sub[3]
            == s@[off + 3]);
        if r {
            assert(sub =~= pattern@);
        }
    }
    r
}

/// Whether two slices hold the same bytes.
pub fn same(a: &[u8], b: &[u8]) -> (r: bool)
    ensures
        r == (a@ == b@),
{
    if a.len() != b.len() {
        return false;
    }
    let mut i: usize = 0;
    while i < a.len()
        invariant
            i <= a.len(),
            a@.len() == b@.len(),
            forall|j: int| 0 <= j < i ==> #[trigger] a@[j] == b@[j],
        decreases a.len() - i,
    {
        if a[i] != b[i] {
            return false;
        }
        i += 1;
    }
    assert(a@ =~= b@);
    true
}

/// Appends `extra` to `out`.
pub fn append(out: &mut Vec<u8>, extra: &[u8])
    ensures
        final(out)@ == old(out)@ + extra@,
{
    let ghost before = out@;
    let mut i: usize = 0;
    while i < extra.len()
        invariant
            i <= extra.len(),
            out@ == before + extra@.subrange(0, i as int),
        decreases extra.len() - i,
    {
        out.push(extra[i]);
        i += 1;
        assert(out@ =~= before + extra@.subrange(0, i as int));
    }
    assert(extra@.subrange(0, extra@.len() as int) =~= extra@);
}

/// `n` zero bytes.
pub open spec fn zeros(n: nat) -> Seq<u8> {
    Seq::new(n, |i: int| 0u8)
}

/// Appends `n` zero bytes to `out`.
pub fn append_zeros(out: &mut Vec<u8>, n: usize)
    ensures
        final(out)@ == old(out)@ + zeros(n as nat),
{
    let ghost before = out@;
    let mut i: usize = 0;
    while i < n
        invariant
            i <= n,
            out@ == before + zeros(i as nat),
        decreases n - i,
    {
        out.push(0);
        i += 1;
        assert(out@ =~= before + zeros(i as nat));
    }
}

/// Copies the first `n` bytes of `content` from `start` on to the front of `buf`.
pub fn copy_to_front(buf: &mut [u8], content: &[u8], start: usize, n: usize)
    requires
        n <= old(buf)@.len(),
        start + n <= content.len(),
    ensures
        final(buf)@ == content@.subrange(start as int, start + n) + old(buf)@.skip(n as int),
{
    let mut i: usize = 0;
    while i < n
        invariant
            i <= n,
            n <= buf@.len(),
            buf@.len() == old(buf)@.len(),
            start + n <= content.len(),
            forall|j: int| 0 <= j < i ==> #[trigger] buf@[j] == content@[start + j],
            forall|j: int| i <= j < buf@.len() ==> #[trigger] buf@[j] == old(buf)@[j],
        decreases n - i,
    {
        buf[i] = content[start + i];
        i += 1;
    }
    assert(buf@ =~= content@.subrange(start as int, start + n) + old(buf)@.skip(n as int));
}

/// Whether the `n` bytes of `s` at `off` are the number `v`, least significant byte first.
pub open spec fn spells(s: Seq<u8>, off: int, n: nat, v: nat) -> bool
    decreases n,
{
    if n == 0 {
        v == 0
    } else {
        &&& 0 <= off < s.len()
        &&& s[off] == v % 256
        &&& spells(s, off + 1, (n - 1) as nat, v / 256)
    }
}

/// A number that stands in a slice is what a read of its width gives.
pub proof fn law_numbers_read_back(s: Seq<u8>, off: int, v: nat)
    ensures
        spells(s, off, 2, v) ==> u16_at(s, off) == v && 0 <= off && off + 2 <= s.len(),
        spells(s, off, 4, v) ==> u32_at(s, off) == v && 0 <= off && off + 4 <= s.len(),
        spells(s, off, 8, v) ==> u64_at(s, off) == v && 0 <= off && off + 8 <= s.len(),
{
    reveal_with_fuel(spells, 9);
}

} // verus!
