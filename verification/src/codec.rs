//! Little-endian field encoding and the CRC-32 checksum shared by the
//! wire protocol, the command journal, the event journal and snapshots.

use vstd::prelude::*;
use vstd::bytes::*;
use vstd::slice::slice_subrange;

verus! {

/// One shift-register step of the reflected CRC-32 (polynomial 0xEDB88320).
pub open spec fn crc_shift(c: u32) -> u32 {
    if c & 1u32 != 0u32 {
        (c >> 1u32) ^ 0xedb8_8320u32
    } else {
        c >> 1u32
    }
}

/// `n` shift-register steps.
pub open spec fn crc_shift_n(c: u32, n: nat) -> u32
    decreases n,
{
    if n == 0 {
        c
    } else {
        crc_shift(crc_shift_n(c, (n - 1) as nat))
    }
}

/// The register after feeding one byte.
pub open spec fn crc_feed(c: u32, b: u8) -> u32 {
    crc_shift_n(c ^ (b as u32), 8)
}

/// The register after feeding every byte of `bytes`, starting from all ones.
pub open spec fn crc_register(bytes: Seq<u8>) -> u32
    decreases bytes.len(),
{
    if bytes.len() == 0 {
        0xffff_ffffu32
    } else {
        crc_feed(crc_register(bytes.drop_last()), bytes.last())
    }
}

/// CRC-32 (IEEE) of a byte sequence.
pub open spec fn spec_crc32(bytes: Seq<u8>) -> u32 {
    !crc_register(bytes)
}

/// One shift-register step loses nothing: different registers stay
/// different.
proof fn lemma_crc_shift_injective(a: u32, b: u32)
    by (bit_vector)
    requires
        a != b,
    ensures
        crc_shift(a) != crc_shift(b),
{
}

proof fn lemma_crc_shift_n_injective(a: u32, b: u32, n: nat)
    requires
        a != b,
    ensures
        crc_shift_n(a, n) != crc_shift_n(b, n),
    decreases n,
{
    if n > 0 {
        lemma_crc_shift_n_injective(a, b, (n - 1) as nat);
        lemma_crc_shift_injective(crc_shift_n(a, (n - 1) as nat), crc_shift_n(b, (n - 1) as nat));
    }
}

/// Feeding a byte keeps different registers different, and different
/// bytes make the same register different.
proof fn lemma_crc_feed_injective(c1: u32, c2: u32, x: u8, y: u8)
    requires
        c1 != c2 || x != y,
        c1 == c2 || x == y,
    ensures
        crc_feed(c1, x) != crc_feed(c2, y),
{
    assert((c1 ^ (x as u32)) != (c2 ^ (y as u32))) by (bit_vector)
        requires
            c1 != c2 || x != y,
            c1 == c2 || x == y;
    lemma_crc_shift_n_injective(c1 ^ (x as u32), c2 ^ (y as u32), 8);
}

/// CRC-32 detects every change confined to one byte.
pub proof fn lemma_crc_detects_byte_change(a: Seq<u8>, b: Seq<u8>, i: int)
    requires
        a.len() == b.len(),
        0 <= i < a.len(),
        a[i] != b[i],
        forall|j: int| 0 <= j < a.len() && j != i ==> a[j] == b[j],
    ensures
        spec_crc32(a) != spec_crc32(b),
{
    lemma_crc_register_differs(a, b, i);
    let ra = crc_register(a);
    let rb = crc_register(b);
    assert(!ra != !rb) by (bit_vector)
        requires
            ra != rb;
}

proof fn lemma_crc_register_differs(a: Seq<u8>, b: Seq<u8>, i: int)
    requires
        a.len() == b.len(),
        0 <= i < a.len(),
        a[i] != b[i],
        forall|j: int| 0 <= j < a.len() && j != i ==> a[j] == b[j],
    ensures
        crc_register(a) != crc_register(b),
    decreases a.len(),
{
    let n = a.len() as int;
    if i == n - 1 {
        assert(a.drop_last() =~= b.drop_last());
        lemma_crc_feed_injective(crc_register(a.drop_last()), crc_register(b.drop_last()), a.last(), b.last());
    } else {
        lemma_crc_register_differs(a.drop_last(), b.drop_last(), i);
        assert(a.last() == b.last());
        lemma_crc_feed_injective(crc_register(a.drop_last()), crc_register(b.drop_last()), a.last(), b.last());
    }
}

/// Computes the CRC-32 (IEEE, reflected) checksum of `bytes`.
pub fn crc32(bytes: &[u8]) -> (r: u32)
    ensures
        r == spec_crc32(bytes@),
{
    let mut crc: u32 = 0xffff_ffff;
    let n = bytes.len();
    let mut i: usize = 0;
    while i < n
        invariant
            n == bytes@.len(),
            i <= n,
            crc == crc_register(bytes@.subrange(0, i as int)),
        decreases n - i,
    {
        let b = bytes[i];
        let start: u32 = crc ^ (b as u32);
        crc = start;
        let mut k: u32 = 0;
        while k < 8
            invariant
                k <= 8,
                crc == crc_shift_n(start, k as nat),
            decreases 8 - k,
        {
            crc = if crc & 1 != 0 {
                (crc >> 1) ^ 0xedb8_8320
            } else {
                crc >> 1
            };
            k = k + 1;
        }
        proof {
            let s = bytes@.subrange(0, i as int + 1);
            assert(s.drop_last() =~= bytes@.subrange(0, i as int));
            assert(s.last() == b);
        }
        i = i + 1;
    }
    proof {
        assert(bytes@.subrange(0, n as int) =~= bytes@);
    }
    !crc
}

/// Appends the little-endian bytes of a `u16`.
pub fn put_u16(out: &mut Vec<u8>, value: u16)
    ensures
        final(out)@ == old(out)@ + spec_u16_to_le_bytes(value),
{
    let mut bytes = u16_to_le_bytes(value);
    out.append(&mut bytes);
}

/// Appends the little-endian bytes of a `u32`.
pub fn put_u32(out: &mut Vec<u8>, value: u32)
    ensures
        final(out)@ == old(out)@ + spec_u32_to_le_bytes(value),
{
    let mut bytes = u32_to_le_bytes(value);
    out.append(&mut bytes);
}

/// Appends the little-endian bytes of a `u64`.
pub fn put_u64(out: &mut Vec<u8>, value: u64)
    ensures
        final(out)@ == old(out)@ + spec_u64_to_le_bytes(value),
{
    let mut bytes = u64_to_le_bytes(value);
    out.append(&mut bytes);
}

/// Reads a little-endian `u16` at `pos`.
pub fn get_u16(bytes: &[u8], pos: usize) -> (r: u16)
    requires
        pos + 2 <= bytes@.len(),
    ensures
        r == spec_u16_from_le_bytes(bytes@.subrange(pos as int, pos + 2)),
{
    let _n = bytes.len();
    u16_from_le_bytes(slice_subrange(bytes, pos, pos + 2))
}

/// Reads a little-endian `u32` at `pos`.
pub fn get_u32(bytes: &[u8], pos: usize) -> (r: u32)
    requires
        pos + 4 <= bytes@.len(),
    ensures
        r == spec_u32_from_le_bytes(bytes@.subrange(pos as int, pos + 4)),
{
    let _n = bytes.len();
    u32_from_le_bytes(slice_subrange(bytes, pos, pos + 4))
}

/// Reads a little-endian `u64` at `pos`.
pub fn get_u64(bytes: &[u8], pos: usize) -> (r: u64)
    requires
        pos + 8 <= bytes@.len(),
    ensures
        r == spec_u64_from_le_bytes(bytes@.subrange(pos as int, pos + 8)),
{
    let _n = bytes.len();
    u64_from_le_bytes(slice_subrange(bytes, pos, pos + 8))
}

/// Little-endian encodings have fixed lengths and decode back to their value.
pub proof fn lemma_le_round_trips()
    ensures
        forall|x: u16| #![trigger spec_u16_to_le_bytes(x)]
            spec_u16_to_le_bytes(x).len() == 2 && spec_u16_from_le_bytes(spec_u16_to_le_bytes(x)) == x,
        forall|x: u32| #![trigger spec_u32_to_le_bytes(x)]
            spec_u32_to_le_bytes(x).len() == 4 && spec_u32_from_le_bytes(spec_u32_to_le_bytes(x)) == x,
        forall|x: u64| #![trigger spec_u64_to_le_bytes(x)]
            spec_u64_to_le_bytes(x).len() == 8 && spec_u64_from_le_bytes(spec_u64_to_le_bytes(x)) == x,
{
    lemma_auto_spec_u16_to_from_le_bytes();
    lemma_auto_spec_u32_to_from_le_bytes();
    lemma_auto_spec_u64_to_from_le_bytes();
}

} // verus!
