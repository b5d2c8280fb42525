//! 48-bit big-endian address arithmetic: the numeric value of a 6-byte
//! prefix, the mask derived from a prefix length, and byte-level masking.

use vstd::prelude::*;

verus! {

/// The numeric value of 6 bytes read in network (big-endian) order.
pub open spec fn be48(s: Seq<u8>) -> u64
    recommends
        s.len() == 6,
{
    ((s[0] as u64) << 40) | ((s[1] as u64) << 32) | ((s[2] as u64) << 24) | ((s[3] as u64) << 16)
        | ((s[4] as u64) << 8) | (s[5] as u64)
}

/// The 6 bytes that hold `v` in network (big-endian) order.
pub open spec fn bytes48(v: u64) -> Seq<u8> {
    seq![
        ((v >> 40) & 0xff) as u8,
        ((v >> 32) & 0xff) as u8,
        ((v >> 24) & 0xff) as u8,
        ((v >> 16) & 0xff) as u8,
        ((v >> 8) & 0xff) as u8,
        (v & 0xff) as u8,
    ]
}

/// The mask with the top `len` bits of a 48-bit value set:
/// `((1 << len) - 1) << (48 - len)`.
pub open spec fn mask_of(len: u64) -> u64
    recommends
        len <= 48,
{
    (((1u64 << len) - 1) as u64) << ((48 - len) as u64)
}

/// A 48-bit value fits below `1 << 48`.
pub proof fn lemma_be48_bound(s: Seq<u8>)
    requires
        s.len() == 6,
    ensures
        be48(s) < 0x1_0000_0000_0000,
{
    let (b0, b1, b2, b3, b4, b5) = (
        s[0] as u64,
        s[1] as u64,
        s[2] as u64,
        s[3] as u64,
        s[4] as u64,
        s[5] as u64,
    );
    assert((b0 << 40) | (b1 << 32) | (b2 << 24) | (b3 << 16) | (b4 << 8) | b5
        < 0x1_0000_0000_0000) by (bit_vector)
        requires
            b0 < 256 && b1 < 256 && b2 < 256 && b3 < 256 && b4 < 256 && b5 < 256,
    ;
}

/// Reading the 6 bytes of a value gives the value back.
pub proof fn lemma_be48_bytes48(v: u64)
    requires
        v < 0x1_0000_0000_0000,
    ensures
        be48(bytes48(v)) == v,
{
    assert(((((v >> 40) & 0xff) as u8) as u64) << 40 | ((((v >> 32) & 0xff) as u8) as u64) << 32
        | ((((v >> 24) & 0xff) as u8) as u64) << 24 | ((((v >> 16) & 0xff) as u8) as u64) << 16
        | ((((v >> 8) & 0xff) as u8) as u64) << 8 | (((v & 0xff) as u8) as u64) == v) by (bit_vector)
        requires
            v < 0x1_0000_0000_0000,
    ;
}

/// The 6 network-order bytes that hold a 48-bit value.
pub(crate) fn value_to_bytes(v: u64) -> (r: [u8; 6])
    requires
        v < 0x1_0000_0000_0000,
    ensures
        r@ == bytes48(v),
{
    let r: [u8; 6] = [
        ((v >> 40) & 0xff) as u8,
        ((v >> 32) & 0xff) as u8,
        ((v >> 24) & 0xff) as u8,
        ((v >> 16) & 0xff) as u8,
        ((v >> 8) & 0xff) as u8,
        (v & 0xff) as u8,
    ];
    proof {
        assert(r@ =~= bytes48(v));
    }
    r
}

/// The prefix length a mask stands for: the unique `l` with
/// `mask_of(l) == m`, where the mask is one of a prefix length at all.
pub open spec fn len_of_mask(m: u64) -> u64 {
    choose|l: u64| l <= 48 && mask_of(l) == m
}

/// Masks of distinct prefix lengths differ.
pub proof fn lemma_mask_of_injective(l1: u64, l2: u64)
    requires
        l1 <= 48,
        l2 <= 48,
        mask_of(l1) == mask_of(l2),
    ensures
        l1 == l2,
{
    assert((l1 <= 48 && l2 <= 48 && ((((1u64 << l1) - 1) as u64) << ((48 - l1) as u64)) == ((((
    1u64 << l2) - 1) as u64) << ((48 - l2) as u64))) ==> l1 == l2) by (bit_vector);
}

/// Recover the prefix length from a mask that has one.
pub(crate) fn mask_len(m: u64) -> (r: u32)
    requires
        exists|l: u64| l <= 48 && m == #[trigger] mask_of(l),
    ensures
        r <= 48,
        mask_of(r as u64) == m,
        r as u64 == len_of_mask(m),
{
    let mut l: u32 = 0;
    while l < 48 && mask_for_len(l) != m
        invariant
            l <= 48,
            forall|l2: u64| l2 < l ==> mask_of(l2) != m,
        decreases 48 - l,
    {
        l += 1;
    }
    proof {
        let lw = choose|lw: u64| lw <= 48 && m == #[trigger] mask_of(lw);
        if mask_of(l as u64) != m {
            assert(false);
        }
        let lc = len_of_mask(m);
        assert(lc <= 48 && mask_of(lc) == m);
        lemma_mask_of_injective(l as u64, lc);
    }
    l
}

/// Relies on `byteorder::NetworkEndian::read_uint`: reads the first
/// `nbytes` bytes of the buffer as a big-endian unsigned integer.
#[verifier::external_body]
pub(crate) fn read_be48(addr: &[u8; 6]) -> (r: u64)
    ensures
        r == be48(addr@),
{
    <byteorder::NetworkEndian as byteorder::ByteOrder>::read_uint(addr, 6)
}

/// The mask for a prefix of `len` significant bits.
pub(crate) fn mask_for_len(len: u32) -> (r: u64)
    requires
        len <= 48,
    ensures
        r == mask_of(len as u64),
{
    let l: u64 = len as u64;
    assert(1u64 << l >= 1) by (bit_vector)
        requires
            l <= 48,
    ;
    ((1u64 << l) - 1) << (48 - l)
}

} // verus!
