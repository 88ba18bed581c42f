//! The checksum that each data row carries over its payload: CRC-32 (IEEE,
//! reflected polynomial `0xEDB88320`, initial register `0xFFFFFFFF`, final
//! complement).

use vstd::prelude::*;

verus! {

/// One step of the bit loop: shift right, and fold in the polynomial when
/// the bit shifted out is set.
pub open spec fn crc_step(c: u32) -> u32 {
    if c & 1u32 == 1u32 {
        (c >> 1u32) ^ 0xEDB88320u32
    } else {
        c >> 1u32
    }
}

/// The register after `n` steps of the bit loop, starting from `c`.
pub open spec fn crc_shift(c: u32, n: nat) -> u32
    decreases n,
{
    if n == 0 {
        c
    } else {
        crc_step(crc_shift(c, (n - 1) as nat))
    }
}

/// The register after all bytes of `s` have been folded in.
pub open spec fn crc_register(s: Seq<u8>) -> u32
    decreases s.len(),
{
    if s.len() == 0 {
        0xFFFFFFFFu32
    } else {
        crc_shift(crc_register(s.drop_last()) ^ (s.last() as u32), 8)
    }
}

/// The CRC-32 of `s`: the complement of the final register.
pub open spec fn crc32(s: Seq<u8>) -> u32 {
    !crc_register(s)
}

/// Computes the checksum of `data`.
pub fn calculate_crc32(data: &[u8]) -> (crc: u32)
    ensures
        crc == crc32(data@),
{
    let mut crc: u32 = 0xFFFFFFFF;
    let mut i: usize = 0;
    while i < data.len()
        invariant
            i <= data@.len(),
            crc == crc_register(data@.subrange(0, i as int)),
        decreases data@.len() - i,
    {
        crc = crc ^ (data[i] as u32);
        let ghost start = crc;
        let mut j: u32 = 0;
        while j < 8
            invariant
                j <= 8,
                crc == crc_shift(start, j as nat),
            decreases 8 - j,
        {
            crc = if crc & 1 == 1 {
                (crc >> 1) ^ 0xEDB88320
            } else {
                crc >> 1
            };
            j = j + 1;
        }
        assert(data@.subrange(0, i + 1).drop_last() == data@.subrange(0, i as int));
        i = i + 1;
    }
    assert(data@.subrange(0, data@.len() as int) == data@);
    !crc
}


/// CRC-32 over the empty input is zero, and each further byte takes the
/// register of the input before it, complemented back, folds the byte in
/// and shifts it eight times: every byte of the input counts.
pub proof fn lemma_crc32_per_byte(s: Seq<u8>, b: u8)
    ensures
        crc32(Seq::empty()) == 0,
        crc32(s.push(b)) == !crc_shift(!crc32(s) ^ (b as u32), 8),
{
    assert(s.push(b).drop_last() == s);
    let r = crc_register(s);
    assert(!(!r) == r) by (bit_vector);
    assert(!0xFFFFFFFFu32 == 0u32) by (bit_vector);
}

} // verus!
