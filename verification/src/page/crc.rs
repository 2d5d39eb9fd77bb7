//! The CRC32/IEEE checksum.

use vstd::prelude::*;

verus! {

/// One bit of the reflected CRC32/IEEE division.
pub open spec fn crc_bit(c: u32) -> u32 {
    if c & 1 == 1 {
        (c >> 1) ^ 0xEDB8_8320
    } else {
        c >> 1
    }
}

/// `n` bits of the division.
pub open spec fn crc_bits(c: u32, n: nat) -> u32
    decreases n,
{
    if n == 0 {
        c
    } else {
        crc_bit(crc_bits(c, (n - 1) as nat))
    }
}

/// The register after one byte.
pub open spec fn crc_byte(c: u32, b: u8) -> u32 {
    crc_bits(c ^ (b as u32), 8)
}

/// The register after the bytes of `s`, starting from `c`.
pub open spec fn crc_fold(c: u32, s: Seq<u8>) -> u32
    decreases s.len(),
{
    if s.len() == 0 {
        c
    } else {
        crc_byte(crc_fold(c, s.drop_last()), s.last())
    }
}

/// The CRC32/IEEE checksum of `s`.
pub open spec fn crc_of(s: Seq<u8>) -> u32 {
    crc_fold(0xFFFF_FFFF, s) ^ 0xFFFF_FFFF
}

spec fn crc_eight(c: u32) -> u32 {
    crc_bit(crc_bit(crc_bit(crc_bit(crc_bit(crc_bit(crc_bit(crc_bit(c))))))))
}

proof fn lemma_eight_bits(c: u32)
    ensures
        crc_bits(c, 8) == crc_eight(c),
{
    reveal_with_fuel(crc_bits, 9);
}

/// Eight bits of the division act on the low byte alone and shift the rest down.
proof fn lemma_byte_split(c: u32)
    ensures
        crc_bits(c, 8) == (c >> 8) ^ crc_bits(c & 0xFF, 8),
{
    lemma_eight_bits(c);
    lemma_eight_bits(c & 0xFF);
    assert(crc_eight(c) == (c >> 8) ^ crc_eight(c & 0xFF)) by (bit_vector);
}

proof fn lemma_bits_injective(a: u32, b: u32, n: nat)
    requires
        crc_bits(a, n) == crc_bits(b, n),
    ensures
        a == b,
    decreases n,
{
    if n > 0 {
        let x = crc_bits(a, (n - 1) as nat);
        let y = crc_bits(b, (n - 1) as nat);
        assert(crc_bit(x) == crc_bit(y) ==> x == y) by (bit_vector);
        lemma_bits_injective(a, b, (n - 1) as nat);
    }
}

proof fn lemma_fold_injective(c: u32, d: u32, s: Seq<u8>)
    requires
        c != d,
    ensures
        crc_fold(c, s) != crc_fold(d, s),
    decreases s.len(),
{
    if s.len() > 0 {
        lemma_fold_injective(c, d, s.drop_last());
        let x = crc_fold(c, s.drop_last());
        let y = crc_fold(d, s.drop_last());
        let b = s.last() as u32;
        if crc_bits(x ^ b, 8) == crc_bits(y ^ b, 8) {
            lemma_bits_injective(x ^ b, y ^ b, 8);
            assert(x ^ b == y ^ b ==> x == y) by (bit_vector);
        }
    }
}

proof fn lemma_fold_concat(c: u32, s: Seq<u8>, t: Seq<u8>)
    ensures
        crc_fold(c, s + t) == crc_fold(crc_fold(c, s), t),
    decreases t.len(),
{
    if t.len() == 0 {
        assert(s + t =~= s);
    } else {
        lemma_fold_concat(c, s, t.drop_last());
        assert((s + t).drop_last() =~= s + t.drop_last());
    }
}

/// Changing one byte, whatever its position and its new value, changes the
/// checksum.
pub proof fn lemma_one_changed_byte_is_detected(s: Seq<u8>, at: int, b: u8)
    requires
        0 <= at < s.len(),
        s[at] != b,
    ensures
        crc_of(s.update(at, b)) != crc_of(s),
{
    let init: u32 = 0xFFFF_FFFF;
    let t = s.update(at, b);
    let head = s.subrange(0, at);
    let tail = s.subrange(at + 1, s.len() as int);
    assert(s =~= head.push(s[at]) + tail);
    assert(t =~= head.push(b) + tail);
    lemma_fold_concat(init, head.push(s[at]), tail);
    lemma_fold_concat(init, head.push(b), tail);
    assert(head.push(s[at]).drop_last() =~= head);
    assert(head.push(b).drop_last() =~= head);
    let c = crc_fold(init, head);
    let x = s[at] as u32;
    let y = b as u32;
    if crc_bits(c ^ x, 8) == crc_bits(c ^ y, 8) {
        lemma_bits_injective(c ^ x, c ^ y, 8);
        assert(c ^ x == c ^ y ==> x == y) by (bit_vector);
    }
    lemma_fold_injective(crc_fold(init, head.push(s[at])), crc_fold(init, head.push(b)), tail);
    let p = crc_fold(init, s);
    let q = crc_fold(init, t);
    assert(p != q ==> p ^ 0xFFFF_FFFF != q ^ 0xFFFF_FFFF) by (bit_vector);
}

/// The checksum table: entry `i` is the register after the eight bits of `i`.
fn crc32_table() -> (table: Vec<u32>)
    ensures
        table@.len() == 256,
        forall|i: int| 0 <= i < 256 ==> #[trigger] table@[i] == crc_bits(i as u32, 8),
{
    let mut table: Vec<u32> = Vec::with_capacity(256);
    let mut i: u32 = 0;
    while i < 256
        invariant
            i <= 256,
            table@.len() == i,
            forall|k: int| 0 <= k < i ==> #[trigger] table@[k] == crc_bits(k as u32, 8),
        decreases 256 - i,
    {
        let mut crc: u32 = i;
        let mut j: u32 = 0;
        while j < 8
            invariant
                j <= 8,
                crc == crc_bits(i, j as nat),
            decreases 8 - j,
        {
            if crc & 1 == 1 {
                crc = (crc >> 1) ^ 0xEDB8_8320;
            } else {
                crc = crc >> 1;
            }
            j = j + 1;
        }
        table.push(crc);
        i = i + 1;
    }
    table
}

/// CRC32/IEEE of a byte slice.
pub fn crc32(data: &[u8]) -> (crc: u32)
    ensures
        crc == crc_of(data@),
{
    let table: Vec<u32> = crc32_table();
    let mut crc: u32 = 0xFFFF_FFFF;
    let n: usize = data.len();
    let mut i: usize = 0;
    while i < n
        invariant
            i <= n == data@.len(),
            table@.len() == 256,
            forall|k: int| 0 <= k < 256 ==> #[trigger] table@[k] == crc_bits(k as u32, 8),
            crc == crc_fold(0xFFFF_FFFF, data@.subrange(0, i as int)),
        decreases n - i,
    {
        let b: u32 = data[i] as u32;
        let low: u32 = (crc ^ b) & 0xFF;
        proof {
            assert((crc ^ b) & 0xFF <= 0xFF) by (bit_vector);
            assert((crc ^ b) >> 8 == crc >> 8) by (bit_vector)
                requires
                    b <= 0xFF,
            ;
            lemma_byte_split(crc ^ b);
            assert(data@.subrange(0, i + 1).drop_last() =~= data@.subrange(0, i as int));
        }
        crc = (crc >> 8) ^ table[low as usize];
        i = i + 1;
    }
    assert(data@.subrange(0, n as int) =~= data@);
    crc ^ 0xFFFF_FFFF
}

} // verus!
