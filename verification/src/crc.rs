//! The reflected CRC-32 that guards stored configuration and firmware bundles.

use vstd::prelude::*;

verus! {

pub const POLYNOMIAL: u32 = 0xEDB8_8320;

/// `n` bits taken out of the register, each one that was set folding the polynomial in.
pub open spec fn folded(x: u32, n: nat) -> u32
    decreases n,
{
    if n == 0 {
        x
    } else {
        let y = folded(x, (n - 1) as nat);
        if y & 1 == 1 { (y >> 1) ^ POLYNOMIAL } else { y >> 1 }
    }
}

/// The register after some bytes, starting from all ones.
pub open spec fn register(data: Seq<u8>) -> u32
    decreases data.len(),
{
    if data.len() == 0 {
        0xFFFF_FFFF
    } else {
        folded(register(data.drop_last()) ^ (data.last() as u32), 8)
    }
}

/// The checksum: the register's complement.
pub open spec fn checksum(data: Seq<u8>) -> u32 {
    !register(data)
}

/// The CRC-32 of some bytes.
pub fn crc32(data: &[u8]) -> (r: u32)
    ensures
        r == checksum(data@),
{
    let mut crc: u32 = 0xFFFF_FFFF;
    let mut i: usize = 0;
    while i < data.len()
        invariant
            i <= data@.len(),
            crc == register(data@.take(i as int)),
        decreases data@.len() - i,
    {
        let start: u32 = crc ^ data[i] as u32;
        let mut x: u32 = start;
        let mut n: u8 = 0;
        while n < 8
            invariant
                n <= 8,
                x == folded(start, n as nat),
            decreases 8 - n,
        {
            x = if x & 1 == 1 { (x >> 1) ^ POLYNOMIAL } else { x >> 1 };
            n += 1;
        }
        assert(data@.take(i + 1).drop_last() =~= data@.take(i as int));
        crc = x;
        i += 1;
    }
    assert(data@.take(i as int) =~= data@);
    !crc
}

/// One bit taken out of the register.
pub open spec fn shifted(y: u32) -> u32 {
    if y & 1 == 1 { (y >> 1) ^ POLYNOMIAL } else { y >> 1 }
}

proof fn eight(x: u32)
    ensures
        folded(x, 8) == shifted(shifted(shifted(shifted(shifted(shifted(shifted(shifted(x)))))))),
{
    reveal_with_fuel(folded, 9);
}

proof fn shifting_is_linear(x: u32, y: u32)
    requires
        y & 1 == 0,
    ensures
        shifted(x ^ y) == shifted(x) ^ (y >> 1),
{
    assert((x ^ y) & 1 == x & 1 && (x ^ y) >> 1 == (x >> 1) ^ (y >> 1)
        && ((x >> 1) ^ (y >> 1)) ^ 0xEDB8_8320u32 == ((x >> 1) ^ 0xEDB8_8320u32) ^ (y >> 1)) by (bit_vector)
        requires
            y & 1 == 0,
    ;
}

/// Bits above the lowest byte wait until the register has moved on by one byte.
proof fn a_byte_passes(r: u32, w: u32)
    ensures
        folded(r ^ w, 8) == folded(r ^ (w & 0xff), 8) ^ (w >> 8),
{
    let b = r ^ (w & 0xff);
    let y = w & 0xffff_ff00;
    assert(r ^ w == (r ^ (w & 0xff)) ^ (w & 0xffff_ff00) && y & 1 == 0 && (y >> 1) & 1 == 0 && ((y >> 1) >> 1) & 1 == 0
        && (((y >> 1) >> 1) >> 1) & 1 == 0 && ((((y >> 1) >> 1) >> 1) >> 1) & 1 == 0
        && (((((y >> 1) >> 1) >> 1) >> 1) >> 1) & 1 == 0 && ((((((y >> 1) >> 1) >> 1) >> 1) >> 1) >> 1) & 1 == 0
        && (((((((y >> 1) >> 1) >> 1) >> 1) >> 1) >> 1) >> 1) & 1 == 0
        && ((((((((y >> 1) >> 1) >> 1) >> 1) >> 1) >> 1) >> 1) >> 1) == w >> 8) by (bit_vector)
        requires
            y == w & 0xffff_ff00,
    ;
    let (y1, b1) = (y >> 1, shifted(b));
    let (y2, b2) = (y1 >> 1, shifted(b1));
    let (y3, b3) = (y2 >> 1, shifted(b2));
    let (y4, b4) = (y3 >> 1, shifted(b3));
    let (y5, b5) = (y4 >> 1, shifted(b4));
    let (y6, b6) = (y5 >> 1, shifted(b5));
    let (y7, b7) = (y6 >> 1, shifted(b6));
    shifting_is_linear(b, y);
    shifting_is_linear(b1, y1);
    shifting_is_linear(b2, y2);
    shifting_is_linear(b3, y3);
    shifting_is_linear(b4, y4);
    shifting_is_linear(b5, y5);
    shifting_is_linear(b6, y6);
    shifting_is_linear(b7, y7);
    eight(r ^ w);
    eight(b);
}

/// A register of all ones, moved on by four bytes of zeros.
proof fn ones_move_on()
    ensures
        folded(folded(folded(folded(0xFFFF_FFFF, 8), 8), 8), 8) == 0xDEBB_20E3u32,
{
    assert(((0xFFFF_FFFFu32 & 1 == 1) && (0xFFFF_FFFFu32 >> 1) ^ 0xEDB8_8320u32 == 0x9247_7CDFu32)
            && ((0x9247_7CDFu32 & 1 == 1) && (0x9247_7CDFu32 >> 1) ^ 0xEDB8_8320u32 == 0xA49B_3D4Fu32)
            && ((0xA49B_3D4Fu32 & 1 == 1) && (0xA49B_3D4Fu32 >> 1) ^ 0xEDB8_8320u32 == 0xBFF5_1D87u32)
            && ((0xBFF5_1D87u32 & 1 == 1) && (0xBFF5_1D87u32 >> 1) ^ 0xEDB8_8320u32 == 0xB242_0DE3u32)
            && ((0xB242_0DE3u32 & 1 == 1) && (0xB242_0DE3u32 >> 1) ^ 0xEDB8_8320u32 == 0xB499_85D1u32)
            && ((0xB499_85D1u32 & 1 == 1) && (0xB499_85D1u32 >> 1) ^ 0xEDB8_8320u32 == 0xB7F4_41C8u32)
            && ((0xB7F4_41C8u32 & 1 == 0) && (0xB7F4_41C8u32 >> 1) == 0x5BFA_20E4u32)
            && ((0x5BFA_20E4u32 & 1 == 0) && (0x5BFA_20E4u32 >> 1) == 0x2DFD_1072u32)
            && ((0x2DFD_1072u32 & 1 == 0) && (0x2DFD_1072u32 >> 1) == 0x16FE_8839u32)
            && ((0x16FE_8839u32 & 1 == 1) && (0x16FE_8839u32 >> 1) ^ 0xEDB8_8320u32 == 0xE6C7_C73Cu32)
            && ((0xE6C7_C73Cu32 & 1 == 0) && (0xE6C7_C73Cu32 >> 1) == 0x7363_E39Eu32)
            && ((0x7363_E39Eu32 & 1 == 0) && (0x7363_E39Eu32 >> 1) == 0x39B1_F1CFu32)
            && ((0x39B1_F1CFu32 & 1 == 1) && (0x39B1_F1CFu32 >> 1) ^ 0xEDB8_8320u32 == 0xF160_7BC7u32)
            && ((0xF160_7BC7u32 & 1 == 1) && (0xF160_7BC7u32 >> 1) ^ 0xEDB8_8320u32 == 0x9508_BEC3u32)
            && ((0x9508_BEC3u32 & 1 == 1) && (0x9508_BEC3u32 >> 1) ^ 0xEDB8_8320u32 == 0xA73C_DC41u32)
            && ((0xA73C_DC41u32 & 1 == 1) && (0xA73C_DC41u32 >> 1) ^ 0xEDB8_8320u32 == 0xBE26_ED00u32)
            && ((0xBE26_ED00u32 & 1 == 0) && (0xBE26_ED00u32 >> 1) == 0x5F13_7680u32)
            && ((0x5F13_7680u32 & 1 == 0) && (0x5F13_7680u32 >> 1) == 0x2F89_BB40u32)
            && ((0x2F89_BB40u32 & 1 == 0) && (0x2F89_BB40u32 >> 1) == 0x17C4_DDA0u32)
            && ((0x17C4_DDA0u32 & 1 == 0) && (0x17C4_DDA0u32 >> 1) == 0x0BE2_6ED0u32)
            && ((0x0BE2_6ED0u32 & 1 == 0) && (0x0BE2_6ED0u32 >> 1) == 0x05F1_3768u32)
            && ((0x05F1_3768u32 & 1 == 0) && (0x05F1_3768u32 >> 1) == 0x02F8_9BB4u32)
            && ((0x02F8_9BB4u32 & 1 == 0) && (0x02F8_9BB4u32 >> 1) == 0x017C_4DDAu32)
            && ((0x017C_4DDAu32 & 1 == 0) && (0x017C_4DDAu32 >> 1) == 0x00BE_26EDu32)
            && ((0x00BE_26EDu32 & 1 == 1) && (0x00BE_26EDu32 >> 1) ^ 0xEDB8_8320u32 == 0xEDE7_9056u32)
            && ((0xEDE7_9056u32 & 1 == 0) && (0xEDE7_9056u32 >> 1) == 0x76F3_C82Bu32)
            && ((0x76F3_C82Bu32 & 1 == 1) && (0x76F3_C82Bu32 >> 1) ^ 0xEDB8_8320u32 == 0xD6C1_6735u32)
            && ((0xD6C1_6735u32 & 1 == 1) && (0xD6C1_6735u32 >> 1) ^ 0xEDB8_8320u32 == 0x86D8_30BAu32)
            && ((0x86D8_30BAu32 & 1 == 0) && (0x86D8_30BAu32 >> 1) == 0x436C_185Du32)
            && ((0x436C_185Du32 & 1 == 1) && (0x436C_185Du32 >> 1) ^ 0xEDB8_8320u32 == 0xCC0E_8F0Eu32)
            && ((0xCC0E_8F0Eu32 & 1 == 0) && (0xCC0E_8F0Eu32 >> 1) == 0x6607_4787u32)
            && ((0x6607_4787u32 & 1 == 1) && (0x6607_4787u32 >> 1) ^ 0xEDB8_8320u32 == 0xDEBB_20E3u32)) by (bit_vector);
    eight(0xFFFF_FFFFu32);
    eight(0x2DFD_1072u32);
    eight(0xBE26_ED00u32);
    eight(0x00BE_26EDu32);
}

/// Bytes that are followed by their own checksum, least significant byte first, always leave the same
/// register behind, whatever they are.
pub proof fn a_checksum_behind_its_bytes_cancels_them(data: Seq<u8>)
    ensures
        register(data + crate::bytes::le32(checksum(data))) == 0xDEBB_20E3u32,
{
    let r = register(data);
    let w = checksum(data);
    let s = crate::bytes::le32(w);
    let (b0, b1, b2, b3) = (s[0], s[1], s[2], s[3]);
    assert(w == !r);
    assert((w % 256) as u8 as u32 == w & 0xff && (w / 0x100 % 256) as u8 as u32 == (w >> 8) & 0xff
        && (w / 0x1_0000 % 256) as u8 as u32 == ((w >> 8) >> 8) & 0xff
        && (w / 0x100_0000) as u8 as u32 == (((w >> 8) >> 8) >> 8) & 0xff
        && ((((w >> 8) >> 8) >> 8) >> 8) == 0 && r ^ w == 0xFFFF_FFFF) by (bit_vector)
        requires
            w == !r,
    ;
    let d1 = data.push(b0);
    let d2 = d1.push(b1);
    let d3 = d2.push(b2);
    let d4 = d3.push(b3);
    assert(d1.drop_last() =~= data && d2.drop_last() =~= d1 && d3.drop_last() =~= d2 && d4.drop_last() =~= d3);
    assert(data + s =~= d4);
    a_byte_passes(r, w);
    let r1 = register(d1);
    assert(r1 == folded(r ^ (w & 0xff), 8));
    a_byte_passes(r1, w >> 8);
    let r2 = register(d2);
    assert(r2 == folded(r1 ^ ((w >> 8) & 0xff), 8));
    a_byte_passes(r2, (w >> 8) >> 8);
    let r3 = register(d3);
    assert(r3 == folded(r2 ^ (((w >> 8) >> 8) & 0xff), 8));
    a_byte_passes(r3, ((w >> 8) >> 8) >> 8);
    let r4 = register(d4);
    assert(r4 == folded(r3 ^ ((((w >> 8) >> 8) >> 8) & 0xff), 8));
    assert(r4 ^ 0 == r4) by (bit_vector);
    ones_move_on();
}

} // verus!
