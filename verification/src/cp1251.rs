//! The Windows-1251 (CP1251) code page and its conversion to UTF-8.
//!
//! Header names in the input files come either as UTF-8 or as CP1251; the
//! latter are re-encoded byte by byte into UTF-8.
use vstd::prelude::*;
use vstd::utf8::*;

verus! {

/// The Unicode scalar that a CP1251 byte stands for. The lower half of the
/// code page is ASCII.
pub open spec fn cp1251_scalar(byte: u8) -> u32 {
    if byte < 0x80 {
        byte as u32
    } else {
        cp1251_upper(byte) as u32
    }
}

/// The scalars of the upper half (bytes 0x80..=0xFF) of the code page.
pub open spec fn cp1251_upper(byte: u8) -> u16 {
    match byte {
        0x80 => 0x0402,
        0x81 => 0x0403,
        0x82 => 0x201A,
        0x83 => 0x0453,
        0x84 => 0x201E,
        0x85 => 0x2026,
        0x86 => 0x2020,
        0x87 => 0x2021,
        0x88 => 0x20AC,
        0x89 => 0x2030,
        0x8A => 0x0409,
        0x8B => 0x2039,
        0x8C => 0x040A,
        0x8D => 0x040C,
        0x8E => 0x040B,
        0x8F => 0x040F,
        0x90 => 0x0452,
        0x91 => 0x2018,
        0x92 => 0x2019,
        0x93 => 0x201C,
        0x94 => 0x201D,
        0x95 => 0x2022,
        0x96 => 0x2013,
        0x97 => 0x2014,
        0x98 => 0x0098,
        0x99 => 0x2122,
        0x9A => 0x0459,
        0x9B => 0x203A,
        0x9C => 0x045A,
        0x9D => 0x045C,
        0x9E => 0x045B,
        0x9F => 0x045F,
        0xA0 => 0x00A0,
        0xA1 => 0x040E,
        0xA2 => 0x045E,
        0xA3 => 0x0408,
        0xA4 => 0x00A4,
        0xA5 => 0x0490,
        0xA6 => 0x00A6,
        0xA7 => 0x00A7,
        0xA8 => 0x0401,
        0xA9 => 0x00A9,
        0xAA => 0x0404,
        0xAB => 0x00AB,
        0xAC => 0x00AC,
        0xAD => 0x00AD,
        0xAE => 0x00AE,
        0xAF => 0x0407,
        0xB0 => 0x00B0,
        0xB1 => 0x00B1,
        0xB2 => 0x0406,
        0xB3 => 0x0456,
        0xB4 => 0x0491,
        0xB5 => 0x00B5,
        0xB6 => 0x00B6,
        0xB7 => 0x00B7,
        0xB8 => 0x0451,
        0xB9 => 0x2116,
        0xBA => 0x0454,
        0xBB => 0x00BB,
        0xBC => 0x0458,
        0xBD => 0x0405,
        0xBE => 0x0455,
        0xBF => 0x0457,
        0xC0 => 0x0410,
        0xC1 => 0x0411,
        0xC2 => 0x0412,
        0xC3 => 0x0413,
        0xC4 => 0x0414,
        0xC5 => 0x0415,
        0xC6 => 0x0416,
        0xC7 => 0x0417,
        0xC8 => 0x0418,
        0xC9 => 0x0419,
        0xCA => 0x041A,
        0xCB => 0x041B,
        0xCC => 0x041C,
        0xCD => 0x041D,
        0xCE => 0x041E,
        0xCF => 0x041F,
        0xD0 => 0x0420,
        0xD1 => 0x0421,
        0xD2 => 0x0422,
        0xD3 => 0x0423,
        0xD4 => 0x0424,
        0xD5 => 0x0425,
        0xD6 => 0x0426,
        0xD7 => 0x0427,
        0xD8 => 0x0428,
        0xD9 => 0x0429,
        0xDA => 0x042A,
        0xDB => 0x042B,
        0xDC => 0x042C,
        0xDD => 0x042D,
        0xDE => 0x042E,
        0xDF => 0x042F,
        0xE0 => 0x0430,
        0xE1 => 0x0431,
        0xE2 => 0x0432,
        0xE3 => 0x0433,
        0xE4 => 0x0434,
        0xE5 => 0x0435,
        0xE6 => 0x0436,
        0xE7 => 0x0437,
        0xE8 => 0x0438,
        0xE9 => 0x0439,
        0xEA => 0x043A,
        0xEB => 0x043B,
        0xEC => 0x043C,
        0xED => 0x043D,
        0xEE => 0x043E,
        0xEF => 0x043F,
        0xF0 => 0x0440,
        0xF1 => 0x0441,
        0xF2 => 0x0442,
        0xF3 => 0x0443,
        0xF4 => 0x0444,
        0xF5 => 0x0445,
        0xF6 => 0x0446,
        0xF7 => 0x0447,
        0xF8 => 0x0448,
        0xF9 => 0x0449,
        0xFA => 0x044A,
        0xFB => 0x044B,
        0xFC => 0x044C,
        0xFD => 0x044D,
        0xFE => 0x044E,
        0xFF => 0x044F,
        _ => 0,
    }
}

/// The upper-half table entry for `byte`.
fn cp1251_upper_entry(byte: u8) -> (r: u16)
    requires
        byte >= 0x80,
    ensures
        r == cp1251_upper(byte),
{
    match byte {
        0x80 => 0x0402,
        0x81 => 0x0403,
        0x82 => 0x201A,
        0x83 => 0x0453,
        0x84 => 0x201E,
        0x85 => 0x2026,
        0x86 => 0x2020,
        0x87 => 0x2021,
        0x88 => 0x20AC,
        0x89 => 0x2030,
        0x8A => 0x0409,
        0x8B => 0x2039,
        0x8C => 0x040A,
        0x8D => 0x040C,
        0x8E => 0x040B,
        0x8F => 0x040F,
        0x90 => 0x0452,
        0x91 => 0x2018,
        0x92 => 0x2019,
        0x93 => 0x201C,
        0x94 => 0x201D,
        0x95 => 0x2022,
        0x96 => 0x2013,
        0x97 => 0x2014,
        0x98 => 0x0098,
        0x99 => 0x2122,
        0x9A => 0x0459,
        0x9B => 0x203A,
        0x9C => 0x045A,
        0x9D => 0x045C,
        0x9E => 0x045B,
        0x9F => 0x045F,
        0xA0 => 0x00A0,
        0xA1 => 0x040E,
        0xA2 => 0x045E,
        0xA3 => 0x0408,
        0xA4 => 0x00A4,
        0xA5 => 0x0490,
        0xA6 => 0x00A6,
        0xA7 => 0x00A7,
        0xA8 => 0x0401,
        0xA9 => 0x00A9,
        0xAA => 0x0404,
        0xAB => 0x00AB,
        0xAC => 0x00AC,
        0xAD => 0x00AD,
        0xAE => 0x00AE,
        0xAF => 0x0407,
        0xB0 => 0x00B0,
        0xB1 => 0x00B1,
        0xB2 => 0x0406,
        0xB3 => 0x0456,
        0xB4 => 0x0491,
        0xB5 => 0x00B5,
        0xB6 => 0x00B6,
        0xB7 => 0x00B7,
        0xB8 => 0x0451,
        0xB9 => 0x2116,
        0xBA => 0x0454,
        0xBB => 0x00BB,
        0xBC => 0x0458,
        0xBD => 0x0405,
        0xBE => 0x0455,
        0xBF => 0x0457,
        0xC0 => 0x0410,
        0xC1 => 0x0411,
        0xC2 => 0x0412,
        0xC3 => 0x0413,
        0xC4 => 0x0414,
        0xC5 => 0x0415,
        0xC6 => 0x0416,
        0xC7 => 0x0417,
        0xC8 => 0x0418,
        0xC9 => 0x0419,
        0xCA => 0x041A,
        0xCB => 0x041B,
        0xCC => 0x041C,
        0xCD => 0x041D,
        0xCE => 0x041E,
        0xCF => 0x041F,
        0xD0 => 0x0420,
        0xD1 => 0x0421,
        0xD2 => 0x0422,
        0xD3 => 0x0423,
        0xD4 => 0x0424,
        0xD5 => 0x0425,
        0xD6 => 0x0426,
        0xD7 => 0x0427,
        0xD8 => 0x0428,
        0xD9 => 0x0429,
        0xDA => 0x042A,
        0xDB => 0x042B,
        0xDC => 0x042C,
        0xDD => 0x042D,
        0xDE => 0x042E,
        0xDF => 0x042F,
        0xE0 => 0x0430,
        0xE1 => 0x0431,
        0xE2 => 0x0432,
        0xE3 => 0x0433,
        0xE4 => 0x0434,
        0xE5 => 0x0435,
        0xE6 => 0x0436,
        0xE7 => 0x0437,
        0xE8 => 0x0438,
        0xE9 => 0x0439,
        0xEA => 0x043A,
        0xEB => 0x043B,
        0xEC => 0x043C,
        0xED => 0x043D,
        0xEE => 0x043E,
        0xEF => 0x043F,
        0xF0 => 0x0440,
        0xF1 => 0x0441,
        0xF2 => 0x0442,
        0xF3 => 0x0443,
        0xF4 => 0x0444,
        0xF5 => 0x0445,
        0xF6 => 0x0446,
        0xF7 => 0x0447,
        0xF8 => 0x0448,
        0xF9 => 0x0449,
        0xFA => 0x044A,
        0xFB => 0x044B,
        0xFC => 0x044C,
        0xFD => 0x044D,
        0xFE => 0x044E,
        0xFF => 0x044F,
        _ => 0,
    }
}

/// The number of UTF-8 bytes that the CP1251 byte `byte` turns into.
pub open spec fn cp1251_utf8_width(byte: u8) -> nat {
    encode_scalar(cp1251_scalar(byte)).len()
}

/// Every upper-half entry of the table is a scalar of a two- or three-byte
/// UTF-8 encoding.
pub proof fn lemma_cp1251_upper_is_wide_scalar(byte: u8)
    requires
        byte >= 0x80,
    ensures
        has_width_2_encoding(cp1251_upper(byte) as u32) || has_width_3_encoding(
            cp1251_upper(byte) as u32,
        ),
{
}

/// Writes the UTF-8 encoding of the CP1251 byte `byte` to the front of `dst`
/// and returns how many bytes it wrote (1, 2 or 3). The rest of `dst` is left
/// as it was.
pub fn encode_utf8_from_cp1251(byte: u8, dst: &mut [u8]) -> (written: usize)
    requires
        old(dst)@.len() >= cp1251_utf8_width(byte),
    ensures
        written == cp1251_utf8_width(byte),
        1 <= written <= 3,
        final(dst)@.len() == old(dst)@.len(),
        final(dst)@.subrange(0, written as int) == encode_scalar(cp1251_scalar(byte)),
        final(dst)@.subrange(written as int, final(dst)@.len() as int) == old(dst)@.subrange(
            written as int,
            old(dst)@.len() as int,
        ),
{
    if byte < 0x80 {
        dst[0] = byte;
        proof {
            assert(byte == (byte as u32 & 0x7F) as u8) by (bit_vector)
                requires byte < 0x80u8;
            assert(dst@.subrange(0, 1) =~= encode_scalar(cp1251_scalar(byte)));
            assert(dst@.subrange(1, dst@.len() as int) =~= old(dst)@.subrange(1, old(dst)@.len() as int));
        }
        return 1;
    }
    let cp = cp1251_upper_entry(byte) as u32;
    proof {
        lemma_cp1251_upper_is_wide_scalar(byte);
    }
    if cp < 0x800 {
        let b0 = 0xC0u8 | ((cp >> 6u32) as u8);
        let b1 = 0x80u8 | ((cp & 0x3Fu32) as u8);
        dst[0] = b0;
        dst[1] = b1;
        proof {
            assert(b0 == 0xC0u8 | ((cp >> 6u32) & 0x1Fu32) as u8) by (bit_vector)
                requires b0 == 0xC0u8 | ((cp >> 6u32) as u8), cp < 0x800u32;
            assert(dst@.subrange(0, 2) =~= encode_scalar(cp1251_scalar(byte)));
            assert(dst@.subrange(2, dst@.len() as int) =~= old(dst)@.subrange(2, old(dst)@.len() as int));
        }
        2
    } else {
        let b0 = 0xE0u8 | ((cp >> 12u32) as u8);
        let b1 = 0x80u8 | (((cp >> 6u32) & 0x3Fu32) as u8);
        let b2 = 0x80u8 | ((cp & 0x3Fu32) as u8);
        dst[0] = b0;
        dst[1] = b1;
        dst[2] = b2;
        proof {
            assert(b0 == 0xE0u8 | ((cp >> 12u32) & 0x0Fu32) as u8) by (bit_vector)
                requires b0 == 0xE0u8 | ((cp >> 12u32) as u8), cp <= 0xFFFFu32;
            assert(dst@.subrange(0, 3) =~= encode_scalar(cp1251_scalar(byte)));
            assert(dst@.subrange(3, dst@.len() as int) =~= old(dst)@.subrange(3, old(dst)@.len() as int));
        }
        3
    }
}

/// A CP1251 byte turns into one to three UTF-8 bytes.
pub proof fn lemma_cp1251_width_bound(byte: u8)
    ensures
        1 <= cp1251_utf8_width(byte) <= 3,
{
    if byte >= 0x80 {
        lemma_cp1251_upper_is_wide_scalar(byte);
    }
}

/// Every byte stands for a Unicode scalar.
pub proof fn lemma_cp1251_scalar_is_scalar(byte: u8)
    ensures
        is_scalar(cp1251_scalar(byte)),
{
    if byte >= 0x80 {
        lemma_cp1251_upper_is_wide_scalar(byte);
    }
}

/// The lower half of the code page is ASCII: a byte below 0x80 stands for
/// the character of the same number and is written as that one byte.
pub proof fn lemma_cp1251_ascii_unchanged(byte: u8)
    requires
        byte < 0x80,
    ensures
        cp1251_scalar(byte) == byte as u32,
        cp1251_utf8_width(byte) == 1,
        encode_scalar(cp1251_scalar(byte)) == seq![byte],
{
    assert(byte == (byte as u32 & 0x7F) as u8) by (bit_vector)
        requires byte < 0x80u8;
    assert(encode_scalar(byte as u32) =~= seq![byte]);
}

/// The bytes 0xC0 to 0xFF are the Cyrillic letters `А` to `я`, in order:
/// U+0410 to U+044F.
pub proof fn lemma_cp1251_cyrillic_letters(byte: u8)
    requires
        byte >= 0xC0,
    ensures
        cp1251_scalar(byte) == 0x0410 + (byte - 0xC0),
{
}

} // verus!
