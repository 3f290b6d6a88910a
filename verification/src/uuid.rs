//! 128-bit unique identifiers.
//!
//! An identifier is sixteen raw bytes, built from a caller-supplied buffer of
//! random bytes with no transformation. Its canonical text form is lowercase
//! hexadecimal in five hyphen-separated groups of 8, 4, 4, 4 and 12 digits;
//! `parse` accepts exactly that form and `to_text` produces it.

use vstd::prelude::*;
use vstd::string::StrSliceExecFns;
use vstd::utf8::{encode_utf8, is_ascii_chars};

use crate::codec::string_from_utf8;
use crate::Error;

verus! {

/// The width of an identifier, in bytes.
pub const UUID_SIZE: usize = 16;

/// A 128-bit identifier.
#[derive(Clone, Copy, Debug, PartialEq, Eq)]
pub struct Uuid {
    bytes: [u8; 16],
}

impl View for Uuid {
    type V = Seq<u8>;

    closed spec fn view(&self) -> Seq<u8> {
        self.bytes@
    }
}

/// The lowercase hexadecimal digit of a value below sixteen.
pub open spec fn hex_char(n: u8) -> char {
    if n == 0 {
        '0'
    } else if n == 1 {
        '1'
    } else if n == 2 {
        '2'
    } else if n == 3 {
        '3'
    } else if n == 4 {
        '4'
    } else if n == 5 {
        '5'
    } else if n == 6 {
        '6'
    } else if n == 7 {
        '7'
    } else if n == 8 {
        '8'
    } else if n == 9 {
        '9'
    } else if n == 10 {
        'a'
    } else if n == 11 {
        'b'
    } else if n == 12 {
        'c'
    } else if n == 13 {
        'd'
    } else if n == 14 {
        'e'
    } else {
        'f'
    }
}

/// The positions of the four hyphens in the text form.
pub open spec fn hyphen_at(i: int) -> bool {
    i == 8 || i == 13 || i == 18 || i == 23
}

/// The hexadecimal-digit index written at text position `i`.
pub open spec fn hex_pos(i: int) -> int {
    i - (if i > 23 {
        4int
    } else if i > 18 {
        3int
    } else if i > 13 {
        2int
    } else if i > 8 {
        1int
    } else {
        0int
    })
}

/// The text position of the hexadecimal digit with index `j`.
pub open spec fn text_pos(j: int) -> int {
    j + (if j >= 20 {
        4int
    } else if j >= 16 {
        3int
    } else if j >= 12 {
        2int
    } else if j >= 8 {
        1int
    } else {
        0int
    })
}

/// The `j`-th hexadecimal digit value of the byte string: high halves first.
pub open spec fn nibble_of(b: Seq<u8>, j: int) -> u8 {
    if j % 2 == 0 {
        b[j / 2] / 16
    } else {
        b[j / 2] % 16
    }
}

pub open spec fn uuid_char_at(b: Seq<u8>, i: int) -> char {
    if hyphen_at(i) {
        '-'
    } else {
        hex_char(nibble_of(b, hex_pos(i)))
    }
}

/// The canonical text of a sixteen-byte identifier.
pub open spec fn spec_uuid_text(b: Seq<u8>) -> Seq<char> {
    Seq::new(36, |i: int| uuid_char_at(b, i))
}

pub open spec fn is_hex_lower(c: char) -> bool {
    (48 <= c as u32 && c as u32 <= 57) || (97 <= c as u32 && c as u32 <= 102)
}

/// Whether the text has exactly the canonical identifier form.
pub open spec fn is_canonical_uuid_text(s: Seq<char>) -> bool {
    &&& s.len() == 36
    &&& forall|i: int|
        0 <= i < 36 ==> (if hyphen_at(i) {
            s[i] == '-'
        } else {
            is_hex_lower(#[trigger] s[i])
        })
}

/// The value of a lowercase hexadecimal digit.
pub open spec fn hex_val(c: char) -> u8 {
    if 48 <= c as u32 && c as u32 <= 57 {
        (c as u32 - 48) as u8
    } else {
        (c as u32 - 87) as u8
    }
}

/// The bytes written in a canonical identifier text.
pub open spec fn uuid_of_text(s: Seq<char>) -> Seq<u8> {
    Seq::new(
        16,
        |j: int| (hex_val(s[text_pos(2 * j)]) * 16 + hex_val(s[text_pos(2 * j + 1)])) as u8,
    )
}

impl Uuid {
    /// Builds an identifier directly from sixteen random bytes, with no
    /// version or variant fix-up.
    pub fn from_random_bytes(bytes: [u8; 16]) -> (r: Uuid)
        ensures
            r@ == bytes@,
    {
        Uuid { bytes }
    }

    /// The smallest identifier: all zero bytes.
    pub fn min() -> (r: Uuid)
        ensures
            r@.len() == 16,
            forall|i: int| 0 <= i < 16 ==> r@[i] == 0u8,
    {
        Uuid { bytes: [0u8; 16] }
    }

    /// The largest identifier: all `0xff` bytes.
    pub fn max() -> (r: Uuid)
        ensures
            r@.len() == 16,
            forall|i: int| 0 <= i < 16 ==> r@[i] == 0xffu8,
    {
        Uuid { bytes: [0xffu8; 16] }
    }

    /// The canonical hyphenated lowercase hexadecimal rendering.
    pub fn to_text(&self) -> (r: String)
        ensures
            r@ == spec_uuid_text(self@),
    {
        broadcast use vstd::utf8::is_ascii_chars_encode_utf8, vstd::utf8::encode_utf8_valid_utf8,
            vstd::utf8::encode_utf8_decode_utf8;

        let ghost t = spec_uuid_text(self@);
        let mut buf: Vec<u8> = Vec::new();
        let mut i: usize = 0;
        while i < 36
            invariant
                i <= 36,
                buf@.len() == i as int,
                forall|k: int| 0 <= k < i ==> buf@[k] == uuid_char_at(self@, k) as u8,
            decreases 36 - i,
        {
            if i == 8 || i == 13 || i == 18 || i == 23 {
                buf.push(45u8);
                proof {
                    assert(uuid_char_at(self@, i as int) == '-');
                }
            } else {
                let j: usize = i - (if i > 23 {
                    4
                } else if i > 18 {
                    3
                } else if i > 13 {
                    2
                } else if i > 8 {
                    1
                } else {
                    0
                });
                let byte = self.bytes[j / 2];
                let nib = if j % 2 == 0 {
                    byte / 16
                } else {
                    byte % 16
                };
                let code = if nib < 10 {
                    48 + nib
                } else {
                    87 + nib
                };
                buf.push(code);
                proof {
                    assert(j as int == hex_pos(i as int));
                    assert(nib == nibble_of(self@, j as int));
                    assert(code == hex_char(nib) as u8);
                }
            }
            i += 1;
        }
        proof {
            assert(is_ascii_chars(t)) by {
                assert forall|k: int| 0 <= k < t.len() implies '\0' <= #[trigger] t[k]
                    <= '\u{7f}' by {
                    assert(t[k] == uuid_char_at(self@, k));
                }
            }
            assert(buf@ =~= encode_utf8(t));
        }
        match string_from_utf8(buf) {
            Option::Some(s) => s,
            Option::None => {
                proof {
                    assert(false);
                }
                String::new()
            },
        }
    }

    /// Parses the canonical text form; any other input fails with
    /// `InvalidFormat`.
    pub fn parse(s: &str) -> (r: Result<Uuid, Error>)
        ensures
            match r {
                Ok(u) => is_canonical_uuid_text(s@) && u@ == uuid_of_text(s@),
                Err(e) => e == Error::InvalidFormat && !is_canonical_uuid_text(s@),
            },
    {
        let n = s.unicode_len();
        if n != 36 {
            return Err(Error::InvalidFormat);
        }
        let mut i: usize = 0;
        while i < 36
            invariant
                i <= 36,
                s@.len() == 36,
                forall|k: int|
                    0 <= k < i ==> (if hyphen_at(k) {
                        s@[k] == '-'
                    } else {
                        is_hex_lower(#[trigger] s@[k])
                    }),
            decreases 36 - i,
        {
            let c = s.get_char(i);
            if i == 8 || i == 13 || i == 18 || i == 23 {
                if c != '-' {
                    return Err(Error::InvalidFormat);
                }
            } else {
                let code = c as u32;
                if !((48 <= code && code <= 57) || (97 <= code && code <= 102)) {
                    return Err(Error::InvalidFormat);
                }
            }
            i += 1;
        }
        let mut bytes = [0u8; 16];
        let mut j: usize = 0;
        while j < 16
            invariant
                j <= 16,
                s@.len() == 36,
                is_canonical_uuid_text(s@),
                bytes@.len() == 16,
                forall|k: int| 0 <= k < j ==> bytes@[k] == uuid_of_text(s@)[k],
            decreases 16 - j,
        {
            let hi_pos: usize = 2 * j + (if 2 * j >= 20 {
                4
            } else if 2 * j >= 16 {
                3
            } else if 2 * j >= 12 {
                2
            } else if 2 * j >= 8 {
                1
            } else {
                0
            });
            let lo_pos: usize = 2 * j + 1 + (if 2 * j + 1 >= 20 {
                4
            } else if 2 * j + 1 >= 16 {
                3
            } else if 2 * j + 1 >= 12 {
                2
            } else if 2 * j + 1 >= 8 {
                1
            } else {
                0
            });
            proof {
                assert(hi_pos as int == text_pos(2 * j as int));
                assert(lo_pos as int == text_pos(2 * j + 1));
                assert(!hyphen_at(hi_pos as int));
                assert(!hyphen_at(lo_pos as int));
            }
            let c_hi = s.get_char(hi_pos);
            let c_lo = s.get_char(lo_pos);
            let hv: u8 = if (c_hi as u32) <= 57 {
                ((c_hi as u32) - 48) as u8
            } else {
                ((c_hi as u32) - 87) as u8
            };
            let lv: u8 = if (c_lo as u32) <= 57 {
                ((c_lo as u32) - 48) as u8
            } else {
                ((c_lo as u32) - 87) as u8
            };
            proof {
                assert(is_hex_lower(s@[hi_pos as int]));
                assert(is_hex_lower(s@[lo_pos as int]));
                assert(hv == hex_val(s@[hi_pos as int]));
                assert(lv == hex_val(s@[lo_pos as int]));
                assert(hv < 16 && lv < 16);
            }
            bytes[j] = 16 * hv + lv;
            j += 1;
        }
        proof {
            assert(bytes@ =~= uuid_of_text(s@));
        }
        Ok(Uuid { bytes })
    }
}

/// The text of any sixteen-byte identifier is canonical, and parsing it
/// yields the identifier's bytes back: `parse` inverts `to_text`.
pub proof fn law_uuid_text_round_trip(b: Seq<u8>)
    requires
        b.len() == 16,
    ensures
        is_canonical_uuid_text(spec_uuid_text(b)),
        uuid_of_text(spec_uuid_text(b)) == b,
{
    let t = spec_uuid_text(b);
    assert forall|i: int| 0 <= i < 36 implies (if hyphen_at(i) {
        t[i] == '-'
    } else {
        is_hex_lower(#[trigger] t[i])
    }) by {
        assert(t[i] == uuid_char_at(b, i));
        if !hyphen_at(i) {
            assert(nibble_of(b, hex_pos(i)) < 16);
        }
    }
    assert forall|j: int| 0 <= j < 16 implies uuid_of_text(t)[j] == b[j] by {
        assert(!hyphen_at(text_pos(2 * j)) && hex_pos(text_pos(2 * j)) == 2 * j);
        assert(!hyphen_at(text_pos(2 * j + 1)) && hex_pos(text_pos(2 * j + 1)) == 2 * j + 1);
        assert(t[text_pos(2 * j)] == hex_char(nibble_of(b, 2 * j)));
        assert(t[text_pos(2 * j + 1)] == hex_char(nibble_of(b, 2 * j + 1)));
        assert(nibble_of(b, 2 * j) == b[j] / 16 && nibble_of(b, 2 * j + 1) == b[j] % 16);
        assert(forall|n: u8| n < 16 ==> hex_val(#[trigger] hex_char(n)) == n);
        assert(uuid_of_text(t)[j] == (b[j] / 16 * 16 + b[j] % 16) as u8);
    }
    assert(uuid_of_text(t) =~= b);
}

/// Two characters with the same code point are the same character.
proof fn lemma_char_code_eq(c1: char, c2: char)
    requires
        c1 as u32 == c2 as u32,
    ensures
        c1 == c2,
{
    broadcast use vstd::utf8::char_u32_cast;

    assert((c1 as u32) as char == c1);
    assert((c2 as u32) as char == c2);
}

/// Rendering a lowercase hexadecimal digit's value yields the digit back.
proof fn lemma_hex_char_val(c: char)
    requires
        is_hex_lower(c),
    ensures
        hex_char(hex_val(c)) == c,
{
    assert(hex_char(hex_val(c)) as u32 == c as u32);
    lemma_char_code_eq(hex_char(hex_val(c)), c);
}

/// Rendering the identifier parsed out of any canonical text yields that
/// text back, character for character: `to_text` inverts `parse`.
pub proof fn law_uuid_parse_then_text(s: Seq<char>)
    requires
        is_canonical_uuid_text(s),
    ensures
        spec_uuid_text(uuid_of_text(s)) == s,
{
    broadcast use vstd::utf8::char_u32_cast;

    let ub = uuid_of_text(s);
    assert forall|i: int| 0 <= i < 36 implies spec_uuid_text(ub)[i] == s[i] by {
        if hyphen_at(i) {
        } else {
            let j = hex_pos(i);
            assert(text_pos(j) == i);
            assert(0 <= j < 32);
            let c_hi = s[text_pos(2 * (j / 2))];
            let c_lo = s[text_pos(2 * (j / 2) + 1)];
            assert(is_hex_lower(c_hi) && is_hex_lower(c_lo));
            assert(hex_val(c_hi) < 16 && hex_val(c_lo) < 16);
            assert(ub[j / 2] == (hex_val(c_hi) * 16 + hex_val(c_lo)) as u8);
            if j % 2 == 0 {
                assert(nibble_of(ub, j) == hex_val(c_hi));
                lemma_hex_char_val(c_hi);
                assert(s[i] == c_hi);
            } else {
                assert(nibble_of(ub, j) == hex_val(c_lo));
                lemma_hex_char_val(c_lo);
                assert(s[i] == c_lo);
            }
        }
    }
    assert(spec_uuid_text(ub) =~= s);
}

} // verus!
