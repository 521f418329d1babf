//! A verified UTF-8 validity check.  String fields of the wire format are
//! exposed as byte views; a field whose bytes are not valid UTF-8 is treated
//! as absent, and this check decides that, proved equal to the UTF-8
//! validity predicate of the standard library's specification.

use vstd::prelude::*;
use vstd::utf8::{
    is_leading_byte_width_1, is_leading_byte_width_2, is_leading_byte_width_3,
    is_leading_byte_width_4, length_of_first_scalar, pop_first_scalar, valid_first_scalar,
    valid_utf8,
};

verus! {

/// Decides whether `bytes` form a valid UTF-8 encoding.
pub fn is_valid_utf8(bytes: &[u8]) -> (r: bool)
    ensures
        r == valid_utf8(bytes@),
{
    let n = bytes.len();
    let mut pos: usize = 0;
    proof {
        assert(bytes@.skip(0) =~= bytes@);
    }
    while pos < n
        invariant
            pos <= n,
            n == bytes@.len(),
            valid_utf8(bytes@) == valid_utf8(bytes@.skip(pos as int)),
        decreases n - pos,
    {
        let ghost rem = bytes@.skip(pos as int);
        proof {
            assert(rem.len() == n - pos);
            assert(rem[0] == bytes@[pos as int]);
        }
        let b0 = bytes[pos];
        let width: usize;
        if b0 <= 0x7f {
            // A 1-byte scalar is always in range and never overlong.
            width = 1;
            proof {
                assert(valid_first_scalar(rem));
                assert(length_of_first_scalar(rem) == 1);
            }
        } else if 0xc0 <= b0 && b0 <= 0xdf {
            if n - pos < 2 {
                proof {
                    assert(!valid_first_scalar(rem));
                }
                return false;
            }
            let b1 = bytes[pos + 1];
            proof {
                assert(rem[1] == bytes@[pos + 1]);
            }
            let c: u32 = (((b0 & 0x1f) as u32) << 6) | ((b1 & 0x3f) as u32);
            if !(0x80 <= b1 && b1 <= 0xbf) || c < 0x80 || (0xd800 <= c && c <= 0xdfff) {
                proof {
                    assert(!valid_first_scalar(rem));
                }
                return false;
            }
            width = 2;
            proof {
                assert(valid_first_scalar(rem));
                assert(length_of_first_scalar(rem) == 2);
            }
        } else if 0xe0 <= b0 && b0 <= 0xef {
            if n - pos < 3 {
                proof {
                    assert(!valid_first_scalar(rem));
                }
                return false;
            }
            let b1 = bytes[pos + 1];
            let b2 = bytes[pos + 2];
            proof {
                assert(rem[1] == bytes@[pos + 1]);
                assert(rem[2] == bytes@[pos + 2]);
            }
            let c: u32 = (((b0 & 0x0f) as u32) << 12) | (((b1 & 0x3f) as u32) << 6) | ((b2
                & 0x3f) as u32);
            if !(0x80 <= b1 && b1 <= 0xbf) || !(0x80 <= b2 && b2 <= 0xbf) || c < 0x800 || (0xd800
                <= c && c <= 0xdfff) {
                proof {
                    assert(!valid_first_scalar(rem));
                }
                return false;
            }
            width = 3;
            proof {
                assert(valid_first_scalar(rem));
                assert(length_of_first_scalar(rem) == 3);
            }
        } else if 0xf0 <= b0 && b0 <= 0xf7 {
            if n - pos < 4 {
                proof {
                    assert(!valid_first_scalar(rem));
                }
                return false;
            }
            let b1 = bytes[pos + 1];
            let b2 = bytes[pos + 2];
            let b3 = bytes[pos + 3];
            proof {
                assert(rem[1] == bytes@[pos + 1]);
                assert(rem[2] == bytes@[pos + 2]);
                assert(rem[3] == bytes@[pos + 3]);
            }
            let c: u32 = (((b0 & 0x07) as u32) << 18) | (((b1 & 0x3f) as u32) << 12) | (((b2
                & 0x3f) as u32) << 6) | ((b3 & 0x3f) as u32);
            if !(0x80 <= b1 && b1 <= 0xbf) || !(0x80 <= b2 && b2 <= 0xbf) || !(0x80 <= b3 && b3
                <= 0xbf) || c < 0x10000 || c > 0x10ffff || (0xd800 <= c && c <= 0xdfff) {
                proof {
                    assert(!valid_first_scalar(rem));
                }
                return false;
            }
            width = 4;
            proof {
                assert(valid_first_scalar(rem));
                assert(length_of_first_scalar(rem) == 4);
            }
        } else {
            // 0x80..=0xbf (a stray continuation byte) or 0xf8..=0xff: no
            // leading-byte pattern matches.
            proof {
                assert(!is_leading_byte_width_1(rem[0]));
                assert(!is_leading_byte_width_2(rem[0]));
                assert(!is_leading_byte_width_3(rem[0]));
                assert(!is_leading_byte_width_4(rem[0]));
                assert(!valid_first_scalar(rem));
            }
            return false;
        }
        proof {
            assert(valid_utf8(rem) == valid_utf8(pop_first_scalar(rem)));
            assert(pop_first_scalar(rem) =~= bytes@.skip(pos + width));
        }
        pos = pos + width;
    }
    proof {
        assert(bytes@.skip(pos as int).len() == 0);
        assert(valid_utf8(bytes@.skip(pos as int)));
    }
    true
}

} // verus!
