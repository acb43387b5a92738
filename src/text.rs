//! Boards written as a line of nine decimal digits, row by row, `0` for the
//! hole.

use vstd::prelude::*;
use vstd::string::StringSliceAdditionalSpecFns;

use crate::game::{is_permutation, square, Board};

verus! {

/// The bytes of a string with its leading and trailing white space removed.
pub uninterp spec fn trim_of(s: Seq<u8>) -> Seq<u8>;

/// Relies on `str::trim`: what is left depends on the bytes of `s` alone.
#[verifier::external_body]
fn trim(s: &str) -> (r: &str)
    ensures
        r.spec_bytes() == trim_of(s.spec_bytes()),
{
    s.trim()
}

/// Every byte is an ASCII decimal digit.
pub open spec fn all_digits(b: Seq<u8>) -> bool {
    forall|i: int| 0 <= i < b.len() ==> 0x30 <= #[trigger] b[i] <= 0x39
}

/// The values of ASCII decimal digits.
pub open spec fn digit_values(b: Seq<u8>) -> Seq<u8> {
    b.map_values(|c: u8| (c - 0x30) as u8)
}

/// The 3 by 3 board written by `digits`: nine ASCII digits, row by row, that
/// hold each of `0` to `8` once. `None` for anything else.
pub fn board_of_digits(digits: &[u8]) -> (r: Option<Board>)
    ensures
        r is Some <==> (digits@.len() == 9 && all_digits(digits@) && is_permutation(
            digit_values(digits@),
        )),
        r matches Some(b) ==> b@ == digit_values(digits@) && b.edge() == 3,
{
    if digits.len() != 9 {
        return None;
    }
    let mut storage: Vec<u8> = Vec::new();
    let mut i: usize = 0;
    while i < digits.len()
        invariant
            digits@.len() == 9,
            0 <= i <= 9,
            storage@.len() == i,
            forall|k: int| 0 <= k < i ==> 0x30 <= #[trigger] digits@[k] <= 0x39,
            forall|k: int| 0 <= k < i ==> #[trigger] storage@[k] == (digits@[k] - 0x30) as u8,
        decreases 9 - i,
    {
        let b = digits[i];
        if b < 0x30 || b > 0x39 {
            return None;
        }
        storage.push(b - 0x30);
        i = i + 1;
    }
    assert(storage@ =~= digit_values(digits@));
    assert(square(3) == 9);
    let r = Board::from_vec(storage);
    proof {
        if r is Some {
            let e = r->0.edge();
            assert(e * e == 9);
            if e < 3 {
                assert(e * e < 9) by (nonlinear_arith)
                    requires
                        e < 3,
                ;
            } else if e > 3 {
                assert(e * e > 9) by (nonlinear_arith)
                    requires
                        e > 3,
                ;
            }
        }
    }
    r
}

/// The 3 by 3 board written by `s`: nine digits as for `board_of_digits`,
/// with white space around them allowed.
pub fn board_of_string(s: &str) -> (r: Option<Board>)
    ensures
        ({
            let t = trim_of(s.spec_bytes());
            &&& r is Some <==> (t.len() == 9 && all_digits(t) && is_permutation(digit_values(t)))
            &&& r matches Some(b) ==> b@ == digit_values(t) && b.edge() == 3
        }),
{
    let trimmed = trim(s);
    board_of_digits(trimmed.as_bytes())
}

} // verus!
