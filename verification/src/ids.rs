//! Generation of handler ids: a fresh identifier in the canonical
//! hyphenated form, its bits drawn from the process random source.
//! Ids are drawn from a space large enough that a collision within one
//! dispatch table is statistically negligible; nothing else is assumed
//! of them.

use vstd::prelude::*;

use vstd::string::StringExecFns;

verus! {

/// Relies on rand::random: a value drawn from the thread-local random
/// generator.  Nothing can be promised of a random value.
pub assume_specification<T>[ rand::random::<T> ]() -> (r: T)
    where
        rand::distributions::Standard: rand::distributions::Distribution<T>,
;

/// The sixteen digit characters, in value order.
pub open spec fn hex_digit(d: int) -> char {
    if d == 0 {
        '0'
    } else if d == 1 {
        '1'
    } else if d == 2 {
        '2'
    } else if d == 3 {
        '3'
    } else if d == 4 {
        '4'
    } else if d == 5 {
        '5'
    } else if d == 6 {
        '6'
    } else if d == 7 {
        '7'
    } else if d == 8 {
        '8'
    } else if d == 9 {
        '9'
    } else if d == 10 {
        'a'
    } else if d == 11 {
        'b'
    } else if d == 12 {
        'c'
    } else if d == 13 {
        'd'
    } else if d == 14 {
        'e'
    } else {
        'f'
    }
}

/// A lower-case hexadecimal digit character.
pub open spec fn is_hex_char(c: char) -> bool {
    exists|d: int| 0 <= d < 16 && c == hex_digit(d)
}

/// The canonical hyphenated id form: thirty-six characters, hyphens at
/// the four fixed positions, digits elsewhere, the version digit `4`,
/// and a variant digit among `8`, `9`, `a`, `b`.
pub open spec fn is_canonical_id(s: Seq<char>) -> bool {
    &&& s.len() == 36
    &&& forall|i: int|
        0 <= i < 36 && (i == 8 || i == 13 || i == 18 || i == 23) ==> #[trigger] s[i] == '-'
    &&& forall|i: int|
        0 <= i < 36 && !(i == 8 || i == 13 || i == 18 || i == 23) ==> is_hex_char(#[trigger] s[i])
    &&& s[14] == '4'
    &&& (s[19] == '8' || s[19] == '9' || s[19] == 'a' || s[19] == 'b')
}

/// The digit character of a value below sixteen.
fn hex_str(d: u8) -> (r: &'static str)
    requires
        d < 16,
    ensures
        r@ =~= seq![hex_digit(d as int)],
        is_hex_char(hex_digit(d as int)),
{
    proof {
        reveal_strlit("0");
        reveal_strlit("1");
        reveal_strlit("2");
        reveal_strlit("3");
        reveal_strlit("4");
        reveal_strlit("5");
        reveal_strlit("6");
        reveal_strlit("7");
        reveal_strlit("8");
        reveal_strlit("9");
        reveal_strlit("a");
        reveal_strlit("b");
        reveal_strlit("c");
        reveal_strlit("d");
        reveal_strlit("e");
        reveal_strlit("f");
    }
    if d == 0 {
        "0"
    } else if d == 1 {
        "1"
    } else if d == 2 {
        "2"
    } else if d == 3 {
        "3"
    } else if d == 4 {
        "4"
    } else if d == 5 {
        "5"
    } else if d == 6 {
        "6"
    } else if d == 7 {
        "7"
    } else if d == 8 {
        "8"
    } else if d == 9 {
        "9"
    } else if d == 10 {
        "a"
    } else if d == 11 {
        "b"
    } else if d == 12 {
        "c"
    } else if d == 13 {
        "d"
    } else if d == 14 {
        "e"
    } else {
        "f"
    }
}

/// The digit position that character position `i` shows, once the
/// hyphens before it are discounted.
pub open spec fn digit_index(i: int) -> int {
    if i < 8 {
        i
    } else if i < 13 {
        i - 1
    } else if i < 18 {
        i - 2
    } else if i < 23 {
        i - 3
    } else {
        i - 4
    }
}

/// A fresh handler id: canonical hyphenated form, bits drawn from the
/// process random source, with the fixed version and variant digits.
pub fn uuid() -> (r: String)
    ensures
        is_canonical_id(r@),
{
    let x: u128 = rand::random();
    let y: u128 = (x & !(0xfu128 << 60) & !(0xfu128 << 76)) | (0x4u128 << 76) | (0x8u128 << 60);
    proof {
        assert(((y >> 76) & 0xf) == 4 && ((y >> 60) & 0xf) == 8) by (bit_vector)
            requires
                y == (x & !(0xfu128 << 60) & !(0xfu128 << 76)) | (0x4u128 << 76) | (0x8u128 << 60),
        ;
    }
    let mut s = String::new();
    let mut i: usize = 0;
    while i < 36
        invariant
            i <= 36,
            s@.len() == i,
            ((y >> 76) & 0xf) == 4,
            ((y >> 60) & 0xf) == 8,
            forall|p: int|
                0 <= p < i && (p == 8 || p == 13 || p == 18 || p == 23) ==> #[trigger] s@[p] == '-',
            forall|p: int|
                0 <= p < i && !(p == 8 || p == 13 || p == 18 || p == 23) ==> is_hex_char(
                    #[trigger] s@[p],
                ),
            14 < i ==> s@[14] == '4',
            19 < i ==> s@[19] == '8',
        decreases 36 - i,
    {
        if i == 8 || i == 13 || i == 18 || i == 23 {
            proof {
                reveal_strlit("-");
            }
            s.append("-");
        } else {
            let idx: usize = if i < 8 {
                i
            } else if i < 13 {
                i - 1
            } else if i < 18 {
                i - 2
            } else if i < 23 {
                i - 3
            } else {
                i - 4
            };
            let shift: u32 = ((31 - idx) * 4) as u32;
            let nib: u8 = ((y >> shift) & 0xf) as u8;
            proof {
                let sh = shift;
                assert(((y >> sh) & 0xf) < 16) by (bit_vector);
                if i == 14 {
                    assert(sh == 76);
                }
                if i == 19 {
                    assert(sh == 60);
                }
            }
            s.append(hex_str(nib));
        }
        i += 1;
    }
    s
}

/// Pair a freshly drawn id with the given callback, ready for the view
/// builder.
pub fn handler<H>(f: H) -> (r: (String, H))
    ensures
        is_canonical_id(r.0@),
        r.1 == f,
{
    (uuid(), f)
}

} // verus!
