//! The pure part of reading user input: trimming a line of text, reading a
//! signed decimal number, and turning a number into a menu choice. The
//! blocking reads themselves belong to the surrounding application.

use vstd::prelude::*;
use vstd::string::*;

use crate::text::{all_digits, lemma_num_val_nonneg, num_val, parse_digits};

verus! {

/// The whitespace trimmed from user input: the characters with Unicode's
/// White_Space property, exactly those that `str::trim` removes — tab
/// through carriage return, space, next line, no-break space, ogham space
/// mark, the en-quad to hair-space range, the line and paragraph separators,
/// the narrow no-break space, the medium mathematical space and the
/// ideographic space.
pub open spec fn is_space(c: char) -> bool {
    let u = c as u32;
    (9 <= u && u <= 13) || u == 32 || u == 0x85 || u == 0xA0 || u == 0x1680 || (0x2000 <= u && u
        <= 0x200A) || u == 0x2028 || u == 0x2029 || u == 0x202F || u == 0x205F || u == 0x3000
}

/// `s` without its leading whitespace.
pub open spec fn trim_start(s: Seq<char>) -> Seq<char>
    decreases s.len(),
{
    if s.len() > 0 && is_space(s[0]) {
        trim_start(s.drop_first())
    } else {
        s
    }
}

/// `s` without its trailing whitespace.
pub open spec fn trim_end(s: Seq<char>) -> Seq<char>
    decreases s.len(),
{
    if s.len() > 0 && is_space(s.last()) {
        trim_end(s.drop_last())
    } else {
        s
    }
}

/// `s` without leading and trailing whitespace.
pub open spec fn trimmed(s: Seq<char>) -> Seq<char> {
    trim_end(trim_start(s))
}

/// The value of `s` read as a decimal integer the way `str::parse` reads
/// one: an optional leading plus or minus sign, then one or more digits and
/// nothing else, within the range of the machine integer returned by
/// [`parse_i32`]; anything else reads as nothing.
pub open spec fn int_numeral_val(s: Seq<char>) -> Option<int> {
    if s.len() >= 1 && (s[0] == '-' || s[0] == '+') {
        let d = s.subrange(1, s.len() as int);
        let limit: int = if s[0] == '-' {
            0x8000_0000
        } else {
            0x7FFF_FFFF
        };
        if d.len() > 0 && all_digits(d) && num_val(d) <= limit {
            Some(
                if s[0] == '-' {
                    -num_val(d)
                } else {
                    num_val(d)
                },
            )
        } else {
            None
        }
    } else {
        if s.len() > 0 && all_digits(s) && num_val(s) <= 0x7FFF_FFFF {
            Some(num_val(s))
        } else {
            None
        }
    }
}

/// Whether `c` is input whitespace.
fn is_space_char(c: char) -> (b: bool)
    ensures
        b == is_space(c),
{
    let u = c as u32;
    (9 <= u && u <= 13) || u == 32 || u == 0x85 || u == 0xA0 || u == 0x1680 || (0x2000 <= u && u
        <= 0x200A) || u == 0x2028 || u == 0x2029 || u == 0x202F || u == 0x205F || u == 0x3000
}

/// Trims leading and trailing whitespace from one line of user input.
pub fn trim_line(s: &str) -> (t: &str)
    ensures
        t@ == trimmed(s@),
{
    let n = s.unicode_len();
    let mut a: usize = 0;
    proof {
        assert(s@.subrange(0, n as int) =~= s@);
    }
    while a < n && is_space_char(s.get_char(a))
        invariant
            a <= n,
            n == s@.len(),
            trim_start(s@) == trim_start(s@.subrange(a as int, n as int)),
        decreases n - a,
    {
        proof {
            assert(s@.subrange(a as int, n as int)[0] == s@[a as int]);
            assert(s@.subrange(a as int, n as int).drop_first() =~= s@.subrange(a + 1, n as int));
        }
        a = a + 1;
    }
    proof {
        if a < n {
            assert(s@.subrange(a as int, n as int)[0] == s@[a as int]);
        }
        assert(trim_start(s@) == s@.subrange(a as int, n as int));
    }
    let mut b: usize = n;
    while b > a && is_space_char(s.get_char(b - 1))
        invariant
            a <= b <= n,
            n == s@.len(),
            trim_start(s@) == s@.subrange(a as int, n as int),
            trim_end(s@.subrange(a as int, b as int)) == trimmed(s@),
        decreases b,
    {
        proof {
            assert(s@.subrange(a as int, b as int).last() == s@[b - 1]);
            assert(s@.subrange(a as int, b as int).drop_last() =~= s@.subrange(a as int, b - 1));
        }
        b = b - 1;
    }
    proof {
        if b > a {
            assert(s@.subrange(a as int, b as int).last() == s@[b - 1]);
        }
        assert(trim_end(s@.subrange(a as int, b as int)) == s@.subrange(a as int, b as int));
    }
    s.substring_char(a, b)
}

/// Reads a whole string as a signed decimal number that fits an `i32`:
/// an optional plus or minus sign, then digits and nothing else.
pub fn parse_i32(s: &str) -> (r: Option<i32>)
    ensures
        r is Some <==> int_numeral_val(s@) is Some,
        r matches Some(v) ==> Some(v as int) == int_numeral_val(s@),
{
    let n = s.unicode_len();
    if n == 0 {
        return None;
    }
    let first = s.get_char(0);
    if first == '-' {
        let ghost d = s@.subrange(1, s@.len() as int);
        match parse_digits(s, 1, 0x8000_0000) {
            Some(v) => {
                proof {
                    lemma_num_val_nonneg(d);
                }
                let neg: i64 = -(v as i64);
                let r: i32 = neg as i32;
                proof {
                    assert(r as int == -(v as int));
                }
                Some(r)
            },
            None => None,
        }
    } else if first == '+' {
        let ghost d = s@.subrange(1, s@.len() as int);
        match parse_digits(s, 1, 0x7FFF_FFFF) {
            Some(v) => {
                proof {
                    lemma_num_val_nonneg(d);
                }
                Some(v as i32)
            },
            None => None,
        }
    } else {
        proof {
            assert(s@.subrange(0, s@.len() as int) =~= s@);
        }
        match parse_digits(s, 0, 0x7FFF_FFFF) {
            Some(v) => {
                proof {
                    lemma_num_val_nonneg(s@);
                }
                Some(v as i32)
            },
            None => None,
        }
    }
}

/// What the user asked for at the menu.
#[derive(Debug, Clone, Copy, PartialEq, Eq, Structural)]
pub enum MenuChoice {
    Show,
    Add,
    Search,
    Quit,
}

/// Maps a menu number to the action it stands for: 1 shows the contacts,
/// 2 adds one, 3 searches, and every other number quits.
pub fn menu_choice(choice: i32) -> (c: MenuChoice)
    ensures
        c == MenuChoice::Show <==> choice == 1,
        c == MenuChoice::Add <==> choice == 2,
        c == MenuChoice::Search <==> choice == 3,
        c == MenuChoice::Quit <==> !(1 <= choice <= 3),
{
    if choice == 1 {
        MenuChoice::Show
    } else if choice == 2 {
        MenuChoice::Add
    } else if choice == 3 {
        MenuChoice::Search
    } else {
        MenuChoice::Quit
    }
}

} // verus!
