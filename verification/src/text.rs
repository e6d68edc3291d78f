//! Text: bytes as UTF-8, numbers in decimal, padding.

use vstd::prelude::*;
use vstd::string::{StrSliceExecFns, StringExecFns};
use vstd::utf8::{decode_utf8, valid_utf8};

verus! {

/// Calls [`core::str::from_utf8`]: the text that some bytes encode, or `None`
/// where they are not UTF-8.
#[verifier::external_body]
pub(crate) fn from_utf8(bytes: &[u8]) -> (text: Option<&str>)
    ensures
        text is Some <==> valid_utf8(bytes@),
        text matches Some(s) ==> s@ == decode_utf8(bytes@),
{
    core::str::from_utf8(bytes).ok()
}

/// A decimal digit.
pub open spec fn digit(d: int) -> char {
    if d == 0 {
        '0'
    } else if d == 1 {
        '1'
    } else if d == 2 {
        '2'
    } else if d == 3 {
        '3'
    } else if d == 4 {
        '4'
    } else if d == 5 {
        '5'
    } else if d == 6 {
        '6'
    } else if d == 7 {
        '7'
    } else if d == 8 {
        '8'
    } else {
        '9'
    }
}

/// A number in decimal, without leading zeros.
pub open spec fn decimal(n: nat) -> Seq<char>
    decreases n,
{
    if n < 10 {
        seq![digit(n as int)]
    } else {
        decimal(n / 10).push(digit(n as int % 10))
    }
}

/// A number in decimal, with a sign where it is negative.
pub open spec fn signed_decimal(n: int) -> Seq<char> {
    if n < 0 {
        seq!['-'] + decimal((-n) as nat)
    } else {
        decimal(n as nat)
    }
}

/// `n` spaces, or none where `n` is negative.
pub open spec fn spaces(n: int) -> Seq<char> {
    Seq::new(
        if n < 0 {
            0
        } else {
            n as nat
        },
        |i: int| ' ',
    )
}

fn digit_text(d: u64) -> (s: &'static str)
    requires
        d < 10,
    ensures
        s@ == seq![digit(d as int)],
{
    proof {
        reveal_strlit("0");
        reveal_strlit("1");
        reveal_strlit("2");
        reveal_strlit("3");
        reveal_strlit("4");
        reveal_strlit("5");
        reveal_strlit("6");
        reveal_strlit("7");
        reveal_strlit("8");
        reveal_strlit("9");
    }
    let s: &'static str = match d {
        0 => "0",
        1 => "1",
        2 => "2",
        3 => "3",
        4 => "4",
        5 => "5",
        6 => "6",
        7 => "7",
        8 => "8",
        _ => "9",
    };
    assert(s@ =~= seq![digit(d as int)]);
    s
}

pub(crate) fn decimal_text(n: u64) -> (s: String)
    ensures
        s@ == decimal(n as nat),
    decreases n,
{
    if n < 10 {
        String::from_str(digit_text(n))
    } else {
        let mut s: String = decimal_text(n / 10);
        let ghost front = s@;
        s.append(digit_text(n % 10));
        assert(s@ =~= front.push(digit(n as int % 10)));
        s
    }
}

pub(crate) fn signed_text(n: i64) -> (s: String)
    requires
        i64::MIN < n,
    ensures
        s@ == signed_decimal(n as int),
{
    if n < 0 {
        proof {
            reveal_strlit("-");
        }
        let mut s: String = String::from_str("-");
        let digits: String = decimal_text((-n) as u64);
        s.append(digits.as_str());
        assert(s@ =~= seq!['-'] + decimal((-n) as nat));
        s
    } else {
        decimal_text(n as u64)
    }
}

fn spaces_text(n: usize) -> (s: String)
    ensures
        s@ == spaces(n as int),
{
    let mut s: String = String::new();
    let mut i: usize = 0;
    assert(s@ =~= spaces(0));
    while i < n
        invariant
            i <= n,
            s@ == spaces(i as int),
        decreases n - i,
    {
        proof {
            reveal_strlit(" ");
        }
        s.append(" ");
        i += 1;
        assert(s@ =~= spaces(i as int));
    }
    s
}

/// `s` with spaces behind it, up to `width` characters.
pub(crate) fn pad_right(s: &str, width: usize) -> (r: String)
    ensures
        r@ == s@ + spaces(width - s@.len()),
{
    let len: usize = s.unicode_len();
    let gap: usize = if len < width {
        width - len
    } else {
        0
    };
    let fill: String = spaces_text(gap);
    let mut r: String = String::from_str(s);
    r.append(fill.as_str());
    assert(spaces(width - s@.len()) =~= spaces(gap as int));
    r
}

/// `s` with spaces before it, up to `width` characters.
pub(crate) fn pad_left(s: &str, width: usize) -> (r: String)
    ensures
        r@ == spaces(width - s@.len()) + s@,
{
    let len: usize = s.unicode_len();
    let gap: usize = if len < width {
        width - len
    } else {
        0
    };
    let mut r: String = spaces_text(gap);
    r.append(s);
    assert(spaces(width - s@.len()) =~= spaces(gap as int));
    r
}

/// The number that digits read from the left stand for.
pub open spec fn read_number(digits: Seq<char>) -> int
    decreases digits.len(),
{
    if digits.len() == 0 {
        0
    } else {
        10 * read_number(digits.drop_last()) + (digits.last() as int - '0' as int)
    }
}

/// A number in decimal reads back as that number, is made of digits only, and has
/// no leading zero but for zero itself.
pub proof fn law_decimal_reads_back(n: nat)
    ensures
        read_number(decimal(n)) == n,
        decimal(n).len() >= 1,
        n > 0 ==> decimal(n)[0] != '0',
        n == 0 ==> decimal(n) == seq!['0'],
        forall|i: int| 0 <= i < decimal(n).len() ==> '0' <= #[trigger] decimal(n)[i] <= '9',
    decreases n,
{
    if n < 10 {
        assert(decimal(n).drop_last() =~= Seq::<char>::empty());
        assert(read_number(Seq::<char>::empty()) == 0);
        assert(decimal(n).last() == digit(n as int));
    } else {
        law_decimal_reads_back(n / 10);
        assert(decimal(n).drop_last() =~= decimal(n / 10));
        assert forall|i: int| 0 <= i < decimal(n).len() implies '0' <= #[trigger] decimal(n)[i]
            <= '9' by {
            if i < decimal(n / 10).len() {
                assert(decimal(n)[i] == decimal(n / 10)[i]);
            }
        }
        assert(decimal(n)[0] == decimal(n / 10)[0]);
    }
}

/// A negative number is its opposite behind a minus sign; any other has no sign.
pub proof fn law_signed(n: nat)
    ensures
        signed_decimal(n as int) == decimal(n),
        n > 0 ==> signed_decimal(-n) == seq!['-'] + decimal(n),
{
}

/// Padding is as long as asked for and blank.
pub proof fn law_spaces(n: int)
    ensures
        spaces(n).len() == (if n > 0 {
            n
        } else {
            0
        }),
        forall|i: int| 0 <= i < spaces(n).len() ==> #[trigger] spaces(n)[i] == ' ',
{
}

} // verus!
