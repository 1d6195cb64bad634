//! Numbers as text.
use vstd::prelude::*;
use vstd::string::StringExecFns;

verus! {

/// The character of a digit.
pub open spec fn digit(d: nat) -> char {
    if d == 0 {
        '0'
    } else if d == 1 {
        '1'
    } else if d == 2 {
        '2'
    } else if d == 3 {
        '3'
    } else if d == 4 {
        '4'
    } else if d == 5 {
        '5'
    } else if d == 6 {
        '6'
    } else if d == 7 {
        '7'
    } else if d == 8 {
        '8'
    } else {
        '9'
    }
}

/// The decimal digits of `n`, the most significant first.
pub open spec fn digits(n: nat) -> Seq<char>
    decreases n,
{
    if n < 10 {
        seq![digit(n)]
    } else {
        digits(n / 10).push(digit(n % 10))
    }
}

/// `n` in decimal, with a leading `-` where it is negative.
pub open spec fn signed_digits(n: int) -> Seq<char> {
    if n < 0 {
        seq!['-'] + digits((-n) as nat)
    } else {
        digits(n as nat)
    }
}

/// `n` in decimal, with a leading zero where it has one digit.
pub open spec fn two_digits(n: nat) -> Seq<char> {
    if n < 10 {
        seq!['0'] + digits(n)
    } else {
        digits(n)
    }
}

fn digit_str(d: u64) -> (r: &'static str)
    requires
        d < 10,
    ensures
        r@ == seq![digit(d as nat)],
{
    proof {
        reveal_strlit("0");
        reveal_strlit("1");
        reveal_strlit("2");
        reveal_strlit("3");
        reveal_strlit("4");
        reveal_strlit("5");
        reveal_strlit("6");
        reveal_strlit("7");
        reveal_strlit("8");
        reveal_strlit("9");
    }
    let r = match d {
        0 => "0",
        1 => "1",
        2 => "2",
        3 => "3",
        4 => "4",
        5 => "5",
        6 => "6",
        7 => "7",
        8 => "8",
        _ => "9",
    };
    assert(r@ =~= seq![digit(d as nat)]);
    r
}

/// `n` in decimal.
pub fn decimal(n: u64) -> (r: String)
    ensures
        r@ == digits(n as nat),
    decreases n,
{
    let mut r = if n < 10 {
        String::new()
    } else {
        decimal(n / 10)
    };
    r.append(digit_str(n % 10));
    assert(r@ =~= digits(n as nat));
    r
}

/// `n` in decimal, with a leading `-` where it is negative.
pub fn signed_decimal(n: i64) -> (r: String)
    ensures
        r@ == signed_digits(n as int),
{
    if n < 0 {
        proof {
            reveal_strlit("-");
        }
        let mut r = String::from_str("-");
        let magnitude: u64 = (-(n + 1)) as u64 + 1;
        r.append(decimal(magnitude).as_str());
        assert(r@ =~= signed_digits(n as int));
        r
    } else {
        decimal(n as u64)
    }
}

/// `n` in decimal, with a leading zero where it has one digit.
pub fn two_digit_decimal(n: u64) -> (r: String)
    ensures
        r@ == two_digits(n as nat),
{
    if n < 10 {
        proof {
            reveal_strlit("0");
        }
        let mut r = String::from_str("0");
        r.append(decimal(n).as_str());
        assert(r@ =~= two_digits(n as nat));
        r
    } else {
        decimal(n)
    }
}

/// The number that a row of digits denotes.
pub open spec fn read(text: Seq<char>) -> int
    decreases text.len(),
{
    if text.len() == 0 {
        0
    } else {
        10 * read(text.drop_last()) + (text.last() as int - '0' as int)
    }
}

/// Every character is a decimal digit.
pub open spec fn all_digits(text: Seq<char>) -> bool {
    forall|i: int| 0 <= i < text.len() ==> '0' as int <= (#[trigger] text[i]) as int <= '9' as int
}

/// The digits of a number are digits, denote the number, and have no needless zero in front.
pub proof fn law_digits_denote_the_number(n: nat)
    ensures
        read(digits(n)) == n,
        all_digits(digits(n)),
        digits(n).len() >= 1,
        n >= 1 ==> digits(n)[0] != '0',
        n < 10 ==> digits(n).len() == 1,
        n >= 10 ==> digits(n).len() >= 2,
    decreases n,
{
    reveal_with_fuel(read, 2);
    if n < 10 {
        assert(digits(n).drop_last() =~= Seq::empty());
    } else {
        law_digits_denote_the_number(n / 10);
        assert(digits(n).drop_last() =~= digits(n / 10));
    }
}

/// A signed number is written by the digits of its magnitude, after a sign where it is negative.
pub proof fn law_signed_digits_denote_the_number(n: int)
    ensures
        n >= 0 ==> read(signed_digits(n)) == n && all_digits(signed_digits(n)),
        n >= 1 ==> signed_digits(n)[0] != '0',
        n == 0 ==> signed_digits(n).len() == 1,
        n < 0 ==> {
            let magnitude = signed_digits(n).skip(1);
            &&& signed_digits(n)[0] == '-'
            &&& signed_digits(n).len() >= 2
            &&& read(magnitude) == -n
            &&& all_digits(magnitude)
            &&& magnitude[0] != '0'
        },
{
    law_digits_denote_the_number(
        if n < 0 {
            (-n) as nat
        } else {
            n as nat
        },
    );
    if n < 0 {
        assert(signed_digits(n).skip(1) =~= digits((-n) as nat));
    }
}

/// A number is written with two digits at least, and with a needless zero in front only for that.
pub proof fn law_two_digits_denote_the_number(n: nat)
    ensures
        read(two_digits(n)) == n,
        all_digits(two_digits(n)),
        two_digits(n).len() >= 2,
        n < 10 ==> two_digits(n).len() == 2,
        n >= 10 ==> two_digits(n)[0] != '0',
{
    law_digits_denote_the_number(n);
    reveal_with_fuel(read, 3);
    if n < 10 {
        assert(two_digits(n).drop_last() =~= seq!['0']);
        assert(seq!['0'].drop_last() =~= Seq::empty());
    }
}

} // verus!
