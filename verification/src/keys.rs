//! Booking keys.
//!
//! A booking is identified by the composite key `{passenger_id}_{train_line}`.
//! The key is deterministic, and it is injective: the line's decimal digits
//! hold no underscore, so the last underscore of a key always separates the
//! passenger ID from the line. Injectivity is what makes the key convention
//! strong enough to rule out two bookings of one passenger on the same line.

use vstd::prelude::*;
use vstd::string::StringExecFns;

verus! {

/// The decimal digit character for `d` (meaningful for `0 <= d < 10`).
pub open spec fn digit_char(d: int) -> char {
    if d == 0 {
        '0'
    } else if d == 1 {
        '1'
    } else if d == 2 {
        '2'
    } else if d == 3 {
        '3'
    } else if d == 4 {
        '4'
    } else if d == 5 {
        '5'
    } else if d == 6 {
        '6'
    } else if d == 7 {
        '7'
    } else if d == 8 {
        '8'
    } else {
        '9'
    }
}

/// The decimal digits of `n`, most significant first.
pub open spec fn decimal_digits(n: int) -> Seq<char>
    recommends
        0 <= n,
    decreases n,
{
    if n < 10 {
        seq![digit_char(n)]
    } else {
        decimal_digits(n / 10).push(digit_char(n % 10))
    }
}

/// The composite booking key `{passenger_id}_{train_line}`.
pub open spec fn booking_key(passenger_id: Seq<char>, train_line: u32) -> Seq<char> {
    passenger_id + seq!['_'] + decimal_digits(train_line as int)
}

/// A decimal representation is non-empty and holds no underscore.
pub proof fn lemma_decimal_digits_shape(n: int)
    requires
        0 <= n,
    ensures
        decimal_digits(n).len() >= 1,
        forall|i: int| 0 <= i < decimal_digits(n).len() ==> decimal_digits(n)[i] != '_',
    decreases n,
{
    if n >= 10 {
        lemma_decimal_digits_shape(n / 10);
    }
}

/// Distinct numbers have distinct decimal representations.
pub proof fn lemma_decimal_digits_injective(a: int, b: int)
    requires
        0 <= a,
        0 <= b,
        decimal_digits(a) == decimal_digits(b),
    ensures
        a == b,
    decreases a,
{
    lemma_decimal_digits_shape(a);
    lemma_decimal_digits_shape(b);
    if a < 10 && b < 10 {
        assert(decimal_digits(a)[0] == digit_char(a));
        assert(decimal_digits(b)[0] == digit_char(b));
    } else if a < 10 {
        assert(decimal_digits(a).len() == 1);
        assert(decimal_digits(b).len() == decimal_digits(b / 10).len() + 1);
    } else if b < 10 {
        assert(decimal_digits(b).len() == 1);
        assert(decimal_digits(a).len() == decimal_digits(a / 10).len() + 1);
    } else {
        assert(decimal_digits(a).last() == digit_char(a % 10));
        assert(decimal_digits(b).last() == digit_char(b % 10));
        assert(a % 10 == b % 10);
        assert(decimal_digits(a).drop_last() == decimal_digits(a / 10));
        assert(decimal_digits(b).drop_last() == decimal_digits(b / 10));
        lemma_decimal_digits_injective(a / 10, b / 10);
    }
}

/// If two underscore-free suffixes follow the separator of equal composites,
/// both parts agree.
proof fn lemma_separated_parts(p1: Seq<char>, d1: Seq<char>, p2: Seq<char>, d2: Seq<char>)
    requires
        p1 + seq!['_'] + d1 == p2 + seq!['_'] + d2,
        forall|i: int| 0 <= i < d1.len() ==> d1[i] != '_',
        forall|i: int| 0 <= i < d2.len() ==> d2[i] != '_',
    ensures
        p1 == p2,
        d1 == d2,
{
    let k = p1 + seq!['_'] + d1;
    assert(k.len() == p1.len() + 1 + d1.len());
    assert(k.len() == p2.len() + 1 + d2.len());
    if d1.len() < d2.len() {
        // key 1's separator would land inside `d2`.
        let pos = p1.len() as int;
        assert(k[pos] == '_');
        assert(k[pos] == d2[pos - p2.len() - 1]);
        assert(false);
    }
    if d2.len() < d1.len() {
        let pos = p2.len() as int;
        assert(k[pos] == '_');
        assert(k[pos] == d1[pos - p1.len() - 1]);
        assert(false);
    }
    assert(p1.len() == p2.len());
    assert forall|i: int| 0 <= i < p1.len() implies p1[i] == p2[i] by {
        assert((p1 + seq!['_'] + d1)[i] == p1[i]);
        assert((p2 + seq!['_'] + d2)[i] == p2[i]);
    }
    assert(p1 =~= p2);
    assert forall|i: int| 0 <= i < d1.len() implies d1[i] == d2[i] by {
        assert((p1 + seq!['_'] + d1)[p1.len() + 1 + i] == d1[i]);
        assert((p2 + seq!['_'] + d2)[p2.len() + 1 + i] == d2[i]);
    }
    assert(d1 =~= d2);
}

/// Booking keys are injective: equal keys come from the same passenger ID and
/// the same train line.
pub proof fn lemma_booking_key_injective(p1: Seq<char>, l1: u32, p2: Seq<char>, l2: u32)
    requires
        booking_key(p1, l1) == booking_key(p2, l2),
    ensures
        p1 == p2,
        l1 == l2,
{
    lemma_decimal_digits_shape(l1 as int);
    lemma_decimal_digits_shape(l2 as int);
    lemma_separated_parts(p1, decimal_digits(l1 as int), p2, decimal_digits(l2 as int));
    lemma_decimal_digits_injective(l1 as int, l2 as int);
}

/// The single-character string for a decimal digit.
fn digit_str(d: u32) -> (r: &'static str)
    requires
        d < 10,
    ensures
        r@ == seq![digit_char(d as int)],
{
    if d == 0 {
        proof {
            reveal_strlit("0");
            assert("0"@ =~= seq![digit_char(0)]);
        }
        "0"
    } else if d == 1 {
        proof {
            reveal_strlit("1");
            assert("1"@ =~= seq![digit_char(1)]);
        }
        "1"
    } else if d == 2 {
        proof {
            reveal_strlit("2");
            assert("2"@ =~= seq![digit_char(2)]);
        }
        "2"
    } else if d == 3 {
        proof {
            reveal_strlit("3");
            assert("3"@ =~= seq![digit_char(3)]);
        }
        "3"
    } else if d == 4 {
        proof {
            reveal_strlit("4");
            assert("4"@ =~= seq![digit_char(4)]);
        }
        "4"
    } else if d == 5 {
        proof {
            reveal_strlit("5");
            assert("5"@ =~= seq![digit_char(5)]);
        }
        "5"
    } else if d == 6 {
        proof {
            reveal_strlit("6");
            assert("6"@ =~= seq![digit_char(6)]);
        }
        "6"
    } else if d == 7 {
        proof {
            reveal_strlit("7");
            assert("7"@ =~= seq![digit_char(7)]);
        }
        "7"
    } else if d == 8 {
        proof {
            reveal_strlit("8");
            assert("8"@ =~= seq![digit_char(8)]);
        }
        "8"
    } else {
        proof {
            reveal_strlit("9");
            assert("9"@ =~= seq![digit_char(9)]);
        }
        "9"
    }
}

/// Appends the decimal digits of `n` to `s`.
fn push_decimal(s: &mut String, n: u32)
    ensures
        final(s)@ == old(s)@ + decimal_digits(n as int),
    decreases n,
{
    if n >= 10 {
        push_decimal(s, n / 10);
    }
    let d = digit_str(n % 10);
    s.append(d);
    proof {
        assert(s@ =~= old(s)@ + decimal_digits(n as int));
    }
}

/// Builds the composite booking key for a passenger and a train line.
pub fn make_booking_id(passenger_id: &str, train_line: u32) -> (r: String)
    ensures
        r@ == booking_key(passenger_id@, train_line),
{
    let mut s: String = passenger_id.to_owned();
    s.append("_");
    proof {
        reveal_strlit("_");
        assert(s@ =~= passenger_id@ + seq!['_']);
    }
    push_decimal(&mut s, train_line);
    s
}

} // verus!
