//! Lengths of time as short text such as `1d 2h 3m 4s`.

use crate::printable::push_char;
use vstd::prelude::*;

verus! {

pub open spec fn digit_char(d: int) -> char {
    if d == 0 {
        '0'
    } else if d == 1 {
        '1'
    } else if d == 2 {
        '2'
    } else if d == 3 {
        '3'
    } else if d == 4 {
        '4'
    } else if d == 5 {
        '5'
    } else if d == 6 {
        '6'
    } else if d == 7 {
        '7'
    } else if d == 8 {
        '8'
    } else {
        '9'
    }
}

/// The decimal digits of a natural number, without leading zeros.
pub open spec fn decimal_text(n: nat) -> Seq<char>
    decreases n,
{
    if n < 10 {
        seq![digit_char(n as int)]
    } else {
        decimal_text(n / 10) + seq![digit_char((n % 10) as int)]
    }
}

fn push_decimal(out: &mut String, n: u128)
    ensures
        final(out)@ == old(out)@ + decimal_text(n as nat),
    decreases n,
{
    if n >= 10 {
        push_decimal(out, n / 10);
    }
    let d = n % 10;
    let c = if d == 0 {
        '0'
    } else if d == 1 {
        '1'
    } else if d == 2 {
        '2'
    } else if d == 3 {
        '3'
    } else if d == 4 {
        '4'
    } else if d == 5 {
        '5'
    } else if d == 6 {
        '6'
    } else if d == 7 {
        '7'
    } else if d == 8 {
        '8'
    } else {
        '9'
    };
    let ghost before = out@;
    push_char(out, c);
    proof {
        if n < 10 {
            assert(d == n);
        }
        assert(out@ =~= old(out)@ + decimal_text(n as nat));
    }
}

/// A length of time in nanoseconds as days, hours, minutes and seconds,
/// each unit but seconds only when above zero (`1d 0h` is written `1d 5s`,
/// say). Fractions of a second are dropped; a negative length shows only
/// its whole seconds, with a minus sign.
pub open spec fn time_delta_text(nanos: int) -> Seq<char> {
    if nanos < 0 {
        let k = (-nanos) / 1_000_000_000;
        if k == 0 {
            seq!['0', 's']
        } else {
            seq!['-'] + decimal_text(k as nat) + seq!['s']
        }
    } else {
        let s = nanos / 1_000_000_000;
        let d = s / 86400;
        let h = (s % 86400) / 3600;
        let m = (s % 3600) / 60;
        let sec = s % 60;
        (if d > 0 {
            decimal_text(d as nat) + seq!['d', ' ']
        } else {
            Seq::empty()
        }) + (if h > 0 {
            decimal_text(h as nat) + seq!['h', ' ']
        } else {
            Seq::empty()
        }) + (if m > 0 {
            decimal_text(m as nat) + seq!['m', ' ']
        } else {
            Seq::empty()
        }) + decimal_text(sec as nat) + seq!['s']
    }
}

/// Writes a length of time given in nanoseconds.
pub fn format_time_delta(nanos: i128) -> (r: String)
    requires
        nanos > i128::MIN,
    ensures
        r@ == time_delta_text(nanos as int),
{
    let mut out = String::new();
    if nanos < 0 {
        let k = ((-nanos) / 1_000_000_000) as u128;
        if k == 0 {
            push_char(&mut out, '0');
            push_char(&mut out, 's');
            proof {
                assert(out@ =~= seq!['0', 's']);
            }
        } else {
            push_char(&mut out, '-');
            push_decimal(&mut out, k);
            push_char(&mut out, 's');
            proof {
                assert(out@ =~= seq!['-'] + decimal_text(k as nat) + seq!['s']);
            }
        }
        return out;
    }
    let s = (nanos / 1_000_000_000) as u128;
    let d = s / 86400;
    let h = (s % 86400) / 3600;
    let m = (s % 3600) / 60;
    let sec = s % 60;
    let ghost t0 = out@;
    if d > 0 {
        push_decimal(&mut out, d);
        push_char(&mut out, 'd');
        push_char(&mut out, ' ');
    }
    let ghost t1 = out@;
    if h > 0 {
        push_decimal(&mut out, h);
        push_char(&mut out, 'h');
        push_char(&mut out, ' ');
    }
    let ghost t2 = out@;
    if m > 0 {
        push_decimal(&mut out, m);
        push_char(&mut out, 'm');
        push_char(&mut out, ' ');
    }
    let ghost t3 = out@;
    push_decimal(&mut out, sec);
    push_char(&mut out, 's');
    proof {
        assert(t1 =~= t0 + (if d > 0 { decimal_text(d as nat) + seq!['d', ' '] } else { Seq::empty() }));
        assert(t2 =~= t1 + (if h > 0 { decimal_text(h as nat) + seq!['h', ' '] } else { Seq::empty() }));
        assert(t3 =~= t2 + (if m > 0 { decimal_text(m as nat) + seq!['m', ' '] } else { Seq::empty() }));
        assert(out@ =~= time_delta_text(nanos as int));
    }
    out
}

} // verus!
