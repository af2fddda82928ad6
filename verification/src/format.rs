use vstd::prelude::*;
use vstd::string::StringExecFns;

verus! {

/// The decimal digit `d` as a one-character string.
pub open spec fn digit_seq(d: nat) -> Seq<char> {
    if d == 0 {
        "0"@
    } else if d == 1 {
        "1"@
    } else if d == 2 {
        "2"@
    } else if d == 3 {
        "3"@
    } else if d == 4 {
        "4"@
    } else if d == 5 {
        "5"@
    } else if d == 6 {
        "6"@
    } else if d == 7 {
        "7"@
    } else if d == 8 {
        "8"@
    } else {
        "9"@
    }
}

/// The decimal digits of `n`, most significant first.
pub open spec fn dec_rep(n: nat) -> Seq<char>
    decreases n,
{
    if n < 10 {
        digit_seq(n)
    } else {
        dec_rep(n / 10) + digit_seq(n % 10)
    }
}

/// The base-1024 unit labels, from bytes up to terabytes.
pub open spec fn unit_label(i: nat) -> Seq<char> {
    if i == 0 {
        "Bytes"@
    } else if i == 1 {
        "KB"@
    } else if i == 2 {
        "MB"@
    } else if i == 3 {
        "GB"@
    } else {
        "TB"@
    }
}

/// The unit index of a byte count: the floor of its base-1024 logarithm,
/// clamped to the unit table.
pub open spec fn unit_index(bytes: nat) -> nat {
    if bytes < 1024 {
        0
    } else if bytes < 1048576 {
        1
    } else if bytes < 1073741824 {
        2
    } else if bytes < 1099511627776 {
        3
    } else {
        4
    }
}

/// 1024 raised to the unit index.
pub open spec fn unit_divisor(i: nat) -> nat {
    if i == 0 {
        1
    } else if i == 1 {
        1024
    } else if i == 2 {
        1048576
    } else if i == 3 {
        1073741824
    } else {
        1099511627776
    }
}

/// The byte count scaled to its unit and rounded to tenths, half upward.
pub open spec fn scaled_tenths(bytes: nat) -> nat {
    let d = unit_divisor(unit_index(bytes));
    (bytes * 10 + d / 2) / d
}

/// The human-readable form of a byte count: `"0 Bytes"` for zero, otherwise
/// the count scaled by the largest fitting power of 1024, written to one
/// decimal place and followed by the unit label.
pub open spec fn spec_convert_bytes(bytes: nat) -> Seq<char> {
    if bytes == 0 {
        "0 Bytes"@
    } else {
        let t = scaled_tenths(bytes);
        dec_rep(t / 10) + "."@ + digit_seq(t % 10) + " "@ + unit_label(unit_index(bytes))
    }
}

/// Appends the one decimal digit `d`.
fn push_digit(s: &mut String, d: u64)
    requires
        d < 10,
    ensures
        final(s)@ == old(s)@ + digit_seq(d as nat),
{
    if d == 0 {
        s.append("0");
    } else if d == 1 {
        s.append("1");
    } else if d == 2 {
        s.append("2");
    } else if d == 3 {
        s.append("3");
    } else if d == 4 {
        s.append("4");
    } else if d == 5 {
        s.append("5");
    } else if d == 6 {
        s.append("6");
    } else if d == 7 {
        s.append("7");
    } else if d == 8 {
        s.append("8");
    } else {
        s.append("9");
    }
}

/// Appends the decimal digits of `n`.
fn push_number(s: &mut String, n: u64)
    ensures
        final(s)@ == old(s)@ + dec_rep(n as nat),
    decreases n,
{
    if n < 10 {
        push_digit(s, n);
    } else {
        push_number(s, n / 10);
        push_digit(s, n % 10);
        proof {
            assert(old(s)@ + dec_rep(n as nat) =~= old(s)@ + dec_rep(n as nat / 10) + digit_seq(
                n as nat % 10,
            ));
        }
    }
}

/// Formats a byte count for people, in base-1024 units from Bytes to TB:
/// zero is exactly `"0 Bytes"`, anything else is scaled by the largest
/// fitting power of 1024 and written to one decimal place, as in `"1.5 KB"`.
pub fn convert_bytes(bytes: u64) -> (r: String)
    ensures
        r@ == spec_convert_bytes(bytes as nat),
{
    if bytes == 0 {
        let mut s = String::new();
        s.append("0 Bytes");
        proof {
            assert(s@ =~= "0 Bytes"@);
        }
        s
    } else {
        let d: u64 = if bytes < 1024 {
            1
        } else if bytes < 1048576 {
            1024
        } else if bytes < 1073741824 {
            1048576
        } else if bytes < 1099511627776 {
            1073741824
        } else {
            1099511627776
        };
        assert(d == unit_divisor(unit_index(bytes as nat)));
        let t_wide: u128 = (bytes as u128 * 10 + d as u128 / 2) / (d as u128);
        proof {
            assert(t_wide == scaled_tenths(bytes as nat)) by (nonlinear_arith)
                requires
                    t_wide == (bytes as int * 10 + d as int / 2) / (d as int),
                    d == unit_divisor(unit_index(bytes as nat)),
                    d >= 1,
            ;
            assert(t_wide <= bytes as int * 10) by (nonlinear_arith)
                requires
                    t_wide == (bytes as int * 10 + d as int / 2) / (d as int),
                    d >= 1,
            ;
        }
        let t: u64 = if bytes < 1024 {
            proof {
                assert(t_wide == bytes as int * 10) by (nonlinear_arith)
                    requires
                        t_wide == (bytes as int * 10 + d as int / 2) / (d as int),
                        d == 1,
                ;
            }
            (bytes * 10) as u64
        } else {
            proof {
                assert(t_wide <= u64::MAX as u128) by (nonlinear_arith)
                    requires
                        t_wide == (bytes as int * 10 + d as int / 2) / (d as int),
                        d >= 1024,
                        bytes <= u64::MAX,
                ;
            }
            t_wide as u64
        };
        assert(t == scaled_tenths(bytes as nat));
        let mut s = String::new();
        push_number(&mut s, t / 10);
        s.append(".");
        push_digit(&mut s, t % 10);
        s.append(" ");
        if bytes < 1024 {
            s.append("Bytes");
        } else if bytes < 1048576 {
            s.append("KB");
        } else if bytes < 1073741824 {
            s.append("MB");
        } else if bytes < 1099511627776 {
            s.append("GB");
        } else {
            s.append("TB");
        }
        proof {
            assert(s@ =~= spec_convert_bytes(bytes as nat));
        }
        s
    }
}

} // verus!
