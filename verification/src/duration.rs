//! Elapsed-time formatting: minutes, seconds and milliseconds as a
//! colon-separated string with zero-padded fields.

use vstd::prelude::*;
use vstd::string::StringExecFns;

verus! {

/// The character of a single decimal digit.
pub open spec fn digit_char(d: int) -> char {
    ((48 + d) as u8) as char
}

/// Decimal representation of `n`, most significant digit first, no leading
/// zeroes (a lone zero for zero).
pub open spec fn dec_repr(n: nat) -> Seq<char>
    decreases n,
{
    if n < 10 {
        seq![digit_char(n as int)]
    } else {
        dec_repr(n / 10).push(digit_char((n % 10) as int))
    }
}

/// `s` left-padded with zeroes to at least two characters.
pub open spec fn pad2(s: Seq<char>) -> Seq<char> {
    if s.len() >= 2 {
        s
    } else {
        seq!['0'] + s
    }
}

/// `s` left-padded with zeroes to at least three characters.
pub open spec fn pad3(s: Seq<char>) -> Seq<char> {
    if s.len() >= 3 {
        s
    } else if s.len() == 2 {
        seq!['0'] + s
    } else {
        seq!['0', '0'] + s
    }
}

/// An elapsed time as `MM:SS:mmm`: zero-padded minutes, seconds and
/// milliseconds (minutes may take more than two digits).
pub open spec fn duration_repr(total_seconds: nat, subsec_millis: nat) -> Seq<char> {
    pad2(dec_repr(total_seconds / 60)) + seq![':'] + pad2(dec_repr(total_seconds % 60))
        + seq![':'] + pad3(dec_repr(subsec_millis))
}

fn digit_str(d: u64) -> (r: &'static str)
    requires
        d < 10,
    ensures
        r@ == seq![digit_char(d as int)],
{
    proof {
        reveal_strlit("0");
        reveal_strlit("1");
        reveal_strlit("2");
        reveal_strlit("3");
        reveal_strlit("4");
        reveal_strlit("5");
        reveal_strlit("6");
        reveal_strlit("7");
        reveal_strlit("8");
        reveal_strlit("9");
    }
    if d == 0 {
        proof {
            assert("0"@ =~= seq![digit_char(0)]);
        }
        "0"
    } else if d == 1 {
        proof {
            assert("1"@ =~= seq![digit_char(1)]);
        }
        "1"
    } else if d == 2 {
        proof {
            assert("2"@ =~= seq![digit_char(2)]);
        }
        "2"
    } else if d == 3 {
        proof {
            assert("3"@ =~= seq![digit_char(3)]);
        }
        "3"
    } else if d == 4 {
        proof {
            assert("4"@ =~= seq![digit_char(4)]);
        }
        "4"
    } else if d == 5 {
        proof {
            assert("5"@ =~= seq![digit_char(5)]);
        }
        "5"
    } else if d == 6 {
        proof {
            assert("6"@ =~= seq![digit_char(6)]);
        }
        "6"
    } else if d == 7 {
        proof {
            assert("7"@ =~= seq![digit_char(7)]);
        }
        "7"
    } else if d == 8 {
        proof {
            assert("8"@ =~= seq![digit_char(8)]);
        }
        "8"
    } else {
        proof {
            assert("9"@ =~= seq![digit_char(9)]);
        }
        "9"
    }
}

/// Decimal string of `n`, most significant digit first.
fn decimal_string(n: u64) -> (r: String)
    ensures
        r@ == dec_repr(n as nat),
    decreases n,
{
    if n < 10 {
        String::from_str(digit_str(n))
    } else {
        let mut s = decimal_string(n / 10);
        s.append(digit_str(n % 10));
        proof {
            assert(dec_repr((n / 10) as nat).push(digit_char((n % 10) as int)) =~= dec_repr(
                (n / 10) as nat,
            ) + seq![digit_char((n % 10) as int)]);
        }
        s
    }
}

/// If `n` is below ten its decimal representation is one character, else at
/// least two.
proof fn lemma_dec_repr_len(n: nat)
    ensures
        dec_repr(n).len() >= 1,
        n < 10 ==> dec_repr(n).len() == 1,
        n >= 10 ==> dec_repr(n).len() >= 2,
    decreases n,
{
    if n >= 10 {
        lemma_dec_repr_len(n / 10);
    }
}

/// Format an elapsed time given as whole seconds plus the millisecond part,
/// as minutes, seconds and milliseconds `MM:SS:mmm`, each field zero-padded.
pub fn format_duration(total_seconds: u64, subsec_millis: u32) -> (r: String)
    requires
        subsec_millis < 1000,
    ensures
        r@ == duration_repr(total_seconds as nat, subsec_millis as nat),
{
    proof {
        reveal_strlit(":");
        reveal_strlit("0");
        reveal_strlit("00");
        assert(":"@ =~= seq![':']);
        assert("0"@ =~= seq!['0']);
        assert("00"@ =~= seq!['0', '0']);
    }
    let minutes = total_seconds / 60;
    let seconds = total_seconds % 60;
    let millis = subsec_millis as u64;
    proof {
        lemma_dec_repr_len(minutes as nat);
        lemma_dec_repr_len(seconds as nat);
        lemma_dec_repr_len(millis as nat);
        if millis >= 10 {
            lemma_dec_repr_len((millis / 10) as nat);
        }
        assert(millis >= 100 ==> dec_repr(millis as nat).len() >= 3) by {
            if millis >= 100 {
                assert(dec_repr(millis as nat) == dec_repr((millis / 10) as nat).push(
                    digit_char((millis % 10) as int),
                ));
            }
        }
    }
    let mut out = String::new();
    if minutes < 10 {
        out.append("0");
    }
    let minutes_str = decimal_string(minutes);
    out.append(minutes_str.as_str());
    out.append(":");
    if seconds < 10 {
        out.append("0");
    }
    let seconds_str = decimal_string(seconds);
    out.append(seconds_str.as_str());
    out.append(":");
    if millis < 10 {
        out.append("00");
    } else if millis < 100 {
        out.append("0");
    }
    let millis_str = decimal_string(millis);
    out.append(millis_str.as_str());
    proof {
        assert(out@ =~= duration_repr(total_seconds as nat, subsec_millis as nat));
    }
    out
}

} // verus!
