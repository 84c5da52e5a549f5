//! Decimal reading and writing of item ids.
//!
//! An item id is carried in a map file as the decimal string form of a `u32`.
//! The read pass turns that string into the number, and the write pass turns a
//! number back into its string. Both directions are specified here, together
//! with the round-trip law that writing then reading gives the number back.
use vstd::prelude::*;
use vstd::string::StringExecFns;

verus! {

/// The ten ASCII decimal digit characters.
pub open spec fn is_digit(c: char) -> bool {
    48 <= c as u32 && c as u32 <= 57
}

/// Numeric value of a decimal digit character.
pub open spec fn digit_val(c: char) -> int {
    c as u32 - 48
}

/// The decimal digit character of a value below ten.
pub open spec fn digit_char(d: int) -> char {
    if d == 0 {
        '0'
    } else if d == 1 {
        '1'
    } else if d == 2 {
        '2'
    } else if d == 3 {
        '3'
    } else if d == 4 {
        '4'
    } else if d == 5 {
        '5'
    } else if d == 6 {
        '6'
    } else if d == 7 {
        '7'
    } else if d == 8 {
        '8'
    } else {
        '9'
    }
}

/// Every character of the sequence is a decimal digit.
pub open spec fn all_digits(s: Seq<char>) -> bool {
    forall|i: int| 0 <= i < s.len() ==> is_digit(#[trigger] s[i])
}

/// The value of a digit sequence read in base ten.
pub open spec fn digits_val(s: Seq<char>) -> int
    decreases s.len(),
{
    if s.len() == 0 {
        0
    } else {
        10 * digits_val(s.drop_last()) + digit_val(s.last())
    }
}

/// What `str::parse::<u32>` accepts: an optional leading plus sign, then at
/// least one decimal digit, denoting a value that fits in a `u32`.
pub open spec fn parse_u32_spec(s: Seq<char>) -> Option<u32> {
    let body = if s.len() > 0 && s[0] == '+' {
        s.drop_first()
    } else {
        s
    };
    if body.len() > 0 && all_digits(body) && digits_val(body) <= u32::MAX {
        Some(digits_val(body) as u32)
    } else {
        None
    }
}

/// The canonical decimal rendering of a `u32`: no sign, no leading zero.
pub open spec fn fmt_u32(n: u32) -> Seq<char>
    decreases n,
{
    if n < 10 {
        seq![digit_char(n as int)]
    } else {
        fmt_u32(n / 10).push(digit_char((n % 10) as int))
    }
}

/// A string that is exactly the canonical decimal form of some `u32`.
pub open spec fn canonical_u32(s: Seq<char>) -> bool {
    parse_u32_spec(s) matches Some(v) && fmt_u32(v) == s
}

/// A digit sequence is worth no less than any of its prefixes.
proof fn lemma_digits_val_prefix(s: Seq<char>, k: int)
    requires
        all_digits(s),
        0 <= k <= s.len(),
    ensures
        0 <= digits_val(s.take(k)) <= digits_val(s),
    decreases s.len(),
{
    if s.len() == 0 {
        assert(s.take(k) == s);
    } else if k == s.len() {
        lemma_digits_val_prefix(s.drop_last(), s.len() - 1);
        assert(s.take(k) == s);
    } else {
        assert(s.drop_last().take(k) == s.take(k));
        assert(all_digits(s.drop_last()));
        lemma_digits_val_prefix(s.drop_last(), k);
    }
}

/// Parses a decimal string as `str::parse::<u32>` would: `Some` exactly when
/// the string is an optional plus sign followed by digits whose value fits.
pub fn parse_u32(s: &str) -> (r: Option<u32>)
    ensures
        r == parse_u32_spec(s@),
{
    let n = s.unicode_len();
    let start: usize = if n > 0 && s.get_char(0) == '+' {
        1
    } else {
        0
    };
    let ghost body = if s@.len() > 0 && s@[0] == '+' {
        s@.drop_first()
    } else {
        s@
    };
    assert(body == s@.skip(start as int));
    if start >= n {
        return None;
    }
    let mut acc: u32 = 0;
    let mut i: usize = start;
    while i < n
        invariant
            start <= i <= n,
            n == s@.len(),
            start <= 1,
            body == s@.skip(start as int),
            body == (if s@.len() > 0 && s@[0] == '+' {
                s@.drop_first()
            } else {
                s@
            }),
            all_digits(body.take(i - start)),
            acc == digits_val(body.take(i - start)),
        decreases n - i,
    {
        let c = s.get_char(i);
        let u = c as u32;
        if u < 48 || u > 57 {
            proof {
                assert(body[i - start] == s@[i as int]);
                assert(!is_digit(body[i - start]));
                assert(!all_digits(body));
                assert(parse_u32_spec(s@) is None);
            }
            return None;
        }
        let d = u - 48;
        let ghost taken = body.take(i + 1 - start);
        assert(taken.drop_last() == body.take(i - start));
        assert(taken.last() == body[i - start]);
        if acc > (u32::MAX - d) / 10 {
            // the value read so far already exceeds u32::MAX, and appending
            // further digits cannot shrink it
            proof {
                assert(10 * acc + d > u32::MAX) by (nonlinear_arith)
                    requires
                        acc > (u32::MAX - d) / 10,
                        d < 10,
                ;
                assert(digits_val(taken) == 10 * acc + d);
                if all_digits(body) {
                    lemma_digits_val_prefix(body, i + 1 - start);
                    assert(body.take(body.len() as int) == body);
                    assert(digits_val(body) > u32::MAX);
                }
                assert(parse_u32_spec(s@) is None);
            }
            return None;
        }
        proof {
            assert(10 * acc + d <= u32::MAX) by (nonlinear_arith)
                requires
                    acc <= (u32::MAX - d) / 10,
                    d < 10,
            ;
        }
        acc = acc * 10 + d;
        i = i + 1;
    }
    proof {
        assert(body.take(i - start) == body);
    }
    Some(acc)
}

/// The one-character string of a decimal digit.
fn digit_str(d: u32) -> (r: &'static str)
    requires
        d < 10,
    ensures
        r@ == seq![digit_char(d as int)],
{
    proof {
        reveal_strlit("0");
        reveal_strlit("1");
        reveal_strlit("2");
        reveal_strlit("3");
        reveal_strlit("4");
        reveal_strlit("5");
        reveal_strlit("6");
        reveal_strlit("7");
        reveal_strlit("8");
        reveal_strlit("9");
    }
    let r = match d {
        0 => "0",
        1 => "1",
        2 => "2",
        3 => "3",
        4 => "4",
        5 => "5",
        6 => "6",
        7 => "7",
        8 => "8",
        _ => "9",
    };
    proof {
        assert(r@ =~= seq![digit_char(d as int)]);
    }
    r
}

/// Writes a `u32` in its canonical decimal form, as `u32::to_string` does.
pub fn u32_to_string(n: u32) -> (r: String)
    ensures
        r@ == fmt_u32(n),
    decreases n,
{
    if n < 10 {
        let r = digit_str(n).to_owned();
        proof {
            assert(r@ =~= fmt_u32(n));
        }
        r
    } else {
        let q = n / 10;
        let d = n % 10;
        assert(q < n);
        let mut r = u32_to_string(q);
        r.append(digit_str(d));
        proof {
            assert(r@ =~= fmt_u32(n));
        }
        r
    }
}

/// Decides whether a string is the canonical decimal form of some `u32`.
pub fn is_canonical_u32(s: &str) -> (r: bool)
    ensures
        r == canonical_u32(s@),
{
    match parse_u32(s) {
        None => false,
        Some(v) => {
            let rendered = u32_to_string(v);
            rendered == s.to_owned()
        },
    }
}

/// The canonical form of a `u32` is all digits, reads back to the same value,
/// and never starts with a sign.
pub proof fn lemma_fmt_digits(n: u32)
    ensures
        all_digits(fmt_u32(n)),
        digits_val(fmt_u32(n)) == n,
        fmt_u32(n).len() >= 1,
    decreases n,
{
    if n < 10 {
        let s = fmt_u32(n);
        assert(s == seq![digit_char(n as int)]);
        assert(s.drop_last() =~= Seq::<char>::empty());
        assert(digits_val(s.drop_last()) == 0);
        assert(digits_val(s) == digit_val(digit_char(n as int)));
    } else {
        lemma_fmt_digits(n / 10);
        let s = fmt_u32(n);
        assert(s == fmt_u32(n / 10).push(digit_char((n % 10) as int)));
        assert(s.drop_last() == fmt_u32(n / 10));
        assert(s.last() == digit_char((n % 10) as int));
        assert(digits_val(s) == 10 * digits_val(fmt_u32(n / 10)) + digit_val(digit_char((n % 10) as int)));
        assert forall|i: int| 0 <= i < s.len() implies is_digit(#[trigger] s[i]) by {
            if i < s.len() - 1 {
                assert(s[i] == fmt_u32(n / 10)[i]);
            }
        }
    }
}

/// Round trip: writing a `u32` and reading it back gives the same value, so
/// every written id string is canonical.
pub proof fn lemma_parse_fmt(n: u32)
    ensures
        parse_u32_spec(fmt_u32(n)) == Some(n),
        canonical_u32(fmt_u32(n)),
{
    lemma_fmt_digits(n);
    let s = fmt_u32(n);
    assert(is_digit(s[0]));
    assert(s[0] != '+');
}

} // verus!
