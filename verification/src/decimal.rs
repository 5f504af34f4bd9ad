//! Decimal notation of integers: printing and reading.
use vstd::prelude::*;
use crate::text::chars_of;

verus! {

/// The character of a digit below ten.
pub open spec fn digit(d: int) -> char {
    (d + 48) as char
}

/// Whether `c` is one of `0` to `9`.
pub open spec fn is_digit(c: char) -> bool {
    '0' <= c <= '9'
}

/// The decimal digits of `n`, without leading zeros.
pub open spec fn nat_text(n: nat) -> Seq<char>
    decreases n,
{
    if n < 10 {
        seq![digit(n as int)]
    } else {
        nat_text(n / 10).push(digit((n % 10) as int))
    }
}

/// The decimal notation of an integer.
pub open spec fn int_text(x: int) -> Seq<char> {
    if x < 0 {
        seq!['-'] + nat_text((-x) as nat)
    } else {
        nat_text(x as nat)
    }
}

/// The number a run of digits stands for.
pub open spec fn digits_value(s: Seq<char>) -> nat
    decreases s.len(),
{
    if s.len() == 0 {
        0
    } else {
        digits_value(s.drop_last()) * 10 + (s.last() as nat - 48) as nat
    }
}

/// Whether `s` is digits throughout, and at least one.
pub open spec fn all_digits(s: Seq<char>) -> bool {
    s.len() > 0 && forall|i: int| 0 <= i < s.len() ==> is_digit(#[trigger] s[i])
}

/// The integer that `s` denotes: an optional sign in front of one digit or more.
pub open spec fn int_value(s: Seq<char>) -> Option<int> {
    if s.len() > 0 && (s[0] == '+' || s[0] == '-') {
        if all_digits(s.skip(1)) {
            Some(
                if s[0] == '-' {
                    -(digits_value(s.skip(1)) as int)
                } else {
                    digits_value(s.skip(1)) as int
                },
            )
        } else {
            None
        }
    } else if all_digits(s) {
        Some(digits_value(s) as int)
    } else {
        None
    }
}

/// The characters of `n` in decimal.
fn nat_chars(n: u64) -> (r: Vec<char>)
    ensures
        r@ == nat_text(n as nat),
    decreases n,
{
    if n < 10 {
        let mut out: Vec<char> = Vec::new();
        out.push(digit_char(n));
        out
    } else {
        let mut out = nat_chars(n / 10);
        out.push(digit_char(n % 10));
        out
    }
}

fn digit_char(d: u64) -> (r: char)
    requires
        d < 10,
    ensures
        r == digit(d as int),
{
    (d as u8 + 48) as char
}

/// Print an unsigned integer.
pub fn show(n: u64) -> (r: String)
    ensures
        r@ == nat_text(n as nat),
{
    let v = nat_chars(n);
    let out = crate::text::string_of(&v, 0, v.len());
    assert(v@.subrange(0, v.len() as int) =~= v@);
    out
}

/// The largest magnitude that [`parse_int`] tells apart from larger ones.
pub const INT_LIMIT: i128 = 1_000_000_000_000_000_000_000_000;

/// The value of `v[from..]` where it is digits throughout; a value above the limit is reported as
/// the limit.
fn digits_from(v: &Vec<char>, from: usize) -> (r: Option<i128>)
    requires
        from <= v.len(),
    ensures
        match r {
            Some(n) => all_digits(v@.skip(from as int)) && 0 <= n <= INT_LIMIT && (n < INT_LIMIT ==> n
                == digits_value(v@.skip(from as int))) && (n == INT_LIMIT ==> digits_value(
                v@.skip(from as int),
            ) >= INT_LIMIT),
            None => !all_digits(v@.skip(from as int)),
        },
{
    let ghost s = v@.skip(from as int);
    if from >= v.len() {
        return None;
    }
    let mut i: usize = from;
    while i < v.len()
        invariant
            from <= i <= v.len(),
            s == v@.skip(from as int),
            forall|k: int| 0 <= k < i - from ==> is_digit(#[trigger] s[k]),
        decreases v.len() - i,
    {
        if !('0' <= v[i] && v[i] <= '9') {
            assert(!is_digit(s[i - from]));
            return None;
        }
        assert(s[i - from] == v@[i as int]);
        i = i + 1;
    }
    assert(all_digits(s));
    let mut n: i128 = 0;
    let mut j: usize = from;
    assert(s.take(0) =~= Seq::<char>::empty());
    while j < v.len()
        invariant
            from <= j <= v.len(),
            s == v@.skip(from as int),
            all_digits(s),
            0 <= n <= INT_LIMIT,
            n < INT_LIMIT ==> n == digits_value(s.take(j - from)),
            n == INT_LIMIT ==> digits_value(s.take(j - from)) >= INT_LIMIT,
        decreases v.len() - j,
    {
        proof {
            assert(s.take(j - from + 1).drop_last() =~= s.take(j - from));
            assert(s.take(j - from + 1).last() == v@[j as int]);
            assert(is_digit(s[j - from]));
        }
        if n < INT_LIMIT {
            let d: i128 = v[j] as u32 as i128 - 48;
            n = n * 10 + d;
            if n > INT_LIMIT {
                n = INT_LIMIT;
            }
        }
        j = j + 1;
    }
    assert(s.take(v.len() - from) =~= s);
    Some(n)
}

/// Read an integer; one whose magnitude reaches the limit is reported as that limit with its
/// sign.
pub fn parse_int(s: &str) -> (r: Option<i128>)
    ensures
        match r {
            Some(n) => int_value(s@) is Some && -INT_LIMIT <= n <= INT_LIMIT && (-INT_LIMIT < n
                < INT_LIMIT ==> int_value(s@) == Some(n as int)) && (n == INT_LIMIT ==> int_value(
                s@,
            )->0 >= INT_LIMIT) && (n == -INT_LIMIT ==> int_value(s@)->0 <= -INT_LIMIT),
            None => int_value(s@) is None,
        },
{
    let v = chars_of(s);
    assert(v@.skip(0) =~= v@);
    if v.len() > 0 && (v[0] == '+' || v[0] == '-') {
        match digits_from(&v, 1) {
            Some(n) => if v[0] == '-' {
                Some(-n)
            } else {
                Some(n)
            },
            None => None,
        }
    } else {
        digits_from(&v, 0)
    }
}

/// Read an `i64`: an optional sign and digits, within range.
pub fn parse_i64(s: &str) -> (r: Option<i64>)
    ensures
        match r {
            Some(n) => int_value(s@) == Some(n as int),
            None => !(int_value(s@) matches Some(x) && i64::MIN <= x <= i64::MAX),
        },
{
    match parse_int(s) {
        Some(n) => if i64::MIN as i128 <= n && n <= i64::MAX as i128 {
            Some(n as i64)
        } else {
            None
        },
        None => None,
    }
}

/// Read a `u64` as `str::parse` does: an optional plus sign and digits, within range.
pub fn parse_u64(s: &str) -> (r: Option<u64>)
    ensures
        match r {
            Some(n) => unsigned_value(s@) == Some(n as nat),
            None => !(unsigned_value(s@) matches Some(x) && x <= u64::MAX),
        },
{
    let v = chars_of(s);
    if v.len() > 0 && v[0] == '-' {
        return None;
    }
    match parse_int(s) {
        Some(n) => if 0 <= n && n <= u64::MAX as i128 {
            Some(n as u64)
        } else {
            None
        },
        None => None,
    }
}

/// The natural number that `s` denotes: an optional plus sign in front of one digit or more.
pub open spec fn unsigned_value(s: Seq<char>) -> Option<nat> {
    if s.len() > 0 && s[0] == '-' {
        None
    } else {
        match int_value(s) {
            Some(x) => Some(x as nat),
            None => None,
        }
    }
}

/// Print a signed integer.
pub fn show_int(x: i64) -> (r: String)
    ensures
        r@ == int_text(x as int),
{
    if x < 0 {
        let digits = show((-(x as i128)) as u64);
        proof {
            reveal_strlit("-");
            assert("-"@ =~= seq!['-']);
        }
        crate::text::cat2("-", &digits)
    } else {
        show(x as u64)
    }
}

/// Reading back what was printed gives the number again.
pub proof fn law_print_then_read(n: nat)
    ensures
        all_digits(nat_text(n)),
        digits_value(nat_text(n)) == n,
        int_value(nat_text(n)) == Some(n as int),
    decreases n,
{
    if n < 10 {
        let s = nat_text(n);
        assert(s.drop_last() =~= Seq::<char>::empty());
        assert(digits_value(s.drop_last()) == 0);
        assert(s.last() as nat == n + 48);
    } else {
        law_print_then_read(n / 10);
        let s = nat_text(n);
        let d = nat_text(n / 10);
        assert(s.drop_last() =~= d);
        assert forall|i: int| 0 <= i < s.len() implies is_digit(#[trigger] s[i]) by {
            if i < d.len() {
                assert(s[i] == d[i]);
            }
        }
        assert(s.last() as nat == n % 10 + 48);
    }
    assert(is_digit(nat_text(n)[0]));
}

/// The same of signed integers.
pub proof fn law_print_then_read_signed(x: int)
    ensures
        int_value(int_text(x)) == Some(x),
{
    if x < 0 {
        law_print_then_read((-x) as nat);
        let s = int_text(x);
        assert(s[0] == '-');
        assert(s.skip(1) =~= nat_text((-x) as nat));
    } else {
        law_print_then_read(x as nat);
    }
}

} // verus!
