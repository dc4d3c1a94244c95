use vstd::prelude::*;

verus! {

pub open spec fn is_digit(c: char) -> bool {
    48 <= (c as u32) && (c as u32) <= 57
}

pub open spec fn digit_of(c: char) -> int {
    (c as u32) as int - 48
}

pub open spec fn pow10(n: nat) -> int
    decreases n,
{
    if n == 0 {
        1
    } else {
        10 * pow10((n - 1) as nat)
    }
}

/// All of `s[i..i + n]` are decimal digits.
pub open spec fn digits_at(s: Seq<char>, i: int, n: int) -> bool {
    forall|k: int| i <= k < i + n ==> is_digit(#[trigger] s[k])
}

/// The number that the digits `s[i..i + n]` write.
pub open spec fn num_at(s: Seq<char>, i: int, n: int) -> int
    decreases n,
{
    if n <= 0 {
        0
    } else {
        num_at(s, i, n - 1) * 10 + digit_of(s[i + n - 1])
    }
}

pub open spec fn is_leap_year(y: int) -> bool {
    (y % 4 == 0 && y % 100 != 0) || y % 400 == 0
}

pub open spec fn days_in_month(y: int, m: int) -> int {
    if m == 2 {
        if is_leap_year(y) {
            29
        } else {
            28
        }
    } else if m == 4 || m == 6 || m == 9 || m == 11 {
        30
    } else {
        31
    }
}

/// The year of a timestamp written `YYYY-MM-DDTHH:MM:SSZ` (a leap second `:60` included),
/// or none when the text is not a valid timestamp of that form.
pub open spec fn timestamp_year(s: Seq<char>) -> Option<int> {
    if s.len() == 20 && digits_at(s, 0, 4) && s[4] == '-' && digits_at(s, 5, 2) && s[7] == '-'
        && digits_at(s, 8, 2) && s[10] == 'T' && digits_at(s, 11, 2) && s[13] == ':'
        && digits_at(s, 14, 2) && s[16] == ':' && digits_at(s, 17, 2) && s[19] == 'Z' && 1
        <= num_at(s, 5, 2) <= 12 && 1 <= num_at(s, 8, 2) <= days_in_month(
        num_at(s, 0, 4),
        num_at(s, 5, 2),
    ) && num_at(s, 11, 2) < 24 && num_at(s, 14, 2) < 60 && num_at(s, 17, 2) <= 60 {
        Some(num_at(s, 0, 4))
    } else {
        None
    }
}

fn read_num(s: &str, i: usize, n: usize) -> (r: Option<u64>)
    requires
        i + n <= s@.len(),
        i + n <= 20,
        n <= 4,
    ensures
        r is Some <==> digits_at(s@, i as int, n as int),
        r is Some ==> r->0 as int == num_at(s@, i as int, n as int),
        r is Some ==> r->0 < pow10(n as nat),
{
    let mut acc: u64 = 0;
    let mut k: usize = 0;
    while k < n
        invariant
            i + n <= s@.len(),
            i + n <= 20,
            n <= 4,
            k <= n,
            digits_at(s@, i as int, k as int),
            acc as int == num_at(s@, i as int, k as int),
            acc < pow10(k as nat),
            pow10(k as nat) <= 10000,
        decreases n - k,
    {
        let c = s.get_char(i + k);
        let code = c as u32;
        if code < 48 || code > 57 {
            return None;
        }
        proof {
            reveal_with_fuel(pow10, 5);
            assert(pow10((k + 1) as nat) == 10 * pow10(k as nat));
        }
        acc = acc * 10 + (code - 48) as u64;
        k = k + 1;
        proof {
            assert(pow10(k as nat) <= 10000) by {
                reveal_with_fuel(pow10, 5);
            }
        }
    }
    Some(acc)
}

fn is_leap(y: u64) -> (r: bool)
    ensures
        r == is_leap_year(y as int),
{
    (y % 4 == 0 && y % 100 != 0) || y % 400 == 0
}

/// The year of a timestamp `YYYY-MM-DDTHH:MM:SSZ`; none for any other text.
pub fn parse_timestamp_year(s: &str) -> (r: Option<i64>)
    ensures
        r is Some <==> timestamp_year(s@) is Some,
        r is Some ==> r->0 as int == timestamp_year(s@)->0,
{
    let len = s.unicode_len();
    if len != 20 {
        return None;
    }
    if s.get_char(4) != '-' || s.get_char(7) != '-' || s.get_char(10) != 'T' || s.get_char(13)
        != ':' || s.get_char(16) != ':' || s.get_char(19) != 'Z' {
        return None;
    }
    let y = match read_num(s, 0, 4) {
        Some(v) => v,
        None => return None,
    };
    let mo = match read_num(s, 5, 2) {
        Some(v) => v,
        None => return None,
    };
    let d = match read_num(s, 8, 2) {
        Some(v) => v,
        None => return None,
    };
    let h = match read_num(s, 11, 2) {
        Some(v) => v,
        None => return None,
    };
    let mi = match read_num(s, 14, 2) {
        Some(v) => v,
        None => return None,
    };
    let sec = match read_num(s, 17, 2) {
        Some(v) => v,
        None => return None,
    };
    let dim: u64 = if mo == 2 {
        if is_leap(y) {
            29
        } else {
            28
        }
    } else if mo == 4 || mo == 6 || mo == 9 || mo == 11 {
        30
    } else {
        31
    };
    if mo < 1 || mo > 12 || d < 1 || d > dim || h >= 24 || mi >= 60 || sec > 60 {
        return None;
    }
    proof {
        reveal_with_fuel(pow10, 5);
    }
    Some(y as i64)
}

} // verus!
