use vstd::prelude::*;
use vstd::string::StrSliceExecFns;

use crate::fmt::{push_str, string_from_chars};

verus! {

/// Why a memory statistic could not be determined.
#[derive(Debug)]
pub enum MemError {
    InvalidStat(String),
    MemInfo,
    Clear,
    Internal,
}

impl MemError {
    /// The error's message.
    pub open spec fn message_text(e: MemError) -> Seq<char> {
        match e {
            MemError::InvalidStat(key) => "stat for `"@ + key@ + "` not found"@,
            MemError::MemInfo => "could not find system memory information"@,
            MemError::Clear => "could not clear memory HWM"@,
            MemError::Internal => "an internal error occurred"@,
        }
    }

    /// Returns the error's message.
    pub fn message(&self) -> (s: String)
        ensures
            s@ == Self::message_text(*self),
    {
        let mut out: Vec<char> = Vec::new();
        match self {
            MemError::InvalidStat(key) => {
                push_str(&mut out, "stat for `");
                push_str(&mut out, key.as_str());
                push_str(&mut out, "` not found");
            },
            MemError::MemInfo => push_str(&mut out, "could not find system memory information"),
            MemError::Clear => push_str(&mut out, "could not clear memory HWM"),
            MemError::Internal => push_str(&mut out, "an internal error occurred"),
        }
        proof {
            assert(out@ =~= Self::message_text(*self));
        }
        string_from_chars(&out)
    }
}

/// Whether a character is white space (the Unicode `White_Space` property).
pub open spec fn is_space(c: char) -> bool {
    let u = c as u32;
    (0x9 <= u && u <= 0xd) || u == 0x20 || u == 0x85 || u == 0xa0 || u == 0x1680 || (0x2000 <= u
        && u <= 0x200a) || u == 0x2028 || u == 0x2029 || u == 0x202f || u == 0x205f || u == 0x3000
}

fn space(c: char) -> (r: bool)
    ensures
        r == is_space(c),
{
    let u = c as u32;
    (0x9 <= u && u <= 0xd) || u == 0x20 || u == 0x85 || u == 0xa0 || u == 0x1680 || (0x2000 <= u
        && u <= 0x200a) || u == 0x2028 || u == 0x2029 || u == 0x202f || u == 0x205f || u == 0x3000
}

/// Text without its leading and trailing white space.
pub open spec fn trimmed(s: Seq<char>) -> Seq<char>
    decreases s.len(),
{
    if s.len() == 0 {
        s
    } else if is_space(s[0]) {
        trimmed(s.drop_first())
    } else if is_space(s.last()) {
        trimmed(s.drop_last())
    } else {
        s
    }
}

/// The value of a string of decimal digits.
pub open spec fn digits_value(s: Seq<char>) -> nat
    decreases s.len(),
{
    if s.len() == 0 {
        0
    } else {
        digits_value(s.drop_last()) * 10 + (s.last() as nat - 48) as nat
    }
}

pub open spec fn is_digit(c: char) -> bool {
    '0' <= c && c <= '9'
}

/// The number that `u64`'s parser reads from text: an optional `+`, then
/// one or more decimal digits whose value fits in 64 bits.
/// The digits of a number's text: the text without a leading `+`.
pub open spec fn unsigned_digits(s: Seq<char>) -> Seq<char> {
    if s.len() > 0 && s[0] == '+' {
        s.drop_first()
    } else {
        s
    }
}

pub open spec fn parsed_u64(s: Seq<char>) -> Option<u64> {
    let d = unsigned_digits(s);
    if d.len() > 0 && (forall|i: int| 0 <= i < d.len() ==> is_digit(#[trigger] d[i])) && digits_value(
        d,
    ) <= u64::MAX {
        Some(digits_value(d) as u64)
    } else {
        None
    }
}

/// Reads an unsigned 64-bit number from text, as `u64`'s parser does.
pub fn parse_u64(s: &Vec<char>) -> (r: Option<u64>)
    ensures
        r == parsed_u64(s@),
{
    let n = s.len();
    let start: usize = if n > 0 && s[0] == '+' {
        1
    } else {
        0
    };
    let ghost d = s@.subrange(start as int, n as int);
    proof {
        assert(d =~= unsigned_digits(s@));
    }
    if start >= n {
        return None;
    }
    let mut value: u64 = 0;
    let mut i = start;
    while i < n
        invariant
            start <= i <= n,
            n == s@.len(),
            d == s@.subrange(start as int, n as int),
            d == unsigned_digits(s@),
            forall|k: int| 0 <= k < i - start ==> is_digit(#[trigger] d[k]),
            value == digits_value(d.subrange(0, i - start)),
        decreases n - i,
    {
        let c = s[i];
        proof {
            assert(d[i - start] == c);
        }
        if !('0' <= c && c <= '9') {
            proof {
                assert(!is_digit(d[i - start]));
            }
            return None;
        }
        let digit = (c as u32 - 48) as u64;
        proof {
            lemma_digits_grow(d, i - start);
            lemma_mul10(value, digit);
        }
        if value > (u64::MAX - digit) / 10 {
            proof {
                assert(digits_value(d) > u64::MAX);
            }
            return None;
        }
        value = value * 10 + digit;
        i = i + 1;
    }
    proof {
        assert(d.subrange(0, d.len() as int) =~= d);
    }
    Some(value)
}

proof fn lemma_mul10(value: u64, digit: u64)
    requires
        digit <= 9,
    ensures
        value > (u64::MAX - digit) / 10 <==> value * 10 + digit > u64::MAX,
{
    assert(value > (u64::MAX - digit) / 10 <==> value * 10 + digit > u64::MAX) by (nonlinear_arith)
        requires
            digit <= 9,
    ;
}

/// A longer string of digits is worth at least as much as its prefix,
/// shifted by a digit.
proof fn lemma_digits_grow(d: Seq<char>, k: int)
    requires
        0 <= k < d.len(),
    ensures
        digits_value(d) >= digits_value(d.subrange(0, k + 1)),
        digits_value(d.subrange(0, k + 1)) == digits_value(d.subrange(0, k)) * 10 + (d[k] as nat
            - 48) as nat,
    decreases d.len(),
{
    let t = d.subrange(0, k + 1);
    assert(t.drop_last() =~= d.subrange(0, k));
    if k + 1 < d.len() {
        lemma_digits_grow(d.drop_last(), k);
        assert(d.drop_last().subrange(0, k + 1) =~= t);
        assert(d.drop_last().subrange(0, k) =~= d.subrange(0, k));
    } else {
        assert(t =~= d);
    }
}

proof fn lemma_trim_front(t: Seq<char>)
    requires
        t.len() > 0,
        is_space(t[0]),
    ensures
        trimmed(t) == trimmed(t.drop_first()),
{
}

proof fn lemma_trim_back(t: Seq<char>)
    requires
        t.len() > 0,
        !is_space(t[0]),
        is_space(t.last()),
    ensures
        trimmed(t) == trimmed(t.drop_last()),
{
}

proof fn lemma_trim_done(t: Seq<char>)
    requires
        t.len() == 0 || (!is_space(t[0]) && !is_space(t.last())),
    ensures
        trimmed(t) == t,
{
}

/// Returns the text without its leading and trailing white space.
pub fn trim(s: &Vec<char>) -> (r: Vec<char>)
    ensures
        r@ == trimmed(s@),
{
    let n = s.len();
    let mut lo: usize = 0;
    let mut hi: usize = n;
    proof {
        assert(s@.subrange(0, n as int) =~= s@);
    }
    while lo < hi && space(s[lo])
        invariant
            lo <= hi <= n,
            n == s@.len(),
            hi == n,
            trimmed(s@.subrange(lo as int, hi as int)) == trimmed(s@),
        decreases hi - lo,
    {
        proof {
            let t = s@.subrange(lo as int, hi as int);
            assert(t.drop_first() =~= s@.subrange(lo + 1, hi as int));
            lemma_trim_front(t);
        }
        lo = lo + 1;
    }
    while lo < hi && space(s[hi - 1])
        invariant
            lo <= hi <= n,
            n == s@.len(),
            lo < hi ==> !is_space(s@[lo as int]),
            trimmed(s@.subrange(lo as int, hi as int)) == trimmed(s@),
        decreases hi - lo,
    {
        proof {
            let t = s@.subrange(lo as int, hi as int);
            assert(t.drop_last() =~= s@.subrange(lo as int, hi - 1));
            assert(t[0] == s@[lo as int]);
            assert(t.last() == s@[hi - 1]);
            lemma_trim_back(t);
        }
        hi = hi - 1;
    }
    let mut r: Vec<char> = Vec::new();
    let mut i = lo;
    while i < hi
        invariant
            lo <= i <= hi <= n,
            n == s@.len(),
            r@ == s@.subrange(lo as int, i as int),
        decreases hi - i,
    {
        r.push(s[i]);
        i = i + 1;
        proof {
            assert(r@ =~= s@.subrange(lo as int, i as int));
        }
    }
    proof {
        let t = s@.subrange(lo as int, hi as int);
        if t.len() > 0 {
            assert(t[0] == s@[lo as int]);
            assert(t.last() == s@[hi - 1]);
        }
        lemma_trim_done(t);
    }
    r
}

/// Whether `line` starts with `key`.
pub open spec fn starts_with(line: Seq<char>, key: Seq<char>) -> bool {
    key.len() <= line.len() && line.subrange(0, key.len() as int) == key
}

/// The value part of a status line: what lies between the key and its
/// colon and the two-character unit, without surrounding white space.
pub open spec fn stat_field(line: Seq<char>, key: Seq<char>) -> Seq<char> {
    trimmed(line.subrange(key.len() + 1int, line.len() - 2int))
}

/// The index of the first line that starts with `key`, if any.
pub open spec fn first_match(lines: Seq<Seq<char>>, key: Seq<char>) -> Option<int>
    decreases lines.len(),
{
    if lines.len() == 0 {
        None
    } else {
        match first_match(lines.drop_last(), key) {
            Some(i) => Some(i),
            None => if starts_with(lines.last(), key) {
                Some(lines.len() - 1)
            } else {
                None
            },
        }
    }
}

/// The first line that starts with `key`, if any, is long enough to hold
/// the key, its colon and a two-character unit.
pub open spec fn stat_line_fits(lines: Seq<Seq<char>>, key: Seq<char>) -> bool {
    first_match(lines, key) matches Some(i) ==> lines[i].len() >= key.len() + 3
}

/// The outcome of looking up `key` in a process status: the number in the
/// first line that starts with the key, or an error naming the key.
pub open spec fn stat_value(lines: Seq<Seq<char>>, key: Seq<char>) -> Result<u64, Seq<char>> {
    match first_match(lines, key) {
        Some(i) => match parsed_u64(stat_field(lines[i], key)) {
            Some(v) => Ok(v),
            None => Err(key),
        },
        None => Err(key),
    }
}

fn chars_of(s: &str) -> (r: Vec<char>)
    ensures
        r@ == s@,
{
    let mut r: Vec<char> = Vec::new();
    push_str(&mut r, s);
    proof {
        assert(r@ =~= s@);
    }
    r
}

/// Reads the status member `key` from the lines of a process status file
/// (such as `VmHWM:    1234 kB`): the number between the key's colon and
/// the unit of the first line that starts with the key.
///
/// # Errors
///
/// Returns `MemError::InvalidStat` if no line starts with the key or its
/// value is not a number.
pub fn stat(key: &str, lines: &Vec<String>) -> (r: Result<u64, MemError>)
    requires
        stat_line_fits(lines@.map_values(|l: String| l@), key@),
    ensures
        match stat_value(lines@.map_values(|l: String| l@), key@) {
            Ok(v) => r == Ok::<u64, MemError>(v),
            Err(k) => r matches Err(MemError::InvalidStat(s)) && s@ == k,
        },
{
    let ghost ls = lines@.map_values(|l: String| l@);
    let key_chars = chars_of(key);
    let kn = key_chars.len();
    let n = lines.len();
    let mut i: usize = 0;
    while i < n
        invariant
            n == lines@.len(),
            i <= n,
            kn == key@.len(),
            key_chars@ == key@,
            ls == lines@.map_values(|l: String| l@),
            first_match(ls.take(i as int), key@) is None,
            stat_line_fits(ls, key@),
        decreases n - i,
    {
        let line = chars_of(lines[i].as_str());
        let ln = line.len();
        let mut matches = kn <= ln;
        let mut j: usize = 0;
        while matches && j < kn
            invariant
                j <= kn,
                kn == key_chars@.len(),
                ln == line@.len(),
                matches ==> kn <= ln,
                matches ==> forall|k: int| 0 <= k < j ==> line@[k] == key_chars@[k],
                !matches ==> !starts_with(line@, key_chars@),
            decreases kn - j,
        {
            if line[j] != key_chars[j] {
                matches = false;
            }
            j = j + 1;
        }
        proof {
            let t = ls.take(i + 1);
            assert(t.drop_last() =~= ls.take(i as int));
            assert(t.last() == line@);
            assert(line@ == lines@[i as int]@);
            assert(ls[i as int] == line@);
            if matches {
                assert(line@.subrange(0, kn as int) =~= key@);
                assert(starts_with(ls[i as int], key@));
                assert(first_match(ls.take(i + 1), key@) == Some(i as int));
                lemma_first_match_prefix(ls, key@, i as int);
            }
        }
        if matches {
            proof {
                assert(first_match(ls.take(i + 1), key@) == Some(i as int));
                assert(ls.take(i + 1).last() == ls[i as int]);
                lemma_first_match_prefix(ls, key@, i as int);
            }
            let mut field: Vec<char> = Vec::new();
            let mut k = kn + 1;
            while k < ln - 2
                invariant
                    kn + 1 <= k,
                    ln >= kn + 3,
                    k <= ln - 2 || k == kn + 1,
                    ln == line@.len(),
                    field@ == line@.subrange(kn + 1, k as int),
                decreases ln - k,
            {
                field.push(line[k]);
                k = k + 1;
                proof {
                    assert(field@ =~= line@.subrange(kn + 1, k as int));
                }
            }
            proof {
                assert(field@ =~= line@.subrange(kn + 1, ln - 2));
            }
            let value = trim(&field);
            return match parse_u64(&value) {
                Some(v) => Ok(v),
                None => Err(MemError::InvalidStat(key.to_owned())),
            };
        }
        i = i + 1;
    }
    proof {
        assert(ls.take(n as int) =~= ls);
    }
    Err(MemError::InvalidStat(key.to_owned()))
}

proof fn lemma_first_match_prefix(ls: Seq<Seq<char>>, key: Seq<char>, i: int)
    requires
        0 <= i < ls.len(),
        first_match(ls.take(i + 1), key) == Some(i),
    ensures
        first_match(ls, key) == Some(i),
    decreases ls.len(),
{
    if ls.len() == i + 1 {
        assert(ls.take(i + 1) =~= ls);
    } else {
        assert(ls.drop_last().take(i + 1) =~= ls.take(i + 1));
        lemma_first_match_prefix(ls.drop_last(), key, i);
    }
}

/// Returns the high water mark in bytes, from the `VmHWM` member (in KiB)
/// of the lines of a process status file.
///
/// # Errors
///
/// Returns `MemError::InvalidStat` if the member is missing or not a
/// number.
pub fn hwm(lines: &Vec<String>) -> (r: Result<u64, MemError>)
    requires
        stat_line_fits(lines@.map_values(|l: String| l@), "VmHWM"@),
        stat_value(lines@.map_values(|l: String| l@), "VmHWM"@) matches Ok(v) ==> v * 1024
            <= u64::MAX,
    ensures
        match stat_value(lines@.map_values(|l: String| l@), "VmHWM"@) {
            Ok(v) => r == Ok::<u64, MemError>((v * 1024) as u64),
            Err(k) => r matches Err(MemError::InvalidStat(s)) && s@ == k,
        },
{
    scaled_stat("VmHWM", lines)
}

/// Returns the resident set size in bytes, from the `VmRSS` member (in
/// KiB) of the lines of a process status file.
///
/// # Errors
///
/// Returns `MemError::InvalidStat` if the member is missing or not a
/// number.
pub fn rss(lines: &Vec<String>) -> (r: Result<u64, MemError>)
    requires
        stat_line_fits(lines@.map_values(|l: String| l@), "VmRSS"@),
        stat_value(lines@.map_values(|l: String| l@), "VmRSS"@) matches Ok(v) ==> v * 1024
            <= u64::MAX,
    ensures
        match stat_value(lines@.map_values(|l: String| l@), "VmRSS"@) {
            Ok(v) => r == Ok::<u64, MemError>((v * 1024) as u64),
            Err(k) => r matches Err(MemError::InvalidStat(s)) && s@ == k,
        },
{
    scaled_stat("VmRSS", lines)
}

fn scaled_stat(key: &str, lines: &Vec<String>) -> (r: Result<u64, MemError>)
    requires
        stat_line_fits(lines@.map_values(|l: String| l@), key@),
        stat_value(lines@.map_values(|l: String| l@), key@) matches Ok(v) ==> v * 1024
            <= u64::MAX,
    ensures
        match stat_value(lines@.map_values(|l: String| l@), key@) {
            Ok(v) => r == Ok::<u64, MemError>((v * 1024) as u64),
            Err(k) => r matches Err(MemError::InvalidStat(s)) && s@ == k,
        },
{
    match stat(key, lines) {
        Ok(v) => Ok(v * 1024),
        Err(e) => Err(e),
    }
}

/// Returns the size of the supplied value in bytes: the size of its type.
pub fn size_of<T>(_value: &T) -> (r: usize)
    ensures
        r as nat == vstd::layout::size_of::<T>(),
{
    core::mem::size_of::<T>()
}

/// Returns the size of the supplied vector in bytes: the size of the vector
/// itself plus the size of its elements (spare capacity is not counted).
pub fn size_of_vec<T>(value: &Vec<T>) -> (r: usize)
    requires
        vstd::layout::size_of::<Vec<T>>() + value@.len() * vstd::layout::size_of::<T>()
            <= usize::MAX,
    ensures
        r == vstd::layout::size_of::<Vec<T>>() + value@.len() * vstd::layout::size_of::<T>(),
{
    let container_size = size_of(value);
    if value.len() == 0 {
        proof {
            assert(value@.len() * vstd::layout::size_of::<T>() == 0) by (nonlinear_arith)
                requires
                    value@.len() == 0,
            ;
        }
        return container_size;
    }
    let elem = core::mem::size_of::<T>();
    proof {
        assert(value@.len() * elem <= vstd::layout::size_of::<Vec<T>>() + value@.len() * elem) by (nonlinear_arith)
            requires
                value@.len() >= 0,
                elem >= 0,
        ;
    }
    container_size + value.len() * elem
}

} // verus!
