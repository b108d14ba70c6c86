use vstd::prelude::*;
use vstd::string::StrSliceExecFns;

verus! {

/// The character of a decimal digit.
pub open spec fn digit_char(d: nat) -> char {
    (48 + d) as char
}

/// The decimal digits of a number, without leading zeros ("0" for zero).
pub open spec fn decimal(n: nat) -> Seq<char>
    decreases n,
{
    if n < 10 {
        seq![digit_char(n)]
    } else {
        decimal(n / 10).push(digit_char(n % 10))
    }
}

/// The decimal digits of a number, padded with leading zeros to at least
/// `width` digits.
pub open spec fn padded(n: nat, width: nat) -> Seq<char> {
    let d = decimal(n);
    if d.len() >= width {
        d
    } else {
        Seq::new((width - d.len()) as nat, |i: int| '0') + d
    }
}

/// The decimal digits of a number in groups of three, separated by commas.
pub open spec fn grouped(n: nat) -> Seq<char>
    decreases n,
{
    if n < 1000 {
        decimal(n)
    } else {
        grouped(n / 1000) + seq![','] + padded(n % 1000, 3)
    }
}

/// A timespan of `ms` milliseconds as `D.hh:mm:ss.ms`, leaving out the
/// leading parts that are zero.
pub open spec fn timespan_text(ms: nat) -> Seq<char> {
    let days = ms / 86_400_000;
    let hrs = ms / 3_600_000 % 24;
    let mins = ms / 60_000 % 60;
    let secs = ms / 1000 % 60;
    let rest = ms % 1000;
    if days == 0 && hrs == 0 && mins == 0 && secs == 0 {
        decimal(rest)
    } else if days == 0 && hrs == 0 && mins == 0 {
        decimal(secs) + seq!['.'] + padded(rest, 3)
    } else if days == 0 && hrs == 0 {
        decimal(mins) + seq![':'] + padded(secs, 2) + seq!['.'] + padded(rest, 3)
    } else if days == 0 {
        decimal(hrs) + seq![':'] + padded(mins, 2) + seq![':'] + padded(secs, 2) + seq!['.']
            + padded(rest, 3)
    } else {
        decimal(days) + seq!['.'] + padded(hrs, 2) + seq![':'] + padded(mins, 2) + seq![':']
            + padded(secs, 2) + seq!['.'] + padded(rest, 3)
    }
}

/// The number that a sequence of decimal digit characters spells, the
/// last digit least significant.
pub open spec fn digits_value(s: Seq<char>) -> int
    decreases s.len(),
{
    if s.len() == 0 {
        0
    } else {
        10 * digits_value(s.drop_last()) + (s.last() as int - 48)
    }
}

/// Reads a timespan text back into milliseconds, by its length: up to three
/// characters are milliseconds, up to six are `s.ms`, up to nine `m:ss.ms`,
/// up to twelve `h:mm:ss.ms`, and longer ones `d.hh:mm:ss.ms`.
pub open spec fn timespan_value(t: Seq<char>) -> int {
    let n = t.len() as int;
    let rest = digits_value(t.subrange(n - 3, n));
    let secs = digits_value(t.subrange(n - 6, n - 4));
    let mins = digits_value(t.subrange(n - 9, n - 7));
    let hrs = digits_value(t.subrange(n - 12, n - 10));
    if n <= 3 {
        digits_value(t)
    } else if n <= 6 {
        digits_value(t.subrange(0, n - 4)) * 1000 + rest
    } else if n <= 9 {
        digits_value(t.subrange(0, n - 7)) * 60_000 + secs * 1000 + rest
    } else if n <= 12 {
        digits_value(t.subrange(0, n - 10)) * 3_600_000 + mins * 60_000 + secs * 1000 + rest
    } else {
        digits_value(t.subrange(0, n - 13)) * 86_400_000 + hrs * 3_600_000 + mins * 60_000 + secs
            * 1000 + rest
    }
}

proof fn lemma_decimal_value(n: nat)
    ensures
        digits_value(decimal(n)) == n,
        decimal(n).len() >= 1,
        n < 10 ==> decimal(n).len() == 1,
        n < 100 ==> decimal(n).len() <= 2,
        n < 1000 ==> decimal(n).len() <= 3,
    decreases n,
{
    if n < 10 {
        let d = decimal(n);
        assert(d.drop_last() =~= Seq::<char>::empty());
        assert(digits_value(d.drop_last()) == 0);
    } else {
        lemma_decimal_value(n / 10);
        let d = decimal(n);
        assert(d.drop_last() =~= decimal(n / 10));
    }
}

proof fn lemma_zeros_value(k: nat)
    ensures
        digits_value(Seq::new(k, |i: int| '0')) == 0,
    decreases k,
{
    if k > 0 {
        lemma_zeros_value((k - 1) as nat);
        assert(Seq::new(k, |i: int| '0').drop_last() =~= Seq::new((k - 1) as nat, |i: int| '0'));
    }
}

proof fn lemma_prefix_zeros_value(z: Seq<char>, d: Seq<char>)
    requires
        digits_value(z) == 0,
    ensures
        digits_value(z + d) == digits_value(d),
    decreases d.len(),
{
    if d.len() == 0 {
        assert(z + d =~= z);
    } else {
        lemma_prefix_zeros_value(z, d.drop_last());
        assert((z + d).drop_last() =~= z + d.drop_last());
        assert((z + d).last() == d.last());
    }
}

proof fn lemma_padded_value(n: nat, width: nat)
    requires
        decimal(n).len() <= width,
    ensures
        digits_value(padded(n, width)) == n,
        padded(n, width).len() == width,
{
    lemma_decimal_value(n);
    let d = decimal(n);
    if d.len() < width {
        let z = Seq::new((width - d.len()) as nat, |i: int| '0');
        lemma_zeros_value((width - d.len()) as nat);
        lemma_prefix_zeros_value(z, d);
    }
}

proof fn lemma_timespan_parts(ms: nat)
    ensures
        ms == (ms / 86_400_000) * 86_400_000 + (ms / 3_600_000 % 24) * 3_600_000 + (ms / 60_000
            % 60) * 60_000 + (ms / 1000 % 60) * 1000 + ms % 1000,
        ms / 1000 % 60 < 60,
        ms / 60_000 % 60 < 60,
        ms / 3_600_000 % 24 < 24,
        ms % 1000 < 1000,
{
    let q1 = ms / 1000;
    let q2 = q1 / 60;
    let q3 = q2 / 60;
    let q4 = q3 / 24;
    assert(ms / 60_000 == q2) by {
        vstd::arithmetic::div_mod::lemma_div_denominator(ms as int, 1000, 60);
    }
    assert(ms / 3_600_000 == q3) by {
        vstd::arithmetic::div_mod::lemma_div_denominator(ms as int, 60_000, 60);
    }
    assert(ms / 86_400_000 == q4) by {
        vstd::arithmetic::div_mod::lemma_div_denominator(ms as int, 3_600_000, 24);
    }
    assert(ms == 1000 * q1 + ms % 1000);
    assert(q1 == 60 * q2 + q1 % 60);
    assert(q2 == 60 * q3 + q2 % 60);
    assert(q3 == 24 * q4 + q3 % 24);
}

proof fn lemma_read_secs(a: Seq<char>, p3: Seq<char>)
    requires
        1 <= a.len() <= 2,
        p3.len() == 3,
    ensures
        timespan_value(a + seq!['.'] + p3) == digits_value(a) * 1000 + digits_value(p3),
{
    let t = a + seq!['.'] + p3;
    let n = t.len() as int;
    assert(t.subrange(n - 3, n) =~= p3);
    assert(t.subrange(0, n - 4) =~= a);
}

proof fn lemma_read_mins(a: Seq<char>, ps: Seq<char>, p3: Seq<char>)
    requires
        1 <= a.len() <= 2,
        ps.len() == 2,
        p3.len() == 3,
    ensures
        timespan_value(a + seq![':'] + ps + seq!['.'] + p3) == digits_value(a) * 60_000
            + digits_value(ps) * 1000 + digits_value(p3),
{
    let t = a + seq![':'] + ps + seq!['.'] + p3;
    let n = t.len() as int;
    assert(t.subrange(n - 3, n) =~= p3);
    assert(t.subrange(n - 6, n - 4) =~= ps);
    assert(t.subrange(0, n - 7) =~= a);
}

proof fn lemma_read_hrs(a: Seq<char>, pm: Seq<char>, ps: Seq<char>, p3: Seq<char>)
    requires
        1 <= a.len() <= 2,
        pm.len() == 2,
        ps.len() == 2,
        p3.len() == 3,
    ensures
        timespan_value(a + seq![':'] + pm + seq![':'] + ps + seq!['.'] + p3) == digits_value(a)
            * 3_600_000 + digits_value(pm) * 60_000 + digits_value(ps) * 1000 + digits_value(p3),
{
    let t = a + seq![':'] + pm + seq![':'] + ps + seq!['.'] + p3;
    let n = t.len() as int;
    assert(t.subrange(n - 3, n) =~= p3);
    assert(t.subrange(n - 6, n - 4) =~= ps);
    assert(t.subrange(n - 9, n - 7) =~= pm);
    assert(t.subrange(0, n - 10) =~= a);
}

proof fn lemma_read_days(
    a: Seq<char>,
    ph: Seq<char>,
    pm: Seq<char>,
    ps: Seq<char>,
    p3: Seq<char>,
)
    requires
        1 <= a.len(),
        ph.len() == 2,
        pm.len() == 2,
        ps.len() == 2,
        p3.len() == 3,
    ensures
        timespan_value(
            a + seq!['.'] + ph + seq![':'] + pm + seq![':'] + ps + seq!['.'] + p3,
        ) == digits_value(a) * 86_400_000 + digits_value(ph) * 3_600_000 + digits_value(pm)
            * 60_000 + digits_value(ps) * 1000 + digits_value(p3),
{
    let t = a + seq!['.'] + ph + seq![':'] + pm + seq![':'] + ps + seq!['.'] + p3;
    let n = t.len() as int;
    assert(t.subrange(n - 3, n) =~= p3);
    assert(t.subrange(n - 6, n - 4) =~= ps);
    assert(t.subrange(n - 9, n - 7) =~= pm);
    assert(t.subrange(n - 12, n - 10) =~= ph);
    assert(t.subrange(0, n - 13) =~= a);
}

/// A timespan text reads back as the milliseconds it was made from: no two
/// lengths of time are shown alike.
pub proof fn lemma_timespan_reads_back(ms: nat)
    ensures
        timespan_value(timespan_text(ms)) == ms,
{
    let days = ms / 86_400_000;
    let hrs = ms / 3_600_000 % 24;
    let mins = ms / 60_000 % 60;
    let secs = ms / 1000 % 60;
    let rest = ms % 1000;
    lemma_timespan_parts(ms);
    lemma_decimal_value(rest);
    lemma_decimal_value(secs);
    lemma_decimal_value(mins);
    lemma_decimal_value(hrs);
    lemma_decimal_value(days);
    lemma_padded_value(rest, 3);
    if days == 0 && hrs == 0 && mins == 0 && secs == 0 {
    } else if days == 0 && hrs == 0 && mins == 0 {
        lemma_read_secs(decimal(secs), padded(rest, 3));
    } else if days == 0 && hrs == 0 {
        lemma_padded_value(secs, 2);
        lemma_read_mins(decimal(mins), padded(secs, 2), padded(rest, 3));
    } else if days == 0 {
        lemma_padded_value(secs, 2);
        lemma_padded_value(mins, 2);
        lemma_read_hrs(decimal(hrs), padded(mins, 2), padded(secs, 2), padded(rest, 3));
    } else {
        lemma_padded_value(secs, 2);
        lemma_padded_value(mins, 2);
        lemma_padded_value(hrs, 2);
        lemma_read_days(
            decimal(days),
            padded(hrs, 2),
            padded(mins, 2),
            padded(secs, 2),
            padded(rest, 3),
        );
    }
}

/// Two lengths of time with the same timespan text are the same.
pub proof fn lemma_timespan_injective(a: nat, b: nat)
    requires
        timespan_text(a) == timespan_text(b),
    ensures
        a == b,
{
    lemma_timespan_reads_back(a);
    lemma_timespan_reads_back(b);
}

/// The index of the memory unit for a number of bytes: the largest `k`,
/// at most 6, such that the value is at least `1024^k`.
pub open spec fn memory_unit_of(value: nat) -> nat
    decreases value,
{
    if value < 1024 {
        0
    } else {
        let k = memory_unit_of(value / 1024);
        if k < 6 {
            k + 1
        } else {
            6
        }
    }
}

/// A number of bytes is shown in the binary unit of the largest power of
/// 1024 that it reaches: bytes below 1 KiB, KiB below 1 MiB, MiB below
/// 1 GiB, GiB below 1 TiB, TiB below 1 PiB, PiB below 1 EiB, and EiB from
/// there on.
pub proof fn lemma_memory_unit_ranges(value: nat)
    ensures
        value < 0x400 ==> memory_unit_name(memory_unit_of(value)) == "B"@,
        0x400 <= value < 0x10_0000 ==> memory_unit_name(memory_unit_of(value)) == "KiB"@,
        0x10_0000 <= value < 0x4000_0000 ==> memory_unit_name(memory_unit_of(value)) == "MiB"@,
        0x4000_0000 <= value < 0x100_0000_0000 ==> memory_unit_name(memory_unit_of(value))
            == "GiB"@,
        0x100_0000_0000 <= value < 0x4_0000_0000_0000 ==> memory_unit_name(memory_unit_of(value))
            == "TiB"@,
        0x4_0000_0000_0000 <= value < 0x1000_0000_0000_0000 ==> memory_unit_name(
            memory_unit_of(value),
        ) == "PiB"@,
        0x1000_0000_0000_0000 <= value ==> memory_unit_name(memory_unit_of(value)) == "EiB"@,
{
    lemma_memory_unit_index_ranges(value);
}

proof fn lemma_memory_unit_index_ranges(value: nat)
    ensures
        value < 0x400 ==> memory_unit_of(value) == 0,
        0x400 <= value < 0x10_0000 ==> memory_unit_of(value) == 1,
        0x10_0000 <= value < 0x4000_0000 ==> memory_unit_of(value) == 2,
        0x4000_0000 <= value < 0x100_0000_0000 ==> memory_unit_of(value) == 3,
        0x100_0000_0000 <= value < 0x4_0000_0000_0000 ==> memory_unit_of(value) == 4,
        0x4_0000_0000_0000 <= value < 0x1000_0000_0000_0000 ==> memory_unit_of(value) == 5,
        0x1000_0000_0000_0000 <= value ==> memory_unit_of(value) == 6,
    decreases value,
{
    if value >= 1024 {
        lemma_memory_unit_index_ranges(value / 1024);
    }
}

fn digit(d: u64) -> (c: char)
    requires
        d < 10,
    ensures
        c == digit_char(d as nat),
{
    let b: u8 = 48u8 + d as u8;
    b as char
}

/// Appends the decimal digits of `n` to `out`.
pub fn push_decimal(out: &mut Vec<char>, n: u64)
    ensures
        final(out)@ == old(out)@ + decimal(n as nat),
    decreases n,
{
    if n >= 10 {
        push_decimal(out, n / 10);
    }
    out.push(digit(n % 10));
    proof {
        assert(final(out)@ =~= old(out)@ + decimal(n as nat));
    }
}

proof fn lemma_decimal_len(n: nat)
    ensures
        decimal(n).len() >= 1,
        n < 10 ==> decimal(n).len() == 1,
        n < 100 ==> decimal(n).len() <= 2,
        n < 1000 ==> decimal(n).len() <= 3,
        n >= 10 ==> decimal(n).len() >= 2,
        n >= 100 ==> decimal(n).len() >= 3,
    decreases n,
{
    if n >= 10 {
        lemma_decimal_len(n / 10);
    }
}

/// Appends the decimal digits of `n`, padded with zeros to `width` digits
/// (at most three), to `out`.
pub fn push_padded(out: &mut Vec<char>, n: u64, width: u64)
    requires
        width <= 3,
    ensures
        final(out)@ == old(out)@ + padded(n as nat, width as nat),
{
    proof {
        lemma_decimal_len(n as nat);
    }
    let len: u64 = if n < 10 {
        1
    } else if n < 100 {
        2
    } else {
        3
    };
    let ghost start = out@;
    if n < 1000 && len < width {
        let mut i: u64 = 0;
        while i < width - len
            invariant
                i <= width - len,
                len < width,
                out@ == start + Seq::new(i as nat, |j: int| '0'),
            decreases width - len - i,
        {
            out.push('0');
            i = i + 1;
            proof {
                assert(out@ =~= start + Seq::new(i as nat, |j: int| '0'));
            }
        }
        proof {
            assert(decimal(n as nat).len() == len);
        }
    } else {
        proof {
            if n < 1000 {
                assert(decimal(n as nat).len() == len);
            }
        }
    }
    let ghost mid = out@;
    push_decimal(out, n);
    proof {
        assert(out@ =~= start + padded(n as nat, width as nat));
    }
}

/// Appends the digits of `n` in comma-separated groups of three to `out`.
pub fn push_grouped(out: &mut Vec<char>, n: u64)
    ensures
        final(out)@ == old(out)@ + grouped(n as nat),
    decreases n,
{
    if n < 1000 {
        push_decimal(out, n);
    } else {
        push_grouped(out, n / 1000);
        out.push(',');
        push_padded(out, n % 1000, 3);
        proof {
            assert(final(out)@ =~= old(out)@ + grouped(n as nat));
        }
    }
}

/// Appends the characters of `s` to `out`.
pub fn push_str(out: &mut Vec<char>, s: &str)
    ensures
        final(out)@ == old(out)@ + s@,
{
    let n = s.unicode_len();
    let ghost start = out@;
    let mut i: usize = 0;
    while i < n
        invariant
            n == s@.len(),
            i <= n,
            out@ == start + s@.subrange(0, i as int),
        decreases n - i,
    {
        out.push(s.get_char(i));
        i = i + 1;
        proof {
            assert(out@ =~= start + s@.subrange(0, i as int));
        }
    }
    proof {
        assert(s@.subrange(0, n as int) =~= s@);
    }
}

/// Appends `n` copies of `c` to `out`.
pub fn push_repeat(out: &mut Vec<char>, c: char, n: usize)
    ensures
        final(out)@ == old(out)@ + Seq::new(n as nat, |i: int| c),
{
    let ghost start = out@;
    let mut i: usize = 0;
    while i < n
        invariant
            i <= n,
            out@ == start + Seq::new(i as nat, |j: int| c),
        decreases n - i,
    {
        out.push(c);
        i = i + 1;
        proof {
            assert(out@ =~= start + Seq::new(i as nat, |j: int| c));
        }
    }
}

/// Collects characters into a string.
#[verifier::external_body]
pub(crate) fn string_from_chars(chars: &Vec<char>) -> (s: String)
    ensures
        s@ == chars@,
{
    String::from_iter(chars.iter())
}

/// Formats a number with commas between groups of three digits.
///
/// # Examples
/// ```
/// use kwik::fmt;
///
/// assert_eq!(fmt::number(1234567), "1,234,567");
/// ```
pub fn number(value: u64) -> (s: String)
    ensures
        s@ == grouped(value as nat),
{
    let mut out: Vec<char> = Vec::new();
    push_grouped(&mut out, value);
    proof {
        assert(out@ =~= grouped(value as nat));
    }
    string_from_chars(&out)
}

/// Formats a timespan in milliseconds as `D.hh:mm:ss.ms`, leaving out the
/// leading parts that are zero.
///
/// # Examples
/// ```
/// use kwik::fmt;
///
/// assert_eq!(fmt::timespan(1234567), "20:34.567");
/// ```
pub fn timespan(value: u64) -> (s: String)
    ensures
        s@ == timespan_text(value as nat),
{
    let ms = value;
    let days = ms / 86_400_000;
    let hrs = ms / 3_600_000 % 24;
    let mins = ms / 60_000 % 60;
    let secs = ms / 1000 % 60;
    let rest = ms % 1000;
    let mut out: Vec<char> = Vec::new();
    if days == 0 && hrs == 0 && mins == 0 && secs == 0 {
        push_decimal(&mut out, rest);
    } else if days == 0 && hrs == 0 && mins == 0 {
        push_decimal(&mut out, secs);
        out.push('.');
        push_padded(&mut out, rest, 3);
    } else if days == 0 && hrs == 0 {
        push_decimal(&mut out, mins);
        out.push(':');
        push_padded(&mut out, secs, 2);
        out.push('.');
        push_padded(&mut out, rest, 3);
    } else if days == 0 {
        push_decimal(&mut out, hrs);
        out.push(':');
        push_padded(&mut out, mins, 2);
        out.push(':');
        push_padded(&mut out, secs, 2);
        out.push('.');
        push_padded(&mut out, rest, 3);
    } else {
        push_decimal(&mut out, days);
        out.push('.');
        push_padded(&mut out, hrs, 2);
        out.push(':');
        push_padded(&mut out, mins, 2);
        out.push(':');
        push_padded(&mut out, secs, 2);
        out.push('.');
        push_padded(&mut out, rest, 3);
    }
    proof {
        assert(out@ =~= timespan_text(value as nat));
    }
    string_from_chars(&out)
}

/// Returns the index into the memory units (`B`, `KiB`, ..., `EiB`) that
/// a number of bytes is shown in: the largest power of 1024 that the
/// value reaches.
pub fn memory_unit_index(value: u64) -> (k: usize)
    ensures
        k == memory_unit_of(value as nat),
        k <= 6,
    decreases value,
{
    if value < 1024 {
        0
    } else {
        let k = memory_unit_index(value / 1024);
        if k < 6 {
            k + 1
        } else {
            6
        }
    }
}

/// The name of the memory unit at the supplied index.
pub open spec fn memory_unit_name(k: nat) -> Seq<char> {
    if k == 0 {
        "B"@
    } else if k == 1 {
        "KiB"@
    } else if k == 2 {
        "MiB"@
    } else if k == 3 {
        "GiB"@
    } else if k == 4 {
        "TiB"@
    } else if k == 5 {
        "PiB"@
    } else {
        "EiB"@
    }
}

/// Returns the name of the memory unit at the supplied index (`B` for 0,
/// `KiB` for 1, up to `EiB` for 6 and above).
pub fn memory_unit(k: usize) -> (s: &'static str)
    ensures
        s@ == memory_unit_name(k as nat),
{
    if k == 0 {
        "B"
    } else if k == 1 {
        "KiB"
    } else if k == 2 {
        "MiB"
    } else if k == 3 {
        "GiB"
    } else if k == 4 {
        "TiB"
    } else if k == 5 {
        "PiB"
    } else {
        "EiB"
    }
}

} // verus!
