use vstd::prelude::*;

use crate::fmt::{grouped, memory_unit, memory_unit_index, memory_unit_name, memory_unit_of, push_grouped, push_str, string_from_chars};

verus! {

/// The style of a line on a line plot.
#[derive(PartialEq, Eq, Structural, Clone, Copy, Debug)]
pub enum LineStyle {
    Solid,
    Dash,
    DotDash,
    DotDotDash,
    Dot,
}

/// Where a plot's legend is placed.
#[derive(PartialEq, Eq, Structural, Clone, Copy, Debug)]
pub enum LegendPosition {
    TopRight,
    TopLeft,
    BottomRight,
    BottomLeft,
}

/// The line styles that lines without a style of their own take in turn.
pub open spec fn line_style_cycle(i: nat) -> LineStyle {
    if i == 0 {
        LineStyle::Solid
    } else if i == 1 {
        LineStyle::Dash
    } else if i == 2 {
        LineStyle::DotDash
    } else if i == 3 {
        LineStyle::DotDotDash
    } else {
        LineStyle::Dot
    }
}

/// Returns the line style of the `index`-th line that has none of its own:
/// the five styles are taken in turn.
pub fn line_style_at(index: usize) -> (s: LineStyle)
    ensures
        s == line_style_cycle((index % 5) as nat),
{
    let i = index % 5;
    if i == 0 {
        LineStyle::Solid
    } else if i == 1 {
        LineStyle::Dash
    } else if i == 2 {
        LineStyle::DotDash
    } else if i == 3 {
        LineStyle::DotDotDash
    } else {
        LineStyle::Dot
    }
}

/// The colors that plotted series without a color of their own take in
/// turn.
pub open spec fn color_cycle(i: nat) -> Seq<char> {
    if i == 0 {
        "#c4342b"@
    } else if i == 1 {
        "#0071ad"@
    } else if i == 2 {
        "#71ad00"@
    } else if i == 3 {
        "#554ec9"@
    } else if i == 4 {
        "#f7790d"@
    } else if i == 5 {
        "#e0ca3c"@
    } else {
        "#47a8bd"@
    }
}

/// Returns the color of the `index`-th series that has none of its own:
/// the seven colors are taken in turn.
pub fn color_at(index: usize) -> (c: &'static str)
    ensures
        c@ == color_cycle((index % 7) as nat),
{
    let i = index % 7;
    if i == 0 {
        "#c4342b"
    } else if i == 1 {
        "#0071ad"
    } else if i == 2 {
        "#71ad00"
    } else if i == 3 {
        "#554ec9"
    } else if i == 4 {
        "#f7790d"
    } else if i == 5 {
        "#e0ca3c"
    } else {
        "#47a8bd"
    }
}

/// How an axis is scaled: its values are divided by `denominator`, and
/// its label names the unit.
pub struct Scale {
    pub unit: &'static str,
    pub denominator: u64,
}

/// `base` to the power `k`.
pub open spec fn power(base: nat, k: nat) -> nat
    decreases k,
{
    if k == 0 {
        1
    } else {
        base * power(base, (k - 1) as nat)
    }
}

/// The scale of a memory axis whose largest value is `max` bytes: the
/// largest power of 1024 that the value reaches, with its unit.
pub fn memory_scale(max: u64) -> (s: Scale)
    ensures
        s.unit@ == memory_unit_name(memory_unit_of(max as nat)),
        s.denominator == power(1024, memory_unit_of(max as nat)),
{
    let k = memory_unit_index(max);
    let mut denominator: u64 = 1;
    let mut i: usize = 0;
    while i < k
        invariant
            i <= k,
            k <= 6,
            denominator == power(1024, i as nat),
        decreases k - i,
    {
        proof {
            lemma_power_1024_bound(i as nat);
        }
        denominator = denominator * 1024;
        i = i + 1;
    }
    Scale { unit: memory_unit(k), denominator }
}

proof fn lemma_power_1024_bound(k: nat)
    requires
        k < 6,
    ensures
        power(1024, k) * 1024 <= 0x1000_0000_0000_0000,
{
    assert(power(1024, 0) == 1);
    assert(power(1024, 1) == 1024);
    assert(power(1024, 2) == 1024 * 1024);
    assert(power(1024, 3) == 1024 * 1024 * 1024);
    assert(power(1024, 4) == 1024 * 1024 * 1024 * 1024);
    assert(power(1024, 5) == 1024 * 1024 * 1024 * 1024 * 1024);
}

/// The time units of a time axis.
pub open spec fn time_unit_name(k: nat) -> Seq<char> {
    if k == 0 {
        "ms"@
    } else if k == 1 {
        "s"@
    } else if k == 2 {
        "mins"@
    } else if k == 3 {
        "hrs"@
    } else {
        "days"@
    }
}

/// The divisors between successive time units.
pub open spec fn time_divisor(k: nat) -> nat {
    if k == 0 {
        1000
    } else if k == 1 {
        60
    } else if k == 2 {
        60
    } else {
        24
    }
}

/// How many time units up a duration of `t` (in units `k`) reaches,
/// dividing by the divisors from the `k`-th on.
pub open spec fn time_steps(t: nat, k: nat) -> nat
    decreases 4 - k,
{
    if k >= 4 || t / time_divisor(k) == 0 {
        0
    } else {
        1 + time_steps(t / time_divisor(k), k + 1)
    }
}

fn divisor_at(k: usize) -> (d: u64)
    requires
        k < 4,
    ensures
        d == time_divisor(k as nat),
        d > 0,
{
    if k == 0 {
        1000
    } else if k == 3 {
        24
    } else {
        60
    }
}

proof fn lemma_time_denominator_bound(k: nat)
    requires
        k < 4,
    ensures
        time_denominator(k) * time_divisor(k) <= 86_400_000,
{
    assert(time_denominator(0) == 1);
    assert(time_denominator(1) == 1000);
    assert(time_denominator(2) == 60_000);
    assert(time_denominator(3) == 3_600_000);
}

/// The product of the divisors below the `k`-th.
pub open spec fn time_denominator(k: nat) -> nat
    decreases k,
{
    if k == 0 {
        1
    } else {
        time_denominator((k - 1) as nat) * time_divisor((k - 1) as nat)
    }
}

/// The scale of a time axis whose largest value is `max` milliseconds:
/// the largest of milliseconds, seconds, minutes, hours and days that the
/// value reaches.
pub fn time_scale(max: u64) -> (s: Scale)
    ensures
        s.unit@ == time_unit_name(time_steps(max as nat, 0)),
        s.denominator == time_denominator(time_steps(max as nat, 0)),
{
    let mut t = max;
    let mut count: usize = 0;
    let mut denominator: u64 = 1;
    while count < 4 && t / divisor_at(count) != 0
        invariant
            count <= 4,
            time_steps(max as nat, 0) == count + time_steps(t as nat, count as nat),
            denominator == time_denominator(count as nat),
        decreases 4 - count,
    {
        let divisor = divisor_at(count);
        proof {
            lemma_time_denominator_bound(count as nat);
        }
        denominator = denominator * divisor;
        t = t / divisor;
        count = count + 1;
    }
    let unit = if count == 0 {
        "ms"
    } else if count == 1 {
        "s"
    } else if count == 2 {
        "mins"
    } else if count == 3 {
        "hrs"
    } else {
        "days"
    };
    Scale { unit, denominator }
}

/// A time axis is scaled to the largest unit its largest value reaches,
/// and labelled with that unit: milliseconds below a second, seconds below
/// a minute, minutes below an hour, hours below a day, days from there on.
pub proof fn lemma_time_scale_ranges(max: nat)
    ensures
        max < 1000 ==> time_unit_name(time_steps(max, 0)) == "ms"@ && time_denominator(
            time_steps(max, 0),
        ) == 1,
        1000 <= max < 60_000 ==> time_unit_name(time_steps(max, 0)) == "s"@ && time_denominator(
            time_steps(max, 0),
        ) == 1000,
        60_000 <= max < 3_600_000 ==> time_unit_name(time_steps(max, 0)) == "mins"@
            && time_denominator(time_steps(max, 0)) == 60_000,
        3_600_000 <= max < 86_400_000 ==> time_unit_name(time_steps(max, 0)) == "hrs"@
            && time_denominator(time_steps(max, 0)) == 3_600_000,
        86_400_000 <= max ==> time_unit_name(time_steps(max, 0)) == "days"@ && time_denominator(
            time_steps(max, 0),
        ) == 86_400_000,
{
    let a = max / 1000;
    let b = a / 60;
    let c = b / 60;
    let d = c / 24;
    assert(b == max / 60_000) by {
        vstd::arithmetic::div_mod::lemma_div_denominator(max as int, 1000, 60);
    }
    assert(c == max / 3_600_000) by {
        vstd::arithmetic::div_mod::lemma_div_denominator(max as int, 60_000, 60);
    }
    assert(d == max / 86_400_000) by {
        vstd::arithmetic::div_mod::lemma_div_denominator(max as int, 3_600_000, 24);
    }
    assert(time_steps(d, 4) == 0);
    assert(time_steps(c, 3) == if d == 0 { 0 } else { 1 + time_steps(d, 4) });
    assert(time_steps(b, 2) == if c == 0 { 0 } else { 1 + time_steps(c, 3) });
    assert(time_steps(a, 1) == if b == 0 { 0 } else { 1 + time_steps(b, 2) });
    assert(time_steps(max, 0) == if a == 0 { 0 } else { 1 + time_steps(a, 1) });
    lemma_time_denominators();
}

proof fn lemma_time_denominators()
    ensures
        time_denominator(0) == 1,
        time_denominator(1) == 1000,
        time_denominator(2) == 60_000,
        time_denominator(3) == 3_600_000,
        time_denominator(4) == 86_400_000,
{
    assert(time_denominator(0) == 1);
    assert(time_denominator(1) == 1000);
    assert(time_denominator(2) == 60_000);
    assert(time_denominator(3) == 3_600_000);
    assert(time_denominator(4) == 86_400_000);
}

/// The number of decimal digits of `n` beyond the first.
pub open spec fn extra_digits(n: nat) -> nat
    decreases n,
{
    if n < 10 {
        0
    } else {
        1 + extra_digits(n / 10)
    }
}

/// The divisor of a number axis whose largest value is `max`: values of
/// 10,000 and more are shown as multiples of the power of ten just below
/// `max`; smaller ones are not scaled.
pub fn number_denominator(max: u64) -> (d: u64)
    ensures
        d == if max >= 10_000 {
            power(10, extra_digits(max as nat))
        } else {
            1
        },
{
    if max < 10_000 {
        return 1;
    }
    let mut m = max;
    let mut d: u64 = 1;
    while m >= 10
        invariant
            d * m <= max,
            d >= 1,
            extra_digits(max as nat) == extra_digits(m as nat) + extra_digits_done(d as nat),
            d == power(10, extra_digits_done(d as nat)),
        decreases m,
    {
        proof {
            assert(d * 10 * (m / 10) <= d * m) by (nonlinear_arith)
                requires
                    d >= 1,
            ;
            assert(d * 10 <= d * m) by (nonlinear_arith)
                requires
                    d >= 1,
                    m >= 10,
            ;
            lemma_power_step(d as nat);
        }
        d = d * 10;
        m = m / 10;
    }
    d
}

/// How many factors of ten a power of ten holds.
pub open spec fn extra_digits_done(d: nat) -> nat
    decreases d,
{
    if d < 10 {
        0
    } else {
        1 + extra_digits_done(d / 10)
    }
}

proof fn lemma_power_step(d: nat)
    requires
        d == power(10, extra_digits_done(d)),
    ensures
        d * 10 == power(10, extra_digits_done(d * 10)),
        extra_digits_done(d * 10) == extra_digits_done(d) + 1,
    decreases d,
{
    assert((d * 10) / 10 == d) by (nonlinear_arith);
    if d >= 10 {
        assert(d * 10 >= 10);
    } else {
        assert(d == 1);
    }
}

/// The grid of a figure that holds `count` plots in rows of at most
/// `columns`: as many rows as needed, and as many columns as the plots
/// fill.
pub fn figure_layout(count: usize, columns: usize) -> (r: (usize, usize))
    requires
        columns > 0,
    ensures
        r.0 == (count + columns - 1) / (columns as int),
        r.1 == if count < columns {
            count
        } else {
            columns
        },
{
    let full = count / columns;
    proof {
        if count % columns != 0 {
            assert(columns > 1);
            assert(count / columns < count || count == 0) by (nonlinear_arith)
                requires
                    columns > 1,
            ;
        }
    }
    let rows = if count % columns == 0 {
        full
    } else {
        full + 1
    };
    proof {
        let c = count as int;
        let k = columns as int;
        assert((c + k - 1) / k == if c % k == 0 {
            c / k
        } else {
            c / k + 1
        }) by (nonlinear_arith)
            requires
                k > 0,
                c >= 0,
        ;
    }
    let cols = if count < columns {
        count
    } else {
        columns
    };
    (rows, cols)
}

/// An axis label with a unit: `label (unit)`.
pub open spec fn unit_label_text(label: Seq<char>, unit: Seq<char>) -> Seq<char> {
    label + " ("@ + unit + ")"@
}

/// Returns an axis label with its unit: `label (unit)`.
pub fn unit_label(label: &str, unit: &str) -> (s: String)
    ensures
        s@ == unit_label_text(label@, unit@),
{
    let mut out: Vec<char> = Vec::new();
    push_str(&mut out, label);
    push_str(&mut out, " (");
    push_str(&mut out, unit);
    push_str(&mut out, ")");
    proof {
        assert(out@ =~= unit_label_text(label@, unit@));
    }
    string_from_chars(&out)
}

/// A number axis label: `label (xN)` with the divisor in groups of three
/// digits when it is above one, else the label alone.
pub open spec fn number_label_text(label: Seq<char>, denominator: nat) -> Seq<char> {
    if denominator > 1 {
        label + " (x"@ + grouped(denominator) + ")"@
    } else {
        label
    }
}

/// Returns a number axis label for values divided by `denominator`.
pub fn number_label(label: &str, denominator: u64) -> (s: String)
    ensures
        s@ == number_label_text(label@, denominator as nat),
{
    let mut out: Vec<char> = Vec::new();
    push_str(&mut out, label);
    if denominator > 1 {
        push_str(&mut out, " (x");
        push_grouped(&mut out, denominator);
        push_str(&mut out, ")");
    }
    proof {
        assert(out@ =~= number_label_text(label@, denominator as nat));
    }
    string_from_chars(&out)
}

} // verus!
