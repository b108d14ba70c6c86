use vstd::prelude::*;

use crate::fmt::{decimal, grouped, lemma_timespan_reads_back, timespan_text, timespan_value, push_decimal, push_grouped, push_str, string_from_chars};

verus! {

/// What a progress bar prints after its percentage.
#[derive(PartialEq, Eq, Structural, Clone, Copy, Debug)]
pub enum ProgressTag {
    /// Ticks per second.
    Tps,
    /// Data processed per second.
    Dps,
    /// Estimated remaining time.
    Eta,
    /// Elapsed time.
    Time,
}

/// What a progress bar prints after its percentage (the set of an earlier
/// release, without `Dps`).
#[derive(PartialEq, Eq, Structural, Clone, Copy, Debug)]
pub enum Tag {
    /// Ticks per second.
    Tps,
    /// Estimated remaining time.
    Eta,
    /// Elapsed time.
    Time,
}

/// What a progress state holds.
pub struct ProgressView {
    pub total: u64,
    pub curr: u64,
    pub width: u64,
    pub filled: u8,
    pub current: u8,
    pub remaining: u8,
    pub stopped: bool,
    pub tags: Seq<ProgressTag>,
}

/// The state of a progress bar: how far it has come out of its total, how
/// it is drawn, and which tags it prints.
pub struct ProgressState {
    total: u64,
    curr: u64,
    width: u64,
    filled: u8,
    current: u8,
    remaining: u8,
    stopped: bool,
    tags: Vec<ProgressTag>,
}

/// Whether no tag occurs twice.
pub open spec fn distinct_tags(tags: Seq<ProgressTag>) -> bool {
    forall|i: int, j: int| 0 <= i < j < tags.len() ==> tags[i] != tags[j]
}

/// The percentage of `total` that `curr` is, at most 100, rounded down.
pub open spec fn percent(curr: nat, total: nat) -> nat {
    let c = if curr < total {
        curr
    } else {
        total
    };
    100 * c / total
}

/// The column of a `width`-wide bar at which `amount` percent is reached,
/// rounded down.
pub open spec fn bar_position(width: nat, amount: nat) -> nat {
    width * amount / 100
}

/// The character at column `i` of a bar whose progress is at `position`.
pub open spec fn bar_char(v: ProgressView, i: nat, position: nat) -> char {
    if i < position {
        v.filled as char
    } else if i > position {
        v.remaining as char
    } else {
        v.current as char
    }
}

/// The colored columns `0..n` of a bar.
pub open spec fn bar_cells(v: ProgressView, n: nat, position: nat, color: Seq<char>) -> Seq<char>
    decreases n,
{
    if n == 0 {
        Seq::empty()
    } else {
        bar_cells(v, (n - 1) as nat, position, color) + "\x1B["@ + color + "m"@ + seq![
            bar_char(v, (n - 1) as nat, position),
        ] + "\x1B[0m"@
    }
}

/// A bar shows 100 percent exactly when its count has reached its total.
pub proof fn lemma_full_iff_reached(curr: nat, total: nat)
    requires
        total > 0,
    ensures
        percent(curr, total) == 100 <==> curr >= total,
        percent(curr, total) <= 100,
{
    let c = if curr < total {
        curr
    } else {
        total
    };
    assert(100 * c / total <= 100) by (nonlinear_arith)
        requires
            c <= total,
            total > 0,
    ;
    if curr < total {
        assert(100 * c / total < 100) by (nonlinear_arith)
            requires
                c < total,
                total > 0,
        ;
    } else {
        assert(100 * c / total == 100) by (nonlinear_arith)
            requires
                c == total,
                total > 0,
        ;
    }
}

/// The percentage a bar shows never falls as its count grows.
pub proof fn lemma_percent_monotone(c1: nat, c2: nat, total: nat)
    requires
        total > 0,
        c1 <= c2,
    ensures
        percent(c1, total) <= percent(c2, total),
{
    let a = if c1 < total {
        c1
    } else {
        total
    };
    let b = if c2 < total {
        c2
    } else {
        total
    };
    assert(100 * a / total <= 100 * b / total) by (nonlinear_arith)
        requires
            a <= b,
            total > 0,
    ;
}

/// How a bar is colored.
#[derive(PartialEq, Eq, Structural, Clone, Copy, Debug)]
pub enum BarColor {
    /// While in progress.
    Yellow,
    /// Finished before reaching its total.
    Red,
    /// Finished at its total.
    Green,
}

/// The terminal color code of a bar color.
pub open spec fn color_code(c: BarColor) -> Seq<char> {
    match c {
        BarColor::Yellow => "33"@,
        BarColor::Red => "31"@,
        BarColor::Green => "32"@,
    }
}

/// A bar and its percentage: `[`, the colored columns, `] `, and the
/// colored percentage.
pub open spec fn bar_text(v: ProgressView, color: BarColor) -> Seq<char> {
    let amount = percent(v.curr as nat, v.total as nat);
    let code = color_code(color);
    seq!['['] + bar_cells(v, v.width as nat, bar_position(v.width as nat, amount), code) + "] \x1B["@
        + code + "m"@ + decimal(amount) + " %\x1B[0m"@
}

impl ProgressState {
    pub closed spec fn view(&self) -> ProgressView {
        ProgressView {
            total: self.total,
            curr: self.curr,
            width: self.width,
            filled: self.filled,
            current: self.current,
            remaining: self.remaining,
            stopped: self.stopped,
            tags: self.tags@,
        }
    }

    /// A progress state has a total and a width, and no tag twice.
    pub open spec fn wf(&self) -> bool {
        &&& self.view().total != 0
        &&& self.view().width != 0
        &&& distinct_tags(self.view().tags)
    }

    /// Creates the state of a bar out of `total`, 70 columns wide, drawn
    /// with `=`, `>` and spaces, without tags.
    pub fn new(total: u64) -> (r: Self)
        requires
            total != 0,
        ensures
            r.wf(),
            r.view() == (ProgressView {
                total,
                curr: 0,
                width: 70,
                filled: 61,
                current: 62,
                remaining: 32,
                stopped: false,
                tags: Seq::empty(),
            }),
    {
        ProgressState {
            total,
            curr: 0,
            width: 70,
            filled: 61,
            current: 62,
            remaining: 32,
            stopped: false,
            tags: Vec::new(),
        }
    }

    /// Sets the width of the bar in columns.
    pub fn set_width(&mut self, width: u64)
        requires
            old(self).wf(),
            width != 0,
        ensures
            final(self).wf(),
            final(self).view() == (ProgressView { width, ..old(self).view() }),
    {
        self.width = width;
    }

    /// Sets the character of the columns already passed. Only its low
    /// byte is kept.
    pub fn set_filled_character(&mut self, c: char)
        requires
            old(self).wf(),
        ensures
            final(self).wf(),
            final(self).view() == (ProgressView { filled: c as u8, ..old(self).view() }),
    {
        self.filled = c as u8;
    }

    /// Sets the character of the current column. Only its low byte is
    /// kept.
    pub fn set_current_character(&mut self, c: char)
        requires
            old(self).wf(),
        ensures
            final(self).wf(),
            final(self).view() == (ProgressView { current: c as u8, ..old(self).view() }),
    {
        self.current = c as u8;
    }

    /// Sets the character of the columns still to come. Only its low byte
    /// is kept.
    pub fn set_remaining_character(&mut self, c: char)
        requires
            old(self).wf(),
        ensures
            final(self).wf(),
            final(self).view() == (ProgressView { remaining: c as u8, ..old(self).view() }),
    {
        self.remaining = c as u8;
    }

    /// Returns `true` if the tag is enabled.
    pub fn has_tag(&self, tag: ProgressTag) -> (r: bool)
        ensures
            r == self.view().tags.contains(tag),
    {
        let n = self.tags.len();
        let mut i: usize = 0;
        while i < n
            invariant
                i <= n,
                n == self.tags@.len(),
                forall|k: int| 0 <= k < i ==> self.tags@[k] != tag,
            decreases n - i,
        {
            if self.tags[i] == tag {
                return true;
            }
            i = i + 1;
        }
        false
    }

    /// Enables a tag, which must not be enabled yet.
    pub fn set_tag(&mut self, tag: ProgressTag)
        requires
            old(self).wf(),
            !old(self).view().tags.contains(tag),
        ensures
            final(self).wf(),
            final(self).view() == (ProgressView {
                tags: old(self).view().tags.push(tag),
                ..old(self).view()
            }),
    {
        self.tags.push(tag);
        proof {
            let t = self.tags@;
            assert forall|i: int, j: int| 0 <= i < j < t.len() implies t[i] != t[j] by {
                if j == t.len() - 1 {
                    assert(old(self).tags@[i] == t[i]);
                }
            }
        }
    }

    /// Returns the number of ticks so far.
    pub fn curr(&self) -> (r: u64)
        ensures
            r == self.view().curr,
    {
        self.curr
    }

    /// Returns the total the bar counts up to.
    pub fn total(&self) -> (r: u64)
        ensures
            r == self.view().total,
    {
        self.total
    }

    /// Returns the width of the bar in columns.
    pub fn width(&self) -> (r: u64)
        ensures
            r == self.view().width,
    {
        self.width
    }

    /// Returns `true` if the bar was stopped.
    pub fn is_stopped(&self) -> (r: bool)
        ensures
            r == self.view().stopped,
    {
        self.stopped
    }

    /// Returns the enabled tags, in the order they were enabled.
    pub fn tags(&self) -> (r: &Vec<ProgressTag>)
        ensures
            r@ == self.view().tags,
    {
        &self.tags
    }

    /// Returns `true` if the bar was stopped or has reached its total.
    pub fn is_complete(&self) -> (r: bool)
        ensures
            r == (self.view().stopped || self.view().curr >= self.view().total),
    {
        self.stopped || self.curr >= self.total
    }

    /// Advances the bar by `value` ticks, wrapping around as the shared
    /// counter it models does. A tick may not be larger than the total.
    pub fn tick(&mut self, value: u64)
        requires
            old(self).wf(),
            value <= old(self).view().total,
        ensures
            final(self).wf(),
            final(self).view() == (ProgressView {
                curr: ((old(self).view().curr + value) % 0x1_0000_0000_0000_0000) as u64,
                ..old(self).view()
            }),
    {
        self.curr = self.curr.wrapping_add(value);
    }

    /// Stops the bar.
    pub fn stop(&mut self)
        requires
            old(self).wf(),
        ensures
            final(self).wf(),
            final(self).view() == (ProgressView { stopped: true, ..old(self).view() }),
    {
        self.stopped = true;
    }

    /// Returns the percentage of the total reached, at most 100.
    pub fn amount(&self) -> (r: u8)
        requires
            self.wf(),
        ensures
            r == percent(self.view().curr as nat, self.view().total as nat),
            r <= 100,
    {
        let c: u64 = if self.curr < self.total {
            self.curr
        } else {
            self.total
        };
        let p: u128 = 100 * (c as u128) / (self.total as u128);
        proof {
            assert(100 * c / (self.total as int) <= 100) by (nonlinear_arith)
                requires
                    c <= self.total,
                    self.total > 0,
            ;
        }
        p as u8
    }

    /// Returns the bar and its percentage, colored with `color`.
    pub fn bar(&self, color: BarColor) -> (s: String)
        requires
            self.wf(),
        ensures
            s@ == bar_text(self.view(), color),
    {
        let amount = self.amount();
        let position = position_of(self.width, amount);
        let code = match color {
            BarColor::Yellow => "33",
            BarColor::Red => "31",
            BarColor::Green => "32",
        };
        proof {
            reveal_strlit("33");
            reveal_strlit("31");
            reveal_strlit("32");
        }
        let mut out: Vec<char> = Vec::new();
        out.push('[');
        let ghost start = out@;
        let mut i: u64 = 0;
        while i < self.width
            invariant
                i <= self.width,
                code@ == color_code(color),
                out@ == start + bar_cells(self.view(), i as nat, position as nat, code@),
            decreases self.width - i,
        {
            let c = if i < position {
                self.filled as char
            } else if i > position {
                self.remaining as char
            } else {
                self.current as char
            };
            push_str(&mut out, "\x1B[");
            push_str(&mut out, code);
            push_str(&mut out, "m");
            out.push(c);
            push_str(&mut out, "\x1B[0m");
            i = i + 1;
            proof {
                assert(out@ =~= start + bar_cells(self.view(), i as nat, position as nat, code@));
            }
        }
        push_str(&mut out, "] \x1B[");
        push_str(&mut out, code);
        push_str(&mut out, "m");
        push_decimal(&mut out, amount as u64);
        push_str(&mut out, " %\x1B[0m");
        proof {
            assert(out@ =~= bar_text(self.view(), color));
        }
        string_from_chars(&out)
    }
}

/// Returns the column of a `width`-wide bar at which `amount` percent is
/// reached.
pub fn position_of(width: u64, amount: u8) -> (r: u64)
    requires
        amount <= 100,
    ensures
        r == bar_position(width as nat, amount as nat),
{
    proof {
        assert(width * amount <= u64::MAX * 100) by (nonlinear_arith)
            requires
                amount <= 100,
        ;
        assert(width * amount / 100int <= width) by (nonlinear_arith)
            requires
                amount <= 100,
        ;
    }
    let p: u128 = (width as u128) * (amount as u128) / 100;
    p as u64
}

/// The color of a finished bar: green when it reached 100 percent, red
/// otherwise.
pub fn final_color(amount: u8) -> (c: BarColor)
    ensures
        c == (if amount < 100 {
            BarColor::Red
        } else {
            BarColor::Green
        }),
{
    if amount < 100 {
        BarColor::Red
    } else {
        BarColor::Green
    }
}

/// How long to wait before the next redraw, in milliseconds: 10 when the
/// bar advanced by more than one percent since the last draw, else 100.
pub fn redraw_delay(curr_amount: u8, prev_amount: u8) -> (ms: u64)
    requires
        prev_amount <= curr_amount,
    ensures
        ms == if curr_amount - prev_amount > 1 {
            10u64
        } else {
            100u64
        },
{
    if curr_amount - prev_amount > 1 {
        10
    } else {
        100
    }
}

/// The ticks-per-second tag.
pub open spec fn tps_text(rate: nat) -> Seq<char> {
    " ("@ + grouped(rate) + " tps)"@
}

/// The elapsed-time tag.
pub open spec fn time_text(ms: nat) -> Seq<char> {
    " (time "@ + timespan_text(ms) + ")"@
}

/// The remaining-time tag.
pub open spec fn eta_text(ms: nat) -> Seq<char> {
    " (eta "@ + timespan_text(ms) + ")"@
}

/// The ETA tag shows the whole remaining time: what stands between
/// " (eta " and the closing bracket reads back as the milliseconds it was
/// made from, so two different remaining times never get the same tag.
pub proof fn lemma_eta_tag_reads_back(ms: nat, other: nat)
    ensures
        timespan_value(eta_text(ms).subrange(6, eta_text(ms).len() - 1)) == ms,
        eta_text(ms) == eta_text(other) ==> ms == other,
{
    lemma_tag_inner(" (eta "@, ms);
    lemma_tag_inner(" (eta "@, other);
    reveal_strlit(" (eta ");
    lemma_timespan_reads_back(ms);
    lemma_timespan_reads_back(other);
}

/// The elapsed-time tag shows the whole elapsed time: what stands between
/// " (time " and the closing bracket reads back as the milliseconds it was
/// made from, so two different elapsed times never get the same tag.
pub proof fn lemma_time_tag_reads_back(ms: nat, other: nat)
    ensures
        timespan_value(time_text(ms).subrange(7, time_text(ms).len() - 1)) == ms,
        time_text(ms) == time_text(other) ==> ms == other,
{
    lemma_tag_inner(" (time "@, ms);
    lemma_tag_inner(" (time "@, other);
    reveal_strlit(" (time ");
    lemma_timespan_reads_back(ms);
    lemma_timespan_reads_back(other);
}

proof fn lemma_tag_inner(prefix: Seq<char>, ms: nat)
    ensures
        (prefix + timespan_text(ms) + ")"@).subrange(
            prefix.len() as int,
            (prefix + timespan_text(ms) + ")"@).len() - 1,
        ) == timespan_text(ms),
{
    reveal_strlit(")");
    assert((prefix + timespan_text(ms) + ")"@).subrange(
        prefix.len() as int,
        (prefix + timespan_text(ms) + ")"@).len() - 1,
    ) =~= timespan_text(ms));
}

/// Returns the ticks-per-second tag for `rate`.
pub fn tps_tag(rate: u64) -> (s: String)
    ensures
        s@ == tps_text(rate as nat),
{
    let mut out: Vec<char> = Vec::new();
    push_str(&mut out, " (");
    push_grouped(&mut out, rate);
    push_str(&mut out, " tps)");
    proof {
        assert(out@ =~= tps_text(rate as nat));
    }
    string_from_chars(&out)
}

/// Returns the elapsed-time tag for `ms` milliseconds.
pub fn time_tag(ms: u64) -> (s: String)
    ensures
        s@ == time_text(ms as nat),
{
    let t = crate::fmt::timespan(ms);
    let mut out: Vec<char> = Vec::new();
    push_str(&mut out, " (time ");
    push_str(&mut out, t.as_str());
    push_str(&mut out, ")");
    proof {
        assert(out@ =~= time_text(ms as nat));
    }
    string_from_chars(&out)
}

/// Returns the remaining-time tag for `ms` milliseconds.
pub fn eta_tag(ms: u64) -> (s: String)
    ensures
        s@ == eta_text(ms as nat),
{
    let t = crate::fmt::timespan(ms);
    let mut out: Vec<char> = Vec::new();
    push_str(&mut out, " (eta ");
    push_str(&mut out, t.as_str());
    push_str(&mut out, ")");
    proof {
        assert(out@ =~= eta_text(ms as nat));
    }
    string_from_chars(&out)
}

} // verus!
