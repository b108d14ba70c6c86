use std::collections::HashSet;

use vstd::prelude::*;

use crate::fmt::push_repeat;
use crate::table::cell::{byte_len, sized_text, CellView};
use crate::table::row::{bold_count, join, row_text, write_chars, ColumnJoinType, Row};

verus! {

broadcast use vstd::std_specs::hash::group_hash_axioms;

/// The contents of a table: its header row, its rows, the positions after
/// which spacer rows are printed, and its number of columns.
pub struct TableView {
    pub header: Option<Seq<CellView>>,
    pub rows: Seq<Seq<CellView>>,
    pub spacers: Set<usize>,
    pub row_len: usize,
}

/// The largest size of column `i` among the supplied rows.
pub open spec fn max_in_rows(rows: Seq<Seq<CellView>>, i: int) -> usize
    decreases rows.len(),
{
    if rows.len() == 0 {
        0
    } else {
        let rest = max_in_rows(rows.drop_last(), i);
        let here = byte_len(rows.last()[i].value);
        if here > rest {
            here
        } else {
            rest
        }
    }
}

/// The width of each column: the size of its largest value, header included.
pub open spec fn column_widths(t: TableView) -> Seq<usize> {
    Seq::new(
        t.row_len as nat,
        |i: int|
            {
                let h: usize = match t.header {
                    Some(h) => byte_len(h[i].value),
                    None => 0,
                };
                let r = max_in_rows(t.rows, i);
                if h > r {
                    h
                } else {
                    r
                }
            },
    )
}

/// A spacer line: dashes two longer than each column, joined by `+`.
pub open spec fn spacer_text(sizes: Seq<usize>) -> Seq<char> {
    "|"@ + join(Seq::new(sizes.len(), |i: int| Seq::new((sizes[i] + 2) as nat, |j: int| '-')), "+"@)
        + "|"@
}

/// The sum of the supplied column widths.
pub open spec fn widths_sum(sizes: Seq<usize>) -> int
    decreases sizes.len(),
{
    if sizes.len() == 0 {
        0
    } else {
        widths_sum(sizes.drop_last()) + sizes.last()
    }
}

/// The total length in characters of the supplied texts.
pub open spec fn texts_len(parts: Seq<Seq<char>>) -> int
    decreases parts.len(),
{
    if parts.len() == 0 {
        0
    } else {
        texts_len(parts.drop_last()) + parts.last().len()
    }
}

/// The dash runs of a spacer line, two longer than each column.
pub open spec fn dash_runs(sizes: Seq<usize>) -> Seq<Seq<char>> {
    Seq::new(sizes.len(), |i: int| Seq::new((sizes[i] + 2) as nat, |j: int| '-'))
}

proof fn lemma_join_front(parts: Seq<Seq<char>>, sep: Seq<char>)
    requires
        parts.len() >= 2,
    ensures
        join(parts, sep) == parts[0] + sep + join(parts.drop_first(), sep),
    decreases parts.len(),
{
    let dl = parts.drop_last();
    if parts.len() == 2 {
        assert(dl.len() == 1);
        assert(join(dl, sep) == dl[0]);
        assert(parts.drop_first().len() == 1);
        assert(join(parts.drop_first(), sep) == parts.drop_first()[0]);
        assert(join(parts, sep) == join(dl, sep) + sep + parts.last());
        assert(join(parts, sep) =~= parts[0] + sep + join(parts.drop_first(), sep));
    } else {
        lemma_join_front(dl, sep);
        let df = parts.drop_first();
        assert(df.drop_last() =~= dl.drop_first());
        assert(df.last() == parts.last());
        assert(join(df, sep) == join(df.drop_last(), sep) + sep + df.last());
        assert(join(parts, sep) == join(dl, sep) + sep + parts.last());
        assert(join(parts, sep) =~= parts[0] + sep + join(df, sep));
    }
}

proof fn lemma_join_len(parts: Seq<Seq<char>>, sep: Seq<char>)
    requires
        parts.len() > 0,
    ensures
        join(parts, sep).len() == texts_len(parts) + (parts.len() - 1) * sep.len(),
    decreases parts.len(),
{
    let n = parts.len() as int;
    let s = sep.len() as int;
    if parts.len() == 1 {
        assert(parts.drop_last().len() == 0);
        assert(texts_len(parts.drop_last()) == 0);
        assert((n - 1) * s == 0) by (nonlinear_arith)
            requires
                n == 1,
        ;
    } else {
        lemma_join_len(parts.drop_last(), sep);
        assert((n - 2) * s + s == (n - 1) * s) by (nonlinear_arith);
    }
}

proof fn lemma_dash_runs_len(sizes: Seq<usize>)
    ensures
        texts_len(dash_runs(sizes)) == widths_sum(sizes) + 2 * sizes.len(),
    decreases sizes.len(),
{
    if sizes.len() > 0 {
        lemma_dash_runs_len(sizes.drop_last());
        assert(dash_runs(sizes).drop_last() =~= dash_runs(sizes.drop_last()));
    }
}

/// A spacer line of columns with widths `sizes` is a `|`, a run of dashes
/// two longer than each column, with a `+` between each two runs, and a
/// closing `|`: it is as long as the widths and three characters per
/// column and one more, and its first `+` stands right after the first
/// column's dashes.
pub proof fn lemma_spacer_layout(sizes: Seq<usize>)
    requires
        sizes.len() > 0,
    ensures
        spacer_text(sizes).len() == widths_sum(sizes) + 3 * sizes.len() + 1,
        spacer_text(sizes)[0] == '|',
        spacer_text(sizes)[spacer_text(sizes).len() - 1] == '|',
        forall|j: int| 1 <= j <= sizes[0] + 2 ==> #[trigger] spacer_text(sizes)[j] == '-',
        sizes.len() >= 2 ==> spacer_text(sizes)[sizes[0] + 3] == '+',
{
    let runs = dash_runs(sizes);
    reveal_strlit("|");
    reveal_strlit("+");
    lemma_join_len(runs, "+"@);
    lemma_dash_runs_len(sizes);
    let first = runs[0];
    assert(first.len() == sizes[0] + 2);
    if sizes.len() >= 2 {
        lemma_join_front(runs, "+"@);
        let j = join(runs, "+"@);
        assert(j == first + "+"@ + join(runs.drop_first(), "+"@));
        assert(j[sizes[0] + 2] == '+');
        assert forall|k: int| 0 <= k < sizes[0] + 2 implies #[trigger] j[k] == '-' by {
            assert(j[k] == first[k]);
        }
    } else {
        assert(join(runs, "+"@) == first);
    }
    assert(spacer_text(sizes) == "|"@ + join(runs, "+"@) + "|"@);
}

proof fn lemma_cell_len(c: CellView, size: nat)
    requires
        c.value.len() <= size,
        byte_len(c.value) == c.value.len(),
    ensures
        sized_text(c, size).len() == size + if c.style is Bold {
            8int
        } else {
            0int
        },
{
    reveal_strlit("\x1B[1m");
    reveal_strlit("\x1B[0m");
    let d = size - byte_len(c.value);
    if d > 0 {
        assert(d / 2 + (d + 1) / 2 == d);
    }
}

proof fn lemma_cells_len(cells: Seq<CellView>, sizes: Seq<usize>)
    requires
        cells.len() == sizes.len(),
        forall|i: int| 0 <= i < cells.len() ==> (#[trigger] cells[i]).value.len() <= sizes[i],
        forall|i: int| 0 <= i < cells.len() ==> byte_len((#[trigger] cells[i]).value) == cells[i].value.len(),
    ensures
        texts_len(Seq::new(cells.len(), |i: int| sized_text(cells[i], sizes[i] as nat)))
            == widths_sum(sizes) + 8 * bold_count(cells),
    decreases cells.len(),
{
    if cells.len() > 0 {
        let n = cells.len() - 1;
        lemma_cells_len(cells.drop_last(), sizes.drop_last());
        assert(Seq::new(cells.len(), |i: int| sized_text(cells[i], sizes[i] as nat)).drop_last()
            =~= Seq::new(cells.drop_last().len(), |i: int| sized_text(cells.drop_last()[i], sizes.drop_last()[i] as nat)));
        assert(cells[n].value.len() <= sizes[n]);
        assert(byte_len(cells[n].value) == cells[n].value.len());
        lemma_cell_len(cells[n], sizes[n] as nat);
    }
}

/// A row whose values fit their columns (and whose characters each take
/// one byte) prints exactly as long as the spacer line of the same
/// columns, besides the eight characters of bold codes around each bold
/// cell: rows and spacers line up.
pub proof fn lemma_rows_line_up(cells: Seq<CellView>, sizes: Seq<usize>)
    requires
        cells.len() == sizes.len(),
        sizes.len() > 0,
        forall|i: int| 0 <= i < cells.len() ==> (#[trigger] cells[i]).value.len() <= sizes[i],
        forall|i: int| 0 <= i < cells.len() ==> byte_len((#[trigger] cells[i]).value) == cells[i].value.len(),
    ensures
        row_text(cells, sizes, ColumnJoinType::Spaced).len() == spacer_text(sizes).len() + 8
            * bold_count(cells),
{
    let parts = Seq::new(cells.len(), |i: int| sized_text(cells[i], sizes[i] as nat));
    reveal_strlit("| ");
    reveal_strlit(" | ");
    reveal_strlit(" |");
    lemma_join_len(parts, " | "@);
    lemma_cells_len(cells, sizes);
    lemma_spacer_layout(sizes);
    assert(row_text(cells, sizes, ColumnJoinType::Spaced) == "| "@ + join(parts, " | "@) + " |"@);
}

/// A spacer line if the table has a spacer at `index`, nothing otherwise.
pub open spec fn spacer_at(t: TableView, index: int) -> Seq<char> {
    if index >= 0 && t.spacers.contains(index as usize) {
        spacer_text(column_widths(t)).push('\n')
    } else {
        Seq::empty()
    }
}

/// The lines of the first `n` rows, each followed by its spacer line.
pub open spec fn rows_text(t: TableView, n: int, offset: int) -> Seq<char>
    decreases n,
{
    if n <= 0 {
        Seq::empty()
    } else {
        rows_text(t, n - 1, offset) + row_text(t.rows[n - 1], column_widths(t), ColumnJoinType::Spaced).push(
            '\n',
        ) + spacer_at(t, offset + n)
    }
}

/// The printed table: an optional leading spacer, the header and its
/// spacer, then each row followed by its spacer.
pub open spec fn table_text(t: TableView) -> Seq<char> {
    let head = match t.header {
        Some(h) => row_text(h, column_widths(t), ColumnJoinType::Spaced).push('\n') + spacer_at(t, 1),
        None => Seq::empty(),
    };
    let offset: int = if t.header is Some {
        1
    } else {
        0
    };
    spacer_at(t, 0) + head + rows_text(t, t.rows.len() as int, offset)
}

/// A table of rows, printed with aligned columns.
pub struct Table {
    header: Option<Row>,
    rows: Vec<Row>,
    spacers: HashSet<usize>,
    row_len: usize,
}

impl View for Table {
    type V = TableView;

    closed spec fn view(&self) -> TableView {
        TableView {
            header: match self.header {
                Some(h) => Some(h@),
                None => None,
            },
            rows: self.rows@.map_values(|r: Row| r@),
            spacers: self.spacers@,
            row_len: self.row_len,
        }
    }
}

impl Table {
    /// Every row has as many columns as the table, and every row is valid.
    pub closed spec fn wf(&self) -> bool {
        &&& forall|j: int| 0 <= j < self.rows@.len() ==> (#[trigger] self.rows@[j])@.len() == self.row_len
        &&& forall|j: int| 0 <= j < self.rows@.len() ==> (#[trigger] self.rows@[j]).wf()
        &&& match self.header {
            Some(h) => h.wf(),
            None => true,
        }
    }

    /// The table can be printed: its header, if any, has as many columns as
    /// the table.
    pub open spec fn printable(t: TableView) -> bool {
        match t.header {
            Some(h) => h.len() == t.row_len,
            None => true,
        }
    }

    /// Creates an empty table.
    pub fn new() -> (t: Self)
        ensures
            t.wf(),
            t@.header is None,
            t@.rows == Seq::<Seq<CellView>>::empty(),
            t@.spacers == Set::<usize>::empty(),
            t@.row_len == 0,
    {
        let t = Table { header: None, rows: Vec::new(), spacers: HashSet::new(), row_len: 0 };
        proof {
            assert(t@.rows =~= Seq::<Seq<CellView>>::empty());
        }
        t
    }

    /// Returns the table's header row, if it has one.
    pub fn header(&self) -> (r: Option<&Row>)
        ensures
            match r {
                Some(h) => self@.header == Some(h@),
                None => self@.header is None,
            },
    {
        match &self.header {
            Some(h) => Some(h),
            None => None,
        }
    }

    /// Returns the table's rows, in the order they were added.
    pub fn rows(&self) -> (r: &Vec<Row>)
        ensures
            r@.map_values(|x: Row| x@) == self@.rows,
    {
        &self.rows
    }

    /// Sets the table's header row. The header row is followed by a spacer
    /// row.
    pub fn set_header(&mut self, header: Row)
        requires
            old(self).wf(),
            header.wf(),
            old(self)@.rows.len() == 0 || header@.len() == old(self)@.row_len,
        ensures
            final(self).wf(),
            final(self)@ == (TableView {
                header: Some(header@),
                row_len: header@.len() as usize,
                spacers: old(self)@.spacers.insert(1),
                ..old(self)@
            }),
    {
        self.row_len = header.len();
        self.header = Some(header);
        self.spacers.insert(1);
    }

    /// Adds a row to the table. Its length must match the existing row
    /// length: that of the header or of the rows added before, if any.
    pub fn add_row(&mut self, row: Row)
        requires
            old(self).wf(),
            row.wf(),
            (old(self)@.rows.len() == 0 && old(self)@.header is None) || row@.len()
                == old(self)@.row_len,
        ensures
            final(self).wf(),
            final(self)@ == (TableView {
                rows: old(self)@.rows.push(row@),
                row_len: row@.len() as usize,
                ..old(self)@
            }),
    {
        self.row_len = row.len();
        self.rows.push(row);
        proof {
            assert(self@.rows =~= old(self)@.rows.push(row@));
        }
    }

    /// Adds a spacer row after the rows added so far.
    pub fn add_spacer(&mut self)
        requires
            old(self).wf(),
            old(self)@.rows.len() < usize::MAX,
        ensures
            final(self).wf(),
            final(self)@ == (TableView {
                spacers: old(self)@.spacers.insert(
                    (old(self)@.rows.len() + if old(self)@.header is Some {
                        1int
                    } else {
                        0int
                    }) as usize,
                ),
                ..old(self)@
            }),
    {
        let mut index = self.rows.len();
        if self.header.is_some() {
            index = index + 1;
        }
        self.spacers.insert(index);
    }

    /// Returns the width of each column: the size of its largest value,
    /// header included.
    pub fn max_column_lens(&self) -> (sizes: Vec<usize>)
        requires
            self.wf(),
            Self::printable(self@),
        ensures
            sizes@ == column_widths(self@),
    {
        let n = self.row_len;
        let mut sizes: Vec<usize> = Vec::new();
        for i in 0..n
            invariant
                sizes@.len() == i,
                forall|k: int| 0 <= k < i ==> sizes@[k] == 0,
        {
            sizes.push(0);
        }
        if let Some(header) = &self.header {
            for i in 0..n
                invariant
                    n == self.row_len,
                    header@.len() == n,
                    sizes@.len() == n,
                    forall|k: int| 0 <= k < i ==> sizes@[k] == byte_len(header@[k].value),
                    forall|k: int| i <= k < n ==> sizes@[k] == 0,
            {
                let size = header.get_column_size(i);
                sizes.set(i, size);
            }
        }
        let ghost base = sizes@;
        let m = self.rows.len();
        for j in 0..m
            invariant
                m == self.rows@.len(),
                n == self.row_len,
                sizes@.len() == n,
                self.wf(),
                base.len() == n,
                forall|k: int| 0 <= k < n ==> {
                    let r = max_in_rows(self@.rows.take(j as int), k);
                    #[trigger] sizes@[k] == if base[k] > r {
                        base[k]
                    } else {
                        r
                    }
                },
        {
            let row = &self.rows[j];
            let ghost prev = sizes@;
            for i in 0..n
                invariant
                    n == self.row_len,
                    sizes@.len() == n,
                    row@.len() == n,
                    prev.len() == n,
                    forall|k: int| 0 <= k < i ==> #[trigger] sizes@[k] == if byte_len(row@[k].value) > prev[k] {
                        byte_len(row@[k].value)
                    } else {
                        prev[k]
                    },
                    forall|k: int| i <= k < n ==> #[trigger] sizes@[k] == prev[k],
            {
                let size = row.get_column_size(i);
                if size > sizes[i] {
                    sizes.set(i, size);
                }
            }
            proof {
                let t = self@.rows.take(j + 1);
                assert(t.drop_last() =~= self@.rows.take(j as int));
                assert(t.last() == row@);
            }
        }
        proof {
            assert(self@.rows.take(m as int) =~= self@.rows);
            assert(sizes@ =~= column_widths(self@)) by {
                assert forall|k: int| 0 <= k < n implies sizes@[k] == column_widths(self@)[k] by {
                    match self.header {
                        Some(h) => {},
                        None => {},
                    }
                }
            }
        }
        sizes
    }

    /// Prints the table to the supplied buffer: an optional leading spacer,
    /// the header and its spacer, then each row followed by its spacer,
    /// with every column as wide as its largest value.
    pub fn print(&self, stdout: &mut Vec<u8>)
        requires
            self.wf(),
            Self::printable(self@),
            self@.rows.len() < usize::MAX,
        ensures
            final(stdout)@ == old(stdout)@ + vstd::utf8::encode_utf8(table_text(self@)),
    {
        let sizes = self.max_column_lens();
        let ghost t = self@;
        let ghost widths = column_widths(t);
        let mut out: Vec<char> = Vec::new();
        if self.spacers.contains(&0) {
            push_spacer(&mut out, &sizes);
        }
        proof {
            assert(out@ =~= spacer_at(t, 0));
        }
        let ghost first = out@;
        let mut offset: usize = 0;
        if let Some(header) = &self.header {
            offset = 1;
            header.push_text(&mut out, &sizes, ColumnJoinType::Spaced);
            out.push('\n');
            if self.spacers.contains(&1) {
                push_spacer(&mut out, &sizes);
            }
            proof {
                assert(out@ =~= first + (row_text(header@, widths, ColumnJoinType::Spaced).push('\n')
                    + spacer_at(t, 1)));
            }
        }
        let ghost head_end = out@;
        let m = self.rows.len();
        for j in 0..m
            invariant
                m == self.rows@.len(),
                m < usize::MAX,
                offset <= 1,
                offset == (if t.header is Some { 1int } else { 0int }),
                t == self@,
                self.wf(),
                sizes@ == column_widths(t),
                out@ == head_end + rows_text(t, j as int, offset as int),
        {
            let row = &self.rows[j];
            row.push_text(&mut out, &sizes, ColumnJoinType::Spaced);
            out.push('\n');
            let index = offset + j + 1;
            if self.spacers.contains(&index) {
                push_spacer(&mut out, &sizes);
            }
            proof {
                assert(self@.rows[j as int] == row@);
                assert(out@ =~= head_end + rows_text(t, j + 1, offset as int));
            }
        }
        proof {
            assert(out@ =~= table_text(t));
        }
        write_chars(stdout, &out);
    }
}

/// Appends a spacer line for the supplied column sizes to `out`.
fn push_spacer(out: &mut Vec<char>, sizes: &Vec<usize>)
    ensures
        final(out)@ == old(out)@ + spacer_text(sizes@).push('\n'),
{
    let ghost parts = Seq::new(sizes@.len(), |i: int| Seq::new((sizes@[i] + 2) as nat, |j: int| '-'));
    out.push('|');
    let ghost start = out@;
    let n = sizes.len();
    for i in 0..n
        invariant
            n == sizes@.len(),
            parts == Seq::new(sizes@.len(), |i: int| Seq::new((sizes@[i] + 2) as nat, |j: int| '-')),
            out@ == start + join(parts.take(i as int), "+"@),
    {
        if i > 0 {
            out.push('+');
        }
        push_repeat(out, '-', sizes[i]);
        out.push('-');
        out.push('-');
        proof {
            reveal_strlit("+");
            let t = parts.take(i + 1);
            assert(t.drop_last() =~= parts.take(i as int));
            if i == 0 {
                assert(join(t, "+"@) == t[0]);
            }
            assert(out@ =~= start + join(parts.take(i + 1), "+"@));
        }
    }
    out.push('|');
    out.push('\n');
    proof {
        reveal_strlit("|");
        assert(parts.take(n as int) =~= parts);
        assert(final(out)@ =~= old(out)@ + spacer_text(sizes@).push('\n'));
    }
}

impl Default for Table {
    fn default() -> (t: Self)
        ensures
            t.wf(),
            t@.header is None,
            t@.rows == Seq::<Seq<CellView>>::empty(),
            t@.spacers == Set::<usize>::empty(),
            t@.row_len == 0,
    {
        Table::new()
    }
}

} // verus!
