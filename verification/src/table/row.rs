use vstd::prelude::*;

use std::io;

use crate::file::csv::{RowData, WriteRow};
use crate::fmt::{push_str, string_from_chars};
use crate::table::cell::{byte_len, sized_text, spaces, Align, Cell, CellView, Style};

verus! {

/// How the columns of a printed row are separated.
pub enum ColumnJoinType {
    Normal,
    Spaced,
    Plus,
}

/// The parts joined by a separator.
pub open spec fn join(parts: Seq<Seq<char>>, sep: Seq<char>) -> Seq<char>
    decreases parts.len(),
{
    if parts.len() == 0 {
        Seq::empty()
    } else if parts.len() == 1 {
        parts[0]
    } else {
        join(parts.drop_last(), sep) + sep + parts.last()
    }
}

/// The text of a row whose cells are laid out in columns of the supplied
/// sizes: `| a | b |` for spaced rows, `|a|b|` and `|a+b|` otherwise.
pub open spec fn row_text(cells: Seq<CellView>, sizes: Seq<usize>, join_type: ColumnJoinType) -> Seq<
    char,
> {
    let parts = Seq::new(cells.len(), |i: int| sized_text(cells[i], sizes[i] as nat));
    match join_type {
        ColumnJoinType::Normal => "|"@ + join(parts, "|"@) + "|"@,
        ColumnJoinType::Spaced => "| "@ + join(parts, " | "@) + " |"@,
        ColumnJoinType::Plus => "|"@ + join(parts, "+"@) + "|"@,
    }
}

/// The sizes of the cells' values in bytes.
pub open spec fn own_sizes(cells: Seq<CellView>) -> Seq<usize> {
    Seq::new(cells.len(), |i: int| byte_len(cells[i].value))
}

/// The total length of the cells' values, in characters.
pub open spec fn values_len(cells: Seq<CellView>) -> int
    decreases cells.len(),
{
    if cells.len() == 0 {
        0
    } else {
        values_len(cells.drop_last()) + cells.last().value.len()
    }
}

/// The number of bold cells.
pub open spec fn bold_count(cells: Seq<CellView>) -> int
    decreases cells.len(),
{
    if cells.len() == 0 {
        0
    } else {
        bold_count(cells.drop_last()) + if cells.last().style is Bold {
            1int
        } else {
            0int
        }
    }
}

/// The cells laid out in columns as wide as their own values.
pub open spec fn own_texts(cells: Seq<CellView>) -> Seq<Seq<char>> {
    Seq::new(cells.len(), |i: int| sized_text(cells[i], own_sizes(cells)[i] as nat))
}

/// The total length in bytes of the supplied texts.
pub open spec fn texts_bytes(parts: Seq<Seq<char>>) -> int
    decreases parts.len(),
{
    if parts.len() == 0 {
        0
    } else {
        texts_bytes(parts.drop_last()) + vstd::utf8::encode_utf8(parts.last()).len()
    }
}

proof fn lemma_encode_concat(a: Seq<char>, b: Seq<char>)
    ensures
        vstd::utf8::encode_utf8(a + b) == vstd::utf8::encode_utf8(a) + vstd::utf8::encode_utf8(b),
    decreases a.len(),
{
    if a.len() == 0 {
        assert(a + b =~= b);
        assert(vstd::utf8::encode_utf8(a) + vstd::utf8::encode_utf8(b) =~= vstd::utf8::encode_utf8(b));
    } else {
        assert((a + b).drop_first() =~= a.drop_first() + b);
        assert((a + b)[0] == a[0]);
        lemma_encode_concat(a.drop_first(), b);
        assert(vstd::utf8::encode_utf8(a + b) =~= vstd::utf8::encode_utf8(a) + vstd::utf8::encode_utf8(b));
    }
}

proof fn lemma_join_bytes(parts: Seq<Seq<char>>, sep: Seq<char>)
    requires
        parts.len() > 0,
    ensures
        vstd::utf8::encode_utf8(join(parts, sep)).len() == texts_bytes(parts) + (parts.len() - 1)
            * vstd::utf8::encode_utf8(sep).len(),
    decreases parts.len(),
{
    let s = vstd::utf8::encode_utf8(sep).len() as int;
    let n = parts.len() as int;
    if parts.len() == 1 {
        assert(parts.drop_last() =~= Seq::<Seq<char>>::empty());
        assert(texts_bytes(parts.drop_last()) == 0);
        assert(join(parts, sep) == parts[0]);
        assert(parts.last() == parts[0]);
        assert((n - 1) * s == 0) by (nonlinear_arith)
            requires
                n == 1,
        ;
    } else {
        let dl = parts.drop_last();
        lemma_join_bytes(dl, sep);
        assert(join(parts, sep) == join(dl, sep) + sep + parts.last());
        lemma_encode_concat(join(dl, sep), sep);
        lemma_encode_concat(join(dl, sep) + sep, parts.last());
        assert(dl.len() == n - 1);
        assert((n - 2) * s + s == (n - 1) * s) by (nonlinear_arith);
    }
}

proof fn lemma_ascii_len(s: Seq<char>)
    requires
        vstd::utf8::is_ascii_chars(s),
    ensures
        vstd::utf8::encode_utf8(s).len() == s.len(),
{
    vstd::utf8::is_ascii_chars_encode_utf8(s);
}

proof fn lemma_cell_bytes(c: CellView)
    requires
        vstd::utf8::is_ascii_chars(c.value),
        c.value.len() <= usize::MAX,
    ensures
        vstd::utf8::encode_utf8(sized_text(c, byte_len(c.value) as nat)).len() == c.value.len() + if c.style is Bold {
            8int
        } else {
            0int
        },
{
    lemma_ascii_len(c.value);
    let size = byte_len(c.value) as nat;
    assert(size == c.value.len());
    assert(spaces(0) =~= Seq::<char>::empty());
    let body = match c.align {
        Align::Left => c.value + spaces(size - c.value.len()),
        Align::Right => spaces(size - c.value.len()) + c.value,
        Align::Center => {
            let d = size - byte_len(c.value);
            if d > 0 {
                spaces(d / 2) + c.value + spaces((d + 1) / 2)
            } else {
                c.value
            }
        },
    };
    assert(body =~= c.value);
    if c.style is Bold {
        reveal_strlit("\x1B[1m");
        reveal_strlit("\x1B[0m");
        lemma_ascii_len("\x1B[1m"@);
        lemma_ascii_len("\x1B[0m"@);
        lemma_encode_concat("\x1B[1m"@, body);
        lemma_encode_concat("\x1B[1m"@ + body, "\x1B[0m"@);
    }
}

proof fn lemma_texts_bytes(cells: Seq<CellView>)
    requires
        forall|i: int| 0 <= i < cells.len() ==> vstd::utf8::is_ascii_chars(#[trigger] cells[i].value),
        forall|i: int| 0 <= i < cells.len() ==> (#[trigger] cells[i].value).len() <= usize::MAX,
    ensures
        texts_bytes(own_texts(cells)) == values_len(cells) + 8 * bold_count(cells),
    decreases cells.len(),
{
    if cells.len() > 0 {
        let dl = cells.drop_last();
        lemma_texts_bytes(dl);
        assert(own_texts(cells).drop_last() =~= own_texts(dl));
        let c = cells.last();
        assert(vstd::utf8::is_ascii_chars(cells[cells.len() - 1].value));
        assert(cells[cells.len() - 1].value.len() <= usize::MAX);
        lemma_cell_bytes(c);
        assert(own_texts(cells).last() == sized_text(c, byte_len(c.value) as nat));
    }
}

/// A row of ASCII values, each in a column as wide as itself, takes four
/// bytes of borders, its values, three bytes between each two columns,
/// and eight bytes of bold codes for each bold cell: the size that
/// `Row::size` gives.
pub proof fn lemma_row_size(cells: Seq<CellView>)
    requires
        cells.len() > 0,
        forall|i: int| 0 <= i < cells.len() ==> vstd::utf8::is_ascii_chars(#[trigger] cells[i].value),
        forall|i: int| 0 <= i < cells.len() ==> (#[trigger] cells[i].value).len() <= usize::MAX,
    ensures
        vstd::utf8::encode_utf8(row_text(cells, own_sizes(cells), ColumnJoinType::Spaced)).len() == 4
            + values_len(cells) + 3 * (cells.len() - 1) + 8 * bold_count(cells),
{
    let parts = own_texts(cells);
    assert(row_text(cells, own_sizes(cells), ColumnJoinType::Spaced) == "| "@ + join(parts, " | "@)
        + " |"@);
    reveal_strlit("| ");
    reveal_strlit(" | ");
    reveal_strlit(" |");
    lemma_ascii_len("| "@);
    lemma_ascii_len(" | "@);
    lemma_ascii_len(" |"@);
    lemma_join_bytes(parts, " | "@);
    lemma_encode_concat("| "@, join(parts, " | "@));
    lemma_encode_concat("| "@ + join(parts, " | "@), " |"@);
    lemma_texts_bytes(cells);
}

/// A table row.
pub struct Row {
    cells: Vec<Cell>,
    max_len: usize,
}

impl View for Row {
    type V = Seq<CellView>;

    closed spec fn view(&self) -> Seq<CellView> {
        self.cells@.map_values(|c: Cell| c@)
    }
}

impl Row {
    /// The row records the length of its longest value.
    pub closed spec fn wf(&self) -> bool {
        &&& forall|i: int| 0 <= i < self.cells@.len() ==> byte_len(#[trigger] self.cells@[i]@.value) <= self.max_len
    }

    /// Creates a row with no columns.
    pub fn new() -> (r: Self)
        ensures
            r.wf(),
            r@ == Seq::<CellView>::empty(),
    {
        let r = Row { cells: Vec::new(), max_len: 0 };
        proof {
            assert(r@ =~= Seq::<CellView>::empty());
        }
        r
    }

    /// Returns `true` if there are no columns in the row.
    pub fn is_empty(&self) -> (r: bool)
        ensures
            r == (self@.len() == 0),
    {
        self.cells.len() == 0
    }

    /// Returns the number of columns in the row.
    pub fn len(&self) -> (r: usize)
        ensures
            r == self@.len(),
    {
        self.cells.len()
    }

    /// Adds a new column to the end of the row.
    pub fn push(self, value: &str, align: Align, style: Style) -> (r: Self)
        requires
            self.wf(),
        ensures
            r.wf(),
            r@ == self@.push(CellView { value: value@, align: align, style: style }),
    {
        let mut row = self;
        let string = value.to_owned();
        let cell = Cell::new(string, align, style);
        let len = cell.size();
        if len > row.max_len {
            row.max_len = len;
        }
        row.cells.push(cell);
        proof {
            assert(row@ =~= self@.push(CellView { value: value@, align: align, style: style }));
            assert forall|i: int| 0 <= i < row.cells@.len() implies byte_len(#[trigger] row.cells@[i]@.value) <= row.max_len by {
                if i < self.cells@.len() {
                    assert(row.cells@[i] == self.cells@[i]);
                }
            }
        }
        row
    }

    /// Adds a blank column to the end of the row.
    pub fn blank(self) -> (r: Self)
        requires
            self.wf(),
        ensures
            r.wf(),
            r@ == self@.push(CellView { value: Seq::empty(), align: Align::Left, style: Style::Normal }),
    {
        let empty = "";
        proof {
            reveal_strlit("");
            assert(empty@ =~= Seq::<char>::empty());
        }
        self.push(empty, Align::Left, Style::Normal)
    }

    /// Returns the printed size of the column at the supplied index.
    pub fn get_column_size(&self, index: usize) -> (r: usize)
        requires
            index < self@.len(),
        ensures
            r == byte_len(self@[index as int].value),
    {
        self.cells[index].size()
    }

    /// Returns the sizes of the row's values in bytes.
    pub fn sizes(&self) -> (r: Vec<usize>)
        ensures
            r@ == own_sizes(self@),
    {
        let mut r: Vec<usize> = Vec::new();
        let n = self.cells.len();
        for i in 0..n
            invariant
                n == self.cells@.len(),
                r@ == own_sizes(self@).take(i as int),
        {
            r.push(self.cells[i].size());
            proof {
                assert(r@ =~= own_sizes(self@).take(i + 1));
            }
        }
        proof {
            assert(r@ =~= own_sizes(self@));
        }
        r
    }

    /// Appends the row's text, with its cells laid out in columns of the
    /// supplied sizes, to `out`.
    pub fn push_text(&self, out: &mut Vec<char>, sizes: &Vec<usize>, join_type: ColumnJoinType)
        requires
            sizes@.len() >= self@.len(),
        ensures
            final(out)@ == old(out)@ + row_text(self@, sizes@, join_type),
    {
        let spaced = match join_type {
            ColumnJoinType::Spaced => true,
            _ => false,
        };
        let sep: &str = match join_type {
            ColumnJoinType::Normal => "|",
            ColumnJoinType::Spaced => " | ",
            ColumnJoinType::Plus => "+",
        };
        if spaced {
            push_str(out, "| ");
        } else {
            push_str(out, "|");
        }
        let ghost start = out@;
        let ghost parts = Seq::new(self@.len(), |i: int| sized_text(self@[i], sizes@[i] as nat));
        let n = self.cells.len();
        for i in 0..n
            invariant
                n == self@.len(),
                sizes@.len() >= n,
                parts == Seq::new(self@.len(), |i: int| sized_text(self@[i], sizes@[i] as nat)),
                out@ == start + join(parts.take(i as int), sep@),
        {
            let ghost before = out@;
            if i > 0 {
                push_str(out, sep);
            }
            self.cells[i].push_sized(out, sizes[i]);
            proof {
                assert(self.cells@[i as int]@ == self@[i as int]);
                let t = parts.take(i + 1);
                assert(t.drop_last() =~= parts.take(i as int));
                if i == 0 {
                    assert(join(t, sep@) == t[0]);
                }
                assert(out@ =~= start + join(parts.take(i + 1), sep@));
            }
        }
        if spaced {
            push_str(out, " |");
        } else {
            push_str(out, "|");
        }
        proof {
            assert(parts.take(n as int) =~= parts);
            assert(final(out)@ =~= old(out)@ + row_text(self@, sizes@, join_type));
        }
    }

    /// Returns the printed size of the row in bytes: the length of the row's
    /// spaced text with each cell in a column of its own size.
    pub fn size(&self) -> (r: usize)
        ensures
            r == byte_len(row_text(self@, own_sizes(self@), ColumnJoinType::Spaced)),
    {
        let sizes = self.sizes();
        let mut out: Vec<char> = Vec::new();
        self.push_text(&mut out, &sizes, ColumnJoinType::Spaced);
        let s = string_from_chars(&out);
        proof {
            assert(out@ =~= row_text(self@, own_sizes(self@), ColumnJoinType::Spaced));
        }
        s.as_str().len()
    }

    /// Prints the row, with its cells laid out in columns of the supplied
    /// sizes and followed by a new line, to the supplied buffer.
    pub fn print(&self, stdout: &mut Vec<u8>, sizes: &Vec<usize>, join_type: ColumnJoinType)
        requires
            sizes@.len() >= self@.len(),
        ensures
            final(stdout)@ == old(stdout)@ + vstd::utf8::encode_utf8(
                row_text(self@, sizes@, join_type).push('\n'),
            ),
    {
        let mut out: Vec<char> = Vec::new();
        self.push_text(&mut out, sizes, join_type);
        out.push('\n');
        write_chars(stdout, &out);
    }
}

/// Appends the UTF-8 encoding of some characters to a byte buffer.
pub fn write_chars(stdout: &mut Vec<u8>, chars: &Vec<char>)
    ensures
        final(stdout)@ == old(stdout)@ + vstd::utf8::encode_utf8(chars@),
{
    let s = string_from_chars(chars);
    let bytes = s.as_str().as_bytes();
    stdout.extend_from_slice(bytes);
    proof {
        assert(final(stdout)@ =~= old(stdout)@ + vstd::utf8::encode_utf8(chars@));
    }
}

impl Default for Row {
    fn default() -> (r: Self)
        ensures
            r.wf(),
            r@ == Seq::<CellView>::empty(),
    {
        Row::new()
    }
}

/// The values of a row's cells, in order.
pub open spec fn row_values(cells: Seq<CellView>) -> Seq<Seq<char>> {
    cells.map_values(|c: CellView| c.value)
}

/// A row is written to a CSV file as its cells' values.
impl WriteRow for Row {
    fn as_row(&self, row: &mut RowData) -> (r: io::Result<()>)
        ensures
            r is Ok,
            final(row)@ == old(row)@ + row_values(self@),
    {
        let n = self.cells.len();
        for i in 0..n
            invariant
                n == self.cells@.len(),
                row@ == old(row)@ + row_values(self@).take(i as int),
        {
            row.push(self.cells[i].value());
            proof {
                assert(row_values(self@).take(i + 1) =~= row_values(self@).take(i as int).push(
                    self@[i as int].value,
                ));
            }
        }
        proof {
            assert(row_values(self@).take(n as int) =~= row_values(self@));
        }
        Ok(())
    }
}

} // verus!
