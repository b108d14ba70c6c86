use vstd::prelude::*;

use crate::fmt::{push_repeat, push_str, string_from_chars};

verus! {

/// How a cell's value is placed within its column.
pub enum Align {
    Left,
    Right,
    Center,
}

/// How a cell's value is printed.
pub enum Style {
    Bold,
    Normal,
}

/// The contents of a cell: its value, alignment and style.
pub struct CellView {
    pub value: Seq<char>,
    pub align: Align,
    pub style: Style,
}

/// A table cell.
pub struct Cell {
    value: String,
    align: Align,
    style: Style,
}

/// The number of bytes the UTF-8 encoding of some text takes.
pub open spec fn byte_len(s: Seq<char>) -> usize {
    vstd::utf8::encode_utf8(s).len() as usize
}

/// `n` spaces.
pub open spec fn spaces(n: int) -> Seq<char> {
    Seq::new(if n > 0 {
        n as nat
    } else {
        0
    }, |i: int| ' ')
}

/// A cell's text laid out in a column of `size`: left or right aligned
/// values are padded with spaces up to `size` characters; a centered value
/// gets half of the difference between `size` and its length in bytes on
/// each side, the extra space going after it. Bold text is wrapped in the
/// terminal's bold escape codes.
pub open spec fn sized_text(c: CellView, size: nat) -> Seq<char> {
    let body = match c.align {
        Align::Left => c.value + spaces(size - c.value.len()),
        Align::Right => spaces(size - c.value.len()) + c.value,
        Align::Center => {
            let d = size - byte_len(c.value);
            if d > 0 {
                spaces(d / 2) + c.value + spaces((d + 1) / 2)
            } else {
                c.value
            }
        },
    };
    match c.style {
        Style::Bold => "\x1B[1m"@ + body + "\x1B[0m"@,
        Style::Normal => body,
    }
}

impl View for Cell {
    type V = CellView;

    closed spec fn view(&self) -> CellView {
        CellView { value: self.value@, align: self.align, style: self.style }
    }
}

impl Cell {
    /// Creates a cell.
    pub fn new(value: String, align: Align, style: Style) -> (c: Self)
        ensures
            c@ == (CellView { value: value@, align: align, style: style }),
    {
        Cell { value, align, style }
    }

    /// Returns the length of the cell's value in bytes.
    pub fn size(&self) -> (r: usize)
        ensures
            r == byte_len(self@.value),
    {
        self.value.as_str().len()
    }

    /// Returns the cell's value.
    pub fn value(&self) -> (r: &str)
        ensures
            r@ == self@.value,
    {
        self.value.as_str()
    }

    /// Appends the cell's text laid out in a column of `size` to `out`.
    pub fn push_sized(&self, out: &mut Vec<char>, size: usize)
        ensures
            final(out)@ == old(out)@ + sized_text(self@, size as nat),
    {
        let bold = match self.style {
            Style::Bold => true,
            Style::Normal => false,
        };
        if bold {
            push_str(out, "\x1B[1m");
        }
        let ghost before_body = out@;
        let chars = self.value.as_str().unicode_len();
        let ghost c = self@;
        let ghost body: Seq<char> = match c.align {
            Align::Left => c.value + spaces(size - c.value.len()),
            Align::Right => spaces(size - c.value.len()) + c.value,
            Align::Center => {
                let d = size - byte_len(c.value);
                if d > 0 {
                    spaces(d / 2) + c.value + spaces((d + 1) / 2)
                } else {
                    c.value
                }
            },
        };
        match self.align {
            Align::Left => {
                push_str(out, self.value.as_str());
                let pad = if size > chars { size - chars } else { 0 };
                push_repeat(out, ' ', pad);
                proof {
                    assert(spaces(size - c.value.len()) =~= Seq::new(pad as nat, |i: int| ' '));
                    assert(out@ =~= before_body + body);
                }
            },
            Align::Right => {
                let pad = if size > chars { size - chars } else { 0 };
                push_repeat(out, ' ', pad);
                push_str(out, self.value.as_str());
                proof {
                    assert(spaces(size - c.value.len()) =~= Seq::new(pad as nat, |i: int| ' '));
                    assert(out@ =~= before_body + body);
                }
            },
            Align::Center => {
                let bytes = self.value.as_str().len();
                if size > bytes {
                    let d = size - bytes;
                    push_repeat(out, ' ', d / 2);
                    push_str(out, self.value.as_str());
                    push_repeat(out, ' ', d - d / 2);
                    proof {
                        assert((d + 1) / 2 == d - d / 2);
                        assert(spaces((d / 2) as int) =~= Seq::new((d / 2) as nat, |i: int| ' '));
                        assert(spaces(((d + 1) / 2) as int) =~= Seq::new((d - d / 2) as nat, |i: int| ' '));
                        assert(out@ =~= before_body + body);
                    }
                } else {
                    push_str(out, self.value.as_str());
                    proof {
                        assert(out@ =~= before_body + body);
                    }
                }
            },
        }
        let ghost after_body = out@;
        if bold {
            push_str(out, "\x1B[0m");
        }
        proof {
            assert(final(out)@ =~= old(out)@ + sized_text(self@, size as nat));
        }
    }

    /// Returns the cell's text laid out in a column of `size`.
    pub fn to_sized_string(&self, size: usize) -> (s: String)
        ensures
            s@ == sized_text(self@, size as nat),
    {
        let mut out: Vec<char> = Vec::new();
        self.push_sized(&mut out, size);
        proof {
            assert(out@ =~= sized_text(self@, size as nat));
        }
        string_from_chars(&out)
    }
}

} // verus!
