use vstd::prelude::*;
use std::io;

use crate::file::invalid_data;
use crate::file::is_invalid_data;
use crate::fmt::{decimal, push_decimal, push_str, string_from_chars};
use crate::table::cell::byte_len;

verus! {

/// The fields of one row of a CSV file.
pub struct RowData {
    data: Vec<String>,
}

impl View for RowData {
    type V = Seq<Seq<char>>;

    closed spec fn view(&self) -> Seq<Seq<char>> {
        self.data@.map_values(|s: String| s@)
    }
}

/// The bytes that the fields of a row take, plus one for each field.
pub open spec fn fields_size(fields: Seq<Seq<char>>) -> nat
    decreases fields.len(),
{
    if fields.len() == 0 {
        0
    } else {
        fields_size(fields.drop_last()) + byte_len(fields.last()) as nat + 1
    }
}

/// The message of the error for a missing column.
pub open spec fn invalid_column_text(index: nat) -> Seq<char> {
    "Invalid CSV column "@ + decimal(index)
}

impl RowData {
    /// Creates a row without fields.
    pub fn new() -> (r: Self)
        ensures
            r@ == Seq::<Seq<char>>::empty(),
    {
        let r = RowData { data: Vec::new() };
        proof {
            assert(r@ =~= Seq::<Seq<char>>::empty());
        }
        r
    }

    /// Returns `true` if the row has no field.
    pub fn is_empty(&self) -> (r: bool)
        ensures
            r == (self@.len() == 0),
    {
        self.data.len() == 0
    }

    /// Returns the number of fields.
    pub fn len(&self) -> (r: usize)
        ensures
            r == self@.len(),
    {
        self.data.len()
    }

    /// Returns the size of the row: the bytes of its fields plus one for
    /// each field.
    pub fn size(&self) -> (r: usize)
        requires
            fields_size(self@) <= usize::MAX,
        ensures
            r == fields_size(self@),
    {
        let n = self.data.len();
        let mut total: usize = 0;
        let mut i: usize = 0;
        while i < n
            invariant
                i <= n,
                n == self@.len(),
                total == fields_size(self@.take(i as int)),
                fields_size(self@) <= usize::MAX,
            decreases n - i,
        {
            proof {
                let t = self@.take(i + 1);
                assert(t.drop_last() =~= self@.take(i as int));
                assert(t.last() == self.data@[i as int]@);
                lemma_fields_size_prefix(self@, i + 1);
            }
            total = total + self.data[i].as_str().len() + 1;
            i = i + 1;
        }
        proof {
            assert(self@.take(n as int) =~= self@);
        }
        total
    }

    /// Returns the field at `index`.
    ///
    /// # Errors
    ///
    /// Returns an `InvalidData` error if the row has no field at `index`.
    pub fn get(&self, index: usize) -> (r: io::Result<&str>)
        ensures
            index < self@.len() ==> (r matches Ok(s) && s@ == self@[index as int]),
            index >= self@.len() ==> (r matches Err(e) && is_invalid_data(
                e,
                invalid_column_text(index as nat),
            )),
    {
        if index < self.data.len() {
            Ok(self.data[index].as_str())
        } else {
            let mut message: Vec<char> = Vec::new();
            push_str(&mut message, "Invalid CSV column ");
            push_decimal(&mut message, index as u64);
            Err(invalid_data(string_from_chars(&message)))
        }
    }

    /// Appends a field.
    pub fn push(&mut self, value: &str)
        ensures
            final(self)@ == old(self)@.push(value@),
    {
        self.data.push(value.to_owned());
        proof {
            assert(self@ =~= old(self)@.push(value@));
        }
    }

    /// Removes every field.
    pub fn clear(&mut self)
        ensures
            final(self)@ == Seq::<Seq<char>>::empty(),
    {
        self.data.clear();
        proof {
            assert(self@ =~= Seq::<Seq<char>>::empty());
        }
    }

    /// Returns the fields in order.
    pub fn fields(&self) -> (r: &Vec<String>)
        ensures
            r@.map_values(|s: String| s@) == self@,
    {
        &self.data
    }
}

impl Default for RowData {
    fn default() -> (r: Self)
        ensures
            r@ == Seq::<Seq<char>>::empty(),
    {
        RowData::new()
    }
}

/// The size of a row is at least that of each of its prefixes.
proof fn lemma_fields_size_prefix(fields: Seq<Seq<char>>, k: int)
    requires
        0 <= k <= fields.len(),
    ensures
        fields_size(fields.take(k)) <= fields_size(fields),
    decreases fields.len(),
{
    if k < fields.len() {
        assert(fields.drop_last().take(k) =~= fields.take(k));
        lemma_fields_size_prefix(fields.drop_last(), k);
    } else {
        assert(fields.take(k) =~= fields);
    }
}

/// A field pushed to a row is its last field, found at the index the row's
/// length had.
pub proof fn lemma_get_after_push(fields: Seq<Seq<char>>, value: Seq<char>)
    ensures
        fields.push(value).len() == fields.len() + 1,
        fields.push(value)[fields.len() as int] == value,
{
}

/// The count of rows written to a CSV file so far, the header among them.
pub struct RowCount {
    pub count: u64,
}

impl RowCount {
    /// Starts a file with no rows written.
    pub fn new() -> (r: Self)
        ensures
            r.count == 0,
    {
        RowCount { count: 0 }
    }

    /// Records the header row, which can only be the first row: returns
    /// `false` and records nothing if a row was written before.
    pub fn header(&mut self) -> (r: bool)
        ensures
            r == (old(self).count == 0),
            r ==> final(self).count == 1,
            !r ==> final(self).count == old(self).count,
    {
        if self.count > 0 {
            return false;
        }
        self.count = 1;
        true
    }

    /// Records a data row and returns its number, counting from one with
    /// the header among the rows.
    pub fn row(&mut self) -> (n: u64)
        requires
            old(self).count < u64::MAX,
        ensures
            final(self).count == old(self).count + 1,
            n == final(self).count,
    {
        self.count = self.count + 1;
        self.count
    }
}

/// A type whose values can be read from a row of a CSV file.
pub trait ReadRow {
    /// Reads a value from the fields of a row.
    fn new(row_data: &RowData) -> io::Result<Self> where Self: Sized;
}

/// A type whose values can be written as a row of a CSV file.
pub trait WriteRow {
    /// Appends the value's fields to `row`.
    fn as_row(&self, row: &mut RowData) -> io::Result<()>;
}

} // verus!
