//! Field definitions and the derived fixed-offset binary row layout.

use vstd::prelude::*;

verus! {

/// The type of one column of a table.
#[derive(Clone, Copy, Debug, PartialEq, Eq, Structural)]
pub enum Type {
    Varchar,
    Integer,
    Float,
}

/// The byte length of the sum of all field lengths of `fields`.
pub open spec fn total_len(fields: Seq<(String, Type, u32)>) -> int
    decreases fields.len(),
{
    if fields.len() == 0 {
        0
    } else {
        total_len(fields.drop_last()) + fields.last().2
    }
}

/// The byte offset of field `i` within a serialized row: the sum of the
/// lengths of the fields before it.
pub open spec fn offset_of(fields: Seq<(String, Type, u32)>, i: int) -> int {
    total_len(fields.take(i))
}

/// An ordered list of fields together with the derived row length and the
/// derived byte offset of each field within a serialized row.
#[derive(Debug)]
pub struct Schema {
    pub table_name: String,
    /// `(field name, type, length in bytes)`, in column order.
    pub fields: Vec<(String, Type, u32)>,
    /// `(field name, type, byte offset from the start of a row)`, in column order.
    pub offsets: Vec<(String, Type, u32)>,
    /// The sum of all field lengths.
    pub row_length: u32,
}

impl Schema {
    /// The derived parts agree with `fields`: `row_length` is the total of the
    /// field lengths and `offsets` holds each field's starting offset.
    pub open spec fn wf(&self) -> bool {
        &&& total_len(self.fields@) <= u32::MAX
        &&& self.row_length == total_len(self.fields@)
        &&& self.offsets@.len() == self.fields@.len()
        &&& forall|i: int|
            0 <= i < self.fields@.len() ==> #[trigger] self.offsets@[i] == (
                self.fields@[i].0,
                self.fields@[i].1,
                offset_of(self.fields@, i) as u32,
            )
    }

    /// Computes `row_length` and the field offsets in one pass; never fails.
    pub fn new(table_name: String, fields: Vec<(String, Type, u32)>) -> (s: Schema)
        requires
            total_len(fields@) <= u32::MAX,
        ensures
            s.wf(),
            s.table_name == table_name,
            s.fields == fields,
    {
        let row_length = calc_row_length(&fields);
        let offsets = calc_offsets(&fields);
        Schema { table_name, row_length, offsets, fields }
    }
}

/// Each prefix of the fields sums to no more than the whole: lengths are
/// non-negative, so the total only grows as fields are appended.
pub proof fn lemma_total_len_take(fields: Seq<(String, Type, u32)>, i: int)
    requires
        0 <= i <= fields.len(),
    ensures
        0 <= total_len(fields.take(i)) <= total_len(fields),
    decreases fields.len() - i,
{
    if i == fields.len() {
        assert(fields.take(i) =~= fields);
        lemma_total_len_nonneg(fields);
    } else {
        lemma_total_len_take(fields, i + 1);
        lemma_total_len_nonneg(fields.take(i));
        assert(fields.take(i + 1).drop_last() =~= fields.take(i));
        assert(total_len(fields.take(i + 1)) == total_len(fields.take(i)) + fields[i].2);
    }
}

pub proof fn lemma_total_len_nonneg(fields: Seq<(String, Type, u32)>)
    ensures
        total_len(fields) >= 0,
    decreases fields.len(),
{
    if fields.len() > 0 {
        lemma_total_len_nonneg(fields.drop_last());
    }
}

/// Sums the field lengths.
fn calc_row_length(fields: &Vec<(String, Type, u32)>) -> (r: u32)
    requires
        total_len(fields@) <= u32::MAX,
    ensures
        r == total_len(fields@),
{
    let mut sum: u32 = 0;
    let mut i: usize = 0;
    while i < fields.len()
        invariant
            0 <= i <= fields@.len(),
            sum == total_len(fields@.take(i as int)),
            total_len(fields@) <= u32::MAX,
        decreases fields@.len() - i,
    {
        proof {
            lemma_total_len_take(fields@, i + 1);
            assert(fields@.take(i + 1).drop_last() =~= fields@.take(i as int));
            lemma_total_len_nonneg(fields@.take(i as int));
        }
        sum = sum + fields[i].2;
        i = i + 1;
    }
    proof {
        assert(fields@.take(i as int) =~= fields@);
    }
    sum
}

/// Pairs each field with its starting offset: a running sum of the lengths of
/// the preceding fields.
fn calc_offsets(fields: &Vec<(String, Type, u32)>) -> (r: Vec<(String, Type, u32)>)
    requires
        total_len(fields@) <= u32::MAX,
    ensures
        r@.len() == fields@.len(),
        forall|i: int|
            0 <= i < fields@.len() ==> #[trigger] r@[i] == (
                fields@[i].0,
                fields@[i].1,
                offset_of(fields@, i) as u32,
            ),
{
    let mut offsets: Vec<(String, Type, u32)> = Vec::new();
    let mut counter: u32 = 0;
    let mut i: usize = 0;
    while i < fields.len()
        invariant
            0 <= i <= fields@.len(),
            counter == total_len(fields@.take(i as int)),
            total_len(fields@) <= u32::MAX,
            offsets@.len() == i,
            forall|j: int|
                0 <= j < i ==> #[trigger] offsets@[j] == (
                    fields@[j].0,
                    fields@[j].1,
                    offset_of(fields@, j) as u32,
                ),
        decreases fields@.len() - i,
    {
        proof {
            lemma_total_len_take(fields@, i as int);
            lemma_total_len_nonneg(fields@.take(i as int));
            lemma_total_len_take(fields@, i + 1);
            assert(fields@.take(i + 1).drop_last() =~= fields@.take(i as int));
        }
        let name = fields[i].0.clone();
        let t = fields[i].1;
        offsets.push((name, t, counter));
        counter = counter + fields[i].2;
        i = i + 1;
    }
    offsets
}

} // verus!
