//! The table: serializes value lists into fixed-width rows, batches them
//! into pages, and reads every row back in insertion order.

use vstd::prelude::*;
use crate::codec::{
    canonical_value, field_bytes, field_ok, lemma_field_round_trip, read_field, serialize_value,
    deserialize_value, Value, ValueView,
};
use crate::page::Page;
use crate::schema::{lemma_total_len_nonneg, lemma_total_len_take, offset_of, total_len, Schema, Type};

verus! {

#[derive(Debug, PartialEq, Eq, Structural)]
pub enum TableError {
    TableFull,
    SerializeErr,
    WriteError,
}

// ---------------------------------------------------------------------------
// A whole row: values to bytes and bytes back to values.
// ---------------------------------------------------------------------------

/// Every value fits its field: as many values as fields, each of the
/// declared type, Varchar text within the field length, Integer text that
/// parses.
pub open spec fn row_ok(fields: Seq<(String, Type, u32)>, vs: Seq<ValueView>) -> bool {
    &&& vs.len() == fields.len()
    &&& forall|i: int|
        0 <= i < fields.len() ==> field_ok(fields[i].1, fields[i].2 as int, #[trigger] vs[i])
}

/// The bytes of a whole row: the field encodings, concatenated in field
/// order.
pub open spec fn row_bytes(fields: Seq<(String, Type, u32)>, vs: Seq<ValueView>) -> Seq<u8>
    decreases fields.len(),
{
    if fields.len() == 0 {
        Seq::empty()
    } else {
        row_bytes(fields.drop_last(), vs.drop_last()) + field_bytes(
            fields.last().1,
            fields.last().2 as int,
            vs.last(),
        )
    }
}

/// When serialization succeeds: every field fits, and the total encoding is
/// exactly the schema's row length — the authoritative final check.
pub open spec fn serialize_ok(fields: Seq<(String, Type, u32)>, vs: Seq<ValueView>) -> bool {
    row_ok(fields, vs) && row_bytes(fields, vs).len() == total_len(fields)
}

/// The values read back from the row bytes `b`, each field from its own
/// offset slice.
pub open spec fn row_values(fields: Seq<(String, Type, u32)>, b: Seq<u8>) -> Seq<ValueView> {
    Seq::new(
        fields.len(),
        |i: int|
            read_field(
                fields[i].1,
                b.subrange(offset_of(fields, i), offset_of(fields, i) + fields[i].2),
            ),
    )
}

/// Integer and Float fields are declared with the four bytes their encodings
/// take.
pub open spec fn fields_sized(fields: Seq<(String, Type, u32)>) -> bool {
    forall|i: int|
        0 <= i < fields.len() ==> ((#[trigger] fields[i]).1 is Varchar || fields[i].2 == 4)
}

/// A field encoding fills exactly the declared field length.
proof fn lemma_field_bytes_len(t: Type, len: int, v: ValueView)
    requires
        field_ok(t, len, v),
        t is Varchar || len == 4,
    ensures
        field_bytes(t, len, v).len() == len,
{
}

/// A whole row's encoding fills exactly the schema's row length when each
/// numeric field is declared with its four bytes.
pub proof fn lemma_row_bytes_len(fields: Seq<(String, Type, u32)>, vs: Seq<ValueView>)
    requires
        row_ok(fields, vs),
        fields_sized(fields),
    ensures
        row_bytes(fields, vs).len() == total_len(fields),
        total_len(fields) >= 0,
    decreases fields.len(),
{
    lemma_total_len_nonneg(fields);
    if fields.len() > 0 {
        assert(row_ok(fields.drop_last(), vs.drop_last()));
        lemma_row_bytes_len(fields.drop_last(), vs.drop_last());
        lemma_field_bytes_len(fields.last().1, fields.last().2 as int, vs.last());
    }
}

/// Within a row's encoding, field `i`'s slice is exactly that field's own
/// encoding.
pub proof fn lemma_row_bytes_field(fields: Seq<(String, Type, u32)>, vs: Seq<ValueView>, i: int)
    requires
        row_ok(fields, vs),
        fields_sized(fields),
        0 <= i < fields.len(),
    ensures
        row_bytes(fields, vs).subrange(
            offset_of(fields, i),
            offset_of(fields, i) + fields[i].2,
        ) == field_bytes(fields[i].1, fields[i].2 as int, vs[i]),
    decreases fields.len(),
{
    let whole = row_bytes(fields, vs);
    let prefix = row_bytes(fields.drop_last(), vs.drop_last());
    let fb_last = field_bytes(fields.last().1, fields.last().2 as int, vs.last());
    assert(row_ok(fields.drop_last(), vs.drop_last()));
    lemma_row_bytes_len(fields.drop_last(), vs.drop_last());
    lemma_field_bytes_len(fields.last().1, fields.last().2 as int, vs.last());
    assert(fields.take(fields.len() - 1) =~= fields.drop_last());
    if i == fields.len() - 1 {
        assert(offset_of(fields, i) == prefix.len());
        assert(whole.subrange(offset_of(fields, i), offset_of(fields, i) + fields[i].2)
            =~= fb_last);
    } else {
        lemma_row_bytes_field(fields.drop_last(), vs.drop_last(), i);
        assert(fields.drop_last()[i] == fields[i]);
        assert(fields.drop_last().take(i) =~= fields.take(i));
        assert(offset_of(fields.drop_last(), i) == offset_of(fields, i));
        lemma_total_len_take(fields.drop_last(), i + 1);
        assert(fields.take(i + 1).drop_last() =~= fields.take(i));
        assert(fields.drop_last().take(i + 1) =~= fields.take(i + 1));
        assert(offset_of(fields, i) + fields[i].2 == total_len(fields.take(i + 1)));
        assert(offset_of(fields, i) + fields[i].2 <= prefix.len());
        lemma_total_len_nonneg(fields.take(i));
        assert(whole.subrange(offset_of(fields, i), offset_of(fields, i) + fields[i].2)
            =~= prefix.subrange(offset_of(fields, i), offset_of(fields, i) + fields[i].2));
    }
}

/// Round trip: a value list that serializes, in canonical form, reads back
/// from its own row bytes as exactly itself.
pub proof fn lemma_row_round_trip(fields: Seq<(String, Type, u32)>, vs: Seq<ValueView>)
    requires
        row_ok(fields, vs),
        fields_sized(fields),
        forall|i: int| 0 <= i < vs.len() ==> canonical_value(#[trigger] vs[i]),
    ensures
        row_values(fields, row_bytes(fields, vs)) == vs,
{
    let b = row_bytes(fields, vs);
    assert forall|i: int| 0 <= i < fields.len() implies row_values(fields, b)[i] == vs[i] by {
        lemma_row_bytes_field(fields, vs, i);
        lemma_field_round_trip(fields[i].1, fields[i].2 as int, vs[i]);
    }
    assert(row_values(fields, b) =~= vs);
}

// ---------------------------------------------------------------------------
// The table.
// ---------------------------------------------------------------------------

/// All serialized rows of a sequence of pages, page-major, in insertion
/// order.
pub open spec fn pages_rows(ps: Seq<Page>) -> Seq<Seq<u8>>
    decreases ps.len(),
{
    if ps.len() == 0 {
        Seq::empty()
    } else {
        pages_rows(ps.drop_last()) + ps.last().rows()
    }
}

/// A single table: a schema, a bounded sequence of pages, and the derived
/// capacity constants.
#[derive(Debug)]
pub struct Table {
    pub schema: Schema,
    pub max_pages: u32,
    pub page_size: u32,
    /// How many rows fit one page: `page_size / row_length`.
    pub rows_per_page: u32,
    /// The table's row capacity: `max_pages * rows_per_page`.
    pub max_rows: u32,
    pub pages: Vec<Page>,
}

impl Table {
    pub open spec fn max_pages_spec(&self) -> int {
        self.max_pages as int
    }

    pub open spec fn page_size_spec(&self) -> int {
        self.page_size as int
    }

    /// The derived constants agree with the schema, every page is sized for
    /// the schema, and every page but the last is full.
    pub open spec fn wf(&self) -> bool {
        &&& self.schema.wf()
        &&& self.schema.row_length > 0
        &&& self.page_size_spec() >= self.schema.row_length
        &&& self.rows_per_page == self.page_size_spec() / (self.schema.row_length as int)
        &&& self.rows_per_page >= 1
        &&& self.max_rows == self.max_pages_spec() * self.rows_per_page
        &&& 1 <= self.max_pages_spec()
        &&& 1 <= self.pages@.len() <= self.max_pages_spec()
        &&& forall|i: int|
            0 <= i < self.pages@.len() ==> (#[trigger] self.pages@[i]).wf()
                && self.pages@[i].row_len() == self.schema.row_length && self.pages@[i].cap()
                == self.rows_per_page
        &&& forall|i: int|
            0 <= i < self.pages@.len() - 1 ==> (#[trigger] self.pages@[i]).count()
                == self.rows_per_page
    }

    /// All serialized rows, page-major, in insertion order.
    pub open spec fn rows(&self) -> Seq<Seq<u8>> {
        pages_rows(self.pages@)
    }

    /// Creates a table over `s` with one empty page, holding at most
    /// `max_pages` pages of `page_size` bytes each.
    pub fn new(s: Schema, max_pages: u32, page_size: u32) -> (t: Table)
        requires
            s.wf(),
            s.row_length > 0,
            page_size >= s.row_length,
            max_pages >= 1,
            max_pages * (page_size as int / s.row_length as int) <= u32::MAX,
        ensures
            t.wf(),
            t.schema == s,
            t.max_pages_spec() == max_pages,
            t.page_size_spec() == page_size,
            t.rows() == Seq::<Seq<u8>>::empty(),
            t.pages@.len() == 1,
    {
        let rows_per_page = page_size / s.row_length;
        proof {
            vstd::arithmetic::div_mod::lemma_div_non_zero(page_size as int, s.row_length as int);
        }
        let max_rows = max_pages * rows_per_page;
        let init_page = Page::new(s.row_length, rows_per_page);
        let mut pages: Vec<Page> = Vec::new();
        pages.push(init_page);
        let t = Table { schema: s, max_pages, page_size, rows_per_page, max_rows, pages };
        proof {
            assert(t.pages@.drop_last() =~= Seq::<Page>::empty());
            assert(pages_rows(Seq::<Page>::empty()) == Seq::<Seq<u8>>::empty());
            assert(t.pages@.last().rows() =~= Seq::<Seq<u8>>::empty());
            assert(t.rows() =~= Seq::<Seq<u8>>::empty());
        }
        t
    }

    /// Serializes one value list against the schema, exactly as
    /// `serialize_ok` and `row_bytes` describe; `SerializeErr` on a value
    /// that does not fit its field, a wrong value count, or a total length
    /// other than the schema's row length.
    pub fn serialize_row(&self, row: &Vec<Value>) -> (r: Result<Vec<u8>, TableError>)
        requires
            self.schema.wf(),
        ensures
            r is Ok <==> serialize_ok(self.schema.fields@, row.deep_view()),
            r matches Ok(b) ==> b@ == row_bytes(self.schema.fields@, row.deep_view())
                && b@.len() == self.schema.row_length,
            r is Err ==> r == Err::<Vec<u8>, TableError>(TableError::SerializeErr),
    {
        let ghost fields = self.schema.fields@;
        let ghost vs = row.deep_view();
        if row.len() != self.schema.fields.len() {
            return Err(TableError::SerializeErr);
        }
        let mut buffer: Vec<u8> = Vec::new();
        let mut i: usize = 0;
        proof {
            assert(buffer@ =~= row_bytes(fields.take(0), vs.take(0)));
        }
        while i < self.schema.fields.len()
            invariant
                0 <= i <= fields.len(),
                fields.len() == vs.len(),
                fields == self.schema.fields@,
                vs == row.deep_view(),
                buffer@ == row_bytes(fields.take(i as int), vs.take(i as int)),
                forall|j: int|
                    0 <= j < i ==> field_ok(fields[j].1, fields[j].2 as int, #[trigger] vs[j]),
            decreases fields.len() - i,
        {
            let field_type = self.schema.fields[i].1;
            let field_len = self.schema.fields[i].2;
            proof {
                assert(vs[i as int] == row@[i as int]@);
            }
            match serialize_value(field_type, field_len, &row[i]) {
                Some(mut b) => {
                    proof {
                        assert(fields.take(i + 1).drop_last() =~= fields.take(i as int));
                        assert(vs.take(i + 1).drop_last() =~= vs.take(i as int));
                        assert(fields.take(i + 1).last() == fields[i as int]);
                        assert(vs.take(i + 1).last() == vs[i as int]);
                    }
                    buffer.append(&mut b);
                    i = i + 1;
                },
                None => {
                    assert(!row_ok(fields, vs));
                    return Err(TableError::SerializeErr);
                },
            }
        }
        proof {
            assert(fields.take(i as int) =~= fields);
            assert(vs.take(i as int) =~= vs);
        }
        if buffer.len() == self.schema.row_length as usize {
            Ok(buffer)
        } else {
            Err(TableError::SerializeErr)
        }
    }

    /// Reads one row's values back from its bytes, exactly as `row_values`
    /// describes: each field from its offset slice, in field order.
    pub fn deserialize_row(&self, row: &Vec<u8>) -> (r: Vec<Value>)
        requires
            self.schema.wf(),
            fields_sized(self.schema.fields@),
            row@.len() == self.schema.row_length,
        ensures
            r.deep_view() == row_values(self.schema.fields@, row@),
    {
        let ghost fields = self.schema.fields@;
        let mut out: Vec<Value> = Vec::new();
        let mut i: usize = 0;
        while i < self.schema.offsets.len()
            invariant
                0 <= i <= fields.len(),
                fields == self.schema.fields@,
                self.schema.wf(),
                fields_sized(fields),
                row@.len() == self.schema.row_length,
                out@.len() == i,
                forall|j: int|
                    0 <= j < i ==> (#[trigger] out@[j])@ == row_values(fields, row@)[j],
            decreases fields.len() - i,
        {
            let offset = self.schema.offsets[i].2;
            let field_type = self.schema.offsets[i].1;
            let field_len = self.schema.fields[i].2;
            proof {
                lemma_total_len_take(fields, i as int);
                lemma_total_len_nonneg(fields.take(i as int));
                lemma_total_len_take(fields, i + 1);
                assert(fields.take(i + 1).drop_last() =~= fields.take(i as int));
                assert(offset_of(fields, i as int) + fields[i as int].2 == total_len(
                    fields.take(i + 1),
                ));
            }
            let start: usize = offset as usize;
            let end: usize = (offset + field_len) as usize;
            let slice = vstd::slice::slice_subrange(row.as_slice(), start, end);
            let v = deserialize_value(field_type, slice);
            out.push(v);
            i = i + 1;
        }
        proof {
            assert(out.deep_view() =~= row_values(fields, row@));
        }
        out
    }

    /// Inserts one row of values. `TableFull` when the table already holds
    /// `max_rows` rows, checked before anything else; `SerializeErr` when the
    /// values do not serialize; on any error the table is left unchanged. A
    /// successful insert appends exactly the row's serialized bytes after all
    /// earlier rows.
    pub fn write_row(&mut self, row: Vec<Value>) -> (r: Result<String, TableError>)
        requires
            old(self).wf(),
        ensures
            final(self).wf(),
            final(self).schema == old(self).schema,
            final(self).max_pages_spec() == old(self).max_pages_spec(),
            final(self).page_size_spec() == old(self).page_size_spec(),
            final(self).rows_per_page == old(self).rows_per_page,
            final(self).max_rows == old(self).max_rows,
            r == Err::<String, TableError>(TableError::TableFull) <==> old(self).rows().len()
                == old(self).max_rows,
            r == Err::<String, TableError>(TableError::SerializeErr) <==> old(self).rows().len()
                < old(self).max_rows && !serialize_ok(old(self).schema.fields@, row.deep_view()),
            r is Err ==> *final(self) == *old(self),
            r is Ok <==> old(self).rows().len() < old(self).max_rows && serialize_ok(
                old(self).schema.fields@,
                row.deep_view(),
            ),
            r is Ok ==> final(self).rows() == old(self).rows().push(
                row_bytes(old(self).schema.fields@, row.deep_view()),
            ),
            r matches Ok(s) ==> s@ == "inserted row"@,
    {
        let ghost t0 = *self;
        let ghost rpp = self.rows_per_page as int;
        let num_pages = self.pages.len();
        let last_full = self.pages[num_pages - 1].is_full();
        proof {
            lemma_pages_rows_len(t0.pages@, rpp);
        }
        if last_full && num_pages >= self.max_pages as usize {
            proof {
                assert(t0.pages@.len() == t0.max_pages_spec());
                assert(t0.rows().len() == (t0.max_pages_spec() - 1) * rpp + rpp);
                assert((t0.max_pages_spec() - 1) * rpp + rpp == t0.max_pages_spec() * rpp)
                    by (nonlinear_arith);
            }
            return Err(TableError::TableFull);
        }
        proof {
            let npages = t0.pages@.len() as int;
            let mpages = t0.max_pages_spec();
            if last_full {
                assert(npages < mpages);
                assert(t0.rows().len() == (npages - 1) * rpp + rpp);
                assert((npages - 1) * rpp + rpp == npages * rpp) by (nonlinear_arith);
                vstd::arithmetic::mul::lemma_mul_inequality(npages, mpages - 1, rpp);
                assert((mpages - 1) * rpp + rpp == mpages * rpp) by (nonlinear_arith);
            } else {
                assert(t0.rows().len() < (npages - 1) * rpp + rpp);
                assert((npages - 1) * rpp + rpp == npages * rpp) by (nonlinear_arith);
                vstd::arithmetic::mul::lemma_mul_inequality(npages, mpages, rpp);
            }
            assert(t0.rows().len() < t0.max_rows);
        }
        let serial = match self.serialize_row(&row) {
            Ok(b) => b,
            Err(_) => {
                return Err(TableError::SerializeErr);
            },
        };
        if last_full {
            let new_page = Page::new(self.schema.row_length, self.rows_per_page);
            self.pages.push(new_page);
            proof {
                assert(self.pages@.drop_last() =~= t0.pages@);
                assert(self.pages@.last().rows() =~= Seq::<Seq<u8>>::empty());
                assert(self.rows() =~= t0.rows());
            }
        }
        let ghost mid = *self;
        let mut page = self.pages.pop().unwrap();
        proof {
            assert(page.count() < page.cap());
        }
        let res = page.write_row(serial);
        let ghost page1 = page;
        self.pages.push(page);
        match res {
            Ok(s) => {
                proof {
                    assert(self.pages@.drop_last() =~= mid.pages@.drop_last());
                    assert(self.pages@ =~= mid.pages@.drop_last().push(page1));
                    assert(self.rows() == pages_rows(mid.pages@.drop_last()) + page1.rows());
                    assert(mid.rows() == pages_rows(mid.pages@.drop_last())
                        + mid.pages@.last().rows());
                    assert(self.rows() =~= mid.rows().push(
                        row_bytes(t0.schema.fields@, row.deep_view()),
                    ));
                    assert forall|i: int| 0 <= i < self.pages@.len() - 1 implies (
                    #[trigger] self.pages@[i]).count() == self.rows_per_page by {
                        assert(self.pages@[i] == mid.pages@[i]);
                    }
                }
                Ok(s)
            },
            Err(_) => {
                proof {
                    assert(false);
                }
                Err(TableError::WriteError)
            },
        }
    }

    /// Deserializes every row of every page: page-major, row-minor, oldest
    /// first.
    pub fn read_all(&self) -> (r: Vec<Vec<Value>>)
        requires
            self.wf(),
            fields_sized(self.schema.fields@),
        ensures
            r.deep_view() == self.rows().map_values(
                |b: Seq<u8>| row_values(self.schema.fields@, b),
            ),
    {
        let ghost f = |b: Seq<u8>| row_values(self.schema.fields@, b);
        let mut res: Vec<Vec<Value>> = Vec::new();
        let mut p: usize = 0;
        proof {
            assert(self.pages@.take(0) =~= Seq::<Page>::empty());
            assert(res.deep_view() =~= pages_rows(self.pages@.take(0)).map_values(f));
        }
        while p < self.pages.len()
            invariant
                self.wf(),
                fields_sized(self.schema.fields@),
                0 <= p <= self.pages@.len(),
                f == (|b: Seq<u8>| row_values(self.schema.fields@, b)),
                res.deep_view() == pages_rows(self.pages@.take(p as int)).map_values(f),
            decreases self.pages@.len() - p,
        {
            let page = &self.pages[p];
            let buf = page.read_all();
            let rl = self.schema.row_length as usize;
            let count = buf.len() / rl;
            proof {
                vstd::arithmetic::div_mod::lemma_div_multiples_vanish(
                    page.count(),
                    self.schema.row_length as int,
                );
                assert(count == page.count());
            }
            let mut k: usize = 0;
            while k < count
                invariant
                    self.wf(),
                    fields_sized(self.schema.fields@),
                    0 <= p < self.pages@.len(),
                    count == self.pages@[p as int].count(),
                    0 <= k <= count,
                    f == (|b: Seq<u8>| row_values(self.schema.fields@, b)),
                    res.deep_view() == (pages_rows(self.pages@.take(p as int))
                        + self.pages@[p as int].rows().take(k as int)).map_values(f),
                decreases count - k,
            {
                let page = &self.pages[p];
                match page.read_row(k as u32) {
                    Ok(one_row) => {
                        proof {
                            vstd::arithmetic::mul::lemma_mul_nonnegative(
                                k as int,
                                page.row_len(),
                            );
                            vstd::arithmetic::mul::lemma_mul_inequality(
                                k + 1,
                                page.count(),
                                page.row_len(),
                            );
                            vstd::arithmetic::mul::lemma_mul_is_distributive_add_other_way(
                                page.row_len(),
                                k as int,
                                1,
                            );
                            assert(one_row@.len() == self.schema.row_length);
                        }
                        let vals = self.deserialize_row(&one_row);
                        let ghost res0 = res@;
                        let ghost dv0 = res.deep_view();
                        res.push(vals);
                        proof {
                            let pg = self.pages@[p as int];
                            let aa = pages_rows(self.pages@.take(p as int));
                            let s1 = aa + pg.rows().take(k as int);
                            let s2 = aa + pg.rows().take(k + 1);
                            assert(pg.rows().len() == count);
                            assert(pg.rows().take(k + 1).drop_last() =~= pg.rows().take(
                                k as int,
                            ));
                            assert(dv0 == s1.map_values(f));
                            assert(s1.len() == aa.len() + k);
                            assert(dv0.len() == res0.len());
                            assert(res0.len() == s1.len());
                            assert(s2.drop_last() =~= s1);
                            assert(s2.last() == pg.row(k as int));
                            assert(vals.deep_view() == f(pg.row(k as int)));
                            assert forall|i: int| 0 <= i < res@.len() implies (
                            #[trigger] res@[i]).deep_view() == f(s2[i]) by {
                                if i < res@.len() - 1 {
                                    assert(res@[i] == res0[i]);
                                    assert(dv0[i] == res0[i].deep_view());
                                    assert(dv0[i] == f(s1[i]));
                                    assert(s2[i] == s1[i]);
                                } else {
                                    assert(res@[i] == vals);
                                    assert(s2[i] == pg.row(k as int));
                                }
                            }
                            assert(res.deep_view() =~= s2.map_values(f));
                        }
                    },
                    Err(_) => {
                        proof {
                            assert(false);
                        }
                    },
                }
                k = k + 1;
            }
            proof {
                let page_seq = self.pages@;
                assert(page_seq[p as int].rows().take(count as int) =~= page_seq[
                    p as int].rows());
                assert(page_seq.take(p + 1).drop_last() =~= page_seq.take(p as int));
                assert(page_seq.take(p + 1).last() == page_seq[p as int]);
                assert(pages_rows(page_seq.take(p + 1)) == pages_rows(page_seq.take(p as int))
                    + page_seq[p as int].rows());
            }
            p = p + 1;
        }
        proof {
            assert(self.pages@.take(p as int) =~= self.pages@);
        }
        res
    }
}

/// Reading back after one successful insert: the value lists read from the
/// rows grow by exactly the inserted values, at the end, and every earlier
/// row reads back unchanged.
pub proof fn lemma_read_after_insert(
    before: Seq<Seq<u8>>,
    fields: Seq<(String, Type, u32)>,
    vs: Seq<ValueView>,
)
    requires
        row_ok(fields, vs),
        fields_sized(fields),
        forall|i: int| 0 <= i < vs.len() ==> canonical_value(#[trigger] vs[i]),
    ensures
        before.push(row_bytes(fields, vs)).map_values(|b: Seq<u8>| row_values(fields, b))
            == before.map_values(|b: Seq<u8>| row_values(fields, b)).push(vs),
{
    lemma_row_round_trip(fields, vs);
    let f = |b: Seq<u8>| row_values(fields, b);
    assert(before.push(row_bytes(fields, vs)).map_values(f) =~= before.map_values(f).push(vs));
}

/// With every page but the last full, the number of rows a page sequence
/// holds is fixed by the page count and the last page's fill.
pub proof fn lemma_pages_rows_len(ps: Seq<Page>, rpp: int)
    requires
        ps.len() >= 1,
        forall|i: int| 0 <= i < ps.len() ==> (#[trigger] ps[i]).wf(),
        forall|i: int| 0 <= i < ps.len() - 1 ==> (#[trigger] ps[i]).count() == rpp,
    ensures
        pages_rows(ps).len() == (ps.len() - 1) * rpp + ps.last().count(),
    decreases ps.len(),
{
    assert(pages_rows(ps) == pages_rows(ps.drop_last()) + ps.last().rows());
    assert(ps.last().rows().len() == ps.last().count());
    if ps.len() == 1 {
        assert(ps.drop_last() =~= Seq::<Page>::empty());
        assert(pages_rows(Seq::<Page>::empty()) == Seq::<Seq<u8>>::empty());
        assert((ps.len() - 1) * rpp == 0) by (nonlinear_arith)
            requires
                ps.len() == 1,
        ;
    } else {
        assert(forall|i: int|
            0 <= i < ps.drop_last().len() - 1 ==> (#[trigger] ps.drop_last()[i]).count() == rpp);
        lemma_pages_rows_len(ps.drop_last(), rpp);
        assert(ps.drop_last().last() == ps[ps.len() - 2]);
        assert(ps[ps.len() - 2].count() == rpp);
        assert((ps.len() - 2) * rpp + rpp == (ps.len() - 1) * rpp) by (nonlinear_arith);
    }
}

} // verus!
