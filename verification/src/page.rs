//! A fixed-capacity, in-memory container of serialized rows: the unit of
//! disk I/O.

use vstd::prelude::*;
use vstd::arithmetic::mul::lemma_mul_inequality;

verus! {

#[derive(Debug, PartialEq, Eq, Structural)]
pub enum PageError {
    RowNotInPage,
    PageFull,
    BufferTooLong,
    WriteError,
}

/// A buffer of up to `max_rows` serialized rows, each exactly `row_length`
/// bytes, packed back to back in insertion order.
#[derive(Debug)]
pub struct Page {
    row_length: u32,
    max_rows: u32,
    row_count: u32,
    buffer: Vec<u8>,
}

impl Page {
    /// The fixed byte length of each row.
    pub closed spec fn row_len(&self) -> int {
        self.row_length as int
    }

    /// The capacity in rows.
    pub closed spec fn cap(&self) -> int {
        self.max_rows as int
    }

    /// How many rows the page holds.
    pub closed spec fn count(&self) -> int {
        self.row_count as int
    }

    /// The packed bytes of all rows.
    pub closed spec fn buf(&self) -> Seq<u8> {
        self.buffer@
    }

    /// The buffer holds exactly `count` rows of `row_len` bytes each, and no
    /// more rows than the capacity.
    pub open spec fn wf(&self) -> bool {
        &&& 0 <= self.row_len()
        &&& 0 <= self.count()
        &&& self.buf().len() == self.count() * self.row_len()
        &&& self.count() <= self.cap()
    }

    /// Row `i`: the `i`-th `row_len`-byte slice of the buffer.
    pub open spec fn row(&self, i: int) -> Seq<u8> {
        self.buf().subrange(i * self.row_len(), (i + 1) * self.row_len())
    }

    /// All rows, in insertion order.
    pub open spec fn rows(&self) -> Seq<Seq<u8>> {
        Seq::new(self.count() as nat, |i: int| self.row(i))
    }

    /// An empty page for rows of `row_length` bytes, holding up to `max_rows`
    /// of them.
    pub fn new(row_length: u32, max_rows: u32) -> (p: Page)
        ensures
            p.wf(),
            p.row_len() == row_length,
            p.cap() == max_rows,
            p.count() == 0,
            p.buf() == Seq::<u8>::empty(),
    {
        let p = Page { row_length, max_rows, row_count: 0, buffer: Vec::new() };
        proof {
            vstd::arithmetic::mul::lemma_mul_basics(row_length as int);
            assert(p.buf() =~= Seq::<u8>::empty());
        }
        p
    }

    /// Appends one serialized row. `PageFull` on a saturated page, which is
    /// left unmodified.
    pub fn write_row(&mut self, row: Vec<u8>) -> (r: Result<String, PageError>)
        requires
            old(self).wf(),
            row@.len() == old(self).row_len(),
        ensures
            final(self).wf(),
            final(self).row_len() == old(self).row_len(),
            final(self).cap() == old(self).cap(),
            r is Ok <==> old(self).count() < old(self).cap(),
            r is Err ==> r == Err::<String, PageError>(PageError::PageFull) && *final(self)
                == *old(self),
            r is Ok ==> final(self).count() == old(self).count() + 1 && final(self).buf()
                == old(self).buf() + row@ && final(self).rows() == old(self).rows().push(row@),
            r matches Ok(s) ==> s@ == "inserted row"@,
    {
        if self.is_full() {
            return Err(PageError::PageFull);
        }
        let ghost old_self = *self;
        let ghost row0 = row@;
        let mut row = row;
        self.buffer.append(&mut row);
        self.row_count = self.row_count + 1;
        proof {
            vstd::arithmetic::mul::lemma_mul_basics(old_self.row_len());
            lemma_mul_inequality(self.count(), self.cap(), self.row_len());
            assert(self.count() * self.row_len() == old_self.count() * old_self.row_len()
                + old_self.row_len()) by (nonlinear_arith)
                requires
                    self.count() == old_self.count() + 1,
                    self.row_len() == old_self.row_len(),
            ;
            assert forall|i: int| 0 <= i < old_self.count() implies self.row(i) == old_self.row(
                i,
            ) by {
                lemma_mul_inequality(i + 1, old_self.count(), old_self.row_len());
                vstd::arithmetic::mul::lemma_mul_is_distributive_add_other_way(
                    old_self.row_len(),
                    i,
                    1,
                );
                assert(self.row(i) =~= old_self.row(i));
            }
            assert(self.row(old_self.count()) =~= row0) by {
                vstd::arithmetic::mul::lemma_mul_nonnegative(
                    old_self.count(),
                    old_self.row_len(),
                );
                vstd::arithmetic::mul::lemma_mul_is_distributive_add_other_way(
                    old_self.row_len(),
                    old_self.count(),
                    1,
                );
            }
            assert(self.rows() =~= old_self.rows().push(row0));
        }
        Ok("inserted row".to_owned())
    }

    /// Bulk-loads raw bytes read off disk, appending them as whole rows.
    /// `BufferTooLong` if they would overfill the page or do not divide into
    /// whole rows; the page and the buffer are then left unmodified.
    pub fn write_page(&mut self, buff: &mut Vec<u8>) -> (r: Result<(), PageError>)
        requires
            old(self).wf(),
        ensures
            final(self).wf(),
            final(self).row_len() == old(self).row_len(),
            final(self).cap() == old(self).cap(),
            r is Ok <==> old(self).buf().len() + old(buff)@.len() <= old(self).cap() * old(
                self,
            ).row_len() && ((old(buff)@.len() as int) % (if old(self).row_len() == 0 {
                1int
            } else {
                old(self).row_len()
            })) == 0,
            r is Err ==> r == Err::<(), PageError>(PageError::BufferTooLong) && *final(self)
                == *old(self) && *final(buff) == *old(buff),
            r is Ok ==> final(self).buf() == old(self).buf() + old(buff)@ && final(buff)@
                == Seq::<u8>::empty(),
    {
        proof {
            vstd::arithmetic::mul::lemma_mul_upper_bound(
                self.row_len(),
                0xffff_ffff,
                self.cap(),
                0xffff_ffff,
            );
            lemma_mul_inequality(self.count(), self.cap(), self.row_len());
            vstd::arithmetic::mul::lemma_mul_is_commutative(self.cap(), self.row_len());
        }
        let total: u64 = (self.row_length as u64) * (self.max_rows as u64);
        let used: u64 = self.buffer.len() as u64;
        if (buff.len() as u64) > total - used {
            return Err(PageError::BufferTooLong);
        }
        let added: u32;
        if self.row_length == 0 {
            added = 0;
        } else {
            if buff.len() % (self.row_length as usize) != 0 {
                return Err(PageError::BufferTooLong);
            }
            proof {
                vstd::arithmetic::div_mod::lemma_div_is_ordered(
                    buff@.len() as int,
                    self.row_len() * self.cap(),
                    self.row_len(),
                );
                vstd::arithmetic::div_mod::lemma_div_multiples_vanish(
                    self.cap(),
                    self.row_len(),
                );
                vstd::arithmetic::mul::lemma_mul_is_commutative(self.cap(), self.row_len());
            }
            added = (buff.len() / (self.row_length as usize)) as u32;
        }
        let ghost old_self = *self;
        let ghost loaded = buff@;
        proof {
            if old_self.row_len() == 0 {
                assert(old_self.cap() * 0 == 0) by (nonlinear_arith);
                assert(loaded.len() == 0);
            } else {
                let rl = old_self.row_len();
                let q = loaded.len() as int / rl;
                assert(loaded.len() as int == q * rl) by (nonlinear_arith)
                    requires
                        rl > 0,
                        (loaded.len() as int) % rl == 0,
                        q == loaded.len() as int / rl,
                ;
                assert((old_self.count() + q) * rl == old_self.count() * rl + q * rl)
                    by (nonlinear_arith);
                assert((old_self.count() + q) * rl <= old_self.cap() * rl);
                assert(old_self.count() + q <= old_self.cap()) by (nonlinear_arith)
                    requires
                        rl > 0,
                        (old_self.count() + q) * rl <= old_self.cap() * rl,
                ;
            }
        }
        self.buffer.append(buff);
        self.row_count = self.row_count + added;
        Ok(())
    }

    /// The full packed buffer, for writing back to disk.
    pub fn read_all(&self) -> (r: Vec<u8>)
        ensures
            r@ == self.buf(),
    {
        vstd::slice::slice_to_vec(self.buffer.as_slice())
    }

    /// Row `row_num` in insertion order; `RowNotInPage` if the page holds no
    /// such row.
    pub fn read_row(&self, row_num: u32) -> (r: Result<Vec<u8>, PageError>)
        requires
            self.wf(),
        ensures
            r is Ok <==> row_num < self.count(),
            r matches Ok(v) ==> v@ == self.row(row_num as int),
            r is Err ==> r == Err::<Vec<u8>, PageError>(PageError::RowNotInPage),
    {
        if row_num >= self.row_count {
            return Err(PageError::RowNotInPage);
        }
        let buffer_length = self.buffer.len();
        proof {
            assert(buffer_length == self.count() * self.row_len());
            lemma_mul_inequality(row_num as int + 1, self.count(), self.row_len());
            vstd::arithmetic::mul::lemma_mul_is_distributive_add_other_way(
                self.row_len(),
                row_num as int,
                1,
            );
            lemma_mul_inequality(row_num as int, self.count(), self.row_len());
            vstd::arithmetic::mul::lemma_mul_nonnegative(row_num as int, self.row_len());
        }
        let start: usize = (row_num as usize) * (self.row_length as usize);
        let end: usize = start + (self.row_length as usize);
        Ok(vstd::slice::slice_to_vec(vstd::slice::slice_subrange(self.buffer.as_slice(), start, end)))
    }

    /// Whether the page holds as many rows as its capacity.
    pub fn is_full(&self) -> (r: bool)
        ensures
            r == (self.count() >= self.cap()),
    {
        self.row_count >= self.max_rows
    }
}

} // verus!
