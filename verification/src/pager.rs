//! The pager's arithmetic: mapping page numbers to byte ranges in a backing
//! file. The file I/O itself lives outside the verified library; callers
//! seek to `page_offset` and read or write whole pages of `page_size` bytes.

use vstd::prelude::*;

verus! {

/// The byte offset of page `page_num` in a file of `page_size`-byte pages.
pub fn page_offset(page_num: u32, page_size: u32) -> (r: u64)
    ensures
        r == page_num * page_size,
{
    proof {
        vstd::arithmetic::mul::lemma_mul_upper_bound(
            page_num as int,
            0xffff_ffff,
            page_size as int,
            0xffff_ffff,
        );
    }
    (page_num as u64) * (page_size as u64)
}

/// How many whole pages a file of `file_len` bytes holds.
pub fn pages_in_file(file_len: u64, page_size: u32) -> (r: u64)
    requires
        page_size > 0,
    ensures
        r == file_len as int / page_size as int,
{
    file_len / (page_size as u64)
}

} // verus!
