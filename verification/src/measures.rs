//! What metadata means: the space that a file takes up, and its timestamps.

use vstd::prelude::*;

use crate::platform::{
    lemma_whole_blocks, listed_metadata, listing_suffices, sizes_in_range, space_taken, target_size,
    unix_seconds, UnixStat, WindowsStat,
};

verus! {

/// A file takes up its blocks of 512 bytes, unless they are more than a file system
/// sets aside for its length, 65536 input and output blocks: then it takes up the
/// least number of those blocks that holds it.
pub proof fn lemma_space_is_blocks(stat: UnixStat)
    requires
        sizes_in_range(stat),
    ensures
        exists|n: int|
            stat.len <= #[trigger] (n * stat.blksize) < stat.len + stat.blksize && space_taken(stat)
                == (if stat.blocks * 512 > n * stat.blksize + 65536 * stat.blksize {
                n * stat.blksize
            } else {
                stat.blocks * 512
            }),
        stat.blocks * 512 <= stat.len + 65536 * stat.blksize ==> space_taken(stat) == stat.blocks
            * 512,
        0 <= space_taken(stat) <= stat.blocks * 512,
{
    lemma_whole_blocks(stat.len as int, stat.blksize as int);
    let n = (stat.len + stat.blksize - 1) / stat.blksize as int;
    assert(target_size(stat) == n * stat.blksize);
    assert(stat.len <= n * stat.blksize < stat.len + stat.blksize);
    assert(stat.blksize * 65536 == 65536 * stat.blksize);
    assert(0 <= n * stat.blksize) by (nonlinear_arith)
        requires
            0 <= n,
            0 < stat.blksize,
    ;
}

/// The space that a file takes up grows with its blocks, where they are not more
/// than a file system sets aside.
pub proof fn lemma_more_blocks_take_more_space(a: UnixStat, b: UnixStat)
    requires
        sizes_in_range(a),
        sizes_in_range(b),
        a.blocks < b.blocks,
        a.blocks * 512 <= a.len + 65536 * a.blksize,
        b.blocks * 512 <= b.len + 65536 * b.blksize,
    ensures
        space_taken(a) < space_taken(b),
{
    lemma_space_is_blocks(a);
    lemma_space_is_blocks(b);
}

/// A file time of Windows stands for the second that it lies in, counted from 1970
/// in ticks of a hundred nanoseconds from 1601 on.
pub proof fn lemma_file_times_are_seconds(filetime: u64)
    ensures
        unix_seconds(filetime) * 10_000_000 <= filetime - 116_444_736_000_000_000 < (unix_seconds(
            filetime,
        ) + 1) * 10_000_000,
        i64::MIN <= unix_seconds(filetime) <= i64::MAX,
{
}

/// Later file times stand for no earlier seconds, and those a second apart for
/// different ones.
pub proof fn lemma_file_times_keep_their_order(a: u64, b: u64)
    ensures
        a <= b ==> unix_seconds(a) <= unix_seconds(b),
        a + 10_000_000 <= b ==> unix_seconds(a) < unix_seconds(b),
{
}

/// On Windows, what a listing says of a file is taken only where the file is marked
/// as to be archived, as a directory or as nothing special at all, and, unless
/// lengths are asked for, only where nothing says that it is not wholly stored
/// where it lies.
pub proof fn lemma_listing_suffices_for_plain_files(attributes: u32)
    ensures
        listing_suffices(attributes, true) <==> attributes & 0x20 != 0 || attributes & 0x10 != 0
            || attributes == 0x80,
        listing_suffices(attributes, false) ==> listing_suffices(attributes, true),
        // sparse, offline, pinned, unpinned, recalled on opening, recalled on access
        attributes & 0x200 != 0 ==> !listing_suffices(attributes, false),
        attributes & 0x1000 != 0 ==> !listing_suffices(attributes, false),
        attributes & 0x4_0000 != 0 ==> !listing_suffices(attributes, false),
        attributes & 0x8_0000 != 0 ==> !listing_suffices(attributes, false),
        attributes & 0x10_0000 != 0 ==> !listing_suffices(attributes, false),
        attributes & 0x40_0000 != 0 ==> !listing_suffices(attributes, false),
        listing_suffices(attributes, true) && attributes & 0x5c_1200 == 0 ==> listing_suffices(
            attributes,
            false,
        ),
{
    assert(attributes & 0x200 != 0 ==> attributes & 0x5c_1200 != 0) by (bit_vector);
    assert(attributes & 0x1000 != 0 ==> attributes & 0x5c_1200 != 0) by (bit_vector);
    assert(attributes & 0x4_0000 != 0 ==> attributes & 0x5c_1200 != 0) by (bit_vector);
    assert(attributes & 0x8_0000 != 0 ==> attributes & 0x5c_1200 != 0) by (bit_vector);
    assert(attributes & 0x10_0000 != 0 ==> attributes & 0x5c_1200 != 0) by (bit_vector);
    assert(attributes & 0x40_0000 != 0 ==> attributes & 0x5c_1200 != 0) by (bit_vector);
}

/// A listing on Windows tells the length, no identity, and the times of the last
/// write, the last access and the creation, in this order.
pub proof fn lemma_listing_tells_length_and_times(stat: WindowsStat)
    ensures
        listed_metadata(stat).0 == stat.len,
        listed_metadata(stat).1 is None,
        listed_metadata(stat).2.0 == unix_seconds(stat.last_write_time),
        listed_metadata(stat).2.1 == unix_seconds(stat.last_access_time),
        listed_metadata(stat).2.2 == unix_seconds(stat.creation_time),
{
    lemma_file_times_are_seconds(stat.last_write_time);
    lemma_file_times_are_seconds(stat.last_access_time);
    lemma_file_times_are_seconds(stat.creation_time);
}

} // verus!
