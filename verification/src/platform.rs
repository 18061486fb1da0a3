//! What the metadata of a file says on each platform.

use vstd::prelude::*;

use crate::node::EntryMetadata;

verus! {

// --------------------------------------------------------------------------
// Unix
// --------------------------------------------------------------------------

/// The metadata of a file on Unix.
#[derive(Debug, Clone, Copy)]
pub struct UnixStat {
    pub len: u64,
    pub ino: u64,
    pub dev: u64,
    pub mtime: i64,
    pub atime: i64,
    pub ctime: i64,
    pub blksize: u64,
    pub blocks: u64,
}

/// The bytes of a block in the block count of a file.
pub fn get_block_size() -> (r: u64)
    ensures
        r == 512,
{
    512
}

/// The size of a file in whole input and output blocks.
pub open spec fn target_size(stat: UnixStat) -> int {
    let blocks = (stat.len + stat.blksize - 1) / stat.blksize as int;
    blocks * stat.blksize
}

/// The size that the block count of a file stands for.
pub open spec fn reported_size(stat: UnixStat) -> int {
    stat.blocks * 512
}

/// The most that a file system is taken to set aside for a file.
pub open spec fn greatest_allocation(stat: UnixStat) -> int {
    target_size(stat) + stat.blksize * 65536
}

/// The sizes of a file can be counted with.
pub open spec fn sizes_in_range(stat: UnixStat) -> bool {
    &&& stat.blksize > 0
    &&& greatest_allocation(stat) <= u64::MAX
    &&& reported_size(stat) <= u64::MAX
}

/// Tells whether the sizes of a file can be counted with.
pub fn are_sizes_in_range(stat: &UnixStat) -> (r: bool)
    ensures
        r == sizes_in_range(*stat),
{
    if stat.blksize == 0 {
        return false;
    }
    let unit = stat.blksize as u128;
    let blocks = (stat.len as u128 + unit - 1) / unit;
    proof {
        lemma_whole_blocks(stat.len as int, stat.blksize as int);
    }
    let target = blocks * unit;
    let most = target + unit * 65536;
    most <= u64::MAX as u128 && stat.blocks as u128 * 512 <= u64::MAX as u128
}

/// A size in whole blocks is not less than the size, and less than a block
/// more.
pub(crate) proof fn lemma_whole_blocks(len: int, unit: int)
    requires
        0 <= len,
        0 < unit,
    ensures
        len <= ((len + unit - 1) / unit) * unit < len + unit,
        0 <= (len + unit - 1) / unit,
{
    let q = (len + unit - 1) / unit;
    assert(q * unit <= len + unit - 1 < q * unit + unit && q >= 0) by (nonlinear_arith)
        requires
            q == (len + unit - 1) / unit,
            0 < unit,
            0 <= len,
    ;
}

/// The space that a file takes up: what its block count says, unless that is
/// more than a file system sets aside.
pub open spec fn space_taken(stat: UnixStat) -> int {
    if reported_size(stat) > greatest_allocation(stat) {
        target_size(stat)
    } else {
        reported_size(stat)
    }
}

/// The space that a file takes up.
pub fn allocated_size(stat: &UnixStat) -> (r: u64)
    requires
        sizes_in_range(*stat),
    ensures
        r == space_taken(*stat),
{
    let unit = stat.blksize as u128;
    let blocks = (stat.len as u128 + unit - 1) / unit;
    proof {
        lemma_whole_blocks(stat.len as int, stat.blksize as int);
    }
    let target_size = blocks * unit;
    let reported_size = stat.blocks * get_block_size();
    let pre_allocation_buffer = unit * 65536;
    let max_size = target_size + pre_allocation_buffer;
    if reported_size as u128 > max_size {
        target_size as u64
    } else {
        reported_size
    }
}

/// What the metadata of a file comes to: its length or the space that it takes
/// up, its identity, and its timestamps.
pub fn get_metadata(stat: Option<UnixStat>, use_apparent_size: bool) -> (r: Option<EntryMetadata>)
    requires
        !use_apparent_size ==> (stat matches Some(md) ==> sizes_in_range(md)),
    ensures
        match stat {
            None => r is None,
            Some(md) => r == Some(
                (
                    (if use_apparent_size {
                        md.len
                    } else {
                        space_taken(md) as u64
                    }),
                    Some((md.ino, md.dev)),
                    (md.mtime, md.atime, md.ctime),
                ),
            ),
        },
{
    match stat {
        None => None,
        Some(md) => {
            let size = if use_apparent_size {
                md.len
            } else {
                allocated_size(&md)
            };
            Some((size, Some((md.ino, md.dev)), (md.mtime, md.atime, md.ctime)))
        },
    }
}

// --------------------------------------------------------------------------
// Windows
// --------------------------------------------------------------------------

/// The instant that Windows counts from, in its ticks before the epoch.
pub const UNIX_EPOCH_FILETIME: u64 = 116_444_736_000_000_000;

/// The ticks of a second.
pub const TICKS_PER_SECOND: u64 = 10_000_000;

/// The timestamp that a file time of Windows stands for: the last whole second.
pub open spec fn unix_seconds(filetime: u64) -> int {
    (filetime - UNIX_EPOCH_FILETIME) / TICKS_PER_SECOND as int
}

/// Turns a file time of Windows into a timestamp.
pub fn filetime_to_unix_seconds(filetime: u64) -> (r: i64)
    ensures
        r == unix_seconds(filetime),
{
    if filetime >= UNIX_EPOCH_FILETIME {
        ((filetime - UNIX_EPOCH_FILETIME) / TICKS_PER_SECOND) as i64
    } else {
        let before = UNIX_EPOCH_FILETIME - filetime;
        let seconds = (before + (TICKS_PER_SECOND - 1)) / TICKS_PER_SECOND;
        -(seconds as i64)
    }
}

/// What a listing says of a file on Windows.
#[derive(Debug, Clone, Copy)]
pub struct WindowsStat {
    pub attributes: u32,
    pub len: u64,
    pub last_write_time: u64,
    pub last_access_time: u64,
    pub creation_time: u64,
}

/// What an opened file says of itself on Windows. The size on disk is missing
/// where it could not be had.
#[derive(Debug, Clone, Copy)]
pub struct WindowsFileInfo {
    pub file_size: u64,
    pub size_on_disk: Option<u64>,
    pub file_index: u64,
    pub volume_serial_number: u64,
    pub last_write_time: u64,
    pub last_access_time: u64,
    pub creation_time: u64,
}

pub const FILE_ATTRIBUTE_DIRECTORY: u32 = 0x10;

pub const FILE_ATTRIBUTE_ARCHIVE: u32 = 0x20;

pub const FILE_ATTRIBUTE_NORMAL: u32 = 0x80;

/// Any of the attributes of files that are not wholly stored where they lie:
/// sparse, offline, recalled on opening or on access, pinned and unpinned.
pub const IS_PROBABLY_ONEDRIVE: u32 = 0x005c_1200;

/// A listing says enough of a file with these attributes: it is a plain file or
/// a directory, and, unless lengths are what is asked for, wholly stored where
/// it lies.
pub open spec fn listing_suffices(attributes: u32, use_apparent_size: bool) -> bool {
    &&& attributes & FILE_ATTRIBUTE_ARCHIVE != 0 || attributes & FILE_ATTRIBUTE_DIRECTORY != 0
        || attributes == FILE_ATTRIBUTE_NORMAL
    &&& attributes & IS_PROBABLY_ONEDRIVE == 0 || use_apparent_size
}

/// What the listing says of a file comes to. A listing holds no identities.
pub open spec fn listed_metadata(stat: WindowsStat) -> EntryMetadata {
    (
        stat.len,
        None,
        (
            unix_seconds(stat.last_write_time) as i64,
            unix_seconds(stat.last_access_time) as i64,
            unix_seconds(stat.creation_time) as i64,
        ),
    )
}

/// What the listing says of a file, where that is enough.
pub fn metadata_from(stat: &WindowsStat, use_apparent_size: bool) -> (r: Option<EntryMetadata>)
    ensures
        r == (if listing_suffices(stat.attributes, use_apparent_size) {
            Some(listed_metadata(*stat))
        } else {
            None
        }),
{
    let attributes = stat.attributes;
    if (attributes & FILE_ATTRIBUTE_ARCHIVE != 0 || attributes & FILE_ATTRIBUTE_DIRECTORY != 0
        || attributes == FILE_ATTRIBUTE_NORMAL) && (attributes & IS_PROBABLY_ONEDRIVE == 0
        || use_apparent_size) {
        Some(
            (
                stat.len,
                None,
                (
                    filetime_to_unix_seconds(stat.last_write_time),
                    filetime_to_unix_seconds(stat.last_access_time),
                    filetime_to_unix_seconds(stat.creation_time),
                ),
            ),
        )
    } else {
        None
    }
}

/// What an opened file says of itself comes to: its length or the space that it
/// takes up on disk, its identity, and its timestamps.
pub fn get_metadata_expensive(
    info: Option<WindowsFileInfo>,
    use_apparent_size: bool,
) -> (r: Option<EntryMetadata>)
    ensures
        match info {
            None => r is None,
            Some(info) => {
                let size = if use_apparent_size {
                    Some(info.file_size)
                } else {
                    info.size_on_disk
                };
                match size {
                    None => r is None,
                    Some(size) => r == Some(
                        (
                            size,
                            Some((info.file_index, info.volume_serial_number)),
                            (
                                unix_seconds(info.last_write_time) as i64,
                                unix_seconds(info.last_access_time) as i64,
                                unix_seconds(info.creation_time) as i64,
                            ),
                        ),
                    ),
                }
            },
        },
{
    let info = match info {
        None => {
            return None;
        },
        Some(info) => info,
    };
    let size = if use_apparent_size {
        info.file_size
    } else {
        match info.size_on_disk {
            None => {
                return None;
            },
            Some(size) => size,
        }
    };
    Some(
        (
            size,
            Some((info.file_index, info.volume_serial_number)),
            (
                filetime_to_unix_seconds(info.last_write_time),
                filetime_to_unix_seconds(info.last_access_time),
                filetime_to_unix_seconds(info.creation_time),
            ),
        ),
    )
}

/// What a listing says, unless a link is followed or it is not enough: then the
/// file has to be opened.
pub fn listed_or_opened(
    stat: Option<WindowsStat>,
    use_apparent_size: bool,
    follow_links: bool,
) -> (r: Option<EntryMetadata>)
    ensures
        r == (match stat {
            Some(stat) => if !follow_links && listing_suffices(stat.attributes, use_apparent_size) {
                Some(listed_metadata(stat))
            } else {
                None
            },
            None => None,
        }),
{
    if follow_links {
        return None;
    }
    match stat {
        Some(stat) => metadata_from(&stat, use_apparent_size),
        None => None,
    }
}

} // verus!
