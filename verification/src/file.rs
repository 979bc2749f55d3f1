//! What the file system says of a file.
use crate::tally::lemma_few;
use vstd::prelude::*;

verus! {

/// The kinds of files that are handled.
#[derive(Clone, Copy, Debug, PartialEq, Eq, Structural)]
pub enum FileType {
    Dir,
    File,
}

/// What tells a file from all others, whatever paths lead to it.
#[derive(Clone, Copy, Debug, PartialEq, Eq, Structural)]
pub enum FileId {
    Inode { device_id: u64, inode_number: u64 },
    LowRes { serial_number: u32, file_index: u64 },
    HighRes { volume_serial_number: u64, file_id: u128 },
}

/// The type of a file that calls itself a directory or a regular file.
pub open spec fn file_type(is_dir: bool, is_file: bool) -> Option<FileType> {
    if is_dir {
        Some(FileType::Dir)
    } else if is_file {
        Some(FileType::File)
    } else {
        None
    }
}

impl FileType {
    /// The type of a file, or `None` if it is neither a directory nor a regular file.
    pub fn for_meta(is_dir: bool, is_file: bool) -> (r: Option<FileType>)
        ensures
            r == file_type(is_dir, is_file),
    {
        if is_dir {
            Some(FileType::Dir)
        } else if is_file {
            Some(FileType::File)
        } else {
            None
        }
    }
}

/// The later of two times, if both are known.
pub open spec fn latest(a: Option<i128>, b: Option<i128>) -> Option<i128> {
    match (a, b) {
        (Some(a), Some(b)) => Some(
            if a < b {
                b
            } else {
                a
            },
        ),
        _ => None,
    }
}

/// The later of two times, if both are known.
pub fn later(a: Option<i128>, b: Option<i128>) -> (r: Option<i128>)
    ensures
        r == latest(a, b),
{
    match (a, b) {
        (Some(a), Some(b)) => Some(
            if a < b {
                b
            } else {
                a
            },
        ),
        _ => None,
    }
}

/// What is known of when a file was modified, on the way along the links that lead to it.
#[derive(Clone, Copy, Debug, PartialEq, Eq, Structural)]
pub enum Modified {
    /// It cannot be known.
    Unknown,
    /// The file has been reached, and this is the latest time on the way.
    At(i128),
    /// The link has to be followed; this is the latest time so far.
    Follow(i128),
}

/// What is known once the next file on the way has been seen: whether it is a regular file, and when
/// it was modified. Nothing is known before the first, and nothing is seen behind the last.
pub open spec fn followed(so_far: Option<Modified>, is_file: bool, time: Option<i128>) -> Modified {
    let before = match so_far {
        Some(Modified::Follow(t)) => Some(t),
        _ => time,
    };
    match (so_far, latest(before, time)) {
        (Some(Modified::Unknown), _) => Modified::Unknown,
        (Some(Modified::At(t)), _) => Modified::At(t),
        (_, None) => Modified::Unknown,
        (_, Some(t)) => if is_file {
            Modified::At(t)
        } else {
            Modified::Follow(t)
        },
    }
}

/// What is known at the end of a chain of links.
pub open spec fn chain_modified(chain: Seq<(bool, Option<i128>)>) -> Option<Modified>
    decreases chain.len(),
{
    if chain.len() == 0 {
        None
    } else {
        Some(followed(chain_modified(chain.drop_last()), chain.last().0, chain.last().1))
    }
}

/// Takes account of the next file on the way: whether it is a regular file, and when it was modified.
pub fn get_file_modified(so_far: Option<Modified>, is_file: bool, time: Option<i128>) -> (r:
    Modified)
    ensures
        r == followed(so_far, is_file, time),
{
    let before = match so_far {
        None => time,
        Some(Modified::Follow(t)) => Some(t),
        Some(known) => {
            return known;
        },
    };
    match later(before, time) {
        None => Modified::Unknown,
        Some(t) => if is_file {
            Modified::At(t)
        } else {
            Modified::Follow(t)
        },
    }
}

/// The time is the latest on the way, and all times on the way are known.
pub open spec fn is_latest(chain: Seq<(bool, Option<i128>)>, t: i128) -> bool {
    &&& forall|i: int|
        0 <= i < chain.len() ==> ((#[trigger] chain[i]).1 matches Some(time) && time <= t)
    &&& exists|i: int| 0 <= i < chain.len() && (#[trigger] chain[i]).1 == Some(t)
}

/// Some time on the way is not known.
pub open spec fn is_unknown(chain: Seq<(bool, Option<i128>)>) -> bool {
    exists|i: int| 0 <= i < chain.len() && (#[trigger] chain[i]).1 is None
}

/// What one more file on the way makes of the latest time.
proof fn lemma_latest(chain: Seq<(bool, Option<i128>)>)
    requires
        chain.len() > 0,
    ensures
        chain.last().1 is None ==> is_unknown(chain),
        is_unknown(chain.drop_last()) ==> is_unknown(chain),
        chain.len() == 1 && chain.last().1 is Some ==> is_latest(chain, chain.last().1->0),
        forall|t: i128| #[trigger]
            is_latest(chain.drop_last(), t) && chain.last().1 is Some ==> is_latest(
                chain,
                latest(Some(t), chain.last().1)->0,
            ),
{
    let n = chain.len() - 1;
    let rest = chain.drop_last();
    assert(chain[n] == chain.last());
    assert(forall|i: int| 0 <= i < n ==> #[trigger] rest[i] == chain[i]);
    if is_unknown(rest) {
        let i = choose|i: int| 0 <= i < rest.len() && (#[trigger] rest[i]).1 is None;
        assert(chain[i].1 is None);
    }
    assert forall|t: i128| #[trigger]
        is_latest(rest, t) && chain.last().1 is Some implies is_latest(
        chain,
        latest(Some(t), chain.last().1)->0,
    ) by {
        let i = choose|i: int| 0 <= i < rest.len() && (#[trigger] rest[i]).1 == Some(t);
        assert(chain[i].1 == Some(t));
        assert forall|j: int| 0 <= j < chain.len() implies ((#[trigger] chain[j]).1 matches Some(
            time,
        ) && time <= latest(Some(t), chain.last().1)->0) by {
            if j < n {
                assert(rest[j] == chain[j]);
            }
        }
    }
}

/// What is known along links that are not the file itself: the latest of their times, if all are
/// known.
proof fn lemma_chain_follow(chain: Seq<(bool, Option<i128>)>)
    requires
        chain.len() > 0,
        forall|i: int| 0 <= i < chain.len() ==> !(#[trigger] chain[i]).0,
    ensures
        chain_modified(chain) matches Some(m) && match m {
            Modified::Unknown => is_unknown(chain),
            Modified::At(_) => false,
            Modified::Follow(t) => is_latest(chain, t),
        },
    decreases chain.len(),
{
    let rest = chain.drop_last();
    assert(chain[chain.len() - 1] == chain.last());
    lemma_latest(chain);
    if rest.len() > 0 {
        assert(forall|i: int| 0 <= i < rest.len() ==> #[trigger] rest[i] == chain[i]);
        lemma_chain_follow(rest);
    } else {
        assert(chain_modified(rest) is None);
    }
}

/// A file was modified when the last of it and the links that lead to it was, which is known if it is
/// known of all of them.
pub proof fn law_chain_modified(chain: Seq<(bool, Option<i128>)>)
    requires
        chain.len() > 0,
        chain.last().0,
        forall|i: int| 0 <= i < chain.len() - 1 ==> !(#[trigger] chain[i]).0,
    ensures
        chain_modified(chain) matches Some(m) && match m {
            Modified::Unknown => is_unknown(chain),
            Modified::At(t) => is_latest(chain, t),
            Modified::Follow(_) => false,
        },
{
    let rest = chain.drop_last();
    lemma_latest(chain);
    if rest.len() > 0 {
        assert(forall|i: int| 0 <= i < rest.len() ==> #[trigger] rest[i] == chain[i]);
        lemma_chain_follow(rest);
    } else {
        assert(chain_modified(rest) is None);
    }
}

/// A number of an id's own.
spec fn id_number(id: FileId) -> int {
    match id {
        FileId::Inode { device_id, inode_number } => device_id * 0x1_0000_0000_0000_0000
            + inode_number,
        FileId::LowRes { serial_number, file_index } => 0x1_0000_0000_0000_0000_0000_0000_0000_0000int
            + serial_number * 0x1_0000_0000_0000_0000 + file_index,
        FileId::HighRes { volume_serial_number, file_id } => (volume_serial_number + 2)
            * 0x1_0000_0000_0000_0000_0000_0000_0000_0000int + file_id,
    }
}

/// How many ids there are at most.
pub open spec fn most_ids() -> nat {
    0x1_0000_0000_0000_0002_0000_0000_0000_0000_0000_0000_0000_0000nat
}

/// There are only so many ids.
pub proof fn lemma_ids_few(ids: Seq<FileId>)
    requires
        ids.no_duplicates(),
    ensures
        ids.len() <= most_ids(),
{
    let numbers = ids.map_values(|id: FileId| id_number(id));
    assert forall|i: int, j: int|
        0 <= i < numbers.len() && 0 <= j < numbers.len() && i != j implies numbers[i]
        != numbers[j] by {
        assert(ids[i] != ids[j]);
    }
    lemma_few(numbers, most_ids());
}

/// The later of two times is one of them, and neither is later. It is known exactly if both are.
pub proof fn law_latest(a: Option<i128>, b: Option<i128>)
    ensures
        latest(a, b) is Some <==> a is Some && b is Some,
        latest(a, b) is Some ==> latest(a, b) == a || latest(a, b) == b,
        latest(a, b) is Some ==> latest(a, b)->0 >= a->0 && latest(a, b)->0 >= b->0,
{
}

/// What is both a directory and a file, or neither, is handled as the directory, or not at all.
pub proof fn law_file_type(is_dir: bool, is_file: bool)
    ensures
        file_type(is_dir, is_file) == Some(FileType::Dir) <==> is_dir,
        file_type(is_dir, is_file) == Some(FileType::File) <==> is_file && !is_dir,
{
}

} // verus!
