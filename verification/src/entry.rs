//! What one directory holds, from the metadata of its entries.
//!
//! How many bytes an entry occupies, when it was last written and which volume it
//! lives on are the places where the platforms differ; everything built on them
//! reads the same on either.
use vstd::prelude::*;

use crate::scan::NodeState;
use crate::text::{contains_text, listed, texts};

verus! {

/// The part of an entry's metadata that a platform reports in its own terms.
#[derive(Debug, Clone, Copy, PartialEq, Eq, Structural)]
pub enum RawMeta {
    Unix { blocks: u64, mtime: i64, dev: u64 },
    Windows { attributes: u32, file_size: u64, last_write_time: u64 },
}

/// One entry of a directory.
#[derive(Debug)]
pub struct DirEntry {
    pub name: String,
    pub is_dir: bool,
    pub is_symlink: bool,
    pub meta: RawMeta,
}

/// How a volume is identified, which is only possible on Unix.
#[derive(Debug, Clone, Copy, PartialEq, Eq, Structural)]
pub enum Volume {
    Device(u64),
    Unnamed,
}

/// Windows attributes of files that report a length without occupying it: sparse,
/// offline, recalled on open, recalled on data access.
pub const DATALESS: u32 = 0x0044_1200;

/// The Windows attribute of junctions, mount points and links.
pub const REPARSE_POINT: u32 = 0x0000_0400;

/// Bytes an entry actually occupies on disk.
///
/// `st_blocks` is authoritative and never falls back to the logical length:
/// placeholders and sparse files legitimately occupy no blocks while reporting a
/// large length. Where there is no `st_blocks` they are recognised by their
/// attributes and count as zero.
pub open spec fn occupied(meta: RawMeta) -> int {
    match meta {
        RawMeta::Unix { blocks, .. } => blocks * 512,
        RawMeta::Windows { attributes, file_size, .. } => if attributes & DATALESS != 0 {
            0
        } else {
            file_size as int
        },
    }
}

/// Last write time as Unix seconds. Windows counts 100-nanosecond ticks from 1601.
pub open spec fn written_at(meta: RawMeta) -> int {
    match meta {
        RawMeta::Unix { mtime, .. } => mtime as int,
        RawMeta::Windows { last_write_time, .. } => {
            let seconds = last_write_time as int / 10_000_000 - 11_644_473_600;
            if seconds < 0 {
                0
            } else {
                seconds
            }
        },
    }
}

/// The volume an entry lives on.
pub open spec fn home_volume(meta: RawMeta) -> Volume {
    match meta {
        RawMeta::Unix { dev, .. } => Volume::Device(dev),
        RawMeta::Windows { .. } => Volume::Unnamed,
    }
}

/// Whether descending into a directory would leave the volume `root`. On Windows
/// another volume is grafted in through a reparse point.
pub open spec fn foreign(meta: RawMeta, root: Volume) -> bool {
    match meta {
        RawMeta::Unix { dev, .. } => Volume::Device(dev) != root,
        RawMeta::Windows { attributes, .. } => attributes & REPARSE_POINT != 0,
    }
}

pub fn entry_size(meta: RawMeta) -> (r: u64)
    requires
        occupied(meta) <= u64::MAX,
    ensures
        r == occupied(meta),
{
    match meta {
        RawMeta::Unix { blocks, .. } => blocks * 512,
        RawMeta::Windows { attributes, file_size, .. } => if attributes & DATALESS != 0 {
            0
        } else {
            file_size
        },
    }
}

pub fn entry_mtime(meta: RawMeta) -> (r: i64)
    ensures
        r == written_at(meta),
{
    match meta {
        RawMeta::Unix { mtime, .. } => mtime,
        RawMeta::Windows { last_write_time, .. } => {
            let seconds: u64 = (last_write_time / 10_000_000).saturating_sub(11_644_473_600);
            seconds as i64
        },
    }
}

pub fn volume_of(meta: RawMeta) -> (r: Volume)
    ensures
        r == home_volume(meta),
{
    match meta {
        RawMeta::Unix { dev, .. } => Volume::Device(dev),
        RawMeta::Windows { .. } => Volume::Unnamed,
    }
}

pub fn leaves_volume(meta: RawMeta, root: Volume) -> (r: bool)
    ensures
        r == foreign(meta, root),
{
    match meta {
        RawMeta::Unix { dev, .. } => match root {
            Volume::Device(device) => dev != device,
            Volume::Unnamed => true,
        },
        RawMeta::Windows { attributes, .. } => attributes & REPARSE_POINT != 0,
    }
}

// ---------------------------------------------------------------------------
// Listings
// ---------------------------------------------------------------------------

/// Whether an entry is a directory of its own, and not a link to one.
pub open spec fn is_directory(entry: DirEntry) -> bool {
    entry.is_dir && !entry.is_symlink
}

/// Whether the walk goes into an entry: a directory, never a symlink, never on
/// another volume.
pub open spec fn descended(entry: DirEntry, root: Volume) -> bool {
    is_directory(entry) && !foreign(entry.meta, root)
}

/// Whether the walk goes into an entry.
pub fn is_descended(entry: &DirEntry, root: Volume) -> (r: bool)
    ensures
        r == descended(*entry, root),
{
    entry.is_dir && !entry.is_symlink && !leaves_volume(entry.meta, root)
}

/// The bytes of the entries that count as files.
pub open spec fn file_bytes(entries: Seq<DirEntry>) -> int
    decreases entries.len(),
{
    if entries.len() == 0 {
        0
    } else {
        file_bytes(entries.drop_last()) + if is_directory(entries.last()) {
            0
        } else {
            occupied(entries.last().meta)
        }
    }
}

/// The number of entries that count as files.
pub open spec fn file_count(entries: Seq<DirEntry>) -> nat
    decreases entries.len(),
{
    if entries.len() == 0 {
        0
    } else {
        file_count(entries.drop_last()) + if is_directory(entries.last()) {
            0nat
        } else {
            1nat
        }
    }
}

/// The newest modification among the entries, and never before 1970.
pub open spec fn newest_entry(entries: Seq<DirEntry>) -> int
    decreases entries.len(),
{
    if entries.len() == 0 {
        0
    } else {
        let rest = newest_entry(entries.drop_last());
        let here = written_at(entries.last().meta);
        if here > rest {
            here
        } else {
            rest
        }
    }
}

/// The names of the directories the walk goes into, in the order they were read.
pub open spec fn subdir_names(entries: Seq<DirEntry>, root: Volume) -> Seq<Seq<char>>
    decreases entries.len(),
{
    if entries.len() == 0 {
        Seq::empty()
    } else {
        let rest = subdir_names(entries.drop_last(), root);
        if descended(entries.last(), root) {
            rest.push(entries.last().name@)
        } else {
            rest
        }
    }
}

/// The names of the files that are worth remembering, in the order they were read.
pub open spec fn marker_names(entries: Seq<DirEntry>, vocabulary: Seq<String>) -> Seq<Seq<char>>
    decreases entries.len(),
{
    if entries.len() == 0 {
        Seq::empty()
    } else {
        let rest = marker_names(entries.drop_last(), vocabulary);
        if !is_directory(entries.last()) && listed(vocabulary, entries.last().name@) {
            rest.push(entries.last().name@)
        } else {
            rest
        }
    }
}

/// What a directory contributes to the tree.
#[derive(Debug)]
pub struct Listing {
    pub own_size: u64,
    pub own_files: u32,
    pub newest: i64,
    pub subdirs: Vec<String>,
    pub markers: Vec<String>,
    pub state: NodeState,
}

/// The contribution of a directory that was not opened.
pub open spec fn nothing_listed(listing: Listing, state: NodeState) -> bool {
    &&& listing.own_size == 0
    &&& listing.own_files == 0
    &&& listing.newest == 0
    &&& listing.subdirs@.len() == 0
    &&& listing.markers@.len() == 0
    &&& listing.state == state
}

/// Whether what a directory holds can be counted at all.
pub fn countable(entries: &Vec<DirEntry>) -> (r: bool)
    ensures
        r == (entries@.len() <= u32::MAX && file_bytes(entries@) <= u64::MAX),
{
    if entries.len() > 0xffff_ffff {
        return false;
    }
    let mut sum: u128 = 0;
    let mut i: usize = 0;
    while i < entries.len()
        invariant
            i <= entries@.len() <= u32::MAX,
            sum == file_bytes(entries@.take(i as int)),
            sum <= i * 0x2_0000_0000_0000_0000_0000,
        decreases entries.len() - i,
    {
        proof {
            assert(entries@.take(i + 1).drop_last() =~= entries@.take(i as int));
            assert(entries@.take(i + 1).last() == entries@[i as int]);
            assert((i + 1) * 0x2_0000_0000_0000_0000_0000 == i * 0x2_0000_0000_0000_0000_0000
                + 0x2_0000_0000_0000_0000_0000) by (nonlinear_arith);
        }
        let entry = &entries[i];
        if !(entry.is_dir && !entry.is_symlink) {
            let size: u128 = match entry.meta {
                RawMeta::Unix { blocks, .. } => blocks as u128 * 512,
                RawMeta::Windows { attributes, file_size, .. } => if attributes & DATALESS != 0 {
                    0
                } else {
                    file_size as u128
                },
            };
            sum = sum + size;
        }
        i += 1;
    }
    assert(entries@.take(entries@.len() as int) =~= entries@);
    sum <= 0xffff_ffff_ffff_ffff
}

impl Listing {
    /// The contribution of a directory that was not opened, or would not open.
    pub fn sealed(state: NodeState) -> (r: Listing)
        ensures
            nothing_listed(r, state),
    {
        Listing {
            own_size: 0,
            own_files: 0,
            newest: 0,
            subdirs: Vec::new(),
            markers: Vec::new(),
            state,
        }
    }

    /// The contribution of a directory that was read.
    pub fn of(entries: &Vec<DirEntry>, root: Volume, vocabulary: &Vec<String>) -> (r: Listing)
        requires
            entries@.len() <= u32::MAX,
            file_bytes(entries@) <= u64::MAX,
        ensures
            r.own_size == file_bytes(entries@),
            r.own_files == file_count(entries@),
            r.newest == newest_entry(entries@),
            texts(r.subdirs@) == subdir_names(entries@, root),
            texts(r.markers@) == marker_names(entries@, vocabulary@),
            r.state is Readable,
    {
        let mut own_size: u64 = 0;
        let mut own_files: u32 = 0;
        let mut newest: i64 = 0;
        let mut subdirs: Vec<String> = Vec::new();
        let mut markers: Vec<String> = Vec::new();
        let mut i: usize = 0;
        assert(texts(subdirs@) =~= subdir_names(entries@.take(0), root));
        assert(texts(markers@) =~= marker_names(entries@.take(0), vocabulary@));
        while i < entries.len()
            invariant
                i <= entries@.len() <= u32::MAX,
                file_bytes(entries@) <= u64::MAX,
                own_size == file_bytes(entries@.take(i as int)),
                own_files == file_count(entries@.take(i as int)),
                own_files <= i,
                newest == newest_entry(entries@.take(i as int)),
                texts(subdirs@) == subdir_names(entries@.take(i as int), root),
                texts(markers@) == marker_names(entries@.take(i as int), vocabulary@),
            decreases entries.len() - i,
        {
            let entry = &entries[i];
            let ghost longer = entries@.take(i + 1);
            let ghost names = texts(subdirs@);
            let ghost marks = texts(markers@);
            proof {
                assert(longer.drop_last() =~= entries@.take(i as int));
                assert(longer.last() == *entry);
                lemma_file_bytes_grow(entries@, i + 1);
                lemma_file_bytes_grow(entries@, i as int);
            }
            let mtime: i64 = entry_mtime(entry.meta);
            if mtime > newest {
                newest = mtime;
            }
            if is_descended(entry, root) {
                subdirs.push(entry.name.clone());
                assert(texts(subdirs@) =~= names.push(entry.name@));
            }
            if !entry.is_dir || entry.is_symlink {
                own_size += entry_size(entry.meta);
                own_files += 1;
                if contains_text(vocabulary, entry.name.as_str()) {
                    markers.push(entry.name.clone());
                    assert(texts(markers@) =~= marks.push(entry.name@));
                }
            }
            i += 1;
        }
        assert(entries@.take(entries@.len() as int) == entries@);
        Listing { own_size, own_files, newest, subdirs, markers, state: NodeState::Readable }
    }
}

proof fn lemma_file_bytes_grow(entries: Seq<DirEntry>, n: int)
    requires
        0 <= n <= entries.len(),
    ensures
        0 <= file_bytes(entries.take(n)) <= file_bytes(entries),
    decreases entries.len(),
{
    if n == entries.len() {
        assert(entries.take(n) == entries);
        if n > 0 {
            lemma_file_bytes_grow(entries.drop_last(), n - 1);
        }
    } else {
        lemma_file_bytes_grow(entries.drop_last(), n);
        assert(entries.drop_last().take(n) == entries.take(n));
    }
}

/// A symlink is counted as the file it is and never followed, whatever it points at.
pub proof fn law_symlinks_are_not_followed(entries: Seq<DirEntry>, link: DirEntry, root: Volume)
    requires
        link.is_symlink,
    ensures
        subdir_names(entries.push(link), root) == subdir_names(entries, root),
        file_count(entries.push(link)) == file_count(entries) + 1,
        file_bytes(entries.push(link)) == file_bytes(entries) + occupied(link.meta),
{
    assert(entries.push(link).drop_last() =~= entries);
}

/// A directory on another volume contributes nothing and is not gone into.
pub proof fn law_volumes_are_not_crossed(entries: Seq<DirEntry>, dir: DirEntry, root: Volume)
    requires
        is_directory(dir),
        foreign(dir.meta, root),
    ensures
        subdir_names(entries.push(dir), root) == subdir_names(entries, root),
        file_count(entries.push(dir)) == file_count(entries),
        file_bytes(entries.push(dir)) == file_bytes(entries),
{
    assert(entries.push(dir).drop_last() =~= entries);
}

/// Every directory of the volume is walked, whatever it is called: an entry adds its
/// name to the subdirectories exactly when it is a directory, is no symlink and
/// lives where the root does.
pub proof fn law_every_directory_is_walked(entries: Seq<DirEntry>, e: DirEntry, root: Volume)
    ensures
        subdir_names(Seq::empty(), root) == Seq::<Seq<char>>::empty(),
        ({
            let here = match e.meta {
                RawMeta::Unix { blocks, mtime, dev } => root == Volume::Device(dev),
                RawMeta::Windows { attributes, file_size, last_write_time } => attributes
                    & 0x400u32 == 0,
            };
            subdir_names(entries.push(e), root) == (if e.is_dir && !e.is_symlink && here {
                subdir_names(entries, root).push(e.name@)
            } else {
                subdir_names(entries, root)
            })
        }),
{
    assert(entries.push(e).drop_last() =~= entries);
}

/// The directories that are walked are the entries that are directories, are no
/// symlinks and live where the root does, each under its own name and in order.
pub proof fn law_subdirectories_are_entries(entries: Seq<DirEntry>, root: Volume) -> (at: Seq<int>)
    ensures
        at.len() == subdir_names(entries, root).len(),
        forall|k: int|
            0 <= k < at.len() ==> 0 <= #[trigger] at[k] < entries.len() && subdir_names(
                entries,
                root,
            )[k] == entries[at[k]].name@ && entries[at[k]].is_dir && !entries[at[k]].is_symlink,
        forall|a: int, b: int| 0 <= a < b < at.len() ==> #[trigger] at[a] < #[trigger] at[b],
        forall|i: int|
            0 <= i < entries.len() && (#[trigger] entries[i]).is_dir && !entries[i].is_symlink
                && !foreign(entries[i].meta, root) ==> at.contains(i),
    decreases entries.len(),
{
    if entries.len() == 0 {
        Seq::empty()
    } else {
        let front = entries.drop_last();
        let before = law_subdirectories_are_entries(front, root);
        let last = entries.len() - 1;
        let all = if descended(entries[last], root) {
            before.push(last)
        } else {
            before
        };
        assert forall|k: int| 0 <= k < all.len() implies 0 <= #[trigger] all[k] < entries.len()
            && subdir_names(entries, root)[k] == entries[all[k]].name@ && entries[all[k]].is_dir
            && !entries[all[k]].is_symlink by {
            if k < before.len() {
                assert(all[k] == before[k]);
                assert(front[before[k]] == entries[all[k]]);
            }
        }
        assert forall|i: int|
            0 <= i < entries.len() && (#[trigger] entries[i]).is_dir && !entries[i].is_symlink
                && !foreign(entries[i].meta, root) implies all.contains(i) by {
            if i < last {
                assert(front[i] == entries[i]);
                let k = choose|k: int| 0 <= k < before.len() && before[k] == i;
                assert(all[k] == i);
            } else {
                assert(all[before.len() as int] == i);
            }
        }
        all
    }
}

/// Everything that is not a directory of its own is a file, and counts once with
/// the space it occupies: 512 bytes a block, or its length where it is not a mere
/// placeholder.
pub proof fn law_every_file_counts_once(entries: Seq<DirEntry>, e: DirEntry)
    ensures
        file_bytes(Seq::empty()) == 0,
        file_count(Seq::empty()) == 0,
        e.is_dir && !e.is_symlink ==> file_bytes(entries.push(e)) == file_bytes(entries)
            && file_count(entries.push(e)) == file_count(entries),
        !e.is_dir || e.is_symlink ==> file_count(entries.push(e)) == file_count(entries) + 1
            && file_bytes(entries.push(e)) == file_bytes(entries) + (match e.meta {
            RawMeta::Unix { blocks, mtime, dev } => 512 * blocks,
            RawMeta::Windows { attributes, file_size, last_write_time } => if attributes
                & 0x441200u32 == 0 {
                file_size as int
            } else {
                0
            },
        }),
{
    assert(entries.push(e).drop_last() =~= entries);
}

/// The newest modification of a directory is that of an entry, or the beginning of
/// 1970, and no entry is newer. Directories and links count as files do.
pub proof fn law_newest_is_the_latest_entry(entries: Seq<DirEntry>)
    ensures
        newest_entry(entries) >= 0,
        forall|i: int|
            0 <= i < entries.len() ==> newest_entry(entries) >= written_at(
                (#[trigger] entries[i]).meta,
            ),
        newest_entry(entries) == 0 || exists|i: int|
            0 <= i < entries.len() && newest_entry(entries) == written_at(
                (#[trigger] entries[i]).meta,
            ),
    decreases entries.len(),
{
    if entries.len() > 0 {
        let front = entries.drop_last();
        law_newest_is_the_latest_entry(front);
        assert forall|i: int| 0 <= i < entries.len() implies newest_entry(entries) >= written_at(
            (#[trigger] entries[i]).meta,
        ) by {
            if i < front.len() {
                assert(front[i] == entries[i]);
            }
        }
        if newest_entry(entries) != 0 {
            if newest_entry(entries) == newest_entry(front) {
                let i = choose|i: int|
                    0 <= i < front.len() && newest_entry(front) == written_at(
                        (#[trigger] front[i]).meta,
                    );
                assert(entries[i] == front[i]);
            } else {
                assert(newest_entry(entries) == written_at(entries[entries.len() - 1].meta));
            }
        }
    }
}

/// Times are seconds since 1970. Windows counts ten million ticks a second from
/// 1601, and what lies before 1970 counts as 1970.
pub proof fn law_times_are_seconds_since_1970(
    blocks: u64,
    mtime: i64,
    dev: u64,
    attributes: u32,
    file_size: u64,
    ticks: u64,
)
    ensures
        written_at(RawMeta::Unix { blocks, mtime, dev }) == mtime,
        ({
            let at = written_at(
                RawMeta::Windows { attributes, file_size, last_write_time: ticks },
            );
            &&& at >= 0
            &&& ticks < 116_444_736_000_000_000 ==> at == 0
            &&& ticks >= 116_444_736_000_000_000 ==> at * 10_000_000 + 116_444_736_000_000_000
                <= ticks < (at + 1) * 10_000_000 + 116_444_736_000_000_000
        }),
{
}

/// The files worth remembering are those entries that are no directories and whose
/// name is one that was asked for.
pub proof fn law_asked_for_files_are_remembered(
    entries: Seq<DirEntry>,
    e: DirEntry,
    vocabulary: Seq<String>,
)
    ensures
        marker_names(Seq::empty(), vocabulary) == Seq::<Seq<char>>::empty(),
        marker_names(entries.push(e), vocabulary) == (if (!e.is_dir || e.is_symlink) && exists|
            k: int,
        | 0 <= k < vocabulary.len() && (#[trigger] vocabulary[k])@ == e.name@ {
            marker_names(entries, vocabulary).push(e.name@)
        } else {
            marker_names(entries, vocabulary)
        }),
{
    assert(entries.push(e).drop_last() =~= entries);
}

/// On Unix a volume is a device, and a directory leaves it exactly when it is on
/// another one. Elsewhere volumes have no name, and a reparse point leads away.
pub proof fn law_volumes_are_devices(meta: RawMeta, root: Volume)
    ensures
        (match meta {
            RawMeta::Unix { blocks, mtime, dev } => home_volume(meta) == Volume::Device(dev)
                && !foreign(meta, home_volume(meta)) && (foreign(meta, root) <==> root
                != Volume::Device(dev)),
            RawMeta::Windows { attributes, file_size, last_write_time } => home_volume(meta)
                == Volume::Unnamed && (foreign(meta, root) <==> attributes & 0x400u32 != 0),
        }),
{
}

/// A listing has a subdirectory for each entry that is a directory of the volume, and
/// counts everything else as a file.
pub proof fn law_listings_hold_every_directory(
    entries: &Vec<DirEntry>,
    root: Volume,
    vocabulary: &Vec<String>,
    r: Listing,
    i: int,
)
    requires
        call_ensures(Listing::of, (entries, root, vocabulary), r),
        0 <= i < entries@.len(),
        entries@[i].is_dir,
        !entries@[i].is_symlink,
        (match entries@[i].meta {
            RawMeta::Unix { blocks, mtime, dev } => root == Volume::Device(dev),
            RawMeta::Windows { attributes, file_size, last_write_time } => attributes & 0x400u32
                == 0,
        }),
    ensures
        texts(r.subdirs@).contains(entries@[i].name@),
        r.own_size == file_bytes(entries@),
        r.own_files == file_count(entries@),
        r.newest == newest_entry(entries@),
        r.state is Readable,
{
    let at = law_subdirectories_are_entries(entries@, root);
    assert(at.contains(i));
    let k = choose|k: int| 0 <= k < at.len() && at[k] == i;
    assert(texts(r.subdirs@)[k] == entries@[at[k]].name@);
}

} // verus!
