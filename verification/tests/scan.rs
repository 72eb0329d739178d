use cachereaper_core::entry::{
    countable, entry_mtime, entry_size, is_descended, leaves_volume, volume_of, DirEntry, Listing,
    RawMeta, Volume,
};
use cachereaper_core::path::{FsPath, Part, Platform};
use cachereaper_core::scan::{find_node, NodeState, Tree, NONE};
use cachereaper_core::walk::{default_threads, worker_count, Assignment, Claim, ScanOptions, Walk};

fn path(text: &str) -> FsPath {
    let mut parts = Vec::new();
    if text.starts_with('/') {
        parts.push(Part::Root);
    }
    for name in text.split('/').filter(|name| !name.is_empty()) {
        parts.push(Part::Normal(name.to_string()));
    }
    FsPath { parts }
}

fn meta(blocks: u64) -> RawMeta {
    RawMeta::Unix { blocks, mtime: 100, dev: 1 }
}

fn file(name: &str, bytes: u64) -> DirEntry {
    DirEntry { name: name.to_string(), is_dir: false, is_symlink: false, meta: meta(bytes / 512) }
}

fn dir(name: &str) -> DirEntry {
    DirEntry { name: name.to_string(), is_dir: true, is_symlink: false, meta: meta(8) }
}

/// A disk: what each directory holds, or nothing where it cannot be read.
type Disk = Vec<(&'static str, Option<Vec<DirEntry>>)>;

fn fixture() -> Disk {
    vec![
        ("/t/proj", Some(vec![dir("a"), file("top.bin", 8192), dir("c")])),
        ("/t/proj/a", Some(vec![file("one.bin", 4096), dir("b")])),
        ("/t/proj/a/b", Some(vec![file("two.bin", 4096)])),
        ("/t/proj/c", Some(vec![])),
    ]
}

fn read(disk: &Disk, walk: &Walk, work: &Assignment, opened: &mut Vec<String>) -> Listing {
    if let Some(state) = work.shut {
        return Listing::sealed(state);
    }
    let place = work.path.spell('/');
    opened.push(place.clone());
    match disk.iter().find(|(at, _)| *at == place) {
        Some((_, Some(entries))) => {
            assert!(countable(entries));
            Listing::of(entries, walk.volume(), walk.markers())
        }
        _ => Listing::sealed(NodeState::Unreadable),
    }
}

/// Walk the disk with several workers that each hold one directory at a time, and
/// hand back last what they took first.
fn scan_with(disk: &Disk, workers: usize, options: &ScanOptions, skip: Vec<FsPath>) -> (Tree, Vec<String>) {
    let root = path(disk[0].0);
    let mut walk = Walk::start(&root, true, Volume::Device(1), &skip, options, Platform::Linux).unwrap();
    let mut opened = Vec::new();
    let mut held: Vec<Assignment> = Vec::new();
    let workers = worker_count(workers);
    loop {
        match walk.claim() {
            Claim::Work(work) => held.push(work),
            Claim::Wait => {
                let work = held.pop().expect("somebody holds a directory");
                let listing = read(disk, &walk, &work, &mut opened);
                assert!(walk.has_room(&listing));
                walk.publish(work.idx, listing);
                continue;
            }
            Claim::Finished => break,
        }
        while held.len() >= workers {
            let work = held.remove(0);
            let listing = read(disk, &walk, &work, &mut opened);
            walk.publish(work.idx, listing);
        }
    }
    (walk.finish(12), opened)
}

fn scan(disk: &Disk, workers: usize) -> Tree {
    scan_with(disk, workers, &ScanOptions::default(), Vec::new()).0
}

#[test]
fn totals_roll_up_to_the_root() {
    let tree = scan(&fixture(), 4);
    assert_eq!(tree.root().total_files, 3);
    assert_eq!(tree.root().total_size, 16384);
    assert_eq!(tree.root().own_files, 1, "only top.bin sits at the root");
    assert_eq!(tree.stats.dirs, 4);
    assert_eq!(tree.stats.files, 3);
    assert_eq!(tree.stats.bytes, 16384);
    assert_eq!(tree.stats.elapsed_ms, 12);
}

#[test]
fn sparse_and_dataless_files_count_as_the_space_they_occupy() {
    let disk: Disk = vec![(
        "/t/cloud",
        Some(vec![file("placeholder.bin", 0), file("real.bin", 4096)]),
    )];
    let tree = scan(&disk, 2);
    assert_eq!(tree.root().total_files, 2);
    assert_eq!(tree.root().total_size, 4096);
    let offline = RawMeta::Windows { attributes: 0x1000, file_size: 1 << 32, last_write_time: 0 };
    assert_eq!(entry_size(offline), 0);
    let plain = RawMeta::Windows { attributes: 0x20, file_size: 77, last_write_time: 0 };
    assert_eq!(entry_size(plain), 77);
}

#[test]
fn subtree_totals_are_correct() {
    let tree = scan(&fixture(), 4);
    let a = tree.nodes.iter().find(|n| n.name == "a").expect("directory a");
    assert_eq!(a.total_files, 2, "a/one.bin and a/b/two.bin");
    assert_eq!(a.own_files, 1, "only one.bin is directly in a");
}

#[test]
fn thread_count_does_not_change_the_answer() {
    let one = scan(&fixture(), 1);
    for workers in 2..9 {
        let many = scan(&fixture(), workers);
        assert_eq!(one.root().total_size, many.root().total_size);
        assert_eq!(one.root().total_files, many.root().total_files);
        assert_eq!(one.nodes.len(), many.nodes.len());
    }
}

/// What a tree says about its directories, whatever their numbers.
fn rows(tree: &Tree) -> Vec<String> {
    let mut rows: Vec<String> = tree
        .nodes
        .iter()
        .enumerate()
        .map(|(i, node)| {
            format!(
                "{} {} {} {} {} {} {}",
                tree.path_of(i as u32).spell('/'),
                node.own_size,
                node.total_size,
                node.own_files,
                node.total_files,
                node.newest_mtime,
                node.unreadable
            )
        })
        .collect();
    rows.sort();
    rows
}

#[test]
fn every_directory_is_told_the_same_whoever_reads_it_and_in_whatever_order() {
    let mut disk = fixture();
    disk[0].1.as_mut().unwrap().push(dir("locked"));
    disk.push(("/t/proj/locked", None));
    let mut shuffled = fixture();
    shuffled[0].1.as_mut().unwrap().insert(0, dir("locked"));
    shuffled[0].1.as_mut().unwrap().reverse();
    shuffled[1].1.as_mut().unwrap().reverse();
    let told = rows(&scan(&disk, 1));
    assert_eq!(told.len(), 5);
    assert_eq!(told[0], "/t/proj 8192 16384 1 3 100 false");
    assert_eq!(told[1], "/t/proj/a 4096 8192 1 2 100 false");
    assert_eq!(told[4], "/t/proj/locked 0 0 0 0 0 true");
    for workers in 0..9 {
        assert_eq!(rows(&scan(&disk, workers)), told);
        assert_eq!(rows(&scan(&shuffled, workers)), told);
    }
}

#[test]
fn depth_counts_the_levels_from_the_root() {
    let tree = scan(&fixture(), 3);
    for node in &tree.nodes {
        let depth = match node.name.as_str() {
            "a" | "c" => 1,
            "b" => 2,
            _ => 0,
        };
        assert_eq!(node.depth, depth, "{}", node.name);
    }
}

#[test]
fn what_was_seen_so_far_only_grows_and_ends_at_the_totals() {
    let disk = fixture();
    let root = path(disk[0].0);
    let options = ScanOptions::default();
    let mut walk =
        Walk::start(&root, true, Volume::Device(1), &vec![], &options, Platform::Linux).unwrap();
    let mut seen = Vec::new();
    while let Claim::Work(work) = walk.claim() {
        let listing = read(&disk, &walk, &work, &mut Vec::new());
        assert!(walk.has_room(&listing));
        let published = walk.publish(work.idx, listing);
        seen.push((published.files, published.bytes, published.wake));
    }
    assert_eq!(
        seen,
        vec![(1, 8192, true), (1, 8192, false), (2, 12288, true), (3, 16384, true)],
        "waiting workers look again when there is more to do, and when nothing is"
    );
    let tree = walk.finish(0);
    assert_eq!((tree.stats.files, tree.stats.bytes), (3, 16384));
}

#[test]
fn bytes_beyond_what_can_be_counted_have_no_room() {
    let options = ScanOptions::default();
    let mut walk =
        Walk::start(&path("/t"), true, Volume::Device(1), &vec![], &options, Platform::Linux).unwrap();
    let Claim::Work(work) = walk.claim() else { panic!("the root is there to be read") };
    let mut listing = Listing::sealed(NodeState::Readable);
    listing.own_size = u64::MAX;
    listing.own_files = 1;
    listing.subdirs = vec!["a".to_string()];
    assert!(walk.has_room(&listing));
    walk.publish(work.idx, listing);
    let mut more = Listing::sealed(NodeState::Readable);
    more.own_size = 1;
    assert!(!walk.has_room(&more));
}

#[test]
fn symlinks_are_not_followed() {
    let mut disk = fixture();
    let link = DirEntry { name: "link".to_string(), is_dir: true, is_symlink: true, meta: meta(0) };
    disk[0].1.as_mut().unwrap().push(link);
    disk.push(("/t/proj/link", Some(vec![file("huge.bin", 65536)])));
    let tree = scan(&disk, 4);
    assert!(!tree.nodes.iter().any(|n| n.name == "link"));
    assert!(tree.root().total_size < 65536, "symlinked bytes were counted");
    assert_eq!(tree.root().total_files, 4, "the link itself is a file");
}

#[test]
fn other_volumes_are_not_entered() {
    let mut disk = fixture();
    let mount = DirEntry {
        name: "mnt".to_string(),
        is_dir: true,
        is_symlink: false,
        meta: RawMeta::Unix { blocks: 8, mtime: 1, dev: 2 },
    };
    disk[0].1.as_mut().unwrap().push(mount);
    let tree = scan(&disk, 2);
    assert!(!tree.nodes.iter().any(|n| n.name == "mnt"));
    assert_eq!(tree.stats.bytes, 16384);
}

#[test]
fn path_reconstruction_round_trips() {
    let tree = scan(&fixture(), 4);
    let b = tree.nodes.iter().position(|n| n.name == "b").unwrap() as u32;
    assert_eq!(tree.path_of(b), path("/t/proj/a/b"));
    assert_eq!(tree.path_of(0), path("/t/proj"));
    assert_eq!(find_node(&tree, &path("/t/proj/a/b")), Some(b));
    assert_eq!(find_node(&tree, &path("/t/proj")), Some(0));
    assert_eq!(find_node(&tree, &path("/t/proj/none")), None);
    assert_eq!(find_node(&tree, &path("/elsewhere")), None);
}

#[test]
fn unreadable_directories_are_recorded_not_swallowed() {
    let mut disk = fixture();
    disk[0].1.as_mut().unwrap().push(dir("locked"));
    disk.push(("/t/proj/locked", None));
    let tree = scan(&disk, 4);
    assert_eq!(tree.stats.unreadable, 1);
    assert!(tree.nodes.iter().any(|n| n.unreadable && n.name == "locked"));
    assert_eq!(tree.stats.unreadable_paths, vec![path("/t/proj/locked")]);
}

#[test]
fn skipped_directories_are_recorded_without_being_opened() {
    let mut disk = fixture();
    disk[0].1.as_mut().unwrap().push(dir("secret"));
    disk.push(("/t/proj/secret", Some(vec![dir("inside"), file("blob.bin", 65536)])));
    let options = ScanOptions {
        security_skips: vec![path("/t/proj/secret")],
        ..ScanOptions::default()
    };
    let (tree, opened) = scan_with(&disk, 4, &options, Vec::new());
    let node = tree
        .nodes
        .iter()
        .find(|n| n.name == "secret")
        .expect("a skipped directory is still part of the tree");
    assert!(node.unreadable, "a skipped directory must be marked unreadable");
    assert!(
        !tree.nodes.iter().any(|n| n.name == "inside"),
        "the walk descended into a directory it was told not to open"
    );
    assert_eq!(node.total_size, 0, "nothing under a skipped directory is counted");
    assert!(!opened.contains(&"/t/proj/secret".to_string()));
}

#[test]
fn excluded_directories_are_recorded_without_being_opened() {
    let options = ScanOptions {
        excluded_paths: vec![path("/t/proj/a")],
        ..ScanOptions::default()
    };
    let (tree, opened) = scan_with(&fixture(), 2, &options, vec![path("/t/proj/c")]);
    assert_eq!(tree.stats.excluded, 1);
    assert_eq!(tree.stats.excluded_paths, vec![path("/t/proj/a")]);
    assert_eq!(tree.stats.unreadable_paths, vec![path("/t/proj/c")]);
    assert_eq!(opened, vec!["/t/proj"]);
    assert_eq!(tree.stats.bytes, 8192);
    let node = tree.nodes.iter().find(|n| n.name == "a").unwrap();
    assert_eq!(node.state, NodeState::Excluded);
    assert!(!node.unreadable);
}

#[test]
fn markers_are_remembered_where_they_lie() {
    let disk: Disk = vec![(
        "/t/proj",
        Some(vec![file("Cargo.toml", 512), file("main.rs", 512), dir("target")]),
    ), ("/t/proj/target", Some(vec![]))];
    let options = ScanOptions {
        markers: vec!["Cargo.toml".to_string(), "pom.xml".to_string()],
        ..ScanOptions::default()
    };
    let (tree, _) = scan_with(&disk, 1, &options, Vec::new());
    assert_eq!(tree.root().markers, vec!["Cargo.toml"]);
}

#[test]
fn a_root_that_is_no_directory_is_refused() {
    let refused = Walk::start(
        &path("/t/file"),
        false,
        Volume::Device(1),
        &vec![],
        &ScanOptions::default(),
        Platform::Linux,
    );
    assert_eq!(refused.unwrap_err(), "scan root is not a directory");
}

#[test]
fn the_root_of_the_disk_is_called_by_its_path() {
    let mut walk = Walk::start(
        &path("/"),
        true,
        Volume::Device(1),
        &vec![],
        &ScanOptions::default(),
        Platform::Linux,
    )
    .unwrap();
    let Claim::Work(work) = walk.claim() else { panic!("the root is there to be read") };
    walk.publish(work.idx, Listing::sealed(NodeState::Readable));
    let tree = walk.finish(0);
    assert_eq!(tree.nodes[0].name, "/");
    assert_eq!(tree.nodes[0].parent, NONE);
}

#[test]
fn the_newest_change_rolls_up() {
    let mut disk = fixture();
    disk[2].1.as_mut().unwrap().push(DirEntry {
        name: "new.bin".to_string(),
        is_dir: false,
        is_symlink: false,
        meta: RawMeta::Unix { blocks: 1, mtime: 900, dev: 1 },
    });
    let tree = scan(&disk, 3);
    assert_eq!(tree.root().newest_mtime, 900);
    let c = tree.nodes.iter().find(|n| n.name == "c").unwrap();
    assert_eq!(c.newest_mtime, 0);
}

#[test]
fn windows_metadata_is_understood() {
    let meta = RawMeta::Windows {
        attributes: 0x400,
        file_size: 5,
        last_write_time: 116_444_736_010_000_000,
    };
    assert_eq!(entry_mtime(meta), 1);
    let early = RawMeta::Windows { attributes: 0, file_size: 5, last_write_time: 7 };
    assert_eq!(entry_mtime(early), 0);
    assert_eq!(volume_of(meta), Volume::Unnamed);
    assert!(leaves_volume(meta, Volume::Unnamed));
    assert!(!leaves_volume(early, Volume::Unnamed));
}

#[test]
fn only_directories_of_the_same_volume_are_gone_into() {
    assert!(is_descended(&dir("a"), Volume::Device(1)));
    assert!(!is_descended(&dir("a"), Volume::Device(2)));
    assert!(!is_descended(&file("a", 512), Volume::Device(1)));
    let link = DirEntry { is_symlink: true, ..dir("a") };
    assert!(!is_descended(&link, Volume::Device(1)));
}

#[test]
fn the_number_of_workers_is_bounded() {
    assert_eq!(default_threads(None), 4);
    assert_eq!(default_threads(Some(1)), 2);
    assert_eq!(default_threads(Some(6)), 6);
    assert_eq!(default_threads(Some(64)), 8);
    assert_eq!(worker_count(0), 1);
    assert_eq!(worker_count(5), 5);
}
