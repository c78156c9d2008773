use rattler_vfs::environment::{empty_environment, PathsEntry, PathsJson};
use rattler_vfs::metadata::{FSMetadata, FileMode, PathType, PrefixPlaceholder, PrefixReplacement};
use rattler_vfs::mount::{MountArgs, NfsProvider};
use rattler_vfs::prefix_replacement::{binary_prefix_replacement, text_prefix_replacement};
use rattler_vfs::virtual_fs_core::{metadata_well_formed, FileStat, FsError, VirtualAttr, VirtualFSCore};
use rattler_vfs::{path_parse, MountBackend};

fn comps(path: &str) -> Vec<Vec<u8>> {
    path.split('/').map(|c| c.as_bytes().to_vec()).collect()
}

fn entry(path: &str, placeholder: Option<(FileMode, &str)>, contents: &[u8]) -> PathsEntry {
    PathsEntry {
        relative_path: comps(path),
        path_type: PathType::HardLink,
        prefix_placeholder: placeholder.map(|(file_mode, p)| PrefixPlaceholder {
            file_mode,
            placeholder: p.to_string(),
        }),
        source_bytes: contents.to_vec(),
    }
}

/// An environment with `lib/pkgconfig/foo.pc` (text placeholder),
/// `lib/libfoo.so` (binary placeholder) and `bin/tool` (none).
fn sample_environment() -> Vec<FSMetadata> {
    let (mut metadata, mut index) = empty_environment();
    let paths = PathsJson {
        paths: vec![
            entry("lib/pkgconfig/foo.pc", Some((FileMode::Text, "/opt/PLACEHOLDER")), b"prefix=/opt/PLACEHOLDER\n"),
            entry("lib/libfoo.so", Some((FileMode::Binary, "/opt/PLACEHOLDER")), b"\x7fELF/opt/PLACEHOLDER/lib\x00rest"),
            entry("bin/tool", None, b""),
        ],
    };
    path_parse(paths, b"/cache/foo-1.0".to_vec(), &mut metadata, &mut index, b"/mnt/env");
    metadata
}

#[test]
fn empty_environment_holds_only_the_root() {
    let (metadata, index) = empty_environment();
    assert_eq!(metadata.len(), 1);
    assert_eq!(metadata[0].file_name(), b".".to_vec());
    assert!(metadata[0].as_directory().is_some());
    assert_eq!(index.len(), 1);
    assert_eq!(index[0].1, 0);
}

#[test]
fn path_parse_builds_directories_once() {
    let metadata = sample_environment();
    // root, lib, lib/pkgconfig, foo.pc, libfoo.so, bin, tool
    assert_eq!(metadata.len(), 7);
    assert!(metadata_well_formed(&metadata));
    let root = metadata[0].as_directory().unwrap();
    assert_eq!(root.children, vec![1, 5]);
    let lib = metadata[1].as_directory().unwrap();
    assert_eq!(lib.prefix_path, comps("lib"));
    assert_eq!(lib.children, vec![2, 4]);
    let pkgconfig = metadata[2].as_directory().unwrap();
    assert_eq!(pkgconfig.prefix_path, comps("lib/pkgconfig"));
    assert_eq!(pkgconfig.parent, 1);
    let foo = metadata[3].as_file().unwrap();
    assert_eq!(foo.file_name, b"foo.pc".to_vec());
    assert_eq!(foo.parent, 2);
    assert_eq!(foo.cache_base_path, b"/cache/foo-1.0".to_vec());
    let replacement = foo.prefix_placeholder.as_ref().unwrap();
    assert_eq!(replacement.offsets, vec![7]);
    assert_eq!(replacement.file_mode, FileMode::Text);
    assert!(metadata[6].as_file().unwrap().prefix_placeholder.is_none());
}

#[test]
fn path_parse_file_in_root() {
    let (mut metadata, mut index) = empty_environment();
    path_parse(
        PathsJson { paths: vec![entry("README", None, b"")] },
        b"/cache/pkg".to_vec(),
        &mut metadata,
        &mut index,
        b"/mnt",
    );
    assert_eq!(metadata.len(), 2);
    assert_eq!(metadata[1].as_file().unwrap().parent, 0);
    assert_eq!(metadata[0].as_directory().unwrap().children, vec![1]);
}

#[test]
fn metadata_well_formed_rejects_dangling_child() {
    let (mut metadata, _) = empty_environment();
    metadata[0].as_directory_mut().unwrap().children.push(3);
    assert!(!metadata_well_formed(&metadata));
    let empty: Vec<FSMetadata> = Vec::new();
    assert!(!metadata_well_formed(&empty));
}

#[test]
fn file_names_of_entries() {
    let metadata = sample_environment();
    assert_eq!(metadata[0].file_name(), b".".to_vec());
    assert_eq!(metadata[2].file_name(), b"pkgconfig".to_vec());
    assert_eq!(metadata[3].file_name(), b"foo.pc".to_vec());
    let parent_dir = FSMetadata::new_directory(comps("a/.."), 0);
    assert_eq!(parent_dir.file_name(), b".".to_vec());
}

#[test]
fn lookup_finds_children_by_name() {
    let fs = VirtualFSCore::new(sample_environment(), b"/mnt/env".to_vec());
    assert_eq!(fs.lookup(0, b"lib"), Some(1));
    assert_eq!(fs.lookup(1, b"pkgconfig"), Some(2));
    assert_eq!(fs.lookup(2, b"foo.pc"), Some(3));
    assert_eq!(fs.lookup(0, b"missing"), None);
    // not a directory, and out of range
    assert_eq!(fs.lookup(3, b"foo.pc"), None);
    assert_eq!(fs.lookup(100, b"lib"), None);
}

#[test]
fn entry_count_counts_every_entry() {
    let fs = VirtualFSCore::new(sample_environment(), b"/mnt/env".to_vec());
    assert_eq!(fs.entry_count(), 7);
}

#[test]
fn readdir_lists_children_with_inode_numbers() {
    let fs = VirtualFSCore::new(sample_environment(), b"/mnt/env".to_vec());
    let entries = fs.readdir(1).unwrap();
    assert_eq!(entries.len(), 2);
    assert_eq!(entries[0].ino, 3);
    assert_eq!(entries[0].name, b"pkgconfig".to_vec());
    assert!(entries[0].is_dir);
    assert_eq!(entries[1].ino, 5);
    assert_eq!(entries[1].name, b"libfoo.so".to_vec());
    assert!(!entries[1].is_dir);
    assert!(matches!(fs.readdir(3), Err(FsError::NotADirectory)));
}

#[test]
fn getattr_reports_directories_and_files() {
    let fs = VirtualFSCore::new(sample_environment(), b"/mnt/env".to_vec());
    assert_eq!(
        fs.getattr(0, 10, 20, None),
        Ok(VirtualAttr { is_dir: true, size: 0, perm: 0o755, uid: 10, gid: 20 })
    );
    assert_eq!(
        fs.getattr(3, 10, 20, Some(FileStat { len: 24, mode: 0o100644 })),
        Ok(VirtualAttr { is_dir: false, size: 24, perm: 0o644, uid: 10, gid: 20 })
    );
    assert_eq!(fs.getattr(3, 10, 20, None), Err(FsError::Io));
}

#[test]
fn file_path_joins_cache_directory_and_name() {
    let fs = VirtualFSCore::new(sample_environment(), b"/mnt/env".to_vec());
    assert_eq!(fs.file_path(3).unwrap(), b"/cache/foo-1.0/./lib/pkgconfig/foo.pc".to_vec());
    assert_eq!(fs.file_path(2), Err(FsError::NotAFile));
}

#[test]
fn open_cached_returns_the_same_handle() {
    let mut fs = VirtualFSCore::new(sample_environment(), b"/mnt/env".to_vec());
    let first = fs.open_cached(3).unwrap();
    assert_eq!(first, 1);
    assert_eq!(fs.open_cached(3).unwrap(), first);
    assert_eq!(fs.cached_handle(3), Some(first));
    assert_eq!(fs.open_cached(4).unwrap(), 2);
    assert_eq!(fs.open_cached(1), Err(FsError::NotAFile));
}

#[test]
fn open_gives_fresh_handles() {
    let mut fs = VirtualFSCore::new(sample_environment(), b"/mnt/env".to_vec());
    assert_eq!(fs.open(3), Ok(1));
    assert_eq!(fs.open(3), Ok(2));
    assert_eq!(fs.cached_handle(3), None);
    assert_eq!(fs.open(0), Err(FsError::NotAFile));
}

#[test]
fn released_handle_is_refused() {
    let mut fs = VirtualFSCore::new(sample_environment(), b"/mnt/env".to_vec());
    let contents = b"prefix=/opt/PLACEHOLDER\n";
    let fh = fs.open_cached(3).unwrap();
    assert!(fs.read(3, fh, contents, 0, 100).is_ok());
    fs.release(fh);
    assert_eq!(fs.cached_handle(3), None);
    assert_eq!(fs.read(3, fh, contents, 0, 100), Err(FsError::InvalidHandle));
    // a new handle is given out after release
    assert_eq!(fs.open_cached(3), Ok(2));
}

#[test]
fn read_replaces_placeholders_by_mode() {
    let mut fs = VirtualFSCore::new(sample_environment(), b"/mnt/env".to_vec());
    let text = b"prefix=/opt/PLACEHOLDER\n";
    let fh = fs.open(3).unwrap();
    assert_eq!(fs.read(3, fh, text, 0, 100).unwrap(), b"prefix=/mnt/env\n".to_vec());
    assert_eq!(fs.read(3, fh, text, 7, 4).unwrap(), b"/mnt".to_vec());
    assert_eq!(fs.read(3, fh, text, 100, 4).unwrap(), Vec::<u8>::new());

    let binary = b"\x7fELF/opt/PLACEHOLDER/lib\x00rest";
    let fh2 = fs.open(4).unwrap();
    assert_eq!(
        fs.read(4, fh2, binary, 0, 100).unwrap(),
        b"\x7fELF/mnt/env/lib\x00\x00\x00\x00\x00\x00\x00\x00\x00rest".to_vec()
    );

    let fh3 = fs.open(6).unwrap();
    assert_eq!(fs.read(6, fh3, b"plain bytes", 2, 3).unwrap(), b"ain".to_vec());
    assert_eq!(fs.read(1, fh3, b"", 0, 3), Err(FsError::NotAFile));
}

#[test]
fn read_answerable_flags_reads_that_would_abort() {
    let fs = VirtualFSCore::new(sample_environment(), b"/mnt/environment/that/is/far/too/long".to_vec());
    let text = b"prefix=/opt/PLACEHOLDER\n";
    assert!(!fs.read_answerable(3, text, 0, 10));
    assert!(fs.read_answerable(3, text, 100, 10));
    assert!(fs.read_answerable(6, b"abc", 0, 10));
    let ok = VirtualFSCore::new(sample_environment(), b"/mnt".to_vec());
    assert!(ok.read_answerable(3, text, 0, 10));
    assert!(ok.read_answerable(4, b"\x7fELF/opt/PLACEHOLDER/lib\x00rest", 0, 10));
}

#[test]
fn mount_backend_from_any_name_is_nfs() {
    assert_eq!(MountBackend::from("nfs"), MountBackend::Nfs);
    assert_eq!(MountBackend::from("fuse"), MountBackend::Nfs);
    let _provider = NfsProvider;
    let args = MountArgs {
        pixi_lock: b"pixi.lock".to_vec(),
        cache_origin: b"/cache".to_vec(),
        mount_dir: b"/mnt".to_vec(),
        mount_type: MountBackend::from("nfs"),
        environment_name: "default".to_string(),
    };
    assert_eq!(args.mount_type, MountBackend::Nfs);
}

fn replacement(file_mode: FileMode, placeholder: &str, bytes: &[u8]) -> PrefixReplacement {
    PrefixReplacement::from_placeholder(
        PrefixPlaceholder { file_mode, placeholder: placeholder.to_string() },
        bytes,
    )
}

#[test]
fn occurrences_do_not_overlap() {
    assert_eq!(replacement(FileMode::Text, "AA", b"AAAA").offsets, vec![0, 2]);
    assert_eq!(replacement(FileMode::Text, "AA", b"AAA").offsets, vec![0]);
    assert_eq!(replacement(FileMode::Text, "", b"ab").offsets, vec![0, 1, 2]);
    assert_eq!(replacement(FileMode::Binary, "éx", b"").offsets, Vec::<usize>::new());
}

#[test]
fn same_prefix_gives_the_file_back() {
    let text = b"a/opt/P b /opt/P c";
    let r = replacement(FileMode::Text, "/opt/P", text);
    assert_eq!(text_prefix_replacement(&r, 0, text.len(), text.len(), text, b"/opt/P"), text.to_vec());
    let binary = b"x/opt/Py\x00/opt/P\x00z";
    let r = replacement(FileMode::Binary, "/opt/P", binary);
    assert_eq!(binary_prefix_replacement(&r, 0, binary.len(), binary.len(), binary, b"/opt/P"), binary.to_vec());
}

#[test]
fn text_length_shrinks_per_placeholder() {
    let text = b"ABCD-ABCD-ABCD";
    let r = replacement(FileMode::Text, "ABCD", text);
    let out = text_prefix_replacement(&r, 0, text.len(), usize::MAX, text, b"X");
    assert_eq!(out.len(), text.len() - 3 * 3);
    assert_eq!(out, b"X-X-X".to_vec());
}

#[test]
fn binary_keeps_length_and_pads_at_end_of_file() {
    let binary = b"ABCDABCD";
    let r = replacement(FileMode::Binary, "ABCD", binary);
    let out = binary_prefix_replacement(&r, 0, binary.len(), 0, binary, b"");
    assert_eq!(out, vec![0u8; 8]);
    let out = binary_prefix_replacement(&r, 2, 6, 0, binary, b"Z");
    assert_eq!(out.len(), 4);
    // empty range and range past the file
    assert!(binary_prefix_replacement(&r, 3, 3, 0, binary, b"Z").is_empty());
    assert!(binary_prefix_replacement(&r, 9, 12, 0, binary, b"Z").is_empty());
}

#[test]
fn text_read_stops_at_end_not_size() {
    let text = b"ABCD0ABCD5ABCD0ABCD5ABCD";
    let r = replacement(FileMode::Text, "ABCD", text);
    assert_eq!(text_prefix_replacement(&r, 2, 9, text.len(), text, b"XY"), b"0XY5XY0".to_vec());
    // an end past the rewritten file is cut at its end; an empty range reads nothing
    assert_eq!(text_prefix_replacement(&r, 10, 100, 1, text, b"XY"), b"Y5XY".to_vec());
    assert_eq!(text_prefix_replacement(&r, 5, 3, 10, text, b"XY"), Vec::<u8>::new());
}

#[test]
fn released_handle_is_not_given_out_again() {
    let mut fs = VirtualFSCore::new(sample_environment(), b"/mnt/env".to_vec());
    let first = fs.open_cached(3).unwrap();
    let other = fs.open(4).unwrap();
    fs.release(first);
    let again = fs.open_cached(3).unwrap();
    assert_ne!(again, first);
    assert!(again > other && other > first);
}

#[test]
fn every_entry_follows_its_parent_and_is_listed_once() {
    let metadata = sample_environment();
    for i in 1..metadata.len() {
        let parent = match &metadata[i] {
            FSMetadata::FSDirectory(d) => d.parent,
            FSMetadata::FSFile(f) => f.parent,
        };
        assert!(parent < i);
        let listings: usize = metadata
            .iter()
            .filter_map(|m| m.as_directory())
            .map(|d| d.children.iter().filter(|&&c| c == i).count())
            .sum();
        assert_eq!(listings, 1);
        assert!(metadata[parent].as_directory().unwrap().children.contains(&i));
    }
}

#[test]
fn binary_read_inside_a_replaced_placeholder_is_a_slice_of_the_whole() {
    let bytes = b"ABCD\x00";
    let r = replacement(FileMode::Binary, "ABCD", bytes);
    let whole = binary_prefix_replacement(&r, 0, bytes.len(), bytes.len(), bytes, b"XY");
    assert_eq!(whole, b"XY\x00\x00\x00".to_vec());
    let part = binary_prefix_replacement(&r, 1, bytes.len(), bytes.len(), bytes, b"XY");
    assert_eq!(part, b"Y\x00\x00\x00".to_vec());
    let file = b"ABCD01\x00ZZABCDABCD\x00tail";
    let r = replacement(FileMode::Binary, "ABCD", file);
    let whole = binary_prefix_replacement(&r, 0, file.len(), 0, file, b"XY");
    for start in 0..file.len() {
        for end in start + 1..=file.len() {
            let part = binary_prefix_replacement(&r, start, end, 0, file, b"XY");
            assert_eq!(part, whole[start..end].to_vec(), "range {start}..{end}");
        }
    }
}

#[test]
fn empty_binary_read_is_answered_for_any_offsets() {
    let bytes = b"ABCDABCD";
    let r = PrefixReplacement {
        file_mode: FileMode::Binary,
        placeholder: "ABCD".to_string(),
        offsets: vec![4, 0, 4],
    };
    assert_eq!(binary_prefix_replacement(&r, 3, 3, 0, bytes, b"XY"), Vec::<u8>::new());
    assert_eq!(binary_prefix_replacement(&r, 9, 12, 0, bytes, b"XY"), Vec::<u8>::new());
}

#[test]
fn binary_read_past_the_end_is_nul_filled() {
    let bytes = b"ABCD";
    let r = replacement(FileMode::Binary, "ABCD", bytes);
    assert_eq!(binary_prefix_replacement(&r, 0, 6, 6, bytes, b"XY"), b"XY\x00\x00\x00\x00".to_vec());
}
