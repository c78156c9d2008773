use vstd::prelude::*;
use crate::search::{find_occurrences, occurrences};

verus! {

/// How a file that holds a prefix placeholder is to be rewritten.
#[derive(Debug, Clone, Copy, PartialEq, Eq, Structural)]
pub enum FileMode {
    /// The placeholder is replaced and the file gets shorter.
    Text,
    /// The placeholder is replaced inside NUL-terminated strings, which are
    /// padded with NUL bytes so the file keeps its length.
    Binary,
}

/// How a path of a package is materialised on disk.
#[derive(Debug, Clone, Copy, PartialEq, Eq, Structural)]
pub enum PathType {
    HardLink,
    SoftLink,
    Directory,
}

/// The placeholder prefix recorded for a file of a package, and how the
/// file is rewritten.
#[derive(Debug, Clone)]
pub struct PrefixPlaceholder {
    pub file_mode: FileMode,
    pub placeholder: String,
}

/// A placeholder together with the byte offsets at which it occurs in the
/// file it belongs to.
#[derive(Debug, Clone)]
pub struct PrefixReplacement {
    pub file_mode: FileMode,
    pub placeholder: String,
    pub offsets: Vec<usize>,
}

/// A prefix replacement seen as plain values.
pub struct ReplacementView {
    pub file_mode: FileMode,
    pub placeholder: Seq<char>,
    pub offsets: Seq<usize>,
}

impl View for PrefixReplacement {
    type V = ReplacementView;

    open spec fn view(&self) -> ReplacementView {
        ReplacementView { file_mode: self.file_mode, placeholder: self.placeholder@, offsets: self.offsets@ }
    }
}

impl PrefixReplacement {
    /// The UTF-8 bytes of the placeholder.
    pub open spec fn placeholder_bytes(&self) -> Seq<u8> {
        vstd::utf8::encode_utf8(self.placeholder@)
    }

    /// Records every non-overlapping occurrence of the placeholder in
    /// `source_bytes`, the contents of the file in the package cache.
    pub fn from_placeholder(prefix_placeholder: PrefixPlaceholder, source_bytes: &[u8]) -> (replacement: Self)
        ensures
            replacement.file_mode == prefix_placeholder.file_mode,
            replacement.placeholder == prefix_placeholder.placeholder,
            replacement.offsets@ == occurrences(source_bytes@, replacement.placeholder_bytes()),
    {
        let offsets = find_occurrences(source_bytes, prefix_placeholder.placeholder.as_str().as_bytes());
        PrefixReplacement {
            file_mode: prefix_placeholder.file_mode,
            placeholder: prefix_placeholder.placeholder,
            offsets,
        }
    }
}

/// The byte string `..`, the path component that names a parent directory.
pub open spec fn parent_component() -> Seq<u8> {
    seq![46u8, 46u8]
}

/// The name under which a directory is listed: the last component of its
/// path, or `.` for the root and for a path that ends in `..`.
pub open spec fn directory_name(path: Seq<Seq<u8>>) -> Seq<u8> {
    if path.len() == 0 || path.last() == parent_component() {
        seq![46u8]
    } else {
        path.last()
    }
}

/// A directory of the virtual environment: its path below the root as a
/// list of components (the root has none), its parent, and the entries it
/// holds.
#[derive(Debug)]
pub struct FSDirectory {
    pub prefix_path: Vec<Vec<u8>>,
    pub parent: usize,
    pub children: Vec<usize>,
}

pub struct DirectoryView {
    pub path: Seq<Seq<u8>>,
    pub parent: usize,
    pub children: Seq<usize>,
}

/// A path as a sequence of components, each seen as its bytes.
pub open spec fn path_view(path: Seq<Vec<u8>>) -> Seq<Seq<u8>> {
    path.map_values(|c: Vec<u8>| c@)
}

impl View for FSDirectory {
    type V = DirectoryView;

    open spec fn view(&self) -> DirectoryView {
        DirectoryView { path: path_view(self.prefix_path@), parent: self.parent, children: self.children@ }
    }
}

impl FSDirectory {
    /// An empty directory at `prefix_path` inside `parent`.
    pub fn new(prefix_path: Vec<Vec<u8>>, parent: usize) -> (directory: Self)
        ensures
            directory.prefix_path == prefix_path,
            directory.parent == parent,
            directory.children@ == Seq::<usize>::empty(),
    {
        FSDirectory { prefix_path, parent, children: Vec::new() }
    }
}

/// A file of the virtual environment: its name, its directory, the package
/// directory in the cache that holds it, how it is materialised, and the
/// placeholder to replace when it is read.
#[derive(Debug)]
pub struct FSFile {
    pub file_name: Vec<u8>,
    pub parent: usize,
    pub cache_base_path: Vec<u8>,
    pub _path_type: PathType,
    pub prefix_placeholder: Option<PrefixReplacement>,
}

pub struct FileView {
    pub name: Seq<u8>,
    pub parent: usize,
    pub cache_base: Seq<u8>,
    pub path_type: PathType,
    pub replacement: Option<ReplacementView>,
}

/// An optional prefix replacement seen as plain values.
pub open spec fn replacement_view(r: Option<PrefixReplacement>) -> Option<ReplacementView> {
    match r {
        Some(r) => Some(r@),
        None => None,
    }
}

impl View for FSFile {
    type V = FileView;

    open spec fn view(&self) -> FileView {
        FileView {
            name: self.file_name@,
            parent: self.parent,
            cache_base: self.cache_base_path@,
            path_type: self._path_type,
            replacement: replacement_view(self.prefix_placeholder),
        }
    }
}

impl FSFile {
    fn new(
        file_name: Vec<u8>,
        parent: usize,
        cache_base_path: Vec<u8>,
        _path_type: PathType,
        prefix_placeholder: Option<PrefixReplacement>,
    ) -> (file: Self)
        ensures
            file.file_name == file_name,
            file.parent == parent,
            file.cache_base_path == cache_base_path,
            file._path_type == _path_type,
            file.prefix_placeholder == prefix_placeholder,
    {
        FSFile { file_name, parent, cache_base_path, _path_type, prefix_placeholder }
    }
}

/// An entry of the virtual environment.
#[derive(Debug)]
pub enum FSMetadata {
    FSDirectory(FSDirectory),
    FSFile(FSFile),
}

pub enum NodeView {
    Directory(DirectoryView),
    File(FileView),
}

impl View for FSMetadata {
    type V = NodeView;

    open spec fn view(&self) -> NodeView {
        match self {
            FSMetadata::FSDirectory(d) => NodeView::Directory(d@),
            FSMetadata::FSFile(f) => NodeView::File(f@),
        }
    }
}

/// The name under which an entry is listed.
pub open spec fn node_name(node: NodeView) -> Seq<u8> {
    match node {
        NodeView::Directory(d) => directory_name(d.path),
        NodeView::File(f) => f.name,
    }
}

/// A file entry is listed under exactly the file name it stores, byte for
/// byte; a directory under the last component of its path, or `.` for the
/// root and for a path that ends in `..`.
pub proof fn law_entries_are_listed_under_their_names(f: FileView, d: DirectoryView)
    ensures
        node_name(NodeView::File(f)) == f.name,
        d.path.len() > 0 && d.path.last() != seq![46u8, 46u8] ==> node_name(NodeView::Directory(d)) == d.path.last(),
        d.path.len() == 0 || d.path.last() == seq![46u8, 46u8] ==> node_name(NodeView::Directory(d)) == seq![46u8],
{
}

/// The directory that holds an entry (the root is its own parent).
pub open spec fn node_parent(node: NodeView) -> int {
    match node {
        NodeView::Directory(d) => d.parent as int,
        NodeView::File(f) => f.parent as int,
    }
}

/// Copies a byte string.
pub fn copy_bytes(bytes: &[u8]) -> (out: Vec<u8>)
    ensures
        out@ == bytes@,
{
    let mut out: Vec<u8> = Vec::new();
    let mut i: usize = 0;
    while i < bytes.len()
        invariant
            i <= bytes@.len(),
            out@ == bytes@.take(i as int),
        decreases bytes@.len() - i,
    {
        out.push(bytes[i]);
        assert(bytes@.take(i + 1) == bytes@.take(i as int).push(bytes@[i as int]));
        i += 1;
    }
    assert(bytes@.take(bytes@.len() as int) == bytes@);
    out
}

impl FSMetadata {
    /// The name under which the entry is listed: a file's name, or the last
    /// component of a directory's path (`.` for the root or a path that ends
    /// in `..`).
    pub fn file_name(&self) -> (name: Vec<u8>)
        ensures
            name@ == node_name(self@),
    {
        match self {
            FSMetadata::FSDirectory(directory) => {
                let n = directory.prefix_path.len();
                if n == 0 {
                    return vec![46u8];
                }
                let last = &directory.prefix_path[n - 1];
                proof {
                    assert(path_view(directory.prefix_path@).last() == last@);
                }
                if last.len() == 2 && last[0] == 46u8 && last[1] == 46u8 {
                    proof {
                        assert(last@ =~= parent_component());
                    }
                    vec![46u8]
                } else {
                    proof {
                        if last@ == parent_component() {
                            assert(last@[0] == 46u8 && last@[1] == 46u8);
                        }
                    }
                    copy_bytes(last.as_slice())
                }
            },
            FSMetadata::FSFile(file) => copy_bytes(file.file_name.as_slice()),
        }
    }

    /// A new empty directory entry.
    pub fn new_directory(prefix_path: Vec<Vec<u8>>, parent: usize) -> (entry: Self)
        ensures
            entry == FSMetadata::FSDirectory(FSDirectory { prefix_path, parent, children: entry->FSDirectory_0.children }),
            entry->FSDirectory_0.children@ == Seq::<usize>::empty(),
    {
        FSMetadata::FSDirectory(FSDirectory::new(prefix_path, parent))
    }

    /// A new file entry.
    pub fn new_file(
        file_name: Vec<u8>,
        parent: usize,
        cache_base_path: Vec<u8>,
        path_type: PathType,
        prefix_placeholder: Option<PrefixReplacement>,
    ) -> (entry: Self)
        ensures
            entry == FSMetadata::FSFile(FSFile { file_name, parent, cache_base_path, _path_type: path_type, prefix_placeholder }),
    {
        FSMetadata::FSFile(FSFile::new(file_name, parent, cache_base_path, path_type, prefix_placeholder))
    }

    /// The directory, when the entry is one.
    pub fn as_directory(&self) -> (directory: Option<&FSDirectory>)
        ensures
            match *self {
                FSMetadata::FSDirectory(d) => directory == Some(&d),
                FSMetadata::FSFile(_) => directory is None,
            },
    {
        match self {
            FSMetadata::FSDirectory(directory) => Some(directory),
            FSMetadata::FSFile(_) => None,
        }
    }

    /// The directory, for changing it, when the entry is one.
    pub fn as_directory_mut(&mut self) -> (directory: Option<&mut FSDirectory>)
        ensures
            match *old(self) {
                FSMetadata::FSDirectory(d) => directory matches Some(r) && *r == d
                    && *final(self) == FSMetadata::FSDirectory(*final(r)),
                FSMetadata::FSFile(f) => directory is None && *final(self) == FSMetadata::FSFile(f),
            },
    {
        match self {
            FSMetadata::FSDirectory(directory) => Some(directory),
            FSMetadata::FSFile(_) => None,
        }
    }

    /// The file, when the entry is one.
    pub fn as_file(&self) -> (file: Option<&FSFile>)
        ensures
            match *self {
                FSMetadata::FSFile(f) => file == Some(&f),
                FSMetadata::FSDirectory(_) => file is None,
            },
    {
        match self {
            FSMetadata::FSFile(file) => Some(file),
            FSMetadata::FSDirectory(_) => None,
        }
    }

    /// The file, for changing it, when the entry is one.
    pub fn as_file_mut(&mut self) -> (file: Option<&mut FSFile>)
        ensures
            match *old(self) {
                FSMetadata::FSFile(f) => file matches Some(r) && *r == f
                    && *final(self) == FSMetadata::FSFile(*final(r)),
                FSMetadata::FSDirectory(d) => file is None && *final(self) == FSMetadata::FSDirectory(d),
            },
    {
        match self {
            FSMetadata::FSFile(file) => Some(file),
            FSMetadata::FSDirectory(_) => None,
        }
    }
}

} // verus!
