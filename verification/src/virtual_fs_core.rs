use std::collections::{HashMap, HashSet};
use vstd::prelude::*;
use crate::environment::{bytes_eq, children_of, is_directory, tree_view, tree_well_formed};
use crate::metadata::{copy_bytes, node_name, node_parent, FSFile, FileView, FSMetadata, FileMode, NodeView, PrefixReplacement};
use crate::prefix_replacement::{
    binary_prefix_replacement, binary_read, text_offsets_fit, text_prefix_replacement, text_read, text_read_answered, text_view,
    text_view_from,
};

verus! {

broadcast use vstd::std_specs::hash::group_hash_axioms;

/// The attributes of an entry as the mount reports them.
#[derive(Debug, Clone, Copy, PartialEq, Eq, Structural)]
pub struct VirtualAttr {
    pub is_dir: bool,
    pub size: u64,
    pub perm: u16,
    pub uid: u32,
    pub gid: u32,
}

/// One entry of a directory listing: its inode number (its index plus one),
/// its name and whether it is a directory.
#[derive(Debug, Clone)]
pub struct DirectoryEntry {
    pub ino: u64,
    pub name: Vec<u8>,
    pub is_dir: bool,
}

/// What the host filesystem reports of a file in the package cache.
#[derive(Debug, Clone, Copy, PartialEq, Eq, Structural)]
pub struct FileStat {
    pub len: u64,
    pub mode: u32,
}

/// Why a request on the virtual filesystem failed.
#[derive(Debug, Clone, Copy, PartialEq, Eq, Structural)]
pub enum FsError {
    NotAFile,
    NotADirectory,
    InvalidHandle,
    Io,
}

/// The first of `children` whose entry is listed under `name`.
pub open spec fn first_named(t: Seq<NodeView>, children: Seq<usize>, name: Seq<u8>) -> Option<usize>
    decreases children.len(),
{
    if children.len() == 0 {
        None
    } else if node_name(t[children[0] as int]) == name {
        Some(children[0])
    } else {
        first_named(t, children.drop_first(), name)
    }
}

/// The entry named `name` in directory `parent`, if `parent` is a directory.
pub open spec fn lookup_result(t: Seq<NodeView>, parent: int, name: Seq<u8>) -> Option<usize> {
    if 0 <= parent < t.len() && is_directory(t[parent]) {
        first_named(t, children_of(t[parent]), name)
    } else {
        None
    }
}

/// `base` with the relative path `rel` appended, as a path is extended: an
/// absolute `rel` replaces `base`; otherwise a `/` separates them unless
/// `base` is empty or already ends in one.
pub open spec fn push_path(base: Seq<u8>, rel: Seq<u8>) -> Seq<u8> {
    if rel.len() > 0 && rel[0] == 47u8 {
        rel
    } else if base.len() == 0 || base.last() == 47u8 {
        base + rel
    } else {
        base + seq![47u8] + rel
    }
}

/// The path of a directory below the root `.`, as bytes.
pub open spec fn prefix_bytes(path: Seq<Seq<u8>>) -> Seq<u8>
    decreases path.len(),
{
    if path.len() == 0 {
        seq![46u8]
    } else {
        push_path(prefix_bytes(path.drop_last()), path.last())
    }
}

/// Where a file entry lives in the package cache: its package directory,
/// then its directory's path, then its name.
pub open spec fn cache_path(t: Seq<NodeView>, file: crate::metadata::FileView) -> Seq<u8> {
    let dir = t[file.parent as int];
    match dir {
        NodeView::Directory(d) => push_path(push_path(file.cache_base, prefix_bytes(d.path)), file.name),
        NodeView::File(_) => seq![],
    }
}

/// Appends the relative path `rel` to `base`.
fn push_path_exec(base: &[u8], rel: &[u8]) -> (out: Vec<u8>)
    ensures
        out@ == push_path(base@, rel@),
{
    if rel.len() > 0 && rel[0] == 47u8 {
        return copy_bytes(rel);
    }
    let mut out = copy_bytes(base);
    if !(base.len() == 0 || base[base.len() - 1] == 47u8) {
        out.push(47u8);
    }
    let mut i: usize = 0;
    let ghost start = out@;
    while i < rel.len()
        invariant
            i <= rel@.len(),
            out@ == start + rel@.take(i as int),
        decreases rel@.len() - i,
    {
        out.push(rel[i]);
        assert(rel@.take(i + 1) == rel@.take(i as int).push(rel@[i as int]));
        i += 1;
    }
    assert(rel@.take(rel@.len() as int) == rel@);
    out
}

/// The path of a directory below the root `.`, as bytes.
fn prefix_bytes_exec(path: &Vec<Vec<u8>>) -> (out: Vec<u8>)
    ensures
        out@ == prefix_bytes(crate::metadata::path_view(path@)),
{
    let mut out: Vec<u8> = vec![46u8];
    let mut i: usize = 0;
    let ghost p = crate::metadata::path_view(path@);
    assert(p.take(0).len() == 0);
    while i < path.len()
        invariant
            i <= path@.len(),
            p == crate::metadata::path_view(path@),
            out@ == prefix_bytes(p.take(i as int)),
        decreases path@.len() - i,
    {
        assert(p.take(i + 1).drop_last() == p.take(i as int));
        assert(p.take(i + 1).last() == path@[i as int]@);
        out = push_path_exec(out.as_slice(), path[i].as_slice());
        i += 1;
    }
    assert(p.take(path@.len() as int) == p);
    out
}

/// The result of reading `size` bytes from byte `offset` of an open file
/// whose contents in the package cache are `contents`.
pub open spec fn read_result(
    entry: FSMetadata,
    open: bool,
    contents: Seq<u8>,
    offset: int,
    size: int,
    mount_point: Seq<u8>,
) -> Result<Seq<u8>, FsError> {
    match entry {
        FSMetadata::FSDirectory(_) => Err(FsError::NotAFile),
        FSMetadata::FSFile(file) => if !open {
            Err(FsError::InvalidHandle)
        } else if offset >= contents.len() {
            Ok(seq![])
        } else {
            let end = read_end(contents, offset, size);
            match file.prefix_placeholder {
                None => Ok(contents.subrange(offset, end)),
                Some(p) => match p.file_mode {
                    FileMode::Text => Ok(text_read(p, offset, end, contents, mount_point)),
                    FileMode::Binary => Ok(binary_read(p, offset, end, contents, mount_point)),
                },
            }
        },
    }
}

/// Where a read of `size` bytes from byte `offset` stops in `contents`.
pub open spec fn read_end(contents: Seq<u8>, offset: int, size: int) -> int {
    if offset + size < contents.len() {
        offset + size
    } else {
        contents.len() as int
    }
}

/// Whether a read is answered rather than aborted: it is answered unless
/// the file has a placeholder and the mount point is longer than it, or,
/// for a text file and a non-empty range, the recorded offsets do not fit
/// the contents, the read starts past the rewritten text, or the lengths
/// would not fit in `usize`.
pub open spec fn read_answered(entry: FSMetadata, contents: Seq<u8>, offset: int, size: int, mount_point: Seq<u8>) -> bool {
    match entry {
        FSMetadata::FSDirectory(_) => true,
        FSMetadata::FSFile(file) => match file.prefix_placeholder {
            None => true,
            Some(p) => offset >= contents.len() || match p.file_mode {
                FileMode::Text => text_read_answered(p, offset, read_end(contents, offset, size), contents, mount_point),
                FileMode::Binary => mount_point.len() <= p.placeholder_bytes().len(),
            },
        },
    }
}

/// The virtual filesystem: the entries of the environment, the mount point
/// that replaces the placeholders, the open file handles, the handle cached
/// for each entry, the next handle to give out, and whether that counter
/// has not yet wrapped around (so that every handle given out is below it).
pub struct VirtualFSCore {
    metadata: Vec<FSMetadata>,
    mount_point: Vec<u8>,
    handles: HandleTable,
}

/// The handle state of the filesystem.
struct HandleTable {
    open_files: HashSet<u64>,
    open_handles: HashMap<usize, u64>,
    next_fh: u64,
    fresh: Ghost<bool>,
}

/// Every cached handle belongs to a file entry of `tree` and is open,
/// and while the counter is fresh every open handle is below it.
spec fn table_consistent(t: HandleTable, tree: Seq<NodeView>) -> bool {
    &&& forall|i: usize| #[trigger] t.open_handles@.contains_key(i)
        ==> i < tree.len() && !is_directory(tree[i as int]) && t.open_files@.contains(t.open_handles@[i])
    &&& t.fresh@ ==> forall|h: u64| #[trigger] t.open_files@.contains(h) ==> h < t.next_fh
}

impl HandleTable {
    /// A table with nothing open or cached.
    fn empty() -> (t: Self)
        ensures
            t.open_files@ == Set::<u64>::empty(),
            t.open_handles@ == Map::<usize, u64>::empty(),
            t.next_fh == 1,
            t.fresh@,
    {
        HandleTable { open_files: HashSet::new(), open_handles: HashMap::new(), next_fh: 1, fresh: Ghost(true) }
    }
}

impl VirtualFSCore {
    #[verifier::type_invariant]
    spec fn inv(&self) -> bool {
        &&& tree_well_formed(tree_view(self.metadata@))
        &&& table_consistent(self.handles, tree_view(self.metadata@))
    }

    /// Takes the handle table out, leaving an empty one in its place.
    fn take_handles(&mut self) -> (t: HandleTable)
        ensures
            t == old(self).handles,
            final(self).metadata == old(self).metadata,
            final(self).mount_point == old(self).mount_point,
            table_consistent(t, tree_view(old(self).metadata@)),
    {
        proof {
            use_type_invariant(&*self);
        }
        let mut t = HandleTable::empty();
        std::mem::swap(&mut t, &mut self.handles);
        t
    }

    /// The entries of the environment.
    pub closed spec fn entries(&self) -> Seq<FSMetadata> {
        self.metadata@
    }

    /// The entries of the environment seen as plain values.
    pub open spec fn tree(&self) -> Seq<NodeView> {
        tree_view(self.entries())
    }

    /// The mount point.
    pub closed spec fn mount(&self) -> Seq<u8> {
        self.mount_point@
    }

    /// Whether `fh` is an open handle.
    pub closed spec fn is_open(&self, fh: u64) -> bool {
        self.handles.open_files@.contains(fh)
    }

    /// The handle cached for entry `ino`.
    pub closed spec fn cached(&self, ino: usize) -> Option<u64> {
        if self.handles.open_handles@.contains_key(ino) {
            Some(self.handles.open_handles@[ino])
        } else {
            None
        }
    }

    /// The next handle to give out.
    pub closed spec fn next_handle(&self) -> u64 {
        self.handles.next_fh
    }

    /// Whether the handle counter has not wrapped around yet.
    pub closed spec fn counter_fresh(&self) -> bool {
        self.handles.fresh@
    }

    /// A filesystem over well-formed entries, mounted at `mount_point`, with
    /// no open handle and handle 1 to give out first.
    pub fn new(metadata: Vec<FSMetadata>, mount_point: Vec<u8>) -> (fs: Self)
        requires
            tree_well_formed(tree_view(metadata@)),
        ensures
            fs.entries() == metadata@,
            fs.mount() == mount_point@,
            forall|fh: u64| !fs.is_open(fh),
            forall|ino: usize| fs.cached(ino) is None,
            fs.next_handle() == 1,
            fs.counter_fresh(),
            handles_consistent(fs),
    {
        VirtualFSCore { metadata, mount_point, handles: HandleTable::empty() }
    }

    /// The number of entries; entry indices run below it.
    pub fn entry_count(&self) -> (count: usize)
        ensures
            count == self.tree().len(),
    {
        self.metadata.len()
    }
}

/// What every filesystem keeps: each cached handle belongs to a file entry
/// and is open, and while the handle counter has not wrapped around every open
/// handle is below the next one to give out.
pub open spec fn handles_consistent(s: VirtualFSCore) -> bool {
    &&& forall|i: usize| #[trigger] s.cached(i) is Some
        ==> i < s.tree().len() && !is_directory(s.tree()[i as int]) && s.is_open(s.cached(i)->0)
    &&& s.counter_fresh() ==> forall|h: u64| #[trigger] s.is_open(h) ==> h < s.next_handle()
}

/// The handle given out after `fh`, wrapping around at the end of `u64`.
pub open spec fn following_handle(fh: u64) -> u64 {
    if fh == u64::MAX {
        0
    } else {
        (fh + 1) as u64
    }
}

/// The attributes reported for an entry: a directory is owned by the given
/// user and group with mode 755 and size 0; a file has the size and the
/// permission bits of its copy in the package cache (`None` when that copy
/// could not be examined).
pub open spec fn attr_result(node: NodeView, uid: u32, gid: u32, stat: Option<FileStat>) -> Result<VirtualAttr, FsError> {
    match node {
        NodeView::Directory(_) => Ok(VirtualAttr { is_dir: true, size: 0, perm: 0o755, uid, gid }),
        NodeView::File(_) => match stat {
            Some(st) => Ok(VirtualAttr { is_dir: false, size: st.len, perm: (st.mode & 0o777u32) as u16, uid, gid }),
            None => Err(FsError::Io),
        },
    }
}

/// The filesystem after a request keeps its entries and mount point.
pub open spec fn same_tree(old: VirtualFSCore, new: VirtualFSCore) -> bool {
    new.entries() == old.entries() && new.mount() == old.mount()
}

/// `new` has the same handles open and cached as `old`.
pub open spec fn same_handles(old: VirtualFSCore, new: VirtualFSCore) -> bool {
    &&& new.next_handle() == old.next_handle()
    &&& new.counter_fresh() == old.counter_fresh()
    &&& forall|i: usize| new.cached(i) == old.cached(i)
    &&& forall|h: u64| new.is_open(h) == old.is_open(h)
}

/// `new` is `old` after giving out `old`'s next handle and opening it; the
/// counter stays fresh unless it wraps around.
pub open spec fn handle_given_out(old: VirtualFSCore, new: VirtualFSCore) -> bool {
    &&& new.next_handle() == following_handle(old.next_handle())
    &&& new.counter_fresh() == (old.counter_fresh() && old.next_handle() < u64::MAX)
    &&& forall|h: u64| new.is_open(h) == (old.is_open(h) || h == old.next_handle())
}

/// What `open` does: a directory is refused and nothing changes; a file
/// gets the next handle, which is then open.
pub open spec fn open_outcome(old: VirtualFSCore, ino: usize, new: VirtualFSCore, fh: Result<u64, FsError>) -> bool {
    &&& handles_consistent(old)
    &&& handles_consistent(new)
    &&& same_tree(old, new)
    &&& forall|i: usize| new.cached(i) == old.cached(i)
    &&& match old.tree()[ino as int] {
        NodeView::Directory(_) => fh == Err::<u64, FsError>(FsError::NotAFile) && same_handles(old, new),
        NodeView::File(_) => fh == Ok::<u64, FsError>(old.next_handle()) && handle_given_out(old, new),
    }
}

/// What `open_cached` does: the handle cached for the entry is given back
/// and nothing changes; else a directory is refused and nothing changes, and
/// a file gets the next handle, which is then open and cached for it.
pub open spec fn open_cached_outcome(old: VirtualFSCore, ino: usize, new: VirtualFSCore, fh: Result<u64, FsError>) -> bool {
    &&& handles_consistent(old)
    &&& handles_consistent(new)
    &&& same_tree(old, new)
    &&& match old.cached(ino) {
        Some(h) => fh == Ok::<u64, FsError>(h) && same_handles(old, new),
        None => match old.tree()[ino as int] {
            NodeView::Directory(_) => fh == Err::<u64, FsError>(FsError::NotAFile) && same_handles(old, new),
            NodeView::File(_) => {
                &&& fh == Ok::<u64, FsError>(old.next_handle())
                &&& handle_given_out(old, new)
                &&& new.cached(ino) == Some(old.next_handle())
                &&& forall|i: usize| i != ino ==> new.cached(i) == old.cached(i)
            },
        },
    }
}

/// What `release` does: the handle is no longer open and no entry keeps it
/// cached; nothing else changes.
pub open spec fn release_outcome(old: VirtualFSCore, fh: u64, new: VirtualFSCore) -> bool {
    &&& handles_consistent(old)
    &&& handles_consistent(new)
    &&& same_tree(old, new)
    &&& new.next_handle() == old.next_handle()
    &&& new.counter_fresh() == old.counter_fresh()
    &&& forall|h: u64| new.is_open(h) == (old.is_open(h) && h != fh)
    &&& forall|i: usize| new.cached(i) == (match old.cached(i) {
        Some(h) => if h == fh { None } else { Some(h) },
        None => None,
    })
}

/// A lookup finds an entry listed in the directory whose name is exactly
/// the name asked for, byte for byte (the first such one), and finds nothing
/// exactly when no entry listed there has that name or `parent` is not a
/// directory.
pub proof fn law_lookup_finds_exact_name(t: Seq<NodeView>, parent: int, name: Seq<u8>)
    ensures
        match lookup_result(t, parent, name) {
            Some(i) => {
                &&& 0 <= parent < t.len()
                &&& is_directory(t[parent])
                &&& exists|k: int| {
                    &&& 0 <= k < children_of(t[parent]).len()
                    &&& #[trigger] children_of(t[parent])[k] == i
                    &&& node_name(t[i as int]) == name
                    &&& forall|k2: int| 0 <= k2 < k ==> node_name(t[children_of(t[parent])[k2] as int]) != name
                }
            },
            None => !(0 <= parent < t.len() && is_directory(t[parent]))
                || forall|k: int| 0 <= k < children_of(t[parent]).len()
                    ==> node_name(t[#[trigger] children_of(t[parent])[k] as int]) != name,
        },
{
    if 0 <= parent < t.len() && is_directory(t[parent]) {
        lemma_first_named(t, children_of(t[parent]), name);
    }
}

proof fn lemma_first_named(t: Seq<NodeView>, children: Seq<usize>, name: Seq<u8>)
    ensures
        match first_named(t, children, name) {
            Some(i) => exists|k: int| {
                &&& 0 <= k < children.len()
                &&& #[trigger] children[k] == i
                &&& node_name(t[i as int]) == name
                &&& forall|k2: int| 0 <= k2 < k ==> node_name(t[children[k2] as int]) != name
            },
            None => forall|k: int| 0 <= k < children.len() ==> node_name(t[#[trigger] children[k] as int]) != name,
        },
    decreases children.len(),
{
    if children.len() > 0 {
        let rest = children.drop_first();
        lemma_first_named(t, rest, name);
        if node_name(t[children[0] as int]) == name {
            assert(children[0] == children[0]);
        } else {
            match first_named(t, rest, name) {
                Some(i) => {
                    let k = choose|k: int| {
                        &&& 0 <= k < rest.len()
                        &&& #[trigger] rest[k] == i
                        &&& node_name(t[i as int]) == name
                        &&& forall|k2: int| 0 <= k2 < k ==> node_name(t[rest[k2] as int]) != name
                    };
                    assert(children[k + 1] == i);
                    assert forall|k2: int| 0 <= k2 < k + 1 implies node_name(t[children[k2] as int]) != name by {
                        if k2 > 0 {
                            assert(children[k2] == rest[k2 - 1]);
                        }
                    }
                },
                None => {
                    assert forall|k: int| 0 <= k < children.len() implies node_name(t[#[trigger] children[k] as int]) != name by {
                        if k > 0 {
                            assert(children[k] == rest[k - 1]);
                        }
                    }
                },
            }
        }
    }
}

/// A file's reported attributes keep every permission bit of its copy in
/// the package cache: each of the nine read, write and execute bits equals
/// the cached file's bit, and no other bit is reported; the size, owner and
/// group are the ones given, and the entry is not a directory. A file that
/// could not be examined is an I/O error; a directory, whatever is known of
/// the cache, is reported with mode 755 and size 0.
pub proof fn law_file_attributes_keep_permission_bits(f: FileView, d: crate::metadata::DirectoryView, uid: u32, gid: u32, st: FileStat)
    ensures
        attr_result(NodeView::File(f), uid, gid, None) == Err::<VirtualAttr, FsError>(FsError::Io),
        attr_result(NodeView::Directory(d), uid, gid, Some(st)) == attr_result(NodeView::Directory(d), uid, gid, None),
        attr_result(NodeView::Directory(d), uid, gid, None) matches Ok(a) && a.is_dir && a.size == 0 && a.uid == uid
            && a.gid == gid && a.perm == 0o755,
        attr_result(NodeView::File(f), uid, gid, Some(st)) matches Ok(a) && {
            &&& !a.is_dir
            &&& a.size == st.len
            &&& a.uid == uid
            &&& a.gid == gid
            &&& a.perm < 512
            &&& forall|b: u16| #![trigger (a.perm >> b)] b < 9 ==> (a.perm >> b) & 1 == (((st.mode >> b) & 1u32) as u16)
        },
{
    let a = attr_result(NodeView::File(f), uid, gid, Some(st))->Ok_0;
    let mode = st.mode;
    let perm = a.perm;
    assert(perm == (mode & 0o777u32) as u16);
    assert(((mode & 0o777u32) as u16) < 512) by (bit_vector);
    assert forall|b: u16| #![trigger (perm >> b)] b < 9 implies (perm >> b) & 1 == (((mode >> b) & 1u32) as u16) by {
        assert((((mode & 0o777u32) as u16) >> b) & 1 == (((mode >> b) & 1u32) as u16)) by (bit_vector)
            requires
                b < 9,
        ;
    }
}

/// Opening the same entry twice through the cache gives the same handle the
/// second time, and changes nothing then.
pub proof fn law_open_cached_is_stable(
    s0: VirtualFSCore,
    s1: VirtualFSCore,
    s2: VirtualFSCore,
    ino: usize,
    first: u64,
    second: Result<u64, FsError>,
)
    requires
        open_cached_outcome(s0, ino, s1, Ok(first)),
        open_cached_outcome(s1, ino, s2, second),
    ensures
        second == Ok::<u64, FsError>(first),
        same_handles(s1, s2),
        s1.cached(ino) == Some(first),
{
}

/// A handle that was opened is open, until it is released; after it is
/// released, reading a file through it is refused as an invalid handle.
pub proof fn law_released_handle_is_refused(
    s0: VirtualFSCore,
    s1: VirtualFSCore,
    s2: VirtualFSCore,
    ino: usize,
    fh: u64,
    contents: Seq<u8>,
    offset: int,
    size: int,
)
    requires
        ino < s0.tree().len(),
        open_outcome(s0, ino, s1, Ok(fh)),
        release_outcome(s1, fh, s2),
    ensures
        s1.is_open(fh),
        !s2.is_open(fh),
        forall|i: usize| s2.cached(i) != Some(fh),
        read_result(s2.entries()[ino as int], s2.is_open(fh), contents, offset, size, s2.mount())
            == Err::<Seq<u8>, FsError>(FsError::InvalidHandle),
{
    assert(s2.entries()[ino as int]@ == s0.tree()[ino as int]);
}

/// An entry with a cached handle is an entry of the filesystem, so it can
/// be opened through the cache; doing so gives the cached handle back and
/// changes nothing.
pub proof fn law_cached_handle_is_returned(s0: VirtualFSCore, s1: VirtualFSCore, ino: usize, h: u64, result: Result<u64, FsError>)
    requires
        handles_consistent(s0),
        s0.cached(ino) == Some(h),
    ensures
        ino < s0.tree().len(),
        s0.is_open(h),
        open_cached_outcome(s0, ino, s1, result) ==> result == Ok::<u64, FsError>(h) && same_handles(s0, s1)
            && same_tree(s0, s1),
{
}

/// While the handle counter has not wrapped around, a handle newly given
/// out by `open` or `open_cached` is none of the handles open or cached
/// before, every handle open before is below it, and it is below every
/// handle given out after it.
pub proof fn law_new_handle_is_fresh(s0: VirtualFSCore, s1: VirtualFSCore, ino: usize, fh: u64)
    requires
        s0.counter_fresh(),
        open_outcome(s0, ino, s1, Ok(fh)) || (open_cached_outcome(s0, ino, s1, Ok(fh)) && s0.cached(ino) is None),
    ensures
        !s0.is_open(fh),
        forall|i: usize| s0.cached(i) != Some(fh),
        forall|h: u64| s0.is_open(h) ==> h < fh,
        s1.counter_fresh() ==> fh < s1.next_handle(),
{
    assert forall|i: usize| s0.cached(i) != Some(fh) by {
        if s0.cached(i) is Some {
            assert(s0.is_open(s0.cached(i)->0));
        }
    }
}

/// A handle given out by a cached open is, once released, refused on every
/// read of its entry as an invalid handle.
pub proof fn law_released_cached_handle_is_refused(
    s0: VirtualFSCore,
    s1: VirtualFSCore,
    s2: VirtualFSCore,
    ino: usize,
    fh: u64,
    contents: Seq<u8>,
    offset: int,
    size: int,
)
    requires
        open_cached_outcome(s0, ino, s1, Ok(fh)),
        release_outcome(s1, fh, s2),
    ensures
        s1.cached(ino) == Some(fh),
        !s2.is_open(fh),
        s2.cached(ino) is None,
        read_result(s2.entries()[ino as int], s2.is_open(fh), contents, offset, size, s2.mount())
            == Err::<Seq<u8>, FsError>(FsError::InvalidHandle),
{
    assert(s1.cached(ino) is Some);
    assert(!is_directory(s1.tree()[ino as int]));
    assert(s2.entries()[ino as int]@ == s1.tree()[ino as int]);
}

/// A handle that is released is not handed out again by the next cached
/// open of its entry, while the handle counter has not wrapped around.
pub proof fn law_released_handle_not_reused(
    s0: VirtualFSCore,
    s1: VirtualFSCore,
    s2: VirtualFSCore,
    s3: VirtualFSCore,
    ino: usize,
    fh: u64,
    next: u64,
)
    requires
        open_cached_outcome(s0, ino, s1, Ok(fh)),
        s1.counter_fresh(),
        release_outcome(s1, fh, s2),
        open_cached_outcome(s2, ino, s3, Ok(next)),
    ensures
        s1.cached(ino) == Some(fh),
        s2.cached(ino) is None,
        next != fh,
{
    assert(s1.is_open(s1.cached(ino)->0));
}

impl VirtualFSCore {
    /// Finds the entry named `name` in directory `parent`: the first of its
    /// entries listed under that name; `None` when there is none or
    /// `parent` is not a directory.
    pub fn lookup(&self, parent: usize, name: &[u8]) -> (found: Option<usize>)
        ensures
            found == lookup_result(self.tree(), parent as int, name@),
    {
        proof {
            use_type_invariant(self);
        }
        let ghost t = self.tree();
        if parent >= self.metadata.len() {
            return None;
        }
        match &self.metadata[parent] {
            FSMetadata::FSDirectory(dir) => {
                let ghost children = dir.children@;
                assert(children == children_of(t[parent as int]));
                let mut k: usize = 0;
                assert(children.skip(0) == children);
                while k < dir.children.len()
                    invariant
                        t == tree_view(self.metadata@),
                        tree_well_formed(t),
                        children == dir.children@,
                        children == children_of(t[parent as int]),
                        parent < t.len(),
                        k <= children.len(),
                        first_named(t, children, name@) == first_named(t, children.skip(k as int), name@),
                    decreases children.len() - k,
                {
                    let child = dir.children[k];
                    assert(children.skip(k as int)[0] == child);
                    assert(children.skip(k as int).drop_first() == children.skip(k + 1));
                    assert(child < t.len());
                    let child_name = self.metadata[child].file_name();
                    if bytes_eq(child_name.as_slice(), name) {
                        return Some(child);
                    }
                    k += 1;
                }
                None
            },
            FSMetadata::FSFile(_) => None,
        }
    }

    /// Lists directory `ino`: for each of its entries, in order, the entry's
    /// index plus one, its name and whether it is a directory.
    pub fn readdir(&self, ino: usize) -> (listing: Result<Vec<DirectoryEntry>, FsError>)
        requires
            ino < self.tree().len(),
        ensures
            match self.tree()[ino as int] {
                NodeView::File(_) => listing == Err::<Vec<DirectoryEntry>, FsError>(FsError::NotADirectory),
                NodeView::Directory(d) => listing matches Ok(entries) && entries@.len() == d.children.len()
                    && forall|k: int| 0 <= k < d.children.len() ==> {
                        let e = #[trigger] entries@[k];
                        let child = d.children[k] as int;
                        &&& e.ino == child + 1
                        &&& e.name@ == node_name(self.tree()[child])
                        &&& e.is_dir == is_directory(self.tree()[child])
                    },
            },
    {
        proof {
            use_type_invariant(self);
        }
        let ghost t = self.tree();
        match &self.metadata[ino] {
            FSMetadata::FSFile(_) => Err(FsError::NotADirectory),
            FSMetadata::FSDirectory(dir) => {
                let ghost children = dir.children@;
                assert(children == children_of(t[ino as int]));
                let mut entries: Vec<DirectoryEntry> = Vec::new();
                let mut k: usize = 0;
                let count = self.metadata.len();
                while k < dir.children.len()
                    invariant
                        t == tree_view(self.metadata@),
                        tree_well_formed(t),
                        children == dir.children@,
                        children == children_of(t[ino as int]),
                        ino < t.len(),
                        count == t.len(),
                        k <= children.len(),
                        entries@.len() == k,
                        forall|m: int| 0 <= m < k ==> {
                            let e = #[trigger] entries@[m];
                            let child = children[m] as int;
                            &&& e.ino == child + 1
                            &&& e.name@ == node_name(t[child])
                            &&& e.is_dir == is_directory(t[child])
                        },
                    decreases children.len() - k,
                {
                    let child_idx = dir.children[k];
                    assert(child_idx < t.len());
                    let child = &self.metadata[child_idx];
                    let is_dir = match child {
                        FSMetadata::FSDirectory(_) => true,
                        FSMetadata::FSFile(_) => false,
                    };
                    entries.push(DirectoryEntry { ino: (child_idx + 1) as u64, name: child.file_name(), is_dir });
                    k += 1;
                }
                Ok(entries)
            },
        }
    }

    /// The attributes of entry `ino`; `uid` and `gid` are the owner's, and
    /// `stat` is what the host reports of the file's copy in the package
    /// cache (unused for a directory).
    pub fn getattr(&self, ino: usize, uid: u32, gid: u32, stat: Option<FileStat>) -> (attr: Result<VirtualAttr, FsError>)
        requires
            ino < self.tree().len(),
        ensures
            attr == attr_result(self.tree()[ino as int], uid, gid, stat),
    {
        match &self.metadata[ino] {
            FSMetadata::FSDirectory(_) => Ok(VirtualAttr { is_dir: true, size: 0, perm: 0o755, uid, gid }),
            FSMetadata::FSFile(_) => match stat {
                Some(st) => Ok(VirtualAttr { is_dir: false, size: st.len, perm: (st.mode & 0o777u32) as u16, uid, gid }),
                None => Err(FsError::Io),
            },
        }
    }

    /// Where a file of the environment lives in the package cache.
    fn get_path(&self, file: &FSFile) -> (path: Vec<u8>)
        requires
            file.parent < self.tree().len(),
            is_directory(self.tree()[file.parent as int]),
        ensures
            path@ == cache_path(self.tree(), file@),
    {
        match &self.metadata[file.parent] {
            FSMetadata::FSDirectory(parent) => {
                let prefix = prefix_bytes_exec(&parent.prefix_path);
                let path = push_path_exec(file.cache_base_path.as_slice(), prefix.as_slice());
                push_path_exec(path.as_slice(), file.file_name.as_slice())
            },
            FSMetadata::FSFile(_) => Vec::new(),
        }
    }

    /// Where file entry `ino` lives in the package cache.
    pub fn file_path(&self, ino: usize) -> (path: Result<Vec<u8>, FsError>)
        requires
            ino < self.tree().len(),
        ensures
            match self.tree()[ino as int] {
                NodeView::Directory(_) => path == Err::<Vec<u8>, FsError>(FsError::NotAFile),
                NodeView::File(f) => path matches Ok(p) && p@ == cache_path(self.tree(), f),
            },
    {
        proof {
            use_type_invariant(self);
        }
        match &self.metadata[ino] {
            FSMetadata::FSDirectory(_) => Err(FsError::NotAFile),
            FSMetadata::FSFile(file) => {
                assert(node_parent(self.tree()[ino as int]) == file.parent);
                Ok(self.get_path(file))
            },
        }
    }

    /// The handle cached for entry `ino`.
    pub fn cached_handle(&self, ino: usize) -> (fh: Option<u64>)
        ensures
            fh == self.cached(ino),
    {
        match self.handles.open_handles.get(&ino) {
            Some(h) => Some(*h),
            None => None,
        }
    }

    /// Opens file entry `ino`: gives out the next handle (the counter wraps
    /// around) and records it as open.
    pub fn open(&mut self, ino: usize) -> (fh: Result<u64, FsError>)
        requires
            ino < old(self).tree().len(),
        ensures
            open_outcome(*old(self), ino, *final(self), fh),
    {
        proof {
            use_type_invariant(&*self);
        }
        let is_file = match &self.metadata[ino] {
            FSMetadata::FSFile(_) => true,
            FSMetadata::FSDirectory(_) => false,
        };
        if !is_file {
            return Err(FsError::NotAFile);
        }
        let fh = self.allocate_handle();
        proof {
            use_type_invariant(&*self);
        }
        Ok(fh)
    }

    /// Gives out the next handle and records it as open.
    fn allocate_handle(&mut self) -> (fh: u64)
        ensures
            fh == old(self).next_handle(),
            final(self).entries() == old(self).entries(),
            final(self).mount() == old(self).mount(),
            forall|i: usize| final(self).cached(i) == old(self).cached(i),
            handle_given_out(*old(self), *final(self)),
    {
        proof {
            use_type_invariant(&*self);
        }
        let mut table = self.take_handles();
        let fh = table.next_fh;
        if fh == u64::MAX {
            table.fresh = Ghost(false);
        }
        table.next_fh = table.next_fh.wrapping_add(1);
        table.open_files.insert(fh);
        proof {
            assert forall|i: usize| #[trigger] table.open_handles@.contains_key(i)
                implies i < self.metadata@.len() && !is_directory(tree_view(self.metadata@)[i as int])
                    && table.open_files@.contains(table.open_handles@[i]) by {
                assert(old(self).handles.open_files@.contains(old(self).handles.open_handles@[i]));
            }
        }
        self.handles = table;
        fh
    }

    /// Opens file entry `ino` once: the handle cached for it when there is
    /// one (nothing changes), else a new handle as `open` gives, which is
    /// then cached for `ino`.
    pub fn open_cached(&mut self, ino: usize) -> (fh: Result<u64, FsError>)
        requires
            ino < old(self).tree().len(),
        ensures
            open_cached_outcome(*old(self), ino, *final(self), fh),
    {
        proof {
            use_type_invariant(&*self);
        }
        if let Some(fh) = self.cached_handle(ino) {
            return Ok(fh);
        }
        let is_file = match &self.metadata[ino] {
            FSMetadata::FSFile(_) => true,
            FSMetadata::FSDirectory(_) => false,
        };
        if !is_file {
            return Err(FsError::NotAFile);
        }
        let fh = self.allocate_handle();
        proof {
            use_type_invariant(&*self);
        }
        let ghost mid = *self;
        assert(mid.is_open(fh));
        let mut table = self.take_handles();
        let ghost prior = table;
        table.open_handles.insert(ino, fh);
        proof {
            assert(prior.open_files@.contains(fh));
            assert(ino < self.metadata@.len());
            assert forall|i: usize| #[trigger] table.open_handles@.contains_key(i)
                implies i < self.metadata@.len() && !is_directory(tree_view(self.metadata@)[i as int])
                    && table.open_files@.contains(table.open_handles@[i]) by {
                if i != ino {
                    assert(prior.open_handles@.contains_key(i));
                }
            }
        }
        self.handles = table;
        proof {
            use_type_invariant(&*self);
        }
        Ok(fh)
    }

    /// Releases handle `fh`: it is no longer open, and no entry keeps it
    /// cached.
    pub fn release(&mut self, fh: u64)
        ensures
            release_outcome(*old(self), fh, *final(self)),
    {
        proof {
            use_type_invariant(&*self);
        }
        let ghost before = self.handles;
        let count = self.metadata.len();
        let mut table = self.take_handles();
        let mut ino: usize = 0;
        while ino < count
            invariant
                count == self.metadata@.len(),
                ino <= count,
                table_consistent(before, tree_view(self.metadata@)),
                table.open_files@ == before.open_files@,
                table.next_fh == before.next_fh,
                table.fresh@ == before.fresh@,
                forall|i: usize| #[trigger] table.open_handles@.contains_key(i)
                    ==> before.open_handles@.contains_key(i) && table.open_handles@[i] == before.open_handles@[i],
                forall|i: usize| #[trigger] before.open_handles@.contains_key(i)
                    ==> (table.open_handles@.contains_key(i) <==> !(i < ino && before.open_handles@[i] == fh)),
            decreases count - ino,
        {
            let cached_here = match table.open_handles.get(&ino) {
                Some(h) => *h == fh,
                None => false,
            };
            if cached_here {
                table.open_handles.remove(&ino);
            }
            ino += 1;
        }
        table.open_files.remove(&fh);
        proof {
            assert forall|i: usize| #[trigger] table.open_handles@.contains_key(i)
                implies i < count && !is_directory(tree_view(self.metadata@)[i as int])
                    && table.open_files@.contains(table.open_handles@[i]) by {
                assert(before.open_handles@.contains_key(i));
            }
        }
        self.handles = table;
        proof {
            use_type_invariant(&*self);
            assert forall|i: usize| #[trigger] self.cached(i) == (match old(self).cached(i) {
                Some(h) => if h == fh { None } else { Some(h) },
                None => None,
            }) by {
                if before.open_handles@.contains_key(i) {
                    assert(i < count);
                }
            }
        }
    }
}

/// Whether the offsets inside the file can be spliced in order, and, when
/// they can, the length of the rewritten text file.
fn text_view_length(p: &PrefixReplacement, file: &[u8], mount_point: &[u8]) -> (length: Option<usize>)
    requires
        mount_point@.len() <= p.placeholder_bytes().len(),
        file@.len() + p.placeholder_bytes().len() <= usize::MAX,
    ensures
        match length {
            Some(n) => text_offsets_fit(file@.len() as int, p.offsets@, p.placeholder_bytes().len() as int, 0)
                && n == text_view(file@, p.offsets@, p.placeholder_bytes().len() as int, mount_point@).len(),
            None => !text_offsets_fit(file@.len() as int, p.offsets@, p.placeholder_bytes().len() as int, 0),
        },
{
    let plen = p.placeholder.as_str().as_bytes().len();
    let newlen = mount_point.len();
    let flen = file.len();
    let offsets = &p.offsets;
    let ghost pl = plen as int;
    let mut last_pos: usize = 0;
    let mut total: usize = 0;
    let mut k: usize = 0;
    assert(offsets@.skip(0) == offsets@);
    while k < offsets.len()
        invariant
            pl == p.placeholder_bytes().len(),
            offsets@ == p.offsets@,
            plen == pl,
            newlen == mount_point@.len() <= plen,
            flen == file@.len(),
            flen + plen <= usize::MAX,
            k <= offsets@.len(),
            total <= last_pos <= flen + plen,
            text_offsets_fit(flen as int, offsets@, pl, 0) == text_offsets_fit(flen as int, offsets@.skip(k as int), pl, last_pos as int),
            text_offsets_fit(flen as int, offsets@.skip(k as int), pl, last_pos as int) ==>
                total + text_view_from(file@, offsets@.skip(k as int), pl, mount_point@, last_pos as int).len()
                    == text_view(file@, offsets@, pl, mount_point@).len(),
        decreases offsets@.len() - k,
    {
        let offset = offsets[k];
        assert(offsets@.skip(k as int).drop_first() == offsets@.skip(k + 1));
        assert(offsets@.skip(k as int)[0] == offset);
        if offset <= flen {
            if offset < last_pos {
                assert(!text_offsets_fit(flen as int, offsets@.skip(k as int), pl, last_pos as int));
                assert(!text_offsets_fit(flen as int, offsets@, pl, 0));
                assert(!text_offsets_fit(file@.len() as int, p.offsets@, p.placeholder_bytes().len() as int, 0));
                return None;
            }
            total = total + (offset - last_pos) + newlen;
            last_pos = offset + plen;
        }
        k += 1;
    }
    if last_pos < flen {
        total = total + (flen - last_pos);
    }
    Some(total)
}

impl VirtualFSCore {
    /// Reads `size` bytes from byte `offset` of file entry `ino` through
    /// handle `fh`, where `contents` is the file's copy in the package cache:
    /// the bytes as they are, or with the placeholder replaced by the mount
    /// point as the file's mode says; an empty result at or past the end of
    /// the file; an error when `ino` is a directory or `fh` is not open.
    pub fn read(&self, ino: usize, fh: u64, contents: &[u8], offset: usize, size: usize) -> (data: Result<Vec<u8>, FsError>)
        requires
            ino < self.tree().len(),
            self.is_open(fh) ==> read_answered(self.entries()[ino as int], contents@, offset as int, size as int, self.mount()),
        ensures
            match read_result(self.entries()[ino as int], self.is_open(fh), contents@, offset as int, size as int, self.mount()) {
                Ok(v) => data matches Ok(d) && d@ == v,
                Err(e) => data == Err::<Vec<u8>, FsError>(e),
            },
    {
        match &self.metadata[ino] {
            FSMetadata::FSDirectory(_) => Err(FsError::NotAFile),
            FSMetadata::FSFile(file) => {
                if !self.handles.open_files.contains(&fh) {
                    return Err(FsError::InvalidHandle);
                }
                if offset >= contents.len() {
                    return Ok(Vec::new());
                }
                let stop = offset.saturating_add(size);
                let end = if stop < contents.len() { stop } else { contents.len() };
                match &file.prefix_placeholder {
                    Some(placeholder) => match placeholder.file_mode {
                        FileMode::Text => Ok(
                            text_prefix_replacement(placeholder, offset, end, size, contents, self.mount_point.as_slice()),
                        ),
                        FileMode::Binary => Ok(
                            binary_prefix_replacement(placeholder, offset, end, size, contents, self.mount_point.as_slice()),
                        ),
                    },
                    None => {
                        let mut out: Vec<u8> = Vec::new();
                        let mut i = offset;
                        while i < end
                            invariant
                                offset <= i <= end <= contents@.len(),
                                out@ == contents@.subrange(offset as int, i as int),
                            decreases end - i,
                        {
                            out.push(contents[i]);
                            assert(contents@.subrange(offset as int, i + 1) == contents@.subrange(offset as int, i as int).push(contents@[i as int]));
                            i += 1;
                        }
                        Ok(out)
                    },
                }
            },
        }
    }

    /// Whether a read of entry `ino` is answered rather than aborted (see
    /// `read`, which may be called exactly when this holds).
    pub fn read_answerable(&self, ino: usize, contents: &[u8], offset: usize, size: usize) -> (answered: bool)
        requires
            ino < self.tree().len(),
        ensures
            answered == read_answered(self.entries()[ino as int], contents@, offset as int, size as int, self.mount()),
    {
        match &self.metadata[ino] {
            FSMetadata::FSDirectory(_) => true,
            FSMetadata::FSFile(file) => match &file.prefix_placeholder {
                None => true,
                Some(p) => {
                    if offset >= contents.len() {
                        return true;
                    }
                    let plen = p.placeholder.as_str().as_bytes().len();
                    match p.file_mode {
                        FileMode::Text => {
                            let stop = offset.saturating_add(size);
                            let end = if stop < contents.len() { stop } else { contents.len() };
                            if end <= offset {
                                return true;
                            }
                            if contents.len() > usize::MAX - plen {
                                return false;
                            }
                            if self.mount_point.len() > plen {
                                return false;
                            }
                            match text_view_length(p, contents, self.mount_point.as_slice()) {
                                Some(n) => offset <= n,
                                None => false,
                            }
                        },
                        FileMode::Binary => self.mount_point.len() <= plen,
                    }
                },
            },
        }
    }
}

/// Whether entries form a well-formed tree (see `VirtualFSCore::new`, which
/// may be given exactly such entries).
pub fn metadata_well_formed(metadata: &Vec<FSMetadata>) -> (well_formed: bool)
    ensures
        well_formed == tree_well_formed(tree_view(metadata@)),
{
    let n = metadata.len();
    let ghost t = tree_view(metadata@);
    if n == 0 {
        return false;
    }
    match &metadata[0] {
        FSMetadata::FSDirectory(_) => {},
        FSMetadata::FSFile(_) => {
            return false;
        },
    }
    let mut i: usize = 0;
    while i < n
        invariant
            n == metadata@.len() == t.len(),
            t == tree_view(metadata@),
            i <= n,
            is_directory(t[0]),
            forall|a: int| 0 <= a < i ==> {
                let p = #[trigger] node_parent(t[a]);
                0 <= p < t.len() && is_directory(t[p])
            },
            forall|a: int, k: int| 0 <= a < i && 0 <= k < children_of(t[a]).len() ==> #[trigger] children_of(t[a])[k] < t.len(),
        decreases n - i,
    {
        let (parent, children_ok) = match &metadata[i] {
            FSMetadata::FSDirectory(d) => {
                let mut k: usize = 0;
                let mut ok = true;
                while k < d.children.len()
                    invariant
                        k <= d.children@.len(),
                        n == t.len(),
                        ok ==> forall|m: int| 0 <= m < k ==> d.children@[m] < n,
                        !ok ==> exists|m: int| 0 <= m < d.children@.len() && d.children@[m] >= n,
                    decreases d.children@.len() - k,
                {
                    if d.children[k] >= n {
                        ok = false;
                    }
                    k += 1;
                }
                assert(children_of(t[i as int]) == d.children@);
                assert(ok == forall|m: int| 0 <= m < children_of(t[i as int]).len() ==> children_of(t[i as int])[m] < n);
                (d.parent, ok)
            },
            FSMetadata::FSFile(f) => {
                assert(children_of(t[i as int]).len() == 0);
                (f.parent, true)
            },
        };
        assert(parent == node_parent(t[i as int]));
        assert(children_ok == forall|m: int| 0 <= m < children_of(t[i as int]).len() ==> children_of(t[i as int])[m] < n);
        if !children_ok {
            return false;
        }
        if parent >= n {
            return false;
        }
        match &metadata[parent] {
            FSMetadata::FSDirectory(_) => {},
            FSMetadata::FSFile(_) => {
                return false;
            },
        }
        i += 1;
    }
    true
}

} // verus!
