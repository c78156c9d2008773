use vstd::prelude::*;
use crate::metadata::{
    copy_bytes, path_view, DirectoryView, FSDirectory, FSMetadata, FileView, NodeView, PathType,
    PrefixPlaceholder, PrefixReplacement, ReplacementView, node_name, node_parent,
};
use crate::search::occurrences;

verus! {

/// A path of a package, as listed in its `paths.json`: the path below the
/// package root as a list of components (the last one is the file name),
/// how it is materialised, the placeholder recorded for it, and the contents
/// of the file in the package cache when it has a placeholder (empty when it
/// could not be read).
pub struct PathsEntry {
    pub relative_path: Vec<Vec<u8>>,
    pub path_type: PathType,
    pub prefix_placeholder: Option<PrefixPlaceholder>,
    pub source_bytes: Vec<u8>,
}

/// The paths of a package.
pub struct PathsJson {
    pub paths: Vec<PathsEntry>,
}

/// The index from directory paths to the entries that hold them.
pub type DirectoryIndex = Vec<(Vec<Vec<u8>>, usize)>;

/// The entries of the environment seen as plain values.
pub open spec fn tree_view(entries: Seq<FSMetadata>) -> Seq<NodeView> {
    entries.map_values(|m: FSMetadata| m@)
}

/// The directory index seen as plain values.
pub open spec fn index_view(index: Seq<(Vec<Vec<u8>>, usize)>) -> Seq<(Seq<Seq<u8>>, usize)> {
    index.map_values(|e: (Vec<Vec<u8>>, usize)| (path_view(e.0@), e.1))
}

pub open spec fn is_directory(node: NodeView) -> bool {
    node is Directory
}

/// The entries a directory holds (none for a file).
pub open spec fn children_of(node: NodeView) -> Seq<usize> {
    match node {
        NodeView::Directory(d) => d.children,
        NodeView::File(_) => seq![],
    }
}

/// The path of a directory (empty for a file).
pub open spec fn directory_path(node: NodeView) -> Seq<Seq<u8>> {
    match node {
        NodeView::Directory(d) => d.path,
        NodeView::File(_) => seq![],
    }
}

/// The environment is a tree rooted at entry 0: every entry's parent and
/// every directory's children are entries, and every parent is a directory.
pub open spec fn tree_well_formed(t: Seq<NodeView>) -> bool {
    &&& t.len() > 0
    &&& is_directory(t[0])
    &&& forall|i: int| 0 <= i < t.len() ==> {
        let p = #[trigger] node_parent(t[i]);
        0 <= p < t.len() && is_directory(t[p])
    }
    &&& forall|i: int, k: int|
        0 <= i < t.len() && 0 <= k < children_of(t[i]).len() ==> #[trigger] children_of(t[i])[k] < t.len()
}

/// The directory index names each path at most once, and each of its
/// entries is a directory with that path.
pub open spec fn index_well_formed(t: Seq<NodeView>, index: Seq<(Seq<Seq<u8>>, usize)>) -> bool {
    &&& forall|j: int| 0 <= j < index.len() ==> {
        let e = #[trigger] index[j];
        &&& e.1 < t.len()
        &&& is_directory(t[e.1 as int])
        &&& directory_path(t[e.1 as int]) == e.0
    }
    &&& forall|i: int, j: int| 0 <= i < j < index.len() ==> (#[trigger] index[i]).0 != (#[trigger] index[j]).0
}

/// The entry that the index gives for `path`.
pub open spec fn index_lookup(index: Seq<(Seq<Seq<u8>>, usize)>, path: Seq<Seq<u8>>) -> Option<usize>
    decreases index.len(),
{
    if index.len() == 0 {
        None
    } else if index[0].0 == path {
        Some(index[0].1)
    } else {
        index_lookup(index.drop_first(), path)
    }
}

/// `t` with `child` added to the entries of directory `parent`.
pub open spec fn add_child(t: Seq<NodeView>, parent: int, child: usize) -> Seq<NodeView> {
    match t[parent] {
        NodeView::Directory(d) => t.update(
            parent,
            NodeView::Directory(DirectoryView { children: d.children.push(child), ..d }),
        ),
        NodeView::File(_) => t,
    }
}

/// Walks down from directory `parent` through the components `comps`,
/// adding each directory that the index does not know yet (to the tree, to
/// its parent's entries and to the index); gives the tree, the index and
/// the directory reached.
pub open spec fn walk(
    t: Seq<NodeView>,
    index: Seq<(Seq<Seq<u8>>, usize)>,
    parent: usize,
    comps: Seq<Seq<u8>>,
) -> (Seq<NodeView>, Seq<(Seq<Seq<u8>>, usize)>, usize)
    decreases comps.len(),
{
    if comps.len() == 0 {
        (t, index, parent)
    } else {
        let path = directory_path(t[parent as int]).push(comps[0]);
        match index_lookup(index, path) {
            Some(i) => walk(t, index, i, comps.drop_first()),
            None => {
                let child = t.len() as usize;
                let t2 = add_child(
                    t.push(NodeView::Directory(DirectoryView { path, parent, children: seq![] })),
                    parent as int,
                    child,
                );
                walk(t2, index.push((path, child)), child, comps.drop_first())
            },
        }
    }
}

/// The replacement recorded for an entry: the placeholder's occurrences in
/// the file's contents.
pub open spec fn entry_replacement(entry: PathsEntry) -> Option<ReplacementView> {
    match entry.prefix_placeholder {
        Some(pp) => Some(
            ReplacementView {
                file_mode: pp.file_mode,
                placeholder: pp.placeholder@,
                offsets: occurrences(entry.source_bytes@, vstd::utf8::encode_utf8(pp.placeholder@)),
            },
        ),
        None => None,
    }
}

/// Adds one path of a package: its directories, then the file itself in
/// the last of them.
pub open spec fn add_entry(
    t: Seq<NodeView>,
    index: Seq<(Seq<Seq<u8>>, usize)>,
    entry: PathsEntry,
    package_dir: Seq<u8>,
) -> (Seq<NodeView>, Seq<(Seq<Seq<u8>>, usize)>) {
    let comps = path_view(entry.relative_path@);
    let (t1, index1, parent) = walk(t, index, 0, comps.drop_last());
    let file = t1.len() as usize;
    let node = NodeView::File(
        FileView {
            name: comps.last(),
            parent,
            cache_base: package_dir,
            path_type: entry.path_type,
            replacement: entry_replacement(entry),
        },
    );
    (add_child(t1.push(node), parent as int, file), index1)
}

/// Adds the paths of a package, in order.
pub open spec fn add_entries(
    t: Seq<NodeView>,
    index: Seq<(Seq<Seq<u8>>, usize)>,
    entries: Seq<PathsEntry>,
    package_dir: Seq<u8>,
) -> (Seq<NodeView>, Seq<(Seq<Seq<u8>>, usize)>)
    decreases entries.len(),
{
    if entries.len() == 0 {
        (t, index)
    } else {
        let (t1, index1) = add_entry(t, index, entries[0], package_dir);
        add_entries(t1, index1, entries.drop_first(), package_dir)
    }
}

/// Whether a path can be added: it has a last component that names a file.
pub open spec fn entry_has_file_name(entry: PathsEntry) -> bool {
    let comps = path_view(entry.relative_path@);
    comps.len() > 0 && comps.last() != crate::metadata::parent_component()
}

/// `t2` keeps every entry of `t`: directories keep their path and parent
/// (they may hold more entries), files are unchanged.
pub open spec fn tree_extends(t: Seq<NodeView>, t2: Seq<NodeView>) -> bool {
    &&& t.len() <= t2.len()
    &&& forall|i: int| 0 <= i < t.len() ==> {
        &&& (is_directory(#[trigger] t[i]) ==> is_directory(t2[i]) && directory_path(t2[i]) == directory_path(t[i])
            && node_parent(t2[i]) == node_parent(t[i])
            && children_of(t2[i]).len() >= children_of(t[i]).len()
            && children_of(t2[i]).take(children_of(t[i]).len() as int) == children_of(t[i]))
        &&& (!is_directory(t[i]) ==> t2[i] == t[i])
    }
}

proof fn lemma_index_lookup(index: Seq<(Seq<Seq<u8>>, usize)>, path: Seq<Seq<u8>>)
    ensures
        match index_lookup(index, path) {
            Some(i) => exists|j: int| 0 <= j < index.len() && (#[trigger] index[j]).0 == path && index[j].1 == i,
            None => forall|j: int| 0 <= j < index.len() ==> (#[trigger] index[j]).0 != path,
        },
    decreases index.len(),
{
    if index.len() > 0 {
        lemma_index_lookup(index.drop_first(), path);
        if index[0].0 == path {
            assert(index[0].0 == path);
        } else {
            match index_lookup(index.drop_first(), path) {
                Some(i) => {
                    let j = choose|j: int| 0 <= j < index.drop_first().len() && (#[trigger] index.drop_first()[j]).0 == path
                        && index.drop_first()[j].1 == i;
                    assert(index[j + 1] == index.drop_first()[j]);
                },
                None => {
                    assert forall|j: int| 0 <= j < index.len() implies (#[trigger] index[j]).0 != path by {
                        if j > 0 {
                            assert(index[j] == index.drop_first()[j - 1]);
                        }
                    }
                },
            }
        }
    }
}

/// Adding a new entry whose parent is a directory, and listing it in that
/// directory, keeps the tree well formed and extends it.
proof fn lemma_push_child(t: Seq<NodeView>, index: Seq<(Seq<Seq<u8>>, usize)>, node: NodeView)
    requires
        tree_well_formed(t),
        index_well_formed(t, index),
        0 <= node_parent(node) < t.len(),
        is_directory(t[node_parent(node)]),
        children_of(node).len() == 0,
        t.len() < usize::MAX,
    ensures
        tree_well_formed(add_child(t.push(node), node_parent(node), t.len() as usize)),
        index_well_formed(add_child(t.push(node), node_parent(node), t.len() as usize), index),
        tree_extends(t, add_child(t.push(node), node_parent(node), t.len() as usize)),
        add_child(t.push(node), node_parent(node), t.len() as usize).len() == t.len() + 1,
        add_child(t.push(node), node_parent(node), t.len() as usize)[t.len() as int] == node,
{
    let p = node_parent(node);
    let t1 = t.push(node);
    assert(t1[p] == t[p]);
    let t2 = add_child(t1, p, t.len() as usize);
    assert(t2.len() == t.len() + 1);
    assert forall|i: int| 0 <= i < t2.len() implies {
        let q = #[trigger] node_parent(t2[i]);
        0 <= q < t2.len() && is_directory(t2[q])
    } by {
        if i < t.len() {
            assert(node_parent(t2[i]) == node_parent(t[i]));
        }
    }
    assert forall|i: int, k: int| 0 <= i < t2.len() && 0 <= k < children_of(t2[i]).len()
        implies #[trigger] children_of(t2[i])[k] < t2.len() by {
        if i == p {
            if k < children_of(t[i]).len() {
                assert(children_of(t2[i])[k] == children_of(t[i])[k]);
            }
        } else if i < t.len() {
            assert(children_of(t2[i]) == children_of(t[i]));
        }
    }
    assert forall|j: int| 0 <= j < index.len() implies {
        let e = #[trigger] index[j];
        &&& e.1 < t2.len()
        &&& is_directory(t2[e.1 as int])
        &&& directory_path(t2[e.1 as int]) == e.0
    } by {
        let e = index[j];
        assert(e.1 < t.len());
    }
    assert forall|i: int| 0 <= i < t.len() implies {
        &&& (is_directory(#[trigger] t[i]) ==> is_directory(t2[i]) && directory_path(t2[i]) == directory_path(t[i])
            && node_parent(t2[i]) == node_parent(t[i])
            && children_of(t2[i]).len() >= children_of(t[i]).len()
            && children_of(t2[i]).take(children_of(t[i]).len() as int) == children_of(t[i]))
        &&& (!is_directory(t[i]) ==> t2[i] == t[i])
    } by {
        if i == p {
            assert(children_of(t2[i]) == children_of(t[i]).push(t.len() as usize));
            assert(children_of(t2[i]).take(children_of(t[i]).len() as int) =~= children_of(t[i]));
        } else {
            assert(t2[i] == t[i]);
            assert(children_of(t2[i]).take(children_of(t[i]).len() as int) =~= children_of(t[i]));
        }
    }
}

proof fn lemma_extends_refl(t: Seq<NodeView>)
    ensures
        tree_extends(t, t),
{
    assert forall|i: int| 0 <= i < t.len() implies children_of(#[trigger] t[i]).take(children_of(t[i]).len() as int)
        == children_of(t[i]) by {
        assert(children_of(t[i]).take(children_of(t[i]).len() as int) =~= children_of(t[i]));
    }
}

proof fn lemma_extends_trans(t: Seq<NodeView>, t2: Seq<NodeView>, t3: Seq<NodeView>)
    requires
        tree_extends(t, t2),
        tree_extends(t2, t3),
    ensures
        tree_extends(t, t3),
{
    assert forall|i: int| 0 <= i < t.len() implies {
        &&& (is_directory(#[trigger] t[i]) ==> is_directory(t3[i]) && directory_path(t3[i]) == directory_path(t[i])
            && node_parent(t3[i]) == node_parent(t[i])
            && children_of(t3[i]).len() >= children_of(t[i]).len()
            && children_of(t3[i]).take(children_of(t[i]).len() as int) == children_of(t[i]))
        &&& (!is_directory(t[i]) ==> t3[i] == t[i])
    } by {
        lemma_extends_at(t, t2, t3, i);
    }
}

proof fn lemma_extends_at(t: Seq<NodeView>, t2: Seq<NodeView>, t3: Seq<NodeView>, i: int)
    requires
        tree_extends(t, t2),
        tree_extends(t2, t3),
        0 <= i < t.len(),
    ensures
        is_directory(t[i]) ==> is_directory(t3[i]) && directory_path(t3[i]) == directory_path(t[i])
            && node_parent(t3[i]) == node_parent(t[i])
            && children_of(t3[i]).len() >= children_of(t[i]).len()
            && children_of(t3[i]).take(children_of(t[i]).len() as int) == children_of(t[i]),
        !is_directory(t[i]) ==> t3[i] == t[i],
{
    if is_directory(t[i]) {
        assert(is_directory(t2[i]));
        let a = children_of(t[i]);
        let b = children_of(t2[i]);
        let c = children_of(t3[i]);
        assert(c.take(b.len() as int) == b);
        assert(b.take(a.len() as int) == a);
        assert(c.take(a.len() as int) =~= a) by {
            assert forall|k: int| 0 <= k < a.len() implies c.take(a.len() as int)[k] == a[k] by {
                assert(c.take(b.len() as int)[k] == c[k]);
                assert(b.take(a.len() as int)[k] == b[k]);
            }
        }
    }
}

/// Walking down a path keeps the tree and the index well formed, extends
/// the tree, and reaches a directory whose path is the starting
/// directory's path followed by the components.
proof fn lemma_walk(t: Seq<NodeView>, index: Seq<(Seq<Seq<u8>>, usize)>, parent: usize, comps: Seq<Seq<u8>>)
    requires
        tree_well_formed(t),
        index_well_formed(t, index),
        parent < t.len(),
        is_directory(t[parent as int]),
        t.len() + comps.len() < usize::MAX,
    ensures
        ({
            let (t2, index2, p2) = walk(t, index, parent, comps);
            &&& t2.len() <= t.len() + comps.len()
            &&& tree_well_formed(t2)
            &&& index_well_formed(t2, index2)
            &&& p2 < t2.len()
            &&& is_directory(t2[p2 as int])
            &&& directory_path(t2[p2 as int]) == directory_path(t[parent as int]) + comps
            &&& tree_extends(t, t2)
        }),
    decreases comps.len(),
{
    if comps.len() == 0 {
        assert(directory_path(t[parent as int]) + comps =~= directory_path(t[parent as int]));
        lemma_extends_refl(t);
    } else {
        let path = directory_path(t[parent as int]).push(comps[0]);
        lemma_index_lookup(index, path);
        assert(path + comps.drop_first() =~= directory_path(t[parent as int]) + comps);
        match index_lookup(index, path) {
            Some(i) => {
                let j = choose|j: int| 0 <= j < index.len() && (#[trigger] index[j]).0 == path && index[j].1 == i;
                assert(index[j].1 < t.len());
                lemma_walk(t, index, i, comps.drop_first());
            },
            None => {
                let child = t.len() as usize;
                let node = NodeView::Directory(DirectoryView { path, parent, children: seq![] });
                lemma_push_child(t, index, node);
                let t2 = add_child(t.push(node), parent as int, child);
                let index2 = index.push((path, child));
                assert(index_well_formed(t2, index2)) by {
                    assert forall|a: int, b: int| 0 <= a < b < index2.len()
                        implies (#[trigger] index2[a]).0 != (#[trigger] index2[b]).0 by {
                        if b == index.len() {
                            assert(index2[a] == index[a]);
                        } else {
                            assert(index2[a] == index[a] && index2[b] == index[b]);
                        }
                    }
                    assert forall|k: int| 0 <= k < index2.len() implies {
                        let e = #[trigger] index2[k];
                        &&& e.1 < t2.len()
                        &&& is_directory(t2[e.1 as int])
                        &&& directory_path(t2[e.1 as int]) == e.0
                    } by {
                        if k < index.len() {
                            assert(index2[k] == index[k]);
                        }
                    }
                }
                lemma_walk(t2, index2, child, comps.drop_first());
                let (t3, index3, p3) = walk(t2, index2, child, comps.drop_first());
                lemma_extends_trans(t, t2, t3);
            },
        }
    }
}

/// Compares two byte strings.
pub fn bytes_eq(a: &[u8], b: &[u8]) -> (equal: bool)
    ensures
        equal == (a@ == b@),
{
    if a.len() != b.len() {
        return false;
    }
    let mut i: usize = 0;
    while i < a.len()
        invariant
            i <= a@.len() == b@.len(),
            a@.take(i as int) == b@.take(i as int),
        decreases a@.len() - i,
    {
        if a[i] != b[i] {
            return false;
        }
        assert(a@.take(i + 1) == a@.take(i as int).push(a@[i as int]));
        assert(b@.take(i + 1) == b@.take(i as int).push(b@[i as int]));
        i += 1;
    }
    assert(a@.take(a@.len() as int) == a@);
    assert(b@.take(b@.len() as int) == b@);
    true
}

/// Compares two paths component by component.
fn path_eq(a: &Vec<Vec<u8>>, b: &Vec<Vec<u8>>) -> (equal: bool)
    ensures
        equal == (path_view(a@) == path_view(b@)),
{
    if a.len() != b.len() {
        assert(path_view(a@).len() != path_view(b@).len());
        return false;
    }
    let mut i: usize = 0;
    while i < a.len()
        invariant
            i <= a@.len() == b@.len(),
            forall|k: int| 0 <= k < i ==> a@[k]@ == b@[k]@,
        decreases a@.len() - i,
    {
        if !bytes_eq(a[i].as_slice(), b[i].as_slice()) {
            assert(path_view(a@)[i as int] != path_view(b@)[i as int]);
            return false;
        }
        i += 1;
    }
    assert(path_view(a@) =~= path_view(b@));
    true
}

/// Copies a path.
fn copy_path(path: &Vec<Vec<u8>>) -> (out: Vec<Vec<u8>>)
    ensures
        path_view(out@) == path_view(path@),
{
    let mut out: Vec<Vec<u8>> = Vec::new();
    let mut i: usize = 0;
    while i < path.len()
        invariant
            i <= path@.len(),
            out@.len() == i,
            forall|k: int| 0 <= k < i ==> (#[trigger] out@[k])@ == path@[k]@,
        decreases path@.len() - i,
    {
        let component = copy_bytes(path[i].as_slice());
        out.push(component);
        i += 1;
    }
    assert(path_view(out@) =~= path_view(path@));
    out
}

/// Looks `path` up in the directory index.
fn index_get(index: &DirectoryIndex, path: &Vec<Vec<u8>>) -> (found: Option<usize>)
    ensures
        found == index_lookup(index_view(index@), path_view(path@)),
{
    let mut i: usize = 0;
    assert(index_view(index@).skip(0) == index_view(index@));
    while i < index.len()
        invariant
            i <= index@.len(),
            index_lookup(index_view(index@), path_view(path@)) == index_lookup(index_view(index@).skip(i as int), path_view(path@)),
        decreases index@.len() - i,
    {
        let ghost rest = index_view(index@).skip(i as int);
        assert(rest.drop_first() == index_view(index@).skip(i + 1));
        assert(rest[0] == (path_view(index@[i as int].0@), index@[i as int].1));
        if path_eq(&index[i].0, path) {
            return Some(index[i].1);
        }
        i += 1;
    }
    None
}

/// Adds `child` to the entries of directory `parent`.
fn add_child_entry(entries: &mut Vec<FSMetadata>, parent: usize, child: usize)
    requires
        parent < old(entries)@.len(),
        is_directory(old(entries)@[parent as int]@),
    ensures
        tree_view(final(entries)@) == add_child(tree_view(old(entries)@), parent as int, child),
{
    match &mut entries[parent] {
        FSMetadata::FSDirectory(directory) => {
            directory.children.push(child);
        },
        FSMetadata::FSFile(_) => {},
    }
    assert(tree_view(entries@) =~= add_child(tree_view(old(entries)@), parent as int, child));
}

/// The number of path components over all the entries: a bound on the
/// number of entries that adding them creates.
pub open spec fn total_components(entries: Seq<PathsEntry>) -> nat
    decreases entries.len(),
{
    if entries.len() == 0 {
        0
    } else {
        entries[0].relative_path@.len() + total_components(entries.drop_first())
    }
}

/// Listing a new directory in the index keeps it well formed.
proof fn lemma_index_push(t: Seq<NodeView>, index: Seq<(Seq<Seq<u8>>, usize)>, path: Seq<Seq<u8>>, child: usize)
    requires
        index_well_formed(t, index),
        child < t.len(),
        is_directory(t[child as int]),
        directory_path(t[child as int]) == path,
        forall|j: int| 0 <= j < index.len() ==> (#[trigger] index[j]).0 != path,
    ensures
        index_well_formed(t, index.push((path, child))),
{
    let index2 = index.push((path, child));
    assert forall|a: int, b: int| 0 <= a < b < index2.len() implies (#[trigger] index2[a]).0 != (#[trigger] index2[b]).0 by {
        assert(index2[a] == index[a]);
        if b < index.len() {
            assert(index2[b] == index[b]);
        }
    }
    assert forall|k: int| 0 <= k < index2.len() implies {
        let e = #[trigger] index2[k];
        &&& e.1 < t.len()
        &&& is_directory(t[e.1 as int])
        &&& directory_path(t[e.1 as int]) == e.0
    } by {
        if k < index.len() {
            assert(index2[k] == index[k]);
        }
    }
}

/// Adds the paths of a package to the environment: for each path, the
/// directories on the way to it that the index does not know yet are added
/// (to the entries, to their parent directory and to the index), then the
/// file itself is added to the last of them, with the prefix replacement
/// recorded from its contents. The environment stays a well-formed tree and
/// the index stays well formed; an environment of the shape described by
/// `tree_ordered` keeps that shape. The mount point is not used.
pub fn path_parse(
    paths_json: PathsJson,
    package_dir: Vec<u8>,
    env_paths: &mut Vec<FSMetadata>,
    directory_indices: &mut DirectoryIndex,
    _mount_point: &[u8],
)
    requires
        tree_well_formed(tree_view(old(env_paths)@)),
        index_well_formed(tree_view(old(env_paths)@), index_view(old(directory_indices)@)),
        forall|j: int| 0 <= j < paths_json.paths@.len() ==> entry_has_file_name(#[trigger] paths_json.paths@[j]),
        old(env_paths)@.len() + total_components(paths_json.paths@) <= usize::MAX,
    ensures
        (tree_view(final(env_paths)@), index_view(final(directory_indices)@)) == add_entries(
            tree_view(old(env_paths)@),
            index_view(old(directory_indices)@),
            paths_json.paths@,
            package_dir@,
        ),
        tree_well_formed(tree_view(final(env_paths)@)),
        index_well_formed(tree_view(final(env_paths)@), index_view(final(directory_indices)@)),
        tree_ordered(tree_view(old(env_paths)@), index_view(old(directory_indices)@))
            ==> tree_ordered(tree_view(final(env_paths)@), index_view(final(directory_indices)@)),
{
    proof {
        if tree_ordered(tree_view(env_paths@), index_view(directory_indices@)) {
            lemma_add_entries_ordered(tree_view(env_paths@), index_view(directory_indices@), paths_json.paths@, package_dir@);
        }
    }
    let paths = &paths_json.paths;
    let ghost target = add_entries(tree_view(env_paths@), index_view(directory_indices@), paths@, package_dir@);
    let mut i: usize = 0;
    assert(paths@.skip(0) == paths@);
    while i < paths.len()
        invariant
            i <= paths@.len(),
            tree_well_formed(tree_view(env_paths@)),
            index_well_formed(tree_view(env_paths@), index_view(directory_indices@)),
            forall|j: int| 0 <= j < paths@.len() ==> entry_has_file_name(#[trigger] paths@[j]),
            env_paths@.len() + total_components(paths@.skip(i as int)) <= usize::MAX,
            add_entries(tree_view(env_paths@), index_view(directory_indices@), paths@.skip(i as int), package_dir@) == target,
        decreases paths@.len() - i,
    {
        let path = &paths[i];
        let ghost rest = paths@.skip(i as int);
        assert(rest[0] == *path);
        assert(rest.drop_first() == paths@.skip(i + 1));
        assert(entry_has_file_name(*path));
        let ghost comps = path_view(path.relative_path@);
        let ghost t0 = tree_view(env_paths@);
        let ghost index0 = index_view(directory_indices@);
        let ghost walked = walk(t0, index0, 0, comps.drop_last());
        let n = path.relative_path.len();

        let mut parent_index: usize = 0;
        let mut k: usize = 0;
        assert(comps.drop_last().skip(0) == comps.drop_last());
        while k < n - 1
            invariant
                n == path.relative_path@.len() >= 1,
                comps == path_view(path.relative_path@),
                k <= n - 1,
                tree_well_formed(tree_view(env_paths@)),
                index_well_formed(tree_view(env_paths@), index_view(directory_indices@)),
                parent_index < env_paths@.len(),
                is_directory(tree_view(env_paths@)[parent_index as int]),
                env_paths@.len() + (n - k) + total_components(paths@.skip(i + 1)) <= usize::MAX,
                walk(tree_view(env_paths@), index_view(directory_indices@), parent_index, comps.drop_last().skip(k as int))
                    == walked,
            decreases n - 1 - k,
        {
            let ghost t = tree_view(env_paths@);
            let ghost index = index_view(directory_indices@);
            let ghost remaining = comps.drop_last().skip(k as int);
            assert(remaining[0] == comps[k as int]);
            assert(remaining.drop_first() == comps.drop_last().skip(k + 1));

            let mut current_path = match &env_paths[parent_index] {
                FSMetadata::FSDirectory(directory) => copy_path(&directory.prefix_path),
                FSMetadata::FSFile(_) => Vec::new(),
            };
            current_path.push(copy_bytes(path.relative_path[k].as_slice()));
            let ghost key = directory_path(t[parent_index as int]).push(comps[k as int]);
            assert(path_view(current_path@) =~= key);
            proof {
                lemma_index_lookup(index, key);
            }

            match index_get(directory_indices, &current_path) {
                Some(index_found) => {
                    proof {
                        let j = choose|j: int| 0 <= j < index.len() && (#[trigger] index[j]).0 == key && index[j].1 == index_found;
                        assert(index[j].1 < t.len());
                    }
                    parent_index = index_found;
                },
                None => {
                    let new_dir = FSMetadata::new_directory(copy_path(&current_path), parent_index);
                    let child_index = env_paths.len();
                    let ghost node = new_dir@;
                    assert(node == NodeView::Directory(DirectoryView { path: key, parent: parent_index, children: seq![] }));
                    env_paths.push(new_dir);
                    assert(tree_view(env_paths@) =~= t.push(node));
                    add_child_entry(env_paths, parent_index, child_index);
                    proof {
                        lemma_push_child(t, index, node);
                    }
                    directory_indices.push((current_path, child_index));
                    assert(index_view(directory_indices@) =~= index.push((key, child_index)));
                    proof {
                        lemma_index_push(tree_view(env_paths@), index, key, child_index);
                    }
                    parent_index = child_index;
                },
            }
            k += 1;
        }
        assert(comps.drop_last().skip((n - 1) as int) =~= Seq::<Seq<u8>>::empty());

        let ghost t1 = tree_view(env_paths@);
        let file_name = copy_bytes(path.relative_path[n - 1].as_slice());
        let cache_base = copy_bytes(package_dir.as_slice());
        let prefix_placeholder = match &path.prefix_placeholder {
            Some(pp) => Some(
                PrefixReplacement::from_placeholder(
                    PrefixPlaceholder { file_mode: pp.file_mode, placeholder: pp.placeholder.clone() },
                    path.source_bytes.as_slice(),
                ),
            ),
            None => None,
        };
        let file_index = env_paths.len();
        let new_file = FSMetadata::new_file(file_name, parent_index, cache_base, path.path_type, prefix_placeholder);
        let ghost node = new_file@;
        assert(comps.last() == path.relative_path@[n - 1]@);
        assert(node == NodeView::File(
            FileView {
                name: comps.last(),
                parent: parent_index,
                cache_base: package_dir@,
                path_type: path.path_type,
                replacement: entry_replacement(*path),
            },
        ));
        env_paths.push(new_file);
        assert(tree_view(env_paths@) =~= t1.push(node));
        add_child_entry(env_paths, parent_index, file_index);
        proof {
            lemma_push_child(t1, index_view(directory_indices@), node);
        }
        i += 1;
    }
    assert(paths@.skip(paths@.len() as int) =~= Seq::<PathsEntry>::empty());
}

/// Entry `file` of `t` is the file added for `entry`: it carries the
/// entry's file name, type and replacement and the package directory, and it
/// is listed in a directory whose path is the entry's parent components.
pub open spec fn holds_entry(t: Seq<NodeView>, entry: PathsEntry, package_dir: Seq<u8>, file: int) -> bool {
    let comps = path_view(entry.relative_path@);
    let parent = node_parent(t[file]);
    &&& 0 <= file < t.len()
    &&& 0 <= parent < t.len()
    &&& t[file] == NodeView::File(
        FileView {
            name: comps.last(),
            parent: parent as usize,
            cache_base: package_dir,
            path_type: entry.path_type,
            replacement: entry_replacement(entry),
        },
    )
    &&& is_directory(t[parent])
    &&& directory_path(t[parent]) == comps.drop_last()
    &&& children_of(t[parent]).contains(file as usize)
}

/// Some entry of `t` is the file added for `entry`.
pub open spec fn is_listed(t: Seq<NodeView>, entry: PathsEntry, package_dir: Seq<u8>) -> bool {
    exists|f: int| holds_entry(t, entry, package_dir, f)
}

proof fn lemma_holds_entry_kept(t: Seq<NodeView>, t2: Seq<NodeView>, entry: PathsEntry, package_dir: Seq<u8>, file: int)
    requires
        holds_entry(t, entry, package_dir, file),
        tree_extends(t, t2),
    ensures
        holds_entry(t2, entry, package_dir, file),
{
    let parent = node_parent(t[file]);
    assert(t2[file] == t[file]);
    assert(is_directory(t[parent]));
    let a = children_of(t[parent]);
    let b = children_of(t2[parent]);
    let k = choose|k: int| 0 <= k < a.len() && a[k] == file as usize;
    assert(b.take(a.len() as int)[k] == b[k]);
    assert(b.contains(file as usize));
}

#[verifier::spinoff_prover]
proof fn lemma_add_entry(t: Seq<NodeView>, index: Seq<(Seq<Seq<u8>>, usize)>, entry: PathsEntry, package_dir: Seq<u8>)
    requires
        tree_well_formed(t),
        index_well_formed(t, index),
        directory_path(t[0]) == Seq::<Seq<u8>>::empty(),
        entry_has_file_name(entry),
        t.len() + entry.relative_path@.len() <= usize::MAX,
    ensures
        ({
            let (t2, index2) = add_entry(t, index, entry, package_dir);
            &&& tree_well_formed(t2)
            &&& index_well_formed(t2, index2)
            &&& tree_extends(t, t2)
            &&& t2.len() <= t.len() + entry.relative_path@.len()
            &&& is_listed(t2, entry, package_dir)
        }),
{
    let comps = path_view(entry.relative_path@);
    lemma_walk(t, index, 0, comps.drop_last());
    let (t1, index1, parent) = walk(t, index, 0, comps.drop_last());
    assert(Seq::<Seq<u8>>::empty() + comps.drop_last() =~= comps.drop_last());
    let file = t1.len() as usize;
    let node = NodeView::File(
        FileView {
            name: comps.last(),
            parent,
            cache_base: package_dir,
            path_type: entry.path_type,
            replacement: entry_replacement(entry),
        },
    );
    lemma_push_child(t1, index1, node);
    let t2 = add_child(t1.push(node), parent as int, file);
    lemma_extends_trans(t, t1, t2);
    assert(children_of(t2[parent as int]) == children_of(t1[parent as int]).push(file));
    assert(children_of(t2[parent as int])[children_of(t1[parent as int]).len() as int] == file);
    assert(holds_entry(t2, entry, package_dir, file as int));
    assert(is_listed(t2, entry, package_dir));
}

proof fn lemma_listed_after(
    t1: Seq<NodeView>,
    t2: Seq<NodeView>,
    entries: Seq<PathsEntry>,
    package_dir: Seq<u8>,
)
    requires
        entries.len() > 0,
        is_listed(t1, entries[0], package_dir),
        tree_extends(t1, t2),
        forall|j: int| 0 <= j < entries.drop_first().len() ==> is_listed(t2, #[trigger] entries.drop_first()[j], package_dir),
    ensures
        forall|j: int| 0 <= j < entries.len() ==> is_listed(t2, #[trigger] entries[j], package_dir),
{
    assert forall|j: int| 0 <= j < entries.len() implies is_listed(t2, #[trigger] entries[j], package_dir) by {
        if j == 0 {
            let f = choose|f: int| holds_entry(t1, entries[0], package_dir, f);
            lemma_holds_entry_kept(t1, t2, entries[0], package_dir, f);
        } else {
            assert(entries[j] == entries.drop_first()[j - 1]);
            assert(is_listed(t2, entries.drop_first()[j - 1], package_dir));
        }
    }
}

proof fn lemma_add_entries(t: Seq<NodeView>, index: Seq<(Seq<Seq<u8>>, usize)>, entries: Seq<PathsEntry>, package_dir: Seq<u8>)
    requires
        tree_well_formed(t),
        index_well_formed(t, index),
        directory_path(t[0]) == Seq::<Seq<u8>>::empty(),
        forall|j: int| 0 <= j < entries.len() ==> entry_has_file_name(#[trigger] entries[j]),
        t.len() + total_components(entries) <= usize::MAX,
    ensures
        tree_well_formed(add_entries(t, index, entries, package_dir).0),
        index_well_formed(add_entries(t, index, entries, package_dir).0, add_entries(t, index, entries, package_dir).1),
        tree_extends(t, add_entries(t, index, entries, package_dir).0),
        forall|j: int| 0 <= j < entries.len() ==> is_listed(add_entries(t, index, entries, package_dir).0, #[trigger] entries[j], package_dir),
    decreases entries.len(),
{
    if entries.len() == 0 {
        lemma_extends_refl(t);
    } else {
        let rest = entries.drop_first();
        assert(entries[0].relative_path@.len() + total_components(rest) == total_components(entries));
        lemma_add_entry(t, index, entries[0], package_dir);
        let pair = add_entry(t, index, entries[0], package_dir);
        let t1 = pair.0;
        let index1 = pair.1;
        assert(directory_path(t1[0]) == directory_path(t[0]));
        assert forall|j: int| 0 <= j < rest.len() implies entry_has_file_name(#[trigger] rest[j]) by {
            assert(rest[j] == entries[j + 1]);
        }
        lemma_add_entries(t1, index1, rest, package_dir);
        let t2 = add_entries(t1, index1, rest, package_dir).0;
        assert(add_entries(t, index, entries, package_dir) == add_entries(t1, index1, rest, package_dir));
        lemma_extends_trans(t, t1, t2);
        lemma_listed_after(t1, t2, entries, package_dir);
    }
}

/// The shape the environment keeps as packages are added: a well-formed tree
/// whose root `.` (entry 0) is its own parent; every other entry comes after
/// its parent and is listed exactly once among all the directories'
/// entries, in its parent's; and the index names every directory by its
/// path (so it gives entry `i` for a path exactly when `i` is the directory
/// with that path).
pub open spec fn tree_ordered(t: Seq<NodeView>, index: Seq<(Seq<Seq<u8>>, usize)>) -> bool {
    &&& tree_well_formed(t)
    &&& index_well_formed(t, index)
    &&& directory_path(t[0]) == Seq::<Seq<u8>>::empty()
    &&& node_parent(t[0]) == 0
    &&& forall|i: int| 0 < i < t.len() ==> #[trigger] node_parent(t[i]) < i
    &&& forall|i: int, k: int| 0 <= i < t.len() && 0 <= k < children_of(t[i]).len() ==> {
        let c = #[trigger] children_of(t[i])[k];
        0 < c && node_parent(t[c as int]) == i
    }
    &&& forall|i: int| 0 < i < t.len() ==> children_of(t[#[trigger] node_parent(t[i])]).contains(i as usize)
    &&& forall|i: int| 0 <= i < t.len() ==> (#[trigger] children_of(t[i])).no_duplicates()
    &&& forall|i: int| 0 <= i < t.len() && #[trigger] is_directory(t[i]) ==> index_lookup(index, directory_path(t[i])) == Some(i as usize)
}

proof fn lemma_lookup_push(index: Seq<(Seq<Seq<u8>>, usize)>, e: (Seq<Seq<u8>>, usize), q: Seq<Seq<u8>>)
    ensures
        index_lookup(index.push(e), q) == (match index_lookup(index, q) {
            Some(x) => Some(x),
            None => if e.0 == q { Some(e.1) } else { None },
        }),
    decreases index.len(),
{
    if index.len() > 0 {
        assert(index.push(e)[0] == index[0]);
        assert(index.push(e).drop_first() =~= index.drop_first().push(e));
        lemma_lookup_push(index.drop_first(), e, q);
    } else {
        assert(index.push(e)[0] == e);
        assert(index.push(e).drop_first() =~= Seq::<(Seq<Seq<u8>>, usize)>::empty());
        assert(index_lookup(Seq::<(Seq<Seq<u8>>, usize)>::empty(), q) is None);
    }
}

/// Adding a new entry under a directory (and, for a directory whose path
/// the index does not know, naming it in the index) keeps the shape.
proof fn lemma_push_child_ordered(
    t: Seq<NodeView>,
    index: Seq<(Seq<Seq<u8>>, usize)>,
    node: NodeView,
    index2: Seq<(Seq<Seq<u8>>, usize)>,
)
    requires
        tree_ordered(t, index),
        0 <= node_parent(node) < t.len(),
        is_directory(t[node_parent(node)]),
        children_of(node).len() == 0,
        t.len() < usize::MAX,
        is_directory(node) ==> index_lookup(index, directory_path(node)) is None
            && index2 == index.push((directory_path(node), t.len() as usize)),
        !is_directory(node) ==> index2 == index,
    ensures
        tree_ordered(add_child(t.push(node), node_parent(node), t.len() as usize), index2),
{
    let p = node_parent(node);
    let c = t.len() as usize;
    let t2 = add_child(t.push(node), p, c);
    lemma_push_child(t, index, node);
    assert(t.push(node)[p] == t[p]);
    assert(children_of(t2[p]) == children_of(t[p]).push(c));
    assert forall|i: int| 0 <= i < t.len() && i != p implies t2[i] == t[i] by {}
    if is_directory(node) {
        lemma_index_lookup(index, directory_path(node));
        lemma_index_push(t2, index, directory_path(node), c);
    }
    assert forall|i: int| 0 < i < t2.len() implies #[trigger] node_parent(t2[i]) < i by {
        if i < t.len() {
            assert(node_parent(t2[i]) == node_parent(t[i]));
        }
    }
    assert forall|i: int, k: int| 0 <= i < t2.len() && 0 <= k < children_of(t2[i]).len() implies {
        let ch = #[trigger] children_of(t2[i])[k];
        0 < ch && node_parent(t2[ch as int]) == i
    } by {
        if i == p {
            if k < children_of(t[p]).len() {
                let ch = children_of(t[p])[k];
                assert(children_of(t2[i])[k] == ch);
                assert(ch < t.len());
                assert(node_parent(t2[ch as int]) == node_parent(t[ch as int]));
            }
        } else if i < t.len() {
            let ch = children_of(t[i])[k];
            assert(children_of(t2[i])[k] == ch);
            assert(ch < t.len());
            assert(node_parent(t2[ch as int]) == node_parent(t[ch as int]));
        }
    }
    assert forall|i: int| 0 < i < t2.len() implies children_of(t2[#[trigger] node_parent(t2[i])]).contains(i as usize) by {
        if i < t.len() {
            let q = node_parent(t[i]);
            assert(node_parent(t2[i]) == q);
            assert(children_of(t[q]).contains(i as usize));
            let k = choose|k: int| 0 <= k < children_of(t[q]).len() && children_of(t[q])[k] == i as usize;
            if q == p {
                assert(children_of(t2[q])[k] == i as usize);
            } else {
                assert(t2[q] == t[q]);
            }
        } else {
            assert(children_of(t2[p])[children_of(t[p]).len() as int] == c);
        }
    }
    assert forall|i: int| 0 <= i < t2.len() implies (#[trigger] children_of(t2[i])).no_duplicates() by {
        if i == p {
            assert forall|a: int, b: int| 0 <= a < b < children_of(t2[i]).len()
                implies children_of(t2[i])[a] != children_of(t2[i])[b] by {
                if b == children_of(t[p]).len() {
                    assert(children_of(t[p])[a] < t.len());
                } else {
                    assert(children_of(t[p]).no_duplicates());
                }
            }
        } else if i < t.len() {
            assert(children_of(t[i]).no_duplicates());
        } else {
            assert(children_of(t2[i]) == children_of(node));
        }
    }
    assert forall|i: int| 0 <= i < t2.len() && #[trigger] is_directory(t2[i])
        implies index_lookup(index2, directory_path(t2[i])) == Some(i as usize) by {
        if i < t.len() {
            assert(is_directory(t[i]));
            assert(directory_path(t2[i]) == directory_path(t[i]));
            assert(index_lookup(index, directory_path(t[i])) == Some(i as usize));
            if is_directory(node) {
                lemma_lookup_push(index, (directory_path(node), c), directory_path(t[i]));
            }
        } else {
            assert(t2[i] == node);
            lemma_lookup_push(index, (directory_path(node), c), directory_path(node));
        }
    }
}

/// Walking down a path keeps the shape.
proof fn lemma_walk_ordered(t: Seq<NodeView>, index: Seq<(Seq<Seq<u8>>, usize)>, parent: usize, comps: Seq<Seq<u8>>)
    requires
        tree_ordered(t, index),
        parent < t.len(),
        is_directory(t[parent as int]),
        t.len() + comps.len() < usize::MAX,
    ensures
        tree_ordered(walk(t, index, parent, comps).0, walk(t, index, parent, comps).1),
    decreases comps.len(),
{
    if comps.len() > 0 {
        let path = directory_path(t[parent as int]).push(comps[0]);
        lemma_index_lookup(index, path);
        match index_lookup(index, path) {
            Some(i) => {
                let j = choose|j: int| 0 <= j < index.len() && (#[trigger] index[j]).0 == path && index[j].1 == i;
                assert(index[j].1 < t.len());
                lemma_walk_ordered(t, index, i, comps.drop_first());
            },
            None => {
                let child = t.len() as usize;
                let node = NodeView::Directory(DirectoryView { path, parent, children: seq![] });
                let index2 = index.push((path, child));
                lemma_push_child_ordered(t, index, node, index2);
                lemma_push_child(t, index, node);
                let t2 = add_child(t.push(node), parent as int, child);
                lemma_walk_ordered(t2, index2, child, comps.drop_first());
            },
        }
    }
}

/// Adding the paths of a package keeps the shape.
proof fn lemma_add_entries_ordered(t: Seq<NodeView>, index: Seq<(Seq<Seq<u8>>, usize)>, entries: Seq<PathsEntry>, package_dir: Seq<u8>)
    requires
        tree_ordered(t, index),
        forall|j: int| 0 <= j < entries.len() ==> entry_has_file_name(#[trigger] entries[j]),
        t.len() + total_components(entries) <= usize::MAX,
    ensures
        tree_ordered(add_entries(t, index, entries, package_dir).0, add_entries(t, index, entries, package_dir).1),
    decreases entries.len(),
{
    if entries.len() > 0 {
        let entry = entries[0];
        let rest = entries.drop_first();
        assert(entry.relative_path@.len() + total_components(rest) == total_components(entries));
        let comps = path_view(entry.relative_path@);
        lemma_walk(t, index, 0, comps.drop_last());
        lemma_walk_ordered(t, index, 0, comps.drop_last());
        let (t1, index1, parent) = walk(t, index, 0, comps.drop_last());
        let node = NodeView::File(
            FileView {
                name: comps.last(),
                parent,
                cache_base: package_dir,
                path_type: entry.path_type,
                replacement: entry_replacement(entry),
            },
        );
        lemma_push_child_ordered(t1, index1, node, index1);
        lemma_add_entry(t, index, entry, package_dir);
        let pair = add_entry(t, index, entry, package_dir);
        assert forall|j: int| 0 <= j < rest.len() implies entry_has_file_name(#[trigger] rest[j]) by {
            assert(rest[j] == entries[j + 1]);
        }
        lemma_add_entries_ordered(pair.0, pair.1, rest, package_dir);
        assert(add_entries(t, index, entries, package_dir) == add_entries(pair.0, pair.1, rest, package_dir));
    }
}

/// Adding the paths of a package to an environment of the shape that an
/// empty environment has keeps that shape: the root stays entry 0, every
/// entry comes after its parent and is listed exactly once, in its parent,
/// and the index names exactly the directories, each by its path.
pub proof fn law_adding_paths_keeps_tree_ordered(t: Seq<NodeView>, index: Seq<(Seq<Seq<u8>>, usize)>, entries: Seq<PathsEntry>, package_dir: Seq<u8>)
    requires
        tree_ordered(t, index),
        forall|j: int| 0 <= j < entries.len() ==> entry_has_file_name(#[trigger] entries[j]),
        t.len() + total_components(entries) <= usize::MAX,
    ensures
        tree_ordered(add_entries(t, index, entries, package_dir).0, add_entries(t, index, entries, package_dir).1),
{
    lemma_add_entries_ordered(t, index, entries, package_dir);
}

/// After the paths of a package are added to a well-formed environment
/// rooted at `.`, each of them is a file entry with its name, type,
/// replacement and package directory, listed in a directory whose path is
/// the path's parent components.
pub proof fn law_added_paths_are_listed(t: Seq<NodeView>, index: Seq<(Seq<Seq<u8>>, usize)>, entries: Seq<PathsEntry>, package_dir: Seq<u8>)
    requires
        tree_well_formed(t),
        index_well_formed(t, index),
        directory_path(t[0]) == Seq::<Seq<u8>>::empty(),
        forall|j: int| 0 <= j < entries.len() ==> entry_has_file_name(#[trigger] entries[j]),
        t.len() + total_components(entries) <= usize::MAX,
    ensures
        forall|j: int| 0 <= j < entries.len() ==> is_listed(add_entries(t, index, entries, package_dir).0, #[trigger] entries[j], package_dir),
        tree_extends(t, add_entries(t, index, entries, package_dir).0),
{
    lemma_add_entries(t, index, entries, package_dir);
}

/// After the paths of a package are added, each of them is a file entry
/// listed under the last component of its path, and a path with a
/// placeholder records, as its offsets, every non-overlapping occurrence of
/// the placeholder's bytes in the file's contents, leftmost first.
pub proof fn law_added_files_record_every_occurrence(
    t: Seq<NodeView>,
    index: Seq<(Seq<Seq<u8>>, usize)>,
    entries: Seq<PathsEntry>,
    package_dir: Seq<u8>,
    j: int,
)
    requires
        tree_well_formed(t),
        index_well_formed(t, index),
        directory_path(t[0]) == Seq::<Seq<u8>>::empty(),
        forall|k: int| 0 <= k < entries.len() ==> entry_has_file_name(#[trigger] entries[k]),
        t.len() + total_components(entries) <= usize::MAX,
        0 <= j < entries.len(),
    ensures
        exists|f: int| {
            &&& 0 <= f < add_entries(t, index, entries, package_dir).0.len()
            &&& #[trigger] add_entries(t, index, entries, package_dir).0[f] matches NodeView::File(fv) && {
                &&& fv.name == path_view(entries[j].relative_path@).last()
                &&& node_name(add_entries(t, index, entries, package_dir).0[f]) == path_view(entries[j].relative_path@).last()
                &&& fv.replacement == match entries[j].prefix_placeholder {
                    Some(pp) => Some(ReplacementView {
                        file_mode: pp.file_mode,
                        placeholder: pp.placeholder@,
                        offsets: occurrences(entries[j].source_bytes@, vstd::utf8::encode_utf8(pp.placeholder@)),
                    }),
                    None => None,
                }
            }
        },
{
    lemma_add_entries(t, index, entries, package_dir);
    let t2 = add_entries(t, index, entries, package_dir).0;
    assert(is_listed(t2, entries[j], package_dir));
    let f = choose|f: int| holds_entry(t2, entries[j], package_dir, f);
    assert(0 <= f < t2.len());
}

/// An environment that holds only its root directory `.` (entry 0, its own
/// parent), with the index naming the root: the start to which the paths of
/// the packages are added.
pub fn empty_environment() -> (environment: (Vec<FSMetadata>, DirectoryIndex))
    ensures
        tree_view(environment.0@) == seq![NodeView::Directory(DirectoryView { path: seq![], parent: 0, children: seq![] })],
        index_view(environment.1@) == seq![(Seq::<Seq<u8>>::empty(), 0usize)],
        tree_well_formed(tree_view(environment.0@)),
        index_well_formed(tree_view(environment.0@), index_view(environment.1@)),
        directory_path(tree_view(environment.0@)[0]) == Seq::<Seq<u8>>::empty(),
        tree_ordered(tree_view(environment.0@), index_view(environment.1@)),
{
    let root_path: Vec<Vec<u8>> = Vec::new();
    assert(path_view(root_path@) =~= Seq::<Seq<u8>>::empty());
    let root = FSMetadata::new_directory(root_path, 0);
    let mut metadata: Vec<FSMetadata> = Vec::new();
    metadata.push(root);
    let index_path: Vec<Vec<u8>> = Vec::new();
    assert(path_view(index_path@) =~= Seq::<Seq<u8>>::empty());
    let mut directory_indices: DirectoryIndex = Vec::new();
    directory_indices.push((index_path, 0));
    let ghost t = tree_view(metadata@);
    assert(t[0] == root@);
    assert(root@ == NodeView::Directory(DirectoryView { path: seq![], parent: 0, children: seq![] }));
    assert(t =~= seq![NodeView::Directory(DirectoryView { path: seq![], parent: 0, children: seq![] })]);
    assert(index_view(directory_indices@) =~= seq![(Seq::<Seq<u8>>::empty(), 0usize)]);
    (metadata, directory_indices)
}

} // verus!
