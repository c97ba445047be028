//! The mathematical model of the tree: a table of nodes, and each operation as a
//! function from one table to the next.

use vstd::prelude::*;
use crate::attr::{Attr, FileType, FsError, SetAttr, Timestamp};
use crate::bytes::{dot, dot_dot};
use crate::trigger::{is_sequence_name, sequence_events, single_events, TriggerEvent};

verus! {

/// The id of the root directory.
pub const ROOT_ID: u64 = 1;

/// What a node holds.
pub enum Contents {
    /// A file's bytes.
    File(Seq<u8>),
    /// A directory's child ids, in enumeration order.
    Directory(Seq<u64>),
}

/// One node of the tree.
pub struct Node {
    pub id: u64,
    pub attr: Attr,
    pub name: Seq<u8>,
    pub parent: u64,
    pub contents: Contents,
}

/// What a read answers: the bytes, whether the read reached the end of the file, and
/// the triggers that the read emits, in emission order.
pub struct ReadView {
    pub data: Seq<u8>,
    pub eof: bool,
    pub events: Seq<TriggerEvent>,
}

/// One entry of a directory listing.
pub struct EntryView {
    pub fileid: u64,
    pub name: Seq<u8>,
    pub attr: Attr,
}

/// One page of a directory listing, and whether it reaches the end of the child list.
pub struct PageView {
    pub entries: Seq<EntryView>,
    pub end: bool,
}

/// `bytes` cut or filled with zeros to the length `len`.
pub open spec fn resized(bytes: Seq<u8>, len: nat) -> Seq<u8> {
    Seq::new(len, |i: int| if i < bytes.len() { bytes[i] } else { 0u8 })
}

/// `bytes` after `data` is written at `offset`: filled with zeros up to the end of the
/// written range where that lies beyond the old end, and never shortened.
pub open spec fn overwritten(bytes: Seq<u8>, offset: nat, data: Seq<u8>) -> Seq<u8> {
    let len = if offset + data.len() > bytes.len() { offset + data.len() } else { bytes.len() };
    Seq::new(
        len,
        |i: int|
            if offset <= i < offset + data.len() {
                data[i - offset]
            } else if i < bytes.len() {
                bytes[i]
            } else {
                0u8
            },
    )
}

/// The whole tree: the node table, indexed by id, and the id of the root.
pub struct FsState {
    pub nodes: Seq<Node>,
    pub root: u64,
}

impl Node {
    /// A file as it is first made: default attributes, size taken from `bytes`.
    pub open spec fn file(name: Seq<u8>, id: u64, parent: u64, bytes: Seq<u8>) -> Node {
        Node {
            id: id,
            attr: Attr::of_file(id, bytes.len() as u64),
            name: name,
            parent: parent,
            contents: Contents::File(bytes),
        }
    }

    /// A directory as it is first made.
    pub open spec fn dir(name: Seq<u8>, id: u64, parent: u64, children: Seq<u64>) -> Node {
        Node {
            id: id,
            attr: Attr::of_dir(id),
            name: name,
            parent: parent,
            contents: Contents::Directory(children),
        }
    }

    /// Whether the node is a directory.
    pub open spec fn is_dir(self) -> bool {
        self.contents is Directory
    }

    /// Whether the node is a file.
    pub open spec fn is_file(self) -> bool {
        self.contents is File
    }

    /// The child ids of a directory; empty for a file.
    pub open spec fn children(self) -> Seq<u64> {
        match self.contents {
            Contents::Directory(c) => c,
            Contents::File(_) => Seq::empty(),
        }
    }

    /// The bytes of a file; empty for a directory.
    pub open spec fn bytes(self) -> Seq<u8> {
        match self.contents {
            Contents::File(b) => b,
            Contents::Directory(_) => Seq::empty(),
        }
    }

    /// The node sits at position `at` and its attributes agree with what it holds:
    /// a file's size and used are its byte length, a directory's are zero.
    pub open spec fn consistent(self, at: int) -> bool {
        &&& self.id == at
        &&& self.attr.fileid == at
        &&& match self.contents {
            Contents::File(b) => {
                &&& self.attr.ftype == FileType::Regular
                &&& self.attr.size == b.len()
                &&& self.attr.used == b.len()
            },
            Contents::Directory(_) => {
                &&& self.attr.ftype == FileType::Directory
                &&& self.attr.size == 0
                &&& self.attr.used == 0
            },
        }
    }
}

impl FsState {
    /// Whether `id` is a slot of the table.
    pub open spec fn has(self, id: u64) -> bool {
        (id as int) < self.nodes.len()
    }

    /// Whether `id` is a slot that holds a directory.
    pub open spec fn is_dir(self, id: u64) -> bool {
        self.has(id) && self.nodes[id as int].is_dir()
    }

    /// Whether `id` is a slot that holds a file.
    pub open spec fn is_file(self, id: u64) -> bool {
        self.has(id) && self.nodes[id as int].is_file()
    }

    /// The child list of directory `dir`.
    pub open spec fn children(self, dir: u64) -> Seq<u64> {
        self.nodes[dir as int].children()
    }

    /// The name of the node that stands at position `k` of `dir`'s child list.
    pub open spec fn child_name(self, dir: u64, k: int) -> Seq<u8> {
        self.nodes[self.children(dir)[k] as int].name
    }

    /// The table's invariant. The root is slot 1, a directory that is its own parent.
    /// Every node sits at the position that is its id, and its attributes agree with what
    /// it holds. Every id in a child list is a slot above the sentinel whose node names the
    /// listing directory as its parent, and no child list holds an id twice. So no node is
    /// in two child lists. Names need not differ among siblings: nothing refuses a second
    /// child of the same name.
    pub open spec fn wf(self) -> bool {
        &&& self.root == ROOT_ID
        &&& 2 <= self.nodes.len() <= u64::MAX
        &&& self.nodes[ROOT_ID as int].is_dir()
        &&& self.nodes[ROOT_ID as int].parent == ROOT_ID
        &&& forall|i: int| 0 <= i < self.nodes.len() ==> (#[trigger] self.nodes[i]).consistent(i)
        &&& forall|d: int, k: int|
            0 <= d < self.nodes.len() && 0 <= k < self.nodes[d].children().len() ==> {
                let c = #[trigger] self.nodes[d].children()[k];
                &&& 0 < c < self.nodes.len()
                &&& self.nodes[c as int].parent == d
            }
        &&& forall|d: int|
            0 <= d < self.nodes.len() ==> (#[trigger] self.nodes[d]).children().no_duplicates()
    }

    /// Whether some child of `dir` bears `name`.
    pub open spec fn has_child_named(self, dir: u64, name: Seq<u8>) -> bool {
        exists|k: int| 0 <= k < self.children(dir).len() && #[trigger] self.child_name(dir, k) == name
    }

    /// Whether position `k` is the first in `dir`'s child list whose node bears `name`.
    pub open spec fn is_first_named(self, dir: u64, name: Seq<u8>, k: int) -> bool {
        &&& 0 <= k < self.children(dir).len()
        &&& self.child_name(dir, k) == name
        &&& forall|j: int| 0 <= j < k ==> #[trigger] self.child_name(dir, j) != name
    }

    /// The position of the first child of `dir` that bears `name`.
    pub open spec fn index_of_child(self, dir: u64, name: Seq<u8>) -> int {
        choose|k: int| self.is_first_named(dir, name, k)
    }

    /// The id of the first child of `dir` that bears `name`.
    pub open spec fn child_named(self, dir: u64, name: Seq<u8>) -> u64 {
        self.children(dir)[self.index_of_child(dir, name)]
    }

    /// Below any position that bears `name` there is a first one.
    proof fn lemma_first_named_below(self, dir: u64, name: Seq<u8>, k: int)
        requires
            0 <= k < self.children(dir).len(),
            self.child_name(dir, k) == name,
        ensures
            exists|f: int| self.is_first_named(dir, name, f),
        decreases k,
    {
        if exists|j: int| 0 <= j < k && self.child_name(dir, j) == name {
            let j = choose|j: int| 0 <= j < k && self.child_name(dir, j) == name;
            self.lemma_first_named_below(dir, name, j);
        } else {
            assert(self.is_first_named(dir, name, k));
        }
    }

    /// Where some child bears `name`, `index_of_child` is the first position that does.
    pub proof fn lemma_index_of_child(self, dir: u64, name: Seq<u8>)
        requires
            self.has_child_named(dir, name),
        ensures
            self.is_first_named(dir, name, self.index_of_child(dir, name)),
    {
        let k = choose|k: int| 0 <= k < self.children(dir).len() && #[trigger] self.child_name(dir, k) == name;
        self.lemma_first_named_below(dir, name, k);
    }

    /// The first position that bears a name is the one that `index_of_child` names.
    pub proof fn lemma_first_named_is_chosen(self, dir: u64, name: Seq<u8>, k: int)
        requires
            self.is_first_named(dir, name, k),
        ensures
            self.has_child_named(dir, name),
            self.index_of_child(dir, name) == k,
            self.child_named(dir, name) == self.children(dir)[k],
    {
        let c = self.index_of_child(dir, name);
        assert(self.is_first_named(dir, name, c));
        if c < k {
            assert(self.child_name(dir, c) != name);
        } else if k < c {
            assert(self.child_name(dir, k) != name);
        }
    }

    /// What a lookup of `name` under `dir` answers.
    pub open spec fn lookup(self, dir: u64, name: Seq<u8>) -> Result<u64, FsError> {
        if !self.has(dir) {
            Err(FsError::NotFound)
        } else if !self.is_dir(dir) {
            Err(FsError::NotDirectory)
        } else if name == dot() {
            Ok(dir)
        } else if name == dot_dot() {
            Ok(self.nodes[dir as int].parent)
        } else if self.has_child_named(dir, name) {
            Ok(self.child_named(dir, name))
        } else {
            Err(FsError::NotFound)
        }
    }

    /// What asking for the attributes of `id` answers.
    pub open spec fn getattr(self, id: u64) -> Result<Attr, FsError> {
        if self.has(id) {
            Ok(self.nodes[id as int].attr)
        } else {
            Err(FsError::NotFound)
        }
    }

    /// The bytes of file `id`.
    pub open spec fn bytes(self, id: u64) -> Seq<u8> {
        self.nodes[id as int].bytes()
    }

    /// The names of the nodes in `dir`'s child list, in list order.
    pub open spec fn child_names(self, dir: u64) -> Seq<Seq<u8>> {
        self.children(dir).map_values(|c: u64| self.nodes[c as int].name)
    }

    /// The triggers that a read of file `id` emits. A sequence trigger emits those of the
    /// nodes in its parent's child list; where the parent is no directory it emits none.
    /// Any other file emits the one trigger that its name stands for, or none.
    pub open spec fn read_events(self, id: u64) -> Seq<TriggerEvent> {
        let node = self.nodes[id as int];
        if is_sequence_name(node.name) {
            if self.is_dir(node.parent) {
                sequence_events(self.child_names(node.parent))
            } else {
                Seq::empty()
            }
        } else {
            single_events(node.name)
        }
    }

    /// What a read of `count` bytes at `offset` of `id` answers.
    pub open spec fn read(self, id: u64, offset: u64, count: u32) -> Result<ReadView, FsError> {
        if !self.has(id) {
            Err(FsError::NotFound)
        } else if self.is_dir(id) {
            Err(FsError::IsDirectory)
        } else {
            let bytes = self.bytes(id);
            let start = if offset < bytes.len() { offset as int } else { bytes.len() as int };
            let end = if offset + count < bytes.len() { offset + count } else { bytes.len() as int };
            Ok(
                ReadView {
                    data: bytes.subrange(start, end),
                    eof: offset + count >= bytes.len(),
                    events: self.read_events(id),
                },
            )
        }
    }

    /// The table with the node at `id` replaced.
    pub open spec fn with_node(self, id: u64, node: Node) -> FsState {
        FsState { nodes: self.nodes.update(id as int, node), ..self }
    }

    /// The table after `data` is written to `id` at `offset`. A file that ends before the
    /// end of the written range is first filled with zeros up to there; a write within the
    /// file's length overwrites in place. Size and used follow the new length. Anything
    /// but a file stays as it is.
    pub open spec fn write(self, id: u64, offset: u64, data: Seq<u8>) -> FsState {
        if self.is_file(id) {
            let node = self.nodes[id as int];
            let bytes = overwritten(node.bytes(), offset as nat, data);
            self.with_node(
                id,
                Node { attr: node.attr.with_size(bytes.len() as u64), contents: Contents::File(bytes), ..node },
            )
        } else {
            self
        }
    }

    /// The table after `change` is applied to the attributes of `id`, the server's clock
    /// reading `now`. Owner and timestamps change on any node. A new size cuts a file's
    /// bytes or fills them with zeros, and sets its size and used; on a directory it is
    /// ignored. A missing id changes nothing.
    pub open spec fn setattr(self, id: u64, change: SetAttr, now: Timestamp) -> FsState {
        if self.has(id) {
            let node = self.nodes[id as int];
            let attr = node.attr.with_change(change, now);
            match (node.contents, change.size) {
                (Contents::File(b), Some(s)) => self.with_node(
                    id,
                    Node { attr: attr.with_size(s), contents: Contents::File(resized(b, s as nat)), ..node },
                ),
                _ => self.with_node(id, Node { attr: attr, ..node }),
            }
        } else {
            self
        }
    }

    /// The listing entry of node `id`.
    pub open spec fn entry(self, id: u64) -> EntryView {
        EntryView { fileid: id, name: self.nodes[id as int].name, attr: self.nodes[id as int].attr }
    }

    /// Whether `start_after` is a resume point of `dir`'s listing: 0, which stands for the
    /// beginning, or an id in the child list.
    pub open spec fn is_cookie(self, dir: u64, start_after: u64) -> bool {
        start_after == 0 || self.children(dir).contains(start_after)
    }

    /// The position in `dir`'s child list at which a listing resumed after `start_after`
    /// begins.
    pub open spec fn page_start(self, dir: u64, start_after: u64) -> int {
        if start_after == 0 {
            0
        } else {
            self.children(dir).index_of(start_after) + 1
        }
    }

    /// The position in `dir`'s child list before which a page of at most `max_entries`
    /// entries that begins at `start` ends.
    pub open spec fn page_stop(self, dir: u64, start: int, max_entries: nat) -> int {
        if start + max_entries < self.children(dir).len() {
            start + max_entries
        } else {
            self.children(dir).len() as int
        }
    }

    /// What a listing of `dir` answers: up to `max_entries` entries that follow the
    /// resume point, in child-list order, and whether they reach the end of the list.
    pub open spec fn readdir(self, dir: u64, start_after: u64, max_entries: nat) -> Result<
        PageView,
        FsError,
    > {
        if !self.has(dir) {
            Err(FsError::NotFound)
        } else if !self.is_dir(dir) {
            Err(FsError::NotDirectory)
        } else if !self.is_cookie(dir, start_after) {
            Err(FsError::BadCookie)
        } else {
            let start = self.page_start(dir, start_after);
            let stop = self.page_stop(dir, start, max_entries);
            Ok(
                PageView {
                    entries: self.children(dir).subrange(start, stop).map_values(|c: u64| self.entry(c)),
                    end: stop == self.children(dir).len(),
                },
            )
        }
    }

    /// Whether `name` can be removed from `dir`: `dir` is a directory with a child of
    /// that name.
    pub open spec fn can_remove(self, dir: u64, name: Seq<u8>) -> bool {
        self.is_dir(dir) && self.has_child_named(dir, name)
    }

    /// What a removal answers: success where the name can be removed, else that it was not
    /// found.
    pub open spec fn remove_result(self, dir: u64, name: Seq<u8>) -> Result<(), FsError> {
        if self.can_remove(dir, name) {
            Ok(())
        } else {
            Err(FsError::NotFound)
        }
    }

    /// The table after `name` is removed from `dir`: the first child of that name leaves
    /// the child list, and its slot stays.
    pub open spec fn remove(self, dir: u64, name: Seq<u8>) -> FsState {
        if self.can_remove(dir, name) {
            self.unlink_at(dir, self.index_of_child(dir, name))
        } else {
            self
        }
    }

    /// Whether `from_name` under `from_dir` can be renamed into `to_dir`: the source is a
    /// directory with a child of that name, that child is a file, and `to_dir` is a slot
    /// of the table.
    pub open spec fn can_rename(self, from_dir: u64, from_name: Seq<u8>, to_dir: u64) -> bool {
        &&& self.is_dir(from_dir)
        &&& self.has_child_named(from_dir, from_name)
        &&& self.is_file(self.child_named(from_dir, from_name))
        &&& self.has(to_dir)
    }

    /// What a rename answers: success where the source can be renamed, else that it was
    /// not found.
    pub open spec fn rename_result(self, from_dir: u64, from_name: Seq<u8>, to_dir: u64) -> Result<
        (),
        FsError,
    > {
        if self.can_rename(from_dir, from_name, to_dir) {
            Ok(())
        } else {
            Err(FsError::NotFound)
        }
    }

    /// The table after a rename: the file leaves `from_dir`'s child list, its node is made
    /// anew with the new name and parent and the same id and bytes, and it joins the end
    /// of `to_dir`'s child list. Where `to_dir` is a file the node is linked nowhere.
    pub open spec fn rename(self, from_dir: u64, from_name: Seq<u8>, to_dir: u64, to_name: Seq<u8>) -> FsState {
        if self.can_rename(from_dir, from_name, to_dir) {
            let id = self.child_named(from_dir, from_name);
            self.unlink_at(from_dir, self.index_of_child(from_dir, from_name)).with_node(
                id,
                Node::file(to_name, id, to_dir, self.bytes(id)),
            ).link(to_dir, id)
        } else {
            self
        }
    }

    /// The id that the next new node gets: the table's length.
    pub open spec fn next_id(self) -> u64 {
        self.nodes.len() as u64
    }

    /// The table with `node` appended.
    pub open spec fn append(self, node: Node) -> FsState {
        FsState { nodes: self.nodes.push(node), ..self }
    }

    /// The table with `child` added at the end of `dir`'s child list.
    /// Where `dir` is no directory the table stays as it is.
    pub open spec fn link(self, dir: u64, child: u64) -> FsState {
        if self.is_dir(dir) {
            let d = self.nodes[dir as int];
            let linked = Node { contents: Contents::Directory(d.children().push(child)), ..d };
            FsState { nodes: self.nodes.update(dir as int, linked), ..self }
        } else {
            self
        }
    }

    /// The table with position `k` taken out of `dir`'s child list.
    pub open spec fn unlink_at(self, dir: u64, k: int) -> FsState {
        let d = self.nodes[dir as int];
        let unlinked = Node { contents: Contents::Directory(d.children().remove(k)), ..d };
        FsState { nodes: self.nodes.update(dir as int, unlinked), ..self }
    }

    /// The table after an empty file `name` is created under `dir`.
    pub open spec fn create(self, dir: u64, name: Seq<u8>) -> FsState {
        self.append(Node::file(name, self.next_id(), dir, Seq::empty())).link(dir, self.next_id())
    }

    /// The table after an empty directory `name` is made under `dir`.
    pub open spec fn mkdir(self, dir: u64, name: Seq<u8>) -> FsState {
        self.append(Node::dir(name, self.next_id(), dir, Seq::empty())).link(dir, self.next_id())
    }

    /// Appending a consistent node that has no children keeps the invariant.
    pub proof fn lemma_append_wf(self, node: Node)
        requires
            self.wf(),
            self.nodes.len() < u64::MAX,
            node.consistent(self.nodes.len() as int),
            node.children().len() == 0,
        ensures
            self.append(node).wf(),
    {
        let t = self.append(node);
        assert forall|d: int, k: int|
            0 <= d < t.nodes.len() && 0 <= k < t.nodes[d].children().len() implies {
            let c = #[trigger] t.nodes[d].children()[k];
            &&& 0 < c < t.nodes.len()
            &&& t.nodes[c as int].parent == d
        } by {
            assert(d < self.nodes.len());
            let c = self.nodes[d].children()[k];
            assert(0 < c < self.nodes.len());
        }
    }

    /// Linking a node that is in no child list into the directory that is its parent
    /// keeps the invariant.
    pub proof fn lemma_link_wf(self, dir: u64, child: u64)
        requires
            self.wf(),
            0 < child < self.nodes.len(),
            self.nodes[child as int].parent == dir,
            forall|d: int|
                0 <= d < self.nodes.len() ==> !(#[trigger] self.nodes[d]).children().contains(child),
        ensures
            self.link(dir, child).wf(),
    {
        let t = self.link(dir, child);
        if self.is_dir(dir) {
            let old_kids = self.nodes[dir as int].children();
            let new_kids = old_kids.push(child);
            assert(t.nodes[dir as int].children() == new_kids);
            assert forall|i: int| 0 <= i < t.nodes.len() implies (#[trigger] t.nodes[i]).consistent(
                i,
            ) by {
                assert(self.nodes[i].consistent(i));
            }
            assert forall|d: int, k: int|
                0 <= d < t.nodes.len() && 0 <= k < t.nodes[d].children().len() implies {
                let c = #[trigger] t.nodes[d].children()[k];
                &&& 0 < c < t.nodes.len()
                &&& t.nodes[c as int].parent == d
            } by {
                if d == dir && k == old_kids.len() {
                } else {
                    let c = self.nodes[d].children()[k];
                    assert(0 < c < self.nodes.len());
                    assert(self.nodes[c as int].parent == d);
                }
            }
            assert forall|d: int| 0 <= d < t.nodes.len() implies (#[trigger] t.nodes[d]).children().no_duplicates() by {
                assert(self.nodes[d].children().no_duplicates());
                if d == dir {
                    assert(!self.nodes[d].children().contains(child));
                    assert forall|i: int, j: int|
                        0 <= i < new_kids.len() && 0 <= j < new_kids.len() && i != j implies new_kids[i]
                        != new_kids[j] by {
                        if i < old_kids.len() {
                            assert(old_kids.contains(old_kids[i]));
                        }
                        if j < old_kids.len() {
                            assert(old_kids.contains(old_kids[j]));
                        }
                    }
                }
            }
        }
    }

    /// Creating a file keeps the invariant.
    pub proof fn lemma_create_wf(self, dir: u64, name: Seq<u8>)
        requires
            self.wf(),
            self.nodes.len() < u64::MAX,
        ensures
            self.create(dir, name).wf(),
    {
        let id = self.next_id();
        let mid = self.append(Node::file(name, id, dir, Seq::empty()));
        self.lemma_append_wf(Node::file(name, id, dir, Seq::empty()));
        self.lemma_fresh_id_unlinked(Node::file(name, id, dir, Seq::empty()));
        mid.lemma_link_wf(dir, id);
    }

    /// Making a directory keeps the invariant.
    pub proof fn lemma_mkdir_wf(self, dir: u64, name: Seq<u8>)
        requires
            self.wf(),
            self.nodes.len() < u64::MAX,
        ensures
            self.mkdir(dir, name).wf(),
    {
        let id = self.next_id();
        let mid = self.append(Node::dir(name, id, dir, Seq::empty()));
        self.lemma_append_wf(Node::dir(name, id, dir, Seq::empty()));
        self.lemma_fresh_id_unlinked(Node::dir(name, id, dir, Seq::empty()));
        mid.lemma_link_wf(dir, id);
    }

    /// A node that has just been appended is in no child list.
    pub proof fn lemma_fresh_id_unlinked(self, node: Node)
        requires
            self.wf(),
            node.children().len() == 0,
        ensures
            forall|d: int|
                0 <= d < self.append(node).nodes.len() ==> !(#[trigger] self.append(
                    node,
                ).nodes[d]).children().contains(self.next_id()),
    {
        let t = self.append(node);
        assert forall|d: int| 0 <= d < t.nodes.len() implies !(#[trigger] t.nodes[d]).children().contains(
            self.next_id(),
        ) by {
            if d < self.nodes.len() {
                let kids = self.nodes[d].children();
                if kids.contains(self.next_id()) {
                    let k = choose|k: int| 0 <= k < kids.len() && kids[k] == self.next_id();
                    assert(self.nodes[d].children()[k] < self.nodes.len());
                }
            }
        }
    }

    /// Replacing a node by one that is consistent and has the same parent and children
    /// keeps the invariant.
    pub proof fn lemma_with_node_wf(self, id: u64, node: Node)
        requires
            self.wf(),
            self.has(id),
            node.consistent(id as int),
            node.parent == self.nodes[id as int].parent,
            node.children() == self.nodes[id as int].children(),
            node.is_dir() == self.nodes[id as int].is_dir(),
        ensures
            self.with_node(id, node).wf(),
    {
        let t = self.with_node(id, node);
        assert forall|i: int| 0 <= i < t.nodes.len() implies (#[trigger] t.nodes[i]).consistent(i) by {
            assert(self.nodes[i].consistent(i));
        }
        assert forall|d: int, k: int|
            0 <= d < t.nodes.len() && 0 <= k < t.nodes[d].children().len() implies {
            let c = #[trigger] t.nodes[d].children()[k];
            &&& 0 < c < t.nodes.len()
            &&& t.nodes[c as int].parent == d
        } by {
            let c = self.nodes[d].children()[k];
            assert(0 < c < self.nodes.len());
            assert(self.nodes[c as int].parent == d);
        }
        assert forall|d: int| 0 <= d < t.nodes.len() implies (#[trigger] t.nodes[d]).children().no_duplicates() by {
            assert(self.nodes[d].children().no_duplicates());
        }
    }

    /// Writing keeps the invariant.
    pub proof fn lemma_write_wf(self, id: u64, offset: u64, data: Seq<u8>)
        requires
            self.wf(),
            self.is_file(id) ==> offset + data.len() <= u64::MAX,
        ensures
            self.write(id, offset, data).wf(),
    {
        if self.is_file(id) {
            let node = self.nodes[id as int];
            assert(node.consistent(id as int));
            let bytes = overwritten(node.bytes(), offset as nat, data);
            self.lemma_with_node_wf(
                id,
                Node { attr: node.attr.with_size(bytes.len() as u64), contents: Contents::File(bytes), ..node },
            );
        }
    }

    /// Changing attributes keeps the invariant.
    pub proof fn lemma_setattr_wf(self, id: u64, change: SetAttr, now: Timestamp)
        requires
            self.wf(),
        ensures
            self.setattr(id, change, now).wf(),
    {
        if self.has(id) {
            let node = self.nodes[id as int];
            assert(node.consistent(id as int));
            let attr = node.attr.with_change(change, now);
            match (node.contents, change.size) {
                (Contents::File(b), Some(s)) => {
                    self.lemma_with_node_wf(
                        id,
                        Node { attr: attr.with_size(s), contents: Contents::File(resized(b, s as nat)), ..node },
                    );
                },
                _ => {
                    self.lemma_with_node_wf(id, Node { attr: attr, ..node });
                },
            }
        }
    }

    /// Taking a child out of a directory's list keeps the invariant, and leaves the child
    /// in no list at all.
    pub proof fn lemma_unlink_wf(self, dir: u64, k: int)
        requires
            self.wf(),
            self.is_dir(dir),
            0 <= k < self.children(dir).len(),
        ensures
            self.unlink_at(dir, k).wf(),
            forall|d: int|
                0 <= d < self.nodes.len() ==> !(#[trigger] self.unlink_at(dir, k).nodes[d]).children().contains(
                    self.children(dir)[k],
                ),
    {
        let t = self.unlink_at(dir, k);
        let kids = self.children(dir);
        let rest = kids.remove(k);
        let gone = kids[k];
        assert(self.nodes[dir as int].children() == kids);
        assert(t.nodes[dir as int].children() == rest);
        assert(self.nodes[dir as int].consistent(dir as int));
        assert(kids.no_duplicates());
        assert forall|i: int| 0 <= i < t.nodes.len() implies (#[trigger] t.nodes[i]).consistent(i) by {
            assert(self.nodes[i].consistent(i));
        }
        assert forall|d: int, j: int|
            0 <= d < t.nodes.len() && 0 <= j < t.nodes[d].children().len() implies {
            let c = #[trigger] t.nodes[d].children()[j];
            &&& 0 < c < t.nodes.len()
            &&& t.nodes[c as int].parent == d
        } by {
            if d == dir {
                let jj = if j < k { j } else { j + 1 };
                assert(rest[j] == kids[jj]);
                let c = self.nodes[d].children()[jj];
                assert(0 < c < self.nodes.len());
                assert(self.nodes[c as int].parent == d);
            } else {
                let c = self.nodes[d].children()[j];
                assert(0 < c < self.nodes.len());
                assert(self.nodes[c as int].parent == d);
            }
        }
        assert forall|d: int| 0 <= d < t.nodes.len() implies (#[trigger] t.nodes[d]).children().no_duplicates() by {
            assert(self.nodes[d].children().no_duplicates());
            if d == dir {
                assert forall|i: int, j: int| 0 <= i < rest.len() && 0 <= j < rest.len() && i != j implies rest[i]
                    != rest[j] by {
                    let ii = if i < k { i } else { i + 1 };
                    let jj = if j < k { j } else { j + 1 };
                    assert(rest[i] == kids[ii]);
                    assert(rest[j] == kids[jj]);
                }
            }
        }
        assert forall|d: int| 0 <= d < self.nodes.len() implies !(#[trigger] t.nodes[d]).children().contains(
            gone,
        ) by {
            let list = t.nodes[d].children();
            if list.contains(gone) {
                let j = choose|j: int| 0 <= j < list.len() && list[j] == gone;
                if d == dir {
                    let jj = if j < k { j } else { j + 1 };
                    assert(rest[j] == kids[jj]);
                } else {
                    let c = self.nodes[d].children()[j];
                    assert(self.nodes[c as int].parent == d);
                    let g = self.nodes[dir as int].children()[k];
                    assert(self.nodes[g as int].parent == dir);
                }
            }
        }
    }

    /// Removing a name keeps the invariant.
    pub proof fn lemma_remove_wf(self, dir: u64, name: Seq<u8>)
        requires
            self.wf(),
        ensures
            self.remove(dir, name).wf(),
    {
        if self.can_remove(dir, name) {
            let k = self.index_of_child(dir, name);
            self.lemma_index_of_child(dir, name);
            self.lemma_unlink_wf(dir, k);
        }
    }

    /// Renaming keeps the invariant.
    pub proof fn lemma_rename_wf(self, from_dir: u64, from_name: Seq<u8>, to_dir: u64, to_name: Seq<u8>)
        requires
            self.wf(),
        ensures
            self.rename(from_dir, from_name, to_dir, to_name).wf(),
    {
        if self.can_rename(from_dir, from_name, to_dir) {
            let k = self.index_of_child(from_dir, from_name);
            self.lemma_index_of_child(from_dir, from_name);
            let id = self.child_named(from_dir, from_name);
            assert(id == self.nodes[from_dir as int].children()[k]);
            assert(0 < id < self.nodes.len());
            let a = self.unlink_at(from_dir, k);
            self.lemma_unlink_wf(from_dir, k);
            let node = Node::file(to_name, id, to_dir, self.bytes(id));
            assert(self.nodes[id as int].consistent(id as int));
            assert(a.nodes[id as int] == self.nodes[id as int]);
            let b = a.with_node(id, node);
            assert(b.wf()) by {
                assert forall|i: int| 0 <= i < b.nodes.len() implies (#[trigger] b.nodes[i]).consistent(i) by {
                    assert(a.nodes[i].consistent(i));
                }
                assert forall|d: int, j: int|
                    0 <= d < b.nodes.len() && 0 <= j < b.nodes[d].children().len() implies {
                    let c = #[trigger] b.nodes[d].children()[j];
                    &&& 0 < c < b.nodes.len()
                    &&& b.nodes[c as int].parent == d
                } by {
                    let c = a.nodes[d].children()[j];
                    assert(0 < c < a.nodes.len());
                    assert(a.nodes[c as int].parent == d);
                    assert(a.nodes[d].children().contains(c));
                    assert(c != id);
                }
                assert forall|d: int| 0 <= d < b.nodes.len() implies (#[trigger] b.nodes[d]).children().no_duplicates() by {
                    assert(a.nodes[d].children().no_duplicates());
                }
            }
            assert forall|d: int| 0 <= d < b.nodes.len() implies !(#[trigger] b.nodes[d]).children().contains(
                id,
            ) by {
                assert(!a.nodes[d].children().contains(id));
            }
            b.lemma_link_wf(to_dir, id);
        }
    }
}

} // verus!
