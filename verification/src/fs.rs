//! The node table and the operations on it.

use vstd::prelude::*;
use vstd::slice::{slice_subrange, slice_to_vec};
use crate::attr::{Attr, FsError, SetAttr, Timestamp};
use crate::clock::{server_time, NANOS_PER_SECOND};
use crate::bytes::{bytes_eq, is_dot, is_dot_dot};
use crate::entry::{make_dir, make_file, nodes_of, FSContents, FSEntry};
use crate::order::names_of;
use crate::seed::{seed_entries, seed_state};
use crate::state::{overwritten, resized, EntryView, FsState, Node, PageView, ReadView, ROOT_ID};
use crate::trigger::{expand_sequence, is_sequence_trigger, single_trigger, TriggerEvent};

verus! {

/// What a read hands back.
#[derive(Debug, Clone)]
pub struct ReadResult {
    /// The bytes read.
    pub data: Vec<u8>,
    /// Whether the read reached the end of the file.
    pub eof: bool,
    /// The triggers that the read emits, in the order in which they are to be played.
    pub events: Vec<TriggerEvent>,
}

impl View for ReadResult {
    type V = ReadView;

    open spec fn view(&self) -> ReadView {
        ReadView { data: self.data@, eof: self.eof, events: self.events@ }
    }
}

/// One entry of a directory listing.
#[derive(Debug, Clone)]
pub struct DirEntry {
    pub fileid: u64,
    pub name: Vec<u8>,
    pub attr: Attr,
}

/// One page of a directory listing.
#[derive(Debug, Clone)]
pub struct ReadDirResult {
    /// The entries, in child-list order.
    pub entries: Vec<DirEntry>,
    /// Whether the page reaches the end of the child list.
    pub end: bool,
}

impl View for DirEntry {
    type V = EntryView;

    open spec fn view(&self) -> EntryView {
        EntryView { fileid: self.fileid, name: self.name@, attr: self.attr }
    }
}

impl View for ReadDirResult {
    type V = PageView;

    open spec fn view(&self) -> PageView {
        PageView { entries: self.entries@.map_values(|e: DirEntry| e@), end: self.end }
    }
}

/// The tree: every node ever made, each at the position that is its id.
#[derive(Debug)]
pub struct SynthFS {
    entries: Vec<FSEntry>,
    rootdir: u64,
}

impl View for SynthFS {
    type V = FsState;

    closed spec fn view(&self) -> FsState {
        FsState { nodes: nodes_of(self.entries@), root: self.rootdir }
    }
}

impl Default for SynthFS {
    /// The tree that every table starts with.
    fn default() -> (fs: SynthFS)
        ensures
            fs.wf(),
            fs@ == seed_state(),
    {
        SynthFS { entries: seed_entries(), rootdir: ROOT_ID }
    }
}

impl SynthFS {
    /// The invariant that every operation keeps.
    pub open spec fn wf(&self) -> bool {
        self@.wf()
    }

    /// How the model relates to the stored entries, slot by slot.
    proof fn lemma_view(&self)
        ensures
            self@.root == self.rootdir,
            self@.nodes.len() == self.entries@.len(),
            self@.nodes.len() <= usize::MAX,
            forall|i: int| 0 <= i < self.entries@.len() ==> #[trigger] self@.nodes[i] == self.entries@[i]@,
    {
        assert(self.entries.len() == self.entries@.len());
    }

    /// The id of the root directory.
    pub fn root_dir(&self) -> (id: u64)
        requires
            self.wf(),
        ensures
            id == ROOT_ID,
            id == self@.root,
    {
        self.rootdir
    }

    /// The number of slots in the table, which is the id that the next new node gets.
    pub fn len(&self) -> (n: u64)
        requires
            self.wf(),
        ensures
            n == self@.nodes.len(),
            n == self@.next_id(),
    {
        self.entries.len() as u64
    }

    /// Finds the first child of `dirid` that bears `filename`: its position in the child
    /// list, and its id.
    fn find_child(&self, dirid: u64, filename: &[u8]) -> (found: Option<(usize, u64)>)
        requires
            self.wf(),
            self@.is_dir(dirid),
        ensures
            found is Some <==> self@.has_child_named(dirid, filename@),
            found matches Some((k, id)) ==> {
                &&& k == self@.index_of_child(dirid, filename@)
                &&& id == self@.child_named(dirid, filename@)
                &&& self@.is_first_named(dirid, filename@, k as int)
            },
    {
        proof {
            self.lemma_view();
        }
        match &self.entries[dirid as usize].contents {
            FSContents::File(_) => None,
            FSContents::Directory(kids) => {
                let mut k: usize = 0;
                while k < kids.len()
                    invariant
                        self.wf(),
                        self@.is_dir(dirid),
                        kids@ == self@.children(dirid),
                        k <= kids.len(),
                        forall|j: int| 0 <= j < k ==> #[trigger] self@.child_name(dirid, j) != filename@,
                    decreases kids.len() - k,
                {
                    let c: u64 = kids[k];
                    proof {
                        self.lemma_view();
                        assert(c == self@.nodes[dirid as int].children()[k as int]);
                    }
                    if bytes_eq(self.entries[c as usize].name.as_slice(), filename) {
                        proof {
                            assert(self@.child_name(dirid, k as int) == filename@);
                            self@.lemma_first_named_is_chosen(dirid, filename@, k as int);
                        }
                        return Some((k, c));
                    }
                    k += 1;
                }
                None
            },
        }
    }

    /// Resolves `filename` under directory `dirid`: `.` is the directory itself, `..` its parent,
    /// any other name the first child that bears it.
    pub fn lookup(&self, dirid: u64, filename: &[u8]) -> (r: Result<u64, FsError>)
        requires
            self.wf(),
        ensures
            r == self@.lookup(dirid, filename@),
    {
        proof {
            self.lemma_view();
        }
        if dirid >= self.entries.len() as u64 {
            return Err(FsError::NotFound);
        }
        let entry = &self.entries[dirid as usize];
        match &entry.contents {
            FSContents::File(_) => Err(FsError::NotDirectory),
            FSContents::Directory(kids) => {
                if is_dot(filename) {
                    return Ok(dirid);
                }
                if is_dot_dot(filename) {
                    return Ok(entry.parent);
                }
                match self.find_child(dirid, filename) {
                    Some((_, id)) => Ok(id),
                    None => Err(FsError::NotFound),
                }
            },
        }
    }

    /// The stored attributes of `id`.
    pub fn getattr(&self, id: u64) -> (r: Result<Attr, FsError>)
        requires
            self.wf(),
        ensures
            r == self@.getattr(id),
    {
        proof {
            self.lemma_view();
        }
        if id >= self.entries.len() as u64 {
            return Err(FsError::NotFound);
        }
        Ok(self.entries[id as usize].attr)
    }

    /// Adds `child` at the end of `dirid`'s child list, where `dirid` is a directory.
    fn link(&mut self, dirid: u64, child: u64)
        ensures
            final(self)@ == old(self)@.link(dirid, child),
    {
        proof {
            self.lemma_view();
        }
        if dirid < self.entries.len() as u64 {
            match &mut self.entries[dirid as usize].contents {
                FSContents::Directory(kids) => {
                    kids.push(child);
                },
                FSContents::File(_) => {},
            }
        }
        proof {
            self.lemma_view();
            assert(self@.nodes =~= old(self)@.link(dirid, child).nodes);
        }
    }

    /// Creates an empty file named `filename` and links it under `dirid`.
    /// The new id is the table's length before the call. Where `dirid` is no directory
    /// the node is made all the same and linked nowhere.
    pub fn create(&mut self, dirid: u64, filename: &[u8]) -> (r: Result<(u64, Attr), FsError>)
        requires
            old(self).wf(),
        ensures
            final(self).wf(),
            final(self)@ == old(self)@.create(dirid, filename@),
            r == Ok::<(u64, Attr), FsError>(
                (old(self)@.next_id(), Attr::of_file(old(self)@.next_id(), 0)),
            ),
    {
        proof {
            self.lemma_view();
        }
        let newid: u64 = self.entries.len() as u64;
        let nothing: Vec<u8> = Vec::new();
        let entry = make_file(filename, newid, dirid, nothing.as_slice());
        let attr = entry.attr;
        self.entries.push(entry);
        proof {
            self.lemma_view();
            assert(self@.nodes =~= old(self)@.append(
                Node::file(filename@, newid, dirid, Seq::empty()),
            ).nodes);
        }
        self.link(dirid, newid);
        proof {
            old(self)@.lemma_create_wf(dirid, filename@);
        }
        Ok((newid, attr))
    }

    /// Makes an empty directory named `dirname` and links it under `dirid`.
    /// The new id is the table's length before the call. Where `dirid` is no directory
    /// the node is made all the same and linked nowhere.
    pub fn mkdir(&mut self, dirid: u64, dirname: &[u8]) -> (r: Result<(u64, Attr), FsError>)
        requires
            old(self).wf(),
        ensures
            final(self).wf(),
            final(self)@ == old(self)@.mkdir(dirid, dirname@),
            r == Ok::<(u64, Attr), FsError>((old(self)@.next_id(), Attr::of_dir(old(self)@.next_id()))),
    {
        proof {
            self.lemma_view();
        }
        let newid: u64 = self.entries.len() as u64;
        let entry = make_dir(dirname, newid, dirid, Vec::new());
        let attr = entry.attr;
        self.entries.push(entry);
        proof {
            self.lemma_view();
            assert(self@.nodes =~= old(self)@.append(
                Node::dir(dirname@, newid, dirid, Seq::empty()),
            ).nodes);
        }
        self.link(dirid, newid);
        proof {
            old(self)@.lemma_mkdir_wf(dirid, dirname@);
        }
        Ok((newid, attr))
    }

    /// The names of the nodes in directory `dirid`'s child list, in list order.
    fn child_names(&self, dirid: u64) -> (names: Vec<Vec<u8>>)
        requires
            self.wf(),
            self@.is_dir(dirid),
        ensures
            names_of(names@) == self@.child_names(dirid),
    {
        proof {
            self.lemma_view();
        }
        let mut names: Vec<Vec<u8>> = Vec::new();
        match &self.entries[dirid as usize].contents {
            FSContents::File(_) => {},
            FSContents::Directory(kids) => {
                let mut k: usize = 0;
                while k < kids.len()
                    invariant
                        self.wf(),
                        self@.is_dir(dirid),
                        kids@ == self@.children(dirid),
                        k <= kids.len(),
                        names@.len() == k,
                        forall|j: int| 0 <= j < k ==> (#[trigger] names@[j])@ == self@.child_name(dirid, j),
                    decreases kids.len() - k,
                {
                    let c: u64 = kids[k];
                    proof {
                        self.lemma_view();
                        assert(c == self@.nodes[dirid as int].children()[k as int]);
                    }
                    names.push(slice_to_vec(self.entries[c as usize].name.as_slice()));
                    k += 1;
                }
            },
        }
        proof {
            assert(names_of(names@) =~= self@.child_names(dirid));
        }
        names
    }

    /// The triggers that a read of file `id` emits.
    fn read_events(&self, id: u64) -> (events: Vec<TriggerEvent>)
        requires
            self.wf(),
            self@.has(id),
        ensures
            events@ == self@.read_events(id),
    {
        proof {
            self.lemma_view();
        }
        let n: usize = self.entries.len();
        let entry = &self.entries[id as usize];
        if is_sequence_trigger(entry.name.as_slice()) {
            let in_dir = entry.parent < n as u64 && match &self.entries[entry.parent as usize].contents {
                FSContents::Directory(_) => true,
                FSContents::File(_) => false,
            };
            if in_dir {
                let names = self.child_names(entry.parent);
                expand_sequence(&names)
            } else {
                Vec::new()
            }
        } else {
            single_trigger(entry.name.as_slice())
        }
    }

    /// Reads up to `count` bytes of file `id` from `offset` on, and classifies the file's
    /// name: the result holds the bytes, whether the read reached the end of the file, and
    /// the triggers that the read emits. The bytes and the flag do not depend on the triggers.
    pub fn read(&self, id: u64, offset: u64, count: u32) -> (r: Result<ReadResult, FsError>)
        requires
            self.wf(),
        ensures
            match r {
                Ok(out) => self@.read(id, offset, count) == Ok::<ReadView, FsError>(out@),
                Err(e) => self@.read(id, offset, count) == Err::<ReadView, FsError>(e),
            },
    {
        proof {
            self.lemma_view();
        }
        if id >= self.entries.len() as u64 {
            return Err(FsError::NotFound);
        }
        match &self.entries[id as usize].contents {
            FSContents::Directory(_) => Err(FsError::IsDirectory),
            FSContents::File(bytes) => {
                let len: usize = bytes.len();
                let start: usize = if offset < len as u64 {
                    offset as usize
                } else {
                    len
                };
                let end: usize = if (count as u64) < (len - start) as u64 {
                    start + count as usize
                } else {
                    len
                };
                let eof = end == len;
                let data = slice_to_vec(slice_subrange(bytes.as_slice(), start, end));
                let events = self.read_events(id);
                Ok(ReadResult { data, eof, events })
            },
        }
    }

    /// Writes `data` into `id` at `offset`. A file that ends before the end of the written
    /// range is first filled with zeros up to there; a write within the file's length
    /// overwrites in place and the file keeps its length. A directory stays as it is.
    /// Answers the attributes after the write.
    pub fn write(&mut self, id: u64, offset: u64, data: &[u8]) -> (r: Result<Attr, FsError>)
        requires
            old(self).wf(),
            old(self)@.is_file(id) ==> offset + data@.len() <= usize::MAX,
        ensures
            final(self).wf(),
            final(self)@ == old(self)@.write(id, offset, data@),
            r == final(self)@.getattr(id),
            r is Err <==> !old(self)@.has(id),
    {
        proof {
            self.lemma_view();
        }
        if id >= self.entries.len() as u64 {
            return Err(FsError::NotFound);
        }
        let entry = &mut self.entries[id as usize];
        match &mut entry.contents {
            FSContents::File(bytes) => {
                let ghost before = bytes@;
                let at: usize = offset as usize;
                let end: usize = at + data.len();
                if end > bytes.len() {
                    bytes.resize(end, 0u8);
                }
                let mut i: usize = 0;
                while i < data.len()
                    invariant
                        i <= data.len(),
                        end == at + data.len(),
                        bytes@.len() == overwritten(before, at as nat, data@).len(),
                        end <= bytes@.len(),
                        forall|j: int|
                            0 <= j < bytes@.len() ==> #[trigger] bytes@[j] == (if at <= j < at + i {
                                data@[j - at]
                            } else if j < before.len() {
                                before[j]
                            } else {
                                0u8
                            }),
                    decreases data.len() - i,
                {
                    bytes[at + i] = data[i];
                    i += 1;
                }
                proof {
                    assert(bytes@ =~= overwritten(before, at as nat, data@));
                }
                let size: u64 = bytes.len() as u64;
                entry.attr.size = size;
                entry.attr.used = size;
            },
            FSContents::Directory(_) => {},
        }
        proof {
            self.lemma_view();
            assert(self@.nodes =~= old(self)@.write(id, offset, data@).nodes);
            old(self)@.lemma_write_wf(id, offset, data@);
        }
        Ok(self.entries[id as usize].attr)
    }

    /// Applies `change` to the attributes of `id`, with `now` as the server's time.
    /// Every field of the change is applied by itself. A new size cuts a file's bytes or
    /// fills them with zeros and becomes its size and used; on a directory it is ignored.
    /// Answers the attributes after the change.
    pub fn setattr_at(&mut self, id: u64, change: SetAttr, now: Timestamp) -> (r: Result<Attr, FsError>)
        requires
            old(self).wf(),
            old(self)@.is_file(id) ==> (change.size matches Some(s) ==> s <= usize::MAX),
        ensures
            final(self).wf(),
            final(self)@ == old(self)@.setattr(id, change, now),
            r == final(self)@.getattr(id),
            r is Err <==> !old(self)@.has(id),
    {
        proof {
            self.lemma_view();
        }
        if id >= self.entries.len() as u64 {
            return Err(FsError::NotFound);
        }
        let entry = &mut self.entries[id as usize];
        entry.attr.atime = change.atime.apply(entry.attr.atime, now);
        entry.attr.mtime = change.mtime.apply(entry.attr.mtime, now);
        match change.uid {
            Some(u) => {
                entry.attr.uid = u;
            },
            None => {},
        }
        match change.gid {
            Some(g) => {
                entry.attr.gid = g;
            },
            None => {},
        }
        match change.size {
            Some(s) => {
                match &mut entry.contents {
                    FSContents::File(bytes) => {
                        let ghost before = bytes@;
                        bytes.resize(s as usize, 0u8);
                        proof {
                            assert(bytes@ =~= resized(before, s as nat));
                        }
                        entry.attr.size = s;
                        entry.attr.used = s;
                    },
                    FSContents::Directory(_) => {},
                }
            },
            None => {},
        }
        proof {
            self.lemma_view();
            assert(self@.nodes =~= old(self)@.setattr(id, change, now).nodes);
            old(self)@.lemma_setattr_wf(id, change, now);
        }
        Ok(self.entries[id as usize].attr)
    }

    /// Applies `change` to the attributes of `id`, reading the server's clock for the
    /// timestamps that are to be set to the server's time.
    pub fn setattr(&mut self, id: u64, change: SetAttr) -> (r: Result<Attr, FsError>)
        requires
            old(self).wf(),
            old(self)@.is_file(id) ==> (change.size matches Some(s) ==> s <= usize::MAX),
        ensures
            final(self).wf(),
            exists|now: Timestamp|
                now.nseconds < NANOS_PER_SECOND && final(self)@ == #[trigger] old(self)@.setattr(
                    id,
                    change,
                    now,
                ),
            !change.reads_clock() ==> final(self)@ == old(self)@.setattr(id, change, Timestamp::zero()),
            r == final(self)@.getattr(id),
            r is Err <==> !old(self)@.has(id),
    {
        let now = server_time();
        let r = self.setattr_at(id, change, now);
        proof {
            if !change.reads_clock() {
                assert(old(self)@.setattr(id, change, now) == old(self)@.setattr(
                    id,
                    change,
                    Timestamp::zero(),
                ));
            }
        }
        r
    }

    /// Lists directory `dirid`, one page at a time. With `start_after` 0 the page begins
    /// at the head of the child list, else behind the child `start_after`, which must be
    /// in the list. The page holds up to `max_entries` entries and says whether it reaches
    /// the end of the list.
    pub fn readdir(&self, dirid: u64, start_after: u64, max_entries: usize) -> (r: Result<
        ReadDirResult,
        FsError,
    >)
        requires
            self.wf(),
        ensures
            match r {
                Ok(page) => self@.readdir(dirid, start_after, max_entries as nat) == Ok::<PageView, FsError>(
                    page@,
                ),
                Err(e) => self@.readdir(dirid, start_after, max_entries as nat) == Err::<PageView, FsError>(e),
            },
    {
        proof {
            self.lemma_view();
        }
        let n: usize = self.entries.len();
        if dirid >= n as u64 {
            return Err(FsError::NotFound);
        }
        match &self.entries[dirid as usize].contents {
            FSContents::File(_) => Err(FsError::NotDirectory),
            FSContents::Directory(kids) => {
                let mut start: usize = 0;
                if start_after > 0 {
                    let mut at: usize = 0;
                    while at < kids.len() && kids[at] != start_after
                        invariant
                            at <= kids.len(),
                            forall|j: int| 0 <= j < at ==> kids@[j] != start_after,
                        decreases kids.len() - at,
                    {
                        at += 1;
                    }
                    if at == kids.len() {
                        assert(!kids@.contains(start_after));
                        return Err(FsError::BadCookie);
                    }
                    proof {
                        assert(kids@.contains(start_after));
                        let chosen = kids@.index_of(start_after);
                        assert(self@.nodes[dirid as int].children().no_duplicates());
                        assert(chosen == at);
                    }
                    start = at + 1;
                }
                let stop: usize = if max_entries < kids.len() - start {
                    start + max_entries
                } else {
                    kids.len()
                };
                let mut entries: Vec<DirEntry> = Vec::new();
                let mut k: usize = start;
                while k < stop
                    invariant
                        self.wf(),
                        self@.is_dir(dirid),
                        kids@ == self@.children(dirid),
                        start <= k <= stop <= kids.len(),
                        entries@.len() == k - start,
                        forall|j: int| 0 <= j < k - start ==> (#[trigger] entries@[j])@ == self@.entry(kids@[start + j]),
                    decreases stop - k,
                {
                    let c: u64 = kids[k];
                    proof {
                        self.lemma_view();
                        assert(c == self@.nodes[dirid as int].children()[k as int]);
                    }
                    let node = &self.entries[c as usize];
                    entries.push(DirEntry { fileid: c, name: slice_to_vec(node.name.as_slice()), attr: node.attr });
                    k += 1;
                }
                let page = ReadDirResult { entries, end: stop == kids.len() };
                proof {
                    let listed = self@.children(dirid).subrange(start as int, stop as int).map_values(
                        |c: u64| self@.entry(c),
                    );
                    assert(page@.entries =~= listed);
                }
                Ok(page)
            },
        }
    }

    /// Takes the first child named `filename` out of `dirid`'s child list. The child's
    /// slot stays in the table.
    pub fn remove(&mut self, dirid: u64, filename: &[u8]) -> (r: Result<(), FsError>)
        requires
            old(self).wf(),
        ensures
            final(self).wf(),
            final(self)@ == old(self)@.remove(dirid, filename@),
            r == old(self)@.remove_result(dirid, filename@),
    {
        proof {
            self.lemma_view();
        }
        if dirid >= self.entries.len() as u64 {
            return Err(FsError::NotFound);
        }
        let is_dir = match &self.entries[dirid as usize].contents {
            FSContents::Directory(_) => true,
            FSContents::File(_) => false,
        };
        if !is_dir {
            return Err(FsError::NotFound);
        }
        match self.find_child(dirid, filename) {
            None => Err(FsError::NotFound),
            Some((k, _)) => {
                self.unlink_at(dirid, k);
                proof {
                    old(self)@.lemma_remove_wf(dirid, filename@);
                }
                Ok(())
            },
        }
    }

    /// Takes position `k` out of directory `dirid`'s child list.
    fn unlink_at(&mut self, dirid: u64, k: usize)
        requires
            old(self)@.is_dir(dirid),
            k < old(self)@.children(dirid).len(),
        ensures
            final(self)@ == old(self)@.unlink_at(dirid, k as int),
    {
        proof {
            self.lemma_view();
        }
        match &mut self.entries[dirid as usize].contents {
            FSContents::Directory(kids) => {
                kids.remove(k);
            },
            FSContents::File(_) => {},
        }
        proof {
            self.lemma_view();
            assert(self@.nodes =~= old(self)@.unlink_at(dirid, k as int).nodes);
        }
    }

    /// Moves the file named `from_filename` under `from_dirid` to `to_dirid` and names it
    /// `to_filename`. The file keeps its id and its bytes; its node is otherwise made anew.
    /// Only files can be renamed: a directory is reported as not found, as is a missing name.
    pub fn rename(
        &mut self,
        from_dirid: u64,
        from_filename: &[u8],
        to_dirid: u64,
        to_filename: &[u8],
    ) -> (r: Result<(), FsError>)
        requires
            old(self).wf(),
        ensures
            final(self).wf(),
            final(self)@ == old(self)@.rename(from_dirid, from_filename@, to_dirid, to_filename@),
            r == old(self)@.rename_result(from_dirid, from_filename@, to_dirid),
    {
        proof {
            self.lemma_view();
        }
        let n: usize = self.entries.len();
        if from_dirid >= n as u64 || to_dirid >= n as u64 {
            return Err(FsError::NotFound);
        }
        let is_dir = match &self.entries[from_dirid as usize].contents {
            FSContents::Directory(_) => true,
            FSContents::File(_) => false,
        };
        if !is_dir {
            return Err(FsError::NotFound);
        }
        let (k, id) = match self.find_child(from_dirid, from_filename) {
            None => {
                return Err(FsError::NotFound);
            },
            Some(found) => found,
        };
        proof {
            assert(id == self@.nodes[from_dirid as int].children()[k as int]);
        }
        let moved = match &self.entries[id as usize].contents {
            FSContents::File(bytes) => make_file(to_filename, id, to_dirid, bytes.as_slice()),
            FSContents::Directory(_) => {
                return Err(FsError::NotFound);
            },
        };
        self.unlink_at(from_dirid, k);
        proof {
            self.lemma_view();
        }
        self.entries[id as usize] = moved;
        proof {
            self.lemma_view();
            let unlinked = old(self)@.unlink_at(from_dirid, k as int);
            assert(self@.nodes =~= unlinked.with_node(
                id,
                Node::file(to_filename@, id, to_dirid, old(self)@.bytes(id)),
            ).nodes);
        }
        self.link(to_dirid, id);
        proof {
            old(self)@.lemma_rename_wf(from_dirid, from_filename@, to_dirid, to_filename@);
        }
        Ok(())
    }

    /// Exclusive creation is not offered.
    pub fn create_exclusive(&self, dirid: u64, filename: &[u8]) -> (r: Result<u64, FsError>)
        ensures
            r == Err::<u64, FsError>(FsError::NotSupported),
    {
        Err(FsError::NotSupported)
    }

    /// Links cannot be made: the tree takes none.
    pub fn symlink(&self, dirid: u64, linkname: &[u8], target: &[u8], attr: &SetAttr) -> (r: Result<
        (u64, Attr),
        FsError,
    >)
        ensures
            r == Err::<(u64, Attr), FsError>(FsError::ReadOnly),
    {
        Err(FsError::ReadOnly)
    }

    /// There are no links to read.
    pub fn readlink(&self, id: u64) -> (r: Result<Vec<u8>, FsError>)
        ensures
            r == Err::<Vec<u8>, FsError>(FsError::NotSupported),
    {
        Err(FsError::NotSupported)
    }
}

} // verus!
