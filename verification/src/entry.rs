//! The stored form of a node.

use vstd::prelude::*;
use vstd::slice::slice_to_vec;
use crate::attr::{Attr, FileType, Timestamp, DEFAULT_OWNER, DIR_MODE, FILE_MODE};
use crate::state::{Contents, Node};

verus! {

/// What a stored node holds: a file's bytes or a directory's child ids.
#[derive(Debug, Clone)]
pub enum FSContents {
    File(Vec<u8>),
    Directory(Vec<u64>),
}

/// A stored node.
#[derive(Debug, Clone)]
pub struct FSEntry {
    pub id: u64,
    pub attr: Attr,
    pub name: Vec<u8>,
    pub parent: u64,
    pub contents: FSContents,
}

impl View for FSContents {
    type V = Contents;

    open spec fn view(&self) -> Contents {
        match self {
            FSContents::File(b) => Contents::File(b@),
            FSContents::Directory(c) => Contents::Directory(c@),
        }
    }
}

impl View for FSEntry {
    type V = Node;

    open spec fn view(&self) -> Node {
        Node {
            id: self.id,
            attr: self.attr,
            name: self.name@,
            parent: self.parent,
            contents: self.contents@,
        }
    }
}

/// The nodes that stored nodes stand for.
pub open spec fn nodes_of(entries: Seq<FSEntry>) -> Seq<Node> {
    entries.map_values(|e: FSEntry| e@)
}

/// Makes a file node with default attributes; its size and used are the length of `contents`.
pub fn make_file(name: &[u8], id: u64, parent: u64, contents: &[u8]) -> (e: FSEntry)
    ensures
        e@ == Node::file(name@, id, parent, contents@),
        e@.consistent(id as int),
{
    let zero = Timestamp { seconds: 0, nseconds: 0 };
    let attr = Attr {
        ftype: FileType::Regular,
        mode: FILE_MODE,
        nlink: 1,
        uid: DEFAULT_OWNER,
        gid: DEFAULT_OWNER,
        size: contents.len() as u64,
        used: contents.len() as u64,
        fileid: id,
        atime: zero,
        mtime: zero,
        ctime: zero,
    };
    FSEntry {
        id,
        attr,
        name: slice_to_vec(name),
        parent,
        contents: FSContents::File(slice_to_vec(contents)),
    }
}

/// Makes a directory node with default attributes and the given child list.
pub fn make_dir(name: &[u8], id: u64, parent: u64, contents: Vec<u64>) -> (e: FSEntry)
    ensures
        e@ == Node::dir(name@, id, parent, contents@),
        e@.consistent(id as int),
{
    let zero = Timestamp { seconds: 0, nseconds: 0 };
    let attr = Attr {
        ftype: FileType::Directory,
        mode: DIR_MODE,
        nlink: 1,
        uid: DEFAULT_OWNER,
        gid: DEFAULT_OWNER,
        size: 0,
        used: 0,
        fileid: id,
        atime: zero,
        mtime: zero,
        ctime: zero,
    };
    FSEntry { id, attr, name: slice_to_vec(name), parent, contents: FSContents::Directory(contents) }
}

} // verus!
