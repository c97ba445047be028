//! The tree that a new table starts with.
//!
//! Slot 0 is the reserved sentinel and slot 1 the root, which holds two directories.
//! `sine` (slot 2) holds one file for each of the twenty-four notes, named
//! `<ordinal>_<instrument>_<note>.txt`, and a sequence trigger; `song1` (slot 28) holds a
//! short tune and a sequence trigger. Each note file holds the note's name.

use vstd::prelude::*;
use vstd::string::StringSliceAdditionalSpecFns;
use crate::entry::{make_dir, make_file, nodes_of, FSEntry};
use crate::state::{FsState, Node, ROOT_ID};

verus! {

/// The number of nodes in the seed.
pub const SEED_LEN: u64 = 36;

/// The slot of the directory `sine`.
pub const SINE_DIR: u64 = 2;

/// The slot of the directory `song1`.
pub const SONG_DIR: u64 = 28;

/// The name of the seed's node `id`.
pub open spec fn seed_name(id: int) -> Seq<u8> {
    if id == 0 {
        "".spec_bytes()
    } else if id == 1 {
        "/".spec_bytes()
    } else if id == 2 {
        "sine".spec_bytes()
    } else if id == 3 {
        "1_sine_A.txt".spec_bytes()
    } else if id == 4 {
        "2_sine_A#.txt".spec_bytes()
    } else if id == 5 {
        "3_sine_A2.txt".spec_bytes()
    } else if id == 6 {
        "4_sine_A#2.txt".spec_bytes()
    } else if id == 7 {
        "5_bell_B.txt".spec_bytes()
    } else if id == 8 {
        "6_bell_B2.txt".spec_bytes()
    } else if id == 9 {
        "7_bell_C.txt".spec_bytes()
    } else if id == 10 {
        "8_bell_C#.txt".spec_bytes()
    } else if id == 11 {
        "9_bell_C2.txt".spec_bytes()
    } else if id == 12 {
        "10_bell_C#2.txt".spec_bytes()
    } else if id == 13 {
        "11_bell_D.txt".spec_bytes()
    } else if id == 14 {
        "12_bell_D#.txt".spec_bytes()
    } else if id == 15 {
        "13_organ_D2.txt".spec_bytes()
    } else if id == 16 {
        "14_organ_D#2.txt".spec_bytes()
    } else if id == 17 {
        "15_organ_E.txt".spec_bytes()
    } else if id == 18 {
        "16_organ_E2.txt".spec_bytes()
    } else if id == 19 {
        "17_lancer_F.txt".spec_bytes()
    } else if id == 20 {
        "18_lancer_F#.txt".spec_bytes()
    } else if id == 21 {
        "19_lancer_F2.txt".spec_bytes()
    } else if id == 22 {
        "20_lancer_F#2.txt".spec_bytes()
    } else if id == 23 {
        "21_lancer_G.txt".spec_bytes()
    } else if id == 24 {
        "22_lancer_G#.txt".spec_bytes()
    } else if id == 25 {
        "23_lancer_G2.txt".spec_bytes()
    } else if id == 26 {
        "24_lancer_G#2.txt".spec_bytes()
    } else if id == 27 {
        "play.txt".spec_bytes()
    } else if id == 28 {
        "song1".spec_bytes()
    } else if id == 29 {
        "1_lancer_C.txt".spec_bytes()
    } else if id == 30 {
        "2_lancer_D.txt".spec_bytes()
    } else if id == 31 {
        "3_lancer_E.txt".spec_bytes()
    } else if id == 32 {
        "4_lancer_C.txt".spec_bytes()
    } else if id == 33 {
        "5_lancer_D.txt".spec_bytes()
    } else if id == 34 {
        "6_lancer_C.txt".spec_bytes()
    } else {
        "play.txt".spec_bytes()
    }
}

/// The bytes of the seed's file `id`.
pub open spec fn seed_bytes(id: int) -> Seq<u8> {
    if id == 0 {
        "".spec_bytes()
    } else if id == 1 {
        "".spec_bytes()
    } else if id == 2 {
        "".spec_bytes()
    } else if id == 3 {
        "A".spec_bytes()
    } else if id == 4 {
        "A#".spec_bytes()
    } else if id == 5 {
        "A2".spec_bytes()
    } else if id == 6 {
        "A#2".spec_bytes()
    } else if id == 7 {
        "B".spec_bytes()
    } else if id == 8 {
        "B2".spec_bytes()
    } else if id == 9 {
        "C".spec_bytes()
    } else if id == 10 {
        "C#".spec_bytes()
    } else if id == 11 {
        "C2".spec_bytes()
    } else if id == 12 {
        "C#2".spec_bytes()
    } else if id == 13 {
        "D".spec_bytes()
    } else if id == 14 {
        "D#".spec_bytes()
    } else if id == 15 {
        "D2".spec_bytes()
    } else if id == 16 {
        "D#2".spec_bytes()
    } else if id == 17 {
        "E".spec_bytes()
    } else if id == 18 {
        "E2".spec_bytes()
    } else if id == 19 {
        "F".spec_bytes()
    } else if id == 20 {
        "F#".spec_bytes()
    } else if id == 21 {
        "F2".spec_bytes()
    } else if id == 22 {
        "F#2".spec_bytes()
    } else if id == 23 {
        "G".spec_bytes()
    } else if id == 24 {
        "G#".spec_bytes()
    } else if id == 25 {
        "G2".spec_bytes()
    } else if id == 26 {
        "G#2".spec_bytes()
    } else if id == 27 {
        "PLAY".spec_bytes()
    } else if id == 28 {
        "".spec_bytes()
    } else if id == 29 {
        "C".spec_bytes()
    } else if id == 30 {
        "D".spec_bytes()
    } else if id == 31 {
        "E".spec_bytes()
    } else if id == 32 {
        "C".spec_bytes()
    } else if id == 33 {
        "D".spec_bytes()
    } else if id == 34 {
        "C".spec_bytes()
    } else {
        "PLAY".spec_bytes()
    }
}

/// Whether the seed's node `id` is a directory.
pub open spec fn seed_is_dir(id: int) -> bool {
    id == ROOT_ID || id == SINE_DIR || id == SONG_DIR
}

/// The parent of the seed's node `id`.
pub open spec fn seed_parent(id: int) -> u64 {
    if id == 0 {
        0
    } else if id <= SINE_DIR || id == SONG_DIR {
        ROOT_ID
    } else if id < SONG_DIR {
        SINE_DIR
    } else {
        SONG_DIR
    }
}

/// The ids from `first` up to, and without, `end`, in ascending order.
pub open spec fn id_range(first: u64, end: u64) -> Seq<u64> {
    Seq::new((end - first) as nat, |k: int| (k + first) as u64)
}

/// The child list of the seed's directory `id`.
pub open spec fn seed_children(id: int) -> Seq<u64> {
    if id == ROOT_ID {
        seq![SINE_DIR, SONG_DIR]
    } else if id == SINE_DIR {
        id_range(3, SONG_DIR)
    } else {
        id_range(29, SEED_LEN)
    }
}

/// The seed's node `id`.
pub open spec fn seed_node(id: int) -> Node {
    if seed_is_dir(id) {
        Node::dir(seed_name(id), id as u64, seed_parent(id), seed_children(id))
    } else {
        Node::file(seed_name(id), id as u64, seed_parent(id), seed_bytes(id))
    }
}

/// The nodes that a new table holds.
pub open spec fn seed_nodes() -> Seq<Node> {
    Seq::new(SEED_LEN as nat, |id: int| seed_node(id))
}

/// The table that a new tree starts with.
pub open spec fn seed_state() -> FsState {
    FsState { nodes: seed_nodes(), root: ROOT_ID }
}

/// The name of the seed's node `id`, and the text that it holds where it is a file.
fn seed_text(id: u64) -> (t: (&'static str, &'static str))
    requires
        id < SEED_LEN,
    ensures
        t.0.spec_bytes() == seed_name(id as int),
        t.1.spec_bytes() == seed_bytes(id as int),
{
    if id == 0 {
        ("", "")
    } else if id == 1 {
        ("/", "")
    } else if id == 2 {
        ("sine", "")
    } else if id == 3 {
        ("1_sine_A.txt", "A")
    } else if id == 4 {
        ("2_sine_A#.txt", "A#")
    } else if id == 5 {
        ("3_sine_A2.txt", "A2")
    } else if id == 6 {
        ("4_sine_A#2.txt", "A#2")
    } else if id == 7 {
        ("5_bell_B.txt", "B")
    } else if id == 8 {
        ("6_bell_B2.txt", "B2")
    } else if id == 9 {
        ("7_bell_C.txt", "C")
    } else if id == 10 {
        ("8_bell_C#.txt", "C#")
    } else if id == 11 {
        ("9_bell_C2.txt", "C2")
    } else if id == 12 {
        ("10_bell_C#2.txt", "C#2")
    } else if id == 13 {
        ("11_bell_D.txt", "D")
    } else if id == 14 {
        ("12_bell_D#.txt", "D#")
    } else if id == 15 {
        ("13_organ_D2.txt", "D2")
    } else if id == 16 {
        ("14_organ_D#2.txt", "D#2")
    } else if id == 17 {
        ("15_organ_E.txt", "E")
    } else if id == 18 {
        ("16_organ_E2.txt", "E2")
    } else if id == 19 {
        ("17_lancer_F.txt", "F")
    } else if id == 20 {
        ("18_lancer_F#.txt", "F#")
    } else if id == 21 {
        ("19_lancer_F2.txt", "F2")
    } else if id == 22 {
        ("20_lancer_F#2.txt", "F#2")
    } else if id == 23 {
        ("21_lancer_G.txt", "G")
    } else if id == 24 {
        ("22_lancer_G#.txt", "G#")
    } else if id == 25 {
        ("23_lancer_G2.txt", "G2")
    } else if id == 26 {
        ("24_lancer_G#2.txt", "G#2")
    } else if id == 27 {
        ("play.txt", "PLAY")
    } else if id == 28 {
        ("song1", "")
    } else if id == 29 {
        ("1_lancer_C.txt", "C")
    } else if id == 30 {
        ("2_lancer_D.txt", "D")
    } else if id == 31 {
        ("3_lancer_E.txt", "E")
    } else if id == 32 {
        ("4_lancer_C.txt", "C")
    } else if id == 33 {
        ("5_lancer_D.txt", "D")
    } else if id == 34 {
        ("6_lancer_C.txt", "C")
    } else {
        ("play.txt", "PLAY")
    }
}

/// Makes the ids from `first` up to, and without, `end`.
fn id_run(first: u64, end: u64) -> (ids: Vec<u64>)
    requires
        first <= end,
    ensures
        ids@ == id_range(first, end),
{
    let mut ids: Vec<u64> = Vec::new();
    let mut id: u64 = first;
    while id < end
        invariant
            first <= id <= end,
            ids@ == id_range(first, id),
        decreases end - id,
    {
        ids.push(id);
        id += 1;
        assert(ids@ =~= id_range(first, id));
    }
    ids
}

/// Computes `seed_parent`.
fn seed_parent_of(id: u64) -> (p: u64)
    ensures
        p == seed_parent(id as int),
{
    if id == 0 {
        0
    } else if id <= SINE_DIR || id == SONG_DIR {
        ROOT_ID
    } else if id < SONG_DIR {
        SINE_DIR
    } else {
        SONG_DIR
    }
}

/// Makes the child list of the seed's directory `id`.
fn seed_children_of(id: u64) -> (kids: Vec<u64>)
    ensures
        kids@ == seed_children(id as int),
{
    if id == ROOT_ID {
        let kids = vec![SINE_DIR, SONG_DIR];
        assert(kids@ =~= seq![SINE_DIR, SONG_DIR]);
        kids
    } else if id == SINE_DIR {
        id_run(3, SONG_DIR)
    } else {
        id_run(29, SEED_LEN)
    }
}

/// In the seed, every child id is a slot above the sentinel whose node names the listing
/// directory as its parent, and no child list holds an id twice.
proof fn lemma_seed_links()
    ensures
        forall|d: int, k: int|
            0 <= d < seed_nodes().len() && 0 <= k < seed_nodes()[d].children().len() ==> {
                let c = #[trigger] seed_nodes()[d].children()[k];
                &&& 0 < c < seed_nodes().len()
                &&& seed_nodes()[c as int].parent == d
            },
        forall|d: int|
            0 <= d < seed_nodes().len() ==> (#[trigger] seed_nodes()[d]).children().no_duplicates(),
{
}

/// Makes the nodes that a new table holds.
pub fn seed_entries() -> (v: Vec<FSEntry>)
    ensures
        nodes_of(v@) == seed_nodes(),
        (FsState { nodes: nodes_of(v@), root: ROOT_ID }).wf(),
{
    let mut v: Vec<FSEntry> = Vec::new();
    let mut id: u64 = 0;
    while id < SEED_LEN
        invariant
            id <= SEED_LEN,
            v@.len() == id,
            forall|j: int| 0 <= j < id ==> (#[trigger] v@[j])@ == seed_node(j),
            forall|j: int| 0 <= j < id ==> (#[trigger] v@[j])@.consistent(j),
        decreases SEED_LEN - id,
    {
        let (name, text) = seed_text(id);
        let parent = seed_parent_of(id);
        let entry = if id == ROOT_ID || id == SINE_DIR || id == SONG_DIR {
            make_dir(name.as_bytes(), id, parent, seed_children_of(id))
        } else {
            make_file(name.as_bytes(), id, parent, text.as_bytes())
        };
        v.push(entry);
        id += 1;
    }
    proof {
        assert(nodes_of(v@) =~= seed_nodes());
        lemma_seed_links();
    }
    v
}

} // verus!
