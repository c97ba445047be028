//! What holds of the operations taken together.

use vstd::prelude::*;
use vstd::relations::sorted_by;
use crate::attr::{FsError, SetAttr, Timestamp};
use crate::bytes::{dot, dot_dot, lower, upper, UNDERSCORE};
use crate::order::{lemma_name_order_total, name_order};
use crate::state::{EntryView, FsState, PageView};
use crate::trigger::{
    event_of, fields_of, has_fields, instrument_of, is_sequence_name, lemma_fields_unique, note_of,
    plays_in_sequence, sequence_events, sequence_filter, sequence_names, single_events,
    trigger_name, trigger_of, TriggerEvent,
};

verus! {

/// Whether `t` holds every slot of `s`, each with the id and the kind that it had.
pub open spec fn keeps_slots(s: FsState, t: FsState) -> bool {
    &&& s.nodes.len() <= t.nodes.len()
    &&& forall|i: int|
        0 <= i < s.nodes.len() ==> (#[trigger] t.nodes[i]).id == s.nodes[i].id && t.nodes[i].is_dir()
            == s.nodes[i].is_dir()
}

/// No operation takes a slot away, gives a node another id or turns a file into a
/// directory or back: the table only grows, by one slot with each node that is made.
pub proof fn lemma_slots_stay(
    s: FsState,
    dir: u64,
    name: Seq<u8>,
    to_dir: u64,
    to_name: Seq<u8>,
    offset: u64,
    data: Seq<u8>,
    change: SetAttr,
    now: Timestamp,
)
    requires
        s.wf(),
    ensures
        keeps_slots(s, s.create(dir, name)) && s.create(dir, name).nodes.len() == s.nodes.len() + 1,
        keeps_slots(s, s.mkdir(dir, name)) && s.mkdir(dir, name).nodes.len() == s.nodes.len() + 1,
        keeps_slots(s, s.remove(dir, name)) && s.remove(dir, name).nodes.len() == s.nodes.len(),
        keeps_slots(s, s.rename(dir, name, to_dir, to_name)) && s.rename(dir, name, to_dir, to_name).nodes.len()
            == s.nodes.len(),
        keeps_slots(s, s.write(dir, offset, data)) && s.write(dir, offset, data).nodes.len()
            == s.nodes.len(),
        keeps_slots(s, s.setattr(dir, change, now)) && s.setattr(dir, change, now).nodes.len()
            == s.nodes.len(),
{
    assert forall|i: int| 0 <= i < s.nodes.len() implies (#[trigger] s.nodes[i]).consistent(i) by {}
    if s.can_rename(dir, name, to_dir) {
        s.lemma_index_of_child(dir, name);
        let k = s.index_of_child(dir, name);
        let id = s.child_named(dir, name);
        assert(id == s.nodes[dir as int].children()[k]);
        assert(0 < id < s.nodes.len());
        assert(s.nodes[id as int].consistent(id as int));
    }
}

/// A lookup of `.` answers the directory itself, and a lookup of `..` its parent.
pub proof fn lemma_lookup_dot(s: FsState, dir: u64)
    requires
        s.is_dir(dir),
    ensures
        s.lookup(dir, dot()) == Ok::<u64, FsError>(dir),
        s.lookup(dir, dot_dot()) == Ok::<u64, FsError>(s.nodes[dir as int].parent),
{
    assert(dot().len() != dot_dot().len());
}

/// A lookup of the name of a child answers that child, where the name is neither `.`
/// nor `..` and no child before it in the list bears the same name.
pub proof fn lemma_lookup_child(s: FsState, dir: u64, k: int)
    requires
        s.is_dir(dir),
        0 <= k < s.children(dir).len(),
        s.child_name(dir, k) != dot(),
        s.child_name(dir, k) != dot_dot(),
        forall|j: int| 0 <= j < k ==> #[trigger] s.child_name(dir, j) != s.child_name(dir, k),
    ensures
        s.lookup(dir, s.child_name(dir, k)) == Ok::<u64, FsError>(s.children(dir)[k]),
{
    let name = s.child_name(dir, k);
    assert(s.is_first_named(dir, name, k));
    s.lemma_first_named_is_chosen(dir, name, k);
}

/// A rename keeps the file's id and its bytes, byte for byte, and gives it the new name
/// and parent. The table keeps its length, and where the target is a directory the file
/// is the last of its children.
pub proof fn lemma_rename_keeps_id_and_bytes(
    s: FsState,
    from_dir: u64,
    from_name: Seq<u8>,
    to_dir: u64,
    to_name: Seq<u8>,
)
    requires
        s.wf(),
        s.can_rename(from_dir, from_name, to_dir),
    ensures
        ({
            let id = s.child_named(from_dir, from_name);
            let t = s.rename(from_dir, from_name, to_dir, to_name);
            &&& t.nodes.len() == s.nodes.len()
            &&& t.is_file(id)
            &&& t.bytes(id) == s.bytes(id)
            &&& t.nodes[id as int].id == id
            &&& t.nodes[id as int].name == to_name
            &&& t.nodes[id as int].parent == to_dir
            &&& s.is_dir(to_dir) ==> t.is_dir(to_dir) && t.children(to_dir).len() > 0 && t.children(
                to_dir,
            ).last() == id
        }),
{
    s.lemma_index_of_child(from_dir, from_name);
    let k = s.index_of_child(from_dir, from_name);
    let id = s.child_named(from_dir, from_name);
    assert(id == s.nodes[from_dir as int].children()[k]);
    assert(0 < id < s.nodes.len());
}

/// A rename answers that the source was not found, and changes nothing, where the source
/// directory has no child of that name and where the child of that name is a directory.
pub proof fn lemma_rename_refused(s: FsState, from_dir: u64, from_name: Seq<u8>, to_dir: u64, to_name: Seq<u8>)
    requires
        !s.has_child_named(from_dir, from_name) || s.is_dir(s.child_named(from_dir, from_name)),
    ensures
        s.rename_result(from_dir, from_name, to_dir) == Err::<(), FsError>(FsError::NotFound),
        s.rename(from_dir, from_name, to_dir, to_name) == s,
{
}

/// After a rename into a directory, a lookup of the new name there answers the file,
/// where the new name is neither `.` nor `..` and no child before the file bears it.
pub proof fn lemma_rename_then_lookup(
    s: FsState,
    from_dir: u64,
    from_name: Seq<u8>,
    to_dir: u64,
    to_name: Seq<u8>,
)
    requires
        s.wf(),
        s.can_rename(from_dir, from_name, to_dir),
        s.is_dir(to_dir),
        to_name != dot(),
        to_name != dot_dot(),
        forall|j: int|
            0 <= j < s.rename(from_dir, from_name, to_dir, to_name).children(to_dir).len() - 1
                ==> #[trigger] s.rename(from_dir, from_name, to_dir, to_name).child_name(to_dir, j)
                != to_name,
    ensures
        s.rename(from_dir, from_name, to_dir, to_name).lookup(to_dir, to_name) == Ok::<u64, FsError>(
            s.child_named(from_dir, from_name),
        ),
{
    lemma_rename_keeps_id_and_bytes(s, from_dir, from_name, to_dir, to_name);
    let t = s.rename(from_dir, from_name, to_dir, to_name);
    let last = t.children(to_dir).len() - 1;
    assert(t.child_name(to_dir, last) == to_name);
    lemma_lookup_child(t, to_dir, last);
}

/// After a file is created under a directory, a lookup of its name there answers the new
/// id, which is the table's length before, where the name is neither `.` nor `..` and no
/// child bore it before. The new file is empty.
pub proof fn lemma_create_then_lookup(s: FsState, dir: u64, name: Seq<u8>)
    requires
        s.wf(),
        s.nodes.len() < u64::MAX,
        s.is_dir(dir),
        name != dot(),
        name != dot_dot(),
        !s.has_child_named(dir, name),
    ensures
        s.create(dir, name).lookup(dir, name) == Ok::<u64, FsError>(s.next_id()),
        s.create(dir, name).bytes(s.next_id()) == Seq::<u8>::empty(),
        s.create(dir, name).nodes[s.next_id() as int].attr.size == 0,
{
    let t = s.create(dir, name);
    let id = s.next_id();
    let last = s.children(dir).len() as int;
    assert(t.children(dir) == s.children(dir).push(id));
    assert(t.child_name(dir, last) == name);
    assert forall|j: int| 0 <= j < last implies #[trigger] t.child_name(dir, j) != name by {
        let c = s.nodes[dir as int].children()[j];
        assert(0 < c < s.nodes.len());
        assert(t.child_name(dir, j) == s.child_name(dir, j));
    }
    lemma_lookup_child(t, dir, last);
}

/// After a name is removed from a directory whose children bear it once, a lookup of it
/// there finds nothing; the table keeps its length and the removed node its slot.
pub proof fn lemma_remove_then_lookup(s: FsState, dir: u64, name: Seq<u8>, k: int)
    requires
        s.wf(),
        s.is_dir(dir),
        name != dot(),
        name != dot_dot(),
        0 <= k < s.children(dir).len(),
        s.child_name(dir, k) == name,
        forall|j: int| 0 <= j < s.children(dir).len() && j != k ==> #[trigger] s.child_name(dir, j) != name,
    ensures
        s.remove(dir, name).lookup(dir, name) == Err::<u64, FsError>(FsError::NotFound),
        s.remove(dir, name).nodes.len() == s.nodes.len(),
        s.remove(dir, name).nodes[s.children(dir)[k] as int].name == name,
        s.remove(dir, name).nodes[s.children(dir)[k] as int].attr == s.nodes[s.children(dir)[k] as int].attr,
{
    assert(s.is_first_named(dir, name, k));
    s.lemma_first_named_is_chosen(dir, name, k);
    let t = s.remove(dir, name);
    let kids = s.children(dir);
    let c = s.nodes[dir as int].children()[k];
    assert(0 < c < s.nodes.len());
    assert(t.children(dir) == kids.remove(k));
    if t.has_child_named(dir, name) {
        let j = choose|j: int| 0 <= j < t.children(dir).len() && #[trigger] t.child_name(dir, j) == name;
        let jj = if j < k { j } else { j + 1 };
        assert(t.children(dir)[j] == kids[jj]);
        let cj = s.nodes[dir as int].children()[jj];
        assert(s.nodes[cj as int].parent == dir);
        assert(s.child_name(dir, jj) != name);
        assert(false);
    }
}

/// A write that ends within the file overwrites in place: the file keeps its length, the
/// written range holds the data and every other byte stays.
pub proof fn lemma_write_in_place(s: FsState, id: u64, offset: u64, data: Seq<u8>)
    requires
        s.wf(),
        s.is_file(id),
        offset + data.len() <= s.bytes(id).len(),
    ensures
        ({
            let after = s.write(id, offset, data).bytes(id);
            &&& after.len() == s.bytes(id).len()
            &&& after.subrange(offset as int, offset + data.len()) == data
            &&& forall|i: int|
                0 <= i < after.len() && !(offset <= i < offset + data.len()) ==> after[i] == s.bytes(id)[i]
        }),
        s.write(id, offset, data).nodes[id as int].attr.size == s.bytes(id).len(),
{
    let after = s.write(id, offset, data).bytes(id);
    assert(s.nodes[id as int].consistent(id as int));
    assert(after.subrange(offset as int, offset + data.len()) =~= data);
}

/// A write that ends beyond the file extends it to the end of the written range: the old
/// bytes before the range stay, any gap between the old end and the range holds zeros, and
/// size and used are the new length.
pub proof fn lemma_write_extends(s: FsState, id: u64, offset: u64, data: Seq<u8>)
    requires
        s.is_file(id),
        offset + data.len() > s.bytes(id).len(),
        offset + data.len() <= u64::MAX,
    ensures
        ({
            let after = s.write(id, offset, data).bytes(id);
            &&& after.len() == offset + data.len()
            &&& after.subrange(offset as int, offset + data.len()) == data
            &&& forall|i: int| 0 <= i < offset && i < s.bytes(id).len() ==> after[i] == s.bytes(id)[i]
            &&& forall|i: int| s.bytes(id).len() <= i < offset ==> after[i] == 0
        }),
        s.write(id, offset, data).nodes[id as int].attr.size == offset + data.len(),
        s.write(id, offset, data).nodes[id as int].attr.used == offset + data.len(),
{
    let after = s.write(id, offset, data).bytes(id);
    assert(after.subrange(offset as int, offset + data.len()) =~= data);
}

/// Setting the size of a file to 0 leaves it without bytes, with size and used 0.
pub proof fn lemma_truncate_to_nothing(s: FsState, id: u64, change: SetAttr, now: Timestamp)
    requires
        s.is_file(id),
        change.size == Some(0u64),
    ensures
        s.setattr(id, change, now).bytes(id) == Seq::<u8>::empty(),
        s.setattr(id, change, now).nodes[id as int].attr.size == 0,
        s.setattr(id, change, now).nodes[id as int].attr.used == 0,
{
    assert(s.setattr(id, change, now).bytes(id) =~= Seq::<u8>::empty());
}

/// Setting the size of a file to no less than its length keeps its bytes and fills the
/// rest with zeros; size and used become the new length.
pub proof fn lemma_grow_fills_with_zeros(s: FsState, id: u64, change: SetAttr, now: Timestamp, size: u64)
    requires
        s.is_file(id),
        change.size == Some(size),
        size >= s.bytes(id).len(),
    ensures
        ({
            let grown = s.setattr(id, change, now).bytes(id);
            &&& grown.len() == size
            &&& grown.subrange(0, s.bytes(id).len() as int) == s.bytes(id)
            &&& forall|i: int| s.bytes(id).len() <= i < size ==> grown[i] == 0
        }),
        s.setattr(id, change, now).nodes[id as int].attr.size == size,
        s.setattr(id, change, now).nodes[id as int].attr.used == size,
{
    let grown = s.setattr(id, change, now).bytes(id);
    assert(grown.subrange(0, s.bytes(id).len() as int) =~= s.bytes(id));
}

/// Setting the size of a file to less than its length keeps the bytes up to there.
pub proof fn lemma_shrink_keeps_head(s: FsState, id: u64, change: SetAttr, now: Timestamp, size: u64)
    requires
        s.is_file(id),
        change.size == Some(size),
        size <= s.bytes(id).len(),
    ensures
        s.setattr(id, change, now).bytes(id) == s.bytes(id).subrange(0, size as int),
{
    assert(s.setattr(id, change, now).bytes(id) =~= s.bytes(id).subrange(0, size as int));
}

/// A name made of an ordinal, an instrument and a note, none of which holds an
/// underscore, stands for the trigger of that note on that instrument, where the
/// instrument in lower case and the note in upper case are in the vocabularies; where
/// either is not, the name stands for nothing.
pub proof fn lemma_trigger_of_fields(ordinal: Seq<u8>, instrument: Seq<u8>, note: Seq<u8>)
    requires
        !ordinal.contains(UNDERSCORE),
        !instrument.contains(UNDERSCORE),
        !note.contains(UNDERSCORE),
    ensures
        trigger_of(trigger_name(ordinal, instrument, note)) == (match (
            note_of(upper(note)),
            instrument_of(lower(instrument)),
        ) {
            (Some(n), Some(i)) => Some(TriggerEvent { note: n, instrument: i }),
            _ => None,
        }),
{
    let name = trigger_name(ordinal, instrument, note);
    let w = (ordinal, instrument, note);
    assert(has_fields(name, w.0, w.1, w.2));
    let f = fields_of(name);
    lemma_fields_unique(name, ordinal, instrument, note, f.0, f.1, f.2);
}

/// Reading a file whose name stands for a trigger, and is no sequence trigger, emits
/// exactly that trigger. Reading a file whose name stands for nothing emits nothing.
/// Either way the read answers the stored bytes.
pub proof fn lemma_read_emits_own_trigger(s: FsState, id: u64, offset: u64, count: u32)
    requires
        s.is_file(id),
        !is_sequence_name(s.nodes[id as int].name),
    ensures
        s.read(id, offset, count) is Ok,
        s.read(id, offset, count).unwrap().events == single_events(s.nodes[id as int].name),
        trigger_of(s.nodes[id as int].name) matches Some(e) ==> s.read(id, offset, count).unwrap().events
            == seq![e],
        trigger_of(s.nodes[id as int].name) is None ==> s.read(id, offset, count).unwrap().events.len()
            == 0,
        offset == 0 && count >= s.bytes(id).len() ==> s.read(id, offset, count).unwrap().data == s.bytes(
            id,
        ) && s.read(id, offset, count).unwrap().eof,
{
    if offset == 0 && count >= s.bytes(id).len() {
        assert(s.read(id, offset, count).unwrap().data =~= s.bytes(id));
    }
}

/// Reading a file named `<ordinal>_<instrument>_<note>.txt`, with an instrument and a note
/// of the vocabularies in any case and an ordinal that does not begin with `play`, emits
/// exactly one trigger: that note on that instrument.
pub proof fn lemma_read_of_trigger_name(
    s: FsState,
    id: u64,
    offset: u64,
    count: u32,
    ordinal: Seq<u8>,
    instrument: Seq<u8>,
    note: Seq<u8>,
    event: TriggerEvent,
)
    requires
        s.is_file(id),
        s.nodes[id as int].name == trigger_name(ordinal, instrument, note),
        !ordinal.contains(UNDERSCORE),
        !instrument.contains(UNDERSCORE),
        !note.contains(UNDERSCORE),
        !is_sequence_name(s.nodes[id as int].name),
        instrument_of(lower(instrument)) == Some(event.instrument),
        note_of(upper(note)) == Some(event.note),
    ensures
        s.read(id, offset, count) is Ok,
        s.read(id, offset, count).unwrap().events == seq![event],
{
    lemma_trigger_of_fields(ordinal, instrument, note);
}

/// What a read answers in bytes and end flag does not depend on the file's name, and so
/// not on the triggers that the read emits.
pub proof fn lemma_read_data_ignores_name(s: FsState, t: FsState, id: u64, offset: u64, count: u32)
    requires
        s.is_file(id),
        t.is_file(id),
        s.bytes(id) == t.bytes(id),
    ensures
        s.read(id, offset, count).unwrap().data == t.read(id, offset, count).unwrap().data,
        s.read(id, offset, count).unwrap().eof == t.read(id, offset, count).unwrap().eof,
{
}

/// A sequence plays one trigger for each sibling that takes part, in ascending
/// lexicographic order of their names: the names played are sorted, they are the
/// siblings that take part, each as often as it occurs, and every trigger is the one that
/// its name stands for.
pub proof fn lemma_sequence_is_sorted(siblings: Seq<Seq<u8>>)
    ensures
        sorted_by(sequence_names(siblings), name_order()),
        sequence_names(siblings).to_multiset() == siblings.filter(sequence_filter()).to_multiset(),
        sequence_events(siblings).len() == siblings.filter(sequence_filter()).len(),
        forall|i: int|
            0 <= i < sequence_events(siblings).len() ==> {
                &&& plays_in_sequence(sequence_names(siblings)[i])
                &&& trigger_of(sequence_names(siblings)[i]) == Some(#[trigger] sequence_events(siblings)[i])
            },
{
    broadcast use vstd::seq_lib::group_to_multiset_ensures;

    lemma_name_order_total();
    let chosen = siblings.filter(sequence_filter());
    let names = sequence_names(siblings);
    chosen.lemma_sort_by_ensures(name_order());
    assert(names.to_multiset() =~= chosen.to_multiset());
    assert(names.len() == chosen.len()) by {
        assert(names.to_multiset().len() == names.len());
        assert(chosen.to_multiset().len() == chosen.len());
    }
    assert forall|i: int| 0 <= i < names.len() implies plays_in_sequence(#[trigger] names[i]) by {
        assert(names.contains(names[i]));
        assert(chosen.contains(names[i]));
        let j = choose|j: int| 0 <= j < chosen.len() && chosen[j] == names[i];
        siblings.lemma_filter_pred(sequence_filter(), j);
    }
    assert forall|i: int| 0 <= i < sequence_events(siblings).len() implies {
        &&& plays_in_sequence(sequence_names(siblings)[i])
        &&& trigger_of(sequence_names(siblings)[i]) == Some(#[trigger] sequence_events(siblings)[i])
    } by {
        assert(plays_in_sequence(names[i]));
        assert(sequence_events(siblings)[i] == event_of()(names[i]));
    }
}

/// Reading a sequence trigger emits the triggers of the nodes in its parent's child list.
pub proof fn lemma_read_plays_siblings(s: FsState, id: u64, offset: u64, count: u32)
    requires
        s.is_file(id),
        is_sequence_name(s.nodes[id as int].name),
        s.is_dir(s.nodes[id as int].parent),
    ensures
        s.read(id, offset, count) is Ok,
        s.read(id, offset, count).unwrap().events == sequence_events(
            s.child_names(s.nodes[id as int].parent),
        ),
{
}

/// The pages that a client gets who lists `dir` to its end, `max_entries` at a time: the
/// first page resumes after `start_after`, and every further page after the last id of
/// the page before it.
pub open spec fn listing(s: FsState, dir: u64, start_after: u64, max_entries: nat) -> Seq<PageView>
    decreases s.children(dir).len() - s.page_start(dir, start_after),
    when s.wf() && s.is_dir(dir) && s.is_cookie(dir, start_after) && max_entries >= 1
    via listing_decreases
{
    let page = s.readdir(dir, start_after, max_entries).unwrap();
    if page.end {
        seq![page]
    } else {
        seq![page] + listing(s, dir, page.entries.last().fileid, max_entries)
    }
}

/// The entries of a run of pages, one page after the other.
pub open spec fn joined(pages: Seq<PageView>) -> Seq<EntryView>
    decreases pages.len(),
{
    if pages.len() == 0 {
        Seq::empty()
    } else {
        pages.first().entries + joined(pages.drop_first())
    }
}

/// In a list without repeats, the place of an item is the place at which it stands.
proof fn lemma_place_of(kids: Seq<u64>, i: int)
    requires
        kids.no_duplicates(),
        0 <= i < kids.len(),
    ensures
        kids.contains(kids[i]),
        kids.index_of(kids[i]) == i,
{
    assert(kids.contains(kids[i]));
    let j = kids.index_of(kids[i]);
    assert(0 <= j < kids.len() && kids[j] == kids[i]);
}

/// A page that does not reach the end holds `max_entries` entries, and the listing that
/// resumes after its last id begins where the page stopped.
proof fn lemma_resume(s: FsState, dir: u64, start_after: u64, max_entries: nat)
    requires
        s.wf(),
        s.is_dir(dir),
        s.is_cookie(dir, start_after),
        max_entries >= 1,
    ensures
        0 <= s.page_start(dir, start_after) <= s.children(dir).len(),
        s.readdir(dir, start_after, max_entries) is Ok,
        !s.readdir(dir, start_after, max_entries).unwrap().end ==> {
            let page = s.readdir(dir, start_after, max_entries).unwrap();
            &&& page.entries.len() == max_entries
            &&& s.is_cookie(dir, page.entries.last().fileid)
            &&& s.page_start(dir, page.entries.last().fileid) == s.page_start(dir, start_after)
                + max_entries
        },
{
    let kids = s.children(dir);
    assert(s.nodes[dir as int].children().no_duplicates());
    if start_after != 0 {
        let j = kids.index_of(start_after);
        assert(0 <= j < kids.len());
    }
    let start = s.page_start(dir, start_after);
    let page = s.readdir(dir, start_after, max_entries).unwrap();
    if !page.end {
        let stop = start + max_entries;
        let last = page.entries.last().fileid;
        assert(last == kids[stop - 1]);
        lemma_place_of(kids, stop - 1);
        assert(last == s.nodes[dir as int].children()[stop - 1]);
        assert(last != 0);
    }
}

#[via_fn]
proof fn listing_decreases(s: FsState, dir: u64, start_after: u64, max_entries: nat) {
    lemma_resume(s, dir, start_after, max_entries);
}

/// Paging, from any resume point: the pages of a listing, one after the other, hold the
/// entries of the children behind the resume point, each once and in list order; the
/// last page says that it reaches the end and no page before it does.
pub proof fn lemma_listing_from(s: FsState, dir: u64, start_after: u64, max_entries: nat)
    requires
        s.wf(),
        s.is_dir(dir),
        s.is_cookie(dir, start_after),
        max_entries >= 1,
    ensures
        joined(listing(s, dir, start_after, max_entries)) == s.children(dir).subrange(
            s.page_start(dir, start_after),
            s.children(dir).len() as int,
        ).map_values(|c: u64| s.entry(c)),
        listing(s, dir, start_after, max_entries).len() >= 1,
        listing(s, dir, start_after, max_entries).last().end,
        forall|i: int|
            0 <= i < listing(s, dir, start_after, max_entries).len() - 1 ==> !(#[trigger] listing(
                s,
                dir,
                start_after,
                max_entries,
            )[i]).end,
    decreases s.children(dir).len() - s.page_start(dir, start_after),
{
    lemma_resume(s, dir, start_after, max_entries);
    let kids = s.children(dir);
    let n = kids.len() as int;
    let start = s.page_start(dir, start_after);
    let page = s.readdir(dir, start_after, max_entries).unwrap();
    let pages = listing(s, dir, start_after, max_entries);
    let entry = |c: u64| s.entry(c);
    if page.end {
        assert(pages =~= seq![page]);
        assert(pages.drop_first() =~= Seq::<PageView>::empty());
        assert(joined(pages.drop_first()) =~= Seq::<EntryView>::empty());
        assert(joined(pages) =~= page.entries);
    } else {
        let next = page.entries.last().fileid;
        let rest = listing(s, dir, next, max_entries);
        lemma_listing_from(s, dir, next, max_entries);
        assert(pages =~= seq![page] + rest);
        assert(pages.drop_first() =~= rest);
        let stop = start + max_entries;
        assert(joined(pages) =~= page.entries + joined(rest));
        assert(kids.subrange(start, n).map_values(entry) =~= kids.subrange(start, stop).map_values(entry)
            + kids.subrange(stop, n).map_values(entry));
        assert forall|i: int| 0 <= i < pages.len() - 1 implies !(#[trigger] pages[i]).end by {
            if i > 0 {
                assert(pages[i] == rest[i - 1]);
            }
        }
        assert(pages.last() == rest.last());
    }
}

/// Paging: the pages of a listing read from the beginning, one after the other, hold the
/// entries of all children, each once and in list order; the last page says that it
/// reaches the end and no page before it does.
pub proof fn lemma_paging(s: FsState, dir: u64, max_entries: nat)
    requires
        s.wf(),
        s.is_dir(dir),
        max_entries >= 1,
    ensures
        joined(listing(s, dir, 0, max_entries)) == s.children(dir).map_values(|c: u64| s.entry(c)),
        listing(s, dir, 0, max_entries).len() >= 1,
        listing(s, dir, 0, max_entries).last().end,
        forall|i: int|
            0 <= i < listing(s, dir, 0, max_entries).len() - 1 ==> !(#[trigger] listing(
                s,
                dir,
                0,
                max_entries,
            )[i]).end,
{
    lemma_listing_from(s, dir, 0, max_entries);
    let kids = s.children(dir);
    assert(kids.subrange(0, kids.len() as int) =~= kids);
}

} // verus!
