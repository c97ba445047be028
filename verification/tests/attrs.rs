use synthfs::attr::{FileType, FsError, SetAttr, SetTime, Timestamp};
use synthfs::clock::to_timestamp;
use synthfs::fs::SynthFS;

fn no_change() -> SetAttr {
    SetAttr::none()
}

fn read_all(fs: &SynthFS, id: u64) -> Vec<u8> {
    fs.read(id, 0, u32::MAX).unwrap().data
}

#[test]
fn getattr_of_seeded_nodes() {
    let fs = SynthFS::default();
    let file = fs.getattr(6).unwrap();
    assert_eq!(file.ftype, FileType::Regular);
    assert_eq!(file.mode, 0o755);
    assert_eq!(file.nlink, 1);
    assert_eq!(file.uid, 507);
    assert_eq!(file.gid, 507);
    assert_eq!(file.size, 3);
    assert_eq!(file.used, 3);
    assert_eq!(file.fileid, 6);
    assert_eq!(file.atime, Timestamp { seconds: 0, nseconds: 0 });
    assert_eq!(file.mtime, Timestamp { seconds: 0, nseconds: 0 });
    assert_eq!(file.ctime, Timestamp { seconds: 0, nseconds: 0 });
    let dir = fs.getattr(2).unwrap();
    assert_eq!(dir.ftype, FileType::Directory);
    assert_eq!(dir.mode, 0o777);
    assert_eq!(dir.size, 0);
    assert_eq!(dir.used, 0);
    assert_eq!(dir.fileid, 2);
    assert_eq!(fs.getattr(36), Err(FsError::NotFound));
    assert_eq!(fs.getattr(27).unwrap().size, 4);
}

#[test]
fn every_slot_reports_its_own_id_and_length() {
    let mut fs = SynthFS::default();
    fs.create(1, b"a").unwrap();
    fs.write(36, 3, b"xyz").unwrap();
    for id in 0..fs.len() {
        let attr = fs.getattr(id).unwrap();
        assert_eq!(attr.fileid, id);
        assert_eq!(attr.size, attr.used);
        match attr.ftype {
            FileType::Regular => assert_eq!(attr.size as usize, read_all(&fs, id).len()),
            FileType::Directory => assert_eq!(attr.size, 0),
        }
    }
}

#[test]
fn no_change_changes_nothing() {
    let mut fs = SynthFS::default();
    let before = fs.getattr(7).unwrap();
    assert_eq!(fs.setattr(7, no_change()), Ok(before));
    assert_eq!(fs.getattr(7), Ok(before));
    assert_eq!(read_all(&fs, 7), b"B".to_vec());
}

#[test]
fn setattr_size_zero_truncates() {
    let mut fs = SynthFS::default();
    assert_eq!(read_all(&fs, 6), b"A#2".to_vec());
    let change = SetAttr { size: Some(0), ..no_change() };
    let attr = fs.setattr(6, change).unwrap();
    assert_eq!(attr.size, 0);
    assert_eq!(attr.used, 0);
    assert_eq!(read_all(&fs, 6), Vec::<u8>::new());
    assert_eq!(fs.getattr(6), Ok(attr));
}

#[test]
fn setattr_size_growth_fills_with_zeros() {
    let mut fs = SynthFS::default();
    let change = SetAttr { size: Some(6), ..no_change() };
    let attr = fs.setattr(6, change).unwrap();
    assert_eq!(attr.size, 6);
    assert_eq!(attr.used, 6);
    assert_eq!(read_all(&fs, 6), vec![b'A', b'#', b'2', 0, 0, 0]);
}

#[test]
fn setattr_size_shrinks_to_a_prefix() {
    let mut fs = SynthFS::default();
    let change = SetAttr { size: Some(2), ..no_change() };
    let attr = fs.setattr(6, change).unwrap();
    assert_eq!(attr.size, 2);
    assert_eq!(attr.used, 2);
    assert_eq!(read_all(&fs, 6), b"A#".to_vec());
}

#[test]
fn setattr_size_on_a_directory_is_ignored() {
    let mut fs = SynthFS::default();
    let change = SetAttr { size: Some(10), uid: Some(9), ..no_change() };
    let attr = fs.setattr(2, change).unwrap();
    assert_eq!(attr.size, 0);
    assert_eq!(attr.used, 0);
    assert_eq!(attr.uid, 9);
    assert_eq!(fs.readdir(2, 0, 100).unwrap().entries.len(), 25);
}

#[test]
fn setattr_sets_each_field_by_itself() {
    let mut fs = SynthFS::default();
    let before = fs.getattr(3).unwrap();
    let attr = fs.setattr(3, SetAttr { uid: Some(1000), ..no_change() }).unwrap();
    assert_eq!(attr.uid, 1000);
    assert_eq!(attr.gid, before.gid);
    let attr = fs.setattr(3, SetAttr { gid: Some(2000), ..no_change() }).unwrap();
    assert_eq!(attr.uid, 1000);
    assert_eq!(attr.gid, 2000);
    let t = Timestamp { seconds: 11, nseconds: 22 };
    let attr = fs.setattr(3, SetAttr { atime: SetTime::SetToClientTime(t), ..no_change() }).unwrap();
    assert_eq!(attr.atime, t);
    assert_eq!(attr.mtime, before.mtime);
    let u = Timestamp { seconds: 33, nseconds: 44 };
    let attr = fs.setattr(3, SetAttr { mtime: SetTime::SetToClientTime(u), ..no_change() }).unwrap();
    assert_eq!(attr.atime, t);
    assert_eq!(attr.mtime, u);
    assert_eq!(attr.ctime, before.ctime);
    assert_eq!(attr.size, before.size);
    assert_eq!(attr.mode, before.mode);
    assert_eq!(read_all(&fs, 3), b"A".to_vec());
}

#[test]
fn setattr_at_takes_the_given_server_time() {
    let mut fs = SynthFS::default();
    let now = Timestamp { seconds: 1_700_000_000, nseconds: 5 };
    let client = Timestamp { seconds: 1, nseconds: 2 };
    let change = SetAttr {
        atime: SetTime::SetToServerTime,
        mtime: SetTime::SetToClientTime(client),
        ..no_change()
    };
    let attr = fs.setattr_at(3, change, now).unwrap();
    assert_eq!(attr.atime, now);
    assert_eq!(attr.mtime, client);
    let change = SetAttr { mtime: SetTime::SetToServerTime, ..no_change() };
    let attr = fs.setattr_at(3, change, now).unwrap();
    assert_eq!(attr.atime, now);
    assert_eq!(attr.mtime, now);
}

#[test]
fn setattr_reads_the_clock_for_server_time() {
    let mut fs = SynthFS::default();
    let change =
        SetAttr { atime: SetTime::SetToServerTime, mtime: SetTime::SetToServerTime, ..no_change() };
    let attr = fs.setattr(3, change).unwrap();
    assert_ne!(attr.atime, Timestamp { seconds: 0, nseconds: 0 });
    assert!(attr.atime.nseconds < 1_000_000_000);
    assert_eq!(attr.atime, attr.mtime);
    assert_eq!(attr.ctime, Timestamp { seconds: 0, nseconds: 0 });
    let now = synthfs::clock::server_time();
    assert!(now.nseconds < 1_000_000_000);
    assert!(now.seconds >= attr.atime.seconds);
}

#[test]
fn setattr_reports_a_missing_id() {
    let mut fs = SynthFS::default();
    assert_eq!(fs.setattr(36, no_change()), Err(FsError::NotFound));
    let now = Timestamp { seconds: 1, nseconds: 1 };
    assert_eq!(fs.setattr_at(100, SetAttr { size: Some(0), ..no_change() }, now), Err(FsError::NotFound));
    assert_eq!(fs.len(), 36);
}

#[test]
fn write_beyond_the_end_fills_the_gap_with_zeros() {
    let mut fs = SynthFS::default();
    let attr = fs.write(3, 4, b"xy").unwrap();
    assert_eq!(attr.size, 6);
    assert_eq!(attr.used, 6);
    assert_eq!(read_all(&fs, 3), vec![b'A', 0, 0, 0, b'x', b'y']);
    assert_eq!(fs.getattr(3), Ok(attr));
}

#[test]
fn write_across_the_end_extends() {
    let mut fs = SynthFS::default();
    let attr = fs.write(6, 2, b"abcd").unwrap();
    assert_eq!(attr.size, 6);
    assert_eq!(read_all(&fs, 6), b"A#abcd".to_vec());
}

#[test]
fn write_within_the_file_overwrites_in_place() {
    let mut fs = SynthFS::default();
    let attr = fs.write(27, 1, b"xy").unwrap();
    assert_eq!(attr.size, 4);
    assert_eq!(attr.used, 4);
    assert_eq!(read_all(&fs, 27), b"PxyY".to_vec());
    let attr = fs.write(27, 0, b"play").unwrap();
    assert_eq!(attr.size, 4);
    assert_eq!(read_all(&fs, 27), b"play".to_vec());
}

#[test]
fn write_of_nothing_can_still_extend() {
    let mut fs = SynthFS::default();
    let attr = fs.write(3, 3, b"").unwrap();
    assert_eq!(attr.size, 3);
    assert_eq!(read_all(&fs, 3), vec![b'A', 0, 0]);
    let attr = fs.write(3, 1, b"").unwrap();
    assert_eq!(attr.size, 3);
}

#[test]
fn write_to_a_new_file() {
    let mut fs = SynthFS::default();
    let (id, _) = fs.create(1, b"x.txt").unwrap();
    let attr = fs.write(id, 0, b"hello").unwrap();
    assert_eq!(attr.size, 5);
    assert_eq!(read_all(&fs, id), b"hello".to_vec());
}

#[test]
fn write_leaves_a_directory_alone_and_reports_a_missing_id() {
    let mut fs = SynthFS::default();
    let before = fs.getattr(2).unwrap();
    assert_eq!(fs.write(2, 0, b"data"), Ok(before));
    assert_eq!(fs.readdir(2, 0, 100).unwrap().entries.len(), 25);
    assert_eq!(fs.write(36, 0, b"data"), Err(FsError::NotFound));
}

#[test]
fn a_clock_reading_becomes_a_timestamp() {
    assert_eq!(to_timestamp(None), Timestamp { seconds: 0, nseconds: 0 });
    assert_eq!(to_timestamp(Some((0, 0))), Timestamp { seconds: 0, nseconds: 0 });
    assert_eq!(to_timestamp(Some((1_700_000_000, 5))), Timestamp { seconds: 1_700_000_000, nseconds: 5 });
    assert_eq!(
        to_timestamp(Some((4_294_967_295, 999_999_999))),
        Timestamp { seconds: 4_294_967_295, nseconds: 999_999_999 }
    );
    assert_eq!(to_timestamp(Some((4_294_967_296, 1))), Timestamp { seconds: 0, nseconds: 1 });
    assert_eq!(to_timestamp(Some((4_294_967_296 + 42, 7))), Timestamp { seconds: 42, nseconds: 7 });
    assert_eq!(to_timestamp(Some((u64::MAX, 3))), Timestamp { seconds: u32::MAX, nseconds: 3 });
}
