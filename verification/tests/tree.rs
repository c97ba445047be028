use synthfs::attr::{FileType, FsError};
use synthfs::fs::SynthFS;

fn ids(fs: &SynthFS, dir: u64) -> Vec<u64> {
    fs.readdir(dir, 0, 1000).unwrap().entries.iter().map(|e| e.fileid).collect()
}

#[test]
fn create_file_under_root_gets_next_id() {
    let mut fs = SynthFS::default();
    let before = fs.len();
    assert_eq!(before, 36);
    let (id, attr) = fs.create(1, b"x.txt").unwrap();
    assert_eq!(id, before);
    assert_eq!(attr.size, 0);
    assert_eq!(attr.used, 0);
    assert_eq!(attr.ftype, FileType::Regular);
    assert_eq!(attr.fileid, id);
    assert_eq!(attr.mode, 0o755);
    assert_eq!(fs.len(), before + 1);
    assert_eq!(fs.lookup(1, b"x.txt"), Ok(id));
    assert_eq!(ids(&fs, 1), vec![2, 28, 36]);
    assert_eq!(fs.getattr(id), Ok(attr));
}

#[test]
fn lookup_in_sine_directory_finds_known_id() {
    let fs = SynthFS::default();
    assert_eq!(fs.lookup(2, b"1_sine_A.txt"), Ok(3));
    assert_eq!(fs.lookup(2, b"24_lancer_G#2.txt"), Ok(26));
    assert_eq!(fs.lookup(2, b"play.txt"), Ok(27));
    assert_eq!(fs.lookup(28, b"play.txt"), Ok(35));
    assert_eq!(fs.lookup(1, b"sine"), Ok(2));
    assert_eq!(fs.lookup(1, b"song1"), Ok(28));
}

#[test]
fn lookup_finds_every_child_by_its_name() {
    let fs = SynthFS::default();
    for dir in [1u64, 2, 28] {
        let page = fs.readdir(dir, 0, 1000).unwrap();
        assert!(page.end);
        for entry in page.entries {
            assert_eq!(fs.lookup(dir, &entry.name), Ok(entry.fileid));
        }
    }
}

#[test]
fn lookup_dot_is_the_directory_and_dot_dot_its_parent() {
    let fs = SynthFS::default();
    assert_eq!(fs.root_dir(), 1);
    assert_eq!(fs.lookup(1, b"."), Ok(1));
    assert_eq!(fs.lookup(1, b".."), Ok(1));
    assert_eq!(fs.lookup(2, b"."), Ok(2));
    assert_eq!(fs.lookup(2, b".."), Ok(1));
    assert_eq!(fs.lookup(28, b".."), Ok(1));
}

#[test]
fn lookup_reports_missing_and_wrong_kind() {
    let fs = SynthFS::default();
    assert_eq!(fs.lookup(2, b"nothing"), Err(FsError::NotFound));
    assert_eq!(fs.lookup(2, b"1_sine_a.txt"), Err(FsError::NotFound));
    assert_eq!(fs.lookup(2, b""), Err(FsError::NotFound));
    assert_eq!(fs.lookup(3, b"x"), Err(FsError::NotDirectory));
    assert_eq!(fs.lookup(3, b"."), Err(FsError::NotDirectory));
    assert_eq!(fs.lookup(0, b"x"), Err(FsError::NotDirectory));
    assert_eq!(fs.lookup(36, b"x"), Err(FsError::NotFound));
    assert_eq!(fs.lookup(u64::MAX, b"."), Err(FsError::NotFound));
}

#[test]
fn lookup_answers_the_first_of_two_children_with_one_name() {
    let mut fs = SynthFS::default();
    let (first, _) = fs.create(28, b"twin").unwrap();
    let (second, _) = fs.create(28, b"twin").unwrap();
    assert_ne!(first, second);
    assert_eq!(fs.lookup(28, b"twin"), Ok(first));
    assert_eq!(fs.remove(28, b"twin"), Ok(()));
    assert_eq!(fs.lookup(28, b"twin"), Ok(second));
}

#[test]
fn a_child_named_dot_is_shadowed_by_the_directory() {
    let mut fs = SynthFS::default();
    let (id, _) = fs.create(28, b".").unwrap();
    assert_eq!(fs.lookup(28, b"."), Ok(28));
    assert!(ids(&fs, 28).contains(&id));
}

#[test]
fn mkdir_makes_an_empty_directory() {
    let mut fs = SynthFS::default();
    let (id, attr) = fs.mkdir(1, b"songs").unwrap();
    assert_eq!(id, 36);
    assert_eq!(attr.ftype, FileType::Directory);
    assert_eq!(attr.mode, 0o777);
    assert_eq!(attr.size, 0);
    assert_eq!(attr.used, 0);
    assert_eq!(attr.fileid, 36);
    assert_eq!(fs.lookup(1, b"songs"), Ok(36));
    assert_eq!(fs.lookup(36, b".."), Ok(1));
    let page = fs.readdir(36, 0, 10).unwrap();
    assert!(page.entries.is_empty());
    assert!(page.end);
    let (inner, _) = fs.create(36, b"1_organ_E.txt").unwrap();
    assert_eq!(inner, 37);
    assert_eq!(ids(&fs, 36), vec![37]);
}

#[test]
fn create_under_a_file_links_the_node_nowhere() {
    let mut fs = SynthFS::default();
    let (id, attr) = fs.create(3, b"orphan").unwrap();
    assert_eq!(id, 36);
    assert_eq!(attr.size, 0);
    assert_eq!(fs.getattr(36), Ok(attr));
    assert_eq!(fs.lookup(3, b"orphan"), Err(FsError::NotDirectory));
    let (next, _) = fs.mkdir(1000, b"lost").unwrap();
    assert_eq!(next, 37);
    assert_eq!(ids(&fs, 1), vec![2, 28]);
}

#[test]
fn remove_unlinks_and_keeps_the_slot() {
    let mut fs = SynthFS::default();
    let before = fs.getattr(30).unwrap();
    assert_eq!(fs.remove(28, b"2_lancer_D.txt"), Ok(()));
    assert_eq!(fs.lookup(28, b"2_lancer_D.txt"), Err(FsError::NotFound));
    assert_eq!(ids(&fs, 28), vec![29, 31, 32, 33, 34, 35]);
    assert_eq!(fs.len(), 36);
    assert_eq!(fs.getattr(30), Ok(before));
    assert_eq!(fs.read(30, 0, 10).unwrap().data, b"D".to_vec());
    let (id, _) = fs.create(28, b"new").unwrap();
    assert_eq!(id, 36);
}

#[test]
fn remove_reports_what_is_not_there() {
    let mut fs = SynthFS::default();
    assert_eq!(fs.remove(28, b"nothing"), Err(FsError::NotFound));
    assert_eq!(fs.remove(3, b"x"), Err(FsError::NotFound));
    assert_eq!(fs.remove(99, b"x"), Err(FsError::NotFound));
    assert_eq!(fs.remove(2, b"."), Err(FsError::NotFound));
    assert_eq!(ids(&fs, 28), vec![29, 30, 31, 32, 33, 34, 35]);
}

#[test]
fn remove_takes_a_directory_out_too() {
    let mut fs = SynthFS::default();
    assert_eq!(fs.remove(1, b"song1"), Ok(()));
    assert_eq!(ids(&fs, 1), vec![2]);
    assert_eq!(ids(&fs, 28), vec![29, 30, 31, 32, 33, 34, 35]);
}

#[test]
fn rename_keeps_id_and_bytes() {
    let mut fs = SynthFS::default();
    assert_eq!(fs.rename(2, b"5_bell_B.txt", 28, b"7_bell_B.txt"), Ok(()));
    assert_eq!(fs.lookup(2, b"5_bell_B.txt"), Err(FsError::NotFound));
    assert_eq!(fs.lookup(28, b"7_bell_B.txt"), Ok(7));
    let out = fs.read(7, 0, 100).unwrap();
    assert_eq!(out.data, b"B".to_vec());
    assert!(out.eof);
    assert_eq!(ids(&fs, 28), vec![29, 30, 31, 32, 33, 34, 35, 7]);
    assert_eq!(ids(&fs, 2).len(), 24);
    assert!(!ids(&fs, 2).contains(&7));
    assert_eq!(fs.len(), 36);
}

#[test]
fn rename_within_one_directory_moves_the_file_to_the_end() {
    let mut fs = SynthFS::default();
    fs.write(29, 0, b"some longer content").unwrap();
    assert_eq!(fs.rename(28, b"1_lancer_C.txt", 28, b"renamed"), Ok(()));
    assert_eq!(fs.lookup(28, b"renamed"), Ok(29));
    assert_eq!(fs.lookup(28, b"1_lancer_C.txt"), Err(FsError::NotFound));
    assert_eq!(ids(&fs, 28), vec![30, 31, 32, 33, 34, 35, 29]);
    assert_eq!(fs.read(29, 0, 100).unwrap().data, b"some longer content".to_vec());
    assert_eq!(fs.getattr(29).unwrap().size, 19);
}

#[test]
fn rename_makes_the_attributes_anew() {
    let mut fs = SynthFS::default();
    let change = synthfs::attr::SetAttr {
        uid: Some(1),
        gid: Some(2),
        size: None,
        atime: synthfs::attr::SetTime::DontChange,
        mtime: synthfs::attr::SetTime::DontChange,
    };
    fs.setattr(29, change).unwrap();
    assert_eq!(fs.getattr(29).unwrap().uid, 1);
    assert_eq!(fs.rename(28, b"1_lancer_C.txt", 2, b"c"), Ok(()));
    let attr = fs.getattr(29).unwrap();
    assert_eq!(attr.uid, 507);
    assert_eq!(attr.gid, 507);
    assert_eq!(attr.size, 1);
    assert_eq!(attr.fileid, 29);
}

#[test]
fn rename_refuses_missing_sources_and_directories() {
    let mut fs = SynthFS::default();
    assert_eq!(fs.rename(2, b"nothing", 28, b"x"), Err(FsError::NotFound));
    assert_eq!(fs.rename(1, b"sine", 28, b"moved"), Err(FsError::NotFound));
    assert_eq!(fs.rename(3, b"x", 28, b"y"), Err(FsError::NotFound));
    assert_eq!(fs.rename(99, b"x", 28, b"y"), Err(FsError::NotFound));
    assert_eq!(fs.rename(2, b"1_sine_A.txt", 99, b"y"), Err(FsError::NotFound));
    assert_eq!(fs.lookup(2, b"1_sine_A.txt"), Ok(3));
    assert_eq!(fs.lookup(1, b"sine"), Ok(2));
    assert_eq!(ids(&fs, 1), vec![2, 28]);
    assert_eq!(ids(&fs, 28), vec![29, 30, 31, 32, 33, 34, 35]);
}

#[test]
fn rename_into_a_file_links_the_node_nowhere() {
    let mut fs = SynthFS::default();
    assert_eq!(fs.rename(28, b"1_lancer_C.txt", 30, b"x"), Ok(()));
    assert_eq!(ids(&fs, 28), vec![30, 31, 32, 33, 34, 35]);
    assert_eq!(fs.read(29, 0, 10).unwrap().data, b"C".to_vec());
}

#[test]
fn readdir_pages_through_twenty_five_children() {
    let fs = SynthFS::default();
    let first = fs.readdir(2, 0, 5).unwrap();
    let got: Vec<u64> = first.entries.iter().map(|e| e.fileid).collect();
    assert_eq!(got, vec![3, 4, 5, 6, 7]);
    assert!(!first.end);
    let rest = fs.readdir(2, 7, 100).unwrap();
    let got: Vec<u64> = rest.entries.iter().map(|e| e.fileid).collect();
    assert_eq!(got, (8..28).collect::<Vec<u64>>());
    assert_eq!(got.len(), 20);
    assert!(rest.end);
}

#[test]
fn readdir_entries_carry_name_and_attributes() {
    let fs = SynthFS::default();
    let page = fs.readdir(1, 0, 10).unwrap();
    assert_eq!(page.entries.len(), 2);
    assert_eq!(page.entries[0].fileid, 2);
    assert_eq!(page.entries[0].name, b"sine".to_vec());
    assert_eq!(page.entries[0].attr, fs.getattr(2).unwrap());
    assert_eq!(page.entries[1].fileid, 28);
    assert_eq!(page.entries[1].name, b"song1".to_vec());
    assert_eq!(page.entries[1].attr, fs.getattr(28).unwrap());
    assert!(page.end);
}

#[test]
fn readdir_pages_give_the_whole_list_once_for_every_page_size() {
    let mut fs = SynthFS::default();
    fs.create(2, b"extra").unwrap();
    for dir in [1u64, 2, 28] {
        let all = ids(&fs, dir);
        for max in 1usize..30 {
            let mut seen: Vec<u64> = Vec::new();
            let mut cookie = 0u64;
            let mut pages = 0usize;
            loop {
                let page = fs.readdir(dir, cookie, max).unwrap();
                pages += 1;
                assert!(page.entries.len() <= max);
                seen.extend(page.entries.iter().map(|e| e.fileid));
                if page.end {
                    break;
                }
                assert_eq!(page.entries.len(), max);
                cookie = page.entries.last().unwrap().fileid;
            }
            assert_eq!(seen, all);
            assert_eq!(pages, std::cmp::max(1, (all.len() + max - 1) / max));
        }
    }
}

#[test]
fn readdir_end_flag_at_the_exact_boundary() {
    let fs = SynthFS::default();
    let page = fs.readdir(28, 0, 7).unwrap();
    assert_eq!(page.entries.len(), 7);
    assert!(page.end);
    let page = fs.readdir(28, 0, 6).unwrap();
    assert_eq!(page.entries.len(), 6);
    assert!(!page.end);
    let page = fs.readdir(28, 34, 1).unwrap();
    assert_eq!(page.entries.len(), 1);
    assert_eq!(page.entries[0].fileid, 35);
    assert!(page.end);
    let page = fs.readdir(28, 35, 5).unwrap();
    assert!(page.entries.is_empty());
    assert!(page.end);
}

#[test]
fn readdir_with_no_room_lists_nothing() {
    let fs = SynthFS::default();
    let page = fs.readdir(28, 0, 0).unwrap();
    assert!(page.entries.is_empty());
    assert!(!page.end);
    let page = fs.readdir(28, 35, 0).unwrap();
    assert!(page.entries.is_empty());
    assert!(page.end);
}

#[test]
fn readdir_reports_bad_cookies_and_wrong_kinds() {
    let mut fs = SynthFS::default();
    assert!(matches!(fs.readdir(2, 29, 5), Err(FsError::BadCookie)));
    assert!(matches!(fs.readdir(2, 1000, 5), Err(FsError::BadCookie)));
    assert!(matches!(fs.readdir(3, 0, 5), Err(FsError::NotDirectory)));
    assert!(matches!(fs.readdir(36, 0, 5), Err(FsError::NotFound)));
    fs.remove(28, b"3_lancer_E.txt").unwrap();
    assert!(matches!(fs.readdir(28, 31, 5), Err(FsError::BadCookie)));
}

#[test]
fn operations_that_are_not_offered_say_so() {
    let fs = SynthFS::default();
    let change = synthfs::attr::SetAttr {
        uid: None,
        gid: None,
        size: None,
        atime: synthfs::attr::SetTime::DontChange,
        mtime: synthfs::attr::SetTime::DontChange,
    };
    assert_eq!(fs.create_exclusive(1, b"x"), Err(FsError::NotSupported));
    assert_eq!(fs.symlink(1, b"link", b"/sine", &change), Err(FsError::ReadOnly));
    assert_eq!(fs.readlink(3), Err(FsError::NotSupported));
}
