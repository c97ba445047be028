use synthfs::attr::FsError;
use synthfs::fs::SynthFS;
use synthfs::order::{name_le, sort_names};
use synthfs::playback::{sample_path, worker_step, WorkerAction, WorkerEvent, PACING_MILLIS};
use synthfs::trigger::{
    expand_sequence, is_sequence_trigger, parse_trigger, single_trigger, Instrument, Note, TriggerEvent,
};

const NOTES: [(Note, &str); 24] = [
    (Note::A, "A"),
    (Note::ASharp, "A#"),
    (Note::A2, "A2"),
    (Note::ASharp2, "A#2"),
    (Note::B, "B"),
    (Note::B2, "B2"),
    (Note::C, "C"),
    (Note::CSharp, "C#"),
    (Note::C2, "C2"),
    (Note::CSharp2, "C#2"),
    (Note::D, "D"),
    (Note::DSharp, "D#"),
    (Note::D2, "D2"),
    (Note::DSharp2, "D#2"),
    (Note::E, "E"),
    (Note::E2, "E2"),
    (Note::F, "F"),
    (Note::FSharp, "F#"),
    (Note::F2, "F2"),
    (Note::FSharp2, "F#2"),
    (Note::G, "G"),
    (Note::GSharp, "G#"),
    (Note::G2, "G2"),
    (Note::GSharp2, "G#2"),
];

const INSTRUMENTS: [(Instrument, &str); 4] = [
    (Instrument::Bell, "bell"),
    (Instrument::Lancer, "lancer"),
    (Instrument::Organ, "organ"),
    (Instrument::Sine, "sine"),
];

fn ev(note: Note, instrument: Instrument) -> TriggerEvent {
    TriggerEvent { note, instrument }
}

#[test]
fn names_of_notes_and_instruments() {
    for (note, text) in NOTES {
        assert_eq!(note.name(), text);
    }
    for (instrument, text) in INSTRUMENTS {
        assert_eq!(instrument.name(), text);
    }
}

#[test]
fn every_note_on_every_instrument_parses() {
    for (instrument, iname) in INSTRUMENTS {
        for (k, (note, nname)) in NOTES.iter().enumerate() {
            let name = format!("{}_{}_{}.txt", k + 1, iname, nname);
            assert_eq!(parse_trigger(name.as_bytes()), Some(ev(*note, instrument)), "{}", name);
        }
    }
}

#[test]
fn parsing_ignores_the_case_of_instrument_and_note() {
    assert_eq!(parse_trigger(b"1_SINE_a.txt"), Some(ev(Note::A, Instrument::Sine)));
    assert_eq!(parse_trigger(b"1_Bell_c#2.txt"), Some(ev(Note::CSharp2, Instrument::Bell)));
    assert_eq!(parse_trigger(b"x_LaNcEr_g2.txt"), Some(ev(Note::G2, Instrument::Lancer)));
    assert_eq!(parse_trigger(b"77_oRGAN_f#.txt"), Some(ev(Note::FSharp, Instrument::Organ)));
}

#[test]
fn the_ordinal_is_any_run_without_underscore() {
    assert_eq!(parse_trigger(b"_sine_A.txt"), Some(ev(Note::A, Instrument::Sine)));
    assert_eq!(parse_trigger(b"first_sine_A.txt"), Some(ev(Note::A, Instrument::Sine)));
    assert_eq!(parse_trigger(b"0010_sine_A.txt"), Some(ev(Note::A, Instrument::Sine)));
    assert_eq!(parse_trigger(&[0xff, b'_', b's', b'i', b'n', b'e', b'_', b'A', b'.', b't', b'x', b't']),
        Some(ev(Note::A, Instrument::Sine)));
}

#[test]
fn names_outside_the_grammar_stand_for_nothing() {
    let none: [&[u8]; 26] = [
        b"",
        b".txt",
        b"1_sine_A",
        b"1_sine_A.TXT",
        b"1_sine_A.txt ",
        b"1_sine_A.tx",
        b"sine_A.txt",
        b"1_sine.txt",
        b"1__A.txt",
        b"1_sine_.txt",
        b"1_sine_A_.txt",
        b"1_sine_A_extra.txt",
        b"1_sine_A2xxxx_b.txt",
        b"1_sine_H.txt",
        b"1_sine_B#.txt",
        b"1_sine_E#.txt",
        b"1_sine_E#2.txt",
        b"1_sine_A3.txt",
        b"1_sine_A2#.txt",
        b"1_sine_A##.txt",
        b"1_sine_#.txt",
        b"1_sine_2.txt",
        b"1_piano_A.txt",
        b"1_sines_A.txt",
        b"1_sin_A.txt",
        b"1-sine-A.txt",
    ];
    for name in none {
        assert_eq!(parse_trigger(name), None, "{:?}", String::from_utf8_lossy(name));
        assert!(single_trigger(name).is_empty());
    }
    assert_eq!(parse_trigger(b"1_sine_A.txt_sine_A.txt"), None);
    assert_eq!(parse_trigger(b"play.txt"), None);
    assert_eq!(parse_trigger(b"1_s\xc4\xb1ne_A.txt"), None);
}

#[test]
fn single_trigger_emits_the_one_event() {
    assert_eq!(single_trigger(b"5_bell_B.txt"), vec![ev(Note::B, Instrument::Bell)]);
    assert_eq!(single_trigger(b"notes.txt"), Vec::<TriggerEvent>::new());
}

#[test]
fn sequence_triggers_begin_with_play() {
    assert!(is_sequence_trigger(b"play"));
    assert!(is_sequence_trigger(b"play.txt"));
    assert!(is_sequence_trigger(b"play_sine_A.txt"));
    assert!(is_sequence_trigger(b"playlist"));
    assert!(!is_sequence_trigger(b"Play.txt"));
    assert!(!is_sequence_trigger(b"pla"));
    assert!(!is_sequence_trigger(b""));
    assert!(!is_sequence_trigger(b"1_play_A.txt"));
}

#[test]
fn reading_a_note_file_emits_its_trigger() {
    let fs = SynthFS::default();
    assert_eq!(fs.lookup(2, b"5_bell_B.txt"), Ok(7));
    let out = fs.read(7, 0, 100).unwrap();
    assert_eq!(out.data, b"B".to_vec());
    assert!(out.eof);
    assert_eq!(out.events, vec![ev(Note::B, Instrument::Bell)]);
    assert_eq!(out.events[0].note.name(), "B");
    assert_eq!(out.events[0].instrument.name(), "bell");
}

#[test]
fn reading_every_seeded_note_file_emits_one_trigger() {
    let fs = SynthFS::default();
    for (k, (note, text)) in NOTES.iter().enumerate() {
        let id = 3 + k as u64;
        let instrument = match k {
            0..=3 => Instrument::Sine,
            4..=11 => Instrument::Bell,
            12..=15 => Instrument::Organ,
            _ => Instrument::Lancer,
        };
        let out = fs.read(id, 0, 16).unwrap();
        assert_eq!(out.data, text.as_bytes().to_vec());
        assert!(out.eof);
        assert_eq!(out.events, vec![ev(*note, instrument)]);
    }
}

#[test]
fn reading_a_file_that_stands_for_nothing_emits_nothing() {
    let mut fs = SynthFS::default();
    let (id, _) = fs.create(2, b"1_sine_H.txt").unwrap();
    fs.write(id, 0, b"stored bytes").unwrap();
    let out = fs.read(id, 0, 100).unwrap();
    assert_eq!(out.data, b"stored bytes".to_vec());
    assert!(out.eof);
    assert!(out.events.is_empty());
    let out = fs.read(0, 0, 100).unwrap();
    assert!(out.data.is_empty());
    assert!(out.eof);
    assert!(out.events.is_empty());
}

#[test]
fn read_answers_the_asked_range() {
    let mut fs = SynthFS::default();
    fs.write(3, 0, b"0123456789").unwrap();
    let out = fs.read(3, 0, 4).unwrap();
    assert_eq!(out.data, b"0123".to_vec());
    assert!(!out.eof);
    let out = fs.read(3, 4, 6).unwrap();
    assert_eq!(out.data, b"456789".to_vec());
    assert!(out.eof);
    let out = fs.read(3, 4, 5).unwrap();
    assert_eq!(out.data, b"45678".to_vec());
    assert!(!out.eof);
    let out = fs.read(3, 8, 100).unwrap();
    assert_eq!(out.data, b"89".to_vec());
    assert!(out.eof);
    let out = fs.read(3, 10, 1).unwrap();
    assert!(out.data.is_empty());
    assert!(out.eof);
    let out = fs.read(3, 500, 0).unwrap();
    assert!(out.data.is_empty());
    assert!(out.eof);
    let out = fs.read(3, u64::MAX, u32::MAX).unwrap();
    assert!(out.data.is_empty());
    assert!(out.eof);
    let out = fs.read(3, 3, 0).unwrap();
    assert!(out.data.is_empty());
    assert!(!out.eof);
    assert_eq!(out.events, vec![ev(Note::A, Instrument::Sine)]);
}

#[test]
fn read_reports_directories_and_missing_ids() {
    let fs = SynthFS::default();
    assert!(matches!(fs.read(2, 0, 10), Err(FsError::IsDirectory)));
    assert!(matches!(fs.read(1, 0, 10), Err(FsError::IsDirectory)));
    assert!(matches!(fs.read(36, 0, 10), Err(FsError::NotFound)));
}

#[test]
fn reading_play_in_the_song_emits_the_tune() {
    let fs = SynthFS::default();
    let out = fs.read(35, 0, 100).unwrap();
    assert_eq!(out.data, b"PLAY".to_vec());
    assert!(out.eof);
    let l = Instrument::Lancer;
    assert_eq!(
        out.events,
        vec![ev(Note::C, l), ev(Note::D, l), ev(Note::E, l), ev(Note::C, l), ev(Note::D, l), ev(Note::C, l)]
    );
}

#[test]
fn reading_play_in_sine_emits_all_notes_in_name_order() {
    let fs = SynthFS::default();
    let out = fs.read(27, 0, 2).unwrap();
    assert_eq!(out.data, b"PL".to_vec());
    assert!(!out.eof);
    assert_eq!(out.events.len(), 24);
    let mut names: Vec<Vec<u8>> = fs
        .readdir(2, 0, 100)
        .unwrap()
        .entries
        .into_iter()
        .map(|e| e.name)
        .filter(|n| !n.starts_with(b"play"))
        .collect();
    names.sort();
    let expected: Vec<TriggerEvent> = names.iter().map(|n| parse_trigger(n).unwrap()).collect();
    assert_eq!(out.events, expected);
    // 10_ to 19_ come before 1_, and 20_ to 24_ before 2_: the order is by bytes, not by number
    assert_eq!(out.events[0], ev(Note::CSharp2, Instrument::Bell));
    assert_eq!(out.events[1], ev(Note::D, Instrument::Bell));
    assert_eq!(out.events[9], ev(Note::F2, Instrument::Lancer));
    assert_eq!(out.events[10], ev(Note::A, Instrument::Sine));
    assert_eq!(out.events[11], ev(Note::FSharp2, Instrument::Lancer));
    assert_eq!(out.events[15], ev(Note::GSharp2, Instrument::Lancer));
    assert_eq!(out.events[16], ev(Note::ASharp, Instrument::Sine));
    assert_eq!(out.events[23], ev(Note::C2, Instrument::Bell));
}

#[test]
fn a_sequence_skips_what_does_not_parse_and_other_sequences() {
    let mut fs = SynthFS::default();
    let (dir, _) = fs.mkdir(1, b"mix").unwrap();
    fs.create(dir, b"3_organ_E.txt").unwrap();
    fs.create(dir, b"readme.txt").unwrap();
    fs.create(dir, b"play_sine_A.txt").unwrap();
    fs.create(dir, b"1_BELL_c#.txt").unwrap();
    fs.mkdir(dir, b"2_sine_G.txt").unwrap();
    fs.create(dir, b"2_sine_G_x.txt").unwrap();
    let (play, _) = fs.create(dir, b"playall").unwrap();
    let out = fs.read(play, 0, 10).unwrap();
    assert!(out.data.is_empty());
    assert!(out.eof);
    assert_eq!(
        out.events,
        vec![
            ev(Note::CSharp, Instrument::Bell),
            ev(Note::G, Instrument::Sine),
            ev(Note::E, Instrument::Organ)
        ]
    );
    let (other, _) = fs.create(dir, b"play_sine_A.txt").unwrap();
    assert_eq!(fs.read(other, 0, 10).unwrap().events, out.events);
}

#[test]
fn a_sequence_plays_the_children_of_its_parent_even_when_unlinked() {
    let mut fs = SynthFS::default();
    fs.remove(28, b"play.txt").unwrap();
    fs.remove(28, b"1_lancer_C.txt").unwrap();
    let out = fs.read(35, 0, 100).unwrap();
    let l = Instrument::Lancer;
    assert_eq!(out.events, vec![ev(Note::D, l), ev(Note::E, l), ev(Note::C, l), ev(Note::D, l), ev(Note::C, l)]);
}

#[test]
fn a_sequence_without_a_directory_beside_it_emits_nothing() {
    let mut fs = SynthFS::default();
    let (a, _) = fs.create(3, b"play").unwrap();
    assert!(fs.read(a, 0, 1).unwrap().events.is_empty());
    let (b, _) = fs.create(5000, b"play").unwrap();
    assert!(fs.read(b, 0, 1).unwrap().events.is_empty());
}

#[test]
fn expand_sequence_sorts_by_whole_names() {
    let siblings: Vec<Vec<u8>> = vec![
        b"2_sine_B.txt".to_vec(),
        b"1_sine_A.txt".to_vec(),
        b"play.txt".to_vec(),
        b"1_sine_A#.txt".to_vec(),
        b"10_organ_C.txt".to_vec(),
        b"1_sine_A.txt".to_vec(),
        b"junk".to_vec(),
        b"1_sine_A2.txt".to_vec(),
    ];
    let s = Instrument::Sine;
    assert_eq!(
        expand_sequence(&siblings),
        vec![
            ev(Note::C, Instrument::Organ),
            ev(Note::ASharp, s),
            ev(Note::A, s),
            ev(Note::A, s),
            ev(Note::A2, s),
            ev(Note::B, s)
        ]
    );
    assert_eq!(expand_sequence(&Vec::new()), Vec::<TriggerEvent>::new());
}

#[test]
fn name_le_is_the_lexicographic_order() {
    assert!(name_le(b"", b""));
    assert!(name_le(b"", b"a"));
    assert!(!name_le(b"a", b""));
    assert!(name_le(b"a", b"a"));
    assert!(name_le(b"a", b"ab"));
    assert!(!name_le(b"ab", b"a"));
    assert!(name_le(b"ab", b"b"));
    assert!(!name_le(b"b", b"ab"));
    assert!(name_le(b"10", b"2"));
    assert!(!name_le(b"2", b"10"));
    assert!(name_le(b"A#", b"A."));
    assert!(name_le(&[0x7f], &[0x80]));
    assert!(!name_le(&[0xff], &[0x00, 0xff]));
}

#[test]
fn sort_names_agrees_with_the_standard_sort() {
    let names: Vec<Vec<u8>> = vec![
        b"pear".to_vec(),
        b"".to_vec(),
        b"apple".to_vec(),
        b"pear".to_vec(),
        b"app".to_vec(),
        vec![0xff, 0x00],
        b"10".to_vec(),
        b"2".to_vec(),
        b"1".to_vec(),
        b"Zed".to_vec(),
    ];
    let mut expected = names.clone();
    expected.sort();
    assert_eq!(sort_names(names), expected);
    assert_eq!(sort_names(Vec::new()), Vec::<Vec<u8>>::new());
    assert_eq!(sort_names(vec![b"x".to_vec()]), vec![b"x".to_vec()]);
}

#[test]
fn sample_paths() {
    assert_eq!(sample_path(&ev(Note::B, Instrument::Bell)), "sounds/bell/B.flac");
    assert_eq!(sample_path(&ev(Note::ASharp2, Instrument::Lancer)), "sounds/lancer/A#2.flac");
    assert_eq!(sample_path(&ev(Note::G, Instrument::Organ)), "sounds/organ/G.flac");
    assert_eq!(sample_path(&ev(Note::E2, Instrument::Sine)), "sounds/sine/E2.flac");
}

#[test]
fn the_worker_plays_then_pauses_then_waits() {
    let e = ev(Note::C, Instrument::Lancer);
    assert_eq!(PACING_MILLIS, 300);
    assert_eq!(worker_step(WorkerEvent::Started), WorkerAction::Receive);
    assert_eq!(worker_step(WorkerEvent::Received(e)), WorkerAction::Play(e));
    assert_eq!(worker_step(WorkerEvent::Played), WorkerAction::Pause(300));
    assert_eq!(worker_step(WorkerEvent::Failed), WorkerAction::Pause(300));
    assert_eq!(worker_step(WorkerEvent::Paused), WorkerAction::Receive);
    assert_eq!(worker_step(WorkerEvent::Closed), WorkerAction::Stop);
}
