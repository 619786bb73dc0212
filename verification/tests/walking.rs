use cleansrt::paths::{backup_name, edited_name, is_srt_name, last_dot};
use cleansrt::sink::MultiWriter;
use cleansrt::walker::{eligible_files, should_delete_backup};

#[test]
fn derives_default_output_name() {
    assert_eq!(edited_name(&b"movie.srt".to_vec()), b"movie.EDITED.srt".to_vec());
    assert_eq!(edited_name(&b"a.b.srt".to_vec()), b"a.b.EDITED.srt".to_vec());
}

#[test]
fn derives_backup_name() {
    assert_eq!(backup_name(&b"movie.srt".to_vec()), b"movie.OLD.srt".to_vec());
    assert_eq!(backup_name(&b"show.S01E01.srt".to_vec()), b"show.S01E01.OLD.srt".to_vec());
}

#[test]
fn finds_last_dot() {
    assert_eq!(last_dot(&b"a.b.c".to_vec()), Some(3));
    assert_eq!(last_dot(&b"nodot".to_vec()), None);
}

#[test]
fn recognizes_subtitle_extension_case_insensitively() {
    assert!(is_srt_name(&b"movie.srt".to_vec()));
    assert!(is_srt_name(&b"movie.SRT".to_vec()));
    assert!(is_srt_name(&b"movie.Srt".to_vec()));
    assert!(!is_srt_name(&b"movie.txt".to_vec()));
    assert!(!is_srt_name(&b"movie.srt.bak".to_vec()));
    assert!(!is_srt_name(&b"srt".to_vec()));
    assert!(!is_srt_name(&b".srt".to_vec()));
}

#[test]
fn directory_without_subtitles_selects_nothing() {
    let names = vec![b"notes.txt".to_vec(), b"readme.md".to_vec(), b"clip.mp4".to_vec()];
    let picked = eligible_files(&names);
    assert_eq!(picked.len(), 0);
}

#[test]
fn selects_subtitle_files_in_order() {
    let names = vec![
        b"a.srt".to_vec(),
        b"skip.txt".to_vec(),
        b"b.SRT".to_vec(),
        b"c.srt".to_vec(),
    ];
    let picked = eligible_files(&names);
    assert_eq!(picked, vec![b"a.srt".to_vec(), b"b.SRT".to_vec(), b"c.srt".to_vec()]);
}

#[test]
fn backup_is_kept_unless_deletion_asked_and_run_succeeded() {
    // a failed rewrite leaves the backup on disk even with deletion on
    assert!(!should_delete_backup(false, false));
    assert!(!should_delete_backup(false, true));
    assert!(!should_delete_backup(true, false));
    assert!(should_delete_backup(true, true));
}

#[test]
fn multi_writer_broadcasts_to_every_destination() {
    let mut w = MultiWriter::new(vec![b"log:".to_vec(), Vec::new()]);
    let n = w.write(&b"hello".to_vec());
    assert_eq!(n, 5);
    let n = w.write(&b" there".to_vec());
    assert_eq!(n, 6);
    assert_eq!(w.writers[0], b"log:hello there".to_vec());
    assert_eq!(w.writers[1], b"hello there".to_vec());
}
