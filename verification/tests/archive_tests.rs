use std::io::Write;

use sub::archive::{choose_srt, extract_srt, is_srt_entry, is_zip, saved_entry_name};

fn make_zip(entries: &[(&str, &[u8])]) -> Vec<u8> {
    let mut w = zip::ZipWriter::new(std::io::Cursor::new(Vec::new()));
    let opts = zip::write::SimpleFileOptions::default()
        .compression_method(zip::CompressionMethod::Deflated);
    for (name, data) in entries {
        w.start_file(*name, opts).unwrap();
        w.write_all(data).unwrap();
    }
    w.finish().unwrap().into_inner()
}

#[test]
fn zip_signature() {
    assert!(is_zip(&[0x50, 0x4B, 0x03, 0x04, 0]));
    assert!(!is_zip(&[0x50, 0x4B, 0x03]));
    assert!(!is_zip(b"1\n00:00:01,000"));
}

#[test]
fn srt_entries() {
    assert!(is_srt_entry("Movie.SRT"));
    assert!(is_srt_entry("a/b.srt"));
    assert!(!is_srt_entry("__MACOSX/._b.srt"));
    assert!(!is_srt_entry("b.sub"));
    let names = vec!["readme.txt".to_string(), "x.srt".to_string(), "y.srt".to_string()];
    assert_eq!(choose_srt(&names), Some("x.srt".to_string()));
    assert_eq!(choose_srt(&vec!["a.txt".to_string()]), None);
}

#[test]
fn plain_download_is_the_subtitle() {
    let data = b"1\n00:00:01,000 --> 00:00:02,000\nHi\n";
    assert_eq!(extract_srt(data, 17), Some(("subtitle_17.srt".to_string(), data.to_vec())));
    let other = b"2\n00:00:03,000 --> 00:00:04,000\nBye\n";
    assert_eq!(extract_srt(other, 18), Some(("subtitle_18.srt".to_string(), other.to_vec())));
}

#[test]
fn zip_download_gives_first_srt_entry() {
    let z = make_zip(&[
        ("__MACOSX/._movie.srt", b"junk"),
        ("notes.txt", b"notes"),
        ("Movie.EN.SRT", b"first"),
        ("other.srt", b"second"),
    ]);
    assert!(is_zip(&z));
    assert_eq!(extract_srt(&z, 1), Some(("Movie.EN.SRT".to_string(), b"first".to_vec())));
}

#[test]
fn zip_without_srt_gives_nothing() {
    let z = make_zip(&[("notes.txt", b"notes")]);
    assert_eq!(extract_srt(&z, 1), None);
}

#[test]
fn corrupt_zip_gives_nothing() {
    assert_eq!(extract_srt(&[0x50, 0x4B, 0x03, 0x04, 1, 2, 3], 1), None);
}

#[test]
fn zip_entries_are_saved_inside_the_output_directory() {
    let z = make_zip(&[("../evil.srt", b"a")]);
    assert_eq!(extract_srt(&z, 5), Some(("subtitle_5.srt".to_string(), b"a".to_vec())));
    let z = make_zip(&[("/tmp/x/evil.srt", b"b")]);
    assert_eq!(extract_srt(&z, 6), Some(("subtitle_6.srt".to_string(), b"b".to_vec())));
    let z = make_zip(&[("subs/en/Movie.srt", b"c")]);
    assert_eq!(extract_srt(&z, 7), Some(("subs/en/Movie.srt".to_string(), b"c".to_vec())));
}

#[test]
fn saved_entry_names() {
    assert_eq!(saved_entry_name("a/b/c.srt", 1), "a/b/c.srt");
    assert_eq!(saved_entry_name("c.srt", 1), "c.srt");
    assert_eq!(saved_entry_name("a//c.srt", 1), "subtitle_1.srt");
    assert_eq!(saved_entry_name("a/./c.srt", 1), "subtitle_1.srt");
    assert_eq!(saved_entry_name("a\\..\\..\\c.srt", 2), "subtitle_2.srt");
    assert_eq!(saved_entry_name("/etc/c.srt", 2), "subtitle_2.srt");
    assert_eq!(saved_entry_name("a/", 2), "subtitle_2.srt");
    assert_eq!(saved_entry_name("..", 3), "subtitle_3.srt");
    assert_eq!(saved_entry_name("", 4), "subtitle_4.srt");
}
