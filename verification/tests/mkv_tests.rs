use sub::mkv::{
    basename, default_output_path, inject_plan, subtitle_track_rows,
    track_language, Track,
};

fn track(id: Option<u64>, kind: &str, lang: Option<&str>, name: Option<&str>) -> Track {
    Track {
        id,
        kind: Some(kind.to_string()),
        language: lang.map(|s| s.to_string()),
        track_name: name.map(|s| s.to_string()),
    }
}

#[test]
fn track_language_finds_the_track() {
    let tracks = vec![
        track(Some(0), "video", Some("und"), None),
        track(Some(2), "subtitles", None, None),
        track(Some(2), "subtitles", Some("eng"), None),
        track(Some(3), "subtitles", Some("ind"), None),
    ];
    assert_eq!(track_language(&tracks, 3), "ind");
    assert_eq!(track_language(&tracks, 2), "eng");
    assert_eq!(track_language(&tracks, 9), "und");
    assert_eq!(track_language(&vec![], 0), "und");
}

#[test]
fn only_the_preferred_language_is_starred() {
    let tracks = vec![
        track(Some(3), "subtitles", Some("mal"), None),
        track(Some(4), "subtitles", Some("may"), None),
        track(Some(5), "subtitles", Some("MS"), None),
        track(Some(6), "subtitles", Some("éé"), None),
    ];
    let rows = subtitle_track_rows(&tracks, "malay");
    let starred: Vec<bool> = rows.iter().map(|r| r.is_default).collect();
    assert_eq!(starred, vec![false, true, true, false]);
    let rows = subtitle_track_rows(&tracks, "éé");
    assert!(rows[3].is_default);
}

#[test]
fn subtitle_rows_show_subtitle_tracks_only() {
    let tracks = vec![
        track(Some(0), "video", None, None),
        track(Some(1), "subtitles", Some("eng"), Some("SDH")),
        Track { id: None, kind: Some("subtitles".to_string()), language: None, track_name: None },
        Track { id: Some(5), kind: None, language: None, track_name: None },
    ];
    let rows = subtitle_track_rows(&tracks, "english");
    assert_eq!(rows.len(), 2);
    assert_eq!(rows[0].id, 1);
    assert_eq!(rows[0].language, "eng");
    assert_eq!(rows[0].language_name, "English");
    assert_eq!(rows[0].name, "SDH");
    assert!(rows[0].is_default);
    assert_eq!(rows[1].id, 0);
    assert_eq!(rows[1].language, "und");
    assert_eq!(rows[1].language_name, "und");
    assert_eq!(rows[1].name, "");
    assert!(!rows[1].is_default);
}

#[test]
fn output_path_examples() {
    assert_eq!(default_output_path("movie.mkv", "eng", 2), "movie_English_2.srt");
    assert_eq!(default_output_path("a.b.mkv", "xx", 10), "a.b_xx_10.srt");
    assert_eq!(default_output_path("noext", "ind", 0), "_Indonesian_0.srt");
    assert_eq!(default_output_path("dir/file..mkv", "fre", 3), "dir/file_French_3.srt");
}

#[test]
fn inject_plan_defaults() {
    let plan = inject_plan("movie.mkv", None, None);
    assert_eq!(plan.language, "ind");
    assert_eq!(plan.track_name, "Indonesian");
    assert_eq!(plan.temp_path, "movie_tmp_subinject.mkv");
    assert_eq!(plan.backup_path, "movie_backup.mkv");
}

#[test]
fn inject_plan_with_language_and_name() {
    let plan = inject_plan("x.mkv.mkv", Some("English"), Some("English [SDH]"));
    assert_eq!(plan.language, "eng");
    assert_eq!(plan.track_name, "English [SDH]");
    assert_eq!(plan.temp_path, "x_tmp_subinject.mkv");
    let plan = inject_plan("clip.mp4", Some("Klingon"), None);
    assert_eq!(plan.language, "Klingon");
    assert_eq!(plan.track_name, "Klingon");
    assert_eq!(plan.backup_path, "clip.mp4_backup.mkv");
}

#[test]
fn basename_examples() {
    assert_eq!(basename("/videos/movie.mkv"), "movie.mkv");
    assert_eq!(basename("movie.mkv"), "movie.mkv");
    assert_eq!(basename("dir/sub/"), "sub");
    assert_eq!(basename("/"), "/");
    assert_eq!(basename("a/.."), "a/..");
}
