use sub::subsource::{
    download_url, priority, release_label, search_movies_url,
    sort_by_priority, subtitles_url, urlencoding, Movie, SearchAction, SearchSession, StopReason,
    Subtitle,
};

fn subtitle(id: u64, lang: &str) -> Subtitle {
    Subtitle {
        subtitle_id: id,
        language: lang.to_string(),
        release_info: vec![format!("release {}", id)],
        hearing_impaired: false,
    }
}

#[test]
fn priority_of_languages() {
    assert_eq!(priority("Indonesian", "indonesian"), 0);
    assert_eq!(priority("English", "indonesian"), 1);
    assert_eq!(priority("english", "english"), 0);
    assert_eq!(priority("French", "indonesian"), 2);
    assert_eq!(priority("Big5_chinese", "chinese"), 0);
    assert_eq!(priority("", "indonesian"), 0);
}

#[test]
fn sort_puts_preferred_then_english_first_keeping_order() {
    let mut subs = vec![
        subtitle(1, "French"),
        subtitle(2, "English"),
        subtitle(3, "Indonesian"),
        subtitle(4, "Arabic"),
        subtitle(5, "indonesian"),
        subtitle(6, "English"),
    ];
    sort_by_priority(&mut subs, "id");
    let ids: Vec<u64> = subs.iter().map(|s| s.subtitle_id).collect();
    assert_eq!(ids, vec![3, 5, 2, 6, 1, 4]);
}

#[test]
fn sort_keeps_every_subtitle() {
    let mut subs = vec![subtitle(7, "x"), subtitle(8, "English"), subtitle(9, "x")];
    sort_by_priority(&mut subs, "thai");
    let mut ids: Vec<u64> = subs.iter().map(|s| s.subtitle_id).collect();
    assert_eq!(ids, vec![8, 7, 9]);
    ids.sort();
    assert_eq!(ids, vec![7, 8, 9]);
}

#[test]
fn release_label_is_the_first_release() {
    assert_eq!(release_label(&vec!["a".to_string(), "b".to_string()]), "a");
    assert_eq!(release_label(&vec![]), "");
}

#[test]
fn preferred_language_compares_service_names() {
    assert!(sub::lang::is_preferred_language("ENG", "english"));
    assert!(!sub::lang::is_preferred_language("French", "english"));
}

#[test]
fn movie_year_labels() {
    let mut m = Movie {
        movie_id: 1,
        title: "Hoppers".to_string(),
        release_year: Some(2026),
        media_type: "movie".to_string(),
    };
    assert_eq!(m.year_label(), "2026");
    m.release_year = None;
    assert_eq!(m.year_label(), "?");
}

#[test]
fn urlencoding_examples() {
    assert_eq!(urlencoding("Hoppers 2026"), "Hoppers%202026");
    assert_eq!(urlencoding("a-b_c.d~e"), "a-b_c.d~e");
    assert_eq!(urlencoding("Amélie"), "Am%C3%A9lie");
    assert_eq!(urlencoding("a&b=c/d"), "a%26b%3Dc%2Fd");
    assert_eq!(urlencoding("日"), "%E6%97%A5");
    assert_eq!(urlencoding(""), "");
}

#[test]
fn request_urls() {
    assert_eq!(
        search_movies_url("Hoppers", Some(2026)),
        "https://api.subsource.net/api/v1/movies/search?searchType=text&q=Hoppers&year=2026"
    );
    assert_eq!(
        search_movies_url("The Matrix", None),
        "https://api.subsource.net/api/v1/movies/search?searchType=text&q=The%20Matrix"
    );
    assert_eq!(
        subtitles_url(42, "english"),
        "https://api.subsource.net/api/v1/subtitles?movieId=42&language=english"
    );
    assert_eq!(download_url(0), "https://api.subsource.net/api/v1/subtitles/0/download");
    assert_eq!(
        download_url(18446744073709551615),
        "https://api.subsource.net/api/v1/subtitles/18446744073709551615/download"
    );
}

#[test]
fn session_non_interactive_takes_the_first_of_everything() {
    let mut session = SearchSession::new(true);
    assert_eq!(session.movies_received(Some(3)), SearchAction::FetchSubtitles(0));
    let subs = vec![subtitle(1, "French"), subtitle(2, "English")];
    assert_eq!(session.subtitles_received(Some(subs), "thai"), SearchAction::Download(vec![0]));
    assert_eq!(session.subtitles[0].subtitle_id, 2);
}

#[test]
fn session_interactive_asks() {
    let mut session = SearchSession::new(false);
    assert_eq!(session.movies_received(Some(2)), SearchAction::AskMovie);
    assert_eq!(session.movie_answer("\n"), SearchAction::FetchSubtitles(0));
    assert_eq!(session.movie_answer("2"), SearchAction::FetchSubtitles(1));
    assert_eq!(session.movie_answer("3"), SearchAction::Stop(StopReason::Skipped));
    assert_eq!(session.movie_answer("s"), SearchAction::Stop(StopReason::Skipped));
    let subs = vec![subtitle(1, "a"), subtitle(2, "b"), subtitle(3, "c")];
    assert_eq!(session.subtitles_received(Some(subs), "english"), SearchAction::AskSubtitles);
    assert_eq!(session.selection_answer("3,1"), SearchAction::Download(vec![0, 2]));
    assert_eq!(session.selection_answer("7"), SearchAction::Stop(StopReason::NoneSelected));
}

#[test]
fn session_stops_when_nothing_comes_back() {
    let mut session = SearchSession::new(false);
    assert_eq!(session.movies_received(None), SearchAction::Stop(StopReason::RequestFailed));
    assert_eq!(session.movies_received(Some(0)), SearchAction::Stop(StopReason::NoResults));
    assert_eq!(session.subtitles_received(None, "x"), SearchAction::Stop(StopReason::RequestFailed));
    assert_eq!(session.subtitles_received(Some(vec![]), "x"), SearchAction::Stop(StopReason::NoSubtitles));
}

#[test]
fn priority_of_lowered_language() {
    let chars = |s: &str| s.chars().collect::<Vec<char>>();
    assert_eq!(sub::subsource::priority_lowered(&chars("english"), &chars("indonesian")), 1);
    assert_eq!(sub::subsource::priority_lowered(&chars("ENGLISH"), &chars("indonesian")), 2);
    assert_eq!(sub::subsource::priority_lowered(&chars("indo"), &chars("indonesian")), 0);
}

fn decode(s: &str) -> Vec<u8> {
    let b = s.as_bytes();
    let mut out = Vec::new();
    let mut i = 0;
    while i < b.len() {
        if b[i] == b'%' {
            out.push(u8::from_str_radix(std::str::from_utf8(&b[i + 1..i + 3]).unwrap(), 16).unwrap());
            i += 3;
        } else {
            out.push(b[i]);
            i += 1;
        }
    }
    out
}

#[test]
fn urlencoding_decodes_back() {
    for s in ["Hoppers 2026", "a%b", "Amélie & co/?", "日本語", "~-_.", ""] {
        let e = urlencoding(s);
        assert!(e.chars().all(|c| c.is_ascii_alphanumeric() || "-_.~%".contains(c)));
        assert_eq!(decode(&e), s.as_bytes());
    }
}
