use sub::lang::{lang_name, lang_to_api, language_of_name, normalize_lang, Language};

const TABLE: [(&str, &str, &str, &str); 15] = [
    ("Indonesian", "indonesian", "ind", "id"),
    ("English", "english", "eng", "en"),
    ("French", "french", "fre", "fr"),
    ("Spanish", "spanish", "spa", "es"),
    ("Japanese", "japanese", "jpn", "ja"),
    ("Korean", "korean", "kor", "ko"),
    ("Chinese", "chinese", "zho", "zh"),
    ("Malay", "malay", "may", "ms"),
    ("Thai", "thai", "tha", "th"),
    ("Vietnamese", "vietnamese", "vie", "vi"),
    ("Arabic", "arabic", "ara", "ar"),
    ("Portuguese", "portuguese", "por", "pt"),
    ("German", "german", "deu", "de"),
    ("Italian", "italian", "ita", "it"),
    ("Russian", "russian", "rus", "ru"),
];

#[test]
fn every_alias_maps_to_its_language() {
    for (display, api, code, two) in TABLE {
        for alias in [api, code, two] {
            assert_eq!(lang_name(alias), display);
            assert_eq!(lang_to_api(alias), api);
            assert_eq!(normalize_lang(alias), code);
        }
    }
}

#[test]
fn indonesian_has_the_extra_alias_in() {
    assert_eq!(lang_name("in"), "Indonesian");
    assert_eq!(lang_to_api("in"), "indonesian");
    assert_eq!(normalize_lang("in"), "ind");
}

#[test]
fn names_are_matched_in_any_case() {
    assert_eq!(lang_name("ENG"), "English");
    assert_eq!(lang_to_api("Japanese"), "japanese");
    assert_eq!(normalize_lang("KoReAn"), "kor");
    assert_eq!(language_of_name("DE"), Some(Language::German));
}

#[test]
fn unknown_names_are_returned_unchanged() {
    assert_eq!(lang_name("und"), "und");
    assert_eq!(lang_to_api("Klingon"), "Klingon");
    assert_eq!(normalize_lang("XX"), "XX");
    assert_eq!(normalize_lang(""), "");
    assert_eq!(lang_name("日本語"), "日本語");
}

#[test]
fn normalizing_twice_is_normalizing_once() {
    for s in ["English", "ID", "fr", "unknown", "Русский", "ind"] {
        let once = normalize_lang(s);
        assert_eq!(normalize_lang(&once), once);
        let api = lang_to_api(s);
        assert_eq!(lang_to_api(&api), api);
    }
}

#[test]
fn names_agree_after_normalization() {
    for s in ["English", "ID", "fr", "unknown", "pt", "RUSSIAN"] {
        let code = normalize_lang(s);
        assert_eq!(lang_name(&code), lang_name(s));
        assert_eq!(lang_to_api(&code), lang_to_api(s));
        let api = lang_to_api(s);
        assert_eq!(normalize_lang(&api), normalize_lang(s));
        assert_eq!(lang_name(&api), lang_name(s));
    }
}

#[test]
fn language_methods_give_the_three_names() {
    let l = Language::Vietnamese;
    assert_eq!(l.display_name(), "Vietnamese");
    assert_eq!(l.api_name(), "vietnamese");
    assert_eq!(l.code(), "vie");
}

#[test]
fn language_of_lowered_takes_lowercase_only() {
    let chars = |s: &str| s.chars().collect::<Vec<char>>();
    assert_eq!(sub::lang::language_of_lowered(&chars("zh")), Some(Language::Chinese));
    assert_eq!(sub::lang::language_of_lowered(&chars("ZH")), None);
    assert_eq!(sub::lang::language_of_lowered(&chars("may")), Some(Language::Malay));
}

#[test]
fn display_name_of_a_display_name() {
    for s in ["eng", "Indonesian", "x", "TH", "Português"] {
        let n = lang_name(s);
        assert_eq!(lang_name(&n), n);
        assert_eq!(lang_name(&lang_to_api(s)), n);
        assert_eq!(lang_name(&normalize_lang(s)), n);
    }
}
