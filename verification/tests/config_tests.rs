use sub::config::{entered_api_key, mask_key, set_key, setting_named, ConfigData, ConfigManager, Setting};

#[test]
fn load_reads_settings_and_defaults() {
    let cfg = ConfigManager::load(
        "/home/u/.sub/config".to_string(),
        Some("default_lang = english\r\ndefault_dir=/tmp\napi_key=abc\n"),
    );
    assert_eq!(cfg.config_path, "/home/u/.sub/config");
    assert_eq!(cfg.default_lang, "english");
    assert_eq!(cfg.default_dir, "/tmp");
    assert_eq!(cfg.data.get("api_key"), Some("abc".to_string()));
}

#[test]
fn load_without_file_uses_defaults() {
    let cfg = ConfigManager::load("c".to_string(), None);
    assert_eq!(cfg.default_lang, "indonesian");
    assert_eq!(cfg.default_dir, ".");
    assert_eq!(cfg.api_key(None), None);
}

#[test]
fn later_lines_override_and_lines_without_equals_are_skipped() {
    let data = ConfigData::parse("a=1\nnonsense\n a = 2 \nb=x=y");
    assert_eq!(data.get("a"), Some("2".to_string()));
    assert_eq!(data.get("b"), Some("x=y".to_string()));
    assert_eq!(data.get("nonsense"), None);
    assert_eq!(ConfigData::empty().get("a"), None);
}

#[test]
fn api_key_prefers_a_nonempty_environment_value() {
    let cfg = ConfigManager::load("c".to_string(), Some("api_key=stored"));
    assert_eq!(cfg.api_key(Some("env")), Some("env".to_string()));
    assert_eq!(cfg.api_key(Some("")), Some("stored".to_string()));
    assert_eq!(cfg.api_key(None), Some("stored".to_string()));
}

#[test]
fn save_api_key_replaces_the_key_line() {
    let cfg = ConfigManager::load("c".to_string(), None);
    assert_eq!(
        cfg.save_api_key(Some("default_lang=english\napi_key=old\ndefault_dir=.\n"), "new"),
        "default_lang=english\ndefault_dir=.\napi_key=new\n"
    );
    assert_eq!(cfg.save_api_key(None, "k"), "api_key=k\n");
    assert_eq!(cfg.save_api_key(Some(""), "k"), "api_key=k\n");
}

#[test]
fn remove_api_key_drops_the_key_lines() {
    let cfg = ConfigManager::load("c".to_string(), None);
    assert_eq!(
        cfg.remove_api_key("api_key=x\ndefault_lang=thai\n"),
        ("default_lang=thai\n".to_string(), true)
    );
    assert_eq!(cfg.remove_api_key("api_key=x\n"), ("\n".to_string(), true));
    assert_eq!(cfg.remove_api_key("default_lang=thai\n"), ("default_lang=thai\n".to_string(), false));
    assert_eq!(cfg.remove_api_key(""), ("\n".to_string(), false));
}

#[test]
fn set_config_knows_lang_and_dir() {
    let cfg = ConfigManager::load("c".to_string(), None);
    assert_eq!(
        cfg.set_config(Some("default_lang=thai\n"), "lang", "english"),
        Some((Setting::Lang, "default_lang=english\n".to_string()))
    );
    assert_eq!(
        cfg.set_config(None, "dir", "/tmp"),
        Some((Setting::Dir, "default_dir=/tmp\n".to_string()))
    );
    assert_eq!(cfg.set_config(None, "color", "red"), None);
    assert_eq!(setting_named("lang"), Some(Setting::Lang));
    assert_eq!(setting_named("LANG"), None);
    assert_eq!(Setting::Dir.key(), "default_dir");
}

#[test]
fn written_setting_reads_back() {
    let written = set_key(Some("x=1\nlang=2\r\ndefault_lang=old\r\ny=3"), "default_lang", " german ");
    assert_eq!(written, "x=1\nlang=2\ny=3\ndefault_lang= german \n");
    let cfg = ConfigManager::load("c".to_string(), Some(&written));
    assert_eq!(cfg.default_lang, "german");
    assert_eq!(cfg.data.get("x"), Some("1".to_string()));
    assert_eq!(cfg.data.get("y"), Some("3".to_string()));
    assert_eq!(cfg.data.get("lang"), Some("2".to_string()));
}

#[test]
fn removed_key_does_not_read_back() {
    let cfg = ConfigManager::load("c".to_string(), None);
    let (content, any) = cfg.remove_api_key("api_key=1\nz=2\napi_key=3");
    assert!(any);
    let again = ConfigManager::load("c".to_string(), Some(&content));
    assert_eq!(again.api_key(None), None);
    assert_eq!(again.data.get("z"), Some("2".to_string()));
}

#[test]
fn mask_key_examples() {
    assert_eq!(mask_key("short"), "...");
    assert_eq!(mask_key("abcdefgh"), "...");
    assert_eq!(mask_key("123456789012"), "...");
    assert_eq!(mask_key(""), "...");
    assert_eq!(mask_key("sk_live_1234567890abcd"), "sk_live_...abcd");
    assert_eq!(mask_key("éééééé"), "...");
    assert_eq!(mask_key("éééééé12"), "éééé...é12");
    assert_eq!(mask_key("ééééxxxxxxxxxxyyyy"), "éééé...yyyy");
}

#[test]
fn lines_like_std() {
    for t in ["", "\n", "a", "a\n", "a\r\nb", "foo\r\nbar\n\nbaz\r", "x\n\r\n", "\r"] {
        let chars: Vec<char> = t.chars().collect();
        let got: Vec<String> = sub::config::lines_of(&chars)
            .iter()
            .map(|l| l.iter().collect())
            .collect();
        let expected: Vec<String> = t.lines().map(String::from).collect();
        assert_eq!(got, expected, "{:?}", t);
    }
}

#[test]
fn typed_api_keys_are_trimmed() {
    assert_eq!(entered_api_key("  abc \n"), Some("abc".to_string()));
    assert_eq!(entered_api_key(" \n"), None);
    assert_eq!(entered_api_key(""), None);
}
