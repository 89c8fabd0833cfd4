//! The languages the tool knows, and the three ways it names them: the
//! display name, the name the subtitle service uses, and the three-letter
//! code that Matroska tracks carry.
use vstd::prelude::*;

use crate::text;

verus! {

/// A language that the tool recognises.
#[derive(Clone, Copy, Debug, PartialEq, Eq, Structural)]
pub enum Language {
    Indonesian,
    English,
    French,
    Spanish,
    Japanese,
    Korean,
    Chinese,
    Malay,
    Thai,
    Vietnamese,
    Arabic,
    Portuguese,
    German,
    Italian,
    Russian,
}

/// The language that a lowercase name or code stands for: its service name,
/// its three-letter code, or its two-letter code (and `in` for Indonesian).
pub open spec fn language_of(l: Seq<char>) -> Option<Language> {
    if l == "indonesian"@ || l == "ind"@ || l == "id"@ || l == "in"@ {
        Some(Language::Indonesian)
    } else if l == "english"@ || l == "eng"@ || l == "en"@ {
        Some(Language::English)
    } else if l == "french"@ || l == "fre"@ || l == "fr"@ {
        Some(Language::French)
    } else if l == "spanish"@ || l == "spa"@ || l == "es"@ {
        Some(Language::Spanish)
    } else if l == "japanese"@ || l == "jpn"@ || l == "ja"@ {
        Some(Language::Japanese)
    } else if l == "korean"@ || l == "kor"@ || l == "ko"@ {
        Some(Language::Korean)
    } else if l == "chinese"@ || l == "zho"@ || l == "zh"@ {
        Some(Language::Chinese)
    } else if l == "malay"@ || l == "may"@ || l == "ms"@ {
        Some(Language::Malay)
    } else if l == "thai"@ || l == "tha"@ || l == "th"@ {
        Some(Language::Thai)
    } else if l == "vietnamese"@ || l == "vie"@ || l == "vi"@ {
        Some(Language::Vietnamese)
    } else if l == "arabic"@ || l == "ara"@ || l == "ar"@ {
        Some(Language::Arabic)
    } else if l == "portuguese"@ || l == "por"@ || l == "pt"@ {
        Some(Language::Portuguese)
    } else if l == "german"@ || l == "deu"@ || l == "de"@ {
        Some(Language::German)
    } else if l == "italian"@ || l == "ita"@ || l == "it"@ {
        Some(Language::Italian)
    } else if l == "russian"@ || l == "rus"@ || l == "ru"@ {
        Some(Language::Russian)
    } else {
        None
    }
}

impl Language {
    /// The name shown to the user.
    pub open spec fn spec_display_name(self) -> Seq<char> {
        match self {
            Language::Indonesian => "Indonesian"@,
            Language::English => "English"@,
            Language::French => "French"@,
            Language::Spanish => "Spanish"@,
            Language::Japanese => "Japanese"@,
            Language::Korean => "Korean"@,
            Language::Chinese => "Chinese"@,
            Language::Malay => "Malay"@,
            Language::Thai => "Thai"@,
            Language::Vietnamese => "Vietnamese"@,
            Language::Arabic => "Arabic"@,
            Language::Portuguese => "Portuguese"@,
            Language::German => "German"@,
            Language::Italian => "Italian"@,
            Language::Russian => "Russian"@,
        }
    }

    /// The name the subtitle service uses.
    pub open spec fn spec_api_name(self) -> Seq<char> {
        match self {
            Language::Indonesian => "indonesian"@,
            Language::English => "english"@,
            Language::French => "french"@,
            Language::Spanish => "spanish"@,
            Language::Japanese => "japanese"@,
            Language::Korean => "korean"@,
            Language::Chinese => "chinese"@,
            Language::Malay => "malay"@,
            Language::Thai => "thai"@,
            Language::Vietnamese => "vietnamese"@,
            Language::Arabic => "arabic"@,
            Language::Portuguese => "portuguese"@,
            Language::German => "german"@,
            Language::Italian => "italian"@,
            Language::Russian => "russian"@,
        }
    }

    /// The three-letter code written into Matroska tracks.
    pub open spec fn spec_code(self) -> Seq<char> {
        match self {
            Language::Indonesian => "ind"@,
            Language::English => "eng"@,
            Language::French => "fre"@,
            Language::Spanish => "spa"@,
            Language::Japanese => "jpn"@,
            Language::Korean => "kor"@,
            Language::Chinese => "zho"@,
            Language::Malay => "may"@,
            Language::Thai => "tha"@,
            Language::Vietnamese => "vie"@,
            Language::Arabic => "ara"@,
            Language::Portuguese => "por"@,
            Language::German => "deu"@,
            Language::Italian => "ita"@,
            Language::Russian => "rus"@,
        }
    }

    /// The name shown to the user.
    pub fn display_name(&self) -> (r: &'static str)
        ensures
            r@ == self.spec_display_name(),
    {
        match self {
            Language::Indonesian => "Indonesian",
            Language::English => "English",
            Language::French => "French",
            Language::Spanish => "Spanish",
            Language::Japanese => "Japanese",
            Language::Korean => "Korean",
            Language::Chinese => "Chinese",
            Language::Malay => "Malay",
            Language::Thai => "Thai",
            Language::Vietnamese => "Vietnamese",
            Language::Arabic => "Arabic",
            Language::Portuguese => "Portuguese",
            Language::German => "German",
            Language::Italian => "Italian",
            Language::Russian => "Russian",
        }
    }

    /// The name the subtitle service uses.
    pub fn api_name(&self) -> (r: &'static str)
        ensures
            r@ == self.spec_api_name(),
    {
        match self {
            Language::Indonesian => "indonesian",
            Language::English => "english",
            Language::French => "french",
            Language::Spanish => "spanish",
            Language::Japanese => "japanese",
            Language::Korean => "korean",
            Language::Chinese => "chinese",
            Language::Malay => "malay",
            Language::Thai => "thai",
            Language::Vietnamese => "vietnamese",
            Language::Arabic => "arabic",
            Language::Portuguese => "portuguese",
            Language::German => "german",
            Language::Italian => "italian",
            Language::Russian => "russian",
        }
    }

    /// The three-letter code written into Matroska tracks.
    pub fn code(&self) -> (r: &'static str)
        ensures
            r@ == self.spec_code(),
    {
        match self {
            Language::Indonesian => "ind",
            Language::English => "eng",
            Language::French => "fre",
            Language::Spanish => "spa",
            Language::Japanese => "jpn",
            Language::Korean => "kor",
            Language::Chinese => "zho",
            Language::Malay => "may",
            Language::Thai => "tha",
            Language::Vietnamese => "vie",
            Language::Arabic => "ara",
            Language::Portuguese => "por",
            Language::German => "deu",
            Language::Italian => "ita",
            Language::Russian => "rus",
        }
    }
}

/// Decides `language_of` for an already lowercased name.
pub fn language_of_lowered(l: &Vec<char>) -> (r: Option<Language>)
    ensures
        r == language_of(l@),
{
    if text::chars_eq_str(l, "indonesian") || text::chars_eq_str(l, "ind") || text::chars_eq_str(l, "id") || text::chars_eq_str(l, "in") {
        Some(Language::Indonesian)
    } else if text::chars_eq_str(l, "english") || text::chars_eq_str(l, "eng") || text::chars_eq_str(l, "en") {
        Some(Language::English)
    } else if text::chars_eq_str(l, "french") || text::chars_eq_str(l, "fre") || text::chars_eq_str(l, "fr") {
        Some(Language::French)
    } else if text::chars_eq_str(l, "spanish") || text::chars_eq_str(l, "spa") || text::chars_eq_str(l, "es") {
        Some(Language::Spanish)
    } else if text::chars_eq_str(l, "japanese") || text::chars_eq_str(l, "jpn") || text::chars_eq_str(l, "ja") {
        Some(Language::Japanese)
    } else if text::chars_eq_str(l, "korean") || text::chars_eq_str(l, "kor") || text::chars_eq_str(l, "ko") {
        Some(Language::Korean)
    } else if text::chars_eq_str(l, "chinese") || text::chars_eq_str(l, "zho") || text::chars_eq_str(l, "zh") {
        Some(Language::Chinese)
    } else if text::chars_eq_str(l, "malay") || text::chars_eq_str(l, "may") || text::chars_eq_str(l, "ms") {
        Some(Language::Malay)
    } else if text::chars_eq_str(l, "thai") || text::chars_eq_str(l, "tha") || text::chars_eq_str(l, "th") {
        Some(Language::Thai)
    } else if text::chars_eq_str(l, "vietnamese") || text::chars_eq_str(l, "vie") || text::chars_eq_str(l, "vi") {
        Some(Language::Vietnamese)
    } else if text::chars_eq_str(l, "arabic") || text::chars_eq_str(l, "ara") || text::chars_eq_str(l, "ar") {
        Some(Language::Arabic)
    } else if text::chars_eq_str(l, "portuguese") || text::chars_eq_str(l, "por") || text::chars_eq_str(l, "pt") {
        Some(Language::Portuguese)
    } else if text::chars_eq_str(l, "german") || text::chars_eq_str(l, "deu") || text::chars_eq_str(l, "de") {
        Some(Language::German)
    } else if text::chars_eq_str(l, "italian") || text::chars_eq_str(l, "ita") || text::chars_eq_str(l, "it") {
        Some(Language::Italian)
    } else if text::chars_eq_str(l, "russian") || text::chars_eq_str(l, "rus") || text::chars_eq_str(l, "ru") {
        Some(Language::Russian)
    } else {
        None
    }
}

/// Each service name and each three-letter code is lowercase ASCII and
/// denotes its own language.
pub proof fn lemma_names_denote(l: Language)
    ensures
        text::lowercase(l.spec_code()) == l.spec_code(),
        text::lowercase(l.spec_api_name()) == l.spec_api_name(),
        text::lowercase(l.spec_display_name()) == l.spec_api_name(),
        language_of(l.spec_code()) == Some(l),
        language_of(l.spec_api_name()) == Some(l),
{
    // The names that `language_of` looks up. Names of different languages
    // differ in length or in their first letter, except `ita` and `ind`,
    // which differ in their second.
    reveal_strlit("indonesian"); reveal_strlit("ind"); reveal_strlit("id"); reveal_strlit("in");
    assert("indonesian"@[0] == 'i' && "ind"@[0] == 'i' && "id"@[0] == 'i' && "in"@[0] == 'i');
    reveal_strlit("english"); reveal_strlit("eng"); reveal_strlit("en");
    assert("english"@[0] == 'e' && "eng"@[0] == 'e' && "en"@[0] == 'e');
    reveal_strlit("french"); reveal_strlit("fre"); reveal_strlit("fr");
    assert("french"@[0] == 'f' && "fre"@[0] == 'f' && "fr"@[0] == 'f');
    reveal_strlit("spanish"); reveal_strlit("spa"); reveal_strlit("es");
    assert("spanish"@[0] == 's' && "spa"@[0] == 's' && "es"@[0] == 'e');
    reveal_strlit("japanese"); reveal_strlit("jpn"); reveal_strlit("ja");
    assert("japanese"@[0] == 'j' && "jpn"@[0] == 'j' && "ja"@[0] == 'j');
    reveal_strlit("korean"); reveal_strlit("kor"); reveal_strlit("ko");
    assert("korean"@[0] == 'k' && "kor"@[0] == 'k' && "ko"@[0] == 'k');
    reveal_strlit("chinese"); reveal_strlit("zho"); reveal_strlit("zh");
    assert("chinese"@[0] == 'c' && "zho"@[0] == 'z' && "zh"@[0] == 'z');
    reveal_strlit("malay"); reveal_strlit("may"); reveal_strlit("ms");
    assert("malay"@[0] == 'm' && "may"@[0] == 'm' && "ms"@[0] == 'm');
    reveal_strlit("thai"); reveal_strlit("tha"); reveal_strlit("th");
    assert("thai"@[0] == 't' && "tha"@[0] == 't' && "th"@[0] == 't');
    reveal_strlit("vietnamese"); reveal_strlit("vie"); reveal_strlit("vi");
    assert("vietnamese"@[0] == 'v' && "vie"@[0] == 'v' && "vi"@[0] == 'v');
    reveal_strlit("arabic"); reveal_strlit("ara"); reveal_strlit("ar");
    assert("arabic"@[0] == 'a' && "ara"@[0] == 'a' && "ar"@[0] == 'a');
    reveal_strlit("portuguese"); reveal_strlit("por"); reveal_strlit("pt");
    assert("portuguese"@[0] == 'p' && "por"@[0] == 'p' && "pt"@[0] == 'p');
    reveal_strlit("german"); reveal_strlit("deu"); reveal_strlit("de");
    assert("german"@[0] == 'g' && "deu"@[0] == 'd' && "de"@[0] == 'd');
    reveal_strlit("italian"); reveal_strlit("ita"); reveal_strlit("it");
    assert("italian"@[0] == 'i' && "ita"@[0] == 'i' && "it"@[0] == 'i');
    reveal_strlit("russian"); reveal_strlit("rus"); reveal_strlit("ru");
    assert("russian"@[0] == 'r' && "rus"@[0] == 'r' && "ru"@[0] == 'r');
    assert("ita"@[1] != "ind"@[1]);
    // The display names.
    reveal_strlit("Indonesian"); reveal_strlit("English"); reveal_strlit("French");
    reveal_strlit("Spanish"); reveal_strlit("Japanese"); reveal_strlit("Korean");
    reveal_strlit("Chinese"); reveal_strlit("Malay"); reveal_strlit("Thai");
    reveal_strlit("Vietnamese"); reveal_strlit("Arabic"); reveal_strlit("Portuguese");
    reveal_strlit("German"); reveal_strlit("Italian"); reveal_strlit("Russian");
    let code = l.spec_code();
    let api = l.spec_api_name();
    assert(text::ascii_lowercase(code) =~= code);
    assert(text::ascii_lowercase(api) =~= api);
    assert(text::ascii_lowercase(l.spec_display_name()) =~= api);
}

/// The display name of `lang` when it names a known language (in any case),
/// otherwise `lang` itself.
pub open spec fn spec_lang_name(lang: Seq<char>) -> Seq<char> {
    match language_of(text::lowercase(lang)) {
        Some(l) => l.spec_display_name(),
        None => lang,
    }
}

/// The service name of `lang` when it names a known language, otherwise
/// `lang` itself.
pub open spec fn spec_lang_to_api(lang: Seq<char>) -> Seq<char> {
    match language_of(text::lowercase(lang)) {
        Some(l) => l.spec_api_name(),
        None => lang,
    }
}

/// The three-letter code of `lang` when it names a known language, otherwise
/// `lang` itself.
pub open spec fn spec_normalize_lang(lang: Seq<char>) -> Seq<char> {
    match language_of(text::lowercase(lang)) {
        Some(l) => l.spec_code(),
        None => lang,
    }
}

/// The language that `lang` names, in any letter case.
pub fn language_of_name(lang: &str) -> (r: Option<Language>)
    ensures
        r == language_of(text::lowercase(lang@)),
{
    let lower = text::to_lowercase(lang);
    language_of_lowered(&lower)
}

/// The name to show for a language name or code: `"ENG"` gives `"English"`;
/// what is not recognised is returned unchanged.
pub fn lang_name(lang: &str) -> (r: String)
    ensures
        r@ == spec_lang_name(lang@),
{
    match language_of_name(lang) {
        Some(l) => String::from_str(l.display_name()),
        None => String::from_str(lang),
    }
}

/// The name the subtitle service uses for a language name or code: `"en"`
/// gives `"english"`; what is not recognised is returned unchanged.
pub fn lang_to_api(lang: &str) -> (r: String)
    ensures
        r@ == spec_lang_to_api(lang@),
{
    match language_of_name(lang) {
        Some(l) => String::from_str(l.api_name()),
        None => String::from_str(lang),
    }
}

/// The three-letter track code for a language name or code: `"english"`
/// gives `"eng"`; what is not recognised is returned unchanged.
pub fn normalize_lang(lang: &str) -> (r: String)
    ensures
        r@ == spec_normalize_lang(lang@),
{
    match language_of_name(lang) {
        Some(l) => String::from_str(l.code()),
        None => String::from_str(lang),
    }
}

/// The display name of a display name is itself: a known language's
/// display name names that language again.
pub proof fn lang_name_idempotent(lang: Seq<char>)
    ensures
        spec_lang_name(spec_lang_name(lang)) == spec_lang_name(lang),
{
    if let Some(l) = language_of(text::lowercase(lang)) {
        lemma_names_denote(l);
    }
}

/// Whether `lang` is the preferred language `default_lang`: both have the
/// same service name.
pub fn is_preferred_language(lang: &str, default_lang: &str) -> (r: bool)
    ensures
        r == (spec_lang_to_api(lang@) == spec_lang_to_api(default_lang@)),
{
    let a = lang_to_api(lang);
    let b = lang_to_api(default_lang);
    a == b
}

/// Normalising a language twice gives what normalising it once gives.
pub proof fn normalize_lang_idempotent(lang: Seq<char>)
    ensures
        spec_normalize_lang(spec_normalize_lang(lang)) == spec_normalize_lang(lang),
{
    if let Some(l) = language_of(text::lowercase(lang)) {
        lemma_names_denote(l);
    }
}

/// Mapping a language to its service name twice gives what mapping it once
/// gives.
pub proof fn lang_to_api_idempotent(lang: Seq<char>)
    ensures
        spec_lang_to_api(spec_lang_to_api(lang)) == spec_lang_to_api(lang),
{
    if let Some(l) = language_of(text::lowercase(lang)) {
        lemma_names_denote(l);
    }
}

/// A language keeps its display name and service name when it is normalised
/// to its code, and keeps its code when it is mapped to its service name.
pub proof fn names_agree_after_normalizing(lang: Seq<char>)
    ensures
        spec_lang_name(spec_normalize_lang(lang)) == spec_lang_name(lang),
        spec_lang_to_api(spec_normalize_lang(lang)) == spec_lang_to_api(lang),
        spec_normalize_lang(spec_lang_to_api(lang)) == spec_normalize_lang(lang),
        spec_lang_name(spec_lang_to_api(lang)) == spec_lang_name(lang),
{
    if let Some(l) = language_of(text::lowercase(lang)) {
        lemma_names_denote(l);
    }
}

} // verus!
