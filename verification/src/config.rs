//! The configuration file: `key=value` lines holding the preferred
//! language, the output directory and the service's API key.
use vstd::prelude::*;

use crate::text;

verus! {

// ---------------------------------------------------------------------------
// Lines
// ---------------------------------------------------------------------------

/// `s` without one trailing carriage return.
pub open spec fn strip_cr(s: Seq<char>) -> Seq<char> {
    if s.len() > 0 && s.last() == '\r' {
        s.drop_last()
    } else {
        s
    }
}

/// The lines of `s`, as `str::lines` yields them: split at `\n`, a `\r`
/// right before a `\n` dropped, and no empty line after a final `\n`.
pub open spec fn text_lines(s: Seq<char>) -> Seq<Seq<char>> {
    let pieces = text::split_on(s, '\n');
    let n = pieces.len() as int;
    let body = pieces.take(n - 1).map_values(|p: Seq<char>| strip_cr(p));
    if pieces[n - 1].len() == 0 {
        body
    } else {
        body.push(pieces[n - 1])
    }
}

fn strip_cr_exec(v: &Vec<char>) -> (r: Vec<char>)
    ensures
        r@ == strip_cr(v@),
{
    if v.len() > 0 && v[v.len() - 1] == '\r' {
        text::copy_range(v, 0, v.len() - 1)
    } else {
        v.clone()
    }
}

/// The lines of `s`.
pub fn lines_of(s: &Vec<char>) -> (r: Vec<Vec<char>>)
    ensures
        text::views(r@) == text_lines(s@),
{
    let pieces = text::split_chars(s, '\n');
    proof {
        text::lemma_split_on_nonempty(s@, '\n');
    }
    let n = pieces.len();
    let ghost ps = text::split_on(s@, '\n');
    let mut r: Vec<Vec<char>> = Vec::new();
    let mut i: usize = 0;
    while i + 1 < n
        invariant
            n == pieces.len() >= 1,
            text::views(pieces@) == ps,
            i < n,
            text::views(r@) == ps.take(i as int).map_values(|p: Seq<char>| strip_cr(p)),
        decreases n - i,
    {
        assert(pieces@[i as int]@ == ps[i as int]);
        let line = strip_cr_exec(&pieces[i]);
        let ghost before = text::views(r@);
        r.push(line);
        assert(text::views(r@) =~= before.push(line@));
        i += 1;
        assert(text::views(r@) =~= ps.take(i as int).map_values(|p: Seq<char>| strip_cr(p)));
    }
    assert(pieces@[n - 1]@ == ps[n - 1]);
    if pieces[n - 1].len() == 0 {
        r
    } else {
        let ghost before = text::views(r@);
        let last = pieces[n - 1].clone();
        r.push(last);
        assert(text::views(r@) =~= before.push(ps[n - 1]));
        r
    }
}

/// The part of `s` before the first `c`, and the part after it; `None`
/// when `c` does not occur, as `str::split_once` gives them.
pub open spec fn split_once(s: Seq<char>, c: char) -> Option<(Seq<char>, Seq<char>)>
    decreases s.len(),
{
    if s.len() == 0 {
        None
    } else if s[0] == c {
        Some((Seq::<char>::empty(), s.drop_first()))
    } else {
        match split_once(s.drop_first(), c) {
            Some((a, b)) => Some((seq![s[0]] + a, b)),
            None => None,
        }
    }
}

proof fn lemma_split_once_at(s: Seq<char>, c: char, i: int)
    requires
        0 <= i <= s.len(),
        forall|k: int| 0 <= k < i ==> s[k] != c,
    ensures
        i < s.len() && s[i] == c ==> split_once(s, c) == Some((s.take(i), s.skip(i + 1))),
        i == s.len() ==> split_once(s, c) is None,
    decreases i,
{
    if i > 0 {
        lemma_split_once_at(s.drop_first(), c, i - 1);
        assert(seq![s[0]] + s.drop_first().take(i - 1) =~= s.take(i));
        if i < s.len() {
            assert(s.drop_first().skip(i) =~= s.skip(i + 1));
        }
    } else if s.len() > 0 {
        assert(s.take(0) =~= Seq::<char>::empty());
        assert(s.drop_first() =~= s.skip(1));
    }
}

/// Splits `s` at its first `c`.
fn split_once_exec(s: &Vec<char>, c: char) -> (r: Option<(Vec<char>, Vec<char>)>)
    ensures
        match r {
            Some((a, b)) => split_once(s@, c) == Some((a@, b@)),
            None => split_once(s@, c) is None,
        },
{
    let mut i: usize = 0;
    while i < s.len()
        invariant
            i <= s.len(),
            forall|k: int| 0 <= k < i ==> s@[k] != c,
        decreases s.len() - i,
    {
        if s[i] == c {
            proof {
                lemma_split_once_at(s@, c, i as int);
            }
            let a = text::copy_range(s, 0, i);
            let b = text::copy_range(s, i + 1, s.len());
            assert(a@ =~= s@.take(i as int));
            assert(b@ =~= s@.skip(i + 1));
            return Some((a, b));
        }
        i += 1;
    }
    proof {
        lemma_split_once_at(s@, c, i as int);
    }
    None
}

// ---------------------------------------------------------------------------
// Settings
// ---------------------------------------------------------------------------

/// The settings that `key=value` lines define: keys and values are trimmed,
/// a later line overrides an earlier one, lines without `=` define nothing.
pub open spec fn lines_settings(lines: Seq<Seq<char>>) -> Map<Seq<char>, Seq<char>>
    decreases lines.len(),
{
    if lines.len() == 0 {
        Map::empty()
    } else {
        let m = lines_settings(lines.drop_last());
        match split_once(lines.last(), '=') {
            Some((k, v)) => m.insert(text::trim(k), text::trim(v)),
            None => m,
        }
    }
}

/// The settings that a configuration file holds.
pub open spec fn config_settings(content: Seq<char>) -> Map<Seq<char>, Seq<char>> {
    lines_settings(text_lines(content))
}

/// The settings that a list of (key, value) entries defines, a later entry
/// overriding an earlier one.
pub open spec fn entries_map(entries: Seq<(String, String)>) -> Map<Seq<char>, Seq<char>>
    decreases entries.len(),
{
    if entries.len() == 0 {
        Map::empty()
    } else {
        entries_map(entries.drop_last()).insert(entries.last().0@, entries.last().1@)
    }
}

/// The value of setting `key`, or `default` when it is not set.
pub open spec fn setting_or(m: Map<Seq<char>, Seq<char>>, key: Seq<char>, default: Seq<char>) -> Seq<
    char,
> {
    if m.contains_key(key) {
        m[key]
    } else {
        default
    }
}

/// The view of an optional string.
pub open spec fn opt_string_view(o: Option<String>) -> Option<Seq<char>> {
    match o {
        Some(s) => Some(s@),
        None => None,
    }
}

/// The view of an optional string slice.
pub open spec fn opt_str_view(o: Option<&str>) -> Option<Seq<char>> {
    match o {
        Some(s) => Some(s@),
        None => None,
    }
}

/// The value of `key` among `entries`, searching from the last entry.
fn lookup(entries: &Vec<(String, String)>, key: &str) -> (r: Option<String>)
    ensures
        opt_string_view(r) == (if entries_map(entries@).contains_key(key@) {
            Some(entries_map(entries@)[key@])
        } else {
            None
        }),
{
    let k = String::from_str(key);
    let mut i = entries.len();
    assert(entries@.take(i as int) =~= entries@);
    while i > 0
        invariant
            i <= entries.len(),
            k@ == key@,
            entries_map(entries@).contains_key(key@) == entries_map(
                entries@.take(i as int),
            ).contains_key(key@),
            entries_map(entries@).contains_key(key@) ==> entries_map(entries@)[key@]
                == entries_map(entries@.take(i as int))[key@],
        decreases i,
    {
        let ghost pre = entries@.take(i as int);
        assert(pre.drop_last() =~= entries@.take(i - 1));
        assert(pre.last() == entries@[i - 1]);
        if entries[i - 1].0 == k {
            return Some(entries[i - 1].1.clone());
        }
        i -= 1;
    }
    None
}

/// The settings read from the configuration file, held as (key, value)
/// entries in the order they were read.
pub struct ConfigData {
    entries: Vec<(String, String)>,
}

impl ConfigData {
    /// The settings held.
    pub closed spec fn settings(&self) -> Map<Seq<char>, Seq<char>> {
        entries_map(self.entries@)
    }

    /// The settings that the file content `content` defines.
    pub fn parse(content: &str) -> (r: ConfigData)
        ensures
            r.settings() == config_settings(content@),
    {
        let chars = text::chars_of(content);
        let lines = lines_of(&chars);
        let ghost ls = text_lines(content@);
        let mut entries: Vec<(String, String)> = Vec::new();
        let mut i: usize = 0;
        assert(ls.take(0) =~= Seq::<Seq<char>>::empty());
        while i < lines.len()
            invariant
                i <= lines.len(),
                text::views(lines@) == ls,
                entries_map(entries@) == lines_settings(ls.take(i as int)),
            decreases lines.len() - i,
        {
            assert(lines@[i as int]@ == ls[i as int]);
            assert(ls.take(i + 1).drop_last() =~= ls.take(i as int));
            assert(ls.take(i + 1).last() == ls[i as int]);
            match split_once_exec(&lines[i], '=') {
                Some((k, v)) => {
                    let kt = text::trim_chars(&k);
                    let vt = text::trim_chars(&v);
                    let entry = (text::string_from_chars(&kt), text::string_from_chars(&vt));
                    let ghost before = entries@;
                    entries.push(entry);
                    assert(entries@.drop_last() =~= before);
                },
                None => {},
            }
            i += 1;
        }
        assert(ls.take(lines.len() as int) =~= ls);
        ConfigData { entries }
    }

    /// No settings.
    pub fn empty() -> (r: ConfigData)
        ensures
            r.settings() == Map::<Seq<char>, Seq<char>>::empty(),
    {
        ConfigData { entries: Vec::new() }
    }

    /// The value of setting `key`, if it is set.
    pub fn get(&self, key: &str) -> (r: Option<String>)
        ensures
            opt_string_view(r) == (if self.settings().contains_key(key@) {
                Some(self.settings()[key@])
            } else {
                None
            }),
    {
        lookup(&self.entries, key)
    }
}

// ---------------------------------------------------------------------------
// Rewriting the file
// ---------------------------------------------------------------------------

/// The lines of `content` that do not begin with `prefix`, in order.
pub open spec fn lines_without(content: Seq<char>, prefix: Seq<char>) -> Seq<Seq<char>> {
    text_lines(content).filter(|l: Seq<char>| !text::starts_with(l, prefix))
}

/// The lines joined with `\n` between them, as `[String]::join("\n")` does.
pub open spec fn join_lines(ls: Seq<Seq<char>>) -> Seq<char>
    decreases ls.len(),
{
    if ls.len() == 0 {
        Seq::<char>::empty()
    } else if ls.len() == 1 {
        ls[0]
    } else {
        join_lines(ls.drop_last()) + seq!['\n'] + ls.last()
    }
}

/// The file content after setting `key` to `value`: the existing lines that
/// set `key` are dropped, `key=value` is added as the last line, and every
/// line ends with `\n`. `existing` is the current content, `None` when
/// there is no file.
pub open spec fn with_setting(existing: Option<Seq<char>>, key: Seq<char>, value: Seq<char>) -> Seq<
    char,
> {
    let prefix = key + "="@;
    let kept = match existing {
        Some(c) => lines_without(c, prefix),
        None => Seq::<Seq<char>>::empty(),
    };
    join_lines(kept.push(prefix + value)) + "\n"@
}

/// The lines of `content` that do not begin with `prefix`.
fn lines_without_exec(content: &str, prefix: &Vec<char>) -> (r: Vec<Vec<char>>)
    ensures
        text::views(r@) == lines_without(content@, prefix@),
{
    let chars = text::chars_of(content);
    let lines = lines_of(&chars);
    let ghost ls = text_lines(content@);
    let mut r: Vec<Vec<char>> = Vec::new();
    let mut i: usize = 0;
    proof {
        reveal_with_fuel(Seq::<_>::filter, 1);
        assert(ls.take(0) =~= Seq::<Seq<char>>::empty());
    }
    while i < lines.len()
        invariant
            i <= lines.len(),
            text::views(lines@) == ls,
            text::views(r@) == ls.take(i as int).filter(
                |l: Seq<char>| !text::starts_with(l, prefix@),
            ),
        decreases lines.len() - i,
    {
        proof {
            reveal_with_fuel(Seq::<_>::filter, 1);
            assert(lines@[i as int]@ == ls[i as int]);
            assert(ls.take(i + 1).drop_last() =~= ls.take(i as int));
            assert(ls.take(i + 1).last() == ls[i as int]);
        }
        if !text::starts_with_chars(&lines[i], prefix) {
            let ghost before = text::views(r@);
            let line = lines[i].clone();
            r.push(line);
            assert(text::views(r@) =~= before.push(ls[i as int]));
        }
        i += 1;
    }
    assert(ls.take(lines.len() as int) =~= ls);
    r
}

/// Joins the lines with `\n` between them and adds a final `\n`.
fn join_with_newline(ls: &Vec<Vec<char>>) -> (r: String)
    ensures
        r@ == join_lines(text::views(ls@)) + "\n"@,
{
    let ghost v = text::views(ls@);
    let mut out: Vec<char> = Vec::new();
    let mut i: usize = 0;
    assert(v.take(0) =~= Seq::<Seq<char>>::empty());
    while i < ls.len()
        invariant
            i <= ls.len(),
            v == text::views(ls@),
            out@ == join_lines(v.take(i as int)),
        decreases ls.len() - i,
    {
        assert(ls@[i as int]@ == v[i as int]);
        assert(v.take(i + 1).drop_last() =~= v.take(i as int));
        if i > 0 {
            out.push('\n');
        } else {
            assert(out@ =~= Seq::<char>::empty());
        }
        text::append_chars(&mut out, &ls[i]);
        i += 1;
    }
    assert(v.take(ls.len() as int) =~= v);
    text::append_str(&mut out, "\n");
    text::string_from_chars(&out)
}

/// The file content after setting `key` to `value` (see `with_setting`).
pub fn set_key(existing: Option<&str>, key: &str, value: &str) -> (r: String)
    ensures
        r@ == with_setting(opt_str_view(existing), key@, value@),
{
    let mut prefix = text::chars_of(key);
    text::append_str(&mut prefix, "=");
    let mut kept = match existing {
        Some(c) => lines_without_exec(c, &prefix),
        None => Vec::new(),
    };
    let mut line = prefix.clone();
    text::append_str(&mut line, value);
    let ghost before = text::views(kept@);
    kept.push(line);
    assert(text::views(kept@) =~= before.push(key@ + "="@ + value@));
    proof {
        match existing {
            Some(c) => {},
            None => {
                assert(before =~= Seq::<Seq<char>>::empty());
            },
        }
    }
    join_with_newline(&kept)
}

/// A setting that `config set` can change.
#[derive(Clone, Copy, Debug, PartialEq, Eq, Structural)]
pub enum Setting {
    /// The preferred subtitle language (`lang`).
    Lang,
    /// The directory downloads are saved to (`dir`).
    Dir,
}

impl Setting {
    /// The key under which the file stores the setting.
    pub open spec fn spec_key(self) -> Seq<char> {
        match self {
            Setting::Lang => "default_lang"@,
            Setting::Dir => "default_dir"@,
        }
    }

    /// The key under which the file stores the setting.
    pub fn key(&self) -> (r: &'static str)
        ensures
            r@ == self.spec_key(),
    {
        match self {
            Setting::Lang => "default_lang",
            Setting::Dir => "default_dir",
        }
    }
}

/// The setting that a name given to `config set` stands for.
pub open spec fn spec_setting_named(name: Seq<char>) -> Option<Setting> {
    if name == "lang"@ {
        Some(Setting::Lang)
    } else if name == "dir"@ {
        Some(Setting::Dir)
    } else {
        None
    }
}

/// The setting that a name given to `config set` stands for.
pub fn setting_named(name: &str) -> (r: Option<Setting>)
    ensures
        r == spec_setting_named(name@),
{
    let n = text::chars_of(name);
    if text::chars_eq_str(&n, "lang") {
        Some(Setting::Lang)
    } else if text::chars_eq_str(&n, "dir") {
        Some(Setting::Dir)
    } else {
        None
    }
}

/// The tool's configuration.
pub struct ConfigManager {
    /// Where the configuration file is.
    pub config_path: String,
    /// The preferred subtitle language.
    pub default_lang: String,
    /// The directory downloads are saved to.
    pub default_dir: String,
    /// The settings read from the configuration file.
    pub data: ConfigData,
}

impl ConfigManager {
    /// The settings the configuration file held when it was loaded.
    pub open spec fn settings(&self) -> Map<Seq<char>, Seq<char>> {
        self.data.settings()
    }

    /// The configuration whose file is at `config_path` and holds `content`
    /// (`None` when there is no file or it cannot be read): the settings the
    /// file defines; the preferred language is `default_lang`, `indonesian`
    /// when unset; the directory is `default_dir`, `.` when unset.
    pub fn load(config_path: String, content: Option<&str>) -> (r: ConfigManager)
        ensures
            r.config_path == config_path,
            r.settings() == match content {
                Some(c) => config_settings(c@),
                None => Map::<Seq<char>, Seq<char>>::empty(),
            },
            r.default_lang@ == setting_or(r.settings(), "default_lang"@, "indonesian"@),
            r.default_dir@ == setting_or(r.settings(), "default_dir"@, "."@),
    {
        let data = match content {
            Some(c) => ConfigData::parse(c),
            None => ConfigData::empty(),
        };
        let default_lang = match data.get("default_lang") {
            Some(l) => l,
            None => String::from_str("indonesian"),
        };
        let default_dir = match data.get("default_dir") {
            Some(d) => d,
            None => String::from_str("."),
        };
        ConfigManager { config_path, default_lang, default_dir, data }
    }

    /// The API key: the value of the `SUBSOURCE_API_KEY` environment
    /// variable (`env_key`) when it is set and not empty, otherwise the
    /// `api_key` setting.
    pub fn api_key(&self, env_key: Option<&str>) -> (r: Option<String>)
        ensures
            opt_string_view(r) == match env_key {
                Some(k) if k@.len() > 0 => Some(k@),
                _ => if self.settings().contains_key("api_key"@) {
                    Some(self.settings()["api_key"@])
                } else {
                    None
                },
            },
    {
        match env_key {
            Some(k) => {
                if !k.is_empty() {
                    return Some(String::from_str(k));
                }
            },
            None => {},
        }
        self.data.get("api_key")
    }

    /// The file content after storing `key` as the API key: the existing
    /// `api_key=` lines of `existing` are dropped and `api_key=<key>` is
    /// added as the last line.
    pub fn save_api_key(&self, existing: Option<&str>, key: &str) -> (r: String)
        ensures
            r@ == with_setting(opt_str_view(existing), "api_key"@, key@),
    {
        set_key(existing, "api_key", key)
    }

    /// The file content after removing the API key from `existing`, and
    /// whether there was an `api_key=` line to remove.
    pub fn remove_api_key(&self, existing: &str) -> (r: (String, bool))
        ensures
            r.0@ == join_lines(lines_without(existing@, "api_key="@)) + "\n"@,
            r.1 == (lines_without(existing@, "api_key="@).len() < text_lines(existing@).len()),
    {
        let prefix = text::chars_of("api_key=");
        let kept = lines_without_exec(existing, &prefix);
        let all = lines_of(&text::chars_of(existing));
        let content = join_with_newline(&kept);
        let removed = kept.len() < all.len();
        (content, removed)
    }

    /// The setting named `key` and the file content after setting it to
    /// `value`; `None` when no setting has that name.
    pub fn set_config(&self, existing: Option<&str>, key: &str, value: &str) -> (r: Option<
        (Setting, String),
    >)
        ensures
            match r {
                Some((s, c)) => spec_setting_named(key@) == Some(s) && c@ == with_setting(
                    opt_str_view(existing),
                    s.spec_key(),
                    value@,
                ),
                None => spec_setting_named(key@) is None,
            },
    {
        match setting_named(key) {
            Some(s) => Some((s, set_key(existing, s.key(), value))),
            None => None,
        }
    }
}

// ---------------------------------------------------------------------------
// What a rewritten file reads back as
// ---------------------------------------------------------------------------

/// Appending text without a separator extends the last piece.
proof fn lemma_split_append(s: Seq<char>, t: Seq<char>, sep: char)
    requires
        !t.contains(sep),
    ensures
        text::split_on(s + t, sep) == text::split_on(s, sep).update(
            text::split_on(s, sep).len() - 1,
            text::split_on(s, sep).last() + t,
        ),
    decreases t.len(),
{
    text::lemma_split_on_nonempty(s, sep);
    if t.len() == 0 {
        assert(s + t =~= s);
        assert(text::split_on(s, sep).update(
            text::split_on(s, sep).len() - 1,
            text::split_on(s, sep).last() + t,
        ) =~= text::split_on(s, sep));
    } else {
        let t0 = t.drop_last();
        assert(!t0.contains(sep)) by {
            if t0.contains(sep) {
                let i = choose|i: int| 0 <= i < t0.len() && t0[i] == sep;
                assert(t[i] == sep);
            }
        }
        assert(t.last() != sep) by {
            assert(t[t.len() - 1] == t.last());
        }
        lemma_split_append(s, t0, sep);
        assert((s + t).drop_last() =~= s + t0);
        assert((s + t).last() == t.last());
        text::lemma_split_on_nonempty(s + t0, sep);
        let p = text::split_on(s, sep);
        let init = text::split_on(s + t0, sep);
        assert(init == p.update(p.len() - 1, p.last() + t0));
        assert(init.len() == p.len());
        assert(init.last() == p.last() + t0);
        assert(t =~= t0.push(t.last()));
        assert((p.last() + t0).push(t.last()) =~= p.last() + t);
        assert(text::split_on(s + t, sep) == init.update(init.len() - 1, init.last().push(t.last())));
        assert(text::split_on(s + t, sep) =~= p.update(p.len() - 1, p.last() + t));
    }
}

/// A line of `text_lines` holds no line break.
pub open spec fn no_breaks(ls: Seq<Seq<char>>) -> bool {
    forall|i: int| 0 <= i < ls.len() ==> !(#[trigger] ls[i]).contains('\n')
}

/// Splitting joined lines at line breaks gives the lines back.
proof fn lemma_split_join(ls: Seq<Seq<char>>)
    requires
        ls.len() > 0,
        no_breaks(ls),
    ensures
        text::split_on(join_lines(ls), '\n') == ls,
    decreases ls.len(),
{
    if ls.len() == 1 {
        assert(!ls[0].contains('\n'));
        text::lemma_split_no_sep(ls[0], '\n');
        assert(seq![ls[0]] =~= ls);
    } else {
        let init = ls.drop_last();
        assert(no_breaks(init)) by {
            assert forall|i: int| 0 <= i < init.len() implies !(#[trigger] init[i]).contains('\n') by {
                assert(init[i] == ls[i]);
            }
        }
        lemma_split_join(init);
        let a = join_lines(init) + seq!['\n'];
        assert(a.drop_last() =~= join_lines(init));
        assert(a.last() == '\n');
        assert(text::split_on(a, '\n') == init.push(Seq::<char>::empty()));
        assert(!ls.last().contains('\n')) by {
            assert(ls[ls.len() - 1] == ls.last());
        }
        lemma_split_append(a, ls.last(), '\n');
        assert(Seq::<char>::empty() + ls.last() =~= ls.last());
        assert(init.push(Seq::<char>::empty()).update(init.len() as int, ls.last()) =~= ls);
    }
}

/// Reading back lines written with a final line break gives the lines, each
/// without a trailing carriage return.
proof fn lemma_lines_of_written(ls: Seq<Seq<char>>)
    requires
        ls.len() > 0,
        no_breaks(ls),
    ensures
        text_lines(join_lines(ls) + "\n"@) == ls.map_values(|p: Seq<char>| strip_cr(p)),
{
    reveal_strlit("\n");
    lemma_split_join(ls);
    let w = join_lines(ls) + "\n"@;
    assert(w.drop_last() =~= join_lines(ls));
    assert(w.last() == '\n');
    let pieces = text::split_on(w, '\n');
    assert(pieces == ls.push(Seq::<char>::empty()));
    assert(pieces.take(pieces.len() - 1) =~= ls);
}

/// `trim(s)` when `s` ends with whitespace `c`.
proof fn lemma_trim_start_push(w: Seq<char>, c: char)
    ensures
        text::trim_start(w.push(c)) == (if text::trim_start(w).len() == 0 {
            text::trim_start(seq![c])
        } else {
            text::trim_start(w).push(c)
        }),
    decreases w.len(),
{
    if w.len() == 0 {
        assert(w.push(c) =~= seq![c]);
    } else if text::is_white_space(w[0]) {
        assert(w.push(c).drop_first() =~= w.drop_first().push(c));
        lemma_trim_start_push(w.drop_first(), c);
    } else {
        assert(w.push(c)[0] == w[0]);
    }
}

/// Trimming ignores one trailing carriage return.
proof fn lemma_trim_strip_cr(v: Seq<char>)
    ensures
        text::trim(strip_cr(v)) == text::trim(v),
{
    if v.len() > 0 && v.last() == '\r' {
        let w = v.drop_last();
        assert(v =~= w.push('\r'));
        lemma_trim_start_push(w, '\r');
        assert(text::is_white_space('\r'));
        if text::trim_start(w).len() == 0 {
            assert(seq!['\r'].drop_first() =~= Seq::<char>::empty());
            assert(text::trim_start(Seq::<char>::empty()) == Seq::<char>::empty());
            assert(seq!['\r'][0] == '\r');
            assert(text::trim_start(seq!['\r']) =~= Seq::<char>::empty());
            assert(text::trim_end(Seq::<char>::empty()) == Seq::<char>::empty());
        } else {
            let t = text::trim_start(w).push('\r');
            assert(t.drop_last() =~= text::trim_start(w));
        }
    }
}

/// Splitting `a`, `c`, `b` at the first `c` gives `a` and `b` when `a`
/// holds no `c`.
proof fn lemma_split_once_first(a: Seq<char>, c: char, b: Seq<char>)
    requires
        !a.contains(c),
    ensures
        split_once(a + seq![c] + b, c) == Some((a, b)),
    decreases a.len(),
{
    let s = a + seq![c] + b;
    if a.len() == 0 {
        assert(s =~= seq![c] + b);
        assert(s.drop_first() =~= b);
    } else {
        assert(a[0] != c);
        assert(!a.drop_first().contains(c)) by {
            if a.drop_first().contains(c) {
                let i = choose|i: int| 0 <= i < a.drop_first().len() && a.drop_first()[i] == c;
                assert(a[i + 1] == c);
            }
        }
        lemma_split_once_first(a.drop_first(), c, b);
        assert(s.drop_first() =~= a.drop_first() + seq![c] + b);
        assert(seq![s[0]] + a.drop_first() =~= a);
    }
}

/// What one line sets: its key and value, both trimmed.
pub open spec fn line_setting(l: Seq<char>) -> Option<(Seq<char>, Seq<char>)> {
    match split_once(l, '=') {
        Some((k, v)) => Some((text::trim(k), text::trim(v))),
        None => None,
    }
}

/// Splitting a line that ends with a carriage return, with and without it.
proof fn lemma_split_once_strip_cr(l: Seq<char>)
    requires
        l.len() > 0,
        l.last() == '\r',
    ensures
        split_once(strip_cr(l), '=') == match split_once(l, '=') {
            Some((a, b)) => Some((a, strip_cr(b))),
            None => None,
        },
        split_once(l, '=') matches Some((a, b)) ==> b.len() > 0 && b.last() == '\r',
    decreases l.len(),
{
    let w = l.drop_last();
    if l.len() == 1 {
        assert(l[0] == l.last());
        assert(l.drop_first() =~= Seq::<char>::empty());
    } else if l[0] == '=' {
        assert(w[0] == '=');
        assert(w.drop_first() =~= l.drop_first().drop_last());
        assert(l.drop_first().last() == '\r');
    } else {
        let t = l.drop_first();
        assert(t.last() == '\r');
        lemma_split_once_strip_cr(t);
        assert(w[0] == l[0]);
        assert(w.drop_first() =~= strip_cr(t));
    }
}

/// A line sets the same thing with or without a trailing carriage return.
proof fn lemma_line_setting_strip_cr(l: Seq<char>)
    ensures
        line_setting(strip_cr(l)) == line_setting(l),
{
    if l.len() > 0 && l.last() == '\r' {
        lemma_split_once_strip_cr(l);
        if let Some((a, b)) = split_once(l, '=') {
            lemma_trim_strip_cr(b);
        }
    }
}

/// The settings of some lines do not change when trailing carriage returns
/// are dropped from them.
proof fn lemma_settings_strip_cr(ls: Seq<Seq<char>>)
    ensures
        lines_settings(ls.map_values(|p: Seq<char>| strip_cr(p))) == lines_settings(ls),
    decreases ls.len(),
{
    let m = ls.map_values(|p: Seq<char>| strip_cr(p));
    if ls.len() > 0 {
        assert(m.drop_last() =~= ls.drop_last().map_values(|p: Seq<char>| strip_cr(p)));
        lemma_settings_strip_cr(ls.drop_last());
        lemma_line_setting_strip_cr(ls.last());
        assert(m.last() == strip_cr(ls.last()));
    }
}

/// `m1` and `m2` agree on key `k`.
pub open spec fn agree_on(m1: Map<Seq<char>, Seq<char>>, m2: Map<Seq<char>, Seq<char>>, k: Seq<char>) -> bool {
    &&& m1.contains_key(k) == m2.contains_key(k)
    &&& m1.contains_key(k) ==> m1[k] == m2[k]
}

/// Dropping the lines that begin with `key=` changes no setting but `key`.
proof fn lemma_settings_without(ls: Seq<Seq<char>>, key: Seq<char>, other: Seq<char>)
    requires
        !key.contains('='),
        other != text::trim(key),
    ensures
        agree_on(
            lines_settings(ls.filter(|l: Seq<char>| !text::starts_with(l, key + "="@))),
            lines_settings(ls),
            other,
        ),
    decreases ls.len(),
{
    reveal_with_fuel(Seq::<_>::filter, 1);
    reveal_strlit("=");
    let pred = |l: Seq<char>| !text::starts_with(l, key + "="@);
    if ls.len() > 0 {
        let init = ls.drop_last();
        lemma_settings_without(init, key, other);
        let l = ls.last();
        let f = ls.filter(pred);
        let fi = init.filter(pred);
        if !pred(l) {
            let prefix = key + "="@;
            assert(l.take(prefix.len() as int) == prefix);
            assert("="@ =~= seq!['=']);
            assert(l =~= l.take(prefix.len() as int) + l.skip(prefix.len() as int));
            assert(l =~= key + seq!['='] + l.skip(prefix.len() as int));
            lemma_split_once_first(key, '=', l.skip(prefix.len() as int));
            assert(f == fi);
        } else {
            assert(f == fi.push(l));
            assert(f.drop_last() =~= fi);
            assert(f.last() == l);
        }
    }
}

/// Setting `key` to `value` and reading the file back gives `value` for
/// `key` (both trimmed, as reading trims them), whatever the file held
/// before; the key must hold no `=` and neither may hold a line break.
pub proof fn set_key_then_read(existing: Option<Seq<char>>, key: Seq<char>, value: Seq<char>)
    requires
        !key.contains('='),
        !key.contains('\n'),
        !value.contains('\n'),
    ensures
        config_settings(with_setting(existing, key, value)).contains_key(text::trim(key)),
        config_settings(with_setting(existing, key, value))[text::trim(key)] == text::trim(value),
{
    reveal_strlit("=");
    let prefix = key + "="@;
    let kept = match existing {
        Some(c) => lines_without(c, prefix),
        None => Seq::<Seq<char>>::empty(),
    };
    let line = prefix + value;
    let ls = kept.push(line);
    lemma_written_lines_no_breaks(existing, key, value);
    lemma_lines_of_written(ls);
    lemma_settings_strip_cr(ls);
    assert(ls.drop_last() =~= kept);
    assert(line =~= key + seq!['='] + value);
    lemma_split_once_first(key, '=', value);
}

/// Setting the language or the download directory and loading the file
/// back gives the value as it was set, trimmed and otherwise unchanged (no
/// case mapping): after `config set dir /home/u/Downloads` downloads go to
/// `/home/u/Downloads`.
pub proof fn set_setting_then_load(existing: Option<Seq<char>>, s: Setting, value: Seq<char>)
    requires
        !value.contains('\n'),
    ensures
        s == Setting::Dir ==> setting_or(
            config_settings(with_setting(existing, s.spec_key(), value)),
            "default_dir"@,
            "."@,
        ) == text::trim(value),
        s == Setting::Lang ==> setting_or(
            config_settings(with_setting(existing, s.spec_key(), value)),
            "default_lang"@,
            "indonesian"@,
        ) == text::trim(value),
{
    reveal_strlit("default_dir");
    reveal_strlit("default_lang");
    let key = s.spec_key();
    assert(!key.contains('=') && !key.contains('\n')) by {
        if key.contains('=') || key.contains('\n') {
            let i = choose|i: int| 0 <= i < key.len() && (key[i] == '=' || key[i] == '\n');
            assert(key[i] != '=' && key[i] != '\n');
        }
    }
    assert(text::trim(key) == key) by {
        text::lemma_trim_padded(Seq::<char>::empty(), key, Seq::<char>::empty());
        assert(Seq::<char>::empty() + key + Seq::<char>::empty() =~= key);
    }
    set_key_then_read(existing, key, value);
}

/// The lines of a rewritten file hold no line break.
proof fn lemma_written_lines_no_breaks(existing: Option<Seq<char>>, key: Seq<char>, value: Seq<char>)
    requires
        !key.contains('\n'),
        !value.contains('\n'),
    ensures
        no_breaks(
            (match existing {
                Some(c) => lines_without(c, key + "="@),
                None => Seq::<Seq<char>>::empty(),
            }).push(key + "="@ + value),
        ),
{
    reveal_strlit("=");
    let kept = match existing {
        Some(c) => lines_without(c, key + "="@),
        None => Seq::<Seq<char>>::empty(),
    };
    match existing {
        Some(c) => {
            lemma_text_lines_no_breaks(c);
            let all = text_lines(c);
            let pred = |l: Seq<char>| !text::starts_with(l, key + "="@);
            assert forall|i: int| 0 <= i < kept.len() implies !(#[trigger] kept[i]).contains('\n') by {
                assert(kept.contains(kept[i]));
                all.lemma_filter_contains_rev(pred, kept[i]);
                let j = choose|j: int| 0 <= j < all.len() && all[j] == kept[i];
            }
        },
        None => {},
    }
    let line = key + "="@ + value;
    assert(!line.contains('\n')) by {
        if line.contains('\n') {
            let i = choose|i: int| 0 <= i < line.len() && line[i] == '\n';
            if i < key.len() {
                assert(key[i] == '\n');
            } else if i > key.len() {
                assert(value[i - key.len() - 1] == '\n');
            }
        }
    }
    let ls = kept.push(line);
    assert forall|i: int| 0 <= i < ls.len() implies !(#[trigger] ls[i]).contains('\n') by {
        if i < kept.len() {
            assert(ls[i] == kept[i]);
        }
    }
}

/// The pieces of a split hold no separator.
proof fn lemma_split_pieces(s: Seq<char>, sep: char)
    ensures
        forall|i: int|
            0 <= i < text::split_on(s, sep).len() ==> !(#[trigger] text::split_on(s, sep)[i]).contains(
                sep,
            ),
    decreases s.len(),
{
    if s.len() > 0 {
        lemma_split_pieces(s.drop_last(), sep);
        text::lemma_split_on_nonempty(s.drop_last(), sep);
        let init = text::split_on(s.drop_last(), sep);
        let p = text::split_on(s, sep);
        assert forall|i: int| 0 <= i < p.len() implies !(#[trigger] p[i]).contains(sep) by {
            if s.last() == sep {
                if i < init.len() {
                    assert(p[i] == init[i]);
                } else {
                    assert(p[i] =~= Seq::<char>::empty());
                }
            } else if i < init.len() - 1 {
                assert(p[i] == init[i]);
            } else {
                let q = init.last().push(s.last());
                assert(p[i] == q);
                if q.contains(sep) {
                    let j = choose|j: int| 0 <= j < q.len() && q[j] == sep;
                    assert(init[init.len() - 1] == init.last());
                    assert(j < init.last().len() ==> init.last()[j] == sep);
                }
            }
        }
    }
}

/// The lines of a text hold no line break.
proof fn lemma_text_lines_no_breaks(c: Seq<char>)
    ensures
        no_breaks(text_lines(c)),
{
    lemma_split_pieces(c, '\n');
    text::lemma_split_on_nonempty(c, '\n');
    let pieces = text::split_on(c, '\n');
    let n = pieces.len() as int;
    let ls = text_lines(c);
    assert forall|i: int| 0 <= i < ls.len() implies !(#[trigger] ls[i]).contains('\n') by {
        if i < n - 1 {
            let p = pieces[i];
            assert(ls[i] == strip_cr(p));
            if strip_cr(p).contains('\n') {
                let j = choose|j: int| 0 <= j < strip_cr(p).len() && strip_cr(p)[j] == '\n';
                assert(p[j] == '\n');
            }
        } else {
            assert(ls[i] == pieces[n - 1]);
        }
    }
}

/// Setting `key` leaves every other setting as the file had it.
pub proof fn set_key_keeps_others(
    existing: Seq<char>,
    key: Seq<char>,
    value: Seq<char>,
    other: Seq<char>,
)
    requires
        !key.contains('='),
        !key.contains('\n'),
        !value.contains('\n'),
        other != text::trim(key),
    ensures
        agree_on(
            config_settings(with_setting(Some(existing), key, value)),
            config_settings(existing),
            other,
        ),
{
    reveal_strlit("=");
    let prefix = key + "="@;
    let kept = lines_without(existing, prefix);
    let line = prefix + value;
    let ls = kept.push(line);
    lemma_written_lines_no_breaks(Some(existing), key, value);
    lemma_lines_of_written(ls);
    lemma_settings_strip_cr(ls);
    assert(ls.drop_last() =~= kept);
    assert(line =~= key + seq!['='] + value);
    lemma_split_once_first(key, '=', value);
    lemma_settings_without(text_lines(existing), key, other);
}

/// A key is set by some lines exactly when one of them sets it.
proof fn lemma_settings_key_from_line(ls: Seq<Seq<char>>, k: Seq<char>)
    requires
        lines_settings(ls).contains_key(k),
    ensures
        exists|i: int| 0 <= i < ls.len() && (line_setting(#[trigger] ls[i]) matches Some((a, _)) && a == k),
    decreases ls.len(),
{
    let init = ls.drop_last();
    let l = ls.last();
    if line_setting(l) matches Some((a, _)) && a == k {
        assert(ls[ls.len() - 1] == l);
    } else {
        lemma_settings_key_from_line(init, k);
        let i = choose|i: int| 0 <= i < init.len() && (line_setting(#[trigger] init[i]) matches Some((a, _)) && a == k);
        assert(ls[i] == init[i]);
    }
}

/// The lines of `existing` that set the API key all begin with `api_key=`.
pub open spec fn api_key_lines_plain(existing: Seq<char>) -> bool {
    forall|i: int|
        0 <= i < text_lines(existing).len() ==> (line_setting(#[trigger] text_lines(existing)[i]) matches Some((k, _)) && k == "api_key"@ ==> text::starts_with(text_lines(existing)[i], "api_key="@))
}

/// Removing the API key and reading the file back finds no API key, when
/// every line that sets it begins with `api_key=` (a line such as
/// ` api_key=...` sets it too but is kept).
pub proof fn remove_api_key_then_read(existing: Seq<char>)
    requires
        api_key_lines_plain(existing),
    ensures
        !config_settings(join_lines(lines_without(existing, "api_key="@)) + "\n"@).contains_key(
            "api_key"@,
        ),
{
    reveal_strlit("\n");
    let kept = lines_without(existing, "api_key="@);
    let content = join_lines(kept) + "\n"@;
    if kept.len() == 0 {
        assert(content =~= seq!['\n']);
        assert(content.drop_last() =~= Seq::<char>::empty());
        assert(content.last() == '\n');
        assert(text::split_on(Seq::<char>::empty(), '\n') == seq![Seq::<char>::empty()]);
        let pieces = text::split_on(content, '\n');
        assert(pieces =~= seq![Seq::<char>::empty(), Seq::<char>::empty()]);
        assert(text_lines(content) =~= seq![Seq::<char>::empty()]);
        let ls = seq![Seq::<char>::empty()];
        assert(ls.drop_last() =~= Seq::<Seq<char>>::empty());
        assert(split_once(Seq::<char>::empty(), '=') is None);
        assert(ls.last() == Seq::<char>::empty());
        assert(lines_settings(ls) == lines_settings(Seq::<Seq<char>>::empty()));
        assert(config_settings(content) == lines_settings(ls));
    } else {
        let all = text_lines(existing);
        let pred = |l: Seq<char>| !text::starts_with(l, "api_key="@);
        lemma_text_lines_no_breaks(existing);
        assert(no_breaks(kept)) by {
            assert forall|i: int| 0 <= i < kept.len() implies !(#[trigger] kept[i]).contains('\n') by {
                assert(kept.contains(kept[i]));
                all.lemma_filter_contains_rev(pred, kept[i]);
                let j = choose|j: int| 0 <= j < all.len() && all[j] == kept[i];
            }
        }
        lemma_lines_of_written(kept);
        lemma_settings_strip_cr(kept);
        if lines_settings(kept).contains_key("api_key"@) {
            lemma_settings_key_from_line(kept, "api_key"@);
            let i = choose|i: int| 0 <= i < kept.len() && (line_setting(#[trigger] kept[i]) matches Some((a, _)) && a == "api_key"@);
            all.lemma_filter_pred(pred, i);
            assert(kept.contains(kept[i]));
            all.lemma_filter_contains_rev(pred, kept[i]);
            let j = choose|j: int| 0 <= j < all.len() && all[j] == kept[i];
            assert(line_setting(all[j]) matches Some((a, _)) && a == "api_key"@);
        }
        assert(config_settings(content) == lines_settings(kept));
    }
}

// ---------------------------------------------------------------------------
// Showing the API key
// ---------------------------------------------------------------------------

/// The API key as it is shown: a key of more than 12 bytes as its first 8
/// bytes, `...` and its last 4 bytes; a shorter key, of which those would
/// show nearly all, as `...` alone.
pub open spec fn spec_mask_key(key: Seq<char>) -> Seq<char> {
    let b = text::utf8_bytes(key);
    if b.len() <= 12 {
        "..."@
    } else {
        vstd::utf8::decode_utf8(b.take(8)) + "..."@ + vstd::utf8::decode_utf8(b.skip(b.len() - 4))
    }
}

/// The key can be masked: it is at most 12 bytes long, or its first 8 bytes
/// and its last 4 bytes end and begin at character boundaries.
pub open spec fn mask_key_defined(key: Seq<char>) -> bool {
    let b = text::utf8_bytes(key);
    b.len() <= 12 || (vstd::utf8::is_char_boundary(b, 8) && vstd::utf8::is_char_boundary(
        b,
        b.len() - 4,
    ))
}

/// The API key typed at the prompt: the answer trimmed, `None` when that
/// leaves nothing.
pub fn entered_api_key(input: &str) -> (r: Option<String>)
    ensures
        opt_string_view(r) == (if text::trim(input@).len() == 0 {
            None
        } else {
            Some(text::trim(input@))
        }),
{
    let t = text::trim_str(input);
    if t.len() == 0 {
        None
    } else {
        Some(text::string_from_chars(&t))
    }
}

/// A masked key never shows the key in full: it always holds `...`, which
/// the key does not.
pub proof fn masked_key_hides_key(key: Seq<char>)
    ensures
        !text::contains_text(key, "..."@) ==> spec_mask_key(key) != key,
{
    reveal_strlit("...");
    let m = spec_mask_key(key);
    let b = text::utf8_bytes(key);
    if b.len() <= 12 {
        assert(m.subrange(0, 3) =~= "..."@);
        assert(text::occurs_at(m, "..."@, 0));
    } else {
        let a = vstd::utf8::decode_utf8(b.take(8));
        assert(m.subrange(a.len() as int, a.len() as int + 3) =~= "..."@);
        assert(text::occurs_at(m, "..."@, a.len() as int));
    }
}

/// The API key as it is shown to the user (see `spec_mask_key`).
pub fn mask_key(key: &str) -> (r: String)
    requires
        mask_key_defined(key@),
    ensures
        r@ == spec_mask_key(key@),
{
    broadcast use vstd::utf8::encode_utf8_decode_utf8;

    let b = key.as_bytes();
    if b.len() <= 12 {
        return String::from_str("...");
    }
    let n = b.len();
    let (head, _) = key.split_at(8);
    let (_, tail) = key.split_at(n - 4);
    let mut out = text::chars_of(head);
    text::append_str(&mut out, "...");
    text::append_str(&mut out, tail);
    proof {
        assert(head@ == vstd::utf8::decode_utf8(vstd::utf8::encode_utf8(head@)));
        assert(tail@ == vstd::utf8::decode_utf8(vstd::utf8::encode_utf8(tail@)));
        assert(vstd::utf8::encode_utf8(head@) =~= b@.take(8));
        assert(vstd::utf8::encode_utf8(tail@) =~= b@.skip(n - 4));
    }
    text::string_from_chars(&out)
}

} // verus!
