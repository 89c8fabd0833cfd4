//! A downloaded subtitle: either a plain subtitle file or a ZIP archive
//! from which the first `.srt` entry is taken.
use vstd::prelude::*;

use crate::text;

verus! {

/// The views of a sequence of strings.
pub open spec fn string_views(v: Seq<String>) -> Seq<Seq<char>> {
    v.map_values(|s: String| s@)
}

/// The names of the entries of the ZIP archive `data`, in the archive's
/// order and leaving out entries that cannot be opened; `None` when `data`
/// is not a ZIP archive the `zip` crate can read.
pub uninterp spec fn zip_entry_names(data: Seq<u8>) -> Option<Seq<Seq<char>>>;

/// The decompressed content of the entry called `name` in the ZIP archive
/// `data`; `None` when the archive cannot be read, has no such entry, or the
/// entry cannot be decompressed.
pub uninterp spec fn zip_entry_content(data: Seq<u8>, name: Seq<char>) -> Option<Seq<u8>>;

/// Opens `data` with `zip::ZipArchive::new` and collects the name of each
/// entry that `ZipArchive::by_index` opens. The result is
/// `zip_entry_names(data)`; what the archive format yields is left to the
/// name.
#[verifier::external_body]
fn read_zip_names(data: &[u8]) -> (r: Option<Vec<String>>)
    ensures
        match r {
            Some(v) => zip_entry_names(data@) == Some(string_views(v@)),
            None => zip_entry_names(data@) is None,
        },
{
    let mut archive = zip::ZipArchive::new(std::io::Cursor::new(data)).ok()?;
    let mut names = Vec::new();
    for i in 0..archive.len() {
        if let Ok(file) = archive.by_index(i) {
            names.push(file.name().to_string());
        }
    }
    Some(names)
}

/// Opens `data` with `zip::ZipArchive::new`, finds the entry `name` with
/// `ZipArchive::by_name` and reads it to the end. The result is
/// `zip_entry_content(data, name)`; what the bytes are is left to the name.
#[verifier::external_body]
fn read_zip_entry(data: &[u8], name: &str) -> (r: Option<Vec<u8>>)
    ensures
        match r {
            Some(v) => zip_entry_content(data@, name@) == Some(v@),
            None => zip_entry_content(data@, name@) is None,
        },
{
    let mut archive = zip::ZipArchive::new(std::io::Cursor::new(data)).ok()?;
    let mut file = archive.by_name(name).ok()?;
    let mut content = Vec::new();
    std::io::Read::read_to_end(&mut file, &mut content).ok()?;
    Some(content)
}

/// `data` begins with the ZIP local file header signature `PK\x03\x04`.
pub open spec fn is_zip_data(data: Seq<u8>) -> bool {
    data.len() >= 4 && data[0] == 0x50 && data[1] == 0x4B && data[2] == 0x03 && data[3] == 0x04
}

/// Whether `data` is a ZIP archive (begins with its signature).
pub fn is_zip(data: &[u8]) -> (r: bool)
    ensures
        r == is_zip_data(data@),
{
    data.len() >= 4 && data[0] == 0x50 && data[1] == 0x4B && data[2] == 0x03 && data[3] == 0x04
}

/// An archive entry that holds a subtitle: its name ends in `.srt` in any
/// letter case, and it is not macOS metadata (`__MACOSX`).
pub open spec fn is_srt_name(name: Seq<char>) -> bool {
    text::ends_with(text::lowercase(name), ".srt"@) && !text::contains_text(name, "__MACOSX"@)
}

/// The first subtitle entry among `names`.
pub open spec fn first_srt(names: Seq<Seq<char>>) -> Option<Seq<char>>
    decreases names.len(),
{
    if names.len() == 0 {
        None
    } else if is_srt_name(names[0]) {
        Some(names[0])
    } else {
        first_srt(names.drop_first())
    }
}

/// Whether an archive entry holds a subtitle (see `is_srt_name`).
pub fn is_srt_entry(name: &str) -> (r: bool)
    ensures
        r == is_srt_name(name@),
{
    let lowered = text::to_lowercase(name);
    let ext = text::chars_of(".srt");
    let chars = text::chars_of(name);
    text::ends_with_chars(&lowered, &ext) && !text::contains_str(&chars, "__MACOSX")
}

/// The first subtitle entry among the archive's entry names.
pub fn choose_srt(names: &Vec<String>) -> (r: Option<String>)
    ensures
        match r {
            Some(n) => first_srt(string_views(names@)) == Some(n@),
            None => first_srt(string_views(names@)) is None,
        },
{
    let ghost all = string_views(names@);
    let mut i: usize = 0;
    assert(all.skip(0) =~= all);
    while i < names.len()
        invariant
            i <= names.len(),
            all == string_views(names@),
            first_srt(all.skip(i as int)) == first_srt(all),
        decreases names.len() - i,
    {
        assert(all.skip(i as int)[0] == names@[i as int]@);
        assert(all.skip(i as int).drop_first() =~= all.skip(i + 1));
        if is_srt_entry(names[i].as_str()) {
            return Some(names[i].clone());
        }
        i += 1;
    }
    None
}

/// A path separator: `/` or `\`.
pub open spec fn is_separator(c: char) -> bool {
    c == '/' || c == '\\'
}

/// The components of a path name: the pieces between its separators.
pub open spec fn components(name: Seq<char>) -> Seq<Seq<char>>
    decreases name.len(),
{
    if name.len() == 0 {
        seq![Seq::<char>::empty()]
    } else {
        let init = components(name.drop_last());
        if is_separator(name.last()) {
            init.push(Seq::<char>::empty())
        } else {
            init.update(init.len() - 1, init.last().push(name.last()))
        }
    }
}

proof fn lemma_components_nonempty(name: Seq<char>)
    ensures
        components(name).len() >= 1,
    decreases name.len(),
{
    if name.len() > 0 {
        lemma_components_nonempty(name.drop_last());
    }
}

/// A component that names an entry of a directory: not empty, not `.` and
/// not `..`.
pub open spec fn is_ordinary_component(c: Seq<char>) -> bool {
    c.len() > 0 && c != "."@ && c != ".."@
}

/// A relative path that stays inside the directory it is joined to: all its
/// components are ordinary (so it is not absolute and never goes up).
pub open spec fn stays_inside(name: Seq<char>) -> bool {
    forall|k: int|
        0 <= k < components(name).len() ==> is_ordinary_component(#[trigger] components(name)[k])
}

/// The file name a download is saved under when it has no usable name of
/// its own: `subtitle_<id>.srt`.
pub open spec fn fallback_name(subtitle_id: u64) -> Seq<char> {
    "subtitle_"@ + text::decimal(subtitle_id as nat) + ".srt"@
}

/// The file name under which an archive entry is saved: the entry's own
/// name when it stays inside the output directory, otherwise the fallback
/// name.
pub open spec fn saved_name(entry: Seq<char>, subtitle_id: u64) -> Seq<char> {
    if stays_inside(entry) {
        entry
    } else {
        fallback_name(subtitle_id)
    }
}

/// The subtitle file in the download of subtitle `subtitle_id`: for a ZIP
/// archive, its first subtitle entry, saved under `saved_name`; for
/// anything else, the data itself under `fallback_name`.
pub open spec fn spec_extract_srt(data: Seq<u8>, subtitle_id: u64) -> Option<(Seq<char>, Seq<u8>)> {
    if is_zip_data(data) {
        match zip_entry_names(data) {
            None => None,
            Some(names) => match first_srt(names) {
                None => None,
                Some(name) => match zip_entry_content(data, name) {
                    None => None,
                    Some(content) => Some((saved_name(name, subtitle_id), content)),
                },
            },
        }
    } else {
        Some((fallback_name(subtitle_id), data))
    }
}

/// A name without separators is a single component.
proof fn lemma_components_no_sep(s: Seq<char>)
    requires
        forall|i: int| 0 <= i < s.len() ==> !is_separator(#[trigger] s[i]),
    ensures
        components(s) == seq![s],
    decreases s.len(),
{
    if s.len() > 0 {
        let init = s.drop_last();
        assert forall|i: int| 0 <= i < init.len() implies !is_separator(#[trigger] init[i]) by {
            assert(init[i] == s[i]);
        }
        lemma_components_no_sep(init);
        assert(!is_separator(s[s.len() - 1]));
        assert(s =~= init.push(s.last()));
        assert(seq![init].update(0, init.push(s.last())) =~= seq![s]);
        assert(components(s) == seq![init].update(0, init.push(s.last())));
    } else {
        assert(s =~= Seq::<char>::empty());
    }
}

proof fn lemma_fallback_stays_inside(subtitle_id: u64)
    ensures
        stays_inside(fallback_name(subtitle_id)),
{
    reveal_strlit("subtitle_");
    reveal_strlit(".srt");
    reveal_strlit(".");
    reveal_strlit("..");
    let d = text::decimal(subtitle_id as nat);
    text::lemma_decimal_digits(subtitle_id as nat);
    let f = fallback_name(subtitle_id);
    assert forall|i: int| 0 <= i < f.len() implies !is_separator(#[trigger] f[i]) by {
        if i < 9 {
            assert(f[i] == "subtitle_"@[i]);
        } else if i < 9 + d.len() {
            assert(f[i] == d[i - 9]);
            assert(text::is_digit(d[i - 9]));
        } else {
            assert(f[i] == ".srt"@[i - 9 - d.len()]);
        }
    }
    lemma_components_no_sep(f);
    assert(f.len() > 2);
    assert(is_ordinary_component(components(f)[0]));
}

/// Wherever the output directory is, a download is saved inside it: the
/// name it gets is a relative path of ordinary components.
pub proof fn extracted_name_stays_inside(data: Seq<u8>, subtitle_id: u64)
    ensures
        spec_extract_srt(data, subtitle_id) matches Some((name, _)) ==> stays_inside(name),
{
    lemma_fallback_stays_inside(subtitle_id);
}

/// Whether a path name stays inside the directory it is joined to.
pub fn stays_inside_exec(v: &Vec<char>) -> (r: bool)
    ensures
        r == stays_inside(v@),
{
    let dot = text::chars_of(".");
    let dotdot = text::chars_of("..");
    let mut ok = true;
    let mut cur: Vec<char> = Vec::new();
    let mut i: usize = 0;
    assert(v@.take(0) =~= Seq::<char>::empty());
    while i < v.len()
        invariant
            i <= v.len(),
            dot@ == "."@,
            dotdot@ == ".."@,
            components(v@.take(i as int)).len() >= 1,
            cur@ == components(v@.take(i as int)).last(),
            ok == forall|k: int|
                0 <= k < components(v@.take(i as int)).len() - 1 ==> is_ordinary_component(
                    #[trigger] components(v@.take(i as int))[k],
                ),
        decreases v.len() - i,
    {
        let c = v[i];
        let ghost t = v@.take(i + 1);
        let ghost prev = components(v@.take(i as int));
        assert(t.drop_last() =~= v@.take(i as int));
        assert(t.last() == c);
        if c == '/' || c == '\\' {
            let ordinary = cur.len() > 0 && !text::chars_eq(&cur, &dot) && !text::chars_eq(
                &cur,
                &dotdot,
            );
            let ghost old_ok = ok;
            ok = ok && ordinary;
            cur = Vec::new();
            let ghost now = components(t);
            assert(now == prev.push(Seq::<char>::empty()));
            assert(ok == forall|k: int|
                0 <= k < now.len() - 1 ==> is_ordinary_component(#[trigger] now[k])) by {
                if ok {
                    assert forall|k: int| 0 <= k < now.len() - 1 implies is_ordinary_component(
                        #[trigger] now[k],
                    ) by {
                        assert(now[k] == prev[k]);
                    }
                } else if old_ok {
                    assert(now[prev.len() - 1] == prev.last());
                } else {
                    let k = choose|k: int|
                        0 <= k < prev.len() - 1 && !is_ordinary_component(#[trigger] prev[k]);
                    assert(now[k] == prev[k]);
                }
            }
        } else {
            cur.push(c);
            let ghost now = components(t);
            assert(now == prev.update(prev.len() - 1, prev.last().push(c)));
            assert forall|k: int| 0 <= k < now.len() - 1 implies now[k] == prev[k] by {}
        }
        i += 1;
    }
    assert(v@.take(v.len() as int) =~= v@);
    let ghost all = components(v@);
    let last_ok = cur.len() > 0 && !text::chars_eq(&cur, &dot) && !text::chars_eq(&cur, &dotdot);
    proof {
        if ok && last_ok {
            assert forall|k: int| 0 <= k < all.len() implies is_ordinary_component(
                #[trigger] all[k],
            ) by {
                if k == all.len() - 1 {
                    assert(all[k] == all.last());
                }
            }
        } else if !last_ok {
            assert(all[all.len() - 1] == all.last());
        } else {
            let k = choose|k: int|
                0 <= k < all.len() - 1 && !is_ordinary_component(#[trigger] all[k]);
        }
    }
    ok && last_ok
}

/// The fallback name of a subtitle.
fn fallback_name_exec(subtitle_id: u64) -> (r: String)
    ensures
        r@ == fallback_name(subtitle_id),
{
    let mut out = text::chars_of("subtitle_");
    text::push_decimal(&mut out, subtitle_id);
    text::append_str(&mut out, ".srt");
    text::string_from_chars(&out)
}

/// The name under which archive entry `entry` is saved (see `saved_name`).
pub fn saved_entry_name(entry: &str, subtitle_id: u64) -> (r: String)
    ensures
        r@ == saved_name(entry@, subtitle_id),
{
    let v = text::chars_of(entry);
    if stays_inside_exec(&v) {
        String::from_str(entry)
    } else {
        fallback_name_exec(subtitle_id)
    }
}

/// The subtitle file in the download of subtitle `subtitle_id`, as a file
/// name and its content (see `spec_extract_srt`).
pub fn extract_srt(data: &[u8], subtitle_id: u64) -> (r: Option<(String, Vec<u8>)>)
    ensures
        match r {
            Some((n, c)) => spec_extract_srt(data@, subtitle_id) == Some((n@, c@)),
            None => spec_extract_srt(data@, subtitle_id) is None,
        },
{
    if is_zip(data) {
        let names = match read_zip_names(data) {
            Some(v) => v,
            None => return None,
        };
        let chosen = match choose_srt(&names) {
            Some(n) => n,
            None => return None,
        };
        match read_zip_entry(data, chosen.as_str()) {
            Some(content) => Some((saved_entry_name(chosen.as_str(), subtitle_id), content)),
            None => None,
        }
    } else {
        let mut content: Vec<u8> = Vec::new();
        let mut i: usize = 0;
        while i < data.len()
            invariant
                i <= data@.len(),
                content@ == data@.take(i as int),
            decreases data.len() - i,
        {
            content.push(data[i]);
            i += 1;
            assert(content@ =~= data@.take(i as int));
        }
        assert(data@.take(data@.len() as int) =~= data@);
        Some((fallback_name_exec(subtitle_id), content))
    }
}

} // verus!
