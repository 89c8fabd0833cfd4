//! Matroska files: what the tool shows of their subtitle tracks, the file
//! name an extracted track gets, and the plan for injecting a subtitle.
use vstd::prelude::*;

use crate::lang;
use crate::text;

verus! {

/// A track of a Matroska file, as `mkvmerge --identify` describes it: each
/// property may be missing.
pub struct Track {
    pub id: Option<u64>,
    pub kind: Option<String>,
    pub language: Option<String>,
    pub track_name: Option<String>,
}

/// The language of the first track numbered `id` that records one, or
/// `und` when there is none.
pub open spec fn spec_track_language(tracks: Seq<Track>, id: u64) -> Seq<char>
    decreases tracks.len(),
{
    if tracks.len() == 0 {
        "und"@
    } else if tracks[0].id == Some(id) && tracks[0].language is Some {
        tracks[0].language->0@
    } else {
        spec_track_language(tracks.drop_first(), id)
    }
}

/// The language recorded for track `track_id`, or `und`.
pub fn track_language(tracks: &Vec<Track>, track_id: usize) -> (r: String)
    ensures
        r@ == spec_track_language(tracks@, track_id as u64),
{
    let id = track_id as u64;
    let mut i: usize = 0;
    assert(tracks@.skip(0) =~= tracks@);
    while i < tracks.len()
        invariant
            i <= tracks.len(),
            id == track_id as u64,
            spec_track_language(tracks@.skip(i as int), id) == spec_track_language(tracks@, id),
        decreases tracks.len() - i,
    {
        let t = &tracks[i];
        assert(tracks@.skip(i as int)[0] == tracks@[i as int]);
        assert(tracks@.skip(i as int).drop_first() =~= tracks@.skip(i as int + 1));
        if t.id == Some(id) {
            match &t.language {
                Some(l) => {
                    return l.clone();
                },
                None => {},
            }
        }
        i += 1;
    }
    String::from_str("und")
}

/// What the track listing shows of a subtitle track.
pub struct TrackRow {
    pub id: u64,
    pub language: String,
    pub language_name: String,
    pub name: String,
    /// The track is in the preferred language: both have the same service
    /// name.
    pub is_default: bool,
}

/// A track of subtitles.
pub open spec fn is_subtitle_track(t: Track) -> bool {
    t.kind matches Some(k) && k@ == "subtitles"@
}

/// The language shown for a track: the recorded one, or `und`.
pub open spec fn shown_language(t: Track) -> Seq<char> {
    match t.language {
        Some(l) => l@,
        None => "und"@,
    }
}

/// `row` is what the listing shows for track `t` when the preferred
/// language is `default_lang`.
pub open spec fn row_shows(row: TrackRow, t: Track, default_lang: Seq<char>) -> bool {
    &&& row.id == match t.id {
        Some(i) => i,
        None => 0,
    }
    &&& row.language@ == shown_language(t)
    &&& row.language_name@ == lang::spec_lang_name(shown_language(t))
    &&& row.name@ == match t.track_name {
        Some(n) => n@,
        None => Seq::<char>::empty(),
    }
    &&& row.is_default == (lang::spec_lang_to_api(shown_language(t)) == lang::spec_lang_to_api(
        default_lang,
    ))
}

/// The subtitle tracks among `tracks`, in order.
pub open spec fn subtitle_tracks_of(tracks: Seq<Track>) -> Seq<Track> {
    tracks.filter(|t: Track| is_subtitle_track(t))
}

/// What the listing shows of one track.
fn track_row(t: &Track, default_lang: &str) -> (row: TrackRow)
    ensures
        row_shows(row, *t, default_lang@),
{
    let language = match &t.language {
        Some(l) => l.clone(),
        None => String::from_str("und"),
    };
    let name = match &t.track_name {
        Some(n) => n.clone(),
        None => String::new(),
    };
    let language_name = lang::lang_name(language.as_str());
    let is_default = lang::is_preferred_language(language.as_str(), default_lang);
    let id = match t.id {
        Some(i) => i,
        None => 0,
    };
    TrackRow { id, language, language_name, name, is_default }
}

/// The rows of the subtitle-track listing: one for each subtitle track, in
/// order.
pub fn subtitle_track_rows(tracks: &Vec<Track>, default_lang: &str) -> (rows: Vec<TrackRow>)
    ensures
        rows@.len() == subtitle_tracks_of(tracks@).len(),
        forall|i: int|
            0 <= i < rows@.len() ==> row_shows(
                #[trigger] rows@[i],
                subtitle_tracks_of(tracks@)[i],
                default_lang@,
            ),
{
    let mut rows: Vec<TrackRow> = Vec::new();
    let mut i: usize = 0;
    proof {
        reveal_with_fuel(Seq::<_>::filter, 1);
        assert(tracks@.take(0) =~= Seq::<Track>::empty());
    }
    while i < tracks.len()
        invariant
            i <= tracks.len(),
            rows@.len() == subtitle_tracks_of(tracks@.take(i as int)).len(),
            forall|j: int|
                0 <= j < rows@.len() ==> row_shows(
                    #[trigger] rows@[j],
                    subtitle_tracks_of(tracks@.take(i as int))[j],
                    default_lang@,
                ),
        decreases tracks.len() - i,
    {
        let t = &tracks[i];
        let ghost prefix = tracks@.take(i as int + 1);
        proof {
            reveal_with_fuel(Seq::<_>::filter, 1);
            assert(prefix.drop_last() =~= tracks@.take(i as int));
            assert(prefix.last() == *t);
        }
        let is_sub = match &t.kind {
            Some(k) => text::chars_eq_str(&text::chars_of(k.as_str()), "subtitles"),
            None => false,
        };
        if is_sub {
            let row = track_row(t, default_lang);
            rows.push(row);
        }
        i += 1;
    }
    assert(tracks@.take(tracks.len() as int) =~= tracks@);
    rows
}

// ---------------------------------------------------------------------------
// File names
// ---------------------------------------------------------------------------

/// `s` without the trailing characters that are not `.`.
pub open spec fn trim_end_non_dots(s: Seq<char>) -> Seq<char>
    decreases s.len(),
{
    if s.len() > 0 && s.last() != '.' {
        trim_end_non_dots(s.drop_last())
    } else {
        s
    }
}

/// `s` without its trailing `.` characters.
pub open spec fn trim_end_dots(s: Seq<char>) -> Seq<char>
    decreases s.len(),
{
    if s.len() > 0 && s.last() == '.' {
        trim_end_dots(s.drop_last())
    } else {
        s
    }
}

/// The file name that an extracted track gets when none is given: the video's
/// name without its extension, then `_`, the language's display name, `_`,
/// the track number and `.srt`.
pub open spec fn spec_output_path(video: Seq<char>, lang: Seq<char>, track_id: nat) -> Seq<char> {
    trim_end_dots(trim_end_non_dots(video)) + "_"@ + lang::spec_lang_name(lang) + "_"@
        + text::decimal(track_id) + ".srt"@
}

/// The length of `trim_end_dots(trim_end_non_dots(v))`.
fn stem_len(v: &Vec<char>) -> (n: usize)
    ensures
        n <= v.len(),
        v@.take(n as int) == trim_end_dots(trim_end_non_dots(v@)),
{
    let mut j = v.len();
    assert(v@.take(j as int) =~= v@);
    while j > 0 && v[j - 1] != '.'
        invariant
            j <= v.len(),
            trim_end_non_dots(v@.take(j as int)) == trim_end_non_dots(v@),
        decreases j,
    {
        assert(v@.take(j as int).drop_last() =~= v@.take(j as int - 1));
        j -= 1;
    }
    while j > 0 && v[j - 1] == '.'
        invariant
            j <= v.len(),
            trim_end_dots(v@.take(j as int)) == trim_end_dots(trim_end_non_dots(v@)),
        decreases j,
    {
        assert(v@.take(j as int).drop_last() =~= v@.take(j as int - 1));
        j -= 1;
    }
    j
}

/// The file name that track `track_id` of `video`, in `language`, is
/// extracted to when no name is given.
pub fn default_output_path(video: &str, language: &str, track_id: usize) -> (r: String)
    ensures
        r@ == spec_output_path(video@, language@, track_id as nat),
{
    let v = text::chars_of(video);
    let n = stem_len(&v);
    let mut out = text::copy_range(&v, 0, n);
    text::append_str(&mut out, "_");
    let name = lang::lang_name(language);
    text::append_str(&mut out, name.as_str());
    text::append_str(&mut out, "_");
    text::push_decimal(&mut out, track_id as u64);
    text::append_str(&mut out, ".srt");
    assert(v@.subrange(0, n as int) =~= v@.take(n as int));
    text::string_from_chars(&out)
}

/// `s` without every trailing `.mkv`.
pub open spec fn strip_mkv(s: Seq<char>) -> Seq<char>
    decreases s.len(),
{
    if s.len() >= 4 && text::ends_with(s, ".mkv"@) {
        strip_mkv(s.take(s.len() - 4))
    } else {
        s
    }
}

/// How a subtitle is injected into a video.
pub struct InjectPlan {
    /// The three-letter language code given to the new track.
    pub language: String,
    /// The name given to the new track.
    pub track_name: String,
    /// Where the merged video is written first.
    pub temp_path: String,
    /// Where the original video is kept.
    pub backup_path: String,
}

/// The language code asked for, `ind` when none is.
pub open spec fn requested_language(lang: Option<Seq<char>>) -> Seq<char> {
    match lang {
        Some(l) => l,
        None => "ind"@,
    }
}

/// The view of an optional string slice.
pub open spec fn opt_view(o: Option<&str>) -> Option<Seq<char>> {
    match o {
        Some(s) => Some(s@),
        None => None,
    }
}

/// The length of `strip_mkv(v)`.
fn strip_mkv_len(v: &Vec<char>) -> (n: usize)
    ensures
        n <= v.len(),
        v@.take(n as int) == strip_mkv(v@),
{
    let ext = text::chars_of(".mkv");
    proof {
        reveal_strlit(".mkv");
    }
    let mut j = v.len();
    assert(v@.take(j as int) =~= v@);
    while j >= 4 && text::occurs_at_exec(v, &ext, j - 4)
        invariant
            j <= v.len(),
            ext@ == ".mkv"@,
            ext@.len() == 4,
            strip_mkv(v@.take(j as int)) == strip_mkv(v@),
        decreases j,
    {
        let ghost t = v@.take(j as int);
        assert(t.skip(t.len() - 4) =~= v@.subrange(j - 4, j as int));
        assert(t.take(t.len() - 4) =~= v@.take(j - 4));
        j -= 4;
    }
    let ghost t = v@.take(j as int);
    if j >= 4 {
        assert(t.skip(t.len() - 4) =~= v@.subrange(j - 4, j as int));
    }
    j
}

/// The plan for injecting a subtitle into `video`: the language code is
/// the normalised `lang` (`ind` when none is given), the track name is
/// `name` or else the display name of that code, and the merged and backup
/// files are named after the video without its `.mkv` extension.
pub fn inject_plan(video: &str, lang: Option<&str>, name: Option<&str>) -> (plan: InjectPlan)
    ensures
        plan.language@ == lang::spec_normalize_lang(requested_language(opt_view(lang))),
        plan.track_name@ == match name {
            Some(n) => n@,
            None => lang::spec_lang_name(plan.language@),
        },
        plan.temp_path@ == strip_mkv(video@) + "_tmp_subinject.mkv"@,
        plan.backup_path@ == strip_mkv(video@) + "_backup.mkv"@,
{
    let code = match lang {
        Some(l) => l,
        None => "ind",
    };
    let language = lang::normalize_lang(code);
    let track_name = match name {
        Some(n) => String::from_str(n),
        None => lang::lang_name(language.as_str()),
    };
    let v = text::chars_of(video);
    let n = strip_mkv_len(&v);
    let stem = text::copy_range(&v, 0, n);
    assert(v@.subrange(0, n as int) =~= v@.take(n as int));
    let mut temp = stem.clone();
    text::append_str(&mut temp, "_tmp_subinject.mkv");
    let mut backup = stem;
    text::append_str(&mut backup, "_backup.mkv");
    InjectPlan {
        language,
        track_name,
        temp_path: text::string_from_chars(&temp),
        backup_path: text::string_from_chars(&backup),
    }
}

/// What `Path::file_name` gives for a path: its last component, when
/// there is one that is a name.
pub uninterp spec fn path_file_name(path: Seq<char>) -> Option<Seq<char>>;

/// `Path::new(path).file_name()`, as a string slice. A path given as a
/// `str` has a `str` file name, so the conversion back never fails. The
/// result is `path_file_name` of the path; which component std takes as the
/// name (trailing separators and `.` components are skipped, `..` gives none)
/// is left to the name.
#[verifier::external_body]
fn std_path_file_name(path: &str) -> (r: Option<&str>)
    ensures
        opt_view(r) == path_file_name(path@),
{
    std::path::Path::new(path).file_name().and_then(|n| n.to_str())
}

/// The last component of a path, or the whole path when it has none.
pub fn basename(path: &str) -> (r: &str)
    ensures
        r@ == match path_file_name(path@) {
            Some(n) => n,
            None => path@,
        },
{
    match std_path_file_name(path) {
        Some(n) => n,
        None => path,
    }
}

} // verus!
