//! The subtitle service's data, and the decisions the tool takes over it:
//! which subtitles to list first, what to show for each, and the request
//! URLs.
use vstd::prelude::*;

use crate::lang;
use crate::selection;
use crate::text;

verus! {

broadcast use vstd::seq_lib::group_seq_properties;

/// A subtitle offered by the service.
pub struct Subtitle {
    pub subtitle_id: u64,
    pub language: String,
    pub release_info: Vec<String>,
    pub hearing_impaired: bool,
}

/// A movie or show found by a search.
pub struct Movie {
    pub movie_id: u64,
    pub title: String,
    pub release_year: Option<u32>,
    pub media_type: String,
}

/// How strongly a subtitle in language `lang` is preferred (0 first, 2 last)
/// when the preferred language is `default_lang`: 0 when the lowercased
/// language and `default_lang` contain one another, 1 for English, 2 for
/// the rest.
pub open spec fn spec_priority(lang: Seq<char>, default_lang: Seq<char>) -> u8 {
    let l = text::lowercase(lang);
    if text::contains_text(default_lang, l) || text::contains_text(l, default_lang) {
        0
    } else if text::contains_text(l, "english"@) || text::contains_text(l, "eng"@) {
        1
    } else {
        2
    }
}

/// The priority of a subtitle whose language, already lowercased, is
/// `lowered` (see `spec_priority`).
pub fn priority_lowered(lowered: &Vec<char>, default_lang: &Vec<char>) -> (r: u8)
    ensures
        r == (if text::contains_text(default_lang@, lowered@) || text::contains_text(
            lowered@,
            default_lang@,
        ) {
            0u8
        } else if text::contains_text(lowered@, "english"@) || text::contains_text(
            lowered@,
            "eng"@,
        ) {
            1u8
        } else {
            2u8
        }),
{
    if text::contains_chars(default_lang, lowered) || text::contains_chars(lowered, default_lang) {
        0
    } else if text::contains_str(lowered, "english") || text::contains_str(lowered, "eng") {
        1
    } else {
        2
    }
}

/// The priority of a subtitle in language `lang` (see `spec_priority`).
pub fn priority(lang: &str, default_lang: &str) -> (r: u8)
    ensures
        r == spec_priority(lang@, default_lang@),
{
    let l = text::to_lowercase(lang);
    let d = text::chars_of(default_lang);
    priority_lowered(&l, &d)
}

/// The preferred language as `sort_by_priority` compares it: the service
/// name of `default_lang`, lowercased.
pub open spec fn sort_language(default_lang: Seq<char>) -> Seq<char> {
    text::lowercase(lang::spec_lang_to_api(default_lang))
}

/// The subtitles of `subs` whose priority is `p`, in their order.
pub open spec fn with_priority(subs: Seq<Subtitle>, dl: Seq<char>, p: u8) -> Seq<Subtitle> {
    subs.filter(|s: Subtitle| spec_priority(s.language@, dl) == p)
}

/// `subs` stably sorted by priority: first those of priority 0, then 1,
/// then 2, each group in its original order.
pub open spec fn by_priority(subs: Seq<Subtitle>, dl: Seq<char>) -> Seq<Subtitle> {
    with_priority(subs, dl, 0) + with_priority(subs, dl, 1) + with_priority(subs, dl, 2)
}

/// Sorts subtitles so that those in the preferred language come first, then
/// English ones, then the rest, keeping the order within each group.
pub fn sort_by_priority(subs: &mut Vec<Subtitle>, default_lang: &str)
    ensures
        final(subs)@ == by_priority(old(subs)@, sort_language(default_lang@)),
{
    let api = lang::lang_to_api(default_lang);
    let dl_chars = text::to_lowercase(api.as_str());
    let dl = text::string_from_chars(&dl_chars);
    let ghost dls = dl@;
    let ghost orig = subs@;
    let mut rest: Vec<Subtitle> = Vec::new();
    std::mem::swap(&mut rest, subs);
    let mut first: Vec<Subtitle> = Vec::new();
    let mut second: Vec<Subtitle> = Vec::new();
    let mut third: Vec<Subtitle> = Vec::new();
    let ghost mut n: int = 0;
    proof {
        reveal_with_fuel(Seq::<_>::filter, 1);
        assert(orig.take(0) =~= Seq::<Subtitle>::empty());
        assert(rest@ =~= orig.skip(0));
    }
    while rest.len() > 0
        invariant
            0 <= n <= orig.len(),
            rest@ == orig.skip(n),
            dl@ == dls,
            first@ == with_priority(orig.take(n), dls, 0),
            second@ == with_priority(orig.take(n), dls, 1),
            third@ == with_priority(orig.take(n), dls, 2),
        decreases rest.len(),
    {
        let s = rest.remove(0);
        let ghost taken = orig.take(n + 1);
        proof {
            assert(taken.drop_last() =~= orig.take(n));
            assert(taken.last() == s);
            reveal_with_fuel(Seq::<_>::filter, 1);
        }
        let p = priority(s.language.as_str(), dl.as_str());
        if p == 0 {
            first.push(s);
        } else if p == 1 {
            second.push(s);
        } else {
            third.push(s);
        }
        proof {
            n = n + 1;
            assert(rest@ =~= orig.skip(n));
        }
    }
    assert(orig.take(n) =~= orig);
    append_all(&mut first, second);
    append_all(&mut first, third);
    *subs = first;
}

/// Moves all of `src` to the end of `dst`.
fn append_all(dst: &mut Vec<Subtitle>, src: Vec<Subtitle>)
    ensures
        final(dst)@ == old(dst)@ + src@,
{
    let mut src = src;
    let ghost orig = src@;
    let ghost start = dst@;
    let ghost mut n: int = 0;
    assert(orig.take(0) =~= Seq::<Subtitle>::empty());
    while src.len() > 0
        invariant
            0 <= n <= orig.len(),
            src@ == orig.skip(n),
            dst@ == start + orig.take(n),
        decreases src.len(),
    {
        let s = src.remove(0);
        dst.push(s);
        proof {
            assert(orig.take(n + 1) =~= orig.take(n).push(s));
            n = n + 1;
            assert(src@ =~= orig.skip(n));
            assert(dst@ =~= start + orig.take(n));
        }
    }
    assert(orig.take(n) =~= orig);
}

/// Every subtitle in `with_priority(subs, dl, p)` has priority `p`.
proof fn lemma_with_priority_has_priority(subs: Seq<Subtitle>, dl: Seq<char>, p: u8)
    ensures
        forall|k: int|
            0 <= k < with_priority(subs, dl, p).len() ==> spec_priority(
                #[trigger] with_priority(subs, dl, p)[k].language@,
                dl,
            ) == p,
{
    let pred = |s: Subtitle| spec_priority(s.language@, dl) == p;
    assert forall|k: int| 0 <= k < with_priority(subs, dl, p).len() implies spec_priority(
        #[trigger] with_priority(subs, dl, p)[k].language@,
        dl,
    ) == p by {
        subs.lemma_filter_pred(pred, k);
    }
}

/// Sorting by priority loses and duplicates nothing: the sorted subtitles
/// are those of the input, each as often as there.
pub proof fn by_priority_is_permutation(subs: Seq<Subtitle>, dl: Seq<char>)
    ensures
        by_priority(subs, dl).to_multiset() == subs.to_multiset(),
    decreases subs.len(),
{
    broadcast use vstd::seq_lib::group_to_multiset_ensures;
    broadcast use vstd::seq_lib::lemma_multiset_commutative;
    broadcast use vstd::multiset::group_multiset_axioms;

    reveal_with_fuel(Seq::<_>::filter, 1);
    if subs.len() == 0 {
        assert(by_priority(subs, dl) =~= subs);
    } else {
        let init = subs.drop_last();
        let x = subs.last();
        by_priority_is_permutation(init, dl);
        assert(subs =~= init.push(x));
        let a = with_priority(init, dl, 0);
        let b = with_priority(init, dl, 1);
        let c = with_priority(init, dl, 2);
        let p = spec_priority(x.language@, dl);
        assert((a + b + c).to_multiset() =~= a.to_multiset().add(b.to_multiset()).add(
            c.to_multiset(),
        ));
        let r = by_priority(subs, dl);
        if p == 0 {
            assert(r =~= a.push(x) + b + c);
        } else if p == 1 {
            assert(r =~= a + b.push(x) + c);
        } else {
            assert(r =~= a + b + c.push(x));
        }
        assert(r.to_multiset() =~= a.to_multiset().add(b.to_multiset()).add(c.to_multiset()).insert(
            x,
        ));
    }
}

/// After sorting by priority, priorities never decrease along the sequence.
pub proof fn by_priority_is_ordered(subs: Seq<Subtitle>, dl: Seq<char>)
    ensures
        forall|i: int, j: int|
            0 <= i <= j < by_priority(subs, dl).len() ==> spec_priority(
                #[trigger] by_priority(subs, dl)[i].language@,
                dl,
            ) <= spec_priority(#[trigger] by_priority(subs, dl)[j].language@, dl),
{
    lemma_with_priority_has_priority(subs, dl, 0);
    lemma_with_priority_has_priority(subs, dl, 1);
    lemma_with_priority_has_priority(subs, dl, 2);
    let a = with_priority(subs, dl, 0);
    let b = with_priority(subs, dl, 1);
    let c = with_priority(subs, dl, 2);
    let r = by_priority(subs, dl);
    assert forall|i: int| 0 <= i < r.len() implies {
        let q = spec_priority(#[trigger] r[i].language@, dl);
        &&& i < a.len() ==> q == 0
        &&& a.len() <= i < a.len() + b.len() ==> q == 1
        &&& a.len() + b.len() <= i ==> q == 2
    } by {
        if i < a.len() {
            assert(r[i] == a[i]);
        } else if i < a.len() + b.len() {
            assert(r[i] == b[i - a.len()]);
        } else {
            assert(r[i] == c[i - a.len() - b.len()]);
        }
    }
}

/// With any name or code of a known language `l` as the preferred language
/// (`japanese`, `ja` or `JPN` for Japanese), a subtitle in `l`, named as the
/// service names it, has priority 0, so sorting puts it before English
/// subtitles and the rest.
pub proof fn preferred_language_comes_first(l: lang::Language, d: Seq<char>, subs: Seq<Subtitle>)
    requires
        lang::language_of(text::lowercase(d)) == Some(l),
    ensures
        spec_priority(l.spec_api_name(), sort_language(d)) == 0,
        forall|i: int, j: int|
            0 <= i < j < by_priority(subs, sort_language(d)).len() && (#[trigger] by_priority(
                subs,
                sort_language(d),
            )[j]).language@ == l.spec_api_name() ==> spec_priority(
                #[trigger] by_priority(subs, sort_language(d))[i].language@,
                sort_language(d),
            ) == 0,
{
    lang::lemma_names_denote(l);
    let api = l.spec_api_name();
    assert(sort_language(d) == api);
    assert(api.subrange(0, api.len() as int) =~= api);
    assert(text::occurs_at(api, api, 0));
    by_priority_is_ordered(subs, api);
    let r = by_priority(subs, api);
    assert forall|i: int, j: int|
        0 <= i < j < r.len() && (#[trigger] r[j]).language@ == api implies spec_priority(
        #[trigger] r[i].language@,
        api,
    ) == 0 by {
        assert(spec_priority(r[i].language@, api) <= spec_priority(r[j].language@, api));
    }
}

/// The release name shown for a subtitle: its first release name, or
/// nothing.
pub open spec fn spec_release_label(release_info: Seq<String>) -> Seq<char> {
    if release_info.len() > 0 {
        release_info[0]@
    } else {
        Seq::<char>::empty()
    }
}

/// The release name shown for a subtitle.
pub fn release_label(release_info: &Vec<String>) -> (r: String)
    ensures
        r@ == spec_release_label(release_info@),
{
    if release_info.len() > 0 {
        release_info[0].clone()
    } else {
        String::new()
    }
}

impl Movie {
    /// The release year as shown in search results: the year, or `?` when
    /// the service gives none.
    pub fn year_label(&self) -> (r: String)
        ensures
            r@ == match self.release_year {
                Some(y) => text::decimal(y as nat),
                None => "?"@,
            },
    {
        match self.release_year {
            Some(y) => {
                let d = text::decimal_chars(y as u64);
                text::string_from_chars(&d)
            },
            None => String::from_str("?"),
        }
    }
}

// ---------------------------------------------------------------------------
// A search session
// ---------------------------------------------------------------------------

/// Why a search ends without downloading anything.
#[derive(Clone, Copy, Debug, PartialEq, Eq, Structural)]
pub enum StopReason {
    /// A request to the service failed or its answer could not be read.
    RequestFailed,
    /// The search found no movie.
    NoResults,
    /// The user skipped the choice of a movie.
    Skipped,
    /// The chosen movie has no subtitles in the language.
    NoSubtitles,
    /// The user's selection selected no subtitle.
    NoneSelected,
}

/// What the search does next.
#[derive(Debug, PartialEq, Eq)]
pub enum SearchAction {
    /// Stop.
    Stop(StopReason),
    /// Show the movies found and ask which one to take.
    AskMovie,
    /// Fetch the subtitles of the movie with this index among those found.
    FetchSubtitles(usize),
    /// Show the (sorted) subtitles and ask which ones to download.
    AskSubtitles,
    /// Download the subtitles with these indices among the sorted ones, in
    /// this order.
    Download(Vec<usize>),
}

/// The decisions of a subtitle search: which movie to take, how to order
/// its subtitles, and which of them to download. Whoever runs the search
/// performs each action and reports what came of it.
pub struct SearchSession {
    /// Take the first movie and the first subtitle without asking.
    pub non_interactive: bool,
    /// How many movies the search found.
    pub movie_count: usize,
    /// The subtitles of the chosen movie, preferred language first.
    pub subtitles: Vec<Subtitle>,
}

impl SearchSession {
    /// A search that has not fetched anything yet.
    pub fn new(non_interactive: bool) -> (r: SearchSession)
        ensures
            r.non_interactive == non_interactive,
            r.movie_count == 0,
            r.subtitles@.len() == 0,
    {
        SearchSession { non_interactive, movie_count: 0, subtitles: Vec::new() }
    }

    /// The search for movies answered with `count` movies (`None` when the
    /// request failed): stop when there are none, otherwise take the first
    /// one or ask.
    pub fn movies_received(&mut self, count: Option<usize>) -> (a: SearchAction)
        ensures
            final(self).non_interactive == old(self).non_interactive,
            final(self).subtitles == old(self).subtitles,
            match count {
                None => a == SearchAction::Stop(StopReason::RequestFailed) && final(self).movie_count
                    == old(self).movie_count,
                Some(n) => final(self).movie_count == n && a == (if n == 0 {
                    SearchAction::Stop(StopReason::NoResults)
                } else if old(self).non_interactive {
                    SearchAction::FetchSubtitles(0)
                } else {
                    SearchAction::AskMovie
                }),
            },
    {
        match count {
            None => SearchAction::Stop(StopReason::RequestFailed),
            Some(n) => {
                self.movie_count = n;
                if n == 0 {
                    SearchAction::Stop(StopReason::NoResults)
                } else if self.non_interactive {
                    SearchAction::FetchSubtitles(0)
                } else {
                    SearchAction::AskMovie
                }
            },
        }
    }

    /// The user answered the choice of a movie with `input`: fetch the
    /// subtitles of the movie picked (the first one when the answer is
    /// blank), or stop when the answer picks none.
    pub fn movie_answer(&self, input: &str) -> (a: SearchAction)
        requires
            self.movie_count > 0,
        ensures
            a == match selection::spec_pick_number(input@, self.movie_count, 1) {
                Some(n) => SearchAction::FetchSubtitles((n - 1) as usize),
                None => SearchAction::Stop(StopReason::Skipped),
            },
            a matches SearchAction::FetchSubtitles(i) ==> i < self.movie_count,
    {
        match selection::pick_number(input, self.movie_count, 1) {
            Some(n) => SearchAction::FetchSubtitles(n - 1),
            None => SearchAction::Stop(StopReason::Skipped),
        }
    }

    /// The chosen movie's subtitles arrived (`None` when the request
    /// failed): stop when there are none; otherwise keep them sorted by
    /// priority for `language`, then download the first one or ask.
    pub fn subtitles_received(&mut self, subs: Option<Vec<Subtitle>>, language: &str) -> (a:
        SearchAction)
        ensures
            final(self).non_interactive == old(self).non_interactive,
            final(self).movie_count == old(self).movie_count,
            match subs {
                None => a == SearchAction::Stop(StopReason::RequestFailed) && final(self).subtitles
                    == old(self).subtitles,
                Some(v) => if v@.len() == 0 {
                    a == SearchAction::Stop(StopReason::NoSubtitles) && final(self).subtitles
                        == old(self).subtitles
                } else {
                    &&& final(self).subtitles@ == by_priority(v@, sort_language(language@))
                    &&& old(self).non_interactive ==> (a matches SearchAction::Download(ids) && ids@
                        == seq![0usize])
                    &&& !old(self).non_interactive ==> a == SearchAction::AskSubtitles
                },
            },
    {
        match subs {
            None => SearchAction::Stop(StopReason::RequestFailed),
            Some(v) => {
                if v.len() == 0 {
                    return SearchAction::Stop(StopReason::NoSubtitles);
                }
                let mut sorted = v;
                sort_by_priority(&mut sorted, language);
                self.subtitles = sorted;
                if self.non_interactive {
                    let mut ids: Vec<usize> = Vec::new();
                    ids.push(0);
                    SearchAction::Download(ids)
                } else {
                    SearchAction::AskSubtitles
                }
            },
        }
    }

    /// The user answered the choice of subtitles with `input`: download the
    /// subtitles it selects, in increasing order, or stop when it selects
    /// none.
    pub fn selection_answer(&self, input: &str) -> (a: SearchAction)
        ensures
            match a {
                SearchAction::Download(ids) => ids@.len() > 0 && selection::lists_selection(
                    ids@,
                    input@,
                    self.subtitles@.len() as nat,
                ),
                SearchAction::Stop(reason) => reason == StopReason::NoneSelected && forall|i: int|
                    !selection::selection_selects(
                        input@,
                        self.subtitles@.len() as nat,
                        i,
                    ),
                _ => false,
            },
    {
        let ids = selection::parse_selection(input, self.subtitles.len());
        if ids.len() == 0 {
            proof {
                assert forall|i: int|
                    !selection::selection_selects(
                        input@,
                        self.subtitles@.len() as nat,
                        i,
                    ) by {
                    selection::selection_within_bounds(
                        input@,
                        self.subtitles@.len() as nat,
                        i,
                    );
                    if selection::selection_selects(
                        input@,
                        self.subtitles@.len() as nat,
                        i,
                    ) {
                        assert(!ids@.contains(i as usize));
                    }
                }
            }
            SearchAction::Stop(StopReason::NoneSelected)
        } else {
            SearchAction::Download(ids)
        }
    }
}

// ---------------------------------------------------------------------------
// Request URLs
// ---------------------------------------------------------------------------

/// The service's API root.
pub open spec fn api_base() -> Seq<char> {
    "https://api.subsource.net/api/v1"@
}

/// A byte that a URL carries as it is: an ASCII letter or digit, or one of
/// `-`, `_`, `.`, `~`.
pub open spec fn is_unreserved(b: u8) -> bool {
    ||| 48 <= b <= 57
    ||| 65 <= b <= 90
    ||| 97 <= b <= 122
    ||| b == 45
    ||| b == 95
    ||| b == 46
    ||| b == 126
}

/// The uppercase hexadecimal digit for `n < 16`.
pub open spec fn hex_digit(n: nat) -> char {
    if n < 10 {
        (48 + n) as char
    } else {
        (55 + n) as char
    }
}

/// How a byte is written in a URL: as itself when unreserved, otherwise as
/// `%` and two uppercase hexadecimal digits.
pub open spec fn encode_byte(b: u8) -> Seq<char> {
    if is_unreserved(b) {
        seq![b as char]
    } else {
        seq!['%', hex_digit((b / 16) as nat), hex_digit((b % 16) as nat)]
    }
}

/// The percent-encoding of a byte string, byte by byte.
pub open spec fn percent_encode(bytes: Seq<u8>) -> Seq<char>
    decreases bytes.len(),
{
    if bytes.len() == 0 {
        Seq::<char>::empty()
    } else {
        percent_encode(bytes.drop_last()) + encode_byte(bytes.last())
    }
}

/// Text made only of unreserved bytes is carried as it is.
pub proof fn percent_encode_keeps_unreserved(bytes: Seq<u8>)
    requires
        forall|i: int| 0 <= i < bytes.len() ==> is_unreserved(#[trigger] bytes[i]),
    ensures
        percent_encode(bytes) == bytes.map_values(|b: u8| b as char),
    decreases bytes.len(),
{
    if bytes.len() > 0 {
        let init = bytes.drop_last();
        assert forall|i: int| 0 <= i < init.len() implies is_unreserved(#[trigger] init[i]) by {
            assert(init[i] == bytes[i]);
        }
        percent_encode_keeps_unreserved(init);
        assert(is_unreserved(bytes[bytes.len() - 1]));
        assert(bytes.map_values(|b: u8| b as char) =~= init.map_values(|b: u8| b as char) + seq![
            bytes.last() as char,
        ]);
    } else {
        assert(bytes.map_values(|b: u8| b as char) =~= Seq::<char>::empty());
    }
}

/// The encoding holds only unreserved characters, `%`, and the uppercase
/// hexadecimal digits that follow each `%`.
pub proof fn percent_encode_is_url_safe(bytes: Seq<u8>)
    ensures
        forall|i: int|
            0 <= i < percent_encode(bytes).len() ==> {
                let c = #[trigger] percent_encode(bytes)[i];
                ||| is_unreserved(c as u8) && (c as u32) < 128
                ||| c == '%'
            },
    decreases bytes.len(),
{
    if bytes.len() > 0 {
        percent_encode_is_url_safe(bytes.drop_last());
        let a = percent_encode(bytes.drop_last());
        let e = encode_byte(bytes.last());
        assert forall|i: int| 0 <= i < percent_encode(bytes).len() implies {
            let c = #[trigger] percent_encode(bytes)[i];
            ||| is_unreserved(c as u8) && (c as u32) < 128
            ||| c == '%'
        } by {
            if i < a.len() {
                assert(percent_encode(bytes)[i] == a[i]);
            } else {
                assert(percent_encode(bytes)[i] == e[i - a.len()]);
                let b = bytes.last();
                if !is_unreserved(b) && i - a.len() > 0 {
                    let n = if i - a.len() == 1 { (b / 16) as nat } else { (b % 16) as nat };
                    assert(n < 16);
                    assert(hex_digit(n) == e[i - a.len()]);
                }
            }
        }
    }
}

/// A percent-encoded text holds only ASCII letters and digits, `-`, `_`,
/// `.`, `~` and `%`: never `#`, `&`, `+`, `?`, `=` or a space, which would
/// change what the URL around it means.
pub proof fn percent_encode_is_plain(bytes: Seq<u8>)
    ensures
        forall|i: int|
            0 <= i < percent_encode(bytes).len() ==> {
                let u = (#[trigger] percent_encode(bytes)[i]) as u32;
                ||| 48 <= u <= 57
                ||| 65 <= u <= 90
                ||| 97 <= u <= 122
                ||| u == 45 || u == 95 || u == 46 || u == 126 || u == 37
            },
    decreases bytes.len(),
{
    if bytes.len() > 0 {
        percent_encode_is_plain(bytes.drop_last());
        let a = percent_encode(bytes.drop_last());
        let b = bytes.last();
        let e = encode_byte(b);
        assert forall|i: int| 0 <= i < percent_encode(bytes).len() implies {
            let u = (#[trigger] percent_encode(bytes)[i]) as u32;
            ||| 48 <= u <= 57
            ||| 65 <= u <= 90
            ||| 97 <= u <= 122
            ||| u == 45 || u == 95 || u == 46 || u == 126 || u == 37
        } by {
            if i < a.len() {
                assert(percent_encode(bytes)[i] == a[i]);
            } else {
                assert(percent_encode(bytes)[i] == e[i - a.len()]);
                if !is_unreserved(b) && i - a.len() > 0 {
                    let n = if i - a.len() == 1 { (b / 16) as nat } else { (b % 16) as nat };
                    assert(n < 16);
                    assert(hex_digit(n) == e[i - a.len()]);
                }
            }
        }
    }
}

/// A single byte is carried as it is exactly when it is an ASCII letter or
/// digit or one of `-`, `_`, `.`, `~`; any other byte is written as `%` and
/// its two uppercase hexadecimal digits.
pub proof fn percent_encode_single_byte(b: u8)
    ensures
        (48 <= b <= 57 || 65 <= b <= 90 || 97 <= b <= 122 || b == 45 || b == 95 || b == 46 || b
            == 126) ==> percent_encode(seq![b]) == seq![b as char],
        !(48 <= b <= 57 || 65 <= b <= 90 || 97 <= b <= 122 || b == 45 || b == 95 || b == 46 || b
            == 126) ==> {
            let e = percent_encode(seq![b]);
            &&& e.len() == 3
            &&& e[0] == '%'
            &&& is_hex_upper(e[1]) && hex_value(e[1]) == b / 16
            &&& is_hex_upper(e[2]) && hex_value(e[2]) == b % 16
        },
{
    let s = seq![b];
    assert(s.drop_last() =~= Seq::<u8>::empty());
    assert(s.last() == b);
    assert(percent_encode(s.drop_last()) == Seq::<char>::empty());
    assert(percent_encode(s) =~= encode_byte(b));
    if !is_unreserved(b) {
        let e = encode_byte(b);
        assert(e[1] == hex_digit((b / 16) as nat));
        assert(e[2] == hex_digit((b % 16) as nat));
    }
}

/// An uppercase hexadecimal digit.
pub open spec fn is_hex_upper(c: char) -> bool {
    (48 <= (c as u32) <= 57) || (65 <= (c as u32) <= 70)
}

/// The value of an uppercase hexadecimal digit.
pub open spec fn hex_value(c: char) -> nat {
    if (c as u32) <= 57 {
        ((c as u32) - 48) as nat
    } else {
        ((c as u32) - 55) as nat
    }
}

/// Percent-decoding, read from the end: `%XY` gives the byte `0xXY`, any
/// other character its own code.
pub open spec fn percent_decode(s: Seq<char>) -> Seq<u8>
    decreases s.len(),
{
    if s.len() == 0 {
        Seq::<u8>::empty()
    } else if s.len() >= 3 && s[s.len() - 3] == '%' {
        percent_decode(s.take(s.len() - 3)).push(
            (hex_value(s[s.len() - 2]) * 16 + hex_value(s[s.len() - 1])) as u8,
        )
    } else {
        percent_decode(s.drop_last()).push(s.last() as u8)
    }
}

/// In an encoding, every `%` is followed by two uppercase hexadecimal
/// digits.
pub proof fn percent_encode_escapes_are_complete(bytes: Seq<u8>)
    ensures
        forall|p: int|
            0 <= p < percent_encode(bytes).len() && #[trigger] percent_encode(bytes)[p] == '%'
                ==> p + 3 <= percent_encode(bytes).len() && is_hex_upper(percent_encode(bytes)[p + 1])
                && is_hex_upper(percent_encode(bytes)[p + 2]),
    decreases bytes.len(),
{
    if bytes.len() > 0 {
        let init = bytes.drop_last();
        percent_encode_escapes_are_complete(init);
        let a = percent_encode(init);
        let e = encode_byte(bytes.last());
        let s = percent_encode(bytes);
        assert(s == a + e);
        assert forall|p: int| 0 <= p < s.len() && #[trigger] s[p] == '%' implies p + 3 <= s.len()
            && is_hex_upper(s[p + 1]) && is_hex_upper(s[p + 2]) by {
            if p < a.len() {
                assert(a[p] == '%');
                assert(s[p + 1] == a[p + 1]);
                assert(s[p + 2] == a[p + 2]);
            } else {
                let b = bytes.last();
                assert(e[p - a.len()] == '%');
                if is_unreserved(b) {
                    assert(e[0] == b as char);
                } else {
                    assert(p == a.len());
                }
            }
        }
    }
}

/// Decoding an encoding gives the bytes back, so different texts never
/// encode alike.
pub proof fn percent_decode_inverts_encode(bytes: Seq<u8>)
    ensures
        percent_decode(percent_encode(bytes)) == bytes,
    decreases bytes.len(),
{
    if bytes.len() > 0 {
        let init = bytes.drop_last();
        let b = bytes.last();
        percent_decode_inverts_encode(init);
        percent_encode_escapes_are_complete(init);
        let a = percent_encode(init);
        let e = encode_byte(b);
        let s = percent_encode(bytes);
        assert(s == a + e);
        if is_unreserved(b) {
            assert(s.drop_last() =~= a);
            if s.len() >= 3 {
                let q = s.len() - 3;
                assert(s[q] == a[q]);
                if a[q] == '%' {
                    assert(q + 3 <= a.len());
                }
            }
            assert((b as char) as u8 == b);
        } else {
            assert(s.take(s.len() - 3) =~= a);
            let hi = (b / 16) as nat;
            let lo = (b % 16) as nat;
            assert(s[s.len() - 2] == hex_digit(hi));
            assert(s[s.len() - 1] == hex_digit(lo));
            assert(hex_value(hex_digit(hi)) == hi);
            assert(hex_value(hex_digit(lo)) == lo);
            assert(hi * 16 + lo == b);
        }
        assert(bytes =~= init.push(b));
    }
}

/// Different byte strings have different encodings.
pub proof fn percent_encode_is_injective(x: Seq<u8>, y: Seq<u8>)
    ensures
        percent_encode(x) == percent_encode(y) ==> x == y,
{
    percent_decode_inverts_encode(x);
    percent_decode_inverts_encode(y);
}

fn hex_char(n: u8) -> (c: char)
    requires
        n < 16,
    ensures
        c == hex_digit(n as nat),
{
    if n < 10 {
        (48 + n) as char
    } else {
        (55 + n) as char
    }
}

/// Appends the percent-encoding of `s` (of its UTF-8 bytes).
fn push_percent_encoded(out: &mut Vec<char>, s: &str)
    ensures
        final(out)@ == old(out)@ + percent_encode(text::utf8_bytes(s@)),
{
    let bytes = s.as_bytes();
    let ghost start = out@;
    let mut i: usize = 0;
    assert(bytes@.take(0) =~= Seq::<u8>::empty());
    assert(start + percent_encode(Seq::<u8>::empty()) =~= start);
    while i < bytes.len()
        invariant
            i <= bytes@.len(),
            bytes@ == text::utf8_bytes(s@),
            out@ == start + percent_encode(bytes@.take(i as int)),
        decreases bytes.len() - i,
    {
        let b = bytes[i];
        assert(bytes@.take(i + 1).drop_last() =~= bytes@.take(i as int));
        let ghost before = out@;
        if (48 <= b && b <= 57) || (65 <= b && b <= 90) || (97 <= b && b <= 122) || b == 45 || b
            == 95 || b == 46 || b == 126 {
            out.push(b as char);
        } else {
            out.push('%');
            out.push(hex_char(b / 16));
            out.push(hex_char(b % 16));
        }
        assert(out@ =~= before + encode_byte(b));
        i += 1;
    }
    assert(bytes@.take(bytes@.len() as int) =~= bytes@);
}

/// The percent-encoding of `s`: each ASCII letter, digit, `-`, `_`, `.` and
/// `~` stays as it is, every other character becomes `%XX` for each byte of
/// its UTF-8 form (a space becomes `%20`).
pub fn urlencoding(s: &str) -> (r: String)
    ensures
        r@ == percent_encode(text::utf8_bytes(s@)),
{
    let mut out: Vec<char> = Vec::new();
    push_percent_encoded(&mut out, s);
    text::string_from_chars(&out)
}

/// The URL that searches the service for `query`, restricted to `year` when
/// there is one.
pub fn search_movies_url(query: &str, year: Option<u32>) -> (r: String)
    ensures
        r@ == api_base() + "/movies/search?searchType=text&q="@ + percent_encode(text::utf8_bytes(query@))
            + match year {
            Some(y) => "&year="@ + text::decimal(y as nat),
            None => Seq::<char>::empty(),
        },
{
    let mut out: Vec<char> = Vec::new();
    text::append_str(&mut out, "https://api.subsource.net/api/v1");
    text::append_str(&mut out, "/movies/search?searchType=text&q=");
    push_percent_encoded(&mut out, query);
    match year {
        Some(y) => {
            text::append_str(&mut out, "&year=");
            text::push_decimal(&mut out, y as u64);
        },
        None => {},
    }
    proof {
        let base = api_base() + "/movies/search?searchType=text&q="@ + percent_encode(text::utf8_bytes(query@));
        match year {
            Some(y) => {
                assert(out@ =~= base + ("&year="@ + text::decimal(y as nat)));
            },
            None => {
                assert(out@ =~= base + Seq::<char>::empty());
            },
        }
    }
    text::string_from_chars(&out)
}

/// The URL that lists the subtitles of a movie in a language.
pub fn subtitles_url(movie_id: u64, language: &str) -> (r: String)
    ensures
        r@ == api_base() + "/subtitles?movieId="@ + text::decimal(movie_id as nat) + "&language="@
            + language@,
{
    let mut out: Vec<char> = Vec::new();
    text::append_str(&mut out, "https://api.subsource.net/api/v1");
    text::append_str(&mut out, "/subtitles?movieId=");
    text::push_decimal(&mut out, movie_id);
    text::append_str(&mut out, "&language=");
    text::append_str(&mut out, language);
    text::string_from_chars(&out)
}

/// The URL that downloads a subtitle.
pub fn download_url(subtitle_id: u64) -> (r: String)
    ensures
        r@ == api_base() + "/subtitles/"@ + text::decimal(subtitle_id as nat) + "/download"@,
{
    let mut out: Vec<char> = Vec::new();
    text::append_str(&mut out, "https://api.subsource.net/api/v1");
    text::append_str(&mut out, "/subtitles/");
    text::push_decimal(&mut out, subtitle_id);
    text::append_str(&mut out, "/download");
    text::string_from_chars(&out)
}

} // verus!
