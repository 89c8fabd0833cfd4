//! What the user types at the tool's prompts: a subtitle selection such as
//! `1,3,5`, `1-3` or `all`; a single number; a yes/no answer.
use vstd::prelude::*;

use crate::text;

verus! {

/// The value of a parsed number.
pub open spec fn parsed(s: Seq<char>) -> int {
    text::parse_usize(s)->0 as int
}

/// One comma-separated part of a selection selects the zero-based index `i`
/// (of `max` items): a part is trimmed; `a-b` selects the numbers from `a`
/// to `b`, a plain number selects itself; numbers count from 1 and those
/// outside `1..=max` select nothing.
pub open spec fn part_selects(part: Seq<char>, max: nat, i: int) -> bool {
    let p = text::trim(part);
    if p.contains('-') {
        let ps = text::split_on(p, '-');
        &&& ps.len() == 2
        &&& text::parse_usize(ps[0]) is Some
        &&& text::parse_usize(ps[1]) is Some
        &&& parsed(ps[0]) <= i + 1 <= parsed(ps[1])
        &&& 1 <= i + 1 <= max
    } else {
        &&& text::parse_usize(p) is Some
        &&& 1 <= parsed(p) <= max
        &&& i == parsed(p) - 1
    }
}

/// The selection typed by the user means every item: with surrounding
/// whitespace removed it is `all`, in any letter case.
pub open spec fn means_all(input: Seq<char>) -> bool {
    let t = text::trim(input);
    &&& t.len() == 3
    &&& (t[0] == 'a' || t[0] == 'A')
    &&& (t[1] == 'l' || t[1] == 'L')
    &&& (t[2] == 'l' || t[2] == 'L')
}

/// The selection typed by the user selects index `i` (of `max` items): `all`
/// selects every index; anything else selects what one of its
/// comma-separated parts does. Whitespace around the whole input ends up
/// around its first and last parts, which are trimmed.
pub open spec fn selection_selects(input: Seq<char>, max: nat, i: int) -> bool {
    if means_all(input) {
        0 <= i < max
    } else {
        exists|k: int|
            0 <= k < text::split_on(input, ',').len() && part_selects(
                #[trigger] text::split_on(input, ',')[k],
                max,
                i,
            )
    }
}

/// `r` lists the indices that `input` selects, in increasing order, each
/// once.
pub open spec fn lists_selection(r: Seq<usize>, input: Seq<char>, max: nat) -> bool {
    &&& forall|a: int, b: int| 0 <= a < b < r.len() ==> r[a] < r[b]
    &&& forall|x: usize| r.contains(x) <==> selection_selects(input, max, x as int)
}

/// Index `y` lies in the inclusive range `r`.
pub open spec fn in_range(r: (usize, usize), y: int) -> bool {
    r.0 <= y <= r.1
}

/// Index `y` lies in one of the inclusive ranges.
pub open spec fn covered(ranges: Seq<(usize, usize)>, y: int) -> bool {
    exists|k: int| 0 <= k < ranges.len() && #[trigger] in_range(ranges[k], y)
}

/// The indices that one part of a selection selects, as an inclusive range.
pub fn part_range(part: &Vec<char>, max: usize) -> (r: Option<(usize, usize)>)
    ensures
        match r {
            Some((lo, hi)) => lo <= hi < max && forall|y: int|
                part_selects(part@, max as nat, y) <==> lo <= y <= hi,
            None => forall|y: int| !part_selects(part@, max as nat, y),
        },
{
    let p = text::trim_chars(part);
    if text::contains_char(&p, '-') {
        let ps = text::split_chars(&p, '-');
        if ps.len() != 2 {
            return None;
        }
        assert(ps@[0]@ == text::split_on(p@, '-')[0]);
        assert(ps@[1]@ == text::split_on(p@, '-')[1]);
        let a = match text::parse_usize_chars(&ps[0]) {
            Some(a) => a,
            None => return None,
        };
        let b = match text::parse_usize_chars(&ps[1]) {
            Some(b) => b,
            None => return None,
        };
        let first = if a < 1 {
            1
        } else {
            a
        };
        let last = if b < max {
            b
        } else {
            max
        };
        if first > last {
            return None;
        }
        Some((first - 1, last - 1))
    } else {
        match text::parse_usize_chars(&p) {
            Some(n) => {
                if 1 <= n && n <= max {
                    Some((n - 1, n - 1))
                } else {
                    None
                }
            },
            None => None,
        }
    }
}

/// The least covered index that is at least `from`.
pub fn next_covered(ranges: &Vec<(usize, usize)>, from: usize) -> (r: Option<usize>)
    ensures
        match r {
            Some(x) => from <= x && covered(ranges@, x as int) && forall|y: int|
                from <= y < x ==> !covered(ranges@, y),
            None => forall|y: int| from <= y ==> !covered(ranges@, y),
        },
{
    let mut best: Option<usize> = None;
    let mut k: usize = 0;
    while k < ranges.len()
        invariant
            k <= ranges.len(),
            match best {
                Some(x) => from <= x && covered(ranges@, x as int) && forall|y: int, j: int|
                    from <= y < x && 0 <= j < k ==> !#[trigger] in_range(ranges@[j], y),
                None => forall|y: int, j: int|
                    from <= y && 0 <= j < k ==> !#[trigger] in_range(ranges@[j], y),
            },
        decreases ranges.len() - k,
    {
        let (lo, hi) = ranges[k];
        if hi >= from && lo <= hi {
            let cand = if lo > from {
                lo
            } else {
                from
            };
            assert(in_range(ranges@[k as int], cand as int));
            match best {
                Some(x) => {
                    if cand < x {
                        best = Some(cand);
                    }
                },
                None => {
                    best = Some(cand);
                },
            }
        }
        k += 1;
    }
    best
}

/// Decides `means_all`.
fn means_all_exec(input: &Vec<char>) -> (r: bool)
    ensures
        r == means_all(input@),
{
    let t = text::trim_chars(input);
    t.len() == 3 && (t[0] == 'a' || t[0] == 'A') && (t[1] == 'l' || t[1] == 'L') && (t[2] == 'l'
        || t[2] == 'L')
}

/// The indices that the selection `input` selects (of `max` items), in
/// increasing order, each once.
pub fn selection_of_chars(input: &Vec<char>, max: usize) -> (r: Vec<usize>)
    ensures
        lists_selection(r@, input@, max as nat),
{
    let mut ranges: Vec<(usize, usize)> = Vec::new();
    if means_all_exec(input) {
        if max > 0 {
            ranges.push((0, max - 1));
        }
        assert forall|y: int| covered(ranges@, y) <==> selection_selects(input@, max as nat, y) by {
            if max > 0 && 0 <= y < max {
                assert(in_range(ranges@[0], y));
            }
        }
    } else {
        let parts = text::split_chars(input, ',');
        let ghost pieces = text::split_on(input@, ',');
        let mut k: usize = 0;
        while k < parts.len()
            invariant
                k <= parts.len(),
                text::views(parts@) == pieces,
                pieces == text::split_on(input@, ','),
                forall|j: int| 0 <= j < ranges.len() ==> #[trigger] ranges@[j].1 < max,
                forall|y: int|
                    covered(ranges@, y) <==> exists|j: int|
                        0 <= j < k && part_selects(#[trigger] pieces[j], max as nat, y),
            decreases parts.len() - k,
        {
            assert(parts@[k as int]@ == pieces[k as int]);
            let ghost old_ranges = ranges@;
            match part_range(&parts[k], max) {
                Some(rg) => {
                    ranges.push(rg);
                    assert forall|y: int|
                        covered(ranges@, y) <==> exists|j: int|
                            0 <= j < k + 1 && part_selects(#[trigger] pieces[j], max as nat, y) by {
                        if covered(ranges@, y) {
                            let m = choose|m: int|
                                0 <= m < ranges@.len() && #[trigger] in_range(ranges@[m], y);
                            if m < old_ranges.len() {
                                assert(old_ranges[m] == ranges@[m]);
                                assert(covered(old_ranges, y));
                            } else {
                                assert(part_selects(pieces[k as int], max as nat, y));
                            }
                        }
                        if exists|j: int|
                            0 <= j < k + 1 && part_selects(#[trigger] pieces[j], max as nat, y) {
                            let j = choose|j: int|
                                0 <= j < k + 1 && part_selects(#[trigger] pieces[j], max as nat, y);
                            if j < k {
                                assert(covered(old_ranges, y));
                                let m = choose|m: int|
                                    0 <= m < old_ranges.len() && #[trigger] in_range(old_ranges[m], y);
                                assert(ranges@[m] == old_ranges[m]);
                            } else {
                                let last = ranges@.len() - 1;
                                assert(in_range(ranges@[last], y));
                            }
                        }
                    }
                },
                None => {
                    assert forall|y: int|
                        covered(ranges@, y) <==> exists|j: int|
                            0 <= j < k + 1 && part_selects(#[trigger] pieces[j], max as nat, y) by {
                        if exists|j: int|
                            0 <= j < k + 1 && part_selects(#[trigger] pieces[j], max as nat, y) {
                            let j = choose|j: int|
                                0 <= j < k + 1 && part_selects(#[trigger] pieces[j], max as nat, y);
                            assert(j < k);
                        }
                    }
                },
            }
            k += 1;
        }
        assert forall|y: int| covered(ranges@, y) <==> selection_selects(input@, max as nat, y) by {
            if covered(ranges@, y) {
                let j = choose|j: int|
                    0 <= j < parts.len() && part_selects(#[trigger] pieces[j], max as nat, y);
                assert(0 <= j < text::split_on(input@, ',').len() && part_selects(
                    text::split_on(input@, ',')[j],
                    max as nat,
                    y,
                ));
            }
        }
    }
    collect_covered(&ranges, max)
}

/// The covered indices, in increasing order.
fn collect_covered(ranges: &Vec<(usize, usize)>, max: usize) -> (r: Vec<usize>)
    requires
        forall|j: int| 0 <= j < ranges.len() ==> #[trigger] ranges@[j].1 < max,
    ensures
        forall|a: int, b: int| 0 <= a < b < r@.len() ==> r@[a] < r@[b],
        forall|x: usize| r@.contains(x) <==> covered(ranges@, x as int),
{
    let mut r: Vec<usize> = Vec::new();
    let mut from: usize = 0;
    loop
        invariant
            from <= max,
            forall|j: int| 0 <= j < ranges.len() ==> #[trigger] ranges@[j].1 < max,
            forall|a: int, b: int| 0 <= a < b < r@.len() ==> r@[a] < r@[b],
            forall|a: int| 0 <= a < r@.len() ==> r@[a] < from,
            forall|x: usize| x < from ==> (r@.contains(x) <==> covered(ranges@, x as int)),
        decreases max - from,
    {
        match next_covered(ranges, from) {
            Some(x) => {
                let ghost m = choose|m: int|
                    0 <= m < ranges@.len() && #[trigger] in_range(ranges@[m], x as int);
                assert(x < max);
                let ghost old_r = r@;
                r.push(x);
                assert forall|y: usize| y < x + 1 implies (r@.contains(y) <==> covered(
                    ranges@,
                    y as int,
                )) by {
                    if y < from {
                        if old_r.contains(y) {
                            let a = choose|a: int| 0 <= a < old_r.len() && old_r[a] == y;
                            assert(r@[a] == y);
                        }
                        if r@.contains(y) {
                            let a = choose|a: int| 0 <= a < r@.len() && r@[a] == y;
                            if a < old_r.len() {
                                assert(old_r[a] == y);
                            }
                        }
                    } else if y < x {
                        if r@.contains(y) {
                            let a = choose|a: int| 0 <= a < r@.len() && r@[a] == y;
                            if a < old_r.len() {
                                assert(old_r[a] < from);
                            }
                        }
                    } else {
                        assert(r@[r@.len() - 1] == x);
                    }
                }
                from = x + 1;
            },
            None => {
                assert forall|y: usize| r@.contains(y) <==> covered(ranges@, y as int) by {
                    if r@.contains(y) {
                        let a = choose|a: int| 0 <= a < r@.len() && r@[a] == y;
                        assert(r@[a] < from);
                    }
                }
                return r;
            },
        }
    }
}

/// The indices that a selection typed by the user selects (of `max` items),
/// in increasing order and each once: `all` (trimmed, in any letter case)
/// selects every index; otherwise each comma-separated part selects a number
/// (`3`) or a range of numbers (`1-3`), counted from 1.
pub fn parse_selection(input: &str, max: usize) -> (r: Vec<usize>)
    ensures
        lists_selection(r@, input@, max as nat),
{
    let chars = text::chars_of(input);
    selection_of_chars(&chars, max)
}

/// A selection selects only indices of existing items, and `all` selects
/// each of them.
pub proof fn selection_within_bounds(input: Seq<char>, max: nat, i: int)
    ensures
        selection_selects(input, max, i) ==> 0 <= i < max,
        means_all(input) ==> (selection_selects(input, max, i) <==> 0 <= i < max),
{
    if selection_selects(input, max, i) && !means_all(input) {
        let k = choose|k: int|
            0 <= k < text::split_on(input, ',').len() && part_selects(
                #[trigger] text::split_on(input, ',')[k],
                max,
                i,
            );
    }
}

/// Splitting `a`, a separator and `b` gives the pieces of `a`, then those of
/// `b`.
proof fn lemma_split_joined(a: Seq<char>, b: Seq<char>, sep: char)
    ensures
        text::split_on(a + seq![sep] + b, sep) == text::split_on(a, sep) + text::split_on(b, sep),
    decreases b.len(),
{
    let s = a + seq![sep] + b;
    text::lemma_split_on_nonempty(a, sep);
    if b.len() == 0 {
        assert(s =~= a.push(sep));
        assert(s.drop_last() =~= a);
        assert(text::split_on(b, sep) == seq![Seq::<char>::empty()]);
        assert(text::split_on(a, sep).push(Seq::<char>::empty()) =~= text::split_on(a, sep)
            + seq![Seq::<char>::empty()]);
    } else {
        let b0 = b.drop_last();
        lemma_split_joined(a, b0, sep);
        text::lemma_split_on_nonempty(b0, sep);
        assert(s.drop_last() =~= a + seq![sep] + b0);
        assert(s.last() == b.last());
        let x = text::split_on(a, sep);
        let y = text::split_on(b0, sep);
        if b.last() == sep {
            assert((x + y).push(Seq::<char>::empty()) =~= x + y.push(Seq::<char>::empty()));
        } else {
            let init = x + y;
            assert(init.last() == y.last());
            assert(init.update(init.len() - 1, init.last().push(b.last())) =~= x + y.update(
                y.len() - 1,
                y.last().push(b.last()),
            ));
        }
    }
}

/// Joining two selections typed by the user with a comma selects what
/// either of them selects, so the joined selection lists the sorted union of
/// their lists (neither of them meaning `all`; the joined text never does,
/// since it holds a comma).
pub proof fn joined_selection_is_union(
    a: Seq<char>,
    b: Seq<char>,
    max: nat,
    r: Seq<usize>,
    ra: Seq<usize>,
    rb: Seq<usize>,
)
    requires
        !means_all(a),
        !means_all(b),
        lists_selection(r, a + ","@ + b, max),
        lists_selection(ra, a, max),
        lists_selection(rb, b, max),
    ensures
        forall|i: int|
            selection_selects(a + ","@ + b, max, i) <==> (selection_selects(a, max, i)
                || selection_selects(b, max, i)),
        forall|x: usize| r.contains(x) <==> (ra.contains(x) || rb.contains(x)),
{
    reveal_strlit(",");
    let j = a + ","@ + b;
    assert(j =~= a + seq![','] + b);
    assert(!means_all(j)) by {
        assert(j[a.len() as int] == ',');
        let q = text::lemma_trim_keeps(j, a.len() as int);
        assert(text::trim(j)[q] == ',');
    }
    lemma_split_joined(a, b, ',');
    let pa = text::split_on(a, ',');
    let pb = text::split_on(b, ',');
    let pj = text::split_on(j, ',');
    assert(pj == pa + pb);
    assert forall|i: int|
        selection_selects(j, max, i) <==> (selection_selects(a, max, i) || selection_selects(
            b,
            max,
            i,
        )) by {
        if selection_selects(j, max, i) {
            let k = choose|k: int| 0 <= k < pj.len() && part_selects(#[trigger] pj[k], max, i);
            if k < pa.len() {
                assert(pj[k] == pa[k]);
            } else {
                assert(pj[k] == pb[k - pa.len()]);
            }
        }
        if selection_selects(a, max, i) {
            let k = choose|k: int| 0 <= k < pa.len() && part_selects(#[trigger] pa[k], max, i);
            assert(pj[k] == pa[k]);
        }
        if selection_selects(b, max, i) {
            let k = choose|k: int| 0 <= k < pb.len() && part_selects(#[trigger] pb[k], max, i);
            assert(pj[k + pa.len()] == pb[k]);
        }
    }
}

/// Every character of `s` is whitespace.
pub open spec fn all_white(s: Seq<char>) -> bool {
    forall|i: int| 0 <= i < s.len() ==> text::is_white_space(#[trigger] s[i])
}

/// What a number typed at a prompt looks like: `n` in decimal, trimmed to
/// itself when surrounded by whitespace, holding no comma, dash or letter.
proof fn lemma_typed_number(n: usize, before: Seq<char>, after: Seq<char>)
    requires
        all_white(before),
        all_white(after),
    ensures
        ({
            let d = text::decimal(n as nat);
            &&& d.len() > 0
            &&& text::trim(before + d + after) == d
            &&& text::parse_usize(d) == Some(n)
            &&& !d.contains('-')
            &&& !(before + d + after).contains(',')
            &&& text::is_ascii_text(d)
            &&& text::is_digit(d[0])
            &&& text::ascii_lowercase(d)[0] == d[0]
        }),
{
    let d = text::decimal(n as nat);
    text::lemma_decimal_value(n as nat);
    text::lemma_decimal_digits(n as nat);
    text::lemma_parse_decimal(n);
    assert(d[d.len() - 1] == d.last());
    text::lemma_trim_padded(before, d, after);
    let s = before + d + after;
    assert(!s.contains(',')) by {
        if s.contains(',') {
            let i = choose|i: int| 0 <= i < s.len() && s[i] == ',';
            if i < before.len() {
                assert(s[i] == before[i]);
            } else if i < before.len() + d.len() {
                assert(s[i] == d[i - before.len()]);
            } else {
                assert(s[i] == after[i - before.len() - d.len()]);
            }
        }
    }
    assert(!d.contains('-')) by {
        if d.contains('-') {
            let i = choose|i: int| 0 <= i < d.len() && d[i] == '-';
            assert(text::is_digit(d[i]));
        }
    }
}

/// Answering a "pick one of `max`" prompt with a number from 1 to `max`,
/// give or take surrounding whitespace, picks that number.
pub proof fn pick_number_takes_listed_number(
    n: usize,
    max: usize,
    default: usize,
    before: Seq<char>,
    after: Seq<char>,
)
    requires
        1 <= n <= max,
        all_white(before),
        all_white(after),
    ensures
        spec_pick_number(before + text::decimal(n as nat) + after, max, default) == Some(n),
{
    lemma_typed_number(n, before, after);
    reveal_strlit("s");
    let d = text::decimal(n as nat);
    assert(text::lowercase(d) != "s"@) by {
        if text::lowercase(d) == "s"@ {
            assert(text::lowercase(d)[0] == 's');
        }
    }
}

/// A blank answer to a "pick one of `max`" prompt picks the default, and
/// `s` or `S`, give or take surrounding whitespace, skips.
pub proof fn pick_number_blank_or_skip(
    max: usize,
    default: usize,
    before: Seq<char>,
    after: Seq<char>,
)
    requires
        all_white(before),
        all_white(after),
    ensures
        spec_pick_number(before, max, default) == Some(default),
        spec_pick_number(before + "s"@ + after, max, default) is None,
        spec_pick_number(before + "S"@ + after, max, default) is None,
{
    reveal_strlit("s");
    reveal_strlit("S");
    let lo = text::lemma_trim_start_suffix(before);
    assert(lo == before.len());
    assert(text::trim_start(before) =~= Seq::<char>::empty());
    text::lemma_trim_padded(before, "s"@, after);
    text::lemma_trim_padded(before, "S"@, after);
    assert(text::ascii_lowercase("s"@) =~= "s"@);
    assert(text::ascii_lowercase("S"@) =~= "s"@);
}

/// A selection that is a single number `n` from 1 to `max`, give or take
/// surrounding whitespace, selects exactly item `n`: its list is the one
/// index `n - 1`.
pub proof fn single_number_selects_it(
    n: usize,
    max: nat,
    before: Seq<char>,
    after: Seq<char>,
    r: Seq<usize>,
)
    requires
        1 <= n <= max,
        all_white(before),
        all_white(after),
        lists_selection(r, before + text::decimal(n as nat) + after, max),
    ensures
        forall|i: int|
            selection_selects(before + text::decimal(n as nat) + after, max, i) <==> i == n - 1,
        r == seq![(n - 1) as usize],
{
    lemma_typed_number(n, before, after);
    let d = text::decimal(n as nat);
    let input = before + d + after;
    text::lemma_split_no_sep(input, ',');
    assert(!means_all(input));
    assert(text::split_on(input, ',')[0] == input);
    assert forall|i: int| selection_selects(input, max, i) <==> i == n - 1 by {
        if i == n - 1 {
            assert(part_selects(text::split_on(input, ',')[0], max, i));
        }
    }
    let m = (n - 1) as usize;
    assert(r.contains(m));
    assert forall|a: int| 0 <= a < r.len() implies r[a] == m by {
        assert(r.contains(r[a]));
    }
    if r.len() >= 2 {
        assert(r[0] < r[1]);
    }
    assert(r =~= seq![m]);
}

/// A selection `a-b` selects the items from `a` to `b` that exist: index
/// `i` exactly when `a <= i + 1 <= b` and `i < max`.
pub proof fn range_selects_its_items(a: usize, b: usize, max: nat, i: int)
    ensures
        selection_selects(text::decimal(a as nat) + "-"@ + text::decimal(b as nat), max, i) <==> (a
            <= i + 1 <= b && 0 <= i < max),
{
    reveal_strlit("-");
    let e = Seq::<char>::empty();
    lemma_typed_number(a, e, e);
    lemma_typed_number(b, e, e);
    let da = text::decimal(a as nat);
    let db = text::decimal(b as nat);
    assert(e + da + e =~= da);
    assert(e + db + e =~= db);
    let input = da + "-"@ + db;
    assert(input =~= da + seq!['-'] + db);
    assert(!input.contains(',')) by {
        if input.contains(',') {
            let k = choose|k: int| 0 <= k < input.len() && input[k] == ',';
            if k < da.len() {
                assert(input[k] == da[k]);
                assert(!(e + da + e).contains(','));
                assert((e + da + e)[k] == da[k]);
            } else if k > da.len() {
                assert(input[k] == db[k - da.len() - 1]);
                assert((e + db + e)[k - da.len() - 1] == db[k - da.len() - 1]);
            }
        }
    }
    text::lemma_split_no_sep(input, ',');
    assert(text::split_on(input, ',')[0] == input);
    let ws = Seq::<char>::empty();
    assert(input[0] == da[0]);
    assert(input[input.len() - 1] == db[db.len() - 1]);
    assert(text::is_digit(db[db.len() - 1])) by {
        text::lemma_decimal_digits(b as nat);
    }
    text::lemma_trim_padded(ws, input, ws);
    assert(ws + input + ws =~= input);
    assert(text::trim(input) == input);
    assert(!means_all(input));
    assert(input[da.len() as int] == '-');
    assert(input.contains('-'));
    lemma_split_joined(da, db, '-');
    text::lemma_split_no_sep(da, '-');
    text::lemma_split_no_sep(db, '-');
    assert(text::split_on(input, '-') =~= seq![da, db]);
    if a <= i + 1 <= b && 0 <= i < max {
        assert(part_selects(text::split_on(input, ',')[0], max, i));
    }
}

/// A number picked at the prompt is the default or lies in `1..=max`.
pub proof fn pick_number_within_bounds(input: Seq<char>, max: usize, default: usize)
    ensures
        spec_pick_number(input, max, default) matches Some(n) ==> n == default || 1 <= n <= max,
{
}

/// The answer to a "pick one of `max`" prompt: an empty (blank) answer picks
/// `default`; `s` (in any case) skips; a number from 1 to `max` picks that
/// number; anything else picks nothing.
pub open spec fn spec_pick_number(input: Seq<char>, max: usize, default: usize) -> Option<usize> {
    let t = text::trim(input);
    if t.len() == 0 {
        Some(default)
    } else if text::lowercase(t) == "s"@ {
        None
    } else if text::parse_usize(t) is Some && 1 <= text::parse_usize(t)->0 <= max {
        text::parse_usize(t)
    } else {
        None
    }
}

/// Interprets the answer typed at a "pick one of `max`" prompt.
pub fn pick_number(input: &str, max: usize, default: usize) -> (r: Option<usize>)
    ensures
        r == spec_pick_number(input@, max, default),
{
    let t = text::trim_str(input);
    if t.len() == 0 {
        return Some(default);
    }
    let lowered = text::lowercase_chars(&t);
    if text::chars_eq_str(&lowered, "s") {
        return None;
    }
    match text::parse_usize_chars(&t) {
        Some(n) => {
            if n >= 1 && n <= max {
                Some(n)
            } else {
                None
            }
        },
        None => None,
    }
}

/// The answer to a yes/no question is yes: it is `y` or `Y`, give or take
/// surrounding whitespace.
pub open spec fn spec_is_affirmative(answer: Seq<char>) -> bool {
    text::lowercase(text::trim(answer)) == "y"@
}

/// Whether the answer typed at a yes/no question is yes.
pub fn is_affirmative(answer: &str) -> (r: bool)
    ensures
        r == spec_is_affirmative(answer@),
{
    let t = text::trim_str(answer);
    let lowered = text::lowercase_chars(&t);
    text::chars_eq_str(&lowered, "y")
}

} // verus!
