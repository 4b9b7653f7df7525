//! Extract and replace markdown sections of a daily note: a named section,
//! the `##` sections, or the whole note as the journal.
use vstd::prelude::*;
use crate::patterns::{
    checkbox_captures, checkbox_match, heading_captures, heading_match, is_tasks_heading,
    lowercase, lowercase_chars, tasks_heading_matches,
};
use crate::text::{
    all_single, chars_blank, chars_eq, chars_lines, chars_start_with, chars_string, extend_chars,
    is_blank, join_lines, join_range, lead_count, lemma_lead_count_at, lemma_trail_count_at, lines,
    single_line,
    starts_with, str_chars, sub_chars_all, trail_count, trim, trim_chars, trim_start,
    trim_start_chars, views,
};

verus! {

/// A fenced-code delimiter line: after leading whitespace it starts with
/// three backticks or three tildes.
pub open spec fn is_fence(line: Seq<char>) -> bool {
    let t = trim_start(line);
    starts_with(t, seq!['`', '`', '`']) || starts_with(t, seq!['~', '~', '~'])
}

pub fn is_fence_tick(line: &Vec<char>) -> (b: bool)
    ensures
        b == is_fence(line@),
{
    let t = trim_start_chars(line);
    let ticks = vec!['`', '`', '`'];
    let tildes = vec!['~', '~', '~'];
    assert(ticks@ =~= seq!['`', '`', '`']);
    assert(tildes@ =~= seq!['~', '~', '~']);
    chars_start_with(&t, &ticks) || chars_start_with(&t, &tildes)
}

/// Level of a heading line (meaningful when `heading_match` is `Some`).
pub open spec fn heading_level(line: Seq<char>) -> nat {
    match heading_match(line) {
        Some((l, _)) => l,
        None => 0,
    }
}

/// Captured title of a heading line (meaningful when `heading_match` is
/// `Some`).
pub open spec fn heading_title(line: Seq<char>) -> Seq<char> {
    match heading_match(line) {
        Some((_, t)) => t,
        None => Seq::<char>::empty(),
    }
}

/// Number of fence lines among `ls[a..b]`.
pub open spec fn fence_count(ls: Seq<Seq<char>>, a: int, b: int) -> nat
    decreases b - a,
{
    if b <= a {
        0
    } else {
        fence_count(ls, a, b - 1) + if is_fence(ls[b - 1]) {
            1nat
        } else {
            0nat
        }
    }
}

/// Line `j` ends a section whose body starts at `start` and whose heading
/// has level `level`: it is a heading of that level or higher, outside any
/// fenced block opened in the body.
pub open spec fn closes_at(ls: Seq<Seq<char>>, start: int, j: int, level: nat) -> bool {
    &&& !is_fence(ls[j])
    &&& fence_count(ls, start, j) % 2 == 0
    &&& heading_match(ls[j]) is Some
    &&& heading_level(ls[j]) <= level
}

/// First `j >= from` that closes the section, else the number of lines.
pub open spec fn section_end_from(ls: Seq<Seq<char>>, start: int, from: int, level: nat) -> int
    decreases ls.len() - from,
{
    if from >= ls.len() {
        ls.len() as int
    } else if closes_at(ls, start, from, level) {
        from
    } else {
        section_end_from(ls, start, from + 1, level)
    }
}

/// Exclusive end of the section body starting at line `start`.
pub open spec fn section_end(ls: Seq<Seq<char>>, start: int, level: nat) -> int {
    section_end_from(ls, start, start, level)
}

/// Exclusive end of the body of the section whose heading (of level
/// `level`) is at line `start - 1`.
pub fn section_end_exec(ls: &Vec<Vec<char>>, start: usize, level: usize) -> (e: usize)
    requires
        start <= ls.len(),
        all_single(views(ls@)),
    ensures
        e == section_end(views(ls@), start as int, level as nat),
        start <= e <= ls.len(),
{
    let ghost v = views(ls@);
    let mut j = start;
    let mut in_fence = false;
    while j < ls.len()
        invariant
            v == views(ls@),
            all_single(v),
            start <= j <= ls.len(),
            in_fence == (fence_count(v, start as int, j as int) % 2 == 1),
            section_end_from(v, start as int, j as int, level as nat) == section_end(
                v,
                start as int,
                level as nat,
            ),
        decreases ls.len() - j,
    {
        assert(v[j as int] == ls@[j as int]@);
        assert(single_line_at(v, j as int));
        if is_fence_tick(&ls[j]) {
            in_fence = !in_fence;
        } else if !in_fence {
            match heading_captures(&ls[j]) {
                Some((l, _)) => {
                    if l <= level {
                        return j;
                    }
                },
                None => {},
            }
        }
        j = j + 1;
    }
    j
}

pub open spec fn single_line_at(v: Seq<Seq<char>>, j: int) -> bool {
    crate::text::single_line(v[j])
}

/// The line is a heading whose trimmed, lowered title is `want`.
pub open spec fn heading_is(line: Seq<char>, want: Seq<char>) -> bool {
    heading_match(line) is Some && lowercase(trim(heading_title(line))) == want
}

/// Index of the first heading at or after `from` whose title is `want`.
pub open spec fn first_heading_from(ls: Seq<Seq<char>>, want: Seq<char>, from: int) -> Option<
    int,
>
    decreases ls.len() - from,
{
    if from < 0 || from >= ls.len() {
        None
    } else if heading_is(ls[from], want) {
        Some(from)
    } else {
        first_heading_from(ls, want, from + 1)
    }
}

/// The section titled `heading` (compared trimmed and lower-cased): the
/// heading's index, the body start and the exclusive body end. The body runs
/// to the next heading of the same or a higher level outside fenced code.
/// `None` when the heading is blank or no heading has that title.
pub open spec fn section_range(ls: Seq<Seq<char>>, heading: Seq<char>) -> Option<(int, int, int)> {
    let want = lowercase(trim(heading));
    if trim(heading).len() == 0 {
        None
    } else {
        match first_heading_from(ls, want, 0) {
            None => None,
            Some(i) => Some((i, i + 1, section_end(ls, i + 1, heading_level(ls[i])))),
        }
    }
}

pub proof fn lemma_first_heading_from(ls: Seq<Seq<char>>, want: Seq<char>, from: int)
    requires
        0 <= from,
    ensures
        match first_heading_from(ls, want, from) {
            Some(i) => from <= i < ls.len() && heading_is(ls[i], want) && forall|k: int|
                from <= k < i ==> !heading_is(#[trigger] ls[k], want),
            None => forall|k: int| from <= k < ls.len() ==> !heading_is(#[trigger] ls[k], want),
        },
    decreases ls.len() - from,
{
    if from < ls.len() && !heading_is(ls[from], want) {
        lemma_first_heading_from(ls, want, from + 1);
    }
}

/// Where the section titled `heading` lies in `ls`.
pub fn find_section_range(ls: &Vec<Vec<char>>, heading: &Vec<char>) -> (r: Option<
    (usize, usize, usize),
>)
    requires
        all_single(views(ls@)),
    ensures
        match r {
            Some((h, s, e)) => section_range(views(ls@), heading@) == Some(
                (h as int, s as int, e as int),
            ),
            None => section_range(views(ls@), heading@) is None,
        },
{
    let ghost v = views(ls@);
    let trimmed = trim_chars(heading);
    let want = lowercase_chars(&trimmed);
    if want.len() == 0 {
        return None;
    }
    assert(trim(heading@).len() > 0);
    let mut i: usize = 0;
    while i < ls.len()
        invariant
            v == views(ls@),
            all_single(v),
            want@ == lowercase(trim(heading@)),
            want@.len() > 0,
            trim(heading@).len() > 0,
            i <= ls.len(),
            first_heading_from(v, want@, i as int) == first_heading_from(v, want@, 0),
        decreases ls.len() - i,
    {
        assert(v[i as int] == ls@[i as int]@);
        assert(single_line_at(v, i as int));
        match heading_captures(&ls[i]) {
            Some((level, title)) => {
                let key = lowercase_chars(&trim_chars(&title));
                if chars_eq(&key, &want) {
                    assert(heading_is(v[i as int], want@));
                    assert(first_heading_from(v, want@, i as int) == Some(i as int));
                    assert(heading_level(v[i as int]) == level as nat);
                    let e = section_end_exec(ls, i + 1, level);
                    assert(want@.len() > 0);
                    assert(section_range(v, heading@) == Some((i as int, i + 1, e as int)));
                    return Some((i, i + 1, e));
                }
            },
            None => {},
        }
        i = i + 1;
    }
    None
}

/// The predicate "this line is blank".
pub open spec fn blank_pred() -> spec_fn(Seq<char>) -> bool {
    |l: Seq<char>| is_blank(l)
}

/// `ls` without its leading and trailing blank lines.
pub open spec fn trim_blank_lines(ls: Seq<Seq<char>>) -> Seq<Seq<char>> {
    let a = lead_count(ls, blank_pred());
    let rest = ls.skip(a);
    rest.take(rest.len() - trail_count(rest, blank_pred()))
}

/// A section body without blank lines at either end.
pub open spec fn trim_section_body(body: Seq<char>) -> Seq<char> {
    join_lines(trim_blank_lines(lines(body)))
}

/// The lines `ls[a..b]` without blank lines at either end, joined.
pub fn trim_blank_range(ls: &Vec<Vec<char>>, a: usize, b: usize) -> (r: Vec<char>)
    requires
        a <= b <= ls.len(),
    ensures
        r@ == join_lines(trim_blank_lines(views(ls@).subrange(a as int, b as int))),
{
    let ghost sub = views(ls@).subrange(a as int, b as int);
    let mut i = a;
    while i < b && chars_blank(&ls[i])
        invariant
            a <= i <= b <= ls.len(),
            sub == views(ls@).subrange(a as int, b as int),
            forall|k: int| 0 <= k < i - a ==> blank_pred()(#[trigger] sub[k]),
        decreases b - i,
    {
        assert(sub[i - a] == ls@[i as int]@);
        assert(is_blank(ls@[i as int]@));
        assert(blank_pred()(sub[i - a]) == is_blank(sub[i - a]));
        i = i + 1;
    }
    proof {
        if i < b {
            assert(sub[i - a] == ls@[i as int]@);
        }
        lemma_lead_count_at(sub, blank_pred(), i - a);
    }
    let ghost rest = sub.skip(i - a);
    let mut j = b;
    while j > i && chars_blank(&ls[j - 1])
        invariant
            a <= i <= j <= b <= ls.len(),
            sub == views(ls@).subrange(a as int, b as int),
            rest == sub.skip(i - a),
            forall|k: int| j - i <= k < rest.len() ==> blank_pred()(#[trigger] rest[k]),
        decreases j,
    {
        assert(rest[j - 1 - i] == ls@[j - 1]@);
        assert(blank_pred()(rest[j - 1 - i]));
        j = j - 1;
    }
    proof {
        if j > i {
            assert(rest[j - 1 - i] == ls@[j - 1]@);
        }
        lemma_trail_count_at(rest, blank_pred(), j - i);
        assert(rest.take(rest.len() - trail_count(rest, blank_pred())) =~= views(ls@).subrange(
            i as int,
            j as int,
        ));
    }
    join_range(ls, i, j)
}

/// `body` without blank lines at either end.
pub fn trim_section_chars(body: &Vec<char>) -> (r: Vec<char>)
    ensures
        r@ == trim_section_body(body@),
{
    let ls = chars_lines(body);
    let r = trim_blank_range(&ls, 0, ls.len());
    assert(views(ls@).subrange(0, ls.len() as int) =~= views(ls@));
    r
}

/// A line that stays in the whole-note journal: a fence line, a line inside
/// fenced code, or a line that is neither a checkbox todo nor a
/// `Tasks`/`Todos` heading.
pub open spec fn journal_keeps(ls: Seq<Seq<char>>, i: int) -> bool {
    ||| is_fence(ls[i])
    ||| fence_count(ls, 0, i) % 2 == 1
    ||| !(checkbox_match(ls[i]) is Some || is_tasks_heading(ls[i]))
}

/// The lines among the first `n` that the whole-note journal keeps.
pub open spec fn journal_lines(ls: Seq<Seq<char>>, n: int) -> Seq<Seq<char>>
    decreases n,
{
    if n <= 0 {
        Seq::<Seq<char>>::empty()
    } else if journal_keeps(ls, n - 1) {
        journal_lines(ls, n - 1).push(ls[n - 1])
    } else {
        journal_lines(ls, n - 1)
    }
}

/// Runs of three or more newlines shortened to two: what replacing
/// `"\n\n\n"` by `"\n\n"` until none is left gives.
pub open spec fn collapse_newlines(s: Seq<char>) -> Seq<char>
    decreases s.len(),
{
    if s.len() == 0 {
        s
    } else {
        let c = collapse_newlines(s.drop_last());
        if s.last() == '\n' && c.len() >= 2 && c[c.len() - 1] == '\n' && c[c.len() - 2] == '\n' {
            c
        } else {
            c.push(s.last())
        }
    }
}

/// The whole note as a journal: checkbox todos and `Tasks`/`Todos` headings
/// outside fenced code are left out, blank-line runs are shortened, and
/// blank lines at either end are dropped.
pub open spec fn whole_note_journal(content: Seq<char>) -> Seq<char> {
    let ls = lines(content);
    trim_section_body(collapse_newlines(join_lines(journal_lines(ls, ls.len() as int))))
}

fn collapse_newline_runs(s: &Vec<char>) -> (r: Vec<char>)
    ensures
        r@ == collapse_newlines(s@),
{
    let mut r: Vec<char> = Vec::new();
    let mut i: usize = 0;
    while i < s.len()
        invariant
            i <= s.len(),
            r@ == collapse_newlines(s@.take(i as int)),
        decreases s.len() - i,
    {
        let c = s[i];
        proof {
            assert(s@.take(i + 1).drop_last() =~= s@.take(i as int));
        }
        let n = r.len();
        if !(c == '\n' && n >= 2 && r[n - 1] == '\n' && r[n - 2] == '\n') {
            r.push(c);
        }
        i = i + 1;
    }
    assert(s@.take(s.len() as int) =~= s@);
    r
}

/// The whole note as journal: checkbox lines and a Tasks heading dropped
/// (outside fenced code), runs of blank lines collapsed, blank lines
/// trimmed at the ends.
fn extract_whole_note_journal(content: &Vec<char>) -> (r: Vec<char>)
    ensures
        r@ == whole_note_journal(content@),
{
    let ls = chars_lines(content);
    let ghost v = views(ls@);
    let mut kept: Vec<Vec<char>> = Vec::new();
    let mut in_fence = false;
    let mut i: usize = 0;
    while i < ls.len()
        invariant
            v == views(ls@),
            all_single(v),
            i <= ls.len(),
            in_fence == (fence_count(v, 0, i as int) % 2 == 1),
            views(kept@) == journal_lines(v, i as int),
        decreases ls.len() - i,
    {
        assert(v[i as int] == ls@[i as int]@);
        assert(single_line_at(v, i as int));
        let ghost before = kept@;
        if is_fence_tick(&ls[i]) {
            in_fence = !in_fence;
            kept.push(sub_chars_all(&ls[i]));
            assert(views(kept@) =~= views(before).push(v[i as int]));
        } else if !in_fence && (checkbox_captures(&ls[i]).is_some() || tasks_heading_matches(
            &ls[i],
        )) {
        } else {
            kept.push(sub_chars_all(&ls[i]));
            assert(views(kept@) =~= views(before).push(v[i as int]));
        }
        i = i + 1;
    }
    let joined = crate::text::join_all(&kept);
    let collapsed = collapse_newline_runs(&joined);
    trim_section_chars(&collapsed)
}

/// Body under a named heading, or the whole note as a journal.
pub open spec fn section_text(content: Seq<char>, heading: Seq<char>) -> Seq<char> {
    if trim(heading).len() == 0 {
        whole_note_journal(content)
    } else {
        let ls = lines(content);
        match section_range(ls, heading) {
            None => Seq::<char>::empty(),
            Some((_, s, e)) => trim_section_body(join_lines(ls.subrange(s, e))),
        }
    }
}

/// Body under a markdown heading (trimmed). Empty heading = the whole note
/// minus checkbox todos (those are the todo list). Empty string when a named
/// heading is missing.
pub fn extract_section(content: &str, heading: &str) -> (r: String)
    ensures
        r@ == section_text(content@, heading@),
{
    let c = str_chars(content);
    let h = str_chars(heading);
    let r = extract_section_chars(&c, &h);
    chars_string(&r)
}

pub fn extract_section_chars(c: &Vec<char>, h: &Vec<char>) -> (r: Vec<char>)
    ensures
        r@ == section_text(c@, h@),
{
    let th = trim_chars(h);
    if th.len() == 0 {
        return extract_whole_note_journal(c);
    }
    let ls = chars_lines(c);
    match find_section_range(&ls, h) {
        None => Vec::new(),
        Some((_, s, e)) => {
            proof {
                lemma_section_range_bounds(views(ls@), h@);
            }
            let body = join_range(&ls, s, e);
            trim_section_chars(&body)
        },
    }
}

pub proof fn lemma_section_end_bounds(ls: Seq<Seq<char>>, start: int, from: int, level: nat)
    requires
        0 <= start <= from <= ls.len(),
    ensures
        from <= section_end_from(ls, start, from, level) <= ls.len(),
    decreases ls.len() - from,
{
    if from < ls.len() && !closes_at(ls, start, from, level) {
        lemma_section_end_bounds(ls, start, from + 1, level);
    }
}

pub proof fn lemma_section_range_bounds(ls: Seq<Seq<char>>, heading: Seq<char>)
    ensures
        section_range(ls, heading) matches Some((h, s, e)) ==> 0 <= h && h + 1 == s && s <= e
            <= ls.len(),
{
    let want = lowercase(trim(heading));
    lemma_first_heading_from(ls, want, 0);
    if let Some(i) = first_heading_from(ls, want, 0) {
        lemma_section_end_bounds(ls, i + 1, i + 1, heading_level(ls[i]));
    }
}

/// The journal has a line that is neither blank nor a heading.
pub open spec fn has_body_line(notes: Seq<char>) -> bool {
    exists|i: int|
        0 <= i < lines(notes).len() && !is_blank(#[trigger] lines(notes)[i]) && heading_match(
            lines(notes)[i],
        ) is None
}

/// True when the journal body has at least one non-empty, non-heading line.
/// Heading-only cartouches (`## Notes` with no prose) do not count.
pub fn has_journal_body(notes: &str) -> (b: bool)
    ensures
        b == has_body_line(notes@),
{
    let ls = crate::text::str_lines(notes);
    let ghost v = views(ls@);
    let mut i: usize = 0;
    while i < ls.len()
        invariant
            v == views(ls@),
            v == lines(notes@),
            all_single(v),
            i <= ls.len(),
            forall|k: int|
                0 <= k < i ==> is_blank(#[trigger] v[k]) || heading_match(v[k]) is Some,
        decreases ls.len() - i,
    {
        assert(v[i as int] == ls@[i as int]@);
        assert(single_line_at(v, i as int));
        let t = trim_chars(&ls[i]);
        proof {
            crate::text::lemma_trim_empty_iff_blank(v[i as int]);
        }
        if t.len() != 0 && heading_captures(&ls[i]).is_none() {
            assert(!is_blank(v[i as int]) && heading_match(v[i as int]) is None);
            return true;
        }
        i = i + 1;
    }
    false
}

/// Line `i` is a `##` heading outside fenced code.
pub open spec fn is_h2_start(ls: Seq<Seq<char>>, i: int) -> bool {
    &&& !is_fence(ls[i])
    &&& fence_count(ls, 0, i) % 2 == 0
    &&& heading_match(ls[i]) is Some
    &&& heading_level(ls[i]) == 2
}

/// Indices of the `##` headings among the first `n` lines, in order.
pub open spec fn h2_starts(ls: Seq<Seq<char>>, n: int) -> Seq<int>
    decreases n,
{
    if n <= 0 {
        Seq::<int>::empty()
    } else if is_h2_start(ls, n - 1) {
        h2_starts(ls, n - 1).push(n - 1)
    } else {
        h2_starts(ls, n - 1)
    }
}

/// Indices of every `##` heading.
pub open spec fn h2_indices(ls: Seq<Seq<char>>) -> Seq<int> {
    h2_starts(ls, ls.len() as int)
}

pub proof fn lemma_h2_starts(ls: Seq<Seq<char>>, n: int)
    requires
        0 <= n <= ls.len(),
    ensures
        forall|k: int|
            0 <= k < h2_starts(ls, n).len() ==> 0 <= #[trigger] h2_starts(ls, n)[k] < n
                && is_h2_start(ls, h2_starts(ls, n)[k]),
        forall|a: int, b: int|
            0 <= a < b < h2_starts(ls, n).len() ==> h2_starts(ls, n)[a] < h2_starts(ls, n)[b],
    decreases n,
{
    if n > 0 {
        lemma_h2_starts(ls, n - 1);
        let p = h2_starts(ls, n - 1);
        let q = h2_starts(ls, n);
        if is_h2_start(ls, n - 1) {
            assert(q == p.push(n - 1));
            assert forall|k: int| 0 <= k < q.len() implies 0 <= #[trigger] q[k] < n && is_h2_start(
                ls,
                q[k],
            ) by {
                if k < p.len() {
                    assert(q[k] == p[k]);
                }
            }
            assert forall|a: int, b: int| 0 <= a < b < q.len() implies q[a] < q[b] by {
                assert(q[a] == p[a]);
                if b < p.len() {
                    assert(q[b] == p[b]);
                }
            }
        }
    }
}

/// 0-based indices of `##` headings, skipping fenced code.
pub fn h2_heading_indices(ls: &Vec<Vec<char>>) -> (r: Vec<usize>)
    requires
        all_single(views(ls@)),
    ensures
        r@.map_values(|i: usize| i as int) == h2_indices(views(ls@)),
{
    let ghost v = views(ls@);
    let mut r: Vec<usize> = Vec::new();
    let mut in_fence = false;
    let mut i: usize = 0;
    while i < ls.len()
        invariant
            v == views(ls@),
            all_single(v),
            i <= ls.len(),
            in_fence == (fence_count(v, 0, i as int) % 2 == 1),
            r@.map_values(|i: usize| i as int) == h2_starts(v, i as int),
        decreases ls.len() - i,
    {
        assert(v[i as int] == ls@[i as int]@);
        assert(single_line_at(v, i as int));
        let ghost before = r@;
        if is_fence_tick(&ls[i]) {
            in_fence = !in_fence;
        } else if !in_fence {
            match heading_captures(&ls[i]) {
                Some((level, _)) => {
                    if level == 2 {
                        r.push(i);
                        assert(r@.map_values(|i: usize| i as int) =~= before.map_values(
                            |i: usize| i as int,
                        ).push(i as int));
                    }
                },
                None => {},
            }
        }
        i = i + 1;
    }
    r
}

/// End of the `##` section whose heading is at `idx`.
pub fn section_end_after_h2(ls: &Vec<Vec<char>>, idx: usize) -> (e: usize)
    requires
        idx < ls.len(),
        all_single(views(ls@)),
    ensures
        e == section_end(views(ls@), idx + 1, 2),
        idx + 1 <= e <= ls.len(),
{
    section_end_exec(ls, idx + 1, 2)
}

/// One `##` section: its trimmed title and its trimmed body.
pub open spec fn h2_section(ls: Seq<Seq<char>>, idx: int) -> (Seq<char>, Seq<char>) {
    let end = section_end(ls, idx + 1, 2);
    (
        trim(heading_title(ls[idx])),
        if idx + 1 < end {
            trim_section_body(join_lines(ls.subrange(idx + 1, end)))
        } else {
            Seq::<char>::empty()
        },
    )
}

/// Every `##` section as `(title, body)`, in file order.
pub open spec fn h2_sections(content: Seq<char>) -> Seq<(Seq<char>, Seq<char>)> {
    let ls = lines(content);
    h2_indices(ls).map_values(|idx: int| h2_section(ls, idx))
}

pub open spec fn pair_views(v: Seq<(String, String)>) -> Seq<(Seq<char>, Seq<char>)> {
    v.map_values(|p: (String, String)| (p.0@, p.1@))
}

/// Every `##` section as `(heading, body)` pairs. The heading line is not
/// included in the body; `###` subsections stay inside their parent.
pub fn extract_h2_sections(content: &str) -> (r: Vec<(String, String)>)
    ensures
        pair_views(r@) == h2_sections(content@),
{
    let ls = crate::text::str_lines(content);
    let ghost v = views(ls@);
    let starts = h2_heading_indices(&ls);
    let ghost idxs = h2_indices(v);
    proof {
        lemma_h2_starts(v, v.len() as int);
        assert forall|k: int| 0 <= k < starts.len() implies #[trigger] starts@[k] as int == idxs[k] by {
            assert(starts@.map_values(|i: usize| i as int)[k] == starts@[k] as int);
        }
    }
    let mut out: Vec<(String, String)> = Vec::new();
    let mut k: usize = 0;
    while k < starts.len()
        invariant
            v == views(ls@),
            v == lines(content@),
            all_single(v),
            idxs == h2_indices(v),
            starts.len() == idxs.len(),
            forall|j: int| 0 <= j < starts.len() ==> #[trigger] starts@[j] as int == idxs[j],
            forall|j: int|
                0 <= j < idxs.len() ==> 0 <= #[trigger] idxs[j] < v.len() && is_h2_start(
                    v,
                    idxs[j],
                ),
            k <= starts.len(),
            pair_views(out@) == idxs.take(k as int).map_values(|idx: int| h2_section(v, idx)),
        decreases starts.len() - k,
    {
        let idx = starts[k];
        assert(idxs[k as int] < v.len());
        assert(v[idx as int] == ls@[idx as int]@);
        assert(single_line_at(v, idx as int));
        let title = match heading_captures(&ls[idx]) {
            Some((_, t)) => trim_chars(&t),
            None => Vec::new(),
        };
        proof {
            if heading_match(v[idx as int]) is None {
                assert(is_h2_start(v, idx as int));
            }
        }
        let end = section_end_after_h2(&ls, idx);
        let body = if idx + 1 < end {
            let joined = join_range(&ls, idx + 1, end);
            trim_section_chars(&joined)
        } else {
            Vec::new()
        };
        let ghost before = out@;
        out.push((chars_string(&title), chars_string(&body)));
        proof {
            assert(title@ == h2_section(v, idx as int).0);
            assert(body@ =~= h2_section(v, idx as int).1);
            assert(idxs.take(k + 1) =~= idxs.take(k as int).push(idx as int));
            assert(pair_views(out@) =~= pair_views(before).push(h2_section(v, idx as int)));
        }
        k = k + 1;
    }
    assert(idxs.take(starts.len() as int) =~= idxs);
    out
}

/// Titles of `##` headings, in file order, capped at `limit`.
pub fn h2_titles(content: &str, limit: usize) -> (r: Vec<String>)
    ensures
        r.len() == if limit < h2_sections(content@).len() {
            limit as int
        } else {
            h2_sections(content@).len() as int
        },
        forall|i: int| 0 <= i < r.len() ==> #[trigger] r@[i]@ == h2_sections(content@)[i].0,
{
    let secs = extract_h2_sections(content);
    let mut r: Vec<String> = Vec::new();
    let mut i: usize = 0;
    while i < secs.len() && i < limit
        invariant
            pair_views(secs@) == h2_sections(content@),
            i <= secs.len(),
            i <= limit,
            r.len() == i,
            forall|j: int| 0 <= j < i ==> #[trigger] r@[j]@ == h2_sections(content@)[j].0,
        decreases secs.len() - i,
    {
        assert(pair_views(secs@)[i as int].0 == secs@[i as int].0@);
        r.push(secs[i].0.clone());
        i = i + 1;
    }
    r
}

/// Span `(start, end)` of the first `n` `##` sections, heading lines
/// included; `None` when `n` is zero or there is no `##` heading.
pub open spec fn h2_span(ls: Seq<Seq<char>>, n: int) -> Option<(int, int)> {
    let st = h2_indices(ls);
    if n <= 0 || st.len() == 0 {
        None
    } else {
        let k = if n < st.len() {
            n
        } else {
            st.len() as int
        };
        Some((st[0], section_end(ls, st[k - 1] + 1, 2)))
    }
}

/// Inclusive start / exclusive end of the first `n` `##` sections
/// (heading lines included). `None` when the note has no `##`.
pub fn first_h2_span(ls: &Vec<Vec<char>>, n: usize) -> (r: Option<(usize, usize)>)
    requires
        all_single(views(ls@)),
    ensures
        match r {
            Some((a, b)) => h2_span(views(ls@), n as int) == Some((a as int, b as int)) && a <= b
                <= ls.len(),
            None => h2_span(views(ls@), n as int) is None,
        },
{
    if n == 0 {
        return None;
    }
    let ghost v = views(ls@);
    let starts = h2_heading_indices(ls);
    if starts.len() == 0 {
        assert(h2_indices(v).len() == 0);
        return None;
    }
    proof {
        lemma_h2_starts(v, v.len() as int);
    }
    let start = starts[0];
    let k = if n < starts.len() {
        n
    } else {
        starts.len()
    };
    let last = starts[k - 1];
    proof {
        let idxs = h2_indices(v);
        assert(starts@.map_values(|i: usize| i as int)[0] == start as int);
        assert(starts@.map_values(|i: usize| i as int)[k - 1] == last as int);
        assert(idxs[0] <= idxs[k - 1]) by {
            if k - 1 > 0 {
                assert(idxs[0] < idxs[k - 1]);
            }
        }
        assert(idxs[k - 1] < v.len());
    }
    let end = section_end_after_h2(ls, last);
    Some((start, end))
}

/// First `n` `##` sections as text; empty when `n` is zero or there is none.
pub open spec fn first_h2_text(content: Seq<char>, n: int) -> Seq<char> {
    let ls = lines(content);
    if n == 0 {
        Seq::<char>::empty()
    } else {
        match h2_span(ls, n) {
            None => Seq::<char>::empty(),
            Some((a, b)) => trim_section_body(join_lines(ls.subrange(a, b))),
        }
    }
}

/// First `n` `##` sections, including the heading lines themselves.
/// Empty when the note has no `##`.
pub fn extract_first_h2_sections(content: &str, n: usize) -> (r: String)
    ensures
        r@ == first_h2_text(content@, n as int),
{
    if n == 0 {
        return String::new();
    }
    let ls = crate::text::str_lines(content);
    match first_h2_span(&ls, n) {
        None => String::new(),
        Some((a, b)) => {
            let joined = join_range(&ls, a, b);
            let t = trim_section_chars(&joined);
            chars_string(&t)
        },
    }
}

/// `s` with a final `'\n'` added when it does not end with one.
pub open spec fn ensure_nl(s: Seq<char>) -> Seq<char> {
    if s.len() > 0 && s.last() == '\n' {
        s
    } else {
        s.push('\n')
    }
}

pub fn ensure_trailing_newline(s: &mut Vec<char>)
    ensures
        final(s)@ == ensure_nl(old(s)@),
{
    if !(s.len() > 0 && s[s.len() - 1] == '\n') {
        s.push('\n');
    }
}

/// Append copies of `ls[a..b]` to `out`.
pub fn push_lines(out: &mut Vec<Vec<char>>, ls: &Vec<Vec<char>>, a: usize, b: usize)
    requires
        a <= b <= ls.len(),
    ensures
        views(final(out)@) == views(old(out)@) + views(ls@).subrange(a as int, b as int),
{
    let mut k = a;
    while k < b
        invariant
            a <= k <= b <= ls.len(),
            views(out@) == views(old(out)@) + views(ls@).subrange(a as int, k as int),
        decreases b - k,
    {
        let ghost before = out@;
        out.push(sub_chars_all(&ls[k]));
        assert(views(out@) =~= views(before).push(ls@[k as int]@));
        assert(views(ls@).subrange(a as int, k + 1) =~= views(ls@).subrange(a as int, k as int).push(
            ls@[k as int]@,
        ));
        k = k + 1;
    }
}

/// The note after the first `n` `##` sections are replaced by `new_body`
/// (trailing whitespace dropped). Without any `##`, the body is put first,
/// followed by a blank line unless the body ends in one.
pub open spec fn replaced_first_h2(content: Seq<char>, n: int, new_body: Seq<char>) -> Seq<char> {
    let body = crate::text::trim_end(new_body);
    let ls = lines(content);
    let body_lines = if body.len() > 0 {
        lines(body)
    } else {
        Seq::<Seq<char>>::empty()
    };
    let out = match h2_span(ls, n) {
        Some((a, b)) => ls.take(a) + body_lines + ls.skip(b),
        None => body_lines + (if ls.len() > 0 && (body_lines.len() == 0 || body_lines.last().len()
            > 0) {
            seq![Seq::<char>::empty()]
        } else {
            Seq::<Seq<char>>::empty()
        }) + ls,
    };
    ensure_nl(join_lines(out))
}

/// Replace the span covering the first `n` `##` sections. The rest of the
/// note (Tasks, reviews, …) is left untouched. When the note has no `##`,
/// the new body is prepended.
pub fn replace_first_h2_sections(content: &str, n: usize, new_body: &str) -> (r: String)
    ensures
        r@ == replaced_first_h2(content@, n as int, new_body@),
{
    let nb = str_chars(new_body);
    let body = crate::text::trim_end_chars(&nb);
    let ls = crate::text::str_lines(content);
    let body_lines: Vec<Vec<char>> = if body.len() > 0 {
        chars_lines(&body)
    } else {
        Vec::new()
    };
    let mut out: Vec<Vec<char>> = Vec::new();
    match first_h2_span(&ls, n) {
        Some((a, b)) => {
            push_lines(&mut out, &ls, 0, a);
            push_lines(&mut out, &body_lines, 0, body_lines.len());
            push_lines(&mut out, &ls, b, ls.len());
            proof {
                assert(views(ls@).subrange(0, a as int) =~= views(ls@).take(a as int));
                assert(views(ls@).subrange(b as int, ls.len() as int) =~= views(ls@).skip(b as int));
                assert(views(body_lines@).subrange(0, body_lines.len() as int) =~= views(
                    body_lines@,
                ));
            }
        },
        None => {
            push_lines(&mut out, &body_lines, 0, body_lines.len());
            let nb_lines = body_lines.len();
            if ls.len() > 0 && (nb_lines == 0 || body_lines[nb_lines - 1].len() > 0) {
                out.push(Vec::new());
            }
            push_lines(&mut out, &ls, 0, ls.len());
            proof {
                assert(views(ls@).subrange(0, ls.len() as int) =~= views(ls@));
                assert(views(body_lines@).subrange(0, body_lines.len() as int) =~= views(
                    body_lines@,
                ));
                if nb_lines > 0 {
                    assert(views(body_lines@).last() == body_lines@[nb_lines - 1]@);
                }
            }
        },
    }
    let mut next = crate::text::join_all(&out);
    proof {
        let body_v = if body@.len() > 0 {
            lines(body@)
        } else {
            Seq::<Seq<char>>::empty()
        };
        assert(views(body_lines@) =~= body_v);
        let ls_v = views(ls@);
        match h2_span(ls_v, n as int) {
            Some((a, b)) => {
                assert(views(out@) =~= ls_v.take(a) + body_v + ls_v.skip(b));
            },
            None => {
                let mid = if ls_v.len() > 0 && (body_v.len() == 0 || body_v.last().len() > 0) {
                    seq![Seq::<char>::empty()]
                } else {
                    Seq::<Seq<char>>::empty()
                };
                assert(views(out@) =~= body_v + mid + ls_v);
            },
        }
    }
    ensure_trailing_newline(&mut next);
    chars_string(&next)
}

/// Line `i` is a checkbox todo outside fenced code (fence lines excluded).
pub open spec fn is_todo_line(ls: Seq<Seq<char>>, i: int) -> bool {
    !is_fence(ls[i]) && fence_count(ls, 0, i) % 2 == 0 && checkbox_match(ls[i]) is Some
}

/// The checkbox lines among the first `n` lines, in order.
pub open spec fn todo_lines(ls: Seq<Seq<char>>, n: int) -> Seq<Seq<char>>
    decreases n,
{
    if n <= 0 {
        Seq::<Seq<char>>::empty()
    } else if is_todo_line(ls, n - 1) {
        todo_lines(ls, n - 1).push(ls[n - 1])
    } else {
        todo_lines(ls, n - 1)
    }
}

/// The note rewritten as `new_body`'s journal, keeping the note's checkbox
/// todos first, then a blank line, then the journal.
pub open spec fn merged_journal(content: Seq<char>, new_body: Seq<char>) -> Seq<char> {
    let ls = lines(content);
    let todos = todo_lines(ls, ls.len() as int);
    let body = whole_note_journal(new_body);
    let head = if todos.len() > 0 {
        join_lines(todos) + seq!['\n'] + if body.len() > 0 {
            seq!['\n']
        } else {
            Seq::<char>::empty()
        }
    } else {
        Seq::<char>::empty()
    };
    if body.len() > 0 {
        head + body + seq!['\n']
    } else {
        head
    }
}

fn merge_journal_preserving_checkboxes(content: &Vec<char>, new_body: &Vec<char>) -> (r: Vec<
    char,
>)
    ensures
        r@ == merged_journal(content@, new_body@),
{
    let ls = chars_lines(content);
    let ghost v = views(ls@);
    let mut todos: Vec<Vec<char>> = Vec::new();
    let mut in_fence = false;
    let mut i: usize = 0;
    while i < ls.len()
        invariant
            v == views(ls@),
            all_single(v),
            i <= ls.len(),
            in_fence == (fence_count(v, 0, i as int) % 2 == 1),
            views(todos@) == todo_lines(v, i as int),
        decreases ls.len() - i,
    {
        assert(v[i as int] == ls@[i as int]@);
        assert(single_line_at(v, i as int));
        let ghost before = todos@;
        if is_fence_tick(&ls[i]) {
            in_fence = !in_fence;
        } else if !in_fence && checkbox_captures(&ls[i]).is_some() {
            todos.push(sub_chars_all(&ls[i]));
            assert(views(todos@) =~= views(before).push(v[i as int]));
        }
        i = i + 1;
    }
    let body = extract_whole_note_journal(new_body);
    let mut next: Vec<char> = Vec::new();
    if todos.len() > 0 {
        next = crate::text::join_all(&todos);
        next.push('\n');
        if body.len() > 0 {
            next.push('\n');
        }
    }
    if body.len() > 0 {
        extend_chars(&mut next, &body);
        next.push('\n');
    }
    proof {
        let todos_v = todo_lines(v, v.len() as int);
        let head = if todos_v.len() > 0 {
            join_lines(todos_v) + seq!['\n'] + if body@.len() > 0 {
                seq!['\n']
            } else {
                Seq::<char>::empty()
            }
        } else {
            Seq::<char>::empty()
        };
        if body@.len() > 0 {
            assert(next@ =~= head + body@ + seq!['\n']);
        } else {
            assert(next@ =~= head);
        }
    }
    next
}

/// `ls` without trailing empty lines.
pub open spec fn drop_trailing_empty(ls: Seq<Seq<char>>) -> Seq<Seq<char>> {
    ls.take(ls.len() - trail_count(ls, empty_pred()))
}

/// The predicate "this line is empty".
pub open spec fn empty_pred() -> spec_fn(Seq<char>) -> bool {
    |l: Seq<char>| l.len() == 0
}

/// `"## "` followed by `h`.
pub open spec fn h2_line(h: Seq<char>) -> Seq<char> {
    seq!['#', '#', ' '] + h
}

/// The note after the body under `heading` is replaced by `new_body`
/// (blank lines at either end dropped): the lines before and including the
/// heading and those from the section's end on are kept as they are. A
/// missing heading is appended as `## heading` after the note's last
/// non-empty line. A blank heading rewrites the journal, keeping checkboxes.
pub open spec fn replaced_section(content: Seq<char>, heading: Seq<char>, new_body: Seq<char>) -> Seq<
    char,
> {
    let h = trim(heading);
    let body = trim_section_body(new_body);
    if h.len() == 0 {
        merged_journal(content, body)
    } else {
        let ls = lines(content);
        let out = match section_range(ls, h) {
            Some((hi, _, end)) => ls.take(hi + 1) + lines(body) + ls.skip(end),
            None => drop_trailing_empty(ls) + seq![h2_line(h)] + lines(body),
        };
        ensure_nl(join_lines(out))
    }
}

/// Replace the body under `heading`, or append a new `## heading` section.
/// Empty heading rewrites the journal while keeping checkbox todos.
pub fn replace_or_append_section(content: &str, heading: &str, new_body: &str) -> (r: String)
    ensures
        r@ == replaced_section(content@, heading@, new_body@),
{
    let c = str_chars(content);
    let h = str_chars(heading);
    let b = str_chars(new_body);
    let r = replace_or_append_chars(&c, &h, &b);
    chars_string(&r)
}

pub fn replace_or_append_chars(c: &Vec<char>, heading: &Vec<char>, new_body: &Vec<char>) -> (r: Vec<
    char,
>)
    ensures
        r@ == replaced_section(c@, heading@, new_body@),
{
    let h = trim_chars(heading);
    let body = trim_section_chars(new_body);
    if h.len() == 0 {
        return merge_journal_preserving_checkboxes(c, &body);
    }
    let ls = chars_lines(c);
    let ghost v = views(ls@);
    let body_lines = chars_lines(&body);
    let mut out: Vec<Vec<char>> = Vec::new();
    match find_section_range(&ls, &h) {
        Some((hi, _, end)) => {
            proof {
                lemma_section_range_bounds(v, h@);
            }
            push_lines(&mut out, &ls, 0, hi + 1);
            push_lines(&mut out, &body_lines, 0, body_lines.len());
            push_lines(&mut out, &ls, end, ls.len());
            proof {
                assert(v.subrange(0, hi + 1) =~= v.take(hi + 1));
                assert(v.subrange(end as int, ls.len() as int) =~= v.skip(end as int));
                assert(views(body_lines@).subrange(0, body_lines.len() as int) =~= views(
                    body_lines@,
                ));
                assert(views(out@) =~= v.take(hi + 1) + lines(body@) + v.skip(end as int));
            }
        },
        None => {
            let mut keep = ls.len();
            while keep > 0 && ls[keep - 1].len() == 0
                invariant
                    keep <= ls.len(),
                    v == views(ls@),
                    forall|k: int| keep <= k < v.len() ==> empty_pred()(#[trigger] v[k]),
                decreases keep,
            {
                assert(v[keep - 1] == ls@[keep - 1]@);
                assert(empty_pred()(v[keep - 1]));
                keep = keep - 1;
            }
            proof {
                if keep > 0 {
                    assert(v[keep - 1] == ls@[keep - 1]@);
                }
                lemma_trail_count_at(v, empty_pred(), keep as int);
            }
            push_lines(&mut out, &ls, 0, keep);
            let mut title = vec!['#', '#', ' '];
            extend_chars(&mut title, &h);
            let ghost before = out@;
            out.push(title);
            push_lines(&mut out, &body_lines, 0, body_lines.len());
            proof {
                assert(v.subrange(0, keep as int) =~= drop_trailing_empty(v));
                assert(views(body_lines@).subrange(0, body_lines.len() as int) =~= views(
                    body_lines@,
                ));
                assert(title@ =~= h2_line(h@));
                assert(views(out@) =~= drop_trailing_empty(v) + seq![h2_line(h@)] + lines(body@));
            }
        },
    }
    let mut next = crate::text::join_all(&out);
    ensure_trailing_newline(&mut next);
    next
}

/// Reading back a written note: the lines come back as written, but for a
/// trailing empty line that the final newline absorbs.
pub proof fn lemma_lines_of_written(m: Seq<Seq<char>>)
    requires
        m.len() >= 1,
        all_single(m),
        crate::text::settled(m),
    ensures
        lines(ensure_nl(join_lines(m))) == if m.len() >= 2 && m.last().len() == 0 {
            m.drop_last()
        } else {
            m
        },
{
    crate::text::lemma_split_join(m);
    let j = join_lines(m);
    if m.len() == 1 && m[0].len() == 0 {
        assert(j == m[0]);
        assert(ensure_nl(j) =~= Seq::<char>::empty().push('\n'));
        assert(Seq::<char>::empty().push('\n').drop_last() =~= Seq::<char>::empty());
        assert(crate::text::split_nl(Seq::<char>::empty().push('\n')) =~= seq![Seq::<char>::empty(), Seq::<char>::empty()]);
        assert(lines(ensure_nl(j)) =~= m);
    } else if m.last().len() > 0 {
        if m.len() == 1 {
            assert(j == m[0]);
        } else {
            assert(j =~= join_lines(m.drop_last()) + seq!['\n'] + m.last());
        }
        assert(j.len() > 0 && j.last() == m.last().last());
        assert(single_line(m.last()));
        assert(m.last()[m.last().len() - 1] != '\n');
        assert(ensure_nl(j) == j.push('\n'));
        assert(j.push('\n').drop_last() =~= j);
        let p = crate::text::split_nl(j.push('\n'));
        assert(p == m.push(Seq::<char>::empty()));
        assert(p.drop_last().map_values(|x: Seq<char>| crate::text::strip_cr(x)) =~= m) by {
            assert forall|i: int| 0 <= i < m.len() implies crate::text::strip_cr(#[trigger] m[i]) == m[i] by {}
        }
    } else {
        assert(m.len() >= 2);
        assert(j =~= join_lines(m.drop_last()) + seq!['\n'] + m.last());
        assert(j.last() == '\n');
        assert(ensure_nl(j) == j);
        let p = crate::text::split_nl(j);
        assert(p.drop_last().map_values(|x: Seq<char>| crate::text::strip_cr(x)) =~= m.drop_last()) by {
            assert forall|i: int| 0 <= i < m.len() - 1 implies crate::text::strip_cr(#[trigger] m[i]) == m[i] by {}
        }
    }
}

/// Without blank lines at the ends, the lines start and end with non-blank
/// ones, and they are lines of the input.
pub proof fn lemma_trim_blank_lines_shape(ls: Seq<Seq<char>>)
    ensures
        trim_blank_lines(ls).len() > 0 ==> !is_blank(trim_blank_lines(ls)[0]) && !is_blank(
            trim_blank_lines(ls).last(),
        ),
        all_single(ls) ==> all_single(trim_blank_lines(ls)),
        crate::text::settled(ls) ==> crate::text::settled(trim_blank_lines(ls)),
{
    let a = lead_count(ls, blank_pred());
    crate::text::lemma_lead_count(ls, blank_pred());
    let rest = ls.skip(a);
    let c = trail_count(rest, blank_pred());
    crate::text::lemma_trail_count(rest, blank_pred());
    let t = trim_blank_lines(ls);
    assert(t =~= rest.take(rest.len() - c));
    if t.len() > 0 {
        assert(t[0] == ls[a]);
        assert(!blank_pred()(ls[a]));
        assert(t.last() == rest[rest.len() - c - 1]);
        assert(!blank_pred()(rest[rest.len() - c - 1]));
    }
    assert forall|i: int| 0 <= i < t.len() implies #[trigger] t[i] == ls[a + i] by {}
}

/// Lines with non-blank ends lose nothing to blank-line trimming.
pub proof fn lemma_trim_blank_lines_keeps(t: Seq<Seq<char>>)
    requires
        t.len() == 0 || (!is_blank(t[0]) && !is_blank(t.last())),
    ensures
        trim_blank_lines(t) == t,
{
    if t.len() > 0 {
        assert(!blank_pred()(t[0]));
        assert(!blank_pred()(t[t.len() - 1]));
    }
    crate::text::lemma_lead_count_at(t, blank_pred(), 0);
    assert(t.skip(0) =~= t);
    crate::text::lemma_trail_count_at(t, blank_pred(), t.len() as int);
    assert(t.take(t.len() as int) =~= t);
}

/// A section body scanned from `start` ends at `start + n` when none of the
/// `n` lines before closes it and the line there closes it (or the lines
/// end there).
pub proof fn lemma_section_end_at(ls: Seq<Seq<char>>, start: int, level: nat, n: int, from: int)
    requires
        0 <= start <= from <= start + n <= ls.len(),
        forall|j: int| from <= j < start + n ==> !closes_at(ls, start, j, level),
        start + n == ls.len() || closes_at(ls, start, start + n, level),
    ensures
        section_end_from(ls, start, from, level) == start + n,
    decreases start + n - from,
{
    if from < start + n {
        lemma_section_end_at(ls, start, level, n, from + 1);
    }
}

/// Fence counts depend only on the lines counted.
pub proof fn lemma_fence_count_window(r: Seq<Seq<char>>, s: int, t: Seq<Seq<char>>, j: int)
    requires
        0 <= s,
        0 <= j <= t.len(),
        s + t.len() <= r.len(),
        r.subrange(s, s + t.len()) == t,
    ensures
        fence_count(r, s, s + j) == fence_count(t, 0, j),
    decreases j,
{
    if j > 0 {
        lemma_fence_count_window(r, s, t, j - 1);
        assert(r[s + j - 1] == r.subrange(s, s + t.len())[j - 1]);
    }
}

/// The first heading titled `want` from `from` is at `i` when `i` is one and
/// none before it is.
pub proof fn lemma_first_heading_is(ls: Seq<Seq<char>>, want: Seq<char>, from: int, i: int)
    requires
        0 <= from <= i < ls.len(),
        heading_is(ls[i], want),
        forall|k: int| from <= k < i ==> !heading_is(#[trigger] ls[k], want),
    ensures
        first_heading_from(ls, want, from) == Some(i),
    decreases i - from,
{
    if from < i {
        lemma_first_heading_from(ls, want, from + 1);
        lemma_first_heading_is(ls, want, from + 1, i);
    }
}

/// `## h` reads as a level-2 heading titled `h` for a trimmed, non-empty `h`.
pub proof fn lemma_h2_line(h: Seq<char>)
    requires
        h.len() > 0,
        trim(h) == h,
        single_line(h),
    ensures
        heading_match(h2_line(h)) == Some((2nat, h)),
{
    crate::text::lemma_trim_idem(h);
    let line = h2_line(h);
    assert(line[0] == '#' && line[1] == '#' && line[2] == ' ');
    assert(line.drop_first().drop_first()[0] == ' ');
    assert(crate::patterns::lead_hashes(line.drop_first().drop_first()) == 0);
    assert(line.drop_first()[0] == '#');
    assert(crate::patterns::lead_hashes(line.drop_first()) == 1);
    assert(crate::patterns::lead_hashes(line) == 2);
    let after = line.skip(2);
    assert(after =~= seq![' '] + h);
    assert(after.drop_first() =~= h);
    assert(crate::text::lead_ws(h) == 0);
    assert(crate::text::is_ws(' '));
    assert(crate::text::lead_ws(after) == 1);
    assert(after.skip(1) =~= h);
    assert(crate::text::trim_end(h) == h);
}

/// Where a section ends, before the end of the lines, a line closes it.
pub proof fn lemma_section_end_closes(ls: Seq<Seq<char>>, start: int, from: int, level: nat)
    requires
        0 <= from,
    ensures
        section_end_from(ls, start, from, level) < ls.len() ==> closes_at(
            ls,
            start,
            section_end_from(ls, start, from, level),
            level,
        ),
    decreases ls.len() - from,
{
    if from < ls.len() && !closes_at(ls, start, from, level) {
        lemma_section_end_closes(ls, start, from + 1, level);
    }
}

/// A new body stays one section when written under `heading`: none of its
/// lines closes the section (a heading of the section's level or a higher
/// one, outside fenced code) and, when a heading follows the section, its
/// fences are balanced so that this heading still closes it. A missing
/// heading is written as `##`.
pub open spec fn body_stays(content: Seq<char>, heading: Seq<char>, body: Seq<char>) -> bool {
    let t = lines(trim_section_body(body));
    let ls = lines(content);
    match section_range(ls, trim(heading)) {
        Some((hi, _, end)) => (forall|j: int|
            0 <= j < t.len() ==> !closes_at(t, 0, j, heading_level(ls[hi]))) && (end < ls.len()
            ==> fence_count(t, 0, t.len() as int) % 2 == 0),
        None => forall|j: int| 0 <= j < t.len() ==> !closes_at(t, 0, j, 2),
    }
}

/// Closing is decided by the line and by the fences counted before it.
proof fn lemma_closes_window(r: Seq<Seq<char>>, s: int, t: Seq<Seq<char>>, j: int, level: nat)
    requires
        0 <= s,
        0 <= j < t.len(),
        s + t.len() <= r.len(),
        r.subrange(s, s + t.len()) == t,
    ensures
        closes_at(r, s, s + j, level) == closes_at(t, 0, j, level),
{
    lemma_fence_count_window(r, s, t, j);
    assert(r[s + j] == r.subrange(s, s + t.len())[j]);
}

/// Writing a section then reading it back gives the body written, without
/// blank lines at either end: for a named (non-blank, one-line) heading,
/// on a note and a body whose lines keep no carriage return, when the body
/// stays one section (`body_stays`).
pub proof fn law_section_round_trip(content: Seq<char>, heading: Seq<char>, body: Seq<char>)
    requires
        trim(heading).len() > 0,
        single_line(trim(heading)),
        crate::text::settled(lines(content)),
        crate::text::settled(trim_blank_lines(lines(body))),
        body_stays(content, heading, body),
    ensures
        section_text(replaced_section(content, heading, body), heading) == trim_section_body(body),
{
    let h = trim(heading);
    crate::text::lemma_trim_idem(heading);
    let want = lowercase(trim(heading));
    assert(lowercase(trim(h)) == want);
    let ls = lines(content);
    crate::text::lemma_lines_single(content);
    crate::text::lemma_lines_single(body);
    let t0 = trim_blank_lines(lines(body));
    lemma_trim_blank_lines_shape(lines(body));
    let b0 = trim_section_body(body);
    assert(b0 == join_lines(t0));
    if t0.len() > 0 {
        assert(t0.last().len() > 0) by {
            if t0.last().len() == 0 {
                assert(is_blank(t0.last()));
            }
        }
    }
    crate::text::lemma_lines_of_joined(t0);
    assert(lines(b0) == t0);
    lemma_trim_blank_lines_keeps(t0);
    assert(trim_section_body(b0) == b0);
    let result = replaced_section(content, heading, body);
    let r = lines(result);
    assert(section_range(ls, h) == section_range(ls, heading));
    lemma_first_heading_from(ls, want, 0);
    match section_range(ls, h) {
        Some((hi, _, end)) => {
            lemma_section_range_bounds(ls, h);
            let level = heading_level(ls[hi]);
            let out = ls.take(hi + 1) + t0 + ls.skip(end);
            assert(result == ensure_nl(join_lines(out)));
            assert(all_single(out)) by {
                assert forall|i: int| 0 <= i < out.len() implies single_line(#[trigger] out[i]) by {
                    if i <= hi {
                        assert(out[i] == ls[i]);
                    } else if i < hi + 1 + t0.len() {
                        assert(out[i] == t0[i - hi - 1]);
                    } else {
                        assert(out[i] == ls[end + i - hi - 1 - t0.len()]);
                    }
                }
            }
            assert(crate::text::settled(out)) by {
                assert forall|i: int| 0 <= i < out.len() implies crate::text::strip_cr(#[trigger] out[i]) == out[i] by {
                    if i <= hi {
                        assert(out[i] == ls[i]);
                    } else if i < hi + 1 + t0.len() {
                        assert(out[i] == t0[i - hi - 1]);
                    } else {
                        assert(out[i] == ls[end + i - hi - 1 - t0.len()]);
                    }
                }
            }
            lemma_lines_of_written(out);
            let n = hi + 1 + t0.len();
            lemma_section_end_closes(ls, hi + 1, hi + 1, level);
            if end < ls.len() {
                assert(closes_at(ls, hi + 1, end, level));
                assert(ls[end].len() > 0);
            }
            if t0.len() > 0 {
                assert(out[n - 1] == t0.last());
            } else {
                assert(out[n - 1] == ls[hi]);
                assert(ls[hi].len() > 0);
            }
            assert(r.len() >= n);
            assert(end < ls.len() ==> r.len() > n) by {
                if end < ls.len() {
                    assert(out[n] == ls[end]);
                    if ls.len() - end == 1 {
                        assert(out.last() == ls[end]);
                    }
                }
            }
            assert forall|k: int| 0 <= k < r.len() implies #[trigger] r[k] == out[k] by {}
            assert(r.subrange(hi + 1, n) =~= t0);
            assert forall|k: int| 0 <= k < hi implies !heading_is(#[trigger] r[k], want) by {
                assert(r[k] == ls[k]);
            }
            assert(r[hi] == ls[hi]);
            lemma_first_heading_is(r, want, 0, hi);
            assert forall|j: int| hi + 1 <= j < n implies !#[trigger] closes_at(r, hi + 1, j, level) by {
                lemma_closes_window(r, hi + 1, t0, j - hi - 1, level);
            }
            if end < ls.len() {
                lemma_fence_count_window(r, hi + 1, t0, t0.len() as int);
                assert(r[n] == ls[end]);
                assert(closes_at(r, hi + 1, n, level));
            }
            lemma_section_end_at(r, hi + 1, level, t0.len() as int, hi + 1);
            assert(section_range(r, heading) == Some((hi, hi + 1, n)));
        },
        None => {
            let d = drop_trailing_empty(ls);
            crate::text::lemma_trail_count(ls, empty_pred());
            let line = h2_line(h);
            lemma_h2_line(h);
            assert(single_line(line)) by {
                assert forall|k: int| 0 <= k < line.len() implies #[trigger] line[k] != '\n' by {
                    if k >= 3 {
                        assert(line[k] == h[k - 3]);
                    }
                }
            }
            assert(line.last() == h.last());
            assert(crate::text::is_ws('\r'));
            let out = d + seq![line] + t0;
            assert(result == ensure_nl(join_lines(out)));
            assert(all_single(out)) by {
                assert forall|i: int| 0 <= i < out.len() implies single_line(#[trigger] out[i]) by {
                    if i < d.len() {
                        assert(out[i] == ls[i]);
                    } else if i == d.len() {
                        assert(out[i] == line);
                    } else {
                        assert(out[i] == t0[i - d.len() - 1]);
                    }
                }
            }
            assert(crate::text::settled(out)) by {
                assert forall|i: int| 0 <= i < out.len() implies crate::text::strip_cr(#[trigger] out[i]) == out[i] by {
                    if i < d.len() {
                        assert(out[i] == ls[i]);
                    } else if i == d.len() {
                        assert(out[i] == line);
                    } else {
                        assert(out[i] == t0[i - d.len() - 1]);
                    }
                }
            }
            lemma_lines_of_written(out);
            if t0.len() > 0 {
                assert(out.last() == t0.last());
            } else {
                assert(out.last() == line);
            }
            assert(r == out);
            let hi = d.len() as int;
            let n = hi + 1 + t0.len();
            assert(r.subrange(hi + 1, n) =~= t0);
            assert forall|k: int| 0 <= k < hi implies !heading_is(#[trigger] r[k], want) by {
                assert(r[k] == ls[k]);
            }
            assert(r[hi] == line);
            assert(heading_is(line, want));
            lemma_first_heading_is(r, want, 0, hi);
            assert(heading_level(r[hi]) == 2);
            assert forall|j: int| hi + 1 <= j < n implies !#[trigger] closes_at(r, hi + 1, j, 2) by {
                lemma_closes_window(r, hi + 1, t0, j - hi - 1, 2);
            }
            lemma_section_end_at(r, hi + 1, 2, t0.len() as int, hi + 1);
            assert(section_range(r, heading) == Some((hi, hi + 1, n)));
        },
    }
}


/// Fence counts add up over adjacent ranges.
pub proof fn lemma_fence_count_split(ls: Seq<Seq<char>>, x: int, y: int, z: int)
    requires
        x <= y <= z,
    ensures
        fence_count(ls, x, z) == fence_count(ls, x, y) + fence_count(ls, y, z),
    decreases z - y,
{
    if z > y {
        lemma_fence_count_split(ls, x, y, z - 1);
    }
}

/// Fence counts inside a copied window are those of the copy.
pub proof fn lemma_fence_count_shift(r: Seq<Seq<char>>, s: int, t: Seq<Seq<char>>, x: int, j: int)
    requires
        0 <= s,
        0 <= x <= j <= t.len(),
        s + t.len() <= r.len(),
        r.subrange(s, s + t.len()) == t,
    ensures
        fence_count(r, s + x, s + j) == fence_count(t, x, j),
    decreases j - x,
{
    if j > x {
        lemma_fence_count_shift(r, s, t, x, j - 1);
        assert(r[s + j - 1] == r.subrange(s, s + t.len())[j - 1]);
    }
}

/// Closing inside a copied window is closing in the copy.
pub proof fn lemma_closes_shift(
    r: Seq<Seq<char>>,
    s: int,
    t: Seq<Seq<char>>,
    x: int,
    j: int,
    level: nat,
)
    requires
        0 <= s,
        0 <= x <= j < t.len(),
        s + t.len() <= r.len(),
        r.subrange(s, s + t.len()) == t,
    ensures
        closes_at(r, s + x, s + j, level) == closes_at(t, x, j, level),
{
    lemma_fence_count_shift(r, s, t, x, j);
    assert(r[s + j] == r.subrange(s, s + t.len())[j]);
}

/// The `##` headings of a copied window, entered outside fenced code, are
/// those of the copy, moved by the window's start.
pub proof fn lemma_h2_starts_shift(r: Seq<Seq<char>>, s: int, t: Seq<Seq<char>>, j: int)
    requires
        0 <= s,
        0 <= j <= t.len(),
        s + t.len() <= r.len(),
        r.subrange(s, s + t.len()) == t,
        fence_count(r, 0, s) % 2 == 0,
    ensures
        h2_starts(r, s + j) == h2_starts(r, s) + h2_starts(t, j).map_values(|i: int| i + s),
    decreases j,
{
    if j == 0 {
        assert(h2_starts(t, 0).map_values(|i: int| i + s) =~= Seq::<int>::empty());
        assert(h2_starts(r, s) + Seq::<int>::empty() =~= h2_starts(r, s));
    } else {
        lemma_h2_starts_shift(r, s, t, j - 1);
        lemma_fence_count_split(r, 0, s, s + j - 1);
        lemma_fence_count_shift(r, s, t, 0, j - 1);
        assert(r[s + j - 1] == r.subrange(s, s + t.len())[j - 1]);
        assert(is_h2_start(r, s + j - 1) == is_h2_start(t, j - 1));
        let p = h2_starts(t, j - 1);
        if is_h2_start(t, j - 1) {
            assert(p.push(j - 1).map_values(|i: int| i + s) =~= p.map_values(|i: int| i + s).push(
                j - 1 + s,
            ));
            assert(h2_starts(r, s) + p.map_values(|i: int| i + s).push(j - 1 + s) =~= (h2_starts(
                r,
                s,
            ) + p.map_values(|i: int| i + s)).push(j - 1 + s));
        }
    }
}

/// The `##` headings among the first `m` lines depend on those lines only.
pub proof fn lemma_h2_starts_agree(r: Seq<Seq<char>>, q: Seq<Seq<char>>, m: int)
    requires
        0 <= m <= r.len(),
        m <= q.len(),
        r.take(m) == q.take(m),
    ensures
        h2_starts(r, m) == h2_starts(q, m),
    decreases m,
{
    if m > 0 {
        assert(r.take(m - 1) =~= q.take(m - 1)) by {
            assert forall|i: int| 0 <= i < m - 1 implies #[trigger] r.take(m - 1)[i] == q.take(m - 1)[i] by {
                assert(r.take(m)[i] == q.take(m)[i]);
            }
        }
        lemma_h2_starts_agree(r, q, m - 1);
        assert(r.subrange(0, m) == q.take(m)) by {
            assert(r.subrange(0, m) =~= r.take(m));
        }
        assert(q.subrange(0, m) == q.take(m)) by {
            assert(q.subrange(0, m) =~= q.take(m));
        }
        lemma_fence_count_shift(r, 0, q.take(m), 0, m - 1);
        lemma_fence_count_shift(q, 0, q.take(m), 0, m - 1);
        assert(r[m - 1] == r.take(m)[m - 1]);
        assert(q[m - 1] == q.take(m)[m - 1]);
    }
}

/// The `##` headings among fewer lines come first among more lines.
pub proof fn lemma_h2_starts_prefix(ls: Seq<Seq<char>>, m: int, m2: int)
    requires
        0 <= m <= m2,
    ensures
        h2_starts(ls, m).len() <= h2_starts(ls, m2).len(),
        h2_starts(ls, m2).take(h2_starts(ls, m).len() as int) == h2_starts(ls, m),
    decreases m2 - m,
{
    if m2 > m {
        lemma_h2_starts_prefix(ls, m, m2 - 1);
        let p = h2_starts(ls, m2 - 1);
        let c = h2_starts(ls, m).len() as int;
        if is_h2_start(ls, m2 - 1) {
            assert(p.push(m2 - 1).take(c) =~= p.take(c));
        }
    } else {
        assert(h2_starts(ls, m).take(h2_starts(ls, m).len() as int) =~= h2_starts(ls, m));
    }
}

/// A heading line is not blank.
pub proof fn lemma_heading_not_blank(line: Seq<char>)
    requires
        heading_match(line) is Some,
    ensures
        !is_blank(line),
        line.len() > 0,
{
    crate::patterns::lemma_lead_hashes(line);
    assert(line[0] == '#');
    assert(!crate::text::is_ws('#'));
}


/// A new body for the first `n` `##` sections of `content` makes exactly
/// those sections again: trimmed at its end, it has `n` `##` headings
/// (outside fenced code), only blank lines before the first, no heading of
/// level one or two after the last (outside fences opened after it), and,
/// when the note goes on after the replaced sections, balanced fences after
/// its last heading; its lines keep no carriage return.
pub open spec fn h2_body_fits(content: Seq<char>, n: int, new_body: Seq<char>) -> bool {
    let t = lines(crate::text::trim_end(new_body));
    let hs = h2_indices(t);
    let ls = lines(content);
    &&& hs.len() == n
    &&& forall|j: int| 0 <= j < hs[0] ==> is_blank(#[trigger] t[j])
    &&& forall|j: int| hs[n - 1] < j < t.len() ==> !#[trigger] closes_at(t, hs[n - 1] + 1, j, 2)
    &&& (match h2_span(ls, n) {
        Some((_, e)) => e < ls.len() ==> fence_count(t, hs[n - 1] + 1, t.len() as int) % 2 == 0,
        None => true,
    })
    &&& crate::text::settled(t)
}

/// Lines written with a window of new lines in place of `ls[a..b]` read
/// back with that window where it was put, the lines before it unchanged,
/// and the line that followed it right after it.
proof fn lemma_spliced_read_back(ls: Seq<Seq<char>>, t: Seq<Seq<char>>, a: int, b: int)
    requires
        all_single(ls),
        crate::text::settled(ls),
        all_single(t),
        crate::text::settled(t),
        t.len() > 0,
        t.last().len() > 0,
        0 <= a <= b <= ls.len(),
        b < ls.len() ==> ls[b].len() > 0,
    ensures
        ({
            let r = lines(ensure_nl(join_lines(ls.take(a) + t + ls.skip(b))));
            &&& r.len() >= a + t.len()
            &&& r.subrange(a, a + t.len()) == t
            &&& r.take(a) == ls.take(a)
            &&& b < ls.len() ==> r.len() > a + t.len() && r[a + t.len()] == ls[b]
            &&& b == ls.len() ==> r.len() == a + t.len()
        }),
{
    let out = ls.take(a) + t + ls.skip(b);
    let m = a + t.len();
    assert(all_single(out)) by {
        assert forall|i: int| 0 <= i < out.len() implies single_line(#[trigger] out[i]) by {
            if i < a {
                assert(out[i] == ls[i]);
            } else if i < m {
                assert(out[i] == t[i - a]);
            } else {
                assert(out[i] == ls[b + i - m]);
            }
        }
    }
    assert(crate::text::settled(out)) by {
        assert forall|i: int| 0 <= i < out.len() implies crate::text::strip_cr(#[trigger] out[i])
            == out[i] by {
            if i < a {
                assert(out[i] == ls[i]);
            } else if i < m {
                assert(out[i] == t[i - a]);
            } else {
                assert(out[i] == ls[b + i - m]);
            }
        }
    }
    lemma_lines_of_written(out);
    let r = lines(ensure_nl(join_lines(out)));
    if b < ls.len() {
        assert(out[m] == ls[b]);
        if out.len() == m + 1 {
            assert(out.last() == ls[b]);
        }
        assert(r.len() > m);
    } else {
        assert(out.len() == m);
        assert(out.last() == t.last());
        assert(r == out);
    }
    assert forall|i: int| 0 <= i < r.len() implies #[trigger] r[i] == out[i] by {}
    assert(r.subrange(a, m) =~= t) by {
        assert forall|i: int| 0 <= i < t.len() implies #[trigger] r.subrange(a, m)[i] == t[i] by {
            assert(r[a + i] == out[a + i]);
        }
    }
    assert(r.take(a) =~= ls.take(a)) by {
        assert forall|i: int| 0 <= i < a implies #[trigger] r.take(a)[i] == ls.take(a)[i] by {
            assert(r[i] == out[i]);
        }
    }
}

/// Lines from the first `##` heading on, with only blank lines before it,
/// read back as all the lines do once blank lines are trimmed at the ends.
proof fn lemma_from_heading_read_back(t: Seq<Seq<char>>, h0: int)
    requires
        all_single(t),
        crate::text::settled(t),
        0 <= h0 < t.len(),
        t.last().len() > 0,
        heading_match(t[h0]) is Some,
        forall|j: int| 0 <= j < h0 ==> is_blank(#[trigger] t[j]),
    ensures
        trim_section_body(join_lines(t.skip(h0))) == join_lines(trim_blank_lines(t)),
{
    let u = t.skip(h0);
    assert(all_single(u)) by {
        assert forall|i: int| 0 <= i < u.len() implies single_line(#[trigger] u[i]) by {
            assert(u[i] == t[h0 + i]);
        }
    }
    assert(u.last() == t.last());
    assert forall|i: int| 0 <= i < u.len() - 1 implies crate::text::strip_cr(#[trigger] u[i])
        == u[i] by {
        assert(u[i] == t[h0 + i]);
    }
    crate::text::lemma_lines_of_joined(u);
    lemma_heading_not_blank(t[h0]);
    crate::text::lemma_lead_count_at(t, blank_pred(), h0);
    assert(u[0] == t[h0]);
    crate::text::lemma_lead_count_at(u, blank_pred(), 0);
    assert(u.skip(0) =~= u);
}

/// In lines that start as `ls` does up to its first `##` heading at `a` and
/// hold a copy of `t` from there, the first `##` headings are those of `t`,
/// moved by `a`.
proof fn lemma_h2_indices_after_splice(
    r: Seq<Seq<char>>,
    ls: Seq<Seq<char>>,
    t: Seq<Seq<char>>,
    a: int,
)
    requires
        0 <= a,
        a + t.len() <= r.len(),
        a <= ls.len(),
        r.take(a) == ls.take(a),
        r.subrange(a, a + t.len()) == t,
        a == 0 || (a < ls.len() && is_h2_start(ls, a)),
        h2_starts(ls, a).len() == 0,
    ensures
        h2_indices(r).len() >= h2_indices(t).len(),
        forall|j: int|
            0 <= j < h2_indices(t).len() ==> #[trigger] h2_indices(r)[j] == h2_indices(t)[j] + a,
{
    let m = a + t.len();
    lemma_h2_starts_agree(r, ls, a);
    assert(fence_count(r, 0, a) % 2 == 0) by {
        assert(r.subrange(0, a) == ls.take(a)) by {
            assert(r.subrange(0, a) =~= r.take(a));
        }
        assert(ls.subrange(0, a) == ls.take(a)) by {
            assert(ls.subrange(0, a) =~= ls.take(a));
        }
        lemma_fence_count_shift(r, 0, ls.take(a), 0, a);
        lemma_fence_count_shift(ls, 0, ls.take(a), 0, a);
        if a > 0 {
            assert(is_h2_start(ls, a));
        }
    }
    lemma_h2_starts_shift(r, a, t, t.len() as int);
    let hs = h2_indices(t);
    let shifted = hs.map_values(|i: int| i + a);
    assert(h2_starts(r, m) =~= shifted);
    lemma_h2_starts_prefix(r, m, r.len() as int);
    let rs = h2_indices(r);
    assert forall|j: int| 0 <= j < hs.len() implies #[trigger] rs[j] == hs[j] + a by {
        assert(rs.take(hs.len() as int)[j] == shifted[j]);
    }
}

/// Where the first `n` `##` sections of lines with a `##` heading lie: from
/// the first `##` heading (none before it) to a line that closes a section
/// of level two, or to the end.
proof fn lemma_h2_span_found(ls: Seq<Seq<char>>, n: int)
    requires
        n > 0,
        h2_indices(ls).len() > 0,
    ensures
        h2_span(ls, n) matches Some((a, b)) && {
            &&& 0 <= a < b <= ls.len()
            &&& is_h2_start(ls, a)
            &&& h2_starts(ls, a).len() == 0
            &&& b < ls.len() ==> !is_fence(ls[b]) && heading_match(ls[b]) is Some && heading_level(
                ls[b],
            ) <= 2 && ls[b].len() > 0
        },
{
    let st = h2_indices(ls);
    lemma_h2_starts(ls, ls.len() as int);
    let k = if n < st.len() {
        n
    } else {
        st.len() as int
    };
    let a = st[0];
    let b = section_end(ls, st[k - 1] + 1, 2);
    lemma_section_end_bounds(ls, st[k - 1] + 1, st[k - 1] + 1, 2);
    lemma_section_end_closes(ls, st[k - 1] + 1, st[k - 1] + 1, 2);
    assert(st[0] <= st[k - 1]) by {
        if k - 1 > 0 {
            assert(st[0] < st[k - 1]);
        }
    }
    assert(h2_span(ls, n) == Some((a, b)));
    if b < ls.len() {
        assert(closes_at(ls, st[k - 1] + 1, b, 2));
        lemma_heading_not_blank(ls[b]);
    }
    lemma_h2_starts_prefix(ls, a, ls.len() as int);
    lemma_h2_starts(ls, a);
    if h2_starts(ls, a).len() > 0 {
        assert(h2_starts(ls, a)[0] == st[0]);
    }
}

/// Replacing the first `n` `##` sections and reading the first `n` back
/// gives the body written, trimmed at its end and without blank lines at
/// either end: on a note with a `##` heading (or an empty note) whose lines
/// keep no carriage return, when the body makes exactly those `n` sections
/// again (`h2_body_fits`).
pub proof fn law_first_h2_round_trip(content: Seq<char>, n: int, new_body: Seq<char>)
    requires
        n > 0,
        h2_indices(lines(content)).len() > 0 || lines(content).len() == 0,
        crate::text::settled(lines(content)),
        h2_body_fits(content, n, new_body),
    ensures
        first_h2_text(replaced_first_h2(content, n, new_body), n) == trim_section_body(
            crate::text::trim_end(new_body),
        ),
{
    let ls = lines(content);
    let body = crate::text::trim_end(new_body);
    let t = lines(body);
    let hs = h2_indices(t);
    crate::text::lemma_lines_single(content);
    crate::text::lemma_lines_single(body);
    lemma_h2_starts(t, t.len() as int);
    assert(body.len() > 0) by {
        if body.len() == 0 {
            assert(crate::text::split_nl(body) == seq![Seq::<char>::empty()]);
            assert(t.len() == 0);
        }
    }
    crate::text::lemma_trim_end_last(new_body);
    crate::text::lemma_lines_last_nonempty(body);
    let h0 = hs[0];
    let hl = hs[n - 1];
    assert(0 <= h0 <= hl < t.len()) by {
        if n - 1 > 0 {
            assert(hs[0] < hs[n - 1]);
        }
    }
    let (a, b) = match h2_span(ls, n) {
        Some((x, y)) => (x, y),
        None => (0int, 0int),
    };
    if ls.len() > 0 {
        lemma_h2_span_found(ls, n);
    } else {
        assert(h2_starts(ls, 0).len() == 0);
    }
    let out = ls.take(a) + t + ls.skip(b);
    let result = replaced_first_h2(content, n, new_body);
    assert(result == ensure_nl(join_lines(out))) by {
        if ls.len() == 0 {
            assert(out =~= t + Seq::<Seq<char>>::empty() + ls);
        }
    }
    lemma_spliced_read_back(ls, t, a, b);
    let r = lines(result);
    let m = a + t.len();
    lemma_h2_indices_after_splice(r, ls, t, a);
    let rs = h2_indices(r);
    assert(rs[0] == a + h0);
    assert(rs[n - 1] == a + hl);
    // the last replaced section ends where the new body does
    let start = a + hl + 1;
    assert forall|j: int| start <= j < m implies !closes_at(r, start, j, 2) by {
        lemma_closes_shift(r, a, t, hl + 1, j - a, 2);
    }
    if b < ls.len() {
        lemma_fence_count_shift(r, a, t, hl + 1, t.len() as int);
        assert(closes_at(r, start, m, 2));
    }
    lemma_section_end_at(r, start, 2, m - start, start);
    assert(h2_span(r, n) == Some((a + h0, m)));
    assert(r.subrange(a + h0, m) =~= t.skip(h0));
    lemma_from_heading_read_back(t, h0);
}


/// A blank line is no fence.
pub proof fn lemma_blank_not_fence(line: Seq<char>)
    requires
        is_blank(line),
    ensures
        !is_fence(line),
{
    crate::text::lemma_trim_start_skip(line, line.len() as int);
    assert(line.skip(line.len() as int) =~= Seq::<char>::empty());
    assert(trim_start(line).len() == 0);
}

/// No fence is counted among blank lines.
pub proof fn lemma_fence_count_blank(ls: Seq<Seq<char>>, x: int, y: int)
    requires
        0 <= x,
        y <= ls.len(),
        forall|k: int| x <= k < y ==> is_blank(#[trigger] ls[k]),
    ensures
        fence_count(ls, x, y) == 0,
    decreases y - x,
{
    if y > x {
        lemma_fence_count_blank(ls, x, y - 1);
        lemma_blank_not_fence(ls[y - 1]);
    }
}

/// Where the lines without blank ones at their ends lie in the lines.
pub proof fn trim_blank_bounds(ls: Seq<Seq<char>>) -> (ab: (int, int))
    ensures
        0 <= ab.0 <= ab.1 <= ls.len(),
        trim_blank_lines(ls) == ls.subrange(ab.0, ab.1),
        forall|k: int| 0 <= k < ab.0 ==> is_blank(#[trigger] ls[k]),
        forall|k: int| ab.1 <= k < ls.len() ==> is_blank(#[trigger] ls[k]),
{
    let a = lead_count(ls, blank_pred());
    crate::text::lemma_lead_count(ls, blank_pred());
    let rest = ls.skip(a);
    let c = trail_count(rest, blank_pred());
    crate::text::lemma_trail_count(rest, blank_pred());
    let b = ls.len() - c;
    assert(trim_blank_lines(ls) =~= ls.subrange(a, b));
    assert forall|k: int| 0 <= k < a implies is_blank(#[trigger] ls[k]) by {
        assert(blank_pred()(ls[k]));
    }
    assert forall|k: int| b <= k < ls.len() implies is_blank(#[trigger] ls[k]) by {
        assert(ls[k] == rest[k - a]);
        assert(blank_pred()(rest[k - a]));
    }
    (a, b)
}

/// Writing a named section then reading it back gives the body written,
/// without blank lines at either end: for a non-blank, one-line heading, on
/// a note and a body without carriage returns, when no line of the body is
/// a heading and the body's fence lines come in pairs.
pub proof fn law_written_section_reads_back(content: Seq<char>, heading: Seq<char>, body: Seq<char>)
    requires
        trim(heading).len() > 0,
        single_line(trim(heading)),
        !content.contains('\r'),
        !body.contains('\r'),
        forall|i: int| 0 <= i < lines(body).len() ==> heading_match(#[trigger] lines(body)[i]) is None,
        fence_count(lines(body), 0, lines(body).len() as int) % 2 == 0,
    ensures
        section_text(replaced_section(content, heading, body), heading) == trim_section_body(body),
{
    let ls = lines(body);
    crate::text::lemma_lines_settled(content);
    crate::text::lemma_lines_settled(body);
    crate::text::lemma_lines_single(body);
    let t0 = trim_blank_lines(ls);
    lemma_trim_blank_lines_shape(ls);
    let (a, b) = trim_blank_bounds(ls);
    if t0.len() > 0 {
        assert(t0.last().len() > 0) by {
            if t0.last().len() == 0 {
                assert(is_blank(t0.last()));
            }
        }
    }
    crate::text::lemma_lines_of_joined(t0);
    assert(lines(trim_section_body(body)) == t0);
    // the kept lines are lines of the body: none is a heading
    assert forall|j: int| 0 <= j < t0.len() implies heading_match(#[trigger] t0[j]) is None by {
        assert(t0[j] == ls[a + j]);
    }
    // their fences are all of the body's
    lemma_fence_count_split(ls, 0, a, ls.len() as int);
    lemma_fence_count_split(ls, a, b, ls.len() as int);
    lemma_fence_count_blank(ls, 0, a);
    lemma_fence_count_blank(ls, b, ls.len() as int);
    lemma_fence_count_shift(ls, a, t0, 0, t0.len() as int);
    assert(fence_count(t0, 0, t0.len() as int) % 2 == 0);
    assert(body_stays(content, heading, body)) by {
        let ls_c = lines(content);
        match section_range(ls_c, trim(heading)) {
            Some((hi, _, end)) => {
                assert forall|j: int| 0 <= j < t0.len() implies !closes_at(
                    t0,
                    0,
                    j,
                    heading_level(ls_c[hi]),
                ) by {
                    assert(heading_match(t0[j]) is None);
                }
            },
            None => {
                assert forall|j: int| 0 <= j < t0.len() implies !closes_at(t0, 0, j, 2) by {
                    assert(heading_match(t0[j]) is None);
                }
            },
        }
    }
    law_section_round_trip(content, heading, body);
}

} // verus!
