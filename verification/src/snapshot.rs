//! A day's snapshot built from its note, and the day grids of the week and
//! month views.
use vstd::prelude::*;
use crate::config::DailyNotesConfig;
use crate::format::{
    Date, date_numbered, day_number, days_after, days_before, days_between, iso_text, month_length,
    next_month, numbered_as, prev_month, valid_ymd, weekday_of, year_in_range,
};
use crate::notes::{h2_sections, has_body_line};
use crate::open::uri_of;
use crate::status::{
    DaySummary, NoteSection, Snapshot, State, TodoItem, WeekSummary, done_count_of, open_count_of,
    todo_views,
};
use crate::todos::{
    SnapshotFilter, notes_text, open_items, opt_view, parsed_todos, todos_under,
};
use crate::text::{str_chars, trim};

verus! {

/// The `(year, month, day)` of a date.
pub open spec fn ymd(d: Date) -> (i32, u32, u32) {
    (d.y(), d.m(), d.d())
}

pub open spec fn section_views(v: Seq<NoteSection>) -> Seq<(Seq<char>, Seq<char>)> {
    v.map_values(|s: NoteSection| (s.heading@, s.body@))
}

/// Every `##` section of a note as a `NoteSection`.
pub fn note_sections(content: &str) -> (r: Vec<NoteSection>)
    ensures
        section_views(r@) == h2_sections(content@),
{
    let pairs = crate::notes::extract_h2_sections(content);
    let ghost pv = crate::notes::pair_views(pairs@);
    let mut r: Vec<NoteSection> = Vec::new();
    let mut i: usize = 0;
    while i < pairs.len()
        invariant
            pv == crate::notes::pair_views(pairs@),
            pv == h2_sections(content@),
            i <= pairs.len(),
            section_views(r@) == pv.take(i as int),
        decreases pairs.len() - i,
    {
        let ghost before = r@;
        r.push(NoteSection { heading: pairs[i].0.clone(), body: pairs[i].1.clone() });
        proof {
            assert(pv[i as int] == (pairs@[i as int].0@, pairs@[i as int].1@));
            assert(section_views(r@) =~= section_views(before).push(pv[i as int]));
            assert(pv.take(i + 1) =~= pv.take(i as int).push(pv[i as int]));
        }
        i = i + 1;
    }
    assert(pv.take(pairs.len() as int) =~= pv);
    r
}

/// The snapshot of `date`'s note at `path` before it is enriched: `content`
/// is the note's text, `None` when the note does not exist.
pub open spec fn read_snapshot_holds(
    s: Snapshot,
    date: Date,
    path: Seq<char>,
    content: Option<Seq<char>>,
    todo_heading: Option<Seq<char>>,
    notes_heading: Option<Seq<char>>,
    h2_count: Option<usize>,
) -> bool {
    &&& s.state == State::Ready
    &&& s.date matches Some(d) && d@ == iso_text(date.y(), date.m(), date.d())
    &&& s.path matches Some(p) && p@ == path
    &&& s.exists == Some(content is Some)
    &&& s.todos matches Some(t) && s.open_count == Some(open_count_of(t@) as usize) && s.done_count
        == Some(done_count_of(t@) as usize) && todo_views(t@) == match content {
        Some(c) => todos_under(c, parsed_todos(c), todo_heading),
        None => Seq::empty(),
    }
    &&& s.notes matches Some(n) && n@ == match content {
        Some(c) => notes_text(c, notes_heading, h2_count),
        None => Seq::empty(),
    }
    &&& s.sections matches Some(secs) && section_views(secs@) == match content {
        Some(c) => h2_sections(c),
        None => Seq::empty(),
    }
    &&& s.template_headings is None && s.obsidian_uri is None && s.carry_over_count is None
    &&& s.is_today is None && s.template_name is None && s.created_from_template is None
    &&& s.has_notes is None && s.error_code is None && s.error is None
}

/// The snapshot of one day: its todos under the filter's heading, the notes
/// pane and every `##` section of `content` (the note's text, `None` when
/// the note at `path` does not exist).
pub fn snapshot_of(date: &Date, path: &str, content: Option<&str>, filter: &SnapshotFilter) -> (s:
    Snapshot)
    ensures
        read_snapshot_holds(
            s,
            *date,
            path@,
            opt_view(content),
            opt_view(filter.todo_heading),
            opt_view(filter.notes_heading),
            filter.notes_h2_count,
        ),
{
    let date_str = date.iso();
    let path_str = String::from_str(path);
    match content {
        Some(c) => {
            let all = crate::todos::parse_todos(c);
            let todos = crate::todos::filter_todos_by_heading(c, all, filter.todo_heading);
            let notes = filter.notes_from(c);
            let sections = note_sections(c);
            let mut snap = Snapshot::ok(date_str, path_str, true, todos);
            snap.notes = Some(notes);
            snap.sections = Some(sections);
            snap
        },
        None => {
            let mut snap = Snapshot::ok(date_str, path_str, false, Vec::new());
            snap.notes = Some(String::new());
            snap.sections = Some(Vec::new());
            proof {
                assert(todo_views(Seq::<TodoItem>::empty()) =~= Seq::<crate::status::TodoView>::empty());
                assert(section_views(Seq::<NoteSection>::empty()) =~= Seq::<(Seq<char>, Seq<char>)>::empty());
            }
            snap
        },
    }
}

/// The `##` titles shown as quick headings: the first sixteen of the
/// template's when it has any, else the first sixteen of the day's sections.
pub open spec fn heading_choice(template_body: Option<Seq<char>>, sections: Option<Vec<NoteSection>>) -> Seq<
    Seq<char>,
> {
    let from_day = match sections {
        Some(secs) => section_views(secs@).take(if secs.len() < 16 { secs.len() as int } else { 16 }).map_values(
            |p: (Seq<char>, Seq<char>)| p.0,
        ),
        None => Seq::empty(),
    };
    match template_body {
        Some(b) if h2_sections(b).len() > 0 => h2_sections(b).take(
            if h2_sections(b).len() < 16 { h2_sections(b).len() as int } else { 16 },
        ).map_values(|p: (Seq<char>, Seq<char>)| p.0),
        _ => from_day,
    }
}

pub open spec fn strings_view(v: Seq<String>) -> Seq<Seq<char>> {
    v.map_values(|s: String| s@)
}

fn day_headings(sections: &Option<Vec<NoteSection>>) -> (r: Vec<String>)
    ensures
        strings_view(r@) == heading_choice(None, *sections),
{
    let mut r: Vec<String> = Vec::new();
    match sections {
        None => {
            assert(strings_view(r@) =~= heading_choice(None, *sections));
        },
        Some(secs) => {
            let ghost sv = section_views(secs@);
            let mut i: usize = 0;
            while i < secs.len() && i < 16
                invariant
                    sv == section_views(secs@),
                    i <= secs.len(),
                    i <= 16,
                    strings_view(r@) == sv.take(i as int).map_values(|p: (Seq<char>, Seq<char>)| p.0),
                decreases secs.len() - i,
            {
                let ghost before = r@;
                r.push(secs[i].heading.clone());
                proof {
                    assert(sv.take(i + 1) =~= sv.take(i as int).push(sv[i as int]));
                    assert(strings_view(r@) =~= strings_view(before).push(secs@[i as int].heading@));
                    assert(sv.take(i + 1).map_values(|p: (Seq<char>, Seq<char>)| p.0) =~= sv.take(
                        i as int,
                    ).map_values(|p: (Seq<char>, Seq<char>)| p.0).push(sv[i as int].0));
                }
                i = i + 1;
            }
        },
    }
    r
}

/// What enriching adds to a day's snapshot.
pub open spec fn enriched(
    before: Snapshot,
    after: Snapshot,
    date: Date,
    today: Date,
    path: Seq<char>,
    template: Option<String>,
    template_exists: bool,
    prev_content: Option<Seq<char>>,
    template_body: Option<Seq<char>>,
) -> bool {
    &&& after.obsidian_uri matches Some(u) && u@ == uri_of(path)
    &&& after.is_today == Some(ymd(date) == ymd(today))
    &&& after.carry_over_count == Some(
        match prev_content {
            Some(c) => open_items(parsed_todos(c)).len() as usize,
            None => 0usize,
        },
    )
    &&& match template {
        Some(name) => after.template_name == Some(name) && after.created_from_template == Some(
            template_exists && before.exists == Some(true),
        ),
        None => after.template_name == before.template_name && after.created_from_template
            == before.created_from_template,
    }
    &&& after.template_headings matches Some(h) && strings_view(h@) == heading_choice(
        template_body,
        before.sections,
    )
    &&& after.state == before.state && after.date == before.date && after.path == before.path
    &&& after.exists == before.exists && after.open_count == before.open_count
    &&& after.done_count == before.done_count && after.todos == before.todos
    &&& after.notes == before.notes && after.sections == before.sections
    &&& after.has_notes == before.has_notes && after.error_code == before.error_code
    &&& after.error == before.error
}

/// Add what the widget shows around a day's todos: the `obsidian://` URI of
/// `path`, whether the day is `today`, how many todos the previous day left
/// open (`prev_content` is that day's note, `None` when missing), the
/// configured template (`template_exists` tells whether its file exists,
/// `template_body` is its text when readable) and the quick headings.
pub fn enrich_snapshot(
    snap: &mut Snapshot,
    date: &Date,
    today: &Date,
    path: &str,
    config: &DailyNotesConfig,
    template_exists: bool,
    prev_content: Option<&str>,
    template_body: Option<&str>,
)
    ensures
        enriched(
            *old(snap),
            *final(snap),
            *date,
            *today,
            path@,
            config.template,
            template_exists,
            opt_view(prev_content),
            opt_view(template_body),
        ),
{
    snap.obsidian_uri = Some(crate::open::open_uri(path));
    snap.is_today = Some(date.year() == today.year() && date.month() == today.month() && date.day()
        == today.day());
    snap.carry_over_count = Some(
        match prev_content {
            Some(c) => crate::todos::open_todo_count(c),
            None => 0,
        },
    );
    match &config.template {
        Some(name) => {
            snap.template_name = Some(name.clone());
            let exists = match snap.exists {
                Some(e) => e,
                None => false,
            };
            snap.created_from_template = Some(template_exists && exists);
        },
        None => {},
    }
    let from_day = day_headings(&snap.sections);
    let heads = match template_body {
        Some(b) => {
            let t = crate::notes::h2_titles(b, 16);
            if t.len() > 0 {
                proof {
                    let hs = h2_sections(b@);
                    assert(strings_view(t@) =~= hs.take(
                        if hs.len() < 16 { hs.len() as int } else { 16 },
                    ).map_values(|p: (Seq<char>, Seq<char>)| p.0));
                }
                t
            } else {
                from_day
            }
        },
        None => from_day,
    };
    snap.template_headings = Some(heads);
}

/// The filter of the week and month grids: the given todo heading when it
/// is not blank, else `tasks`.
pub fn calendar_filter<'a>(filter: SnapshotFilter<'a>) -> (r: SnapshotFilter<'a>)
    ensures
        match opt_view(filter.todo_heading) {
            Some(h) if trim(h).len() > 0 => r == filter,
            _ => opt_view(r.todo_heading) == Some("tasks"@) && r.notes_heading == filter.notes_heading
                && r.notes_h2_count == filter.notes_h2_count,
        },
{
    match filter.todo_heading {
        Some(h) => {
            let t = crate::text::trim_chars(&str_chars(h));
            if t.len() > 0 {
                return filter;
            }
        },
        None => {},
    }
    SnapshotFilter { todo_heading: Some("tasks"), notes_heading: filter.notes_heading, notes_h2_count: filter.notes_h2_count }
}

/// The date chrono gives when it is valid, else `fallback`.
pub open spec fn or_date(t: Option<(i32, u32, u32)>, fallback: (i32, u32, u32)) -> (i32, u32, u32) {
    match t {
        Some((y, m, d)) if valid_ymd(y, m, d) => (y, m, d),
        _ => fallback,
    }
}

fn add_days_or(d: &Date, n: u64, fallback: &Date) -> (r: Date)
    ensures
        ymd(r) == or_date(days_after(d.y(), d.m(), d.d(), n), ymd(*fallback)),
        days_after(d.y(), d.m(), d.d(), n) is Some ==> days_between(d.y(), d.m(), d.d(), r.y(), r.m(), r.d())
            == n && weekday_of(r.y(), r.m(), r.d()) == (weekday_of(d.y(), d.m(), d.d()) + n) % 7,
{
    match d.checked_add_days(n) {
        Some(x) => x,
        None => *fallback,
    }
}

fn sub_days_or(d: &Date, n: u64, fallback: &Date) -> (r: Date)
    ensures
        ymd(r) == or_date(days_before(d.y(), d.m(), d.d(), n), ymd(*fallback)),
        days_before(d.y(), d.m(), d.d(), n) is Some ==> days_between(r.y(), r.m(), r.d(), d.y(), d.m(), d.d())
            == n && (weekday_of(r.y(), r.m(), r.d()) + n) % 7 == weekday_of(d.y(), d.m(), d.d()) % 7,
{
    match d.checked_sub_days(n) {
        Some(x) => x,
        None => *fallback,
    }
}

/// The Monday of the week holding `a` (`a` itself when chrono cannot step
/// back).
pub open spec fn week_monday(a: (i32, u32, u32)) -> (i32, u32, u32) {
    or_date(days_before(a.0, a.1, a.2, weekday_of(a.0, a.1, a.2) as u64), a)
}

/// Day `k` (Monday = 0) of the week holding `a`.
pub open spec fn week_day(a: (i32, u32, u32), k: int) -> (i32, u32, u32) {
    let m = week_monday(a);
    or_date(days_after(m.0, m.1, m.2, k as u64), m)
}

/// chrono can step back from `a` to the Monday of its week.
pub open spec fn monday_found(a: (i32, u32, u32)) -> bool {
    days_before(a.0, a.1, a.2, weekday_of(a.0, a.1, a.2) as u64) is Some
}

/// Monday to Sunday of the week holding `anchor`: when chrono can step back
/// to that Monday, the anchor lies `weekday` days after it, and each day it
/// can step to from there is `k` days after the Monday with weekday `k`.
pub fn week_dates(anchor: &Date) -> (r: Vec<Date>)
    ensures
        r.len() == 7,
        forall|k: int| 0 <= k < 7 ==> ymd(#[trigger] r@[k]) == week_day(ymd(*anchor), k),
        monday_found(ymd(*anchor)) ==> ({
            let m = week_monday(ymd(*anchor));
            days_between(m.0, m.1, m.2, anchor.y(), anchor.m(), anchor.d()) == weekday_of(
                anchor.y(),
                anchor.m(),
                anchor.d(),
            )
        }),
        forall|k: int|
            0 <= k < 7 && monday_found(ymd(*anchor)) && (#[trigger] days_after(
                week_monday(ymd(*anchor)).0,
                week_monday(ymd(*anchor)).1,
                week_monday(ymd(*anchor)).2,
                k as u64,
            )) is Some ==> weekday_of(r@[k].y(), r@[k].m(), r@[k].d()) == k && days_between(
                week_monday(ymd(*anchor)).0,
                week_monday(ymd(*anchor)).1,
                week_monday(ymd(*anchor)).2,
                r@[k].y(),
                r@[k].m(),
                r@[k].d(),
            ) == k,
{
    let from_mon = anchor.weekday_from_monday();
    let monday = sub_days_or(anchor, from_mon as u64, anchor);
    let ghost a = ymd(*anchor);
    proof {
        if monday_found(a) {
            assert((weekday_of(monday.y(), monday.m(), monday.d()) + from_mon) % 7 == from_mon % 7);
            assert(weekday_of(monday.y(), monday.m(), monday.d()) % 7 == 0) by (nonlinear_arith)
                requires
                    (weekday_of(monday.y(), monday.m(), monday.d()) + from_mon) % 7 == from_mon % 7,
                    from_mon < 7,
            ;
        }
    }
    let mut r: Vec<Date> = Vec::new();
    let mut k: u64 = 0;
    while k < 7
        invariant
            k <= 7,
            a == ymd(*anchor),
            ymd(monday) == week_monday(a),
            monday_found(a) ==> weekday_of(monday.y(), monday.m(), monday.d()) % 7 == 0,
            r.len() == k,
            forall|j: int| 0 <= j < k ==> ymd(#[trigger] r@[j]) == week_day(a, j),
            forall|j: int|
                0 <= j < k && monday_found(a) && (#[trigger] days_after(
                    week_monday(a).0,
                    week_monday(a).1,
                    week_monday(a).2,
                    j as u64,
                )) is Some ==> weekday_of(r@[j].y(), r@[j].m(), r@[j].d()) == j && days_between(
                    week_monday(a).0,
                    week_monday(a).1,
                    week_monday(a).2,
                    r@[j].y(),
                    r@[j].m(),
                    r@[j].d(),
                ) == j,
        decreases 7 - k,
    {
        let d = add_days_or(&monday, k, &monday);
        proof {
            let w = weekday_of(monday.y(), monday.m(), monday.d());
            if monday_found(a) && days_after(monday.y(), monday.m(), monday.d(), k) is Some {
                assert(weekday_of(d.y(), d.m(), d.d()) == (w + k) % 7);
                assert((w + k) % 7 == k) by (nonlinear_arith)
                    requires
                        w % 7 == 0,
                        k < 7,
                ;
            }
        }
        let ghost before = r@;
        r.push(d);
        proof {
            assert(r@[k as int] == d);
            assert forall|j: int| 0 <= j < k + 1 implies ymd(#[trigger] r@[j]) == week_day(a, j) by {
                if j < k {
                    assert(r@[j] == before[j]);
                }
            }
            assert forall|j: int|
                0 <= j < k + 1 && monday_found(a) && (#[trigger] days_after(
                    week_monday(a).0,
                    week_monday(a).1,
                    week_monday(a).2,
                    j as u64,
                )) is Some implies weekday_of(r@[j].y(), r@[j].m(), r@[j].d()) == j && days_between(
                week_monday(a).0,
                week_monday(a).1,
                week_monday(a).2,
                r@[j].y(),
                r@[j].m(),
                r@[j].d(),
            ) == j by {
                if j < k {
                    assert(r@[j] == before[j]);
                }
            }
        }
        k = k + 1;
    }
    r
}

/// The first of the month holding `a` (or `a` when that is no date).
pub open spec fn month_start(a: (i32, u32, u32)) -> (i32, u32, u32) {
    if valid_ymd(a.0, a.1, 1) {
        (a.0, a.1, 1)
    } else {
        a
    }
}

/// The first of the month after the one that starts at `s` (or `s`).
pub open spec fn next_month_start(s: (i32, u32, u32)) -> (i32, u32, u32) {
    if s.1 == 12 {
        if s.0 < i32::MAX && valid_ymd((s.0 + 1) as i32, 1, 1) {
            ((s.0 + 1) as i32, 1, 1)
        } else {
            s
        }
    } else if valid_ymd(s.0, (s.1 + 1) as u32, 1) {
        (s.0, (s.1 + 1) as u32, 1)
    } else {
        s
    }
}

/// First and last day of the month grid around `a`: a week before the first
/// of the month to two weeks after its last day.
pub open spec fn month_bounds(a: (i32, u32, u32)) -> ((i32, u32, u32), (i32, u32, u32)) {
    let start = month_start(a);
    let next = next_month_start(start);
    let end = or_date(days_before(next.0, next.1, next.2, 1), start);
    let first = or_date(days_before(start.0, start.1, start.2, 7), start);
    let last = or_date(days_after(end.0, end.1, end.2, 14), end);
    (first, last)
}

/// Number of days in the month grid around `a`.
pub open spec fn month_span(a: (i32, u32, u32)) -> int {
    let (first, last) = month_bounds(a);
    let n = days_between(first.0, first.1, first.2, last.0, last.1, last.2);
    (if n > 0 { n as int } else { 0 }) + 1
}

/// Day `k` of the month grid around `a`.
pub open spec fn month_day(a: (i32, u32, u32), k: int) -> (i32, u32, u32) {
    let first = month_bounds(a).0;
    or_date(days_after(first.0, first.1, first.2, k as u64), first)
}

/// Every day of the month holding `anchor`, padded with the week before and
/// the two weeks after, so a six-week grid can draw dots on its leading and
/// trailing cells.
pub fn month_dates(anchor: &Date) -> (r: Vec<Date>)
    ensures
        r.len() == month_span(ymd(*anchor)),
        forall|k: int| 0 <= k < r.len() ==> ymd(#[trigger] r@[k]) == month_day(ymd(*anchor), k),
{
    let start = match Date::from_ymd(anchor.year(), anchor.month(), 1) {
        Some(d) => d,
        None => *anchor,
    };
    let next = if start.month() == 12 {
        match start.year().checked_add(1) {
            Some(y) => Date::from_ymd(y, 1, 1),
            None => None,
        }
    } else {
        Date::from_ymd(start.year(), start.month() + 1, 1)
    };
    let next_month = match next {
        Some(d) => d,
        None => start,
    };
    let end = sub_days_or(&next_month, 1, &start);
    let first = sub_days_or(&start, 7, &start);
    let last = add_days_or(&end, 14, &end);
    let n = first.days_until(&last);
    let span: u64 = (if n > 0 { n as u64 } else { 0 }) + 1;
    let mut r: Vec<Date> = Vec::new();
    let mut k: u64 = 0;
    while k < span
        invariant
            k <= span,
            span == month_span(ymd(*anchor)),
            ymd(first) == month_bounds(ymd(*anchor)).0,
            r.len() == k,
            forall|j: int| 0 <= j < k ==> ymd(#[trigger] r@[j]) == month_day(ymd(*anchor), j),
        decreases span - k,
    {
        r.push(add_days_or(&first, k, &first));
        k = k + 1;
    }
    r
}

/// The day with number `k` is `t` when `t` is a day chrono holds with that
/// number.
proof fn lemma_numbered_found(t: (i32, u32, u32), k: int)
    requires
        numbered_as(t, k),
    ensures
        date_numbered(k) matches Some(u) && numbered_as(u, k),
{
}

/// Within four weeks of a day whose neighbouring years chrono holds, every
/// day number is that of a day chrono holds.
proof fn lemma_day_nearby(a: (i32, u32, u32), j: int)
    requires
        valid_ymd(a.0, a.1, a.2),
        year_in_range(a.0 - 1),
        year_in_range(a.0 + 1),
        -27 <= j <= 27,
    ensures
        date_numbered(day_number(a.0 as int, a.1 as int, a.2 as int) + j) matches Some(u) && numbered_as(
            u,
            day_number(a.0 as int, a.1 as int, a.2 as int) + j,
        ),
{
    let y = a.0 as int;
    let m = a.1 as int;
    let d = a.2 as int;
    let k = day_number(y, m, d) + j;
    let len = month_length(y, m);
    if 1 <= d + j <= len {
        let w = (a.0, a.1, (d + j) as u32);
        assert(numbered_as(w, k));
        lemma_numbered_found(w, k);
    } else if d + j < 1 {
        let (py, pm) = prev_month(y, m);
        crate::format::lemma_month_step(py, pm);
        assert(next_month(py, pm) == (y, m));
        let plen = month_length(py, pm);
        let w = (py as i32, pm as u32, (plen + d + j) as u32);
        assert(numbered_as(w, k));
        lemma_numbered_found(w, k);
    } else {
        let (ny, nm) = next_month(y, m);
        crate::format::lemma_month_step(y, m);
        let w = (ny as i32, nm as u32, (d + j - len) as u32);
        assert(numbered_as(w, k));
        lemma_numbered_found(w, k);
    }
}

/// The week of a day (whose neighbouring years chrono holds) runs from
/// Monday to Sunday: its first day lies `weekday` days before the day, and
/// day `k` of it is `k` days after that Monday, with weekday `k`.
pub proof fn law_week_runs_monday_to_sunday(a: (i32, u32, u32))
    requires
        valid_ymd(a.0, a.1, a.2),
        year_in_range(a.0 - 1),
        year_in_range(a.0 + 1),
    ensures
        ({
            let mon = week_monday(a);
            day_number(mon.0 as int, mon.1 as int, mon.2 as int) == day_number(
                a.0 as int,
                a.1 as int,
                a.2 as int,
            ) - weekday_of(a.0, a.1, a.2)
        }),
        forall|k: int|
            0 <= k < 7 ==> weekday_of(#[trigger] week_day(a, k).0, week_day(a, k).1, week_day(a, k).2)
                == k && day_number(week_day(a, k).0 as int, week_day(a, k).1 as int, week_day(a, k).2 as int)
                == day_number(a.0 as int, a.1 as int, a.2 as int) - weekday_of(a.0, a.1, a.2) + k,
{
    let x = day_number(a.0 as int, a.1 as int, a.2 as int);
    let w = weekday_of(a.0, a.1, a.2) as int;
    assert(w == (x + 2) % 7);
    lemma_day_nearby(a, -w);
    let mon = week_monday(a);
    assert(day_number(mon.0 as int, mon.1 as int, mon.2 as int) == x - w);
    assert forall|k: int| 0 <= k < 7 implies weekday_of(
        #[trigger] week_day(a, k).0,
        week_day(a, k).1,
        week_day(a, k).2,
    ) == k && day_number(week_day(a, k).0 as int, week_day(a, k).1 as int, week_day(a, k).2 as int)
        == x - w + k by {
        lemma_day_nearby(a, k - w);
        assert(days_after(mon.0, mon.1, mon.2, k as u64) == date_numbered(x - w + k));
        let t = week_day(a, k);
        assert(day_number(t.0 as int, t.1 as int, t.2 as int) == x - w + k);
        vstd::arithmetic::div_mod::lemma_fundamental_div_mod(x + 2, 7);
        assert((x - w + k + 2) % 7 == k) by (nonlinear_arith)
            requires
                x + 2 == 7 * ((x + 2) / 7) + w,
                0 <= k < 7,
        {
            vstd::arithmetic::div_mod::lemma_mod_multiples_vanish((x + 2) / 7, k, 7);
            vstd::arithmetic::div_mod::lemma_small_mod(k as nat, 7);
        }
    }
}

/// The month grid around a date holds the month's days and three weeks
/// more (the week before the first, the two weeks after the last), for a
/// month whose neighbouring years chrono still holds.
pub proof fn law_month_grid_length(a: (i32, u32, u32))
    requires
        valid_ymd(a.0, a.1, a.2),
        year_in_range(a.0 - 1),
        year_in_range(a.0 + 1),
    ensures
        month_span(a) == month_length(a.0 as int, a.1 as int) + 21,
{
    let y = a.0 as int;
    let m = a.1 as int;
    let len = month_length(y, m);
    let start = month_start(a);
    assert(valid_ymd(a.0, a.1, 1));
    assert(start == (a.0, a.1, 1u32));
    let (ny, nm) = next_month(y, m);
    let (py, pm) = prev_month(y, m);
    let next = next_month_start(start);
    assert(valid_ymd(ny as i32, nm as u32, 1));
    assert(next == (ny as i32, nm as u32, 1u32));
    let s0 = day_number(y, m, 1);
    crate::format::lemma_month_step(y, m);
    crate::format::lemma_month_step(py, pm);
    assert(next_month(py, pm) == (y, m));
    // the last day of the month
    let last_day = (a.0, a.1, len as u32);
    assert(numbered_as(last_day, s0 + len - 1));
    lemma_numbered_found(last_day, s0 + len - 1);
    assert(days_before(next.0, next.1, next.2, 1) == date_numbered(s0 + len - 1));
    let e = or_date(days_before(next.0, next.1, next.2, 1), start);
    assert(day_number(e.0 as int, e.1 as int, e.2 as int) == s0 + len - 1);
    // a week before the first
    let plen = month_length(py, pm);
    let week_before = (py as i32, pm as u32, (plen - 6) as u32);
    assert(numbered_as(week_before, s0 - 7));
    lemma_numbered_found(week_before, s0 - 7);
    let f = or_date(days_before(start.0, start.1, start.2, 7), start);
    assert(day_number(f.0 as int, f.1 as int, f.2 as int) == s0 - 7);
    // two weeks after the last
    let fortnight = (ny as i32, nm as u32, 14u32);
    assert(numbered_as(fortnight, s0 + len + 13));
    lemma_numbered_found(fortnight, s0 + len + 13);
    let l = or_date(days_after(e.0, e.1, e.2, 14), e);
    assert(day_number(l.0 as int, l.1 as int, l.2 as int) == s0 + len + 13);
    assert(month_bounds(a) == (f, l));
    assert(days_between(f.0, f.1, f.2, l.0, l.1, l.2) == len + 20);
}

/// What the grid shows for `date`, from the day's snapshot.
pub open spec fn summarizes(s: DaySummary, date: Date, snap: Snapshot, today: Date) -> bool {
    &&& s.date@ == iso_text(date.y(), date.m(), date.d())
    &&& s.open_count == match snap.open_count {
        Some(n) => n,
        None => 0,
    }
    &&& s.done_count == match snap.done_count {
        Some(n) => n,
        None => 0,
    }
    &&& s.exists == match snap.exists {
        Some(e) => e,
        None => false,
    }
    &&& s.is_today == (ymd(date) == ymd(today))
    &&& s.has_notes == has_body_line(
        match snap.notes {
            Some(n) => n@,
            None => Seq::empty(),
        },
    )
}

/// One cell of the week or month grid.
pub fn day_summary(date: &Date, snap: &Snapshot, today: &Date) -> (s: DaySummary)
    ensures
        summarizes(s, *date, *snap, *today),
{
    let notes = match &snap.notes {
        Some(n) => n.clone(),
        None => String::new(),
    };
    DaySummary {
        date: date.iso(),
        open_count: match snap.open_count {
            Some(n) => n,
            None => 0,
        },
        done_count: match snap.done_count {
            Some(n) => n,
            None => 0,
        },
        exists: match snap.exists {
            Some(e) => e,
            None => false,
        },
        is_today: date.year() == today.year() && date.month() == today.month() && date.day()
            == today.day(),
        has_notes: crate::notes::has_journal_body(notes.as_str()),
    }
}

/// The grid of `days` (each date with its snapshot), in order.
pub fn calendar_summary(days: &Vec<(Date, Snapshot)>, today: &Date) -> (w: WeekSummary)
    ensures
        w.state == State::Ready,
        w.error_code is None && w.error is None,
        w.days matches Some(v) && v.len() == days.len() && forall|k: int|
            0 <= k < v.len() ==> summarizes(#[trigger] v@[k], days@[k].0, days@[k].1, *today),
{
    let mut v: Vec<DaySummary> = Vec::new();
    let mut k: usize = 0;
    while k < days.len()
        invariant
            k <= days.len(),
            v.len() == k,
            forall|j: int| 0 <= j < k ==> summarizes(#[trigger] v@[j], days@[j].0, days@[j].1, *today),
        decreases days.len() - k,
    {
        v.push(day_summary(&days[k].0, &days[k].1, today));
        k = k + 1;
    }
    WeekSummary { state: State::Ready, days: Some(v), error_code: None, error: None }
}

/// The change key of a watched snapshot: its JSON `body`, prefixed for an
/// existing note by `ok:`, its path, modification time (ms) and length, so
/// a rewrite that leaves the JSON unchanged is still seen.
pub fn snapshot_key(snap: &Snapshot, body: &str, mtime_ms: u128, len: u64) -> (r: String)
    ensures
        r@ == match (snap.path, snap.exists) {
            (Some(p), Some(true)) => "ok:"@ + p@ + ":"@ + crate::format::digits(mtime_ms as nat) + ":"@
                + crate::format::digits(len as nat) + ":"@ + body@,
            _ => body@,
        },
{
    match (&snap.path, snap.exists) {
        (Some(p), Some(true)) => {
            let mut k = str_chars("ok:");
            crate::text::extend_chars(&mut k, &str_chars(p.as_str()));
            crate::text::extend_chars(&mut k, &str_chars(":"));
            crate::text::extend_chars(&mut k, &crate::format::decimal_wide(mtime_ms));
            crate::text::extend_chars(&mut k, &str_chars(":"));
            crate::text::extend_chars(&mut k, &crate::format::decimal(len));
            crate::text::extend_chars(&mut k, &str_chars(":"));
            crate::text::extend_chars(&mut k, &str_chars(body));
            crate::text::chars_string(&k)
        },
        _ => String::from_str(body),
    }
}

} // verus!
