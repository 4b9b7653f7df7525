//! Parse and edit markdown checkbox todos in a daily note.
use vstd::prelude::*;
use crate::config::VaultError;
use crate::patterns::{
    checkbox_captures, checkbox_match, heading_captures, heading_match, is_tasks_heading,
    lead_hashes, lowercase, lowercase_chars, tasks_heading_matches, CheckboxParts, CheckboxSpec,
};
use crate::status::{todo_views, TodoItem, TodoView};
use crate::text::{
    all_single, chars_string, extend_chars, join_all, join_lines, lines, str_chars, str_lines,
    trim, trim_chars, views,
};

verus! {

/// Number of occurrences of `c` in `s`.
pub open spec fn count_char(s: Seq<char>, c: char) -> nat
    decreases s.len(),
{
    if s.len() == 0 {
        0
    } else {
        count_char(s.drop_last(), c) + if s.last() == c {
            1nat
        } else {
            0nat
        }
    }
}

/// Indentation levels of a checkbox prefix: every tab is one level, every
/// two spaces one level.
pub open spec fn indent_level_of(indent: Seq<char>) -> nat {
    count_char(indent, '\t') + count_char(indent, ' ') / 2
}

pub proof fn lemma_count_char_le(s: Seq<char>, c: char)
    ensures
        count_char(s, c) <= s.len(),
    decreases s.len(),
{
    if s.len() > 0 {
        lemma_count_char_le(s.drop_last(), c);
    }
}

pub proof fn lemma_count_two(s: Seq<char>, a: char, b: char)
    requires
        a != b,
    ensures
        count_char(s, a) + count_char(s, b) <= s.len(),
    decreases s.len(),
{
    if s.len() > 0 {
        lemma_count_two(s.drop_last(), a, b);
    }
}

/// Count indentation levels of a checkbox prefix: every tab is one level,
/// every two spaces one level (matches Obsidian's list indentation).
pub fn indent_level(indent: &Vec<char>) -> (n: usize)
    ensures
        n == indent_level_of(indent@),
{
    let mut tabs: usize = 0;
    let mut spaces: usize = 0;
    let mut i: usize = 0;
    while i < indent.len()
        invariant
            i <= indent.len(),
            tabs == count_char(indent@.take(i as int), '\t'),
            spaces == count_char(indent@.take(i as int), ' '),
        decreases indent.len() - i,
    {
        proof {
            assert(indent@.take(i + 1).drop_last() =~= indent@.take(i as int));
            lemma_count_char_le(indent@.take(i as int), '\t');
            lemma_count_char_le(indent@.take(i as int), ' ');
        }
        if indent[i] == '\t' {
            tabs = tabs + 1;
        } else if indent[i] == ' ' {
            spaces = spaces + 1;
        }
        i = i + 1;
    }
    assert(indent@.take(indent.len() as int) =~= indent@);
    proof {
        lemma_count_two(indent@, '\t', ' ');
    }
    tabs + spaces / 2
}

/// Indices of the checkbox lines among the first `n` lines, in order.
pub open spec fn checkbox_indices(ls: Seq<Seq<char>>, n: int) -> Seq<int>
    decreases n,
{
    if n <= 0 {
        Seq::<int>::empty()
    } else if checkbox_match(ls[n - 1]) is Some {
        checkbox_indices(ls, n - 1).push(n - 1)
    } else {
        checkbox_indices(ls, n - 1)
    }
}

pub proof fn lemma_checkbox_indices(ls: Seq<Seq<char>>, n: int)
    requires
        0 <= n <= ls.len(),
    ensures
        forall|k: int|
            0 <= k < checkbox_indices(ls, n).len() ==> 0 <= #[trigger] checkbox_indices(ls, n)[k]
                < n && checkbox_match(ls[checkbox_indices(ls, n)[k]]) is Some,
        forall|a: int, b: int|
            0 <= a < b < checkbox_indices(ls, n).len() ==> checkbox_indices(ls, n)[a]
                < checkbox_indices(ls, n)[b],
    decreases n,
{
    if n > 0 {
        lemma_checkbox_indices(ls, n - 1);
        let p = checkbox_indices(ls, n - 1);
        let q = checkbox_indices(ls, n);
        if checkbox_match(ls[n - 1]) is Some {
            assert(q == p.push(n - 1));
            assert forall|k: int| 0 <= k < q.len() implies 0 <= #[trigger] q[k] < n
                && checkbox_match(ls[q[k]]) is Some by {
                if k < p.len() {
                    assert(q[k] == p[k]);
                }
            }
            assert forall|a: int, b: int| 0 <= a < b < q.len() implies q[a] < q[b] by {
                assert(q[a] == p[a]);
                if b < p.len() {
                    assert(q[b] == p[b]);
                }
            }
        }
    }
}

/// The parts of the checkbox line at `idx`.
pub open spec fn parts_at(ls: Seq<Seq<char>>, idx: int) -> CheckboxSpec {
    checkbox_match(ls[idx])->0
}

/// Normalized depths for raw indentation levels: the first is 0, each
/// later one is its raw level capped at one more than the depth before it.
pub open spec fn depths_of(raws: Seq<nat>) -> Seq<nat>
    decreases raws.len(),
{
    if raws.len() == 0 {
        Seq::<nat>::empty()
    } else {
        let p = depths_of(raws.drop_last());
        p.push(
            if p.len() == 0 {
                0nat
            } else if raws.last() <= p.last() + 1 {
                raws.last()
            } else {
                (p.last() + 1) as nat
            },
        )
    }
}

pub proof fn lemma_depths_len(raws: Seq<nat>)
    ensures
        depths_of(raws).len() == raws.len(),
    decreases raws.len(),
{
    if raws.len() > 0 {
        lemma_depths_len(raws.drop_last());
    }
}

pub proof fn lemma_depths_prefix(raws: Seq<nat>, k: int)
    requires
        0 <= k <= raws.len(),
    ensures
        depths_of(raws.take(k)) == depths_of(raws).take(k),
    decreases raws.len() - k,
{
    lemma_depths_len(raws);
    if k < raws.len() {
        lemma_depths_prefix(raws.drop_last(), k);
        assert(raws.drop_last().take(k) =~= raws.take(k));
        lemma_depths_len(raws.drop_last());
        assert(depths_of(raws).take(k) =~= depths_of(raws.drop_last()).take(k));
    } else {
        assert(raws.take(k) =~= raws);
        assert(depths_of(raws).take(k) =~= depths_of(raws));
    }
}

/// The latest index `j < k` whose depth is below `d`.
pub open spec fn latest_below(depths: Seq<nat>, k: int, d: nat) -> Option<int>
    decreases k,
{
    if k <= 0 {
        None
    } else if depths[k - 1] < d {
        Some(k - 1)
    } else {
        latest_below(depths, k - 1, d)
    }
}

pub proof fn lemma_latest_below(depths: Seq<nat>, k: int, d: nat)
    requires
        0 <= k <= depths.len(),
    ensures
        match latest_below(depths, k, d) {
            Some(j) => 0 <= j < k && depths[j] < d && forall|i: int|
                j < i < k ==> #[trigger] depths[i] >= d,
            None => forall|i: int| 0 <= i < k ==> #[trigger] depths[i] >= d,
        },
    decreases k,
{
    if k > 0 && depths[k - 1] >= d {
        lemma_latest_below(depths, k - 1, d);
    }
}

/// Raw indentation level of each checkbox line, in order.
pub open spec fn raw_levels(ls: Seq<Seq<char>>) -> Seq<nat> {
    checkbox_indices(ls, ls.len() as int).map_values(
        |idx: int| indent_level_of(parts_at(ls, idx).indent),
    )
}

/// The todos of a note: every checkbox line (fenced code is not skipped),
/// with its 1-based line, whether it is checked, its text, its normalized
/// depth and the line of the nearest earlier todo of smaller depth.
pub open spec fn parsed_todos(content: Seq<char>) -> Seq<TodoView> {
    let ls = lines(content);
    let idxs = checkbox_indices(ls, ls.len() as int);
    let ds = depths_of(raw_levels(ls));
    Seq::new(
        idxs.len(),
        |k: int|
            TodoView {
                line: idxs[k] + 1,
                checked: parts_at(ls, idxs[k]).mark != ' ',
                text: parts_at(ls, idxs[k]).text,
                depth: ds[k] as int,
                parent_line: match latest_below(ds, k, ds[k]) {
                    Some(j) => Some(idxs[j] + 1),
                    None => None,
                },
            },
    )
}

/// Todo ordinals of the open ancestors: entry `d` is the latest todo before
/// `k` of depth at most `d`.
pub open spec fn stack_ok(depths: Seq<nat>, k: int, stack: Seq<usize>) -> bool {
    &&& (k == 0 ==> stack.len() == 0)
    &&& (k > 0 ==> stack.len() == depths[k - 1] + 1)
    &&& forall|d: int|
        0 <= d < stack.len() ==> latest_below(depths, k, (d + 1) as nat) == Some(
            #[trigger] stack[d] as int,
        )
}

/// Parse all checkbox todos from note body. Line numbers are 1-based.
///
/// Nested list items are normalized: each todo's `depth` is at most one level
/// deeper than the previous todo's, and `parent_line` points to the nearest
/// preceding todo at a shallower depth. An indented first todo has no parent
/// and is treated as top-level.
pub fn parse_todos(content: &str) -> (r: Vec<TodoItem>)
    ensures
        todo_views(r@) == parsed_todos(content@),
{
    let c = str_chars(content);
    parse_todos_chars(&c)
}

pub fn parse_todos_chars(content: &Vec<char>) -> (r: Vec<TodoItem>)
    ensures
        todo_views(r@) == parsed_todos(content@),
{
    let ls = crate::text::chars_lines(content);
    let ghost v = views(ls@);
    let ghost raws = raw_levels(v);
    let ghost all_depths = depths_of(raws);
    let ghost idxs = checkbox_indices(v, v.len() as int);
    proof {
        lemma_depths_len(raws);
        lemma_checkbox_indices(v, v.len() as int);
    }
    let mut todos: Vec<TodoItem> = Vec::new();
    let mut stack: Vec<usize> = Vec::new();
    let mut last_depth: usize = 0;
    let mut i: usize = 0;
    while i < ls.len()
        invariant
            v == views(ls@),
            v == lines(content@),
            all_single(v),
            raws == raw_levels(v),
            all_depths == depths_of(raws),
            idxs == checkbox_indices(v, v.len() as int),
            all_depths.len() == raws.len() == idxs.len(),
            forall|k: int|
                0 <= k < idxs.len() ==> 0 <= #[trigger] idxs[k] < v.len() && checkbox_match(
                    v[idxs[k]],
                ) is Some,
            i <= ls.len(),
            checkbox_indices(v, i as int) == idxs.take(todos.len() as int),
            todos.len() <= idxs.len(),
            todo_views(todos@) == parsed_todos(content@).take(todos.len() as int),
            stack_ok(all_depths, todos.len() as int, stack@),
            todos.len() > 0 ==> last_depth == all_depths[todos.len() - 1],
            todos.len() <= i,
        decreases ls.len() - i,
    {
        assert(v[i as int] == ls@[i as int]@);
        assert(crate::notes::single_line_at(v, i as int));
        proof {
            lemma_checkbox_indices(v, i + 1);
        }
        match checkbox_captures(&ls[i]) {
            None => {
                assert(checkbox_indices(v, i + 1) == checkbox_indices(v, i as int));
            },
            Some(caps) => {
                let k = todos.len();
                proof {
                    assert(checkbox_indices(v, i + 1) == checkbox_indices(v, i as int).push(
                        i as int,
                    ));
                    lemma_checkbox_indices_full(v, i as int, idxs, k as int);
                }
                let ghost prefix_depths = all_depths.take(k as int);
                let raw = indent_level(&caps.indent);
                proof {
                    assert(raws[k as int] == raw as nat);
                    lemma_depths_prefix(raws, k + 1);
                    assert(raws.take(k + 1).drop_last() =~= raws.take(k as int));
                    lemma_depths_prefix(raws, k as int);
                    lemma_depths_len(raws.take(k as int));
                }
                let depth: usize = if stack.len() == 0 {
                    0
                } else if raw <= last_depth + 1 {
                    raw
                } else {
                    last_depth + 1
                };
                proof {
                    if k > 0 {
                        assert(stack.len() > 0);
                        assert(prefix_depths.last() == all_depths[k - 1]);
                    }
                    assert(depths_of(raws.take(k + 1)) == prefix_depths.push(depth as nat));
                    assert(all_depths.take(k + 1)[k as int] == all_depths[k as int]);
                    assert(all_depths[k as int] == depth as nat);
                }
                let ghost old_stack = stack@;
                while stack.len() > depth
                    invariant
                        depth <= stack.len() <= old_stack.len(),
                        stack@ == old_stack.take(stack.len() as int),
                    decreases stack.len(),
                {
                    stack.pop();
                    assert(stack@ =~= old_stack.take(stack.len() as int));
                }
                proof {
                    if k > 0 {
                        assert(depth <= old_stack.len());
                    }
                    assert(stack.len() == depth);
                }
                let parent_line: Option<usize> = if depth == 0 {
                    None
                } else {
                    let j = stack[depth - 1];
                    proof {
                        assert(latest_below(all_depths, k as int, depth as nat) == Some(j as int));
                        lemma_latest_below(all_depths, k as int, depth as nat);
                    }
                    Some(todos[j].line)
                };
                proof {
                    lemma_latest_below(all_depths, k as int, depth as nat);
                    if depth == 0 {
                        assert(latest_below(all_depths, k as int, 0) is None);
                    }
                }
                let item = TodoItem {
                    line: i + 1,
                    checked: caps.mark != ' ',
                    text: chars_string(&caps.text),
                    depth,
                    parent_line,
                };
                let ghost before = todos@;
                todos.push(item);
                stack.push(k);
                last_depth = depth;
                proof {
                    let pt = parsed_todos(content@);
                    assert(idxs[k as int] == i);
                    assert(caps.view() == parts_at(v, i as int));
                    assert(pt[k as int].line == item.view().line);
                    assert(pt[k as int].checked == item.view().checked);
                    assert(pt[k as int].text == item.view().text);
                    assert(pt[k as int].depth == item.view().depth);
                    if depth > 0 {
                        let j = stack@[depth - 1] as int;
                        assert(todo_views(before)[j] == pt[j]);
                        assert(pt[k as int].parent_line == item.view().parent_line);
                    }
                    assert(pt[k as int].parent_line == item.view().parent_line);
                    assert(pt[k as int] == item.view());
                    assert(todo_views(todos@) =~= todo_views(before).push(item.view()));
                    assert(pt.take(k + 1) =~= pt.take(k as int).push(pt[k as int]));
                    assert(idxs.take(k + 1) =~= idxs.take(k as int).push(i as int));
                    assert forall|d: int| 0 <= d < stack.len() implies latest_below(
                        all_depths,
                        k + 1,
                        (d + 1) as nat,
                    ) == Some(#[trigger] stack@[d] as int) by {
                        if d < depth {
                            assert(stack@[d] == old_stack[d]);
                        }
                    }
                }
            },
        }
        i = i + 1;
    }
    proof {
        lemma_checkbox_indices(v, v.len() as int);
        assert(idxs.take(todos.len() as int).len() == idxs.len());
        assert(parsed_todos(content@).take(todos.len() as int) =~= parsed_todos(content@));
    }
    todos
}

/// A checkbox line found at `i` while `k` earlier ones were seen is the
/// `k`-th checkbox line.
pub proof fn lemma_checkbox_indices_full(ls: Seq<Seq<char>>, i: int, idxs: Seq<int>, k: int)
    requires
        0 <= i < ls.len(),
        idxs == checkbox_indices(ls, ls.len() as int),
        checkbox_indices(ls, i) == idxs.take(k),
        0 <= k <= idxs.len(),
        checkbox_match(ls[i]) is Some,
    ensures
        k < idxs.len(),
        idxs[k] == i,
{
    lemma_checkbox_indices_mono(ls, i + 1, ls.len() as int);
    let c1 = checkbox_indices(ls, i + 1);
    assert(c1 == checkbox_indices(ls, i).push(i));
    assert(c1.len() == k + 1);
    assert(c1 == idxs.take(k + 1));
    assert(c1[k] == i);
    assert(idxs.take(k + 1)[k] == idxs[k]);
}

/// The checkbox indices of a shorter prefix are a prefix of those of a
/// longer one.
pub proof fn lemma_checkbox_indices_mono(ls: Seq<Seq<char>>, m: int, n: int)
    requires
        0 <= m <= n <= ls.len(),
    ensures
        checkbox_indices(ls, m).len() <= checkbox_indices(ls, n).len(),
        checkbox_indices(ls, m) == checkbox_indices(ls, n).take(checkbox_indices(ls, m).len() as int),
    decreases n - m,
{
    if m < n {
        lemma_checkbox_indices_mono(ls, m, n - 1);
        let p = checkbox_indices(ls, n - 1);
        let q = checkbox_indices(ls, n);
        let a = checkbox_indices(ls, m);
        if checkbox_match(ls[n - 1]) is Some {
            assert(q == p.push(n - 1));
            assert(q.take(a.len() as int) =~= p.take(a.len() as int));
        }
    } else {
        assert(checkbox_indices(ls, m).take(checkbox_indices(ls, m).len() as int)
            =~= checkbox_indices(ls, m));
    }
}

pub proof fn lemma_depths_steps(raws: Seq<nat>)
    ensures
        depths_of(raws).len() == raws.len(),
        raws.len() > 0 ==> depths_of(raws)[0] == 0,
        forall|k: int|
            0 < k < raws.len() ==> #[trigger] depths_of(raws)[k] <= depths_of(raws)[k - 1] + 1,
    decreases raws.len(),
{
    lemma_depths_len(raws);
    if raws.len() > 0 {
        lemma_depths_steps(raws.drop_last());
        let p = depths_of(raws.drop_last());
        let q = depths_of(raws);
        assert forall|k: int| 0 < k < raws.len() implies #[trigger] q[k] <= q[k - 1] + 1 by {
            if k < raws.len() - 1 {
                assert(q[k] == p[k] && q[k - 1] == p[k - 1]);
            }
        }
        if raws.len() > 1 {
            assert(q[0] == p[0]);
        }
    }
}

/// Nesting of parsed todos: the first todo is top-level, each todo is at
/// most one level deeper than the one before it, a todo has a parent exactly
/// when it is nested, and the parent is the nearest earlier todo one level
/// up, with no shallower todo in between.
pub proof fn law_todo_nesting(content: Seq<char>)
    ensures
        ({
            let t = parsed_todos(content);
            &&& t.len() > 0 ==> t[0].depth == 0
            &&& forall|k: int| 0 < k < t.len() ==> #[trigger] t[k].depth <= t[k - 1].depth + 1
            &&& forall|k: int|
                0 <= k < t.len() ==> (#[trigger] t[k].parent_line is None <==> t[k].depth == 0)
            &&& forall|k: int|
                0 <= k < t.len() && #[trigger] t[k].parent_line is Some ==> exists|j: int|
                    0 <= j < k && t[j].line == t[k].parent_line->0 && t[j].depth + 1 == t[k].depth
                        && forall|i: int| j < i < k ==> #[trigger] t[i].depth >= t[k].depth
        }),
{
    let ls = lines(content);
    let idxs = checkbox_indices(ls, ls.len() as int);
    let raws = raw_levels(ls);
    let ds = depths_of(raws);
    let t = parsed_todos(content);
    lemma_depths_steps(raws);
    assert forall|k: int| 0 < k < t.len() implies #[trigger] t[k].depth <= t[k - 1].depth + 1 by {
        assert(ds[k] <= ds[k - 1] + 1);
    }
    assert forall|k: int| 0 <= k < t.len() implies (#[trigger] t[k].parent_line is None <==> t[
        k
    ].depth == 0) by {
        lemma_latest_below(ds, k, ds[k]);
        if ds[k] > 0 && latest_below(ds, k, ds[k]) is None {
            assert(k > 0);
            assert(ds[0] >= ds[k]);
        }
    }
    assert forall|k: int| 0 <= k < t.len() && #[trigger] t[k].parent_line is Some implies exists|
        j: int,
    |
        0 <= j < k && t[j].line == t[k].parent_line->0 && t[j].depth + 1 == t[k].depth && forall|
            i: int,
        | j < i < k ==> #[trigger] t[i].depth >= t[k].depth by {
        lemma_latest_below(ds, k, ds[k]);
        let j = latest_below(ds, k, ds[k])->0;
        if j + 1 < k {
            assert(ds[j + 1] >= ds[k]);
            assert(ds[j + 1] <= ds[j] + 1);
        } else {
            assert(ds[k] <= ds[k - 1] + 1);
        }
        assert(t[j].depth + 1 == t[k].depth);
        assert forall|i: int| j < i < k implies #[trigger] t[i].depth >= t[k].depth by {
            assert(ds[i] >= ds[k]);
        }
    }
}

/// `j` with a final newline restored when `content` had one and `j` lost it.
pub open spec fn keep_final_nl(content: Seq<char>, j: Seq<char>) -> Seq<char> {
    if content.len() > 0 && content.last() == '\n' && !(j.len() > 0 && j.last() == '\n') {
        j.push('\n')
    } else {
        j
    }
}

fn keep_final_newline(content: &Vec<char>, j: &mut Vec<char>)
    ensures
        final(j)@ == keep_final_nl(content@, old(j)@),
{
    if content.len() > 0 && content[content.len() - 1] == '\n' && !(j.len() > 0 && j[j.len() - 1]
        == '\n') {
        j.push('\n');
    }
}

/// A checkbox line rebuilt from its parts with the given mark and text; the
/// whitespace between bullet and bracket becomes one space.
pub open spec fn checkbox_line(indent: Seq<char>, bullet: char, mark: char, gap: Seq<char>, text: Seq<
    char,
>) -> Seq<char> {
    indent + seq![bullet, ' ', '[', mark, ']'] + gap + text
}

fn build_checkbox_line(indent: &Vec<char>, bullet: char, mark: char, gap: &Vec<char>, text: &Vec<
    char,
>) -> (r: Vec<char>)
    ensures
        r@ == checkbox_line(indent@, bullet, mark, gap@, text@),
{
    let mut r = crate::text::sub_chars_all(indent);
    r.push(bullet);
    r.push(' ');
    r.push('[');
    r.push(mark);
    r.push(']');
    extend_chars(&mut r, gap);
    extend_chars(&mut r, text);
    assert(r@ =~= checkbox_line(indent@, bullet, mark, gap@, text@));
    r
}

fn io_error(msg: &str) -> (e: VaultError)
    ensures
        e matches VaultError::Io(m) && m@ == msg@,
{
    VaultError::Io(String::from_str(msg))
}

/// The text `prefix`, the decimal `n`, then `suffix`.
pub open spec fn numbered(prefix: Seq<char>, n: int, suffix: Seq<char>) -> Seq<char> {
    prefix + crate::format::digits(n as nat) + suffix
}

fn numbered_chars(prefix: &str, n: usize, suffix: &str) -> (r: Vec<char>)
    ensures
        r@ == numbered(prefix@, n as int, suffix@),
{
    let mut r = str_chars(prefix);
    extend_chars(&mut r, &crate::format::decimal(n as u64));
    extend_chars(&mut r, &str_chars(suffix));
    r
}

fn numbered_error(prefix: &str, n: usize, suffix: &str) -> (e: VaultError)
    ensures
        e matches VaultError::Io(m) && m@ == numbered(prefix@, n as int, suffix@),
{
    VaultError::Io(chars_string(&numbered_chars(prefix, n, suffix)))
}

/// The message refusing to change 1-based `line`: past the end of the
/// file, or not a checkbox todo.
pub open spec fn line_refusal(content: Seq<char>, line: int) -> Seq<char> {
    if line - 1 >= lines(content).len() {
        numbered("line "@, line, " is past end of file"@)
    } else {
        numbered("line "@, line, " is not a checkbox todo"@)
    }
}

/// The content with the checkbox on 1-based `line` flipped (`' '` becomes
/// `'x'`, anything else becomes `' '`); `None` when the line is past the end
/// or is not a checkbox.
pub open spec fn toggled_content(content: Seq<char>, line: int) -> Option<Seq<char>> {
    let ls = lines(content);
    let idx = line - 1;
    if idx >= ls.len() {
        None
    } else {
        match checkbox_match(ls[idx]) {
            None => None,
            Some(p) => Some(
                keep_final_nl(
                    content,
                    join_lines(
                        ls.update(
                            idx,
                            checkbox_line(
                                p.indent,
                                p.bullet,
                                if p.mark != ' ' {
                                    ' '
                                } else {
                                    'x'
                                },
                                p.gap,
                                p.text,
                            ),
                        ),
                    ),
                ),
            ),
        }
    }
}

/// Toggle the checkbox on 1-based `line`.
pub fn toggle_line(content: &str, line: usize) -> (r: Result<String, VaultError>)
    ensures
        line == 0 ==> (r matches Err(VaultError::Io(m)) && m@ == "line must be >= 1"@),
        line >= 1 ==> match r {
            Ok(s) => toggled_content(content@, line as int) == Some(s@),
            Err(VaultError::Io(m)) => toggled_content(content@, line as int) is None && m@ == if line - 1 >= lines(content@).len() {
                line_refusal(content@, line as int) + numbered(" ("@, lines(content@).len() as int, " lines)"@)
            } else {
                line_refusal(content@, line as int)
            },
            Err(_) => false,
        },
{
    if line == 0 {
        return Err(io_error("line must be >= 1"));
    }
    let c = str_chars(content);
    let mut ls = crate::text::chars_lines(&c);
    let ghost v = views(ls@);
    let idx = line - 1;
    if idx >= ls.len() {
        let mut m = numbered_chars("line ", line, " is past end of file");
        extend_chars(&mut m, &numbered_chars(" (", ls.len(), " lines)"));
        return Err(VaultError::Io(chars_string(&m)));
    }
    assert(v[idx as int] == ls@[idx as int]@);
    assert(crate::notes::single_line_at(v, idx as int));
    match checkbox_captures(&ls[idx]) {
        None => Err(numbered_error("line ", line, " is not a checkbox todo")),
        Some(caps) => {
            let mark = if caps.mark != ' ' {
                ' '
            } else {
                'x'
            };
            let new_line = build_checkbox_line(&caps.indent, caps.bullet, mark, &caps.gap, &caps.text);
            ls.set(idx, new_line);
            let mut body = join_all(&ls);
            proof {
                assert(views(ls@) =~= v.update(idx as int, new_line@));
            }
            keep_final_newline(&c, &mut body);
            Ok(chars_string(&body))
        },
    }
}

/// Position of the first todo on 1-based `line`, scanning from `from`.
pub open spec fn todo_index_from(t: Seq<TodoView>, line: int, from: int) -> Option<int>
    decreases t.len() - from,
{
    if from < 0 || from >= t.len() {
        None
    } else if t[from].line == line {
        Some(from)
    } else {
        todo_index_from(t, line, from + 1)
    }
}

/// Position of the todo on 1-based `line`, if that line is a todo.
pub open spec fn todo_index(t: Seq<TodoView>, line: int) -> Option<int> {
    todo_index_from(t, line, 0)
}

pub proof fn lemma_todo_index_from(t: Seq<TodoView>, line: int, from: int)
    requires
        0 <= from,
    ensures
        match todo_index_from(t, line, from) {
            Some(k) => from <= k < t.len() && t[k].line == line,
            None => forall|k: int| from <= k < t.len() ==> #[trigger] t[k].line != line,
        },
    decreases t.len() - from,
{
    if from < t.len() && t[from].line != line {
        lemma_todo_index_from(t, line, from + 1);
    }
}

/// Position of the todo on 1-based `line`.
pub fn find_todo(todos: &Vec<TodoItem>, line: usize) -> (r: Option<usize>)
    ensures
        match r {
            Some(k) => todo_index(todo_views(todos@), line as int) == Some(k as int) && k
                < todos.len(),
            None => todo_index(todo_views(todos@), line as int) is None,
        },
{
    let ghost t = todo_views(todos@);
    proof {
        lemma_todo_index_from(t, line as int, 0);
    }
    let mut k: usize = 0;
    while k < todos.len()
        invariant
            t == todo_views(todos@),
            k <= todos.len(),
            todo_index_from(t, line as int, k as int) == todo_index(t, line as int),
        decreases todos.len() - k,
    {
        if todos[k].line == line {
            return Some(k);
        }
        k = k + 1;
    }
    None
}

/// The expected text check before editing 1-based `line`: a blank or absent
/// expectation always passes; otherwise the line must be a todo whose
/// trimmed text is the trimmed expectation.
pub open spec fn expectation_holds(content: Seq<char>, line: int, expect: Option<Seq<char>>) -> bool {
    match expect {
        None => true,
        Some(e) => trim(e).len() == 0 || {
            let t = parsed_todos(content);
            match todo_index(t, line) {
                Some(k) => trim(t[k].text) == trim(e),
                None => false,
            }
        },
    }
}

fn opt_str_view(o: Option<&str>) -> (r: Option<Vec<char>>)
    ensures
        match o {
            Some(s) => r matches Some(v) && v@ == s@,
            None => r is None,
        },
{
    match o {
        Some(s) => Some(str_chars(s)),
        None => None,
    }
}

pub open spec fn opt_view(o: Option<&str>) -> Option<Seq<char>> {
    match o {
        Some(s) => Some(s@),
        None => None,
    }
}

/// Why an edit of 1-based `line` made from a stale view is refused.
pub open spec fn stale_message(content: Seq<char>, line: int, expect: Option<Seq<char>>) -> Seq<char> {
    let t = parsed_todos(content);
    match todo_index(t, line) {
        None => numbered("stale view: line "@, line, " is no longer a todo; refetch and retry"@),
        Some(k) => numbered("stale view: line "@, line, " now holds "@) + crate::text::debug_quoted(
            trim(t[k].text),
        ) + " instead of "@ + crate::text::debug_quoted(
            match expect {
                Some(e) => trim(e),
                None => Seq::empty(),
            },
        ) + "; refetch and retry"@,
    }
}

/// Refuse an edit made from a stale view: when `expect_text` is set, the
/// todo on `line` must still hold that text.
pub fn expect_line_text(content: &str, line: usize, expect_text: Option<&str>) -> (r: Result<
    (),
    VaultError,
>)
    ensures
        r is Ok <==> expectation_holds(content@, line as int, opt_view(expect_text)),
        r matches Err(e) ==> e matches VaultError::Io(m) && m@ == stale_message(
            content@,
            line as int,
            opt_view(expect_text),
        ),
{
    let expected = match opt_str_view(expect_text) {
        None => return Ok(()),
        Some(e) => trim_chars(&e),
    };
    if expected.len() == 0 {
        return Ok(());
    }
    let todos = parse_todos(content);
    match find_todo(&todos, line) {
        None => Err(numbered_error("stale view: line ", line, " is no longer a todo; refetch and retry")),
        Some(k) => {
            let actual = str_chars(todos[k].text.as_str());
            let at = trim_chars(&actual);
            proof {
                assert(todo_views(todos@)[k as int].text == todos@[k as int].text@);
            }
            if crate::text::chars_eq(&at, &expected) {
                Ok(())
            } else {
                let mut m = numbered_chars("stale view: line ", line, " now holds ");
                extend_chars(&mut m, &str_chars(crate::text::quoted(chars_string(&at).as_str()).as_str()));
                extend_chars(&mut m, &str_chars(" instead of "));
                extend_chars(&mut m, &str_chars(crate::text::quoted(chars_string(&expected).as_str()).as_str()));
                extend_chars(&mut m, &str_chars("; refetch and retry"));
                Err(VaultError::Io(chars_string(&m)))
            }
        },
    }
}

/// The content with the text of the checkbox on 1-based `line` replaced.
pub open spec fn edited_content(content: Seq<char>, line: int, new_text: Seq<char>) -> Option<
    Seq<char>,
> {
    let ls = lines(content);
    let idx = line - 1;
    if idx >= ls.len() {
        None
    } else {
        match checkbox_match(ls[idx]) {
            None => None,
            Some(p) => Some(
                keep_final_nl(
                    content,
                    join_lines(ls.update(idx, checkbox_line(p.indent, p.bullet, p.mark, p.gap, new_text))),
                ),
            ),
        }
    }
}

/// Rewrite the text of the todo on 1-based `line` (mark, bullet, indent and
/// gap kept).
pub fn edit_line(content: &str, line: usize, new_text: &str) -> (r: Result<String, VaultError>)
    ensures
        line == 0 ==> (r matches Err(VaultError::Io(m)) && m@ == "line must be >= 1"@),
        line >= 1 ==> match r {
            Ok(s) => edited_content(content@, line as int, new_text@) == Some(s@),
            Err(VaultError::Io(m)) => edited_content(content@, line as int, new_text@) is None && m@ == line_refusal(content@, line as int),
            Err(_) => false,
        },
{
    if line == 0 {
        return Err(io_error("line must be >= 1"));
    }
    let c = str_chars(content);
    let t = str_chars(new_text);
    let mut ls = crate::text::chars_lines(&c);
    let ghost v = views(ls@);
    let idx = line - 1;
    if idx >= ls.len() {
        return Err(numbered_error("line ", line, " is past end of file"));
    }
    assert(v[idx as int] == ls@[idx as int]@);
    assert(crate::notes::single_line_at(v, idx as int));
    match checkbox_captures(&ls[idx]) {
        None => Err(numbered_error("line ", line, " is not a checkbox todo")),
        Some(caps) => {
            let new_line = build_checkbox_line(&caps.indent, caps.bullet, caps.mark, &caps.gap, &t);
            ls.set(idx, new_line);
            let mut body = join_all(&ls);
            proof {
                assert(views(ls@) =~= v.update(idx as int, new_line@));
            }
            keep_final_newline(&c, &mut body);
            Ok(chars_string(&body))
        },
    }
}

/// `n` copies of two spaces.
pub open spec fn indent_spaces(n: nat) -> Seq<char> {
    Seq::new(2 * n, |i: int| ' ')
}

fn make_indent(n: usize) -> (r: Vec<char>)
    ensures
        r@ == indent_spaces(n as nat),
{
    let mut r: Vec<char> = Vec::new();
    let mut i: usize = 0;
    while i < n
        invariant
            i <= n,
            r@ == Seq::new(2 * i as nat, |k: int| ' '),
        decreases n - i,
    {
        r.push(' ');
        r.push(' ');
        assert(r@ =~= Seq::new(2 * (i + 1) as nat, |k: int| ' '));
        i = i + 1;
    }
    r
}

/// The new indentation level after shifting `level` by `delta` (never below
/// zero).
pub open spec fn shifted_level(level: int, delta: int) -> int {
    if level + delta < 0 {
        0
    } else {
        level + delta
    }
}

/// The content with the todo on 1-based `line` re-indented by `delta`
/// levels (two spaces each).
pub open spec fn reindented_content(content: Seq<char>, line: int, delta: int) -> Option<Seq<char>> {
    let ls = lines(content);
    let idx = line - 1;
    if idx >= ls.len() {
        None
    } else {
        match checkbox_match(ls[idx]) {
            None => None,
            Some(p) => {
                let level = shifted_level(indent_level_of(p.indent) as int, delta);
                Some(
                    keep_final_nl(
                        content,
                        join_lines(
                            ls.update(
                                idx,
                                checkbox_line(
                                    indent_spaces(level as nat),
                                    p.bullet,
                                    p.mark,
                                    p.gap,
                                    p.text,
                                ),
                            ),
                        ),
                    ),
                )
            },
        }
    }
}

/// Shift the todo on 1-based `line` by `delta` indentation levels. A level
/// that could not be held in memory is refused.
pub fn indent_line(content: &str, line: usize, delta: i32) -> (r: Result<String, VaultError>)
    ensures
        line == 0 ==> (r matches Err(VaultError::Io(m)) && m@ == "line must be >= 1"@),
        line >= 1 ==> match r {
            Ok(s) => reindented_content(content@, line as int, delta as int) == Some(s@),
            Err(VaultError::Io(m)) => if reindented_content(
                content@,
                line as int,
                delta as int,
            ) is None {
                m@ == line_refusal(content@, line as int)
            } else {
                m@ == "indentation is too deep"@ && shifted_level(
                    indent_level_of(checkbox_match(lines(content@)[line - 1])->0.indent) as int,
                    delta as int,
                ) > usize::MAX
            },
            Err(_) => false,
        },
{
    if line == 0 {
        return Err(io_error("line must be >= 1"));
    }
    let c = str_chars(content);
    let mut ls = crate::text::chars_lines(&c);
    let ghost v = views(ls@);
    let idx = line - 1;
    if idx >= ls.len() {
        return Err(numbered_error("line ", line, " is past end of file"));
    }
    assert(v[idx as int] == ls@[idx as int]@);
    assert(crate::notes::single_line_at(v, idx as int));
    match checkbox_captures(&ls[idx]) {
        None => Err(numbered_error("line ", line, " is not a checkbox todo")),
        Some(caps) => {
            let raw = indent_level(&caps.indent);
            let shifted: i128 = raw as i128 + delta as i128;
            let shifted: i128 = if shifted < 0 {
                0
            } else {
                shifted
            };
            if shifted > usize::MAX as i128 {
                return Err(io_error("indentation is too deep"));
            }
            let level = shifted as usize;
            let indent = make_indent(level);
            let new_line = build_checkbox_line(&indent, caps.bullet, caps.mark, &caps.gap, &caps.text);
            ls.set(idx, new_line);
            let mut body = join_all(&ls);
            proof {
                assert(views(ls@) =~= v.update(idx as int, new_line@));
            }
            keep_final_newline(&c, &mut body);
            Ok(chars_string(&body))
        },
    }
}

pub proof fn lemma_depth_le_index(raws: Seq<nat>, k: int)
    requires
        0 <= k < raws.len(),
    ensures
        depths_of(raws)[k] <= k,
    decreases k,
{
    lemma_depths_steps(raws);
    if k > 0 {
        lemma_depth_le_index(raws, k - 1);
    }
}

/// `"- [ ] "` followed by `text`, indented `depth` levels.
pub open spec fn open_todo_line(depth: nat, text: Seq<char>) -> Seq<char> {
    indent_spaces(depth) + seq!['-', ' ', '[', ' ', ']', ' '] + text
}

fn build_open_todo_line(depth: usize, text: &Vec<char>) -> (r: Vec<char>)
    ensures
        r@ == open_todo_line(depth as nat, text@),
{
    let mut r = make_indent(depth);
    r.push('-');
    r.push(' ');
    r.push('[');
    r.push(' ');
    r.push(']');
    r.push(' ');
    extend_chars(&mut r, text);
    assert(r@ =~= open_todo_line(depth as nat, text@));
    r
}

/// The content with a new open todo nested one level under the todo on
/// 1-based `parent_line`, inserted right after it; `None` when that line is
/// not a todo.
pub open spec fn added_under(content: Seq<char>, text: Seq<char>, parent_line: int) -> Option<
    Seq<char>,
> {
    let t = parsed_todos(content);
    let ls = lines(content);
    match todo_index(t, parent_line) {
        None => None,
        Some(k) => if parent_line > ls.len() {
            None
        } else {
            Some(
                keep_final_nl(
                    content,
                    join_lines(ls.insert(parent_line, open_todo_line((t[k].depth + 1) as nat, text))),
                ),
            )
        },
    }
}

/// Insert an open todo nested under the todo on 1-based `parent_line`.
pub fn add_under_content(content: &str, text: &str, parent_line: usize) -> (r: Result<
    String,
    VaultError,
>)
    ensures
        match r {
            Ok(s) => added_under(content@, text@, parent_line as int) == Some(s@),
            Err(VaultError::Io(m)) => added_under(content@, text@, parent_line as int) is None && m@ == if todo_index(parsed_todos(content@), parent_line as int) is None {
                numbered("under-line "@, parent_line as int, " is not a todo"@)
            } else {
                numbered("under-line "@, parent_line as int, " is past end of file"@)
            },
            Err(_) => false,
        },
{
    let c = str_chars(content);
    let t = str_chars(text);
    let todos = parse_todos_chars(&c);
    let k = match find_todo(&todos, parent_line) {
        None => return Err(numbered_error("under-line ", parent_line, " is not a todo")),
        Some(k) => k,
    };
    proof {
        let ls = lines(c@);
        lemma_depths_len(raw_levels(ls));
        lemma_depth_le_index(raw_levels(ls), k as int);
        assert(todo_views(todos@)[k as int].depth == todos@[k as int].depth);
    }
    let depth = todos[k].depth + 1;
    let new_line = build_open_todo_line(depth, &t);
    let mut ls = crate::text::chars_lines(&c);
    let ghost v = views(ls@);
    if parent_line > ls.len() {
        return Err(numbered_error("under-line ", parent_line, " is past end of file"));
    }
    ls.insert(parent_line, new_line);
    proof {
        assert(views(ls@) =~= v.insert(parent_line as int, new_line@));
    }
    let mut next = join_all(&ls);
    keep_final_newline(&c, &mut next);
    Ok(chars_string(&next))
}

/// The lines `i` among the first `n` whose 1-based number is not dropped.
pub open spec fn kept_lines(ls: Seq<Seq<char>>, drop: spec_fn(int) -> bool, n: int) -> Seq<Seq<char>>
    decreases n,
{
    if n <= 0 {
        Seq::<Seq<char>>::empty()
    } else if drop(n) {
        kept_lines(ls, drop, n - 1)
    } else {
        kept_lines(ls, drop, n - 1).push(ls[n - 1])
    }
}

/// The content without the dropped lines; a final newline is kept when the
/// result is not empty.
pub open spec fn without_lines(content: Seq<char>, drop: spec_fn(int) -> bool) -> Seq<char> {
    let ls = lines(content);
    let j = join_lines(kept_lines(ls, drop, ls.len() as int));
    if content.len() > 0 && content.last() == '\n' && j.len() > 0 {
        j.push('\n')
    } else {
        j
    }
}

fn line_listed(drop: &Vec<usize>, ln: usize) -> (b: bool)
    ensures
        b == drop@.contains(ln),
{
    let mut i: usize = 0;
    while i < drop.len()
        invariant
            i <= drop.len(),
            forall|k: int| 0 <= k < i ==> drop@[k] != ln,
        decreases drop.len() - i,
    {
        if drop[i] == ln {
            assert(drop@[i as int] == ln);
            return true;
        }
        i = i + 1;
    }
    false
}

/// The content without the lines whose 1-based numbers are listed.
fn drop_listed_lines(c: &Vec<char>, drop: &Vec<usize>, pred: Ghost<spec_fn(int) -> bool>) -> (r: Vec<
    char,
>)
    requires
        forall|ln: int| 0 < ln <= usize::MAX ==> (#[trigger] pred@(ln) <==> drop@.contains(ln as usize)),
    ensures
        r@ == without_lines(c@, pred@),
{
    let ls = crate::text::chars_lines(c);
    let ghost v = views(ls@);
    let mut kept: Vec<Vec<char>> = Vec::new();
    let mut i: usize = 0;
    while i < ls.len()
        invariant
            v == views(ls@),
            i <= ls.len(),
            forall|ln: int| 0 < ln <= usize::MAX ==> (#[trigger] pred@(ln) <==> drop@.contains(ln as usize)),
            views(kept@) == kept_lines(v, pred@, i as int),
        decreases ls.len() - i,
    {
        let ghost before = kept@;
        if !line_listed(drop, i + 1) {
            kept.push(crate::text::sub_chars_all(&ls[i]));
            assert(views(kept@) =~= views(before).push(v[i as int]));
        }
        i = i + 1;
    }
    let mut next = join_all(&kept);
    if c.len() > 0 && c[c.len() - 1] == '\n' && next.len() > 0 {
        next.push('\n');
    }
    next
}

/// Position just past the todos after `k` that are nested deeper than it.
pub open spec fn children_end(t: Seq<TodoView>, k: int, from: int) -> int
    decreases t.len() - from,
{
    if from >= t.len() || from < 0 {
        t.len() as int
    } else if t[from].depth <= t[k].depth {
        from
    } else {
        children_end(t, k, from + 1)
    }
}

/// Line `ln` goes when deleting the todo at position `k` (and, with
/// `with_children`, the todos nested under it that directly follow it).
pub open spec fn deleted_line(t: Seq<TodoView>, k: int, with_children: bool, ln: int) -> bool {
    ln == t[k].line || (with_children && exists|i: int|
        k < i < children_end(t, k, k + 1) && #[trigger] t[i].line == ln)
}

/// The content without the todo on 1-based `line` (and its nested children
/// when asked); `None` when that line is not a todo.
pub open spec fn deleted_content(content: Seq<char>, line: int, with_children: bool) -> Option<
    Seq<char>,
> {
    let t = parsed_todos(content);
    match todo_index(t, line) {
        None => None,
        Some(k) => Some(without_lines(content, |ln: int| deleted_line(t, k, with_children, ln))),
    }
}

pub proof fn lemma_children_end(t: Seq<TodoView>, k: int, from: int)
    requires
        0 <= k < from,
    ensures
        from <= children_end(t, k, from) || (from > t.len() && children_end(t, k, from)
            == t.len()),
        children_end(t, k, from) <= t.len() || from > t.len(),
        forall|i: int| from <= i < children_end(t, k, from) ==> #[trigger] t[i].depth > t[k].depth,
    decreases t.len() - from,
{
    if from < t.len() && t[from].depth > t[k].depth {
        lemma_children_end(t, k, from + 1);
    }
}

/// Children run on while todos are deeper than the one at `k`.
proof fn lemma_children_end_past(t: Seq<TodoView>, k: int, from: int, i: int)
    requires
        0 <= k < from <= i < t.len(),
        forall|j: int| from <= j <= i ==> #[trigger] t[j].depth > t[k].depth,
    ensures
        children_end(t, k, from) > i,
    decreases i - from,
{
    if from < i {
        lemma_children_end_past(t, k, from + 1, i);
    } else {
        lemma_children_end(t, k, from + 1);
    }
}

/// Children stop at the first todo no deeper than the one at `k`.
proof fn lemma_children_end_stops(t: Seq<TodoView>, k: int, from: int, j: int)
    requires
        0 <= k < from <= j < t.len(),
        t[j].depth <= t[k].depth,
    ensures
        children_end(t, k, from) <= j,
    decreases j - from,
{
    if from < j && t[from].depth > t[k].depth {
        lemma_children_end_stops(t, k, from + 1, j);
    }
}

/// Parsed todos come in line order.
proof fn lemma_parsed_lines_increase(content: Seq<char>)
    ensures
        forall|a: int, b: int|
            0 <= a < b < parsed_todos(content).len() ==> parsed_todos(content)[a].line
                < parsed_todos(content)[b].line,
{
    let ls = lines(content);
    lemma_checkbox_indices(ls, ls.len() as int);
}

/// Deleting a todo takes out its own line. With its children, it also takes
/// out every later todo up to, and not including, the first todo that is no
/// deeper than it (checked or not, every deeper todo goes); that todo and
/// all after it stay. Without children, no other todo's line goes.
pub proof fn law_delete_takes_subtree(content: Seq<char>, k: int, i: int)
    requires
        0 <= k < i < parsed_todos(content).len(),
    ensures
        ({
            let t = parsed_todos(content);
            &&& deleted_line(t, k, true, t[k].line)
            &&& deleted_line(t, k, false, t[k].line)
            &&& !deleted_line(t, k, false, t[i].line)
            &&& (forall|j: int| k < j <= i ==> #[trigger] t[j].depth > t[k].depth) ==> deleted_line(
                t,
                k,
                true,
                t[i].line,
            )
            &&& (exists|j: int| k < j <= i && #[trigger] t[j].depth <= t[k].depth) ==> !deleted_line(
                t,
                k,
                true,
                t[i].line,
            )
        }),
{
    let t = parsed_todos(content);
    lemma_parsed_lines_increase(content);
    assert(t[k].line < t[i].line);
    if forall|j: int| k < j <= i ==> #[trigger] t[j].depth > t[k].depth {
        lemma_children_end_past(t, k, k + 1, i);
        assert(k < i < children_end(t, k, k + 1) && t[i].line == t[i].line);
    }
    if exists|j: int| k < j <= i && #[trigger] t[j].depth <= t[k].depth {
        let j = choose|j: int| k < j <= i && #[trigger] t[j].depth <= t[k].depth;
        lemma_children_end_stops(t, k, k + 1, j);
        if deleted_line(t, k, true, t[i].line) {
            let x = choose|x: int| k < x < children_end(t, k, k + 1) && #[trigger] t[x].line == t[i].line;
            if x < i {
                assert(t[x].line < t[i].line);
            }
        }
    }
}

/// Delete the todo on 1-based `line`, optionally with its nested children.
pub fn delete_lines(content: &str, line: usize, with_children: bool) -> (r: Result<
    String,
    VaultError,
>)
    ensures
        match r {
            Ok(s) => deleted_content(content@, line as int, with_children) == Some(s@),
            Err(VaultError::Io(m)) => deleted_content(content@, line as int, with_children) is None && m@ == numbered("line "@, line as int, " is not a todo"@),
            Err(_) => false,
        },
{
    let c = str_chars(content);
    let todos = parse_todos_chars(&c);
    let ghost t = todo_views(todos@);
    let k = match find_todo(&todos, line) {
        None => return Err(numbered_error("line ", line, " is not a todo")),
        Some(k) => k,
    };
    proof {
        lemma_todo_index_from(t, line as int, 0);
        lemma_children_end(t, k as int, k + 1);
    }
    let mut drop: Vec<usize> = Vec::new();
    drop.push(line);
    let mut i = k + 1;
    let ghost ce = if with_children {
        children_end(t, k as int, k + 1)
    } else {
        k + 1
    };
    if with_children {
        let parent_depth = todos[k].depth;
        while i < todos.len() && todos[i].depth > parent_depth
            invariant
                t == todo_views(todos@),
                k < i <= todos.len(),
                parent_depth as int == t[k as int].depth,
                children_end(t, k as int, i as int) == children_end(t, k as int, k + 1),
                forall|m: int| k < m < i ==> #[trigger] t[m].depth > t[k as int].depth,
                drop@.len() == i - k,
                drop@[0] == line,
                forall|m: int| k < m < i ==> drop@[m - k] == t[m].line,
            decreases todos.len() - i,
        {
            assert(t[i as int].depth == todos@[i as int].depth);
            let ghost before = drop@;
            drop.push(todos[i].line);
            proof {
                assert(t[i as int].line == todos@[i as int].line);
                assert forall|m: int| k < m < i + 1 implies drop@[m - k] == t[m].line by {
                    if m < i {
                        assert(drop@[m - k] == before[m - k]);
                    }
                }
            }
            i = i + 1;
        }
        proof {
            if i < todos.len() {
                assert(t[i as int].depth == todos@[i as int].depth);
            }
            assert(children_end(t, k as int, i as int) == i);
        }
    }
    assert(drop@.len() == ce - k);
    assert(drop@[0] == line);
    assert(forall|m: int| k < m < ce ==> drop@[m - k] == t[m].line);
    assert(t[k as int].line == line);
    let ghost pred = |ln: int| deleted_line(t, k as int, with_children, ln);
    proof {
        assert forall|ln: int| 0 < ln <= usize::MAX implies (#[trigger] pred(ln) <==> drop@.contains(
            ln as usize,
        )) by {
            if pred(ln) {
                if ln == line {
                    assert(drop@[0] == ln);
                } else {
                    assert(with_children);
                    let m = choose|m: int|
                        k < m < children_end(t, k as int, k + 1) && #[trigger] t[m].line == ln;
                    assert(drop@[m - k] == t[m].line);
                }
            }
            if drop@.contains(ln as usize) {
                let j = choose|j: int| 0 <= j < drop@.len() && drop@[j] == ln as usize;
                if j > 0 {
                    assert(with_children);
                    assert(drop@[(k + j) - k] == t[k + j].line);
                    assert(t[k + j].line == ln);
                }
            }
        }
    }
    let next = drop_listed_lines(&c, &drop, Ghost(pred));
    Ok(chars_string(&next))
}

/// Some item of `items` has the text `text`.
pub open spec fn text_listed(items: Seq<(usize, String)>, text: Seq<char>) -> bool {
    exists|m: int| 0 <= m < items.len() && (#[trigger] items[m]).1@ == text
}

/// The open todo at position `k` has a listed text.
pub open spec fn removable(t: Seq<TodoView>, k: int, items: Seq<(usize, String)>) -> bool {
    !t[k].checked && text_listed(items, t[k].text)
}

/// Line `ln` holds an open todo with a listed text.
pub open spec fn removed_line(t: Seq<TodoView>, items: Seq<(usize, String)>, ln: int) -> bool {
    exists|k: int| 0 <= k < t.len() && #[trigger] t[k].line == ln && removable(t, k, items)
}

/// The content without its open todos whose text is listed; `None` when
/// there is none.
pub open spec fn removed_content(content: Seq<char>, items: Seq<(usize, String)>) -> Option<
    Seq<char>,
> {
    let t = parsed_todos(content);
    if exists|k: int| 0 <= k < t.len() && #[trigger] removable(t, k, items) {
        Some(without_lines(content, |ln: int| removed_line(t, items, ln)))
    } else {
        None
    }
}

fn text_in(items: &Vec<(usize, String)>, text: &Vec<char>) -> (b: bool)
    ensures
        b == text_listed(items@, text@),
{
    let mut m: usize = 0;
    while m < items.len()
        invariant
            m <= items.len(),
            forall|j: int| 0 <= j < m ==> (#[trigger] items@[j]).1@ != text@,
        decreases items.len() - m,
    {
        let cand = str_chars(items[m].1.as_str());
        if crate::text::chars_eq(&cand, text) {
            assert(items@[m as int].1@ == text@);
            return true;
        }
        m = m + 1;
    }
    false
}

/// Remove the given still-open todos (matched by text) from the content;
/// `None` when none of them is there.
pub fn remove_open_todos(content: &str, items: &Vec<(usize, String)>) -> (r: Option<String>)
    ensures
        match r {
            Some(s) => removed_content(content@, items@) == Some(s@),
            None => removed_content(content@, items@) is None,
        },
{
    let c = str_chars(content);
    let todos = parse_todos_chars(&c);
    let ghost t = todo_views(todos@);
    let mut drop: Vec<usize> = Vec::new();
    let mut i: usize = 0;
    while i < todos.len()
        invariant
            t == todo_views(todos@),
            i <= todos.len(),
            forall|k: int| 0 <= k < i && removable(t, k, items@) ==> drop@.contains(t[k].line as usize),
            forall|j: int|
                0 <= j < drop@.len() ==> exists|k: int|
                    0 <= k < i && t[k].line == #[trigger] drop@[j] as int && removable(t, k, items@),
            (drop@.len() == 0) == (forall|k: int| 0 <= k < i ==> !#[trigger] removable(t, k, items@)),
        decreases todos.len() - i,
    {
        let text = str_chars(todos[i].text.as_str());
        proof {
            assert(t[i as int].text == todos@[i as int].text@);
            assert(t[i as int].checked == todos@[i as int].checked);
            assert(t[i as int].line == todos@[i as int].line);
        }
        let ghost before = drop@;
        if !todos[i].checked && text_in(items, &text) {
            drop.push(todos[i].line);
            proof {
                assert(drop@[before.len() as int] == t[i as int].line);
                assert forall|j: int| 0 <= j < drop@.len() implies exists|k: int|
                    0 <= k < i + 1 && t[k].line == #[trigger] drop@[j] as int && removable(
                        t,
                        k,
                        items@,
                    ) by {
                    if j < before.len() {
                        assert(drop@[j] == before[j]);
                    } else {
                        assert(removable(t, i as int, items@));
                    }
                }
                assert forall|k: int| 0 <= k < i + 1 && removable(t, k, items@) implies drop@.contains(
                    t[k].line as usize,
                ) by {
                    if k < i {
                        let j = choose|j: int| 0 <= j < before.len() && before[j] == t[k].line as usize;
                        assert(drop@[j] == before[j]);
                    } else {
                        assert(drop@[before.len() as int] == t[k].line as usize);
                    }
                }
            }
        } else {
            proof {
                assert(!removable(t, i as int, items@));
            }
        }
        i = i + 1;
    }
    if drop.len() == 0 {
        return None;
    }
    let ghost pred = |ln: int| removed_line(t, items@, ln);
    proof {
        let pt = parsed_todos(c@);
        assert(t == pt);
        lemma_todo_lines_fit(c@);
        assert forall|ln: int| 0 < ln <= usize::MAX implies (#[trigger] pred(ln) <==> drop@.contains(
            ln as usize,
        )) by {
            if pred(ln) {
                let k = choose|k: int| 0 <= k < t.len() && #[trigger] t[k].line == ln && removable(t, k, items@);
                assert(drop@.contains(t[k].line as usize));
            }
            if drop@.contains(ln as usize) {
                let j = choose|j: int| 0 <= j < drop@.len() && drop@[j] == ln as usize;
                let k = choose|k: int|
                    0 <= k < todos.len() && t[k].line == drop@[j] as int && removable(t, k, items@);
                assert(t[k].line == ln);
            }
        }
        assert(exists|k: int| 0 <= k < t.len() && #[trigger] removable(t, k, items@));
    }
    let next = drop_listed_lines(&c, &drop, Ghost(pred));
    Some(chars_string(&next))
}

/// Todo line numbers are positive and fit in `usize`.
pub proof fn lemma_todo_lines_fit(content: Seq<char>)
    ensures
        forall|k: int|
            0 <= k < parsed_todos(content).len() ==> 0 < #[trigger] parsed_todos(content)[k].line
                <= lines(content).len(),
{
    let ls = lines(content);
    lemma_checkbox_indices(ls, ls.len() as int);
}

/// The open todos as `(depth, text)`, in order.
pub open spec fn open_items(t: Seq<TodoView>) -> Seq<(int, Seq<char>)>
    decreases t.len(),
{
    if t.len() == 0 {
        Seq::<(int, Seq<char>)>::empty()
    } else if t.last().checked {
        open_items(t.drop_last())
    } else {
        open_items(t.drop_last()).push((t.last().depth, t.last().text))
    }
}

pub open spec fn item_views(v: Seq<(usize, String)>) -> Seq<(int, Seq<char>)> {
    v.map_values(|p: (usize, String)| (p.0 as int, p.1@))
}

/// The still-open todos of a note as `(depth, text)`.
pub fn open_todo_items(content: &str) -> (r: Vec<(usize, String)>)
    ensures
        item_views(r@) == open_items(parsed_todos(content@)),
{
    let todos = parse_todos(content);
    let ghost t = todo_views(todos@);
    let mut r: Vec<(usize, String)> = Vec::new();
    let mut i: usize = 0;
    while i < todos.len()
        invariant
            t == todo_views(todos@),
            t == parsed_todos(content@),
            i <= todos.len(),
            item_views(r@) == open_items(t.take(i as int)),
        decreases todos.len() - i,
    {
        proof {
            assert(t.take(i + 1).drop_last() =~= t.take(i as int));
            assert(t.take(i + 1).last() == todos@[i as int].view());
        }
        let ghost before = r@;
        if !todos[i].checked {
            r.push((todos[i].depth, todos[i].text.clone()));
            assert(item_views(r@) =~= item_views(before).push(
                (todos@[i as int].depth as int, todos@[i as int].text@),
            ));
        }
        i = i + 1;
    }
    assert(t.take(todos.len() as int) =~= t);
    r
}

/// Number of still-open todos of a note.
pub fn open_todo_count(content: &str) -> (n: usize)
    ensures
        n == open_items(parsed_todos(content@)).len(),
{
    let items = open_todo_items(content);
    items.len()
}

/// The open items of the previous day whose text is not already an open
/// todo of the target day, in order: what carrying over moves.
pub open spec fn carry_items(prev: Seq<(int, Seq<char>)>, target: Seq<(int, Seq<char>)>) -> Seq<
    (int, Seq<char>),
>
    decreases prev.len(),
{
    if prev.len() == 0 {
        Seq::<(int, Seq<char>)>::empty()
    } else if exists|m: int| 0 <= m < target.len() && (#[trigger] target[m]).1 == prev.last().1 {
        carry_items(prev.drop_last(), target)
    } else {
        carry_items(prev.drop_last(), target).push(prev.last())
    }
}

/// The previous day's open todos that carrying over into the target day
/// moves: those whose text is not already open there.
pub fn carry_candidates(prev_content: &str, target_content: &str) -> (r: Vec<(usize, String)>)
    ensures
        item_views(r@) == carry_items(
            open_items(parsed_todos(prev_content@)),
            open_items(parsed_todos(target_content@)),
        ),
{
    let prev = open_todo_items(prev_content);
    let target = open_todo_items(target_content);
    let ghost pv = item_views(prev@);
    let ghost tv = item_views(target@);
    let mut r: Vec<(usize, String)> = Vec::new();
    let mut i: usize = 0;
    while i < prev.len()
        invariant
            pv == item_views(prev@),
            tv == item_views(target@),
            i <= prev.len(),
            item_views(r@) == carry_items(pv.take(i as int), tv),
        decreases prev.len() - i,
    {
        let text = str_chars(prev[i].1.as_str());
        proof {
            assert(pv.take(i + 1).drop_last() =~= pv.take(i as int));
            assert(pv.take(i + 1).last() == pv[i as int]);
            assert(pv[i as int].1 == prev@[i as int].1@);
        }
        let found = text_in(&target, &text);
        proof {
            if found {
                let m = choose|m: int| 0 <= m < target@.len() && (#[trigger] target@[m]).1@ == text@;
                assert(tv[m].1 == target@[m].1@);
            } else {
                assert forall|m: int| 0 <= m < tv.len() implies (#[trigger] tv[m]).1 != pv[i as int].1 by {
                    assert(tv[m].1 == target@[m].1@);
                }
            }
        }
        let ghost before = r@;
        if !found {
            r.push((prev[i].0, prev[i].1.clone()));
            assert(item_views(r@) =~= item_views(before).push(pv[i as int]));
        }
        i = i + 1;
    }
    assert(pv.take(prev.len() as int) =~= pv);
    r
}

/// Depths of the `(depth, text)` items to append: the first at top level,
/// each later one capped at one level deeper than the one before.
pub open spec fn clamped_depths(items: Seq<(int, Seq<char>)>) -> Seq<nat> {
    depths_of(items.map_values(|p: (int, Seq<char>)| if p.0 < 0 { 0nat } else { p.0 as nat }))
}

/// The `- [ ] text` lines for the items, with clamped indentation.
pub open spec fn item_lines(items: Seq<(int, Seq<char>)>) -> Seq<Seq<char>> {
    Seq::new(items.len(), |i: int| open_todo_line(clamped_depths(items)[i], items[i].1))
}

/// The `- [ ] text` lines for `(depth, text)` items. Depths are clamped so
/// each line nests at most one level deeper than the previous line.
pub fn todo_lines_for(items: &Vec<(usize, String)>) -> (r: Vec<Vec<char>>)
    ensures
        views(r@) == item_lines(item_views(items@)),
{
    let ghost iv = item_views(items@);
    let ghost raws = iv.map_values(|p: (int, Seq<char>)| if p.0 < 0 { 0nat } else { p.0 as nat });
    proof {
        lemma_depths_len(raws);
    }
    let mut r: Vec<Vec<char>> = Vec::new();
    let mut prev: usize = 0;
    let mut i: usize = 0;
    while i < items.len()
        invariant
            iv == item_views(items@),
            raws == iv.map_values(|p: (int, Seq<char>)| if p.0 < 0 { 0nat } else { p.0 as nat }),
            depths_of(raws).len() == raws.len() == items.len(),
            i <= items.len(),
            i > 0 ==> prev == depths_of(raws)[i - 1],
            views(r@) == item_lines(iv).take(i as int),
        decreases items.len() - i,
    {
        proof {
            lemma_depths_prefix(raws, i + 1);
            lemma_depths_prefix(raws, i as int);
            assert(raws.take(i + 1).drop_last() =~= raws.take(i as int));
            lemma_depths_len(raws.take(i as int));
            lemma_depth_le_index(raws, i as int);
            if i > 0 {
                lemma_depth_le_index(raws, i - 1);
            }
            assert(raws[i as int] == items@[i as int].0 as nat);
            if i > 0 {
                assert(depths_of(raws.take(i as int)).last() == depths_of(raws)[i - 1]);
            }
            assert(depths_of(raws.take(i + 1))[i as int] == depths_of(raws)[i as int]);
        }
        let d: usize = if i == 0 {
            0
        } else if items[i].0 <= prev + 1 {
            items[i].0
        } else {
            prev + 1
        };
        assert(d as nat == depths_of(raws)[i as int]);
        let text = str_chars(items[i].1.as_str());
        let line = build_open_todo_line(d, &text);
        let ghost before = r@;
        r.push(line);
        proof {
            assert(iv[i as int].1 == items@[i as int].1@);
            assert(views(r@) =~= views(before).push(line@));
            assert(item_lines(iv).take(i + 1) =~= item_lines(iv).take(i as int).push(
                item_lines(iv)[i as int],
            ));
        }
        prev = d;
        i = i + 1;
    }
    assert(item_lines(iv).take(items.len() as int) =~= item_lines(iv));
    r
}

/// Index of the first `Tasks`/`Todos` heading at or after `from`.
pub open spec fn first_tasks_heading(ls: Seq<Seq<char>>, from: int) -> Option<int>
    decreases ls.len() - from,
{
    if from < 0 || from >= ls.len() {
        None
    } else if is_tasks_heading(ls[from]) {
        Some(from)
    } else {
        first_tasks_heading(ls, from + 1)
    }
}

pub proof fn lemma_first_tasks_heading(ls: Seq<Seq<char>>, from: int)
    requires
        0 <= from,
    ensures
        first_tasks_heading(ls, from) matches Some(i) ==> from <= i < ls.len() && is_tasks_heading(
            ls[i],
        ),
    decreases ls.len() - from,
{
    if from < ls.len() && !is_tasks_heading(ls[from]) {
        lemma_first_tasks_heading(ls, from + 1);
    }
}

/// Where new todos go in the section whose body is `ls[s..e]`: after its
/// last non-blank line; in an otherwise blank section, after its first blank
/// line. The flag says a blank line must follow the new todos (the section
/// held one blank line only).
pub open spec fn insert_point(ls: Seq<Seq<char>>, s: int, e: int) -> (int, bool) {
    let sec = ls.subrange(s, e);
    let at = e - crate::text::trail_count(sec, crate::notes::blank_pred());
    if at == s && s < e && crate::text::is_blank(ls[s]) {
        (s + 1, s + 1 == e)
    } else {
        (at, false)
    }
}

/// The note with the new todo lines appended to its first `Tasks`/`Todos`
/// section (or, without one, at the end after a blank line), ending in a
/// newline.
pub open spec fn inserted_content(content: Seq<char>, items: Seq<Seq<char>>) -> Seq<char> {
    let ls = lines(content);
    let out = match first_tasks_heading(ls, 0) {
        Some(h) => {
            let e = crate::notes::section_end(ls, h + 1, lead_hashes(ls[h]) as nat);
            let (at, pad) = insert_point(ls, h + 1, e);
            ls.take(at) + items + (if pad {
                seq![Seq::<char>::empty()]
            } else {
                Seq::<Seq<char>>::empty()
            }) + ls.skip(at)
        },
        None => ls + (if ls.len() > 0 && ls.last().len() > 0 {
            seq![Seq::<char>::empty()]
        } else {
            Seq::<Seq<char>>::empty()
        }) + items,
    };
    crate::notes::ensure_nl(join_lines(out))
}

fn count_hashes(line: &Vec<char>) -> (n: usize)
    ensures
        n == lead_hashes(line@),
{
    let mut n: usize = 0;
    while n < line.len() && line[n] == '#'
        invariant
            n <= line.len(),
            forall|k: int| 0 <= k < n ==> line@[k] == '#',
        decreases line.len() - n,
    {
        n = n + 1;
    }
    proof {
        crate::patterns::lemma_lead_hashes(line@);
        let h = lead_hashes(line@);
        if h < n {
            assert(line@[h] == '#');
        }
        if n < h {
            assert(line@[n as int] == '#');
        }
    }
    n
}

/// Append todo lines to the note's `Tasks`/`Todos` section, or at the end.
pub fn insert_todo_lines(content: &str, items: &Vec<Vec<char>>) -> (r: String)
    ensures
        r@ == inserted_content(content@, views(items@)),
{
    let c = str_chars(content);
    let ls = crate::text::chars_lines(&c);
    let ghost v = views(ls@);
    let mut h: usize = 0;
    let mut found = false;
    while !found && h < ls.len()
        invariant
            v == views(ls@),
            all_single(v),
            h <= ls.len(),
            !found ==> first_tasks_heading(v, h as int) == first_tasks_heading(v, 0),
            found ==> h < ls.len() && first_tasks_heading(v, 0) == Some(h as int),
        decreases ls.len() - h + if found {
            0int
        } else {
            1int
        },
    {
        assert(v[h as int] == ls@[h as int]@);
        assert(crate::notes::single_line_at(v, h as int));
        if tasks_heading_matches(&ls[h]) {
            found = true;
        } else {
            h = h + 1;
        }
    }
    let mut out: Vec<Vec<char>> = Vec::new();
    if found {
        assert(v[h as int] == ls@[h as int]@);
        let level = count_hashes(&ls[h]);
        let start = h + 1;
        let end = crate::notes::section_end_exec(&ls, start, level);
        let mut at = end;
        while at > start && crate::text::chars_blank(&ls[at - 1])
            invariant
                v == views(ls@),
                start <= at <= end <= ls.len(),
                forall|k: int|
                    at - start <= k < end - start ==> crate::notes::blank_pred()(
                        #[trigger] v.subrange(start as int, end as int)[k],
                    ),
            decreases at,
        {
            assert(v.subrange(start as int, end as int)[at - 1 - start] == ls@[at - 1]@);
            assert(crate::notes::blank_pred()(v.subrange(start as int, end as int)[at - 1 - start]));
            at = at - 1;
        }
        proof {
            let sec = v.subrange(start as int, end as int);
            if at > start {
                assert(sec[at - 1 - start] == ls@[at - 1]@);
            }
            crate::text::lemma_trail_count_at(sec, crate::notes::blank_pred(), at - start);
        }
        let mut pad = false;
        if at == start && start < end && crate::text::chars_blank(&ls[start]) {
            at = at + 1;
            if at == end {
                pad = true;
            }
        }
        proof {
            assert(insert_point(v, start as int, end as int) == (at as int, pad));
        }
        crate::notes::push_lines(&mut out, &ls, 0, at);
        crate::notes::push_lines(&mut out, items, 0, items.len());
        if pad {
            out.push(Vec::new());
        }
        crate::notes::push_lines(&mut out, &ls, at, ls.len());
        proof {
            let pad_v = if pad {
                seq![Seq::<char>::empty()]
            } else {
                Seq::<Seq<char>>::empty()
            };
            assert(v.subrange(0, at as int) =~= v.take(at as int));
            assert(v.subrange(at as int, ls.len() as int) =~= v.skip(at as int));
            assert(views(items@).subrange(0, items.len() as int) =~= views(items@));
            assert(views(out@) =~= v.take(at as int) + views(items@) + pad_v + v.skip(at as int));
        }
    } else {
        crate::notes::push_lines(&mut out, &ls, 0, ls.len());
        let n = ls.len();
        if n > 0 && ls[n - 1].len() > 0 {
            out.push(Vec::new());
        }
        crate::notes::push_lines(&mut out, items, 0, items.len());
        proof {
            let pad_v = if v.len() > 0 && v.last().len() > 0 {
                seq![Seq::<char>::empty()]
            } else {
                Seq::<Seq<char>>::empty()
            };
            if n > 0 {
                assert(v.last() == ls@[n - 1]@);
            }
            assert(v.subrange(0, ls.len() as int) =~= v);
            assert(views(items@).subrange(0, items.len() as int) =~= views(items@));
            assert(views(out@) =~= v + pad_v + views(items@));
        }
    }
    let mut body = join_all(&out);
    crate::notes::ensure_trailing_newline(&mut body);
    chars_string(&body)
}

/// The line is an open checkbox whose trimmed text is `want`.
pub open spec fn is_open_todo_with(line: Seq<char>, want: Seq<char>) -> bool {
    checkbox_match(line) is Some && checkbox_match(line)->0.mark == ' ' && trim(
        checkbox_match(line)->0.text,
    ) == want
}

/// Index of the first open checkbox line at or after `from` whose trimmed
/// text is `want`.
pub open spec fn first_open_with(ls: Seq<Seq<char>>, want: Seq<char>, from: int) -> Option<int>
    decreases ls.len() - from,
{
    if from < 0 || from >= ls.len() {
        None
    } else if is_open_todo_with(ls[from], want) {
        Some(from)
    } else {
        first_open_with(ls, want, from + 1)
    }
}

pub proof fn lemma_first_open_with(ls: Seq<Seq<char>>, want: Seq<char>, from: int)
    requires
        0 <= from,
    ensures
        match first_open_with(ls, want, from) {
            Some(i) => from <= i < ls.len() && is_open_todo_with(ls[i], want),
            None => forall|k: int| from <= k < ls.len() ==> !is_open_todo_with(#[trigger] ls[k], want),
        },
    decreases ls.len() - from,
{
    if from < ls.len() && !is_open_todo_with(ls[from], want) {
        lemma_first_open_with(ls, want, from + 1);
    }
}

/// The body without its first open todo whose trimmed text is the trimmed
/// `text` (blank lines at either end dropped); `None` when there is none.
pub open spec fn taken_body(body: Seq<char>, text: Seq<char>) -> Option<Seq<char>> {
    let ls = lines(body);
    match first_open_with(ls, trim(text), 0) {
        None => None,
        Some(i) => Some(join_lines(crate::notes::trim_blank_lines(ls.remove(i)))),
    }
}

fn line_is_open_todo_with(line: &Vec<char>, want: &Vec<char>) -> (b: bool)
    requires
        crate::text::single_line(line@),
    ensures
        b == is_open_todo_with(line@, want@),
{
    match checkbox_captures(line) {
        Some(caps) => {
            if caps.mark == ' ' {
                let t = trim_chars(&caps.text);
                crate::text::chars_eq(&t, want)
            } else {
                false
            }
        },
        None => false,
    }
}

/// Remove the first open todo with the given text from a section body.
pub fn take_open_todo_from_body(body: &str, text: &str) -> (r: Option<String>)
    ensures
        match r {
            Some(s) => taken_body(body@, text@) == Some(s@),
            None => taken_body(body@, text@) is None,
        },
{
    let t = str_chars(text);
    let want = trim_chars(&t);
    let ls = str_lines(body);
    let ghost v = views(ls@);
    let mut i: usize = 0;
    while i < ls.len()
        invariant
            v == views(ls@),
            v == lines(body@),
            want@ == trim(text@),
            all_single(v),
            i <= ls.len(),
            first_open_with(v, want@, i as int) == first_open_with(v, want@, 0),
        decreases ls.len() - i,
    {
        assert(v[i as int] == ls@[i as int]@);
        assert(crate::notes::single_line_at(v, i as int));
        if line_is_open_todo_with(&ls[i], &want) {
            let mut kept: Vec<Vec<char>> = Vec::new();
            crate::notes::push_lines(&mut kept, &ls, 0, i);
            crate::notes::push_lines(&mut kept, &ls, i + 1, ls.len());
            proof {
                assert(views(kept@) =~= v.remove(i as int));
            }
            let r = crate::notes::trim_blank_range(&kept, 0, kept.len());
            proof {
                assert(views(kept@).subrange(0, kept.len() as int) =~= views(kept@));
            }
            return Some(chars_string(&r));
        }
        i = i + 1;
    }
    None
}

/// No line before the first match matches.
proof fn lemma_first_open_before(ls: Seq<Seq<char>>, want: Seq<char>, from: int, k: int)
    requires
        0 <= from <= k,
        first_open_with(ls, want, from) matches Some(i) && k < i,
    ensures
        !is_open_todo_with(ls[k], want),
    decreases k - from,
{
    if from < k {
        lemma_first_open_before(ls, want, from + 1, k);
    }
}

/// Taking a todo out of a section body removes exactly one line: the first
/// open todo whose trimmed text is the trimmed `text`. The body read back
/// is the body's lines with only that line removed and blank lines cut
/// from both ends, so every other non-blank line (every other todo among
/// them) is still there. Without such a todo nothing is taken. (For bodies
/// whose lines keep no carriage return that `str::lines` would strip.)
pub proof fn law_take_removes_one_line(body: Seq<char>, text: Seq<char>)
    requires
        crate::text::settled(lines(body)),
    ensures
        ({
            let ls = lines(body);
            match taken_body(body, text) {
                None => forall|k: int|
                    0 <= k < ls.len() ==> !is_open_todo_with(#[trigger] ls[k], trim(text)),
                Some(s) => exists|i: int|
                    {
                        &&& 0 <= i < ls.len()
                        &&& is_open_todo_with(#[trigger] ls[i], trim(text))
                        &&& forall|k: int| 0 <= k < i ==> !is_open_todo_with(#[trigger] ls[k], trim(text))
                        &&& exists|a: int, b: int|
                            {
                                &&& 0 <= a <= b <= ls.len() - 1
                                &&& lines(s) == #[trigger] ls.remove(i).subrange(a, b)
                                &&& forall|j: int|
                                    0 <= j < a ==> crate::text::is_blank(#[trigger] ls.remove(i)[j])
                                &&& forall|j: int|
                                    b <= j < ls.len() - 1 ==> crate::text::is_blank(
                                        #[trigger] ls.remove(i)[j],
                                    )
                            }
                        &&& forall|k: int|
                            0 <= k < ls.len() && k != i && !crate::text::is_blank(#[trigger] ls[k])
                                ==> lines(s).contains(ls[k])
                    },
            }
        }),
{
    let ls = lines(body);
    let want = trim(text);
    lemma_first_open_with(ls, want, 0);
    match first_open_with(ls, want, 0) {
        None => {},
        Some(i) => {
            assert forall|k: int| 0 <= k < i implies !is_open_todo_with(#[trigger] ls[k], want) by {
                lemma_first_open_before(ls, want, 0, k);
            }
            let q = ls.remove(i);
            crate::text::lemma_lines_single(body);
            assert forall|j: int| 0 <= j < q.len() implies #[trigger] q[j] == (if j < i {
                ls[j]
            } else {
                ls[j + 1]
            }) by {}
            let t0 = crate::notes::trim_blank_lines(q);
            let (a, b) = crate::notes::trim_blank_bounds(q);
            assert(all_single(q)) by {
                assert forall|j: int| 0 <= j < q.len() implies crate::text::single_line(#[trigger] q[j]) by {
                    if j >= i {
                        assert(q[j] == ls[j + 1]);
                    }
                }
            }
            assert(crate::text::settled(q)) by {
                assert forall|j: int| 0 <= j < q.len() implies crate::text::strip_cr(#[trigger] q[j]) == q[j] by {
                    if j >= i {
                        assert(q[j] == ls[j + 1]);
                    }
                }
            }
            crate::notes::lemma_trim_blank_lines_shape(q);
            if t0.len() > 0 {
                assert(t0.last().len() > 0) by {
                    if t0.last().len() == 0 {
                        assert(crate::text::is_blank(t0.last()));
                    }
                }
            }
            crate::text::lemma_lines_of_joined(t0);
            let s = join_lines(t0);
            assert(lines(s) == q.subrange(a, b));
            assert forall|k: int|
                0 <= k < ls.len() && k != i && !crate::text::is_blank(#[trigger] ls[k]) implies lines(
                s,
            ).contains(ls[k]) by {
                let j = if k < i {
                    k
                } else {
                    k - 1
                };
                assert(q[j] == ls[k]);
                assert(a <= j < b);
                assert(lines(s)[j - a] == ls[k]);
            }
        },
    }
}

/// Some line of the body is an open todo whose trimmed text is the trimmed
/// `text`.
pub open spec fn has_open_todo(body: Seq<char>, text: Seq<char>) -> bool {
    exists|i: int|
        0 <= i < lines(body).len() && is_open_todo_with(#[trigger] lines(body)[i], trim(text))
}

/// The section body already holds this open todo.
pub fn body_has_open_todo(body: &str, text: &str) -> (b: bool)
    ensures
        b == has_open_todo(body@, text@),
{
    let t = str_chars(text);
    let want = trim_chars(&t);
    let ls = str_lines(body);
    let ghost v = views(ls@);
    let mut i: usize = 0;
    while i < ls.len()
        invariant
            v == views(ls@),
            v == lines(body@),
            all_single(v),
            want@ == trim(text@),
            i <= ls.len(),
            forall|k: int| 0 <= k < i ==> !is_open_todo_with(#[trigger] v[k], want@),
        decreases ls.len() - i,
    {
        assert(v[i as int] == ls@[i as int]@);
        assert(crate::notes::single_line_at(v, i as int));
        if line_is_open_todo_with(&ls[i], &want) {
            return true;
        }
        i = i + 1;
    }
    false
}

/// `"- [ ] text"` on a line of its own after the body's trimmed end (or alone
/// when the body is blank).
pub open spec fn appended_body(body: Seq<char>, text: Seq<char>) -> Seq<char> {
    let line = seq!['-', ' ', '[', ' ', ']', ' '] + text;
    let trimmed = crate::text::trim_end(body);
    if trimmed.len() == 0 {
        line
    } else {
        trimmed + seq!['\n'] + line
    }
}

/// Add an open todo at the end of a section body.
pub fn append_open_todo(body: &str, text: &str) -> (r: String)
    ensures
        r@ == appended_body(body@, text@),
{
    let b = str_chars(body);
    let t = str_chars(text);
    let line = build_open_todo_line(0, &t);
    assert(line@ =~= seq!['-', ' ', '[', ' ', ']', ' '] + t@);
    let trimmed = crate::text::trim_end_chars(&b);
    if trimmed.len() == 0 {
        chars_string(&line)
    } else {
        let mut r = trimmed;
        r.push('\n');
        extend_chars(&mut r, &line);
        chars_string(&r)
    }
}

/// The heading line's trimmed, lowered title equals or contains `want`.
pub open spec fn heading_selected(line: Seq<char>, want: Seq<char>) -> bool {
    heading_match(line) is Some && {
        let key = lowercase(trim(crate::notes::heading_title(line)));
        key == want || crate::text::contains(key, want)
    }
}

/// First `j >= from` that is a heading of level at most `level` (fenced
/// code is not considered), else the number of lines.
pub open spec fn plain_end_from(ls: Seq<Seq<char>>, from: int, level: nat) -> int
    decreases ls.len() - from,
{
    if from < 0 || from >= ls.len() {
        ls.len() as int
    } else if heading_match(ls[from]) is Some && crate::notes::heading_level(ls[from]) <= level {
        from
    } else {
        plain_end_from(ls, from + 1, level)
    }
}

/// 1-based line `ln` lies under a selected heading: after the heading line,
/// before the next heading of the same or a higher level.
pub open spec fn under_selected(ls: Seq<Seq<char>>, want: Seq<char>, ln: int) -> bool {
    exists|i: int|
        0 <= i < ls.len() && #[trigger] heading_selected(ls[i], want) && i + 2 <= ln
            < plain_end_from(ls, i + 1, crate::notes::heading_level(ls[i])) + 1
}

/// The todos whose line satisfies `keep`, in order.
pub open spec fn filter_by_line(t: Seq<TodoView>, keep: spec_fn(int) -> bool) -> Seq<TodoView>
    decreases t.len(),
{
    if t.len() == 0 {
        Seq::<TodoView>::empty()
    } else if keep(t.last().line) {
        filter_by_line(t.drop_last(), keep).push(t.last())
    } else {
        filter_by_line(t.drop_last(), keep)
    }
}

/// Todos under the chosen heading: all of them without a (non-blank)
/// heading, none when no heading title equals or contains it, else those
/// whose line lies under such a heading.
pub open spec fn todos_under(content: Seq<char>, todos: Seq<TodoView>, heading: Option<Seq<char>>) -> Seq<
    TodoView,
> {
    match heading {
        None => todos,
        Some(h) => if trim(h).len() == 0 {
            todos
        } else {
            let want = lowercase(trim(h));
            let ls = lines(content);
            if exists|i: int| 0 <= i < ls.len() && #[trigger] heading_selected(ls[i], want) {
                filter_by_line(todos, |ln: int| under_selected(ls, want, ln))
            } else {
                Seq::<TodoView>::empty()
            }
        },
    }
}

fn plain_section_end(ls: &Vec<Vec<char>>, from: usize, level: usize) -> (e: usize)
    requires
        from <= ls.len(),
        all_single(views(ls@)),
    ensures
        e == plain_end_from(views(ls@), from as int, level as nat),
        from <= e <= ls.len(),
{
    let ghost v = views(ls@);
    let mut j = from;
    while j < ls.len()
        invariant
            v == views(ls@),
            all_single(v),
            from <= j <= ls.len(),
            plain_end_from(v, j as int, level as nat) == plain_end_from(v, from as int, level as nat),
        decreases ls.len() - j,
    {
        assert(v[j as int] == ls@[j as int]@);
        assert(crate::notes::single_line_at(v, j as int));
        match heading_captures(&ls[j]) {
            Some((l, _)) => {
                if l <= level {
                    return j;
                }
            },
            None => {},
        }
        j = j + 1;
    }
    j
}

/// `[s, e)` is the 1-based line range under a selected heading among the
/// first `n` lines.
pub open spec fn range_of_selected(v: Seq<Seq<char>>, want: Seq<char>, s: int, e: int, n: int) -> bool {
    exists|h: int|
        0 <= h < n && #[trigger] heading_selected(v[h], want) && s == h && e == plain_end_from(
            v,
            h + 1,
            crate::notes::heading_level(v[h]),
        )
}

pub proof fn lemma_ranges_lift(v: Seq<Seq<char>>, want: Seq<char>, starts: Seq<usize>, ends: Seq<usize>, n: int)
    requires
        starts.len() == ends.len(),
        forall|m: int|
            0 <= m < starts.len() ==> #[trigger] range_of_selected(
                v,
                want,
                starts[m] as int,
                ends[m] as int,
                n,
            ),
    ensures
        forall|m: int|
            0 <= m < starts.len() ==> #[trigger] range_of_selected(
                v,
                want,
                starts[m] as int,
                ends[m] as int,
                n + 1,
            ),
{
    assert forall|m: int| 0 <= m < starts.len() implies #[trigger] range_of_selected(
        v,
        want,
        starts[m] as int,
        ends[m] as int,
        n + 1,
    ) by {
        assert(range_of_selected(v, want, starts[m] as int, ends[m] as int, n));
        let h = choose|h: int|
            0 <= h < n && #[trigger] heading_selected(v[h], want) && starts[m] as int == h
                && ends[m] as int == plain_end_from(v, h + 1, crate::notes::heading_level(v[h]));
        assert(heading_selected(v[h], want));
    }
}

/// Line `j` closes a selected section of level `level`: a heading of that
/// level or a higher one.
pub open spec fn closes_plain(line: Seq<char>, level: nat) -> bool {
    heading_match(line) is Some && crate::notes::heading_level(line) <= level
}

proof fn lemma_plain_end_past(ls: Seq<Seq<char>>, from: int, level: nat, x: int)
    requires
        0 <= from <= x < ls.len(),
        forall|j: int| from <= j <= x ==> !closes_plain(#[trigger] ls[j], level),
    ensures
        plain_end_from(ls, from, level) > x,
    decreases ls.len() - from,
{
    assert(!closes_plain(ls[from], level));
    if from < x {
        lemma_plain_end_past(ls, from + 1, level, x);
    } else {
        lemma_plain_end_clear(ls, from + 1, level);
    }
}

proof fn lemma_plain_end_clear(ls: Seq<Seq<char>>, from: int, level: nat)
    requires
        0 <= from,
    ensures
        from <= ls.len() ==> from <= plain_end_from(ls, from, level) <= ls.len(),
        forall|j: int| from <= j < plain_end_from(ls, from, level) ==> !closes_plain(#[trigger] ls[j], level),
    decreases ls.len() - from,
{
    if from < ls.len() && !closes_plain(ls[from], level) {
        lemma_plain_end_clear(ls, from + 1, level);
    }
}

proof fn lemma_filter_keeps(t: Seq<TodoView>, keep: spec_fn(int) -> bool, k: int)
    requires
        0 <= k < t.len(),
        keep(t[k].line),
    ensures
        filter_by_line(t, keep).contains(t[k]),
    decreases t.len(),
{
    let f = filter_by_line(t.drop_last(), keep);
    if k == t.len() - 1 {
        assert(filter_by_line(t, keep) == f.push(t.last()));
        assert(filter_by_line(t, keep)[f.len() as int] == t[k]);
    } else {
        lemma_filter_keeps(t.drop_last(), keep, k);
        assert(t.drop_last()[k] == t[k]);
        let j = choose|j: int| 0 <= j < f.len() && f[j] == t[k];
        if keep(t.last().line) {
            assert(filter_by_line(t, keep)[j] == f[j]);
        }
    }
}

proof fn lemma_filter_only(t: Seq<TodoView>, keep: spec_fn(int) -> bool)
    ensures
        forall|x: TodoView| #[trigger] filter_by_line(t, keep).contains(x) ==> t.contains(x) && keep(x.line),
    decreases t.len(),
{
    if t.len() > 0 {
        let f = filter_by_line(t.drop_last(), keep);
        lemma_filter_only(t.drop_last(), keep);
        assert forall|x: TodoView| #[trigger] filter_by_line(t, keep).contains(x) implies t.contains(x)
            && keep(x.line) by {
            let g = filter_by_line(t, keep);
            let j = choose|j: int| 0 <= j < g.len() && g[j] == x;
            if keep(t.last().line) && j == f.len() {
                assert(x == t.last());
                assert(t[t.len() - 1] == x);
            } else {
                assert(g[j] == f[j]);
                assert(f.contains(x));
                let m = choose|m: int| 0 <= m < t.drop_last().len() && t.drop_last()[m] == x;
                assert(t[m] == x);
            }
        }
    }
}

/// Filtering by a heading keeps a todo that lies after a selected heading
/// of level `L` and before the next heading of level `L` or higher: deeper
/// headings (`###` under a `##`) in between do not end the section.
pub proof fn law_filter_keeps_nested(
    content: Seq<char>,
    todos: Seq<TodoView>,
    heading: Seq<char>,
    i: int,
    k: int,
)
    requires
        trim(heading).len() > 0,
        0 <= i < lines(content).len(),
        heading_selected(lines(content)[i], lowercase(trim(heading))),
        0 <= k < todos.len(),
        i + 1 <= todos[k].line - 1 < lines(content).len(),
        forall|j: int|
            i < j <= todos[k].line - 1 ==> !(heading_match(#[trigger] lines(content)[j]) is Some
                && crate::notes::heading_level(lines(content)[j]) <= crate::notes::heading_level(
                lines(content)[i],
            )),
    ensures
        todos_under(content, todos, Some(heading)).contains(todos[k]),
{
    let ls = lines(content);
    let want = lowercase(trim(heading));
    let level = crate::notes::heading_level(ls[i]);
    assert forall|j: int| i + 1 <= j <= todos[k].line - 1 implies !closes_plain(#[trigger] ls[j], level) by {
        assert(!(heading_match(ls[j]) is Some && crate::notes::heading_level(ls[j]) <= level));
    }
    lemma_plain_end_past(ls, i + 1, level, todos[k].line - 1);
    let keep = |ln: int| under_selected(ls, want, ln);
    assert(keep(todos[k].line));
    lemma_filter_keeps(todos, keep, k);
    assert(todos_under(content, todos, Some(heading)) == filter_by_line(todos, keep));
}

/// And it keeps nothing else: every todo it keeps is one of the todos given,
/// and lies after a selected heading with no heading of that heading's
/// level or a higher one in between.
pub proof fn law_filter_keeps_only_under(content: Seq<char>, todos: Seq<TodoView>, heading: Seq<char>)
    requires
        trim(heading).len() > 0,
    ensures
        forall|x: TodoView| #[trigger] todos_under(content, todos, Some(heading)).contains(x) ==> {
            let ls = lines(content);
            &&& todos.contains(x)
            &&& exists|i: int|
                {
                    &&& 0 <= i < ls.len()
                    &&& #[trigger] heading_selected(ls[i], lowercase(trim(heading)))
                    &&& i + 1 <= x.line - 1 < ls.len()
                    &&& forall|j: int|
                        i < j <= x.line - 1 ==> !(heading_match(#[trigger] ls[j]) is Some
                            && crate::notes::heading_level(ls[j]) <= crate::notes::heading_level(ls[i]))
                }
        },
{
    let ls = lines(content);
    let want = lowercase(trim(heading));
    let keep = |ln: int| under_selected(ls, want, ln);
    if exists|i: int| 0 <= i < ls.len() && #[trigger] heading_selected(ls[i], want) {
        assert(todos_under(content, todos, Some(heading)) == filter_by_line(todos, keep));
        lemma_filter_only(todos, keep);
        assert forall|x: TodoView| #[trigger] todos_under(content, todos, Some(heading)).contains(x) implies {
            &&& todos.contains(x)
            &&& exists|i: int|
                {
                    &&& 0 <= i < ls.len()
                    &&& #[trigger] heading_selected(ls[i], want)
                    &&& i + 1 <= x.line - 1 < ls.len()
                    &&& forall|j: int|
                        i < j <= x.line - 1 ==> !(heading_match(#[trigger] ls[j]) is Some
                            && crate::notes::heading_level(ls[j]) <= crate::notes::heading_level(ls[i]))
                }
        } by {
            assert(filter_by_line(todos, keep).contains(x));
            assert(keep(x.line));
            let i = choose|i: int|
                0 <= i < ls.len() && #[trigger] heading_selected(ls[i], want) && i + 2 <= x.line
                    < plain_end_from(ls, i + 1, crate::notes::heading_level(ls[i])) + 1;
            let level = crate::notes::heading_level(ls[i]);
            lemma_plain_end_clear(ls, i + 1, level);
            assert forall|j: int| i < j <= x.line - 1 implies !(heading_match(#[trigger] ls[j]) is Some
                && crate::notes::heading_level(ls[j]) <= level) by {
                assert(!closes_plain(ls[j], level));
            }
        }
    } else {
        assert(todos_under(content, todos, Some(heading)) == Seq::<TodoView>::empty());
    }
}

/// Keep only todos under the heading whose title equals or contains
/// `heading` (case-insensitive), until the next same-or-higher heading.
pub fn filter_todos_by_heading(content: &str, todos: Vec<TodoItem>, heading: Option<&str>) -> (r: Vec<
    TodoItem,
>)
    ensures
        todo_views(r@) == todos_under(content@, todo_views(todos@), opt_view(heading)),
{
    let want = match opt_str_view(heading) {
        None => return todos,
        Some(h) => trim_chars(&h),
    };
    if want.len() == 0 {
        return todos;
    }
    let want_l = lowercase_chars(&want);
    let ls = str_lines(content);
    let ghost v = views(ls@);
    let mut starts: Vec<usize> = Vec::new();
    let mut ends: Vec<usize> = Vec::new();
    let mut i: usize = 0;
    while i < ls.len()
        invariant
            v == views(ls@),
            v == lines(content@),
            all_single(v),
            i <= ls.len(),
            starts.len() == ends.len(),
            forall|m: int|
                0 <= m < starts.len() ==> #[trigger] range_of_selected(
                    v,
                    want_l@,
                    starts@[m] as int,
                    ends@[m] as int,
                    i as int,
                ),
            forall|h: int|
                0 <= h < i && #[trigger] heading_selected(v[h], want_l@) ==> exists|m: int|
                    0 <= m < starts.len() && starts@[m] == h && ends@[m] == plain_end_from(
                        v,
                        h + 1,
                        crate::notes::heading_level(v[h]),
                    ),
        decreases ls.len() - i,
    {
        assert(v[i as int] == ls@[i as int]@);
        assert(crate::notes::single_line_at(v, i as int));
        match heading_captures(&ls[i]) {
            Some((level, title)) => {
                let key = lowercase_chars(&trim_chars(&title));
                if crate::text::chars_eq(&key, &want_l) || crate::text::chars_contain(&key, &want_l) {
                    let j = plain_section_end(&ls, i + 1, level);
                    let ghost (s0, e0) = (starts@, ends@);
                    starts.push(i);
                    ends.push(j);
                    proof {
                        assert(heading_selected(v[i as int], want_l@));
                        assert forall|m: int| 0 <= m < starts.len() implies #[trigger] range_of_selected(
                            v,
                            want_l@,
                            starts@[m] as int,
                            ends@[m] as int,
                            i + 1,
                        ) by {
                            if m < s0.len() {
                                assert(starts@[m] == s0[m] && ends@[m] == e0[m]);
                                assert(range_of_selected(v, want_l@, s0[m] as int, e0[m] as int, i as int));
                            } else {
                                assert(heading_selected(v[i as int], want_l@));
                            }
                        }
                        assert forall|h: int| 0 <= h < i + 1 && #[trigger] heading_selected(
                            v[h],
                            want_l@,
                        ) implies exists|m: int|
                            0 <= m < starts.len() && starts@[m] == h && ends@[m]
                                == plain_end_from(v, h + 1, crate::notes::heading_level(v[h])) by {
                            if h < i {
                                let m = choose|m: int|
                                    0 <= m < s0.len() && s0[m] == h && e0[m] == plain_end_from(
                                        v,
                                        h + 1,
                                        crate::notes::heading_level(v[h]),
                                    );
                                assert(starts@[m] == s0[m] && ends@[m] == e0[m]);
                            } else {
                                assert(starts@[s0.len() as int] == h);
                            }
                        }
                    }
                } else {
                    assert(!heading_selected(v[i as int], want_l@));
                    proof { lemma_ranges_lift(v, want_l@, starts@, ends@, i as int); }
                }
            },
            None => {
                assert(!heading_selected(v[i as int], want_l@));
                proof { lemma_ranges_lift(v, want_l@, starts@, ends@, i as int); }
            },
        }
        i = i + 1;
    }
    if starts.len() == 0 {
        proof {
            assert forall|h: int| 0 <= h < v.len() implies !#[trigger] heading_selected(
                v[h],
                want_l@,
            ) by {}
        }
        return Vec::new();
    }
    let ghost keep = |ln: int| under_selected(v, want_l@, ln);
    proof {
        assert(range_of_selected(v, want_l@, starts@[0] as int, ends@[0] as int, v.len() as int));
        assert forall|ln: int| #[trigger] keep(ln) <==> exists|m: int|
            0 <= m < starts.len() && #[trigger] starts@[m] + 2 <= ln < ends@[m] + 1 by {
            if keep(ln) {
                let h = choose|h: int|
                    0 <= h < v.len() && #[trigger] heading_selected(v[h], want_l@) && h + 2 <= ln
                        < plain_end_from(v, h + 1, crate::notes::heading_level(v[h])) + 1;
                let m = choose|m: int|
                    0 <= m < starts.len() && starts@[m] == h && ends@[m] == plain_end_from(
                        v,
                        h + 1,
                        crate::notes::heading_level(v[h]),
                    );
                assert(starts@[m] + 2 <= ln < ends@[m] + 1);
            }
            if exists|m: int| 0 <= m < starts.len() && #[trigger] starts@[m] + 2 <= ln < ends@[m] + 1 {
                let m = choose|m: int| 0 <= m < starts.len() && #[trigger] starts@[m] + 2 <= ln < ends@[m] + 1;
                assert(range_of_selected(v, want_l@, starts@[m] as int, ends@[m] as int, v.len() as int));
            }
        }
    }
    let ghost t = todo_views(todos@);
    let mut out: Vec<TodoItem> = Vec::new();
    let mut k: usize = 0;
    while k < todos.len()
        invariant
            t == todo_views(todos@),
            k <= todos.len(),
            starts.len() == ends.len(),
            forall|ln: int|
                #[trigger] keep(ln) <==> exists|m: int|
                    0 <= m < starts.len() && #[trigger] starts@[m] + 2 <= ln < ends@[m] + 1,
            todo_views(out@) == filter_by_line(t.take(k as int), keep),
        decreases todos.len() - k,
    {
        let ln = todos[k].line;
        let mut m: usize = 0;
        let mut inside = false;
        while m < starts.len() && !inside
            invariant
                m <= starts.len(),
                starts.len() == ends.len(),
                inside ==> exists|q: int| 0 <= q < starts.len() && #[trigger] starts@[q] + 2 <= ln < ends@[q] + 1,
                !inside ==> forall|q: int| 0 <= q < m ==> !(#[trigger] starts@[q] + 2 <= ln < ends@[q] + 1),
            decreases starts.len() - m + if inside {
                0int
            } else {
                1int
            },
        {
            if ln >= 2 && starts[m] <= ln - 2 && ln <= ends[m] {
                inside = true;
            } else {
                m = m + 1;
            }
        }
        proof {
            assert(t.take(k + 1).drop_last() =~= t.take(k as int));
            assert(t.take(k + 1).last() == todos@[k as int].view());
            assert(inside == keep(ln as int));
        }
        let ghost before = out@;
        if inside {
            let item = TodoItem {
                line: todos[k].line,
                checked: todos[k].checked,
                text: todos[k].text.clone(),
                depth: todos[k].depth,
                parent_line: todos[k].parent_line,
            };
            out.push(item);
            assert(todo_views(out@) =~= todo_views(before).push(todos@[k as int].view()));
        }
        k = k + 1;
    }
    assert(t.take(todos.len() as int) =~= t);
    out
}

/// How to pick todos and the free-form notes pane for a snapshot.
#[derive(Clone, Copy)]
pub struct SnapshotFilter<'a> {
    /// Only todos under this `##` heading (e.g. `Tasks`). `None` = every checkbox.
    pub todo_heading: Option<&'a str>,
    /// Named notes heading. Ignored when `notes_h2_count` is set.
    pub notes_heading: Option<&'a str>,
    /// First N `##` sections, headings included. Overrides `notes_heading`.
    pub notes_h2_count: Option<usize>,
}

impl<'a> Default for SnapshotFilter<'a> {
    fn default() -> (f: Self)
        ensures
            f.todo_heading is None && f.notes_heading is None && f.notes_h2_count is None,
    {
        SnapshotFilter { todo_heading: None, notes_heading: None, notes_h2_count: None }
    }
}

/// The notes pane of a note under a filter: the first `n` `##` sections when
/// a positive count is set, else the section under the (trimmed) notes
/// heading, the whole-note journal when there is none.
pub open spec fn notes_text(content: Seq<char>, notes_heading: Option<Seq<char>>, h2_count: Option<usize>) -> Seq<char> {
    match h2_count {
        Some(n) if n > 0 => crate::notes::first_h2_text(content, n as int),
        _ => crate::notes::section_text(
            content,
            match notes_heading {
                Some(h) => trim(h),
                None => Seq::<char>::empty(),
            },
        ),
    }
}

impl<'a> SnapshotFilter<'a> {
    /// The notes pane of `content` under this filter.
    pub fn notes_from(&self, content: &str) -> (r: String)
        ensures
            r@ == notes_text(content@, opt_view(self.notes_heading), self.notes_h2_count),
    {
        match self.notes_h2_count {
            Some(n) => {
                if n > 0 {
                    return crate::notes::extract_first_h2_sections(content, n);
                }
            },
            None => {},
        }
        let h = match opt_str_view(self.notes_heading) {
            Some(h) => trim_chars(&h),
            None => Vec::new(),
        };
        let c = str_chars(content);
        let r = crate::notes::extract_section_chars(&c, &h);
        chars_string(&r)
    }
}

/// A todo text as it is stored: trimmed, non-empty and on one line.
pub open spec fn valid_todo_text(text: Seq<char>) -> bool {
    trim(text).len() > 0 && crate::text::single_line(trim(text)) && !trim(text).contains('\r')
}

/// Trim a todo text, refusing an empty or multi-line one.
pub fn validate_todo_text(text: &str) -> (r: Result<String, VaultError>)
    ensures
        match r {
            Ok(s) => valid_todo_text(text@) && s@ == trim(text@),
            Err(VaultError::Io(m)) => !valid_todo_text(text@) && m@ == if trim(text@).len()
                == 0 {
                "todo text is empty"@
            } else {
                "todo text must be a single line"@
            },
            Err(_) => false,
        },
{
    let t = trim_chars(&str_chars(text));
    if t.len() == 0 {
        return Err(io_error("todo text is empty"));
    }
    let mut i: usize = 0;
    while i < t.len()
        invariant
            t@ == trim(text@),
            t@.len() > 0,
            i <= t.len(),
            forall|k: int| 0 <= k < i ==> t@[k] != '\n' && t@[k] != '\r',
        decreases t.len() - i,
    {
        if t[i] == '\n' || t[i] == '\r' {
            proof {
                if t@[i as int] == '\n' {
                    assert(!crate::text::single_line(t@));
                } else {
                    assert(t@[i as int] == '\r');
                    assert(t@.contains('\r'));
                }
            }
            return Err(io_error("todo text must be a single line"));
        }
        i = i + 1;
    }
    proof {
        if t@.contains('\r') {
            let k = choose|k: int| 0 <= k < t@.len() && t@[k] == '\r';
        }
    }
    Ok(chars_string(&t))
}

/// The heading a deferred todo moves under: the trimmed heading, `Tasks`
/// when none or blank.
pub open spec fn defer_heading_of(heading: Option<Seq<char>>) -> Seq<char> {
    match heading {
        Some(h) if trim(h).len() > 0 => trim(h),
        _ => "Tasks"@,
    }
}

/// The heading a deferred todo moves under.
pub fn defer_heading(heading: Option<&str>) -> (r: String)
    ensures
        r@ == defer_heading_of(opt_view(heading)),
{
    match opt_str_view(heading) {
        Some(h) => {
            let t = trim_chars(&h);
            if t.len() > 0 {
                return chars_string(&t);
            }
        },
        None => {},
    }
    String::from_str("Tasks")
}

/// Today's note after an open todo is deferred from its section: `None` when
/// the section holds no open todo with that text.
pub open spec fn deferred_today(content: Seq<char>, heading: Seq<char>, text: Seq<char>) -> Option<
    Seq<char>,
> {
    match taken_body(crate::notes::section_text(content, heading), text) {
        None => None,
        Some(stripped) => Some(crate::notes::replaced_section(content, heading, stripped)),
    }
}

/// Today's note without the deferred todo.
pub fn defer_today_next(content: &str, heading: &str, text: &str) -> (r: Result<String, VaultError>)
    ensures
        match r {
            Ok(s) => deferred_today(content@, heading@, text@) == Some(s@),
            Err(VaultError::Io(m)) => deferred_today(content@, heading@, text@) is None && m@ == "open todo "@ + crate::text::debug_quoted(text@) + " not found under ## "@
                + heading@,
            Err(_) => false,
        },
{
    let body = crate::notes::extract_section(content, heading);
    match take_open_todo_from_body(body.as_str(), text) {
        None => {
            let mut m = str_chars("open todo ");
            extend_chars(&mut m, &str_chars(crate::text::quoted(text).as_str()));
            extend_chars(&mut m, &str_chars(" not found under ## "));
            extend_chars(&mut m, &str_chars(heading));
            Err(VaultError::Io(chars_string(&m)))
        },
        Some(stripped) => Ok(crate::notes::replace_or_append_section(content, heading, stripped.as_str())),
    }
}

/// Tomorrow's note after a deferred todo lands in its section: `None` when
/// the section already holds that open todo.
pub open spec fn deferred_tomorrow(content: Seq<char>, heading: Seq<char>, text: Seq<char>) -> Option<
    Seq<char>,
> {
    let body = crate::notes::section_text(content, heading);
    if has_open_todo(body, text) {
        None
    } else {
        Some(crate::notes::replaced_section(content, heading, appended_body(body, text)))
    }
}

/// Tomorrow's note with the deferred todo appended under the heading.
pub fn defer_tomorrow_next(content: &str, heading: &str, text: &str) -> (r: Option<String>)
    ensures
        match r {
            Some(s) => deferred_tomorrow(content@, heading@, text@) == Some(s@),
            None => deferred_tomorrow(content@, heading@, text@) is None,
        },
{
    let body = crate::notes::extract_section(content, heading);
    if body_has_open_todo(body.as_str(), text) {
        None
    } else {
        let next_body = append_open_todo(body.as_str(), text);
        Some(crate::notes::replace_or_append_section(content, heading, next_body.as_str()))
    }
}

/// A notes heading for writing must be a single line.
pub open spec fn notes_heading_ok(heading: Option<Seq<char>>) -> bool {
    match heading {
        Some(h) => !trim(h).contains('\n') && !trim(h).contains('\r'),
        None => true,
    }
}

/// The note after the notes pane is set to `body`: the first `n` `##`
/// sections when a positive count is set, else the section under the
/// (trimmed) notes heading.
pub open spec fn notes_written(content: Seq<char>, notes_heading: Option<Seq<char>>, h2_count: Option<usize>, body: Seq<char>) -> Seq<char> {
    match h2_count {
        Some(n) if n > 0 => crate::notes::replaced_first_h2(content, n as int, body),
        _ => crate::notes::replaced_section(
            content,
            match notes_heading {
                Some(h) => trim(h),
                None => Seq::<char>::empty(),
            },
            body,
        ),
    }
}

impl<'a> SnapshotFilter<'a> {
    /// The note after the notes pane is set to `body`; a multi-line notes
    /// heading is refused.
    /// Refuse a notes heading that spans lines; the trimmed heading (empty
    /// when none is set) otherwise.
    pub fn checked_notes_heading(&self) -> (r: Result<Vec<char>, VaultError>)
        ensures
            match r {
                Ok(h) => notes_heading_ok(opt_view(self.notes_heading)) && h@ == match opt_view(
                    self.notes_heading,
                ) {
                    Some(x) => trim(x),
                    None => Seq::<char>::empty(),
                },
                Err(VaultError::Io(m)) => !notes_heading_ok(opt_view(self.notes_heading)) && m@
                    == "notes heading must be a single line"@,
                Err(_) => false,
            },
    {
        let h = match opt_str_view(self.notes_heading) {
            Some(h) => trim_chars(&h),
            None => Vec::new(),
        };
        let ghost hv = match opt_view(self.notes_heading) {
            Some(x) => Some(trim(x)),
            None => None,
        };
        assert(hv matches Some(x) ==> h@ == x);
        assert(hv is None ==> h@.len() == 0);
        let mut i: usize = 0;
        while i < h.len()
            invariant
                hv == match opt_view(self.notes_heading) {
                    Some(x) => Some(trim(x)),
                    None => None,
                },
                hv matches Some(x) ==> h@ == x,
                hv is None ==> h@.len() == 0,
                i <= h.len(),
                forall|k: int| 0 <= k < i ==> h@[k] != '\n' && h@[k] != '\r',
            decreases h.len() - i,
        {
            if h[i] == '\n' || h[i] == '\r' {
                proof {
                    if h@[i as int] == '\n' {
                        assert(h@.contains('\n'));
                    } else {
                        assert(h@[i as int] == '\r');
                        assert(h@.contains('\r'));
                    }
                }
                return Err(io_error("notes heading must be a single line"));
            }
            i = i + 1;
        }
        proof {
            if let Some(hh) = opt_view(self.notes_heading) {
                assert(h@ == trim(hh));
                if h@.contains('\n') {
                    let k = choose|k: int| 0 <= k < h@.len() && h@[k] == '\n';
                }
                if h@.contains('\r') {
                    let k = choose|k: int| 0 <= k < h@.len() && h@[k] == '\r';
                }
            }
        }
        Ok(h)
    }

    pub fn write_notes(&self, content: &str, body: &str) -> (r: Result<String, VaultError>)
        ensures
            match r {
                Ok(s) => notes_heading_ok(opt_view(self.notes_heading)) && s@ == notes_written(
                    content@,
                    opt_view(self.notes_heading),
                    self.notes_h2_count,
                    body@,
                ),
                Err(VaultError::Io(m)) => !notes_heading_ok(opt_view(self.notes_heading)) && m@
                    == "notes heading must be a single line"@,
                Err(_) => false,
            },
    {
        let h = self.checked_notes_heading()?;
        match self.notes_h2_count {
            Some(n) => {
                if n > 0 {
                    return Ok(crate::notes::replace_first_h2_sections(content, n, body));
                }
            },
            None => {},
        }
        let c = str_chars(content);
        let b = str_chars(body);
        let r = crate::notes::replace_or_append_chars(&c, &h, &b);
        Ok(chars_string(&r))
    }
}

/// The note with the `(depth, text)` items appended as open todos.
pub fn append_todo_items(content: &str, items: &Vec<(usize, String)>) -> (r: String)
    ensures
        r@ == inserted_content(content@, item_lines(item_views(items@))),
{
    let lines = todo_lines_for(items);
    insert_todo_lines(content, &lines)
}

/// `str::replace`: every non-overlapping occurrence of `pat`, left to
/// right, replaced by `rep`.
pub open spec fn replace_all(s: Seq<char>, pat: Seq<char>, rep: Seq<char>) -> Seq<char>
    decreases s.len(),
{
    if pat.len() == 0 || s.len() < pat.len() {
        s
    } else if s.take(pat.len() as int) == pat {
        rep + replace_all(s.skip(pat.len() as int), pat, rep)
    } else {
        seq![s[0]] + replace_all(s.drop_first(), pat, rep)
    }
}

fn replace_chars(s: &Vec<char>, pat: &Vec<char>, rep: &Vec<char>) -> (r: Vec<char>)
    requires
        pat.len() > 0,
    ensures
        r@ == replace_all(s@, pat@, rep@),
{
    let mut out: Vec<char> = Vec::new();
    let mut i: usize = 0;
    assert(s@.skip(0) =~= s@);
    assert(out@ + replace_all(s@, pat@, rep@) =~= replace_all(s@, pat@, rep@));
    while i < s.len()
        invariant
            pat.len() > 0,
            i <= s.len(),
            out@ + replace_all(s@.skip(i as int), pat@, rep@) == replace_all(s@, pat@, rep@),
        decreases s.len() - i,
    {
        let ghost rest = s@.skip(i as int);
        if crate::text::chars_match_at(s, i, pat) {
            proof {
                assert(rest.take(pat.len() as int) =~= s@.subrange(i as int, i + pat.len()));
                assert(rest.skip(pat.len() as int) =~= s@.skip(i + pat.len()));
            }
            let ghost before = out@;
            extend_chars(&mut out, rep);
            proof {
                assert(before + (rep@ + replace_all(rest.skip(pat.len() as int), pat@, rep@)) =~= out@
                    + replace_all(s@.skip(i + pat.len()), pat@, rep@));
            }
            i = i + pat.len();
        } else {
            proof {
                if rest.len() >= pat.len() {
                    assert(rest.take(pat.len() as int) =~= s@.subrange(i as int, i + pat.len()));
                    assert(rest.take(pat.len() as int) != pat@);
                }
                assert(rest.drop_first() =~= s@.skip(i + 1));
            }
            let ghost before = out@;
            out.push(s[i]);
            proof {
                if rest.len() < pat.len() {
                    assert(replace_all(rest, pat@, rep@) == rest);
                    assert(replace_all(rest.drop_first(), pat@, rep@) == rest.drop_first());
                    assert(rest =~= seq![s@[i as int]] + rest.drop_first());
                }
                assert(before + (seq![s@[i as int]] + replace_all(rest.drop_first(), pat@, rep@))
                    =~= out@ + replace_all(s@.skip(i + 1), pat@, rep@));
            }
            i = i + 1;
        }
    }
    proof {
        assert(s@.skip(s.len() as int) =~= Seq::<char>::empty());
        assert(out@ + Seq::<char>::empty() =~= out@);
    }
    out
}

/// The template with `{{date}}` and `{{date:YYYY-MM-DD}}` set to the date
/// and `{{time}}` removed.
pub open spec fn expanded_template(raw: Seq<char>, date: Seq<char>) -> Seq<char> {
    replace_all(
        replace_all(replace_all(raw, "{{date}}"@, date), "{{date:YYYY-MM-DD}}"@, date),
        "{{time}}"@,
        Seq::<char>::empty(),
    )
}

/// Fill the minimal Obsidian template tokens used in daily note templates.
pub fn expand_template(raw: &str, date: &str) -> (r: String)
    ensures
        r@ == expanded_template(raw@, date@),
{
    let r0 = str_chars(raw);
    let d = str_chars(date);
    let p1 = str_chars("{{date}}");
    let p2 = str_chars("{{date:YYYY-MM-DD}}");
    let p3 = str_chars("{{time}}");
    proof {
        reveal_strlit("{{date}}");
        reveal_strlit("{{date:YYYY-MM-DD}}");
        reveal_strlit("{{time}}");
    }
    let r1 = replace_chars(&r0, &p1, &d);
    let r2 = replace_chars(&r1, &p2, &d);
    let r3 = replace_chars(&r2, &p3, &Vec::new());
    chars_string(&r3)
}

/// The body of a note created without a template: `# <date>`.
pub open spec fn default_note_text(date: Seq<char>) -> Seq<char> {
    seq!['#', ' '] + date + seq!['\n']
}

/// The body of a new note when no template can be read.
pub fn default_note_body(date: &str) -> (r: String)
    ensures
        r@ == default_note_text(date@),
{
    let mut v = vec!['#', ' '];
    extend_chars(&mut v, &str_chars(date));
    v.push('\n');
    assert(v@ =~= default_note_text(date@));
    chars_string(&v)
}

/// The first index where `p` fails is the leading count.
proof fn lemma_lead_ws_at(x: Seq<char>, k: int)
    requires
        0 <= k <= x.len(),
        forall|i: int| 0 <= i < k ==> crate::text::is_ws(#[trigger] x[i]),
        k < x.len() ==> !crate::text::is_ws(x[k]),
    ensures
        crate::text::lead_ws(x) == k,
{
    crate::text::lemma_lead_ws(x);
    let w = crate::text::lead_ws(x);
    if w < k {
        assert(crate::text::is_ws(x[w]));
    }
    if w > k {
        assert(crate::text::is_ws(x[k]));
    }
}

/// A checkbox line rebuilt from its own parts with a ` ` or `x` mark reads
/// back as those parts with the new mark.
proof fn lemma_checkbox_rebuilt(line: Seq<char>, mark: char)
    requires
        checkbox_match(line) is Some,
        mark == ' ' || mark == 'x',
    ensures
        ({
            let p = checkbox_match(line)->0;
            checkbox_match(checkbox_line(p.indent, p.bullet, mark, p.gap, p.text)) == Some(
                CheckboxSpec { mark, ..p },
            )
        }),
{
    let p = checkbox_match(line)->0;
    let a = crate::text::lead_ws(line);
    crate::text::lemma_lead_ws(line);
    let r1 = line.skip(a);
    let r2 = r1.skip(1);
    let s1 = crate::text::lead_ws(r2);
    let r3 = r2.skip(s1);
    let r4 = r3.skip(3);
    let s2 = crate::text::lead_ws(r4);
    crate::text::lemma_lead_ws(r4);
    assert(p.indent == line.take(a));
    assert(p.gap == r4.take(s2));
    assert(p.text == r4.skip(s2));
    let l1 = checkbox_line(p.indent, p.bullet, mark, p.gap, p.text);
    let n = p.indent.len() as int;
    assert(n == a);
    assert(forall|i: int| 0 <= i < n ==> #[trigger] l1[i] == line[i]);
    assert(l1[n] == p.bullet);
    assert(!crate::text::is_ws(p.bullet));
    lemma_lead_ws_at(l1, n);
    let q1 = l1.skip(n);
    assert(q1 =~= seq![p.bullet, ' ', '[', mark, ']'] + p.gap + p.text);
    let q2 = q1.skip(1);
    assert(q2 =~= seq![' ', '[', mark, ']'] + p.gap + p.text);
    assert(crate::text::is_ws(' '));
    assert(!crate::text::is_ws('['));
    lemma_lead_ws_at(q2, 1);
    let q3 = q2.skip(1);
    assert(q3 =~= seq!['[', mark, ']'] + p.gap + p.text);
    let q4 = q3.skip(3);
    assert(q4 =~= p.gap + p.text);
    let g = p.gap.len() as int;
    assert(g == s2);
    assert(forall|i: int| 0 <= i < g ==> #[trigger] q4[i] == r4[i]);
    if g < q4.len() {
        assert(q4[g] == r4[s2]);
    }
    lemma_lead_ws_at(q4, g);
    assert(l1.take(n) =~= p.indent);
    assert(q4.take(g) =~= p.gap);
    assert(q4.skip(g) =~= p.text);
}

/// The note reads back as written: its lines, joined again, give it back
/// (with its final newline when it has one).
pub open spec fn reads_back(content: Seq<char>) -> bool {
    content == keep_final_nl(content, join_lines(lines(content)))
}

/// Toggling the same todo twice gives the note back: for a note that reads
/// back as written and a todo on `line` marked `[ ]` or `[x]` with a single
/// space after its bullet (the form the toggle writes). Its lines keep no
/// carriage return that `str::lines` would strip, which holds of every note
/// that reads back as written.
pub proof fn law_toggle_twice(content: Seq<char>, line: int)
    requires
        1 <= line <= lines(content).len(),
        reads_back(content),
        forall|i: int| 0 <= i < lines(content).len() - 1 ==> crate::text::strip_cr(#[trigger] lines(content)[i])
            == lines(content)[i],
        content.len() > 0 && content.last() == '\n' ==> crate::text::settled(lines(content)),
        checkbox_match(lines(content)[line - 1]) matches Some(p) && (p.mark == ' ' || p.mark == 'x')
            && lines(content)[line - 1] == checkbox_line(p.indent, p.bullet, p.mark, p.gap, p.text),
    ensures
        toggled_content(content, line) matches Some(once) && toggled_content(once, line) == Some(
            content,
        ),
{
    let m = lines(content);
    let idx = line - 1;
    crate::text::lemma_lines_single(content);
    let p = checkbox_match(m[idx])->0;
    let m1_mark = if p.mark != ' ' { ' ' } else { 'x' };
    let l1 = checkbox_line(p.indent, p.bullet, m1_mark, p.gap, p.text);
    lemma_checkbox_rebuilt(m[idx], m1_mark);
    let mm = m.update(idx, l1);
    let j = join_lines(m);
    let j1 = join_lines(mm);
    let once = keep_final_nl(content, j1);
    assert(toggled_content(content, line) == Some(once));
    // The last line is not empty: an empty last line would be eaten by the
    // newline before it, and the note would not read back.
    assert(m.last().len() > 0) by {
        if m.last().len() == 0 {
            assert(idx != m.len() - 1) by {
                assert(m[idx].len() > 0);
            }
            assert(m.len() >= 2);
            crate::text::lemma_split_join(m);
            assert(j =~= join_lines(m.drop_last()) + seq!['\n'] + m.last());
            assert(j.last() == '\n');
            assert(content == j);
            assert(lines(j).len() == m.len() - 1);
        }
    }
    assert(l1.len() > 0);
    assert(mm.last().len() > 0);
    // Both texts end with the same character, never a newline.
    assert(l1.last() == m[idx].last()) by {
        assert(p.gap.len() > 0) by {
            crate::text::lemma_lead_ws(
                m[idx].skip(crate::text::lead_ws(m[idx])).skip(1).skip(
                    crate::text::lead_ws(m[idx].skip(crate::text::lead_ws(m[idx])).skip(1)),
                ).skip(3),
            );
        }
        if p.text.len() > 0 {
            assert(l1.last() == p.text.last());
            assert(m[idx].last() == p.text.last());
        } else {
            assert(l1.last() == p.gap.last());
            assert(m[idx].last() == p.gap.last());
        }
    }
    assert(all_single(mm)) by {
        assert forall|i: int| 0 <= i < mm.len() implies crate::text::single_line(#[trigger] mm[i]) by {
            if i == idx {
                assert(crate::text::single_line(m[idx]));
                assert forall|k: int| 0 <= k < l1.len() implies #[trigger] l1[k] != '\n' by {
                    if k < p.indent.len() {
                        assert(l1[k] == m[idx][k]);
                    } else if k >= p.indent.len() + 5 {
                        let off = m[idx].len() - l1.len();
                        assert(l1[k] == m[idx][k + off]);
                    }
                }
            }
        }
    }
    assert(j1.len() > 0 && j1.last() == mm.last().last()) by {
        if mm.len() == 1 {
            assert(j1 == mm[0]);
        } else {
            assert(j1 =~= join_lines(mm.drop_last()) + seq!['\n'] + mm.last());
        }
    }
    assert(j.len() > 0 && j.last() == m.last().last()) by {
        if m.len() == 1 {
            assert(j == m[0]);
        } else {
            assert(j =~= join_lines(m.drop_last()) + seq!['\n'] + m.last());
        }
    }
    assert(m.last().last() != '\n') by {
        assert(crate::text::single_line(m.last()));
        assert(m.last()[m.last().len() - 1] == m.last().last());
    }
    assert(mm.last().last() != '\n') by {
        if idx == m.len() - 1 {
            assert(mm.last() == l1);
        } else {
            assert(mm.last() == m.last());
        }
    }
    // Reading the toggled note gives the toggled lines.
    assert(lines(once) == mm) by {
        if content.len() > 0 && content.last() == '\n' {
            assert(once == crate::notes::ensure_nl(j1));
            assert(crate::text::settled(mm)) by {
                assert forall|i: int| 0 <= i < mm.len() implies crate::text::strip_cr(#[trigger] mm[i]) == mm[i] by {
                    if i == idx {
                        assert(crate::text::strip_cr(m[idx]) == m[idx]);
                    }
                }
            }
            crate::notes::lemma_lines_of_written(mm);
            assert(crate::notes::ensure_nl(j1) == once);
        } else {
            assert(once == j1);
            assert forall|i: int| 0 <= i < mm.len() - 1 implies crate::text::strip_cr(#[trigger] mm[i]) == mm[i] by {
                if i == idx {
                    assert(idx < m.len() - 1);
                    assert(crate::text::strip_cr(m[idx]) == m[idx]);
                    if l1.len() > 0 && l1.last() == '\r' {
                        assert(m[idx].last() == '\r');
                    }
                }
            }
            crate::text::lemma_lines_of_joined(mm);
        }
    }
    let l2 = checkbox_line(p.indent, p.bullet, p.mark, p.gap, p.text);
    assert(mm.update(idx, l2) =~= m);
    assert(toggled_content(once, line) == Some(keep_final_nl(once, j)));
    assert(once.len() > 0 && once.last() == '\n' <==> content.len() > 0 && content.last() == '\n');
}

/// A todo appended to a section body is found there as an open todo, so
/// deferring the same todo again adds no second copy: for a trimmed,
/// non-empty, one-line text (what deferring passes on).
pub proof fn law_appended_todo_is_open(body: Seq<char>, text: Seq<char>)
    requires
        text.len() > 0,
        trim(text) == text,
        crate::text::single_line(text),
    ensures
        has_open_todo(appended_body(body, text), text),
{
    crate::text::lemma_trim_idem(text);
    let line = seq!['-', ' ', '[', ' ', ']', ' '] + text;
    let out = appended_body(body, text);
    assert(crate::text::single_line(line)) by {
        assert forall|k: int| 0 <= k < line.len() implies #[trigger] line[k] != '\n' by {
            if k >= 6 {
                assert(line[k] == text[k - 6]);
            }
        }
    }
    assert(line.last() == text.last());
    assert(crate::text::is_ws('\r'));
    let trimmed = crate::text::trim_end(body);
    let pre = if trimmed.len() == 0 {
        Seq::<char>::empty()
    } else {
        trimmed.push('\n')
    };
    assert(out =~= pre + line);
    crate::text::lemma_split_nl_append(pre, line);
    crate::text::lemma_split_nl_len(pre);
    let sp = crate::text::split_nl(out);
    assert(sp.last() == crate::text::split_nl(pre).last() + line);
    assert(crate::text::split_nl(pre).last() == Seq::<char>::empty()) by {
        if trimmed.len() > 0 {
            assert(trimmed.push('\n').drop_last() =~= trimmed);
        }
    }
    assert(sp.last() =~= line);
    let ls = lines(out);
    assert(ls.last() == line);
    // `- [ ] text` reads as an open todo whose text is `text`.
    assert(!crate::text::is_ws('-'));
    lemma_lead_ws_at(line, 0);
    let r2 = line.skip(0).skip(1);
    assert(r2 =~= seq![' ', '[', ' ', ']', ' '] + text);
    assert(crate::text::is_ws(' '));
    assert(!crate::text::is_ws('['));
    lemma_lead_ws_at(r2, 1);
    let r4 = r2.skip(1).skip(3);
    assert(r4 =~= seq![' '] + text);
    assert(!crate::text::is_ws(text[0]));
    lemma_lead_ws_at(r4, 1);
    assert(r4.skip(1) =~= text);
    assert(checkbox_match(line) is Some);
    assert(checkbox_match(line)->0.text == text);
    assert(is_open_todo_with(ls[ls.len() - 1], trim(text)));
}

/// Some item of `target` has text `t`.
pub open spec fn text_among(target: Seq<(int, Seq<char>)>, t: Seq<char>) -> bool {
    exists|m: int| 0 <= m < target.len() && (#[trigger] target[m]).1 == t
}

/// Every item of `items` has its text among `target`'s.
pub open spec fn texts_covered(items: Seq<(int, Seq<char>)>, target: Seq<(int, Seq<char>)>) -> bool {
    forall|i: int| 0 <= i < items.len() ==> text_among(target, (#[trigger] items[i]).1)
}

proof fn lemma_carry_covered(prev: Seq<(int, Seq<char>)>, target: Seq<(int, Seq<char>)>)
    requires
        texts_covered(prev, target),
    ensures
        carry_items(prev, target).len() == 0,
    decreases prev.len(),
{
    if prev.len() > 0 {
        let p0 = prev.drop_last();
        assert(texts_covered(p0, target)) by {
            assert forall|i: int| 0 <= i < p0.len() implies text_among(target, (#[trigger] p0[i]).1) by {
                assert(p0[i] == prev[i]);
            }
        }
        lemma_carry_covered(p0, target);
        assert(prev.last() == prev[prev.len() - 1]);
        assert(text_among(target, prev[prev.len() - 1].1));
    }
}

/// What carrying leaves out is already in the target; what it moves is in
/// the carried list: together they cover the previous day.
proof fn lemma_carry_covers(prev: Seq<(int, Seq<char>)>, target: Seq<(int, Seq<char>)>)
    ensures
        texts_covered(prev, target + carry_items(prev, target)),
    decreases prev.len(),
{
    if prev.len() > 0 {
        let p0 = prev.drop_last();
        lemma_carry_covers(p0, target);
        let c0 = carry_items(p0, target);
        let c = carry_items(prev, target);
        let t2 = target + c;
        assert forall|i: int| 0 <= i < prev.len() implies text_among(t2, (#[trigger] prev[i]).1) by {
            if i < prev.len() - 1 {
                assert(prev[i] == p0[i]);
                assert(text_among(target + c0, p0[i].1));
                let m0 = choose|m: int| 0 <= m < (target + c0).len() && (#[trigger] (target + c0)[m]).1 == p0[i].1;
                if m0 < target.len() {
                    assert(t2[m0] == target[m0]);
                } else {
                    assert(c0[m0 - target.len()] == c[m0 - target.len()]);
                    assert(t2[m0] == c[m0 - target.len()]);
                }
            } else {
                assert(prev[i] == prev.last());
                if exists|m: int| 0 <= m < target.len() && (#[trigger] target[m]).1 == prev.last().1 {
                    let m = choose|m: int| 0 <= m < target.len() && (#[trigger] target[m]).1 == prev.last().1;
                    assert(t2[m] == target[m]);
                } else {
                    assert(c == c0.push(prev.last()));
                    assert(t2[(target.len() + c0.len()) as int] == prev.last());
                }
            }
        }
    }
}

/// Carrying over twice moves nothing the second time: once the carried
/// items are open in the target day, no open item of the previous day is
/// left to carry.
pub proof fn law_carry_once(prev: Seq<(int, Seq<char>)>, target: Seq<(int, Seq<char>)>)
    ensures
        carry_items(prev, target + carry_items(prev, target)).len() == 0,
{
    lemma_carry_covers(prev, target);
    lemma_carry_covered(prev, target + carry_items(prev, target));
}

} // verus!
