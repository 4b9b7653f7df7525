//! Character-level text helpers: whitespace, trimming, line splitting and
//! joining, all stated over `Seq<char>` and executed over `Vec<char>`.
use vstd::prelude::*;

verus! {

/// Unicode `White_Space`, the set that `str::trim` strips and that the
/// regex class `\s` matches.
pub open spec fn is_ws(c: char) -> bool {
    let n = c as u32;
    ||| 9 <= n <= 13
    ||| n == 32
    ||| n == 0x85
    ||| n == 0xa0
    ||| n == 0x1680
    ||| 0x2000 <= n <= 0x200a
    ||| n == 0x2028
    ||| n == 0x2029
    ||| n == 0x202f
    ||| n == 0x205f
    ||| n == 0x3000
}

pub fn char_is_ws(c: char) -> (b: bool)
    ensures
        b == is_ws(c),
{
    let n = c as u32;
    (9 <= n && n <= 13) || n == 32 || n == 0x85 || n == 0xa0 || n == 0x1680 || (0x2000 <= n && n
        <= 0x200a) || n == 0x2028 || n == 0x2029 || n == 0x202f || n == 0x205f || n == 0x3000
}

/// Every character is whitespace (true of the empty sequence).
pub open spec fn is_blank(s: Seq<char>) -> bool {
    forall|i: int| 0 <= i < s.len() ==> is_ws(#[trigger] s[i])
}

pub open spec fn trim_start(s: Seq<char>) -> Seq<char>
    decreases s.len(),
{
    if s.len() > 0 && is_ws(s[0]) {
        trim_start(s.drop_first())
    } else {
        s
    }
}

pub open spec fn trim_end(s: Seq<char>) -> Seq<char>
    decreases s.len(),
{
    if s.len() > 0 && is_ws(s.last()) {
        trim_end(s.drop_last())
    } else {
        s
    }
}

/// `str::trim`: whitespace removed at both ends.
pub open spec fn trim(s: Seq<char>) -> Seq<char> {
    trim_end(trim_start(s))
}

pub proof fn lemma_trim_start_skip(s: Seq<char>, i: int)
    requires
        0 <= i <= s.len(),
        forall|k: int| 0 <= k < i ==> is_ws(#[trigger] s[k]),
    ensures
        trim_start(s) == trim_start(s.skip(i)),
    decreases i,
{
    if i > 0 {
        assert(is_ws(s[0]));
        assert(s.drop_first().skip(i - 1) =~= s.skip(i));
        lemma_trim_start_skip(s.drop_first(), i - 1);
    } else {
        assert(s.skip(0) =~= s);
    }
}

pub proof fn lemma_trim_end_take(s: Seq<char>, j: int)
    requires
        0 <= j <= s.len(),
        forall|k: int| j <= k < s.len() ==> is_ws(#[trigger] s[k]),
    ensures
        trim_end(s) == trim_end(s.take(j)),
    decreases s.len() - j,
{
    if j < s.len() {
        assert(s.drop_last().take(j) =~= s.take(j));
        lemma_trim_end_take(s.drop_last(), j);
    } else {
        assert(s.take(j) =~= s);
    }
}

/// Bounds of the trimmed piece, with their defining properties.
pub proof fn trim_bounds_spec(s: Seq<char>) -> (ab: (int, int))
    ensures
        0 <= ab.0 <= ab.1 <= s.len(),
        trim(s) == s.subrange(ab.0, ab.1),
        forall|k: int| 0 <= k < ab.0 ==> is_ws(#[trigger] s[k]),
        forall|k: int| ab.1 <= k < s.len() ==> is_ws(#[trigger] s[k]),
        ab.0 < ab.1 ==> !is_ws(s[ab.0]) && !is_ws(s[ab.1 - 1]),
        ab.0 == ab.1 ==> is_blank(s),
{
    let a = lead_ws(s);
    lemma_lead_ws(s);
    lemma_trim_start_skip(s, a);
    let t = s.skip(a);
    if a < s.len() {
        assert(t[0] == s[a]);
    }
    assert(trim_start(t) == t);
    let c = trail_ws(t);
    lemma_trail_ws(t);
    lemma_trim_end_take(t, t.len() - c);
    let u = t.take(t.len() - c);
    if u.len() > 0 {
        assert(u.last() == t[t.len() - c - 1]);
    }
    assert(trim_end(u) == u);
    let b = a + t.len() - c;
    assert(u =~= s.subrange(a, b));
    assert forall|k: int| b <= k < s.len() implies is_ws(#[trigger] s[k]) by {
        assert(s[k] == t[k - a]);
    }
    if a < b {
        assert(s[b - 1] == t[t.len() - c - 1]);
    }
    if a == b {
        assert forall|k: int| 0 <= k < s.len() implies is_ws(#[trigger] s[k]) by {}
    }
    (a, b)
}

/// Number of leading whitespace characters.
pub open spec fn lead_ws(s: Seq<char>) -> int
    decreases s.len(),
{
    if s.len() > 0 && is_ws(s[0]) {
        1 + lead_ws(s.drop_first())
    } else {
        0
    }
}

/// Number of trailing whitespace characters.
pub open spec fn trail_ws(s: Seq<char>) -> int
    decreases s.len(),
{
    if s.len() > 0 && is_ws(s.last()) {
        1 + trail_ws(s.drop_last())
    } else {
        0
    }
}

pub proof fn lemma_lead_ws(s: Seq<char>)
    ensures
        0 <= lead_ws(s) <= s.len(),
        forall|k: int| 0 <= k < lead_ws(s) ==> is_ws(#[trigger] s[k]),
        lead_ws(s) < s.len() ==> !is_ws(s[lead_ws(s)]),
    decreases s.len(),
{
    if s.len() > 0 && is_ws(s[0]) {
        lemma_lead_ws(s.drop_first());
        assert forall|k: int| 0 <= k < lead_ws(s) implies is_ws(#[trigger] s[k]) by {
            if k > 0 {
                assert(s[k] == s.drop_first()[k - 1]);
            }
        }
    }
}

pub proof fn lemma_trail_ws(s: Seq<char>)
    ensures
        0 <= trail_ws(s) <= s.len(),
        forall|k: int| s.len() - trail_ws(s) <= k < s.len() ==> is_ws(#[trigger] s[k]),
        trail_ws(s) < s.len() ==> !is_ws(s[s.len() - trail_ws(s) - 1]),
    decreases s.len(),
{
    if s.len() > 0 && is_ws(s.last()) {
        lemma_trail_ws(s.drop_last());
        assert forall|k: int| s.len() - trail_ws(s) <= k < s.len() implies is_ws(
            #[trigger] s[k],
        ) by {
            if k < s.len() - 1 {
                assert(s[k] == s.drop_last()[k]);
            }
        }
    }
}

/// Trim the characters of `s`.
pub fn trim_chars(s: &Vec<char>) -> (r: Vec<char>)
    ensures
        r@ == trim(s@),
{
    let ghost ab = trim_bounds_spec(s@);
    let mut i: usize = 0;
    while i < s.len() && char_is_ws(s[i])
        invariant
            i <= s.len(),
            forall|k: int| 0 <= k < i ==> is_ws(#[trigger] s@[k]),
        decreases s.len() - i,
    {
        i = i + 1;
    }
    let mut j: usize = s.len();
    while j > i && char_is_ws(s[j - 1])
        invariant
            i <= j <= s.len(),
            forall|k: int| j <= k < s.len() ==> is_ws(#[trigger] s@[k]),
        decreases j,
    {
        j = j - 1;
    }
    proof {
        // the bounds found here are the bounds of `trim_bounds_spec`
        if i < ab.0 {
            assert(!is_ws(s@[i as int]));
        }
        if ab.0 < i {
            assert(is_ws(s@[ab.0]));
            assert(ab.0 == ab.1);
        }
    }
    let r = sub_chars(s, i, j);
    proof {
        if ab.0 < ab.1 {
            assert(i == ab.0);
            if j < ab.1 {
                assert(!is_ws(s@[j - 1]) || j == i);
            }
            if j > ab.1 {
                assert(is_ws(s@[j - 1]));
            }
        } else {
            assert(is_blank(s@));
            if i < s.len() {
                assert(is_ws(s@[i as int]));
            }
            assert(r@ =~= Seq::<char>::empty());
            assert(s@.subrange(ab.0, ab.1) =~= Seq::<char>::empty());
        }
    }
    r
}

/// A copy of `s[a..b]`.
pub fn sub_chars(s: &Vec<char>, a: usize, b: usize) -> (r: Vec<char>)
    requires
        a <= b <= s.len(),
    ensures
        r@ == s@.subrange(a as int, b as int),
{
    let mut r: Vec<char> = Vec::new();
    let mut k = a;
    while k < b
        invariant
            a <= k <= b <= s.len(),
            r@ == s@.subrange(a as int, k as int),
        decreases b - k,
    {
        r.push(s[k]);
        assert(s@.subrange(a as int, k + 1) =~= s@.subrange(a as int, k as int).push(s@[k as int]));
        k = k + 1;
    }
    r
}

/// True when every character of `s` is whitespace.
pub fn chars_blank(s: &Vec<char>) -> (b: bool)
    ensures
        b == is_blank(s@),
{
    let mut i: usize = 0;
    while i < s.len()
        invariant
            i <= s.len(),
            forall|k: int| 0 <= k < i ==> is_ws(#[trigger] s@[k]),
        decreases s.len() - i,
    {
        if !char_is_ws(s[i]) {
            return false;
        }
        i = i + 1;
    }
    true
}

/// Blank sequences trim to nothing, and only they do.
pub proof fn lemma_trim_empty_iff_blank(s: Seq<char>)
    ensures
        (trim(s).len() == 0) == is_blank(s),
{
    let ab = trim_bounds_spec(s);
    if ab.0 < ab.1 {
        assert(!is_ws(s[ab.0]));
    }
}

/// The characters of `s`.
pub fn str_chars(s: &str) -> (r: Vec<char>)
    ensures
        r@ == s@,
{
    let mut r: Vec<char> = Vec::new();
    let n = s.unicode_len();
    let mut i: usize = 0;
    while i < n
        invariant
            n == s@.len(),
            i <= n,
            r@ == s@.take(i as int),
        decreases n - i,
    {
        r.push(s.get_char(i));
        assert(s@.take(i + 1) =~= s@.take(i as int).push(s@[i as int]));
        i = i + 1;
    }
    assert(s@.take(n as int) =~= s@);
    r
}

/// Calls `String::push`; claims that the character is appended to the
/// string's characters.
#[verifier::external_body]
fn string_push(s: &mut String, c: char)
    ensures
        final(s)@ == old(s)@.push(c),
{
    s.push(c);
}

/// A `String` holding the characters of `v`.
pub fn chars_string(v: &Vec<char>) -> (r: String)
    ensures
        r@ == v@,
{
    let mut r = String::new();
    let mut i: usize = 0;
    while i < v.len()
        invariant
            i <= v.len(),
            r@ == v@.take(i as int),
        decreases v.len() - i,
    {
        string_push(&mut r, v[i]);
        assert(v@.take(i + 1) =~= v@.take(i as int).push(v@[i as int]));
        i = i + 1;
    }
    assert(v@.take(v.len() as int) =~= v@);
    r
}

/// `s` begins with `p`.
pub open spec fn starts_with(s: Seq<char>, p: Seq<char>) -> bool {
    p.len() <= s.len() && s.take(p.len() as int) == p
}

/// `p` occurs somewhere in `s`.
pub open spec fn contains(s: Seq<char>, p: Seq<char>) -> bool {
    exists|i: int| 0 <= i <= s.len() - p.len() && #[trigger] s.subrange(i, i + p.len()) == p
}

pub fn chars_start_with(s: &Vec<char>, p: &Vec<char>) -> (b: bool)
    ensures
        b == starts_with(s@, p@),
{
    if p.len() > s.len() {
        return false;
    }
    let mut i: usize = 0;
    while i < p.len()
        invariant
            p.len() <= s.len(),
            i <= p.len(),
            forall|k: int| 0 <= k < i ==> s@[k] == p@[k],
        decreases p.len() - i,
    {
        if s[i] != p[i] {
            assert(s@.take(p.len() as int)[i as int] != p@[i as int]);
            return false;
        }
        i = i + 1;
    }
    assert(s@.take(p.len() as int) =~= p@);
    true
}

/// `s[at..]` begins with `p`.
pub fn chars_match_at(s: &Vec<char>, at: usize, p: &Vec<char>) -> (b: bool)
    requires
        at <= s.len(),
    ensures
        b == (at + p.len() <= s.len() && s@.subrange(at as int, at + p.len()) == p@),
{
    if p.len() > s.len() - at {
        return false;
    }
    let mut i: usize = 0;
    while i < p.len()
        invariant
            at + p.len() <= s.len(),
            i <= p.len(),
            forall|k: int| 0 <= k < i ==> s@[at + k] == p@[k],
        decreases p.len() - i,
    {
        if s[at + i] != p[i] {
            assert(s@.subrange(at as int, at + p.len())[i as int] != p@[i as int]);
            return false;
        }
        i = i + 1;
    }
    assert(s@.subrange(at as int, at + p.len()) =~= p@);
    true
}

pub fn chars_contain(s: &Vec<char>, p: &Vec<char>) -> (b: bool)
    ensures
        b == contains(s@, p@),
{
    if p.len() > s.len() {
        return false;
    }
    let last = s.len() - p.len();
    let mut i: usize = 0;
    while i <= last
        invariant
            last == s.len() - p.len(),
            i <= last + 1,
            forall|k: int| 0 <= k < i ==> #[trigger] s@.subrange(k, k + p.len()) != p@,
        decreases last + 1 - i,
    {
        if chars_match_at(s, i, p) {
            return true;
        }
        if i == last {
            return false;
        }
        i = i + 1;
    }
    false
}

pub fn chars_eq(a: &Vec<char>, b: &Vec<char>) -> (r: bool)
    ensures
        r == (a@ == b@),
{
    if a.len() != b.len() {
        return false;
    }
    let mut i: usize = 0;
    while i < a.len()
        invariant
            a.len() == b.len(),
            i <= a.len(),
            forall|k: int| 0 <= k < i ==> a@[k] == b@[k],
        decreases a.len() - i,
    {
        if a[i] != b[i] {
            return false;
        }
        i = i + 1;
    }
    assert(a@ =~= b@);
    true
}

/// The views of a sequence of character vectors.
pub open spec fn views(v: Seq<Vec<char>>) -> Seq<Seq<char>> {
    v.map_values(|x: Vec<char>| x@)
}

/// The pieces of `s` between `'\n'` characters (one more than the number of
/// newlines; pieces keep any `'\r'`).
pub open spec fn split_nl(s: Seq<char>) -> Seq<Seq<char>>
    decreases s.len(),
{
    if s.len() == 0 {
        seq![Seq::<char>::empty()]
    } else {
        let p = split_nl(s.drop_last());
        if s.last() == '\n' {
            p.push(Seq::<char>::empty())
        } else {
            p.update(p.len() - 1, p.last().push(s.last()))
        }
    }
}

pub proof fn lemma_split_nl_len(s: Seq<char>)
    ensures
        split_nl(s).len() >= 1,
    decreases s.len(),
{
    if s.len() > 0 {
        lemma_split_nl_len(s.drop_last());
    }
}

/// A line piece without the `'\r'` of a `"\r\n"` ending.
pub open spec fn strip_cr(x: Seq<char>) -> Seq<char> {
    if x.len() > 0 && x.last() == '\r' {
        x.drop_last()
    } else {
        x
    }
}

/// `str::lines`: split at `'\n'`, drop the `'\r'` of each `"\r\n"`, and no
/// empty last line after a final newline.
pub open spec fn lines(s: Seq<char>) -> Seq<Seq<char>> {
    let p = split_nl(s);
    let init = p.drop_last().map_values(|x: Seq<char>| strip_cr(x));
    if p.last().len() == 0 {
        init
    } else {
        init.push(p.last())
    }
}

/// `[&str]::join("\n")`.
pub open spec fn join_lines(ls: Seq<Seq<char>>) -> Seq<char>
    decreases ls.len(),
{
    if ls.len() == 0 {
        Seq::<char>::empty()
    } else if ls.len() == 1 {
        ls[0]
    } else {
        join_lines(ls.drop_last()) + seq!['\n'] + ls.last()
    }
}

/// The lines of `s`.
pub fn split_lines(s: &Vec<char>) -> (r: Vec<Vec<char>>)
    ensures
        views(r@) == lines(s@),
{
    let mut done: Vec<Vec<char>> = Vec::new();
    let mut cur: Vec<char> = Vec::new();
    let mut i: usize = 0;
    proof {
        assert(s@.take(0) =~= Seq::<char>::empty());
        assert(views(done@) =~= split_nl(s@.take(0)).drop_last().map_values(
            |x: Seq<char>| strip_cr(x),
        ));
    }
    while i < s.len()
        invariant
            i <= s.len(),
            split_nl(s@.take(i as int)).len() >= 1,
            views(done@) == split_nl(s@.take(i as int)).drop_last().map_values(
                |x: Seq<char>| strip_cr(x),
            ),
            cur@ == split_nl(s@.take(i as int)).last(),
        decreases s.len() - i,
    {
        let ghost p = split_nl(s@.take(i as int));
        let c = s[i];
        proof {
            assert(s@.take(i + 1).drop_last() =~= s@.take(i as int));
            assert(s@.take(i + 1).last() == c);
        }
        if c == '\n' {
            let piece = strip_cr_chars(&cur);
            let ghost old_done = done@;
            done.push(piece);
            proof {
                assert(views(done@) =~= views(old_done).push(strip_cr(p.last())));
                assert(p.drop_last().push(p.last()) =~= p);
            }
            cur = Vec::new();
            proof {
                let q = split_nl(s@.take(i + 1));
                assert(q == p.push(Seq::<char>::empty()));
                assert(q.drop_last() =~= p);
                assert(views(done@) =~= q.drop_last().map_values(|x: Seq<char>| strip_cr(x)));
                assert(cur@ =~= q.last());
            }
        } else {
            cur.push(c);
            proof {
                let q = split_nl(s@.take(i + 1));
                assert(q == p.update(p.len() - 1, p.last().push(c)));
                assert(q.drop_last() =~= p.drop_last());
            }
        }
        i = i + 1;
    }
    proof {
        assert(s@.take(s.len() as int) =~= s@);
    }
    if cur.len() > 0 {
        done.push(cur);
        proof {
            let p = split_nl(s@);
            assert(views(done@) =~= p.drop_last().map_values(|x: Seq<char>| strip_cr(x)).push(
                p.last(),
            ));
        }
    }
    done
}

/// `x` without the `'\r'` of a `"\r\n"` ending.
pub fn strip_cr_chars(x: &Vec<char>) -> (r: Vec<char>)
    ensures
        r@ == strip_cr(x@),
{
    if x.len() > 0 && x[x.len() - 1] == '\r' {
        let r = sub_chars(x, 0, x.len() - 1);
        assert(r@ =~= x@.drop_last());
        r
    } else {
        sub_chars_all(x)
    }
}

/// A copy of `x`.
pub fn sub_chars_all(x: &Vec<char>) -> (r: Vec<char>)
    ensures
        r@ == x@,
{
    let r = sub_chars(x, 0, x.len());
    assert(r@ =~= x@);
    r
}

/// Append the characters of `b` to `a`.
pub fn extend_chars(a: &mut Vec<char>, b: &Vec<char>)
    ensures
        final(a)@ == old(a)@ + b@,
{
    let mut i: usize = 0;
    while i < b.len()
        invariant
            i <= b.len(),
            a@ == old(a)@ + b@.take(i as int),
        decreases b.len() - i,
    {
        a.push(b[i]);
        assert(b@.take(i + 1) =~= b@.take(i as int).push(b@[i as int]));
        i = i + 1;
    }
    assert(b@.take(b.len() as int) =~= b@);
}

/// The lines of `ls[a..b]` joined with `'\n'`.
pub fn join_range(ls: &Vec<Vec<char>>, a: usize, b: usize) -> (r: Vec<char>)
    requires
        a <= b <= ls.len(),
    ensures
        r@ == join_lines(views(ls@).subrange(a as int, b as int)),
{
    let mut r: Vec<char> = Vec::new();
    if a == b {
        return r;
    }
    extend_chars(&mut r, &ls[a]);
    proof {
        let t = views(ls@).subrange(a as int, a + 1);
        assert(t.len() == 1);
        assert(r@ =~= join_lines(t));
    }
    let mut k = a + 1;
    while k < b
        invariant
            a < k <= b <= ls.len(),
            r@ == join_lines(views(ls@).subrange(a as int, k as int)),
        decreases b - k,
    {
        r.push('\n');
        extend_chars(&mut r, &ls[k]);
        proof {
            let t = views(ls@).subrange(a as int, k + 1);
            assert(t.drop_last() =~= views(ls@).subrange(a as int, k as int));
            assert(t.last() == ls@[k as int]@);
            assert(r@ =~= join_lines(t));
        }
        k = k + 1;
    }
    r
}

/// All of `ls` joined with `'\n'`.
pub fn join_all(ls: &Vec<Vec<char>>) -> (r: Vec<char>)
    ensures
        r@ == join_lines(views(ls@)),
{
    let r = join_range(ls, 0, ls.len());
    assert(views(ls@).subrange(0, ls.len() as int) =~= views(ls@));
    r
}

/// A line without `'\n'` (what `str::lines` yields).
pub open spec fn single_line(s: Seq<char>) -> bool {
    forall|i: int| 0 <= i < s.len() ==> #[trigger] s[i] != '\n'
}

/// Every element is a single line.
pub open spec fn all_single(ls: Seq<Seq<char>>) -> bool {
    forall|i: int| 0 <= i < ls.len() ==> single_line(#[trigger] ls[i])
}

pub proof fn lemma_split_nl_single(s: Seq<char>)
    ensures
        all_single(split_nl(s)),
    decreases s.len(),
{
    if s.len() > 0 {
        lemma_split_nl_single(s.drop_last());
        lemma_split_nl_len(s.drop_last());
        let p = split_nl(s.drop_last());
        if s.last() != '\n' {
            let q = p.update(p.len() - 1, p.last().push(s.last()));
            assert forall|i: int| 0 <= i < q.len() implies single_line(#[trigger] q[i]) by {
                if i == p.len() - 1 {
                    assert(single_line(p[i]));
                    assert forall|k: int| 0 <= k < q[i].len() implies #[trigger] q[i][k] != '\n' by {
                        if k < p[i].len() {
                            assert(q[i][k] == p[i][k]);
                        }
                    }
                }
            }
        } else {
            let q = p.push(Seq::<char>::empty());
            assert forall|i: int| 0 <= i < q.len() implies single_line(#[trigger] q[i]) by {
                if i < p.len() {
                    assert(q[i] == p[i]);
                }
            }
        }
    }
}

/// The lines of a text hold no `'\n'`.
pub proof fn lemma_lines_single(s: Seq<char>)
    ensures
        all_single(lines(s)),
{
    lemma_split_nl_single(s);
    lemma_split_nl_len(s);
    let p = split_nl(s);
    let l = lines(s);
    assert forall|i: int| 0 <= i < l.len() implies single_line(#[trigger] l[i]) by {
        assert(single_line(p[i]));
        if i < p.len() - 1 {
            assert(l[i] == strip_cr(p[i]));
            assert forall|k: int| 0 <= k < l[i].len() implies #[trigger] l[i][k] != '\n' by {
                assert(l[i][k] == p[i][k]);
            }
        } else {
            assert(l[i] == p[i]);
        }
    }
}

/// The lines of a string.
pub fn str_lines(s: &str) -> (ls: Vec<Vec<char>>)
    ensures
        views(ls@) == lines(s@),
        all_single(views(ls@)),
{
    let cs = str_chars(s);
    proof {
        lemma_lines_single(s@);
    }
    split_lines(&cs)
}

/// The lines of a character sequence, with the fact that they hold no
/// newline.
pub fn chars_lines(cs: &Vec<char>) -> (ls: Vec<Vec<char>>)
    ensures
        views(ls@) == lines(cs@),
        all_single(views(ls@)),
{
    proof {
        lemma_lines_single(cs@);
    }
    split_lines(cs)
}

/// `str::trim_start` on characters.
pub fn trim_start_chars(s: &Vec<char>) -> (r: Vec<char>)
    ensures
        r@ == trim_start(s@),
{
    let ghost ab = trim_bounds_spec(s@);
    let mut i: usize = 0;
    while i < s.len() && char_is_ws(s[i])
        invariant
            i <= s.len(),
            forall|k: int| 0 <= k < i ==> is_ws(#[trigger] s@[k]),
        decreases s.len() - i,
    {
        i = i + 1;
    }
    proof {
        lemma_trim_start_skip(s@, i as int);
        assert(s@.skip(i as int) =~= s@.subrange(i as int, s.len() as int));
        if i < s.len() {
            let t = s@.skip(i as int);
            assert(t[0] == s@[i as int]);
        }
    }
    sub_chars(s, i, s.len())
}

/// Number of leading elements satisfying `p`.
pub open spec fn lead_count<A>(s: Seq<A>, p: spec_fn(A) -> bool) -> int
    decreases s.len(),
{
    if s.len() > 0 && p(s[0]) {
        1 + lead_count(s.drop_first(), p)
    } else {
        0
    }
}

/// Number of trailing elements satisfying `p`.
pub open spec fn trail_count<A>(s: Seq<A>, p: spec_fn(A) -> bool) -> int
    decreases s.len(),
{
    if s.len() > 0 && p(s.last()) {
        1 + trail_count(s.drop_last(), p)
    } else {
        0
    }
}

pub proof fn lemma_lead_count<A>(s: Seq<A>, p: spec_fn(A) -> bool)
    ensures
        0 <= lead_count(s, p) <= s.len(),
        forall|k: int| 0 <= k < lead_count(s, p) ==> p(#[trigger] s[k]),
        lead_count(s, p) < s.len() ==> !p(s[lead_count(s, p)]),
    decreases s.len(),
{
    if s.len() > 0 && p(s[0]) {
        lemma_lead_count(s.drop_first(), p);
        assert forall|k: int| 0 <= k < lead_count(s, p) implies p(#[trigger] s[k]) by {
            if k > 0 {
                assert(s[k] == s.drop_first()[k - 1]);
            }
        }
    }
}

pub proof fn lemma_trail_count<A>(s: Seq<A>, p: spec_fn(A) -> bool)
    ensures
        0 <= trail_count(s, p) <= s.len(),
        forall|k: int| s.len() - trail_count(s, p) <= k < s.len() ==> p(#[trigger] s[k]),
        trail_count(s, p) < s.len() ==> !p(s[s.len() - trail_count(s, p) - 1]),
    decreases s.len(),
{
    if s.len() > 0 && p(s.last()) {
        lemma_trail_count(s.drop_last(), p);
        assert forall|k: int| s.len() - trail_count(s, p) <= k < s.len() implies p(
            #[trigger] s[k],
        ) by {
            if k < s.len() - 1 {
                assert(s[k] == s.drop_last()[k]);
            }
        }
    }
}

/// The leading count is the first index where `p` fails.
pub proof fn lemma_lead_count_at<A>(s: Seq<A>, p: spec_fn(A) -> bool, i: int)
    requires
        0 <= i <= s.len(),
        forall|k: int| 0 <= k < i ==> p(#[trigger] s[k]),
        i < s.len() ==> !p(s[i]),
    ensures
        lead_count(s, p) == i,
{
    lemma_lead_count(s, p);
    if lead_count(s, p) < i {
        assert(p(s[lead_count(s, p)]));
    }
    if lead_count(s, p) > i {
        assert(p(s[i]));
    }
}

/// The trailing count is what lies after the last index where `p` fails.
pub proof fn lemma_trail_count_at<A>(s: Seq<A>, p: spec_fn(A) -> bool, j: int)
    requires
        0 <= j <= s.len(),
        forall|k: int| j <= k < s.len() ==> p(#[trigger] s[k]),
        j > 0 ==> !p(s[j - 1]),
    ensures
        trail_count(s, p) == s.len() - j,
{
    lemma_trail_count(s, p);
    let t = trail_count(s, p);
    if s.len() - t > j {
        assert(p(s[s.len() - t - 1]));
    }
    if s.len() - t < j {
        assert(p(s[j - 1]));
    }
}

/// `str::trim_end` on characters.
pub fn trim_end_chars(s: &Vec<char>) -> (r: Vec<char>)
    ensures
        r@ == trim_end(s@),
{
    let mut j: usize = s.len();
    while j > 0 && char_is_ws(s[j - 1])
        invariant
            j <= s.len(),
            forall|k: int| j <= k < s.len() ==> is_ws(#[trigger] s@[k]),
        decreases j,
    {
        j = j - 1;
    }
    proof {
        lemma_trim_end_take(s@, j as int);
        let t = s@.take(j as int);
        if j > 0 {
            assert(t.last() == s@[j - 1]);
        }
        assert(trim_end(t) == t);
        assert(t =~= s@.subrange(0, j as int));
    }
    sub_chars(s, 0, j)
}


/// ASCII lowercase of one character; other characters are unchanged.
pub open spec fn ascii_lower(c: char) -> char {
    if 'A' <= c && c <= 'Z' {
        ((c as u32) + 32) as char
    } else {
        c
    }
}

/// `to_ascii_lowercase`: every ASCII capital lowered, the rest kept.
pub open spec fn ascii_lowered(s: Seq<char>) -> Seq<char> {
    s.map_values(|c: char| ascii_lower(c))
}

fn ascii_lower_char(c: char) -> (r: char)
    ensures
        r == ascii_lower(c),
{
    if 'A' <= c && c <= 'Z' {
        let b: u8 = (c as u8) + 32;
        b as char
    } else {
        c
    }
}

pub fn ascii_lowercase(s: &Vec<char>) -> (r: Vec<char>)
    ensures
        r@ == ascii_lowered(s@),
{
    let mut r: Vec<char> = Vec::new();
    let mut i: usize = 0;
    while i < s.len()
        invariant
            i <= s.len(),
            r@ == ascii_lowered(s@.take(i as int)),
        decreases s.len() - i,
    {
        r.push(ascii_lower_char(s[i]));
        assert(ascii_lowered(s@.take(i + 1)) =~= ascii_lowered(s@.take(i as int)).push(ascii_lower(s@[i as int])));
        i = i + 1;
    }
    assert(s@.take(s.len() as int) =~= s@);
    r
}

/// `eq_ignore_ascii_case`: equal once ASCII capitals are lowered.
pub open spec fn same_ignoring_ascii_case(a: Seq<char>, b: Seq<char>) -> bool {
    ascii_lowered(a) == ascii_lowered(b)
}

pub fn eq_ignore_ascii_case(a: &Vec<char>, b: &Vec<char>) -> (r: bool)
    ensures
        r == same_ignoring_ascii_case(a@, b@),
{
    let la = ascii_lowercase(a);
    let lb = ascii_lowercase(b);
    chars_eq(&la, &lb)
}

/// What `{:?}` prints for a string: the text quoted, with quotes,
/// backslashes and unprintable characters escaped.
pub uninterp spec fn debug_quoted(s: Seq<char>) -> Seq<char>;

/// Calls `<str as Debug>::fmt` through `format!("{:?}")`; claims the text
/// is `debug_quoted` of the string.
#[verifier::external_body]
pub(crate) fn quoted(s: &str) -> (r: String)
    ensures
        r@ == debug_quoted(s@),
{
    format!("{s:?}")
}

/// No line ends with a carriage return that `str::lines` would strip.
pub open spec fn settled(ls: Seq<Seq<char>>) -> bool {
    forall|i: int| 0 <= i < ls.len() ==> strip_cr(#[trigger] ls[i]) == ls[i]
}

/// Splitting at newlines after appending a newline-free piece extends the
/// last piece.
pub proof fn lemma_split_nl_append(s: Seq<char>, t: Seq<char>)
    requires
        single_line(t),
    ensures
        split_nl(s + t) == split_nl(s).update(split_nl(s).len() - 1, split_nl(s).last() + t),
    decreases t.len(),
{
    lemma_split_nl_len(s);
    let q = split_nl(s);
    if t.len() == 0 {
        assert(s + t =~= s);
        assert(q.last() + t =~= q.last());
        assert(q.update(q.len() - 1, q.last() + t) =~= q);
    } else {
        let t0 = t.drop_last();
        assert(single_line(t0)) by {
            assert forall|i: int| 0 <= i < t0.len() implies #[trigger] t0[i] != '\n' by {
                assert(t0[i] == t[i]);
            }
        }
        lemma_split_nl_append(s, t0);
        assert((s + t).drop_last() =~= s + t0);
        assert((s + t).last() == t.last());
        assert(t.last() != '\n');
        let p = split_nl(s + t0);
        lemma_split_nl_len(s + t0);
        assert((q.last() + t0).push(t.last()) =~= q.last() + t);
        assert(p.update(p.len() - 1, p.last().push(t.last())) =~= q.update(q.len() - 1, q.last() + t));
    }
}

/// Splitting joined newline-free lines gives them back.
pub proof fn lemma_split_join(m: Seq<Seq<char>>)
    requires
        m.len() >= 1,
        all_single(m),
    ensures
        split_nl(join_lines(m)) == m,
    decreases m.len(),
{
    if m.len() == 1 {
        assert(single_line(m[0]));
        lemma_split_nl_append(Seq::<char>::empty(), m[0]);
        assert(Seq::<char>::empty() + m[0] =~= m[0]);
        assert(split_nl(Seq::<char>::empty()) == seq![Seq::<char>::empty()]);
        assert(seq![Seq::<char>::empty()].update(0, Seq::<char>::empty() + m[0]) =~= m);
    } else {
        let m0 = m.drop_last();
        assert(all_single(m0)) by {
            assert forall|i: int| 0 <= i < m0.len() implies single_line(#[trigger] m0[i]) by {
                assert(m0[i] == m[i]);
            }
        }
        lemma_split_join(m0);
        let j0 = join_lines(m0);
        assert(j0.push('\n').drop_last() =~= j0);
        assert(split_nl(j0.push('\n')) == split_nl(j0).push(Seq::<char>::empty()));
        assert(single_line(m.last()));
        lemma_split_nl_append(j0.push('\n'), m.last());
        assert(join_lines(m) =~= j0.push('\n') + m.last());
        assert(m0.push(Seq::<char>::empty()).update(m0.len() as int, Seq::<char>::empty() + m.last()) =~= m);
    }
}

/// Joined lines read back as the same lines, when none ends with a
/// carriage return and the last is not empty.
pub proof fn lemma_lines_of_joined(m: Seq<Seq<char>>)
    requires
        all_single(m),
        forall|i: int| 0 <= i < m.len() - 1 ==> strip_cr(#[trigger] m[i]) == m[i],
        m.len() == 0 || m.last().len() > 0,
    ensures
        lines(join_lines(m)) == m,
{
    if m.len() == 0 {
        assert(split_nl(Seq::<char>::empty()) == seq![Seq::<char>::empty()]);
        assert(lines(join_lines(m)) =~= m);
    } else {
        lemma_split_join(m);
        let p = split_nl(join_lines(m));
        assert(p.drop_last().map_values(|x: Seq<char>| strip_cr(x)) =~= m.drop_last()) by {
            assert forall|i: int| 0 <= i < m.len() - 1 implies strip_cr(#[trigger] m[i]) == m[i] by {}
        }
        assert(m.drop_last().push(m.last()) =~= m);
    }
}

/// Trimming twice is trimming once.
pub proof fn lemma_trim_idem(s: Seq<char>)
    ensures
        trim(trim(s)) == trim(s),
        trim(s).len() > 0 ==> !is_ws(trim(s)[0]) && !is_ws(trim(s).last()),
{
    let (a, b) = trim_bounds_spec(s);
    let t = trim(s);
    let (c, d) = trim_bounds_spec(t);
    if a < b {
        assert(t[0] == s[a]);
        assert(t.last() == s[b - 1]);
        if c > 0 {
            assert(is_ws(t[0]));
        }
        if d < t.len() {
            assert(is_ws(t[t.len() - 1]));
        }
        assert(t.subrange(c, d) =~= t);
    } else {
        assert(t.len() == 0);
        assert(t.subrange(c, d) =~= t);
    }
}


/// Whitespace trimmed at the end leaves a non-whitespace last character.
pub proof fn lemma_trim_end_last(s: Seq<char>)
    ensures
        trim_end(s).len() > 0 ==> !is_ws(trim_end(s).last()),
    decreases s.len(),
{
    if s.len() > 0 && is_ws(s.last()) {
        lemma_trim_end_last(s.drop_last());
    }
}

/// The last line of a text that ends in a non-whitespace character is not
/// empty.
pub proof fn lemma_lines_last_nonempty(s: Seq<char>)
    requires
        s.len() > 0,
        !is_ws(s.last()),
    ensures
        lines(s).len() > 0,
        lines(s).last().len() > 0,
{
    assert(is_ws('\n'));
    let p0 = split_nl(s.drop_last());
    lemma_split_nl_len(s.drop_last());
    let p = split_nl(s);
    assert(p == p0.update(p0.len() - 1, p0.last().push(s.last())));
    assert(p.last().len() > 0);
}


/// Every piece of a text without carriage returns is free of them.
pub proof fn lemma_split_nl_no_cr(s: Seq<char>)
    requires
        !s.contains('\r'),
    ensures
        forall|i: int| 0 <= i < split_nl(s).len() ==> !(#[trigger] split_nl(s)[i]).contains('\r'),
    decreases s.len(),
{
    if s.len() > 0 {
        let s0 = s.drop_last();
        assert(!s0.contains('\r')) by {
            if s0.contains('\r') {
                let k = choose|k: int| 0 <= k < s0.len() && s0[k] == '\r';
                assert(s[k] == '\r');
            }
        }
        lemma_split_nl_no_cr(s0);
        lemma_split_nl_len(s0);
        let p = split_nl(s0);
        if s.last() != '\n' {
            assert(s.last() != '\r') by {
                assert(s[s.len() - 1] == s.last());
            }
            let q = p.update(p.len() - 1, p.last().push(s.last()));
            assert forall|i: int| 0 <= i < q.len() implies !(#[trigger] q[i]).contains('\r') by {
                if i == p.len() - 1 {
                    assert(!p[i].contains('\r'));
                    if q[i].contains('\r') {
                        let k = choose|k: int| 0 <= k < q[i].len() && q[i][k] == '\r';
                        if k < p[i].len() {
                            assert(p[i][k] == q[i][k]);
                        }
                    }
                }
            }
        } else {
            let q = p.push(Seq::<char>::empty());
            assert forall|i: int| 0 <= i < q.len() implies !(#[trigger] q[i]).contains('\r') by {
                if i < p.len() {
                    assert(q[i] == p[i]);
                }
            }
        }
    }
}

/// The lines of a text without carriage returns are settled.
pub proof fn lemma_lines_settled(s: Seq<char>)
    requires
        !s.contains('\r'),
    ensures
        settled(lines(s)),
{
    lemma_split_nl_no_cr(s);
    lemma_split_nl_len(s);
    let p = split_nl(s);
    let l = lines(s);
    assert forall|i: int| 0 <= i < l.len() implies strip_cr(#[trigger] l[i]) == l[i] by {
        assert(!p[i].contains('\r'));
        if i < p.len() - 1 {
            assert(l[i] == strip_cr(p[i]));
        } else {
            assert(l[i] == p[i]);
        }
        if l[i].len() > 0 && l[i].last() == '\r' {
            assert(l[i] == p[i] || l[i] == p[i].drop_last());
            assert(p[i][l[i].len() - 1] == '\r');
        }
    }
}

} // verus!
