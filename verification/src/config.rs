//! The Obsidian vault, its daily-notes settings and the paths of daily notes.
use vstd::prelude::*;
use crate::format::{moment_text, Date};
use crate::text::{chars_string, extend_chars, str_chars, trim};

verus! {

/// Why a vault operation failed.
#[derive(Debug, Clone, PartialEq, Eq)]
pub enum VaultError {
    MissingEnv,
    EmptyEnv,
    NotADirectory(String),
    Io(String),
    BadFormat(String),
}

/// The machine-stable error class of each error.
pub open spec fn error_code_of(e: VaultError) -> Seq<char> {
    match e {
        VaultError::MissingEnv | VaultError::EmptyEnv => "missing_vault"@,
        VaultError::NotADirectory(_) => "bad_vault"@,
        VaultError::BadFormat(_) => "bad_format"@,
        VaultError::Io(_) => "io"@,
    }
}

impl VaultError {
    /// Machine-stable error class for UI empty states.
    pub fn error_code(&self) -> (r: &'static str)
        ensures
            r@ == error_code_of(*self),
    {
        match self {
            VaultError::MissingEnv | VaultError::EmptyEnv => "missing_vault",
            VaultError::NotADirectory(_) => "bad_vault",
            VaultError::BadFormat(_) => "bad_format",
            VaultError::Io(_) => "io",
        }
    }
}

/// Environment variable naming the vault root.
pub const VAULT_ENV: &'static str = "OBSIDIAN_VAULT_ROOT";

/// The vault: its root folder and an optional archive folder pattern.
#[derive(Debug, Clone, PartialEq, Eq)]
pub struct Vault {
    pub root: String,
    /// Optional archive folder pattern (moment-style, e.g.
    /// `dailies/_archive/YYYY`) relative to the vault root.
    pub archive: Option<String>,
}

/// The daily-notes plugin settings in effect.
#[derive(Debug, Clone, PartialEq, Eq)]
pub struct DailyNotesConfig {
    /// Relative folder under the vault root (may be empty).
    pub folder: String,
    /// Moment-style date format used for the note path/name.
    pub format: String,
    /// Optional template note path relative to the vault root (no `.md`).
    pub template: Option<String>,
    /// Optional moment-style archive folder pattern relative to the vault
    /// root.
    pub archive: Option<String>,
}

/// The raw fields of `.obsidian/daily-notes.json`.
#[derive(Debug, Clone, PartialEq, Eq)]
pub struct DailyNotesSettings {
    pub folder: Option<String>,
    pub format: Option<String>,
    pub template: Option<String>,
}

/// Locations of a date's note: the canonical live path and the path that
/// should actually be used (falls back to the archive folder when the live
/// note is missing).
#[derive(Debug, Clone, PartialEq, Eq)]
pub struct DailyNotePaths {
    /// Path in the live daily-notes folder; the creation target.
    pub primary: String,
    /// `primary` when it exists, else the archive path when that exists,
    /// else `primary`.
    pub resolved: String,
}

impl Default for DailyNotesConfig {
    fn default() -> (c: Self)
        ensures
            c.folder@.len() == 0,
            c.format@ == "YYYY-MM-DD"@,
            c.template is None,
            c.archive is None,
    {
        DailyNotesConfig {
            folder: String::new(),
            format: String::from_str("YYYY-MM-DD"),
            template: None,
            archive: None,
        }
    }
}

/// The pieces of `s` between `'/'` characters.
pub open spec fn split_slash(s: Seq<char>) -> Seq<Seq<char>>
    decreases s.len(),
{
    if s.len() == 0 {
        seq![Seq::<char>::empty()]
    } else {
        let p = split_slash(s.drop_last());
        if s.last() == '/' {
            p.push(Seq::<char>::empty())
        } else {
            p.update(p.len() - 1, p.last().push(s.last()))
        }
    }
}

pub proof fn lemma_split_slash_len(s: Seq<char>)
    ensures
        split_slash(s).len() >= 1,
    decreases s.len(),
{
    if s.len() > 0 {
        lemma_split_slash_len(s.drop_last());
    }
}

/// A path segment that stays: not empty, `.` or `..`.
pub open spec fn keeps_segment(p: Seq<char>) -> bool {
    p.len() > 0 && p != seq!['.'] && p != seq!['.', '.']
}

/// The kept segments among `ps`, in order.
pub open spec fn kept_segments(ps: Seq<Seq<char>>) -> Seq<Seq<char>>
    decreases ps.len(),
{
    if ps.len() == 0 {
        Seq::<Seq<char>>::empty()
    } else if keeps_segment(ps.last()) {
        kept_segments(ps.drop_last()).push(ps.last())
    } else {
        kept_segments(ps.drop_last())
    }
}

/// Segments joined with `'/'`.
pub open spec fn join_slash(ps: Seq<Seq<char>>) -> Seq<char>
    decreases ps.len(),
{
    if ps.len() == 0 {
        Seq::<char>::empty()
    } else if ps.len() == 1 {
        ps[0]
    } else {
        join_slash(ps.drop_last()) + seq!['/'] + ps.last()
    }
}

/// A relative path with empty, `.` and `..` segments dropped.
pub open spec fn sanitized(value: Seq<char>) -> Seq<char> {
    join_slash(kept_segments(split_slash(value)))
}

/// Split at `'/'`.
pub fn split_on_slash(s: &Vec<char>) -> (r: Vec<Vec<char>>)
    ensures
        crate::text::views(r@) == split_slash(s@),
{
    let mut done: Vec<Vec<char>> = Vec::new();
    let mut cur: Vec<char> = Vec::new();
    let mut i: usize = 0;
    proof {
        assert(s@.take(0) =~= Seq::<char>::empty());
    }
    while i < s.len()
        invariant
            i <= s.len(),
            split_slash(s@.take(i as int)).len() >= 1,
            crate::text::views(done@) == split_slash(s@.take(i as int)).drop_last(),
            cur@ == split_slash(s@.take(i as int)).last(),
        decreases s.len() - i,
    {
        let ghost p = split_slash(s@.take(i as int));
        let c = s[i];
        proof {
            assert(s@.take(i + 1).drop_last() =~= s@.take(i as int));
            assert(s@.take(i + 1).last() == c);
        }
        if c == '/' {
            let ghost old_done = done@;
            done.push(cur);
            proof {
                assert(crate::text::views(done@) =~= crate::text::views(old_done).push(p.last()));
                assert(p.drop_last().push(p.last()) =~= p);
            }
            cur = Vec::new();
            proof {
                let q = split_slash(s@.take(i + 1));
                assert(q == p.push(Seq::<char>::empty()));
                assert(q.drop_last() =~= p);
                assert(cur@ =~= q.last());
            }
        } else {
            cur.push(c);
            proof {
                let q = split_slash(s@.take(i + 1));
                assert(q == p.update(p.len() - 1, p.last().push(c)));
                assert(q.drop_last() =~= p.drop_last());
            }
        }
        i = i + 1;
    }
    proof {
        assert(s@.take(s.len() as int) =~= s@);
    }
    let ghost before = done@;
    done.push(cur);
    proof {
        let p = split_slash(s@);
        assert(crate::text::views(done@) =~= crate::text::views(before).push(p.last()));
        assert(p.drop_last().push(p.last()) =~= p);
    }
    done
}

fn is_dot(p: &Vec<char>) -> (b: bool)
    ensures
        b == (p@ == seq!['.']),
{
    if p.len() == 1 && p[0] == '.' {
        assert(p@ =~= seq!['.']);
        true
    } else {
        false
    }
}

fn is_dot_dot(p: &Vec<char>) -> (b: bool)
    ensures
        b == (p@ == seq!['.', '.']),
{
    if p.len() == 2 && p[0] == '.' && p[1] == '.' {
        assert(p@ =~= seq!['.', '.']);
        true
    } else {
        false
    }
}

/// Drop empty / `.` / `..` path segments so settings cannot escape the vault.
pub fn sanitize_rel(value: &str) -> (r: String)
    ensures
        r@ == sanitized(value@),
{
    let v = str_chars(value);
    let parts = split_on_slash(&v);
    let ghost pv = crate::text::views(parts@);
    let mut out: Vec<char> = Vec::new();
    let mut any = false;
    let mut i: usize = 0;
    while i < parts.len()
        invariant
            pv == crate::text::views(parts@),
            i <= parts.len(),
            any == (kept_segments(pv.take(i as int)).len() > 0),
            out@ == join_slash(kept_segments(pv.take(i as int))),
        decreases parts.len() - i,
    {
        proof {
            assert(pv.take(i + 1).drop_last() =~= pv.take(i as int));
            assert(pv.take(i + 1).last() == parts@[i as int]@);
        }
        let part = &parts[i];
        if part.len() > 0 && !is_dot(part) && !is_dot_dot(part) {
            let ghost before = kept_segments(pv.take(i as int));
            if any {
                out.push('/');
            }
            extend_chars(&mut out, part);
            proof {
                let after = before.push(part@);
                if any {
                    assert(after.drop_last() =~= before);
                    assert(out@ =~= join_slash(after));
                } else {
                    assert(out@ =~= join_slash(after));
                }
            }
            any = true;
        }
        i = i + 1;
    }
    proof {
        assert(pv.take(parts.len() as int) =~= pv);
    }
    chars_string(&out)
}

/// `PathBuf::push` of a relative segment: a `'/'` goes between unless the
/// path is empty or already ends with one.
pub open spec fn path_push(p: Seq<char>, part: Seq<char>) -> Seq<char> {
    if p.len() > 0 && p.last() != '/' {
        p + seq!['/'] + part
    } else {
        p + part
    }
}

/// Pushing one setting segment: empty and `.` segments are skipped, `..` or
/// a NUL character is refused.
pub open spec fn safe_push(p: Seq<char>, part: Seq<char>) -> Option<Seq<char>> {
    if part.len() == 0 || part == seq!['.'] {
        Some(p)
    } else if part == seq!['.', '.'] || part.contains('\0') {
        None
    } else {
        Some(path_push(p, part))
    }
}

/// A settings segment that pushing refuses: `..`, or one holding a NUL.
pub open spec fn refused(part: Seq<char>) -> bool {
    safe_push(Seq::<char>::empty(), part) is None
}

/// The message of a refused segment.
pub open spec fn refusal_message(part: Seq<char>) -> Seq<char> {
    "refusing path component that escapes the vault: "@ + crate::text::debug_quoted(part)
}

/// `i` is the first refused segment of `parts`.
pub open spec fn first_refused_at(parts: Seq<Seq<char>>, i: int) -> bool {
    &&& 0 <= i < parts.len()
    &&& refused(parts[i])
    &&& forall|k: int| 0 <= k < i ==> !refused(#[trigger] parts[k])
}

/// Why a note path cannot be built from `root` and `parts`: the first
/// refused segment, or else the built path lying outside the root.
pub open spec fn build_failure(root: Seq<char>, parts: Seq<Seq<char>>) -> Seq<char> {
    match push_all(root, parts) {
        None => refusal_message(parts[choose|i: int| first_refused_at(parts, i)]),
        Some(p) => "resolved path escapes vault root: "@ + with_md(p),
    }
}

/// Pushing segments in order; `None` at the first refused one.
pub open spec fn push_all(p: Seq<char>, parts: Seq<Seq<char>>) -> Option<Seq<char>>
    decreases parts.len(),
{
    if parts.len() == 0 {
        Some(p)
    } else {
        match push_all(p, parts.drop_last()) {
            None => None,
            Some(q) => safe_push(q, parts.last()),
        }
    }
}

fn contains_nul(p: &Vec<char>) -> (b: bool)
    ensures
        b == p@.contains('\0'),
{
    let mut i: usize = 0;
    while i < p.len()
        invariant
            i <= p.len(),
            forall|k: int| 0 <= k < i ==> p@[k] != '\0',
        decreases p.len() - i,
    {
        if p[i] == '\0' {
            assert(p@[i as int] == '\0');
            return true;
        }
        i = i + 1;
    }
    false
}


/// Push a settings segment onto a path, refusing one that escapes.
pub fn push_safe_component(path: &mut Vec<char>, part: &Vec<char>) -> (r: Result<(), VaultError>)
    ensures
        match safe_push(old(path)@, part@) {
            Some(q) => r is Ok && final(path)@ == q,
            None => r matches Err(VaultError::Io(m)) && m@
                == "refusing path component that escapes the vault: "@ + crate::text::debug_quoted(part@)
                && final(path)@ == old(path)@,
        },
{
    if part.len() == 0 || is_dot(part) {
        return Ok(());
    }
    if is_dot_dot(part) || contains_nul(part) {
        let mut m = str_chars("refusing path component that escapes the vault: ");
        extend_chars(&mut m, &str_chars(crate::text::quoted(chars_string(part).as_str()).as_str()));
        return Err(VaultError::Io(chars_string(&m)));
    }
    if path.len() > 0 && path[path.len() - 1] != '/' {
        path.push('/');
    }
    extend_chars(path, part);
    Ok(())
}

fn push_segments(path: &mut Vec<char>, parts: &Vec<Vec<char>>) -> (r: Result<(), VaultError>)
    ensures
        match push_all(old(path)@, crate::text::views(parts@)) {
            Some(q) => r is Ok && final(path)@ == q,
            None => r matches Err(VaultError::Io(m)) && m@ == build_failure(
                old(path)@,
                crate::text::views(parts@),
            ),
        },
{
    let ghost start = path@;
    let ghost pv = crate::text::views(parts@);
    let mut i: usize = 0;
    assert(pv.take(0) =~= Seq::<Seq<char>>::empty());
    while i < parts.len()
        invariant
            pv == crate::text::views(parts@),
            i <= parts.len(),
            push_all(start, pv.take(i as int)) == Some(path@),
            start == old(path)@,
        decreases parts.len() - i,
    {
        proof {
            assert(pv.take(i + 1).drop_last() =~= pv.take(i as int));
            assert(pv.take(i + 1).last() == parts@[i as int]@);
        }
        let r = push_safe_component(path, &parts[i]);
        match r {
            Err(e) => {
                proof {
                    lemma_push_all_none(start, pv, i + 1);
                    lemma_push_all_some(start, pv.take(i as int));
                    assert forall|k: int| 0 <= k < i implies !refused(#[trigger] pv[k]) by {
                        assert(pv.take(i as int)[k] == pv[k]);
                    }
                    assert(pv[i as int] == parts@[i as int]@);
                    lemma_first_refused(pv, i as int);
                }
                return Err(e);
            },
            Ok(()) => {},
        }
        i = i + 1;
    }
    assert(pv.take(parts.len() as int) =~= pv);
    Ok(())
}

/// Pushing succeeds exactly when no segment is refused.
pub proof fn lemma_push_all_some(p: Seq<char>, parts: Seq<Seq<char>>)
    ensures
        push_all(p, parts) is Some <==> forall|k: int| 0 <= k < parts.len() ==> !refused(
            #[trigger] parts[k],
        ),
    decreases parts.len(),
{
    if parts.len() > 0 {
        let init = parts.drop_last();
        lemma_push_all_some(p, init);
        assert forall|k: int| 0 <= k < init.len() implies #[trigger] init[k] == parts[k] by {}
        if push_all(p, parts) is Some {
            assert forall|k: int| 0 <= k < parts.len() implies !refused(#[trigger] parts[k]) by {
                if k < init.len() {
                    assert(init[k] == parts[k]);
                }
            }
        } else if push_all(p, init) is Some {
            assert(refused(parts[parts.len() - 1]));
        } else {
            let k = choose|k: int| 0 <= k < init.len() && refused(#[trigger] init[k]);
            assert(refused(parts[k]));
        }
    }
}

/// The first refused segment is the one `choose` picks.
pub proof fn lemma_first_refused(parts: Seq<Seq<char>>, i: int)
    requires
        first_refused_at(parts, i),
    ensures
        (choose|j: int| first_refused_at(parts, j)) == i,
{
    let j = choose|j: int| first_refused_at(parts, j);
    assert(first_refused_at(parts, j));
    if j < i {
        assert(!refused(parts[j]));
    }
    if i < j {
        assert(!refused(parts[i]));
    }
}

/// Once a push is refused, pushing more segments stays refused.
pub proof fn lemma_push_all_none(p: Seq<char>, parts: Seq<Seq<char>>, k: int)
    requires
        0 <= k <= parts.len(),
        push_all(p, parts.take(k)) is None,
    ensures
        push_all(p, parts) is None,
    decreases parts.len() - k,
{
    if k < parts.len() {
        assert(parts.take(k + 1).drop_last() =~= parts.take(k));
        lemma_push_all_none(p, parts, k + 1);
    } else {
        assert(parts.take(k) =~= parts);
    }
}

/// Index just after the last `'/'` of `p` (0 when there is none).
pub open spec fn name_start(p: Seq<char>) -> int
    decreases p.len(),
{
    if p.len() == 0 {
        0
    } else if p.last() == '/' {
        p.len() as int
    } else {
        name_start(p.drop_last())
    }
}

/// A file name with no extension: not `.` or `..`, and no `'.'` after its
/// first character.
pub open spec fn lacks_extension(name: Seq<char>) -> bool {
    &&& name.len() > 0
    &&& name != seq!['.']
    &&& name != seq!['.', '.']
    &&& forall|i: int| 1 <= i < name.len() ==> #[trigger] name[i] != '.'
}

/// The path with `.md` added when its file name has no extension.
pub open spec fn with_md(p: Seq<char>) -> Seq<char> {
    if lacks_extension(p.skip(name_start(p))) {
        p + seq!['.', 'm', 'd']
    } else {
        p
    }
}

pub proof fn lemma_name_start(p: Seq<char>)
    ensures
        0 <= name_start(p) <= p.len(),
        forall|k: int| name_start(p) <= k < p.len() ==> #[trigger] p[k] != '/',
        name_start(p) > 0 ==> p[name_start(p) - 1] == '/',
    decreases p.len(),
{
    if p.len() > 0 && p.last() != '/' {
        lemma_name_start(p.drop_last());
        assert forall|k: int| name_start(p) <= k < p.len() implies #[trigger] p[k] != '/' by {
            if k < p.len() - 1 {
                assert(p[k] == p.drop_last()[k]);
            }
        }
    }
}

fn add_md_extension(p: &mut Vec<char>)
    ensures
        final(p)@ == with_md(old(p)@),
{
    let mut start = p.len();
    while start > 0 && p[start - 1] != '/'
        invariant
            start <= p.len(),
            forall|k: int| start <= k < p.len() ==> #[trigger] p@[k] != '/',
        decreases start,
    {
        start = start - 1;
    }
    proof {
        lemma_name_start(p@);
        let ns = name_start(p@);
        if ns < start {
            assert(p@[start - 1] != '/');
            assert(p@[ns - 1] == '/');
            if ns > 0 {
                assert(p@[ns - 1] != '/');
            }
        }
        if start < ns {
            assert(p@[ns - 1] != '/');
        }
    }
    let name = crate::text::sub_chars(p, start, p.len());
    assert(name@ =~= p@.skip(start as int));
    let mut has_dot = false;
    let mut i: usize = 1;
    while i < name.len()
        invariant
            1 <= i,
            !has_dot ==> forall|k: int| 1 <= k < i && k < name.len() ==> #[trigger] name@[k] != '.',
            has_dot ==> exists|k: int| 1 <= k < name.len() && #[trigger] name@[k] == '.',
        decreases name.len() - i,
    {
        if name[i] == '.' {
            has_dot = true;
        }
        i = i + 1;
    }
    if name.len() > 0 && !is_dot(&name) && !is_dot_dot(&name) && !has_dot {
        p.push('.');
        p.push('m');
        p.push('d');
        assert(p@ =~= old(p)@ + seq!['.', 'm', 'd']);
    }
}

/// A component other than the root or a `.`: a non-empty piece that is not
/// `.`.
pub open spec fn normal_piece(p: Seq<char>) -> bool {
    p.len() > 0 && p != seq!['.']
}

/// The normal pieces among `ps`, in order.
pub open spec fn normal_pieces(ps: Seq<Seq<char>>) -> Seq<Seq<char>>
    decreases ps.len(),
{
    if ps.len() == 0 {
        Seq::<Seq<char>>::empty()
    } else if normal_piece(ps.last()) {
        normal_pieces(ps.drop_last()).push(ps.last())
    } else {
        normal_pieces(ps.drop_last())
    }
}

/// `Path::components` of a `/`-separated path: the root (written `/`) or a
/// leading `.`, then the other pieces without empty ones and `.`.
pub open spec fn path_components(p: Seq<char>) -> Seq<Seq<char>> {
    let pieces = split_slash(p);
    let head = if p.len() > 0 && p[0] == '/' {
        seq![seq!['/']]
    } else if pieces.len() > 0 && pieces[0] == seq!['.'] {
        seq![seq!['.']]
    } else {
        Seq::<Seq<char>>::empty()
    };
    head + normal_pieces(pieces)
}

/// `Path::starts_with`: the base's components begin the path's.
pub open spec fn path_under(path: Seq<char>, base: Seq<char>) -> bool {
    let a = path_components(path);
    let b = path_components(base);
    b.len() <= a.len() && a.take(b.len() as int) == b
}

fn components(p: &Vec<char>) -> (r: Vec<Vec<char>>)
    ensures
        crate::text::views(r@) == path_components(p@),
{
    let pieces = split_on_slash(p);
    let ghost pv = crate::text::views(pieces@);
    proof {
        lemma_split_slash_len(p@);
    }
    let mut r: Vec<Vec<char>> = Vec::new();
    if p.len() > 0 && p[0] == '/' {
        let rp = vec!['/'];
        assert(rp@ =~= seq!['/']);
        r.push(rp);
        assert(crate::text::views(r@) =~= seq![seq!['/']]);
    } else if pieces.len() > 0 && is_dot(&pieces[0]) {
        let dp = vec!['.'];
        assert(dp@ =~= seq!['.']);
        r.push(dp);
        assert(pv[0] == pieces@[0]@);
        assert(crate::text::views(r@) =~= seq![seq!['.']]);
    } else {
        if pieces.len() > 0 {
            assert(pv[0] == pieces@[0]@);
        }
        assert(crate::text::views(r@) =~= Seq::<Seq<char>>::empty());
    }
    let ghost head = crate::text::views(r@);
    assert(head =~= if p@.len() > 0 && p@[0] == '/' {
        seq![seq!['/']]
    } else if pv.len() > 0 && pv[0] == seq!['.'] {
        seq![seq!['.']]
    } else {
        Seq::<Seq<char>>::empty()
    });
    let mut i: usize = 0;
    while i < pieces.len()
        invariant
            pv == crate::text::views(pieces@),
            i <= pieces.len(),
            crate::text::views(r@) == head + normal_pieces(pv.take(i as int)),
        decreases pieces.len() - i,
    {
        proof {
            assert(pv.take(i + 1).drop_last() =~= pv.take(i as int));
            assert(pv.take(i + 1).last() == pieces@[i as int]@);
        }
        let ghost before = r@;
        if pieces[i].len() > 0 && !is_dot(&pieces[i]) {
            r.push(crate::text::sub_chars_all(&pieces[i]));
            assert(crate::text::views(r@) =~= crate::text::views(before).push(pieces@[i as int]@));
        }
        i = i + 1;
    }
    assert(pv.take(pieces.len() as int) =~= pv);
    r
}

fn under(path: &Vec<char>, base: &Vec<char>) -> (b: bool)
    ensures
        b == path_under(path@, base@),
{
    let a = components(path);
    let c = components(base);
    let ghost av = crate::text::views(a@);
    let ghost cv = crate::text::views(c@);
    if c.len() > a.len() {
        return false;
    }
    let mut i: usize = 0;
    while i < c.len()
        invariant
            av == crate::text::views(a@),
            cv == crate::text::views(c@),
            av == path_components(path@),
            cv == path_components(base@),
            c.len() <= a.len(),
            i <= c.len(),
            forall|k: int| 0 <= k < i ==> av[k] == cv[k],
        decreases c.len() - i,
    {
        assert(av.len() == a.len() && cv.len() == c.len());
        if !crate::text::chars_eq(&a[i], &c[i]) {
            assert(av[i as int] == a@[i as int]@);
            assert(cv[i as int] == c@[i as int]@);
            assert(av.take(cv.len() as int)[i as int] != cv[i as int]);
            assert(av.take(cv.len() as int) != cv);
            assert(av == path_components(path@));
            assert(cv == path_components(base@));
            return false;
        }
        i = i + 1;
    }
    assert(av.take(cv.len() as int) =~= cv);
    true
}

/// The path check for a note path built from the root, and, when both
/// could be resolved on disk, for their real locations.
pub open spec fn stays_under(root: Seq<char>, path: Seq<char>, real_path: Option<Seq<char>>, real_root: Option<Seq<char>>) -> bool {
    path_under(path, root) && match (real_path, real_root) {
        (Some(rp), Some(rr)) => path_under(rp, rr),
        _ => true,
    }
}

fn opt_chars(o: Option<&str>) -> (r: Option<Vec<char>>)
    ensures
        match o {
            Some(s) => r matches Some(v) && v@ == s@,
            None => r is None,
        },
{
    match o {
        Some(s) => Some(str_chars(s)),
        None => None,
    }
}

pub open spec fn opt_str(o: Option<&str>) -> Option<Seq<char>> {
    match o {
        Some(s) => Some(s@),
        None => None,
    }
}

/// Refuse a path that escapes the vault root: built paths must start with
/// the root, and real (symlink-resolved) locations, where known, must lie
/// under the real root.
pub fn ensure_under_root(root: &str, path: &str, real_path: Option<&str>, real_root: Option<&str>) -> (r: Result<(), VaultError>)
    ensures
        r is Ok <==> stays_under(root@, path@, opt_str(real_path), opt_str(real_root)),
        r matches Err(e) ==> e is Io && e->Io_0@ == if !path_under(path@, root@) {
            "resolved path escapes vault root: "@ + path@
        } else {
            "resolved path escapes vault root: "@ + path@ + " resolves to "@ + opt_str(real_path)->0
        },
{
    let rt = str_chars(root);
    let p = str_chars(path);
    if !under(&p, &rt) {
        let mut m = str_chars("resolved path escapes vault root: ");
        extend_chars(&mut m, &p);
        return Err(VaultError::Io(chars_string(&m)));
    }
    match (opt_chars(real_path), opt_chars(real_root)) {
        (Some(rp), Some(rr)) => {
            if !under(&rp, &rr) {
                let mut m = str_chars("resolved path escapes vault root: ");
                extend_chars(&mut m, &p);
                extend_chars(&mut m, &str_chars(" resolves to "));
                extend_chars(&mut m, &rp);
                return Err(VaultError::Io(chars_string(&m)));
            }
        },
        _ => {},
    }
    Ok(())
}

/// The note path from the root and settings segments, with `.md` added.
pub open spec fn built_path(root: Seq<char>, parts: Seq<Seq<char>>) -> Option<Seq<char>> {
    match push_all(root, parts) {
        None => None,
        Some(p) => Some(with_md(p)),
    }
}

/// Outcome of building a note path: `Some` of the path, `None` when a
/// segment escapes or the path does not start with the root.
pub open spec fn checked_path(root: Seq<char>, parts: Seq<Seq<char>>) -> Option<Seq<char>> {
    match built_path(root, parts) {
        Some(p) => if path_under(p, root) {
            Some(p)
        } else {
            None
        },
        None => None,
    }
}

fn build_checked(root: &str, parts: &Vec<Vec<char>>) -> (r: Result<String, VaultError>)
    ensures
        match r {
            Ok(s) => checked_path(root@, crate::text::views(parts@)) == Some(s@),
            Err(e) => checked_path(root@, crate::text::views(parts@)) is None && (e matches VaultError::Io(
                m,
            ) && m@ == build_failure(root@, crate::text::views(parts@))),
        },
{
    let rt = str_chars(root);
    let mut path = crate::text::sub_chars_all(&rt);
    push_segments(&mut path, parts)?;
    add_md_extension(&mut path);
    if !under(&path, &rt) {
        let mut m = str_chars("resolved path escapes vault root: ");
        extend_chars(&mut m, &path);
        return Err(VaultError::Io(chars_string(&m)));
    }
    Ok(chars_string(&path))
}

/// Segments of the note's folder then of its formatted name.
pub open spec fn note_parts(folder: Seq<char>, relative: Seq<char>) -> Seq<Seq<char>> {
    (if folder.len() > 0 {
        split_slash(folder)
    } else {
        Seq::<Seq<char>>::empty()
    }) + split_slash(relative)
}

impl Vault {
    /// The live path of `date`'s note: root, daily-notes folder and the
    /// date formatted with the configured pattern (which may hold `/`),
    /// with `.md` added when the name has no extension.
    pub fn daily_note_path(&self, config: &DailyNotesConfig, date: &Date) -> (r: Result<String, VaultError>)
        ensures
            match r {
                Ok(s) => moment_text(config.format@, *date) matches Some(rel) && checked_path(
                    self.root@,
                    note_parts(config.folder@, rel),
                ) == Some(s@),
                Err(VaultError::BadFormat(m)) => moment_text(config.format@, *date) is None
                    && config.format@.len() == 0 && m@ == "format is empty"@,
                Err(VaultError::Io(m)) => moment_text(config.format@, *date) matches Some(rel)
                    && checked_path(self.root@, note_parts(config.folder@, rel)) is None && m@
                    == build_failure(self.root@, note_parts(config.folder@, rel)),
                Err(_) => false,
            },
    {
        let relative = match crate::format::format_moment(config.format.as_str(), date) {
            Ok(s) => s,
            Err(msg) => return Err(VaultError::BadFormat(msg)),
        };
        let folder = str_chars(config.folder.as_str());
        let rel = str_chars(relative.as_str());
        let mut parts: Vec<Vec<char>> = if folder.len() > 0 {
            split_on_slash(&folder)
        } else {
            Vec::new()
        };
        let more = split_on_slash(&rel);
        crate::notes::push_lines(&mut parts, &more, 0, more.len());
        proof {
            assert(crate::text::views(more@).subrange(0, more.len() as int) =~= crate::text::views(more@));
            assert(crate::text::views(parts@) =~= note_parts(folder@, rel@));
        }
        build_checked(self.root.as_str(), &parts)
    }

    /// Where `date`'s note lies in the archive: the formatted archive
    /// pattern, then the formatted note name.
    pub fn archive_note_path(&self, config: &DailyNotesConfig, date: &Date) -> (r: Result<String, VaultError>)
        ensures
            match config.archive {
                None => r matches Err(VaultError::BadFormat(m)) && m@
                    == "archive pattern is not configured"@,
                Some(pat) => match (moment_text(pat@, *date), moment_text(config.format@, *date)) {
                    (Some(rel), Some(name)) => match r {
                        Ok(s) => checked_path(self.root@, split_slash(rel) + split_slash(name)) == Some(s@),
                        Err(e) => checked_path(self.root@, split_slash(rel) + split_slash(name)) is None
                            && (e matches VaultError::Io(m) && m@ == build_failure(
                            self.root@,
                            split_slash(rel) + split_slash(name),
                        )),
                    },
                    _ => r matches Err(VaultError::BadFormat(m)) && m@ == "format is empty"@,
                },
            },
    {
        let pattern = match &config.archive {
            None => return Err(VaultError::BadFormat(String::from_str("archive pattern is not configured"))),
            Some(p) => p,
        };
        let relative = match crate::format::format_moment(pattern.as_str(), date) {
            Ok(s) => s,
            Err(msg) => return Err(VaultError::BadFormat(msg)),
        };
        let name = match crate::format::format_moment(config.format.as_str(), date) {
            Ok(s) => s,
            Err(msg) => return Err(VaultError::BadFormat(msg)),
        };
        let mut parts = split_on_slash(&str_chars(relative.as_str()));
        let more = split_on_slash(&str_chars(name.as_str()));
        crate::notes::push_lines(&mut parts, &more, 0, more.len());
        proof {
            assert(crate::text::views(more@).subrange(0, more.len() as int) =~= crate::text::views(more@));
        }
        build_checked(self.root.as_str(), &parts)
    }

    /// The template note's path (with `.md` added when it has no
    /// extension), when a template is set and its path stays in the vault.
    pub fn template_path(&self, config: &DailyNotesConfig) -> (r: Option<String>)
        ensures
            match config.template {
                None => r is None,
                Some(t) => match r {
                    Some(s) => checked_path(self.root@, split_slash(t@)) == Some(s@),
                    None => checked_path(self.root@, split_slash(t@)) is None,
                },
            },
    {
        let rel = match &config.template {
            None => return None,
            Some(t) => t,
        };
        let parts = split_on_slash(&str_chars(rel.as_str()));
        match build_checked(self.root.as_str(), &parts) {
            Ok(s) => Some(s),
            Err(_) => None,
        }
    }

    /// The vault root.
    pub fn root(&self) -> (r: &str)
        ensures
            r@ == self.root@,
    {
        self.root.as_str()
    }
}

impl DailyNotePaths {
    /// The primary path wins when it is a file; otherwise, with an archive
    /// pattern, the archive path when that is a file; else the primary.
    pub fn pick(primary: String, archive: Option<String>, primary_is_file: bool, archive_is_file: bool) -> (r: DailyNotePaths)
        ensures
            r.primary == primary,
            r.resolved == match archive {
                Some(a) if !primary_is_file && archive_is_file => a,
                _ => primary,
            },
    {
        let resolved = match &archive {
            Some(a) => {
                if !primary_is_file && archive_is_file {
                    a.clone()
                } else {
                    primary.clone()
                }
            },
            None => primary.clone(),
        };
        DailyNotePaths { primary, resolved }
    }
}

/// `trim_matches('/')`: every `'/'` removed at both ends.
pub open spec fn trim_slashes(s: Seq<char>) -> Seq<char> {
    let a = crate::text::lead_count(s, slash_pred());
    let rest = s.skip(a);
    rest.take(rest.len() - crate::text::trail_count(rest, slash_pred()))
}

pub open spec fn slash_pred() -> spec_fn(char) -> bool {
    |c: char| c == '/'
}

fn trim_slash_chars(s: &Vec<char>) -> (r: Vec<char>)
    ensures
        r@ == trim_slashes(s@),
{
    let mut i: usize = 0;
    while i < s.len() && s[i] == '/'
        invariant
            i <= s.len(),
            forall|k: int| 0 <= k < i ==> slash_pred()(#[trigger] s@[k]),
        decreases s.len() - i,
    {
        assert(slash_pred()(s@[i as int]));
        i = i + 1;
    }
    proof {
        crate::text::lemma_lead_count_at(s@, slash_pred(), i as int);
    }
    let ghost rest = s@.skip(i as int);
    let mut j = s.len();
    while j > i && s[j - 1] == '/'
        invariant
            i <= j <= s.len(),
            rest == s@.skip(i as int),
            forall|k: int| j - i <= k < rest.len() ==> slash_pred()(#[trigger] rest[k]),
        decreases j,
    {
        assert(rest[j - 1 - i] == s@[j - 1]);
        assert(slash_pred()(rest[j - 1 - i]));
        j = j - 1;
    }
    proof {
        if j > i {
            assert(rest[j - 1 - i] == s@[j - 1]);
        }
        crate::text::lemma_trail_count_at(rest, slash_pred(), j - i);
        assert(rest.take(j - i) =~= s@.subrange(i as int, j as int));
    }
    crate::text::sub_chars(s, i, j)
}

/// `trim_end_matches(".md")`: every trailing `.md` removed.
pub open spec fn strip_md(s: Seq<char>) -> Seq<char>
    decreases s.len(),
{
    if s.len() >= 3 && s.skip(s.len() - 3) == seq!['.', 'm', 'd'] {
        strip_md(s.take(s.len() - 3))
    } else {
        s
    }
}

fn strip_md_chars(s: &Vec<char>) -> (r: Vec<char>)
    ensures
        r@ == strip_md(s@),
{
    let mut n = s.len();
    proof {
        assert(s@.take(s.len() as int) =~= s@);
    }
    while n >= 3 && s[n - 3] == '.' && s[n - 2] == 'm' && s[n - 1] == 'd'
        invariant
            n <= s.len(),
            strip_md(s@.take(n as int)) == strip_md(s@),
        decreases n,
    {
        proof {
            let t = s@.take(n as int);
            assert(t.skip(t.len() - 3) =~= seq!['.', 'm', 'd']);
            assert(t.take(t.len() - 3) =~= s@.take(n - 3));
        }
        n = n - 3;
    }
    proof {
        let t = s@.take(n as int);
        if t.len() >= 3 && t.skip(t.len() - 3) == seq!['.', 'm', 'd'] {
            assert(t.skip(t.len() - 3)[0] == s@[n - 3]);
            assert(t.skip(t.len() - 3)[1] == s@[n - 2]);
            assert(t.skip(t.len() - 3)[2] == s@[n - 1]);
        }
        assert(s@.take(s.len() as int) =~= s@);
    }
    crate::text::sub_chars(s, 0, n)
}

/// The settings in effect, from the raw settings file fields (`None` when
/// the file is missing): the folder trimmed of whitespace and slashes and
/// sanitized; the format trimmed, `YYYY-MM-DD` when blank; the template
/// trimmed, without `.md` and sanitized, absent when that leaves nothing.
pub open spec fn config_of(archive: Option<String>, settings: Option<DailyNotesSettings>) -> (Seq<char>, Seq<char>, Option<Seq<char>>, Option<String>) {
    match settings {
        None => (Seq::<char>::empty(), "YYYY-MM-DD"@, None, archive),
        Some(st) => (
            match st.folder {
                Some(f) => sanitized(trim_slashes(trim(f@))),
                None => Seq::<char>::empty(),
            },
            match st.format {
                Some(f) if trim(f@).len() > 0 => trim(f@),
                _ => "YYYY-MM-DD"@,
            },
            match st.template {
                Some(t) if strip_md(trim(t@)).len() > 0 && sanitized(strip_md(trim(t@))).len() > 0 => Some(
                    sanitized(strip_md(trim(t@))),
                ),
                _ => None,
            },
            archive,
        ),
    }
}

pub open spec fn config_view(c: DailyNotesConfig) -> (Seq<char>, Seq<char>, Option<Seq<char>>, Option<String>) {
    (
        c.folder@,
        c.format@,
        match c.template {
            Some(t) => Some(t@),
            None => None,
        },
        c.archive,
    )
}

/// A sanitized archive pattern, dropped when blank.
pub open spec fn archive_setting(cli_archive: Option<String>) -> Option<Seq<char>> {
    match cli_archive {
        Some(a) if sanitized(trim_slashes(trim(a@))).len() > 0 => Some(sanitized(trim_slashes(trim(a@)))),
        _ => None,
    }
}

impl Vault {
    /// A vault rooted at the trimmed `path`; `root_is_dir` tells whether
    /// that trimmed path names a directory.
    pub fn from_path(path: &str, root_is_dir: bool) -> (r: Result<Vault, VaultError>)
        ensures
            match r {
                Ok(v) => trim(path@).len() > 0 && root_is_dir && v.root@ == trim(path@) && v.archive is None,
                Err(VaultError::EmptyEnv) => trim(path@).len() == 0,
                Err(VaultError::NotADirectory(p)) => trim(path@).len() > 0 && !root_is_dir && p@ == trim(path@),
                Err(_) => false,
            },
    {
        let t = crate::text::trim_chars(&str_chars(path));
        if t.len() == 0 {
            return Err(VaultError::EmptyEnv);
        }
        let root = chars_string(&t);
        if !root_is_dir {
            return Err(VaultError::NotADirectory(root));
        }
        Ok(Vault { root, archive: None })
    }

    /// The vault found from the command line or the environment, with the
    /// archive pattern of `--archive-folder` trimmed of whitespace and
    /// slashes, sanitized, and dropped when blank.
    pub fn resolve(found: Result<Vault, VaultError>, cli_archive: Option<String>) -> (r: Result<Vault, VaultError>)
        ensures
            match found {
                Err(e) => r == Err::<Vault, VaultError>(e),
                Ok(v) => r matches Ok(w) && w.root == v.root && match (w.archive, archive_setting(cli_archive)) {
                    (Some(a), Some(b)) => a@ == b,
                    (None, None) => true,
                    _ => false,
                },
            },
    {
        let vault = match found {
            Err(e) => return Err(e),
            Ok(v) => v,
        };
        let archive = match &cli_archive {
            None => None,
            Some(a) => {
                let t = crate::text::trim_chars(&str_chars(a.as_str()));
                let t = trim_slash_chars(&t);
                let cleaned = sanitize_rel(chars_string(&t).as_str());
                if !cleaned.as_str().is_empty() {
                    Some(cleaned)
                } else {
                    None
                }
            },
        };
        Ok(Vault { root: vault.root, archive })
    }

    /// The daily-notes settings in effect; `settings` holds the raw fields
    /// of `.obsidian/daily-notes.json`, `None` when the file is missing.
    pub fn daily_notes_config(&self, settings: Option<DailyNotesSettings>) -> (c: DailyNotesConfig)
        ensures
            config_view(c) == config_of(self.archive, settings),
    {
        match settings {
            None => {
                let mut c = DailyNotesConfig::default();
                c.archive = self.archive.clone();
                proof {
                    reveal_strlit("YYYY-MM-DD");
                    assert(c.folder@ =~= Seq::<char>::empty());
                }
                c
            },
            Some(st) => {
                let folder = match &st.folder {
                    Some(f) => {
                        let t = trim_slash_chars(&crate::text::trim_chars(&str_chars(f.as_str())));
                        sanitize_rel(chars_string(&t).as_str())
                    },
                    None => String::new(),
                };
                let format = match &st.format {
                    Some(f) => {
                        let t = crate::text::trim_chars(&str_chars(f.as_str()));
                        if t.len() > 0 {
                            chars_string(&t)
                        } else {
                            String::from_str("YYYY-MM-DD")
                        }
                    },
                    None => String::from_str("YYYY-MM-DD"),
                };
                let template = match &st.template {
                    Some(t) => {
                        let x = strip_md_chars(&crate::text::trim_chars(&str_chars(t.as_str())));
                        if x.len() > 0 {
                            let y = sanitize_rel(chars_string(&x).as_str());
                            let yv = str_chars(y.as_str());
                            if yv.len() > 0 {
                                Some(y)
                            } else {
                                None
                            }
                        } else {
                            None
                        }
                    },
                    None => None,
                };
                DailyNotesConfig { folder, format, template, archive: self.archive.clone() }
            },
        }
    }
}

impl VaultError {
    /// The human-readable message of the error.
    pub fn message(&self) -> (r: String)
        ensures
            match self {
                VaultError::Io(m) => r@ == m@,
                VaultError::BadFormat(m) => r@ == "daily note format: "@ + m@,
                VaultError::NotADirectory(p) => r@ == "vault root is not a directory: "@ + p@,
                VaultError::EmptyEnv => r@ == "vault path is empty"@,
                VaultError::MissingEnv => r@
                    == "OBSIDIAN_VAULT_ROOT is not set (or pass --vault / set vaultPath in bar settings)"@,
            },
    {
        match self {
            VaultError::MissingEnv => String::from_str(
                "OBSIDIAN_VAULT_ROOT is not set (or pass --vault / set vaultPath in bar settings)",
            ),
            VaultError::EmptyEnv => String::from_str("vault path is empty"),
            VaultError::NotADirectory(p) => {
                let mut s = String::from_str("vault root is not a directory: ");
                s.append(p.as_str());
                s
            },
            VaultError::Io(m) => m.clone(),
            VaultError::BadFormat(m) => {
                let mut s = String::from_str("daily note format: ");
                s.append(m.as_str());
                s
            },
        }
    }
}

/// Where a note write lands: the real (symlink-resolved) folder `real_parent`
/// of `path` must lie under the real vault root; the note is then written
/// at `name` in that folder, or, when the note itself resolves
/// (`real_note`), at its real location if that lies under the root.
pub open spec fn note_target_of(
    real_root: Seq<char>,
    path: Seq<char>,
    parent: Seq<char>,
    real_parent: Seq<char>,
    name: Seq<char>,
    real_note: Option<Seq<char>>,
) -> Result<Seq<char>, Seq<char>> {
    if !path_under(real_parent, real_root) {
        Err("refusing to write outside the vault: "@ + parent + " resolves to "@ + real_parent)
    } else {
        match real_note {
            Some(target) => if path_under(target, real_root) {
                Ok(target)
            } else {
                Err("refusing to write outside the vault: "@ + path + " resolves to "@ + target)
            },
            None => Ok(path_push(real_parent, name)),
        }
    }
}

/// Decide the real file a note write goes to, from the canonical vault
/// root, the note `path`, its folder `parent` and that folder's canonical
/// form, the note's file `name`, and the note's own canonical path when it
/// exists.
pub fn resolve_note_target(
    real_root: &str,
    path: &str,
    parent: &str,
    real_parent: &str,
    name: &str,
    real_note: Option<&str>,
) -> (r: Result<String, VaultError>)
    ensures
        match note_target_of(real_root@, path@, parent@, real_parent@, name@, opt_str(real_note)) {
            Ok(t) => r matches Ok(s) && s@ == t,
            Err(m) => r matches Err(VaultError::Io(e)) && e@ == m,
        },
{
    let rt = str_chars(real_root);
    let rp = str_chars(real_parent);
    if !under(&rp, &rt) {
        let mut m = str_chars("refusing to write outside the vault: ");
        extend_chars(&mut m, &str_chars(parent));
        extend_chars(&mut m, &str_chars(" resolves to "));
        extend_chars(&mut m, &rp);
        return Err(VaultError::Io(chars_string(&m)));
    }
    match real_note {
        Some(target) => {
            let rn = str_chars(target);
            if under(&rn, &rt) {
                Ok(String::from_str(target))
            } else {
                let mut m = str_chars("refusing to write outside the vault: ");
                extend_chars(&mut m, &str_chars(path));
                extend_chars(&mut m, &str_chars(" resolves to "));
                extend_chars(&mut m, &rn);
                Err(VaultError::Io(chars_string(&m)))
            }
        },
        None => {
            let mut p = rp;
            let n = str_chars(name);
            if p.len() > 0 && p[p.len() - 1] != '/' {
                p.push('/');
            }
            extend_chars(&mut p, &n);
            Ok(chars_string(&p))
        },
    }
}

/// Refuse to create note folders whose nearest existing ancestor `anchor`
/// really lies (as `real_anchor`) outside the real vault root.
pub fn check_dir_anchor(real_root: &str, anchor: &str, real_anchor: &str) -> (r: Result<(), VaultError>)
    ensures
        r is Ok <==> path_under(real_anchor@, real_root@),
        r matches Err(e) ==> e is Io && e->Io_0@ == "refusing to create directories outside the vault: "@
            + anchor@ + " resolves to "@ + real_anchor@,
{
    let ra = str_chars(real_anchor);
    if under(&ra, &str_chars(real_root)) {
        Ok(())
    } else {
        let mut m = str_chars("refusing to create directories outside the vault: ");
        extend_chars(&mut m, &str_chars(anchor));
        extend_chars(&mut m, &str_chars(" resolves to "));
        extend_chars(&mut m, &ra);
        Err(VaultError::Io(chars_string(&m)))
    }
}

/// No piece between slashes holds a slash.
pub open spec fn slash_free(ps: Seq<Seq<char>>) -> bool {
    forall|i: int, k: int| 0 <= i < ps.len() && 0 <= k < ps[i].len() ==> #[trigger] ps[i][k] != '/'
}

pub proof fn lemma_split_slash_free(s: Seq<char>)
    ensures
        slash_free(split_slash(s)),
    decreases s.len(),
{
    if s.len() > 0 {
        lemma_split_slash_free(s.drop_last());
        lemma_split_slash_len(s.drop_last());
        let p = split_slash(s.drop_last());
        if s.last() != '/' {
            let q = p.update(p.len() - 1, p.last().push(s.last()));
            assert forall|i: int, k: int| 0 <= i < q.len() && 0 <= k < q[i].len() implies #[trigger] q[i][k] != '/' by {
                if i == p.len() - 1 && k < p[i].len() {
                    assert(q[i][k] == p[i][k]);
                } else if i < p.len() - 1 {
                    assert(q[i] == p[i]);
                }
            }
        } else {
            let q = p.push(Seq::<char>::empty());
            assert forall|i: int, k: int| 0 <= i < q.len() && 0 <= k < q[i].len() implies #[trigger] q[i][k] != '/' by {
                assert(q[i] == p[i]);
            }
        }
    }
}

proof fn lemma_split_slash_append(s: Seq<char>, t: Seq<char>)
    requires
        forall|k: int| 0 <= k < t.len() ==> #[trigger] t[k] != '/',
    ensures
        split_slash(s + t) == split_slash(s).update(
            split_slash(s).len() - 1,
            split_slash(s).last() + t,
        ),
    decreases t.len(),
{
    lemma_split_slash_len(s);
    let q = split_slash(s);
    if t.len() == 0 {
        assert(s + t =~= s);
        assert(q.last() + t =~= q.last());
        assert(q.update(q.len() - 1, q.last() + t) =~= q);
    } else {
        let t0 = t.drop_last();
        lemma_split_slash_append(s, t0);
        assert((s + t).drop_last() =~= s + t0);
        assert((s + t).last() == t.last());
        assert(t.last() == t[t.len() - 1]);
        let p = split_slash(s + t0);
        assert((q.last() + t0).push(t.last()) =~= q.last() + t);
        assert(p.update(p.len() - 1, p.last().push(t.last())) =~= q.update(q.len() - 1, q.last() + t));
    }
}

/// Splitting slash-joined, slash-free segments gives them back.
pub proof fn lemma_split_join_slash(ps: Seq<Seq<char>>)
    requires
        ps.len() >= 1,
        slash_free(ps),
    ensures
        split_slash(join_slash(ps)) == ps,
    decreases ps.len(),
{
    if ps.len() == 1 {
        assert forall|k: int| 0 <= k < ps[0].len() implies #[trigger] ps[0][k] != '/' by {
            assert(ps[0][k] != '/');
        }
        lemma_split_slash_append(Seq::<char>::empty(), ps[0]);
        assert(Seq::<char>::empty() + ps[0] =~= ps[0]);
        assert(seq![Seq::<char>::empty()].update(0, Seq::<char>::empty() + ps[0]) =~= ps);
    } else {
        let p0 = ps.drop_last();
        assert(slash_free(p0)) by {
            assert forall|i: int, k: int| 0 <= i < p0.len() && 0 <= k < p0[i].len() implies #[trigger] p0[i][k] != '/' by {
                assert(p0[i] == ps[i]);
            }
        }
        lemma_split_join_slash(p0);
        let j0 = join_slash(p0);
        assert(j0.push('/').drop_last() =~= j0);
        assert(split_slash(j0.push('/')) == split_slash(j0).push(Seq::<char>::empty()));
        assert forall|k: int| 0 <= k < ps.last().len() implies #[trigger] ps.last()[k] != '/' by {
            assert(ps[ps.len() - 1][k] != '/');
        }
        lemma_split_slash_append(j0.push('/'), ps.last());
        assert(join_slash(ps) =~= j0.push('/') + ps.last());
        assert(p0.push(Seq::<char>::empty()).update(p0.len() as int, Seq::<char>::empty() + ps.last()) =~= ps);
    }
}

/// The kept segments are kept segments of the input, and keeping them again
/// changes nothing.
pub proof fn lemma_kept_segments(ps: Seq<Seq<char>>)
    ensures
        forall|i: int| 0 <= i < kept_segments(ps).len() ==> keeps_segment(#[trigger] kept_segments(ps)[i]),
        slash_free(ps) ==> slash_free(kept_segments(ps)),
        kept_segments(kept_segments(ps)) == kept_segments(ps),
    decreases ps.len(),
{
    if ps.len() > 0 {
        let p0 = ps.drop_last();
        lemma_kept_segments(p0);
        let k0 = kept_segments(p0);
        if slash_free(ps) {
            assert(slash_free(p0)) by {
                assert forall|i: int, k: int| 0 <= i < p0.len() && 0 <= k < p0[i].len() implies #[trigger] p0[i][k] != '/' by {
                    assert(p0[i] == ps[i]);
                }
            }
        }
        if keeps_segment(ps.last()) {
            let k = k0.push(ps.last());
            assert(k.drop_last() =~= k0);
            if slash_free(ps) {
                assert forall|i: int, c: int| 0 <= i < k.len() && 0 <= c < k[i].len() implies #[trigger] k[i][c] != '/' by {
                    if i == k.len() - 1 {
                        assert(k[i] == ps[ps.len() - 1]);
                    } else {
                        assert(k[i] == k0[i]);
                    }
                }
            }
        }
    }
}

/// Sanitizing drops every empty, `.` and `..` segment, so a sanitized
/// settings path cannot climb out of the vault, and sanitizing it again
/// changes nothing.
pub proof fn law_sanitized_stays_inside(value: Seq<char>)
    ensures
        sanitized(value).len() > 0 ==> forall|i: int|
            0 <= i < split_slash(sanitized(value)).len() ==> keeps_segment(
                #[trigger] split_slash(sanitized(value))[i],
            ),
        sanitized(sanitized(value)) == sanitized(value),
{
    let ps = split_slash(value);
    lemma_split_slash_free(value);
    lemma_kept_segments(ps);
    let k = kept_segments(ps);
    if k.len() > 0 {
        lemma_split_join_slash(k);
    } else {
        assert(sanitized(value) == Seq::<char>::empty());
        assert(split_slash(Seq::<char>::empty()) == seq![Seq::<char>::empty()]);
        assert(kept_segments(seq![Seq::<char>::empty()]) =~= Seq::<Seq<char>>::empty()) by {
            assert(seq![Seq::<char>::empty()].drop_last() =~= Seq::<Seq<char>>::empty());
        }
    }
}

} // verus!
