//! The line patterns a daily note is read with: markdown headings, checkbox
//! todos and the `Tasks` / `Todos` heading. Matching is done by the `regex`
//! crate; each pattern's meaning is stated here as a spec function.
use vstd::prelude::*;
use crate::text::{is_blank, lead_ws, single_line, trim_end};

verus! {

/// Number of leading `'#'` characters.
pub open spec fn lead_hashes(s: Seq<char>) -> int
    decreases s.len(),
{
    if s.len() > 0 && s[0] == '#' {
        1 + lead_hashes(s.drop_first())
    } else {
        0
    }
}

pub proof fn lemma_lead_hashes(s: Seq<char>)
    ensures
        0 <= lead_hashes(s) <= s.len(),
        forall|k: int| 0 <= k < lead_hashes(s) ==> #[trigger] s[k] == '#',
        lead_hashes(s) < s.len() ==> s[lead_hashes(s)] != '#',
    decreases s.len(),
{
    if s.len() > 0 && s[0] == '#' {
        lemma_lead_hashes(s.drop_first());
        assert forall|k: int| 0 <= k < lead_hashes(s) implies #[trigger] s[k] == '#' by {
            if k > 0 {
                assert(s[k] == s.drop_first()[k - 1]);
            }
        }
    }
}

/// A markdown heading line as `^(#{1,6})\s+(.+?)\s*$` reads it: the level
/// (the length of the `#` run) and the captured title. The `#` run must be
/// followed by whitespace; when nothing but whitespace follows, the title is
/// the last whitespace character.
pub open spec fn heading_match(line: Seq<char>) -> Option<(nat, Seq<char>)> {
    let h = lead_hashes(line);
    let after = line.skip(h);
    let w = lead_ws(after);
    let rest = after.skip(w);
    if 1 <= h <= 6 && w >= 1 && (rest.len() > 0 || w >= 2) {
        Some(
            (
                h as nat,
                if rest.len() > 0 {
                    trim_end(rest)
                } else {
                    seq![line.last()]
                },
            ),
        )
    } else {
        None
    }
}

/// Calls `Regex::captures` of the `regex` crate with the pattern
/// `^(#{1,6})\s+(.+?)\s*$` on `line`; claims that the level (length of
/// group 1) and group 2 are those of `heading_match`.
#[verifier::external_body]
pub(crate) fn heading_captures(line: &Vec<char>) -> (r: Option<(usize, Vec<char>)>)
    requires
        single_line(line@),
    ensures
        match r {
            Some((level, title)) => heading_match(line@) == Some((level as nat, title@)),
            None => heading_match(line@) is None,
        },
{
    let s: String = line.iter().collect();
    let re = regex::Regex::new(r"^(#{1,6})\s+(.+?)\s*$").expect("heading regex");
    re.captures(&s).map(|caps| (caps[1].len(), caps[2].chars().collect()))
}

/// The parts of a checkbox line.
pub struct CheckboxParts {
    /// Leading whitespace.
    pub indent: Vec<char>,
    /// `-`, `*` or `+`.
    pub bullet: char,
    /// The character inside the brackets: `' '`, `'x'` or `'X'`.
    pub mark: char,
    /// Whitespace between `]` and the text.
    pub gap: Vec<char>,
    /// Everything after the gap.
    pub text: Vec<char>,
}

pub struct CheckboxSpec {
    pub indent: Seq<char>,
    pub bullet: char,
    pub mark: char,
    pub gap: Seq<char>,
    pub text: Seq<char>,
}

impl CheckboxParts {
    pub open spec fn view(&self) -> CheckboxSpec {
        CheckboxSpec {
            indent: self.indent@,
            bullet: self.bullet,
            mark: self.mark,
            gap: self.gap@,
            text: self.text@,
        }
    }
}

/// A checkbox line as `^(\s*)([-*+])\s+\[([ xX])\](\s+)(.*)$` reads it.
pub open spec fn checkbox_match(line: Seq<char>) -> Option<CheckboxSpec> {
    let a = lead_ws(line);
    let r1 = line.skip(a);
    let r2 = r1.skip(1);
    let s1 = lead_ws(r2);
    let r3 = r2.skip(s1);
    let r4 = r3.skip(3);
    let s2 = lead_ws(r4);
    if r1.len() >= 1 && (r1[0] == '-' || r1[0] == '*' || r1[0] == '+') && s1 >= 1 && r3.len()
        >= 3 && r3[0] == '[' && (r3[1] == ' ' || r3[1] == 'x' || r3[1] == 'X') && r3[2] == ']'
        && s2 >= 1 {
        Some(
            CheckboxSpec {
                indent: line.take(a),
                bullet: r1[0],
                mark: r3[1],
                gap: r4.take(s2),
                text: r4.skip(s2),
            },
        )
    } else {
        None
    }
}

/// Calls `Regex::captures` of the `regex` crate with the pattern
/// `^(\s*)([-*+])\s+\[([ xX])\](\s+)(.*)$` on `line`; claims that the five
/// groups are those of `checkbox_match`.
#[verifier::external_body]
pub(crate) fn checkbox_captures(line: &Vec<char>) -> (r: Option<CheckboxParts>)
    requires
        single_line(line@),
    ensures
        match r {
            Some(p) => checkbox_match(line@) == Some(p.view()),
            None => checkbox_match(line@) is None,
        },
{
    let s: String = line.iter().collect();
    let re = regex::Regex::new(r"^(\s*)([-*+])\s+\[([ xX])\](\s+)(.*)$").expect("checkbox regex");
    re.captures(&s).map(|c| CheckboxParts {
        indent: c[1].chars().collect(),
        bullet: c[2].chars().next().unwrap_or('-'),
        mark: c[3].chars().next().unwrap_or(' '),
        gap: c[4].chars().collect(),
        text: c[5].chars().collect(),
    })
}

/// `c` matches the lower-case letter `l` case-insensitively (simple Unicode
/// case folding, which adds `ſ` to `s` and the Kelvin sign to `k`).
pub open spec fn folds_to(c: char, l: char) -> bool {
    ||| c == l
    ||| (l == 't' && c == 'T')
    ||| (l == 'a' && c == 'A')
    ||| (l == 's' && (c == 'S' || c == '\u{17f}'))
    ||| (l == 'k' && (c == 'K' || c == '\u{212a}'))
    ||| (l == 'o' && c == 'O')
    ||| (l == 'd' && c == 'D')
}

pub open spec fn word_folds_to(w: Seq<char>, l: Seq<char>) -> bool {
    w.len() == l.len() && forall|i: int| 0 <= i < w.len() ==> folds_to(#[trigger] w[i], l[i])
}

/// `(?i)^#{1,6}\s+(tasks|todos)\s*$`: a `Tasks` or `Todos` heading of any
/// level and letter case.
pub open spec fn is_tasks_heading(line: Seq<char>) -> bool {
    let h = lead_hashes(line);
    let after = line.skip(h);
    let w = lead_ws(after);
    let rest = after.skip(w);
    &&& 1 <= h <= 6
    &&& w >= 1
    &&& rest.len() >= 5
    &&& (word_folds_to(rest.take(5), seq!['t', 'a', 's', 'k', 's']) || word_folds_to(
        rest.take(5),
        seq!['t', 'o', 'd', 'o', 's'],
    ))
    &&& is_blank(rest.skip(5))
}

/// Calls `Regex::is_match` of the `regex` crate with the pattern
/// `(?i)^#{1,6}\s+(tasks|todos)\s*$` on `line`; claims the result is
/// `is_tasks_heading`.
#[verifier::external_body]
pub(crate) fn tasks_heading_matches(line: &Vec<char>) -> (b: bool)
    requires
        single_line(line@),
    ensures
        b == is_tasks_heading(line@),
{
    let s: String = line.iter().collect();
    let re = regex::Regex::new(r"(?i)^#{1,6}\s+(tasks|todos)\s*$").expect("tasks heading regex");
    re.is_match(&s)
}

/// What `str::to_lowercase` returns for `s`.
pub uninterp spec fn lowercase(s: Seq<char>) -> Seq<char>;

/// Calls `str::to_lowercase`; claims that the result is `lowercase` of the
/// argument (a function of the characters alone) and, as every character
/// lowers to one or more characters, that it is empty only for the empty
/// string. What the lowering maps each character to is left unsaid.
#[verifier::external_body]
pub(crate) fn lowercase_chars(s: &Vec<char>) -> (r: Vec<char>)
    ensures
        r@ == lowercase(s@),
        r@.len() == 0 <==> s@.len() == 0,
{
    let t: String = s.iter().collect();
    t.to_lowercase().chars().collect()
}

} // verus!
