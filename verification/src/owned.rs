//! Todos this clock wrote, per day and per vault. They heal a daily note
//! when Obsidian Sync replaces it with a virgin Daily template (another
//! device created the same path while this write had not been uploaded).
use vstd::prelude::*;
use vstd::utf8::encode_utf8;
use crate::text::{chars_eq, eq_ignore_ascii_case, same_ignoring_ascii_case, str_chars, trim};

verus! {

/// A todo this clock wrote, with the heading it was written under.
#[derive(Debug, Clone, PartialEq, Eq)]
pub struct OwnedTodo {
    pub heading: String,
    pub text: String,
}

/// Heading and text of an owned todo.
pub type OwnedView = (Seq<char>, Seq<char>);

pub open spec fn owned_views(v: Seq<OwnedTodo>) -> Seq<OwnedView> {
    v.map_values(|t: OwnedTodo| (t.heading@, t.text@))
}

/// Day keys with their todo lists, later entries replacing earlier ones.
pub open spec fn days_map(e: Seq<(Seq<char>, Seq<OwnedView>)>) -> Map<Seq<char>, Seq<OwnedView>>
    decreases e.len(),
{
    if e.len() == 0 {
        Map::empty()
    } else {
        days_map(e.drop_last()).insert(e.last().0, e.last().1)
    }
}

pub open spec fn entry_views(v: Seq<(String, Vec<OwnedTodo>)>) -> Seq<(Seq<char>, Seq<OwnedView>)> {
    v.map_values(|p: (String, Vec<OwnedTodo>)| (p.0@, owned_views(p.1@)))
}

pub open spec fn keys_distinct(e: Seq<(Seq<char>, Seq<OwnedView>)>) -> bool {
    forall|i: int, j: int| 0 <= i < j < e.len() ==> e[i].0 != e[j].0
}

/// The owned todos of one vault: a list per day (`YYYY-MM-DD`).
pub struct OwnedDays {
    days: Vec<(String, Vec<OwnedTodo>)>,
}

impl View for OwnedDays {
    type V = Map<Seq<char>, Seq<OwnedView>>;

    closed spec fn view(&self) -> Map<Seq<char>, Seq<OwnedView>> {
        days_map(entry_views(self.days@))
    }
}

pub proof fn lemma_days_map_keys(e: Seq<(Seq<char>, Seq<OwnedView>)>, k: Seq<char>)
    ensures
        days_map(e).contains_key(k) <==> exists|i: int| 0 <= i < e.len() && #[trigger] e[i].0 == k,
    decreases e.len(),
{
    if e.len() > 0 {
        lemma_days_map_keys(e.drop_last(), k);
        if days_map(e).contains_key(k) && e.last().0 != k {
            let i = choose|i: int| 0 <= i < e.drop_last().len() && #[trigger] e.drop_last()[i].0 == k;
            assert(e[i].0 == k);
        }
        if exists|i: int| 0 <= i < e.len() && #[trigger] e[i].0 == k {
            let i = choose|i: int| 0 <= i < e.len() && #[trigger] e[i].0 == k;
            if i < e.len() - 1 {
                assert(e.drop_last()[i].0 == k);
            }
        }
    }
}

/// Entries of a day other than `k`.
pub open spec fn other_day(k: Seq<char>) -> spec_fn((Seq<char>, Seq<OwnedView>)) -> bool {
    |p: (Seq<char>, Seq<OwnedView>)| p.0 != k
}

/// Dropping every entry of key `k` drops `k` from the map.
pub proof fn lemma_days_map_without(e: Seq<(Seq<char>, Seq<OwnedView>)>, k: Seq<char>)
    ensures
        days_map(e.filter(other_day(k))) == days_map(e).remove(k),
    decreases e.len(),
{
    let f = other_day(k);
    if e.len() == 0 {
        assert(e.filter(f) =~= e);
        assert(days_map(e).remove(k) =~= Map::empty());
    } else {
        lemma_days_map_without(e.drop_last(), k);
        assert(e =~= e.drop_last().push(e.last()));
        e.drop_last().lemma_filter_push(e.last(), f);
        if e.last().0 == k {
            assert(days_map(e).remove(k) =~= days_map(e.drop_last()).remove(k));
        } else {
            assert(e.filter(f).drop_last() =~= e.drop_last().filter(f));
            assert(days_map(e).remove(k) =~= days_map(e.drop_last()).remove(k).insert(
                e.last().0,
                e.last().1,
            ));
        }
    }
}

/// With distinct keys, the entry of key `e[i].0` is `e[i]`'s list.
pub proof fn lemma_days_map_at(e: Seq<(Seq<char>, Seq<OwnedView>)>, i: int)
    requires
        keys_distinct(e),
        0 <= i < e.len(),
    ensures
        days_map(e).contains_key(e[i].0),
        days_map(e)[e[i].0] == e[i].1,
    decreases e.len(),
{
    if i < e.len() - 1 {
        assert(e.drop_last()[i] == e[i]);
        assert(keys_distinct(e.drop_last()));
        lemma_days_map_at(e.drop_last(), i);
    }
}

impl OwnedDays {
    #[verifier::type_invariant]
    closed spec fn inv(self) -> bool {
        keys_distinct(entry_views(self.days@))
    }

    /// No owned todos.
    pub fn new() -> (s: OwnedDays)
        ensures
            s@ == Map::<Seq<char>, Seq<OwnedView>>::empty(),
    {
        let s = OwnedDays { days: Vec::new() };
        assert(s@ =~= Map::<Seq<char>, Seq<OwnedView>>::empty());
        s
    }

    fn position(&self, day: &Vec<char>) -> (r: Option<usize>)
        ensures
            match r {
                Some(i) => i < self.days.len() && self.days@[i as int].0@ == day@,
                None => forall|i: int| 0 <= i < self.days.len() ==> #[trigger] self.days@[i].0@ != day@,
            },
    {
        let mut i: usize = 0;
        while i < self.days.len()
            invariant
                i <= self.days.len(),
                forall|j: int| 0 <= j < i ==> #[trigger] self.days@[j].0@ != day@,
            decreases self.days.len() - i,
        {
            if chars_eq(&str_chars(self.days[i].0.as_str()), day) {
                return Some(i);
            }
            i = i + 1;
        }
        None
    }

    /// The todos remembered for `day`; none when the day has no entry.
    pub fn list_for(&self, day: &str) -> (r: Vec<OwnedTodo>)
        ensures
            owned_views(r@) == if self@.contains_key(day@) {
                self@[day@]
            } else {
                Seq::empty()
            },
    {
        proof {
            use_type_invariant(self);
        }
        let ghost e = entry_views(self.days@);
        match self.position(&str_chars(day)) {
            Some(i) => {
                proof {
                    assert(e[i as int].0 == day@);
                    lemma_days_map_at(e, i as int);
                }
                copy_todos(&self.days[i].1)
            },
            None => {
                proof {
                    if self@.contains_key(day@) {
                        lemma_days_map_keys(e, day@);
                        let j = choose|j: int| 0 <= j < e.len() && #[trigger] e[j].0 == day@;
                        assert(self.days@[j].0@ == day@);
                    }
                }
                let r: Vec<OwnedTodo> = Vec::new();
                assert(owned_views(r@) =~= Seq::<OwnedView>::empty());
                r
            },
        }
    }

    fn without(&mut self, day: &Vec<char>)
        ensures
            final(self)@ == old(self)@.remove(day@),
    {
        proof {
            use_type_invariant(&*self);
        }
        let ghost e = entry_views(self.days@);
        let ghost f = other_day(day@);
        let mut kept: Vec<(String, Vec<OwnedTodo>)> = Vec::new();
        let mut i: usize = 0;
        while i < self.days.len()
            invariant
                e == entry_views(self.days@),
                keys_distinct(e),
                i <= self.days.len(),
                f == other_day(day@),
                entry_views(kept@) == e.take(i as int).filter(f),
                keys_distinct(entry_views(kept@)),
                forall|a: int| 0 <= a < kept.len() ==> occurs_before(e, i as int, #[trigger] entry_views(kept@)[a]),
            decreases self.days.len() - i,
        {
            proof {
                assert(e[i as int] == (self.days@[i as int].0@, owned_views(self.days@[i as int].1@)));
                assert(e.take(i + 1) =~= e.take(i as int).push(e[i as int]));
                e.take(i as int).lemma_filter_push(e[i as int], f);
            }
            let same = chars_eq(&str_chars(self.days[i].0.as_str()), day);
            proof {
                assert(f(e[i as int]) == !same);
            }
            if !same {
                let ghost before = kept@;
                kept.push((self.days[i].0.clone(), copy_todos(&self.days[i].1)));
                proof {
                    let kv = entry_views(kept@);
                    assert(kv =~= entry_views(before).push(e[i as int]));
                    assert(kv == e.take(i + 1).filter(f));
                    assert forall|a: int| 0 <= a < kv.len() implies occurs_before(e, i + 1, #[trigger] kv[a]) by {
                        if a == kv.len() - 1 {
                            assert(e[i as int] == kv[a]);
                        } else {
                            assert(kv[a] == entry_views(before)[a]);
                            assert(occurs_before(e, i as int, entry_views(before)[a]));
                        }
                    }
                    assert forall|a: int, b: int| 0 <= a < b < kv.len() implies kv[a].0 != kv[b].0 by {
                        if b == kv.len() - 1 {
                            assert(kv[a] == entry_views(before)[a]);
                            assert(occurs_before(e, i as int, entry_views(before)[a]));
                            let j = choose|j: int| 0 <= j < i && #[trigger] e[j] == entry_views(before)[a];
                            assert(e[j].0 != e[i as int].0);
                        } else {
                            assert(kv[a] == entry_views(before)[a]);
                            assert(kv[b] == entry_views(before)[b]);
                        }
                    }
                }
            }
            i = i + 1;
        }
        proof {
            assert(e.take(self.days.len() as int) =~= e);
            lemma_days_map_without(e, day@);
        }
        self.days = kept;
    }

    fn put(&mut self, day: String, items: Vec<OwnedTodo>)
        ensures
            final(self)@ == old(self)@.insert(day@, owned_views(items@)),
    {
        let d = str_chars(day.as_str());
        self.without(&d);
        let mut v = self.entries();
        proof {
            let e = entry_views(v@);
            lemma_days_map_keys(e, day@);
            assert forall|i: int| 0 <= i < e.len() implies #[trigger] e[i].0 != day@ by {
                if e[i].0 == day@ {
                    assert(days_map(e).contains_key(day@));
                }
            }
        }
        let ghost before = v@;
        v.push((day, items));
        proof {
            let e = entry_views(v@);
            assert(e =~= entry_views(before).push((day@, owned_views(items@))));
            assert(e.drop_last() =~= entry_views(before));
        }
        self.days = v;
    }

    /// Set the todos of `day`; an empty list drops the day.
    pub fn replace_for(&mut self, day: &str, items: Vec<OwnedTodo>)
        ensures
            final(self)@ == replaced_day(old(self)@, day@, owned_views(items@)),
    {
        if items.len() == 0 {
            self.without(&str_chars(day));
        } else {
            self.put(String::from_str(day), items);
        }
    }

    /// Remember that this clock wrote `text` under `heading` on `day`, both
    /// trimmed. Nothing is added when either is blank or the day already
    /// holds that text under the same heading (ignoring ASCII case); the
    /// result tells whether the day's list grew.
    pub fn remember(&mut self, day: &str, heading: &str, text: &str) -> (added: bool)
        ensures
            added == remember_adds(old(self)@, day@, heading@, text@),
            final(self)@ == remembered(old(self)@, day@, heading@, text@),
    {
        let h = crate::text::trim_chars(&str_chars(heading));
        let t = crate::text::trim_chars(&str_chars(text));
        if h.len() == 0 || t.len() == 0 {
            return false;
        }
        let mut list = self.list_for(day);
        let ghost lv = owned_views(list@);
        let ghost m = self@;
        assert(m == old(self)@);
        assert(lv == day_list(m, day@));
        let mut i: usize = 0;
        while i < list.len()
            invariant
                lv == owned_views(list@),
                lv == day_list(m, day@),
                m == old(self)@,
                self@ == m,
                h@ == trim(heading@),
                t@ == trim(text@),
                i <= list.len(),
                forall|j: int| 0 <= j < i ==> !(same_ignoring_ascii_case(#[trigger] lv[j].0, h@) && lv[j].1 == t@),
            decreases list.len() - i,
        {
            let ih = str_chars(list[i].heading.as_str());
            let it = str_chars(list[i].text.as_str());
            if eq_ignore_ascii_case(&ih, &h) && chars_eq(&it, &t) {
                assert(same_ignoring_ascii_case(lv[i as int].0, h@) && lv[i as int].1 == t@);
                assert(already_owned(lv, h@, t@));
                assert(already_owned(day_list(m, day@), trim(heading@), trim(text@)));
                return false;
            }
            i = i + 1;
        }
        let ghost before = list@;
        list.push(OwnedTodo { heading: crate::text::chars_string(&h), text: crate::text::chars_string(&t) });
        assert(owned_views(list@) =~= lv.push((h@, t@)));
        self.put(String::from_str(day), list);
        true
    }

    /// Every day with its todos, each day once.
    pub fn entries(&self) -> (r: Vec<(String, Vec<OwnedTodo>)>)
        ensures
            days_map(entry_views(r@)) == self@,
            keys_distinct(entry_views(r@)),
    {
        proof {
            use_type_invariant(self);
        }
        let mut r: Vec<(String, Vec<OwnedTodo>)> = Vec::new();
        let mut i: usize = 0;
        while i < self.days.len()
            invariant
                i <= self.days.len(),
                entry_views(r@) == entry_views(self.days@).take(i as int),
            decreases self.days.len() - i,
        {
            let ghost before = r@;
            r.push((self.days[i].0.clone(), copy_todos(&self.days[i].1)));
            assert(entry_views(r@) =~= entry_views(before).push(entry_views(self.days@)[i as int]));
            assert(entry_views(self.days@).take(i + 1) =~= entry_views(self.days@).take(i as int).push(
                entry_views(self.days@)[i as int],
            ));
            i = i + 1;
        }
        assert(entry_views(self.days@).take(self.days.len() as int) =~= entry_views(self.days@));
        r
    }

    /// The store holding `entries`, a later entry of a day replacing an
    /// earlier one.
    pub fn from_entries(entries: Vec<(String, Vec<OwnedTodo>)>) -> (s: OwnedDays)
        ensures
            s@ == days_map(entry_views(entries@)),
    {
        let mut s = OwnedDays::new();
        let ghost e = entry_views(entries@);
        let mut i: usize = 0;
        while i < entries.len()
            invariant
                e == entry_views(entries@),
                i <= entries.len(),
                s@ == days_map(e.take(i as int)),
            decreases entries.len() - i,
        {
            s.put(entries[i].0.clone(), copy_todos(&entries[i].1));
            assert(e.take(i + 1).drop_last() =~= e.take(i as int));
            i = i + 1;
        }
        assert(e.take(entries.len() as int) =~= e);
        s
    }

    /// True when no day holds a todo: the store file is then removed
    /// rather than written.
    pub fn all_empty(&self) -> (r: bool)
        ensures
            r == forall|k: Seq<char>| #[trigger] self@.contains_key(k) ==> self@[k].len() == 0,
    {
        proof {
            use_type_invariant(self);
        }
        let ghost e = entry_views(self.days@);
        let mut i: usize = 0;
        while i < self.days.len()
            invariant
                e == entry_views(self.days@),
                keys_distinct(e),
                i <= self.days.len(),
                forall|j: int| 0 <= j < i ==> (#[trigger] e[j]).1.len() == 0,
            decreases self.days.len() - i,
        {
            if self.days[i].1.len() != 0 {
                proof {
                    lemma_days_map_at(e, i as int);
                    assert(self@.contains_key(e[i as int].0));
                }
                return false;
            }
            i = i + 1;
        }
        proof {
            assert forall|k: Seq<char>| #[trigger] self@.contains_key(k) implies self@[k].len() == 0 by {
                lemma_days_map_keys(e, k);
                let j = choose|j: int| 0 <= j < e.len() && #[trigger] e[j].0 == k;
                lemma_days_map_at(e, j);
            }
        }
        true
    }
}

pub open spec fn occurs_before(e: Seq<(Seq<char>, Seq<OwnedView>)>, i: int, x: (Seq<char>, Seq<OwnedView>)) -> bool {
    exists|j: int| 0 <= j < i && #[trigger] e[j] == x
}

/// The store after `day`'s list is set to `items`: an empty list drops the
/// day.
pub open spec fn replaced_day(m: Map<Seq<char>, Seq<OwnedView>>, day: Seq<char>, items: Seq<OwnedView>) -> Map<
    Seq<char>,
    Seq<OwnedView>,
> {
    if items.len() == 0 {
        m.remove(day)
    } else {
        m.insert(day, items)
    }
}

/// Remembering adds the trimmed todo when heading and text are not blank and
/// the day does not hold that text under that heading already.
pub open spec fn remember_adds(m: Map<Seq<char>, Seq<OwnedView>>, day: Seq<char>, heading: Seq<char>, text: Seq<char>) -> bool {
    trim(heading).len() > 0 && trim(text).len() > 0 && !already_owned(day_list(m, day), trim(heading), trim(text))
}

/// The store after remembering a todo.
pub open spec fn remembered(m: Map<Seq<char>, Seq<OwnedView>>, day: Seq<char>, heading: Seq<char>, text: Seq<char>) -> Map<
    Seq<char>,
    Seq<OwnedView>,
> {
    if remember_adds(m, day, heading, text) {
        m.insert(day, day_list(m, day).push((trim(heading), trim(text))))
    } else {
        m
    }
}

/// A day's list reads back as it was set, and other days keep theirs.
pub proof fn law_list_after_replace(
    m: Map<Seq<char>, Seq<OwnedView>>,
    day: Seq<char>,
    items: Seq<OwnedView>,
    other: Seq<char>,
)
    requires
        other != day,
    ensures
        day_list(replaced_day(m, day, items), day) == items,
        day_list(replaced_day(m, day, items), other) == day_list(m, other),
{
}

/// Remembering the same todo twice keeps one copy: after the first time,
/// the day holds it, so the second adds nothing.
pub proof fn law_remember_once(
    m: Map<Seq<char>, Seq<OwnedView>>,
    day: Seq<char>,
    heading: Seq<char>,
    text: Seq<char>,
)
    ensures
        !remember_adds(remembered(m, day, heading, text), day, heading, text),
        remembered(remembered(m, day, heading, text), day, heading, text) == remembered(
            m,
            day,
            heading,
            text,
        ),
{
    let m1 = remembered(m, day, heading, text);
    if remember_adds(m, day, heading, text) {
        let l = day_list(m1, day);
        let n = l.len() - 1;
        assert(l[n] == (trim(heading), trim(text)));
        assert(same_ignoring_ascii_case(l[n].0, trim(heading)));
        assert(already_owned(l, trim(heading), trim(text)));
    }
}

/// The todos of `day`, none when the day has no entry.
pub open spec fn day_list(m: Map<Seq<char>, Seq<OwnedView>>, day: Seq<char>) -> Seq<OwnedView> {
    if m.contains_key(day) {
        m[day]
    } else {
        Seq::empty()
    }
}

/// `list` already holds `text` under `heading` (heading compared ignoring
/// ASCII case).
pub open spec fn already_owned(list: Seq<OwnedView>, heading: Seq<char>, text: Seq<char>) -> bool {
    exists|i: int| 0 <= i < list.len() && same_ignoring_ascii_case(#[trigger] list[i].0, heading) && list[i].1 == text
}

fn copy_todos(v: &Vec<OwnedTodo>) -> (r: Vec<OwnedTodo>)
    ensures
        owned_views(r@) == owned_views(v@),
{
    let mut r: Vec<OwnedTodo> = Vec::new();
    let mut i: usize = 0;
    while i < v.len()
        invariant
            i <= v.len(),
            owned_views(r@) == owned_views(v@).take(i as int),
        decreases v.len() - i,
    {
        let ghost before = r@;
        r.push(OwnedTodo { heading: v[i].heading.clone(), text: v[i].text.clone() });
        assert(owned_views(r@) =~= owned_views(before).push(owned_views(v@)[i as int]));
        assert(owned_views(v@).take(i + 1) =~= owned_views(v@).take(i as int).push(owned_views(v@)[i as int]));
        i = i + 1;
    }
    assert(owned_views(v@).take(v.len() as int) =~= owned_views(v@));
    r
}

/// 64-bit FNV-1a over a byte string.
pub open spec fn fnv1a(bytes: Seq<u8>) -> u64
    decreases bytes.len(),
{
    if bytes.len() == 0 {
        0xcbf29ce484222325u64
    } else {
        (fnv1a(bytes.drop_last()) ^ (bytes.last() as u64)).wrapping_mul(0x100000001b3u64)
    }
}

/// Lower-case hexadecimal digit of `n < 16`.
pub open spec fn lower_hex(n: nat) -> char {
    if n < 10 {
        (48 + n) as char
    } else {
        (87 + n) as char
    }
}

/// The last `n` hexadecimal digits of `h`, most significant first.
pub open spec fn hex_digits(h: nat, n: nat) -> Seq<char>
    decreases n,
{
    if n == 0 {
        Seq::empty()
    } else {
        hex_digits(h / 16, (n - 1) as nat).push(lower_hex(h % 16))
    }
}

fn lower_hex_char(n: u64) -> (c: char)
    requires
        n < 16,
    ensures
        c == lower_hex(n as nat),
{
    let b: u8 = if n < 10 {
        48u8 + n as u8
    } else {
        87u8 + n as u8
    };
    b as char
}

/// The store key of a vault root: FNV-1a of the root's UTF-8 bytes as
/// sixteen lower-case hexadecimal digits (`{:016x}`).
pub fn path_key(root: &str) -> (r: String)
    ensures
        r@ == hex_digits(fnv1a(encode_utf8(root@)) as nat, 16),
{
    let bytes = root.as_bytes();
    let ghost bs = encode_utf8(root@);
    let mut h: u64 = 0xcbf29ce484222325u64;
    let mut i: usize = 0;
    while i < bytes.len()
        invariant
            bytes@ == bs,
            i <= bytes.len(),
            h == fnv1a(bs.take(i as int)),
        decreases bytes.len() - i,
    {
        assert(bs.take(i + 1).drop_last() =~= bs.take(i as int));
        h = h ^ (bytes[i] as u64);
        h = h.wrapping_mul(0x100000001b3u64);
        i = i + 1;
    }
    assert(bs.take(bytes.len() as int) =~= bs);
    let mut out: Vec<char> = Vec::new();
    let mut x: u64 = h;
    let mut k: usize = 0;
    while k < 16
        invariant
            k <= 16,
            hex_digits(h as nat, 16) == hex_digits(x as nat, (16 - k) as nat) + out@,
        decreases 16 - k,
    {
        let c = lower_hex_char(x % 16);
        proof {
            let m = (16 - k) as nat;
            assert(hex_digits(x as nat, m) == hex_digits((x / 16) as nat, (m - 1) as nat).push(
                lower_hex((x % 16) as nat),
            ));
            assert(hex_digits((x / 16) as nat, (m - 1) as nat).push(lower_hex((x % 16) as nat)) + out@
                =~= hex_digits((x / 16) as nat, (m - 1) as nat) + seq![c].add(out@));
        }
        out.insert(0, c);
        assert(out@ =~= seq![c].add(out@.subrange(1, out@.len() as int)));
        x = x / 16;
        k = k + 1;
    }
    assert(out@ =~= Seq::<char>::empty() + out@);
    crate::text::chars_string(&out)
}


} // verus!
