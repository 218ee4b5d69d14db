//! Settings kept as `KEY=value` lines: updating some keys while every other
//! line (comments, other keys, their order) stays as it was.
use vstd::prelude::*;

use crate::brief::lemma_filter_map_step;
use crate::strmap::str_eq;
use crate::text::{is_ws_exec, join, join_spec, lead_from, lemma_lead, trim_end, trim_end_spec};
use crate::turn::svs;

verus! {

broadcast use vstd::std_specs::vec::group_vec_axioms;

/// The pieces between line feeds (as `str::split('\n')`): one more piece
/// than there are line feeds.
pub open spec fn split_nl(s: Seq<char>) -> Seq<Seq<char>>
    decreases s.len(),
{
    if s.len() == 0 {
        seq![Seq::empty()]
    } else if s.last() == '\n' {
        split_nl(s.drop_last()).push(Seq::empty())
    } else {
        let p = split_nl(s.drop_last());
        p.update(p.len() - 1, p.last().push(s.last()))
    }
}

proof fn lemma_split_nl_nonempty(s: Seq<char>)
    ensures
        split_nl(s).len() >= 1,
    decreases s.len(),
{
    if s.len() > 0 {
        lemma_split_nl_nonempty(s.drop_last());
    }
}

/// A line without one trailing carriage return.
pub open spec fn strip_cr(l: Seq<char>) -> Seq<char> {
    if l.len() > 0 && l.last() == '\r' {
        l.drop_last()
    } else {
        l
    }
}

/// The lines of a text, as `str::lines` gives them: no final empty line after
/// a closing line feed, and a carriage return dropped where it ends a line
/// before a line feed.
pub open spec fn lines_spec(s: Seq<char>) -> Seq<Seq<char>> {
    let p = split_nl(s);
    let ended = p.drop_last().map_values(|l: Seq<char>| strip_cr(l));
    if p.last().len() == 0 {
        ended
    } else {
        ended.push(p.last())
    }
}

fn strip_cr_exec(l: &str) -> (r: String)
    ensures
        r@ == strip_cr(l@),
{
    let n = l.unicode_len();
    if n > 0 && l.get_char(n - 1) == '\r' {
        let r = String::from_str(l.substring_char(0, n - 1));
        assert(r@ =~= l@.drop_last());
        r
    } else {
        String::from_str(l)
    }
}

/// The lines of a text (see `lines_spec`).
pub fn lines(s: &str) -> (r: Vec<String>)
    ensures
        svs(r@) == lines_spec(s@),
{
    let n = s.unicode_len();
    let mut out: Vec<String> = Vec::new();
    let ghost mut raw: Seq<Seq<char>> = Seq::empty();
    let mut start: usize = 0;
    let mut i: usize = 0;
    assert(s@.take(0) =~= Seq::<char>::empty());
    assert(raw.push(s@.subrange(0, 0)) =~= seq![Seq::<char>::empty()]);
    while i < n
        invariant
            n == s@.len(),
            start <= i <= n,
            split_nl(s@.take(i as int)) == raw.push(s@.subrange(start as int, i as int)),
            svs(out@) == raw.map_values(|l: Seq<char>| strip_cr(l)),
        decreases n - i,
    {
        let c = s.get_char(i);
        let ghost t = s@.take(i as int + 1);
        assert(t.drop_last() =~= s@.take(i as int));
        assert(t.last() == c);
        if c == '\n' {
            let piece = s.substring_char(start, i);
            let line = strip_cr_exec(piece);
            let ghost before = svs(out@);
            out.push(line);
            proof {
                let old_raw = raw;
                raw = raw.push(piece@);
                assert(svs(out@) =~= before.push(strip_cr(piece@)));
                assert(raw.map_values(|l: Seq<char>| strip_cr(l)) =~= old_raw.map_values(|l: Seq<char>| strip_cr(l)).push(
                    strip_cr(piece@),
                ));
            }
            start = i + 1;
            assert(s@.subrange(start as int, i as int + 1) =~= Seq::<char>::empty());
        } else {
            assert(s@.subrange(start as int, i as int).push(c) =~= s@.subrange(start as int, i as int + 1));
        }
        i = i + 1;
    }
    assert(s@.take(n as int) =~= s@);
    proof {
        let p = split_nl(s@);
        assert(p.drop_last() =~= raw);
        assert(p.last() == s@.subrange(start as int, n as int));
    }
    if start < n {
        let last = String::from_str(s.substring_char(start, n));
        let ghost before = svs(out@);
        out.push(last);
        assert(svs(out@) =~= before.push(s@.subrange(start as int, n as int)));
    }
    out
}

/// The first position from `i` on holding `c` (the length when there is none).
pub open spec fn find_from(s: Seq<char>, c: char, i: int) -> int
    decreases s.len() - i,
{
    if 0 <= i < s.len() && s[i] != c {
        find_from(s, c, i + 1)
    } else {
        i
    }
}

proof fn lemma_find_from(s: Seq<char>, c: char, i: int)
    requires
        0 <= i <= s.len(),
    ensures
        i <= find_from(s, c, i) <= s.len(),
    decreases s.len() - i,
{
    if i < s.len() && s[i] != c {
        lemma_find_from(s, c, i + 1);
    }
}

/// The text without leading white space.
pub open spec fn trim_start_spec(s: Seq<char>) -> Seq<char> {
    s.subrange(lead_from(s, 0), s.len() as int)
}

/// The key a settings line assigns: the text before its first `=`, without
/// the white space around it; none for a comment (`#` after leading white
/// space) or a line without `=`.
pub open spec fn line_key(l: Seq<char>) -> Option<Seq<char>> {
    let t = trim_start_spec(l);
    if t.len() > 0 && t[0] == '#' {
        None
    } else {
        let e = find_from(t, '=', 0);
        if e < t.len() {
            Some(trim_end_spec(t.subrange(0, e)))
        } else {
            None
        }
    }
}

pub open spec fn key_view(o: Option<String>) -> Option<Seq<char>> {
    match o {
        Some(k) => Some(k@),
        None => None,
    }
}

fn line_key_exec(l: &str) -> (r: Option<String>)
    ensures
        key_view(r) == line_key(l@),
{
    let n = l.unicode_len();
    let mut a: usize = 0;
    proof {
        lemma_lead(l@, 0);
    }
    while a < n && is_ws_exec(l.get_char(a))
        invariant
            n == l@.len(),
            a <= n,
            lead_from(l@, 0) == lead_from(l@, a as int),
        decreases n - a,
    {
        a = a + 1;
    }
    let t = l.substring_char(a, n);
    assert(t@ == trim_start_spec(l@));
    let m = t.unicode_len();
    if m > 0 && t.get_char(0) == '#' {
        return None;
    }
    let mut e: usize = 0;
    proof {
        lemma_find_from(t@, '=', 0);
    }
    while e < m && t.get_char(e) != '='
        invariant
            m == t@.len(),
            e <= m,
            find_from(t@, '=', 0) == find_from(t@, '=', e as int),
        decreases m - e,
    {
        e = e + 1;
    }
    if e < m {
        let k = trim_end(t.substring_char(0, e));
        Some(k)
    } else {
        None
    }
}

pub open spec fn update_views(u: Seq<(String, String)>) -> Seq<(Seq<char>, Seq<char>)> {
    u.map_values(|p: (String, String)| (p.0@, p.1@))
}

/// The first update for a key, from position `i` on.
pub open spec fn first_update(u: Seq<(Seq<char>, Seq<char>)>, k: Seq<char>, i: int) -> Option<int>
    decreases u.len() - i,
{
    if i < 0 || i >= u.len() {
        None
    } else if u[i].0 == k {
        Some(i)
    } else {
        first_update(u, k, i + 1)
    }
}

pub open spec fn kv_line(p: (Seq<char>, Seq<char>)) -> Seq<char> {
    p.0 + "="@ + p.1
}

/// A line with its value replaced when the first update for its key says so.
pub open spec fn upserted_line(l: Seq<char>, u: Seq<(Seq<char>, Seq<char>)>) -> Seq<char> {
    match line_key(l) {
        Some(k) => match first_update(u, k, 0) {
            Some(i) => kv_line(u[i]),
            None => l,
        },
        None => l,
    }
}

/// Some line assigns the key.
pub open spec fn keyed(ls: Seq<Seq<char>>, k: Seq<char>) -> bool {
    exists|j: int| 0 <= j < ls.len() && #[trigger] line_key(ls[j]) == Some(k)
}

/// The updates whose key no line assigns, in order.
pub open spec fn appended(ls: Seq<Seq<char>>, u: Seq<(Seq<char>, Seq<char>)>) -> Seq<(Seq<char>, Seq<char>)> {
    u.filter(|p: (Seq<char>, Seq<char>)| !keyed(ls, p.0))
}

/// The settings text after the updates: each line that assigns an updated key
/// gets that key's first update, every other line is kept as it was, the
/// updates no line assigns follow as new lines, and the text ends with a line
/// feed.
pub open spec fn upsert_env_spec(existing: Seq<char>, u: Seq<(Seq<char>, Seq<char>)>) -> Seq<char> {
    let ls = lines_spec(existing);
    join_spec(
        ls.map_values(|l: Seq<char>| upserted_line(l, u)) + appended(ls, u).map_values(
            |p: (Seq<char>, Seq<char>)| kv_line(p),
        ),
        "\n"@,
    ) + "\n"@
}

fn first_update_exec(updates: &[(String, String)], k: &str) -> (r: Option<usize>)
    ensures
        match r {
            Some(i) => i < updates@.len() && first_update(update_views(updates@), k@, 0) == Some(i as int),
            None => first_update(update_views(updates@), k@, 0) is None,
        },
{
    let ghost u = update_views(updates@);
    let mut i: usize = 0;
    while i < updates.len()
        invariant
            i <= updates@.len(),
            u == update_views(updates@),
            first_update(u, k@, 0) == first_update(u, k@, i as int),
        decreases updates@.len() - i,
    {
        if str_eq(updates[i].0.as_str(), k) {
            return Some(i);
        }
        i = i + 1;
    }
    None
}

fn kv_exec(p: &(String, String)) -> (r: String)
    ensures
        r@ == kv_line((p.0@, p.1@)),
{
    let mut s = p.0.clone();
    s.append("=");
    s.append(p.1.as_str());
    s
}

/// Updates settings text (see `upsert_env_spec`).
pub fn upsert_env(existing: &str, updates: &[(String, String)]) -> (r: String)
    ensures
        r@ == upsert_env_spec(existing@, update_views(updates@)),
{
    let ls = lines(existing);
    let ghost lv = svs(ls@);
    let ghost u = update_views(updates@);
    let ghost g = |l: Seq<char>| upserted_line(l, u);
    let mut out: Vec<String> = Vec::new();
    let mut keys: Vec<Option<String>> = Vec::new();
    let mut i: usize = 0;
    while i < ls.len()
        invariant
            i <= ls@.len(),
            lv == svs(ls@),
            u == update_views(updates@),
            g == (|l: Seq<char>| upserted_line(l, u)),
            keys@.len() == i,
            forall|j: int| 0 <= j < i ==> key_view(#[trigger] keys@[j]) == line_key(lv[j]),
            svs(out@) == lv.take(i as int).map_values(g),
        decreases ls@.len() - i,
    {
        let key = line_key_exec(ls[i].as_str());
        let line = match &key {
            Some(k) => match first_update_exec(updates, k.as_str()) {
                Some(j) => kv_exec(&updates[j]),
                None => ls[i].clone(),
            },
            None => ls[i].clone(),
        };
        assert(line@ == g(lv[i as int]));
        let ghost before = svs(out@);
        out.push(line);
        keys.push(key);
        assert(svs(out@) =~= before.push(g(lv[i as int])));
        assert(lv.take(i as int + 1).map_values(g) =~= lv.take(i as int).map_values(g).push(g(lv[i as int])));
        i = i + 1;
    }
    assert(lv.take(i as int) =~= lv);
    let ghost kept = |p: (Seq<char>, Seq<char>)| !keyed(lv, p.0);
    let ghost f = |p: (Seq<char>, Seq<char>)| kv_line(p);
    let ghost head = lv.map_values(g);
    let mut m: usize = 0;
    while m < updates.len()
        invariant
            m <= updates@.len(),
            lv == svs(ls@),
            u == update_views(updates@),
            keys@.len() == lv.len(),
            forall|j: int| 0 <= j < lv.len() ==> key_view(#[trigger] keys@[j]) == line_key(lv[j]),
            kept == (|p: (Seq<char>, Seq<char>)| !keyed(lv, p.0)),
            f == (|p: (Seq<char>, Seq<char>)| kv_line(p)),
            svs(out@) == head + u.take(m as int).filter(kept).map_values(f),
        decreases updates@.len() - m,
    {
        proof {
            lemma_filter_map_step(u, m as int, kept, f);
        }
        let k = updates[m].0.as_str();
        let mut found = false;
        let mut j: usize = 0;
        while j < keys.len()
            invariant
                j <= keys@.len(),
                keys@.len() == lv.len(),
                forall|q: int| 0 <= q < lv.len() ==> key_view(#[trigger] keys@[q]) == line_key(lv[q]),
                found == exists|q: int| 0 <= q < j && #[trigger] line_key(lv[q]) == Some(k@),
            decreases keys@.len() - j,
        {
            let hit = match &keys[j] {
                Some(kk) => str_eq(kk.as_str(), k),
                None => false,
            };
            assert(hit == (line_key(lv[j as int]) == Some(k@)));
            found = found || hit;
            j = j + 1;
        }
        assert(found == keyed(lv, k@));
        assert(u[m as int].0 == k@);
        if !found {
            let line = kv_exec(&updates[m]);
            let ghost before = svs(out@);
            out.push(line);
            assert(svs(out@) =~= before.push(f(u[m as int])));
        }
        assert(svs(out@) =~= head + u.take(m as int + 1).filter(kept).map_values(f));
        m = m + 1;
    }
    assert(u.take(m as int) =~= u);
    let mut r = join(&out, "\n");
    assert(out@.map_values(|p: String| p@) =~= svs(out@));
    r.append("\n");
    r
}

} // verus!
