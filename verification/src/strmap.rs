//! String-keyed maps and sets used throughout the engine.
//!
//! A `StrMap` is an association list. Its meaning is the map obtained by
//! inserting its entries in order (a later entry for the same key wins), so every
//! vector of pairs denotes a well-defined map. The mutating operations keep at
//! most one entry per key, and new keys are placed in key order (code-point
//! lexicographic, the order of Rust's `String` comparison), so iterating the
//! entries walks the keys in ascending order.
use vstd::prelude::*;

verus! {

/// Lexicographic "strictly less" on character sequences (code-point order).
pub open spec fn seq_lt(a: Seq<char>, b: Seq<char>) -> bool
    decreases a.len(),
{
    if b.len() == 0 {
        false
    } else if a.len() == 0 {
        true
    } else if a[0] != b[0] {
        (a[0] as u32) < (b[0] as u32)
    } else {
        seq_lt(a.drop_first(), b.drop_first())
    }
}

/// The map denoted by a sequence of (key, value) pairs: entries are inserted in
/// order, so the last entry for a key determines its value.
pub open spec fn pairs_view<V: View>(s: Seq<(String, V)>) -> Map<Seq<char>, V::V>
    decreases s.len(),
{
    if s.len() == 0 {
        Map::empty()
    } else {
        pairs_view(s.drop_last()).insert(s.last().0@, s.last().1@)
    }
}

/// The keys of a sequence of pairs, as character sequences.
pub open spec fn pair_keys<V: View>(s: Seq<(String, V)>) -> Seq<Seq<char>> {
    s.map_values(|p: (String, V)| p.0@)
}

/// A finite map from strings to values, kept as an ordered association list.
#[derive(Debug)]
pub struct StrMap<V> {
    pub entries: Vec<(String, V)>,
}

impl<V: View> View for StrMap<V> {
    type V = Map<Seq<char>, V::V>;

    open spec fn view(&self) -> Map<Seq<char>, V::V> {
        pairs_view(self.entries@)
    }
}

pub proof fn lemma_pairs_view_dom<V: View>(s: Seq<(String, V)>, k: Seq<char>)
    ensures
        pairs_view(s).contains_key(k) <==> exists|i: int| 0 <= i < s.len() && #[trigger] s[i].0@ == k,
    decreases s.len(),
{
    if s.len() > 0 {
        lemma_pairs_view_dom(s.drop_last(), k);
        if pairs_view(s.drop_last()).contains_key(k) {
            let i = choose|i: int| 0 <= i < s.drop_last().len() && #[trigger] s.drop_last()[i].0@ == k;
            assert(s[i].0@ == k);
        }
        if exists|i: int| 0 <= i < s.len() && #[trigger] s[i].0@ == k {
            let i = choose|i: int| 0 <= i < s.len() && #[trigger] s[i].0@ == k;
            if i < s.len() - 1 {
                assert(s.drop_last()[i].0@ == k);
            }
        }
    }
}

/// The value of a key is the value of its last entry.
pub proof fn lemma_pairs_view_value<V: View>(s: Seq<(String, V)>, i: int)
    requires
        0 <= i < s.len(),
        forall|j: int| i < j < s.len() ==> #[trigger] s[j].0@ != s[i].0@,
    ensures
        pairs_view(s).contains_key(s[i].0@),
        pairs_view(s)[s[i].0@] == s[i].1@,
    decreases s.len(),
{
    if i < s.len() - 1 {
        lemma_pairs_view_value(s.drop_last(), i);
        assert(s.last().0@ != s[i].0@);
    }
}

/// Replacing the last entry for a key updates that key and nothing else.
pub proof fn lemma_pairs_view_update<V: View>(s: Seq<(String, V)>, i: int, p: (String, V))
    requires
        0 <= i < s.len(),
        p.0@ == s[i].0@,
        forall|j: int| i < j < s.len() ==> #[trigger] s[j].0@ != s[i].0@,
    ensures
        pairs_view(s.update(i, p)) == pairs_view(s).insert(p.0@, p.1@),
    decreases s.len(),
{
    if i == s.len() - 1 {
        assert(s.update(i, p).drop_last() =~= s.drop_last());
        assert(pairs_view(s.drop_last()).insert(p.0@, p.1@) =~= pairs_view(s).insert(p.0@, p.1@));
    } else {
        lemma_pairs_view_update(s.drop_last(), i, p);
        assert(s.update(i, p).drop_last() =~= s.drop_last().update(i, p));
        assert(s.update(i, p).last() == s.last());
        assert(s.last().0@ != p.0@);
        assert(pairs_view(s.update(i, p)) =~= pairs_view(s).insert(p.0@, p.1@));
    }
}

/// Inserting a pair anywhere in a sequence that does not hold its key adds that key.
pub proof fn lemma_pairs_view_insert_at<V: View>(s: Seq<(String, V)>, i: int, p: (String, V))
    requires
        0 <= i <= s.len(),
        forall|j: int| 0 <= j < s.len() ==> #[trigger] s[j].0@ != p.0@,
    ensures
        pairs_view(s.insert(i, p)) == pairs_view(s).insert(p.0@, p.1@),
    decreases s.len(),
{
    if i == s.len() {
        assert(s.insert(i, p) =~= s.push(p));
        assert(s.push(p).drop_last() =~= s);
    } else {
        lemma_pairs_view_insert_at(s.drop_last(), i, p);
        assert(s.insert(i, p).drop_last() =~= s.drop_last().insert(i, p));
        assert(s.insert(i, p).last() == s.last());
        assert(s.last().0@ != p.0@);
        assert(pairs_view(s.insert(i, p)) =~= pairs_view(s).insert(p.0@, p.1@));
    }
}

/// The value under a key is the value of some entry with that key.
pub proof fn lemma_pairs_view_value_in<V: View>(s: Seq<(String, V)>, k: Seq<char>)
    requires
        pairs_view(s).contains_key(k),
    ensures
        exists|i: int| 0 <= i < s.len() && #[trigger] s[i].0@ == k && s[i].1@ == pairs_view(s)[k],
    decreases s.len(),
{
    if s.last().0@ == k {
        assert(s[s.len() - 1].0@ == k);
    } else {
        lemma_pairs_view_value_in(s.drop_last(), k);
        let i = choose|i: int|
            0 <= i < s.drop_last().len() && #[trigger] s.drop_last()[i].0@ == k && s.drop_last()[i].1@
                == pairs_view(s.drop_last())[k];
        assert(s[i].0@ == k);
    }
}

/// Dropping every entry for a key removes that key and nothing else.
/// The pairs of `s` whose key differs from `k`, in order.
pub open spec fn drop_key<V: View>(s: Seq<(String, V)>, k: Seq<char>) -> Seq<(String, V)>
    decreases s.len(),
{
    if s.len() == 0 {
        s
    } else if s.last().0@ == k {
        drop_key(s.drop_last(), k)
    } else {
        drop_key(s.drop_last(), k).push(s.last())
    }
}

pub proof fn lemma_pairs_view_filter<V: View>(s: Seq<(String, V)>, k: Seq<char>)
    ensures
        pairs_view(drop_key(s, k)) == pairs_view(s).remove(k),
    decreases s.len(),
{
    if s.len() == 0 {
        assert(pairs_view(s).remove(k) =~= Map::empty());
    } else {
        lemma_pairs_view_filter(s.drop_last(), k);
        if s.last().0@ == k {
            assert(pairs_view(s).remove(k) =~= pairs_view(s.drop_last()).remove(k));
        } else {
            assert(drop_key(s, k).drop_last() =~= drop_key(s.drop_last(), k));
            assert(pairs_view(s).remove(k) =~= pairs_view(s.drop_last()).remove(k).insert(
                s.last().0@,
                s.last().1@,
            ));
        }
    }
}

/// Keys strictly ascending (so each occurs once).
pub open spec fn ascending(ks: Seq<Seq<char>>) -> bool {
    forall|a: int, b: int| 0 <= a < b < ks.len() ==> seq_lt(#[trigger] ks[a], #[trigger] ks[b])
}

pub proof fn lemma_seq_lt_irrefl(a: Seq<char>)
    ensures
        !seq_lt(a, a),
    decreases a.len(),
{
    if a.len() > 0 {
        lemma_seq_lt_irrefl(a.drop_first());
    }
}

pub proof fn lemma_seq_lt_trans(a: Seq<char>, b: Seq<char>, c: Seq<char>)
    requires
        seq_lt(a, b),
        seq_lt(b, c),
    ensures
        seq_lt(a, c),
    decreases a.len(),
{
    if a.len() > 0 && b.len() > 0 && c.len() > 0 && a[0] == b[0] && b[0] == c[0] {
        lemma_seq_lt_trans(a.drop_first(), b.drop_first(), c.drop_first());
    }
}

pub proof fn lemma_seq_lt_total(a: Seq<char>, b: Seq<char>)
    requires
        a != b,
    ensures
        seq_lt(a, b) || seq_lt(b, a),
    decreases a.len(),
{
    if a.len() > 0 && b.len() > 0 {
        if a[0] == b[0] {
            if a.drop_first() =~= b.drop_first() {
                assert(a =~= seq![a[0]] + a.drop_first());
                assert(b =~= seq![b[0]] + b.drop_first());
                assert(false);
            } else {
                lemma_seq_lt_total(a.drop_first(), b.drop_first());
            }
        } else {
            // distinct characters have distinct code points
            vstd::utf8::char_u32_cast(a[0], a[0] as u32);
            vstd::utf8::char_u32_cast(b[0], b[0] as u32);
        }
    } else if a.len() == 0 && b.len() == 0 {
        assert(a =~= b);
    }
}

/// Inserting a key that is above everything before position `i` and below
/// everything from `i` on keeps a list ascending.
proof fn lemma_ascending_insert(ks: Seq<Seq<char>>, i: int, k: Seq<char>)
    requires
        ascending(ks),
        0 <= i <= ks.len(),
        forall|j: int| 0 <= j < i ==> seq_lt(#[trigger] ks[j], k),
        i < ks.len() ==> seq_lt(k, ks[i]),
    ensures
        ascending(ks.insert(i, k)),
{
    let r = ks.insert(i, k);
    assert forall|a: int, b: int| 0 <= a < b < r.len() implies seq_lt(#[trigger] r[a], #[trigger] r[b]) by {
        if b < i {
            assert(r[a] == ks[a] && r[b] == ks[b]);
        } else if b == i {
            assert(r[a] == ks[a]);
        } else if a == i {
            assert(r[b] == ks[b - 1]);
            if b - 1 > i {
                assert(seq_lt(ks[i], ks[b - 1]));
                lemma_seq_lt_trans(k, ks[i], ks[b - 1]);
            }
        } else if a < i {
            assert(r[a] == ks[a] && r[b] == ks[b - 1]);
            if a < b - 1 {
                assert(seq_lt(ks[a], ks[b - 1]));
            } else {
                assert(seq_lt(ks[a], ks[b - 1]));
            }
        } else {
            assert(r[a] == ks[a - 1] && r[b] == ks[b - 1]);
        }
    }
}

/// Where `slot` puts a key that is not there, the list stays ascending.
proof fn lemma_slot_keeps_ascending(ks: Seq<Seq<char>>, i: int, k: Seq<char>)
    requires
        ascending(ks),
        0 <= i <= ks.len(),
        forall|j: int| 0 <= j < i ==> !seq_lt(k, #[trigger] ks[j]),
        i < ks.len() ==> seq_lt(k, ks[i]),
        forall|j: int| 0 <= j < ks.len() ==> #[trigger] ks[j] != k,
    ensures
        ascending(ks.insert(i, k)),
{
    assert forall|j: int| 0 <= j < i implies seq_lt(#[trigger] ks[j], k) by {
        assert(!seq_lt(k, ks[j]));
        assert(ks[j] != k);
        lemma_seq_lt_total(ks[j], k);
    }
    lemma_ascending_insert(ks, i, k);
}

/// Code-point lexicographic "strictly less" on two strings.
pub fn str_lt(a: &str, b: &str) -> (r: bool)
    ensures
        r == seq_lt(a@, b@),
{
    let la = a.unicode_len();
    let lb = b.unicode_len();
    let mut i: usize = 0;
    assert(a@.skip(0) =~= a@);
    assert(b@.skip(0) =~= b@);
    while i < la && i < lb
        invariant
            la == a@.len(),
            lb == b@.len(),
            i <= la,
            i <= lb,
            forall|j: int| 0 <= j < i ==> a@[j] == b@[j],
            seq_lt(a@, b@) == seq_lt(a@.skip(i as int), b@.skip(i as int)),
        decreases la - i,
    {
        let ca = a.get_char(i);
        let cb = b.get_char(i);
        assert(a@.skip(i as int)[0] == ca);
        assert(b@.skip(i as int)[0] == cb);
        if ca != cb {
            return (ca as u32) < (cb as u32);
        }
        assert(a@.skip(i as int).drop_first() =~= a@.skip(i + 1));
        assert(b@.skip(i as int).drop_first() =~= b@.skip(i + 1));
        i = i + 1;
    }
    i < lb
}

/// Equality of two strings by their characters.
pub fn str_eq(a: &str, b: &str) -> (r: bool)
    ensures
        r == (a@ == b@),
{
    let la = a.unicode_len();
    let lb = b.unicode_len();
    if la != lb {
        return false;
    }
    let mut i: usize = 0;
    while i < la
        invariant
            la == a@.len(),
            lb == b@.len(),
            la == lb,
            i <= la,
            forall|j: int| 0 <= j < i ==> a@[j] == b@[j],
        decreases la - i,
    {
        if a.get_char(i) != b.get_char(i) {
            return false;
        }
        i = i + 1;
    }
    assert(a@ =~= b@);
    true
}

impl<V: View> StrMap<V> {
    /// The keys in entry order.
    pub open spec fn keys(&self) -> Seq<Seq<char>> {
        pair_keys(self.entries@)
    }

    /// The keys stand in strictly ascending order, each once.
    pub open spec fn sorted(&self) -> bool {
        ascending(self.keys())
    }

    pub fn new() -> (m: Self)
        ensures
            m@ == Map::<Seq<char>, V::V>::empty(),
            m.entries@.len() == 0,
            m.sorted(),
    {
        StrMap { entries: Vec::new() }
    }

    pub fn len(&self) -> (n: usize)
        ensures
            n == self.entries@.len(),
    {
        self.entries.len()
    }

    /// Index of the last entry whose key is `k`.
    fn find(&self, k: &str) -> (r: Option<usize>)
        ensures
            match r {
                Some(i) => {
                    &&& i < self.entries@.len()
                    &&& self.entries@[i as int].0@ == k@
                    &&& forall|j: int|
                        i < j < self.entries@.len() ==> #[trigger] self.entries@[j].0@ != k@
                },
                None => forall|j: int|
                    0 <= j < self.entries@.len() ==> #[trigger] self.entries@[j].0@ != k@,
            },
    {
        let mut i = self.entries.len();
        while i > 0
            invariant
                i <= self.entries@.len(),
                forall|j: int| i <= j < self.entries@.len() ==> #[trigger] self.entries@[j].0@ != k@,
            decreases i,
        {
            i = i - 1;
            if str_eq(self.entries[i].0.as_str(), k) {
                return Some(i);
            }
        }
        None
    }

    pub fn contains_key(&self, k: &str) -> (b: bool)
        ensures
            b == self@.contains_key(k@),
    {
        proof {
            lemma_pairs_view_dom(self.entries@, k@);
        }
        self.find(k).is_some()
    }

    pub fn get(&self, k: &str) -> (r: Option<&V>)
        ensures
            match r {
                Some(v) => self@.contains_key(k@) && self@[k@] == v@,
                None => !self@.contains_key(k@),
            },
    {
        proof {
            lemma_pairs_view_dom(self.entries@, k@);
        }
        match self.find(k) {
            Some(i) => {
                proof {
                    lemma_pairs_view_value(self.entries@, i as int);
                }
                Some(&self.entries[i].1)
            },
            None => None,
        }
    }

    /// Position where a new key belongs: just before the first key above it.
    fn slot(&self, k: &str) -> (i: usize)
        ensures
            i <= self.entries@.len(),
            forall|j: int| 0 <= j < i ==> !seq_lt(k@, #[trigger] self.entries@[j].0@),
            i < self.entries@.len() ==> seq_lt(k@, self.entries@[i as int].0@),
    {
        let mut i: usize = 0;
        while i < self.entries.len()
            invariant
                i <= self.entries@.len(),
                forall|j: int| 0 <= j < i ==> !seq_lt(k@, #[trigger] self.entries@[j].0@),
            decreases self.entries@.len() - i,
        {
            if str_lt(k, self.entries[i].0.as_str()) {
                return i;
            }
            i = i + 1;
        }
        i
    }

    pub fn insert(&mut self, k: String, v: V)
        ensures
            final(self)@ == old(self)@.insert(k@, v@),
            old(self).sorted() ==> final(self).sorted(),
            forall|j: int|
                0 <= j < final(self).entries@.len() ==> #[trigger] final(self).entries@[j].1 == v
                    || old(self).entries@.contains(final(self).entries@[j]),
    {
        let ghost before = self.keys();
        let ghost es0 = self.entries@;
        match self.find(k.as_str()) {
            Some(i) => {
                proof {
                    lemma_pairs_view_update(self.entries@, i as int, (k, v));
                }
                let ghost kv = k@;
                let ghost pv = v;
                self.entries.set(i, (k, v));
                assert(self.keys() =~= before);
                assert forall|j: int| 0 <= j < self.entries@.len() implies #[trigger] self.entries@[j].1 == pv
                    || es0.contains(self.entries@[j]) by {
                    if j != i {
                        assert(self.entries@[j] == es0[j]);
                    }
                }
            },
            None => {
                let i = self.slot(k.as_str());
                proof {
                    lemma_pairs_view_insert_at(self.entries@, i as int, (k, v));
                    if ascending(before) {
                        assert forall|j: int| 0 <= j < before.len() implies #[trigger] before[j] != k@ by {
                            assert(self.entries@[j].0@ != k@);
                        }
                        assert forall|j: int| 0 <= j < i implies !seq_lt(k@, #[trigger] before[j]) by {
                            assert(!seq_lt(k@, self.entries@[j].0@));
                        }
                        lemma_slot_keeps_ascending(before, i as int, k@);
                    }
                }
                let ghost kv = k@;
                let ghost pv = v;
                self.entries.insert(i, (k, v));
                assert(self.keys() =~= before.insert(i as int, kv));
                assert forall|j: int| 0 <= j < self.entries@.len() implies #[trigger] self.entries@[j].1 == pv
                    || es0.contains(self.entries@[j]) by {
                    if j < i {
                        assert(self.entries@[j] == es0[j]);
                    } else if j > i {
                        assert(self.entries@[j] == es0[j - 1]);
                    }
                }
            },
        }
    }

    /// Removes the key and hands back its value.
    pub fn take(&mut self, k: &str) -> (r: Option<V>)
        ensures
            final(self)@ == old(self)@.remove(k@),
            old(self).sorted() ==> final(self).sorted(),
            forall|j: int| 0 <= j < final(self).entries@.len() ==> old(self).entries@.contains(#[trigger] final(self).entries@[j]),
            r matches Some(x) ==> exists|i: int| 0 <= i < old(self).entries@.len() && #[trigger] old(self).entries@[i].1 == x,
            match r {
                Some(v) => old(self)@.contains_key(k@) && old(self)@[k@] == v@,
                None => !old(self)@.contains_key(k@),
            },
    {
        proof {
            lemma_pairs_view_dom(self.entries@, k@);
        }
        match self.find(k) {
            None => {
                assert(self@.remove(k@) =~= self@);
                None
            },
            Some(i) => {
                let ghost s = self.entries@;
                proof {
                    lemma_pairs_view_value(s, i as int);
                }
                let (_, v) = self.entries.remove(i);
                self.retain_without(k);
                proof {
                    // Removing the last entry for k and then every other k-entry
                    // leaves the k-free part of the original entries.
                    lemma_filter_remove_matching(s, i as int, k@);
                    lemma_pairs_view_filter(s, k@);
                    if ascending(pair_keys(s)) {
                        lemma_drop_key_ascending(s, k@);
                    }
                    lemma_drop_key_within(s, k@);
                }
                Some(v)
            },
        }
    }

    /// Drops every entry whose key is `k`.
    fn retain_without(&mut self, k: &str)
        ensures
            final(self).entries@ == drop_key(old(self).entries@, k@),
    {
        let mut kept: Vec<(String, V)> = Vec::new();
        let mut rest: Vec<(String, V)> = Vec::new();
        std::mem::swap(&mut rest, &mut self.entries);
        let ghost src = rest@;
        let total = rest.len();
        let mut n: usize = 0;
        while rest.len() > 0
            invariant
                total == src.len(),
                n <= src.len(),
                src.len() == n + rest@.len(),
                rest@ == src.skip(n as int),
                kept@ == drop_key(src.subrange(0, n as int), k@),
            decreases rest@.len(),
        {
            let p = rest.remove(0);
            let ps = p.0.as_str();
            let keep = !str_eq(ps, k);
            proof {
                assert(p == src[n as int]);
                assert(ps@ == p.0@);
                assert(keep == (p.0@ != k@));
                let t = src.subrange(0, n + 1);
                assert(t.drop_last() =~= src.subrange(0, n as int));
                assert(t.last() == p);
                assert(src.skip(n as int).remove(0) =~= src.skip(n + 1));
            }
            if keep {
                kept.push(p);
            }
            n = n + 1;
        }
        assert(src.subrange(0, n as int) =~= src);
        self.entries = kept;
    }

    pub fn remove(&mut self, k: &str)
        ensures
            final(self)@ == old(self)@.remove(k@),
            old(self).sorted() ==> final(self).sorted(),
            forall|j: int| 0 <= j < final(self).entries@.len() ==> old(self).entries@.contains(#[trigger] final(self).entries@[j]),
    {
        let _ = self.take(k);
    }
}

/// Values that can be duplicated with the same meaning.
pub trait Dup: Sized + View {
    fn dup(&self) -> (r: Self)
        ensures
            r@ == self@,
    ;
}

impl Dup for bool {
    fn dup(&self) -> (r: Self) {
        *self
    }
}

impl Dup for i64 {
    fn dup(&self) -> (r: Self) {
        *self
    }
}

impl Dup for u32 {
    fn dup(&self) -> (r: Self) {
        *self
    }
}

impl Dup for String {
    fn dup(&self) -> (r: Self) {
        self.clone()
    }
}

/// Two pair sequences with the same keys and same value meanings denote the same map.
pub proof fn lemma_pairs_view_same<V: View>(a: Seq<(String, V)>, b: Seq<(String, V)>)
    requires
        a.len() == b.len(),
        forall|i: int| 0 <= i < a.len() ==> #[trigger] a[i].0@ == b[i].0@ && a[i].1@ == b[i].1@,
    ensures
        pairs_view(a) == pairs_view(b),
    decreases a.len(),
{
    if a.len() > 0 {
        lemma_pairs_view_same(a.drop_last(), b.drop_last());
        assert(a.last().0@ == b.last().0@ && a.last().1@ == b.last().1@);
    }
}

impl<V: Dup> Dup for StrMap<V> {
    fn dup(&self) -> (r: Self)
        ensures
            self.sorted() ==> r.sorted(),
    {
        let mut out: Vec<(String, V)> = Vec::new();
        let mut i: usize = 0;
        while i < self.entries.len()
            invariant
                i <= self.entries@.len(),
                out@.len() == i,
                forall|j: int|
                    0 <= j < i ==> #[trigger] out@[j].0@ == self.entries@[j].0@ && out@[j].1@
                        == self.entries@[j].1@,
            decreases self.entries@.len() - i,
        {
            let k = self.entries[i].0.clone();
            let v = self.entries[i].1.dup();
            out.push((k, v));
            i = i + 1;
        }
        proof {
            lemma_pairs_view_same(out@, self.entries@);
            assert(pair_keys(out@) =~= pair_keys(self.entries@));
        }
        StrMap { entries: out }
    }
}

/// Whether some string of `s` has the characters `x`.
pub open spec fn has_view(s: Seq<String>, x: Seq<char>) -> bool {
    exists|i: int| 0 <= i < s.len() && #[trigger] s[i]@ == x
}

/// No two strings of the list have the same characters.
pub open spec fn unique_views(s: Seq<String>) -> bool {
    forall|a: int, b: int| 0 <= a < b < s.len() ==> s[a]@ != s[b]@
}

/// The characters of each string of a list.
pub open spec fn item_views(s: Seq<String>) -> Seq<Seq<char>> {
    s.map_values(|x: String| x@)
}

/// Position where a new string belongs in a list: just before the first one above it.
fn list_slot(items: &Vec<String>, k: &str) -> (i: usize)
    ensures
        i <= items@.len(),
        forall|j: int| 0 <= j < i ==> !seq_lt(k@, #[trigger] items@[j]@),
        i < items@.len() ==> seq_lt(k@, items@[i as int]@),
{
    let mut i: usize = 0;
    while i < items.len()
        invariant
            i <= items@.len(),
            forall|j: int| 0 <= j < i ==> !seq_lt(k@, #[trigger] items@[j]@),
        decreases items@.len() - i,
    {
        if str_lt(k, items[i].as_str()) {
            return i;
        }
        i = i + 1;
    }
    i
}

/// A finite set of strings, kept as a list.
#[derive(Debug)]
pub struct StrSet {
    pub items: Vec<String>,
}

impl View for StrSet {
    type V = Set<Seq<char>>;

    open spec fn view(&self) -> Set<Seq<char>> {
        Set::new(|k: Seq<char>| has_view(self.items@, k))
    }
}

impl StrSet {
    /// The members stand in strictly ascending order, each once.
    pub open spec fn sorted(&self) -> bool {
        ascending(item_views(self.items@))
    }

    pub fn new() -> (r: Self)
        ensures
            r@ == Set::<Seq<char>>::empty(),
            r.items@.len() == 0,
            r.sorted(),
    {
        let r = StrSet { items: Vec::new() };
        assert(r@ =~= Set::<Seq<char>>::empty());
        r
    }

    pub fn len(&self) -> (n: usize)
        ensures
            n == self.items@.len(),
    {
        self.items.len()
    }

    pub fn contains(&self, k: &str) -> (b: bool)
        ensures
            b == self@.contains(k@),
    {
        let mut i: usize = 0;
        while i < self.items.len()
            invariant
                i <= self.items@.len(),
                forall|j: int| 0 <= j < i ==> #[trigger] self.items@[j]@ != k@,
            decreases self.items@.len() - i,
        {
            if str_eq(self.items[i].as_str(), k) {
                assert(self.items@[i as int]@ == k@);
                return true;
            }
            i = i + 1;
        }
        false
    }

    pub fn insert(&mut self, k: String)
        ensures
            final(self)@ == old(self)@.insert(k@),
            unique_views(old(self).items@) ==> unique_views(final(self).items@),
            old(self).sorted() ==> final(self).sorted(),
    {
        if self.contains(k.as_str()) {
            assert(self@.insert(k@) =~= self@);
            return;
        }
        let i = list_slot(&self.items, k.as_str());
        let ghost before = self.items@;
        let ghost kv = k@;
        proof {
            let vs = item_views(before);
            if ascending(vs) {
                assert forall|j: int| 0 <= j < vs.len() implies #[trigger] vs[j] != kv by {
                    assert(!has_view(before, kv));
                    assert(before[j]@ == vs[j]);
                }
                assert forall|j: int| 0 <= j < i implies !seq_lt(kv, #[trigger] vs[j]) by {
                    assert(!seq_lt(kv, before[j]@));
                }
                lemma_slot_keeps_ascending(vs, i as int, kv);
            }
        }
        self.items.insert(i, k);
        assert(item_views(self.items@) =~= item_views(before).insert(i as int, kv));
        proof {
            if unique_views(before) {
                assert forall|a: int, b: int| 0 <= a < b < self.items@.len() implies self.items@[a]@ != self.items@[b]@ by {
                    if a < i && b < i {
                        assert(before[a] == self.items@[a] && before[b] == self.items@[b]);
                    } else if a < i && b == i {
                        assert(before[a] == self.items@[a]);
                        assert(has_view(before, before[a]@));
                    } else if a < i && b > i {
                        assert(before[a] == self.items@[a] && before[b - 1] == self.items@[b]);
                    } else if a == i {
                        assert(before[b - 1] == self.items@[b]);
                        assert(has_view(before, before[b - 1]@));
                    } else {
                        assert(before[a - 1] == self.items@[a] && before[b - 1] == self.items@[b]);
                    }
                }
            }
            assert forall|x: Seq<char>| #[trigger] self@.contains(x) == old(self)@.insert(k@).contains(x) by {
                if self@.contains(x) {
                    let j = choose|j: int| 0 <= j < self.items@.len() && #[trigger] self.items@[j]@ == x;
                    if j < i {
                        assert(before[j]@ == x);
                    } else if j > i {
                        assert(before[j - 1]@ == x);
                    }
                }
                if old(self)@.contains(x) {
                    let j = choose|j: int| 0 <= j < before.len() && #[trigger] before[j]@ == x;
                    if j < i {
                        assert(self.items@[j]@ == x);
                    } else {
                        assert(self.items@[j + 1]@ == x);
                    }
                }
                if x == k@ {
                    assert(self.items@[i as int]@ == x);
                }
            }
            assert(self@ =~= old(self)@.insert(k@));
        }
    }

    pub fn remove(&mut self, k: &str)
        ensures
            final(self)@ == old(self)@.remove(k@),
            old(self).sorted() ==> final(self).sorted(),
    {
        let ghost was = self.sorted();
        let mut kept: Vec<String> = Vec::new();
        let mut i: usize = 0;
        while i < self.items.len()
            invariant
                i <= self.items@.len(),
                was ==> ascending(item_views(self.items@)),
                was ==> ascending(item_views(kept@)),
                was ==> forall|j: int| 0 <= j < kept@.len() ==> exists|m: int| 0 <= m < i && #[trigger] kept@[j]@ == self.items@[m]@,
                forall|x: Seq<char>|
                    #[trigger] has_view(kept@, x) <==> (x != k@ && has_view(
                        self.items@.take(i as int),
                        x,
                    )),
            decreases self.items@.len() - i,
        {
            let keep = !str_eq(self.items[i].as_str(), k);
            let ghost prev = kept@;
            if keep {
                kept.push(self.items[i].clone());
            }
            proof {
                if was {
                    let vs = item_views(self.items@);
                    assert forall|a: int, b: int| 0 <= a < b < item_views(kept@).len() implies seq_lt(
                        #[trigger] item_views(kept@)[a],
                        #[trigger] item_views(kept@)[b],
                    ) by {
                        if b < prev.len() {
                            assert(kept@[a] == prev[a] && kept@[b] == prev[b]);
                            assert(item_views(prev)[a] == prev[a]@ && item_views(prev)[b] == prev[b]@);
                        } else {
                            assert(kept@[a] == prev[a]);
                            let m = choose|m: int| 0 <= m < i && #[trigger] prev[a]@ == self.items@[m]@;
                            assert(vs[m] == self.items@[m]@ && vs[i as int] == self.items@[i as int]@);
                        }
                    }
                    assert forall|j: int| 0 <= j < kept@.len() implies exists|m: int| 0 <= m < i + 1 && #[trigger] kept@[j]@ == self.items@[m]@ by {
                        if j < prev.len() {
                            assert(kept@[j] == prev[j]);
                            let m = choose|m: int| 0 <= m < i && #[trigger] prev[j]@ == self.items@[m]@;
                            assert(kept@[j]@ == self.items@[m]@);
                        } else {
                            assert(kept@[j]@ == self.items@[i as int]@);
                        }
                    }
                }
                let t = self.items@.take(i + 1);
                assert(t.drop_last() =~= self.items@.take(i as int));
                assert forall|x: Seq<char>|
                    #[trigger] has_view(kept@, x) <==> (x != k@ && has_view(t, x)) by {
                    if has_view(t, x) {
                        let j = choose|j: int| 0 <= j < t.len() && #[trigger] t[j]@ == x;
                        if j < i {
                            assert(self.items@.take(i as int)[j]@ == x);
                            if x != k@ {
                                assert(has_view(self.items@.take(i as int), x));
                                assert(has_view(prev, x));
                                let m = choose|m: int| 0 <= m < prev.len() && #[trigger] prev[m]@ == x;
                                assert(kept@[m] == prev[m]);
                                assert(kept@[m]@ == x);
                            }
                        } else if keep {
                            assert(kept@[kept@.len() - 1]@ == x);
                        }
                    }
                    if has_view(kept@, x) {
                        let j = choose|j: int| 0 <= j < kept@.len() && #[trigger] kept@[j]@ == x;
                        if j < prev.len() {
                            assert(kept@[j] == prev[j]);
                            assert(prev[j]@ == x);
                            assert(has_view(prev, x));
                            assert(has_view(self.items@.take(i as int), x));
                            let m = choose|m: int| 0 <= m < i && #[trigger] self.items@.take(i as int)[m]@ == x;
                            assert(t[m] == self.items@.take(i as int)[m]);
                            assert(t[m]@ == x);
                        } else {
                            assert(t[i as int]@ == x);
                        }
                    }
                }
            }
            i = i + 1;
        }
        let ghost old_view = self@;
        assert(self.items@.take(i as int) =~= self.items@);
        self.items = kept;
        assert(self@ =~= old_view.remove(k@));
    }
}

impl Dup for StrSet {
    fn dup(&self) -> (r: Self) {
        let mut out: Vec<String> = Vec::new();
        let mut i: usize = 0;
        while i < self.items.len()
            invariant
                i <= self.items@.len(),
                out@.len() == i,
                forall|j: int| 0 <= j < i ==> #[trigger] out@[j]@ == self.items@[j]@,
            decreases self.items@.len() - i,
        {
            out.push(self.items[i].clone());
            i = i + 1;
        }
        let r = StrSet { items: out };
        assert forall|x: Seq<char>| #[trigger] r@.contains(x) == self@.contains(x) by {
            if r@.contains(x) {
                let j = choose|j: int| 0 <= j < r.items@.len() && #[trigger] r.items@[j]@ == x;
                assert(self.items@[j]@ == x);
            }
            if self@.contains(x) {
                let j = choose|j: int| 0 <= j < self.items@.len() && #[trigger] self.items@[j]@ == x;
                assert(r.items@[j]@ == x);
            }
        }
        assert(r@ =~= self@);
        r
    }
}

impl<V: Dup> StrMap<V> {
    /// Copies every entry of `src` in, a key of `src` winning over the same key here.
    pub fn merge_from(&mut self, src: &StrMap<V>)
        ensures
            final(self)@ == old(self)@.union_prefer_right(src@),
            old(self).sorted() ==> final(self).sorted(),
    {
        let ghost base = self@;
        let ghost was = self.sorted();
        let mut i: usize = 0;
        assert(base.union_prefer_right(pairs_view(src.entries@.take(0))) =~= base);
        while i < src.entries.len()
            invariant
                i <= src.entries@.len(),
                self@ == base.union_prefer_right(pairs_view(src.entries@.take(i as int))),
                was ==> self.sorted(),
            decreases src.entries@.len() - i,
        {
            let ghost t = src.entries@.take(i + 1);
            assert(t.drop_last() =~= src.entries@.take(i as int));
            assert(t.last() == src.entries@[i as int]);
            let k = src.entries[i].0.clone();
            let v = src.entries[i].1.dup();
            self.insert(k, v);
            assert(self@ =~= base.union_prefer_right(pairs_view(t)));
            i = i + 1;
        }
        assert(src.entries@.take(i as int) =~= src.entries@);
    }
}

impl StrSet {
    /// Adds every member of `src`.
    pub fn union_from(&mut self, src: &StrSet)
        ensures
            final(self)@ == old(self)@.union(src@),
            old(self).sorted() ==> final(self).sorted(),
    {
        let ghost base = self@;
        let ghost was = self.sorted();
        let mut i: usize = 0;
        assert(base.union(Set::new(|k: Seq<char>| has_view(src.items@.take(0), k))) =~= base);
        while i < src.items.len()
            invariant
                i <= src.items@.len(),
                self@ == base.union(Set::new(|k: Seq<char>| has_view(src.items@.take(i as int), k))),
                was ==> self.sorted(),
            decreases src.items@.len() - i,
        {
            let ghost t = src.items@.take(i + 1);
            let ghost p = src.items@.take(i as int);
            assert forall|k: Seq<char>| #[trigger] has_view(t, k) == (has_view(p, k) || k == src.items@[i as int]@) by {
                if has_view(t, k) {
                    let j = choose|j: int| 0 <= j < t.len() && #[trigger] t[j]@ == k;
                    if j < i {
                        assert(p[j]@ == k);
                    }
                }
                if has_view(p, k) {
                    let j = choose|j: int| 0 <= j < p.len() && #[trigger] p[j]@ == k;
                    assert(t[j]@ == k);
                }
                if k == src.items@[i as int]@ {
                    assert(t[i as int]@ == k);
                }
            }
            self.insert(src.items[i].clone());
            assert(self@ =~= base.union(Set::new(|k: Seq<char>| has_view(t, k))));
            i = i + 1;
        }
        assert(src.items@.take(i as int) =~= src.items@);
        assert(Set::new(|k: Seq<char>| has_view(src.items@.take(i as int), k)) =~= src@);
    }
}

/// The value of the last entry whose key is `k`, if any.
pub open spec fn last_value<V>(es: Seq<(String, V)>, k: Seq<char>) -> Option<V>
    decreases es.len(),
{
    if es.len() == 0 {
        None
    } else if es.last().0@ == k {
        Some(es.last().1)
    } else {
        last_value(es.drop_last(), k)
    }
}

proof fn lemma_last_value<V>(es: Seq<(String, V)>, k: Seq<char>, i: int)
    requires
        0 <= i < es.len(),
        es[i].0@ == k,
        forall|j: int| i < j < es.len() ==> #[trigger] es[j].0@ != k,
    ensures
        last_value(es, k) == Some(es[i].1),
    decreases es.len(),
{
    if i < es.len() - 1 {
        lemma_last_value(es.drop_last(), k, i);
    }
}

proof fn lemma_last_value_none<V>(es: Seq<(String, V)>, k: Seq<char>)
    requires
        forall|j: int| 0 <= j < es.len() ==> #[trigger] es[j].0@ != k,
    ensures
        last_value(es, k) is None,
    decreases es.len(),
{
    if es.len() > 0 {
        lemma_last_value_none(es.drop_last(), k);
    }
}

impl<V: View> StrMap<V> {
    /// The value stored under a key (its last entry), itself rather than its meaning.
    pub fn get_value(&self, k: &str) -> (r: Option<&V>)
        ensures
            match r {
                Some(v) => last_value(self.entries@, k@) == Some(*v),
                None => last_value(self.entries@, k@) is None,
            },
    {
        match self.find(k) {
            Some(i) => {
                proof {
                    lemma_last_value(self.entries@, k@, i as int);
                }
                Some(&self.entries[i].1)
            },
            None => {
                proof {
                    lemma_last_value_none(self.entries@, k@);
                }
                None
            },
        }
    }
}

/// Removing the last matching entry and then dropping the key equals dropping the key.
proof fn lemma_filter_remove_matching<V: View>(s: Seq<(String, V)>, i: int, k: Seq<char>)
    requires
        0 <= i < s.len(),
        s[i].0@ == k,
    ensures
        drop_key(s.remove(i), k) == drop_key(s, k),
    decreases s.len(),
{
    if i == s.len() - 1 {
        assert(s.remove(i) =~= s.drop_last());
    } else {
        lemma_filter_remove_matching(s.drop_last(), i, k);
        assert(s.remove(i).drop_last() =~= s.drop_last().remove(i));
        assert(s.remove(i).last() == s.last());
    }
}


/// Dropping a key keeps the remaining keys in their order, so an ascending
/// list stays ascending; each kept key is a key of the original list.
proof fn lemma_drop_key_ascending<V: View>(s: Seq<(String, V)>, k: Seq<char>)
    requires
        ascending(pair_keys(s)),
    ensures
        ascending(pair_keys(drop_key(s, k))),
        forall|j: int| 0 <= j < drop_key(s, k).len() ==> exists|m: int| 0 <= m < s.len() && #[trigger] drop_key(s, k)[j].0@ == s[m].0@,
    decreases s.len(),
{
    if s.len() > 0 {
        let p = s.drop_last();
        assert forall|a: int, b: int| 0 <= a < b < pair_keys(p).len() implies seq_lt(#[trigger] pair_keys(p)[a], #[trigger] pair_keys(p)[b]) by {
            assert(pair_keys(p)[a] == pair_keys(s)[a] && pair_keys(p)[b] == pair_keys(s)[b]);
        }
        lemma_drop_key_ascending(p, k);
        let d = drop_key(p, k);
        if s.last().0@ != k {
            let r = drop_key(s, k);
            assert(r == d.push(s.last()));
            assert forall|a: int, b: int| 0 <= a < b < pair_keys(r).len() implies seq_lt(#[trigger] pair_keys(r)[a], #[trigger] pair_keys(r)[b]) by {
                if b < d.len() {
                    assert(pair_keys(r)[a] == pair_keys(d)[a] && pair_keys(r)[b] == pair_keys(d)[b]);
                } else {
                    let m = choose|m: int| 0 <= m < p.len() && #[trigger] d[a].0@ == p[m].0@;
                    assert(pair_keys(s)[m] == p[m].0@);
                    assert(pair_keys(s)[s.len() - 1] == s.last().0@);
                    assert(r[a] == d[a]);
                }
            }
            assert forall|j: int| 0 <= j < r.len() implies exists|m: int| 0 <= m < s.len() && #[trigger] r[j].0@ == s[m].0@ by {
                if j < d.len() {
                    let m = choose|m: int| 0 <= m < p.len() && #[trigger] d[j].0@ == p[m].0@;
                    assert(r[j] == d[j] && s[m] == p[m]);
                } else {
                    assert(r[j] == s[s.len() - 1]);
                }
            }
        } else {
            assert forall|j: int| 0 <= j < d.len() implies exists|m: int| 0 <= m < s.len() && #[trigger] d[j].0@ == s[m].0@ by {
                let m = choose|m: int| 0 <= m < p.len() && #[trigger] d[j].0@ == p[m].0@;
                assert(s[m] == p[m]);
            }
        }
    }
}

/// Every pair left after dropping a key is a pair of the original list.
proof fn lemma_drop_key_within<V: View>(s: Seq<(String, V)>, k: Seq<char>)
    ensures
        forall|j: int| 0 <= j < drop_key(s, k).len() ==> s.contains(#[trigger] drop_key(s, k)[j]),
    decreases s.len(),
{
    if s.len() > 0 {
        let p = s.drop_last();
        lemma_drop_key_within(p, k);
        let d = drop_key(p, k);
        let r = drop_key(s, k);
        assert forall|j: int| 0 <= j < r.len() implies s.contains(#[trigger] r[j]) by {
            if s.last().0@ == k {
                assert(r[j] == d[j]);
                let m = choose|m: int| 0 <= m < p.len() && p[m] == d[j];
                assert(s[m] == p[m]);
            } else if j < d.len() {
                assert(r[j] == d[j]);
                let m = choose|m: int| 0 <= m < p.len() && p[m] == d[j];
                assert(s[m] == p[m]);
            } else {
                assert(r[j] == s[s.len() - 1]);
            }
        }
    }
}

/// Every set held in the map keeps its members in order.
pub open spec fn sets_sorted(m: StrMap<StrSet>) -> bool {
    forall|i: int| 0 <= i < m.entries@.len() ==> (#[trigger] m.entries@[i]).1.sorted()
}

/// Every map held in the map keeps its keys in order.
pub open spec fn maps_sorted<V: View>(m: StrMap<StrMap<V>>) -> bool {
    forall|i: int| 0 <= i < m.entries@.len() ==> (#[trigger] m.entries@[i]).1.sorted()
}

} // verus!
