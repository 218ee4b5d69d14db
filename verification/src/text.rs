//! Character-level text helpers shared by the narrative layers: trimming,
//! whitespace squashing, truncation and decimal rendering.
use vstd::prelude::*;

verus! {

broadcast use vstd::std_specs::vec::group_vec_axioms;

/// Unicode white space (the `White_Space` property, as `char::is_whitespace`).
pub open spec fn is_ws(c: char) -> bool {
    let u = c as u32;
    (9 <= u <= 13) || u == 32 || u == 0x85 || u == 0xA0 || u == 0x1680 || (0x2000 <= u <= 0x200A)
        || u == 0x2028 || u == 0x2029 || u == 0x202F || u == 0x205F || u == 0x3000
}

pub fn is_ws_exec(c: char) -> (b: bool)
    ensures
        b == is_ws(c),
{
    let u = c as u32;
    (9 <= u && u <= 13) || u == 32 || u == 0x85 || u == 0xA0 || u == 0x1680 || (0x2000 <= u && u
        <= 0x200A) || u == 0x2028 || u == 0x2029 || u == 0x202F || u == 0x205F || u == 0x3000
}

/// The first position from `i` on that is not white space.
pub open spec fn lead_from(s: Seq<char>, i: int) -> int
    decreases s.len() - i,
{
    if 0 <= i < s.len() && is_ws(s[i]) {
        lead_from(s, i + 1)
    } else {
        i
    }
}

/// One past the last position before `j` that is not white space.
pub open spec fn trail_from(s: Seq<char>, j: int) -> int
    decreases j,
{
    if 0 < j <= s.len() && is_ws(s[j - 1]) {
        trail_from(s, j - 1)
    } else {
        j
    }
}

/// The text without leading and trailing white space.
pub open spec fn trim_spec(s: Seq<char>) -> Seq<char> {
    let a = lead_from(s, 0);
    let b = trail_from(s, s.len() as int);
    if a >= b {
        Seq::empty()
    } else {
        s.subrange(a, b)
    }
}

pub proof fn lemma_lead(s: Seq<char>, i: int)
    requires
        0 <= i <= s.len(),
    ensures
        i <= lead_from(s, i) <= s.len(),
        forall|k: int| i <= k < lead_from(s, i) ==> is_ws(#[trigger] s[k]),
        lead_from(s, i) < s.len() ==> !is_ws(s[lead_from(s, i)]),
    decreases s.len() - i,
{
    if i < s.len() && is_ws(s[i]) {
        lemma_lead(s, i + 1);
    }
}

proof fn lemma_trail(s: Seq<char>, j: int)
    requires
        0 <= j <= s.len(),
    ensures
        0 <= trail_from(s, j) <= j,
        forall|k: int| trail_from(s, j) <= k < j ==> is_ws(#[trigger] s[k]),
        trail_from(s, j) > 0 ==> !is_ws(s[trail_from(s, j) - 1]),
    decreases j,
{
    if j > 0 && is_ws(s[j - 1]) {
        lemma_trail(s, j - 1);
    }
}

/// The text without leading and trailing white space.
pub fn trim(s: &str) -> (r: String)
    ensures
        r@ == trim_spec(s@),
{
    let n = s.unicode_len();
    let mut a: usize = 0;
    proof {
        lemma_lead(s@, 0);
    }
    while a < n && is_ws_exec(s.get_char(a))
        invariant
            n == s@.len(),
            a <= n,
            lead_from(s@, 0) == lead_from(s@, a as int),
        decreases n - a,
    {
        a = a + 1;
    }
    let mut b: usize = n;
    proof {
        lemma_trail(s@, n as int);
    }
    while b > 0 && is_ws_exec(s.get_char(b - 1))
        invariant
            n == s@.len(),
            b <= n,
            trail_from(s@, n as int) == trail_from(s@, b as int),
        decreases b,
    {
        b = b - 1;
    }
    if a >= b {
        String::new()
    } else {
        String::from_str(s.substring_char(a, b))
    }
}

/// Whether the text is only white space (or empty).
pub open spec fn blank(s: Seq<char>) -> bool {
    trim_spec(s).len() == 0
}

/// The first `n` characters (all of them when there are fewer).
pub fn take_chars(s: &str, n: usize) -> (r: String)
    ensures
        r@ == s@.take(if n < s@.len() {
            n as int
        } else {
            s@.len() as int
        }),
{
    let len = s.unicode_len();
    let k = if n < len {
        n
    } else {
        len
    };
    String::from_str(s.substring_char(0, k))
}

/// At most `max` characters: a longer text keeps its first `max - 1` and ends with `…`.
pub open spec fn truncate_spec(s: Seq<char>, max: nat) -> Seq<char> {
    if s.len() <= max {
        s
    } else {
        s.take(if max >= 1 {
            max - 1
        } else {
            0
        }) + "…"@
    }
}

pub fn truncate_chars(s: &str, max: usize) -> (r: String)
    ensures
        r@ == truncate_spec(s@, max as nat),
{
    let len = s.unicode_len();
    if len <= max {
        return String::from_str(s);
    }
    let keep = if max >= 1 {
        max - 1
    } else {
        0
    };
    let mut head = String::from_str(s.substring_char(0, keep));
    head.append("…");
    head
}

// ---------------------------------------------------------------------------
// Words.
// ---------------------------------------------------------------------------

/// The words of a text (maximal runs without white space), from position `i` on.
pub open spec fn words_from(s: Seq<char>, i: int) -> Seq<Seq<char>>
    decreases s.len() - i,
{
    if i < 0 || i >= s.len() {
        seq![]
    } else if is_ws(s[i]) {
        words_from(s, i + 1)
    } else {
        let j = word_stop(s, i);
        if j <= i || j > s.len() {
            seq![]
        } else {
            seq![s.subrange(i, j)] + words_from(s, j)
        }
    }
}

/// The end of the word starting at `i`.
pub open spec fn word_stop(s: Seq<char>, i: int) -> int
    decreases s.len() - i,
{
    if 0 <= i < s.len() && !is_ws(s[i]) {
        word_stop(s, i + 1)
    } else {
        i
    }
}

proof fn lemma_word_stop(s: Seq<char>, i: int)
    requires
        0 <= i <= s.len(),
    ensures
        i <= word_stop(s, i) <= s.len(),
        i < s.len() && !is_ws(s[i]) ==> i < word_stop(s, i),
    decreases s.len() - i,
{
    if i < s.len() && !is_ws(s[i]) {
        lemma_word_stop(s, i + 1);
    }
}

/// Words joined with `sep`.
pub open spec fn join_spec(ws: Seq<Seq<char>>, sep: Seq<char>) -> Seq<char>
    decreases ws.len(),
{
    if ws.len() == 0 {
        seq![]
    } else if ws.len() == 1 {
        ws[0]
    } else {
        join_spec(ws.drop_last(), sep) + sep + ws.last()
    }
}

/// The words of a text joined by single spaces (runs of white space squashed).
pub open spec fn squash_spec(s: Seq<char>) -> Seq<char> {
    join_spec(words_from(s, 0), " "@)
}

/// Joins strings with a separator.
pub fn join(parts: &Vec<String>, sep: &str) -> (r: String)
    ensures
        r@ == join_spec(parts@.map_values(|p: String| p@), sep@),
{
    let ghost views = parts@.map_values(|p: String| p@);
    let mut out = String::new();
    let mut i: usize = 0;
    while i < parts.len()
        invariant
            i <= parts@.len(),
            views == parts@.map_values(|p: String| p@),
            out@ == join_spec(views.take(i as int), sep@),
        decreases parts@.len() - i,
    {
        assert(views.take(i + 1).drop_last() =~= views.take(i as int));
        assert(views.take(i + 1).last() == parts@[i as int]@);
        if i > 0 {
            out.append(sep);
        } else {
            assert(views.take(1) =~= seq![parts@[0]@]);
        }
        out.append(parts[i].as_str());
        i = i + 1;
    }
    assert(views.take(i as int) =~= views);
    out
}

/// The words of a text.
pub fn words(s: &str) -> (r: Vec<String>)
    ensures
        r@.map_values(|p: String| p@) == words_from(s@, 0),
{
    let n = s.unicode_len();
    let mut out: Vec<String> = Vec::new();
    let mut i: usize = 0;
    assert(out@.map_values(|p: String| p@) + words_from(s@, 0) =~= words_from(s@, 0));
    while i < n
        invariant
            n == s@.len(),
            i <= n,
            out@.map_values(|p: String| p@) + words_from(s@, i as int) == words_from(s@, 0),
        decreases n - i, 
    {
        if is_ws_exec(s.get_char(i)) {
            i = i + 1;
        } else {
            let start = i;
            proof {
                lemma_word_stop(s@, i as int);
            }
            while i < n && !is_ws_exec(s.get_char(i))
                invariant
                    n == s@.len(),
                    start <= i <= n,
                    word_stop(s@, start as int) == word_stop(s@, i as int),
                decreases n - i,
            {
                proof {
                    lemma_word_stop(s@, i + 1);
                }
                i = i + 1;
            }
            proof {
                lemma_word_stop(s@, i as int);
            }
            let ghost before = out@.map_values(|p: String| p@);
            let w = String::from_str(s.substring_char(start, i));
            out.push(w);
            assert(out@.map_values(|p: String| p@) =~= before.push(w@));
            assert(before.push(w@) + words_from(s@, i as int) =~= before + (seq![w@] + words_from(s@, i as int)));
        }
    }
    assert(out@.map_values(|p: String| p@) + words_from(s@, i as int) =~= out@.map_values(|p: String| p@));
    out
}

/// The words of a text joined by single spaces.
pub fn squash_ws(s: &str) -> (r: String)
    ensures
        r@ == squash_spec(s@),
{
    let ws = words(s);
    join(&ws, " ")
}

// ---------------------------------------------------------------------------
// Numbers.
// ---------------------------------------------------------------------------

pub open spec fn digit_char(d: nat) -> Seq<char> {
    if d == 0 {
        "0"@
    } else if d == 1 {
        "1"@
    } else if d == 2 {
        "2"@
    } else if d == 3 {
        "3"@
    } else if d == 4 {
        "4"@
    } else if d == 5 {
        "5"@
    } else if d == 6 {
        "6"@
    } else if d == 7 {
        "7"@
    } else if d == 8 {
        "8"@
    } else {
        "9"@
    }
}

/// The decimal digits of a number.
pub open spec fn dec_spec(n: nat) -> Seq<char>
    decreases n,
{
    if n < 10 {
        digit_char(n)
    } else {
        dec_spec(n / 10) + digit_char(n % 10)
    }
}

/// The decimal rendering of a signed number.
pub open spec fn int_spec(v: int) -> Seq<char> {
    if v < 0 {
        "-"@ + dec_spec((-v) as nat)
    } else {
        dec_spec(v as nat)
    }
}

fn digit_str(d: u64) -> (r: &'static str)
    requires
        d < 10,
    ensures
        r@ == digit_char(d as nat),
{
    if d == 0 {
        "0"
    } else if d == 1 {
        "1"
    } else if d == 2 {
        "2"
    } else if d == 3 {
        "3"
    } else if d == 4 {
        "4"
    } else if d == 5 {
        "5"
    } else if d == 6 {
        "6"
    } else if d == 7 {
        "7"
    } else if d == 8 {
        "8"
    } else {
        "9"
    }
}

/// The decimal digits of a number.
pub fn dec(n: u64) -> (r: String)
    ensures
        r@ == dec_spec(n as nat),
    decreases n,
{
    if n < 10 {
        String::from_str(digit_str(n))
    } else {
        let mut s = dec(n / 10);
        s.append(digit_str(n % 10));
        s
    }
}

/// The decimal rendering of a signed number.
pub fn int_str(v: i64) -> (r: String)
    ensures
        r@ == int_spec(v as int),
{
    if v < 0 {
        let m: u64 = (-(v as i128)) as u64;
        let mut s = String::from_str("-");
        let d = dec(m);
        s.append(d.as_str());
        s
    } else {
        dec(v as u64)
    }
}

/// The text without trailing white space.
pub open spec fn trim_end_spec(s: Seq<char>) -> Seq<char> {
    s.subrange(0, trail_from(s, s.len() as int))
}

pub fn trim_end(s: &str) -> (r: String)
    ensures
        r@ == trim_end_spec(s@),
{
    let n = s.unicode_len();
    let mut b: usize = n;
    proof {
        lemma_trail(s@, n as int);
    }
    while b > 0 && is_ws_exec(s.get_char(b - 1))
        invariant
            n == s@.len(),
            b <= n,
            trail_from(s@, n as int) == trail_from(s@, b as int),
        decreases b,
    {
        b = b - 1;
    }
    String::from_str(s.substring_char(0, b))
}

/// Whether the text is blank (empty once trimmed).
pub fn is_blank(s: &str) -> (b: bool)
    ensures
        b == blank(s@),
{
    let t = trim(s);
    t.unicode_len() == 0
}

} // verus!
