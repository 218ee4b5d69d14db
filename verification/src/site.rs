//! Packages fetched from a distribution site: the zip is checked before it is
//! unpacked, whatever the server claims, and small helpers of the front end
//! (paths, switches, addresses).
use vstd::prelude::*;

use crate::expr::{digits_value, is_digit, lemma_digits_value_grows};
use crate::strmap::str_eq;
use crate::text::{dec, trim, trim_spec};

verus! {

broadcast use vstd::std_specs::vec::group_vec_axioms;

/// The most entries a package zip may hold.
pub const MAX_ENTRIES: usize = 10000;

/// The most bytes a package zip may unpack to (500 MiB).
pub const MAX_UNCOMPRESSED_TOTAL: u64 = 524288000;

/// The provenance file the installing client writes itself; never unpacked
/// from a zip.
pub const SOURCE_META_FILE: &'static str = ".kataribe_source.json";

// ---------------------------------------------------------------------------
// Folder names.
// ---------------------------------------------------------------------------

/// A control character (Unicode general category Cc).
pub open spec fn is_control(c: char) -> bool {
    (c as u32) <= 0x1F || (0x7F <= (c as u32) && (c as u32) <= 0x9F)
}

/// A character refused in a folder name: a path special of Windows, or a control.
pub open spec fn bad_name_char(c: char) -> bool {
    c == '\\' || c == ':' || c == '*' || c == '?' || c == '"' || c == '<' || c == '>' || c == '|' || is_control(c)
}

/// A safe top folder name: not empty, no refused character, neither `.` nor `..`.
pub open spec fn top_name_safe(name: Seq<char>) -> bool {
    &&& name.len() > 0
    &&& forall|i: int| 0 <= i < name.len() ==> !bad_name_char(#[trigger] name[i])
    &&& name != seq!['.']
    &&& name != seq!['.', '.']
}

pub fn top_name_is_safe(name: &str) -> (b: bool)
    ensures
        b == top_name_safe(name@),
{
    let n = name.unicode_len();
    if n == 0 {
        return false;
    }
    let mut i: usize = 0;
    while i < n
        invariant
            n == name@.len(),
            i <= n,
            forall|j: int| 0 <= j < i ==> !bad_name_char(#[trigger] name@[j]),
        decreases n - i,
    {
        let c = name.get_char(i);
        let u = c as u32;
        if c == '\\' || c == ':' || c == '*' || c == '?' || c == '"' || c == '<' || c == '>' || c == '|' || u <= 0x1F
            || (0x7F <= u && u <= 0x9F) {
            return false;
        }
        i = i + 1;
    }
    if n == 1 && name.get_char(0) == '.' {
        assert(name@ =~= seq!['.']);
        return false;
    }
    if n == 2 && name.get_char(0) == '.' && name.get_char(1) == '.' {
        assert(name@ =~= seq!['.', '.']);
        return false;
    }
    assert(name@ != seq!['.']) by {
        if name@ =~= seq!['.'] {
            assert(name@[0] == '.');
        }
    }
    assert(name@ != seq!['.', '.']) by {
        if name@ =~= seq!['.', '.'] {
            assert(name@[0] == '.' && name@[1] == '.');
        }
    }
    true
}

// ---------------------------------------------------------------------------
// Extensions.
// ---------------------------------------------------------------------------

/// The position of the last `.` before position `k`, or -1.
pub open spec fn last_dot(s: Seq<char>, k: int) -> int
    decreases k,
{
    if k <= 0 || k > s.len() {
        -1
    } else if s[k - 1] == '.' {
        k - 1
    } else {
        last_dot(s, k - 1)
    }
}

proof fn lemma_last_dot(s: Seq<char>, k: int)
    requires
        0 <= k <= s.len(),
    ensures
        -1 <= last_dot(s, k) < k,
        last_dot(s, k) >= 0 ==> s[last_dot(s, k)] == '.',
        last_dot(s, k) < 0 ==> forall|j: int| 0 <= j < k ==> s[j] != '.',
    decreases k,
{
    if k > 0 && s[k - 1] != '.' {
        lemma_last_dot(s, k - 1);
    }
}

/// Case-insensitive equality of a character with a lower-case ASCII one.
pub open spec fn char_ieq(c: char, w: char) -> bool {
    c == w || ('A' <= c && c <= 'Z' && (c as u32) + 32 == (w as u32))
}

/// Case-insensitive (ASCII) equality of a text with a lower-case word.
pub open spec fn ieq(s: Seq<char>, w: Seq<char>) -> bool {
    s.len() == w.len() && forall|i: int| 0 <= i < s.len() ==> char_ieq(#[trigger] s[i], w[i])
}

/// Extensions refused in a package: executables and scripts.
pub open spec fn denied_words() -> Seq<Seq<char>> {
    seq![
        "exe"@, "dll"@, "so"@, "dylib"@, "bat"@, "cmd"@, "com"@, "scr"@, "msi"@, "ps1"@, "vbs"@, "sh"@, "jar"@, "app"@,
        "js"@, "wasm"@,
    ]
}

/// A file name whose extension (after its last `.`) is refused, in any ASCII case.
pub open spec fn denied_name(name: Seq<char>) -> bool {
    let d = last_dot(name, name.len() as int);
    d >= 0 && exists|k: int| 0 <= k < denied_words().len() && ieq(name.subrange(d + 1, name.len() as int), #[trigger] denied_words()[k])
}

fn ieq_exec(s: &str, w: &str) -> (b: bool)
    ensures
        b == ieq(s@, w@),
{
    let n = s.unicode_len();
    if n != w.unicode_len() {
        return false;
    }
    let mut i: usize = 0;
    while i < n
        invariant
            n == s@.len() == w@.len(),
            i <= n,
            forall|j: int| 0 <= j < i ==> char_ieq(#[trigger] s@[j], w@[j]),
        decreases n - i,
    {
        let c = s.get_char(i);
        let x = w.get_char(i);
        if !(c == x || ('A' <= c && c <= 'Z' && (c as u32) + 32 == (x as u32))) {
            return false;
        }
        i = i + 1;
    }
    true
}

fn denied_word(k: usize) -> (w: &'static str)
    requires
        k < 16,
    ensures
        w@ == denied_words()[k as int],
{
    if k == 0 {
        "exe"
    } else if k == 1 {
        "dll"
    } else if k == 2 {
        "so"
    } else if k == 3 {
        "dylib"
    } else if k == 4 {
        "bat"
    } else if k == 5 {
        "cmd"
    } else if k == 6 {
        "com"
    } else if k == 7 {
        "scr"
    } else if k == 8 {
        "msi"
    } else if k == 9 {
        "ps1"
    } else if k == 10 {
        "vbs"
    } else if k == 11 {
        "sh"
    } else if k == 12 {
        "jar"
    } else if k == 13 {
        "app"
    } else if k == 14 {
        "js"
    } else {
        "wasm"
    }
}

pub fn has_denied_extension(name: &str) -> (b: bool)
    ensures
        b == denied_name(name@),
{
    let n = name.unicode_len();
    proof {
        lemma_last_dot(name@, n as int);
    }
    let mut k: usize = n;
    while k > 0 && name.get_char(k - 1) != '.'
        invariant
            n == name@.len(),
            k <= n,
            last_dot(name@, n as int) == last_dot(name@, k as int),
        decreases k,
    {
        k = k - 1;
    }
    if k == 0 {
        return false;
    }
    let ext = name.substring_char(k, n);
    assert(denied_words().len() == 16);
    let mut i: usize = 0;
    while i < 16
        invariant
            n == name@.len(),
            1 <= k <= n,
            last_dot(name@, n as int) == k - 1,
            ext@ == name@.subrange(k as int, n as int),
            i <= 16,
            denied_words().len() == 16,
            forall|j: int| 0 <= j < i ==> !ieq(ext@, #[trigger] denied_words()[j]),
        decreases 16 - i,
    {
        if ieq_exec(ext, denied_word(i)) {
            return true;
        }
        i = i + 1;
    }
    false
}

// ---------------------------------------------------------------------------
// Checking a package zip.
// ---------------------------------------------------------------------------

/// What the check reads of one zip entry.
#[derive(Debug)]
pub struct ZipEntryInfo {
    pub name: String,
    pub encrypted: bool,
    /// The entry's path stays inside the folder it is unpacked to (no `..`,
    /// no absolute path, no drive letter).
    pub enclosed: bool,
    /// Uncompressed size in bytes.
    pub size: u64,
    pub is_dir: bool,
}

pub open spec fn sat_add_u64(a: u64, b: u64) -> u64 {
    if a + b > u64::MAX {
        u64::MAX
    } else {
        (a + b) as u64
    }
}

/// The first refusal among the entries from `i` on, with `total` bytes so far:
/// an encrypted entry, a path leaving the folder, the size limit passed, or a
/// refused extension on a file.
pub open spec fn scan_error(es: Seq<ZipEntryInfo>, i: int, total: u64) -> Option<Seq<char>>
    decreases es.len() - i,
{
    if i < 0 || i >= es.len() {
        None
    } else {
        let e = es[i];
        let t = sat_add_u64(total, e.size);
        if e.encrypted {
            Some("暗号化された zip は受け付けられません: "@ + e.name@)
        } else if !e.enclosed {
            Some("不正なエントリパスが含まれています: "@ + e.name@)
        } else if t > MAX_UNCOMPRESSED_TOTAL {
            Some("展開後サイズが上限 (500MB) を超えています"@)
        } else if !e.is_dir && denied_name(e.name@) {
            Some("実行ファイル・スクリプトは同梱できません: "@ + e.name@)
        } else {
            scan_error(es, i + 1, t)
        }
    }
}

/// The text before the first `/` (the whole text when there is none).
pub open spec fn first_segment(s: Seq<char>) -> Seq<char> {
    s.take(first_slash(s, 0))
}

/// The position of the first `/` at or after `i`, or the length.
pub open spec fn first_slash(s: Seq<char>, i: int) -> int
    decreases s.len() - i,
{
    if i < 0 || i >= s.len() {
        s.len() as int
    } else if s[i] == '/' {
        i
    } else {
        first_slash(s, i + 1)
    }
}

proof fn lemma_first_slash(s: Seq<char>, i: int)
    requires
        0 <= i <= s.len(),
    ensures
        i <= first_slash(s, i) <= s.len(),
        forall|j: int| i <= j < first_slash(s, i) ==> s[j] != '/',
        first_slash(s, i) < s.len() ==> s[first_slash(s, i)] == '/',
    decreases s.len() - i,
{
    if i < s.len() && s[i] != '/' {
        lemma_first_slash(s, i + 1);
    }
}

pub open spec fn has_slash(s: Seq<char>) -> bool {
    s.contains('/')
}

/// The non-empty top folders named by the entries, in order (with repeats).
pub open spec fn tops(es: Seq<ZipEntryInfo>) -> Seq<Seq<char>> {
    es.map_values(|e: ZipEntryInfo| first_segment(e.name@)).filter(|t: Seq<char>| t.len() > 0)
}

/// The entries name exactly one top folder.
pub open spec fn one_top(ts: Seq<Seq<char>>) -> bool {
    ts.len() > 0 && forall|j: int| 0 <= j < ts.len() ==> #[trigger] ts[j] == ts[0]
}

/// The verdict on a package zip: the name of its one top folder, or the
/// reason for refusing it. Too many entries; then, entry by entry, encryption,
/// a path leaving the folder, the total size, a refused extension; then an
/// entry outside any folder, more or fewer than one top folder, an unsafe
/// folder name, and no `package.yaml` in the folder.
pub open spec fn zip_verdict(es: Seq<ZipEntryInfo>) -> Result<Seq<char>, Seq<char>> {
    if es.len() > MAX_ENTRIES {
        Err("エントリ数が上限 (10000) を超えています"@)
    } else {
        match scan_error(es, 0, 0) {
            Some(e) => Err(e),
            None => if exists|i: int| 0 <= i < es.len() && !has_slash(#[trigger] es[i].name@) {
                Err("配布物の構造が不正です (フォルダ包み形ではありません)"@)
            } else if !one_top(tops(es)) {
                Err("配布物の構造が不正です (トップフォルダが 1 つではありません)"@)
            } else if !top_name_safe(tops(es)[0]) {
                Err("フォルダ名に使えない文字が含まれています: "@ + tops(es)[0])
            } else if !(exists|i: int| 0 <= i < es.len() && #[trigger] es[i].name@ == tops(es)[0] + "/package.yaml"@) {
                Err("package.yaml が見つかりません (パッケージ zip ではありません)"@)
            } else {
                Ok(tops(es)[0])
            },
        }
    }
}

fn first_segment_exec(s: &str) -> (r: String)
    ensures
        r@ == first_segment(s@),
{
    let n = s.unicode_len();
    proof {
        lemma_first_slash(s@, 0);
    }
    let mut i: usize = 0;
    while i < n && s.get_char(i) != '/'
        invariant
            n == s@.len(),
            i <= n,
            first_slash(s@, 0) == first_slash(s@, i as int),
        decreases n - i,
    {
        i = i + 1;
    }
    String::from_str(s.substring_char(0, i))
}

fn has_slash_exec(s: &str) -> (b: bool)
    ensures
        b == has_slash(s@),
{
    let n = s.unicode_len();
    let mut i: usize = 0;
    while i < n
        invariant
            n == s@.len(),
            i <= n,
            forall|j: int| 0 <= j < i ==> s@[j] != '/',
        decreases n - i,
    {
        if s.get_char(i) == '/' {
            assert(s@[i as int] == '/');
            return true;
        }
        i = i + 1;
    }
    false
}

/// Checks a package zip's entries (see `zip_verdict`).
pub fn check_package_zip(entries: &Vec<ZipEntryInfo>) -> (r: Result<String, String>)
    ensures
        match r {
            Ok(top) => zip_verdict(entries@) == Ok::<Seq<char>, Seq<char>>(top@),
            Err(e) => zip_verdict(entries@) == Err::<Seq<char>, Seq<char>>(e@),
        },
{
    if entries.len() > MAX_ENTRIES {
        return Err(String::from_str("エントリ数が上限 (10000) を超えています"));
    }
    let mut total: u64 = 0;
    let mut i: usize = 0;
    while i < entries.len()
        invariant
            i <= entries@.len(),
            entries@.len() <= MAX_ENTRIES,
            scan_error(entries@, 0, 0) == scan_error(entries@, i as int, total),
        decreases entries@.len() - i,
    {
        let e = &entries[i];
        let t = total.saturating_add(e.size);
        if e.encrypted {
            let mut m = String::from_str("暗号化された zip は受け付けられません: ");
            m.append(e.name.as_str());
            return Err(m);
        }
        if !e.enclosed {
            let mut m = String::from_str("不正なエントリパスが含まれています: ");
            m.append(e.name.as_str());
            return Err(m);
        }
        if t > MAX_UNCOMPRESSED_TOTAL {
            return Err(String::from_str("展開後サイズが上限 (500MB) を超えています"));
        }
        if !e.is_dir && has_denied_extension(e.name.as_str()) {
            let mut m = String::from_str("実行ファイル・スクリプトは同梱できません: ");
            m.append(e.name.as_str());
            return Err(m);
        }
        total = t;
        i = i + 1;
    }
    // Every entry inside a folder.
    let mut i: usize = 0;
    while i < entries.len()
        invariant
            i <= entries@.len(),
            entries@.len() <= MAX_ENTRIES,
            scan_error(entries@, 0, 0) is None,
            forall|j: int| 0 <= j < i ==> has_slash(#[trigger] entries@[j].name@),
        decreases entries@.len() - i,
    {
        if !has_slash_exec(entries[i].name.as_str()) {
            return Err(String::from_str("配布物の構造が不正です (フォルダ包み形ではありません)"));
        }
        i = i + 1;
    }
    // Exactly one top folder.
    let ghost segs = entries@.map_values(|e: ZipEntryInfo| first_segment(e.name@));
    let ghost p = |t: Seq<char>| t.len() > 0;
    let mut top: Option<String> = None;
    let mut many = false;
    let mut i: usize = 0;
    assert(segs.take(0).filter(p) =~= Seq::<Seq<char>>::empty());
    while i < entries.len()
        invariant
            i <= entries@.len(),
            entries@.len() <= MAX_ENTRIES,
            scan_error(entries@, 0, 0) is None,
            forall|j: int| 0 <= j < entries@.len() ==> has_slash(#[trigger] entries@[j].name@),
            segs == entries@.map_values(|e: ZipEntryInfo| first_segment(e.name@)),
            p == (|t: Seq<char>| t.len() > 0),
            match top {
                None => segs.take(i as int).filter(p).len() == 0 && !many,
                Some(t) => segs.take(i as int).filter(p).len() > 0 && t@ == segs.take(i as int).filter(p)[0] && (many
                    <==> !one_top(segs.take(i as int).filter(p))),
            },
        decreases entries@.len() - i,
    {
        proof {
            assert(segs.take(i + 1) =~= segs.take(i as int).push(segs[i as int]));
            segs.take(i as int).lemma_filter_push(segs[i as int], p);
        }
        let s = first_segment_exec(entries[i].name.as_str());
        let ghost before = segs.take(i as int).filter(p);
        if s.unicode_len() > 0 {
            match &top {
                None => {
                    assert(before.push(s@) =~= seq![s@]);
                    top = Some(s);
                },
                Some(t) => {
                    if !str_eq(t.as_str(), s.as_str()) {
                        many = true;
                        assert(before.push(s@)[before.len() as int] == s@);
                    } else if !many {
                        assert forall|j: int| 0 <= j < before.push(s@).len() implies #[trigger] before.push(s@)[j]
                            == before.push(s@)[0] by {
                            if j < before.len() {
                                assert(before[j] == before[0]);
                            }
                        }
                    } else {
                        {
                            let ghost w = choose|j: int| 0 <= j < before.len() && #[trigger] before[j] != before[0];
                            assert(before.push(s@)[w] != before.push(s@)[0]);
                        }
                    }
                },
            }
        }
        i = i + 1;
    }
    assert(segs.take(i as int) =~= segs);
    assert(tops(entries@) == segs.filter(p));
    let top = match top {
        None => {
            return Err(String::from_str("配布物の構造が不正です (トップフォルダが 1 つではありません)"));
        },
        Some(t) => t,
    };
    if many {
        return Err(String::from_str("配布物の構造が不正です (トップフォルダが 1 つではありません)"));
    }
    if !top_name_is_safe(top.as_str()) {
        let mut m = String::from_str("フォルダ名に使えない文字が含まれています: ");
        m.append(top.as_str());
        return Err(m);
    }
    let mut want = top.clone();
    want.append("/package.yaml");
    let mut i: usize = 0;
    while i < entries.len()
        invariant
            i <= entries@.len(),
            entries@.len() <= MAX_ENTRIES,
            scan_error(entries@, 0, 0) is None,
            forall|j: int| 0 <= j < entries@.len() ==> has_slash(#[trigger] entries@[j].name@),
            one_top(tops(entries@)),
            top@ == tops(entries@)[0],
            top_name_safe(top@),
            want@ == top@ + "/package.yaml"@,
            forall|j: int| 0 <= j < i ==> #[trigger] entries@[j].name@ != want@,
        decreases entries@.len() - i,
    {
        if str_eq(entries[i].name.as_str(), want.as_str()) {
            return Ok(top);
        }
        i = i + 1;
    }
    Err(String::from_str("package.yaml が見つかりません (パッケージ zip ではありません)"))
}

/// Whether an unpacked path (below the top folder) is the provenance file,
/// which is never unpacked.
pub fn is_source_meta(rel: &str) -> (b: bool)
    ensures
        b == (rel@ == SOURCE_META_FILE@),
{
    str_eq(rel, SOURCE_META_FILE)
}

/// The `n`-th folder name tried for `name`: the name itself first, then
/// `name_2`, `name_3`, ...
pub open spec fn dir_candidate_spec(name: Seq<char>, n: u32) -> Seq<char> {
    if n <= 1 {
        name
    } else {
        name + "_"@ + crate::text::dec_spec(n as nat)
    }
}

pub fn dir_candidate(name: &str, n: u32) -> (r: String)
    ensures
        r@ == dir_candidate_spec(name@, n),
{
    let mut s = String::from_str(name);
    if n > 1 {
        s.append("_");
        let d = dec(n as u64);
        s.append(d.as_str());
    }
    s
}


// ---------------------------------------------------------------------------
// Small helpers of the front end.
// ---------------------------------------------------------------------------

/// A switch value that means "on": `1`, `true`, `yes` or `on`, trimmed, in any ASCII case.
pub open spec fn truthy(v: Seq<char>) -> bool {
    let t = trim_spec(v);
    ieq(t, "1"@) || ieq(t, "true"@) || ieq(t, "yes"@) || ieq(t, "on"@)
}

pub fn env_is_truthy(v: &str) -> (b: bool)
    ensures
        b == truthy(v@),
{
    let t = trim(v);
    ieq_exec(t.as_str(), "1") || ieq_exec(t.as_str(), "true") || ieq_exec(t.as_str(), "yes") || ieq_exec(
        t.as_str(),
        "on",
    )
}

/// A switch value that means "off": `false`, `0`, `no` or `off`, trimmed, in any ASCII case.
pub open spec fn falsy(v: Seq<char>) -> bool {
    let t = trim_spec(v);
    ieq(t, "false"@) || ieq(t, "0"@) || ieq(t, "no"@) || ieq(t, "off"@)
}

/// Whether the narrator is asked through tool calls: yes unless the setting
/// is present and says "off".
pub fn use_tools_setting(v: Option<&str>) -> (b: bool)
    ensures
        b == match v {
            Some(s) => !falsy(s@),
            None => true,
        },
{
    match v {
        Some(s) => {
            let t = trim(s);
            !(ieq_exec(t.as_str(), "false") || ieq_exec(t.as_str(), "0") || ieq_exec(t.as_str(), "no")
                || ieq_exec(t.as_str(), "off"))
        },
        None => true,
    }
}

/// The digits of a number, after an optional leading `+`.
pub open spec fn seed_digits(t: Seq<char>) -> Seq<char> {
    if t.len() > 0 && t[0] == '+' {
        t.drop_first()
    } else {
        t
    }
}

/// A seed setting read as an unsigned 64-bit number (trimmed; an optional `+`,
/// then one or more ASCII digits whose value fits), or nothing.
pub open spec fn parse_seed_spec(v: Seq<char>) -> Option<u64> {
    let d = seed_digits(trim_spec(v));
    if d.len() > 0 && (forall|k: int| 0 <= k < d.len() ==> is_digit(#[trigger] d[k])) && digits_value(d)
        <= u64::MAX {
        Some(digits_value(d) as u64)
    } else {
        None
    }
}

pub fn parse_seed(v: &str) -> (r: Option<u64>)
    ensures
        r == parse_seed_spec(v@),
{
    let t = trim(v);
    let n = t.unicode_len();
    let start: usize = if n > 0 && t.get_char(0) == '+' {
        1
    } else {
        0
    };
    let ghost d = seed_digits(t@);
    assert(d =~= t@.subrange(start as int, n as int));
    if start == n {
        return None;
    }
    let mut acc: u64 = 0;
    let mut k: usize = start;
    assert(t@.subrange(start as int, start as int) =~= Seq::<char>::empty());
    while k < n
        invariant
            start <= k <= n,
            n == t@.len(),
            d == t@.subrange(start as int, n as int),
            d == seed_digits(t@),
            t@ == trim_spec(v@),
            forall|q: int| start <= q < k ==> is_digit(#[trigger] t@[q]),
            acc == digits_value(t@.subrange(start as int, k as int)),
        decreases n - k,
    {
        let c = t.get_char(k);
        let u = c as u32;
        if !(48 <= u && u <= 57) {
            assert(d[k - start] == c);
            assert(!is_digit(d[k - start]));
            return None;
        }
        let x = (u - 48) as u64;
        assert(t@.subrange(start as int, k + 1).drop_last() =~= t@.subrange(start as int, k as int));
        assert(t@.subrange(start as int, k + 1).last() == c);
        match acc.checked_mul(10) {
            Some(y) => match y.checked_add(x) {
                Some(z) => {
                    acc = z;
                },
                None => {
                    proof {
                        lemma_seed_overflow(t@, start as int, k as int, n as int);
                    }
                    return None;
                },
            },
            None => {
                proof {
                    lemma_seed_overflow(t@, start as int, k as int, n as int);
                }
                return None;
            },
        }
        k = k + 1;
    }
    assert(t@.subrange(start as int, k as int) =~= d);
    Some(acc)
}

proof fn lemma_seed_overflow(t: Seq<char>, start: int, k: int, n: int)
    requires
        0 <= start <= k < n <= t.len(),
        forall|q: int| start <= q <= k ==> is_digit(#[trigger] t[q]),
        digits_value(t.subrange(start, k + 1)) > u64::MAX,
    ensures
        ({
            let d = t.subrange(start, n);
            !(d.len() > 0 && (forall|q: int| 0 <= q < d.len() ==> is_digit(#[trigger] d[q])) && digits_value(d)
                <= u64::MAX)
        }),
{
    let d = t.subrange(start, n);
    if forall|q: int| 0 <= q < d.len() ==> is_digit(#[trigger] d[q]) {
        lemma_digits_value_grows(d, k + 1 - start);
        assert(d.take(k + 1 - start) =~= t.subrange(start, k + 1));
    }
}

/// A narration with each literal backslash-`n` pair turned into a line break.
pub open spec fn unescape_newlines(s: Seq<char>) -> Seq<char>
    decreases s.len(),
{
    if s.len() < 2 {
        s
    } else if s[0] == '\\' && s[1] == 'n' {
        seq!['\n'] + unescape_newlines(s.skip(2))
    } else {
        seq![s[0]] + unescape_newlines(s.skip(1))
    }
}

pub fn normalize(s: &str) -> (r: String)
    ensures
        r@ == unescape_newlines(s@),
{
    let n = s.unicode_len();
    let mut out = String::new();
    let mut i: usize = 0;
    assert(s@.skip(0) =~= s@);
    while i < n
        invariant
            n == s@.len(),
            i <= n,
            out@ + unescape_newlines(s@.skip(i as int)) == unescape_newlines(s@),
        decreases n - i,
    {
        let ghost rest = s@.skip(i as int);
        if i + 1 < n && s.get_char(i) == '\\' && s.get_char(i + 1) == 'n' {
            out.append("\n");
            proof {
                reveal_strlit("\n");
                assert(rest.skip(2) =~= s@.skip(i + 2));
                assert("\n"@ =~= seq!['\n']);
            }
            assert(out@ + unescape_newlines(s@.skip(i + 2)) =~= unescape_newlines(s@));
            i = i + 2;
        } else {
            let c = s.substring_char(i, i + 1);
            out.append(c);
            proof {
                assert(rest.skip(1) =~= s@.skip(i + 1));
                assert(c@ =~= seq![rest[0]]);
            }
            assert(out@ + unescape_newlines(s@.skip(i + 1)) =~= unescape_newlines(s@));
            i = i + 1;
        }
    }
    assert(s@.skip(i as int) =~= Seq::<char>::empty());
    assert(out@ =~= unescape_newlines(s@));
    out
}

/// The text without its trailing `/` characters.
pub open spec fn strip_slashes(s: Seq<char>) -> Seq<char>
    decreases s.len(),
{
    if s.len() > 0 && s.last() == '/' {
        strip_slashes(s.drop_last())
    } else {
        s
    }
}

/// A site address, trimmed and without trailing slashes, accepted only with
/// an `http://` or `https://` scheme.
pub open spec fn site_url_spec(s: Seq<char>) -> Result<Seq<char>, Seq<char>> {
    let base = strip_slashes(trim_spec(s));
    if (base.len() >= 7 && base.subrange(0, 7) == "http://"@) || (base.len() >= 8 && base.subrange(0, 8)
        == "https://"@) {
        Ok(base)
    } else {
        Err("サイト URL は http:// または https:// で始めてください"@)
    }
}

pub fn normalize_site_url(site_url: &str) -> (r: Result<String, String>)
    ensures
        match r {
            Ok(u) => site_url_spec(site_url@) == Ok::<Seq<char>, Seq<char>>(u@),
            Err(e) => site_url_spec(site_url@) == Err::<Seq<char>, Seq<char>>(e@),
        },
{
    let t = trim(site_url);
    let mut k = t.unicode_len();
    assert(t@.take(k as int) =~= t@);
    while k > 0 && t.as_str().get_char(k - 1) == '/'
        invariant
            k <= t@.len(),
            strip_slashes(t@) == strip_slashes(t@.take(k as int)),
        decreases k,
    {
        assert(t@.take(k as int).drop_last() =~= t@.take(k - 1));
        k = k - 1;
    }
    assert(strip_slashes(t@.take(k as int)) == t@.take(k as int)) by {
        if k > 0 {
            assert(t@.take(k as int).last() == t@[k - 1]);
        }
    }
    let base = String::from_str(t.as_str().substring_char(0, k));
    assert(base@ =~= t@.take(k as int));
    let n = base.unicode_len();
    proof {
        reveal_strlit("http://");
        reveal_strlit("https://");
    }
    let http = n >= 7 && str_eq(base.as_str().substring_char(0, 7), "http://");
    let https = n >= 8 && str_eq(base.as_str().substring_char(0, 8), "https://");
    if http || https {
        Ok(base)
    } else {
        Err(String::from_str("サイト URL は http:// または https:// で始めてください"))
    }
}

// ---------------------------------------------------------------------------
// Paths.
// ---------------------------------------------------------------------------

/// The `/`-separated components of a text from position `i` on.
pub open spec fn split_from(s: Seq<char>, i: int) -> Seq<Seq<char>>
    decreases s.len() - i,
{
    if i < 0 || i > s.len() {
        seq![]
    } else {
        let j = first_slash(s, i);
        if j < i || j > s.len() {
            seq![]
        } else if j < s.len() {
            seq![s.subrange(i, j)] + split_from(s, j + 1)
        } else {
            seq![s.subrange(i, j)]
        }
    }
}

/// Components after lexical normalization: empty and `.` components vanish,
/// `..` removes the component before it (if any).
pub open spec fn norm_parts(cs: Seq<Seq<char>>) -> Seq<Seq<char>>
    decreases cs.len(),
{
    if cs.len() == 0 {
        seq![]
    } else {
        let prev = norm_parts(cs.drop_last());
        let c = cs.last();
        if c.len() == 0 || c == seq!['.'] {
            prev
        } else if c == seq!['.', '.'] {
            if prev.len() > 0 {
                prev.drop_last()
            } else {
                prev
            }
        } else {
            prev.push(c)
        }
    }
}

/// A `/`-separated path with `.` and `..` folded away lexically; an absolute
/// path stays absolute.
pub open spec fn normalize_path_spec(p: Seq<char>) -> Seq<char> {
    (if p.len() > 0 && p[0] == '/' {
        "/"@
    } else {
        Seq::empty()
    }) + crate::text::join_spec(norm_parts(split_from(p, 0)), "/"@)
}

pub fn normalize_path(p: &str) -> (r: String)
    ensures
        r@ == normalize_path_spec(p@),
{
    let n = p.unicode_len();
    let mut parts: Vec<String> = Vec::new();
    let ghost mut done: Seq<Seq<char>> = seq![];
    let mut i: usize = 0;
    assert(split_from(p@, 0) =~= done + split_from(p@, 0));
    loop
        invariant_except_break
            split_from(p@, 0) == done + split_from(p@, i as int),
        invariant
            n == p@.len(),
            i <= n,
            parts@.map_values(|s: String| s@) == norm_parts(done),
        ensures
            split_from(p@, 0) == done,
            parts@.map_values(|s: String| s@) == norm_parts(done),
        decreases n - i,
    {
        proof {
            lemma_first_slash(p@, i as int);
        }
        let mut j: usize = i;
        while j < n && p.get_char(j) != '/'
            invariant
                n == p@.len(),
                i <= j <= n,
                first_slash(p@, i as int) == first_slash(p@, j as int),
            decreases n - j,
        {
            proof {
                lemma_first_slash(p@, j + 1);
            }
            j = j + 1;
        }
        let seg = p.substring_char(i, j);
        let ghost before = parts@.map_values(|s: String| s@);
        let ghost done2 = done.push(seg@);
        assert(done2.drop_last() =~= done);
        let is_dot = seg.unicode_len() == 1 && seg.get_char(0) == '.';
        let is_dotdot = seg.unicode_len() == 2 && seg.get_char(0) == '.' && seg.get_char(1) == '.';
        proof {
            if is_dot {
                assert(seg@ =~= seq!['.']);
            } else if seg@ =~= seq!['.'] {
                assert(seg@[0] == '.');
            }
            if is_dotdot {
                assert(seg@ =~= seq!['.', '.']);
            } else if seg@ =~= seq!['.', '.'] {
                assert(seg@[0] == '.' && seg@[1] == '.');
            }
        }
        if seg.unicode_len() == 0 || is_dot {
        } else if is_dotdot {
            if parts.len() > 0 {
                parts.pop();
                assert(parts@.map_values(|s: String| s@) =~= before.drop_last());
            }
        } else {
            parts.push(String::from_str(seg));
            assert(parts@.map_values(|s: String| s@) =~= before.push(seg@));
        }
        proof {
            done = done2;
        }
        if j == n {
            assert(split_from(p@, i as int) =~= seq![seg@]);
            assert(split_from(p@, 0) =~= done);
            break;
        }
        assert(split_from(p@, i as int) =~= seq![seg@] + split_from(p@, j + 1));
        assert(split_from(p@, 0) =~= done + split_from(p@, j + 1));
        i = j + 1;
    }
    let mut out = if n > 0 && p.get_char(0) == '/' {
        String::from_str("/")
    } else {
        String::new()
    };
    let j = crate::text::join(&parts, "/");
    out.append(j.as_str());
    out
}
} // verus!
