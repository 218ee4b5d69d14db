//! Stat formulas: integer expressions over stats such as `(CON + SIZ) / 2`,
//! parsed from authored text and evaluated against the current state.
//!
//! Division rounds toward zero; a division by zero evaluates to 0 (a literal
//! `/ 0` is refused when parsing).
use vstd::prelude::*;

use crate::engine::{abs_int, trunc_div};
use crate::state::{stat_spec, GameState, StateModel};
use crate::strmap::{StrSet};

verus! {

broadcast use vstd::std_specs::vec::group_vec_axioms;

/// A formula.
#[derive(Debug)]
pub enum Expr {
    Num(i64),
    /// The current value of a stat of the entity the formula is evaluated for.
    Stat(String),
    Add(Box<Expr>, Box<Expr>),
    Sub(Box<Expr>, Box<Expr>),
    Mul(Box<Expr>, Box<Expr>),
    Div(Box<Expr>, Box<Expr>),
    Neg(Box<Expr>),
}

/// The meaning of a formula: the same tree over character sequences.
pub enum ExprModel {
    Num(i64),
    Stat(Seq<char>),
    Add(Box<ExprModel>, Box<ExprModel>),
    Sub(Box<ExprModel>, Box<ExprModel>),
    Mul(Box<ExprModel>, Box<ExprModel>),
    Div(Box<ExprModel>, Box<ExprModel>),
    Neg(Box<ExprModel>),
}

pub open spec fn expr_model(e: Expr) -> ExprModel
    decreases e,
{
    match e {
        Expr::Num(n) => ExprModel::Num(n),
        Expr::Stat(k) => ExprModel::Stat(k@),
        Expr::Add(a, b) => ExprModel::Add(Box::new(expr_model(*a)), Box::new(expr_model(*b))),
        Expr::Sub(a, b) => ExprModel::Sub(Box::new(expr_model(*a)), Box::new(expr_model(*b))),
        Expr::Mul(a, b) => ExprModel::Mul(Box::new(expr_model(*a)), Box::new(expr_model(*b))),
        Expr::Div(a, b) => ExprModel::Div(Box::new(expr_model(*a)), Box::new(expr_model(*b))),
        Expr::Neg(a) => ExprModel::Neg(Box::new(expr_model(*a))),
    }
}

impl View for Expr {
    type V = ExprModel;

    open spec fn view(&self) -> ExprModel {
        expr_model(*self)
    }
}

// ---------------------------------------------------------------------------
// Evaluation.
// ---------------------------------------------------------------------------

/// The value of a formula for an entity: sums, differences and products wrap,
/// division rounds toward zero and a zero divisor gives 0.
pub open spec fn eval_spec(e: ExprModel, m: StateModel, entity: Seq<char>) -> i64
    decreases e,
{
    match e {
        ExprModel::Num(n) => n,
        ExprModel::Stat(k) => stat_spec(m, entity, k),
        ExprModel::Add(a, b) => vstd::wrapping::i64_specs::wrapping_add(
            eval_spec(*a, m, entity),
            eval_spec(*b, m, entity),
        ),
        ExprModel::Sub(a, b) => vstd::wrapping::i64_specs::wrapping_sub(
            eval_spec(*a, m, entity),
            eval_spec(*b, m, entity),
        ),
        ExprModel::Mul(a, b) => vstd::wrapping::i64_specs::wrapping_mul(
            eval_spec(*a, m, entity),
            eval_spec(*b, m, entity),
        ),
        ExprModel::Div(a, b) => {
            let d = eval_spec(*b, m, entity);
            if d == 0 {
                0
            } else {
                trunc_div(eval_spec(*a, m, entity) as int, d as int) as i64
            }
        },
        ExprModel::Neg(a) => (-eval_spec(*a, m, entity)) as i64,
    }
}

/// The formula can be evaluated without overflow: no quotient of `i64::MIN`
/// by -1 and no negation of `i64::MIN` (both abort).
pub open spec fn eval_defined(e: ExprModel, m: StateModel, entity: Seq<char>) -> bool
    decreases e,
{
    match e {
        ExprModel::Num(_) => true,
        ExprModel::Stat(_) => true,
        ExprModel::Add(a, b) => eval_defined(*a, m, entity) && eval_defined(*b, m, entity),
        ExprModel::Sub(a, b) => eval_defined(*a, m, entity) && eval_defined(*b, m, entity),
        ExprModel::Mul(a, b) => eval_defined(*a, m, entity) && eval_defined(*b, m, entity),
        ExprModel::Div(a, b) => eval_defined(*a, m, entity) && eval_defined(*b, m, entity) && !(
        eval_spec(*a, m, entity) == i64::MIN && eval_spec(*b, m, entity) == -1),
        ExprModel::Neg(a) => eval_defined(*a, m, entity) && eval_spec(*a, m, entity) != i64::MIN,
    }
}

/// The stat keys a formula reads.
pub open spec fn stats_spec(e: ExprModel) -> Set<Seq<char>>
    decreases e,
{
    match e {
        ExprModel::Num(_) => Set::empty(),
        ExprModel::Stat(k) => set![k],
        ExprModel::Add(a, b) => stats_spec(*a).union(stats_spec(*b)),
        ExprModel::Sub(a, b) => stats_spec(*a).union(stats_spec(*b)),
        ExprModel::Mul(a, b) => stats_spec(*a).union(stats_spec(*b)),
        ExprModel::Div(a, b) => stats_spec(*a).union(stats_spec(*b)),
        ExprModel::Neg(a) => stats_spec(*a),
    }
}

/// Some division has the literal 0 as its divisor.
pub open spec fn literal_div_zero(e: ExprModel) -> bool
    decreases e,
{
    match e {
        ExprModel::Div(a, b) => (*b == ExprModel::Num(0)) || literal_div_zero(*a) || literal_div_zero(*b),
        ExprModel::Add(a, b) => literal_div_zero(*a) || literal_div_zero(*b),
        ExprModel::Sub(a, b) => literal_div_zero(*a) || literal_div_zero(*b),
        ExprModel::Mul(a, b) => literal_div_zero(*a) || literal_div_zero(*b),
        ExprModel::Neg(a) => literal_div_zero(*a),
        _ => false,
    }
}

impl Expr {
    /// The value of the formula with stats read from `entity` (see `eval_spec`).
    pub fn eval(&self, state: &GameState, entity: &str) -> (v: i64)
        requires
            eval_defined(self@, state@, entity@),
        ensures
            v == eval_spec(self@, state@, entity@),
        decreases self,
    {
        match self {
            Expr::Num(n) => *n,
            Expr::Stat(key) => state.stat_of(entity, key.as_str()),
            Expr::Add(a, b) => a.eval(state, entity).wrapping_add(b.eval(state, entity)),
            Expr::Sub(a, b) => a.eval(state, entity).wrapping_sub(b.eval(state, entity)),
            Expr::Mul(a, b) => a.eval(state, entity).wrapping_mul(b.eval(state, entity)),
            Expr::Div(a, b) => {
                let d = b.eval(state, entity);
                if d == 0 {
                    0
                } else {
                    let n = a.eval(state, entity);
                    let q = crate::engine::trunc_div_i64(n, d);
                    proof {
                        lemma_trunc_div_fits(n, d);
                    }
                    q
                }
            },
            Expr::Neg(a) => -a.eval(state, entity),
        }
    }

    /// The stat keys the formula reads.
    pub fn stats(&self) -> (r: StrSet)
        ensures
            r@ == stats_spec(self@),
    {
        let mut out = StrSet::new();
        self.collect(&mut out);
        assert(out@ =~= stats_spec(self@));
        out
    }

    fn collect(&self, out: &mut StrSet)
        ensures
            final(out)@ == old(out)@.union(stats_spec(self@)),
        decreases self,
    {
        match self {
            Expr::Num(_) => {
                assert(old(out)@.union(Set::empty()) =~= old(out)@);
            },
            Expr::Stat(k) => {
                out.insert(k.clone());
                assert(old(out)@.insert(k@) =~= old(out)@.union(set![k@]));
            },
            Expr::Add(a, b) | Expr::Sub(a, b) | Expr::Mul(a, b) | Expr::Div(a, b) => {
                a.collect(out);
                b.collect(out);
                assert(final(out)@ =~= old(out)@.union(stats_spec(self@)));
            },
            Expr::Neg(a) => a.collect(out),
        }
    }
}

/// A quotient that does not overflow stays in range.
proof fn lemma_trunc_div_fits(n: i64, d: i64)
    requires
        d != 0,
        !(n == i64::MIN && d == -1),
    ensures
        crate::engine::clamp_i64(trunc_div(n as int, d as int)) == trunc_div(n as int, d as int) as i64,
        i64::MIN <= trunc_div(n as int, d as int) <= i64::MAX,
{
    let q = abs_int(n as int) / abs_int(d as int);
    assert(q <= abs_int(n as int)) by (nonlinear_arith)
        requires
            abs_int(d as int) >= 1,
            abs_int(n as int) >= 0,
            q == abs_int(n as int) / abs_int(d as int),
    ;
    if abs_int(d as int) >= 2 {
        assert(q <= abs_int(n as int) / 2) by (nonlinear_arith)
            requires
                abs_int(d as int) >= 2,
                abs_int(n as int) >= 0,
                q == abs_int(n as int) / abs_int(d as int),
        ;
    }
}

// ---------------------------------------------------------------------------
// Tokens.
// ---------------------------------------------------------------------------

/// A token of a formula.
#[derive(Debug)]
pub enum Tok {
    Num(i64),
    Ident(String),
    Plus,
    Minus,
    Star,
    Slash,
    LParen,
    RParen,
}

pub enum TokModel {
    Num(i64),
    Ident(Seq<char>),
    Plus,
    Minus,
    Star,
    Slash,
    LParen,
    RParen,
}

impl View for Tok {
    type V = TokModel;

    open spec fn view(&self) -> TokModel {
        match self {
            Tok::Num(n) => TokModel::Num(*n),
            Tok::Ident(s) => TokModel::Ident(s@),
            Tok::Plus => TokModel::Plus,
            Tok::Minus => TokModel::Minus,
            Tok::Star => TokModel::Star,
            Tok::Slash => TokModel::Slash,
            Tok::LParen => TokModel::LParen,
            Tok::RParen => TokModel::RParen,
        }
    }
}

pub open spec fn tok_views(s: Seq<Tok>) -> Seq<TokModel> {
    s.map_values(|t: Tok| t@)
}

/// Characters that end a stat name: blanks, operators (also full-width) and brackets.
pub open spec fn is_sep(c: char) -> bool {
    c == ' ' || c == '\t' || c == '+' || c == '-' || c == '*' || c == '×' || c == '/' || c == '÷'
        || c == '(' || c == '（' || c == ')' || c == '）'
}

pub open spec fn is_digit(c: char) -> bool {
    48 <= (c as u32) <= 57
}

/// The end of the run of digits starting at `i`.
pub open spec fn digits_end(s: Seq<char>, i: int) -> int
    decreases s.len() - i,
{
    if 0 <= i < s.len() && is_digit(s[i]) {
        digits_end(s, i + 1)
    } else {
        i
    }
}

/// The end of the stat name starting at `i`.
pub open spec fn word_end(s: Seq<char>, i: int) -> int
    decreases s.len() - i,
{
    if 0 <= i < s.len() && !is_sep(s[i]) {
        word_end(s, i + 1)
    } else {
        i
    }
}

pub proof fn lemma_digits_end(s: Seq<char>, i: int)
    requires
        0 <= i <= s.len(),
    ensures
        i <= digits_end(s, i) <= s.len(),
        i < s.len() && is_digit(s[i]) ==> i < digits_end(s, i),
        forall|k: int| i <= k < digits_end(s, i) ==> is_digit(#[trigger] s[k]),
        digits_end(s, i) < s.len() ==> !is_digit(s[digits_end(s, i)]),
    decreases s.len() - i,
{
    if i < s.len() && is_digit(s[i]) {
        lemma_digits_end(s, i + 1);
    }
}

pub proof fn lemma_word_end(s: Seq<char>, i: int)
    requires
        0 <= i <= s.len(),
    ensures
        i <= word_end(s, i) <= s.len(),
        i < s.len() && !is_sep(s[i]) ==> i < word_end(s, i),
        word_end(s, i) < s.len() ==> is_sep(s[word_end(s, i)]),
    decreases s.len() - i,
{
    if i < s.len() && !is_sep(s[i]) {
        lemma_word_end(s, i + 1);
    }
}

/// The decimal value of a run of digits.
pub open spec fn digits_value(d: Seq<char>) -> int
    decreases d.len(),
{
    if d.len() == 0 {
        0
    } else {
        digits_value(d.drop_last()) * 10 + ((d.last() as u32) - 48)
    }
}

pub open spec fn cons_tok(t: TokModel, r: Result<Seq<TokModel>, Seq<char>>) -> Result<Seq<TokModel>, Seq<char>> {
    match r {
        Ok(ts) => Ok(seq![t] + ts),
        Err(e) => Err(e),
    }
}

/// The tokens of the text from position `i`, or the first error.
pub open spec fn lex_from(s: Seq<char>, i: int) -> Result<Seq<TokModel>, Seq<char>>
    decreases s.len() - i,
{
    if i < 0 || i >= s.len() {
        Ok(seq![])
    } else {
        let c = s[i];
        if c == ' ' || c == '\t' {
            lex_from(s, i + 1)
        } else if c == '+' {
            cons_tok(TokModel::Plus, lex_from(s, i + 1))
        } else if c == '-' {
            cons_tok(TokModel::Minus, lex_from(s, i + 1))
        } else if c == '*' || c == '×' {
            cons_tok(TokModel::Star, lex_from(s, i + 1))
        } else if c == '/' || c == '÷' {
            cons_tok(TokModel::Slash, lex_from(s, i + 1))
        } else if c == '(' || c == '（' {
            cons_tok(TokModel::LParen, lex_from(s, i + 1))
        } else if c == ')' || c == '）' {
            cons_tok(TokModel::RParen, lex_from(s, i + 1))
        } else if is_digit(c) {
            let j = digits_end(s, i);
            proof {
                lemma_digits_end(s, i);
            }
            let d = s.subrange(i, j);
            if digits_value(d) > i64::MAX {
                Err("数値が大きすぎる: "@ + d)
            } else {
                cons_tok(TokModel::Num(digits_value(d) as i64), lex_from(s, j))
            }
        } else {
            let j = word_end(s, i);
            proof {
                lemma_word_end(s, i);
            }
            cons_tok(TokModel::Ident(s.subrange(i, j)), lex_from(s, j))
        }
    }
}

/// The tokens of a formula; an empty formula is an error.
pub open spec fn tokenize_spec(s: Seq<char>) -> Result<Seq<TokModel>, Seq<char>> {
    match lex_from(s, 0) {
        Ok(ts) => if ts.len() == 0 {
            Err("空の式"@)
        } else {
            Ok(ts)
        },
        Err(e) => Err(e),
    }
}

pub open spec fn prefix_then(p: Seq<TokModel>, r: Result<Seq<TokModel>, Seq<char>>) -> Result<Seq<TokModel>, Seq<char>> {
    match r {
        Ok(ts) => Ok(p + ts),
        Err(e) => Err(e),
    }
}

proof fn lemma_digits_value_nonneg(d: Seq<char>)
    requires
        forall|k: int| 0 <= k < d.len() ==> is_digit(#[trigger] d[k]),
    ensures
        digits_value(d) >= 0,
    decreases d.len(),
{
    if d.len() > 0 {
        lemma_digits_value_nonneg(d.drop_last());
    }
}

/// The value of the digits in `s[i..j]`, or `None` when it exceeds `i64::MAX`.
fn digits_to_i64(s: &str, i: usize, j: usize) -> (r: Option<i64>)
    requires
        i <= j <= s@.len(),
        forall|k: int| i <= k < j ==> is_digit(#[trigger] s@[k]),
    ensures
        match r {
            Some(v) => v == digits_value(s@.subrange(i as int, j as int)),
            None => digits_value(s@.subrange(i as int, j as int)) > i64::MAX,
        },
{
    let mut v: i64 = 0;
    let mut k: usize = i;
    assert(s@.subrange(i as int, i as int) =~= Seq::<char>::empty());
    while k < j
        invariant
            i <= k <= j,
            j <= s@.len(),
            forall|q: int| i <= q < j ==> is_digit(#[trigger] s@[q]),
            v == digits_value(s@.subrange(i as int, k as int)),
            v >= 0,
        decreases j - k,
    {
        let c = s.get_char(k);
        let d = (c as u32 - 48) as i64;
        assert(s@.subrange(i as int, k + 1).drop_last() =~= s@.subrange(i as int, k as int));
        assert(s@.subrange(i as int, k + 1).last() == c);
        match v.checked_mul(10) {
            Some(x) => match x.checked_add(d) {
                Some(y) => {
                    v = y;
                },
                None => {
                    proof {
                        lemma_digits_value_grows(s@.subrange(i as int, j as int), (k + 1 - i) as int);
                        assert(s@.subrange(i as int, j as int).take((k + 1 - i) as int) =~= s@.subrange(i as int, k + 1));
                    }
                    return None;
                },
            },
            None => {
                proof {
                    lemma_digits_value_grows(s@.subrange(i as int, j as int), (k + 1 - i) as int);
                    assert(s@.subrange(i as int, j as int).take((k + 1 - i) as int) =~= s@.subrange(i as int, k + 1));
                }
                return None;
            },
        }
        k = k + 1;
    }
    Some(v)
}

/// A longer run of digits never has a smaller value.
pub proof fn lemma_digits_value_grows(d: Seq<char>, n: int)
    requires
        0 <= n <= d.len(),
        forall|k: int| 0 <= k < d.len() ==> is_digit(#[trigger] d[k]),
    ensures
        digits_value(d.take(n)) <= digits_value(d),
    decreases d.len() - n,
{
    if n < d.len() {
        lemma_digits_value_grows(d, n + 1);
        assert(d.take(n + 1).drop_last() =~= d.take(n));
        lemma_digits_value_nonneg(d.take(n));
    } else {
        assert(d.take(n) =~= d);
    }
}

/// The tokens of a formula (see `tokenize_spec`).
pub fn tokenize(src: &str) -> (r: Result<Vec<Tok>, String>)
    ensures
        match r {
            Ok(ts) => tokenize_spec(src@) == Ok::<Seq<TokModel>, Seq<char>>(tok_views(ts@)),
            Err(e) => tokenize_spec(src@) == Err::<Seq<TokModel>, Seq<char>>(e@),
        },
{
    let n = src.unicode_len();
    let mut out: Vec<Tok> = Vec::new();
    let mut i: usize = 0;
    assert(tok_views(out@) =~= Seq::<TokModel>::empty());
    assert(prefix_then(seq![], lex_from(src@, 0)) == lex_from(src@, 0)) by {
        match lex_from(src@, 0) {
            Ok(ts) => {
                assert(Seq::<TokModel>::empty() + ts =~= ts);
            },
            Err(e) => {},
        }
    }
    while i < n
        invariant
            n == src@.len(),
            i <= n,
            lex_from(src@, 0) == prefix_then(tok_views(out@), lex_from(src@, i as int)),
        decreases n - i,
    {
        let c = src.get_char(i);
        let ghost p = tok_views(out@);
        if c == ' ' || c == '\t' {
            i = i + 1;
        } else if c == '+' || c == '-' || c == '*' || c == '×' || c == '/' || c == '÷' || c == '('
            || c == '（' || c == ')' || c == '）' {
            let t = if c == '+' {
                Tok::Plus
            } else if c == '-' {
                Tok::Minus
            } else if c == '*' || c == '×' {
                Tok::Star
            } else if c == '/' || c == '÷' {
                Tok::Slash
            } else if c == '(' || c == '（' {
                Tok::LParen
            } else {
                Tok::RParen
            };
            out.push(t);
            proof {
                assert(tok_views(out@) =~= p.push(t@));
                match lex_from(src@, i + 1) {
                    Ok(ts) => {
                        assert(p + (seq![t@] + ts) =~= p.push(t@) + ts);
                    },
                    Err(e) => {},
                }
            }
            i = i + 1;
        } else if (c as u32) >= 48 && (c as u32) <= 57 {
            let start = i;
            proof {
                lemma_digits_end(src@, i as int);
            }
            while i < n && (src.get_char(i) as u32) >= 48 && (src.get_char(i) as u32) <= 57
                invariant
                    n == src@.len(),
                    start <= i <= n,
                    start < n,
                    is_digit(src@[start as int]),
                    forall|k: int| start <= k < i ==> is_digit(#[trigger] src@[k]),
                    i <= digits_end(src@, start as int),
                    digits_end(src@, start as int) == digits_end(src@, i as int),
                decreases n - i,
            {
                proof {
                    lemma_digits_end(src@, i + 1);
                }
                i = i + 1;
            }
            proof {
                lemma_digits_end(src@, i as int);
            }
            match digits_to_i64(src, start, i) {
                Some(v) => {
                    let t = Tok::Num(v);
                    out.push(t);
                    proof {
                        assert(tok_views(out@) =~= p.push(t@));
                        match lex_from(src@, i as int) {
                            Ok(ts) => {
                                assert(p + (seq![t@] + ts) =~= p.push(t@) + ts);
                            },
                            Err(e) => {},
                        }
                    }
                },
                None => {
                    let mut msg = String::from_str("数値が大きすぎる: ");
                    msg.append(src.substring_char(start, i));
                    return Err(msg);
                },
            }
        } else {
            let start = i;
            proof {
                lemma_word_end(src@, i as int);
            }
            while i < n && !is_sep_exec(src.get_char(i))
                invariant
                    n == src@.len(),
                    start <= i <= n,
                    i <= word_end(src@, start as int),
                    word_end(src@, start as int) == word_end(src@, i as int),
                decreases n - i,
            {
                proof {
                    lemma_word_end(src@, i + 1);
                }
                i = i + 1;
            }
            proof {
                lemma_word_end(src@, i as int);
            }
            let t = Tok::Ident(String::from_str(src.substring_char(start, i)));
            out.push(t);
            proof {
                assert(tok_views(out@) =~= p.push(t@));
                match lex_from(src@, i as int) {
                    Ok(ts) => {
                        assert(p + (seq![t@] + ts) =~= p.push(t@) + ts);
                    },
                    Err(e) => {},
                }
            }
        }
    }
    assert(lex_from(src@, i as int) == Ok::<Seq<TokModel>, Seq<char>>(seq![]));
    assert(tok_views(out@) + seq![] =~= tok_views(out@));
    if out.len() == 0 {
        return Err(String::from_str("空の式"));
    }
    Ok(out)
}

fn is_sep_exec(c: char) -> (b: bool)
    ensures
        b == is_sep(c),
{
    c == ' ' || c == '\t' || c == '+' || c == '-' || c == '*' || c == '×' || c == '/' || c == '÷'
        || c == '(' || c == '（' || c == ')' || c == '）'
}

// ---------------------------------------------------------------------------
// Parsing, as mathematics.
//
//   expr   := term (('+'|'-') term)*
//   term   := factor (('*'|'/') factor)*
//   factor := number | stat | '(' expr ')' | '-' factor
//
// Each function gives the formula read from position `pos` and the position
// after it, or an error message. Results never move backwards.
// ---------------------------------------------------------------------------

pub type Parsed = Result<(ExprModel, int), Seq<char>>;

pub open spec fn misplaced(t: TokModel) -> Seq<char> {
    "式のこの位置に置けない要素: "@ + match t {
        TokModel::Plus => "Plus"@,
        TokModel::Star => "Star"@,
        TokModel::Slash => "Slash"@,
        TokModel::RParen => "RParen"@,
        TokModel::Minus => "Minus"@,
        TokModel::LParen => "LParen"@,
        TokModel::Num(_) => "Num"@,
        TokModel::Ident(_) => "Ident"@,
    }
}

pub open spec fn parse_factor_spec(t: Seq<TokModel>, pos: int) -> Parsed
    decreases t.len() - pos, 1int,
{
    if pos < 0 || pos >= t.len() {
        Err("式が途中で終わっている"@)
    } else {
        match t[pos] {
            TokModel::Num(n) => Ok((ExprModel::Num(n), pos + 1)),
            TokModel::Ident(name) => Ok((ExprModel::Stat(name), pos + 1)),
            TokModel::Minus => match parse_factor_spec(t, pos + 1) {
                Ok((e, p)) => Ok((ExprModel::Neg(Box::new(e)), p)),
                Err(m) => Err(m),
            },
            TokModel::LParen => match parse_add_spec(t, pos + 1) {
                Ok((e, p)) => if 0 <= p < t.len() && t[p] == TokModel::RParen {
                    Ok((e, p + 1))
                } else {
                    Err("閉じ括弧が無い"@)
                },
                Err(m) => Err(m),
            },
            other => Err(misplaced(other)),
        }
    }
}

pub open spec fn parse_mul_spec(t: Seq<TokModel>, pos: int) -> Parsed
    decreases t.len() - pos, 3int,
{
    match parse_factor_spec(t, pos) {
        Err(m) => Err(m),
        Ok((l, p)) => if p < pos || p > t.len() {
            Err(seq![])
        } else {
            mul_tail(t, l, p)
        },
    }
}

/// `left` followed by `* factor` or `/ factor` as long as they come.
pub open spec fn mul_tail(t: Seq<TokModel>, left: ExprModel, p: int) -> Parsed
    decreases t.len() - p, 2int,
{
    if p < 0 || p >= t.len() {
        Ok((left, p))
    } else if t[p] == TokModel::Star || t[p] == TokModel::Slash {
        match parse_factor_spec(t, p + 1) {
            Err(m) => Err(m),
            Ok((r, p2)) => if p2 <= p || p2 > t.len() {
                Err(seq![])
            } else if t[p] == TokModel::Star {
                mul_tail(t, ExprModel::Mul(Box::new(left), Box::new(r)), p2)
            } else {
                mul_tail(t, ExprModel::Div(Box::new(left), Box::new(r)), p2)
            },
        }
    } else {
        Ok((left, p))
    }
}

pub open spec fn parse_add_spec(t: Seq<TokModel>, pos: int) -> Parsed
    decreases t.len() - pos, 5int,
{
    match parse_mul_spec(t, pos) {
        Err(m) => Err(m),
        Ok((l, p)) => if p < pos || p > t.len() {
            Err(seq![])
        } else {
            add_tail(t, l, p)
        },
    }
}

/// `left` followed by `+ term` or `- term` as long as they come.
pub open spec fn add_tail(t: Seq<TokModel>, left: ExprModel, p: int) -> Parsed
    decreases t.len() - p, 4int,
{
    if p < 0 || p >= t.len() {
        Ok((left, p))
    } else if t[p] == TokModel::Plus || t[p] == TokModel::Minus {
        match parse_mul_spec(t, p + 1) {
            Err(m) => Err(m),
            Ok((r, p2)) => if p2 <= p || p2 > t.len() {
                Err(seq![])
            } else if t[p] == TokModel::Plus {
                add_tail(t, ExprModel::Add(Box::new(left), Box::new(r)), p2)
            } else {
                add_tail(t, ExprModel::Sub(Box::new(left), Box::new(r)), p2)
            },
        }
    } else {
        Ok((left, p))
    }
}

/// A whole formula: its tokens, one expression using all of them, and no
/// literal division by zero.
pub open spec fn parse_expr_spec(s: Seq<char>) -> Result<ExprModel, Seq<char>> {
    match tokenize_spec(s) {
        Err(m) => Err(m),
        Ok(t) => match parse_add_spec(t, 0) {
            Err(m) => Err(m),
            Ok((e, p)) => if p != t.len() {
                Err("式の途中に解釈できない残りがある: "@ + s)
            } else if literal_div_zero(e) {
                Err("ゼロ除算を含む式: "@ + s)
            } else {
                Ok(e)
            },
        },
    }
}

/// An exec parse result matches a spec parse result and moves forward.
pub open spec fn parsed_as(r: Result<(Expr, usize), String>, spec: Parsed, pos: int, len: int) -> bool {
    match r {
        Ok((e, p)) => spec == Parsed::Ok((e@, p as int)) && pos < p <= len,
        Err(m) => spec == Parsed::Err(m@),
    }
}

// ---------------------------------------------------------------------------
// Parsing.
// ---------------------------------------------------------------------------

fn is_tok(t: &Tok, which: u8) -> (b: bool)
    ensures
        b == match which {
            0 => t@ == TokModel::Plus,
            1 => t@ == TokModel::Minus,
            2 => t@ == TokModel::Star,
            3 => t@ == TokModel::Slash,
            _ => t@ == TokModel::RParen,
        },
{
    match t {
        Tok::Plus => which == 0,
        Tok::Minus => which == 1,
        Tok::Star => which == 2,
        Tok::Slash => which == 3,
        Tok::RParen => which >= 4,
        _ => false,
    }
}

fn parse_factor(t: &Vec<Tok>, pos: usize) -> (r: Result<(Expr, usize), String>)
    requires
        pos <= t@.len(),
    ensures
        parsed_as(r, parse_factor_spec(tok_views(t@), pos as int), pos as int, t@.len() as int),
    decreases t@.len() - pos, 1int,
{
    let ghost tv = tok_views(t@);
    if pos >= t.len() {
        return Err(String::from_str("式が途中で終わっている"));
    }
    assert(tv[pos as int] == t@[pos as int]@);
    match &t[pos] {
        Tok::Num(n) => Ok((Expr::Num(*n), pos + 1)),
        Tok::Ident(name) => Ok((Expr::Stat(name.clone()), pos + 1)),
        Tok::Minus => match parse_factor(t, pos + 1) {
            Ok((e, p)) => Ok((Expr::Neg(Box::new(e)), p)),
            Err(m) => Err(m),
        },
        Tok::LParen => match parse_add(t, pos + 1) {
            Ok((e, p)) => {
                if p < t.len() && is_tok(&t[p], 4) {
                    assert(tv[p as int] == t@[p as int]@);
                    Ok((e, p + 1))
                } else {
                    proof {
                        if p < t@.len() {
                            assert(tv[p as int] == t@[p as int]@);
                        }
                    }
                    Err(String::from_str("閉じ括弧が無い"))
                }
            },
            Err(m) => Err(m),
        },
        Tok::Plus => {
            let mut m = String::from_str("式のこの位置に置けない要素: ");
            m.append("Plus");
            Err(m)
        },
        Tok::Star => {
            let mut m = String::from_str("式のこの位置に置けない要素: ");
            m.append("Star");
            Err(m)
        },
        Tok::Slash => {
            let mut m = String::from_str("式のこの位置に置けない要素: ");
            m.append("Slash");
            Err(m)
        },
        Tok::RParen => {
            let mut m = String::from_str("式のこの位置に置けない要素: ");
            m.append("RParen");
            Err(m)
        },
    }
}

fn parse_mul(t: &Vec<Tok>, pos: usize) -> (r: Result<(Expr, usize), String>)
    requires
        pos <= t@.len(),
    ensures
        parsed_as(r, parse_mul_spec(tok_views(t@), pos as int), pos as int, t@.len() as int),
    decreases t@.len() - pos, 3int,
{
    let ghost tv = tok_views(t@);
    let (mut left, mut p) = match parse_factor(t, pos) {
        Ok(x) => x,
        Err(m) => {
            return Err(m);
        },
    };
    while p < t.len()
        invariant
            pos < p <= t@.len(),
            tv == tok_views(t@),
            mul_tail(tv, left@, p as int) == parse_mul_spec(tv, pos as int),
        ensures
            pos < p <= t@.len(),
            mul_tail(tv, left@, p as int) == parse_mul_spec(tv, pos as int),
            mul_tail(tv, left@, p as int) == Parsed::Ok((left@, p as int)),
        decreases t@.len() - p,
    {
        assert(tv[p as int] == t@[p as int]@);
        let star = is_tok(&t[p], 2);
        let slash = is_tok(&t[p], 3);
        if !star && !slash {
            break;
        }
        match parse_factor(t, p + 1) {
            Ok((r, p2)) => {
                left = if star {
                    Expr::Mul(Box::new(left), Box::new(r))
                } else {
                    Expr::Div(Box::new(left), Box::new(r))
                };
                p = p2;
            },
            Err(m) => {
                return Err(m);
            },
        }
    }
    Ok((left, p))
}

fn parse_add(t: &Vec<Tok>, pos: usize) -> (r: Result<(Expr, usize), String>)
    requires
        pos <= t@.len(),
    ensures
        parsed_as(r, parse_add_spec(tok_views(t@), pos as int), pos as int, t@.len() as int),
    decreases t@.len() - pos, 5int,
{
    let ghost tv = tok_views(t@);
    let (mut left, mut p) = match parse_mul(t, pos) {
        Ok(x) => x,
        Err(m) => {
            return Err(m);
        },
    };
    while p < t.len()
        invariant
            pos < p <= t@.len(),
            tv == tok_views(t@),
            add_tail(tv, left@, p as int) == parse_add_spec(tv, pos as int),
        ensures
            pos < p <= t@.len(),
            add_tail(tv, left@, p as int) == parse_add_spec(tv, pos as int),
            add_tail(tv, left@, p as int) == Parsed::Ok((left@, p as int)),
        decreases t@.len() - p,
    {
        assert(tv[p as int] == t@[p as int]@);
        let plus = is_tok(&t[p], 0);
        let minus = is_tok(&t[p], 1);
        if !plus && !minus {
            break;
        }
        match parse_mul(t, p + 1) {
            Ok((r, p2)) => {
                left = if plus {
                    Expr::Add(Box::new(left), Box::new(r))
                } else {
                    Expr::Sub(Box::new(left), Box::new(r))
                };
                p = p2;
            },
            Err(m) => {
                return Err(m);
            },
        }
    }
    Ok((left, p))
}

fn has_literal_div_zero(e: &Expr) -> (b: bool)
    ensures
        b == literal_div_zero(e@),
    decreases e,
{
    match e {
        Expr::Div(a, b) => {
            let zero = match &**b {
                Expr::Num(n) => *n == 0,
                _ => false,
            };
            assert(e@ == ExprModel::Div(Box::new(expr_model(**a)), Box::new(expr_model(**b))));
            assert(zero == (expr_model(**b) == ExprModel::Num(0)));
            zero || has_literal_div_zero(a) || has_literal_div_zero(b)
        },
        Expr::Add(a, b) | Expr::Sub(a, b) | Expr::Mul(a, b) => has_literal_div_zero(a)
            || has_literal_div_zero(b),
        Expr::Neg(a) => has_literal_div_zero(a),
        _ => false,
    }
}

/// Parses a formula (see `parse_expr_spec` for the grammar and the errors).
pub fn parse_expr(src: &str) -> (r: Result<Expr, String>)
    ensures
        match r {
            Ok(e) => parse_expr_spec(src@) == Ok::<ExprModel, Seq<char>>(e@),
            Err(m) => parse_expr_spec(src@) == Err::<ExprModel, Seq<char>>(m@),
        },
{
    let tokens = match tokenize(src) {
        Ok(t) => t,
        Err(m) => {
            return Err(m);
        },
    };
    let (e, pos) = match parse_add(&tokens, 0) {
        Ok(x) => x,
        Err(m) => {
            return Err(m);
        },
    };
    if pos != tokens.len() {
        let mut m = String::from_str("式の途中に解釈できない残りがある: ");
        m.append(src);
        return Err(m);
    }
    if has_literal_div_zero(&e) {
        let mut m = String::from_str("ゼロ除算を含む式: ");
        m.append(src);
        return Err(m);
    }
    Ok(e)
}

} // verus!
