use vstd::prelude::*;

use crate::text::{
    chars_of, float_literal, foreign_to_floats, insert_sorted, lemma_float_literal_excludes, is_float_literal, lemma_insert_sorted,
    lemma_str_lt_irrefl, lemma_str_lt_total, lemma_str_lt_trans, slice_chars, sort_strs,
    str_lt, str_lt_chars, strictly_sorted, string_of, trim, trim_chars,
};

verus! {

// ============================================================
// Expressions
// ============================================================

/// An expression of the equation language. A number is kept as the literal
/// that it was read from (text that reads as an `f64`).
#[derive(Debug, PartialEq)]
pub enum Expr {
    Number(String),
    Symbol(String),
    Neg(Box<Expr>),
    Add(Box<Expr>, Box<Expr>),
    Sub(Box<Expr>, Box<Expr>),
    Mul(Box<Expr>, Box<Expr>),
    Div(Box<Expr>, Box<Expr>),
    Pow(Box<Expr>, Box<Expr>),
    Eq(Box<Expr>, Box<Expr>),
}

/// An expression as plain values.
pub enum ExprView {
    Number(Seq<char>),
    Symbol(Seq<char>),
    Neg(Box<ExprView>),
    Add(Box<ExprView>, Box<ExprView>),
    Sub(Box<ExprView>, Box<ExprView>),
    Mul(Box<ExprView>, Box<ExprView>),
    Div(Box<ExprView>, Box<ExprView>),
    Pow(Box<ExprView>, Box<ExprView>),
    Eq(Box<ExprView>, Box<ExprView>),
}

impl Expr {
    pub open spec fn view(&self) -> ExprView
        decreases self,
    {
        match self {
            Expr::Number(s) => ExprView::Number(s@),
            Expr::Symbol(s) => ExprView::Symbol(s@),
            Expr::Neg(a) => ExprView::Neg(Box::new(a.view())),
            Expr::Add(a, b) => ExprView::Add(Box::new(a.view()), Box::new(b.view())),
            Expr::Sub(a, b) => ExprView::Sub(Box::new(a.view()), Box::new(b.view())),
            Expr::Mul(a, b) => ExprView::Mul(Box::new(a.view()), Box::new(b.view())),
            Expr::Div(a, b) => ExprView::Div(Box::new(a.view()), Box::new(b.view())),
            Expr::Pow(a, b) => ExprView::Pow(Box::new(a.view()), Box::new(b.view())),
            Expr::Eq(a, b) => ExprView::Eq(Box::new(a.view()), Box::new(b.view())),
        }
    }
}

// ============================================================
// Reading one side of an equation
// ============================================================

/// The Unicode `Alphabetic` property of a character.
pub uninterp spec fn alphabetic(c: char) -> bool;

/// `char::is_alphabetic`: whether `c` has the Unicode `Alphabetic`
/// property. Only that the answer depends on `c` alone is claimed; the
/// property's table is Unicode's.
#[verifier::external_body]
fn is_alphabetic(c: char) -> (r: bool)
    ensures
        r == alphabetic(c),
{
    c.is_alphabetic()
}

/// `s` with every `' '` removed.
pub open spec fn remove_spaces(s: Seq<char>) -> Seq<char>
    decreases s.len(),
{
    if s.len() == 0 {
        seq![]
    } else if s.last() == ' ' {
        remove_spaces(s.drop_last())
    } else {
        remove_spaces(s.drop_last()).push(s.last())
    }
}

/// The index of the last `c` in `s`.
pub open spec fn rfind(s: Seq<char>, c: char) -> Option<int>
    decreases s.len(),
{
    if s.len() == 0 {
        None
    } else if s.last() == c {
        Some(s.len() - 1)
    } else {
        rfind(s.drop_last(), c)
    }
}

pub proof fn lemma_rfind(s: Seq<char>, c: char)
    ensures
        match rfind(s, c) {
            Some(p) => 0 <= p < s.len() && s[p] == c && forall|j: int| p < j < s.len() ==> s[j] != c,
            None => forall|j: int| 0 <= j < s.len() ==> s[j] != c,
        },
    decreases s.len(),
{
    if s.len() > 0 {
        let t = s.drop_last();
        lemma_rfind(t, c);
        assert forall|j: int| 0 <= j < t.len() implies t[j] == s[j] by {}
    }
}

/// Every character is alphabetic or `_` (so the empty text qualifies).
pub open spec fn symbol_text(s: Seq<char>) -> bool {
    forall|i: int| 0 <= i < s.len() ==> alphabetic(#[trigger] s[i]) || s[i] == '_'
}

/// The literal that a division's exponent is written with.
pub open spec fn minus_one() -> Seq<char> {
    seq!['-', '1']
}

/// Both sides read, combined by `f`; nothing where either side fails.
pub open spec fn both(
    a: Option<ExprView>,
    b: Option<ExprView>,
    f: spec_fn(ExprView, ExprView) -> ExprView,
) -> Option<ExprView> {
    match (a, b) {
        (Some(x), Some(y)) => Some(f(x, y)),
        _ => None,
    }
}

pub open spec fn mk_add() -> spec_fn(ExprView, ExprView) -> ExprView {
    |x: ExprView, y: ExprView| ExprView::Add(Box::new(x), Box::new(y))
}

pub open spec fn mk_sub() -> spec_fn(ExprView, ExprView) -> ExprView {
    |x: ExprView, y: ExprView| ExprView::Sub(Box::new(x), Box::new(y))
}

pub open spec fn mk_mul() -> spec_fn(ExprView, ExprView) -> ExprView {
    |x: ExprView, y: ExprView| ExprView::Mul(Box::new(x), Box::new(y))
}

/// `x / y` is read as `x * y ^ -1`.
pub open spec fn mk_div() -> spec_fn(ExprView, ExprView) -> ExprView {
    |x: ExprView, y: ExprView|
        ExprView::Mul(
            Box::new(x),
            Box::new(ExprView::Pow(Box::new(y), Box::new(ExprView::Number(minus_one())))),
        )
}

pub open spec fn mk_pow() -> spec_fn(ExprView, ExprView) -> ExprView {
    |x: ExprView, y: ExprView| ExprView::Pow(Box::new(x), Box::new(y))
}

/// Text without spaces read as a term: a number where it reads as an `f64`;
/// else split at the last `+`, the last `-` (not at the start), the last
/// `*`, the last `/`, the last `^`, in that order of preference; else a
/// symbol where it is made of letters and `_`.
pub open spec fn parse_terms(t: Seq<char>) -> Option<ExprView>
    decreases t.len(),
{
    proof {
        lemma_rfind(t, '+');
        lemma_rfind(t, '-');
        lemma_rfind(t, '*');
        lemma_rfind(t, '/');
        lemma_rfind(t, '^');
    }
    if float_literal(t) {
        Some(ExprView::Number(t))
    } else if let Some(p) = rfind(t, '+') {
        both(parse_terms(t.take(p)), parse_terms(t.skip(p + 1)), mk_add())
    } else if rfind(t, '-') is Some && rfind(t, '-')->0 > 0 {
        let p = rfind(t, '-')->0;
        both(parse_terms(t.take(p)), parse_terms(t.skip(p + 1)), mk_sub())
    } else if let Some(p) = rfind(t, '*') {
        both(parse_terms(t.take(p)), parse_terms(t.skip(p + 1)), mk_mul())
    } else if let Some(p) = rfind(t, '/') {
        both(parse_terms(t.take(p)), parse_terms(t.skip(p + 1)), mk_div())
    } else if let Some(p) = rfind(t, '^') {
        both(parse_terms(t.take(p)), parse_terms(t.skip(p + 1)), mk_pow())
    } else if symbol_text(t) {
        Some(ExprView::Symbol(t))
    } else {
        None
    }
}

proof fn lemma_rfind_absent(a: Seq<char>, op: char, b: Seq<char>, c: char)
    requires
        c != op,
        forall|i: int| 0 <= i < a.len() ==> a[i] != c,
        forall|i: int| 0 <= i < b.len() ==> b[i] != c,
    ensures
        rfind(a + seq![op] + b, c) is None,
{
    let t = a + seq![op] + b;
    lemma_rfind(t, c);
    if let Some(p) = rfind(t, c) {
        if p < a.len() {
            assert(t[p] == a[p]);
        } else if p > a.len() {
            assert(t[p] == b[p - a.len() - 1]);
        }
    }
}

proof fn lemma_split_at_last(a: Seq<char>, op: char, b: Seq<char>)
    requires
        forall|i: int| 0 <= i < b.len() ==> b[i] != op,
    ensures
        foreign_to_floats(op) ==> !float_literal(a + seq![op] + b),
        rfind(a + seq![op] + b, op) == Some(a.len() as int),
        (a + seq![op] + b).take(a.len() as int) =~= a,
        (a + seq![op] + b).skip(a.len() as int + 1) =~= b,
{
    let t = a + seq![op] + b;
    assert(t[a.len() as int] == op);
    if foreign_to_floats(op) {
        lemma_float_literal_excludes(t, a.len() as int);
    }
    lemma_rfind(t, op);
    if let Some(p) = rfind(t, op) {
        if p > a.len() {
            assert(t[p] == b[p - a.len() - 1]);
        }
    }
}

/// Text that reads as a float literal is a number, whatever signs or
/// exponent letters it holds (`1e+5` and `-2.5e-3` are numbers, never sums
/// or differences).
pub proof fn law_parse_float_text_is_number(t: Seq<char>)
    requires
        float_literal(t),
    ensures
        parse_terms(t) == Some(ExprView::Number(t)),
{
}

/// Sums bind loosest and group from the left: text that is no float
/// literal, with a `+` after which no `+` comes, reads as the text before
/// that `+` plus the text after it.
pub proof fn law_parse_addition_splits_last(a: Seq<char>, b: Seq<char>)
    requires
        !float_literal(a + seq!['+'] + b),
        forall|i: int| 0 <= i < b.len() ==> b[i] != '+',
    ensures
        parse_terms(a + seq!['+'] + b) == both(parse_terms(a), parse_terms(b), mk_add()),
{
    lemma_split_at_last(a, '+', b);
}

/// With no `+`, text that is no float literal, with a `-` after some
/// text and no `-` after it, reads as the text before that `-` minus the
/// text after it (`a-b-c` is `(a-b)-c`).
pub proof fn law_parse_subtraction_splits_last(a: Seq<char>, b: Seq<char>)
    requires
        !float_literal(a + seq!['-'] + b),
        a.len() > 0,
        forall|i: int| 0 <= i < a.len() ==> a[i] != '+',
        forall|i: int| 0 <= i < b.len() ==> b[i] != '+' && b[i] != '-',
    ensures
        parse_terms(a + seq!['-'] + b) == both(parse_terms(a), parse_terms(b), mk_sub()),
{
    lemma_split_at_last(a, '-', b);
    lemma_rfind_absent(a, '-', b, '+');
}

/// Products bind tighter than sums and differences: text with no `+` or
/// `-`, and a `*` after which no `*` comes, reads as the text before that
/// `*` times the text after it, whatever `/` or `^` either part holds.
pub proof fn law_parse_product_splits_last(a: Seq<char>, b: Seq<char>)
    requires
        forall|i: int| 0 <= i < a.len() ==> a[i] != '+' && a[i] != '-',
        forall|i: int| 0 <= i < b.len() ==> b[i] != '+' && b[i] != '-' && b[i] != '*',
    ensures
        parse_terms(a + seq!['*'] + b) == both(parse_terms(a), parse_terms(b), mk_mul()),
{
    lemma_split_at_last(a, '*', b);
    lemma_rfind_absent(a, '*', b, '+');
    lemma_rfind_absent(a, '*', b, '-');
}

/// Division binds looser than power: text with no `+`, `-` or `*`, and a
/// `/` after which no `/` comes, reads as the text before that `/` divided
/// by the text after it, whatever `^` either part holds (`a^b/c` is
/// `a^b * c^-1`, never `a^(b/c)`).
pub proof fn law_parse_division_splits_last(a: Seq<char>, b: Seq<char>)
    requires
        forall|i: int| 0 <= i < a.len() ==> a[i] != '+' && a[i] != '-' && a[i] != '*',
        forall|i: int| 0 <= i < b.len() ==> b[i] != '+' && b[i] != '-' && b[i] != '*' && b[i] != '/',
    ensures
        parse_terms(a + seq!['/'] + b) == both(parse_terms(a), parse_terms(b), mk_div()),
{
    lemma_split_at_last(a, '/', b);
    lemma_rfind_absent(a, '/', b, '+');
    lemma_rfind_absent(a, '/', b, '-');
    lemma_rfind_absent(a, '/', b, '*');
}

/// Power binds tightest and groups from the left: text with no `+`, `-`,
/// `*` or `/`, and a `^` after which no `^` comes, reads as the text before
/// that `^` raised to the text after it.
pub proof fn law_parse_power_splits_last(a: Seq<char>, b: Seq<char>)
    requires
        forall|i: int| 0 <= i < a.len() ==> a[i] != '+' && a[i] != '-' && a[i] != '*' && a[i] != '/',
        forall|i: int|
            0 <= i < b.len() ==> b[i] != '+' && b[i] != '-' && b[i] != '*' && b[i] != '/' && b[i] != '^',
    ensures
        parse_terms(a + seq!['^'] + b) == both(parse_terms(a), parse_terms(b), mk_pow()),
{
    lemma_split_at_last(a, '^', b);
    lemma_rfind_absent(a, '^', b, '+');
    lemma_rfind_absent(a, '^', b, '-');
    lemma_rfind_absent(a, '^', b, '*');
    lemma_rfind_absent(a, '^', b, '/');
}

/// One side of an equation read: spaces removed, then read as a term.
pub open spec fn parse_side_spec(s: Seq<char>) -> Option<ExprView> {
    parse_terms(remove_spaces(s))
}

fn remove_spaces_chars(s: &[char]) -> (r: Vec<char>)
    ensures
        r@ == remove_spaces(s@),
{
    let mut r: Vec<char> = Vec::new();
    let mut i: usize = 0;
    while i < s.len()
        invariant
            i <= s@.len(),
            r@ == remove_spaces(s@.take(i as int)),
        decreases s@.len() - i,
    {
        assert(s@.take(i + 1).drop_last() =~= s@.take(i as int));
        if s[i] != ' ' {
            r.push(s[i]);
        }
        i = i + 1;
    }
    assert(s@.take(i as int) =~= s@);
    r
}

fn rfind_chars(s: &[char], c: char) -> (r: Option<usize>)
    ensures
        match r {
            Some(p) => rfind(s@, c) == Some(p as int),
            None => rfind(s@, c) is None,
        },
{
    let mut k: usize = s.len();
    assert(s@.take(k as int) =~= s@);
    while k > 0 && s[k - 1] != c
        invariant
            k <= s@.len(),
            rfind(s@, c) == rfind(s@.take(k as int), c),
        decreases k,
    {
        assert(s@.take(k as int).drop_last() =~= s@.take(k - 1));
        k = k - 1;
    }
    if k == 0 {
        assert(s@.take(0) =~= Seq::<char>::empty());
        None
    } else {
        assert(s@.take(k as int).last() == s@[k - 1]);
        Some(k - 1)
    }
}

fn symbol_text_exec(t: &[char]) -> (r: bool)
    ensures
        r == symbol_text(t@),
{
    let mut i: usize = 0;
    while i < t.len()
        invariant
            i <= t@.len(),
            forall|j: int| 0 <= j < i ==> alphabetic(#[trigger] t@[j]) || t@[j] == '_',
        decreases t@.len() - i,
    {
        if !(is_alphabetic(t[i]) || t[i] == '_') {
            return false;
        }
        i = i + 1;
    }
    true
}

/// The two sides of `t` around index `p`, each read as a term.
fn split_at(t: &[char], p: usize) -> (r: (Option<Expr>, Option<Expr>))
    requires
        p < t@.len(),
    ensures
        (r.0 matches Some(x) ==> parse_terms(t@.take(p as int)) == Some(x.view())),
        (r.0 is None ==> parse_terms(t@.take(p as int)) is None),
        (r.1 matches Some(x) ==> parse_terms(t@.skip(p + 1)) == Some(x.view())),
        (r.1 is None ==> parse_terms(t@.skip(p + 1)) is None),
    decreases t@.len(), 0nat,
{
    let n = t.len();
    let left = slice_chars(t, 0, p);
    let right = slice_chars(t, p + 1, n);
    assert(left@ =~= t@.take(p as int));
    assert(right@ =~= t@.skip(p + 1));
    (parse_terms_chars(left.as_slice()), parse_terms_chars(right.as_slice()))
}

fn parse_terms_chars(t: &[char]) -> (r: Option<Expr>)
    ensures
        (r matches Some(x) ==> parse_terms(t@) == Some(x.view())),
        (r is None ==> parse_terms(t@) is None),
    decreases t@.len(), 1nat,
{
    proof {
        lemma_rfind(t@, '+');
        lemma_rfind(t@, '-');
        lemma_rfind(t@, '*');
        lemma_rfind(t@, '/');
        lemma_rfind(t@, '^');
    }
    if is_float_literal(t) {
        return Some(Expr::Number(string_of(t)));
    }
    if let Some(p) = rfind_chars(t, '+') {
        let (a, b) = split_at(t, p);
        return match (a, b) {
            (Some(x), Some(y)) => Some(Expr::Add(Box::new(x), Box::new(y))),
            _ => None,
        };
    }
    if let Some(p) = rfind_chars(t, '-') {
        if p > 0 {
            let (a, b) = split_at(t, p);
            return match (a, b) {
                (Some(x), Some(y)) => Some(Expr::Sub(Box::new(x), Box::new(y))),
                _ => None,
            };
        }
    }
    if let Some(p) = rfind_chars(t, '*') {
        let (a, b) = split_at(t, p);
        return match (a, b) {
            (Some(x), Some(y)) => Some(Expr::Mul(Box::new(x), Box::new(y))),
            _ => None,
        };
    }
    if let Some(p) = rfind_chars(t, '/') {
        let (a, b) = split_at(t, p);
        return match (a, b) {
            (Some(x), Some(y)) => {
                let m = String::from_str("-1");
                proof {
                    reveal_strlit("-1");
                    assert(m@ =~= minus_one());
                }
                let ghost xv = x.view();
                let ghost yv = y.view();
                let num = Expr::Number(m);
                assert(num.view() == ExprView::Number(minus_one()));
                let pw = Expr::Pow(Box::new(y), Box::new(num));
                assert(pw.view() == ExprView::Pow(
                    Box::new(yv),
                    Box::new(ExprView::Number(minus_one())),
                ));
                let e = Expr::Mul(Box::new(x), Box::new(pw));
                assert(e.view() == (mk_div())(xv, yv));
                Some(e)
            },
            _ => None,
        };
    }
    if let Some(p) = rfind_chars(t, '^') {
        let (a, b) = split_at(t, p);
        return match (a, b) {
            (Some(x), Some(y)) => Some(Expr::Pow(Box::new(x), Box::new(y))),
            _ => None,
        };
    }
    if symbol_text_exec(t) {
        Some(Expr::Symbol(string_of(t)))
    } else {
        None
    }
}

/// Reads one side of an equation such as `5`, `a`, `a + b` or `a * b`:
/// spaces are dropped, then `parse_terms`.
pub fn parse_side(s: &str) -> (r: Option<Expr>)
    ensures
        (r matches Some(x) ==> parse_side_spec(s@) == Some(x.view())),
        (r is None ==> parse_side_spec(s@) is None),
{
    let v = chars_of(s);
    let t = remove_spaces_chars(v.as_slice());
    parse_terms_chars(t.as_slice())
}

// ============================================================
// Reading an equation
// ============================================================

/// How many times `c` occurs in `s`.
pub open spec fn count_char(s: Seq<char>, c: char) -> nat
    decreases s.len(),
{
    if s.len() == 0 {
        0
    } else {
        count_char(s.drop_last(), c) + if s.last() == c {
            1nat
        } else {
            0nat
        }
    }
}

/// An equation `lhs = rhs` with exactly one `=`; each side trimmed and read
/// with `parse_side_spec`.
pub open spec fn parse_eq_spec(s: Seq<char>) -> Option<ExprView> {
    if count_char(s, '=') != 1 {
        None
    } else {
        let p = rfind(s, '=')->0;
        match (parse_side_spec(trim(s.take(p))), parse_side_spec(trim(s.skip(p + 1)))) {
            (Some(l), Some(r)) => Some(ExprView::Eq(Box::new(l), Box::new(r))),
            _ => None,
        }
    }
}

proof fn lemma_count_rfind(s: Seq<char>, c: char)
    ensures
        count_char(s, c) > 0 <==> rfind(s, c) is Some,
    decreases s.len(),
{
    if s.len() > 0 {
        lemma_count_rfind(s.drop_last(), c);
    }
}

/// Reads an equation such as `a + b = 10`.
pub fn parse_simple_eq(input: &str) -> (r: Option<Expr>)
    ensures
        (r matches Some(x) ==> parse_eq_spec(input@) == Some(x.view())),
        (r is None ==> parse_eq_spec(input@) is None),
{
    let s = chars_of(input);
    let mut n: usize = 0;
    let mut i: usize = 0;
    while i < s.len()
        invariant
            i <= s@.len(),
            n == count_char(s@.take(i as int), '='),
            n <= i,
        decreases s@.len() - i,
    {
        assert(s@.take(i + 1).drop_last() =~= s@.take(i as int));
        if s[i] == '=' {
            n = n + 1;
        }
        i = i + 1;
    }
    assert(s@.take(i as int) =~= s@);
    if n != 1 {
        return None;
    }
    proof {
        lemma_count_rfind(s@, '=');
        lemma_rfind(s@, '=');
    }
    let p = match rfind_chars(s.as_slice(), '=') {
        Some(p) => p,
        None => {
            return None;
        },
    };
    let left = slice_chars(s.as_slice(), 0, p);
    let right = slice_chars(s.as_slice(), p + 1, s.len());
    assert(left@ =~= s@.take(p as int));
    assert(right@ =~= s@.skip(p + 1));
    let lt = trim_chars(left.as_slice());
    let rt = trim_chars(right.as_slice());
    let lc = remove_spaces_chars(lt.as_slice());
    let rc = remove_spaces_chars(rt.as_slice());
    let l = parse_terms_chars(lc.as_slice());
    let r = parse_terms_chars(rc.as_slice());
    match (l, r) {
        (Some(a), Some(b)) => Some(Expr::Eq(Box::new(a), Box::new(b))),
        _ => None,
    }
}

// ============================================================
// Symbols of an expression
// ============================================================

/// The symbols of an expression, left to right, with repeats.
pub open spec fn collect_syms(e: ExprView) -> Seq<Seq<char>>
    decreases e,
{
    match e {
        ExprView::Number(_) => seq![],
        ExprView::Symbol(s) => seq![s],
        ExprView::Neg(a) => collect_syms(*a),
        ExprView::Add(a, b) => collect_syms(*a) + collect_syms(*b),
        ExprView::Sub(a, b) => collect_syms(*a) + collect_syms(*b),
        ExprView::Mul(a, b) => collect_syms(*a) + collect_syms(*b),
        ExprView::Div(a, b) => collect_syms(*a) + collect_syms(*b),
        ExprView::Pow(a, b) => collect_syms(*a) + collect_syms(*b),
        ExprView::Eq(a, b) => collect_syms(*a) + collect_syms(*b),
    }
}

/// `s` with each run of equal neighbours kept once (`Vec::dedup`).
pub open spec fn dedup_runs(s: Seq<Seq<char>>) -> Seq<Seq<char>>
    decreases s.len(),
{
    if s.len() <= 1 {
        s
    } else if s.last() == s[s.len() - 2] {
        dedup_runs(s.drop_last())
    } else {
        dedup_runs(s.drop_last()).push(s.last())
    }
}

/// The free symbols of an expression: sorted, each once.
pub open spec fn symbols_of(e: ExprView) -> Seq<Seq<char>> {
    dedup_runs(sort_strs(collect_syms(e)))
}

proof fn lemma_dedup_last(s: Seq<Seq<char>>)
    requires
        s.len() > 0,
    ensures
        dedup_runs(s).len() > 0,
        dedup_runs(s).last() == s.last(),
    decreases s.len(),
{
    if s.len() > 1 {
        lemma_dedup_last(s.drop_last());
    }
}

/// Texts in order, equal ones side by side.
pub open spec fn sorted_le(s: Seq<Seq<char>>) -> bool {
    forall|i: int, j: int| 0 <= i < j < s.len() ==> !str_lt(#[trigger] s[j], #[trigger] s[i])
}

proof fn lemma_insert_sorted_props(s: Seq<Seq<char>>, x: Seq<char>)
    requires
        sorted_le(s),
    ensures
        sorted_le(insert_sorted(s, x)),
        forall|y: Seq<char>| #[trigger] insert_sorted(s, x).contains(y) <==> (s.contains(y) || y == x),
    decreases s.len(),
{
    let r = insert_sorted(s, x);
    if s.len() == 0 {
        assert(r =~= seq![x]);
        assert forall|y: Seq<char>| #[trigger] r.contains(y) <==> (s.contains(y) || y == x) by {
            if r.contains(y) {
                assert(r[0] == y);
            }
            if y == x {
                assert(r[0] == y);
            }
        }
    } else if str_lt(x, s[0]) {
        assert(r =~= seq![x] + s);
        assert forall|i: int, j: int| 0 <= i < j < r.len() implies !str_lt(#[trigger] r[j], #[trigger] r[i]) by {
            if i == 0 {
                assert(r[j] == s[j - 1]);
                if str_lt(s[j - 1], x) {
                    lemma_str_lt_trans(s[j - 1], x, s[0]);
                    if j - 1 == 0 {
                        lemma_str_lt_irrefl(s[0]);
                    } else {
                        assert(!str_lt(s[j - 1], s[0]));
                    }
                }
            } else {
                assert(r[i] == s[i - 1] && r[j] == s[j - 1]);
            }
        }
        assert forall|y: Seq<char>| #[trigger] r.contains(y) <==> (s.contains(y) || y == x) by {
            if r.contains(y) {
                let q = choose|q: int| 0 <= q < r.len() && r[q] == y;
                if q > 0 {
                    assert(s[q - 1] == y);
                }
            }
            if s.contains(y) {
                let q = choose|q: int| 0 <= q < s.len() && s[q] == y;
                assert(r[q + 1] == y);
            }
            if y == x {
                assert(r[0] == y);
            }
        }
    } else {
        let t = s.drop_first();
        assert(sorted_le(t)) by {
            assert forall|i: int, j: int| 0 <= i < j < t.len() implies !str_lt(#[trigger] t[j], #[trigger] t[i]) by {
                assert(t[i] == s[i + 1] && t[j] == s[j + 1]);
            }
        }
        lemma_insert_sorted_props(t, x);
        let u = insert_sorted(t, x);
        assert(r =~= seq![s[0]] + u);
        assert forall|i: int, j: int| 0 <= i < j < r.len() implies !str_lt(#[trigger] r[j], #[trigger] r[i]) by {
            if i == 0 {
                assert(r[j] == u[j - 1]);
                assert(u.contains(u[j - 1]));
                if t.contains(u[j - 1]) {
                    let q = choose|q: int| 0 <= q < t.len() && t[q] == u[j - 1];
                    assert(t[q] == s[q + 1]);
                }
            } else {
                assert(r[i] == u[i - 1] && r[j] == u[j - 1]);
            }
        }
        assert forall|y: Seq<char>| #[trigger] r.contains(y) <==> (s.contains(y) || y == x) by {
            if r.contains(y) {
                let q = choose|q: int| 0 <= q < r.len() && r[q] == y;
                if q > 0 {
                    assert(u[q - 1] == y);
                    assert(u.contains(y));
                    if t.contains(y) {
                        let m = choose|m: int| 0 <= m < t.len() && t[m] == y;
                        assert(s[m + 1] == y);
                    }
                } else {
                    assert(s[0] == y);
                }
            }
            if s.contains(y) {
                let q = choose|q: int| 0 <= q < s.len() && s[q] == y;
                if q == 0 {
                    assert(r[0] == y);
                } else {
                    assert(t[q - 1] == y);
                    assert(t.contains(y));
                    assert(u.contains(y));
                    let m = choose|m: int| 0 <= m < u.len() && u[m] == y;
                    assert(r[m + 1] == y);
                }
            }
            if y == x {
                assert(u.contains(y));
                let m = choose|m: int| 0 <= m < u.len() && u[m] == y;
                assert(r[m + 1] == y);
            }
        }
    }
}

proof fn lemma_sort_strs_props(s: Seq<Seq<char>>)
    ensures
        sorted_le(sort_strs(s)),
        forall|y: Seq<char>| #[trigger] sort_strs(s).contains(y) <==> s.contains(y),
    decreases s.len(),
{
    if s.len() > 0 {
        let p = s.drop_last();
        lemma_sort_strs_props(p);
        lemma_insert_sorted_props(sort_strs(p), s.last());
        assert forall|y: Seq<char>| #[trigger] sort_strs(s).contains(y) <==> s.contains(y) by {
            assert(sort_strs(p).contains(y) <==> p.contains(y));
            if p.contains(y) {
                let q = choose|q: int| 0 <= q < p.len() && p[q] == y;
                assert(s[q] == y);
            }
            if s.contains(y) {
                let q = choose|q: int| 0 <= q < s.len() && s[q] == y;
                if q < p.len() {
                    assert(p[q] == y);
                }
            }
        }
    }
}

proof fn lemma_dedup_props(s: Seq<Seq<char>>)
    requires
        sorted_le(s),
    ensures
        strictly_sorted(dedup_runs(s)),
        forall|y: Seq<char>| #[trigger] dedup_runs(s).contains(y) <==> s.contains(y),
    decreases s.len(),
{
    if s.len() > 1 {
        let p = s.drop_last();
        let n = s.len() - 1;
        assert(sorted_le(p)) by {
            assert forall|i: int, j: int| 0 <= i < j < p.len() implies !str_lt(#[trigger] p[j], #[trigger] p[i]) by {
                assert(p[i] == s[i] && p[j] == s[j]);
            }
        }
        lemma_dedup_props(p);
        lemma_dedup_last(p);
        let d = dedup_runs(p);
        assert(p.last() == s[n - 1]);
        if s.last() == s[n - 1] {
            assert forall|y: Seq<char>| #[trigger] dedup_runs(s).contains(y) <==> s.contains(y) by {
                assert(d.contains(y) <==> p.contains(y));
                if s.contains(y) {
                    let q = choose|q: int| 0 <= q < s.len() && s[q] == y;
                    if q < n {
                        assert(p[q] == y);
                    } else {
                        assert(p[n - 1] == y);
                    }
                }
            }
        } else {
            let r = d.push(s.last());
            assert(!str_lt(s.last(), s[n - 1]));
            lemma_str_lt_total(s[n - 1], s.last());
            assert(str_lt(s[n - 1], s.last()));
            assert forall|i: int, j: int| 0 <= i < j < r.len() implies str_lt(#[trigger] r[i], #[trigger] r[j]) by {
                if j < d.len() {
                    assert(r[i] == d[i] && r[j] == d[j]);
                } else {
                    assert(r[i] == d[i]);
                    assert(d.contains(d[i]));
                    assert(p.contains(d[i]));
                    let q = choose|q: int| 0 <= q < p.len() && p[q] == d[i];
                    if q < n - 1 {
                        assert(!str_lt(s[n - 1], s[q]));
                        if s[q] != s[n - 1] {
                            lemma_str_lt_total(s[q], s[n - 1]);
                            lemma_str_lt_trans(s[q], s[n - 1], s.last());
                        }
                    }
                    assert(s[q] == d[i]);
                }
            }
            assert forall|y: Seq<char>| #[trigger] r.contains(y) <==> s.contains(y) by {
                assert(d.contains(y) <==> p.contains(y));
                if r.contains(y) {
                    let q = choose|q: int| 0 <= q < r.len() && r[q] == y;
                    if q < d.len() {
                        assert(d[q] == y);
                        assert(d.contains(y));
                        let m = choose|m: int| 0 <= m < p.len() && p[m] == y;
                        assert(s[m] == y);
                    } else {
                        assert(s[n] == y);
                    }
                }
                if s.contains(y) {
                    let q = choose|q: int| 0 <= q < s.len() && s[q] == y;
                    if q < n {
                        assert(p[q] == y);
                        assert(d.contains(y));
                        let m = choose|m: int| 0 <= m < d.len() && d[m] == y;
                        assert(r[m] == y);
                    } else {
                        assert(r[d.len() as int] == y);
                    }
                }
            }
        }
    }
}

/// The free symbols of an expression (what `symbols` gives) are sorted,
/// each listed once, and are exactly the symbols that occur in it.
pub proof fn lemma_symbols_sorted_distinct(e: ExprView)
    ensures
        strictly_sorted(symbols_of(e)),
        forall|y: Seq<char>| #[trigger] symbols_of(e).contains(y) <==> collect_syms(e).contains(y),
{
    lemma_sort_strs_props(collect_syms(e));
    lemma_dedup_props(sort_strs(collect_syms(e)));
}

proof fn lemma_concat_contains(x: Seq<Seq<char>>, y: Seq<Seq<char>>, s: Seq<char>)
    ensures
        (x + y).contains(s) <==> (x.contains(s) || y.contains(s)),
{
    if x.contains(s) {
        let k = choose|k: int| 0 <= k < x.len() && x[k] == s;
        assert((x + y)[k] == s);
    }
    if y.contains(s) {
        let k = choose|k: int| 0 <= k < y.len() && y[k] == s;
        assert((x + y)[x.len() + k] == s);
    }
    if (x + y).contains(s) {
        let k = choose|k: int| 0 <= k < (x + y).len() && (x + y)[k] == s;
        if k < x.len() {
            assert(x[k] == s);
        } else {
            assert(y[k - x.len()] == s);
        }
    }
}

proof fn lemma_symbols_pair(e: ExprView, a: ExprView, b: ExprView, s: Seq<char>)
    requires
        collect_syms(e) == collect_syms(a) + collect_syms(b),
    ensures
        symbols_of(e).contains(s) <==> (symbols_of(a).contains(s) || symbols_of(b).contains(s)),
{
    lemma_symbols_sorted_distinct(e);
    lemma_symbols_sorted_distinct(a);
    lemma_symbols_sorted_distinct(b);
    lemma_concat_contains(collect_syms(a), collect_syms(b), s);
}

/// A symbol is among the free symbols of a compound expression exactly when
/// it is among those of one of its operands: both operands of every binary
/// operator are searched (the right one of `-` and `/` too), and a negation
/// has the symbols of what it negates.
pub proof fn law_symbols_of_operands(a: ExprView, b: ExprView, s: Seq<char>)
    ensures
        symbols_of(ExprView::Add(Box::new(a), Box::new(b))).contains(s) <==> (symbols_of(a).contains(s)
            || symbols_of(b).contains(s)),
        symbols_of(ExprView::Sub(Box::new(a), Box::new(b))).contains(s) <==> (symbols_of(a).contains(s)
            || symbols_of(b).contains(s)),
        symbols_of(ExprView::Mul(Box::new(a), Box::new(b))).contains(s) <==> (symbols_of(a).contains(s)
            || symbols_of(b).contains(s)),
        symbols_of(ExprView::Div(Box::new(a), Box::new(b))).contains(s) <==> (symbols_of(a).contains(s)
            || symbols_of(b).contains(s)),
        symbols_of(ExprView::Pow(Box::new(a), Box::new(b))).contains(s) <==> (symbols_of(a).contains(s)
            || symbols_of(b).contains(s)),
        symbols_of(ExprView::Eq(Box::new(a), Box::new(b))).contains(s) <==> (symbols_of(a).contains(s)
            || symbols_of(b).contains(s)),
        symbols_of(ExprView::Neg(Box::new(a))).contains(s) <==> symbols_of(a).contains(s),
{
    lemma_symbols_pair(ExprView::Add(Box::new(a), Box::new(b)), a, b, s);
    lemma_symbols_pair(ExprView::Sub(Box::new(a), Box::new(b)), a, b, s);
    lemma_symbols_pair(ExprView::Mul(Box::new(a), Box::new(b)), a, b, s);
    lemma_symbols_pair(ExprView::Div(Box::new(a), Box::new(b)), a, b, s);
    lemma_symbols_pair(ExprView::Pow(Box::new(a), Box::new(b)), a, b, s);
    lemma_symbols_pair(ExprView::Eq(Box::new(a), Box::new(b)), a, b, s);
    lemma_symbols_sorted_distinct(ExprView::Neg(Box::new(a)));
    lemma_symbols_sorted_distinct(a);
}

/// A symbol leaf has itself as its one free symbol; a number has none.
pub proof fn law_symbols_of_leaves(x: Seq<char>)
    ensures
        symbols_of(ExprView::Symbol(x)) == seq![x],
        symbols_of(ExprView::Number(x)) == Seq::<Seq<char>>::empty(),
{
    assert(sort_strs(seq![x]) == insert_sorted(sort_strs(Seq::<Seq<char>>::empty()), x)) by {
        assert(seq![x].drop_last() =~= Seq::<Seq<char>>::empty());
    }
    assert(insert_sorted(Seq::<Seq<char>>::empty(), x) =~= seq![x]);
}

impl Expr {
    pub(crate) fn collect_symbols(&self, acc: &mut Vec<Vec<char>>)
        ensures
            char_seqs(final(acc)@) == char_seqs(old(acc)@) + collect_syms(self.view()),
        decreases self,
    {
        let ghost a0 = char_seqs(acc@);
        match self {
            Expr::Number(_) => {
                assert(char_seqs(acc@) =~= a0 + collect_syms(self.view()));
            },
            Expr::Symbol(s) => {
                acc.push(chars_of(s.as_str()));
                assert(char_seqs(acc@) =~= a0 + collect_syms(self.view()));
            },
            Expr::Neg(a) => {
                a.collect_symbols(acc);
            },
            Expr::Add(a, b) | Expr::Sub(a, b) | Expr::Mul(a, b) | Expr::Div(a, b) | Expr::Pow(a, b)
            | Expr::Eq(a, b) => {
                a.collect_symbols(acc);
                let ghost a1 = char_seqs(acc@);
                b.collect_symbols(acc);
                assert(char_seqs(acc@) =~= a0 + collect_syms(self.view()));
            },
        }
    }

    /// The free symbols (variables) of the expression, sorted, each once.
    pub fn symbols(&self) -> (r: Vec<String>)
        ensures
            crate::graph_xml::strings_view(r@) == symbols_of(self.view()),
    {
        let mut all: Vec<Vec<char>> = Vec::new();
        self.collect_symbols(&mut all);
        assert(char_seqs(all@) =~= collect_syms(self.view()));
        let ghost src = collect_syms(self.view());
        // insertion sort
        let mut sorted: Vec<Vec<char>> = Vec::new();
        let mut i: usize = 0;
        while i < all.len()
            invariant
                i <= all@.len(),
                src == char_seqs(all@),
                char_seqs(sorted@) == sort_strs(src.take(i as int)),
            decreases all@.len() - i,
        {
            let ghost s0 = char_seqs(sorted@);
            let mut k: usize = 0;
            while k < sorted.len() && !str_lt_chars(all[i].as_slice(), sorted[k].as_slice())
                invariant
                    k <= sorted@.len(),
                    i < all@.len(),
                    s0 == char_seqs(sorted@),
                    forall|j: int| 0 <= j < k ==> !str_lt(all@[i as int]@, #[trigger] s0[j]),
                decreases sorted@.len() - k,
            {
                k = k + 1;
            }
            let x = slice_chars(all[i].as_slice(), 0, all[i].len());
            proof {
                assert(x@ =~= all@[i as int]@);
                lemma_insert_sorted(s0, x@, k as int);
                assert(src.take(i + 1).drop_last() =~= src.take(i as int));
                assert(src.take(i + 1).last() == x@);
            }
            sorted.insert(k, x);
            assert(char_seqs(sorted@) =~= s0.insert(k as int, x@));
            i = i + 1;
        }
        assert(src.take(i as int) =~= src);
        let ghost ss = char_seqs(sorted@);
        // drop repeated neighbours
        let mut out: Vec<String> = Vec::new();
        let mut j: usize = 0;
        while j < sorted.len()
            invariant
                j <= sorted@.len(),
                ss == char_seqs(sorted@),
                crate::graph_xml::strings_view(out@) == dedup_runs(ss.take(j as int)),
            decreases sorted@.len() - j,
        {
            let ghost t = ss.take(j + 1);
            assert(t.drop_last() =~= ss.take(j as int));
            assert(t.last() == sorted@[j as int]@);
            if j > 0 {
                assert(t[t.len() - 2] == sorted@[j - 1]@);
            }
            if j == 0 || !crate::text::chars_eq(sorted[j].as_slice(), sorted[j - 1].as_slice()) {
                let ghost o0 = crate::graph_xml::strings_view(out@);
                out.push(string_of(sorted[j].as_slice()));
                assert(crate::graph_xml::strings_view(out@) =~= o0.push(sorted@[j as int]@));
                if j == 0 {
                    assert(t =~= seq![sorted@[0]@]);
                    assert(ss.take(0) =~= Seq::<Seq<char>>::empty());
                }
            }
            j = j + 1;
        }
        assert(ss.take(j as int) =~= ss);
        out
    }
}

/// Whether `symbol` occurs in the expression.
pub fn contains_symbol(expr: &Expr, symbol: &str) -> (r: bool)
    ensures
        r == collect_syms(expr.view()).contains(symbol@),
    decreases expr,
{
    match expr {
        Expr::Symbol(s) => {
            let r = crate::text::str_is(s.as_str(), symbol);
            assert(collect_syms(expr.view()) =~= seq![s@]);
            assert(r ==> collect_syms(expr.view())[0] == symbol@);
            r
        },
        Expr::Number(_) => {
            assert(collect_syms(expr.view()) =~= Seq::<Seq<char>>::empty());
            false
        },
        Expr::Neg(a) => contains_symbol(a, symbol),
        Expr::Add(a, b) | Expr::Sub(a, b) | Expr::Mul(a, b) | Expr::Div(a, b) | Expr::Pow(a, b)
        | Expr::Eq(a, b) => {
            let ra = contains_symbol(a, symbol);
            let rb = contains_symbol(b, symbol);
            proof {
                let sa = collect_syms(a.view());
                let sb = collect_syms(b.view());
                assert(collect_syms(expr.view()) == sa + sb);
                if ra {
                    let k = choose|k: int| 0 <= k < sa.len() && sa[k] == symbol@;
                    assert((sa + sb)[k] == symbol@);
                }
                if rb {
                    let k = choose|k: int| 0 <= k < sb.len() && sb[k] == symbol@;
                    assert((sa + sb)[sa.len() + k] == symbol@);
                }
                if (sa + sb).contains(symbol@) {
                    let k = choose|k: int| 0 <= k < (sa + sb).len() && (sa + sb)[k] == symbol@;
                    if k < sa.len() {
                        assert(sa[k] == symbol@);
                    } else {
                        assert(sb[k - sa.len()] == symbol@);
                    }
                }
            }
            ra || rb
        },
    }
}

pub open spec fn char_seqs(v: Seq<Vec<char>>) -> Seq<Seq<char>> {
    Seq::new(v.len(), |i: int| v[i]@)
}

} // verus!
