use vstd::prelude::*;

verus! {

// ============================================================
// Character classes
// ============================================================

/// Unicode `White_Space`, the set that `char::is_whitespace` and `str::trim` use.
pub open spec fn is_ws(c: char) -> bool {
    let u = c as u32;
    ||| 0x9 <= u <= 0xd
    ||| u == 0x20
    ||| u == 0x85
    ||| u == 0xa0
    ||| u == 0x1680
    ||| 0x2000 <= u <= 0x200a
    ||| u == 0x2028
    ||| u == 0x2029
    ||| u == 0x202f
    ||| u == 0x205f
    ||| u == 0x3000
}

pub fn is_whitespace(c: char) -> (r: bool)
    ensures
        r == is_ws(c),
{
    let u = c as u32;
    (0x9 <= u && u <= 0xd) || u == 0x20 || u == 0x85 || u == 0xa0 || u == 0x1680 || (0x2000
        <= u && u <= 0x200a) || u == 0x2028 || u == 0x2029 || u == 0x202f || u == 0x205f || u
        == 0x3000
}

pub open spec fn is_digit(c: char) -> bool {
    '0' <= c <= '9'
}

// ============================================================
// Conversions between strings and character vectors
// ============================================================

/// The characters of a string slice, in order.
pub fn chars_of(s: &str) -> (v: Vec<char>)
    ensures
        v@ == s@,
{
    let mut v: Vec<char> = Vec::new();
    for c in it: s.chars()
        invariant
            v@ == it.seq().take(it.index() as int),
            it.seq() == s@,
    {
        v.push(c);
    }
    v
}

/// Collects characters into a `String` (`FromIterator<char> for String`).
#[verifier::external_body]
pub(crate) fn string_of(v: &[char]) -> (s: String)
    ensures
        s@ == v@,
{
    v.iter().collect()
}

/// A fresh vector holding `s[lo..hi]`.
pub fn slice_chars(s: &[char], lo: usize, hi: usize) -> (r: Vec<char>)
    requires
        lo <= hi <= s@.len(),
    ensures
        r@ == s@.subrange(lo as int, hi as int),
{
    let mut r: Vec<char> = Vec::new();
    let mut i = lo;
    while i < hi
        invariant
            lo <= i <= hi <= s@.len(),
            r@ == s@.subrange(lo as int, i as int),
        decreases hi - i,
    {
        r.push(s[i]);
        i = i + 1;
    }
    r
}

/// Appends all characters of `src` to `dst`.
pub fn push_all(dst: &mut Vec<char>, src: &[char])
    ensures
        final(dst)@ == old(dst)@ + src@,
{
    let mut i: usize = 0;
    while i < src.len()
        invariant
            i <= src@.len(),
            dst@ == old(dst)@ + src@.take(i as int),
        decreases src.len() - i,
    {
        dst.push(src[i]);
        i = i + 1;
        assert(src@.take(i as int) == src@.take(i - 1) + seq![src@[i - 1]]);
    }
    assert(src@.take(i as int) == src@);
}

/// Appends the characters of a string slice to `dst`.
pub fn push_str(dst: &mut Vec<char>, s: &str)
    ensures
        final(dst)@ == old(dst)@ + s@,
{
    let v = chars_of(s);
    push_all(dst, v.as_slice());
}

/// Character-wise equality of two sequences.
pub fn chars_eq(a: &[char], b: &[char]) -> (r: bool)
    ensures
        r == (a@ == b@),
{
    if a.len() != b.len() {
        return false;
    }
    let mut i: usize = 0;
    while i < a.len()
        invariant
            a@.len() == b@.len(),
            i <= a@.len(),
            forall|j: int| 0 <= j < i ==> a@[j] == b@[j],
        decreases a.len() - i,
    {
        if a[i] != b[i] {
            return false;
        }
        i = i + 1;
    }
    assert(a@ =~= b@);
    true
}

/// Does the string slice equal the literal `lit`?
pub fn str_is(s: &str, lit: &str) -> (r: bool)
    ensures
        r == (s@ == lit@),
{
    let a = chars_of(s);
    let b = chars_of(lit);
    chars_eq(a.as_slice(), b.as_slice())
}

// ============================================================
// Trimming (`str::trim`)
// ============================================================

pub open spec fn trim_start(s: Seq<char>) -> Seq<char>
    decreases s.len(),
{
    if s.len() > 0 && is_ws(s[0]) {
        trim_start(s.drop_first())
    } else {
        s
    }
}

pub open spec fn trim_end(s: Seq<char>) -> Seq<char>
    decreases s.len(),
{
    if s.len() > 0 && is_ws(s.last()) {
        trim_end(s.drop_last())
    } else {
        s
    }
}

/// `str::trim`: whitespace removed from both ends.
pub open spec fn trim(s: Seq<char>) -> Seq<char> {
    trim_end(trim_start(s))
}

proof fn lemma_trim_start_skip(s: Seq<char>, i: int)
    requires
        0 <= i <= s.len(),
        forall|j: int| 0 <= j < i ==> is_ws(#[trigger] s[j]),
        i == s.len() || !is_ws(s[i]),
    ensures
        trim_start(s) == s.skip(i),
    decreases i,
{
    if i == 0 {
        assert(s.skip(0) =~= s);
    } else {
        assert(is_ws(s[0]));
        let t = s.drop_first();
        assert forall|j: int| 0 <= j < i - 1 implies is_ws(#[trigger] t[j]) by {
            assert(t[j] == s[j + 1]);
        }
        lemma_trim_start_skip(t, i - 1);
        assert(t.skip(i - 1) =~= s.skip(i));
    }
}

proof fn lemma_trim_end_take(s: Seq<char>, k: int)
    requires
        0 <= k <= s.len(),
        forall|j: int| k <= j < s.len() ==> is_ws(#[trigger] s[j]),
        k == 0 || !is_ws(s[k - 1]),
    ensures
        trim_end(s) == s.take(k),
    decreases s.len() - k,
{
    if k == s.len() {
        assert(s.take(k) =~= s);
    } else {
        assert(is_ws(s.last()));
        let t = s.drop_last();
        assert forall|j: int| k <= j < t.len() implies is_ws(#[trigger] t[j]) by {
            assert(t[j] == s[j]);
        }
        if k > 0 {
            assert(t[k - 1] == s[k - 1]);
        }
        lemma_trim_end_take(t, k);
        assert(t.take(k) =~= s.take(k));
    }
}

pub fn trim_chars(s: &[char]) -> (r: Vec<char>)
    ensures
        r@ == trim(s@),
{
    let n = s.len();
    let mut i: usize = 0;
    while i < n && is_whitespace(s[i])
        invariant
            i <= n == s@.len(),
            forall|j: int| 0 <= j < i ==> is_ws(#[trigger] s@[j]),
        decreases n - i,
    {
        i = i + 1;
    }
    proof {
        lemma_trim_start_skip(s@, i as int);
    }
    let mut k: usize = n;
    while k > i && is_whitespace(s[k - 1])
        invariant
            i <= k <= n == s@.len(),
            forall|j: int| k <= j < n ==> is_ws(#[trigger] s@[j]),
        decreases k,
    {
        k = k - 1;
    }
    proof {
        let t = s@.skip(i as int);
        assert forall|j: int| k - i <= j < t.len() implies is_ws(#[trigger] t[j]) by {
            assert(t[j] == s@[j + i]);
        }
        if k > i {
            assert(t[k - i - 1] == s@[k - 1]);
        }
        lemma_trim_end_take(t, k - i);
        assert(t.take(k - i) =~= s@.subrange(i as int, k as int));
    }
    slice_chars(s, i, k)
}

// ============================================================
// Searching (`str::find`, `str::starts_with`, `str::strip_prefix`)
// ============================================================

/// Does `p` occur in `s` at position `k`?
pub open spec fn matches_at(s: Seq<char>, p: Seq<char>, k: int) -> bool {
    0 <= k && k + p.len() <= s.len() && s.subrange(k, k + p.len()) == p
}

pub open spec fn find_from(s: Seq<char>, p: Seq<char>, k: int) -> Option<int>
    decreases s.len() + 1 - k,
{
    if k < 0 || k + p.len() > s.len() {
        None
    } else if s.subrange(k, k + p.len()) == p {
        Some(k)
    } else {
        find_from(s, p, k + 1)
    }
}

/// `str::find`: the first position at which `p` occurs in `s`.
pub open spec fn find(s: Seq<char>, p: Seq<char>) -> Option<int> {
    find_from(s, p, 0)
}

pub open spec fn starts_with(s: Seq<char>, p: Seq<char>) -> bool {
    p.len() <= s.len() && s.take(p.len() as int) == p
}

/// What `find_from` returns, in words: the least match at or after `k`.
pub proof fn lemma_find_from(s: Seq<char>, p: Seq<char>, k: int)
    requires
        0 <= k,
    ensures
        find_from(s, p, k) matches Some(m) ==> k <= m && matches_at(s, p, m) && forall|j: int|
            k <= j < m ==> !matches_at(s, p, j),
        find_from(s, p, k) is None ==> forall|j: int| k <= j ==> !matches_at(s, p, j),
    decreases s.len() + 1 - k,
{
    if k + p.len() > s.len() {
    } else if s.subrange(k, k + p.len()) == p {
    } else {
        lemma_find_from(s, p, k + 1);
    }
}

/// `find_from` returns `m` when `m` matches and nothing from `k` before it does.
pub proof fn lemma_find_from_is(s: Seq<char>, p: Seq<char>, k: int, m: int)
    requires
        0 <= k <= m,
        matches_at(s, p, m),
        forall|j: int| k <= j < m ==> !matches_at(s, p, j),
    ensures
        find_from(s, p, k) == Some(m),
    decreases m - k,
{
    if k < m {
        assert(!matches_at(s, p, k));
        lemma_find_from_is(s, p, k + 1, m);
    }
}

/// `find_from` returns nothing when no position from `k` matches.
pub proof fn lemma_find_from_none(s: Seq<char>, p: Seq<char>, k: int)
    requires
        0 <= k,
        forall|j: int| k <= j ==> !matches_at(s, p, j),
    ensures
        find_from(s, p, k) is None,
    decreases s.len() + 1 - k,
{
    if k + p.len() <= s.len() {
        assert(!matches_at(s, p, k));
        lemma_find_from_none(s, p, k + 1);
    }
}

pub fn matches_at_exec(s: &[char], p: &[char], k: usize) -> (r: bool)
    ensures
        r == matches_at(s@, p@, k as int),
{
    if k > s.len() || p.len() > s.len() - k {
        return false;
    }
    let mut i: usize = 0;
    while i < p.len()
        invariant
            k + p.len() <= s.len(),
            i <= p@.len(),
            forall|j: int| 0 <= j < i ==> s@[k + j] == p@[j],
        decreases p.len() - i,
    {
        let j = k + i;
        if s[j] != p[i] {
            assert(s@.subrange(k as int, k + p@.len())[i as int] != p@[i as int]);
            return false;
        }
        i = i + 1;
    }
    assert(s@.subrange(k as int, k + p@.len()) =~= p@);
    true
}

pub fn find_chars(s: &[char], p: &[char]) -> (r: Option<usize>)
    ensures
        match r {
            Some(m) => find(s@, p@) == Some(m as int),
            None => find(s@, p@) is None,
        },
{
    if p.len() > s.len() {
        proof {
            lemma_find_from_none(s@, p@, 0);
        }
        return None;
    }
    let last = s.len() - p.len();
    let mut k: usize = 0;
    while k < last
        invariant
            p.len() <= s.len(),
            last == s.len() - p.len(),
            k <= last,
            forall|j: int| 0 <= j < k ==> !matches_at(s@, p@, j),
        decreases last - k,
    {
        if matches_at_exec(s, p, k) {
            proof {
                lemma_find_from_is(s@, p@, 0, k as int);
            }
            return Some(k);
        }
        k = k + 1;
    }
    if matches_at_exec(s, p, last) {
        proof {
            lemma_find_from_is(s@, p@, 0, last as int);
        }
        return Some(last);
    }
    proof {
        assert forall|j: int| 0 <= j implies !matches_at(s@, p@, j) by {
            if j > last {
                assert(j + p@.len() > s@.len());
            }
        }
        lemma_find_from_none(s@, p@, 0);
    }
    None
}

pub fn starts_with_chars(s: &[char], p: &[char]) -> (r: bool)
    ensures
        r == starts_with(s@, p@),
{
    let r = matches_at_exec(s, p, 0);
    proof {
        if p@.len() <= s@.len() {
            assert(s@.take(p@.len() as int) == s@.subrange(0, p@.len() as int));
        }
    }
    r
}

// ============================================================
// Splitting (`str::split(..).nth(1)`, `str::lines`)
// ============================================================

/// `s.split(p).nth(1)`: the text between the first and the second
/// occurrence of `p`, or to the end when there is no second one.
pub open spec fn split_second(s: Seq<char>, p: Seq<char>) -> Option<Seq<char>> {
    match find(s, p) {
        None => None,
        Some(k) => {
            let rest = s.skip(k + p.len());
            Some(
                match find(rest, p) {
                    None => rest,
                    Some(j) => rest.take(j),
                },
            )
        },
    }
}

pub fn split_second_chars(s: &[char], p: &[char]) -> (r: Option<Vec<char>>)
    ensures
        match r {
            Some(v) => split_second(s@, p@) == Some(v@),
            None => split_second(s@, p@) is None,
        },
{
    match find_chars(s, p) {
        None => None,
        Some(k) => {
            proof {
                lemma_find_from(s@, p@, 0);
                assert(matches_at(s@, p@, k as int));
                assert(k + p.len() <= s.len());
            }
            let rest = slice_chars(s, k + p.len(), s.len());
            assert(rest@ == s@.skip(k + p@.len()));
            match find_chars(rest.as_slice(), p) {
                None => Some(rest),
                Some(j) => {
                    proof {
                        lemma_find_from(rest@, p@, 0);
                    }
                    Some(slice_chars(rest.as_slice(), 0, j))
                },
            }
        },
    }
}

/// A line as `str::lines` yields it: a `\r` just before the `\n` is dropped.
pub open spec fn strip_cr(l: Seq<char>) -> Seq<char> {
    if l.len() > 0 && l.last() == '\r' {
        l.drop_last()
    } else {
        l
    }
}

/// Scanning state of `lines`: the current line began at `start`, `i` is
/// the next character to look at.
pub open spec fn lines_from(s: Seq<char>, start: int, i: int) -> Seq<Seq<char>>
    decreases s.len() - i,
{
    if i >= s.len() {
        if start < s.len() {
            seq![s.subrange(start, s.len() as int)]
        } else {
            seq![]
        }
    } else if s[i] == '\n' {
        seq![strip_cr(s.subrange(start, i))] + lines_from(s, i + 1, i + 1)
    } else {
        lines_from(s, start, i + 1)
    }
}

/// `str::lines`: the text split at each `\n` (a `\r` before it is dropped);
/// a final `\n` does not start an empty line.
pub open spec fn lines(s: Seq<char>) -> Seq<Seq<char>> {
    lines_from(s, 0, 0)
}

pub fn lines_chars(s: &[char]) -> (r: Vec<Vec<char>>)
    ensures
        r@.len() == lines(s@).len(),
        forall|k: int| 0 <= k < r@.len() ==> #[trigger] r@[k]@ == lines(s@)[k],
{
    let mut out: Vec<Vec<char>> = Vec::new();
    let mut start: usize = 0;
    let mut i: usize = 0;
    let ghost mut acc: Seq<Seq<char>> = seq![];
    while i < s.len()
        invariant
            start <= i <= s@.len(),
            out@.len() == acc.len(),
            forall|k: int| 0 <= k < out@.len() ==> #[trigger] out@[k]@ == acc[k],
            acc + lines_from(s@, start as int, i as int) == lines(s@),
        decreases s.len() - i,
    {
        if s[i] == '\n' {
            let mut line = slice_chars(s, start, i);
            if line.len() > 0 && line[line.len() - 1] == '\r' {
                line.pop();
            }
            proof {
                let l = s@.subrange(start as int, i as int);
                assert(line@ == strip_cr(l));
                assert(acc + lines_from(s@, start as int, i as int) == acc + seq![strip_cr(l)]
                    + lines_from(s@, i + 1, i + 1));
                acc = acc.push(line@);
            }
            out.push(line);
            i = i + 1;
            start = i;
        } else {
            i = i + 1;
        }
    }
    if start < s.len() {
        let line = slice_chars(s, start, s.len());
        proof {
            acc = acc.push(line@);
        }
        out.push(line);
    }
    assert(acc == lines(s@));
    out
}

pub open spec fn has_char(s: Seq<char>, c: char) -> bool {
    exists|i: int| 0 <= i < s.len() && s[i] == c
}

/// Lines joined, each followed by a `\n`.
pub open spec fn join_lines(ls: Seq<Seq<char>>) -> Seq<char>
    decreases ls.len(),
{
    if ls.len() == 0 {
        seq![]
    } else {
        ls[0] + seq!['\n'] + join_lines(ls.drop_first())
    }
}

/// A line that `lines` gives back as it is: no `\n` in it, no `\r` at its end.
pub open spec fn plain_line(l: Seq<char>) -> bool {
    !has_char(l, '\n') && (l.len() == 0 || l.last() != '\r')
}

proof fn lemma_lines_from_shift(pre: Seq<char>, rest: Seq<char>, start: int, i: int)
    requires
        pre.len() <= start <= i,
    ensures
        lines_from(pre + rest, start, i) == lines_from(rest, start - pre.len(), i - pre.len()),
    decreases (pre + rest).len() - i,
{
    let s = pre + rest;
    if i >= s.len() {
        if start < s.len() {
            assert(s.subrange(start, s.len() as int) =~= rest.subrange(
                start - pre.len(),
                rest.len() as int,
            ));
        }
    } else {
        assert(s[i] == rest[i - pre.len()]);
        if s[i] == '\n' {
            assert(s.subrange(start, i) =~= rest.subrange(start - pre.len(), i - pre.len()));
            lemma_lines_from_shift(pre, rest, i + 1, i + 1);
        } else {
            lemma_lines_from_shift(pre, rest, start, i + 1);
        }
    }
}

proof fn lemma_lines_from_skip(s: Seq<char>, start: int, i: int, k: int)
    requires
        0 <= start <= i <= k <= s.len(),
        forall|j: int| i <= j < k ==> s[j] != '\n',
    ensures
        lines_from(s, start, i) == lines_from(s, start, k),
    decreases k - i,
{
    if i < k {
        lemma_lines_from_skip(s, start, i + 1, k);
    }
}

/// `lines` of a line, a `\n` and more text: that line, then the lines of the rest.
pub proof fn lemma_lines_cons(a: Seq<char>, b: Seq<char>)
    requires
        plain_line(a),
    ensures
        lines(a + seq!['\n'] + b) == seq![a] + lines(b),
{
    let s = a + seq!['\n'] + b;
    assert forall|j: int| 0 <= j < a.len() implies s[j] != '\n' by {
        assert(s[j] == a[j]);
    }
    lemma_lines_from_skip(s, 0, 0, a.len() as int);
    assert(s[a.len() as int] == '\n');
    assert(s.subrange(0, a.len() as int) =~= a);
    assert(strip_cr(a) == a);
    assert(s =~= (a + seq!['\n']) + b);
    lemma_lines_from_shift(a + seq!['\n'], b, a.len() + 1int, a.len() + 1int);
}

/// `lines` of a single line without its `\n`.
pub proof fn lemma_lines_single(a: Seq<char>)
    requires
        !has_char(a, '\n'),
        a.len() > 0,
    ensures
        lines(a) == seq![a],
{
    lemma_lines_from_skip(a, 0, 0, a.len() as int);
    assert(a.subrange(0, a.len() as int) =~= a);
}

/// Lines joined with `\n` split back into the same lines.
pub proof fn lemma_lines_join(ls: Seq<Seq<char>>)
    requires
        forall|k: int| 0 <= k < ls.len() ==> plain_line(#[trigger] ls[k]),
    ensures
        lines(join_lines(ls)) == ls,
    decreases ls.len(),
{
    if ls.len() == 0 {
    } else {
        let rest = ls.drop_first();
        assert forall|k: int| 0 <= k < rest.len() implies plain_line(#[trigger] rest[k]) by {
            assert(rest[k] == ls[k + 1]);
        }
        lemma_lines_join(rest);
        assert(plain_line(ls[0]));
        lemma_lines_cons(ls[0], join_lines(rest));
        assert(seq![ls[0]] + rest =~= ls);
    }
}

// ============================================================
// Decimal numbers (`u64::from_str`, `u64` formatting)
// ============================================================

pub open spec fn digit_value(c: char) -> nat {
    (c as u32 - '0' as u32) as nat
}

/// The number written by the decimal digits `d`.
pub open spec fn digits_value(d: Seq<char>) -> nat
    decreases d.len(),
{
    if d.len() == 0 {
        0
    } else {
        digits_value(d.drop_last()) * 10 + digit_value(d.last())
    }
}

pub open spec fn all_digits(d: Seq<char>) -> bool {
    forall|i: int| 0 <= i < d.len() ==> is_digit(#[trigger] d[i])
}

/// `u64::from_str`: an optional `+`, then one or more decimal digits whose
/// value fits in a `u64`.
pub open spec fn parse_u64(s: Seq<char>) -> Option<u64> {
    let d = if s.len() > 0 && s[0] == '+' {
        s.drop_first()
    } else {
        s
    };
    if d.len() == 0 || !all_digits(d) || digits_value(d) > u64::MAX {
        None
    } else {
        Some(digits_value(d) as u64)
    }
}

proof fn lemma_digits_value_prefix(d: Seq<char>, j: int)
    requires
        0 <= j <= d.len(),
    ensures
        digits_value(d.take(j)) <= digits_value(d),
    decreases d.len(),
{
    if j == d.len() {
        assert(d.take(j) =~= d);
    } else {
        lemma_digits_value_prefix(d.drop_last(), j);
        assert(d.drop_last().take(j) =~= d.take(j));
    }
}

pub fn parse_u64_chars(s: &[char]) -> (r: Option<u64>)
    ensures
        r == parse_u64(s@),
{
    let mut i: usize = 0;
    if s.len() > 0 && s[0] == '+' {
        i = 1;
    }
    let ghost d = if s@.len() > 0 && s@[0] == '+' {
        s@.drop_first()
    } else {
        s@
    };
    assert(d =~= s@.skip(i as int));
    if i == s.len() {
        return None;
    }
    let mut v: u64 = 0;
    let mut k: usize = i;
    while k < s.len()
        invariant
            i <= k <= s.len(),
            d == s@.skip(i as int),
            d == (if s@.len() > 0 && s@[0] == '+' {
                s@.drop_first()
            } else {
                s@
            }),
            all_digits(s@.subrange(i as int, k as int)),
            v == digits_value(s@.subrange(i as int, k as int)),
        decreases s.len() - k,
    {
        let c = s[k];
        proof {
            assert(s@.subrange(i as int, k + 1).drop_last() =~= s@.subrange(i as int, k as int));
        }
        if !('0' <= c && c <= '9') {
            proof {
                assert(d[k - i] == c);
                assert(!is_digit(c));
                assert(!all_digits(d));
            }
            return None;
        }
        let dv = (c as u32 - '0' as u32) as u64;
        let prod = v.checked_mul(10);
        match prod {
            None => {
                proof {
                    if all_digits(d) {
                        lemma_digits_value_prefix(d, k + 1 - i);
                        assert(d.take(k + 1 - i) =~= s@.subrange(i as int, k + 1));
                        assert(digits_value(s@.subrange(i as int, k + 1)) == v * 10 + digit_value(c));
                    }
                }
                return None;
            },
            Some(p) => match p.checked_add(dv) {
                None => {
                    proof {
                        if all_digits(d) {
                            lemma_digits_value_prefix(d, k + 1 - i);
                            assert(d.take(k + 1 - i) =~= s@.subrange(i as int, k + 1));
                        }
                    }
                    return None;
                },
                Some(nv) => {
                    v = nv;
                },
            },
        }
        k = k + 1;
    }
    assert(s@.subrange(i as int, s@.len() as int) =~= d);
    Some(v)
}

pub open spec fn digit_char(n: nat) -> char {
    (n + '0' as u32) as char
}

/// The decimal form of `n`, as `{}` formats a `u64`.
pub open spec fn decimal(n: nat) -> Seq<char>
    decreases n,
{
    if n < 10 {
        seq![digit_char(n)]
    } else {
        decimal(n / 10).push(digit_char(n % 10))
    }
}

pub fn decimal_chars(n: u64) -> (r: Vec<char>)
    ensures
        r@ == decimal(n as nat),
    decreases n,
{
    let d = ((n % 10) as u32 + '0' as u32) as u8 as char;
    assert(d == digit_char((n % 10) as nat));
    if n < 10 {
        vec![d]
    } else {
        let mut v = decimal_chars(n / 10);
        v.push(d);
        v
    }
}

/// Reading a formatted `u64` gives it back.
pub proof fn lemma_parse_decimal(n: nat)
    requires
        n <= u64::MAX,
    ensures
        parse_u64(decimal(n)) == Some(n as u64),
{
    lemma_decimal_digits(n);
}

pub proof fn lemma_decimal_digits(n: nat)
    ensures
        decimal(n).len() > 0,
        all_digits(decimal(n)),
        digits_value(decimal(n)) == n,
        decimal(n)[0] != '+',
    decreases n,
{
    if n < 10 {
        assert(digit_value(digit_char(n)) == n);
        let s = decimal(n);
        assert(s.drop_last() =~= Seq::<char>::empty());
        assert(digits_value(s.drop_last()) == 0);
        assert(s.last() == digit_char(n));
        assert(digits_value(s) == n);
    } else {
        lemma_decimal_digits(n / 10);
        let s = decimal(n);
        assert(s.drop_last() =~= decimal(n / 10));
        assert(s.last() == digit_char(n % 10));
        assert(digit_value(digit_char(n % 10)) == n % 10);
        assert(digits_value(s) == digits_value(s.drop_last()) * 10 + digit_value(s.last()));
        assert((n / 10) * 10 + n % 10 == n);
        assert(digits_value(s.drop_last()) == n / 10);
        assert(digits_value(s) == n);
        assert forall|i: int| 0 <= i < s.len() implies is_digit(#[trigger] s[i]) by {
            if i < s.len() - 1 {
                assert(s[i] == decimal(n / 10)[i]);
            }
        }
        assert(s[0] == decimal(n / 10)[0]);
    }
}


// ============================================================
// Float literals (`f64::from_str` accepts them)
// ============================================================

/// First position of `c` in `s` at or after `k`, or `s.len()` when there is none.
pub open spec fn index_from(s: Seq<char>, c: char, k: int) -> int
    decreases s.len() - k,
{
    if k >= s.len() {
        s.len() as int
    } else if s[k] == c {
        k
    } else {
        index_from(s, c, k + 1)
    }
}

pub open spec fn index_of(s: Seq<char>, c: char) -> int {
    index_from(s, c, 0)
}

pub proof fn lemma_index_from(s: Seq<char>, c: char, k: int)
    requires
        0 <= k <= s.len(),
    ensures
        k <= index_from(s, c, k) <= s.len(),
        index_from(s, c, k) < s.len() ==> s[index_from(s, c, k)] == c,
        forall|j: int| k <= j < index_from(s, c, k) ==> s[j] != c,
    decreases s.len() - k,
{
    if k < s.len() && s[k] != c {
        lemma_index_from(s, c, k + 1);
    }
}

pub fn index_of_exec(s: &[char], c: char) -> (r: usize)
    ensures
        r == index_of(s@, c),
{
    let mut k: usize = 0;
    while k < s.len() && s[k] != c
        invariant
            k <= s.len(),
            index_from(s@, c, k as int) == index_of(s@, c),
        decreases s.len() - k,
    {
        k = k + 1;
    }
    k
}

pub open spec fn ascii_lower(c: char) -> char {
    if 'A' <= c <= 'Z' {
        (c as u32 + 32) as char
    } else {
        c
    }
}

/// Equal to the lower-case word `w`, ignoring ASCII case.
pub open spec fn eq_ignore_case(s: Seq<char>, w: Seq<char>) -> bool {
    s.len() == w.len() && forall|i: int| 0 <= i < s.len() ==> ascii_lower(#[trigger] s[i]) == w[i]
}

pub open spec fn strip_sign(s: Seq<char>) -> Seq<char> {
    if s.len() > 0 && (s[0] == '+' || s[0] == '-') {
        s.drop_first()
    } else {
        s
    }
}

/// `Digit+ | Digit+ '.' Digit* | Digit* '.' Digit+`
pub open spec fn is_mantissa(m: Seq<char>) -> bool {
    let p = index_of(m, '.');
    if p == m.len() {
        m.len() > 0 && all_digits(m)
    } else {
        m.len() >= 2 && all_digits(m.take(p)) && all_digits(m.skip(p + 1))
    }
}

/// `('e' | 'E') Sign? Digit+`
pub open spec fn is_exponent(x: Seq<char>) -> bool {
    x.len() > 0 && (x[0] == 'e' || x[0] == 'E') && strip_sign(x.drop_first()).len() > 0
        && all_digits(strip_sign(x.drop_first()))
}

pub open spec fn exponent_start(u: Seq<char>) -> int {
    let a = index_of(u, 'e');
    let b = index_of(u, 'E');
    if a <= b {
        a
    } else {
        b
    }
}

pub open spec fn is_number(u: Seq<char>) -> bool {
    let e = exponent_start(u);
    is_mantissa(u.take(e)) && (e == u.len() || is_exponent(u.skip(e)))
}

/// The grammar that `f64::from_str` accepts, as its documentation gives it:
/// `Sign? ( 'inf' | 'infinity' | 'nan' | Number )`, letters in any case.
pub open spec fn float_literal(s: Seq<char>) -> bool {
    let u = strip_sign(s);
    ||| eq_ignore_case(u, seq!['i', 'n', 'f'])
    ||| eq_ignore_case(u, seq!['i', 'n', 'f', 'i', 'n', 'i', 't', 'y'])
    ||| eq_ignore_case(u, seq!['n', 'a', 'n'])
    ||| is_number(u)
}

/// A character that none of `inf`, `infinity`, `nan` and the number
/// grammar use, in any case.
pub open spec fn foreign_to_floats(c: char) -> bool {
    &&& !is_digit(c)
    &&& c != '+' && c != '-' && c != '.' && c != 'e' && c != 'E'
    &&& ascii_lower(c) != 'i' && ascii_lower(c) != 'n' && ascii_lower(c) != 'f'
    &&& ascii_lower(c) != 't' && ascii_lower(c) != 'y' && ascii_lower(c) != 'a'
}

proof fn lemma_word_excludes(u: Seq<char>, w: Seq<char>, q: int)
    requires
        0 <= q < u.len(),
        foreign_to_floats(u[q]),
        forall|j: int|
            0 <= j < w.len() ==> w[j] == 'i' || w[j] == 'n' || w[j] == 'f' || w[j] == 't' || w[j]
                == 'y' || w[j] == 'a',
    ensures
        !eq_ignore_case(u, w),
{
    if eq_ignore_case(u, w) {
        assert(ascii_lower(u[q]) == w[q]);
    }
}

/// Text holding a character foreign to floats is no float literal.
pub proof fn lemma_float_literal_excludes(s: Seq<char>, k: int)
    requires
        0 <= k < s.len(),
        foreign_to_floats(s[k]),
    ensures
        !float_literal(s),
{
    let u = strip_sign(s);
    let q: int = if s.len() > 0 && (s[0] == '+' || s[0] == '-') {
        k - 1
    } else {
        k
    };
    assert(0 <= q < u.len() && u[q] == s[k]);
    let w1 = seq!['i', 'n', 'f'];
    let w2 = seq!['i', 'n', 'f', 'i', 'n', 'i', 't', 'y'];
    let w3 = seq!['n', 'a', 'n'];
    lemma_word_excludes(u, w1, q);
    lemma_word_excludes(u, w2, q);
    lemma_word_excludes(u, w3, q);
    lemma_index_from(u, 'e', 0);
    lemma_index_from(u, 'E', 0);
    let e = exponent_start(u);
    if is_number(u) {
        let m = u.take(e);
        if q < e {
            let p = index_of(m, '.');
            lemma_index_from(m, '.', 0);
            if p == m.len() {
                assert(is_digit(m[q]));
            } else if q < p {
                assert(is_digit(m.take(p)[q]));
            } else if q > p {
                assert(is_digit(m.skip(p + 1)[q - p - 1]));
            }
        } else {
            let x = u.skip(e);
            assert(x[q - e] == u[q]);
            if q > e {
                let y = strip_sign(x.drop_first());
                if x.drop_first()[0] == '+' || x.drop_first()[0] == '-' {
                    if q > e + 1 {
                        assert(is_digit(y[q - e - 2]));
                    }
                } else {
                    assert(is_digit(y[q - e - 1]));
                }
            }
        }
    }
}

proof fn lemma_number_of(m: Seq<char>, x: Seq<char>)
    requires
        forall|i: int| 0 <= i < m.len() ==> m[i] != 'e' && m[i] != 'E',
        is_mantissa(m),
        is_exponent(x),
    ensures
        is_number(m + x),
{
    let u = m + x;
    lemma_index_from(u, 'e', 0);
    lemma_index_from(u, 'E', 0);
    let a = index_of(u, 'e');
    let b = index_of(u, 'E');
    assert(u[m.len() as int] == x[0]);
    if a < m.len() {
        assert(u[a] == m[a]);
    }
    if b < m.len() {
        assert(u[b] == m[b]);
    }
    assert(exponent_start(u) == m.len());
    assert(u.take(m.len() as int) =~= m);
    assert(u.skip(m.len() as int) =~= x);
}

proof fn lemma_mantissa_forms(a: Seq<char>, f: Seq<char>)
    requires
        all_digits(a),
        a.len() > 0,
        all_digits(f),
    ensures
        is_mantissa(a),
        is_mantissa(a + seq!['.'] + f),
        forall|i: int| 0 <= i < a.len() ==> a[i] != 'e' && a[i] != 'E',
        forall|i: int|
            0 <= i < (a + seq!['.'] + f).len() ==> (a + seq!['.'] + f)[i] != 'e' && (a + seq!['.']
                + f)[i] != 'E',
{
    lemma_index_from(a, '.', 0);
    if index_of(a, '.') < a.len() {
        assert(is_digit(a[index_of(a, '.')]));
    }
    let m = a + seq!['.'] + f;
    lemma_index_from(m, '.', 0);
    let p = index_of(m, '.');
    assert(m[a.len() as int] == '.');
    if p < a.len() {
        assert(is_digit(m[p]));
    }
    assert(p == a.len());
    assert(m.take(p) =~= a);
    assert(m.skip(p + 1) =~= f);
    assert forall|i: int| 0 <= i < m.len() implies m[i] != 'e' && m[i] != 'E' by {
        if i < a.len() {
            assert(is_digit(a[i]));
        } else if i > a.len() {
            assert(is_digit(f[i - a.len() - 1]));
        }
    }
}

/// An exponent may carry a sign, as `f64::from_str` allows: with digits
/// `a` (at least one), a fraction `f` and exponent digits `d` (at least
/// one), `a e d`, `a e± d`, `a.f e± d` and `±a.f e± d` are all float
/// literals, with `e` in either case (`1e-3`, `6.674e-11`, `2E+8`).
pub proof fn law_float_literal_signed_exponent(
    a: Seq<char>,
    f: Seq<char>,
    d: Seq<char>,
    e: char,
    sign: char,
)
    requires
        all_digits(a),
        a.len() > 0,
        all_digits(f),
        all_digits(d),
        d.len() > 0,
        e == 'e' || e == 'E',
        sign == '+' || sign == '-',
    ensures
        float_literal(a + seq![e] + d),
        float_literal(a + seq![e, sign] + d),
        float_literal(a + seq!['.'] + f + seq![e, sign] + d),
        float_literal(seq![sign] + a + seq!['.'] + f + seq![e, sign] + d),
{
    lemma_mantissa_forms(a, f);
    let m = a + seq!['.'] + f;
    let x1 = seq![e] + d;
    let x2 = seq![e, sign] + d;
    assert(x1.drop_first() =~= d);
    assert(is_digit(d[0]));
    assert(strip_sign(x1.drop_first()) =~= d);
    assert(x2.drop_first() =~= seq![sign] + d);
    assert(strip_sign(x2.drop_first()) =~= d);
    assert(is_exponent(x1));
    assert(is_exponent(x2));
    lemma_number_of(a, x1);
    lemma_number_of(a, x2);
    lemma_number_of(m, x2);
    assert(is_digit(a[0]));
    assert(a + seq![e] + d =~= a + x1);
    assert((a + x1)[0] == a[0]);
    assert(strip_sign(a + x1) == a + x1);
    assert(a + seq![e, sign] + d =~= a + x2);
    assert((a + x2)[0] == a[0]);
    assert(strip_sign(a + x2) == a + x2);
    assert(a + seq!['.'] + f + seq![e, sign] + d =~= m + x2);
    assert((m + x2)[0] == a[0]);
    assert(strip_sign(m + x2) == m + x2);
    let s4 = seq![sign] + a + seq!['.'] + f + seq![e, sign] + d;
    assert(s4.drop_first() =~= m + x2);
    assert(strip_sign(s4) == m + x2);
}

proof fn lemma_index_shift(p: Seq<char>, r: Seq<char>, c: char, j: int)
    requires
        0 <= j <= r.len(),
    ensures
        index_from(p + r, c, p.len() + j) == p.len() + index_from(r, c, j),
    decreases r.len() - j,
{
    if j < r.len() {
        assert((p + r)[p.len() + j] == r[j]);
        lemma_index_shift(p, r, c, j + 1);
    }
}

proof fn lemma_index_concat(p: Seq<char>, r: Seq<char>, c: char, k: int)
    requires
        0 <= k <= p.len(),
    ensures
        index_from(p + r, c, k) == if index_from(p, c, k) < p.len() {
            index_from(p, c, k)
        } else {
            p.len() + index_from(r, c, 0)
        },
    decreases p.len() - k,
{
    if k == p.len() {
        lemma_index_shift(p, r, c, 0);
    } else {
        assert((p + r)[k] == p[k]);
        lemma_index_concat(p, r, c, k + 1);
    }
}

proof fn lemma_ends_in_digit_not_word(u: Seq<char>, w: Seq<char>)
    requires
        u.len() > 0,
        is_digit(u.last()),
        w.len() > 0,
        w.last() == 'f' || w.last() == 'y' || w.last() == 'n',
    ensures
        !eq_ignore_case(u, w),
{
    if eq_ignore_case(u, w) {
        assert(ascii_lower(u[u.len() - 1]) == w[w.len() - 1]);
    }
}

proof fn lemma_strip_sign_concat(m: Seq<char>, r: Seq<char>)
    requires
        r.len() > 0,
        r[0] != '+' && r[0] != '-',
    ensures
        strip_sign(m + r) == strip_sign(m) + r,
{
    if m.len() > 0 {
        assert((m + r)[0] == m[0]);
        if m[0] == '+' || m[0] == '-' {
            assert((m + r).drop_first() =~= m.drop_first() + r);
        }
    } else {
        assert(m + r =~= r);
        assert((m + r)[0] == r[0]);
    }
}

proof fn lemma_exponent_start_concat(mp: Seq<char>, r: Seq<char>)
    requires
        r.len() > 0,
        r[0] == 'e' || r[0] == 'E',
    ensures
        exponent_start(mp + r) == exponent_start(mp),
        0 <= exponent_start(mp) <= mp.len(),
        exponent_start(mp) < mp.len() ==> (mp[exponent_start(mp)] == 'e' || mp[exponent_start(mp)]
            == 'E'),
{
    lemma_index_concat(mp, r, 'e', 0);
    lemma_index_concat(mp, r, 'E', 0);
    lemma_index_from(mp, 'e', 0);
    lemma_index_from(mp, 'E', 0);
    lemma_index_from(r, 'e', 0);
    lemma_index_from(r, 'E', 0);
}

/// An exponent part that holds a second exponent letter is no exponent.
proof fn lemma_second_letter(x: Seq<char>, z: int)
    requires
        0 <= z < x.len() - 1,
        x[z + 1] == 'e' || x[z + 1] == 'E',
    ensures
        !is_exponent(x),
{
    let t = x.drop_first();
    let y = strip_sign(t);
    assert(t[z] == x[z + 1]);
    if t[0] == '+' || t[0] == '-' {
        if z > 0 {
            assert(y[z - 1] == t[z]);
            assert(!is_digit(y[z - 1]));
        }
    } else {
        assert(y[z] == t[z]);
        assert(!is_digit(y[z]));
    }
}

proof fn lemma_number_sign_free(mp: Seq<char>, d: Seq<char>, e: char, sign: char)
    requires
        all_digits(d),
        d.len() > 0,
        e == 'e' || e == 'E',
        sign == '+' || sign == '-',
    ensures
        is_number(mp + (seq![e, sign] + d)) == is_number(mp + (seq![e] + d)),
{
    let r1 = seq![e] + d;
    let r2 = seq![e, sign] + d;
    let u1 = mp + r1;
    let u2 = mp + r2;
    lemma_exponent_start_concat(mp, r1);
    lemma_exponent_start_concat(mp, r2);
    let k = exponent_start(mp);
    assert(u1.take(k) =~= mp.take(k));
    assert(u2.take(k) =~= mp.take(k));
    if k < mp.len() {
        let z: int = mp.len() - k - 1;
        assert(u1.skip(k)[z + 1] == e);
        assert(u2.skip(k)[z + 1] == e);
        lemma_second_letter(u1.skip(k), z);
        lemma_second_letter(u2.skip(k), z);
    } else {
        assert(u1.skip(k) =~= r1);
        assert(u2.skip(k) =~= r2);
        assert(is_digit(d[0]));
        assert(r1.drop_first() =~= d);
        assert(strip_sign(r1.drop_first()) =~= d);
        assert(r2.drop_first() =~= seq![sign] + d);
        assert(strip_sign(r2.drop_first()) =~= d);
    }
}

/// Whether the exponent has a sign never decides whether text is a float
/// literal: for any text `m`, exponent letter `e` and digits `d` (at least
/// one), `m e± d` is a float literal exactly when `m e d` is.
pub proof fn law_float_literal_sign_free_exponent(
    m: Seq<char>,
    d: Seq<char>,
    e: char,
    sign: char,
)
    requires
        all_digits(d),
        d.len() > 0,
        e == 'e' || e == 'E',
        sign == '+' || sign == '-',
    ensures
        float_literal(m + seq![e, sign] + d) == float_literal(m + seq![e] + d),
{
    let r1 = seq![e] + d;
    let r2 = seq![e, sign] + d;
    assert(m + seq![e] + d =~= m + r1);
    assert(m + seq![e, sign] + d =~= m + r2);
    lemma_strip_sign_concat(m, r1);
    lemma_strip_sign_concat(m, r2);
    let mp = strip_sign(m);
    let u1 = mp + r1;
    let u2 = mp + r2;
    assert(u1.last() == d.last() && u2.last() == d.last());
    assert(is_digit(d[d.len() - 1]));
    lemma_ends_in_digit_not_word(u1, seq!['i', 'n', 'f']);
    lemma_ends_in_digit_not_word(u1, seq!['i', 'n', 'f', 'i', 'n', 'i', 't', 'y']);
    lemma_ends_in_digit_not_word(u1, seq!['n', 'a', 'n']);
    lemma_ends_in_digit_not_word(u2, seq!['i', 'n', 'f']);
    lemma_ends_in_digit_not_word(u2, seq!['i', 'n', 'f', 'i', 'n', 'i', 't', 'y']);
    lemma_ends_in_digit_not_word(u2, seq!['n', 'a', 'n']);
    lemma_number_sign_free(mp, d, e, sign);
}

pub fn all_digits_exec(s: &[char], lo: usize, hi: usize) -> (r: bool)
    requires
        lo <= hi <= s@.len(),
    ensures
        r == all_digits(s@.subrange(lo as int, hi as int)),
{
    let mut i = lo;
    while i < hi
        invariant
            lo <= i <= hi <= s@.len(),
            all_digits(s@.subrange(lo as int, i as int)),
        decreases hi - i,
    {
        let c = s[i];
        if !('0' <= c && c <= '9') {
            assert(s@.subrange(lo as int, hi as int)[i - lo] == c);
            return false;
        }
        i = i + 1;
        assert forall|j: int| 0 <= j < i - lo implies is_digit(
            #[trigger] s@.subrange(lo as int, i as int)[j],
        ) by {
            if j < i - 1 - lo {
                assert(s@.subrange(lo as int, i as int)[j] == s@.subrange(lo as int, i - 1)[j]);
            }
        }
    }
    true
}

fn eq_ignore_case_exec(s: &[char], lo: usize, w: &[char]) -> (r: bool)
    requires
        lo <= s@.len(),
    ensures
        r == eq_ignore_case(s@.skip(lo as int), w@),
{
    if s.len() - lo != w.len() {
        return false;
    }
    let mut i: usize = 0;
    while i < w.len()
        invariant
            lo <= s.len(),
            s.len() - lo == w.len(),
            i <= w@.len(),
            forall|j: int| 0 <= j < i ==> ascii_lower(#[trigger] s@.skip(lo as int)[j]) == w@[j],
        decreases w.len() - i,
    {
        let c = s[lo + i];
        let l = if 'A' <= c && c <= 'Z' {
            ((c as u32 + 32) as u8) as char
        } else {
            c
        };
        assert(s@.skip(lo as int)[i as int] == c);
        assert(l == ascii_lower(c));
        if l != w[i] {
            return false;
        }
        i = i + 1;
    }
    true
}

/// Would `f64::from_str` accept this text?
pub fn is_float_literal(s: &[char]) -> (r: bool)
    ensures
        r == float_literal(s@),
{
    let lo: usize = if s.len() > 0 && (s[0] == '+' || s[0] == '-') {
        1
    } else {
        0
    };
    let ghost u = strip_sign(s@);
    assert(u =~= s@.skip(lo as int));
    let inf = ['i', 'n', 'f'];
    let infinity = ['i', 'n', 'f', 'i', 'n', 'i', 't', 'y'];
    let nan = ['n', 'a', 'n'];
    assert(inf@ =~= seq!['i', 'n', 'f']);
    assert(infinity@ =~= seq!['i', 'n', 'f', 'i', 'n', 'i', 't', 'y']);
    assert(nan@ =~= seq!['n', 'a', 'n']);
    if eq_ignore_case_exec(s, lo, &inf) || eq_ignore_case_exec(s, lo, &infinity)
        || eq_ignore_case_exec(s, lo, &nan) {
        return true;
    }
    let uv = slice_chars(s, lo, s.len());
    assert(uv@ =~= u);
    let a = index_of_exec(uv.as_slice(), 'e');
    let b = index_of_exec(uv.as_slice(), 'E');
    proof {
        lemma_index_from(u, 'e', 0);
        lemma_index_from(u, 'E', 0);
    }
    let e = if a <= b {
        a
    } else {
        b
    };
    let m = slice_chars(uv.as_slice(), 0, e);
    assert(m@ == u.take(e as int));
    let p = index_of_exec(m.as_slice(), '.');
    proof {
        lemma_index_from(m@, '.', 0);
    }
    let mant = if p == m.len() {
        m.len() > 0 && all_digits_exec(m.as_slice(), 0, m.len())
    } else {
        m.len() >= 2 && all_digits_exec(m.as_slice(), 0, p) && all_digits_exec(
            m.as_slice(),
            p + 1,
            m.len(),
        )
    };
    proof {
        assert(m@.subrange(0, m@.len() as int) =~= m@);
        assert(m@.subrange(0, p as int) =~= m@.take(p as int));
        if p < m@.len() {
            assert(m@.subrange(p + 1, m@.len() as int) =~= m@.skip(p + 1));
        }
    }
    if !mant {
        return false;
    }
    if e == uv.len() {
        return true;
    }
    let x = slice_chars(uv.as_slice(), e, uv.len());
    assert(x@ =~= u.skip(e as int));
    if !(x[0] == 'e' || x[0] == 'E') {
        return false;
    }
    let dlo: usize = if x.len() > 1 && (x[1] == '+' || x[1] == '-') {
        2
    } else {
        1
    };
    proof {
        assert(strip_sign(x@.drop_first()) =~= x@.subrange(dlo as int, x@.len() as int));
    }
    x.len() > dlo && all_digits_exec(x.as_slice(), dlo, x.len())
}


/// Text with no whitespace at either end is its own trim.
pub proof fn lemma_trim_noop(s: Seq<char>)
    requires
        s.len() == 0 || (!is_ws(s[0]) && !is_ws(s.last())),
    ensures
        trim(s) == s,
{
    lemma_trim_start_skip(s, 0);
    assert(s.skip(0) =~= s);
    lemma_trim_end_take(s, s.len() as int);
    assert(s.take(s.len() as int) =~= s);
}

pub fn has_char_exec(s: &[char], c: char) -> (r: bool)
    ensures
        r == has_char(s@, c),
{
    let k = index_of_exec(s, c);
    proof {
        lemma_index_from(s@, c, 0);
    }
    k < s.len()
}


/// Joining one more line appends it and its `\n`.
pub proof fn lemma_join_push(ls: Seq<Seq<char>>, l: Seq<char>)
    ensures
        join_lines(ls.push(l)) == join_lines(ls) + l + seq!['\n'],
    decreases ls.len(),
{
    if ls.len() == 0 {
        let one = ls.push(l);
        assert(one.drop_first() =~= Seq::<Seq<char>>::empty());
        assert(one[0] == l);
        assert(join_lines(one.drop_first()) == Seq::<char>::empty());
        assert(join_lines(one) == one[0] + seq!['\n'] + join_lines(one.drop_first()));
        assert(join_lines(ls) == Seq::<char>::empty());
        assert(join_lines(one) =~= join_lines(ls) + l + seq!['\n']);
    } else {
        lemma_join_push(ls.drop_first(), l);
        assert(ls.push(l).drop_first() =~= ls.drop_first().push(l));
        assert(ls.push(l)[0] == ls[0]);
        assert(join_lines(ls.push(l)) =~= join_lines(ls) + l + seq!['\n']);
    }
}


/// `find` gives `m` when `p` occurs at `m` and every earlier position
/// differs from `p` in its first or its last character.
pub proof fn lemma_find_first(t: Seq<char>, p: Seq<char>, m: int)
    requires
        p.len() > 0,
        matches_at(t, p, m),
        forall|j: int|
            0 <= j < m ==> t[j] != p[0] || #[trigger] t[j + p.len() - 1] != p[p.len() - 1],
    ensures
        find(t, p) == Some(m),
{
    assert forall|j: int| 0 <= j < m implies !matches_at(t, p, j) by {
        if matches_at(t, p, j) {
            assert(t.subrange(j, j + p.len())[0] == t[j]);
            assert(t.subrange(j, j + p.len())[p.len() - 1] == t[j + p.len() - 1]);
        }
    }
    lemma_find_from_is(t, p, 0, m);
}

/// `find` gives nothing when every position differs from `p` in its first
/// or its last character.
pub proof fn lemma_find_none(t: Seq<char>, p: Seq<char>)
    requires
        p.len() > 0,
        forall|j: int|
            0 <= j && j + p.len() <= t.len() ==> t[j] != p[0] || #[trigger] t[j + p.len() - 1]
                != p[p.len() - 1],
    ensures
        find(t, p) is None,
{
    assert forall|j: int| 0 <= j implies !matches_at(t, p, j) by {
        if matches_at(t, p, j) {
            assert(t.subrange(j, j + p.len())[0] == t[j]);
            assert(t.subrange(j, j + p.len())[p.len() - 1] == t[j + p.len() - 1]);
        }
    }
    lemma_find_from_none(t, p, 0);
}

pub proof fn lemma_not_starts(t: Seq<char>, p: Seq<char>, i: int)
    requires
        0 <= i < p.len(),
        i < t.len(),
        t[i] != p[i],
    ensures
        !starts_with(t, p),
{
    if starts_with(t, p) {
        assert(t.take(p.len() as int)[i] == t[i]);
    }
}

/// An indented line trims to what follows its indentation.
pub proof fn lemma_trim_indent(l: Seq<char>, k: int)
    requires
        0 <= k < l.len(),
        forall|j: int| 0 <= j < k ==> #[trigger] l[j] == ' ',
        !is_ws(l[k]),
        !is_ws(l.last()),
    ensures
        trim(l) == l.skip(k),
{
    lemma_trim_start_skip(l, k);
    let t = l.skip(k);
    assert(t[0] == l[k]);
    assert(t.last() == l.last());
    lemma_trim_noop(t);
}

// ============================================================
// Ordering strings (`Ord for String`) and sorting
// ============================================================

/// `a` sorts strictly before `b` in `String`'s order: by character codes,
/// a proper prefix first.
pub open spec fn str_lt(a: Seq<char>, b: Seq<char>) -> bool
    decreases a.len(),
{
    if b.len() == 0 {
        false
    } else if a.len() == 0 {
        true
    } else if a[0] != b[0] {
        (a[0] as u32) < (b[0] as u32)
    } else {
        str_lt(a.drop_first(), b.drop_first())
    }
}

pub proof fn lemma_str_lt_skip(a: Seq<char>, b: Seq<char>, i: int)
    requires
        0 <= i <= a.len(),
        i <= b.len(),
        forall|j: int| 0 <= j < i ==> a[j] == b[j],
    ensures
        str_lt(a, b) == str_lt(a.skip(i), b.skip(i)),
    decreases i,
{
    if i == 0 {
        assert(a.skip(0) =~= a);
        assert(b.skip(0) =~= b);
    } else {
        let a1 = a.drop_first();
        let b1 = b.drop_first();
        assert(a[0] == b[0]);
        assert forall|j: int| 0 <= j < i - 1 implies a1[j] == b1[j] by {
            assert(a[j + 1] == b[j + 1]);
        }
        lemma_str_lt_skip(a1, b1, i - 1);
        assert(a1.skip(i - 1) =~= a.skip(i));
        assert(b1.skip(i - 1) =~= b.skip(i));
    }
}

pub fn str_lt_chars(a: &[char], b: &[char]) -> (r: bool)
    ensures
        r == str_lt(a@, b@),
{
    let mut i: usize = 0;
    while i < a.len() && i < b.len()
        invariant
            i <= a@.len(),
            i <= b@.len(),
            forall|j: int| 0 <= j < i ==> a@[j] == b@[j],
        decreases a@.len() - i,
    {
        if a[i] != b[i] {
            proof {
                lemma_str_lt_skip(a@, b@, i as int);
                assert(a@.skip(i as int)[0] == a@[i as int]);
                assert(b@.skip(i as int)[0] == b@[i as int]);
            }
            return (a[i] as u32) < (b[i] as u32);
        }
        i = i + 1;
    }
    proof {
        lemma_str_lt_skip(a@, b@, i as int);
    }
    a.len() < b.len()
}

/// `x` put into `s` before the first element that it sorts before (after
/// the ones equal to it).
pub open spec fn insert_sorted(s: Seq<Seq<char>>, x: Seq<char>) -> Seq<Seq<char>>
    decreases s.len(),
{
    if s.len() == 0 {
        seq![x]
    } else if str_lt(x, s[0]) {
        seq![x] + s
    } else {
        seq![s[0]] + insert_sorted(s.drop_first(), x)
    }
}

/// `s` sorted by insertion, in the order of `str_lt`, equal ones in the
/// order they come (a stable sort).
pub open spec fn sort_strs(s: Seq<Seq<char>>) -> Seq<Seq<char>>
    decreases s.len(),
{
    if s.len() == 0 {
        seq![]
    } else {
        insert_sorted(sort_strs(s.drop_last()), s.last())
    }
}

pub proof fn lemma_insert_sorted(s: Seq<Seq<char>>, x: Seq<char>, k: int)
    requires
        0 <= k <= s.len(),
        forall|j: int| 0 <= j < k ==> !str_lt(x, #[trigger] s[j]),
        k == s.len() || str_lt(x, s[k]),
    ensures
        insert_sorted(s, x) == s.insert(k, x),
    decreases k,
{
    if k == 0 {
        if s.len() == 0 {
            assert(s.insert(0, x) =~= seq![x]);
        } else {
            assert(s.insert(0, x) =~= seq![x] + s);
        }
    } else {
        let t = s.drop_first();
        assert(!str_lt(x, s[0]));
        assert forall|j: int| 0 <= j < k - 1 implies !str_lt(x, #[trigger] t[j]) by {
            assert(t[j] == s[j + 1]);
        }
        if k < s.len() {
            assert(t[k - 1] == s[k]);
        }
        lemma_insert_sorted(t, x, k - 1);
        assert(seq![s[0]] + t.insert(k - 1, x) =~= s.insert(k, x));
    }
}


/// No text sorts before itself.
pub proof fn lemma_str_lt_irrefl(a: Seq<char>)
    ensures
        !str_lt(a, a),
    decreases a.len(),
{
    if a.len() > 0 {
        lemma_str_lt_irrefl(a.drop_first());
    }
}

/// The order of texts is transitive.
pub proof fn lemma_str_lt_trans(a: Seq<char>, b: Seq<char>, c: Seq<char>)
    requires
        str_lt(a, b),
        str_lt(b, c),
    ensures
        str_lt(a, c),
    decreases a.len(),
{
    if a.len() > 0 && b.len() > 0 && c.len() > 0 && a[0] == b[0] && b[0] == c[0] {
        lemma_str_lt_trans(a.drop_first(), b.drop_first(), c.drop_first());
    }
}

/// Of two different texts, one sorts before the other.
pub proof fn lemma_str_lt_total(a: Seq<char>, b: Seq<char>)
    requires
        a != b,
    ensures
        str_lt(a, b) || str_lt(b, a),
    decreases a.len(),
{
    if a.len() == 0 {
        assert(b.len() > 0) by {
            if b.len() == 0 {
                assert(a =~= b);
            }
        }
    } else if b.len() > 0 && a[0] == b[0] {
        if a.drop_first() == b.drop_first() {
            assert(a =~= seq![a[0]] + a.drop_first());
            assert(b =~= seq![b[0]] + b.drop_first());
        }
        lemma_str_lt_total(a.drop_first(), b.drop_first());
    } else if b.len() > 0 {
        vstd::utf8::char_u32_cast(a[0], a[0] as u32);
        vstd::utf8::char_u32_cast(b[0], b[0] as u32);
    }
}

/// Texts in strictly increasing order (so each occurs once).
pub open spec fn strictly_sorted(s: Seq<Seq<char>>) -> bool {
    forall|i: int, j: int| 0 <= i < j < s.len() ==> str_lt(#[trigger] s[i], #[trigger] s[j])
}


proof fn lemma_trim_start_first(s: Seq<char>)
    ensures
        trim_start(s).len() == 0 || !is_ws(trim_start(s)[0]),
    decreases s.len(),
{
    if s.len() > 0 && is_ws(s[0]) {
        lemma_trim_start_first(s.drop_first());
    }
}

proof fn lemma_trim_end_prefix(s: Seq<char>)
    ensures
        trim_end(s) == s.take(trim_end(s).len() as int),
        trim_end(s).len() <= s.len(),
        trim_end(s).len() == 0 || !is_ws(trim_end(s).last()),
    decreases s.len(),
{
    if s.len() > 0 && is_ws(s.last()) {
        let t = s.drop_last();
        lemma_trim_end_prefix(t);
        assert(t.take(trim_end(t).len() as int) =~= s.take(trim_end(t).len() as int));
    } else {
        assert(s.take(s.len() as int) =~= s);
    }
}

/// Trimmed text begins and ends with a non-whitespace character (or is empty).
pub proof fn lemma_trim_ends(s: Seq<char>)
    ensures
        trim(s).len() == 0 || (!is_ws(trim(s)[0]) && !is_ws(trim(s).last())),
{
    let u = trim_start(s);
    lemma_trim_start_first(s);
    lemma_trim_end_prefix(u);
    let v = trim_end(u);
    if v.len() > 0 {
        assert(v[0] == u.take(v.len() as int)[0]);
    }
}

/// Trimming twice trims once.
pub proof fn lemma_trim_idem(s: Seq<char>)
    ensures
        trim(trim(s)) == trim(s),
{
    lemma_trim_ends(s);
    lemma_trim_noop(trim(s));
}

} // verus!
