//! Text helpers: character sequences, ordering of names, decimal rendering.

use vstd::prelude::*;

verus! {

/// Strict lexicographic order on character sequences, comparing characters by
/// their code point. This is the order in which Rust orders `String` values
/// (UTF-8 byte order coincides with code point order).
pub open spec fn seq_lt(a: Seq<char>, b: Seq<char>) -> bool
    decreases a.len(),
{
    if a.len() == 0 {
        b.len() > 0
    } else if b.len() == 0 {
        false
    } else if a[0] != b[0] {
        (a[0] as int) < (b[0] as int)
    } else {
        seq_lt(a.drop_first(), b.drop_first())
    }
}

pub proof fn lemma_seq_lt_irreflexive(a: Seq<char>)
    ensures
        !seq_lt(a, a),
    decreases a.len(),
{
    if a.len() > 0 {
        lemma_seq_lt_irreflexive(a.drop_first());
    }
}

pub proof fn lemma_seq_lt_asymmetric(a: Seq<char>, b: Seq<char>)
    ensures
        !(seq_lt(a, b) && seq_lt(b, a)),
    decreases a.len(),
{
    if a.len() > 0 && b.len() > 0 && a[0] == b[0] {
        lemma_seq_lt_asymmetric(a.drop_first(), b.drop_first());
    }
}

pub proof fn lemma_seq_lt_transitive(a: Seq<char>, b: Seq<char>, c: Seq<char>)
    requires
        seq_lt(a, b),
        seq_lt(b, c),
    ensures
        seq_lt(a, c),
    decreases a.len(),
{
    if a.len() > 0 && b.len() > 0 && c.len() > 0 && a[0] == b[0] && b[0] == c[0] {
        lemma_seq_lt_transitive(a.drop_first(), b.drop_first(), c.drop_first());
    }
}

pub proof fn lemma_seq_lt_total(a: Seq<char>, b: Seq<char>)
    ensures
        a == b || seq_lt(a, b) || seq_lt(b, a),
    decreases a.len(),
{
    if a.len() > 0 && b.len() > 0 && a[0] == b[0] {
        lemma_seq_lt_total(a.drop_first(), b.drop_first());
        if a.drop_first() == b.drop_first() {
            assert(a =~= seq![a[0]] + a.drop_first());
            assert(b =~= seq![b[0]] + b.drop_first());
        }
    } else if a.len() == 0 && b.len() == 0 {
        assert(a =~= b);
    } else if a.len() > 0 && b.len() > 0 {
        assert(a[0] != b[0]);
        assert((a[0] as int) != (b[0] as int));
    }
}

/// The characters of `s`, in order.
pub fn chars_of(s: &str) -> (res: Vec<char>)
    ensures
        res@ == s@,
{
    let n = s.unicode_len();
    let mut res: Vec<char> = Vec::new();
    let mut i: usize = 0;
    while i < n
        invariant
            n == s@.len(),
            i <= n,
            res@ == s@.subrange(0, i as int),
        decreases n - i,
    {
        let c = s.get_char(i);
        res.push(c);
        i = i + 1;
        assert(res@ =~= s@.subrange(0, i as int));
    }
    assert(res@ =~= s@);
    res
}

/// Appends one character to a string.
///
/// Wraps `String::push`, which appends the character at the end of the
/// string. The contract states that effect on the character sequence.
#[verifier::external_body]
pub(crate) fn push_char(s: &mut String, c: char)
    ensures
        final(s)@ == old(s)@.push(c),
{
    s.push(c);
}

/// A string holding a copy of `s`.
pub fn owned(s: &str) -> (res: String)
    ensures
        res@ == s@,
{
    String::from_str(s)
}

/// Appends `b` to `a`.
pub fn append_str(a: &mut String, b: &str)
    ensures
        final(a)@ == old(a)@ + b@,
{
    a.append(b);
}

/// Whether two texts hold the same characters.
pub fn text_eq(a: &str, b: &str) -> (res: bool)
    ensures
        res == (a@ == b@),
{
    let n = a.unicode_len();
    let m = b.unicode_len();
    if n != m {
        return false;
    }
    let mut i: usize = 0;
    while i < n
        invariant
            n == a@.len(),
            m == b@.len(),
            n == m,
            i <= n,
            a@.subrange(0, i as int) == b@.subrange(0, i as int),
        decreases n - i,
    {
        if a.get_char(i) != b.get_char(i) {
            assert(a@[i as int] != b@[i as int]);
            return false;
        }
        i = i + 1;
        assert(a@.subrange(0, i as int) =~= a@.subrange(0, (i - 1) as int).push(a@[i - 1]));
        assert(b@.subrange(0, i as int) =~= b@.subrange(0, (i - 1) as int).push(b@[i - 1]));
    }
    assert(a@ =~= a@.subrange(0, n as int));
    assert(b@ =~= b@.subrange(0, n as int));
    true
}

/// Whether `a` orders strictly before `b` (see `seq_lt`).
pub fn text_lt(a: &str, b: &str) -> (res: bool)
    ensures
        res == seq_lt(a@, b@),
{
    let ca = chars_of(a);
    let cb = chars_of(b);
    assert(ca@.subrange(0, ca@.len() as int) =~= ca@);
    assert(cb@.subrange(0, cb@.len() as int) =~= cb@);
    chars_lt(&ca, &cb, 0)
}

fn chars_lt(a: &Vec<char>, b: &Vec<char>, i: usize) -> (res: bool)
    requires
        i <= a@.len(),
        i <= b@.len(),
    ensures
        res == seq_lt(a@.subrange(i as int, a@.len() as int), b@.subrange(i as int, b@.len() as int)),
    decreases a@.len() - i,
{
    let ghost sa = a@.subrange(i as int, a@.len() as int);
    let ghost sb = b@.subrange(i as int, b@.len() as int);
    if i == a.len() {
        return i < b.len();
    }
    if i == b.len() {
        return false;
    }
    let x = a[i];
    let y = b[i];
    if x != y {
        return x < y;
    }
    assert(sa.drop_first() =~= a@.subrange(i + 1, a@.len() as int));
    assert(sb.drop_first() =~= b@.subrange(i + 1, b@.len() as int));
    chars_lt(a, b, i + 1)
}

/// The character for a decimal digit.
pub open spec fn digit_char(d: nat) -> char {
    if d == 0 {
        '0'
    } else if d == 1 {
        '1'
    } else if d == 2 {
        '2'
    } else if d == 3 {
        '3'
    } else if d == 4 {
        '4'
    } else if d == 5 {
        '5'
    } else if d == 6 {
        '6'
    } else if d == 7 {
        '7'
    } else if d == 8 {
        '8'
    } else {
        '9'
    }
}

/// The decimal rendering of a natural number, most significant digit first,
/// without leading zeros.
pub open spec fn decimal(n: nat) -> Seq<char>
    decreases n,
{
    if n < 10 {
        seq![digit_char(n)]
    } else {
        decimal(n / 10).push(digit_char(n % 10))
    }
}

fn exec_digit_char(d: u64) -> (c: char)
    requires
        d < 10,
    ensures
        c == digit_char(d as nat),
{
    if d == 0 {
        '0'
    } else if d == 1 {
        '1'
    } else if d == 2 {
        '2'
    } else if d == 3 {
        '3'
    } else if d == 4 {
        '4'
    } else if d == 5 {
        '5'
    } else if d == 6 {
        '6'
    } else if d == 7 {
        '7'
    } else if d == 8 {
        '8'
    } else {
        '9'
    }
}

/// Renders `n` in decimal, as `n.to_string()` does.
pub fn decimal_string(n: u64) -> (res: String)
    ensures
        res@ == decimal(n as nat),
    decreases n,
{
    if n < 10 {
        let mut s = String::new();
        push_char(&mut s, exec_digit_char(n));
        assert(s@ =~= seq![digit_char(n as nat)]);
        s
    } else {
        let mut s = decimal_string(n / 10);
        push_char(&mut s, exec_digit_char(n % 10));
        s
    }
}


/// The least element of a non-empty sequence of texts (under `seq_lt`).
pub open spec fn seq_min(s: Seq<Seq<char>>) -> Seq<char>
    decreases s.len(),
{
    if s.len() <= 1 {
        s[0]
    } else {
        let m = seq_min(s.drop_last());
        if seq_lt(s.last(), m) {
            s.last()
        } else {
            m
        }
    }
}

pub proof fn lemma_seq_min(s: Seq<Seq<char>>)
    requires
        s.len() > 0,
    ensures
        s.contains(seq_min(s)),
        forall|i: int| 0 <= i < s.len() ==> !seq_lt(#[trigger] s[i], seq_min(s)),
    decreases s.len(),
{
    if s.len() == 1 {
        assert(s[0] == seq_min(s));
        lemma_seq_lt_irreflexive(s[0]);
    } else {
        let d = s.drop_last();
        lemma_seq_min(d);
        let m = seq_min(d);
        assert forall|i: int| 0 <= i < s.len() implies !seq_lt(#[trigger] s[i], seq_min(s)) by {
            if i < s.len() - 1 {
                assert(d[i] == s[i]);
                if seq_lt(s.last(), m) {
                    if seq_lt(s[i], s.last()) {
                        lemma_seq_lt_transitive(s[i], s.last(), m);
                    }
                }
            } else {
                lemma_seq_lt_irreflexive(s.last());
                if !seq_lt(s.last(), m) {
                }
            }
        }
        let j = choose|j: int| 0 <= j < d.len() && d[j] == m;
        assert(s[j] == m);
        assert(s[s.len() - 1] == s.last());
    }
}

/// The least of a non-empty list of strings.
pub fn min_text(v: &Vec<String>) -> (res: String)
    requires
        v@.len() > 0,
    ensures
        res@ == seq_min(v@.map_values(|x: String| x@)),
{
    let ghost s = v@.map_values(|x: String| x@);
    let mut m = v[0].clone();
    let mut i: usize = 1;
    assert(s.subrange(0, 1).len() == 1);
    while i < v.len()
        invariant
            s == v@.map_values(|x: String| x@),
            1 <= i <= v@.len(),
            m@ == seq_min(s.subrange(0, i as int)),
        decreases v@.len() - i,
    {
        let ghost prev = s.subrange(0, i as int);
        assert(s.subrange(0, i + 1).drop_last() =~= prev);
        if text_lt(v[i].as_str(), m.as_str()) {
            m = v[i].clone();
        }
        i = i + 1;
    }
    assert(s.subrange(0, i as int) =~= s);
    m
}

/// The texts of a list of strings.
pub open spec fn texts(v: Seq<String>) -> Seq<Seq<char>> {
    v.map_values(|x: String| x@)
}

/// Each text orders strictly before the next (so none repeats).
pub open spec fn strictly_sorted(s: Seq<Seq<char>>) -> bool {
    forall|i: int, j: int| 0 <= i < j < s.len() ==> seq_lt(#[trigger] s[i], #[trigger] s[j])
}

/// Position at which `x` belongs in the strictly sorted `s`: the first
/// element not ordered before it.
fn insertion_point(s: &Vec<String>, x: &str) -> (p: usize)
    requires
        strictly_sorted(texts(s@)),
    ensures
        p <= s@.len(),
        forall|i: int| 0 <= i < p ==> seq_lt(#[trigger] texts(s@)[i], x@),
        p < s@.len() ==> !seq_lt(texts(s@)[p as int], x@),
{
    let ghost t = texts(s@);
    let mut p: usize = 0;
    while p < s.len()
        invariant
            t == texts(s@),
            strictly_sorted(t),
            p <= s@.len(),
            forall|i: int| 0 <= i < p ==> seq_lt(#[trigger] t[i], x@),
        decreases s@.len() - p,
    {
        if !text_lt(s[p].as_str(), x) {
            return p;
        }
        p = p + 1;
    }
    p
}

/// The distinct texts of `v`, in increasing order.
pub fn sorted_set(v: &Vec<String>) -> (res: Vec<String>)
    ensures
        strictly_sorted(texts(res@)),
        forall|x: Seq<char>| texts(res@).contains(x) <==> texts(v@).contains(x),
{
    let mut res: Vec<String> = Vec::new();
    let mut i: usize = 0;
    while i < v.len()
        invariant
            i <= v@.len(),
            strictly_sorted(texts(res@)),
            forall|x: Seq<char>| texts(res@).contains(x) <==> texts(v@.take(i as int)).contains(x),
        decreases v@.len() - i,
    {
        let x = &v[i];
        let p = insertion_point(&res, x.as_str());
        let ghost before = texts(res@);
        proof {
            assert(texts(v@.take(i + 1)) =~= texts(v@.take(i as int)).push(x@));
        }
        let ghost t0 = texts(v@.take(i as int));
        let ghost t1 = texts(v@.take(i + 1));
        if p < res.len() && text_eq(res[p].as_str(), x.as_str()) {
            proof {
                assert(before[p as int] == x@);
                assert forall|y: Seq<char>| before.contains(y) <==> t1.contains(y) by {
                    if before.contains(y) {
                        if y == x@ {
                            assert(t1[i as int] == y);
                        } else {
                            assert(t0.contains(y));
                            let k = choose|k: int| 0 <= k < t0.len() && #[trigger] t0[k] == y;
                            assert(t1[k] == y);
                        }
                    }
                    if t1.contains(y) {
                        let k = choose|k: int| 0 <= k < t1.len() && #[trigger] t1[k] == y;
                        if k < i {
                            assert(t0[k] == y);
                            assert(t0.contains(y));
                        } else {
                            assert(before[p as int] == y);
                        }
                    }
                }
            }
        } else {
            res.insert(p, x.clone());
            proof {
                let after = texts(res@);
                assert(after =~= before.insert(p as int, x@));
                assert forall|a: int, b: int| 0 <= a < b < after.len() implies seq_lt(#[trigger] after[a], #[trigger] after[b]) by {
                    if p < before.len() {
                        lemma_seq_lt_total(before[p as int], x@);
                    }
                    if a < p && b == p {
                    } else if a < p && b > p {
                        assert(after[b] == before[b - 1]);
                        if b - 1 == p as int {
                            lemma_seq_lt_total(before[p as int], x@);
                            lemma_seq_lt_transitive(after[a], x@, before[p as int]);
                        } else {
                            lemma_seq_lt_transitive(before[a], before[p as int], before[b - 1]);
                            lemma_seq_lt_total(before[p as int], x@);
                            lemma_seq_lt_transitive(before[a], x@, before[p as int]);
                        }
                    } else if a == p {
                        assert(after[b] == before[b - 1]);
                        lemma_seq_lt_total(before[p as int], x@);
                        if b - 1 > p {
                            lemma_seq_lt_transitive(x@, before[p as int], before[b - 1]);
                        }
                    } else if a > p {
                        assert(after[a] == before[a - 1]);
                        assert(after[b] == before[b - 1]);
                    }
                }
                assert forall|y: Seq<char>| after.contains(y) <==> t1.contains(y) by {
                    if after.contains(y) {
                        let k = choose|k: int| 0 <= k < after.len() && #[trigger] after[k] == y;
                        if k == p {
                            assert(t1[i as int] == y);
                        } else {
                            if k < p {
                                assert(before[k] == y);
                            } else {
                                assert(before[k - 1] == y);
                            }
                            assert(before.contains(y));
                            assert(t0.contains(y));
                            let m = choose|m: int| 0 <= m < t0.len() && #[trigger] t0[m] == y;
                            assert(t1[m] == y);
                        }
                    }
                    if t1.contains(y) {
                        let k = choose|k: int| 0 <= k < t1.len() && #[trigger] t1[k] == y;
                        if k == i {
                            assert(after[p as int] == y);
                        } else {
                            assert(t0[k] == y);
                            assert(t0.contains(y));
                            assert(before.contains(y));
                            let m = choose|m: int| 0 <= m < before.len() && #[trigger] before[m] == y;
                            if m < p {
                                assert(after[m] == y);
                            } else {
                                assert(after[m + 1] == y);
                            }
                        }
                    }
                }
            }
        }
        i = i + 1;
    }
    proof {
        assert(v@.take(i as int) =~= v@);
    }
    res
}

/// The decimal rendering of an integer, with a leading `-` when negative.
pub open spec fn signed_decimal(n: int) -> Seq<char> {
    if n >= 0 {
        decimal(n as nat)
    } else {
        seq!['-'] + decimal((-n) as nat)
    }
}

/// Renders `n` in decimal, as `n.to_string()` does.
pub fn signed_decimal_string(n: i64) -> (res: String)
    ensures
        res@ == signed_decimal(n as int),
{
    if n >= 0 {
        decimal_string(n as u64)
    } else {
        let m: u64 = ((-(n + 1)) as u64) + 1;
        let mut s = String::new();
        push_char(&mut s, '-');
        let digits = decimal_string(m);
        append_str(&mut s, digits.as_str());
        assert(s@ =~= seq!['-'] + decimal((-n) as nat));
        s
    }
}

/// The characters `a..b` of `cs`.
pub fn text_range(cs: &Vec<char>, a: usize, b: usize) -> (res: String)
    requires
        a <= b <= cs@.len(),
    ensures
        res@ == cs@.subrange(a as int, b as int),
{
    let mut res = String::new();
    let mut i = a;
    while i < b
        invariant
            a <= i <= b,
            b <= cs@.len(),
            res@ == cs@.subrange(a as int, i as int),
        decreases b - i,
    {
        push_char(&mut res, cs[i]);
        i = i + 1;
        assert(res@ =~= cs@.subrange(a as int, i as int));
    }
    res
}

/// Unicode white space (the characters `char::is_whitespace` accepts).
pub open spec fn is_ws(c: char) -> bool {
    ||| c == ' '
    ||| ('\u{9}' <= c && c <= '\u{d}')
    ||| c == '\u{85}'
    ||| c == '\u{a0}'
    ||| c == '\u{1680}'
    ||| ('\u{2000}' <= c && c <= '\u{200a}')
    ||| c == '\u{2028}'
    ||| c == '\u{2029}'
    ||| c == '\u{202f}'
    ||| c == '\u{205f}'
    ||| c == '\u{3000}'
}

fn exec_is_ws(c: char) -> (b: bool)
    ensures
        b == is_ws(c),
{
    c == ' ' || ('\u{9}' <= c && c <= '\u{d}') || c == '\u{85}' || c == '\u{a0}' || c == '\u{1680}'
        || ('\u{2000}' <= c && c <= '\u{200a}') || c == '\u{2028}' || c == '\u{2029}' || c == '\u{202f}'
        || c == '\u{205f}' || c == '\u{3000}'
}

/// The words of the first `i` characters of `s` found so far, and the word
/// being read.
pub open spec fn split_acc(s: Seq<char>, i: int) -> (Seq<Seq<char>>, Seq<char>)
    decreases i,
{
    if i <= 0 {
        (Seq::empty(), Seq::empty())
    } else {
        let (ws, cur) = split_acc(s, i - 1);
        if is_ws(s[i - 1]) {
            if cur.len() > 0 {
                (ws.push(cur), Seq::empty())
            } else {
                (ws, Seq::empty())
            }
        } else {
            (ws, cur.push(s[i - 1]))
        }
    }
}

/// The maximal runs of non-white-space characters of `s`, in order.
pub open spec fn words(s: Seq<char>) -> Seq<Seq<char>> {
    let (ws, cur) = split_acc(s, s.len() as int);
    if cur.len() > 0 {
        ws.push(cur)
    } else {
        ws
    }
}

/// Splits `s` at white space (as `split_whitespace` does).
pub fn split_words(s: &str) -> (res: Vec<String>)
    ensures
        texts(res@) == words(s@),
{
    let cs = chars_of(s);
    let mut ws: Vec<String> = Vec::new();
    let mut cur = String::new();
    let mut i: usize = 0;
    while i < cs.len()
        invariant
            cs@ == s@,
            i <= cs@.len(),
            (texts(ws@), cur@) == split_acc(s@, i as int),
        decreases cs@.len() - i,
    {
        let c = cs[i];
        if exec_is_ws(c) {
            if cur.unicode_len() > 0 {
                let w = cur;
                cur = String::new();
                ws.push(w);
                proof {
                    assert(texts(ws@) =~= split_acc(s@, i as int).0.push(split_acc(s@, i as int).1));
                }
            }
        } else {
            push_char(&mut cur, c);
        }
        i = i + 1;
        proof {
            assert(cur@ == split_acc(s@, i as int).1);
            assert(texts(ws@) =~= split_acc(s@, i as int).0);
        }
    }
    if cur.unicode_len() > 0 {
        ws.push(cur);
        proof {
            assert(texts(ws@) =~= words(s@));
        }
    }
    ws
}

/// The value of a sequence of decimal digits.
pub open spec fn digits_value(d: Seq<char>) -> nat
    decreases d.len(),
{
    if d.len() == 0 {
        0
    } else {
        digits_value(d.drop_last()) * 10 + ((d.last() as int - '0' as int) as nat)
    }
}

pub open spec fn all_digits(d: Seq<char>) -> bool {
    forall|i: int| 0 <= i < d.len() ==> '0' <= #[trigger] d[i] && d[i] <= '9'
}

/// The number `s` writes in decimal (an optional `+`, then digits), when it
/// fits in a `u32` (as `str::parse::<u32>` reads it).
pub open spec fn parse_u32_spec(s: Seq<char>) -> Option<u32> {
    let d = if s.len() > 0 && s[0] == '+' { s.drop_first() } else { s };
    if d.len() > 0 && all_digits(d) && digits_value(d) <= u32::MAX {
        Some(digits_value(d) as u32)
    } else {
        None
    }
}

pub proof fn lemma_digits_value_prefix(d: Seq<char>, i: int)
    requires
        0 <= i < d.len(),
    ensures
        digits_value(d.take(i + 1)) == digits_value(d.take(i)) * 10 + ((d[i] as int - '0' as int) as nat),
{
    assert(d.take(i + 1).drop_last() =~= d.take(i));
}

pub proof fn lemma_digits_value_mono(d: Seq<char>, i: int)
    requires
        0 <= i <= d.len(),
        all_digits(d),
    ensures
        digits_value(d.take(i)) <= digits_value(d),
    decreases d.len() - i,
{
    if i < d.len() {
        lemma_digits_value_prefix(d, i);
        lemma_digits_value_mono(d, i + 1);
        assert(d.take(d.len() as int) =~= d);
    } else {
        assert(d.take(i) =~= d);
    }
}

/// Reads a `u32` written in decimal (see `parse_u32_spec`).
pub fn parse_u32(s: &str) -> (res: Option<u32>)
    ensures
        res == parse_u32_spec(s@),
{
    let cs = chars_of(s);
    let start: usize = if cs.len() > 0 && cs[0] == '+' { 1 } else { 0 };
    let ghost d = if s@.len() > 0 && s@[0] == '+' { s@.drop_first() } else { s@ };
    proof {
        assert(d =~= cs@.subrange(start as int, cs@.len() as int));
    }
    if start >= cs.len() {
        return None;
    }
    let mut value: u64 = 0;
    let mut i: usize = start;
    while i < cs.len()
        invariant
            cs@ == s@,
            d == (if s@.len() > 0 && s@[0] == '+' { s@.drop_first() } else { s@ }),
            d == cs@.subrange(start as int, cs@.len() as int),
            start <= i <= cs@.len(),
            all_digits(d.take(i - start)),
            value as nat == digits_value(d.take(i - start)),
            value <= u32::MAX,
        decreases cs@.len() - i,
    {
        let c = cs[i];
        if !('0' <= c && c <= '9') {
            proof {
                assert(d[i - start] == c);
                assert(!all_digits(d));
            }
            return None;
        }
        let digit = (c as u32 - '0' as u32) as u64;
        proof {
            lemma_digits_value_prefix(d, i - start);
            assert(d[i - start] == c);
        }
        value = value * 10 + digit;
        proof {
            assert(value as nat == digits_value(d.take(i - start + 1)));
            assert(all_digits(d.take(i - start + 1))) by {
                assert forall|k: int| 0 <= k < d.take(i - start + 1).len() implies '0' <= #[trigger] d.take(i - start + 1)[k]
                    && d.take(i - start + 1)[k] <= '9' by {
                    if k < i - start {
                        assert(d.take(i - start)[k] == d[k]);
                    }
                }
            }
        }
        if value > u32::MAX as u64 {
            proof {
                if all_digits(d) {
                    lemma_digits_value_mono(d, i - start + 1);
                    assert(digits_value(d) > u32::MAX);
                }
                assert(parse_u32_spec(s@) is None);
            }
            return None;
        }
        i = i + 1;
    }
    proof {
        assert(d.take(i - start) =~= d);
    }
    Some(value as u32)
}

/// The value of a sequence of decimal digits, or the largest `u64` when it
/// is larger.
pub open spec fn saturating_digits_value(d: Seq<char>) -> u64 {
    if digits_value(d) > u64::MAX {
        u64::MAX
    } else {
        digits_value(d) as u64
    }
}

/// Reads a number written in decimal digits, saturating at the largest `u64`.
pub fn parse_digits_saturating(s: &str) -> (res: u64)
    requires
        all_digits(s@),
    ensures
        res == saturating_digits_value(s@),
{
    let cs = chars_of(s);
    let mut value: u64 = 0;
    let mut saturated = false;
    let mut i: usize = 0;
    while i < cs.len()
        invariant
            cs@ == s@,
            all_digits(s@),
            i <= cs@.len(),
            !saturated ==> value as nat == digits_value(s@.take(i as int)),
            saturated ==> digits_value(s@.take(i as int)) > u64::MAX,
        decreases cs@.len() - i,
    {
        let c = cs[i];
        let digit = (c as u32 - '0' as u32) as u64;
        proof {
            lemma_digits_value_prefix(s@, i as int);
        }
        if !saturated {
            if value > (u64::MAX - digit) / 10 {
                saturated = true;
                proof {
                    assert(value * 10 + digit > u64::MAX) by (nonlinear_arith)
                        requires
                            value > (u64::MAX - digit) / 10,
                            digit <= 9;
                }
            } else {
                proof {
                    assert(value * 10 + digit <= u64::MAX) by (nonlinear_arith)
                        requires
                            value <= (u64::MAX - digit) / 10,
                            digit <= 9;
                }
                value = value * 10 + digit;
            }
        } else {
            proof {
                assert(digits_value(s@.take(i as int)) * 10 >= digits_value(s@.take(i as int))) by (nonlinear_arith);
            }
        }
        i = i + 1;
    }
    proof {
        assert(s@.take(i as int) =~= s@);
    }
    if saturated {
        u64::MAX
    } else {
        value
    }
}

pub proof fn lemma_sorted_head_not_in_tail(a: Seq<Seq<char>>)
    requires
        strictly_sorted(a),
        a.len() > 0,
    ensures
        !a.drop_first().contains(a[0]),
        forall|x: Seq<char>| a.contains(x) <==> (x == a[0] || a.drop_first().contains(x)),
{
    if a.drop_first().contains(a[0]) {
        let k = choose|k: int| 0 <= k < a.drop_first().len() && #[trigger] a.drop_first()[k] == a[0];
        assert(a[k + 1] == a[0]);
        assert(seq_lt(a[0], a[k + 1]));
        lemma_seq_lt_irreflexive(a[0]);
    }
    assert forall|x: Seq<char>| a.contains(x) <==> (x == a[0] || a.drop_first().contains(x)) by {
        if a.contains(x) {
            let k = choose|k: int| 0 <= k < a.len() && #[trigger] a[k] == x;
            if k > 0 {
                assert(a.drop_first()[k - 1] == x);
            }
        }
        if a.drop_first().contains(x) {
            let k = choose|k: int| 0 <= k < a.drop_first().len() && #[trigger] a.drop_first()[k] == x;
            assert(a[k + 1] == x);
        }
        if x == a[0] {
            assert(a[0] == x);
        }
    }
}

/// Two strictly sorted sequences with the same elements are equal.
pub proof fn lemma_sorted_unique(a: Seq<Seq<char>>, b: Seq<Seq<char>>)
    requires
        strictly_sorted(a),
        strictly_sorted(b),
        forall|x: Seq<char>| a.contains(x) <==> b.contains(x),
    ensures
        a == b,
    decreases a.len(),
{
    if a.len() == 0 {
        if b.len() > 0 {
            assert(b.contains(b[0]));
        }
        assert(a =~= b);
    } else {
        assert(a.contains(a[0]));
        assert(b.len() > 0);
        assert(b.contains(b[0]));
        let j = choose|j: int| 0 <= j < b.len() && #[trigger] b[j] == a[0];
        let i = choose|i: int| 0 <= i < a.len() && #[trigger] a[i] == b[0];
        if j > 0 {
            assert(seq_lt(b[0], b[j]));
            if i > 0 {
                assert(seq_lt(a[0], a[i]));
                lemma_seq_lt_asymmetric(a[0], b[0]);
            } else {
                lemma_seq_lt_irreflexive(a[0]);
            }
        }
        assert(a[0] == b[0]);
        lemma_sorted_head_not_in_tail(a);
        lemma_sorted_head_not_in_tail(b);
        let a1 = a.drop_first();
        let b1 = b.drop_first();
        assert(strictly_sorted(a1)) by {
            assert forall|p: int, q: int| 0 <= p < q < a1.len() implies seq_lt(#[trigger] a1[p], #[trigger] a1[q]) by {
                assert(a1[p] == a[p + 1]);
                assert(a1[q] == a[q + 1]);
            }
        }
        assert(strictly_sorted(b1)) by {
            assert forall|p: int, q: int| 0 <= p < q < b1.len() implies seq_lt(#[trigger] b1[p], #[trigger] b1[q]) by {
                assert(b1[p] == b[p + 1]);
                assert(b1[q] == b[q + 1]);
            }
        }
        assert forall|x: Seq<char>| a1.contains(x) <==> b1.contains(x) by {
            if a1.contains(x) {
                assert(a.contains(x));
                assert(b.contains(x));
                assert(x != a[0]);
            }
            if b1.contains(x) {
                assert(b.contains(x));
                assert(a.contains(x));
                assert(x != b[0]);
            }
        }
        lemma_sorted_unique(a1, b1);
        assert(a =~= seq![a[0]] + a1);
        assert(b =~= seq![b[0]] + b1);
    }
}

/// The strictly sorted sequence of the texts in `a` or `b`.
pub open spec fn sorted_union(a: Seq<Seq<char>>, b: Seq<Seq<char>>) -> Seq<Seq<char>> {
    choose|ks: Seq<Seq<char>>| strictly_sorted(ks) && forall|x: Seq<char>| #[trigger] ks.contains(x) <==> (a.contains(x) || b.contains(x))
}

pub proof fn lemma_sorted_union(a: Seq<Seq<char>>, b: Seq<Seq<char>>, ks: Seq<Seq<char>>)
    requires
        strictly_sorted(ks),
        forall|x: Seq<char>| #[trigger] ks.contains(x) <==> (a.contains(x) || b.contains(x)),
    ensures
        sorted_union(a, b) == ks,
{
    let u = sorted_union(a, b);
    assert(strictly_sorted(u) && forall|x: Seq<char>| #[trigger] u.contains(x) <==> (a.contains(x) || b.contains(x)));
    lemma_sorted_unique(u, ks);
}


/// `s` without its leading white space.
pub open spec fn trim_front(s: Seq<char>) -> Seq<char>
    decreases s.len(),
{
    if s.len() > 0 && is_ws(s[0]) {
        trim_front(s.drop_first())
    } else {
        s
    }
}

/// `s` without its trailing white space.
pub open spec fn trim_back(s: Seq<char>) -> Seq<char>
    decreases s.len(),
{
    if s.len() > 0 && is_ws(s.last()) {
        trim_back(s.drop_last())
    } else {
        s
    }
}

/// `s` without leading and trailing white space (as `str::trim` gives it).
pub open spec fn trimmed(s: Seq<char>) -> Seq<char> {
    trim_back(trim_front(s))
}

proof fn lemma_trim_front(s: Seq<char>, i: int)
    requires
        0 <= i <= s.len(),
        forall|j: int| 0 <= j < i ==> is_ws(#[trigger] s[j]),
    ensures
        trim_front(s) == trim_front(s.subrange(i, s.len() as int)),
    decreases i,
{
    if i > 0 {
        let t = s.drop_first();
        assert forall|j: int| 0 <= j < i - 1 implies is_ws(#[trigger] t[j]) by {
            assert(t[j] == s[j + 1]);
        }
        lemma_trim_front(t, i - 1);
        assert(t.subrange(i - 1, t.len() as int) =~= s.subrange(i, s.len() as int));
    } else {
        assert(s.subrange(0, s.len() as int) =~= s);
    }
}

proof fn lemma_trim_back(s: Seq<char>, e: int)
    requires
        0 <= e <= s.len(),
        forall|j: int| e <= j < s.len() ==> is_ws(#[trigger] s[j]),
    ensures
        trim_back(s) == trim_back(s.subrange(0, e)),
    decreases s.len() - e,
{
    if e < s.len() {
        let t = s.drop_last();
        assert forall|j: int| e <= j < t.len() implies is_ws(#[trigger] t[j]) by {
            assert(t[j] == s[j]);
        }
        lemma_trim_back(t, e);
        assert(t.subrange(0, e) =~= s.subrange(0, e));
    } else {
        assert(s.subrange(0, e) =~= s);
    }
}

/// `s` without leading and trailing white space.
pub fn trim_text(s: &str) -> (res: String)
    ensures
        res@ == trimmed(s@),
{
    let cs = chars_of(s);
    let n = cs.len();
    let mut a: usize = 0;
    while a < n && exec_is_ws(cs[a])
        invariant
            cs@ == s@,
            n == cs@.len(),
            a <= n,
            forall|j: int| 0 <= j < a ==> is_ws(#[trigger] cs@[j]),
        decreases n - a,
    {
        a = a + 1;
    }
    let ghost f = cs@.subrange(a as int, n as int);
    proof {
        lemma_trim_front(cs@, a as int);
        if a < n {
            assert(f[0] == cs@[a as int]);
        }
    }
    assert(trim_front(s@) == f);
    let mut b: usize = n;
    while b > a && exec_is_ws(cs[b - 1])
        invariant
            cs@ == s@,
            n == cs@.len(),
            a <= b <= n,
            f == cs@.subrange(a as int, n as int),
            forall|j: int| b <= j < n ==> is_ws(#[trigger] cs@[j]),
        decreases b - a,
    {
        b = b - 1;
    }
    proof {
        let e = b - a;
        assert forall|j: int| e <= j < f.len() implies is_ws(#[trigger] f[j]) by {
            assert(f[j] == cs@[a + j]);
        }
        lemma_trim_back(f, e as int);
        let g = f.subrange(0, e as int);
        assert(g =~= cs@.subrange(a as int, b as int));
        if e > 0 {
            assert(g.last() == cs@[b - 1]);
        }
    }
    text_range(&cs, a, b)
}

/// The ASCII lower-case form of a character; other characters stay.
pub open spec fn lower_char(c: char) -> char {
    if 'A' <= c && c <= 'Z' {
        ((c as u32 + 32) as u8) as char
    } else {
        c
    }
}

/// `s` with its ASCII letters in lower case (as `to_ascii_lowercase` gives it).
pub open spec fn ascii_lower(s: Seq<char>) -> Seq<char> {
    s.map_values(|c: char| lower_char(c))
}

/// `s` with its ASCII letters in lower case.
pub fn ascii_lowercase(s: &str) -> (res: String)
    ensures
        res@ == ascii_lower(s@),
{
    let cs = chars_of(s);
    let mut res = String::new();
    let mut i: usize = 0;
    while i < cs.len()
        invariant
            cs@ == s@,
            i <= cs@.len(),
            res@ == ascii_lower(cs@.subrange(0, i as int)),
        decreases cs@.len() - i,
    {
        let c = cs[i];
        let lc = if 'A' <= c && c <= 'Z' {
            ((c as u32 + 32) as u8) as char
        } else {
            c
        };
        push_char(&mut res, lc);
        assert(ascii_lower(cs@.subrange(0, i + 1)) =~= ascii_lower(cs@.subrange(0, i as int)).push(lc));
        i = i + 1;
    }
    assert(cs@.subrange(0, i as int) =~= cs@);
    res
}


/// The texts of `s` with `sep` between each two.
pub open spec fn join(s: Seq<Seq<char>>, sep: Seq<char>) -> Seq<char>
    decreases s.len(),
{
    if s.len() == 0 {
        Seq::empty()
    } else if s.len() == 1 {
        s[0]
    } else {
        join(s.drop_last(), sep) + sep + s.last()
    }
}

/// The texts of `items` with `sep` between each two.
pub fn join_texts(items: &[String], sep: &str) -> (res: String)
    ensures
        res@ == join(texts(items@), sep@),
{
    let ghost t = texts(items@);
    let mut res = String::new();
    let mut i: usize = 0;
    proof {
        assert(t.take(0) =~= Seq::<Seq<char>>::empty());
    }
    while i < items.len()
        invariant
            t == texts(items@),
            i <= t.len(),
            res@ == join(t.take(i as int), sep@),
        decreases t.len() - i,
    {
        let ghost before = res@;
        if i > 0 {
            append_str(&mut res, sep);
        }
        append_str(&mut res, items[i].as_str());
        proof {
            let n = t.take(i + 1);
            assert(n.drop_last() =~= t.take(i as int));
            assert(n.last() == items@[i as int]@);
            if i == 0 {
                assert(n.len() == 1);
                assert(res@ =~= n[0]);
            } else {
                assert(res@ =~= join(n.drop_last(), sep@) + sep@ + n.last());
            }
        }
        i = i + 1;
    }
    proof {
        assert(t.take(i as int) =~= t);
    }
    res
}

/// The position of the first `c` in `s`, if any.
pub open spec fn first_of(s: Seq<char>, c: char) -> Option<int> {
    if exists|i: int| 0 <= i < s.len() && s[i] == c {
        Some(choose|i: int| 0 <= i < s.len() && s[i] == c && forall|k: int| 0 <= k < i ==> s[k] != c)
    } else {
        None
    }
}

/// The position of the first `c` in `s`, if any.
pub fn find_char(s: &str, c: char) -> (res: Option<usize>)
    ensures
        match res {
            Some(p) => p < s@.len() && s@[p as int] == c && forall|k: int| 0 <= k < p ==> s@[k] != c,
            None => forall|k: int| 0 <= k < s@.len() ==> s@[k] != c,
        },
        res matches Some(p) ==> first_of(s@, c) == Some(p as int),
        res is None ==> first_of(s@, c) is None,
{
    let cs = chars_of(s);
    let mut i: usize = 0;
    while i < cs.len()
        invariant
            cs@ == s@,
            i <= cs@.len(),
            forall|k: int| 0 <= k < i ==> cs@[k] != c,
        decreases cs@.len() - i,
    {
        if cs[i] == c {
            proof {
                let ii = i as int;
                assert(0 <= ii < s@.len() && s@[ii] == c && forall|k: int| 0 <= k < ii ==> s@[k] != c);
                let j = choose|j: int| 0 <= j < s@.len() && s@[j] == c && forall|k: int| 0 <= k < j ==> s@[k] != c;
                if j < ii {
                    assert(s@[j] != c);
                }
                if ii < j {
                    assert(s@[ii] != c);
                }
            }
            return Some(i);
        }
        i = i + 1;
    }
    None
}

/// No text of `s` orders before an earlier one.
pub open spec fn sorted_texts(s: Seq<Seq<char>>) -> bool {
    forall|i: int, j: int| 0 <= i < j < s.len() ==> !seq_lt(#[trigger] s[j], #[trigger] s[i])
}

/// The texts of `v` in increasing order, repeats kept.
pub fn sort_texts(v: &Vec<String>) -> (res: Vec<String>)
    ensures
        sorted_texts(texts(res@)),
        texts(res@).to_multiset() == texts(v@).to_multiset(),
{
    broadcast use vstd::seq_lib::to_multiset_insert, vstd::seq_lib::to_multiset_build;
    let mut res: Vec<String> = Vec::new();
    let mut i: usize = 0;
    proof {
        assert(texts(v@).take(0) =~= Seq::<Seq<char>>::empty());
        assert(texts(res@) =~= Seq::<Seq<char>>::empty());
    }
    while i < v.len()
        invariant
            i <= v@.len(),
            sorted_texts(texts(res@)),
            texts(res@).to_multiset() == texts(v@).take(i as int).to_multiset(),
        decreases v@.len() - i,
    {
        let x = v[i].clone();
        let ghost t = texts(res@);
        let mut p: usize = 0;
        while p < res.len() && !text_lt(x.as_str(), res[p].as_str())
            invariant
                t == texts(res@),
                p <= t.len(),
                forall|k: int| 0 <= k < p ==> !seq_lt(x@, #[trigger] t[k]),
            decreases t.len() - p,
        {
            p = p + 1;
        }
        proof {
            if p < t.len() {
                assert forall|k: int| p <= k < t.len() implies seq_lt(x@, #[trigger] t[k]) by {
                    if k > p {
                        assert(!seq_lt(t[k], t[p as int]));
                        lemma_seq_lt_total(t[p as int], t[k]);
                        if t[p as int] != t[k] {
                            lemma_seq_lt_transitive(x@, t[p as int], t[k]);
                        }
                    }
                }
            }
        }
        res.insert(p, x);
        proof {
            let n = texts(res@);
            assert(n =~= t.insert(p as int, v@[i as int]@));
            assert forall|a: int, b: int| 0 <= a < b < n.len() implies !seq_lt(#[trigger] n[b], #[trigger] n[a]) by {
                if a < p && b == p {
                } else if a == p && b > p {
                    assert(n[b] == t[b - 1]);
                    lemma_seq_lt_asymmetric(x@, t[b - 1]);
                } else if a < p && b > p {
                    assert(n[b] == t[b - 1]);
                } else if a > p {
                    assert(n[a] == t[a - 1]);
                    assert(n[b] == t[b - 1]);
                }
            }
            assert(texts(v@).take(i + 1) =~= texts(v@).take(i as int).push(v@[i as int]@));
            vstd::seq_lib::to_multiset_insert(t, p as int, v@[i as int]@);
            vstd::seq_lib::to_multiset_build(texts(v@).take(i as int), v@[i as int]@);
            assert(n.to_multiset() == texts(v@).take(i + 1).to_multiset());
        }
        i = i + 1;
    }
    proof {
        assert(texts(v@).take(i as int) =~= texts(v@));
    }
    res
}


/// `s` ends with `suffix`.
pub open spec fn ends_with(s: Seq<char>, suffix: Seq<char>) -> bool {
    s.len() >= suffix.len() && s.skip(s.len() - suffix.len()) == suffix
}

/// Whether `s` ends with `suffix`.
pub fn text_ends_with(s: &str, suffix: &str) -> (res: bool)
    ensures
        res == ends_with(s@, suffix@),
{
    let a = chars_of(s);
    let b = chars_of(suffix);
    if a.len() < b.len() {
        return false;
    }
    let n = a.len();
    let off = n - b.len();
    let mut i: usize = 0;
    while i < b.len()
        invariant
            n == a@.len(),
            a@ == s@,
            b@ == suffix@,
            off == a@.len() - b@.len(),
            i <= b@.len(),
            forall|k: int| 0 <= k < i ==> a@[off + k] == b@[k],
        decreases b@.len() - i,
    {
        if a[off + i] != b[i] {
            proof {
                assert(s@.skip(off as int)[i as int] != suffix@[i as int]);
            }
            return false;
        }
        i = i + 1;
    }
    proof {
        assert(s@.skip(off as int) =~= suffix@);
    }
    true
}


/// `x` put into the strictly sorted `r`, which does not hold it.
proof fn insert_sorted(r: Seq<Seq<char>>, x: Seq<char>) -> (res: Seq<Seq<char>>)
    requires
        strictly_sorted(r),
        !r.contains(x),
    ensures
        strictly_sorted(res),
        forall|y: Seq<char>| #[trigger] res.contains(y) <==> (r.contains(y) || y == x),
    decreases r.len(),
{
    if r.len() == 0 {
        let res = seq![x];
        assert(res[0] == x);
        res
    } else {
        let l = r.last();
        lemma_seq_lt_total(l, x);
        if seq_lt(l, x) {
            let res = r.push(x);
            assert forall|i: int, j: int| 0 <= i < j < res.len() implies seq_lt(#[trigger] res[i], #[trigger] res[j]) by {
                if j == res.len() - 1 && i < r.len() - 1 {
                    assert(seq_lt(r[i], l));
                    lemma_seq_lt_transitive(r[i], l, x);
                }
            }
            assert forall|y: Seq<char>| #[trigger] res.contains(y) <==> (r.contains(y) || y == x) by {
                if r.contains(y) {
                    let k = choose|k: int| 0 <= k < r.len() && r[k] == y;
                    assert(res[k] == y);
                }
                if y == x {
                    assert(res[r.len() as int] == x);
                }
                if res.contains(y) {
                    let k = choose|k: int| 0 <= k < res.len() && res[k] == y;
                    if k < r.len() {
                        assert(r[k] == y);
                    }
                }
            }
            res
        } else {
            let d = r.drop_last();
            assert(l != x) by {
                assert(r[r.len() - 1] == l);
            }
            assert(!d.contains(x)) by {
                if d.contains(x) {
                    let k = choose|k: int| 0 <= k < d.len() && d[k] == x;
                    assert(r[k] == x);
                }
            }
            assert(strictly_sorted(d)) by {
                assert forall|i: int, j: int| 0 <= i < j < d.len() implies seq_lt(#[trigger] d[i], #[trigger] d[j]) by {
                    assert(d[i] == r[i] && d[j] == r[j]);
                }
            }
            let t = insert_sorted(d, x);
            let res = t.push(l);
            assert forall|i: int| 0 <= i < t.len() implies seq_lt(#[trigger] t[i], l) by {
                assert(t.contains(t[i]));
                if t[i] != x {
                    assert(d.contains(t[i]));
                    let k = choose|k: int| 0 <= k < d.len() && d[k] == t[i];
                    assert(r[k] == t[i]);
                    assert(r[r.len() - 1] == l);
                }
            }
            assert forall|i: int, j: int| 0 <= i < j < res.len() implies seq_lt(#[trigger] res[i], #[trigger] res[j]) by {
                if j == res.len() - 1 {
                    assert(res[i] == t[i]);
                } else {
                    assert(res[i] == t[i] && res[j] == t[j]);
                }
            }
            assert forall|y: Seq<char>| #[trigger] res.contains(y) <==> (r.contains(y) || y == x) by {
                if res.contains(y) {
                    let k = choose|k: int| 0 <= k < res.len() && res[k] == y;
                    if k < t.len() {
                        assert(t[k] == y);
                        assert(t.contains(y));
                        if y != x {
                            let m = choose|m: int| 0 <= m < d.len() && d[m] == y;
                            assert(r[m] == y);
                        }
                    } else {
                        assert(r[r.len() - 1] == y);
                    }
                }
                if r.contains(y) {
                    let k = choose|k: int| 0 <= k < r.len() && r[k] == y;
                    if k == r.len() - 1 {
                        assert(res[t.len() as int] == y);
                    } else {
                        assert(d[k] == y);
                        assert(t.contains(y));
                        let m = choose|m: int| 0 <= m < t.len() && t[m] == y;
                        assert(res[m] == y);
                    }
                }
                if y == x {
                    assert(t.contains(x));
                    let m = choose|m: int| 0 <= m < t.len() && t[m] == x;
                    assert(res[m] == x);
                }
            }
            res
        }
    }
}

/// The distinct texts of `s` in increasing order exist.
proof fn sorted_distinct(s: Seq<Seq<char>>) -> (res: Seq<Seq<char>>)
    ensures
        strictly_sorted(res),
        forall|y: Seq<char>| #[trigger] res.contains(y) <==> s.contains(y),
    decreases s.len(),
{
    if s.len() == 0 {
        Seq::empty()
    } else {
        let d = s.drop_last();
        let r = sorted_distinct(d);
        let x = s.last();
        let res = if r.contains(x) {
            r
        } else {
            insert_sorted(r, x)
        };
        assert forall|y: Seq<char>| #[trigger] res.contains(y) <==> s.contains(y) by {
            if s.contains(y) {
                let k = choose|k: int| 0 <= k < s.len() && s[k] == y;
                if k < d.len() {
                    assert(d[k] == y);
                    assert(d.contains(y));
                }
            }
            if d.contains(y) {
                let k = choose|k: int| 0 <= k < d.len() && d[k] == y;
                assert(s[k] == y);
            }
            assert(s[s.len() - 1] == x);
        }
        res
    }
}

/// `sorted_union(a, b)` is strictly sorted and holds exactly the texts of
/// `a` and `b`.
pub proof fn lemma_sorted_union_spec(a: Seq<Seq<char>>, b: Seq<Seq<char>>)
    ensures
        strictly_sorted(sorted_union(a, b)),
        forall|x: Seq<char>| #[trigger] sorted_union(a, b).contains(x) <==> (a.contains(x) || b.contains(x)),
{
    let ks = sorted_distinct(a + b);
    assert forall|x: Seq<char>| #[trigger] ks.contains(x) <==> (a.contains(x) || b.contains(x)) by {
        if (a + b).contains(x) {
            let k = choose|k: int| 0 <= k < (a + b).len() && (a + b)[k] == x;
            if k < a.len() {
                assert(a[k] == x);
            } else {
                assert(b[k - a.len()] == x);
            }
        }
        if a.contains(x) {
            let k = choose|k: int| 0 <= k < a.len() && a[k] == x;
            assert((a + b)[k] == x);
        }
        if b.contains(x) {
            let k = choose|k: int| 0 <= k < b.len() && b[k] == x;
            assert((a + b)[a.len() + k] == x);
        }
    }
    lemma_sorted_union(a, b, ks);
}

} // verus!
