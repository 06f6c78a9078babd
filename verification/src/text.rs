//! Character-level building blocks shared by the modules that read and write tickers,
//! urls and dates.
use vstd::prelude::*;

verus! {

/// The `White_Space` characters that `str::trim` strips.
pub open spec fn is_white(c: char) -> bool {
    ||| '\u{9}' <= c <= '\u{d}'
    ||| c == ' '
    ||| c == '\u{85}'
    ||| c == '\u{a0}'
    ||| c == '\u{1680}'
    ||| '\u{2000}' <= c <= '\u{200a}'
    ||| c == '\u{2028}'
    ||| c == '\u{2029}'
    ||| c == '\u{202f}'
    ||| c == '\u{205f}'
    ||| c == '\u{3000}'
}

/// `s` without its leading white space.
pub open spec fn trim_start(s: Seq<char>) -> Seq<char>
    decreases s.len(),
{
    if s.len() > 0 && is_white(s[0]) {
        trim_start(s.drop_first())
    } else {
        s
    }
}

/// `s` without its trailing white space.
pub open spec fn trim_end(s: Seq<char>) -> Seq<char>
    decreases s.len(),
{
    if s.len() > 0 && is_white(s.last()) {
        trim_end(s.drop_last())
    } else {
        s
    }
}

/// `s` with white space removed from both ends.
pub open spec fn trim(s: Seq<char>) -> Seq<char> {
    trim_end(trim_start(s))
}

/// The ASCII upper-case form of one character; every other character is itself.
pub open spec fn upper_char(c: char) -> char {
    if 'a' <= c <= 'z' {
        ((c as u32) - 32) as char
    } else {
        c
    }
}

/// The ASCII lower-case form of one character; every other character is itself.
pub open spec fn lower_char(c: char) -> char {
    if 'A' <= c <= 'Z' {
        ((c as u32) + 32) as char
    } else {
        c
    }
}

pub open spec fn upper_ascii(s: Seq<char>) -> Seq<char> {
    s.map_values(|c: char| upper_char(c))
}

pub open spec fn lower_ascii(s: Seq<char>) -> Seq<char> {
    s.map_values(|c: char| lower_char(c))
}

/// Does `p` occur in `s` starting at index `i`?
pub open spec fn occurs_at(s: Seq<char>, p: Seq<char>, i: int) -> bool {
    0 <= i && i + p.len() <= s.len() && s.subrange(i, i + p.len()) == p
}

/// The index of the first occurrence of `p` in `s`, if any.
pub open spec fn find(s: Seq<char>, p: Seq<char>) -> Option<int>
    decreases s.len(),
{
    if s.len() < p.len() {
        None
    } else if s.take(p.len() as int) == p {
        Some(0)
    } else if s.len() == 0 {
        None
    } else {
        match find(s.drop_first(), p) {
            Some(k) => Some(k + 1),
            None => None,
        }
    }
}

/// Every non-overlapping occurrence of the non-empty `p` in `s`, scanning left to right,
/// replaced by `r`.
pub open spec fn replace_all(s: Seq<char>, p: Seq<char>, r: Seq<char>) -> Seq<char>
    decreases s.len(),
{
    if p.len() == 0 || s.len() < p.len() {
        s
    } else if s.take(p.len() as int) == p {
        r + replace_all(s.skip(p.len() as int), p, r)
    } else {
        seq![s[0]] + replace_all(s.drop_first(), p, r)
    }
}

/// The character of decimal digit `d`.
pub open spec fn digit(d: int) -> char {
    (d + 48) as char
}

/// The decimal digits of `n`, most significant first, without leading zeros.
pub open spec fn decimal(n: nat) -> Seq<char>
    decreases n,
{
    if n < 10 {
        seq![digit(n as int)]
    } else {
        decimal(n / 10).push(digit((n % 10) as int))
    }
}

/// `s` preceded by as many `'0'` as it takes to make it `w` long.
pub open spec fn zero_pad(s: Seq<char>, w: nat) -> Seq<char> {
    if s.len() >= w {
        s
    } else {
        Seq::new((w - s.len()) as nat, |i: int| '0') + s
    }
}

/// What `format!("{v:0w$}")` writes for an integer `v`: a minus sign for a negative value,
/// then the digits, zero-padded so that sign and digits together fill `w` characters.
pub open spec fn padded_int(v: int, w: nat) -> Seq<char> {
    if v < 0 {
        seq!['-'] + zero_pad(decimal((-v) as nat), if w >= 1 { (w - 1) as nat } else { 0 })
    } else {
        zero_pad(decimal(v as nat), w)
    }
}

/// The characters of `s`.
pub fn chars_of(s: &str) -> (v: Vec<char>)
    ensures
        v@ == s@,
{
    let mut v: Vec<char> = Vec::new();
    for c in it: s.chars()
        invariant
            v@ == it.seq().take(it.index() as int),
            it.seq() == s@,
    {
        v.push(c);
    }
    v
}

/// `String::push`: the string with one more character at its end.
#[verifier::external_body]
fn push_char(s: &mut String, c: char)
    ensures
        final(s)@ == old(s)@.push(c),
{
    s.push(c);
}

/// The string made of the characters `v`.
pub fn string_of(v: &[char]) -> (s: String)
    ensures
        s@ == v@,
{
    let mut s = String::new();
    for i in 0..v.len()
        invariant
            s@ == v@.take(i as int),
    {
        push_char(&mut s, v[i]);
        assert(v@.take(i + 1) == v@.take(i as int).push(v@[i as int]));
    }
    assert(v@.take(v.len() as int) == v@);
    s
}

/// An owned copy of `s`.
pub fn owned(s: &str) -> (r: String)
    ensures
        r@ == s@,
{
    let v = chars_of(s);
    string_of(&v)
}

/// Appends the characters of `s` to `out`.
pub fn extend_chars(out: &mut Vec<char>, s: &str)
    ensures
        final(out)@ == old(out)@ + s@,
{
    let v = chars_of(s);
    extend_vec(out, &v);
}

/// Appends `v` to `out`.
pub fn extend_vec(out: &mut Vec<char>, v: &[char])
    ensures
        final(out)@ == old(out)@ + v@,
{
    let ghost start = out@;
    for i in 0..v.len()
        invariant
            out@ == start + v@.take(i as int),
    {
        out.push(v[i]);
        assert(v@.take(i + 1) == v@.take(i as int).push(v@[i as int]));
    }
    assert(v@.take(v.len() as int) == v@);
}

/// Are `a` and `b` the same characters?
pub fn same_chars(a: &[char], b: &[char]) -> (r: bool)
    ensures
        r == (a@ == b@),
{
    if a.len() != b.len() {
        return false;
    }
    let mut i: usize = 0;
    while i < a.len()
        invariant
            a.len() == b.len(),
            0 <= i <= a.len(),
            forall|j: int| 0 <= j < i ==> a@[j] == b@[j],
        decreases a.len() - i,
    {
        if a[i] != b[i] {
            return false;
        }
        i = i + 1;
    }
    assert(a@ =~= b@);
    true
}

/// Are the strings `a` and `b` equal?
pub fn str_eq(a: &str, b: &str) -> (r: bool)
    ensures
        r == (a@ == b@),
{
    let va = chars_of(a);
    let vb = chars_of(b);
    same_chars(va.as_slice(), vb.as_slice())
}

/// Is `c` one of the characters `str::trim` strips?
pub fn white(c: char) -> (r: bool)
    ensures
        r == is_white(c),
{
    ('\u{9}' <= c && c <= '\u{d}') || c == ' ' || c == '\u{85}' || c == '\u{a0}'
        || c == '\u{1680}' || ('\u{2000}' <= c && c <= '\u{200a}') || c == '\u{2028}'
        || c == '\u{2029}' || c == '\u{202f}' || c == '\u{205f}' || c == '\u{3000}'
}

proof fn lemma_trim_start_skip(s: Seq<char>, i: int)
    requires
        0 <= i < s.len(),
        is_white(s[i]),
    ensures
        trim_start(s.skip(i)) == trim_start(s.skip(i + 1)),
{
    assert(s.skip(i).drop_first() =~= s.skip(i + 1));
}

proof fn lemma_trim_end_take(s: Seq<char>, j: int)
    requires
        0 < j <= s.len(),
        is_white(s[j - 1]),
    ensures
        trim_end(s.take(j)) == trim_end(s.take(j - 1)),
{
    assert(s.take(j).drop_last() =~= s.take(j - 1));
}

/// The characters of `s` with white space removed from both ends.
pub fn trim_chars(s: &[char]) -> (r: Vec<char>)
    ensures
        r@ == trim(s@),
{
    let mut a: usize = 0;
    assert(s@.skip(0) =~= s@);
    while a < s.len() && white(s[a])
        invariant
            0 <= a <= s.len(),
            trim_start(s@) == trim_start(s@.skip(a as int)),
        decreases s.len() - a,
    {
        proof {
            lemma_trim_start_skip(s@, a as int);
        }
        a = a + 1;
    }
    let ghost front = s@.skip(a as int);
    assert(trim_start(s@) == front);
    let mut b: usize = s.len();
    assert(front.take(front.len() as int) =~= front);
    while b > a && white(s[b - 1])
        invariant
            a <= b <= s.len(),
            front == s@.skip(a as int),
            trim_end(front) == trim_end(front.take(b - a)),
        decreases b,
    {
        proof {
            lemma_trim_end_take(front, (b - a) as int);
        }
        b = b - 1;
    }
    let mut r: Vec<char> = Vec::new();
    let mut k: usize = a;
    while k < b
        invariant
            a <= k <= b <= s.len(),
            r@ == s@.subrange(a as int, k as int),
        decreases b - k,
    {
        r.push(s[k]);
        k = k + 1;
        assert(r@ =~= s@.subrange(a as int, k as int));
    }
    assert(front.take(b - a) =~= s@.subrange(a as int, b as int));
    r
}

/// The ASCII upper-case form of `c`.
pub fn to_upper(c: char) -> (r: char)
    ensures
        r == upper_char(c),
{
    if 'a' <= c && c <= 'z' {
        ((c as u8) - 32) as char
    } else {
        c
    }
}

/// The ASCII lower-case form of `c`.
pub fn to_lower(c: char) -> (r: char)
    ensures
        r == lower_char(c),
{
    if 'A' <= c && c <= 'Z' {
        ((c as u8) + 32) as char
    } else {
        c
    }
}

/// The ASCII upper-case form of `s`.
pub fn upper_chars(s: &[char]) -> (r: Vec<char>)
    ensures
        r@ == upper_ascii(s@),
{
    let mut r: Vec<char> = Vec::new();
    for i in 0..s.len()
        invariant
            r@ == upper_ascii(s@.take(i as int)),
    {
        r.push(to_upper(s[i]));
        assert(upper_ascii(s@.take(i + 1)) =~= upper_ascii(s@.take(i as int)).push(upper_char(s@[i as int])));
    }
    assert(s@.take(s.len() as int) == s@);
    r
}

/// The ASCII lower-case form of `s`.
pub fn lower_chars(s: &[char]) -> (r: Vec<char>)
    ensures
        r@ == lower_ascii(s@),
{
    let mut r: Vec<char> = Vec::new();
    for i in 0..s.len()
        invariant
            r@ == lower_ascii(s@.take(i as int)),
    {
        r.push(to_lower(s[i]));
        assert(lower_ascii(s@.take(i + 1)) =~= lower_ascii(s@.take(i as int)).push(lower_char(s@[i as int])));
    }
    assert(s@.take(s.len() as int) == s@);
    r
}

/// `o` with `d` added to the index it holds.
pub open spec fn shift(o: Option<int>, d: int) -> Option<int> {
    match o {
        Some(k) => Some(k + d),
        None => None,
    }
}

/// Does `p` occur in `s` at index `i`?
pub fn occurs_at_exec(s: &[char], p: &[char], i: usize) -> (r: bool)
    ensures
        r == occurs_at(s@, p@, i as int),
{
    if i > s.len() || s.len() - i < p.len() {
        return false;
    }
    let mut k: usize = 0;
    while k < p.len()
        invariant
            i + p.len() <= s.len(),
            0 <= k <= p.len(),
            forall|j: int| 0 <= j < k ==> s@[i + j] == p@[j],
        decreases p.len() - k,
    {
        if s[i + k] != p[k] {
            assert(s@.subrange(i as int, i + p.len())[k as int] != p@[k as int]);
            return false;
        }
        k = k + 1;
    }
    assert(s@.subrange(i as int, i + p.len()) =~= p@);
    true
}

pub proof fn lemma_find_step(s: Seq<char>, p: Seq<char>, i: int)
    requires
        0 <= i < s.len(),
        s.len() - i >= p.len(),
        !occurs_at(s, p, i),
    ensures
        shift(find(s.skip(i), p), i) == shift(find(s.skip(i + 1), p), i + 1),
{
    let t = s.skip(i);
    assert(t.take(p.len() as int) =~= s.subrange(i, i + p.len()));
    assert(t.drop_first() =~= s.skip(i + 1));
}

/// The index of the first occurrence of `p` in `s`, if any.
pub fn find_chars(s: &[char], p: &[char]) -> (r: Option<usize>)
    ensures
        match r {
            Some(k) => find(s@, p@) == Some(k as int),
            None => find(s@, p@) is None,
        },
{
    let mut i: usize = 0;
    assert(s@.skip(0) =~= s@);
    while i < s.len()
        invariant
            0 <= i <= s.len(),
            find(s@, p@) == shift(find(s@.skip(i as int), p@), i as int),
        decreases s.len() - i,
    {
        if s.len() - i < p.len() {
            assert(s@.skip(i as int).len() < p.len());
            assert(find(s@.skip(i as int), p@) is None);
            return None;
        }
        if occurs_at_exec(s, p, i) {
            assert(s@.skip(i as int).take(p.len() as int) =~= s@.subrange(i as int, i + p.len()));
            return Some(i);
        }
        proof {
            lemma_find_step(s@, p@, i as int);
        }
        i = i + 1;
    }
    let ghost rest = s@.skip(i as int);
    assert(rest.len() == 0);
    if p.len() == 0 {
        assert(rest.take(0) =~= p@);
        Some(i)
    } else {
        assert(find(rest, p@) is None);
        None
    }
}

proof fn lemma_replace_step_match(s: Seq<char>, p: Seq<char>, r: Seq<char>, i: int)
    requires
        p.len() > 0,
        occurs_at(s, p, i),
    ensures
        replace_all(s.skip(i), p, r) == r + replace_all(s.skip(i + p.len()), p, r),
{
    let t = s.skip(i);
    assert(t.take(p.len() as int) =~= s.subrange(i, i + p.len()));
    assert(t.skip(p.len() as int) =~= s.skip(i + p.len()));
}

proof fn lemma_replace_step_other(s: Seq<char>, p: Seq<char>, r: Seq<char>, i: int)
    requires
        p.len() > 0,
        0 <= i < s.len(),
        s.len() - i >= p.len(),
        !occurs_at(s, p, i),
    ensures
        replace_all(s.skip(i), p, r) == seq![s[i]] + replace_all(s.skip(i + 1), p, r),
{
    let t = s.skip(i);
    assert(t.take(p.len() as int) =~= s.subrange(i, i + p.len()));
    assert(t.drop_first() =~= s.skip(i + 1));
}

/// `s` with every non-overlapping occurrence of the non-empty `p` replaced by `r`.
pub fn replace_chars(s: &[char], p: &[char], r: &[char]) -> (out: Vec<char>)
    requires
        p.len() > 0,
    ensures
        out@ == replace_all(s@, p@, r@),
{
    let mut out: Vec<char> = Vec::new();
    let mut i: usize = 0;
    assert(s@.skip(0) =~= s@);
    while i < s.len() && s.len() - i >= p.len()
        invariant
            p.len() > 0,
            0 <= i <= s.len(),
            out@ + replace_all(s@.skip(i as int), p@, r@) == replace_all(s@, p@, r@),
        decreases s.len() - i,
    {
        if occurs_at_exec(s, p, i) {
            proof {
                lemma_replace_step_match(s@, p@, r@, i as int);
            }
            let ghost before = out@;
            extend_vec(&mut out, r);
            assert(before + (r@ + replace_all(s@.skip(i + p.len()), p@, r@)) =~= out@ + replace_all(s@.skip(i + p.len()), p@, r@));
            i = i + p.len();
        } else {
            proof {
                lemma_replace_step_other(s@, p@, r@, i as int);
            }
            let ghost before = out@;
            out.push(s[i]);
            assert(before + (seq![s@[i as int]] + replace_all(s@.skip(i + 1), p@, r@)) =~= out@ + replace_all(s@.skip(i + 1), p@, r@));
            i = i + 1;
        }
    }
    let ghost rest = s@.skip(i as int);
    assert(replace_all(rest, p@, r@) == rest);
    let ghost before = out@;
    while i < s.len()
        invariant
            0 <= i <= s.len(),
            out@ + s@.skip(i as int) == replace_all(s@, p@, r@),
        decreases s.len() - i,
    {
        let ghost o = out@;
        out.push(s[i]);
        assert(o + s@.skip(i as int) =~= out@ + s@.skip(i + 1));
        i = i + 1;
    }
    assert(out@ + s@.skip(i as int) =~= out@);
    out
}

proof fn lemma_digit(d: u64)
    requires
        d < 10,
    ensures
        ((d as u8) + 48u8) as char == digit(d as int),
{
}

/// Appends the decimal digits of `n` to `out`.
pub fn push_decimal(out: &mut Vec<char>, n: u64)
    ensures
        final(out)@ == old(out)@ + decimal(n as nat),
    decreases n,
{
    if n >= 10 {
        push_decimal(out, n / 10);
    }
    let d: u64 = n % 10;
    proof {
        lemma_digit(d);
    }
    let ghost before = out@;
    out.push(((d as u8) + 48u8) as char);
    if n >= 10 {
        assert(out@ =~= old(out)@ + decimal(n as nat));
    } else {
        assert(out@ =~= old(out)@ + decimal(n as nat));
    }
}

/// Appends `'0'` characters and then `digits`, so that together they are at least `w` long.
fn push_zero_padded(out: &mut Vec<char>, digits: &[char], w: usize)
    ensures
        final(out)@ == old(out)@ + zero_pad(digits@, w as nat),
{
    let ghost start = out@;
    if digits.len() < w {
        let mut k: usize = 0;
        let fill = w - digits.len();
        while k < fill
            invariant
                fill == w - digits.len(),
                0 <= k <= fill,
                out@ == start + Seq::new(k as nat, |i: int| '0'),
            decreases fill - k,
        {
            out.push('0');
            k = k + 1;
            assert(out@ =~= start + Seq::new(k as nat, |i: int| '0'));
        }
    }
    let ghost mid = out@;
    extend_vec(out, digits);
    assert(out@ =~= start + zero_pad(digits@, w as nat));
}

/// Appends what `format!("{v:0w$}")` writes for `v`.
pub fn push_padded_int(out: &mut Vec<char>, v: i64, w: usize)
    ensures
        final(out)@ == old(out)@ + padded_int(v as int, w as nat),
{
    let mut digits: Vec<char> = Vec::new();
    if v < 0 {
        let mag: u64 = (0i128 - (v as i128)) as u64;
        push_decimal(&mut digits, mag);
        out.push('-');
        let width: usize = if w >= 1 { w - 1 } else { 0 };
        push_zero_padded(out, digits.as_slice(), width);
        assert(out@ =~= old(out)@ + padded_int(v as int, w as nat));
    } else {
        push_decimal(&mut digits, v as u64);
        push_zero_padded(out, digits.as_slice(), w);
    }
}

/// What `find` reports is an occurrence.
pub proof fn lemma_find_occurs(s: Seq<char>, p: Seq<char>)
    ensures
        find(s, p) matches Some(i) ==> 0 <= i && i + p.len() <= s.len() && s.subrange(i, i + p.len()) == p,
    decreases s.len(),
{
    if s.len() >= p.len() && s.take(p.len() as int) != p && s.len() > 0 {
        lemma_find_occurs(s.drop_first(), p);
        if let Some(k) = find(s.drop_first(), p) {
            assert(s.drop_first().subrange(k, k + p.len()) =~= s.subrange(k + 1, k + 1 + p.len()));
        }
    } else if s.len() >= p.len() && s.take(p.len() as int) == p {
        assert(s.subrange(0, p.len() as int) =~= s.take(p.len() as int));
    }
}

/// Is `a` before `b` in code-point lexicographic order (the order of their UTF-8 bytes, which
/// is how strings compare)?
pub open spec fn lex_lt(a: Seq<char>, b: Seq<char>) -> bool
    decreases a.len(),
{
    if a.len() == 0 {
        b.len() > 0
    } else if b.len() == 0 {
        false
    } else if a[0] != b[0] {
        a[0] < b[0]
    } else {
        lex_lt(a.drop_first(), b.drop_first())
    }
}

pub(crate) proof fn lemma_lex_irreflexive(a: Seq<char>)
    ensures
        !lex_lt(a, a),
    decreases a.len(),
{
    if a.len() > 0 {
        lemma_lex_irreflexive(a.drop_first());
    }
}

pub(crate) proof fn lemma_lex_total(a: Seq<char>, b: Seq<char>)
    ensures
        a != b ==> lex_lt(a, b) || lex_lt(b, a),
        !(lex_lt(a, b) && lex_lt(b, a)),
    decreases a.len(),
{
    if a.len() > 0 && b.len() > 0 {
        if a[0] == b[0] {
            lemma_lex_total(a.drop_first(), b.drop_first());
            if a != b {
                assert(a.drop_first() != b.drop_first()) by {
                    if a.drop_first() == b.drop_first() {
                        assert(a =~= seq![a[0]] + a.drop_first());
                        assert(b =~= seq![b[0]] + b.drop_first());
                    }
                }
            }
        }
    } else if a.len() == 0 && b.len() == 0 {
        assert(a =~= b);
    }
}

pub(crate) proof fn lemma_lex_transitive(a: Seq<char>, b: Seq<char>, c: Seq<char>)
    requires
        lex_lt(a, b),
        lex_lt(b, c),
    ensures
        lex_lt(a, c),
    decreases a.len(),
{
    if a.len() > 0 && b.len() > 0 && c.len() > 0 {
        if a[0] == b[0] && b[0] == c[0] {
            lemma_lex_transitive(a.drop_first(), b.drop_first(), c.drop_first());
        }
    }
}


/// Two strings that agree before position `k` and differ there are ordered by that position.
pub(crate) proof fn lemma_lex_at(a: Seq<char>, b: Seq<char>, k: int)
    requires
        0 <= k < a.len(),
        k < b.len(),
        forall|i: int| 0 <= i < k ==> a[i] == b[i],
        a[k] < b[k],
    ensures
        lex_lt(a, b),
    decreases k,
{
    if k > 0 {
        assert(a[0] == b[0]);
        assert forall|i: int| 0 <= i < k - 1 implies a.drop_first()[i] == b.drop_first()[i] by {
            assert(a[i + 1] == b[i + 1]);
        }
        lemma_lex_at(a.drop_first(), b.drop_first(), k - 1);
    }
}

/// Four fixed decimal digits, most significant first.
pub open spec fn four_digits(v: int) -> Seq<char> {
    seq![digit(v / 1000), digit(v / 100 % 10), digit(v / 10 % 10), digit(v % 10)]
}

/// Two fixed decimal digits, most significant first.
pub open spec fn two_digits(v: int) -> Seq<char> {
    seq![digit(v / 10), digit(v % 10)]
}

/// A number below ten thousand, zero-padded to four, is its four digits.
pub(crate) proof fn lemma_padded_four(v: int)
    requires
        0 <= v <= 9999,
    ensures
        padded_int(v, 4) == four_digits(v),
{
    reveal_with_fuel(decimal, 4);
    let n = v as nat;
    assert(digit(0) == '0');
    if v < 10 {
        assert(decimal(n) =~= seq![digit(v)]);
    } else if v < 100 {
        assert(decimal(n) =~= seq![digit(v / 10), digit(v % 10)]);
    } else if v < 1000 {
        assert(decimal(n / 10) =~= seq![digit(v / 100), digit(v / 10 % 10)]);
        assert(decimal(n) =~= seq![digit(v / 100), digit(v / 10 % 10), digit(v % 10)]);
    } else {
        assert(decimal(n / 100) =~= seq![digit(v / 1000), digit(v / 100 % 10)]);
        assert(decimal(n / 10) =~= seq![digit(v / 1000), digit(v / 100 % 10), digit(v / 10 % 10)]);
        assert(decimal(n) =~= four_digits(v));
    }
    assert(padded_int(v, 4) =~= four_digits(v));
}

/// A number below a hundred, zero-padded to two, is its two digits.
pub(crate) proof fn lemma_padded_two(v: int)
    requires
        0 <= v <= 99,
    ensures
        padded_int(v, 2) == two_digits(v),
{
    reveal_with_fuel(decimal, 2);
    let n = v as nat;
    assert(digit(0) == '0');
    if v < 10 {
        assert(decimal(n) =~= seq![digit(v)]);
    } else {
        assert(decimal(n) =~= seq![digit(v / 10), digit(v % 10)]);
    }
    assert(padded_int(v, 2) =~= two_digits(v));
}

/// Digits order as the numbers they stand for.
pub(crate) proof fn lemma_digit_order(a: int, b: int)
    requires
        0 <= a <= 9,
        0 <= b <= 9,
    ensures
        (digit(a) < digit(b)) == (a < b),
        (digit(a) == digit(b)) == (a == b),
        '0' <= digit(a) <= '9',
{
}

} // verus!
