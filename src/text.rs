//! Byte-level text helpers: ASCII case folding, white-space trimming,
//! pattern removal and decimal numbers.
use vstd::prelude::*;

verus! {

/// ASCII whitespace: tab, line feed, vertical tab, form feed, carriage return, space.
pub open spec fn is_space(b: u8) -> bool {
    b == 0x20u8 || (0x09u8 <= b && b <= 0x0du8)
}

pub open spec fn lower_byte(b: u8) -> u8 {
    if 0x41u8 <= b && b <= 0x5au8 {
        (b + 32) as u8
    } else {
        b
    }
}

/// The sequence with every ASCII upper-case letter folded to lower case.
pub open spec fn lower(s: Seq<u8>) -> Seq<u8> {
    s.map_values(|b: u8| lower_byte(b))
}

/// The UTF-8 forms of the two-byte white-space characters, U+0085 and U+00A0.
pub open spec fn is_space2(a: u8, b: u8) -> bool {
    a == 0xc2u8 && (b == 0x85u8 || b == 0xa0u8)
}

/// The UTF-8 forms of the three-byte white-space characters: U+1680,
/// U+2000 to U+200A, U+2028, U+2029, U+202F, U+205F and U+3000.
pub open spec fn is_space3(a: u8, b: u8, c: u8) -> bool {
    ||| (a == 0xe1u8 && b == 0x9au8 && c == 0x80u8)
    ||| (a == 0xe2u8 && b == 0x80u8 && ((0x80u8 <= c && c <= 0x8au8) || c == 0xa8u8 || c == 0xa9u8
        || c == 0xafu8))
    ||| (a == 0xe2u8 && b == 0x81u8 && c == 0x9fu8)
    ||| (a == 0xe3u8 && b == 0x80u8 && c == 0x80u8)
}

/// The byte width of the white-space character (Unicode `White_Space`) that
/// `s` starts with, or zero.
pub open spec fn leading_space_width(s: Seq<u8>) -> int {
    if s.len() >= 1 && is_space(s[0]) {
        1
    } else if s.len() >= 2 && is_space2(s[0], s[1]) {
        2
    } else if s.len() >= 3 && is_space3(s[0], s[1], s[2]) {
        3
    } else {
        0
    }
}

/// The byte width of the white-space character that `s` ends with, or zero.
pub open spec fn trailing_space_width(s: Seq<u8>) -> int {
    let n = s.len() as int;
    if n >= 1 && is_space(s[n - 1]) {
        1
    } else if n >= 2 && is_space2(s[n - 2], s[n - 1]) {
        2
    } else if n >= 3 && is_space3(s[n - 3], s[n - 2], s[n - 1]) {
        3
    } else {
        0
    }
}

pub open spec fn trim_start(s: Seq<u8>) -> Seq<u8>
    decreases s.len(),
{
    let w = leading_space_width(s);
    if w > 0 {
        trim_start(s.subrange(w, s.len() as int))
    } else {
        s
    }
}

pub open spec fn trim_end(s: Seq<u8>) -> Seq<u8>
    decreases s.len(),
{
    let w = trailing_space_width(s);
    if w > 0 {
        trim_end(s.subrange(0, s.len() - w))
    } else {
        s
    }
}

/// The sequence without leading and trailing white space, ASCII or encoded
/// in UTF-8.
pub open spec fn trim(s: Seq<u8>) -> Seq<u8> {
    trim_end(trim_start(s))
}

pub open spec fn starts_with(s: Seq<u8>, p: Seq<u8>) -> bool {
    p.len() <= s.len() && s.subrange(0, p.len() as int) == p
}

/// Every non-overlapping occurrence of `pat`, scanned from the left, removed.
pub open spec fn remove_all(s: Seq<u8>, pat: Seq<u8>) -> Seq<u8>
    decreases s.len(),
{
    if pat.len() == 0 || s.len() < pat.len() {
        s
    } else if starts_with(s, pat) {
        remove_all(s.subrange(pat.len() as int, s.len() as int), pat)
    } else {
        seq![s[0]] + remove_all(s.drop_first(), pat)
    }
}

/// Folds ASCII upper-case letters to lower case.
pub fn lowercase(s: &[u8]) -> (r: Vec<u8>)
    ensures
        r@ == lower(s@),
{
    let mut r: Vec<u8> = Vec::new();
    let mut i: usize = 0;
    while i < s.len()
        invariant
            i <= s@.len(),
            r@ == lower(s@.subrange(0, i as int)),
        decreases s@.len() - i,
    {
        let b = s[i];
        let l: u8 = if 0x41u8 <= b && b <= 0x5au8 {
            b + 32
        } else {
            b
        };
        r.push(l);
        proof {
            assert(s@.subrange(0, i + 1) =~= s@.subrange(0, i as int).push(b));
        }
        i = i + 1;
        assert(r@ =~= lower(s@.subrange(0, i as int)));
    }
    assert(s@.subrange(0, s@.len() as int) =~= s@);
    r
}

fn is_space3_exec(a: u8, b: u8, c: u8) -> (r: bool)
    ensures
        r == is_space3(a, b, c),
{
    (a == 0xe1u8 && b == 0x9au8 && c == 0x80u8) || (a == 0xe2u8 && b == 0x80u8 && ((0x80u8 <= c
        && c <= 0x8au8) || c == 0xa8u8 || c == 0xa9u8 || c == 0xafu8)) || (a == 0xe2u8 && b
        == 0x81u8 && c == 0x9fu8) || (a == 0xe3u8 && b == 0x80u8 && c == 0x80u8)
}

fn leading_width(s: &[u8], i: usize, j: usize) -> (r: usize)
    requires
        i <= j <= s@.len(),
    ensures
        r as int == leading_space_width(s@.subrange(i as int, j as int)),
        r <= j - i,
{
    let m = j - i;
    if m >= 1 && (s[i] == 0x20u8 || (0x09u8 <= s[i] && s[i] <= 0x0du8)) {
        1
    } else if m >= 2 && s[i] == 0xc2u8 && (s[i + 1] == 0x85u8 || s[i + 1] == 0xa0u8) {
        2
    } else if m >= 3 && is_space3_exec(s[i], s[i + 1], s[i + 2]) {
        3
    } else {
        0
    }
}

fn trailing_width(s: &[u8], i: usize, j: usize) -> (r: usize)
    requires
        i <= j <= s@.len(),
    ensures
        r as int == trailing_space_width(s@.subrange(i as int, j as int)),
        r <= j - i,
{
    let m = j - i;
    if m >= 1 && (s[j - 1] == 0x20u8 || (0x09u8 <= s[j - 1] && s[j - 1] <= 0x0du8)) {
        1
    } else if m >= 2 && s[j - 2] == 0xc2u8 && (s[j - 1] == 0x85u8 || s[j - 1] == 0xa0u8) {
        2
    } else if m >= 3 && is_space3_exec(s[j - 3], s[j - 2], s[j - 1]) {
        3
    } else {
        0
    }
}

/// Copies `s` without leading and trailing white space.
pub fn trimmed(s: &[u8]) -> (r: Vec<u8>)
    ensures
        r@ == trim(s@),
{
    let n = s.len();
    let mut i: usize = 0;
    assert(s@.subrange(0, n as int) =~= s@);
    let mut w = leading_width(s, 0, n);
    while w > 0
        invariant
            i <= n == s@.len(),
            w as int == leading_space_width(s@.subrange(i as int, n as int)),
            w <= n - i,
            trim_start(s@) == trim_start(s@.subrange(i as int, n as int)),
        decreases n - i,
    {
        assert(s@.subrange(i as int, n as int).subrange(w as int, (n - i) as int) =~= s@.subrange(
            (i + w) as int,
            n as int,
        ));
        i = i + w;
        w = leading_width(s, i, n);
    }
    let t = Ghost(s@.subrange(i as int, n as int));
    assert(trim_start(s@) == t@);
    let mut j: usize = n;
    w = trailing_width(s, i, j);
    while w > 0
        invariant
            i <= j <= n == s@.len(),
            t@ == s@.subrange(i as int, n as int),
            w as int == trailing_space_width(s@.subrange(i as int, j as int)),
            w <= j - i,
            trim_end(t@) == trim_end(s@.subrange(i as int, j as int)),
        decreases j,
    {
        assert(s@.subrange(i as int, j as int).subrange(0, (j - i - w) as int) =~= s@.subrange(
            i as int,
            (j - w) as int,
        ));
        j = j - w;
        w = trailing_width(s, i, j);
    }
    let mut r: Vec<u8> = Vec::new();
    let mut k: usize = i;
    while k < j
        invariant
            i <= k <= j <= n == s@.len(),
            r@ == s@.subrange(i as int, k as int),
        decreases j - k,
    {
        r.push(s[k]);
        k = k + 1;
        assert(r@ =~= s@.subrange(i as int, k as int));
    }
    r
}

/// Whether `pat` occurs in `s` at position `at`.
pub fn matches_at(s: &[u8], at: usize, pat: &[u8]) -> (r: bool)
    requires
        at <= s@.len(),
    ensures
        r == starts_with(s@.subrange(at as int, s@.len() as int), pat@),
{
    let n = s.len();
    if pat.len() > n - at {
        return false;
    }
    let mut k: usize = 0;
    while k < pat.len()
        invariant
            k <= pat@.len(),
            at <= n == s@.len(),
            pat@.len() <= s@.len() - at,
            forall|x: int| 0 <= x < k ==> s@[at + x] == pat@[x],
        decreases pat@.len() - k,
    {
        if s[at + k] != pat[k] {
            assert(s@.subrange(at as int, s@.len() as int).subrange(0, pat@.len() as int)[k as int]
                != pat@[k as int]);
            return false;
        }
        k = k + 1;
    }
    assert(s@.subrange(at as int, s@.len() as int).subrange(0, pat@.len() as int) =~= pat@);
    true
}

/// Copies `s` with every occurrence of `pat` removed, left to right.
pub fn remove_occurrences(s: &[u8], pat: &[u8]) -> (r: Vec<u8>)
    ensures
        r@ == remove_all(s@, pat@),
{
    let n = s.len();
    let mut r: Vec<u8> = Vec::new();
    let mut i: usize = 0;
    assert(s@.subrange(0, n as int) =~= s@);
    while i < n
        invariant
            i <= n == s@.len(),
            remove_all(s@, pat@) == r@ + remove_all(s@.subrange(i as int, n as int), pat@),
        decreases n - i,
    {
        let rest = Ghost(s@.subrange(i as int, n as int));
        if pat.len() == 0 || n - i < pat.len() {
            proof {
                assert(remove_all(rest@, pat@) == rest@);
            }
            let mut k: usize = i;
            while k < n
                invariant
                    i <= k <= n == s@.len(),
                    remove_all(s@, pat@) == r@ + s@.subrange(k as int, n as int),
                decreases n - k,
            {
                assert(s@.subrange(k as int, n as int) =~= seq![s@[k as int]] + s@.subrange(k + 1, n as int));
                r.push(s[k]);
                k = k + 1;
            }
            assert(s@.subrange(n as int, n as int) =~= Seq::<u8>::empty());
            assert(r@ + Seq::<u8>::empty() =~= r@);
            return r;
        }
        if matches_at(s, i, pat) {
            assert(rest@.subrange(pat@.len() as int, rest@.len() as int)
                =~= s@.subrange(i + pat@.len(), n as int));
            i = i + pat.len();
        } else {
            assert(rest@.drop_first() =~= s@.subrange(i + 1, n as int));
            let ghost r0 = r@;
            let ghost tail = remove_all(s@.subrange(i + 1, n as int), pat@);
            r.push(s[i]);
            assert(r0 + (seq![s@[i as int]] + tail) =~= r@ + tail);
            i = i + 1;
        }
    }
    assert(remove_all(s@.subrange(n as int, n as int), pat@) =~= Seq::<u8>::empty());
    assert(r@ + Seq::<u8>::empty() =~= r@);
    r
}

pub open spec fn is_digit(b: u8) -> bool {
    0x30u8 <= b && b <= 0x39u8
}

pub open spec fn all_digits(s: Seq<u8>) -> bool {
    forall|i: int| 0 <= i < s.len() ==> is_digit(#[trigger] s[i])
}

/// The value of a run of decimal digits, most significant first.
pub open spec fn digits_value(s: Seq<u8>) -> nat
    decreases s.len(),
{
    if s.len() == 0 {
        0
    } else {
        digits_value(s.drop_last()) * 10 + (s.last() - 0x30u8) as nat
    }
}

/// The digits after an optional leading `+`.
pub open spec fn unsigned_digits(s: Seq<u8>) -> Seq<u8> {
    if s.len() > 0 && s[0] == 0x2bu8 {
        s.drop_first()
    } else {
        s
    }
}

/// An unsigned machine-word number in decimal: an optional `+`, then at least
/// one digit and nothing else, with a value that fits in `usize`.
pub open spec fn parse_usize(s: Seq<u8>) -> Option<nat> {
    let d = unsigned_digits(s);
    if d.len() > 0 && all_digits(d) && digits_value(d) <= usize::MAX {
        Some(digits_value(d))
    } else {
        None
    }
}

/// The decimal digits of `n`, most significant first, with no leading zero.
pub open spec fn decimal(n: nat) -> Seq<u8>
    decreases n,
{
    if n < 10 {
        seq![(0x30 + n) as u8]
    } else {
        decimal(n / 10).push((0x30 + n % 10) as u8)
    }
}

proof fn lemma_digits_value_grows(s: Seq<u8>, k: int)
    requires
        0 <= k <= s.len(),
        all_digits(s),
    ensures
        digits_value(s.subrange(0, k)) <= digits_value(s),
    decreases s.len() - k,
{
    if k < s.len() {
        lemma_digits_value_grows(s, k + 1);
        assert(s.subrange(0, k + 1).drop_last() =~= s.subrange(0, k));
        assert(is_digit(s[k]));
    } else {
        assert(s.subrange(0, k) =~= s);
    }
}

/// Reads a `Content-Length`-style number; `None` where `parse_usize` gives none.
pub fn parse_decimal(s: &[u8]) -> (r: Option<usize>)
    ensures
        match r {
            Some(v) => parse_usize(s@) == Some(v as nat),
            None => parse_usize(s@) is None,
        },
{
    let n = s.len();
    let start: usize = if n > 0 && s[0] == 0x2bu8 {
        1
    } else {
        0
    };
    let ghost d = unsigned_digits(s@);
    assert(d =~= s@.subrange(start as int, n as int));
    if start == n {
        return None;
    }
    let mut v: usize = 0;
    let mut i: usize = start;
    while i < n
        invariant
            start <= i <= n == s@.len(),
            d == s@.subrange(start as int, n as int),
            d == unsigned_digits(s@),
            all_digits(s@.subrange(start as int, i as int)),
            v as nat == digits_value(s@.subrange(start as int, i as int)),
        decreases n - i,
    {
        let b = s[i];
        if b < 0x30u8 || b > 0x39u8 {
            assert(d[i - start] == b);
            assert(!is_digit(d[(i - start) as int]));
            assert(!all_digits(d));
            return None;
        }
        let ghost pre = s@.subrange(start as int, i + 1);
        assert(pre.drop_last() =~= s@.subrange(start as int, i as int));
        let digit: usize = (b - 0x30u8) as usize;
        if v > (usize::MAX - digit) / 10 {
            proof {
                assert(all_digits(pre));
                assert(digits_value(pre) == v * 10 + digit);
                assert(v * 10 + digit > usize::MAX) by (nonlinear_arith)
                    requires
                        v > (usize::MAX - digit) / 10,
                        digit <= 9,
                ;
                if all_digits(d) {
                    lemma_digits_value_grows(d, (i + 1 - start) as int);
                    assert(d.subrange(0, (i + 1 - start) as int) =~= pre);
                    assert(digits_value(d) > usize::MAX);
                }
                assert(parse_usize(s@) is None);
            }
            return None;
        }
        assert(v * 10 + digit <= usize::MAX) by (nonlinear_arith)
            requires
                v <= (usize::MAX - digit) / 10,
                digit <= 9,
        ;
        v = v * 10 + digit;
        i = i + 1;
    }
    assert(s@.subrange(start as int, n as int) =~= d);
    Some(v)
}

pub proof fn lemma_decimal_digits(n: nat)
    ensures
        decimal(n).len() > 0,
        all_digits(decimal(n)),
        digits_value(decimal(n)) == n,
    decreases n,
{
    if n >= 10 {
        lemma_decimal_digits(n / 10);
        assert(decimal(n).drop_last() =~= decimal(n / 10));
        assert(n == (n / 10) * 10 + n % 10) by (nonlinear_arith);
        assert(decimal(n).last() == (0x30 + n % 10) as u8);
        assert((decimal(n).last() - 0x30u8) as nat == n % 10);
        assert(digits_value(decimal(n)) == digits_value(decimal(n / 10)) * 10 + n % 10);
        assert(digits_value(decimal(n / 10)) == n / 10);
    } else {
        assert(decimal(n).drop_last() =~= Seq::<u8>::empty());
        assert(digits_value(Seq::<u8>::empty()) == 0);
        assert(decimal(n).last() == (0x30 + n) as u8);
        assert(digits_value(decimal(n)) == n);
        assert forall|i: int| 0 <= i < decimal(n).len() implies is_digit(#[trigger] decimal(n)[i]) by {
            if i < decimal(n).len() - 1 {
                assert(decimal(n)[i] == decimal(n / 10)[i]);
            }
        }
    }
}

/// Removing a pattern whose first byte never occurs leaves the input as it is.
pub proof fn lemma_remove_all_absent(s: Seq<u8>, pat: Seq<u8>)
    requires
        pat.len() > 0,
        forall|i: int| 0 <= i < s.len() ==> s[i] != pat[0],
    ensures
        remove_all(s, pat) == s,
    decreases s.len(),
{
    if s.len() >= pat.len() {
        assert(s.subrange(0, pat.len() as int)[0] != pat[0]);
        lemma_remove_all_absent(s.drop_first(), pat);
        assert(seq![s[0]] + s.drop_first() =~= s);
    }
}

} // verus!
