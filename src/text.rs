//! Decimal numbers and small pieces of text, with their meaning stated over
//! character sequences.
use vstd::prelude::*;

verus! {

/// A decimal digit.
pub open spec fn is_digit(c: char) -> bool {
    '0' <= c && c <= '9'
}

/// The value of a decimal digit.
pub open spec fn digit_value(c: char) -> nat {
    (c as int - '0' as int) as nat
}

/// The digit that stands for `d`, for `d < 10`.
pub open spec fn digit_char(d: nat) -> char {
    ((d + 48) as u8) as char
}

/// The decimal notation of `n`, without leading zeros.
pub open spec fn dec(n: nat) -> Seq<char>
    decreases n,
{
    if n < 10 {
        seq![digit_char(n)]
    } else {
        dec(n / 10).push(digit_char(n % 10))
    }
}

/// The value of a sequence of decimal digits (zero for the empty sequence).
pub open spec fn dec_value(s: Seq<char>) -> nat
    decreases s.len(),
{
    if s.len() == 0 {
        0
    } else {
        dec_value(s.drop_last()) * 10 + digit_value(s.last())
    }
}

/// Every character of `s` is a decimal digit.
pub open spec fn all_digits(s: Seq<char>) -> bool {
    forall|i: int| 0 <= i < s.len() ==> is_digit(#[trigger] s[i])
}

pub proof fn lemma_digit_char(d: nat)
    requires
        d < 10,
    ensures
        is_digit(digit_char(d)),
        digit_value(digit_char(d)) == d,
{
}

/// The decimal notation of a number is made of digits and reads back as it.
pub proof fn lemma_dec(n: nat)
    ensures
        all_digits(dec(n)),
        dec(n).len() >= 1,
        dec_value(dec(n)) == n,
    decreases n,
{
    if n < 10 {
        lemma_digit_char(n);
        assert(dec(n).drop_last() =~= Seq::<char>::empty());
        assert(dec(n).last() == digit_char(n));
        assert(dec_value(Seq::<char>::empty()) == 0);
        assert(dec_value(dec(n)) == dec_value(dec(n).drop_last()) * 10 + digit_value(dec(n).last()));
    } else {
        lemma_dec(n / 10);
        lemma_digit_char(n % 10);
        assert(dec(n).drop_last() =~= dec(n / 10));
        assert(dec(n).last() == digit_char(n % 10));
        assert(dec_value(dec(n)) == dec_value(dec(n / 10)) * 10 + n % 10);
        assert((n / 10) * 10 + n % 10 == n);
    }
}

/// Two numbers with the same decimal notation are equal.
pub proof fn lemma_dec_injective(a: nat, b: nat)
    requires
        dec(a) == dec(b),
    ensures
        a == b,
{
    lemma_dec(a);
    lemma_dec(b);
}

/// Appends one character to a string.
/// Relies on `String::push`, which appends the character at the end.
#[verifier::external_body]
pub(crate) fn push_char(s: &mut String, c: char)
    ensures
        final(s)@ == old(s)@.push(c),
{
    s.push(c);
}

/// The decimal notation of `n`.
pub fn u64_to_text(n: u64) -> (r: String)
    ensures
        r@ == dec(n as nat),
    decreases n,
{
    let d: u64 = n % 10;
    let c: char = ((d as u8) + 48u8) as char;
    if n < 10 {
        let mut r = String::new();
        push_char(&mut r, c);
        assert(r@ =~= dec(n as nat));
        r
    } else {
        let mut r = u64_to_text(n / 10);
        push_char(&mut r, c);
        r
    }
}

/// `p` is a prefix of `s`.
pub open spec fn starts_with(s: Seq<char>, p: Seq<char>) -> bool {
    p.len() <= s.len() && s.subrange(0, p.len() as int) == p
}

/// `s` without its leading `p`, or `s` itself where it does not start with `p`.
pub open spec fn strip_prefix(s: Seq<char>, p: Seq<char>) -> Seq<char> {
    if starts_with(s, p) {
        s.subrange(p.len() as int, s.len() as int)
    } else {
        s
    }
}

/// The first index at or after `i` where `p` occurs in `s`.
pub open spec fn find_from(s: Seq<char>, p: Seq<char>, i: int) -> Option<nat>
    decreases s.len() + 1 - i,
{
    if i < 0 || i + p.len() > s.len() {
        None
    } else if s.subrange(i, i + p.len()) == p {
        Some(i as nat)
    } else {
        find_from(s, p, i + 1)
    }
}

/// The first index where `p` occurs in `s`.
pub open spec fn find(s: Seq<char>, p: Seq<char>) -> Option<nat> {
    find_from(s, p, 0)
}

/// The piece number `k` of `s` split at every `sep`, where the pieces are
/// read from position `i` on, the current piece so far being `acc`.
pub open spec fn piece_from(s: Seq<char>, sep: char, k: nat, i: int, acc: Seq<char>) -> Option<
    Seq<char>,
>
    decreases s.len() - i,
{
    if i < 0 || i >= s.len() {
        if k == 0 {
            Some(acc)
        } else {
            None
        }
    } else if s[i] == sep {
        if k == 0 {
            Some(acc)
        } else {
            piece_from(s, sep, (k - 1) as nat, i + 1, Seq::empty())
        }
    } else {
        piece_from(s, sep, k, i + 1, if k == 0 { acc.push(s[i]) } else { acc })
    }
}

/// The piece number `k` (from 0) of `s` split at every `sep`; `None` where
/// `s` has fewer pieces.
pub open spec fn piece(s: Seq<char>, sep: char, k: nat) -> Option<Seq<char>> {
    piece_from(s, sep, k, 0, Seq::empty())
}

/// Whether `s` starts with `p`.
pub fn has_prefix(s: &str, p: &str) -> (r: bool)
    ensures
        r == starts_with(s@, p@),
{
    let n = s.unicode_len();
    let m = p.unicode_len();
    if m > n {
        return false;
    }
    let mut i: usize = 0;
    while i < m
        invariant
            n == s@.len(),
            m == p@.len(),
            m <= n,
            i <= m,
            s@.subrange(0, i as int) == p@.subrange(0, i as int),
        decreases m - i,
    {
        if s.get_char(i) != p.get_char(i) {
            assert(s@.subrange(0, m as int)[i as int] != p@[i as int]);
            return false;
        }
        assert(s@.subrange(0, i + 1) =~= s@.subrange(0, i as int).push(s@[i as int]));
        assert(p@.subrange(0, i + 1) =~= p@.subrange(0, i as int).push(p@[i as int]));
        i = i + 1;
    }
    assert(p@.subrange(0, m as int) =~= p@);
    true
}

/// A match that `find_from` reports lies within `s` at or after `i`.
pub proof fn lemma_find_from(s: Seq<char>, p: Seq<char>, i: int)
    requires
        find_from(s, p, i) is Some,
    ensures
        i <= find_from(s, p, i).unwrap(),
        find_from(s, p, i).unwrap() + p.len() <= s.len(),
        s.subrange(find_from(s, p, i).unwrap() as int, find_from(s, p, i).unwrap() as int + p.len()) == p,
    decreases s.len() + 1 - i,
{
    if i >= 0 && i + p.len() <= s.len() && s.subrange(i, i + p.len()) != p {
        lemma_find_from(s, p, i + 1);
    }
}

/// Whether two texts are equal.
pub fn same_text(a: &str, b: &str) -> (r: bool)
    ensures
        r == (a@ == b@),
{
    if a.unicode_len() != b.unicode_len() {
        return false;
    }
    let r = has_prefix(a, b);
    assert(a@.subrange(0, b@.len() as int) =~= a@);
    assert(r ==> a@ =~= b@);
    r
}

/// Whether `p` occurs in `s` at index `at`.
fn occurs_at(s: &str, n: usize, p: &str, m: usize, at: usize) -> (r: bool)
    requires
        n == s@.len(),
        m == p@.len(),
        at + m <= n,
    ensures
        r == (s@.subrange(at as int, at + m) == p@),
{
    let mut i: usize = 0;
    while i < m
        invariant
            n == s@.len(),
            m == p@.len(),
            at + m <= n,
            i <= m,
            s@.subrange(at as int, at + i) == p@.subrange(0, i as int),
        decreases m - i,
    {
        if s.get_char(at + i) != p.get_char(i) {
            assert(s@.subrange(at as int, at + m)[i as int] != p@[i as int]);
            return false;
        }
        assert(s@.subrange(at as int, at + i + 1) =~= s@.subrange(at as int, at + i).push(
            s@[at + i],
        ));
        assert(p@.subrange(0, i + 1) =~= p@.subrange(0, i as int).push(p@[i as int]));
        i = i + 1;
    }
    assert(p@.subrange(0, m as int) =~= p@);
    true
}

/// The first index where `p` occurs in `s`.
pub fn find_text(s: &str, p: &str) -> (r: Option<usize>)
    ensures
        r.is_some() == find(s@, p@).is_some(),
        r.is_some() ==> r.unwrap() as nat == find(s@, p@).unwrap(),
{
    let n = s.unicode_len();
    let m = p.unicode_len();
    if m > n {
        return None;
    }
    let mut i: usize = 0;
    while i <= n - m
        invariant
            n == s@.len(),
            m == p@.len(),
            m <= n,
            i <= n - m + 1,
            find(s@, p@) == find_from(s@, p@, i as int),
        decreases n + 1 - i,
    {
        if occurs_at(s, n, p, m, i) {
            return Some(i);
        }
        if i == n - m {
            assert(find_from(s@, p@, i + 1).is_none());
            return None;
        }
        i = i + 1;
    }
    None
}

/// Whether `p` occurs somewhere in `s`.
pub fn contains_text(s: &str, p: &str) -> (r: bool)
    ensures
        r == find(s@, p@).is_some(),
{
    find_text(s, p).is_some()
}

/// `s` without its leading `p`, or a copy of `s` where it does not start
/// with `p`.
pub fn strip_prefix_text(s: &str, p: &str) -> (r: String)
    ensures
        r@ == strip_prefix(s@, p@),
{
    if has_prefix(s, p) {
        let n = s.unicode_len();
        let m = p.unicode_len();
        String::from_str(s.substring_char(m, n))
    } else {
        String::from_str(s)
    }
}

/// The piece number `k` (from 0) of `s` split at every `sep`.
pub fn piece_text(s: &str, sep: char, k: usize) -> (r: Option<String>)
    ensures
        r.is_some() == piece(s@, sep, k as nat).is_some(),
        r.is_some() ==> r.unwrap()@ == piece(s@, sep, k as nat).unwrap(),
{
    let n = s.unicode_len();
    let mut i: usize = 0;
    let mut left: usize = k;
    let mut acc = String::new();
    while i < n
        invariant
            n == s@.len(),
            i <= n,
            piece_from(s@, sep, left as nat, i as int, acc@) == piece(s@, sep, k as nat),
        decreases n - i,
    {
        let c = s.get_char(i);
        if c == sep {
            if left == 0 {
                return Some(acc);
            }
            left = left - 1;
            acc = String::new();
        } else if left == 0 {
            push_char(&mut acc, c);
        }
        i = i + 1;
    }
    if left == 0 {
        Some(acc)
    } else {
        None
    }
}

/// The value of a decimal number of at least one digit, where it fits in a
/// `u64`.
pub open spec fn parse_digits(s: Seq<char>) -> Option<nat> {
    if s.len() > 0 && all_digits(s) && dec_value(s) <= u64::MAX {
        Some(dec_value(s))
    } else {
        None
    }
}

proof fn lemma_dec_value_push(s: Seq<char>, c: char)
    ensures
        dec_value(s.push(c)) == dec_value(s) * 10 + digit_value(c),
{
    assert(s.push(c).drop_last() =~= s);
}

proof fn lemma_dec_value_monotone(s: Seq<char>, i: int)
    requires
        0 <= i <= s.len(),
        all_digits(s),
    ensures
        dec_value(s.subrange(0, i)) <= dec_value(s),
    decreases s.len() - i,
{
    if i < s.len() {
        lemma_dec_value_monotone(s, i + 1);
        assert(s.subrange(0, i + 1) =~= s.subrange(0, i).push(s[i]));
        lemma_dec_value_push(s.subrange(0, i), s[i]);
    } else {
        assert(s.subrange(0, i) =~= s);
    }
}

/// Reads a decimal number of at least one digit that fits in a `u64`.
pub fn parse_u64(s: &str) -> (r: Option<u64>)
    ensures
        r.is_some() == parse_digits(s@).is_some(),
        r.is_some() ==> r.unwrap() as nat == parse_digits(s@).unwrap(),
{
    let n = s.unicode_len();
    if n == 0 {
        return None;
    }
    let mut i: usize = 0;
    let mut v: u64 = 0;
    while i < n
        invariant
            n == s@.len(),
            i <= n,
            all_digits(s@.subrange(0, i as int)),
            v as nat == dec_value(s@.subrange(0, i as int)),
        decreases n - i,
    {
        let c = s.get_char(i);
        if !('0' <= c && c <= '9') {
            assert(!is_digit(s@[i as int]));
            return None;
        }
        let d: u64 = (c as u32 - '0' as u32) as u64;
        proof {
            assert(s@.subrange(0, i + 1) =~= s@.subrange(0, i as int).push(c));
            lemma_dec_value_push(s@.subrange(0, i as int), c);
        }
        if v > (u64::MAX - d) / 10 {
            proof {
                assert(v * 10 + d > u64::MAX) by (nonlinear_arith)
                    requires
                        v > (u64::MAX - d) / 10,
                        d <= 9,
                ;
                if all_digits(s@) {
                    lemma_dec_value_monotone(s@, i + 1);
                }
            }
            return None;
        }
        assert(v * 10 + d <= u64::MAX) by (nonlinear_arith)
            requires
                v <= (u64::MAX - d) / 10,
                d <= 9,
        ;
        v = v * 10 + d;
        i = i + 1;
    }
    assert(s@.subrange(0, n as int) =~= s@);
    Some(v)
}

pub proof fn lemma_dec_value_push_pub(s: Seq<char>, c: char)
    ensures
        dec_value(s.push(c)) == dec_value(s) * 10 + digit_value(c),
{
    lemma_dec_value_push(s, c);
}

pub proof fn lemma_dec_value_monotone_pub(s: Seq<char>, i: int)
    requires
        0 <= i <= s.len(),
        all_digits(s),
    ensures
        dec_value(s.subrange(0, i)) <= dec_value(s),
{
    lemma_dec_value_monotone(s, i);
}

/// `s` with its first `p` replaced by `r`; `s` itself where `p` does not
/// occur.
pub open spec fn replace_first(s: Seq<char>, p: Seq<char>, r: Seq<char>) -> Seq<char> {
    match find(s, p) {
        None => s,
        Some(i) => s.subrange(0, i as int) + r + s.subrange(i as int + p.len(), s.len() as int),
    }
}

/// Replaces the first `p` in `s` by `r`.
pub fn replace_first_text(s: &str, p: &str, r: &str) -> (out: String)
    ensures
        out@ == replace_first(s@, p@, r@),
{
    match find_text(s, p) {
        None => String::from_str(s),
        Some(i) => {
            proof {
                lemma_find_from(s@, p@, 0);
            }
            let n = s.unicode_len();
            let m = p.unicode_len();
            let mut out = String::from_str(s.substring_char(0, i));
            out.append(r);
            out.append(s.substring_char(i + m, n));
            out
        },
    }
}

} // verus!
