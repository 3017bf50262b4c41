//! Small verified text utilities: character tests, substring search, and a
//! decimal codec for the lengths and counts that the record format carries.

use vstd::prelude::*;

verus! {

/// `c` is an ASCII decimal digit.
pub open spec fn is_dec_digit(c: char) -> bool {
    '0' <= c && c <= '9'
}

/// Numeric value of a decimal digit character.
pub open spec fn digit_val(c: char) -> nat {
    (c as nat - 48) as nat
}

/// The digit character for `d` (only meaningful for `d < 10`).
pub open spec fn digit_char(d: nat) -> char {
    if d == 0 {
        '0'
    } else if d == 1 {
        '1'
    } else if d == 2 {
        '2'
    } else if d == 3 {
        '3'
    } else if d == 4 {
        '4'
    } else if d == 5 {
        '5'
    } else if d == 6 {
        '6'
    } else if d == 7 {
        '7'
    } else if d == 8 {
        '8'
    } else {
        '9'
    }
}

/// The decimal digit string of `n`, most significant digit first, with no
/// leading zeros (except for `n == 0`, which is the single digit `0`).
pub open spec fn dec_digits(n: nat) -> Seq<char>
    decreases n,
{
    if n < 10 {
        seq![digit_char(n)]
    } else {
        dec_digits(n / 10).push(digit_char(n % 10))
    }
}

/// 10 to the power `k`.
spec fn pow10(k: nat) -> nat
    decreases k,
{
    if k == 0 {
        1
    } else {
        10 * pow10((k - 1) as nat)
    }
}

/// Left-to-right accumulation of a digit run on top of `a`.
spec fn digits_val(a: nat, ds: Seq<char>) -> nat
    decreases ds.len(),
{
    if ds.len() == 0 {
        a
    } else {
        digits_val(a * 10 + digit_val(ds[0]), ds.drop_first())
    }
}

/// Bounded decimal scan: starting at position `i` with accumulator `acc`,
/// consume digits left to right; fail as soon as the value would pass
/// `bound`, and stop at the first non-digit or at the end.
pub open spec fn scan_digits(s: Seq<char>, i: int, acc: nat, bound: nat) -> Option<(nat, int)>
    decreases s.len() - i,
    when 0 <= i <= s.len()
{
    if i < s.len() && is_dec_digit(s[i]) {
        let v = acc * 10 + digit_val(s[i]);
        if v > bound {
            None
        } else {
            scan_digits(s, i + 1, v, bound)
        }
    } else {
        Some((acc, i))
    }
}

/// A number at position `i`: at least one digit, value at most `bound`.
pub open spec fn parse_nat_spec(s: Seq<char>, i: int, bound: nat) -> Option<(nat, int)> {
    if 0 <= i < s.len() && is_dec_digit(s[i]) {
        scan_digits(s, i, 0, bound)
    } else {
        None
    }
}

proof fn lemma_dec_digits_are_digits(n: nat)
    ensures
        dec_digits(n).len() >= 1,
        forall|k: int| 0 <= k < dec_digits(n).len() ==> is_dec_digit(#[trigger] dec_digits(n)[k]),
    decreases n,
{
    if n >= 10 {
        lemma_dec_digits_are_digits(n / 10);
    }
}

/// Appending one digit multiplies the accumulated value by ten.
proof fn lemma_digits_val_push(a: nat, ds: Seq<char>, c: char)
    ensures
        digits_val(a, ds.push(c)) == digits_val(a, ds) * 10 + digit_val(c),
    decreases ds.len(),
{
    if ds.len() == 0 {
        assert(ds.push(c)[0] == c);
        assert(ds.push(c).drop_first() =~= Seq::<char>::empty());
        assert(digits_val(a * 10 + digit_val(c), Seq::<char>::empty()) == a * 10 + digit_val(c));
        assert(digits_val(a, ds.push(c)) == a * 10 + digit_val(c));
    } else {
        assert(ds.push(c)[0] == ds[0]);
        assert(ds.push(c).drop_first() =~= ds.drop_first().push(c));
        lemma_digits_val_push(a * 10 + digit_val(ds[0]), ds.drop_first(), c);
    }
}

/// The digit string of `n`, scanned on top of accumulator `a`, is worth
/// `a` shifted past it plus `n`.
proof fn lemma_digits_val_dec(a: nat, n: nat)
    ensures
        digits_val(a, dec_digits(n)) == a * pow10(dec_digits(n).len()) + n,
    decreases n,
{
    if n < 10 {
        let ds = seq![digit_char(n)];
        assert(dec_digits(n) =~= ds);
        assert(ds[0] == digit_char(n));
        assert(ds.drop_first() =~= Seq::<char>::empty());
        assert(digits_val(a * 10 + digit_val(digit_char(n)), Seq::<char>::empty()) == a * 10
            + digit_val(digit_char(n)));
        assert(digits_val(a, ds) == a * 10 + digit_val(digit_char(n)));
        assert(digit_val(digit_char(n)) == n);
        assert(pow10(0) == 1);
        assert(pow10(1) == 10);
        assert(digits_val(a, dec_digits(n)) == a * 10 + n);
    } else {
        lemma_digits_val_dec(a, n / 10);
        lemma_digits_val_push(a, dec_digits(n / 10), digit_char(n % 10));
        let l = dec_digits(n / 10).len();
        assert(digit_val(digit_char(n % 10)) == n % 10);
        assert(digits_val(a, dec_digits(n)) == (a * pow10(l) + n / 10) * 10 + n % 10);
        assert((a * pow10(l) + n / 10) * 10 == a * (pow10(l) * 10) + (n / 10) * 10) by (nonlinear_arith);
        lemma_pow10_step(l);
        assert(pow10(l) * 10 == pow10(l + 1));
        assert((n / 10) * 10 + n % 10 == n) by (nonlinear_arith);
        assert(dec_digits(n).len() == l + 1);
        assert(digits_val(a, dec_digits(n)) == a * pow10(l + 1) + n);
    }
}

proof fn lemma_pow10_step(l: nat)
    ensures
        pow10(l + 1) == pow10(l) * 10,
    decreases l,
{
    if l > 0 {
        lemma_pow10_step((l - 1) as nat);
    }
}

/// Every strict prefix of `dec_digits(n)` is worth at most `n` when scanned
/// from accumulator zero.
proof fn lemma_dec_prefix_bounded(n: nat, p: int)
    requires
        0 <= p <= dec_digits(n).len(),
    ensures
        digits_val(0, dec_digits(n).take(p)) <= n,
    decreases n,
{
    let ds = dec_digits(n);
    if n < 10 {
        if p == 0 {
            assert(ds.take(0) =~= Seq::<char>::empty());
        } else {
            assert(ds.take(p) =~= ds);
            lemma_digits_val_dec(0, n);
        }
    } else {
        if p == ds.len() {
            assert(ds.take(p) =~= ds);
            lemma_digits_val_dec(0, n);
        } else {
            assert(ds.take(p) =~= dec_digits(n / 10).take(p));
            lemma_dec_prefix_bounded(n / 10, p);
        }
    }
}

/// The central decimal fact: a digit run all of whose left-to-right partial
/// values stay within `bound` scans to exactly its accumulated value and
/// stops right after it.
proof fn lemma_scan_digit_run(s: Seq<char>, i: int, j: int, a: nat, bound: nat)
    requires
        0 <= i <= j <= s.len(),
        forall|k: int| i <= k < j ==> is_dec_digit(#[trigger] s[k]),
        j == s.len() || !is_dec_digit(s[j]),
        forall|p: int| i < p <= j ==> digits_val(a, #[trigger] s.subrange(i, p)) <= bound,
        a <= bound,
    ensures
        scan_digits(s, i, a, bound) == Some((digits_val(a, s.subrange(i, j)), j)),
    decreases j - i,
{
    if i == j {
        assert(s.subrange(i, j) =~= Seq::<char>::empty());
    } else {
        let v = a * 10 + digit_val(s[i]);
        assert(s.subrange(i, i + 1) =~= seq![s[i]]);
        assert(s.subrange(i, i + 1)[0] == s[i]);
        assert(s.subrange(i, i + 1).drop_first() =~= Seq::<char>::empty());
        assert(digits_val(v, Seq::<char>::empty()) == v);
        assert(digits_val(a, s.subrange(i, i + 1)) == v);
        assert(v <= bound);
        assert forall|p: int| i + 1 < p <= j implies digits_val(v, #[trigger] s.subrange(i + 1, p)) <= bound by {
            assert(s.subrange(i, p).drop_first() =~= s.subrange(i + 1, p));
            assert(s.subrange(i, p)[0] == s[i]);
            assert(digits_val(a, s.subrange(i, p)) == digits_val(v, s.subrange(i + 1, p)));
        }
        lemma_scan_digit_run(s, i + 1, j, v, bound);
        assert(s.subrange(i, j).drop_first() =~= s.subrange(i + 1, j));
        assert(s.subrange(i, j)[0] == s[i]);
        assert(digits_val(a, s.subrange(i, j)) == digits_val(v, s.subrange(i + 1, j)));
    }
}

/// Reading back a rendered number: `dec_digits(n)` at position `i`, followed
/// by a non-digit or the end, parses to `n`.
pub proof fn lemma_parse_nat_of_dec(s: Seq<char>, i: int, n: nat, bound: nat)
    requires
        0 <= i,
        i + dec_digits(n).len() <= s.len(),
        s.subrange(i, i + dec_digits(n).len() as int) == dec_digits(n),
        i + dec_digits(n).len() == s.len() || !is_dec_digit(s[i + dec_digits(n).len()]),
        n <= bound,
    ensures
        parse_nat_spec(s, i, bound) == Some((n, i + dec_digits(n).len() as int)),
{
    let l = dec_digits(n).len() as int;
    let j = i + l;
    lemma_dec_digits_are_digits(n);
    assert forall|k: int| i <= k < j implies is_dec_digit(#[trigger] s[k]) by {
        assert(s[k] == s.subrange(i, j)[k - i]);
        assert(is_dec_digit(dec_digits(n)[k - i]));
    }
    assert forall|p: int| i < p <= j implies digits_val(0, #[trigger] s.subrange(i, p)) <= bound by {
        assert(s.subrange(i, p) =~= s.subrange(i, j).take(p - i));
        lemma_dec_prefix_bounded(n, p - i);
    }
    lemma_scan_digit_run(s, i, j, 0, bound);
    assert(s.subrange(i, j) == dec_digits(n));
    lemma_digits_val_dec(0, n);
    assert(is_dec_digit(s[i])) by {
        assert(s[i] == s.subrange(i, j)[0]);
    }
}

/// The digit character for `d`, as a one-character string.
fn digit_str(d: usize) -> (r: &'static str)
    requires
        d < 10,
    ensures
        r@ =~= seq![digit_char(d as nat)],
{
    proof {
        reveal_strlit("0");
        reveal_strlit("1");
        reveal_strlit("2");
        reveal_strlit("3");
        reveal_strlit("4");
        reveal_strlit("5");
        reveal_strlit("6");
        reveal_strlit("7");
        reveal_strlit("8");
        reveal_strlit("9");
    }
    match d {
        0 => "0",
        1 => "1",
        2 => "2",
        3 => "3",
        4 => "4",
        5 => "5",
        6 => "6",
        7 => "7",
        8 => "8",
        _ => "9",
    }
}

/// Render `n` as its decimal digit string.
pub fn usize_to_dec(n: usize) -> (r: String)
    ensures
        r@ == dec_digits(n as nat),
    decreases n,
{
    if n < 10 {
        let s: String = digit_str(n).to_owned();
        proof {
            assert(s@ =~= dec_digits(n as nat));
        }
        s
    } else {
        let mut s = usize_to_dec(n / 10);
        s.append(digit_str(n % 10));
        proof {
            assert(s@ =~= dec_digits(n as nat));
        }
        s
    }
}

/// Whether `c` is a decimal digit (executable form of `is_dec_digit`).
pub fn is_digit_char(c: char) -> (r: bool)
    ensures
        r == is_dec_digit(c),
{
    c >= '0' && c <= '9'
}

/// Parse a decimal number at position `i` of `s`: at least one digit, value
/// capped at `usize::MAX`. Returns the value and the position just past it.
pub fn parse_nat(s: &str, i: usize) -> (r: Option<(usize, usize)>)
    requires
        i <= s@.len(),
    ensures
        match r {
            Some((v, j)) => {
                &&& parse_nat_spec(s@, i as int, usize::MAX as nat) == Some((v as nat, j as int))
                &&& i < j <= s@.len()
            },
            None => parse_nat_spec(s@, i as int, usize::MAX as nat) is None,
        },
{
    let n = s.unicode_len();
    if i >= n || !is_digit_char(s.get_char(i)) {
        return None;
    }
    let mut v: usize = 0;
    let mut j: usize = i;
    while j < n && is_digit_char(s.get_char(j))
        invariant
            i <= j <= n,
            n == s@.len(),
            i < n,
            is_dec_digit(s@[i as int]),
            scan_digits(s@, i as int, 0, usize::MAX as nat) == scan_digits(
                s@,
                j as int,
                v as nat,
                usize::MAX as nat,
            ),
        decreases n - j,
    {
        let c = s.get_char(j);
        let d = (c as u32 - 48) as usize;
        proof {
            assert(d as nat == digit_val(s@[j as int]));
        }
        if v > (usize::MAX - d) / 10 {
            proof {
                assert((usize::MAX - d) / 10 * 10 <= usize::MAX - d) by (nonlinear_arith);
                assert(v * 10 >= ((usize::MAX - d) / 10 + 1) * 10) by (nonlinear_arith)
                    requires
                        v >= (usize::MAX - d) / 10 + 1,
                ;
                assert(v * 10 + d > usize::MAX);
            }
            return None;
        }
        proof {
            assert(v * 10 + d <= ((usize::MAX - d) / 10) * 10 + d) by (nonlinear_arith)
                requires
                    v <= (usize::MAX - d) / 10,
            ;
            assert(((usize::MAX - d) / 10) * 10 <= usize::MAX - d) by (nonlinear_arith);
        }
        v = v * 10 + d;
        j = j + 1;
    }
    proof {
        assert(scan_digits(s@, j as int, v as nat, usize::MAX as nat) == Some((v as nat, j as int)));
        assert(j != i);
    }
    Some((v, j))
}

/// The characters of `lit` stand at position `i` of `s`.
pub open spec fn has_at(s: Seq<char>, i: int, lit: Seq<char>) -> bool {
    &&& 0 <= i
    &&& i + lit.len() <= s.len()
    &&& s.subrange(i, i + lit.len()) == lit
}

/// Whether `lit` stands at position `i` of `s` (executable form of `has_at`).
pub fn lit_at(s: &str, i: usize, lit: &str) -> (r: bool)
    requires
        i <= s@.len(),
    ensures
        r == has_at(s@, i as int, lit@),
{
    let n = s.unicode_len();
    let m = lit.unicode_len();
    if m > n - i {
        return false;
    }
    let mut k: usize = 0;
    while k < m
        invariant
            0 <= k <= m,
            i + m <= n,
            n == s@.len(),
            m == lit@.len(),
            forall|t: int| 0 <= t < k ==> s@[i + t] == lit@[t],
        decreases m - k,
    {
        if s.get_char(i + k) != lit.get_char(k) {
            proof {
                assert(s@.subrange(i as int, i + m) != lit@) by {
                    assert(s@.subrange(i as int, i + m)[k as int] == s@[i + k]);
                }
            }
            return false;
        }
        k = k + 1;
    }
    proof {
        assert(s@.subrange(i as int, i + m) =~= lit@);
    }
    true
}

/// `sub` occurs somewhere in `s`.
pub open spec fn contains_sub(s: Seq<char>, sub: Seq<char>) -> bool {
    exists|k: int| has_at(s, k, sub)
}

/// Substring search (executable form of `contains_sub`).
pub fn str_contains(s: &str, sub: &str) -> (r: bool)
    ensures
        r == contains_sub(s@, sub@),
{
    let n = s.unicode_len();
    let m = sub.unicode_len();
    if m > n {
        return false;
    }
    if m == 0 {
        proof {
            assert(s@.subrange(0, 0) =~= sub@);
            assert(has_at(s@, 0, sub@));
        }
        return true;
    }
    let mut k: usize = 0;
    while k <= n - m
        invariant
            0 <= k <= n - m + 1,
            0 < m <= n,
            n == s@.len(),
            m == sub@.len(),
            forall|t: int| 0 <= t < k ==> !has_at(s@, t, sub@),
        decreases n - m + 1 - k,
    {
        if lit_at(s, k, sub) {
            return true;
        }
        k = k + 1;
    }
    proof {
        assert forall|t: int| !has_at(s@, t, sub@) by {
            if 0 <= t && t + sub@.len() <= s@.len() {
                assert(t <= n - m);
            }
        }
    }
    false
}

} // verus!
