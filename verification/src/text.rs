//! Character-sequence helpers: converting between `String` and `Vec<char>`,
//! decimal digit strings, and splitting facts about sequences.

use vstd::prelude::*;

verus! {

/// Relies on `String`'s `FromIterator<char>` implementation: collecting an
/// iterator over characters yields a string holding exactly those characters,
/// in order.
#[verifier::external_body]
pub fn chars_to_string(v: &Vec<char>) -> (r: String)
    ensures
        r@ == v@,
{
    v.iter().collect()
}

/// The characters of a string slice, as a vector.
pub fn str_to_chars(s: &str) -> (r: Vec<char>)
    ensures
        r@ == s@,
{
    let n = s.unicode_len();
    let mut r: Vec<char> = Vec::new();
    for i in 0..n
        invariant
            n == s@.len(),
            r@ == s@.subrange(0, i as int),
    {
        r.push(s.get_char(i));
        assert(r@ =~= s@.subrange(0, i + 1 as int));
    }
    assert(r@ =~= s@);
    r
}

/// The substring of `s` between positions `a` and `b`, as an owned string.
pub fn capture(s: &Vec<char>, a: usize, b: usize) -> (r: String)
    requires
        a <= b <= s@.len(),
    ensures
        r@ == s@.subrange(a as int, b as int),
{
    let mut v: Vec<char> = Vec::new();
    for i in a..b
        invariant
            a <= i <= b <= s@.len(),
            v@ == s@.subrange(a as int, i as int),
    {
        v.push(s[i]);
        assert(v@ =~= s@.subrange(a as int, i + 1 as int));
    }
    chars_to_string(&v)
}

/// The character for a single decimal digit.
pub open spec fn digit_char(d: nat) -> char {
    (48 + d) as char
}

/// Whether `c` is a decimal digit.
pub open spec fn is_digit(c: char) -> bool {
    '0' <= c && c <= '9'
}

/// The numeric value of a digit character.
pub open spec fn digit_val(c: char) -> nat {
    (c as nat - 48) as nat
}

/// Whether every character of `s` is a decimal digit.
pub open spec fn all_digits(s: Seq<char>) -> bool {
    forall|i: int| 0 <= i < s.len() ==> is_digit(#[trigger] s[i])
}

/// The canonical decimal digit string of a natural number (no leading zeros).
pub open spec fn nat_str(n: nat) -> Seq<char>
    decreases n,
{
    if n < 10 {
        seq![digit_char(n)]
    } else {
        nat_str(n / 10).push(digit_char(n % 10))
    }
}

/// The numeric value of a digit string.
pub open spec fn dec_val(s: Seq<char>) -> nat
    decreases s.len(),
{
    if s.len() == 0 {
        0
    } else {
        dec_val(s.drop_last()) * 10 + digit_val(s.last())
    }
}

/// `s` left-padded with zeros to width `w`.
pub open spec fn zero_pad(s: Seq<char>, w: nat) -> Seq<char> {
    if s.len() >= w {
        s
    } else {
        Seq::new((w - s.len()) as nat, |i: int| '0') + s
    }
}

pub proof fn lemma_nat_str_digits(n: nat)
    ensures
        all_digits(nat_str(n)),
        nat_str(n).len() >= 1,
    decreases n,
{
    if n >= 10 {
        lemma_nat_str_digits(n / 10);
    }
}

pub proof fn lemma_dec_val_nat_str(n: nat)
    ensures
        dec_val(nat_str(n)) == n,
    decreases n,
{
    if n < 10 {
        assert(nat_str(n) =~= seq![digit_char(n)]);
        assert(seq![digit_char(n)].drop_last() =~= Seq::<char>::empty());
        assert(seq![digit_char(n)].last() == digit_char(n));
        assert(dec_val(Seq::<char>::empty()) == 0);
        assert(dec_val(seq![digit_char(n)]) == digit_val(digit_char(n)));
        assert(digit_char(n) as nat == 48 + n);
        assert(digit_val(digit_char(n)) == n);
    } else {
        lemma_dec_val_nat_str(n / 10);
        assert(nat_str(n).drop_last() =~= nat_str(n / 10));
    }
}

/// Prepending a zero leaves the value unchanged.
pub proof fn lemma_dec_val_prepend_zero(s: Seq<char>)
    ensures
        dec_val(seq!['0'] + s) == dec_val(s),
    decreases s.len(),
{
    if s.len() == 0 {
        assert(seq!['0'] + s =~= seq!['0']);
        assert(seq!['0'].drop_last() =~= Seq::<char>::empty());
        assert(seq!['0'].last() == '0');
        assert(dec_val(Seq::<char>::empty()) == 0);
        assert(dec_val(seq!['0']) == digit_val('0'));
        assert(digit_val('0') == 0);
    } else {
        lemma_dec_val_prepend_zero(s.drop_last());
        assert((seq!['0'] + s).drop_last() =~= seq!['0'] + s.drop_last());
        assert((seq!['0'] + s).last() == s.last());
    }
}

pub proof fn lemma_dec_val_zero_pad(s: Seq<char>, w: nat)
    ensures
        dec_val(zero_pad(s, w)) == dec_val(s),
        all_digits(s) ==> all_digits(zero_pad(s, w)),
        zero_pad(s, w).len() >= w,
        zero_pad(s, w).len() >= s.len(),
    decreases w,
{
    if s.len() < w {
        lemma_dec_val_zero_pad(s, (w - 1) as nat);
        assert(zero_pad(s, w) =~= seq!['0'] + zero_pad(s, (w - 1) as nat));
        lemma_dec_val_prepend_zero(zero_pad(s, (w - 1) as nat));
    }
}

/// The digits of a `u64`, most significant first.
pub fn u64_to_digits(m: u64) -> (v: Vec<char>)
    ensures
        v@ == nat_str(m as nat),
    decreases m,
{
    if m < 10 {
        let c = (48 + m as u8) as char;
        let mut v: Vec<char> = Vec::new();
        v.push(c);
        assert(v@ =~= nat_str(m as nat));
        v
    } else {
        let mut v = u64_to_digits(m / 10);
        let c = (48 + (m % 10) as u8) as char;
        v.push(c);
        assert(v@ =~= nat_str(m as nat));
        v
    }
}

/// The digits of a `u64`, left-padded with zeros to width `w`.
pub fn u64_to_digits_pad(m: u64, w: usize) -> (v: Vec<char>)
    ensures
        v@ == zero_pad(nat_str(m as nat), w as nat),
{
    let mut v = u64_to_digits(m);
    proof {
        lemma_nat_str_digits(m as nat);
    }
    while v.len() < w
        invariant
            v@.len() >= 1,
            zero_pad(v@, w as nat) == zero_pad(nat_str(m as nat), w as nat),
        decreases w - v.len(),
    {
        v.insert(0, '0');
        proof {
            assert(v@ =~= seq!['0'] + tail_of(v@));
        }
    }
    proof {
        assert(zero_pad(v@, w as nat) =~= v@);
    }
    v
}

/// How many newline characters a text holds.
pub open spec fn newline_count(s: Seq<char>) -> int
    decreases s.len(),
{
    if s.len() == 0 {
        0
    } else {
        newline_count(s.drop_last()) + (if s.last() == '\n' {
            1int
        } else {
            0int
        })
    }
}

/// A text holds at most as many newlines as characters.
pub proof fn lemma_newline_count_bound(s: Seq<char>)
    ensures
        0 <= newline_count(s) <= s.len(),
    decreases s.len(),
{
    if s.len() > 0 {
        lemma_newline_count_bound(s.drop_last());
    }
}

/// The canonical digit string of a positive number does not start with a
/// zero.
pub proof fn lemma_nat_str_leading(n: nat)
    requires
        n >= 1,
    ensures
        nat_str(n)[0] != '0',
    decreases n,
{
    if n < 10 {
        assert(nat_str(n)[0] == digit_char(n));
    } else {
        lemma_nat_str_leading(n / 10);
        lemma_nat_str_digits(n / 10);
        assert(nat_str(n)[0] == nat_str(n / 10)[0]);
    }
}

/// A sequence without its first element.
pub open spec fn tail_of(s: Seq<char>) -> Seq<char> {
    s.subrange(1, s.len() as int)
}

/// The numeric value of a digit string, when it fits in a `u64`;
/// `None` when some character is not a digit or the value overflows.
pub fn parse_u64(s: &String) -> (r: Option<u64>)
    ensures
        r matches Some(v) ==> all_digits(s@) && v as nat == dec_val(s@),
        r is None ==> !all_digits(s@) || dec_val(s@) > u64::MAX,
{
    let chars = str_to_chars(s.as_str());
    let n = chars.len();
    let mut acc: u64 = 0;
    let mut i: usize = 0;
    while i < n
        invariant
            n == chars@.len(),
            chars@ == s@,
            0 <= i <= n,
            all_digits(s@.subrange(0, i as int)),
            acc as nat == dec_val(s@.subrange(0, i as int)),
        decreases n - i,
    {
        let c = chars[i];
        if !(c >= '0' && c <= '9') {
            return None;
        }
        let d: u64 = (c as u8 - 48) as u64;
        if acc > (u64::MAX - d) / 10 {
            proof {
                assert(s@.subrange(0, i + 1 as int).drop_last() =~= s@.subrange(0, i as int));
                assert(dec_val(s@.subrange(0, i + 1 as int)) > u64::MAX);
                lemma_dec_val_prefix_monotone(s@, i + 1 as int);
            }
            return None;
        }
        acc = acc * 10 + d;
        proof {
            assert(s@.subrange(0, i + 1 as int).drop_last() =~= s@.subrange(0, i as int));
        }
        i += 1;
    }
    proof {
        assert(s@.subrange(0, n as int) =~= s@);
    }
    Some(acc)
}

/// Powers of ten.
pub open spec fn pow10(k: nat) -> nat
    decreases k,
{
    if k == 0 {
        1
    } else {
        10 * pow10((k - 1) as nat)
    }
}

/// The canonical digit string of `n` has at most `k` digits exactly when
/// `n` is below ten to the `k`.
pub proof fn lemma_nat_str_len_bound(n: nat, k: nat)
    requires
        k >= 1,
    ensures
        nat_str(n).len() <= k <==> n < pow10(k),
    decreases k,
{
    if n < 10 {
        assert(pow10(k) >= 10) by {
            lemma_pow10_at_least(k);
        }
        assert(nat_str(n).len() == 1);
    } else if k == 1 {
        lemma_nat_str_digits(n / 10);
        assert(nat_str(n).len() >= 2);
        assert(pow10(1) == 10 * pow10(0));
        assert(pow10(0) == 1);
    } else {
        lemma_nat_str_len_bound(n / 10, (k - 1) as nat);
        assert(nat_str(n).len() == nat_str(n / 10).len() + 1);
        let p = pow10((k - 1) as nat);
        assert(pow10(k) == 10 * p);
        assert(p >= 10) by {
            lemma_pow10_at_least((k - 1) as nat);
        }
        assert(n / 10 < p <==> n < 10 * p) by (nonlinear_arith)
            requires
                p >= 1 && n >= 10,
        ;
    }
}

/// Ten to the `k` is at least ten when `k` is positive.
pub proof fn lemma_pow10_at_least(k: nat)
    requires
        k >= 1,
    ensures
        pow10(k) >= 10,
    decreases k,
{
    if k == 1 {
        assert(pow10(0) == 1);
    } else {
        lemma_pow10_at_least((k - 1) as nat);
    }
}

/// A digit string's value is bounded by ten to its length.
pub proof fn lemma_dec_val_upper(s: Seq<char>)
    requires
        all_digits(s),
    ensures
        dec_val(s) < pow10(s.len()),
    decreases s.len(),
{
    if s.len() > 0 {
        assert(all_digits(s.drop_last()));
        lemma_dec_val_upper(s.drop_last());
        assert(digit_val(s.last()) <= 9);
    }
}

/// Extending a digit string cannot decrease its value.
pub proof fn lemma_dec_val_prefix_monotone(s: Seq<char>, k: int)
    requires
        0 <= k <= s.len(),
    ensures
        dec_val(s.subrange(0, k)) <= dec_val(s),
    decreases s.len() - k,
{
    if k < s.len() {
        lemma_dec_val_prefix_monotone(s, k + 1);
        assert(s.subrange(0, k + 1).drop_last() =~= s.subrange(0, k));
        assert(dec_val(s.subrange(0, k + 1)) == dec_val(s.subrange(0, k)) * 10 + digit_val(
            s.subrange(0, k + 1).last(),
        ));
    } else {
        assert(s.subrange(0, k) =~= s);
    }
}

/// Adjacent subranges concatenate to the enclosing subrange.
pub proof fn lemma_subrange_split(s: Seq<char>, a: int, b: int, c: int)
    requires
        0 <= a <= b <= c <= s.len(),
    ensures
        s.subrange(a, c) == s.subrange(a, b) + s.subrange(b, c),
{
    assert(s.subrange(a, c) =~= s.subrange(a, b) + s.subrange(b, c));
}

} // verus!
