//! Decimal integers: a verified parser from text to `i64` and a verified
//! printer from `i64` to text, with the lemma that the parser inverts the
//! printer. The token bundle's two expiry fields go through the parser; the
//! serializer goes through the printer.

use vstd::prelude::*;

use crate::text::str_to_chars;

verus! {

/// A decimal digit.
pub open spec fn is_digit(c: char) -> bool {
    '0' <= c && c <= '9'
}

/// The numeric value of a decimal digit.
pub open spec fn digit_val(c: char) -> int {
    c as int - '0' as int
}

/// The digit character for a value in 0..9.
pub open spec fn digit_char(d: int) -> char {
    if d == 0 { '0' }
    else if d == 1 { '1' }
    else if d == 2 { '2' }
    else if d == 3 { '3' }
    else if d == 4 { '4' }
    else if d == 5 { '5' }
    else if d == 6 { '6' }
    else if d == 7 { '7' }
    else if d == 8 { '8' }
    else { '9' }
}

pub open spec fn all_digits(s: Seq<char>) -> bool {
    forall|i: int| 0 <= i < s.len() ==> is_digit(#[trigger] s[i])
}

/// The value of a run of decimal digits, most significant first.
pub open spec fn digits_val(s: Seq<char>) -> int
    decreases s.len(),
{
    if s.len() == 0 {
        0
    } else {
        digits_val(s.drop_last()) * 10 + digit_val(s.last())
    }
}

pub open spec fn pow10(n: nat) -> int
    decreases n,
{
    if n == 0 { 1 } else { 10 * pow10((n - 1) as nat) }
}

/// What a signed decimal literal denotes: an optional sign, then at least
/// one digit, nothing else. `None` on any other shape.
pub open spec fn int_literal_val(s: Seq<char>) -> Option<int> {
    if s.len() > 0 && (s[0] == '-' || s[0] == '+') {
        if s.len() > 1 && all_digits(s.skip(1)) {
            Some(if s[0] == '-' { -digits_val(s.skip(1)) } else { digits_val(s.skip(1)) })
        } else {
            None
        }
    } else {
        if s.len() > 0 && all_digits(s) {
            Some(digits_val(s))
        } else {
            None
        }
    }
}

/// What parsing text as an `i64` returns: the denoted value when the text is
/// a signed decimal literal whose value fits, `None` otherwise.
pub open spec fn parse_i64_spec(s: Seq<char>) -> Option<int> {
    match int_literal_val(s) {
        Some(v) => if i64::MIN <= v <= i64::MAX { Some(v) } else { None },
        None => None,
    }
}

proof fn lemma_digits_val_bounds(s: Seq<char>)
    requires
        all_digits(s),
    ensures
        0 <= digits_val(s) < pow10(s.len()),
    decreases s.len(),
{
    if s.len() > 0 {
        lemma_digits_val_bounds(s.drop_last());
        assert(all_digits(s.drop_last()));
        assert(is_digit(s.last()));
        assert(0 <= digit_val(s.last()) <= 9);
    }
}

proof fn lemma_digits_val_lower(s: Seq<char>)
    requires
        all_digits(s),
        s.len() > 0,
        s[0] != '0',
    ensures
        digits_val(s) >= pow10((s.len() - 1) as nat),
    decreases s.len(),
{
    if s.len() == 1 {
        reveal_with_fuel(digits_val, 2);
        assert(s.last() == s[0]);
        assert(is_digit(s[0]));
        assert(digit_val(s[0]) >= 1);
        assert(s.drop_last().len() == 0);
        assert(digits_val(s.drop_last()) == 0);
    } else {
        let p = s.drop_last();
        assert(all_digits(p));
        assert(p[0] == s[0]);
        lemma_digits_val_lower(p);
        assert(is_digit(s.last()));
        assert(digit_val(s.last()) >= 0);
        assert(pow10((s.len() - 1) as nat) == 10 * pow10((s.len() - 2) as nat));
        assert(digits_val(p) * 10 >= pow10((s.len() - 2) as nat) * 10);
    }
}

proof fn lemma_digits_val_all_zeros(s: Seq<char>)
    requires
        forall|i: int| 0 <= i < s.len() ==> #[trigger] s[i] == '0',
    ensures
        digits_val(s) == 0,
    decreases s.len(),
{
    if s.len() > 0 {
        lemma_digits_val_all_zeros(s.drop_last());
    }
}

/// Leading zeros do not change the value of a digit run.
proof fn lemma_digits_val_leading_zeros(z: Seq<char>, s: Seq<char>)
    requires
        forall|i: int| 0 <= i < z.len() ==> #[trigger] z[i] == '0',
    ensures
        digits_val(z + s) == digits_val(s),
    decreases s.len(),
{
    if s.len() == 0 {
        assert(z + s =~= z);
        lemma_digits_val_all_zeros(z);
    } else {
        assert((z + s).drop_last() =~= z + s.drop_last());
        assert((z + s).last() == s.last());
        lemma_digits_val_leading_zeros(z, s.drop_last());
    }
}

/// Parses a string as a signed decimal `i64`, exactly where
/// `parse_i64_spec` gives a value.
pub fn parse_i64(s: &str) -> (r: Option<i64>)
    ensures
        match r {
            Some(v) => parse_i64_spec(s@) == Some(v as int),
            None => parse_i64_spec(s@) is None,
        },
{
    let cs = str_to_chars(s);
    parse_i64_chars(&cs)
}

/// Parses a character vector as a signed decimal `i64`.
pub fn parse_i64_chars(cs: &Vec<char>) -> (r: Option<i64>)
    ensures
        match r {
            Some(v) => parse_i64_spec(cs@) == Some(v as int),
            None => parse_i64_spec(cs@) is None,
        },
{
    let n = cs.len();
    if n == 0 {
        return None;
    }
    let neg = cs[0] == '-';
    let start: usize = if cs[0] == '-' || cs[0] == '+' { 1 } else { 0 };
    if n == start {
        return None;
    }
    let ghost ds = cs@.skip(start as int);
    proof {
        assert(ds.len() == n - start);
        if start == 0 {
            assert(cs@.skip(0) =~= cs@);
        }
    }
    // every character from `start` on must be a digit
    let mut i = start;
    while i < n
        invariant
            start <= 1,
            start <= i <= n,
            n == cs@.len(),
            ds == cs@.skip(start as int),
            ds.len() == n - start,
            start == 1 ==> (cs@[0] == '-' || cs@[0] == '+') && n > 1,
            start == 0 ==> !(cs@[0] == '-' || cs@[0] == '+') && ds == cs@,
            forall|k: int| start <= k < i ==> is_digit(#[trigger] cs@[k]),
        decreases n - i,
    {
        let c = cs[i];
        if !('0' <= c && c <= '9') {
            proof {
                assert(ds[i - start] == cs@[i as int]);
                assert(!is_digit(ds[i - start]));
                assert(!all_digits(ds));
                if start == 1 {
                    assert(cs@.skip(1) == ds);
                    assert(int_literal_val(cs@) is None);
                } else {
                    assert(!all_digits(cs@));
                    assert(int_literal_val(cs@) is None);
                }
                assert(parse_i64_spec(cs@) is None);
            }
            return None;
        }
        i += 1;
    }
    assert(all_digits(ds)) by {
        assert(forall|k: int| 0 <= k < ds.len() ==> ds[k] == cs@[k + start] && is_digit(cs@[k + start]));
    }

    // skip leading zeros
    let mut z = start;
    while z < n && cs[z] == '0'
        invariant
            start <= z <= n,
            n == cs@.len(),
            forall|k: int| start <= k < z ==> #[trigger] cs@[k] == '0',
        decreases n - z,
    {
        z += 1;
    }
    let ghost sig = cs@.skip(z as int);
    proof {
        assert(sig.len() == n - z);
        assert(forall|k: int| 0 <= k < sig.len() ==> #[trigger] sig[k] == cs@[k + z] && is_digit(cs@[k + z]));
        assert(all_digits(sig));
        let zeros = ds.take(z - start);
        assert(forall|k: int| 0 <= k < zeros.len() ==> #[trigger] zeros[k] == cs@[k + start] && cs@[k + start] == '0');
        assert(ds =~= zeros + sig);
        lemma_digits_val_leading_zeros(zeros, sig);
        lemma_digits_val_bounds(sig);
        assert(digits_val(ds) == digits_val(sig));
    }

    if n - z > 19 {
        // at least 20 significant digits: out of the i64 range either way
        proof {
            assert(sig.len() == n - z);
            assert(sig[0] == cs@[z as int]);
            assert(sig[0] != '0');
            assert(all_digits(sig)) by {
                assert(forall|k: int| 0 <= k < sig.len() ==> sig[k] == ds[k + (z - start)] && all_digits(ds));
            }
            lemma_digits_val_lower(sig);
            lemma_pow10_mono(19, (sig.len() - 1) as nat);
            lemma_pow10_19();
            assert(digits_val(ds) > i64::MAX);
        }
        return None;
    }

    proof {
        lemma_pow10_mono(sig.len(), 19);
        lemma_pow10_19();
    }
    let mut acc: u64 = 0;
    let mut j = z;
    while j < n
        invariant
            z <= j <= n,
            n == cs@.len(),
            n - z <= 19,
            all_digits(sig),
            sig == cs@.skip(z as int),
            sig.len() == n - z,
            acc == digits_val(sig.take(j - z)),
            acc < pow10((j - z) as nat),
            pow10((n - z) as nat) <= pow10(19),
            pow10(19) == 0x8AC7230489E80000u64,
        decreases n - j,
    {
        let c = cs[j];
        proof {
            assert(sig[j - z] == cs@[j as int]);
            assert(is_digit(sig[j - z]));
        }
        let d: u64 = (c as u32 - '0' as u32) as u64;
        proof {
            assert(d == digit_val(cs@[j as int]));
            assert(sig.take(j + 1 - z).drop_last() =~= sig.take(j - z));
            assert(sig.take(j + 1 - z).last() == cs@[j as int]);
            assert(pow10((j + 1 - z) as nat) == 10 * pow10((j - z) as nat));
            lemma_pow10_mono((j + 1 - z) as nat, (n - z) as nat);
            assert(acc * 10 + d < pow10((j + 1 - z) as nat));
        }
        acc = acc * 10 + d;
        j += 1;
    }
    proof {
        assert(sig.take(n - z) =~= sig);
        assert(acc == digits_val(sig));
        assert(acc == digits_val(ds));
        if start == 1 {
            assert(cs@[0] == '-' || cs@[0] == '+');
            assert(int_literal_val(cs@) == Some(
                if cs@[0] == '-' { -digits_val(ds) } else { digits_val(ds) },
            ));
        } else {
            assert(!(cs@[0] == '-' || cs@[0] == '+'));
            assert(ds == cs@);
            assert(int_literal_val(cs@) == Some(digits_val(cs@)));
        }
    }

    if neg {
        if acc <= 0x8000000000000000u64 {
            let v: i64 = if acc == 0x8000000000000000u64 {
                i64::MIN
            } else {
                -(acc as i64)
            };
            Some(v)
        } else {
            None
        }
    } else {
        if acc <= 0x7FFFFFFFFFFFFFFFu64 {
            Some(acc as i64)
        } else {
            None
        }
    }
}

proof fn lemma_pow10_pos(a: nat)
    ensures
        pow10(a) >= 1,
    decreases a,
{
    if a > 0 {
        lemma_pow10_pos((a - 1) as nat);
    }
}

proof fn lemma_pow10_mono(a: nat, b: nat)
    requires
        a <= b,
    ensures
        1 <= pow10(a) <= pow10(b),
    decreases b,
{
    lemma_pow10_pos(a);
    if a < b {
        lemma_pow10_mono(a, (b - 1) as nat);
        assert(pow10(b) == 10 * pow10((b - 1) as nat));
    }
}

proof fn lemma_pow10_19()
    ensures
        pow10(19) == 0x8AC7230489E80000u64,
        pow10(19) > i64::MAX,
        pow10(19) < u64::MAX,
{
    reveal_with_fuel(pow10, 21);
}

/// The decimal digits of a non-negative value, no sign, no leading zero.
pub open spec fn dec_of(n: int) -> Seq<char>
    decreases n,
{
    if n <= 0 {
        seq![digit_char(0)]
    } else if n < 10 {
        seq![digit_char(n)]
    } else {
        dec_of(n / 10).push(digit_char(n % 10))
    }
}

/// The decimal text of a signed value: a `-` sign for negatives, then digits.
pub open spec fn dec_i64_of(v: int) -> Seq<char> {
    if v < 0 {
        seq!['-'] + dec_of(-v)
    } else {
        dec_of(v)
    }
}

pub proof fn lemma_dec_of_digits(n: int)
    requires
        n >= 0,
    ensures
        all_digits(dec_of(n)),
        dec_of(n).len() >= 1,
        digits_val(dec_of(n)) == n,
        dec_of(n)[0] != '0' || n == 0,
    decreases n,
{
    if n < 10 {
        assert(digits_val(dec_of(n)) == digits_val(dec_of(n).drop_last()) * 10 + digit_val(dec_of(n).last()));
        assert(dec_of(n).drop_last() =~= Seq::<char>::empty());
    } else {
        lemma_dec_of_digits(n / 10);
        let s = dec_of(n);
        assert(s.drop_last() =~= dec_of(n / 10));
        assert(s.last() == digit_char(n % 10));
        assert(0 <= n % 10 <= 9);
        assert(digit_val(digit_char(n % 10)) == n % 10);
        assert(digits_val(s) == (n / 10) * 10 + n % 10);
        assert((n / 10) * 10 + n % 10 == n) by (nonlinear_arith);
        assert(s[0] == dec_of(n / 10)[0]);
        assert(forall|i: int| 0 <= i < s.len() ==> is_digit(#[trigger] s[i])) by {
            assert(forall|i: int| 0 <= i < s.len() - 1 ==> s[i] == #[trigger] dec_of(n / 10)[i]);
        }
    }
}

/// Parsing inverts printing: the decimal text of `v` parses back to `v`.
pub proof fn lemma_parse_dec_i64(v: i64)
    ensures
        parse_i64_spec(dec_i64_of(v as int)) == Some(v as int),
{
    if v < 0 {
        let m = -(v as int);
        lemma_dec_of_digits(m);
        let s = seq!['-'] + dec_of(m);
        assert(s[0] == '-');
        assert(s.skip(1) =~= dec_of(m));
        assert(int_literal_val(s) == Some(-digits_val(dec_of(m))));
    } else {
        let m = v as int;
        lemma_dec_of_digits(m);
        let s = dec_of(m);
        assert(is_digit(s[0]));
        assert(s[0] != '-' && s[0] != '+');
        assert(int_literal_val(s) == Some(digits_val(s)));
    }
}

/// Prints a non-negative value as decimal digits.
fn u64_to_dec(n: u64) -> (r: Vec<char>)
    ensures
        r@ == dec_of(n as int),
    decreases n,
{
    if n < 10 {
        let c: char = match n {
            0 => '0',
            1 => '1',
            2 => '2',
            3 => '3',
            4 => '4',
            5 => '5',
            6 => '6',
            7 => '7',
            8 => '8',
            _ => '9',
        };
        let mut r: Vec<char> = Vec::new();
        r.push(c);
        assert(r@ =~= dec_of(n as int));
        r
    } else {
        let mut r = u64_to_dec(n / 10);
        let m = n % 10;
        let c: char = match m {
            0 => '0',
            1 => '1',
            2 => '2',
            3 => '3',
            4 => '4',
            5 => '5',
            6 => '6',
            7 => '7',
            8 => '8',
            _ => '9',
        };
        r.push(c);
        assert(r@ =~= dec_of(n as int));
        r
    }
}

/// Prints a signed value as decimal text, exactly `dec_i64_of`.
pub fn i64_to_dec(v: i64) -> (r: Vec<char>)
    ensures
        r@ == dec_i64_of(v as int),
{
    if v < 0 {
        let m: u64 = if v == i64::MIN {
            0x8000000000000000u64
        } else {
            (-v) as u64
        };
        assert(m as int == -(v as int));
        let mut r: Vec<char> = Vec::new();
        r.push('-');
        let ds = u64_to_dec(m);
        let mut k: usize = 0;
        let dn = ds.len();
        while k < dn
            invariant
                0 <= k <= dn,
                dn == ds@.len(),
                ds@ == dec_of(m as int),
                r@ == seq!['-'] + ds@.take(k as int),
            decreases dn - k,
        {
            r.push(ds[k]);
            assert(r@ =~= seq!['-'] + ds@.take(k + 1));
            k += 1;
        }
        assert(r@ =~= seq!['-'] + dec_of(m as int));
        r
    } else {
        let r = u64_to_dec(v as u64);
        r
    }
}

} // verus!
