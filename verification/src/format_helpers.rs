//! Human-readable text for counts, byte sizes and long paths.

use vstd::prelude::*;
use vstd::string::*;
use vstd::arithmetic::div_mod::{lemma_div_denominator, lemma_fundamental_div_mod};
use vstd::arithmetic::mul::lemma_mul_is_associative;
use crate::text::{chars_of, push_char, string_from_range};

verus! {

/// The decimal digit character for `d` (`0 <= d < 10`).
pub open spec fn digit_char(d: nat) -> char {
    if d == 0 {
        '0'
    } else if d == 1 {
        '1'
    } else if d == 2 {
        '2'
    } else if d == 3 {
        '3'
    } else if d == 4 {
        '4'
    } else if d == 5 {
        '5'
    } else if d == 6 {
        '6'
    } else if d == 7 {
        '7'
    } else if d == 8 {
        '8'
    } else {
        '9'
    }
}

/// The decimal representation of `n`, without leading zeros.
pub open spec fn decimal(n: nat) -> Seq<char>
    decreases n,
{
    if n < 10 {
        seq![digit_char(n)]
    } else {
        decimal(n / 10).push(digit_char(n % 10))
    }
}

/// The first `i` characters of `d`, each preceded by a `,` when it is not the
/// first one and the number of characters from it to the end of `d` is a
/// multiple of three.
pub open spec fn with_separators(d: Seq<char>, i: nat) -> Seq<char>
    decreases i,
{
    if i == 0 {
        Seq::empty()
    } else {
        let k = (i - 1) as nat;
        let sep = if k > 0 && (d.len() - k) % 3 == 0 {
            seq![',']
        } else {
            Seq::<char>::empty()
        };
        with_separators(d, k) + sep + seq![d[k as int]]
    }
}

/// `n` in decimal with a comma between groups of three digits.
pub open spec fn grouped_decimal(n: nat) -> Seq<char> {
    with_separators(decimal(n), decimal(n).len())
}

/// `num / den` rounded to the nearest integer, ties to the even one.
pub open spec fn round_half_even_div(num: nat, den: nat) -> nat
    recommends
        den > 0,
{
    let q = num / den;
    let r = num % den;
    if 2 * r > den || (2 * r == den && q % 2 == 1) {
        q + 1
    } else {
        q
    }
}

/// The spacing of `f64` values around `n`: 1 below 2^53, doubling with each
/// further bit of `n`.
pub open spec fn f64_spacing(n: nat) -> nat
    decreases n,
{
    if n < 0x20_0000_0000_0000 {
        1
    } else {
        2 * f64_spacing(n / 2)
    }
}

/// The value of `n as f64`: the nearest `f64`, ties to the even mantissa.
pub open spec fn nearest_f64(n: nat) -> nat {
    round_half_even_div(n, f64_spacing(n)) * f64_spacing(n)
}

/// `t` tenths written with one decimal place, such as `14` as `1.4`.
pub open spec fn tenths_text(t: nat) -> Seq<char> {
    decimal(t / 10) + seq!['.', digit_char(t % 10)]
}

/// `bytes / unit` with one decimal place, computed from `bytes as f64` and
/// rounded to the nearest tenth, ties to even, as `{:.1}` formats it.
pub open spec fn scaled_tenths(bytes: nat, unit: nat) -> nat {
    round_half_even_div(nearest_f64(bytes) * 10, unit)
}

pub open spec fn kib() -> nat {
    1024
}

pub open spec fn mib() -> nat {
    1024 * 1024
}

pub open spec fn gib() -> nat {
    1024 * 1024 * 1024
}

/// The text `format_file_size` gives for a byte count.
pub open spec fn size_text(bytes: nat) -> Seq<char> {
    if bytes >= gib() {
        tenths_text(scaled_tenths(bytes, gib())) + seq![' ', 'G', 'B']
    } else if bytes >= mib() {
        tenths_text(scaled_tenths(bytes, mib())) + seq![' ', 'M', 'B']
    } else if bytes >= kib() {
        tenths_text(scaled_tenths(bytes, kib())) + seq![' ', 'K', 'B']
    } else {
        decimal(bytes) + seq![' ', 'B']
    }
}

/// The character positions at which `truncate_path` cuts a path of `len`
/// characters down to `max_len` characters: the head keeps `head`
/// characters, the tail starts at `tail_start`.
pub open spec fn truncation_cuts(len: nat, max_len: nat) -> (nat, nat)
    recommends
        max_len > 3,
        len > max_len,
{
    let keep = (max_len - 3) as nat;
    let tail = keep / 2;
    let head = (keep - tail) as nat;
    (head, (len - tail) as nat)
}

/// `n` dots.
pub open spec fn dots(n: nat) -> Seq<char> {
    Seq::new(n, |i: int| '.')
}

/// The characters `truncate_path` returns: the path itself when it has at
/// most `max_len` characters; otherwise its head and tail around `...`, or,
/// when `max_len` leaves no room beside the dots, `max_len` dots.
pub open spec fn truncated(p: Seq<char>, max_len: nat) -> Seq<char> {
    if p.len() <= max_len {
        p
    } else if max_len <= 3 {
        dots(max_len)
    } else {
        let (head, tail_start) = truncation_cuts(p.len(), max_len);
        p.subrange(0, head as int) + dots(3) + p.subrange(tail_start as int, p.len() as int)
    }
}

fn digit(d: u128) -> (c: char)
    requires
        d < 10,
    ensures
        c == digit_char(d as nat),
{
    if d == 0 {
        '0'
    } else if d == 1 {
        '1'
    } else if d == 2 {
        '2'
    } else if d == 3 {
        '3'
    } else if d == 4 {
        '4'
    } else if d == 5 {
        '5'
    } else if d == 6 {
        '6'
    } else if d == 7 {
        '7'
    } else if d == 8 {
        '8'
    } else {
        '9'
    }
}

/// Appends the decimal representation of `n` to `s`.
pub fn push_decimal(s: &mut String, n: u128)
    ensures
        final(s)@ == old(s)@ + decimal(n as nat),
    decreases n,
{
    if n >= 10 {
        push_decimal(s, n / 10);
    }
    push_char(s, digit(n % 10));
    proof {
        if n >= 10 {
            assert(final(s)@ =~= old(s)@ + decimal(n as nat));
        } else {
            assert(final(s)@ =~= old(s)@ + decimal(n as nat));
        }
    }
}

/// The decimal representation of `n`.
pub fn decimal_string(n: u128) -> (s: String)
    ensures
        s@ == decimal(n as nat),
{
    let mut s = String::new();
    push_decimal(&mut s, n);
    proof {
        assert(s@ =~= decimal(n as nat));
    }
    s
}

/// Format a number with comma separators (e.g. 1234567 → "1,234,567").
pub fn format_number(n: u64) -> (r: String)
    ensures
        r@ == grouped_decimal(n as nat),
{
    let s = decimal_string(n as u128);
    let d = chars_of(s.as_str());
    let len: usize = d.len();
    let mut result = String::new();
    let mut i: usize = 0;
    while i < len
        invariant
            len == d@.len(),
            d@ == decimal(n as nat),
            i <= len,
            result@ == with_separators(d@, i as nat),
        decreases len - i,
    {
        if i > 0 && (len - i) % 3 == 0 {
            push_char(&mut result, ',');
        }
        push_char(&mut result, d[i]);
        proof {
            assert(result@ =~= with_separators(d@, (i + 1) as nat));
        }
        i += 1;
    }
    result
}

/// `num / den` rounded to the nearest integer, ties to even.
fn div_round_half_even(num: u128, den: u128) -> (r: u128)
    requires
        den > 0,
        num / den < u128::MAX,
    ensures
        r == round_half_even_div(num as nat, den as nat),
{
    let q: u128 = num / den;
    let r: u128 = num % den;
    if r > den - r || (r == den - r && q % 2 == 1) {
        q + 1
    } else {
        q
    }
}

/// The value of `n as f64`, as an integer.
fn nearest_f64_value(n: u64) -> (r: u128)
    ensures
        r == nearest_f64(n as nat),
        r < 0x2_0000_0000_0000_0000,
{
    let mut m: u64 = n;
    let mut unit: u64 = 1;
    while m >= 0x20_0000_0000_0000
        invariant
            unit > 0,
            m == n / unit,
            unit * m <= n,
            unit == 1 || m >= 0x10_0000_0000_0000,
            f64_spacing(n as nat) == unit * f64_spacing(m as nat),
        decreases m,
    {
        proof {
            lemma_div_denominator(n as int, unit as int, 2);
            lemma_mul_is_associative(unit as int, 2, f64_spacing((m / 2) as nat) as int);
            lemma_fundamental_div_mod(n as int, (unit * 2) as int);
            assert(unit * 2 <= unit * m) by (nonlinear_arith)
                requires
                    m >= 2,
            ;
        }
        m = m / 2;
        unit = unit * 2;
    }
    let unit_w: u128 = unit as u128;
    let q: u128 = div_round_half_even(n as u128, unit_w);
    proof {
        lemma_fundamental_div_mod(n as int, unit as int);
        assert(q <= m + 1);
        assert(q * unit_w <= (m + 1) * unit_w) by (nonlinear_arith)
            requires
                q <= m + 1,
        ;
        assert((m + 1) * unit_w == unit_w * m + unit_w) by (nonlinear_arith);
        assert(unit_w <= n + 1) by (nonlinear_arith)
            requires
                unit_w * m <= n,
                m >= 1 || unit_w == 1,
        ;
        assert(f64_spacing(m as nat) == 1);
        assert(unit * f64_spacing(m as nat) == unit) by (nonlinear_arith)
            requires
                f64_spacing(m as nat) == 1,
        ;
    }
    q * unit_w
}

/// Appends `t` tenths with one decimal place and then `suffix`.
fn tenths_with_unit(t: u128, suffix: char) -> (s: String)
    ensures
        s@ == tenths_text(t as nat) + seq![' ', suffix, 'B'],
{
    let mut s = decimal_string(t / 10);
    push_char(&mut s, '.');
    push_char(&mut s, digit(t % 10));
    push_char(&mut s, ' ');
    push_char(&mut s, suffix);
    push_char(&mut s, 'B');
    proof {
        assert(s@ =~= tenths_text(t as nat) + seq![' ', suffix, 'B']);
    }
    s
}

/// Format a byte count as a human-readable string (KB / MB / GB).
pub fn format_file_size(bytes: u64) -> (r: String)
    ensures
        r@ == size_text(bytes as nat),
{
    let kb: u128 = 1024;
    let mb: u128 = 1024 * 1024;
    let gb: u128 = 1024 * 1024 * 1024;
    let b: u128 = bytes as u128;
    if b >= gb {
        let v: u128 = nearest_f64_value(bytes);
        let t: u128 = div_round_half_even(v * 10, gb);
        tenths_with_unit(t, 'G')
    } else if b >= mb {
        let v: u128 = nearest_f64_value(bytes);
        let t: u128 = div_round_half_even(v * 10, mb);
        tenths_with_unit(t, 'M')
    } else if b >= kb {
        let v: u128 = nearest_f64_value(bytes);
        let t: u128 = div_round_half_even(v * 10, kb);
        tenths_with_unit(t, 'K')
    } else {
        let mut s = decimal_string(b);
        push_char(&mut s, ' ');
        push_char(&mut s, 'B');
        proof {
            assert(s@ =~= decimal(bytes as nat) + seq![' ', 'B']);
        }
        s
    }
}

/// Truncate a path string to at most `max_len` characters, replacing the
/// middle with "..." if needed. Where `max_len` is three or less, only dots
/// remain, `max_len` of them.
pub fn truncate_path(path: &str, max_len: usize) -> (r: String)
    ensures
        r@ == truncated(path@, max_len as nat),
{
    let v = chars_of(path);
    let len: usize = v.len();
    if len <= max_len {
        return String::from_str(path);
    }
    if max_len <= 3 {
        let mut r = String::new();
        let mut i: usize = 0;
        while i < max_len
            invariant
                i <= max_len,
                r@ == dots(i as nat),
            decreases max_len - i,
        {
            push_char(&mut r, '.');
            i += 1;
            proof {
                assert(r@ =~= dots(i as nat));
            }
        }
        return r;
    }
    let keep: usize = max_len - 3;
    let tail: usize = keep / 2;
    let head: usize = keep - tail;
    let mut r = string_from_range(&v, 0, head);
    push_char(&mut r, '.');
    push_char(&mut r, '.');
    push_char(&mut r, '.');
    let mut i: usize = len - tail;
    let ghost front = r@;
    proof {
        assert(front =~= v@.subrange(0, head as int) + dots(3));
    }
    while i < len
        invariant
            tail <= len,
            len - tail <= i <= len,
            len == v@.len(),
            r@ == front + v@.subrange(len - tail, i as int),
        decreases len - i,
    {
        push_char(&mut r, v[i]);
        proof {
            assert(v@.subrange(len - tail, i + 1) =~= v@.subrange(len - tail, i as int).push(
                v@[i as int],
            ));
        }
        i += 1;
    }
    proof {
        assert(truncation_cuts(len as nat, max_len as nat) == (head as nat, (len - tail) as nat));
    }
    r
}

/// A character sequence with its commas removed.
pub open spec fn without_commas(s: Seq<char>) -> Seq<char> {
    s.filter(|c: char| c != ',')
}

/// A decimal representation is made of digits only.
pub proof fn lemma_decimal_has_no_commas(n: nat)
    ensures
        decimal(n).len() >= 1,
        forall|i: int| 0 <= i < decimal(n).len() ==> #[trigger] decimal(n)[i] != ',',
    decreases n,
{
    if n >= 10 {
        lemma_decimal_has_no_commas(n / 10);
        assert forall|i: int| 0 <= i < decimal(n).len() implies #[trigger] decimal(n)[i] != ',' by {
            if i < decimal(n).len() - 1 {
                assert(decimal(n)[i] == decimal(n / 10)[i]);
            }
        }
    }
}

/// Removing the separators from the first `i` grouped characters of a
/// comma-free `d` leaves the first `i` characters of `d`.
pub proof fn lemma_separators_strip(d: Seq<char>, i: nat)
    requires
        i <= d.len(),
        forall|k: int| 0 <= k < d.len() ==> #[trigger] d[k] != ',',
    ensures
        without_commas(with_separators(d, i)) == d.take(i as int),
    decreases i,
{
    broadcast use Seq::filter_distributes_over_add;

    if i == 0 {
        assert(with_separators(d, 0) =~= Seq::<char>::empty());
        assert(without_commas(Seq::<char>::empty()) =~= Seq::<char>::empty());
        assert(d.take(0) =~= Seq::<char>::empty());
    } else {
        let k = (i - 1) as nat;
        lemma_separators_strip(d, k);
        let sep = if k > 0 && (d.len() - k) % 3 == 0 {
            seq![',']
        } else {
            Seq::<char>::empty()
        };
        let pred = |c: char| c != ',';
        reveal(Seq::filter);
        assert(sep.filter(pred) =~= Seq::<char>::empty()) by {
            if sep.len() > 0 {
                assert(sep.drop_last() =~= Seq::<char>::empty());
                assert(Seq::<char>::empty().filter(pred) =~= Seq::<char>::empty());
            } else {
                assert(sep =~= Seq::<char>::empty());
            }
        }
        assert(seq![d[k as int]].filter(pred) =~= seq![d[k as int]]) by {
            assert(seq![d[k as int]].drop_last() =~= Seq::<char>::empty());
            assert(Seq::<char>::empty().filter(pred) =~= Seq::<char>::empty());
        }
        assert(d.take(i as int) =~= d.take(k as int).push(d[k as int]));
    }
}

/// Removing the commas from `format_number`'s text gives the plain decimal
/// representation of the number.
pub proof fn law_grouping_keeps_digits(n: nat)
    ensures
        without_commas(grouped_decimal(n)) == decimal(n),
{
    lemma_decimal_has_no_commas(n);
    lemma_separators_strip(decimal(n), decimal(n).len());
    assert(decimal(n).take(decimal(n).len() as int) =~= decimal(n));
}

/// A truncated path fits: it is the path itself when that has at most
/// `max_len` characters, otherwise exactly `max_len` characters long, with
/// `...` in it whenever `max_len` leaves room for the three dots.
pub proof fn law_truncation_fits(p: Seq<char>, max_len: nat)
    ensures
        p.len() <= max_len ==> truncated(p, max_len) == p,
        p.len() > max_len ==> truncated(p, max_len).len() == max_len,
        p.len() > max_len && max_len >= 3 ==> crate::text::has_substring(
            truncated(p, max_len),
            seq!['.', '.', '.'],
        ),
{
    let d = seq!['.', '.', '.'];
    assert(dots(3) =~= d);
    if p.len() > max_len {
        if max_len <= 3 {
            let z: int = 0;
            if max_len == 3 {
                assert(truncated(p, max_len).subrange(z, z + d.len()) =~= d);
            }
        } else {
            let (h, t) = truncation_cuts(p.len(), max_len);
            let front = p.subrange(0, h as int);
            let r = truncated(p, max_len);
            let x: int = front.len() as int;
            assert(r.subrange(x, x + d.len()) =~= d);
        }
    }
}

} // verus!
