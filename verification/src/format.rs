//! Rendering of byte counts and filling of format strings.
use vstd::prelude::*;
use crate::text::{
    chars_of, decimal, digit_char, digit_to_char, is_prefix, push_decimal, push_str, replace,
    replace_chars, string_of,
};

verus! {

// ---------------------------------------------------------------------------
// Byte counts
// ---------------------------------------------------------------------------

/// `n / d` rounded to the nearest integer, ties to the even neighbour.
pub open spec fn round_half_even(n: nat, d: nat) -> nat {
    let q = n / d;
    let r = n % d;
    if 2 * r > d || (2 * r == d && q % 2 == 1) {
        q + 1
    } else {
        q
    }
}

/// The spacing of the `f64` values next to `b`: 1 below 2^53, doubling with
/// each further binary digit.
pub open spec fn f64_ulp(b: nat) -> nat
    decreases b,
{
    if b < 0x20_0000_0000_0000 {
        1
    } else {
        2 * f64_ulp(b / 2)
    }
}

/// The value of `b as f64`: `b` rounded to the nearest `f64`, ties to even.
pub open spec fn f64_value(b: nat) -> nat {
    round_half_even(b, f64_ulp(b)) * f64_ulp(b)
}

/// How often `x` can be divided by 1024 before the quotient drops below 1024.
pub open spec fn unit_index(x: nat) -> nat
    decreases x,
{
    if x >= 1024 {
        1 + unit_index(x / 1024)
    } else {
        0
    }
}

pub open spec fn pow1024(k: nat) -> nat
    decreases k,
{
    if k == 0 {
        1
    } else {
        1024 * pow1024((k - 1) as nat)
    }
}

/// The unit letter for `k` divisions by 1024.
pub open spec fn unit_suffix(k: nat) -> char {
    if k == 0 {
        'B'
    } else if k == 1 {
        'K'
    } else if k == 2 {
        'M'
    } else if k == 3 {
        'G'
    } else if k == 4 {
        'T'
    } else if k == 5 {
        'P'
    } else {
        'E'
    }
}

/// `format!("{:.2}", x / d)` for the exact quotient of two naturals: the
/// quotient rounded to hundredths (ties to even), written with two decimals.
pub open spec fn fixed2(x: nat, d: nat) -> Seq<char> {
    let c = round_half_even(x * 100, d);
    decimal(c / 100) + seq!['.', digit_char((c / 10) % 10), digit_char(c % 10)]
}

/// What `format_bytes` writes for `bytes`: the count, converted to `f64`, divided
/// by 1024 while it is at least 1024, written with two decimals and followed
/// by the unit letter.
pub open spec fn spec_format_bytes(bytes: nat) -> Seq<char> {
    let x = f64_value(bytes);
    let k = unit_index(x);
    fixed2(x, pow1024(k)).push(unit_suffix(k))
}

fn round_half_even_exec(n: u128, d: u128) -> (r: u128)
    requires
        d > 0,
        n / d < u128::MAX,
        d <= 0x1_0000_0000_0000_0000_0000_0000_0000_0000int / 4,
    ensures
        r as nat == round_half_even(n as nat, d as nat),
{
    let q = n / d;
    let r = n % d;
    if 2 * r > d || (2 * r == d && q % 2 == 1) {
        q + 1
    } else {
        q
    }
}

fn unit_suffix_exec(k: usize) -> (c: char)
    ensures
        c == unit_suffix(k as nat),
{
    if k == 0 {
        'B'
    } else if k == 1 {
        'K'
    } else if k == 2 {
        'M'
    } else if k == 3 {
        'G'
    } else if k == 4 {
        'T'
    } else if k == 5 {
        'P'
    } else {
        'E'
    }
}

/// Renders a byte count with two decimals and a unit letter, dividing by 1024
/// per unit (for example 1536 gives `1.50K`).
pub fn format_bytes(bytes: u64) -> (s: String)
    ensures
        s@ == spec_format_bytes(bytes as nat),
{
    let b = bytes as u128;
    // The spacing of f64 values around b.
    let mut u: u128 = 1;
    let mut t: u128 = b;
    while t >= 0x20_0000_0000_0000
        invariant
            1 <= u,
            u <= b + 1,
            t == b as nat / u as nat,
            t * u <= b,
            b < 0x1_0000_0000_0000_0000,
            f64_ulp(b as nat) == u * f64_ulp(t as nat),
        decreases t,
    {
        proof {
            vstd::arithmetic::div_mod::lemma_div_denominator(b as int, u as int, 2);
            assert(t * u >= 2 * u) by (nonlinear_arith)
                requires
                    t >= 2,
                    u >= 1,
            ;
            let y = f64_ulp((t / 2) as nat);
            assert(f64_ulp(t as nat) == 2 * y);
            assert(u * (2 * y) == (u * 2) * y) by (nonlinear_arith);
            assert((t / 2) * (u * 2) <= t * u) by (nonlinear_arith)
                requires
                    t >= 0,
                    u >= 1,
            ;
        }
        t = t / 2;
        u = u * 2;
    }
    assert(f64_ulp(t as nat) == 1);
    assert(f64_ulp(b as nat) == u) by {
        let y = f64_ulp(t as nat);
        assert(y == 1);
        assert(u * y == u) by (nonlinear_arith)
            requires
                y == 1,
        ;
    }
    let q = round_half_even_exec(b, u);
    proof {
        assert(q <= t + 1);
        assert(q * u <= (t + 1) * u) by (nonlinear_arith)
            requires
                q <= t + 1,
                u >= 1,
        ;
        assert((t + 1) * u <= 0x20_0000_0000_0000 * 0x1_0000_0000_0000_0001) by (nonlinear_arith)
            requires
                t < 0x20_0000_0000_0000,
                u <= 0x1_0000_0000_0000_0000,
        ;
    }
    let x: u128 = q * u;
    assert(x as nat == f64_value(b as nat));
    // The unit.
    let mut k: usize = 0;
    let mut d: u128 = 1;
    let mut v: u128 = x;
    assert(v == x as nat / 1);
    while v >= 1024
        invariant
            1 <= d <= x + 1,
            d == pow1024(k as nat),
            v == x as nat / d as nat,
            unit_index(x as nat) == k + unit_index(v as nat),
            k < 12,
            x < 0x1_0000_0000_0000_0000_0000_0000_0000_0000int / 512,
        decreases v,
    {
        proof {
            vstd::arithmetic::div_mod::lemma_div_denominator(x as int, d as int, 1024);
            vstd::arithmetic::div_mod::lemma_fundamental_div_mod(x as int, d as int);
            assert(d * 1024 <= x) by (nonlinear_arith)
                requires
                    v == x / d,
                    v >= 1024,
                    d >= 1,
                    x == d * (x / d) + x % d,
                    x % d >= 0,
            ;
            assert(k + 1 < 12) by {
                if k + 1 >= 12 {
                    lemma_pow1024_mono(12, (k + 1) as nat);
                    assert(pow1024(12) == 0x1_0000_0000_0000_0000_0000_0000_0000_0000int / 256) by {
                        reveal_with_fuel(pow1024, 13);
                    }
                }
            }
        }
        v = v / 1024;
        d = d * 1024;
        k = k + 1;
    }
    assert(unit_index(x as nat) == k);
    proof {
        assert(x as int * 100 < 0x1_0000_0000_0000_0000_0000_0000_0000_0000int);
        assert((x as int * 100) / (d as int) <= x as int * 100) by (nonlinear_arith)
            requires
                d >= 1,
        ;
    }
    let c = round_half_even_exec(x * 100, d);
    let mut out: Vec<char> = Vec::new();
    push_decimal(&mut out, c / 100);
    out.push('.');
    out.push(digit_to_char((c / 10) % 10));
    out.push(digit_to_char(c % 10));
    out.push(unit_suffix_exec(k));
    string_of(&out)
}

/// Counts below 1024 are written as whole bytes: the count, `.00` and `B`.
pub proof fn lemma_format_small_counts(bytes: nat)
    requires
        bytes < 1024,
    ensures
        spec_format_bytes(bytes) == decimal(bytes) + ".00B"@,
{
    assert(f64_ulp(bytes) == 1);
    assert(f64_value(bytes) == bytes);
    assert(unit_index(bytes) == 0);
    assert(pow1024(0) == 1);
    let c = round_half_even(bytes * 100, 1);
    assert(c == bytes * 100);
    assert(c / 100 == bytes);
    assert((c / 10) % 10 == 0);
    assert(c % 10 == 0);
    reveal_strlit(".00B");
    assert(fixed2(bytes, 1).push('B') =~= decimal(bytes) + ".00B"@);
}

/// The chosen unit leaves a whole part below 1024, and at least 1 where the
/// count is 1024 or more.
pub proof fn lemma_unit_index_bounds(x: nat)
    ensures
        x / pow1024(unit_index(x)) < 1024,
        x >= 1024 ==> x / pow1024(unit_index(x)) >= 1,
    decreases x,
{
    if x >= 1024 {
        let y = x / 1024;
        lemma_unit_index_bounds(y);
        let k = unit_index(y);
        lemma_pow1024_mono(0, k);
        vstd::arithmetic::div_mod::lemma_div_denominator(x as int, 1024, pow1024(k) as int);
        assert(pow1024(k + 1) == 1024 * pow1024(k));
        assert(1024 * pow1024(k) == pow1024(k) * 1024) by (nonlinear_arith);
        assert(y >= 1);
    }
}

/// 2 to the power `j`.
pub open spec fn two_pow(j: nat) -> nat
    decreases j,
{
    if j == 0 {
        1
    } else {
        2 * two_pow((j - 1) as nat)
    }
}

proof fn lemma_ulp_at_most(b: nat, j: nat)
    requires
        b < 0x20_0000_0000_0000 * two_pow(j),
    ensures
        1 <= f64_ulp(b) <= two_pow(j),
    decreases j,
{
    if b >= 0x20_0000_0000_0000 {
        assert(j > 0);
        let jj = (j - 1) as nat;
        assert(b / 2 < 0x20_0000_0000_0000 * two_pow(jj));
        lemma_ulp_at_most(b / 2, jj);
    } else {
        lemma_two_pow_positive(j);
    }
}

proof fn lemma_two_pow_positive(j: nat)
    ensures
        two_pow(j) >= 1,
    decreases j,
{
    if j > 0 {
        lemma_two_pow_positive((j - 1) as nat);
    }
}

proof fn lemma_ulp_quotient(b: nat)
    ensures
        f64_ulp(b) >= 1,
        b / f64_ulp(b) < 0x20_0000_0000_0000,
    decreases b,
{
    if b >= 0x20_0000_0000_0000 {
        lemma_ulp_quotient(b / 2);
        vstd::arithmetic::div_mod::lemma_div_denominator(b as int, 2, f64_ulp(b / 2) as int);
    }
}

proof fn lemma_unit_index_at_most(x: nat, k: nat)
    requires
        x < pow1024(k + 1),
    ensures
        unit_index(x) <= k,
    decreases k,
{
    if x >= 1024 {
        assert(k > 0) by {
            if k == 0 {
                assert(pow1024(1) == 1024);
            }
        }
        let kk = (k - 1) as nat;
        assert(pow1024(k + 1) == 1024 * pow1024(k));
        assert(x / 1024 < pow1024(kk + 1));
        lemma_unit_index_at_most(x / 1024, kk);
    }
}

/// Every `u64` count converts to at most 2^64 as an `f64`, so the unit letter is
/// always one of `B`, `K`, `M`, `G`, `T`, `P`, `E`: at most six divisions by
/// 1024 are made.
pub proof fn lemma_unit_within_exbibytes(bytes: nat)
    requires
        bytes <= u64::MAX,
    ensures
        f64_value(bytes) <= 0x1_0000_0000_0000_0000,
        unit_index(f64_value(bytes)) <= 6,
{
    assert(two_pow(11) == 2048) by {
        reveal_with_fuel(two_pow, 12);
    }
    lemma_ulp_at_most(bytes, 11);
    lemma_ulp_quotient(bytes);
    let u = f64_ulp(bytes);
    let q = round_half_even(bytes, u);
    assert(q <= 0x20_0000_0000_0000);
    assert(q * u <= 0x20_0000_0000_0000 * 2048) by (nonlinear_arith)
        requires
            q <= 0x20_0000_0000_0000,
            u <= 2048,
    ;
    assert(pow1024(7) == 0x40_0000_0000_0000_0000) by {
        reveal_with_fuel(pow1024, 8);
    }
    lemma_unit_index_at_most(f64_value(bytes), 6);
}

proof fn lemma_pow1024_mono(a: nat, b: nat)
    requires
        a <= b,
    ensures
        pow1024(a) <= pow1024(b),
        pow1024(a) >= 1,
    decreases b,
{
    if a < b {
        lemma_pow1024_mono(a, (b - 1) as nat);
    } else if a > 0 {
        lemma_pow1024_mono((a - 1) as nat, (a - 1) as nat);
    }
}


// ---------------------------------------------------------------------------
// Format strings
// ---------------------------------------------------------------------------

/// The placeholder/value pairs of `data` as character sequences.
pub open spec fn pairs_view(data: Seq<(String, String)>) -> Seq<(Seq<char>, Seq<char>)> {
    data.map_values(|p: (String, String)| (p.0@, p.1@))
}

/// `format` with each placeholder of `pairs`, taken in order, replaced by its
/// value everywhere it occurs in the text so far.
pub open spec fn fill(format: Seq<char>, pairs: Seq<(Seq<char>, Seq<char>)>) -> Seq<char>
    decreases pairs.len(),
{
    if pairs.len() == 0 {
        format
    } else {
        fill(replace(format, pairs[0].0, pairs[0].1), pairs.drop_first())
    }
}

/// No placeholder occurs twice among the pairs, as in a map from placeholders
/// to values.
pub open spec fn distinct_keys(pairs: Seq<(Seq<char>, Seq<char>)>) -> bool {
    forall|i: int, j: int| 0 <= i < j < pairs.len() ==> #[trigger] pairs[i].0 != #[trigger] pairs[j].0
}

/// Fills a format string: replaces every occurrence of each placeholder in
/// `data` (such as `%p`) by its value, placeholder after placeholder in the
/// order of `data`. The placeholders are distinct, as the keys of a map are.
pub fn format_output(data: Vec<(String, String)>, format: String) -> (res: String)
    requires
        distinct_keys(pairs_view(data@)),
    ensures
        res@ == fill(format@, pairs_view(data@)),
{
    let n = data.len();
    let mut cur: Vec<char> = chars_of(format.as_str());
    let mut i: usize = 0;
    assert(pairs_view(data@).skip(0) == pairs_view(data@));
    while i < n
        invariant
            n == data@.len(),
            0 <= i <= n,
            fill(format@, pairs_view(data@)) == fill(cur@, pairs_view(data@).skip(i as int)),
        decreases n - i,
    {
        let key = chars_of(data[i].0.as_str());
        let value = chars_of(data[i].1.as_str());
        let next = replace_chars(&cur, &key, &value);
        proof {
            let rest = pairs_view(data@).skip(i as int);
            assert(rest[0] == (key@, value@));
            assert(rest.drop_first() == pairs_view(data@).skip(i + 1));
        }
        cur = next;
        i = i + 1;
    }
    string_of(&cur)
}

/// Replacing a non-empty text by itself leaves every text unchanged.
pub proof fn lemma_replace_by_itself(s: Seq<char>, pat: Seq<char>)
    requires
        pat.len() > 0,
    ensures
        replace(s, pat, pat) == s,
    decreases s.len(),
{
    if s.len() == 0 {
    } else if is_prefix(pat, s) {
        lemma_replace_by_itself(s.skip(pat.len() as int), pat);
        assert(s.take(pat.len() as int) + s.skip(pat.len() as int) == s);
    } else {
        lemma_replace_by_itself(s.drop_first(), pat);
        assert(seq![s[0]] + s.drop_first() == s);
    }
}

/// Whether the non-empty `pat` occurs anywhere in `s`.
pub open spec fn occurs_in(pat: Seq<char>, s: Seq<char>) -> bool {
    exists|i: int| 0 <= i <= s.len() && #[trigger] is_prefix(pat, s.skip(i))
}

/// A placeholder that does not occur in a text leaves it unchanged, whatever
/// it would be replaced by.
pub proof fn lemma_replace_absent(s: Seq<char>, pat: Seq<char>, to: Seq<char>)
    requires
        pat.len() > 0,
        !occurs_in(pat, s),
    ensures
        replace(s, pat, to) == s,
    decreases s.len(),
{
    assert(s.skip(0) == s);
    if s.len() > 0 {
        let t = s.drop_first();
        assert forall|i: int| 0 <= i <= t.len() implies !#[trigger] is_prefix(pat, t.skip(i)) by {
            assert(t.skip(i) == s.skip(i + 1));
        }
        lemma_replace_absent(t, pat, to);
        assert(seq![s[0]] + t == s);
    }
}

/// The lines of the list of format values: a heading, then one line per
/// placeholder with its description.
pub open spec fn format_list_lines(list: Seq<(Seq<char>, Seq<char>)>) -> Seq<char>
    decreases list.len(),
{
    if list.len() == 0 {
        seq![]
    } else {
        seq!['\t'] + list[0].0 + " -> "@ + list[0].1 + seq!['\n'] + format_list_lines(
            list.drop_first(),
        )
    }
}

/// The text that lists the supported format values, one line per placeholder
/// and its description, under a heading; every line ends with a line feed.
pub fn format_list_text(list: &Vec<(String, String)>) -> (text: String)
    ensures
        text@ == "Supported format values\n"@ + format_list_lines(pairs_view(list@)),
{
    let mut out: Vec<char> = Vec::new();
    push_str(&mut out, "Supported format values\n");
    let ghost head = out@;
    let n = list.len();
    let mut i: usize = 0;
    assert(pairs_view(list@).skip(0) == pairs_view(list@));
    while i < n
        invariant
            n == list@.len(),
            0 <= i <= n,
            head == "Supported format values\n"@,
            head + format_list_lines(pairs_view(list@)) == out@ + format_list_lines(
                pairs_view(list@).skip(i as int),
            ),
        decreases n - i,
    {
        let ghost before = out@;
        out.push('\t');
        push_str(&mut out, list[i].0.as_str());
        push_str(&mut out, " -> ");
        push_str(&mut out, list[i].1.as_str());
        out.push('\n');
        proof {
            let rest = pairs_view(list@).skip(i as int);
            assert(rest[0] == (list@[i as int].0@, list@[i as int].1@));
            assert(rest.drop_first() == pairs_view(list@).skip(i + 1));
            assert(out@ == before + (seq!['\t'] + rest[0].0 + " -> "@ + rest[0].1 + seq!['\n']));
        }
        i = i + 1;
    }
    assert(out@ + format_list_lines(pairs_view(list@).skip(n as int)) == out@);
    string_of(&out)
}

} // verus!
