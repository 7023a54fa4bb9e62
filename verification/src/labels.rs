//! Short texts that are shown.

use crate::text;
use vstd::prelude::*;

verus! {

/// The text for hits that cannot all be jumped to: how many lines can be, up to which line they
/// reach, and how many hits there are.
pub open spec fn truncated_text(lines: nat, reach: nat, total: nat) -> Seq<char> {
    "可跳转前 "@ + text::decimal(lines) + " 行（到第 "@ + text::decimal(reach) + " 行）；全文共 "@
        + text::decimal(total) + " 处命中"@
}

/// The text for hits that cannot all be jumped to.
pub fn truncated_hits_label(navigable_lines: usize, reach_line: usize, total_hits: usize) -> (r:
    String)
    ensures
        r@ == truncated_text(navigable_lines as nat, reach_line as nat, total_hits as nat),
{
    truncated_label(navigable_lines as u64, reach_line as u64, total_hits as u64)
}

/// The text for hits that cannot all be jumped to, whatever the numbers.
pub fn truncated_label(lines: u64, reach: u64, total: u64) -> (r: String)
    ensures
        r@ == truncated_text(lines as nat, reach as nat, total as nat),
{
    let mut r = String::new();
    r.push_str("可跳转前 ");
    text::push_decimal(&mut r, lines);
    r.push_str(" 行（到第 ");
    text::push_decimal(&mut r, reach);
    r.push_str(" 行）；全文共 ");
    text::push_decimal(&mut r, total);
    r.push_str(" 处命中");
    assert(r@ =~= truncated_text(lines as nat, reach as nat, total as nat));
    r
}

/// `a / d`, rounded to a whole number; from the middle, to the even one.
pub open spec fn half_even(a: nat, d: nat) -> nat {
    let q = a / d;
    let r = a % d;
    if 2 * r < d || (2 * r == d && q % 2 == 0) {
        q
    } else {
        q + 1
    }
}

fn round_half_even(a: u128, d: u128) -> (r: u128)
    requires
        0 < d <= 0x1_0000_0000_0000_0000,
        a < 0x1_0000_0000_0000_0000_0000_0000,
    ensures
        r == half_even(a as nat, d as nat),
        r <= a + 1,
{
    let q: u128 = a / d;
    let rest: u128 = a % d;
    assert(q <= a) by (nonlinear_arith)
        requires
            q == a / d,
            d > 0,
    ;
    if 2 * rest < d || (2 * rest == d && q % 2 == 0) {
        q
    } else {
        q + 1
    }
}

/// The distance between neighbouring numbers with 53 significant bits, at `n`.
pub open spec fn grain(n: nat) -> nat
    decreases n,
{
    if n < 0x20_0000_0000_0000 {
        1
    } else {
        2 * grain(n / 2)
    }
}

/// The number with 53 significant bits that is nearest to `n`.
pub open spec fn in_53_bits(n: nat) -> nat {
    half_even(n, grain(n)) * grain(n)
}

fn round_to_53_bits(n: u64) -> (r: u128)
    ensures
        r == in_53_bits(n as nat),
        r <= 0x2_0000_0000_0000_0000,
{
    let mut g: u128 = 1;
    let mut m: u64 = n;
    assert(g * grain(m as nat) == grain(m as nat)) by (nonlinear_arith)
        requires
            g == 1,
    ;
    assert(g * m == m) by (nonlinear_arith)
        requires
            g == 1,
    ;
    while m >= 0x20_0000_0000_0000
        invariant
            g * grain(m as nat) == grain(n as nat),
            g * m <= n,
            1 <= g,
        decreases m,
    {
        proof {
            let h = (m / 2) as nat;
            assert(grain(m as nat) == 2 * grain(h));
            assert(g * (2 * grain(h)) == (g * 2) * grain(h)) by (nonlinear_arith);
            assert((g * 2) * (m / 2) <= g * m) by (nonlinear_arith)
                requires
                    g >= 1,
            ;
            assert(g <= n) by (nonlinear_arith)
                requires
                    g * m <= n,
                    m >= 1,
                    g >= 1,
            ;
        }
        g = g * 2;
        m = m / 2;
    }
    proof {
        assert(g * 1 == g);
        assert(grain(m as nat) == 1);
        assert(grain(n as nat) == g);
        lemma_grain_small(n as nat, g as nat);
    }
    let q = round_half_even(n as u128, g);
    proof {
        let a = n as int;
        let d = g as int;
        assert(a / d * d <= a) by (nonlinear_arith)
            requires
                d > 0,
                a >= 0,
        ;
        assert(q * d <= a / d * d + d) by (nonlinear_arith)
            requires
                q <= a / d + 1,
                d > 0,
        ;
    }
    q * g
}

proof fn lemma_grain_small(n: nat, g: nat)
    requires
        grain(n) == g,
    ensures
        1 <= g,
        g <= n || n == 0 || g == 1,
    decreases n,
{
    if n >= 0x20_0000_0000_0000 {
        lemma_grain_small(n / 2, grain(n / 2));
    }
}

/// A number of tenths, written with a point.
pub open spec fn with_tenths(t: nat) -> Seq<char> {
    text::decimal(t / 10) + "."@ + seq![text::digit(t % 10)]
}

/// A number of hundredths, written with a point.
pub open spec fn with_hundredths(t: nat) -> Seq<char> {
    text::decimal(t / 100) + "."@ + seq![text::digit(t / 10 % 10), text::digit(t % 10)]
}

/// A number of bytes in the unit that suits it.
pub open spec fn size_text(n: nat) -> Seq<char> {
    if n < 0x400 {
        text::decimal(n) + " B"@
    } else if n < 0x10_0000 {
        with_tenths(half_even(n * 10, 0x400)) + " KB"@
    } else if n < 0x4000_0000 {
        with_tenths(half_even(n * 10, 0x10_0000)) + " MB"@
    } else {
        with_hundredths(half_even(in_53_bits(n) * 100, 0x4000_0000)) + " GB"@
    }
}

fn push_digit(out: &mut String, d: u64)
    requires
        d < 10,
    ensures
        final(out)@ == old(out)@.push(text::digit(d as nat)),
{
    let c: char = (48u8 + d as u8) as char;
    out.push(c);
}

/// A number of bytes in the unit that suits it. The number is taken to 53 bits first.
pub fn human_size(n: usize) -> (r: String)
    ensures
        r@ == size_text(n as nat),
{
    let mut r = String::new();
    let n: u64 = n as u64;
    if n < 0x400 {
        text::push_decimal(&mut r, n);
        r.push_str(" B");
    } else if n < 0x10_0000 {
        let t: u64 = round_half_even(n as u128 * 10, 0x400) as u64;
        text::push_decimal(&mut r, t / 10);
        r.push_str(".");
        push_digit(&mut r, t % 10);
        r.push_str(" KB");
        assert(r@ =~= size_text(n as nat));
    } else if n < 0x4000_0000 {
        let t: u64 = round_half_even(n as u128 * 10, 0x10_0000) as u64;
        text::push_decimal(&mut r, t / 10);
        r.push_str(".");
        push_digit(&mut r, t % 10);
        r.push_str(" MB");
        assert(r@ =~= size_text(n as nat));
    } else {
        let f = round_to_53_bits(n);
        let w: u128 = round_half_even(f * 100, 0x4000_0000);
        assert(w <= 0x800_0000_0000_0000) by {
            let a = (f * 100) as nat;
            assert(a / 0x4000_0000 < 0x7ff_ffff_ffff_ffff);
        }
        let t: u64 = w as u64;
        text::push_decimal(&mut r, t / 100);
        r.push_str(".");
        push_digit(&mut r, t / 10 % 10);
        push_digit(&mut r, t % 10);
        r.push_str(" GB");
        assert(r@ =~= size_text(n as nat));
    }
    assert(r@ =~= size_text(n as nat));
    r
}

/// A number is rounded to the nearest whole one, and from the middle to the even one.
pub proof fn law_rounding(a: nat, d: nat)
    requires
        d > 0,
    ensures
        ({
            let w = half_even(a, d);
            &&& 2 * (w * d) <= 2 * a + d
            &&& 2 * a <= 2 * (w * d) + d
            &&& 2 * (w * d) == 2 * a + d || 2 * a == 2 * (w * d) + d ==> w % 2 == 0
        }),
{
    let q = a / d;
    let r = a % d;
    let w = half_even(a, d);
    assert(a == q * d + r && 0 <= r < d) by (nonlinear_arith)
        requires
            d > 0,
            q == a / d,
            r == a % d,
    ;
    assert((q + 1) * d == q * d + d) by (nonlinear_arith);
    if w == q + 1 && 2 * ((q + 1) * d) == 2 * a + d {
        assert(2 * r == d);
        assert(q % 2 != 0);
    }
}

/// Up to 53 bits a number is kept. A longer one is rounded to a multiple of the power of two
/// that leaves it 53.
pub proof fn law_53_bits(n: nat)
    ensures
        n < 0x20_0000_0000_0000 ==> in_53_bits(n) == n,
        n >= 0x20_0000_0000_0000 ==> {
            let g = grain(n);
            &&& g * 0x10_0000_0000_0000 <= n < g * 0x20_0000_0000_0000
            &&& 2 * in_53_bits(n) <= 2 * n + g
            &&& 2 * n <= 2 * in_53_bits(n) + g
        },
{
    if n < 0x20_0000_0000_0000 {
        assert(half_even(n, 1) == n);
        assert(n * 1 == n) by (nonlinear_arith);
    } else {
        lemma_grain_bounds(n);
        law_rounding(n, grain(n));
    }
}

proof fn lemma_grain_bounds(n: nat)
    requires
        n >= 0x10_0000_0000_0000,
    ensures
        grain(n) * 0x10_0000_0000_0000 <= n < grain(n) * 0x20_0000_0000_0000,
        grain(n) >= 1,
    decreases n,
{
    if n >= 0x20_0000_0000_0000 {
        lemma_grain_bounds(n / 2);
    }
}

/// `t` is a number of bytes in units of `unit`, taken `parts` times and rounded.
pub open spec fn is_rounded(t: nat, n: nat, parts: nat, unit: nat) -> bool {
    2 * (t * unit) <= 2 * (n * parts) + unit && 2 * (n * parts) <= 2 * (t * unit) + unit
}

/// A size is told in bytes up to 1024, in tenths of kilobytes up to 1024 of these, in tenths of
/// megabytes up to 1024 of these, and in hundredths of gigabytes from there on. What is told is
/// nearest to the size.
pub proof fn law_size_is_told(n: nat)
    ensures
        n < 1024 ==> size_text(n) == text::decimal(n) + seq![' ', 'B'],
        1024 <= n < 1024 * 1024 ==> exists|t: nat|
            is_rounded(t, n, 10, 1024) && size_text(n) == #[trigger] with_tenths(t)
                + seq![' ', 'K', 'B'],
        1024 * 1024 <= n < 1024 * 1024 * 1024 ==> exists|t: nat|
            is_rounded(t, n, 10, 1024 * 1024) && size_text(n) == #[trigger] with_tenths(t)
                + seq![' ', 'M', 'B'],
        n >= 1024 * 1024 * 1024 ==> exists|t: nat|
            is_rounded(t, in_53_bits(n), 100, 1024 * 1024 * 1024) && size_text(n)
                == #[trigger] with_hundredths(t) + seq![' ', 'G', 'B'],
{
    reveal_strlit(" B");
    reveal_strlit(" KB");
    reveal_strlit(" MB");
    reveal_strlit(" GB");
    assert(" B"@ =~= seq![' ', 'B']);
    assert(" KB"@ =~= seq![' ', 'K', 'B']);
    assert(" MB"@ =~= seq![' ', 'M', 'B']);
    assert(" GB"@ =~= seq![' ', 'G', 'B']);
    if 1024 <= n < 1024 * 1024 {
        let t = half_even(n * 10, 0x400);
        law_rounding(n * 10, 0x400);
        assert(is_rounded(t, n, 10, 1024));
        assert(size_text(n) == with_tenths(t) + seq![' ', 'K', 'B']);
    } else if 1024 * 1024 <= n < 1024 * 1024 * 1024 {
        let t = half_even(n * 10, 0x10_0000);
        law_rounding(n * 10, 0x10_0000);
        assert(is_rounded(t, n, 10, 1024 * 1024));
        assert(size_text(n) == with_tenths(t) + seq![' ', 'M', 'B']);
    } else if n >= 1024 * 1024 * 1024 {
        let f = in_53_bits(n);
        let t = half_even(f * 100, 0x4000_0000);
        law_rounding(f * 100, 0x4000_0000);
        assert(is_rounded(t, f, 100, 1024 * 1024 * 1024));
        assert(size_text(n) == with_hundredths(t) + seq![' ', 'G', 'B']);
    }
}

/// Tenths and hundredths are written behind a point, each as one digit or two.
pub proof fn law_written_with_a_point(whole: nat, rest: nat)
    ensures
        rest < 10 ==> with_tenths(whole * 10 + rest) == text::decimal(whole) + seq!['.', text::digit(
            rest,
        )],
        rest < 100 ==> with_hundredths(whole * 100 + rest) == text::decimal(whole) + seq![
            '.',
            text::digit(rest / 10),
            text::digit(rest % 10),
        ],
{
    reveal_strlit(".");
    if rest < 10 {
        assert(with_tenths(whole * 10 + rest) =~= text::decimal(whole) + seq!['.', text::digit(rest)]);
    }
    if rest < 100 {
        let t = whole * 100 + rest;
        assert(t / 100 == whole && t % 10 == rest % 10 && t / 10 % 10 == rest / 10);
        assert(with_hundredths(t) =~= text::decimal(whole) + seq![
            '.',
            text::digit(rest / 10),
            text::digit(rest % 10),
        ]);
    }
}

/// What is said of hits that cannot all be jumped to names first how many lines can be, then the
/// line they reach to, then all hits.
pub proof fn law_truncated_text(lines: nat, reach: nat, total: nat)
    ensures
        truncated_text(lines, reach, total) == seq!['可', '跳', '转', '前', ' '] + text::decimal(
            lines,
        ) + seq![' ', '行', '（', '到', '第', ' '] + text::decimal(reach) + seq![
            ' ',
            '行',
            '）',
            '；',
            '全',
            '文',
            '共',
            ' ',
        ] + text::decimal(total) + seq![' ', '处', '命', '中'],
{
    reveal_strlit("可跳转前 ");
    reveal_strlit(" 行（到第 ");
    reveal_strlit(" 行）；全文共 ");
    reveal_strlit(" 处命中");
    assert("可跳转前 "@ =~= seq!['可', '跳', '转', '前', ' ']);
    assert(" 行（到第 "@ =~= seq![' ', '行', '（', '到', '第', ' ']);
    assert(" 行）；全文共 "@ =~= seq![' ', '行', '）', '；', '全', '文', '共', ' ']);
    assert(" 处命中"@ =~= seq![' ', '处', '命', '中']);
}

} // verus!
