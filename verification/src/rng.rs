//! Explicitly seeded random numbers: xoshiro256** and the geometric level
//! draw made from it.
//!
//! One generator belongs to one graph and is seeded by the caller, so the
//! same seed gives the same sequence of levels.

use vstd::prelude::*;

use vstd::arithmetic::power;

verus! {

/// A level draw samples the top 53 bits of a random word: `2^53`.
pub const DRAW_SCALE: u64 = 0x20_0000_0000_0000;

/// Draws that a level draw needs at most: of so many in a row, one always has
/// a bit among its top 53.
pub const LEVEL_DRAWS: u64 = 8;

/// `x` rotated left by `k` bits.
pub open spec fn rotl(x: u64, k: u64) -> u64 {
    (x << k) | (x >> ((64 - k) as u64))
}

/// The output of xoshiro256** in state `s`.
pub open spec fn output(s: Seq<u64>) -> u64 {
    rotl(s[1].wrapping_mul(5), 7).wrapping_mul(9)
}

/// The state that follows `s`.
pub open spec fn step(s: Seq<u64>) -> Seq<u64> {
    seq![
        s[0] ^ (s[3] ^ s[1]),
        s[1] ^ (s[2] ^ s[0]),
        (s[2] ^ s[0]) ^ (s[1] << 17),
        rotl(s[3] ^ s[1], 45),
    ]
}

/// The state after `n` draws.
pub open spec fn steps(s: Seq<u64>, n: nat) -> Seq<u64>
    decreases n,
{
    if n == 0 {
        s
    } else {
        step(steps(s, (n - 1) as nat))
    }
}

/// The state of splitmix64 that follows `x`.
pub open spec fn split_next(x: u64) -> u64 {
    x.wrapping_add(0x9e37_79b9_7f4a_7c15)
}

/// The output of splitmix64 once its state is `x`.
pub open spec fn split_mix(x: u64) -> u64 {
    let a = (x ^ (x >> 30)).wrapping_mul(0xbf58_476d_1ce4_e5b9);
    let b = (a ^ (a >> 27)).wrapping_mul(0x94d0_49bb_1331_11eb);
    b ^ (b >> 31)
}

/// The generator state that `seed` expands to: four outputs of splitmix64.
pub open spec fn seeded(seed: u64) -> Seq<u64> {
    let a = split_next(seed);
    let b = split_next(a);
    let c = split_next(b);
    let d = split_next(c);
    seq![split_mix(a), split_mix(b), split_mix(c), split_mix(d)]
}

/// The first draw from `s` on, of at most `limit`, whose top 53 bits are not
/// zero, and the state after it; zero where there is none.
pub open spec fn first_draw(s: Seq<u64>, limit: nat) -> (u64, Seq<u64>)
    decreases limit,
{
    if limit == 0 {
        (0, s)
    } else if output(s) >> 11 != 0 {
        (output(s) >> 11, step(s))
    } else {
        first_draw(step(s), (limit - 1) as nat)
    }
}

/// The level of the sample `k / 2^53`: how often `k` can be multiplied by `m`
/// without passing `2^53`, which is `floor(-ln(k / 2^53) / ln(m))`.
pub open spec fn level_of(k: nat, m: nat) -> nat
    decreases DRAW_SCALE - k,
{
    if k == 0 || m < 2 || k * m > DRAW_SCALE {
        0
    } else {
        proof {
            assert(k * m >= 2 * k) by (nonlinear_arith)
                requires
                    m >= 2,
            ;
        }
        1 + level_of(k * m, m)
    }
}

/// The highest level that a draw can give.
pub open spec fn top_level(m: nat) -> nat {
    level_of(1, m)
}

/// The level and the next state of a level draw in state `s`.
pub open spec fn level_draw(s: Seq<u64>, m: u16) -> (nat, Seq<u64>) {
    let d = first_draw(s, LEVEL_DRAWS as nat);
    (level_of(d.0 as nat, m as nat), d.1)
}

/// The state after `n` level draws.
pub open spec fn after_levels(s: Seq<u64>, m: u16, n: nat) -> Seq<u64>
    decreases n,
{
    if n == 0 {
        s
    } else {
        level_draw(after_levels(s, m, (n - 1) as nat), m).1
    }
}

/// The level of a sample `k / 2^53` is the one level `l` with
/// `m^-(l + 1) < k / 2^53 <= m^-l`.
pub proof fn lemma_level_is_the_logarithm(k: nat, m: nat)
    requires
        1 <= k <= DRAW_SCALE,
        2 <= m,
    ensures
        k * power::pow(m as int, level_of(k, m)) <= DRAW_SCALE,
        k * power::pow(m as int, level_of(k, m) + 1) > DRAW_SCALE,
    decreases DRAW_SCALE - k,
{
    power::lemma_pow0(m as int);
    power::lemma_pow1(m as int);
    if k * m <= DRAW_SCALE {
        assert(k * m >= 2 * k) by (nonlinear_arith)
            requires
                m >= 2,
        ;
        lemma_level_is_the_logarithm(k * m, m);
        let l = level_of(k * m, m);
        let p = power::pow(m as int, l);
        let q = power::pow(m as int, l + 1);
        assert(q == m * p) by {
            reveal(power::pow);
        }
        assert(power::pow(m as int, l + 2) == m * q) by {
            reveal(power::pow);
        }
        assert(k * (m * p) == (k * m) * p) by (nonlinear_arith);
        assert(k * (m * q) == (k * m) * q) by (nonlinear_arith);
    }
}

/// A larger sample never gives a higher level.
proof fn lemma_level_antitone(a: nat, b: nat, m: nat)
    requires
        1 <= a <= b,
        2 <= m,
    ensures
        level_of(b, m) <= level_of(a, m),
    decreases DRAW_SCALE - a,
{
    if a * m <= DRAW_SCALE && b * m <= DRAW_SCALE {
        assert(a * m >= 2 * a) by (nonlinear_arith)
            requires
                m >= 2,
        ;
        assert(a * m <= b * m) by (nonlinear_arith)
            requires
                a <= b,
        ;
        lemma_level_antitone(a * m, b * m, m);
    } else if a * m > DRAW_SCALE {
        assert(a * m <= b * m) by (nonlinear_arith)
            requires
                a <= b,
        ;
    }
}

/// A sample that passes `2^53` after `room + 1` doublings has a level of at
/// most `room`.
proof fn lemma_level_room(k: nat, m: nat, room: nat)
    requires
        k * power::pow(2, room + 1) > DRAW_SCALE,
        2 <= m,
    ensures
        level_of(k, m) <= room,
    decreases room,
{
    if k != 0 && k * m <= DRAW_SCALE {
        let p = power::pow(2, room);
        power::lemma_pow_positive(2, room);
        assert(power::pow(2, room + 1) == 2 * p) by {
            reveal(power::pow);
        }
        assert(k * (2 * p) == (2 * k) * p) by (nonlinear_arith);
        assert((k * m) * p >= (2 * k) * p) by (nonlinear_arith)
            requires
                m >= 2,
                p >= 0,
        ;
        if room == 0 {
            power::lemma_pow0(2);
            assert(k * m >= k * 2) by (nonlinear_arith)
                requires
                    m >= 2,
            ;
            assert(false);
        }
        lemma_level_room(k * m, m, (room - 1) as nat);
    }
}

/// The highest level for every legal `m` is at most 53, so that a level fits
/// the six bits that a node entry has for it.
pub proof fn lemma_top_level_bound(m: nat)
    requires
        2 <= m,
    ensures
        top_level(m) <= 53,
{
    assert(power::pow(2, 54) > DRAW_SCALE) by {
        reveal_with_fuel(power::pow, 55);
    }
    lemma_level_room(1, m, 53);
}

/// No draw gives a level above `top_level(m)`.
pub proof fn lemma_level_draw_bound(s: Seq<u64>, m: u16)
    requires
        2 <= m,
    ensures
        level_draw(s, m).0 <= top_level(m as nat) <= 53,
{
    let k = first_draw(s, LEVEL_DRAWS as nat).0;
    lemma_top_level_bound(m as nat);
    if k != 0 {
        lemma_level_antitone(1, k as nat, m as nat);
    }
}

/// A draw leaves its state with four words.
proof fn lemma_first_draw_shape(s: Seq<u64>, limit: nat)
    requires
        s.len() == 4,
    ensures
        first_draw(s, limit).1.len() == 4,
        first_draw(s, limit).0 < DRAW_SCALE,
    decreases limit,
{
    if limit > 0 {
        let o = output(s);
        assert(o >> 11 < 0x20_0000_0000_0000) by (bit_vector);
        if o >> 11 == 0 {
            lemma_first_draw_shape(step(s), (limit - 1) as nat);
        }
    }
}

// ---------------------------------------------------------------------
// How long a level draw can take.
// ---------------------------------------------------------------------

/// A state that the generator can be in: not all zero, which it would never
/// leave.
pub open spec fn alive(s: Seq<u64>) -> bool {
    &&& s.len() == 4
    &&& !(s[0] == 0 && s[1] == 0 && s[2] == 0 && s[3] == 0)
}

/// The draw after `n - 1` others is the first from `s` on whose top 53 bits
/// are not zero.
pub open spec fn first_at(s: Seq<u64>, n: nat) -> bool {
    &&& n >= 1
    &&& output(steps(s, (n - 1) as nat)) >> 11 != 0
    &&& forall|i: nat| i + 1 < n ==> output(#[trigger] steps(s, i)) >> 11 == 0
}

/// A state that is not all zero is followed by one that is not.
proof fn lemma_step_alive(s: Seq<u64>)
    requires
        alive(s),
    ensures
        alive(step(s)),
{
    let (s0, s1, s2, s3) = (s[0], s[1], s[2], s[3]);
    let t = s3 ^ s1;
    if s0 ^ (s3 ^ s1) == 0 && s1 ^ (s2 ^ s0) == 0 && (s2 ^ s0) ^ (s1 << 17) == 0 && rotl(t, 45)
        == 0 {
        assert(s0 == 0 && s1 == 0 && s2 == 0 && s3 == 0) by (bit_vector)
            requires
                s0 ^ (s3 ^ s1) == 0,
                s1 ^ (s2 ^ s0) == 0,
                (s2 ^ s0) ^ (s1 << 17) == 0,
                ((s3 ^ s1) << 45) | ((s3 ^ s1) >> 19) == 0,
        ;
    }
}

/// The second words of five states in a row are related: each bit of the
/// fifth is a sum of bits of the others.
spec fn related(a0: u64, a1: u64, a2: u64, a3: u64, a4: u64) -> bool {
    let u = a0 ^ a1 ^ a2 ^ a3 ^ ((a0 ^ a1) << 17);
    a1 ^ a3 ^ a4 ^ ((a1 ^ a2) << 17) == (u << 45) | (u >> 19)
}

/// The second words of five states in a row are related, and only the state
/// of zeros has four of them zero.
proof fn lemma_words_related(s: Seq<u64>)
    requires
        s.len() == 4,
    ensures
        related(s[1], steps(s, 1)[1], steps(s, 2)[1], steps(s, 3)[1], steps(s, 4)[1]),
        s[1] == 0 && steps(s, 1)[1] == 0 && steps(s, 2)[1] == 0 && steps(s, 3)[1] == 0 ==> !alive(
            s,
        ),
{
    reveal_with_fuel(steps, 5);
    let (x, y, z, w) = (step(s), step(step(s)), step(step(step(s))), steps(s, 4));
    let (s0, s1, s2, s3) = (s[0], s[1], s[2], s[3]);
    let (x0, x1, x2, x3) = (x[0], x[1], x[2], x[3]);
    let (y0, y1, y2, y3) = (y[0], y[1], y[2], y[3]);
    let (z0, z1, z2) = (z[0], z[1], z[2]);
    let w1 = w[1];
    let u = s1 ^ x1 ^ y1 ^ z1 ^ ((s1 ^ x1) << 17);
    assert(x1 ^ z1 ^ w1 ^ ((x1 ^ y1) << 17) == (u << 45) | (u >> 19)) by (bit_vector)
        requires
            u == s1 ^ x1 ^ y1 ^ z1 ^ ((s1 ^ x1) << 17),
            x0 == s0 ^ (s3 ^ s1),
            x1 == s1 ^ (s2 ^ s0),
            x2 == (s2 ^ s0) ^ (s1 << 17),
            x3 == ((s3 ^ s1) << 45) | ((s3 ^ s1) >> 19),
            y0 == x0 ^ (x3 ^ x1),
            y1 == x1 ^ (x2 ^ x0),
            y2 == (x2 ^ x0) ^ (x1 << 17),
            y3 == ((x3 ^ x1) << 45) | ((x3 ^ x1) >> 19),
            z0 == y0 ^ (y3 ^ y1),
            z1 == y1 ^ (y2 ^ y0),
            z2 == (y2 ^ y0) ^ (y1 << 17),
            w1 == z1 ^ (z2 ^ z0),
    ;
    assert(s1 == 0 && x1 == 0 && y1 == 0 && z1 == 0 ==> s0 == 0 && s2 == 0 && s3 == 0)
        by (bit_vector)
        requires
            x0 == s0 ^ (s3 ^ s1),
            x1 == s1 ^ (s2 ^ s0),
            x2 == (s2 ^ s0) ^ (s1 << 17),
            x3 == ((s3 ^ s1) << 45) | ((s3 ^ s1) >> 19),
            y0 == x0 ^ (x3 ^ x1),
            y1 == x1 ^ (x2 ^ x0),
            y2 == (x2 ^ x0) ^ (x1 << 17),
            z1 == y1 ^ (y2 ^ y0),
    ;
}

/// One of the few words below `2^57` that a draw with zero in its top 53 bits
/// is made from: 45 times the word is within a few of a multiple of `2^57`.
spec fn rare(a: u64) -> bool {
    ((a * 45 + 8) as u64) & 0x1ff_ffff_ffff_ffff < 24
}

/// A draw with zero in its top 53 bits is made from one of few words.
proof fn lemma_rare(s: Seq<u64>)
    requires
        output(s) >> 11 == 0,
    ensures
        rare(s[1]),
{
    let a = s[1];
    let b = a.wrapping_mul(5);
    let c = rotl(b, 7);
    let d = c.wrapping_mul(9);
    let i = (a * 5 / 0x1_0000_0000_0000_0000) as u64;
    let j = (c * 9 / 0x1_0000_0000_0000_0000) as u64;
    assert(((a * 45 + 8) as u64) & 0x1ff_ffff_ffff_ffff < 24) by (bit_vector)
        requires
            a * 5 == i * 0x1_0000_0000_0000_0000 + b,
            c == (b << 7) | (b >> 57),
            c * 9 == j * 0x1_0000_0000_0000_0000 + d,
            d >> 11 == 0,
    ;
}

/// The bits of such a word repeat every twelve, but for the lowest four.
proof fn lemma_rare_repeats(a: u64)
    requires
        rare(a),
    ensures
        (a ^ (a >> 12)) & 0x1fff_ffff_fff0 == 0,
{
    assert((a ^ (a >> 12)) & 0x1fff_ffff_fff0 == 0) by (bit_vector)
        requires
            ((a * 45 + 8) as u64) & 0x1ff_ffff_ffff_ffff < 24,
    ;
}

/// Of five such words in a row, the second and the third agree below `2^57`.
proof fn lemma_middle_words_agree(a0: u64, a1: u64, a2: u64, a3: u64, a4: u64)
    requires
        rare(a0),
        rare(a1),
        rare(a2),
        rare(a3),
        rare(a4),
        related(a0, a1, a2, a3, a4),
    ensures
        (a1 ^ a2) & 0x1ff_ffff_ffff_ffff == 0,
{
    lemma_rare_repeats(a0);
    lemma_rare_repeats(a1);
    lemma_rare_repeats(a2);
    lemma_rare_repeats(a3);
    lemma_rare_repeats(a4);
    let u = a0 ^ a1 ^ a2 ^ a3 ^ ((a0 ^ a1) << 17);
    assert((a1 ^ a2) & 0x1f_ffff == 0) by (bit_vector)
        requires
            (a0 ^ (a0 >> 12)) & 0x1fff_ffff_fff0 == 0,
            (a1 ^ (a1 >> 12)) & 0x1fff_ffff_fff0 == 0,
            (a2 ^ (a2 >> 12)) & 0x1fff_ffff_fff0 == 0,
            (a3 ^ (a3 >> 12)) & 0x1fff_ffff_fff0 == 0,
            (a4 ^ (a4 >> 12)) & 0x1fff_ffff_fff0 == 0,
            u == a0 ^ a1 ^ a2 ^ a3 ^ ((a0 ^ a1) << 17),
            a1 ^ a3 ^ a4 ^ ((a1 ^ a2) << 17) == (u << 45) | (u >> 19),
    ;
    assert((a1 ^ a2) & 0x1ff_ffff_ffff_ffff == 0) by (bit_vector)
        requires
            ((a1 * 45 + 8) as u64) & 0x1ff_ffff_ffff_ffff < 24,
            ((a2 * 45 + 8) as u64) & 0x1ff_ffff_ffff_ffff < 24,
            (a1 ^ a2) & 0x1f_ffff == 0,
    ;
}

/// Five such words in a row that agree below `2^57` are zero there.
proof fn lemma_same_words(a1: u64, a2: u64, a3: u64, a4: u64, a5: u64)
    requires
        rare(a1),
        (a1 ^ a2) & 0x1ff_ffff_ffff_ffff == 0,
        (a2 ^ a3) & 0x1ff_ffff_ffff_ffff == 0,
        (a3 ^ a4) & 0x1ff_ffff_ffff_ffff == 0,
        (a4 ^ a5) & 0x1ff_ffff_ffff_ffff == 0,
        related(a1, a2, a3, a4, a5),
    ensures
        (a1 | a2 | a3 | a4 | a5) & 0x1ff_ffff_ffff_ffff == 0,
{
    let u = a1 ^ a2 ^ a3 ^ a4 ^ ((a1 ^ a2) << 17);
    assert((a1 | a2 | a3 | a4 | a5) & 0x1ff_ffff_ffff_ffff == 0) by (bit_vector)
        requires
            ((a1 * 45 + 8) as u64) & 0x1ff_ffff_ffff_ffff < 24,
            (a1 ^ a2) & 0x1ff_ffff_ffff_ffff == 0,
            (a2 ^ a3) & 0x1ff_ffff_ffff_ffff == 0,
            (a3 ^ a4) & 0x1ff_ffff_ffff_ffff == 0,
            (a4 ^ a5) & 0x1ff_ffff_ffff_ffff == 0,
            u == a1 ^ a2 ^ a3 ^ a4 ^ ((a1 ^ a2) << 17),
            a2 ^ a4 ^ a5 ^ ((a2 ^ a3) << 17) == (u << 45) | (u >> 19),
    ;
}

/// Eight such words in a row, of which those inside are zero below `2^57`,
/// begin with four zeros.
proof fn lemma_zero_words(
    a0: u64,
    a1: u64,
    a2: u64,
    a3: u64,
    a4: u64,
    a5: u64,
    a6: u64,
    a7: u64,
)
    requires
        rare(a0),
        rare(a6),
        rare(a7),
        (a1 | a2 | a3 | a4 | a5) & 0x1ff_ffff_ffff_ffff == 0,
        related(a0, a1, a2, a3, a4),
        related(a1, a2, a3, a4, a5),
        related(a2, a3, a4, a5, a6),
        related(a3, a4, a5, a6, a7),
    ensures
        a0 == 0 && a1 == 0 && a2 == 0 && a3 == 0,
{
    let u0 = a0 ^ a1 ^ a2 ^ a3 ^ ((a0 ^ a1) << 17);
    let u1 = a1 ^ a2 ^ a3 ^ a4 ^ ((a1 ^ a2) << 17);
    let u2 = a2 ^ a3 ^ a4 ^ a5 ^ ((a2 ^ a3) << 17);
    let u3 = a3 ^ a4 ^ a5 ^ a6 ^ ((a3 ^ a4) << 17);
    assert(a0 == 0 && a1 == 0 && a2 == 0 && a3 == 0) by (bit_vector)
        requires
            ((a0 * 45 + 8) as u64) & 0x1ff_ffff_ffff_ffff < 24,
            ((a6 * 45 + 8) as u64) & 0x1ff_ffff_ffff_ffff < 24,
            ((a7 * 45 + 8) as u64) & 0x1ff_ffff_ffff_ffff < 24,
            (a1 | a2 | a3 | a4 | a5) & 0x1ff_ffff_ffff_ffff == 0,
            u0 == a0 ^ a1 ^ a2 ^ a3 ^ ((a0 ^ a1) << 17),
            u1 == a1 ^ a2 ^ a3 ^ a4 ^ ((a1 ^ a2) << 17),
            u2 == a2 ^ a3 ^ a4 ^ a5 ^ ((a2 ^ a3) << 17),
            u3 == a3 ^ a4 ^ a5 ^ a6 ^ ((a3 ^ a4) << 17),
            a1 ^ a3 ^ a4 ^ ((a1 ^ a2) << 17) == (u0 << 45) | (u0 >> 19),
            a2 ^ a4 ^ a5 ^ ((a2 ^ a3) << 17) == (u1 << 45) | (u1 >> 19),
            a3 ^ a5 ^ a6 ^ ((a3 ^ a4) << 17) == (u2 << 45) | (u2 >> 19),
            a4 ^ a6 ^ a7 ^ ((a4 ^ a5) << 17) == (u3 << 45) | (u3 >> 19),
    ;
}

/// One more draw, counted from either end.
proof fn lemma_steps_from(s: Seq<u64>, n: nat)
    ensures
        steps(step(s), n) == steps(s, n + 1),
    decreases n,
{
    if n > 0 {
        lemma_steps_from(s, (n - 1) as nat);
    } else {
        reveal_with_fuel(steps, 2);
    }
}

/// The draws from a later state on are the later draws.
proof fn lemma_steps_in_two(s: Seq<u64>, n: nat, k: nat)
    requires
        s.len() == 4,
    ensures
        steps(steps(s, n), k) == steps(s, n + k),
        steps(s, n).len() == 4,
    decreases k,
{
    if k > 0 {
        lemma_steps_in_two(s, n, (k - 1) as nat);
    }
}

/// Of eight draws in a row, one at least has a bit among its top 53.
proof fn lemma_one_in_eight(s: Seq<u64>)
    requires
        alive(s),
    ensures
        exists|i: nat| i < 8 && output(#[trigger] steps(s, i)) >> 11 != 0,
{
    if forall|i: nat| i < 8 ==> output(#[trigger] steps(s, i)) >> 11 == 0 {
        let a = Seq::new(8, |i: int| steps(s, i as nat)[1]);
        assert forall|i: int| 0 <= i < 8 implies rare(#[trigger] a[i]) by {
            lemma_rare(steps(s, i as nat));
        }
        assert forall|i: int| 0 <= i < 4 implies related(
            #[trigger] a[i],
            a[i + 1],
            a[i + 2],
            a[i + 3],
            a[i + 4],
        ) by {
            let n = i as nat;
            lemma_steps_in_two(s, n, 0);
            lemma_steps_in_two(s, n, 1);
            lemma_steps_in_two(s, n, 2);
            lemma_steps_in_two(s, n, 3);
            lemma_steps_in_two(s, n, 4);
            lemma_words_related(steps(s, n));
        }
        assert(related(a[0], a[1], a[2], a[3], a[4]));
        assert(related(a[1], a[2], a[3], a[4], a[5]));
        assert(related(a[2], a[3], a[4], a[5], a[6]));
        assert(related(a[3], a[4], a[5], a[6], a[7]));
        lemma_middle_words_agree(a[0], a[1], a[2], a[3], a[4]);
        lemma_middle_words_agree(a[1], a[2], a[3], a[4], a[5]);
        lemma_middle_words_agree(a[2], a[3], a[4], a[5], a[6]);
        lemma_middle_words_agree(a[3], a[4], a[5], a[6], a[7]);
        lemma_same_words(a[1], a[2], a[3], a[4], a[5]);
        lemma_zero_words(a[0], a[1], a[2], a[3], a[4], a[5], a[6], a[7]);
        lemma_words_related(s);
        assert(steps(s, 0) == s);
    }
}

/// The first draw whose top 53 bits are not zero, if it is among `limit`.
proof fn lemma_first_draw_at(s: Seq<u64>, limit: nat, n: nat)
    requires
        first_at(s, n),
        n <= limit,
    ensures
        first_draw(s, limit) == (output(steps(s, (n - 1) as nat)) >> 11, steps(s, n)),
    decreases limit,
{
    assert(steps(s, 0) == s);
    if n == 1 {
        reveal_with_fuel(steps, 2);
    } else {
        assert(output(steps(s, 0)) >> 11 == 0);
        lemma_steps_from(s, (n - 2) as nat);
        lemma_steps_from(s, (n - 1) as nat);
        assert forall|i: nat| i + 1 < n - 1 implies output(#[trigger] steps(step(s), i)) >> 11
            == 0 by {
            lemma_steps_from(s, i);
            assert(output(steps(s, i + 1)) >> 11 == 0);
        }
        lemma_first_draw_at(step(s), (limit - 1) as nat, (n - 1) as nat);
    }
}

/// A level draw takes the draws up to the first whose top 53 bits are not
/// zero, and no others. There is such a draw among the first eight.
pub proof fn lemma_level_draw_is_exact(s: Seq<u64>, m: u16)
    requires
        alive(s),
        2 <= m,
    ensures
        exists|n: nat| n <= 8 && #[trigger] first_at(s, n),
        forall|n: nat| #[trigger]
            first_at(s, n) ==> {
                let k = (output(steps(s, (n - 1) as nat)) >> 11) as nat;
                &&& level_draw(s, m) == (level_of(k, m as nat), steps(s, n))
                &&& 1 <= k < DRAW_SCALE
            },
        level_draw(s, m).0 <= top_level(m as nat),
{
    lemma_one_in_eight(s);
    lemma_level_draw_bound(s, m);
    let i = choose|i: nat| i < 8 && output(#[trigger] steps(s, i)) >> 11 != 0;
    let n = lemma_least(s, i);
    assert forall|p: nat| #[trigger] first_at(s, p) implies {
        let k = (output(steps(s, (p - 1) as nat)) >> 11) as nat;
        &&& level_draw(s, m) == (level_of(k, m as nat), steps(s, p))
        &&& 1 <= k < DRAW_SCALE
    } by {
        if p > n {
            assert(output(steps(s, (n - 1) as nat)) >> 11 == 0);
        }
        let o = output(steps(s, (p - 1) as nat));
        assert(o >> 11 < 0x20_0000_0000_0000) by (bit_vector);
        lemma_first_draw_at(s, LEVEL_DRAWS as nat, p);
    }
}

/// Of the draws up to one whose top 53 bits are not zero, one is the first.
proof fn lemma_least(s: Seq<u64>, i: nat) -> (n: nat)
    requires
        output(steps(s, i)) >> 11 != 0,
    ensures
        first_at(s, n),
        n <= i + 1,
    decreases i,
{
    if forall|j: nat| j < i ==> output(#[trigger] steps(s, j)) >> 11 == 0 {
        i + 1
    } else {
        let j = choose|j: nat| j < i && output(#[trigger] steps(s, j)) >> 11 != 0;
        lemma_least(s, j)
    }
}

/// Splitmix64 gives zero in the state zero alone.
proof fn lemma_mix_is_not_zero(x: u64)
    requires
        x != 0,
    ensures
        split_mix(x) != 0,
{
    let y = x ^ (x >> 30);
    let a = y.wrapping_mul(0xbf58_476d_1ce4_e5b9);
    let z = a ^ (a >> 27);
    let b = z.wrapping_mul(0x94d0_49bb_1331_11eb);
    assert(y != 0) by (bit_vector)
        requires
            x != 0,
            y == x ^ (x >> 30),
    ;
    assert(a != 0) by {
        lemma_odd_product(y, 0xbf58_476d_1ce4_e5b9, 0x96de1b173f119089, 0x70c3bca78f27f46c);
    }
    assert(z != 0) by (bit_vector)
        requires
            a != 0,
            z == a ^ (a >> 27),
    ;
    assert(b != 0) by {
        lemma_odd_product(z, 0x94d0_49bb_1331_11eb, 0x319642b2d24d8ec3, 0x1cd336eda85f1453);
    }
    assert(b ^ (b >> 31) != 0) by (bit_vector)
        requires
            b != 0,
    ;
}

/// A word that is not zero, times a factor that has an inverse, is not zero.
proof fn lemma_odd_product(x: u64, c: u64, inverse: int, q: int)
    requires
        x != 0,
        c * inverse == 1 + q * 0x1_0000_0000_0000_0000,
    ensures
        x.wrapping_mul(c) != 0,
{
    let n = 0x1_0000_0000_0000_0000int;
    let p = x * c;
    if x.wrapping_mul(c) == 0 {
        assert(p % n == 0);
        let k = p / n;
        assert(p == k * n);
        assert(x == n * (k * inverse - x * q)) by (nonlinear_arith)
            requires
                x * c == k * n,
                c * inverse == 1 + q * n,
        ;
        let d = k * inverse - x * q;
        assert(false) by (nonlinear_arith)
            requires
                x == n * d,
                0 < x < n,
                n > 0,
        ;
    }
}

/// A generator that was seeded is not in the state of zeros.
proof fn lemma_seeded_alive(seed: u64)
    ensures
        alive(seeded(seed)),
{
    let a = split_next(seed);
    let b = split_next(a);
    if a != 0 {
        lemma_mix_is_not_zero(a);
    } else {
        lemma_mix_is_not_zero(b);
    }
}

/// The highest level that a draw can give for `m`: the largest `l` with
/// `m^l <= 2^53`.
pub fn l_max(m: u16) -> (r: u8)
    requires
        m >= 2,
    ensures
        r == top_level(m as nat),
        r <= 53,
{
    level_of_sample(1, m)
}

/// The product, which needs no more than 80 bits.
fn wide_product(x: u64, m: u16) -> (p: u128)
    ensures
        p == x * m,
{
    assert(x * m <= 0xffff_ffff_ffff_ffff_ffff) by (nonlinear_arith)
        requires
            x <= 0xffff_ffff_ffff_ffff,
            m <= 0xffff,
    ;
    (x as u128) * (m as u128)
}

/// The level of the sample `k / 2^53`.
fn level_of_sample(k: u64, m: u16) -> (r: u8)
    requires
        k < DRAW_SCALE,
        m >= 2,
    ensures
        r == level_of(k as nat, m as nat),
        r <= 53,
{
    proof {
        lemma_top_level_bound(m as nat);
        if k > 0 {
            lemma_level_antitone(1, k as nat, m as nat);
        }
    }
    if k == 0 {
        return 0;
    }
    let mut x: u64 = k;
    let mut r: u8 = 0;
    while wide_product(x, m) <= DRAW_SCALE as u128
        invariant
            1 <= x <= DRAW_SCALE,
            m >= 2,
            r + level_of(x as nat, m as nat) == level_of(k as nat, m as nat),
            level_of(k as nat, m as nat) <= 53,
        decreases DRAW_SCALE - x,
    {
        proof {
            assert(x * m >= 2 * x) by (nonlinear_arith)
                requires
                    m >= 2,
            ;
        }
        x = x * (m as u64);
        r = r + 1;
    }
    r
}

/// splitmix64, used to expand a 64-bit seed into a generator state.
struct SplitMix64(u64);

impl SplitMix64 {
    fn next_u64(&mut self) -> (r: u64)
        ensures
            final(self).0 == split_next(old(self).0),
            r == split_mix(final(self).0),
    {
        self.0 = self.0.wrapping_add(0x9e37_79b9_7f4a_7c15);
        let x: u64 = self.0;
        let a: u64 = (x ^ (x >> 30)).wrapping_mul(0xbf58_476d_1ce4_e5b9);
        let b: u64 = (a ^ (a >> 27)).wrapping_mul(0x94d0_49bb_1331_11eb);
        b ^ (b >> 31)
    }
}

/// xoshiro256** 1.0 (Blackman and Vigna).
#[derive(Debug, PartialEq, Eq)]
pub struct Xoshiro256StarStar {
    s: [u64; 4],
}

impl View for Xoshiro256StarStar {
    type V = Seq<u64>;

    /// The four words of the state.
    closed spec fn view(&self) -> Seq<u64> {
        self.s@
    }
}

impl Clone for Xoshiro256StarStar {
    fn clone(&self) -> (g: Self)
        ensures
            g@ == self@,
    {
        proof {
            use_type_invariant(self);
        }
        Xoshiro256StarStar { s: self.s }
    }
}

impl Xoshiro256StarStar {
    #[verifier::type_invariant]
    spec fn is_alive(self) -> bool {
        alive(self.s@)
    }

    /// A generator for `seed`, expanded through splitmix64.
    pub fn new(seed: u64) -> (g: Self)
        ensures
            g@ == seeded(seed),
    {
        let mut sm: SplitMix64 = SplitMix64(seed);
        let a: u64 = sm.next_u64();
        let b: u64 = sm.next_u64();
        let c: u64 = sm.next_u64();
        let d: u64 = sm.next_u64();
        let s: [u64; 4] = [a, b, c, d];
        assert(s@ =~= seeded(seed));
        proof {
            lemma_seeded_alive(seed);
        }
        Xoshiro256StarStar { s }
    }

    /// A generator in a given state, which must not be all zero.
    pub fn from_state(s: [u64; 4]) -> (g: Self)
        requires
            alive(s@),
        ensures
            g@ == s@,
    {
        Xoshiro256StarStar { s }
    }

    /// The state's four words.
    pub fn state(&self) -> (s: [u64; 4])
        ensures
            s@ == self@,
    {
        self.s
    }

    /// Next uniformly distributed `u64`.
    pub fn next_u64(&mut self) -> (r: u64)
        ensures
            r == output(old(self)@),
            final(self)@ == step(old(self)@),
    {
        let s0: u64 = self.s[0];
        let s1: u64 = self.s[1];
        let s2: u64 = self.s[2];
        let s3: u64 = self.s[3];
        let x: u64 = s1.wrapping_mul(5);
        let result: u64 = ((x << 7) | (x >> 57)).wrapping_mul(9);
        let y: u64 = s3 ^ s1;
        let s: [u64; 4] = [
            s0 ^ (s3 ^ s1),
            s1 ^ (s2 ^ s0),
            (s2 ^ s0) ^ (s1 << 17),
            (y << 45) | (y >> 19),
        ];
        assert(s@ =~= step(old(self)@));
        proof {
            use_type_invariant(&*self);
            lemma_step_alive(self.s@);
        }
        self.s = s;
        result
    }

    /// Draws a node's top level: geometrically distributed, with
    /// `floor(-ln(u) / ln(m))` for a uniform `u` of 53 bits. A draw of zero
    /// is passed over, so `u >= 2^-53` and the level is at most
    /// [`l_max`]`(m)`.
    pub fn next_level(&mut self, m: u16) -> (r: u8)
        requires
            m >= 2,
        ensures
            r == level_draw(old(self)@, m).0,
            final(self)@ == level_draw(old(self)@, m).1,
            r <= top_level(m as nat),
            exists|n: nat| n <= LEVEL_DRAWS && #[trigger] first_at(old(self)@, n),
            forall|n: nat| #[trigger]
                first_at(old(self)@, n) ==> {
                    let k = (output(steps(old(self)@, (n - 1) as nat)) >> 11) as nat;
                    &&& r == level_of(k, m as nat)
                    &&& final(self)@ == steps(old(self)@, n)
                },
    {
        let mut left: u64 = LEVEL_DRAWS;
        proof {
            use_type_invariant(&*self);
            lemma_level_draw_is_exact(old(self)@, m);
            lemma_top_level_bound(m as nat);
            let n = choose|n: nat| n <= 8 && #[trigger] first_at(old(self)@, n);
            lemma_first_draw_at(old(self)@, LEVEL_DRAWS as nat, n);
        }
        while left > 0
            invariant
                m >= 2,
                self@.len() == 4,
                first_draw(self@, left as nat) == first_draw(old(self)@, LEVEL_DRAWS as nat),
                first_draw(old(self)@, LEVEL_DRAWS as nat).0 != 0,
                level_draw(old(self)@, m).0 <= top_level(m as nat) <= 53,
                exists|n: nat| n <= LEVEL_DRAWS && #[trigger] first_at(old(self)@, n),
                forall|n: nat| #[trigger]
                    first_at(old(self)@, n) ==> {
                        let k = (output(steps(old(self)@, (n - 1) as nat)) >> 11) as nat;
                        &&& level_draw(old(self)@, m) == (
                            level_of(k, m as nat),
                            steps(old(self)@, n),
                        )
                        &&& 1 <= k < DRAW_SCALE
                    },
            decreases left,
        {
            let ghost before = self@;
            let r: u64 = self.next_u64();
            let k: u64 = r >> 11;
            if k != 0 {
                proof {
                    lemma_first_draw_shape(before, left as nat);
                }
                return level_of_sample(k, m);
            }
            left = left - 1;
        }
        0
    }
}

} // verus!
