use crate::float::format::Format;
use vstd::arithmetic::div_mod::*;
use vstd::arithmetic::power2::*;
use vstd::bits::*;
use vstd::prelude::*;

verus! {

/// Two to the power `e` where `e` is positive, one otherwise.
pub open spec fn scale_up(e: int) -> int {
    if e > 0 {
        pow2(e as nat) as int
    } else {
        1
    }
}

/// `m` times two to the power `e` is `num / den` cut off below; `sticky` tells
/// whether anything was cut off.
pub open spec fn approximates(m: int, e: int, sticky: bool, num: int, den: int) -> bool {
    &&& den > 0
    &&& den * scale_up(e) * m <= num * scale_up(-e)
    &&& num * scale_up(-e) < den * scale_up(e) * (m + 1)
    &&& sticky <==> num * scale_up(-e) != den * scale_up(e) * m
}

pub proof fn lemma_pow2_zero_one()
    ensures
        pow2(0) == 1,
        pow2(1) == 2,
{
    lemma2_to64();
}

pub proof fn lemma_pow2_double(e: nat)
    ensures
        pow2(e + 1) == 2 * pow2(e),
{
    lemma_pow2_unfold(e + 1);
}

pub proof fn lemma_pow2_monotone(a: nat, b: nat)
    requires
        a <= b,
    ensures
        pow2(a) <= pow2(b),
{
    if a < b {
        lemma_pow2_strictly_increases(a, b);
    }
}

pub proof fn lemma_bit_length_bounds(n: nat)
    ensures
        n < pow2(Format::bit_length(n)),
        n > 0 ==> Format::bit_length(n) > 0,
        n > 0 ==> pow2((Format::bit_length(n) - 1) as nat) <= n,
    decreases n,
{
    lemma_pow2_zero_one();
    if n > 0 {
        lemma_bit_length_bounds(n / 2);
        lemma_pow2_double(Format::bit_length(n / 2));
        if n / 2 > 0 {
            lemma_pow2_double((Format::bit_length(n / 2) - 1) as nat);
        }
    }
}

/// The length is the only power of two that the number lies below by less than
/// a factor of two.
pub proof fn lemma_bit_length_unique(n: nat, length: nat)
    requires
        length > 0,
        pow2((length - 1) as nat) <= n < pow2(length),
    ensures
        Format::bit_length(n) == length,
{
    lemma_pow2_pos((length - 1) as nat);
    lemma_bit_length_bounds(n);
    let actual = Format::bit_length(n);
    if actual < length {
        lemma_pow2_monotone(actual, (length - 1) as nat);
    } else if actual > length {
        lemma_pow2_monotone(length, (actual - 1) as nat);
    }
}

proof fn lemma_drop_digits(m: nat, dropped: nat, more: nat)
    ensures
        (m / pow2(dropped)) / pow2(more) == m / pow2(dropped + more),
{
    lemma_pow2_pos(dropped);
    lemma_pow2_pos(more);
    lemma_div_denominator(m as int, pow2(dropped) as int, pow2(more) as int);
    lemma_pow2_adds(dropped, more);
}

/// One step of counting the digits of `m`: drops `more` of those that are left,
/// if there are that many to spare. `divisor` is two to the power `more`.
#[inline]
fn drop_digits(
    rest: u128,
    dropped: u32,
    divisor: u128,
    more: u32,
    Ghost(m): Ghost<u128>,
) -> (r: (u128, u32))
    requires
        0 < rest == m as nat / pow2(dropped as nat),
        divisor == pow2(more as nat),
        rest < divisor * divisor,
        dropped + more <= 128,
    ensures
        0 < r.0 == m as nat / pow2(r.1 as nat),
        r.0 < divisor,
        r.1 <= dropped + more,
{
    if rest >= divisor {
        proof {
            lemma_pow2_pos(more as nat);
            lemma_drop_digits(m as nat, dropped as nat, more as nat);
            lemma_div_non_zero(rest as int, divisor as int);
            lemma_fundamental_div_mod(rest as int, divisor as int);
            lemma_mod_bound(rest as int, divisor as int);
            let quotient = rest as int / divisor as int;
            assert(quotient < divisor) by (nonlinear_arith)
                requires
                    divisor * quotient <= rest,
                    rest < divisor * divisor,
                    divisor > 0,
            ;
        }
        (rest / divisor, dropped + more)
    } else {
        (rest, dropped)
    }
}

/// How many binary digits `m` has.
pub fn bit_length(m: u128) -> (length: u32)
    ensures
        length == Format::bit_length(m as nat),
        length <= 128,
        m < pow2(length as nat),
        m > 0 ==> length > 0 && pow2((length - 1) as nat) <= m,
{
    if m == 0 {
        proof {
            lemma_pow2_zero_one();
        }
        return 0;
    }
    proof {
        lemma2_to64();
        lemma_pow2_zero_one();
        assert(m as nat / pow2(0) == m);
    }
    let (rest, dropped) = drop_digits(m, 0, 0x1_0000_0000_0000_0000, 64, Ghost(m));
    let (rest, dropped) = drop_digits(rest, dropped, 0x1_0000_0000, 32, Ghost(m));
    let (rest, dropped) = drop_digits(rest, dropped, 0x1_0000, 16, Ghost(m));
    let (rest, dropped) = drop_digits(rest, dropped, 0x100, 8, Ghost(m));
    let (rest, dropped) = drop_digits(rest, dropped, 0x10, 4, Ghost(m));
    let (rest, dropped) = drop_digits(rest, dropped, 0x4, 2, Ghost(m));
    let (rest, dropped) = drop_digits(rest, dropped, 0x2, 1, Ghost(m));
    proof {
        assert(rest == 1);
        let power = pow2(dropped as nat) as int;
        lemma_pow2_pos(dropped as nat);
        lemma_fundamental_div_mod(m as int, power);
        lemma_mod_bound(m as int, power);
        lemma_pow2_double(dropped as nat);
        lemma_bit_length_unique(m as nat, (dropped + 1) as nat);
    }
    dropped + 1
}

proof fn lemma_shl_step(x: u128, n: u128, n1: u128)
    requires
        n == n1 + 1,
        n < 128,
        (x << n1) < 0x8000_0000_0000_0000_0000_0000_0000_0000,
    ensures
        x << n == 2 * (x << n1),
{
    assert(x << n == (x << n1) << 1) by (bit_vector)
        requires
            n == n1 + 1,
            n < 128,
    ;
    let y = x << n1;
    assert(y << 1 == 2 * y) by (bit_vector)
        requires
            y < 0x8000_0000_0000_0000_0000_0000_0000_0000,
    ;
}

/// Shifting left multiplies by a power of two while nothing is lost.
pub proof fn lemma_shl_is_mul(x: u128, n: u128)
    requires
        n < 128,
        x * pow2(n as nat) <= u128::MAX,
    ensures
        x << n == x * pow2(n as nat),
    decreases n,
{
    if n == 0 {
        lemma_pow2_zero_one();
        assert(x << 0u128 == x) by (bit_vector);
    } else {
        let n1 = (n - 1) as u128;
        lemma_pow2_double(n1 as nat);
        assert(x * pow2(n as nat) == 2 * (x * pow2(n1 as nat))) by (nonlinear_arith)
            requires
                pow2(n as nat) == 2 * pow2(n1 as nat),
        ;
        lemma_shl_is_mul(x, n1);
        lemma_shl_step(x, n, n1);
    }
}

/// `num * grain` is `base * m` and a rest `t` below `base`; `m` is `q` steps and
/// `low`. Dividing `num` by the step in question gives `q`, and `low` and `t`
/// decide on which side of the middle the remainder lies.
proof fn lemma_cut(
    num: int,
    grain: int,
    base: int,
    m: int,
    t: int,
    step: int,
    q: int,
    low: int,
    divisor: int,
)
    requires
        grain > 0,
        base > 0,
        step > 0,
        divisor > 0,
        num >= 0,
        num * grain == base * m + t,
        0 <= t < base,
        m == q * step + low,
        0 <= low < step,
        divisor * grain == base * step,
    ensures
        num / divisor == q,
        2 * (num % divisor) * grain == base * (2 * low) + 2 * t,
        divisor * grain == base * step,
{
    let r = num - q * divisor;
    assert(r * grain == base * low + t) by (nonlinear_arith)
        requires
            r == num - q * divisor,
            num * grain == base * m + t,
            m == q * step + low,
            divisor * grain == base * step,
    ;
    assert(base * low + t < base * step) by (nonlinear_arith)
        requires
            low + 1 <= step,
            t < base,
            base > 0,
    ;
    assert(base * low >= 0) by (nonlinear_arith)
        requires
            base > 0,
            low >= 0,
    ;
    assert(r >= 0) by (nonlinear_arith)
        requires
            r * grain >= 0,
            grain > 0,
    ;
    assert(r < divisor) by (nonlinear_arith)
        requires
            r * grain < divisor * grain,
            grain > 0,
    ;
    assert(num == q * divisor + r);
    lemma_fundamental_div_mod_converse(num, divisor, q, r);
    assert(2 * r * grain == base * (2 * low) + 2 * t) by (nonlinear_arith)
        requires
            r * grain == base * low + t,
    ;
}

/// Which way rounding goes, read off the digits cut away.
proof fn lemma_cut_decides(
    num: int,
    grain: int,
    base: int,
    t: int,
    step: int,
    half: int,
    q: int,
    low: int,
    divisor: int,
)
    requires
        grain > 0,
        base > 0,
        divisor > 0,
        step == 2 * half,
        0 <= t < base,
        0 <= low < step,
        num / divisor == q,
        2 * (num % divisor) * grain == base * (2 * low) + 2 * t,
        divisor * grain == base * step,
    ensures
        Format::nearest_even(num, divisor) == if low < half || (low == half && t == 0 && q % 2
            == 0) {
            q
        } else {
            q + 1
        },
{
    let r = num % divisor;
    if low < half {
        assert(base * (2 * low) + 2 * t < base * step) by (nonlinear_arith)
            requires
                low + 1 <= half,
                step == 2 * half,
                t < base,
                base > 0,
        ;
        assert(2 * r < divisor) by (nonlinear_arith)
            requires
                2 * r * grain < divisor * grain,
                grain > 0,
        ;
    } else if low == half && t == 0 {
        assert(2 * r * grain == divisor * grain);
        assert(2 * r == divisor) by (nonlinear_arith)
            requires
                2 * r * grain == divisor * grain,
                grain > 0,
        ;
    } else {
        assert(base * (2 * low) + 2 * t > base * step) by (nonlinear_arith)
            requires
                low > half || (low == half && t > 0),
                step == 2 * half,
                t >= 0,
                base > 0,
        ;
        assert(2 * r > divisor) by (nonlinear_arith)
            requires
                2 * r * grain > divisor * grain,
                grain > 0,
        ;
    }
}

/// The number of digits before the point of what `m` and `e` approximate.
proof fn lemma_floor_length(m: int, e: int, sticky: bool, num: int, den: int)
    requires
        m > 0,
        num >= 0,
        approximates(m, e, sticky, num, den),
    ensures
        Format::bit_length((num / den) as nat) == if Format::bit_length(m as nat) + e > 0 {
            Format::bit_length(m as nat) + e
        } else {
            0
        },
{
    let length = Format::bit_length(m as nat) as int;
    lemma_bit_length_bounds(m as nat);
    lemma_div_pos_is_pos(num, den);
    let low = pow2((length - 1) as nat) as int;
    let high = pow2(length as nat) as int;
    let up = scale_up(e);
    let down = scale_up(-e);
    if e > 0 {
        lemma_pow2_pos(e as nat);
    }
    if e < 0 {
        lemma_pow2_pos((-e) as nat);
    }
    assert(den * up * low <= num * down) by (nonlinear_arith)
        requires
            low <= m,
            den > 0,
            up > 0,
            den * up * m <= num * down,
    ;
    assert(num * down < den * up * high) by (nonlinear_arith)
        requires
            m + 1 <= high,
            den > 0,
            up > 0,
            num * down < den * up * (m + 1),
    ;
    if e <= 0 {
        assert(den * up == den) by (nonlinear_arith)
            requires
                up == 1,
        ;
    }
    if e >= 0 {
        assert(num * down == num) by (nonlinear_arith)
            requires
                down == 1,
        ;
    }
    if length + e > 0 {
        let floor_low = pow2((length + e - 1) as nat) as int;
        let floor_high = pow2((length + e) as nat) as int;
        if e >= 0 {
            if e > 0 {
                lemma_pow2_adds(e as nat, (length - 1) as nat);
                lemma_pow2_adds(e as nat, length as nat);
            } else {
                assert(up * low == low && up * high == high) by (nonlinear_arith)
                    requires
                        up == 1,
                ;
            }
            assert(floor_low == up * low);
            assert(floor_high == up * high);
            assert(floor_low * den <= num) by (nonlinear_arith)
                requires
                    den * up * low <= num,
                    floor_low == up * low,
            ;
            assert(num < floor_high * den) by (nonlinear_arith)
                requires
                    num < den * up * high,
                    floor_high == up * high,
            ;
        } else {
            lemma_pow2_adds((length + e - 1) as nat, (-e) as nat);
            lemma_pow2_adds((length + e) as nat, (-e) as nat);
            assert(floor_low * den <= num) by (nonlinear_arith)
                requires
                    den * low <= num * down,
                    low == floor_low * down,
                    down > 0,
            ;
            assert(num < floor_high * den) by (nonlinear_arith)
                requires
                    num * down < den * high,
                    high == floor_high * down,
                    down > 0,
            ;
        }
        lemma_div_is_ordered(floor_low * den, num, den);
        lemma_div_by_multiple(floor_low, den);
        lemma_fundamental_div_mod(num, den);
        lemma_mod_bound(num, den);
        let floor = num / den;
        assert(floor < floor_high) by (nonlinear_arith)
            requires
                den * floor <= num,
                num < floor_high * den,
                den > 0,
        ;
        lemma_bit_length_unique(floor as nat, (length + e) as nat);
    } else {
        lemma_pow2_monotone(length as nat, (-e) as nat);
        assert(num < den) by (nonlinear_arith)
            requires
                num * down < den * high,
                high <= down,
                den > 0,
                down > 0,
        ;
        lemma_basic_div(num, den);
    }
}

/// `m` times two to the power `shift`.
pub fn widen(m: u128, shift: u32) -> (r: u128)
    requires
        shift < 128,
        m * pow2(shift as nat) <= u128::MAX,
    ensures
        r == m * pow2(shift as nat),
{
    proof {
        lemma_shl_is_mul(m, shift as u128);
    }
    m << (shift as u128)
}

/// `m` divided by two to the power `shift`, and what is left over.
pub fn split_low(m: u128, shift: u32) -> (r: (u128, u128))
    requires
        shift < 128,
    ensures
        r.0 == m as nat / pow2(shift as nat),
        r.1 == m as nat % pow2(shift as nat),
        m == r.0 * pow2(shift as nat) + r.1,
        r.1 < pow2(shift as nat),
{
    proof {
        lemma_u128_shr_is_div(m, shift as u128);
        lemma_pow2_pos(shift as nat);
        let power = pow2(shift as nat) as int;
        lemma_fundamental_div_mod(m as int, power);
        lemma_mod_bound(m as int, power);
        assert(power * (m as int / power) == (m as int / power) * power) by (nonlinear_arith);
    }
    let high: u128 = m >> (shift as u128);
    let low: u128 = m - widen(high, shift);
    (high, low)
}

/// The power of two below 128.
fn small_power(shift: u32) -> (r: u128)
    requires
        shift < 128,
    ensures
        r == pow2(shift as nat),
{
    proof {
        lemma_pow2_monotone(shift as nat, 127);
        lemma_pow2_127();
    }
    widen(1, shift)
}

pub proof fn lemma_pow2_127()
    ensures
        pow2(127) == 0x8000_0000_0000_0000_0000_0000_0000_0000int,
        pow2(128) == 0x1_0000_0000_0000_0000_0000_0000_0000_0000int,
{
    lemma2_to64();
    lemma2_to64_rest();
    lemma_pow2_adds(64, 63);
    lemma_pow2_adds(64, 64);
}

/// `m` without its last `shift` digits, rounded to nearest with ties to even;
/// `sticky` stands for something more below the last digit.
pub open spec fn dropped(m: int, shift: nat, sticky: bool) -> int
    recommends
        shift > 0,
{
    let q = m / pow2(shift) as int;
    let low = m % pow2(shift) as int;
    let half = pow2((shift - 1) as nat) as int;
    if low < half || (low == half && !sticky && q % 2 == 0) {
        q
    } else {
        q + 1
    }
}

/// Rounding to a power of two that divides every digit keeps all of them.
proof fn lemma_exact(num: int, den: int, m: int, e: int, step: nat)
    requires
        den > 0,
        m >= 0,
        num == den * scale_up(e) * m,
        step <= e,
    ensures
        Format::nearest_even(num, den * pow2(step)) == m * pow2((e - step) as nat),
{
    let room = (e - step) as nat;
    lemma_pow2_zero_one();
    lemma_pow2_pos(step);
    lemma_pow2_adds(step, room);
    let spacing = pow2(step) as int;
    let power = pow2(room) as int;
    let up = scale_up(e);
    let divisor = den * spacing;
    assert(up == spacing * power);
    assert(divisor > 0) by (nonlinear_arith)
        requires
            divisor == den * spacing,
            den > 0,
            spacing > 0,
    ;
    assert(num == (m * power) * divisor) by (nonlinear_arith)
        requires
            num == den * up * m,
            up == spacing * power,
            divisor == den * spacing,
    ;
    lemma_fundamental_div_mod_converse(num, divisor, m * power, 0);
}

/// Rounding to a power of two above the last digit drops digits.
proof fn lemma_inexact(num: int, den: int, m: int, e: int, sticky: bool, step: nat)
    requires
        num >= 0,
        m >= 0,
        approximates(m, e, sticky, num, den),
        step > e,
    ensures
        Format::nearest_even(num, den * pow2(step)) == dropped(m, (step - e) as nat, sticky),
{
    let shift = (step - e) as nat;
    let power = pow2(shift) as int;
    let spacing = pow2(step) as int;
    let up = scale_up(e);
    let down = scale_up(-e);
    let base = den * up;
    let divisor = den * spacing;
    lemma_pow2_zero_one();
    lemma_pow2_pos(shift);
    lemma_pow2_pos(step);
    if e > 0 {
        lemma_pow2_pos(e as nat);
        lemma_pow2_adds(e as nat, shift);
    } else if e < 0 {
        lemma_pow2_pos((-e) as nat);
        lemma_pow2_adds(step, (-e) as nat);
    }
    assert(spacing * down == up * power) by {
        if e >= 0 {
            assert(spacing * 1 == spacing);
        } else {
            assert(1 * power == power);
        }
    }
    assert(base > 0) by (nonlinear_arith)
        requires
            base == den * up,
            den > 0,
            up > 0,
    ;
    assert(divisor > 0) by (nonlinear_arith)
        requires
            divisor == den * spacing,
            den > 0,
            spacing > 0,
    ;
    assert(divisor * down == base * power) by (nonlinear_arith)
        requires
            divisor == den * spacing,
            base == den * up,
            spacing * down == up * power,
    ;
    let t = num * down - base * m;
    assert(t < base) by (nonlinear_arith)
        requires
            num * down < base * (m + 1),
            t == num * down - base * m,
    ;
    let q = m / power;
    let low = m % power;
    lemma_fundamental_div_mod(m, power);
    lemma_mod_bound(m, power);
    assert(power * q == q * power) by (nonlinear_arith);
    lemma_cut(num, down, base, m, t, power, q, low, divisor);
    lemma_pow2_double((shift - 1) as nat);
    lemma_cut_decides(num, down, base, t, power, pow2((shift - 1) as nat) as int, q, low, divisor);
}

/// Dropping all but `kept` digits leaves at most a carry more.
proof fn lemma_dropped_bound(m: int, length: nat, shift: nat, sticky: bool, kept: nat)
    requires
        0 <= m < pow2(length),
        shift > 0,
        length <= kept + shift,
    ensures
        0 <= dropped(m, shift, sticky) <= pow2(kept),
{
    let power = pow2(shift) as int;
    let limit = pow2(kept) as int;
    let q = m / power;
    lemma_pow2_pos(shift);
    lemma_pow2_adds(kept, shift);
    lemma_pow2_monotone(length, kept + shift);
    lemma_fundamental_div_mod(m, power);
    lemma_mod_bound(m, power);
    lemma_div_pos_is_pos(m, power);
    assert(q < limit) by (nonlinear_arith)
        requires
            power * q <= m,
            m < limit * power,
            power > 0,
    ;
}

fn drop_nearest(m: u128, shift: u32, sticky: bool) -> (r: u128)
    requires
        0 < shift < 128,
    ensures
        r == dropped(m as int, shift as nat, sticky),
{
    let (q, low) = split_low(m, shift);
    let half: u128 = small_power(shift - 1);
    if low < half || (low == half && !sticky && q % 2 == 0) {
        q
    } else {
        proof {
            lemma_pow2_double((shift - 1) as nat);
            lemma_pow2_pos((shift - 1) as nat);
            assert(q < u128::MAX) by (nonlinear_arith)
                requires
                    q * pow2(shift as nat) <= u128::MAX,
                    pow2(shift as nat) >= 2,
            ;
        }
        q + 1
    }
}

proof fn lemma_zero_approximated(e: int, num: int, den: int)
    requires
        approximates(0, e, false, num, den),
    ensures
        num == 0,
{
    let down = scale_up(-e);
    if e < 0 {
        lemma_pow2_pos((-e) as nat);
    }
    let base = den * scale_up(e);
    assert(num == 0) by (nonlinear_arith)
        requires
            num * down == base * 0,
            down > 0,
    ;
}

/// A number of at most `length` digits, moved up within `kept` digits.
proof fn lemma_widened_bound(m: int, length: nat, room: nat, kept: nat)
    requires
        0 < m < pow2(length),
        length + room <= kept,
        kept <= 100,
    ensures
        0 <= m * pow2(room) < pow2(kept),
        pow2(kept) <= u128::MAX,
{
    let power = pow2(room) as int;
    lemma_pow2_adds(length, room);
    lemma_pow2_monotone(length + room, kept);
    lemma_pow2_pos(room);
    assert(0 <= m * power < pow2(length) * power) by (nonlinear_arith)
        requires
            0 < m < pow2(length),
            power > 0,
    ;
    lemma_pow2_monotone(kept, 127);
    lemma_pow2_127();
}

impl Format {
    pub fn precision_digits(self) -> (r: i32)
        ensures
            r == self.precision(),
    {
        match self {
            Format::Single => 24,
            Format::Double => 53,
        }
    }

    pub fn hidden_bit(self) -> (r: u64)
        ensures
            r == self.hidden(),
    {
        match self {
            Format::Single => 0x80_0000,
            Format::Double => 0x10_0000_0000_0000,
        }
    }

    pub fn infinity_bits(self) -> (r: u64)
        ensures
            r == self.infinity(),
    {
        match self {
            Format::Single => 0x7f80_0000,
            Format::Double => 0x7ff0_0000_0000_0000,
        }
    }

    /// How many steps of the hidden bit lead to infinity.
    pub fn infinity_field(self) -> (r: i32)
        ensures
            r * self.hidden() == self.infinity(),
            r == 255 || r == 2047,
    {
        match self {
            Format::Single => 255,
            Format::Double => 2047,
        }
    }

    pub proof fn lemma_hidden_is_power(self)
        ensures
            self.hidden() == pow2((self.precision() - 1) as nat),
            2 * self.hidden() == pow2(self.precision()),
    {
        lemma2_to64();
        lemma2_to64_rest();
    }

    /// Rounds what `m` and `e` approximate to the format, given enough digits:
    /// where some were cut off, `m` has more than the precision.
    pub fn round_magnitude(
        self,
        m: u128,
        e: i32,
        sticky: bool,
        Ghost(num): Ghost<int>,
        Ghost(den): Ghost<int>,
    ) -> (r: u64)
        requires
            num >= 0,
            -5000 <= e <= 5000,
            m < 0x8000_0000_0000_0000_0000_0000_0000_0000,
            approximates(m as int, e as int, sticky, num, den),
            sticky ==> m >= 2 * self.hidden(),
        ensures
            r == self.rounded(num, den),
    {
        proof {
            lemma_pow2_zero_one();
            self.lemma_hidden_is_power();
        }
        if m == 0 {
            proof {
                lemma_zero_approximated(e as int, num, den);
                lemma_basic_div(0, den);
                assert(den * 1 == den);
            }
            return 0;
        }
        let length: i32 = bit_length(m) as i32;
        proof {
            lemma_floor_length(m as int, e as int, sticky, num, den);
        }
        let excess: i32 = length + e - self.precision_digits();
        let step: i32 = if excess > 0 {
            excess
        } else {
            0
        };
        assert(step == self.spacing(num, den));
        let shift: i32 = step - e;
        let whole: u128 = if shift <= 0 {
            proof {
                // Every digit is kept: nothing was cut off, and there is room below.
                if sticky {
                    lemma_pow2_monotone(length as nat, self.precision());
                }
                assert(scale_up(-(e as int)) == 1);
                assert(num * 1 == num);
                lemma_exact(num, den, m as int, e as int, step as nat);
                lemma_widened_bound(m as int, length as nat, (-shift) as nat, self.precision());
            }
            widen(m, (-shift) as u32)
        } else {
            proof {
                lemma_inexact(num, den, m as int, e as int, sticky, step as nat);
                lemma_dropped_bound(
                    m as int,
                    length as nat,
                    shift as nat,
                    sticky,
                    self.precision(),
                );
            }
            if shift < 128 {
                drop_nearest(m, shift as u32, sticky)
            } else {
                proof {
                    lemma_pow2_127();
                    lemma_pow2_monotone(127, (shift - 1) as nat);
                    lemma_pow2_monotone(127, shift as nat);
                    lemma_basic_div(m as int, pow2(shift as nat) as int);
                    lemma_small_mod(m as nat, pow2(shift as nat));
                }
                0
            }
        };
        let ghost divisor = den * pow2(step as nat);
        assert(whole == Format::nearest_even(num, divisor));
        assert(whole <= 2 * self.hidden());
        let top: i32 = self.infinity_field();
        if step >= top {
            assert(step * self.hidden() >= top * self.hidden()) by (nonlinear_arith)
                requires
                    step >= top,
                    self.hidden() > 0,
            ;
            return self.infinity_bits();
        }
        let hidden: u64 = self.hidden_bit();
        assert(step * hidden <= top * hidden) by (nonlinear_arith)
            requires
                step <= top,
        ;
        assert(0 <= step * hidden) by (nonlinear_arith)
            requires
                step >= 0,
        ;
        let magnitude: u64 = (step as u64) * hidden + (whole as u64);
        if magnitude < self.infinity_bits() {
            magnitude
        } else {
            self.infinity_bits()
        }
    }
}

} // verus!
