//! The exponential function in fixed point, as a quotient of two polynomials.
use crate::fault::Fault;
use crate::newton::{quantity, WAD};
use crate::signed::{fits, half, magnitude, trunc_div, wrap, SignedWord, I256};
use crate::uint::{lemma_over, lemma_times, lemma_word_range, limbs_value, modulus, Word, U256};
use vstd::arithmetic::power2::pow2;
use vstd::prelude::*;

verus! {

/// A number shifted right by 96 bits, rounded down.
#[verifier::opaque]
pub open spec fn sar96(v: int) -> int {
    v / (pow2(96) as int)
}

/// A number shifted right by 96 bits, rounded down.
pub fn shr96(v: I256) -> (r: I256)
    ensures
        r@ == sar96(v@),
{
    proof {
        reveal(sar96);
    }
    v.asr(96)
}

/// The natural logarithm of two, in units of 2^-96.
pub const LN_2: u128 = 54_916_777_467_707_473_351_141_471_128;

/// 2^96.
pub const UNIT_96: u128 = 79_228_162_514_264_337_593_543_950_336;

/// `x` in units of 2^-96, from units of 10^-18: times 2^78, over 5^18.
pub open spec fn binary(x: int) -> int {
    x.wtimes(pow2(78) as int).trunc(3_814_697_265_625)
}

/// The multiple of `ln 2` that is nearest to `v` in units of 2^-96, before it is rounded.
pub open spec fn nearest(v: int) -> int {
    v.wtimes(UNIT_96 as int).trunc(LN_2 as int) + 39_614_081_257_132_168_796_771_975_168
}

/// The polynomial above the line.
pub open spec fn above(v: int) -> int {
    let y = sar96(v.wplus(1_346_386_616_545_796_478_920_950_773_328).wtimes(v)).wplus(
        57_155_421_227_552_351_082_224_309_758_442,
    );
    let t = y.wplus(v).wminus(94_201_549_194_550_492_254_356_042_504_812);
    sar96(t.wtimes(y)).wplus(28_719_021_644_029_726_153_956_944_680_412_240).wtimes(v).wplus(
        4_385_272_521_454_847_904_659_076_985_693_276int.wtimes(pow2(96) as int),
    )
}

/// The polynomial below the line.
pub open spec fn below(v: int) -> int {
    let q1 = sar96(v.wminus(2_855_989_394_907_223_263_936_484_059_900).wtimes(v)).wplus(
        50_020_603_652_535_783_019_961_831_881_945,
    );
    let q2 = sar96(q1.wtimes(v)).wminus(533_845_033_583_426_703_283_633_433_725_380);
    let q3 = sar96(q2.wtimes(v)).wplus(3_604_857_256_930_695_427_073_651_918_091_429);
    let q4 = sar96(q3.wtimes(v)).wminus(14_423_608_567_350_463_180_887_372_962_807_573);
    sar96(q4.wtimes(v)).wplus(26_449_188_498_355_588_339_934_803_723_976_023)
}

/// The quotient of the polynomials, as a word, with the factor `2^k` and the scale brought in.
pub open spec fn scaled(r: int, k: int) -> int {
    (r % modulus()).times(
        3_822_833_074_963_236_453_042_738_258_902_158_003_155_416_615_667int,
    ).over(pow2(((195 - k) % 0x1_0000000000000000int) as nat) as int)
}

/// `e^x`, both in units of 10^18.
pub open spec fn wad_exp_model(x: int) -> Result<int, Fault> {
    let v0 = binary(x);
    let k = sar96(nearest(v0));
    let v = v0.wminus(k.wtimes(LN_2 as int));
    let r = above(v).trunc(below(v));
    if x <= -42_139_678_854_452_767_551 {
        Ok(0)
    } else if !fits(nearest(v0)) || below(v) == 0 || !fits(r) || !fits(195 - k) {
        Err(Fault)
    } else {
        Ok(scaled(r, k))
    }
}

fn above_of(v: I256) -> (r: I256)
    ensures
        r@ == above(v@),
{
    let y = shr96(
        v.wrapping_add(I256::from_u128(1_346_386_616_545_796_478_920_950_773_328)).wrapping_mul(v),
    ).wrapping_add(I256::from_u128(57_155_421_227_552_351_082_224_309_758_442));
    let t = y.wrapping_add(v).wrapping_sub(
        I256::from_u128(94_201_549_194_550_492_254_356_042_504_812),
    );
    let t2 = shr96(t.wrapping_mul(y)).wrapping_add(
        I256::from_u128(28_719_021_644_029_726_153_956_944_680_412_240),
    );
    t2.wrapping_mul(v).wrapping_add(
        I256::from_u128(4_385_272_521_454_847_904_659_076_985_693_276).shl(96),
    )
}

fn below_of(v: I256) -> (r: I256)
    ensures
        r@ == below(v@),
{
    let q = shr96(
        v.wrapping_sub(I256::from_u128(2_855_989_394_907_223_263_936_484_059_900)).wrapping_mul(v),
    ).wrapping_add(I256::from_u128(50_020_603_652_535_783_019_961_831_881_945));
    let q = shr96(q.wrapping_mul(v)).wrapping_sub(
        I256::from_u128(533_845_033_583_426_703_283_633_433_725_380),
    );
    let q = shr96(q.wrapping_mul(v)).wrapping_add(
        I256::from_u128(3_604_857_256_930_695_427_073_651_918_091_429),
    );
    let q = shr96(q.wrapping_mul(v)).wrapping_sub(
        I256::from_u128(14_423_608_567_350_463_180_887_372_962_807_573),
    );
    shr96(q.wrapping_mul(v)).wrapping_add(
        I256::from_u128(26_449_188_498_355_588_339_934_803_723_976_023),
    )
}

/// `e^x`, or a fault where [`wad_exp`] is not defined.
pub fn try_wad_exp(x: I256) -> (r: Result<U256, Fault>)
    ensures
        quantity(r) == wad_exp_model(x@),
{
    let least = I256::from_u128(42_139_678_854_452_767_551).try_neg()?;
    if x <= least {
        return Ok(U256::zero());
    }
    let ln_2 = I256::from_u128(LN_2);
    let v0 = x.shl(78).try_div(I256::from_u128(3_814_697_265_625))?;
    let k = shr96(
        v0.wrapping_mul(I256::from_u128(UNIT_96)).try_div(ln_2)?.try_add(
            I256::from_u128(39_614_081_257_132_168_796_771_975_168),
        )?,
    );
    let v = v0.wrapping_sub(k.wrapping_mul(ln_2));
    let r = above_of(v).try_div(below_of(v))?;
    let shift = I256::from_u128(195).try_sub(k)?;
    Ok(scale(r, k, shift))
}

/// The value of [`scaled`].
fn scale(r: I256, k: I256, shift: I256) -> (v: U256)
    requires
        shift@ == 195 - k@,
    ensures
        v@ == scaled(r@, k@),
{
    let factor = U256::from_limbs([17_181_495_799_676_635_891, 7_188_640_403_681_034_642, 11_234_296_709, 0]);
    proof {
        reveal(limbs_value);
    }
    let product = r.to_bits() * factor;
    let low = shift.to_bits().low();
    proof {
        let m = 0x1_0000000000000000int;
        assert(modulus() == m * (m * m * m)) by (nonlinear_arith)
            requires
                m == 0x1_0000000000000000int,
                modulus()
                    == 0x1_0000000000000000_0000000000000000_0000000000000000_0000000000000000int,
        ;
        vstd::arithmetic::div_mod::lemma_mod_mod(shift@, m, m * m * m);
    }
    if low < 256 {
        product.shr(low as usize)
    } else {
        proof {
            lemma_word_range(product);
            lemma_over(product@, pow2(low as nat) as int);
            crate::roots::lemma_pow2_words();
            if low > 256 {
                vstd::arithmetic::power2::lemma_pow2_strictly_increases(256, low as nat);
            }
            vstd::arithmetic::div_mod::lemma_basic_div(product@, pow2(low as nat) as int);
        }
        U256::zero()
    }
}

/// `e^x`, both in units of 10^18; zero where `x` is so far below zero that nothing is left.
pub fn wad_exp(x: I256) -> (r: U256)
    requires
        wad_exp_model(x@) is Ok,
    ensures
        Ok::<int, Fault>(r@) == wad_exp_model(x@),
{
    match try_wad_exp(x) {
        Ok(r) => r,
        Err(_) => U256::zero(),
    }
}

/// The weight of the old average after `dt` seconds: `e^(-dt / ma_time)`.
pub open spec fn decay(dt: int, ma_time: int) -> Result<int, Fault> {
    let q = dt.times(WAD as int).over(ma_time);
    if ma_time == 0 || q >= half() {
        Err(Fault)
    } else {
        wad_exp_model(-q)
    }
}

/// The value of [`decay`].
pub fn decayed(dt: u64, ma_time: U256) -> (r: Result<U256, Fault>)
    ensures
        quantity(r) == decay(dt as int, ma_time@),
{
    let q = (U256::from(dt) * U256::from(WAD)).div_by(ma_time)?;
    proof {
        lemma_word_range(q);
    }
    match I256::from_unsigned(q) {
        Some(v) => try_wad_exp(v.try_neg()?),
        None => Err(Fault),
    }
}

/// The farthest that the argument of the two polynomials is from zero.
pub open spec fn reach() -> int {
    27_458_388_733_853_736_675_570_735_565
}

proof fn lemma_pow2_96()
    ensures
        pow2(96) == UNIT_96,
        pow2(78) == 302_231_454_903_657_293_676_544,
{
    vstd::arithmetic::power2::lemma2_to64();
    vstd::arithmetic::power2::lemma_pow2_adds(64, 32);
    vstd::arithmetic::power2::lemma_pow2_adds(64, 14);
}

proof fn lemma_wrap(v: int)
    requires
        fits(v),
    ensures
        wrap(v) == v,
{
    reveal(wrap);
    if v < 0 {
        vstd::arithmetic::div_mod::lemma_fundamental_div_mod_converse(
            v,
            modulus(),
            -1,
            v + modulus(),
        );
    } else {
        vstd::arithmetic::div_mod::lemma_small_mod(v as nat, modulus() as nat);
    }
}

proof fn lemma_sar(a: int, lo: int, hi: int)
    requires
        lo * UNIT_96 <= a <= hi * UNIT_96,
    ensures
        lo <= sar96(a) <= hi,
{
    reveal(sar96);
    lemma_pow2_96();
    let u = UNIT_96 as int;
    assert(lo <= a / u <= hi) by (nonlinear_arith)
        requires
            lo * u <= a <= hi * u,
            u > 0,
    ;
}

/// A product with the argument of the polynomials is exact, and small once it is shifted.
proof fn lemma_product(q: int, v: int, most: int, b: int)
    requires
        -most <= q <= most,
        -reach() <= v <= reach(),
        most * reach() <= b * UNIT_96,
        b * UNIT_96 < half(),
    ensures
        q.wtimes(v) == q * v,
        -b <= sar96(q * v) <= b,
        (q <= 0 && v <= 0) || (q >= 0 && v >= 0) ==> sar96(q * v) >= 0,
{
    let m = most * reach();
    assert(-m <= q * v <= m) by (nonlinear_arith)
        requires
            -most <= q <= most,
            -reach() <= v <= reach(),
            m == most * reach(),
    ;
    assert((-b) * UNIT_96 == -(b * UNIT_96));
    lemma_wrap(q * v);
    lemma_sar(q * v, -b, b);
    if (q <= 0 && v <= 0) || (q >= 0 && v >= 0) {
        assert(q * v >= 0) by (nonlinear_arith)
            requires
                (q <= 0 && v <= 0) || (q >= 0 && v >= 0),
        ;
        lemma_sar(q * v, 0, b);
    }
}

proof fn lemma_below(v: int)
    requires
        -reach() <= v <= reach(),
    ensures
        20_994_396_539_933_045_544_433_771_338_093_753 <= below(v),
        v <= 0 ==> below(v) >= 26_449_188_498_355_588_339_934_803_723_976_023,
        fits(below(v)),
{
    let q0 = v - 2_855_989_394_907_223_263_936_484_059_900;
    lemma_wrap(q0);
    lemma_product(
        q0,
        v,
        2_883_447_783_641_077_000_612_054_795_465,
        999_326_850_761_317_858_268_219_548_819,
    );
    let q1 = sar96(q0 * v) + 50_020_603_652_535_783_019_961_831_881_945;
    lemma_wrap(q1);
    lemma_product(
        q1,
        v,
        51_019_930_503_297_100_878_230_051_430_764,
        17_682_160_490_362_368_474_017_529_026_186,
    );
    let q2 = sar96(q1 * v) - 533_845_033_583_426_703_283_633_433_725_380;
    lemma_wrap(q2);
    lemma_product(
        q2,
        v,
        551_527_194_073_789_071_757_650_962_751_566,
        191_144_759_787_192_336_170_649_530_040_396,
    );
    let q3 = sar96(q2 * v) + 3_604_857_256_930_695_427_073_651_918_091_429;
    lemma_wrap(q3);
    lemma_product(
        q3,
        v,
        3_796_002_016_717_887_763_244_301_448_131_825,
        1_315_594_047_643_935_141_224_415_001_924_724,
    );
    let q4 = sar96(q3 * v) - 14_423_608_567_350_463_180_887_372_962_807_573;
    lemma_wrap(q4);
    lemma_product(
        q4,
        v,
        15_739_202_614_994_398_322_111_787_964_732_297,
        5_454_791_958_422_542_795_501_032_385_882_270,
    );
    let q5 = sar96(q4 * v) + 26_449_188_498_355_588_339_934_803_723_976_023;
    lemma_wrap(q5);
}

proof fn lemma_above(v: int)
    requires
        -reach() <= v <= reach(),
    ensures
        0 < above(v) <= 418_190_378_359_522_878_669_843_241_374_779_900_000_000_000_000_000_000_000_000_000int,
        v <= 0 ==> above(v) <= 4_385_272_521_454_847_904_659_076_985_693_276int * UNIT_96,
{
    lemma_pow2_96();
    let y0 = v + 1_346_386_616_545_796_478_920_950_773_328;
    lemma_wrap(y0);
    lemma_product(
        y0,
        v,
        1_373_845_005_279_650_215_596_521_508_893,
        476_138_395_967_976_362_449_876_769_613,
    );
    let y = sar96(y0 * v) + 57_155_421_227_552_351_082_224_309_758_442;
    lemma_wrap(y);
    let t = y + v - 94_201_549_194_550_492_254_356_042_504_812;
    lemma_wrap(y + v);
    lemma_wrap(t);
    let lo = -27_314_140_984_713_053_128_949_120_975_371_626;
    let hi = -26_142_275_606_738_471_589_018_572_187_893_410;
    assert(lo * UNIT_96 <= t * y <= hi * UNIT_96) by (nonlinear_arith)
        requires
            -37_549_724_751_699_971_271_257_180_251_548 <= t
                <= -36_542_531_182_296_311_073_006_285_241_192,
            56_679_282_831_584_374_719_774_432_988_829 <= y
                <= 57_631_559_623_520_327_444_674_186_528_055,
            lo == -27_314_140_984_713_053_128_949_120_975_371_626,
            hi == -26_142_275_606_738_471_589_018_572_187_893_410,
    ;
    lemma_wrap(t * y);
    lemma_sar(t * y, lo, hi);
    let t2 = sar96(t * y) + 28_719_021_644_029_726_153_956_944_680_412_240;
    lemma_wrap(t2);
    let most = 2_576_746_037_291_254_564_938_372_492_518_830int;
    assert(0 < t2 <= most);
    assert(-(most * reach()) <= t2 * v <= most * reach()) by (nonlinear_arith)
        requires
            0 < t2 <= most,
            -reach() <= v <= reach(),
    ;
    lemma_wrap(t2 * v);
    let top = 4_385_272_521_454_847_904_659_076_985_693_276int * UNIT_96;
    lemma_wrap(top);
    lemma_wrap(t2 * v + top);
    if v <= 0 {
        assert(t2 * v <= 0) by (nonlinear_arith)
            requires
                t2 > 0,
                v <= 0,
        ;
    }
}

proof fn lemma_trunc(a: int, b: int)
    requires
        b > 0,
    ensures
        -b < a - trunc_div(a, b) * b < b,
        a <= 0 ==> a <= trunc_div(a, b) * b <= 0 && trunc_div(a, b) <= 0,
        a >= 0 ==> 0 <= trunc_div(a, b) * b <= a && trunc_div(a, b) >= 0,
{
    reveal(trunc_div);
    let m = magnitude(a);
    let q = m / b;
    vstd::arithmetic::div_mod::lemma_fundamental_div_mod(m, b);
    assert(q * b == b * q && (-q) * b == -(b * q)) by (nonlinear_arith);
    assert(q >= 0) by (nonlinear_arith)
        requires
            q == m / b,
            m >= 0,
            b > 0,
    ;
    assert(b * q >= 0) by (nonlinear_arith)
        requires
            b > 0,
            q >= 0,
    ;
}

/// The argument of the polynomials is close to zero, and the power of two that was split off is
/// at most one where `x` is not above zero.
proof fn lemma_reduced(x: int)
    requires
        -42_139_678_854_452_767_551 < x < 5_316_911_983_139_663_491_615_228_241_121_378_304,
    ensures
        ({
            let v0 = binary(x);
            let k = sar96(nearest(v0));
            let v = v0.wminus(k.wtimes(LN_2 as int));
            &&& fits(nearest(v0))
            &&& -reach() <= v <= reach()
            &&& -100 <= k <= 10_000_000_000_000_000_000
            &&& x <= 0 ==> k <= 0
            &&& x <= 0 && k == 0 ==> v <= 0
        }),
{
    lemma_pow2_96();
    let u = UNIT_96 as int;
    let l = LN_2 as int;
    let five = 3_814_697_265_625int;
    let a = x * 302_231_454_903_657_293_676_544;
    lemma_wrap(a);
    let v0 = trunc_div(a, five);
    lemma_trunc(a, five);
    assert(v0 == binary(x));
    // at most 2^122 * 2^78 / 5^18 above zero, at most 43 below it
    let top = 421_249_166_674_228_746_791_672_110_734_681_729_275_580_381_602int;
    assert(-4_000_000_000_000_000_000_000_000_000_000 <= v0 <= top);
    assert(fits(v0 * u));
    lemma_wrap(v0 * u);
    let t = trunc_div(v0 * u, l);
    lemma_trunc(v0 * u, l);
    let h = 39_614_081_257_132_168_796_771_975_168int;
    let n = t + h;
    assert(n == nearest(v0));
    reveal(sar96);
    let k = n / u;
    vstd::arithmetic::div_mod::lemma_fundamental_div_mod(n, u);
    assert(k * u <= n < k * u + u) by {
        assert(u * k == k * u) by (nonlinear_arith);
    }
    let w = v0 - k * l;
    // w * u == (t - k * u) * l + rest
    let rest = v0 * u - t * l;
    let f = t - k * u;
    assert(w * u == f * l + rest) by (nonlinear_arith)
        requires
            w == v0 - k * l,
            rest == v0 * u - t * l,
            f == t - k * u,
    ;
    assert(-h <= f <= h);
    assert(w <= reach() && w >= -reach());
    // the multiple itself
    assert(-100 <= k <= 10_000_000_000_000_000_000) by {
        assert(k * l == v0 - w);
    }
    assert(fits(k * l));
    lemma_wrap(k * l);
    lemma_wrap(w);
    if x <= 0 {
        assert(v0 <= 0);
        assert(t <= 0);
        assert(k <= 0);
    }
}

/// The exponential of a number up to 2^122 is defined; from the threshold below zero down it is zero,
/// and not above zero it is at most one.
pub proof fn law_wad_exp(x: I256)
    requires
        x@ < 5_316_911_983_139_663_491_615_228_241_121_378_304,
    ensures
        wad_exp_model(x@) is Ok,
        x@ <= -42_139_678_854_452_767_551 ==> wad_exp_model(x@) == Ok::<int, Fault>(0),
        x@ <= 0 ==> (wad_exp_model(x@) matches Ok(v) && 0 <= v <= WAD),
{
    lemma_wad_exp(x@);
}

/// What [`law_wad_exp`] says, of a number.
pub proof fn lemma_wad_exp(x: int)
    requires
        x < 5_316_911_983_139_663_491_615_228_241_121_378_304,
    ensures
        wad_exp_model(x) is Ok,
        x <= -42_139_678_854_452_767_551 ==> wad_exp_model(x) == Ok::<int, Fault>(0),
        x <= 0 ==> (wad_exp_model(x) matches Ok(v) && 0 <= v <= WAD),
{
    if x > -42_139_678_854_452_767_551 {
        let v0 = binary(x);
        let k = sar96(nearest(v0));
        let v = v0.wminus(k.wtimes(LN_2 as int));
        lemma_reduced(x);
        lemma_below(v);
        lemma_above(v);
        let p = above(v);
        let q = below(v);
        let r = trunc_div(p, q);
        lemma_trunc(p, q);
        assert(0 <= r <= p) by (nonlinear_arith)
            requires
                0 <= r * q <= p,
                q >= 1,
                r >= 0,
        ;
        if x <= 0 {
            lemma_scaled(r, k, p, q, v);
        }
    }
}

proof fn lemma_scaled(r: int, k: int, p: int, q: int, v: int)
    requires
        -100 <= k <= 0,
        k == 0 ==> v <= 0,
        0 <= r,
        r * q <= p,
        20_994_396_539_933_045_544_433_771_338_093_753 <= q,
        p <= 418_190_378_359_522_878_669_843_241_374_779_900_000_000_000_000_000_000_000_000_000int,
        v <= 0 ==> q >= 26_449_188_498_355_588_339_934_803_723_976_023,
        v <= 0 ==> p <= 4_385_272_521_454_847_904_659_076_985_693_276int * UNIT_96,
    ensures
        0 <= scaled(r, k) <= WAD,
{
    let s = 3_822_833_074_963_236_453_042_738_258_902_158_003_155_416_615_667int;
    let most = 19_919_142_594_267_515_631_939_600_000int;
    assert(r <= most) by (nonlinear_arith)
        requires
            0 <= r,
            r * q <= p,
            20_994_396_539_933_045_544_433_771_338_093_753 <= q,
            p
                <= 418_190_378_359_522_878_669_843_241_374_779_900_000_000_000_000_000_000_000_000_000int,
            most == 19_919_142_594_267_515_631_939_600_000int,
    ;
    vstd::arithmetic::div_mod::lemma_small_mod(r as nat, modulus() as nat);
    assert(0 <= r * s <= most * s) by (nonlinear_arith)
        requires
            0 <= r <= most,
            s > 0,
    ;
    lemma_times(r, s);
    let shift = 195 - k;
    vstd::arithmetic::div_mod::lemma_small_mod(shift as nat, 0x1_0000000000000000nat);
    let d = pow2(shift as nat) as int;
    lemma_over(r * s, d);
    let unit = 50_216_813_883_093_446_110_686_315_385_661_331_328_818_843_555_712_276_103_168int;
    assert(pow2(195) == unit) by {
        vstd::arithmetic::power2::lemma2_to64();
        vstd::arithmetic::power2::lemma_pow2_adds(64, 64);
        vstd::arithmetic::power2::lemma_pow2_adds(128, 64);
        vstd::arithmetic::power2::lemma_pow2_adds(192, 3);
    }
    if k == 0 {
        let even = 13_136_020_563_381_876_887_077_985_852int;
        assert(r <= even) by (nonlinear_arith)
            requires
                0 <= r,
                r * q <= p,
                q >= 26_449_188_498_355_588_339_934_803_723_976_023,
                p <= 4_385_272_521_454_847_904_659_076_985_693_276int
                    * 79_228_162_514_264_337_593_543_950_336,
                even == 13_136_020_563_381_876_887_077_985_852int,
        ;
        assert(r * s <= even * s) by (nonlinear_arith)
            requires
                0 <= r <= even,
                s > 0,
        ;
        assert(0 <= (r * s) / d <= WAD) by (nonlinear_arith)
            requires
                0 <= r * s <= even * s,
                even * s < (WAD + 1) * unit,
                d == unit,
                unit > 0,
        ;
    } else {
        vstd::arithmetic::power2::lemma_pow2_adds(195, 1);
        vstd::arithmetic::power2::lemma2_to64();
        if shift > 196 {
            vstd::arithmetic::power2::lemma_pow2_strictly_increases(196, shift as nat);
        }
        assert(0 <= (r * s) / d <= WAD) by (nonlinear_arith)
            requires
                0 <= r * s <= most * s,
                most * s < WAD * (2 * unit),
                d >= 2 * unit,
                unit > 0,
        ;
    }
}

/// The weight of the old average is defined and at most one.
pub proof fn law_decay(dt: u64, ma_time: U256)
    requires
        ma_time@ != 0,
    ensures
        decay(dt as int, ma_time@) matches Ok(alpha) && 0 <= alpha <= WAD,
{
    lemma_word_range(ma_time);
    let w = WAD as int;
    let t = dt as int;
    assert(0 <= t * w <= 0xffff_ffff_ffff_ffff * 1_000_000_000_000_000_000) by (nonlinear_arith)
        requires
            0 <= t <= 0xffff_ffff_ffff_ffff,
            w == 1_000_000_000_000_000_000,
    ;
    lemma_times(t, w);
    lemma_over(t * w, ma_time@);
    let q = (t * w) / ma_time@;
    assert(0 <= q <= t * w) by (nonlinear_arith)
        requires
            q == (t * w) / ma_time@,
            0 <= t * w,
            ma_time@ > 0,
    ;
    lemma_wad_exp(-q);
}

} // verus!
