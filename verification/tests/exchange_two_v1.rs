//! Two-coin pools of the first generation.
use curve_math::exchange::{geometric_mean, halfpow, try_geometric_mean, TwoCryptoV1State};
use curve_math::fault::Fault;
use curve_math::solvers::twocrypto_ng::{try_newton_d, try_newton_y_2_ng, WAD};
use curve_math::uint::U256;

fn solve_d(ann: U256, gamma: U256, x: [U256; 2]) -> Option<U256> {
    match try_newton_d(ann, gamma, x, U256::zero()) {
        Ok(r) => r,
        Err(_) => None,
    }
}

fn solve_y(ann: U256, gamma: U256, x: [U256; 2], d: U256, i: usize, _variant: bool) -> Option<U256> {
    let lim_mul = U256::from(100u64) * U256::from(WAD);
    match try_newton_y_2_ng(ann, gamma, x, d, i, lim_mul) {
        Ok(r) => r,
        Err(_) => None,
    }
}

fn no_d(_ann: U256, _gamma: U256, _x: [U256; 2]) -> Option<U256> {
    None
}

fn no_y(_ann: U256, _gamma: U256, _x: [U256; 2], _d: U256, _i: usize, _variant: bool) -> Option<U256> {
    None
}

fn state() -> TwoCryptoV1State {
    TwoCryptoV1State {
        balances: [U256::from(10_000_000_000_000_000_000_000u128), U256::from(5_000_000_000_000_000_000_000u128)],
        price_scale: U256::from(2_000_000_000_000_000_000u64),
        price_oracle: U256::from(2_000_000_000_000_000_000u64),
        last_prices: U256::from(2_000_000_000_000_000_000u64),
        last_prices_timestamp: 1_000,
        d: U256::from(20_000_000_000_000_000_000_000u128),
        virtual_price: U256::from(1_000_000_000_000_000_000u64),
        xcp_profit: U256::from(1_000_000_000_000_000_000u64),
        xcp_profit_a: U256::from(1_000_000_000_000_000_000u64),
        admin_fee: U256::from(5_000_000_000u64),
        ann: U256::from(400_000u64),
        gamma: U256::from(145_000_000_000_000u64),
        mid_fee: U256::from(26_000_000u64),
        out_fee: U256::from(45_000_000u64),
        fee_gamma: U256::from(230_000_000_000_000u64),
        precisions: [U256::from(1u64), U256::from(1u64)],
        total_supply: U256::from(7_071_067_811_865_475_244_008u128),
        allowed_extra_profit: U256::from(2_000_000_000_000u64),
        adjustment_step: U256::from(146_000_000_000_000u64),
        ma_half_time: U256::from(600u64),
        not_adjusted: false,
        future_a_gamma_time: U256::from(0u64),
        eth_variant: true,
    }
}

#[test]
fn exchanges_move_the_price_scale_and_claim() {
    let mut s = state();
    let out = s.exchange(0, 1, U256::from(200_000_000_000_000_000_000u128), 2_000, &solve_d, &solve_y).unwrap();
    assert_eq!(out.dy, U256::from(99_027_050_139_378_344_626u128));
    assert_eq!(out.fee, U256::from(378_104_493_988_939_306u64));
    assert_eq!(s.balances, [U256::from(10_200_000_000_000_000_000_000u128), U256::from(4_900_972_949_860_621_655_374u128)]);
    assert_eq!(s.price_scale, U256::from(2_000_000_000_000_000_000u64));
    assert_eq!(s.price_oracle, U256::from(2_000_000_000_000_000_000u64));
    assert_eq!(s.last_prices, U256::from(2_019_650_183_646_836_906u64));
    assert_eq!(s.last_prices_timestamp, 2_000);
    assert_eq!(s.d, U256::from(20_000_763_795_627_429_924_376u128));
    assert_eq!(s.virtual_price, U256::from(1_000_038_189_781_371_496u64));
    assert_eq!(s.xcp_profit, U256::from(1_000_038_189_781_371_496u64));
    assert_eq!(s.xcp_profit_a, U256::from(1_000_000_000_000_000_000u64));
    assert_eq!(s.total_supply, U256::from(7_071_067_811_865_475_244_008u128));
    assert!(!s.not_adjusted);
    assert_eq!(s.future_a_gamma_time, U256::from(0u64));
    let out = s.exchange(1, 0, U256::from(100_000_000_000_000_000_000u128), 5_000, &solve_d, &solve_y).unwrap();
    assert_eq!(out.dy, U256::from(200_658_978_363_542_140_591u128));
    assert_eq!(out.fee, U256::from(523_114_079_133_630_425u64));
    assert_eq!(s.balances, [U256::from(9_999_341_021_636_457_859_409u128), U256::from(5_000_972_949_860_621_655_374u128)]);
    assert_eq!(s.price_scale, U256::from(2_003_807_223_081_574_650u64));
    assert_eq!(s.price_oracle, U256::from(2_019_036_115_407_873_252u64));
    assert_eq!(s.last_prices, U256::from(2_006_589_783_635_421_405u64));
    assert_eq!(s.last_prices_timestamp, 5_000);
    assert_eq!(s.d, U256::from(20_020_326_175_671_890_017_892u128));
    assert_eq!(s.virtual_price, U256::from(1_000_064_893_812_750_049u64));
    assert_eq!(s.xcp_profit, U256::from(1_000_064_345_663_933_084u64));
    assert_eq!(s.xcp_profit_a, U256::from(1_000_000_000_000_000_000u64));
    assert_eq!(s.total_supply, U256::from(7_071_067_811_865_475_244_008u128));
    assert!(s.not_adjusted);
    assert_eq!(s.future_a_gamma_time, U256::from(0u64));
    let out = s.exchange(0, 1, U256::from(200_000_000_000_000_000_000u128), 8_000, &solve_d, &solve_y).unwrap();
    assert_eq!(out.dy, U256::from(98_945_143_609_116_319_391u128));
    assert_eq!(out.fee, U256::from(372_772_417_169_358_692u64));
    assert_eq!(s.balances, [U256::from(10_199_341_021_636_457_859_409u128), U256::from(4_902_027_806_251_505_335_983u128)]);
    assert_eq!(s.price_scale, U256::from(2_004_441_524_765_921_824u64));
    assert_eq!(s.price_oracle, U256::from(2_006_978_731_503_310_525u64));
    assert_eq!(s.last_prices, U256::from(2_021_322_044_769_592_740u64));
    assert_eq!(s.last_prices_timestamp, 8_000);
    assert_eq!(s.d, U256::from(20_024_216_482_592_555_066_328u128));
    assert_eq!(s.virtual_price, U256::from(1_000_100_946_700_615_102u64));
    assert_eq!(s.xcp_profit, U256::from(1_000_101_990_147_165_670u64));
    assert_eq!(s.xcp_profit_a, U256::from(1_000_000_000_000_000_000u64));
    assert_eq!(s.total_supply, U256::from(7_071_067_811_865_475_244_008u128));
    assert!(s.not_adjusted);
    assert_eq!(s.future_a_gamma_time, U256::from(0u64));
    let out = s.exchange(1, 0, U256::from(100_000_000_000_000_000_000u128), 11_000, &solve_d, &solve_y).unwrap();
    assert_eq!(out.dy, U256::from(200_868_874_069_647_330_328u128));
    assert_eq!(out.fee, U256::from(526_929_765_801_225_411u64));
    assert_eq!(s.balances, [U256::from(9_998_472_147_566_810_529_081u128), U256::from(5_002_027_806_251_505_335_983u128)]);
    assert_eq!(s.price_scale, U256::from(2_007_727_983_058_741_743u64));
    assert_eq!(s.price_oracle, U256::from(2_020_873_816_230_021_420u64));
    assert_eq!(s.last_prices, U256::from(2_008_688_740_696_473_303u64));
    assert_eq!(s.last_prices_timestamp, 11_000);
    assert_eq!(s.d, U256::from(20_041_180_878_004_655_987_027u128));
    assert_eq!(s.virtual_price, U256::from(1_000_128_662_506_600_615u64));
    assert_eq!(s.xcp_profit, U256::from(1_000_128_309_301_386_292u64));
    assert_eq!(s.xcp_profit_a, U256::from(1_000_000_000_000_000_000u64));
    assert_eq!(s.total_supply, U256::from(7_071_067_811_865_475_244_008u128));
    assert!(s.not_adjusted);
    assert_eq!(s.future_a_gamma_time, U256::from(0u64));
    let out = s.exchange(0, 1, U256::from(200_000_000_000_000_000_000u128), 14_000, &solve_d, &solve_y).unwrap();
    assert_eq!(out.dy, U256::from(98_851_084_156_385_916_041u128));
    assert_eq!(out.fee, U256::from(366_730_583_466_072_973u64));
    assert_eq!(s.balances, [U256::from(10_198_472_147_566_810_529_081u128), U256::from(4_903_176_722_095_119_419_942u128)]);
    assert_eq!(s.price_scale, U256::from(2_008_021_111_344_268_319u64));
    assert_eq!(s.price_oracle, U256::from(2_009_069_524_306_896_681u64));
    assert_eq!(s.last_prices, U256::from(2_023_245_386_804_184_330u64));
    assert_eq!(s.last_prices_timestamp, 14_000);
    assert_eq!(s.d, U256::from(20_043_371_185_107_311_181_352u128));
    assert_eq!(s.virtual_price, U256::from(1_000_164_957_512_576_714u64));
    assert_eq!(s.xcp_profit, U256::from(1_000_165_337_648_906_915u64));
    assert_eq!(s.xcp_profit_a, U256::from(1_000_000_000_000_000_000u64));
    assert_eq!(s.total_supply, U256::from(7_071_067_811_865_475_244_008u128));
    assert!(s.not_adjusted);
    assert_eq!(s.future_a_gamma_time, U256::from(0u64));
    let out = s.exchange(1, 0, U256::from(100_000_000_000_000_000_000u128), 17_000, &solve_d, &solve_y).unwrap();
    assert_eq!(out.dy, U256::from(201_048_250_845_441_595_358u128));
    assert_eq!(out.fee, U256::from(534_045_042_063_789_485u64));
    assert_eq!(s.balances, [U256::from(9_997_423_896_721_368_933_723u128), U256::from(5_003_176_722_095_119_419_942u128)]);
    assert_eq!(s.price_scale, U256::from(2_010_977_367_295_643_473u64));
    assert_eq!(s.price_oracle, U256::from(2_022_802_391_101_144_090u64));
    assert_eq!(s.last_prices, U256::from(2_010_482_508_454_415_953u64));
    assert_eq!(s.last_prices_timestamp, 17_000);
    assert_eq!(s.d, U256::from(20_058_693_584_435_130_217_205u128));
    assert_eq!(s.virtual_price, U256::from(1_000_193_562_330_506_225u64));
    assert_eq!(s.xcp_profit, U256::from(1_000_191_990_135_751_613u64));
    assert_eq!(s.xcp_profit_a, U256::from(1_000_000_000_000_000_000u64));
    assert_eq!(s.total_supply, U256::from(7_071_067_811_865_475_244_008u128));
    assert!(s.not_adjusted);
    assert_eq!(s.future_a_gamma_time, U256::from(0u64));
    let out = s.exchange(0, 1, U256::from(200_000_000_000_000_000_000u128), 20_000, &solve_d, &solve_y).unwrap();
    assert_eq!(out.dy, U256::from(98_768_273_281_872_656_171u128));
    assert_eq!(out.fee, U256::from(361_097_010_746_748_139u64));
    assert_eq!(s.balances, [U256::from(10_197_423_896_721_368_933_723u128), U256::from(4_904_408_448_813_246_763_771u128)]);
    assert_eq!(s.price_scale, U256::from(2_010_977_367_295_643_473u64));
    assert_eq!(s.price_oracle, U256::from(2_010_867_504_787_126_207u64));
    assert_eq!(s.last_prices, U256::from(2_024_941_748_543_323_125u64));
    assert_eq!(s.last_prices_timestamp, 20_000);
    assert_eq!(s.d, U256::from(20_059_424_671_421_398_864_910u128));
    assert_eq!(s.virtual_price, U256::from(1_000_172_905_642_965_991u64));
    assert_eq!(s.xcp_profit, U256::from(1_000_114_222_260_605_991u64));
    assert_eq!(s.xcp_profit_a, U256::from(1_000_114_222_260_605_991u64));
    assert_eq!(s.total_supply, U256::from(7_071_471_578_727_091_181_886u128));
    assert!(!s.not_adjusted);
    assert_eq!(s.future_a_gamma_time, U256::from(0u64));
    let out = s.exchange(1, 0, U256::from(100_000_000_000_000_000_000u128), 23_000, &solve_d, &solve_y).unwrap();
    assert_eq!(out.dy, U256::from(201_202_227_065_834_473_624u128));
    assert_eq!(out.fee, U256::from(542_814_988_231_122_633u64));
    assert_eq!(s.balances, [U256::from(9_996_221_669_655_534_460_099u128), U256::from(5_004_408_448_813_246_763_771u128)]);
    assert_eq!(s.price_scale, U256::from(2_013_682_279_521_703_172u64));
    assert_eq!(s.price_oracle, U256::from(2_024_501_928_425_941_971u64));
    assert_eq!(s.last_prices, U256::from(2_012_022_270_658_344_736u64));
    assert_eq!(s.last_prices_timestamp, 23_000);
    assert_eq!(s.d, U256::from(20_073_500_847_629_911_774_802u128));
    assert_eq!(s.virtual_price, U256::from(1_000_202_304_074_422_350u64));
    assert_eq!(s.xcp_profit, U256::from(1_000_141_291_350_862_273u64));
    assert_eq!(s.xcp_profit_a, U256::from(1_000_114_222_260_605_991u64));
    assert_eq!(s.total_supply, U256::from(7_071_471_578_727_091_181_886u128));
    assert!(s.not_adjusted);
    assert_eq!(s.future_a_gamma_time, U256::from(0u64));
    let out = s.exchange(0, 1, U256::from(200_000_000_000_000_000_000u128), 26_000, &solve_d, &solve_y).unwrap();
    assert_eq!(out.dy, U256::from(98_696_613_969_596_443_976u128));
    assert_eq!(out.fee, U256::from(355_850_942_726_010_525u64));
    assert_eq!(s.balances, [U256::from(10_196_221_669_655_534_460_099u128), U256::from(4_905_711_834_843_650_319_795u128)]);
    assert_eq!(s.price_scale, U256::from(2_013_388_281_908_893_003u64));
    assert_eq!(s.price_oracle, U256::from(2_012_412_259_963_582_149u64));
    assert_eq!(s.last_prices, U256::from(2_026_411_970_542_476_055u64));
    assert_eq!(s.last_prices_timestamp, 26_000);
    assert_eq!(s.d, U256::from(20_072_770_781_719_222_709_488u128));
    assert_eq!(s.virtual_price, U256::from(1_000_238_947_189_590_686u64));
    assert_eq!(s.xcp_profit, U256::from(1_000_177_207_510_197_327u64));
    assert_eq!(s.xcp_profit_a, U256::from(1_000_114_222_260_605_991u64));
    assert_eq!(s.total_supply, U256::from(7_071_471_578_727_091_181_886u128));
    assert!(s.not_adjusted);
    assert_eq!(s.future_a_gamma_time, U256::from(0u64));
}

#[test]
fn same_time_leaves_the_average() {
    let mut s = state();
    let out = s.exchange(0, 1, U256::from(100_000_000_000_000_000_000u128), 1_000, &solve_d, &solve_y).unwrap();
    assert_eq!(out.dy, U256::from(49_784_121_454_421_318_325u128));
    assert_eq!(out.fee, U256::from(158_582_723_972_996_637u64));
    assert_eq!(s.balances, [U256::from(10_100_000_000_000_000_000_000u128), U256::from(4_950_215_878_545_578_681_675u128)]);
    assert_eq!(s.price_scale, U256::from(2_000_000_000_000_000_000u64));
    assert_eq!(s.price_oracle, U256::from(2_000_000_000_000_000_000u64));
    assert_eq!(s.last_prices, U256::from(2_008_672_586_329_612_111u64));
    assert_eq!(s.last_prices_timestamp, 1_000);
    assert_eq!(s.d, U256::from(20_000_317_756_390_906_767_376u128));
    assert_eq!(s.virtual_price, U256::from(1_000_015_887_819_545_338u64));
    assert_eq!(s.xcp_profit, U256::from(1_000_015_887_819_545_338u64));
    assert_eq!(s.xcp_profit_a, U256::from(1_000_000_000_000_000_000u64));
    assert_eq!(s.total_supply, U256::from(7_071_067_811_865_475_244_008u128));
    assert!(!s.not_adjusted);
    assert_eq!(s.future_a_gamma_time, U256::from(0u64));
    let out = s.exchange(1, 0, U256::from(50_000u64), 1_000, &solve_d, &solve_y).unwrap();
    assert_eq!(out.dy, U256::from(94_561u64));
    assert_eq!(out.fee, U256::from(301u64));
    assert_eq!(s.balances, [U256::from(10_099_999_999_999_999_905_439u128), U256::from(4_950_215_878_545_578_731_675u128)]);
    assert_eq!(s.price_scale, U256::from(2_000_000_000_000_000_000u64));
    assert_eq!(s.price_oracle, U256::from(2_000_000_000_000_000_000u64));
    assert_eq!(s.last_prices, U256::from(2_007_401_219_127_604_371u64));
    assert_eq!(s.last_prices_timestamp, 1_000);
    assert_eq!(s.d, U256::from(20_000_317_756_390_906_773_157u128));
    assert_eq!(s.virtual_price, U256::from(1_000_015_887_819_545_338u64));
    assert_eq!(s.xcp_profit, U256::from(1_000_015_887_819_545_338u64));
    assert_eq!(s.xcp_profit_a, U256::from(1_000_000_000_000_000_000u64));
    assert_eq!(s.total_supply, U256::from(7_071_067_811_865_475_244_008u128));
    assert!(!s.not_adjusted);
    assert_eq!(s.future_a_gamma_time, U256::from(0u64));
}

#[test]
fn refused_requests_change_nothing() {
    let mut s = state();
    assert!(s.exchange(0, 0, U256::from(5u64), 9_000, &solve_d, &solve_y).is_none());
    assert!(s.exchange(1, 1, U256::from(5u64), 9_000, &solve_d, &solve_y).is_none());
    assert!(s.exchange(0, 2, U256::from(5u64), 9_000, &solve_d, &solve_y).is_none());
    assert!(s.exchange(2, 0, U256::from(5u64), 9_000, &solve_d, &solve_y).is_none());
    assert!(s.exchange(0, 1, U256::from(0u64), 9_000, &solve_d, &solve_y).is_none());
    assert!(s.exchange(7, 9, U256::from(1u64), 9_000, &solve_d, &solve_y).is_none());
    assert_eq!(s.balances, [U256::from(10_000_000_000_000_000_000_000u128), U256::from(5_000_000_000_000_000_000_000u128)]);
    assert_eq!(s.price_scale, U256::from(2_000_000_000_000_000_000u64));
    assert_eq!(s.price_oracle, U256::from(2_000_000_000_000_000_000u64));
    assert_eq!(s.last_prices, U256::from(2_000_000_000_000_000_000u64));
    assert_eq!(s.last_prices_timestamp, 1_000);
    assert_eq!(s.d, U256::from(20_000_000_000_000_000_000_000u128));
    assert_eq!(s.virtual_price, U256::from(1_000_000_000_000_000_000u64));
    assert_eq!(s.xcp_profit, U256::from(1_000_000_000_000_000_000u64));
    assert_eq!(s.xcp_profit_a, U256::from(1_000_000_000_000_000_000u64));
    assert_eq!(s.total_supply, U256::from(7_071_067_811_865_475_244_008u128));
    assert!(!s.not_adjusted);
    assert_eq!(s.future_a_gamma_time, U256::from(0u64));
}

#[test]
fn without_an_answer_what_came_in_stays() {
    let mut s = state();
    assert!(s.exchange(0, 1, U256::from(7_000_000_000_000_000_000u64), 9_000, &solve_d, &no_y).is_none());
    assert_eq!(s.balances, [U256::from(10_007_000_000_000_000_000_000u128), U256::from(5_000_000_000_000_000_000_000u128)]);
    assert_eq!(s.price_scale, U256::from(2_000_000_000_000_000_000u64));
    assert_eq!(s.price_oracle, U256::from(2_000_000_000_000_000_000u64));
    assert_eq!(s.last_prices, U256::from(2_000_000_000_000_000_000u64));
    assert_eq!(s.last_prices_timestamp, 1_000);
    assert_eq!(s.d, U256::from(20_000_000_000_000_000_000_000u128));
    assert_eq!(s.virtual_price, U256::from(1_000_000_000_000_000_000u64));
    assert_eq!(s.xcp_profit, U256::from(1_000_000_000_000_000_000u64));
    assert_eq!(s.xcp_profit_a, U256::from(1_000_000_000_000_000_000u64));
    assert_eq!(s.total_supply, U256::from(7_071_067_811_865_475_244_008u128));
    assert!(!s.not_adjusted);
    assert_eq!(s.future_a_gamma_time, U256::from(0u64));
}

#[test]
fn without_an_invariant_in_a_ramp_what_came_in_stays() {
    let mut s = state();
    s.future_a_gamma_time = U256::from(5_000u64);
    assert!(s.exchange(1, 0, U256::from(7_000_000_000_000_000_000u64), 4_000, &no_d, &solve_y).is_none());
    assert_eq!(s.balances, [U256::from(10_000_000_000_000_000_000_000u128), U256::from(5_007_000_000_000_000_000_000u128)]);
    assert_eq!(s.price_scale, U256::from(2_000_000_000_000_000_000u64));
    assert_eq!(s.price_oracle, U256::from(2_000_000_000_000_000_000u64));
    assert_eq!(s.last_prices, U256::from(2_000_000_000_000_000_000u64));
    assert_eq!(s.last_prices_timestamp, 1_000);
    assert_eq!(s.d, U256::from(20_000_000_000_000_000_000_000u128));
    assert_eq!(s.virtual_price, U256::from(1_000_000_000_000_000_000u64));
    assert_eq!(s.xcp_profit, U256::from(1_000_000_000_000_000_000u64));
    assert_eq!(s.xcp_profit_a, U256::from(1_000_000_000_000_000_000u64));
    assert_eq!(s.total_supply, U256::from(7_071_067_811_865_475_244_008u128));
    assert!(!s.not_adjusted);
    assert_eq!(s.future_a_gamma_time, U256::from(5_000u64));
}

#[test]
fn ramp_solves_for_the_invariant_and_ends() {
    let mut s = state();
    s.future_a_gamma_time = U256::from(5_000u64);
    let out = s.exchange(1, 0, U256::from(70_000_000_000_000_000_000u128), 4_000, &solve_d, &solve_y).unwrap();
    assert_eq!(out.dy, U256::from(139_160_679_843_084_519_234u128));
    assert_eq!(out.fee, U256::from(484_984_700_866_814_304u64));
    assert_eq!(s.balances, [U256::from(9_860_839_320_156_915_480_766u128), U256::from(5_070_000_000_000_000_000_000u128)]);
    assert_eq!(s.price_scale, U256::from(2_000_000_000_000_000_000u64));
    assert_eq!(s.price_oracle, U256::from(2_000_000_000_000_000_000u64));
    assert_eq!(s.last_prices, U256::from(1_988_009_712_044_064_560u64));
    assert_eq!(s.last_prices_timestamp, 4_000);
    assert_eq!(s.d, U256::from(20_000_487_117_473_199_587_386u128));
    assert_eq!(s.virtual_price, U256::from(1_000_024_355_873_659_979u64));
    assert_eq!(s.xcp_profit, U256::from(1_000_024_355_873_659_979u64));
    assert_eq!(s.xcp_profit_a, U256::from(1_000_000_000_000_000_000u64));
    assert_eq!(s.total_supply, U256::from(7_071_067_811_865_475_244_008u128));
    assert!(!s.not_adjusted);
    assert_eq!(s.future_a_gamma_time, U256::from(5_000u64));
    let out = s.exchange(0, 1, U256::from(30_000_000_000_000_000_000u128), 6_000, &solve_d, &solve_y).unwrap();
    assert_eq!(out.dy, U256::from(15_049_779_764_155_349_493u64));
    assert_eq!(out.fee, U256::from(49_085_024_863_198_145u64));
    assert_eq!(s.balances, [U256::from(9_890_839_320_156_915_480_766u128), U256::from(5_054_950_220_235_844_650_507u128)]);
    assert_eq!(s.price_scale, U256::from(1_997_839_859_857_716_950u64));
    assert_eq!(s.price_oracle, U256::from(1_989_199_299_288_584_744u64));
    assert_eq!(s.last_prices, U256::from(1_993_384_652_143_028_443u64));
    assert_eq!(s.last_prices_timestamp, 6_000);
    assert_eq!(s.d, U256::from(19_989_689_485_061_129_821_557u128));
    assert_eq!(s.virtual_price, U256::from(1_000_024_668_511_807_330u64));
    assert_eq!(s.xcp_profit, U256::from(1_000_029_252_971_898_628u64));
    assert_eq!(s.xcp_profit_a, U256::from(1_000_000_000_000_000_000u64));
    assert_eq!(s.total_supply, U256::from(7_071_067_811_865_475_244_008u128));
    assert!(s.not_adjusted);
    assert_eq!(s.future_a_gamma_time, U256::from(0u64));
}

#[test]
fn a_loss_keeps_the_old_values() {
    let mut s = state();
    s.virtual_price = U256::from(2_000_000_000_000_000_000u64);
    let out = s.exchange(0, 1, U256::from(100_000_000_000_000_000_000u128), 3_000, &solve_d, &solve_y).unwrap();
    assert_eq!(out.dy, U256::from(49_784_121_454_421_318_325u128));
    assert_eq!(out.fee, U256::from(158_582_723_972_996_637u64));
    assert_eq!(s.balances, [U256::from(10_100_000_000_000_000_000_000u128), U256::from(4_950_215_878_545_578_681_675u128)]);
    assert_eq!(s.price_scale, U256::from(2_000_000_000_000_000_000u64));
    assert_eq!(s.price_oracle, U256::from(2_000_000_000_000_000_000u64));
    assert_eq!(s.last_prices, U256::from(2_008_672_586_329_612_111u64));
    assert_eq!(s.last_prices_timestamp, 3_000);
    assert_eq!(s.d, U256::from(20_000_000_000_000_000_000_000u128));
    assert_eq!(s.virtual_price, U256::from(2_000_000_000_000_000_000u64));
    assert_eq!(s.xcp_profit, U256::from(1_000_000_000_000_000_000u64));
    assert_eq!(s.xcp_profit_a, U256::from(1_000_000_000_000_000_000u64));
    assert_eq!(s.total_supply, U256::from(7_071_067_811_865_475_244_008u128));
    assert!(!s.not_adjusted);
    assert_eq!(s.future_a_gamma_time, U256::from(0u64));
}

#[test]
fn the_first_virtual_price_is_one() {
    let mut s = state();
    s.virtual_price = U256::from(0u64);
    let out = s.exchange(0, 1, U256::from(100_000_000_000_000_000_000u128), 3_000, &solve_d, &solve_y).unwrap();
    assert_eq!(out.dy, U256::from(49_784_121_454_421_318_325u128));
    assert_eq!(out.fee, U256::from(158_582_723_972_996_637u64));
    assert_eq!(s.balances, [U256::from(10_100_000_000_000_000_000_000u128), U256::from(4_950_215_878_545_578_681_675u128)]);
    assert_eq!(s.price_scale, U256::from(2_000_000_000_000_000_000u64));
    assert_eq!(s.price_oracle, U256::from(2_000_000_000_000_000_000u64));
    assert_eq!(s.last_prices, U256::from(2_008_672_586_329_612_111u64));
    assert_eq!(s.last_prices_timestamp, 3_000);
    assert_eq!(s.d, U256::from(20_000_317_756_390_906_767_376u128));
    assert_eq!(s.virtual_price, U256::from(1_000_000_000_000_000_000u64));
    assert_eq!(s.xcp_profit, U256::from(1_000_000_000_000_000_000u64));
    assert_eq!(s.xcp_profit_a, U256::from(1_000_000_000_000_000_000u64));
    assert_eq!(s.total_supply, U256::from(7_071_067_811_865_475_244_008u128));
    assert!(!s.not_adjusted);
    assert_eq!(s.future_a_gamma_time, U256::from(0u64));
}

#[test]
fn a_moving_average_without_half_life_is_a_fault() {
    let mut s = state();
    s.ma_half_time = U256::from(0u64);
    assert_eq!(s.try_exchange(0, 1, U256::from(100_000_000_000_000_000_000u128), 3_000, &solve_d, &solve_y).err(), Some(Fault));
    assert_eq!(s.balances, [U256::from(10_000_000_000_000_000_000_000u128), U256::from(5_000_000_000_000_000_000_000u128)]);
    assert_eq!(s.price_scale, U256::from(2_000_000_000_000_000_000u64));
    assert_eq!(s.price_oracle, U256::from(2_000_000_000_000_000_000u64));
    assert_eq!(s.last_prices, U256::from(2_000_000_000_000_000_000u64));
    assert_eq!(s.last_prices_timestamp, 1_000);
    assert_eq!(s.d, U256::from(20_000_000_000_000_000_000_000u128));
    assert_eq!(s.virtual_price, U256::from(1_000_000_000_000_000_000u64));
    assert_eq!(s.xcp_profit, U256::from(1_000_000_000_000_000_000u64));
    assert_eq!(s.xcp_profit_a, U256::from(1_000_000_000_000_000_000u64));
    assert_eq!(s.total_supply, U256::from(7_071_067_811_865_475_244_008u128));
    assert!(!s.not_adjusted);
    assert_eq!(s.future_a_gamma_time, U256::from(0u64));
}

#[test]
fn a_pool_without_tokens_is_a_fault() {
    let mut s = state();
    s.total_supply = U256::from(0u64);
    assert_eq!(s.try_exchange(0, 1, U256::from(100_000_000_000_000_000_000u128), 3_000, &solve_d, &solve_y).err(), Some(Fault));
    assert_eq!(s.balances, [U256::from(10_000_000_000_000_000_000_000u128), U256::from(5_000_000_000_000_000_000_000u128)]);
    assert_eq!(s.price_scale, U256::from(2_000_000_000_000_000_000u64));
    assert_eq!(s.price_oracle, U256::from(2_000_000_000_000_000_000u64));
    assert_eq!(s.last_prices, U256::from(2_000_000_000_000_000_000u64));
    assert_eq!(s.last_prices_timestamp, 1_000);
    assert_eq!(s.d, U256::from(20_000_000_000_000_000_000_000u128));
    assert_eq!(s.virtual_price, U256::from(1_000_000_000_000_000_000u64));
    assert_eq!(s.xcp_profit, U256::from(1_000_000_000_000_000_000u64));
    assert_eq!(s.xcp_profit_a, U256::from(1_000_000_000_000_000_000u64));
    assert_eq!(s.total_supply, U256::from(0u64));
    assert!(!s.not_adjusted);
    assert_eq!(s.future_a_gamma_time, U256::from(0u64));
}

#[test]
fn a_coin_without_precision_is_a_fault() {
    let mut s = state();
    s.precisions = [U256::from(1u64), U256::from(0u64)];
    assert_eq!(s.try_exchange(0, 1, U256::from(100_000_000_000_000_000_000u128), 3_000, &solve_d, &solve_y).err(), Some(Fault));
    assert_eq!(s.balances, [U256::from(10_000_000_000_000_000_000_000u128), U256::from(5_000_000_000_000_000_000_000u128)]);
    assert_eq!(s.price_scale, U256::from(2_000_000_000_000_000_000u64));
    assert_eq!(s.price_oracle, U256::from(2_000_000_000_000_000_000u64));
    assert_eq!(s.last_prices, U256::from(2_000_000_000_000_000_000u64));
    assert_eq!(s.last_prices_timestamp, 1_000);
    assert_eq!(s.d, U256::from(20_000_000_000_000_000_000_000u128));
    assert_eq!(s.virtual_price, U256::from(1_000_000_000_000_000_000u64));
    assert_eq!(s.xcp_profit, U256::from(1_000_000_000_000_000_000u64));
    assert_eq!(s.xcp_profit_a, U256::from(1_000_000_000_000_000_000u64));
    assert_eq!(s.total_supply, U256::from(7_071_067_811_865_475_244_008u128));
    assert!(!s.not_adjusted);
    assert_eq!(s.future_a_gamma_time, U256::from(0u64));
}

#[test]
fn liquidity_is_added() {
    let mut s = state();
    assert_eq!(s.apply_add_liquidity([U256::from(100_000_000_000_000_000_000u128), U256::from(70_000_000_000_000_000_000u128)], 2_500, &solve_d, &solve_y), Some(U256::from(20_239_998_025_129_210_381_289u128)));
    assert_eq!(s.balances, [U256::from(10_100_000_000_000_000_000_000u128), U256::from(5_070_000_000_000_000_000_000u128)]);
    assert_eq!(s.price_scale, U256::from(2_000_000_000_000_000_000u64));
    assert_eq!(s.price_oracle, U256::from(2_000_000_000_000_000_000u64));
    assert_eq!(s.last_prices, U256::from(1_999_586_511_633_527_502u64));
    assert_eq!(s.last_prices_timestamp, 2_500);
    assert_eq!(s.d, U256::from(20_239_998_025_129_210_381_289u128));
    assert_eq!(s.virtual_price, U256::from(1_011_999_901_256_460_519u64));
    assert_eq!(s.xcp_profit, U256::from(1_011_999_901_256_460_519u64));
    assert_eq!(s.xcp_profit_a, U256::from(1_000_000_000_000_000_000u64));
    assert_eq!(s.total_supply, U256::from(7_071_067_811_865_475_244_008u128));
    assert!(!s.not_adjusted);
    assert_eq!(s.future_a_gamma_time, U256::from(0u64));
}

#[test]
fn liquidity_without_an_invariant() {
    let mut s = state();
    assert!(s.apply_add_liquidity([U256::from(100_000_000_000_000_000_000u128), U256::from(70_000_000_000_000_000_000u128)], 2_500, &no_d, &solve_y).is_none());
    assert_eq!(s.balances, [U256::from(10_100_000_000_000_000_000_000u128), U256::from(5_070_000_000_000_000_000_000u128)]);
    assert_eq!(s.price_scale, U256::from(2_000_000_000_000_000_000u64));
    assert_eq!(s.price_oracle, U256::from(2_000_000_000_000_000_000u64));
    assert_eq!(s.last_prices, U256::from(2_000_000_000_000_000_000u64));
    assert_eq!(s.last_prices_timestamp, 1_000);
    assert_eq!(s.d, U256::from(20_000_000_000_000_000_000_000u128));
    assert_eq!(s.virtual_price, U256::from(1_000_000_000_000_000_000u64));
    assert_eq!(s.xcp_profit, U256::from(1_000_000_000_000_000_000u64));
    assert_eq!(s.xcp_profit_a, U256::from(1_000_000_000_000_000_000u64));
    assert_eq!(s.total_supply, U256::from(7_071_067_811_865_475_244_008u128));
    assert!(!s.not_adjusted);
    assert_eq!(s.future_a_gamma_time, U256::from(0u64));
}

#[test]
fn liquidity_is_removed_in_coin_0() {
    let mut s = state();
    assert_eq!(s.try_apply_remove_liquidity_one(0, U256::from(50_000_000_000_000_000_000u128), U256::from(60_000_000_000_000_000_000u128), 2_500, &solve_d, &solve_y).err(), Some(Fault));
    assert_eq!(s.balances, [U256::from(10_000_000_000_000_000_000_000u128), U256::from(5_000_000_000_000_000_000_000u128)]);
    assert_eq!(s.price_scale, U256::from(2_000_000_000_000_000_000u64));
    assert_eq!(s.price_oracle, U256::from(2_000_000_000_000_000_000u64));
    assert_eq!(s.last_prices, U256::from(2_000_000_000_000_000_000u64));
    assert_eq!(s.last_prices_timestamp, 1_000);
    assert_eq!(s.d, U256::from(20_000_000_000_000_000_000_000u128));
    assert_eq!(s.virtual_price, U256::from(1_000_000_000_000_000_000u64));
    assert_eq!(s.xcp_profit, U256::from(1_000_000_000_000_000_000u64));
    assert_eq!(s.xcp_profit_a, U256::from(1_000_000_000_000_000_000u64));
    assert_eq!(s.total_supply, U256::from(7_071_067_811_865_475_244_008u128));
    assert!(!s.not_adjusted);
    assert_eq!(s.future_a_gamma_time, U256::from(0u64));
}

#[test]
fn liquidity_is_removed_in_coin_1() {
    let mut s = state();
    assert_eq!(s.apply_remove_liquidity_one(1, U256::from(50_000_000_000_000_000_000u128), U256::from(30_000_000_000_000_000_000u128), 2_500, &solve_d, &solve_y), Some(U256::from(19_858_762_491_525_798_997_477u128)));
    assert_eq!(s.balances, [U256::from(10_000_000_000_000_000_000_000u128), U256::from(4_970_000_000_000_000_000_000u128)]);
    assert_eq!(s.price_scale, U256::from(2_000_000_000_000_000_000u64));
    assert_eq!(s.price_oracle, U256::from(2_000_000_000_000_000_000u64));
    assert_eq!(s.last_prices, U256::from(2_003_265_492_966_613_760u64));
    assert_eq!(s.last_prices_timestamp, 2_500);
    assert_eq!(s.d, U256::from(19_858_762_491_525_798_997_477u128));
    assert_eq!(s.virtual_price, U256::from(1_000_009_257_851_047_977u64));
    assert_eq!(s.xcp_profit, U256::from(1_000_009_257_851_047_977u64));
    assert_eq!(s.xcp_profit_a, U256::from(1_000_000_000_000_000_000u64));
    assert_eq!(s.total_supply, U256::from(7_021_067_811_865_475_244_008u128));
    assert!(!s.not_adjusted);
    assert_eq!(s.future_a_gamma_time, U256::from(0u64));
}

#[test]
fn dust_has_no_price() {
    let mut s = state();
    assert_eq!(s.apply_remove_liquidity_one(1, U256::from(90_000u64), U256::from(50_000u64), 2_500, &solve_d, &solve_y), Some(U256::from(19_999_999_999_999_999_745_773u128)));
    assert_eq!(s.balances, [U256::from(10_000_000_000_000_000_000_000u128), U256::from(4_999_999_999_999_999_950_000u128)]);
    assert_eq!(s.price_scale, U256::from(2_000_000_000_000_000_000u64));
    assert_eq!(s.price_oracle, U256::from(2_000_000_000_000_000_000u64));
    assert_eq!(s.last_prices, U256::from(2_000_000_095_237_235_335u64));
    assert_eq!(s.last_prices_timestamp, 2_500);
    assert_eq!(s.d, U256::from(19_999_999_999_999_999_745_773u128));
    assert_eq!(s.virtual_price, U256::from(1_000_000_000_000_000_000u64));
    assert_eq!(s.xcp_profit, U256::from(1_000_000_000_000_000_000u64));
    assert_eq!(s.xcp_profit_a, U256::from(1_000_000_000_000_000_000u64));
    assert_eq!(s.total_supply, U256::from(7_071_067_811_865_475_154_008u128));
    assert!(!s.not_adjusted);
    assert_eq!(s.future_a_gamma_time, U256::from(0u64));
}

#[test]
fn a_refused_withdrawal_changes_nothing() {
    let mut s = state();
    assert!(s.apply_remove_liquidity_one(0, U256::from(50_000_000_000_000_000_000u128), U256::from(60_000_000_000_000_000_000u128), 2_500, &solve_d, &no_y).is_none());
    assert_eq!(s.balances, [U256::from(10_000_000_000_000_000_000_000u128), U256::from(5_000_000_000_000_000_000_000u128)]);
    assert_eq!(s.price_scale, U256::from(2_000_000_000_000_000_000u64));
    assert_eq!(s.price_oracle, U256::from(2_000_000_000_000_000_000u64));
    assert_eq!(s.last_prices, U256::from(2_000_000_000_000_000_000u64));
    assert_eq!(s.last_prices_timestamp, 1_000);
    assert_eq!(s.d, U256::from(20_000_000_000_000_000_000_000u128));
    assert_eq!(s.virtual_price, U256::from(1_000_000_000_000_000_000u64));
    assert_eq!(s.xcp_profit, U256::from(1_000_000_000_000_000_000u64));
    assert_eq!(s.xcp_profit_a, U256::from(1_000_000_000_000_000_000u64));
    assert_eq!(s.total_supply, U256::from(7_071_067_811_865_475_244_008u128));
    assert!(!s.not_adjusted);
    assert_eq!(s.future_a_gamma_time, U256::from(0u64));
}

#[test]
fn the_admin_share_is_claimed() {
    let mut s = state();
    s.xcp_profit = U256::from(1_001_000_000_000_000_000u64);
    s.virtual_price = U256::from(1_000_500_000_000_000_000u64);
    s.claim_admin_fees(&solve_d);
    assert_eq!(s.balances, [U256::from(10_000_000_000_000_000_000_000u128), U256::from(5_000_000_000_000_000_000_000u128)]);
    assert_eq!(s.price_scale, U256::from(2_000_000_000_000_000_000u64));
    assert_eq!(s.price_oracle, U256::from(2_000_000_000_000_000_000u64));
    assert_eq!(s.last_prices, U256::from(2_000_000_000_000_000_000u64));
    assert_eq!(s.last_prices_timestamp, 1_000);
    assert_eq!(s.d, U256::from(20_000_000_000_000_000_000_000u128));
    assert_eq!(s.virtual_price, U256::from(999_750_124_937_531_235u64));
    assert_eq!(s.xcp_profit, U256::from(1_000_500_000_000_000_000u64));
    assert_eq!(s.xcp_profit_a, U256::from(1_000_500_000_000_000_000u64));
    assert_eq!(s.total_supply, U256::from(7_072_835_136_987_161_186_196u128));
    assert!(!s.not_adjusted);
    assert_eq!(s.future_a_gamma_time, U256::from(0u64));
}

#[test]
fn a_claim_without_profit_or_tokens() {
    let mut s = state();
    s.total_supply = U256::from(0u64);
    s.xcp_profit = U256::from(999_999_999_999_999_995u64);
    s.claim_admin_fees(&solve_d);
    assert_eq!(s.balances, [U256::from(10_000_000_000_000_000_000_000u128), U256::from(5_000_000_000_000_000_000_000u128)]);
    assert_eq!(s.price_scale, U256::from(2_000_000_000_000_000_000u64));
    assert_eq!(s.price_oracle, U256::from(2_000_000_000_000_000_000u64));
    assert_eq!(s.last_prices, U256::from(2_000_000_000_000_000_000u64));
    assert_eq!(s.last_prices_timestamp, 1_000);
    assert_eq!(s.d, U256::from(20_000_000_000_000_000_000_000u128));
    assert_eq!(s.virtual_price, U256::from(1_000_000_000_000_000_000u64));
    assert_eq!(s.xcp_profit, U256::from(999_999_999_999_999_995u64));
    assert_eq!(s.xcp_profit_a, U256::from(1_000_000_000_000_000_000u64));
    assert_eq!(s.total_supply, U256::from(0u64));
    assert!(!s.not_adjusted);
    assert_eq!(s.future_a_gamma_time, U256::from(0u64));
}

fn answer_d(_ann: U256, _gamma: U256, _x: [U256; 2]) -> Option<U256> {
    Some(U256::from(5u64))
}

#[test]
fn a_claim_without_a_price_is_a_fault() {
    let mut s = state();
    s.price_scale = U256::from(0u64);
    assert_eq!(s.try_claim_admin_fees(&answer_d).err(), Some(Fault));
    assert_eq!(s.balances, [U256::from(10_000_000_000_000_000_000_000u128), U256::from(5_000_000_000_000_000_000_000u128)]);
    assert_eq!(s.price_scale, U256::from(0u64));
    assert_eq!(s.price_oracle, U256::from(2_000_000_000_000_000_000u64));
    assert_eq!(s.last_prices, U256::from(2_000_000_000_000_000_000u64));
    assert_eq!(s.last_prices_timestamp, 1_000);
    assert_eq!(s.d, U256::from(20_000_000_000_000_000_000_000u128));
    assert_eq!(s.virtual_price, U256::from(1_000_000_000_000_000_000u64));
    assert_eq!(s.xcp_profit, U256::from(1_000_000_000_000_000_000u64));
    assert_eq!(s.xcp_profit_a, U256::from(1_000_000_000_000_000_000u64));
    assert_eq!(s.total_supply, U256::from(7_071_067_811_865_475_244_008u128));
    assert!(!s.not_adjusted);
    assert_eq!(s.future_a_gamma_time, U256::from(0u64));
}

#[test]
fn test_halfpow_120e15() {
    let power = U256::from(120_000_000_000_000_000u128);
    let result = halfpow(power);
    let expected = U256::from(920187657650015204u128);
    assert_eq!(result, expected);
}

#[test]
fn halfpow_known_values() {
    assert_eq!(halfpow(U256::from(0u64)), U256::from(1_000_000_000_000_000_000u64));
    assert_eq!(halfpow(U256::from(1u64)), U256::from(1_000_000_000_000_000_000u64));
    assert_eq!(halfpow(U256::from(1_000_000_000_000_000_000u64)), U256::from(500_000_000_000_000_000u64));
    assert_eq!(halfpow(U256::from(500_000_000_000_000_000u64)), U256::from(707_106_786_923_378_092u64));
    assert_eq!(halfpow(U256::from(2_000_000_000_000_000_000u64)), U256::from(250_000_000_000_000_000u64));
    assert_eq!(halfpow(U256::from(59_000_000_000_000_000_000u128)), U256::from(1u64));
    assert_eq!(halfpow(U256::from(60_000_000_000_000_000_000u128)), U256::from(0u64));
    assert_eq!(halfpow(U256::from(59_999_999_999_999_999_999u128)), U256::from(0u64));
    assert_eq!(halfpow(U256::from(60_000_000_000_000_000_005u128)), U256::from(0u64));
    assert_eq!(halfpow(U256::from(3_141_592_653_589_793_238u64)), U256::from(113_314_733_250_811_606u64));
    assert_eq!(halfpow(U256::from(999_999_999_999_999_999u64)), U256::from(500_000_000_000_000_001u64));
    assert_eq!(halfpow(U256::from_limbs([18_446_744_073_709_551_615, 18_446_744_073_709_551_615, 18_446_744_073_709_551_615, 18_446_744_073_709_551_615])), U256::from(0u64));
}

#[test]
fn geometric_mean_known_values() {
    assert_eq!(geometric_mean([U256::from(4u64), U256::from(9u64)], true), U256::from(6u64));
    assert_eq!(geometric_mean([U256::from(9u64), U256::from(4u64)], true), U256::from(6u64));
    assert_eq!(geometric_mean([U256::from(9u64), U256::from(4u64)], false), U256::from(6u64));
    assert_eq!(geometric_mean([U256::from(1u64), U256::from(1_000_000_000_000_000_000_000_000_000_000u128)], true), U256::from(1_000_000_000_000_000u64));
    assert_eq!(geometric_mean([U256::from(1_000_000_000_000_000_000_000_000_000_000u128), U256::from(1u64)], true), U256::from(1_000_000_000_000_000u64));
    assert_eq!(geometric_mean([U256::from(1_000_000_000_000_000_000u64), U256::from(1_000_000_000_000_000_000u64)], true), U256::from(1_000_000_000_000_000_000u64));
    assert_eq!(geometric_mean([U256::from(12_345_678_901_234_567_890_123u128), U256::from(98_765_432_109_876_543_210u128)], true), U256::from(1_104_231_095_092_969_183_792u128));
    assert_eq!(geometric_mean([U256::from(98_765_432_109_876_543_210u128), U256::from(12_345_678_901_234_567_890_123u128)], false), U256::from(1_104_231_095_092_969_183_792u128));
    assert_eq!(geometric_mean([U256::from(1u64), U256::from(1u64)], true), U256::from(1u64));
    assert_eq!(geometric_mean([U256::from_limbs([18_446_744_073_709_551_615, 18_446_744_073_709_551_615, 18_446_744_073_709_551_615, 18_446_744_073_709_551_615]), U256::from_limbs([18_446_744_073_709_551_615, 18_446_744_073_709_551_615, 18_446_744_073_709_551_615, 18_446_744_073_709_551_615])], true), U256::from_limbs([18_446_744_073_709_551_615, 18_446_744_073_709_551_615, 18_446_744_073_709_551_615, 9_223_372_036_854_775_807]));
    assert_eq!(geometric_mean([U256::from_limbs([0, 0, 0, 256]), U256::from(1_267_650_600_228_229_401_496_703_205_376u128)], true), U256::from(1u64));
    assert_eq!(geometric_mean([U256::from(7u64), U256::from(0u64)], true), U256::from(0u64));
    assert_eq!(try_geometric_mean([U256::from(0u64), U256::from(0u64)], true).err(), Some(Fault));
    assert_eq!(try_geometric_mean([U256::from(0u64), U256::from(5u64)], false).err(), Some(Fault));
}

#[test]
fn geometric_mean_is_the_square_root_or_one_more() {
    let one = U256::from(1u64);
    for (a, b) in [
        (1u128, 1u128),
        (1, 2),
        (4, 9),
        (99, 101),
        (1_000_000_000_000_000_000, 3),
        (123_456_789_012_345_678_901_234, 500_000_000_000_000_000_000),
        (200_000_000_000_000_000_000_000_000_000_000_000, 199_999_999_999_999_999_999_999_999_999_999_999),
    ] {
        let product = U256::from(a) * U256::from(b);
        let v = geometric_mean([U256::from(a), U256::from(b)], true);
        assert!((v - one) * (v - one) <= product);
        assert!(product < (v + one) * (v + one));
    }
}
