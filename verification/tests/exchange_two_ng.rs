//! Two-coin pools of the second generation.
use curve_math::exchange_twocrypto_ng::{fee_2, get_p_2, get_p_2_stable, TwoCryptoNGState};
use curve_math::fault::Fault;
use curve_math::uint::U256;

/// The invariant of a pool that trades one for one.
fn stable_d(x: [U256; 2], _a: U256) -> Option<U256> {
    Some(x[0] + x[1])
}

fn stable_y(_i: usize, _j: usize, v: U256, _x: [U256; 2], d: U256, _a: U256) -> Option<U256> {
    Some(d - v)
}

fn no_d(_x: [U256; 2], _a: U256) -> Option<U256> {
    None
}

fn no_y(_i: usize, _j: usize, _v: U256, _x: [U256; 2], _d: U256, _a: U256) -> Option<U256> {
    None
}

fn state() -> TwoCryptoNGState {
    TwoCryptoNGState {
        balances: [U256::from(10_000_000_000_000_000_000_000u128), U256::from(5_000_000_000_000_000_000_000u128)],
        price_scale: U256::from(2_000_000_000_000_000_000u64),
        price_oracle: U256::from(2_000_000_000_000_000_000u64),
        last_prices: U256::from(2_000_000_000_000_000_000u64),
        last_prices_timestamp: 1_000,
        d: U256::from(20_000_000_000_000_000_000_000u128),
        virtual_price: U256::from(1_000_000_000_000_000_000u64),
        xcp_profit: U256::from(1_000_000_000_000_000_000u64),
        xcp_profit_a: U256::from(1_000_000_000_000_000_000u64),
        admin_lp_virtual_balance: U256::from(23u64),
        ann: U256::from(400_000u64),
        gamma: U256::from(145_000_000_000_000u64),
        mid_fee: U256::from(26_000_000u64),
        out_fee: U256::from(45_000_000u64),
        fee_gamma: U256::from(230_000_000_000_000u64),
        precisions: [U256::from(1u64), U256::from(1u64)],
        total_supply: U256::from(7_071_067_811_865_475_244_008u128),
        allowed_extra_profit: U256::from(2_000_000_000_000u64),
        adjustment_step: U256::from(146_000_000_000_000u64),
        ma_time: U256::from(866u64),
        future_a_gamma_time: U256::from(0u64),
        is_stable: false,
    }
}

#[test]
fn exchanges_move_the_price_scale_of_the_second_generation() {
    let mut s = state();
    let out = s.exchange(0, 1, U256::from(200_000_000_000_000_000_000u128), 2_000, &stable_d, &stable_y).unwrap();
    assert_eq!(out.dy, U256::from(99_027_050_139_378_349_889u128));
    assert_eq!(out.fee, U256::from(378_104_493_988_939_326u64));
    assert_eq!(s.balances, [U256::from(10_200_000_000_000_000_000_000u128), U256::from(4_900_972_949_860_621_650_111u128)]);
    assert_eq!(s.price_scale, U256::from(2_000_000_000_000_000_000u64));
    assert_eq!(s.price_oracle, U256::from(2_000_000_000_000_000_000u64));
    assert_eq!(s.last_prices, U256::from(2_039_886_874_364_485_668u64));
    assert_eq!(s.last_prices_timestamp, 2_000);
    assert_eq!(s.d, U256::from(20_000_763_795_627_429_915_000u128));
    assert_eq!(s.virtual_price, U256::from(1_000_038_189_781_371_495u64));
    assert_eq!(s.xcp_profit, U256::from(1_000_038_189_781_371_495u64));
    assert_eq!(s.xcp_profit_a, U256::from(1_000_000_000_000_000_000u64));
    assert_eq!(s.total_supply, U256::from(7_071_067_811_865_475_244_008u128));
    assert_eq!(s.future_a_gamma_time, U256::from(0u64));
    let out = s.exchange(1, 0, U256::from(100_000_000_000_000_000_000u128), 5_000, &stable_d, &stable_y).unwrap();
    assert_eq!(out.dy, U256::from(200_658_978_363_542_152_757u128));
    assert_eq!(out.fee, U256::from(523_114_079_133_630_456u64));
    assert_eq!(s.balances, [U256::from(9_999_341_021_636_457_847_243u128), U256::from(5_000_972_949_860_621_650_111u128)]);
    assert_eq!(s.price_scale, U256::from(2_007_727_699_531_430_904u64));
    assert_eq!(s.price_oracle, U256::from(2_038_638_497_657_154_528u64));
    assert_eq!(s.last_prices, U256::from(1_999_975_182_858_244_182u64));
    assert_eq!(s.last_prices_timestamp, 5_000);
    assert_eq!(s.d, U256::from(20_039_930_807_871_260_564_719u128));
    assert_eq!(s.virtual_price, U256::from(1_000_066_350_021_295_005u64));
    assert_eq!(s.xcp_profit, U256::from(1_000_064_345_663_933_083u64));
    assert_eq!(s.xcp_profit_a, U256::from(1_000_000_000_000_000_000u64));
    assert_eq!(s.total_supply, U256::from(7_071_067_811_865_475_244_008u128));
    assert_eq!(s.future_a_gamma_time, U256::from(0u64));
    let out = s.exchange(0, 1, U256::from(200_000_000_000_000_000_000u128), 8_000, &stable_d, &stable_y).unwrap();
    assert_eq!(out.dy, U256::from(98_838_715_927_714_333_035u128));
    assert_eq!(out.fee, U256::from(367_457_503_695_360_700u64));
    assert_eq!(s.balances, [U256::from(10_199_341_021_636_457_847_243u128), U256::from(4_902_134_233_932_907_317_076u128)]);
    assert_eq!(s.price_scale, U256::from(2_006_419_212_561_285_365u64));
    assert_eq!(s.price_oracle, U256::from(2_001_185_264_680_703_207u64));
    assert_eq!(s.last_prices, U256::from(2_039_188_459_325_404_508u64));
    assert_eq!(s.last_prices_timestamp, 8_000);
    assert_eq!(s.d, U256::from(20_034_208_463_976_633_586_200u128));
    assert_eq!(s.virtual_price, U256::from(1_000_106_734_541_999_957u64));
    assert_eq!(s.xcp_profit, U256::from(1_000_101_452_789_288_802u64));
    assert_eq!(s.xcp_profit_a, U256::from(1_000_000_000_000_000_000u64));
    assert_eq!(s.total_supply, U256::from(7_071_067_811_865_475_244_008u128));
    assert_eq!(s.future_a_gamma_time, U256::from(0u64));
    let out = s.exchange(1, 0, U256::from(100_000_000_000_000_000_000u128), 11_000, &stable_d, &stable_y).unwrap();
    assert_eq!(out.dy, U256::from(200_978_952_388_400_286_522u128));
    assert_eq!(out.fee, U256::from(529_987_857_705_521_902u64));
    assert_eq!(s.balances, [U256::from(9_998_362_069_248_057_560_721u128), U256::from(5_002_134_233_932_907_317_076u128)]);
    assert_eq!(s.price_scale, U256::from(2_012_735_177_628_842_367u64));
    assert_eq!(s.price_oracle, U256::from(2_037_999_037_899_070_382u64));
    assert_eq!(s.last_prices, U256::from(2_006_023_640_192_644_402u64));
    assert_eq!(s.last_prices_timestamp, 11_000);
    assert_eq!(s.d, U256::from(20_066_326_969_963_940_697_890u128));
    assert_eq!(s.virtual_price, U256::from(1_000_137_170_263_088_478u64));
    assert_eq!(s.xcp_profit, U256::from(1_000_127_912_250_472_887u64));
    assert_eq!(s.xcp_profit_a, U256::from(1_000_000_000_000_000_000u64));
    assert_eq!(s.total_supply, U256::from(7_071_067_811_865_475_244_008u128));
    assert_eq!(s.future_a_gamma_time, U256::from(0u64));
    let out = s.exchange(0, 1, U256::from(200_000_000_000_000_000_000u128), 14_000, &stable_d, &stable_y).unwrap();
    assert_eq!(out.dy, U256::from(98_703_182_447_270_389_829u128));
    assert_eq!(out.fee, U256::from(359_212_517_974_714_943u64));
    assert_eq!(s.balances, [U256::from(10_198_362_069_248_057_560_721u128), U256::from(4_903_431_051_485_636_927_247u128)]);
    assert_eq!(s.price_scale, U256::from(2_011_593_022_910_353_656u64));
    assert_eq!(s.price_oracle, U256::from(2_007_024_404_036_398_807u64));
    assert_eq!(s.last_prices, U256::from(2_038_752_669_520_491_658u64));
    assert_eq!(s.last_prices_timestamp, 14_000);
    assert_eq!(s.d, U256::from(20_061_417_072_251_551_483_741u128));
    assert_eq!(s.virtual_price, U256::from(1_000_176_275_546_129_911u64));
    assert_eq!(s.xcp_profit, U256::from(1_000_164_182_082_669_796u64));
    assert_eq!(s.xcp_profit_a, U256::from(1_000_000_000_000_000_000u64));
    assert_eq!(s.total_supply, U256::from(7_071_067_811_865_475_244_008u128));
    assert_eq!(s.future_a_gamma_time, U256::from(0u64));
    let out = s.exchange(1, 0, U256::from(100_000_000_000_000_000_000u128), 17_000, &stable_d, &stable_y).unwrap();
    assert_eq!(out.dy, U256::from(201_262_535_091_455_277_840u128));
    assert_eq!(out.fee, U256::from(543_096_085_733_952_822u64));
    assert_eq!(s.balances, [U256::from(9_997_099_534_156_602_282_881u128), U256::from(5_003_431_051_485_636_927_247u128)]);
    assert_eq!(s.price_scale, U256::from(2_016_826_346_409_160_236u64));
    assert_eq!(s.price_oracle, U256::from(2_037_759_640_404_386_565u64));
    assert_eq!(s.last_prices, U256::from(2_010_755_249_492_125_496u64));
    assert_eq!(s.last_prices_timestamp, 17_000);
    assert_eq!(s.d, U256::from(20_088_137_659_581_615_417_944u128));
    assert_eq!(s.virtual_price, U256::from(1_000_208_232_923_061_043u64));
    assert_eq!(s.xcp_profit, U256::from(1_000_191_263_882_035_340u64));
    assert_eq!(s.xcp_profit_a, U256::from(1_000_000_000_000_000_000u64));
    assert_eq!(s.total_supply, U256::from(7_071_067_811_865_475_244_008u128));
    assert_eq!(s.future_a_gamma_time, U256::from(0u64));
}

#[test]
fn a_stable_pool_asks_its_own_solvers() {
    let mut s = state();
    s.is_stable = true;
    let out = s.exchange(0, 1, U256::from(300_000_000_000_000_000_000u128), 2_000, &stable_d, &stable_y).unwrap();
    assert_eq!(out.dy, U256::from(149_382_967_275_000_000_000u128));
    assert_eq!(out.fee, U256::from(617_032_724_999_999_999u64));
    assert_eq!(s.balances, [U256::from(10_300_000_000_000_000_000_000u128), U256::from(4_850_617_032_725_000_000_000u128)]);
    assert_eq!(s.price_scale, U256::from(2_000_000_000_000_000_000u64));
    assert_eq!(s.price_oracle, U256::from(2_000_000_000_000_000_000u64));
    assert_eq!(s.last_prices, U256::from(2_002_927_884_637_134_668u64));
    assert_eq!(s.last_prices_timestamp, 2_000);
    assert_eq!(s.d, U256::from(20_001_234_065_450_000_000_000u128));
    assert_eq!(s.virtual_price, U256::from(1_000_061_703_272_499_999u64));
    assert_eq!(s.xcp_profit, U256::from(1_000_061_703_272_499_999u64));
    assert_eq!(s.xcp_profit_a, U256::from(1_000_000_000_000_000_000u64));
    assert_eq!(s.total_supply, U256::from(7_071_067_811_865_475_244_008u128));
    assert_eq!(s.future_a_gamma_time, U256::from(0u64));
    let out = s.exchange(1, 0, U256::from(100_000_000_000_000_000_000u128), 5_000, &stable_d, &stable_y).unwrap();
    assert_eq!(out.dy, U256::from(199_365_841_520_000_000_000u128));
    assert_eq!(out.fee, U256::from(634_158_479_999_999_999u64));
    assert_eq!(s.balances, [U256::from(10_100_634_158_480_000_000_000u128), U256::from(4_950_617_032_725_000_000_000u128)]);
    assert_eq!(s.price_scale, U256::from(2_000_567_249_580_193_096u64));
    assert_eq!(s.price_oracle, U256::from(2_002_836_247_900_965_487u64));
    assert_eq!(s.last_prices, U256::from(2_000_973_017_792_305_346u64));
    assert_eq!(s.last_prices_timestamp, 5_000);
    assert_eq!(s.d, U256::from(20_004_676_459_363_510_046_852u128));
    assert_eq!(s.virtual_price, U256::from(1_000_092_007_580_188_929u64));
    assert_eq!(s.xcp_profit, U256::from(1_000_093_411_196_500_000u64));
    assert_eq!(s.xcp_profit_a, U256::from(1_000_000_000_000_000_000u64));
    assert_eq!(s.total_supply, U256::from(7_071_067_811_865_475_244_008u128));
    assert_eq!(s.future_a_gamma_time, U256::from(0u64));
    let out = s.exchange(0, 1, U256::from(300_000_000_000_000_000_000u128), 5_000, &stable_d, &stable_y).unwrap();
    assert_eq!(out.dy, U256::from(149_318_702_194_432_615_088u128));
    assert_eq!(out.fee, U256::from(638_766_150_084_761_429u64));
    assert_eq!(s.balances, [U256::from(10_400_634_158_480_000_000_000u128), U256::from(4_801_298_330_530_567_384_912u128)]);
    assert_eq!(s.price_scale, U256::from(2_000_567_249_580_193_096u64));
    assert_eq!(s.price_oracle, U256::from(2_002_836_247_900_965_487u64));
    assert_eq!(s.last_prices, U256::from(2_004_462_554_398_927_400u64));
    assert_eq!(s.last_prices_timestamp, 5_000);
    assert_eq!(s.d, U256::from(20_005_954_354_003_510_046_852u128));
    assert_eq!(s.virtual_price, U256::from(1_000_155_893_253_050_954u64));
    assert_eq!(s.xcp_profit, U256::from(1_000_157_296_869_362_025u64));
    assert_eq!(s.xcp_profit_a, U256::from(1_000_000_000_000_000_000u64));
    assert_eq!(s.total_supply, U256::from(7_071_067_811_865_475_244_008u128));
    assert_eq!(s.future_a_gamma_time, U256::from(0u64));
    let out = s.exchange(1, 0, U256::from(100_000_000_000_000_000_000u128), 9_000, &stable_d, &stable_y).unwrap();
    assert_eq!(out.dy, U256::from(199_297_391_393_262_158_643u128));
    assert_eq!(out.fee, U256::from(759_333_564_757_150_956u64));
    assert_eq!(s.balances, [U256::from(10_201_336_767_086_737_841_357u128), U256::from(4_901_298_330_530_567_384_912u128)]);
    assert_eq!(s.price_scale, U256::from(2_001_343_102_404_312_902u64));
    assert_eq!(s.price_oracle, U256::from(2_004_446_513_700_792_129u64));
    assert_eq!(s.last_prices, U256::from(2_002_501_071_700_768_244u64));
    assert_eq!(s.last_prices_timestamp, 9_000);
    assert_eq!(s.d, U256::from(20_010_516_373_719_863_028_880u128));
    assert_eq!(s.virtual_price, U256::from(1_000_190_035_639_999_419u64));
    assert_eq!(s.xcp_profit, U256::from(1_000_195_258_164_599_347u64));
    assert_eq!(s.xcp_profit_a, U256::from(1_000_000_000_000_000_000u64));
    assert_eq!(s.total_supply, U256::from(7_071_067_811_865_475_244_008u128));
    assert_eq!(s.future_a_gamma_time, U256::from(0u64));
    let out = s.exchange(0, 1, U256::from(300_000_000_000_000_000_000u128), 12_000, &stable_d, &stable_y).unwrap();
    assert_eq!(out.dy, U256::from(149_249_099_727_657_123_815u128));
    assert_eq!(out.fee, U256::from(650_235_193_773_936_679u64));
    assert_eq!(s.balances, [U256::from(10_501_336_767_086_737_841_357u128), U256::from(4_752_049_230_802_910_261_097u128)]);
    assert_eq!(s.price_scale, U256::from(2_001_635_298_497_263_932u64));
    assert_eq!(s.price_oracle, U256::from(2_002_561_960_013_452_276u64));
    assert_eq!(s.last_prices, U256::from(2_006_206_041_582_582_820u64));
    assert_eq!(s.last_prices_timestamp, 12_000);
    assert_eq!(s.d, U256::from(20_013_206_247_658_614_586_661u128));
    assert_eq!(s.virtual_price, U256::from(1_000_251_468_507_742_067u64));
    assert_eq!(s.xcp_profit, U256::from(1_000_260_303_513_623_727u64));
    assert_eq!(s.xcp_profit_a, U256::from(1_000_000_000_000_000_000u64));
    assert_eq!(s.total_supply, U256::from(7_071_067_811_865_475_244_008u128));
    assert_eq!(s.future_a_gamma_time, U256::from(0u64));
}

#[test]
fn a_stable_pool_without_an_invariant_keeps_the_old_one() {
    let mut s = state();
    s.is_stable = true;
    let out = s.exchange(0, 1, U256::from(5_000_000_000_000_000_000u64), 2_000, &no_d, &stable_y).unwrap();
    assert_eq!(out.dy, U256::from(2_493_494_842_750_000_000u64));
    assert_eq!(out.fee, U256::from(6_505_157_249_999_999u64));
    assert_eq!(s.balances, [U256::from(10_005_000_000_000_000_000_000u128), U256::from(4_997_506_505_157_250_000_000u128)]);
    assert_eq!(s.price_scale, U256::from(2_000_000_000_000_000_000u64));
    assert_eq!(s.price_oracle, U256::from(2_000_000_000_000_000_000u64));
    assert_eq!(s.last_prices, U256::from(2_000_048_717_515_454_778u64));
    assert_eq!(s.last_prices_timestamp, 2_000);
    assert_eq!(s.d, U256::from(20_000_000_000_000_000_000_000u128));
    assert_eq!(s.virtual_price, U256::from(1_000_000_000_000_000_000u64));
    assert_eq!(s.xcp_profit, U256::from(1_000_000_000_000_000_000u64));
    assert_eq!(s.xcp_profit_a, U256::from(1_000_000_000_000_000_000u64));
    assert_eq!(s.total_supply, U256::from(7_071_067_811_865_475_244_008u128));
    assert_eq!(s.future_a_gamma_time, U256::from(0u64));
}

#[test]
fn a_stable_pool_without_an_answer_keeps_what_came_in() {
    let mut s = state();
    s.is_stable = true;
    assert!(s.exchange(0, 1, U256::from(5_000_000_000_000_000_000u64), 2_000, &stable_d, &no_y).is_none());
    assert_eq!(s.balances, [U256::from(10_005_000_000_000_000_000_000u128), U256::from(5_000_000_000_000_000_000_000u128)]);
    assert_eq!(s.price_scale, U256::from(2_000_000_000_000_000_000u64));
    assert_eq!(s.price_oracle, U256::from(2_000_000_000_000_000_000u64));
    assert_eq!(s.last_prices, U256::from(2_000_000_000_000_000_000u64));
    assert_eq!(s.last_prices_timestamp, 1_000);
    assert_eq!(s.d, U256::from(20_000_000_000_000_000_000_000u128));
    assert_eq!(s.virtual_price, U256::from(1_000_000_000_000_000_000u64));
    assert_eq!(s.xcp_profit, U256::from(1_000_000_000_000_000_000u64));
    assert_eq!(s.xcp_profit_a, U256::from(1_000_000_000_000_000_000u64));
    assert_eq!(s.total_supply, U256::from(7_071_067_811_865_475_244_008u128));
    assert_eq!(s.future_a_gamma_time, U256::from(0u64));
}

#[test]
fn a_stable_ramp_without_an_invariant_keeps_what_came_in() {
    let mut s = state();
    s.is_stable = true;
    s.future_a_gamma_time = U256::from(5_000u64);
    assert!(s.exchange(1, 0, U256::from(5_000_000_000_000_000_000u64), 2_000, &no_d, &stable_y).is_none());
    assert_eq!(s.balances, [U256::from(10_000_000_000_000_000_000_000u128), U256::from(5_005_000_000_000_000_000_000u128)]);
    assert_eq!(s.price_scale, U256::from(2_000_000_000_000_000_000u64));
    assert_eq!(s.price_oracle, U256::from(2_000_000_000_000_000_000u64));
    assert_eq!(s.last_prices, U256::from(2_000_000_000_000_000_000u64));
    assert_eq!(s.last_prices_timestamp, 1_000);
    assert_eq!(s.d, U256::from(20_000_000_000_000_000_000_000u128));
    assert_eq!(s.virtual_price, U256::from(1_000_000_000_000_000_000u64));
    assert_eq!(s.xcp_profit, U256::from(1_000_000_000_000_000_000u64));
    assert_eq!(s.xcp_profit_a, U256::from(1_000_000_000_000_000_000u64));
    assert_eq!(s.total_supply, U256::from(7_071_067_811_865_475_244_008u128));
    assert_eq!(s.future_a_gamma_time, U256::from(5_000u64));
}

#[test]
fn refused_requests_change_nothing_in_the_second_generation() {
    let mut s = state();
    assert!(s.exchange(0, 0, U256::from(5u64), 9_000, &stable_d, &stable_y).is_none());
    assert!(s.exchange(1, 1, U256::from(5u64), 9_000, &stable_d, &stable_y).is_none());
    assert!(s.exchange(0, 2, U256::from(5u64), 9_000, &stable_d, &stable_y).is_none());
    assert!(s.exchange(2, 0, U256::from(5u64), 9_000, &stable_d, &stable_y).is_none());
    assert!(s.exchange(0, 1, U256::from(0u64), 9_000, &stable_d, &stable_y).is_none());
    assert!(s.exchange(7, 9, U256::from(1u64), 9_000, &stable_d, &stable_y).is_none());
    assert_eq!(s.balances, [U256::from(10_000_000_000_000_000_000_000u128), U256::from(5_000_000_000_000_000_000_000u128)]);
    assert_eq!(s.price_scale, U256::from(2_000_000_000_000_000_000u64));
    assert_eq!(s.price_oracle, U256::from(2_000_000_000_000_000_000u64));
    assert_eq!(s.last_prices, U256::from(2_000_000_000_000_000_000u64));
    assert_eq!(s.last_prices_timestamp, 1_000);
    assert_eq!(s.d, U256::from(20_000_000_000_000_000_000_000u128));
    assert_eq!(s.virtual_price, U256::from(1_000_000_000_000_000_000u64));
    assert_eq!(s.xcp_profit, U256::from(1_000_000_000_000_000_000u64));
    assert_eq!(s.xcp_profit_a, U256::from(1_000_000_000_000_000_000u64));
    assert_eq!(s.total_supply, U256::from(7_071_067_811_865_475_244_008u128));
    assert_eq!(s.future_a_gamma_time, U256::from(0u64));
}

#[test]
fn too_large_a_trade_has_no_answer() {
    let mut s = state();
    assert!(s.exchange(0, 1, U256::from(1_000_000_000_000_000_000_000_000_000_000u128), 9_000, &stable_d, &stable_y).is_none());
    assert_eq!(s.balances, [U256::from(1_000_000_010_000_000_000_000_000_000_000u128), U256::from(5_000_000_000_000_000_000_000u128)]);
    assert_eq!(s.price_scale, U256::from(2_000_000_000_000_000_000u64));
    assert_eq!(s.price_oracle, U256::from(2_000_000_000_000_000_000u64));
    assert_eq!(s.last_prices, U256::from(2_000_000_000_000_000_000u64));
    assert_eq!(s.last_prices_timestamp, 1_000);
    assert_eq!(s.d, U256::from(20_000_000_000_000_000_000_000u128));
    assert_eq!(s.virtual_price, U256::from(1_000_000_000_000_000_000u64));
    assert_eq!(s.xcp_profit, U256::from(1_000_000_000_000_000_000u64));
    assert_eq!(s.xcp_profit_a, U256::from(1_000_000_000_000_000_000u64));
    assert_eq!(s.total_supply, U256::from(7_071_067_811_865_475_244_008u128));
    assert_eq!(s.future_a_gamma_time, U256::from(0u64));
}

#[test]
fn ramp_of_the_second_generation() {
    let mut s = state();
    s.future_a_gamma_time = U256::from(5_000u64);
    let out = s.exchange(1, 0, U256::from(70_000_000_000_000_000_000u128), 4_000, &stable_d, &stable_y).unwrap();
    assert_eq!(out.dy, U256::from(139_160_679_843_084_526_892u128));
    assert_eq!(out.fee, U256::from(484_984_700_866_814_331u64));
    assert_eq!(s.balances, [U256::from(9_860_839_320_156_915_473_108u128), U256::from(5_070_000_000_000_000_000_000u128)]);
    assert_eq!(s.price_scale, U256::from(2_000_000_000_000_000_000u64));
    assert_eq!(s.price_oracle, U256::from(2_000_000_000_000_000_000u64));
    assert_eq!(s.last_prices, U256::from(1_982_696_404_155_784_258u64));
    assert_eq!(s.last_prices_timestamp, 4_000);
    assert_eq!(s.d, U256::from(20_000_487_117_473_199_579_716u128));
    assert_eq!(s.virtual_price, U256::from(1_000_024_355_873_659_978u64));
    assert_eq!(s.xcp_profit, U256::from(1_000_024_355_873_659_978u64));
    assert_eq!(s.xcp_profit_a, U256::from(1_000_000_000_000_000_000u64));
    assert_eq!(s.total_supply, U256::from(7_071_067_811_865_475_244_008u128));
    assert_eq!(s.future_a_gamma_time, U256::from(5_000u64));
    let out = s.exchange(0, 1, U256::from(30_000_000_000_000_000_000u128), 6_000, &stable_d, &stable_y).unwrap();
    assert_eq!(out.dy, U256::from(15_049_779_764_155_354_658u64));
    assert_eq!(out.fee, U256::from(49_085_024_863_198_162u64));
    assert_eq!(s.balances, [U256::from(9_890_839_320_156_915_473_108u128), U256::from(5_054_950_220_235_844_645_342u128)]);
    assert_eq!(s.price_scale, U256::from(1_996_882_978_663_342_478u64));
    assert_eq!(s.price_oracle, U256::from(1_984_414_893_316_712_387u64));
    assert_eq!(s.last_prices, U256::from(1_990_651_644_700_663_846u64));
    assert_eq!(s.last_prices_timestamp, 6_000);
    assert_eq!(s.d, U256::from(19_984_862_095_801_351_590_352u128));
    assert_eq!(s.virtual_price, U256::from(1_000_022_681_662_195_871u64));
    assert_eq!(s.xcp_profit, U256::from(1_000_029_252_971_898_627u64));
    assert_eq!(s.xcp_profit_a, U256::from(1_000_000_000_000_000_000u64));
    assert_eq!(s.total_supply, U256::from(7_071_067_811_865_475_244_008u128));
    assert_eq!(s.future_a_gamma_time, U256::from(5_000u64));
}

#[test]
fn a_loss_keeps_the_old_values_in_the_second_generation() {
    let mut s = state();
    s.virtual_price = U256::from(2_000_000_000_000_000_000u64);
    let out = s.exchange(0, 1, U256::from(100_000_000_000_000_000_000u128), 3_000, &stable_d, &stable_y).unwrap();
    assert_eq!(out.dy, U256::from(49_784_121_454_421_325_123u128));
    assert_eq!(out.fee, U256::from(158_582_723_972_996_659u64));
    assert_eq!(s.balances, [U256::from(10_100_000_000_000_000_000_000u128), U256::from(4_950_215_878_545_578_674_877u128)]);
    assert_eq!(s.price_scale, U256::from(2_000_000_000_000_000_000u64));
    assert_eq!(s.price_oracle, U256::from(2_000_000_000_000_000_000u64));
    assert_eq!(s.last_prices, U256::from(2_007_400_269_206_353_644u64));
    assert_eq!(s.last_prices_timestamp, 3_000);
    assert_eq!(s.d, U256::from(20_000_000_000_000_000_000_000u128));
    assert_eq!(s.virtual_price, U256::from(2_000_000_000_000_000_000u64));
    assert_eq!(s.xcp_profit, U256::from(1_000_000_000_000_000_000u64));
    assert_eq!(s.xcp_profit_a, U256::from(1_000_000_000_000_000_000u64));
    assert_eq!(s.total_supply, U256::from(7_071_067_811_865_475_244_008u128));
    assert_eq!(s.future_a_gamma_time, U256::from(0u64));
}

#[test]
fn the_first_virtual_price_in_the_second_generation_is_one() {
    let mut s = state();
    s.virtual_price = U256::from(0u64);
    let out = s.exchange(0, 1, U256::from(100_000_000_000_000_000_000u128), 3_000, &stable_d, &stable_y).unwrap();
    assert_eq!(out.dy, U256::from(49_784_121_454_421_325_123u128));
    assert_eq!(out.fee, U256::from(158_582_723_972_996_659u64));
    assert_eq!(s.balances, [U256::from(10_100_000_000_000_000_000_000u128), U256::from(4_950_215_878_545_578_674_877u128)]);
    assert_eq!(s.price_scale, U256::from(2_000_000_000_000_000_000u64));
    assert_eq!(s.price_oracle, U256::from(2_000_000_000_000_000_000u64));
    assert_eq!(s.last_prices, U256::from(2_007_400_269_206_353_644u64));
    assert_eq!(s.last_prices_timestamp, 3_000);
    assert_eq!(s.d, U256::from(20_000_317_756_390_906_753_489u128));
    assert_eq!(s.virtual_price, U256::from(1_000_000_000_000_000_000u64));
    assert_eq!(s.xcp_profit, U256::from(1_000_000_000_000_000_000u64));
    assert_eq!(s.xcp_profit_a, U256::from(1_000_000_000_000_000_000u64));
    assert_eq!(s.total_supply, U256::from(7_071_067_811_865_475_244_008u128));
    assert_eq!(s.future_a_gamma_time, U256::from(0u64));
}

#[test]
fn two_coins_without_time_are_a_fault() {
    let mut s = state();
    s.ma_time = U256::from(0u64);
    assert_eq!(s.try_exchange(0, 1, U256::from(100_000_000_000_000_000_000u128), 3_000, &stable_d, &stable_y).err(), Some(Fault));
    assert_eq!(s.balances, [U256::from(10_000_000_000_000_000_000_000u128), U256::from(5_000_000_000_000_000_000_000u128)]);
    assert_eq!(s.price_scale, U256::from(2_000_000_000_000_000_000u64));
    assert_eq!(s.price_oracle, U256::from(2_000_000_000_000_000_000u64));
    assert_eq!(s.last_prices, U256::from(2_000_000_000_000_000_000u64));
    assert_eq!(s.last_prices_timestamp, 1_000);
    assert_eq!(s.d, U256::from(20_000_000_000_000_000_000_000u128));
    assert_eq!(s.virtual_price, U256::from(1_000_000_000_000_000_000u64));
    assert_eq!(s.xcp_profit, U256::from(1_000_000_000_000_000_000u64));
    assert_eq!(s.xcp_profit_a, U256::from(1_000_000_000_000_000_000u64));
    assert_eq!(s.total_supply, U256::from(7_071_067_811_865_475_244_008u128));
    assert_eq!(s.future_a_gamma_time, U256::from(0u64));
}

#[test]
fn a_price_scale_of_zero_is_a_fault() {
    let mut s = state();
    s.price_scale = U256::from(0u64);
    assert_eq!(s.try_exchange(0, 1, U256::from(100_000_000_000_000_000_000u128), 3_000, &stable_d, &stable_y).err(), Some(Fault));
    assert_eq!(s.balances, [U256::from(10_000_000_000_000_000_000_000u128), U256::from(5_000_000_000_000_000_000_000u128)]);
    assert_eq!(s.price_scale, U256::from(0u64));
    assert_eq!(s.price_oracle, U256::from(2_000_000_000_000_000_000u64));
    assert_eq!(s.last_prices, U256::from(2_000_000_000_000_000_000u64));
    assert_eq!(s.last_prices_timestamp, 1_000);
    assert_eq!(s.d, U256::from(20_000_000_000_000_000_000_000u128));
    assert_eq!(s.virtual_price, U256::from(1_000_000_000_000_000_000u64));
    assert_eq!(s.xcp_profit, U256::from(1_000_000_000_000_000_000u64));
    assert_eq!(s.xcp_profit_a, U256::from(1_000_000_000_000_000_000u64));
    assert_eq!(s.total_supply, U256::from(7_071_067_811_865_475_244_008u128));
    assert_eq!(s.future_a_gamma_time, U256::from(0u64));
}

#[test]
fn marginal_prices_of_two_coins() {
    assert_eq!(get_p_2([U256::from(10_000_000_000_000_000_000_000u128), U256::from(11_000_000_000_000_000_000_000u128)], U256::from(20_984_201_177_161_580_404_888u128), [U256::from(400_000u64), U256::from(145_000_000_000_000u64)]), Ok(U256::from(922_997_410_144_984_937u64)));
    assert_eq!(get_p_2_stable([U256::from(10_000_000_000_000_000_000_000u128), U256::from(11_000_000_000_000_000_000_000u128)], U256::from(20_984_201_177_161_580_404_888u128), [U256::from(400_000u64), U256::from(145_000_000_000_000u64)]), Ok(U256::from(997_674_648_190_189_172u64)));
    assert_eq!(get_p_2([U256::from(10_000_000_000_000_000_000_000u128), U256::from(11_000_000_000_000_000_000_000u128)], U256::zero(), [U256::from(400_000u64), U256::from(145_000_000_000_000u64)]), Err(Fault));
    assert_eq!(get_p_2_stable([U256::zero(), U256::from(11_000_000_000_000_000_000_000u128)], U256::from(20_984_201_177_161_580_404_888u128), [U256::from(400_000u64), U256::from(145_000_000_000_000u64)]), Err(Fault));
    assert_eq!(get_p_2_stable([U256::from(10_000_000_000_000_000_000_000u128), U256::from(11_000_000_000_000_000_000_000u128)], U256::zero(), [U256::zero(), U256::zero()]), Err(Fault));
}

#[test]
fn fees_of_two_coins() {
    assert_eq!(
        fee_2(&[U256::from(10_000_000_000_000_000_000_000u128), U256::from(10_000_000_000_000_000_000_000u128)], U256::from(26_000_000u64), U256::from(45_000_000u64), U256::from(230_000_000_000_000u64), false),
        Ok(U256::from(26_000_000u64))
    );
    assert_eq!(
        fee_2(&[U256::from(10_000_000_000_000_000_000_000u128), U256::from(10_000_000_000_000_000_000_000u128)], U256::from(26_000_000u64), U256::from(45_000_000u64), U256::from(230_000_000_000_000u64), true),
        Ok(U256::from(26_000_000u64))
    );
    assert_eq!(
        fee_2(&[U256::from(10_000_000_000_000_000_000_000u128), U256::from(30_000_000_000_000_000_000_000u128)], U256::from(26_000_000u64), U256::from(45_000_000u64), U256::from(230_000_000_000_000u64), false),
        Ok(U256::from(44_982_536u64))
    );
    assert_eq!(
        fee_2(&[U256::from(10_000_000_000_000_000_000_000u128), U256::from(30_000_000_000_000_000_000_000u128)], U256::from(26_000_000u64), U256::from(45_000_000u64), U256::from(230_000_000_000_000u64), true),
        Ok(U256::from(44_986_899u64))
    );
    assert_eq!(
        fee_2(&[U256::from(1u64), U256::from(1_000_000_000_000_000_000_000_000_000_000u128)], U256::from(26_000_000u64), U256::from(45_000_000u64), U256::from(230_000_000_000_000u64), false),
        Ok(U256::from(44_995_631u64))
    );
    assert_eq!(
        fee_2(&[U256::from(1u64), U256::from(1_000_000_000_000_000_000_000_000_000_000u128)], U256::from(26_000_000u64), U256::from(45_000_000u64), U256::from(230_000_000_000_000u64), true),
        Ok(U256::from(45_000_000u64))
    );
    assert_eq!(fee_2(&[U256::zero(), U256::zero()], U256::from(26_000_000u64), U256::from(45_000_000u64), U256::from(230_000_000_000_000u64), true), Err(Fault));
    assert_eq!(fee_2(&[U256::from(10_000_000_000_000_000_000_000u128), U256::from(10_000_000_000_000_000_000_000u128)], U256::from(26_000_000u64), U256::from(45_000_000u64), U256::zero(), false), Err(Fault));
}

#[test]
fn a_trade_is_solved_with_its_hint() {
    let s = state();
    let dx = U256::from(200_000_000_000_000_000_000u128);
    let xp = [U256::from(10_200_000_000_000_000_000_000u128), U256::from(10_000_000_000_000_000_000_000u128)];
    let solved = curve_math::solvers::twocrypto_ng::try_get_y_2_ng(s.ann, s.gamma, xp, s.d, 1);
    assert!(matches!(solved, Ok(Some(_))));
    assert_eq!(s.solve_trade(0, 1, dx, 2_000, &stable_d, &stable_y), solved);
    let mut t = state();
    t.is_stable = true;
    assert_eq!(
        t.solve_trade(0, 1, dx, 2_000, &stable_d, &stable_y),
        Ok(Some((U256::from(9_800_000_000_000_000_000_000u128), U256::from(0u64))))
    );
    assert_eq!(t.solve_trade(0, 1, dx, 2_000, &stable_d, &no_y), Ok(None));
}
