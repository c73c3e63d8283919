//! Three-coin pools of the first generation.
use curve_math::exchange_tricrypto_v1::{
    fee_3, geometric_mean_3, newton_d_3_v1, try_geometric_mean_3, TriCryptoV1State,
};
use curve_math::fault::Fault;
use curve_math::solvers::tricrypto_ng::try_newton_y_3;
use curve_math::uint::U256;

fn solve_y(ann: U256, gamma: U256, x: [U256; 3], d: U256, i: usize) -> Option<U256> {
    match try_newton_y_3(ann, gamma, x, d, i) {
        Ok(r) => r,
        Err(_) => None,
    }
}

fn no_y(_ann: U256, _gamma: U256, _x: [U256; 3], _d: U256, _i: usize) -> Option<U256> {
    None
}

fn state() -> TriCryptoV1State {
    TriCryptoV1State {
        balances: [U256::from(1_000_000_000_000u64), U256::from(2_000_000_000u64), U256::from(400_000_000_000_000_000_000u128)],
        price_scale: [U256::from(50_000_000_000_000_000_000_000u128), U256::from(2_500_000_000_000_000_000_000u128)],
        price_oracle: [U256::from(50_000_000_000_000_000_000_000u128), U256::from(2_500_000_000_000_000_000_000u128)],
        last_prices: [U256::from(50_000_000_000_000_000_000_000u128), U256::from(2_500_000_000_000_000_000_000u128)],
        last_prices_timestamp: 1_000,
        d: U256::from(3_000_000_000_000_000_000_000_000u128),
        virtual_price: U256::from(1_000_000_000_000_000_000u64),
        xcp_profit: U256::from(1_000_000_000_000_000_000u64),
        xcp_profit_a: U256::from(1_000_000_000_000_000_000u64),
        admin_fee: U256::from(5_000_000_000u64),
        ann: U256::from(2_700_000u64),
        gamma: U256::from(1_300_000_000_000u64),
        mid_fee: U256::from(2_999_999u64),
        out_fee: U256::from(80_000_000u64),
        fee_gamma: U256::from(350_000_000_000_000u64),
        precisions: [U256::from(1_000_000_000_000u64), U256::from(10_000_000_000u64), U256::from(1u64)],
        total_supply: U256::from(2_000_000_000_000_000_000_000u128),
        allowed_extra_profit: U256::from(100_000_000u64),
        adjustment_step: U256::from(100_000_000_000u64),
        ma_half_time: U256::from(600u64),
        not_adjusted: false,
        future_a_gamma_time: U256::from(0u64),
    }
}

#[test]
fn exchanges_move_the_price_scales_of_the_first_generation() {
    let mut s = state();
    let out = s.exchange(0, 1, U256::from(50_000_000_000u64), 2_000, &solve_y).unwrap();
    assert_eq!(out.dy, U256::from(94_702_102u64));
    assert_eq!(out.fee, U256::from(668_838u64));
    assert_eq!(s.balances, [U256::from(1_050_000_000_000u64), U256::from(1_905_297_898u64), U256::from(400_000_000_000_000_000_000u128)]);
    assert_eq!(s.price_scale, [U256::from(50_000_000_000_000_000_000_000u128), U256::from(2_500_000_000_000_000_000_000u128)]);
    assert_eq!(s.price_oracle, [U256::from(50_000_000_000_000_000_000_000u128), U256::from(2_500_000_000_000_000_000_000u128)]);
    assert_eq!(s.last_prices, [U256::from(55_055_314_518_992_025_617_628u128), U256::from(2_623_675_832_383_594_440_854u128)]);
    assert_eq!(s.last_prices_timestamp, 2_000);
    assert_eq!(s.d, U256::from(3_000_350_952_551_778_144_358_208u128));
    assert_eq!(s.virtual_price, U256::from(1_000_116_984_183_926_048u64));
    assert_eq!(s.xcp_profit, U256::from(1_000_116_984_183_926_048u64));
    assert_eq!(s.xcp_profit_a, U256::from(1_000_000_000_000_000_000u64));
    assert_eq!(s.total_supply, U256::from(2_000_000_000_000_000_000_000u128));
    assert!(!s.not_adjusted);
    assert_eq!(s.future_a_gamma_time, U256::from(0u64));
    let out = s.exchange(1, 2, U256::from(100_000_000u64), 5_000, &solve_y).unwrap();
    assert_eq!(out.dy, U256::from(19_806_972_080_573_153_993u128));
    assert_eq!(out.fee, U256::from(140_687_660_507_346_090u64));
    assert_eq!(s.balances, [U256::from(1_050_000_000_000u64), U256::from(2_005_297_898u64), U256::from(380_193_027_919_426_846_007u128)]);
    assert_eq!(s.price_scale, [U256::from(50_979_467_188_054_704_945_450u128), U256::from(2_523_962_192_524_321_422_475u128)]);
    assert_eq!(s.price_oracle, [U256::from(54_897_335_940_273_524_817_077u128), U256::from(2_619_810_962_621_607_114_577u128)]);
    assert_eq!(s.last_prices, [U256::from(52_337_065_684_573_981_230_027u128), U256::from(2_759_065_858_570_882_543_405u128)]);
    assert_eq!(s.last_prices_timestamp, 5_000);
    assert_eq!(s.d, U256::from(3_029_803_446_221_904_544_740_676u128));
    assert_eq!(s.virtual_price, U256::from(1_000_239_096_235_605_533u64));
    assert_eq!(s.xcp_profit, U256::from(1_000_240_315_497_513_996u64));
    assert_eq!(s.xcp_profit_a, U256::from(1_000_000_000_000_000_000u64));
    assert_eq!(s.total_supply, U256::from(2_000_000_000_000_000_000_000u128));
    assert!(s.not_adjusted);
    assert_eq!(s.future_a_gamma_time, U256::from(0u64));
    let out = s.exchange(2, 0, U256::from(30_000_000_000_000_000_000u128), 8_000, &solve_y).unwrap();
    assert_eq!(out.dy, U256::from(76_311_524_837u64));
    assert_eq!(out.fee, U256::from(467_608_354u64));
    assert_eq!(s.balances, [U256::from(973_688_475_163u64), U256::from(2_005_297_898u64), U256::from(410_193_027_919_426_846_007u128)]);
    assert_eq!(s.price_scale, [U256::from(51_266_988_576_456_682_337_763u128), U256::from(2_570_112_582_633_950_673_301u128)]);
    assert_eq!(s.price_oracle, [U256::from(52_417_074_130_064_591_967_122u128), U256::from(2_754_714_143_072_467_686_254u128)]);
    assert_eq!(s.last_prices, [U256::from(48_596_932_664_203_991_803_065u128), U256::from(2_376_281_243_168_274_595_985u128)]);
    assert_eq!(s.last_prices_timestamp, 8_000);
    assert_eq!(s.d, U256::from(3_054_376_147_249_677_042_633_762u128));
    assert_eq!(s.virtual_price, U256::from(1_000_402_151_948_819_798u64));
    assert_eq!(s.xcp_profit, U256::from(1_000_400_384_435_157_970u64));
    assert_eq!(s.xcp_profit_a, U256::from(1_000_000_000_000_000_000u64));
    assert_eq!(s.total_supply, U256::from(2_000_000_000_000_000_000_000u128));
    assert!(s.not_adjusted);
    assert_eq!(s.future_a_gamma_time, U256::from(0u64));
    let out = s.exchange(0, 2, U256::from(100_000_000_000u64), 11_000, &solve_y).unwrap();
    assert_eq!(out.dy, U256::from(37_932_321_968_764_512_686u128));
    assert_eq!(out.fee, U256::from(278_336_701_134_462_872u64));
    assert_eq!(s.balances, [U256::from(1_073_688_475_163u64), U256::from(2_005_297_898u64), U256::from(372_260_705_950_662_333_321u128)]);
    assert_eq!(s.price_scale, [U256::from(50_756_853_278_167_772_993_637u128), U256::from(2_533_711_520_365_216_665_492u128)]);
    assert_eq!(s.price_oracle, [U256::from(48_716_312_085_012_135_558_191u128), U256::from(2_388_107_271_290_280_630_055u128)]);
    assert_eq!(s.last_prices, [U256::from(53_523_540_782_479_385_062_711u128), U256::from(2_881_603_690_814_841_245_520u128)]);
    assert_eq!(s.last_prices_timestamp, 11_000);
    assert_eq!(s.d, U256::from(3_030_532_551_173_620_626_966_111u128));
    assert_eq!(s.virtual_price, U256::from(1_000_653_573_924_452_819u64));
    assert_eq!(s.xcp_profit, U256::from(1_000_649_717_180_515_000u64));
    assert_eq!(s.xcp_profit_a, U256::from(1_000_000_000_000_000_000u64));
    assert_eq!(s.total_supply, U256::from(2_000_000_000_000_000_000_000u128));
    assert!(s.not_adjusted);
    assert_eq!(s.future_a_gamma_time, U256::from(0u64));
    let out = s.exchange(1, 0, U256::from(300_000_000u64), 14_000, &solve_y).unwrap();
    assert_eq!(out.dy, U256::from(138_675_603_101u64));
    assert_eq!(out.fee, U256::from(1_095_772_107u64));
    assert_eq!(s.balances, [U256::from(935_012_872_062u64), U256::from(2_305_297_898u64), U256::from(372_260_705_950_662_333_321u128)]);
    assert_eq!(s.price_scale, [U256::from(51_280_145_599_670_925_086_913u128), U256::from(2_600_205_601_833_113_076_235u128)]);
    assert_eq!(s.price_oracle, [U256::from(53_373_314_885_683_533_515_694u128), U256::from(2_866_181_927_704_698_726_286u128)]);
    assert_eq!(s.last_prices, [U256::from(40_585_269_945_372_101_041_256u128), U256::from(2_511_773_614_680_746_874_758u128)]);
    assert_eq!(s.last_prices_timestamp, 14_000);
    assert_eq!(s.d, U256::from(3_068_482_416_037_319_398_100_271u128));
    assert_eq!(s.virtual_price, U256::from(1_001_044_557_477_217_745u64));
    assert_eq!(s.xcp_profit, U256::from(1_001_040_834_405_318_602u64));
    assert_eq!(s.xcp_profit_a, U256::from(1_000_000_000_000_000_000u64));
    assert_eq!(s.total_supply, U256::from(2_000_000_000_000_000_000_000u128));
    assert!(s.not_adjusted);
    assert_eq!(s.future_a_gamma_time, U256::from(0u64));
    let out = s.exchange(2, 1, U256::from(5_000_000_000_000_000_000u64), 17_000, &solve_y).unwrap();
    assert_eq!(out.dy, U256::from(30_297_358u64));
    assert_eq!(out.fee, U256::from(238_419u64));
    assert_eq!(s.balances, [U256::from(935_012_872_062u64), U256::from(2_275_000_540u64), U256::from(377_260_705_950_662_333_321u128)]);
    assert_eq!(s.price_scale, [U256::from(49_221_095_749_688_106_740_892u128), U256::from(2_584_734_256_359_039_535_087u128)]);
    assert_eq!(s.price_oracle, [U256::from(40_984_896_349_756_833_306_082u128), U256::from(2_522_848_874_462_745_370_118u128)]);
    assert_eq!(s.last_prices, [U256::from(41_128_353_683_906_379_074_935u128), U256::from(2_478_773_977_623_565_883_741u128)]);
    assert_eq!(s.last_prices_timestamp, 17_000);
    assert_eq!(s.d, U256::from(3_020_923_820_567_719_300_103_982u128));
    assert_eq!(s.virtual_price, U256::from(1_001_073_882_926_601_077u64));
    assert_eq!(s.xcp_profit, U256::from(1_001_075_821_254_504_153u64));
    assert_eq!(s.xcp_profit_a, U256::from(1_000_000_000_000_000_000u64));
    assert_eq!(s.total_supply, U256::from(2_000_000_000_000_000_000_000u128));
    assert!(s.not_adjusted);
    assert_eq!(s.future_a_gamma_time, U256::from(0u64));
}

#[test]
fn a_move_that_is_due_but_has_no_room_ends_in_a_claim() {
    let mut s = state();
    s.not_adjusted = true;
    s.xcp_profit = U256::from(1_001_000_000_000_000_000u64);
    let out = s.exchange(0, 1, U256::from(1_000_000_000u64), 1_000, &solve_y).unwrap();
    assert_eq!(out.dy, U256::from(1_999_291u64));
    assert_eq!(out.fee, U256::from(643u64));
    assert_eq!(s.balances, [U256::from(1_001_000_000_000u64), U256::from(1_998_000_709u64), U256::from(400_000_000_000_000_000_000u128)]);
    assert_eq!(s.price_scale, [U256::from(50_000_000_000_000_000_000_000u128), U256::from(2_500_000_000_000_000_000_000u128)]);
    assert_eq!(s.price_oracle, [U256::from(50_000_000_000_000_000_000_000u128), U256::from(2_500_000_000_000_000_000_000u128)]);
    assert_eq!(s.last_prices, [U256::from(50_005_900_621_612_974_284_296u128), U256::from(2_500_147_392_419_326_539_097u128)]);
    assert_eq!(s.last_prices_timestamp, 1_000);
    assert_eq!(s.d, U256::from(3_000_000_321_827_804_525_506_994u128));
    assert_eq!(s.virtual_price, U256::from(999_750_080_430_132_149u64));
    assert_eq!(s.xcp_profit, U256::from(1_000_500_053_691_605_389u64));
    assert_eq!(s.xcp_profit_a, U256::from(1_000_500_053_691_605_389u64));
    assert_eq!(s.total_supply, U256::from(2_000_500_178_696_049_958_000u128));
    assert!(!s.not_adjusted);
    assert_eq!(s.future_a_gamma_time, U256::from(0u64));
}

#[test]
fn a_move_that_does_not_pay_ends_in_a_claim() {
    let mut s = state();
    s.price_oracle = [U256::from(50_500_000_000_000_000_000_000u128), U256::from(2_500_000_000_000_000_000_000u128)];
    s.virtual_price = U256::from(999_999_000_000_000_000u64);
    s.xcp_profit = U256::from(2_000_000_000_000_000_000u64);
    s.not_adjusted = true;
    let out = s.exchange(0, 1, U256::from(1_000_000_000u64), 1_000, &solve_y).unwrap();
    assert_eq!(out.dy, U256::from(1_999_291u64));
    assert_eq!(out.fee, U256::from(643u64));
    assert_eq!(s.balances, [U256::from(1_001_000_000_000u64), U256::from(1_998_000_709u64), U256::from(400_000_000_000_000_000_000u128)]);
    assert_eq!(s.price_scale, [U256::from(50_000_000_000_000_000_000_000u128), U256::from(2_500_000_000_000_000_000_000u128)]);
    assert_eq!(s.price_oracle, [U256::from(50_500_000_000_000_000_000_000u128), U256::from(2_500_000_000_000_000_000_000u128)]);
    assert_eq!(s.last_prices, [U256::from(50_005_900_621_612_974_284_296u128), U256::from(2_500_147_392_419_326_539_097u128)]);
    assert_eq!(s.last_prices_timestamp, 1_000);
    assert_eq!(s.d, U256::from(3_000_000_321_827_804_525_506_994u128));
    assert_eq!(s.virtual_price, U256::from(749_999_553_637_413_782u64));
    assert_eq!(s.xcp_profit, U256::from(1_500_001_107_277_042_118u64));
    assert_eq!(s.xcp_profit_a, U256::from(1_500_001_107_277_042_118u64));
    assert_eq!(s.total_supply, U256::from(2_666_668_539_803_914_260_000u128));
    assert!(!s.not_adjusted);
    assert_eq!(s.future_a_gamma_time, U256::from(0u64));
}

#[test]
fn refused_requests_change_nothing_in_the_first_generation() {
    let mut s = state();
    assert!(s.exchange(0, 0, U256::from(5u64), 9_000, &solve_y).is_none());
    assert!(s.exchange(2, 2, U256::from(5u64), 9_000, &solve_y).is_none());
    assert!(s.exchange(0, 3, U256::from(5u64), 9_000, &solve_y).is_none());
    assert!(s.exchange(3, 0, U256::from(5u64), 9_000, &solve_y).is_none());
    assert!(s.exchange(0, 1, U256::from(0u64), 9_000, &solve_y).is_none());
    assert!(s.exchange(7, 9, U256::from(1u64), 9_000, &solve_y).is_none());
    assert_eq!(s.balances, [U256::from(1_000_000_000_000u64), U256::from(2_000_000_000u64), U256::from(400_000_000_000_000_000_000u128)]);
    assert_eq!(s.price_scale, [U256::from(50_000_000_000_000_000_000_000u128), U256::from(2_500_000_000_000_000_000_000u128)]);
    assert_eq!(s.price_oracle, [U256::from(50_000_000_000_000_000_000_000u128), U256::from(2_500_000_000_000_000_000_000u128)]);
    assert_eq!(s.last_prices, [U256::from(50_000_000_000_000_000_000_000u128), U256::from(2_500_000_000_000_000_000_000u128)]);
    assert_eq!(s.last_prices_timestamp, 1_000);
    assert_eq!(s.d, U256::from(3_000_000_000_000_000_000_000_000u128));
    assert_eq!(s.virtual_price, U256::from(1_000_000_000_000_000_000u64));
    assert_eq!(s.xcp_profit, U256::from(1_000_000_000_000_000_000u64));
    assert_eq!(s.xcp_profit_a, U256::from(1_000_000_000_000_000_000u64));
    assert_eq!(s.total_supply, U256::from(2_000_000_000_000_000_000_000u128));
    assert!(!s.not_adjusted);
    assert_eq!(s.future_a_gamma_time, U256::from(0u64));
}

#[test]
fn without_an_answer_what_came_in_stays_in_the_first_generation() {
    let mut s = state();
    assert!(s.exchange(2, 1, U256::from(7_000_000_000_000_000_000u64), 9_000, &no_y).is_none());
    assert_eq!(s.balances, [U256::from(1_000_000_000_000u64), U256::from(2_000_000_000u64), U256::from(407_000_000_000_000_000_000u128)]);
    assert_eq!(s.price_scale, [U256::from(50_000_000_000_000_000_000_000u128), U256::from(2_500_000_000_000_000_000_000u128)]);
    assert_eq!(s.price_oracle, [U256::from(50_000_000_000_000_000_000_000u128), U256::from(2_500_000_000_000_000_000_000u128)]);
    assert_eq!(s.last_prices, [U256::from(50_000_000_000_000_000_000_000u128), U256::from(2_500_000_000_000_000_000_000u128)]);
    assert_eq!(s.last_prices_timestamp, 1_000);
    assert_eq!(s.d, U256::from(3_000_000_000_000_000_000_000_000u128));
    assert_eq!(s.virtual_price, U256::from(1_000_000_000_000_000_000u64));
    assert_eq!(s.xcp_profit, U256::from(1_000_000_000_000_000_000u64));
    assert_eq!(s.xcp_profit_a, U256::from(1_000_000_000_000_000_000u64));
    assert_eq!(s.total_supply, U256::from(2_000_000_000_000_000_000_000u128));
    assert!(!s.not_adjusted);
    assert_eq!(s.future_a_gamma_time, U256::from(0u64));
}

#[test]
fn ramp_of_three_coins_ends() {
    let mut s = state();
    s.future_a_gamma_time = U256::from(5_000u64);
    let out = s.exchange(1, 0, U256::from(10_000_000u64), 4_000, &solve_y).unwrap();
    assert_eq!(out.dy, U256::from(4_982_772_977u64));
    assert_eq!(out.fee, U256::from(4_049_624u64));
    assert_eq!(s.balances, [U256::from(995_017_227_023u64), U256::from(2_010_000_000u64), U256::from(400_000_000_000_000_000_000u128)]);
    assert_eq!(s.price_scale, [U256::from(50_000_000_000_000_000_000_000u128), U256::from(2_500_000_000_000_000_000_000u128)]);
    assert_eq!(s.price_oracle, [U256::from(50_000_000_000_000_000_000_000u128), U256::from(2_500_000_000_000_000_000_000u128)]);
    assert_eq!(s.last_prices, [U256::from(49_623_001_441_478_842_317_725u128), U256::from(2_490_544_984_904_233_712_599u128)]);
    assert_eq!(s.last_prices_timestamp, 4_000);
    assert_eq!(s.d, U256::from(3_000_004_065_007_282_950_411_445u128));
    assert_eq!(s.virtual_price, U256::from(1_000_001_355_002_427_650u64));
    assert_eq!(s.xcp_profit, U256::from(1_000_001_355_002_427_650u64));
    assert_eq!(s.xcp_profit_a, U256::from(1_000_000_000_000_000_000u64));
    assert_eq!(s.total_supply, U256::from(2_000_000_000_000_000_000_000u128));
    assert!(!s.not_adjusted);
    assert_eq!(s.future_a_gamma_time, U256::from(5_000u64));
    let out = s.exchange(0, 1, U256::from(1_000_000_000u64), 6_000, &solve_y).unwrap();
    assert_eq!(out.dy, U256::from(2_011_660u64));
    assert_eq!(out.fee, U256::from(1_277u64));
    assert_eq!(s.balances, [U256::from(996_017_227_023u64), U256::from(2_007_988_340u64), U256::from(400_000_000_000_000_000_000u128)]);
    assert_eq!(s.price_scale, [U256::from(49_932_080_887_228_294_755_082u128), U256::from(2_498_296_608_244_162_593_745u128)]);
    assert_eq!(s.price_oracle, [U256::from(49_660_404_436_141_473_596_639u128), U256::from(2_491_483_041_220_812_964_242u128)]);
    assert_eq!(s.last_prices, [U256::from(49_734_852_340_534_700_995_837u128), U256::from(2_493_354_881_564_615_228_914u128)]);
    assert_eq!(s.last_prices_timestamp, 6_000);
    assert_eq!(s.d, U256::from(2_997_962_629_159_282_644_310_128u128));
    assert_eq!(s.virtual_price, U256::from(1_000_000_943_886_060_902u64));
    assert_eq!(s.xcp_profit, U256::from(1_000_001_567_412_834_898u64));
    assert_eq!(s.xcp_profit_a, U256::from(1_000_000_000_000_000_000u64));
    assert_eq!(s.total_supply, U256::from(2_000_000_000_000_000_000_000u128));
    assert!(s.not_adjusted);
    assert_eq!(s.future_a_gamma_time, U256::from(0u64));
}

#[test]
fn a_loss_keeps_the_old_values_in_the_first_generation() {
    let mut s = state();
    s.virtual_price = U256::from(2_000_000_000_000_000_000u64);
    let out = s.exchange(0, 1, U256::from(100_000_000u64), 3_000, &solve_y).unwrap();
    assert_eq!(out.dy, U256::from(199_939u64));
    assert_eq!(out.fee, U256::from(60u64));
    assert_eq!(s.balances, [U256::from(1_000_100_000_000u64), U256::from(1_999_800_061u64), U256::from(400_000_000_000_000_000_000u128)]);
    assert_eq!(s.price_scale, [U256::from(50_000_000_000_000_000_000_000u128), U256::from(2_500_000_000_000_000_000_000u128)]);
    assert_eq!(s.price_oracle, [U256::from(50_000_000_000_000_000_000_000u128), U256::from(2_500_000_000_000_000_000_000u128)]);
    assert_eq!(s.last_prices, [U256::from(50_000_113_796_360_886_706_068u128), U256::from(2_500_002_858_790_093_148_672u128)]);
    assert_eq!(s.last_prices_timestamp, 3_000);
    assert_eq!(s.d, U256::from(3_000_000_000_000_000_000_000_000u128));
    assert_eq!(s.virtual_price, U256::from(2_000_000_000_000_000_000u64));
    assert_eq!(s.xcp_profit, U256::from(1_000_000_000_000_000_000u64));
    assert_eq!(s.xcp_profit_a, U256::from(1_000_000_000_000_000_000u64));
    assert_eq!(s.total_supply, U256::from(2_000_000_000_000_000_000_000u128));
    assert!(!s.not_adjusted);
    assert_eq!(s.future_a_gamma_time, U256::from(0u64));
}

#[test]
fn the_first_virtual_price_in_the_first_generation_is_one() {
    let mut s = state();
    s.virtual_price = U256::from(0u64);
    let out = s.exchange(0, 1, U256::from(100_000_000u64), 3_000, &solve_y).unwrap();
    assert_eq!(out.dy, U256::from(199_939u64));
    assert_eq!(out.fee, U256::from(60u64));
    assert_eq!(s.balances, [U256::from(1_000_100_000_000u64), U256::from(1_999_800_061u64), U256::from(400_000_000_000_000_000_000u128)]);
    assert_eq!(s.price_scale, [U256::from(50_000_000_000_000_000_000_000u128), U256::from(2_500_000_000_000_000_000_000u128)]);
    assert_eq!(s.price_oracle, [U256::from(50_000_000_000_000_000_000_000u128), U256::from(2_500_000_000_000_000_000_000u128)]);
    assert_eq!(s.last_prices, [U256::from(50_000_113_796_360_886_706_068u128), U256::from(2_500_002_858_790_093_148_672u128)]);
    assert_eq!(s.last_prices_timestamp, 3_000);
    assert_eq!(s.d, U256::from(3_000_000_030_388_485_020_973_935u128));
    assert_eq!(s.virtual_price, U256::from(1_000_000_000_000_000_000u64));
    assert_eq!(s.xcp_profit, U256::from(1_000_000_000_000_000_000u64));
    assert_eq!(s.xcp_profit_a, U256::from(1_000_000_000_000_000_000u64));
    assert_eq!(s.total_supply, U256::from(2_000_000_000_000_000_000_000u128));
    assert!(!s.not_adjusted);
    assert_eq!(s.future_a_gamma_time, U256::from(0u64));
}

#[test]
fn three_coins_without_half_life_are_a_fault() {
    let mut s = state();
    s.ma_half_time = U256::from(0u64);
    assert_eq!(s.try_exchange(0, 1, U256::from(100_000_000u64), 3_000, &solve_y).err(), Some(Fault));
    assert_eq!(s.balances, [U256::from(1_000_000_000_000u64), U256::from(2_000_000_000u64), U256::from(400_000_000_000_000_000_000u128)]);
    assert_eq!(s.price_scale, [U256::from(50_000_000_000_000_000_000_000u128), U256::from(2_500_000_000_000_000_000_000u128)]);
    assert_eq!(s.price_oracle, [U256::from(50_000_000_000_000_000_000_000u128), U256::from(2_500_000_000_000_000_000_000u128)]);
    assert_eq!(s.last_prices, [U256::from(50_000_000_000_000_000_000_000u128), U256::from(2_500_000_000_000_000_000_000u128)]);
    assert_eq!(s.last_prices_timestamp, 1_000);
    assert_eq!(s.d, U256::from(3_000_000_000_000_000_000_000_000u128));
    assert_eq!(s.virtual_price, U256::from(1_000_000_000_000_000_000u64));
    assert_eq!(s.xcp_profit, U256::from(1_000_000_000_000_000_000u64));
    assert_eq!(s.xcp_profit_a, U256::from(1_000_000_000_000_000_000u64));
    assert_eq!(s.total_supply, U256::from(2_000_000_000_000_000_000_000u128));
    assert!(!s.not_adjusted);
    assert_eq!(s.future_a_gamma_time, U256::from(0u64));
}

#[test]
fn the_admin_share_of_three_coins_is_claimed() {
    let mut s = state();
    s.xcp_profit = U256::from(1_001_000_000_000_000_000u64);
    s.virtual_price = U256::from(1_000_500_000_000_000_000u64);
    s.claim_admin_fees();
    assert_eq!(s.balances, [U256::from(1_000_000_000_000u64), U256::from(2_000_000_000u64), U256::from(400_000_000_000_000_000_000u128)]);
    assert_eq!(s.price_scale, [U256::from(50_000_000_000_000_000_000_000u128), U256::from(2_500_000_000_000_000_000_000u128)]);
    assert_eq!(s.price_oracle, [U256::from(50_000_000_000_000_000_000_000u128), U256::from(2_500_000_000_000_000_000_000u128)]);
    assert_eq!(s.last_prices, [U256::from(50_000_000_000_000_000_000_000u128), U256::from(2_500_000_000_000_000_000_000u128)]);
    assert_eq!(s.last_prices_timestamp, 1_000);
    assert_eq!(s.d, U256::from(3_000_000_000_000_000_000_000_000u128));
    assert_eq!(s.virtual_price, U256::from(999_750_124_937_531_235u64));
    assert_eq!(s.xcp_profit, U256::from(1_000_500_000_000_000_000u64));
    assert_eq!(s.xcp_profit_a, U256::from(1_000_500_000_000_000_000u64));
    assert_eq!(s.total_supply, U256::from(2_000_499_875_031_242_188_000u128));
    assert!(!s.not_adjusted);
    assert_eq!(s.future_a_gamma_time, U256::from(0u64));
}

#[test]
fn a_claim_of_three_coins_without_a_price_is_a_fault() {
    let mut s = state();
    s.price_scale = [U256::from(1_000_000_000_000_000_000u64), U256::from(0u64)];
    s.claim_admin_fees();
    assert_eq!(s.balances, [U256::from(1_000_000_000_000u64), U256::from(2_000_000_000u64), U256::from(400_000_000_000_000_000_000u128)]);
    assert_eq!(s.price_scale, [U256::from(1_000_000_000_000_000_000u64), U256::from(0u64)]);
    assert_eq!(s.price_oracle, [U256::from(50_000_000_000_000_000_000_000u128), U256::from(2_500_000_000_000_000_000_000u128)]);
    assert_eq!(s.last_prices, [U256::from(50_000_000_000_000_000_000_000u128), U256::from(2_500_000_000_000_000_000_000u128)]);
    assert_eq!(s.last_prices_timestamp, 1_000);
    assert_eq!(s.d, U256::from(3_000_000_000_000_000_000_000_000u128));
    assert_eq!(s.virtual_price, U256::from(1_000_000_000_000_000_000u64));
    assert_eq!(s.xcp_profit, U256::from(1_000_000_000_000_000_000u64));
    assert_eq!(s.xcp_profit_a, U256::from(1_000_000_000_000_000_000u64));
    assert_eq!(s.total_supply, U256::from(2_000_000_000_000_000_000_000u128));
    assert!(!s.not_adjusted);
    assert_eq!(s.future_a_gamma_time, U256::from(0u64));
}

#[test]
fn geometric_mean_3_known_values() {
    assert_eq!(geometric_mean_3([U256::from(8u64), U256::from(27u64), U256::from(64u64)]), U256::from(24u64));
    assert_eq!(geometric_mean_3([U256::from(64u64), U256::from(8u64), U256::from(27u64)]), U256::from(24u64));
    assert_eq!(geometric_mean_3([U256::from(1_000_000_000_000_000_000u64), U256::from(1_000_000_000_000_000_000u64), U256::from(1_000_000_000_000_000_000u64)]), U256::from(1_000_000_000_000_000_000u64));
    assert_eq!(geometric_mean_3([U256::from(1_000_000_000_000_000_000_000_000_000_000u128), U256::from(1u64), U256::from(1u64)]), U256::from(10_000_000_000u64));
    assert_eq!(geometric_mean_3([U256::from(123_456_789_012_345_678_901_234u128), U256::from(500_000_000_000_000_000_000u128), U256::from(70_000_000_000_000_000_000_000_000u128)]), U256::from(162_877_467_164_505_116_316_087u128));
    assert_eq!(geometric_mean_3([U256::from(1u64), U256::from(2u64), U256::from(3u64)]), U256::from(2u64));
    assert_eq!(geometric_mean_3([U256::from(3u64), U256::from(0u64), U256::from(0u64)]), U256::from(2u64));
    assert_eq!(geometric_mean_3([U256::from(5u64), U256::from(5u64), U256::from(0u64)]), U256::from(2u64));
    assert_eq!(try_geometric_mean_3([U256::zero(), U256::zero(), U256::zero()]).err(), Some(Fault));
}

#[test]
fn invariant_of_the_first_generation() {
    assert_eq!(newton_d_3_v1(U256::from(2_700_000u64), U256::from(1_300_000_000_000u64), [U256::from(1_000_000_000_000_000_000_000_000u128), U256::from(1_000_000_000_000_000_000_000_000u128), U256::from(1_000_000_000_000_000_000_000_000u128)]), Ok(Some(U256::from(3_000_000_000_000_000_000_000_000u128))));
    assert_eq!(newton_d_3_v1(U256::from(2_700_000u64), U256::from(1_300_000_000_000u64), [U256::from(1_000_000_000_000_000_000_000_000u128), U256::from(2_000_000_000_000_000_000_000_000u128), U256::from(500_000_000_000_000_000_000_000u128)]), Ok(Some(U256::from(3_000_422_729_113_298_808_890_008u128))));
    assert_eq!(newton_d_3_v1(U256::from(2_700_000u64), U256::from(1_300_000_000_000u64), [U256::from(500_000_000_000_000_000_000_000u128), U256::from(1_000_000_000_000_000_000_000_000u128), U256::from(2_000_000_000_000_000_000_000_000u128)]), Ok(Some(U256::from(3_000_422_729_113_298_808_890_008u128))));
    assert_eq!(newton_d_3_v1(U256::from(2_700_000u64), U256::from(1_300_000_000_000u64), [U256::from(1_000_000_000_000_000_000_000_000_000_000u128), U256::from(1u64), U256::from(1u64)]), Ok(Some(U256::from(10_535_458_396_626u64))));
    assert_eq!(newton_d_3_v1(U256::from(2_700_000u64), U256::from(1_300_000_000_000u64), [U256::from(0u64), U256::from(0u64), U256::from(0u64)]), Ok(None));
    assert_eq!(newton_d_3_v1(U256::zero(), U256::from(1_300_000_000_000u64), [U256::from(1_000_000_000_000_000_000_000_000u128), U256::from(1_000_000_000_000_000_000_000_000u128), U256::from(1_000_000_000_000_000_000_000_000u128)]), Err(Fault));
}

#[test]
fn fees_of_the_first_generation() {
    assert_eq!(fee_3(&[U256::from(1_000_000_000_000_000_000_000_000u128), U256::from(1_000_000_000_000_000_000_000_000u128), U256::from(1_000_000_000_000_000_000_000_000u128)], U256::from(3_000_000u64), U256::from(30_000_000u64), U256::from(230_000_000_000_000u64)), Ok(U256::from(3_000_000u64)));
    assert_eq!(fee_3(&[U256::from(1_000_000_000_000_000_000_000_000u128), U256::from(2_000_000_000_000_000_000_000_000u128), U256::from(100_000_000_000_000_000_000_000u128)], U256::from(3_000_000u64), U256::from(30_000_000u64), U256::from(230_000_000_000_000u64)), Ok(U256::from(29_992_417u64)));
    assert_eq!(fee_3(&[U256::from(1_000_000_000_000_000_000_000_000u128), U256::from(2_000_000_000_000_000_000_000_000u128), U256::from(100_000_000_000_000_000_000_000u128)], U256::from(3_000_000u64), U256::from(30_000_000u64), U256::from(0u64)), Ok(U256::from(25_105_904u64)));
    let none = [U256::zero(), U256::zero(), U256::zero()];
    assert_eq!(fee_3(&none, U256::zero(), U256::zero(), U256::zero()).err(), Some(Fault));
}

#[test]
fn geometric_mean_3_is_within_one_of_the_cube_root() {
    let one = U256::from(1u64);
    let two = U256::from(2u64);
    for (a, b, c) in [
        (10u128, 10u128, 10u128),
        (347, 298, 155),
        (603_244, 603_242, 603_243),
        (21_548_928_813_128_640, 17_269_534_881_703_796, 7_380_068_065_261_385),
        (1_924_650_458_064_008_543_162, 1_924_650_458_064_008_543_160, 1_924_650_458_064_008_543_158),
    ] {
        let x = [U256::from(a), U256::from(b), U256::from(c)];
        let product = x[0] * x[1] * x[2];
        let r = geometric_mean_3(x);
        assert!((r - one) * (r - one) * (r - one) <= product);
        assert!(product < (r + two) * (r + two) * (r + two));
    }
}

#[test]
fn newton_d_3_v1_lies_between_the_means() {
    let e9 = U256::from(1_000_000_000u64);
    let unit = 1_000_000_000_000_000u128;
    for (a, b, c) in [(10_000u128, 10_000u128, 10_000u128), (9_000, 1_000, 3_000), (1, 20, 30)] {
        let x = [U256::from(a * 1_000 * unit), U256::from(b * 1_000 * unit), U256::from(c * 1_000 * unit)];
        let found = newton_d_3_v1(U256::from(1_707_629u64), U256::from(11_809_167_828_997u64), x);
        let d = found.expect("no fault").expect("converges");
        assert!(d <= x[0] + x[1] + x[2] + U256::from(3u64));
        let product = U256::from(27 * a * b * c * 1_000_000_000u128);
        let part = d / U256::from(unit) + U256::from(1u64);
        assert!(product * e9 <= (e9 + U256::from(1u64)) * part * part * part);
    }
}

#[test]
fn newton_d_3_v1_of_an_even_split() {
    for b in [1u128, 10_000_000_000_000_000_000_000, 1_000_000_000_000_000_000_000_000_000_000_000] {
        let x = U256::from(b);
        assert_eq!(
            newton_d_3_v1(U256::from(1_707_629u64), U256::from(11_809_167_828_997u64), [x, x, x]),
            Ok(Some(U256::from(3 * b)))
        );
    }
}
