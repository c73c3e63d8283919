//! Three-coin pools of the second generation.
use curve_math::exchange_ng::{fee_3, get_p, try_wad_exp, wad_exp, TriCryptoNGState};
use curve_math::fault::Fault;
use curve_math::newton::WAD;
use curve_math::signed::I256;
use curve_math::uint::U256;

fn state() -> TriCryptoNGState {
    TriCryptoNGState {
        balances: [U256::from(1_000_000_000_000u64), U256::from(2_000_000_000u64), U256::from(400_000_000_000_000_000_000u128)],
        price_scale: [U256::from(50_000_000_000_000_000_000_000u128), U256::from(2_500_000_000_000_000_000_000u128)],
        price_oracle: [U256::from(50_000_000_000_000_000_000_000u128), U256::from(2_500_000_000_000_000_000_000u128)],
        last_prices: [U256::from(50_000_000_000_000_000_000_000u128), U256::from(2_500_000_000_000_000_000_000u128)],
        last_prices_timestamp: 1_000,
        d: U256::from(3_000_000_000_000_000_000_000_000u128),
        virtual_price: U256::from(1_000_000_000_000_000_000u64),
        xcp_profit: U256::from(1_000_000_000_000_000_000u64),
        xcp_profit_a: U256::from(1_000_000_000_000_000_000u64),
        admin_lp_virtual_balance: U256::from(17u64),
        is_weth_variant: true,
        ann: U256::from(2_700_000u64),
        gamma: U256::from(1_300_000_000_000u64),
        mid_fee: U256::from(2_999_999u64),
        out_fee: U256::from(80_000_000u64),
        fee_gamma: U256::from(350_000_000_000_000u64),
        precisions: [U256::from(1_000_000_000_000u64), U256::from(10_000_000_000u64), U256::from(1u64)],
        total_supply: U256::from(2_000_000_000_000_000_000_000u128),
        allowed_extra_profit: U256::from(100_000_000u64),
        adjustment_step: U256::from(100_000_000_000u64),
        ma_time: U256::from(865u64),
        future_a_gamma_time: U256::from(0u64),
    }
}

#[test]
fn exchanges_move_the_price_scales() {
    let mut s = state();
    let out = s.exchange(0, 1, U256::from(50_000_000_000u64), 2_000).unwrap();
    assert_eq!(out.dy, U256::from(94_702_102u64));
    assert_eq!(out.fee, U256::from(668_838u64));
    assert_eq!(s.balances, [U256::from(1_050_000_000_000u64), U256::from(1_905_297_898u64), U256::from(400_000_000_000_000_000_000u128)]);
    assert_eq!(s.price_scale, [U256::from(50_000_000_000_000_000_000_000u128), U256::from(2_500_000_000_000_000_000_000u128)]);
    assert_eq!(s.price_oracle, [U256::from(50_000_000_000_000_000_000_000u128), U256::from(2_500_000_000_000_000_000_000u128)]);
    assert_eq!(s.last_prices, [U256::from(55_055_259_244_135_742_000_000u128), U256::from(2_623_673_225_824_969_497_500u128)]);
    assert_eq!(s.last_prices_timestamp, 2_000);
    assert_eq!(s.d, U256::from(3_000_350_952_551_778_144_811_428u128));
    assert_eq!(s.virtual_price, U256::from(1_000_116_984_183_926_048u64));
    assert_eq!(s.xcp_profit, U256::from(1_000_116_984_183_926_048u64));
    assert_eq!(s.xcp_profit_a, U256::from(1_000_000_000_000_000_000u64));
    assert_eq!(s.total_supply, U256::from(2_000_000_000_000_000_000_000u128));
    assert_eq!(s.future_a_gamma_time, U256::from(0u64));
    let out = s.exchange(1, 2, U256::from(100_000_000u64), 5_000).unwrap();
    assert_eq!(out.dy, U256::from(19_806_972_080_573_154_754u128));
    assert_eq!(out.fee, U256::from(140_687_660_507_346_096u64));
    assert_eq!(s.balances, [U256::from(1_050_000_000_000u64), U256::from(2_005_297_898u64), U256::from(380_193_027_919_426_845_246u128)]);
    assert_eq!(s.price_scale, [U256::from(50_979_534_491_828_273_406_224u128), U256::from(2_523_963_596_041_440_111_232u128)]);
    assert_eq!(s.price_oracle, [U256::from(54_897_672_459_141_367_076_034u128), U256::from(2_619_817_980_207_200_557_263u128)]);
    assert_eq!(s.last_prices, [U256::from(52_337_013_705_891_635_400_000u128), U256::from(2_759_063_088_895_203_480_000u128)]);
    assert_eq!(s.last_prices_timestamp, 5_000);
    assert_eq!(s.d, U256::from(3_029_805_341_010_549_133_704_745u128));
    assert_eq!(s.virtual_price, U256::from(1_000_239_096_189_003_783u64));
    assert_eq!(s.xcp_profit, U256::from(1_000_240_315_497_513_995u64));
    assert_eq!(s.xcp_profit_a, U256::from(1_000_000_000_000_000_000u64));
    assert_eq!(s.total_supply, U256::from(2_000_000_000_000_000_000_000u128));
    assert_eq!(s.future_a_gamma_time, U256::from(0u64));
    let out = s.exchange(2, 0, U256::from(30_000_000_000_000_000_000u128), 8_000).unwrap();
    assert_eq!(out.dy, U256::from(76_311_522_405u64));
    assert_eq!(out.fee, U256::from(467_611_421u64));
    assert_eq!(s.balances, [U256::from(973_688_477_595u64), U256::from(2_005_297_898u64), U256::from(410_193_027_919_426_845_246u128)]);
    assert_eq!(s.price_scale, [U256::from(51_266_994_935_501_344_101_362u128), U256::from(2_570_115_361_527_631_811_046u128)]);
    assert_eq!(s.price_oracle, [U256::from(52_416_836_710_193_626_896_937u128), U256::from(2_754_722_423_472_398_612_718u128)]);
    assert_eq!(s.last_prices, [U256::from(48_596_884_748_933_210_149_245u128), U256::from(2_376_278_839_233_931_347_847u128)]);
    assert_eq!(s.last_prices_timestamp, 8_000);
    assert_eq!(s.d, U256::from(3_054_377_377_421_655_968_072_634u128));
    assert_eq!(s.virtual_price, U256::from(1_000_402_152_949_194_125u64));
    assert_eq!(s.xcp_profit, U256::from(1_000_400_385_485_249_756u64));
    assert_eq!(s.xcp_profit_a, U256::from(1_000_000_000_000_000_000u64));
    assert_eq!(s.total_supply, U256::from(2_000_000_000_000_000_000_000u128));
    assert_eq!(s.future_a_gamma_time, U256::from(0u64));
    let out = s.exchange(0, 2, U256::from(100_000_000_000u64), 11_000).unwrap();
    assert_eq!(out.dy, U256::from(37_932_321_978_755_373_299u128));
    assert_eq!(out.fee, U256::from(278_336_223_918_911_012u64));
    assert_eq!(s.balances, [U256::from(1_073_688_477_595u64), U256::from(2_005_297_898u64), U256::from(372_260_705_940_671_471_947u128)]);
    assert_eq!(s.price_scale, [U256::from(50_756_788_648_056_778_726_857u128), U256::from(2_533_707_489_290_337_911_653u128)]);
    assert_eq!(s.price_oracle, [U256::from(48_715_963_498_278_517_140_429u128), U256::from(2_388_076_000_341_162_307_775u128)]);
    assert_eq!(s.last_prices, [U256::from(53_523_487_536_818_414_712_515u128), U256::from(2_881_600_797_279_721_474_100u128)]);
    assert_eq!(s.last_prices_timestamp, 11_000);
    assert_eq!(s.d, U256::from(3_030_529_660_670_196_638_933_715u128));
    assert_eq!(s.virtual_price, U256::from(1_000_653_574_899_450_421u64));
    assert_eq!(s.xcp_profit, U256::from(1_000_649_717_802_890_427u64));
    assert_eq!(s.xcp_profit_a, U256::from(1_000_000_000_000_000_000u64));
    assert_eq!(s.total_supply, U256::from(2_000_000_000_000_000_000_000u128));
    assert_eq!(s.future_a_gamma_time, U256::from(0u64));
    let out = s.exchange(1, 0, U256::from(300_000_000u64), 14_000).unwrap();
    assert_eq!(out.dy, U256::from(138_675_602_688u64));
    assert_eq!(out.fee, U256::from(1_095_771_991u64));
    assert_eq!(s.balances, [U256::from(935_012_874_907u64), U256::from(2_305_297_898u64), U256::from(372_260_705_940_671_471_947u128)]);
    assert_eq!(s.price_scale, [U256::from(51_280_155_590_770_209_825_725u128), U256::from(2_600_209_237_032_421_042_417u128)]);
    assert_eq!(s.price_oracle, [U256::from(53_373_623_361_623_934_221_201u128), U256::from(2_866_216_228_000_753_565_477u128)]);
    assert_eq!(s.last_prices, [U256::from(40_585_229_434_205_128_699_771u128), U256::from(2_511_771_107_015_066_716_010u128)]);
    assert_eq!(s.last_prices_timestamp, 14_000);
    assert_eq!(s.d, U256::from(3_068_484_048_208_133_146_692_330u128));
    assert_eq!(s.virtual_price, U256::from(1_001_044_558_434_176_811u64));
    assert_eq!(s.xcp_profit, U256::from(1_001_040_834_986_043_014u64));
    assert_eq!(s.xcp_profit_a, U256::from(1_000_000_000_000_000_000u64));
    assert_eq!(s.total_supply, U256::from(2_000_000_000_000_000_000_000u128));
    assert_eq!(s.future_a_gamma_time, U256::from(0u64));
    let out = s.exchange(2, 1, U256::from(5_000_000_000_000_000_000u64), 17_000).unwrap();
    assert_eq!(out.dy, U256::from(30_297_358u64));
    assert_eq!(out.fee, U256::from(238_419u64));
    assert_eq!(s.balances, [U256::from(935_012_874_907u64), U256::from(2_275_000_540u64), U256::from(377_260_705_940_671_471_947u128)]);
    assert_eq!(s.price_scale, [U256::from(49_220_900_469_702_333_141_621u128), U256::from(2_584_731_423_201_802_486_791u128)]);
    assert_eq!(s.price_oracle, [U256::from(40_983_879_985_430_826_354_483u128), U256::from(2_522_820_167_879_328_263_908u128)]);
    assert_eq!(s.last_prices, [U256::from(41_128_312_732_983_445_288_783u128), U256::from(2_478_771_524_180_581_651_590u128)]);
    assert_eq!(s.last_prices_timestamp, 17_000);
    assert_eq!(s.d, U256::from(3_020_918_723_131_109_933_773_008u128));
    assert_eq!(s.virtual_price, U256::from(1_001_073_883_390_381_697u64));
    assert_eq!(s.xcp_profit, U256::from(1_001_075_821_846_035_829u64));
    assert_eq!(s.xcp_profit_a, U256::from(1_000_000_000_000_000_000u64));
    assert_eq!(s.total_supply, U256::from(2_000_000_000_000_000_000_000u128));
    assert_eq!(s.future_a_gamma_time, U256::from(0u64));
}

#[test]
fn refused_requests_change_nothing_in_three_coins() {
    let mut s = state();
    assert!(s.exchange(0, 0, U256::from(5u64), 9_000).is_none());
    assert!(s.exchange(2, 2, U256::from(5u64), 9_000).is_none());
    assert!(s.exchange(0, 3, U256::from(5u64), 9_000).is_none());
    assert!(s.exchange(3, 0, U256::from(5u64), 9_000).is_none());
    assert!(s.exchange(0, 1, U256::from(0u64), 9_000).is_none());
    assert!(s.exchange(7, 9, U256::from(1u64), 9_000).is_none());
    assert_eq!(s.balances, [U256::from(1_000_000_000_000u64), U256::from(2_000_000_000u64), U256::from(400_000_000_000_000_000_000u128)]);
    assert_eq!(s.price_scale, [U256::from(50_000_000_000_000_000_000_000u128), U256::from(2_500_000_000_000_000_000_000u128)]);
    assert_eq!(s.price_oracle, [U256::from(50_000_000_000_000_000_000_000u128), U256::from(2_500_000_000_000_000_000_000u128)]);
    assert_eq!(s.last_prices, [U256::from(50_000_000_000_000_000_000_000u128), U256::from(2_500_000_000_000_000_000_000u128)]);
    assert_eq!(s.last_prices_timestamp, 1_000);
    assert_eq!(s.d, U256::from(3_000_000_000_000_000_000_000_000u128));
    assert_eq!(s.virtual_price, U256::from(1_000_000_000_000_000_000u64));
    assert_eq!(s.xcp_profit, U256::from(1_000_000_000_000_000_000u64));
    assert_eq!(s.xcp_profit_a, U256::from(1_000_000_000_000_000_000u64));
    assert_eq!(s.total_supply, U256::from(2_000_000_000_000_000_000_000u128));
    assert_eq!(s.future_a_gamma_time, U256::from(0u64));
}

#[test]
fn without_an_answer_what_came_in_stays_in_three_coins() {
    let mut s = state();
    assert!(s.exchange(0, 1, U256::from(1_000_000_000_000_000_000_000_000_000_000u128), 9_000).is_none());
    assert_eq!(s.balances, [U256::from(1_000_000_000_000_000_001_000_000_000_000u128), U256::from(2_000_000_000u64), U256::from(400_000_000_000_000_000_000u128)]);
    assert_eq!(s.price_scale, [U256::from(50_000_000_000_000_000_000_000u128), U256::from(2_500_000_000_000_000_000_000u128)]);
    assert_eq!(s.price_oracle, [U256::from(50_000_000_000_000_000_000_000u128), U256::from(2_500_000_000_000_000_000_000u128)]);
    assert_eq!(s.last_prices, [U256::from(50_000_000_000_000_000_000_000u128), U256::from(2_500_000_000_000_000_000_000u128)]);
    assert_eq!(s.last_prices_timestamp, 1_000);
    assert_eq!(s.d, U256::from(3_000_000_000_000_000_000_000_000u128));
    assert_eq!(s.virtual_price, U256::from(1_000_000_000_000_000_000u64));
    assert_eq!(s.xcp_profit, U256::from(1_000_000_000_000_000_000u64));
    assert_eq!(s.xcp_profit_a, U256::from(1_000_000_000_000_000_000u64));
    assert_eq!(s.total_supply, U256::from(2_000_000_000_000_000_000_000u128));
    assert_eq!(s.future_a_gamma_time, U256::from(0u64));
}

#[test]
fn ramp_solves_for_the_invariant_while_it_lasts() {
    let mut s = state();
    s.future_a_gamma_time = U256::from(5_000u64);
    let out = s.exchange(1, 0, U256::from(10_000_000u64), 4_000).unwrap();
    assert_eq!(out.dy, U256::from(4_982_772_977u64));
    assert_eq!(out.fee, U256::from(4_049_624u64));
    assert_eq!(s.balances, [U256::from(995_017_227_023u64), U256::from(2_010_000_000u64), U256::from(400_000_000_000_000_000_000u128)]);
    assert_eq!(s.price_scale, [U256::from(50_000_000_000_000_000_000_000u128), U256::from(2_500_000_000_000_000_000_000u128)]);
    assert_eq!(s.price_oracle, [U256::from(50_000_000_000_000_000_000_000u128), U256::from(2_500_000_000_000_000_000_000u128)]);
    assert_eq!(s.last_prices, [U256::from(49_622_946_494_968_327_000_000u128), U256::from(2_490_542_878_816_417_020_000u128)]);
    assert_eq!(s.last_prices_timestamp, 4_000);
    assert_eq!(s.d, U256::from(3_000_004_065_007_282_950_087_011u128));
    assert_eq!(s.virtual_price, U256::from(1_000_001_355_002_427_650u64));
    assert_eq!(s.xcp_profit, U256::from(1_000_001_355_002_427_650u64));
    assert_eq!(s.xcp_profit_a, U256::from(1_000_000_000_000_000_000u64));
    assert_eq!(s.total_supply, U256::from(2_000_000_000_000_000_000_000u128));
    assert_eq!(s.future_a_gamma_time, U256::from(5_000u64));
    let out = s.exchange(0, 1, U256::from(1_000_000_000u64), 6_000).unwrap();
    assert_eq!(out.dy, U256::from(2_011_660u64));
    assert_eq!(out.fee, U256::from(1_277u64));
    assert_eq!(s.balances, [U256::from(996_017_227_023u64), U256::from(2_007_988_340u64), U256::from(400_000_000_000_000_000_000u128)]);
    assert_eq!(s.price_scale, [U256::from(49_932_058_667_511_311_363_329u128), U256::from(2_498_295_919_793_490_161_245u128)]);
    assert_eq!(s.price_oracle, [U256::from(49_660_293_337_556_556_816_648u128), U256::from(2_491_479_598_967_450_806_227u128)]);
    assert_eq!(s.last_prices, [U256::from(49_734_795_960_523_845_950_000u128), U256::from(2_493_352_927_826_618_735_000u128)]);
    assert_eq!(s.last_prices_timestamp, 6_000);
    assert_eq!(s.d, U256::from(2_997_961_908_449_078_170_109_478u128));
    assert_eq!(s.virtual_price, U256::from(1_000_000_943_675_030_415u64));
    assert_eq!(s.xcp_profit, U256::from(1_000_001_567_412_834_898u64));
    assert_eq!(s.xcp_profit_a, U256::from(1_000_000_000_000_000_000u64));
    assert_eq!(s.total_supply, U256::from(2_000_000_000_000_000_000_000u128));
    assert_eq!(s.future_a_gamma_time, U256::from(5_000u64));
}

#[test]
fn a_loss_keeps_the_old_values_in_three_coins() {
    let mut s = state();
    s.virtual_price = U256::from(2_000_000_000_000_000_000u64);
    let out = s.exchange(0, 1, U256::from(100_000_000u64), 3_000).unwrap();
    assert_eq!(out.dy, U256::from(199_939u64));
    assert_eq!(out.fee, U256::from(60u64));
    assert_eq!(s.balances, [U256::from(1_000_100_000_000u64), U256::from(1_999_800_061u64), U256::from(400_000_000_000_000_000_000u128)]);
    assert_eq!(s.price_scale, [U256::from(50_000_000_000_000_000_000_000u128), U256::from(2_500_000_000_000_000_000_000u128)]);
    assert_eq!(s.price_oracle, [U256::from(50_000_000_000_000_000_000_000u128), U256::from(2_500_000_000_000_000_000_000u128)]);
    assert_eq!(s.last_prices, [U256::from(50_000_113_196_475_190_450_000u128), U256::from(2_500_002_830_060_559_120_000u128)]);
    assert_eq!(s.last_prices_timestamp, 3_000);
    assert_eq!(s.d, U256::from(3_000_000_000_000_000_000_000_000u128));
    assert_eq!(s.virtual_price, U256::from(2_000_000_000_000_000_000u64));
    assert_eq!(s.xcp_profit, U256::from(1_000_000_000_000_000_000u64));
    assert_eq!(s.xcp_profit_a, U256::from(1_000_000_000_000_000_000u64));
    assert_eq!(s.total_supply, U256::from(2_000_000_000_000_000_000_000u128));
    assert_eq!(s.future_a_gamma_time, U256::from(0u64));
}

#[test]
fn a_loss_in_a_ramp_is_taken() {
    let mut s = state();
    s.virtual_price = U256::from(2_000_000_000_000_000_000u64);
    s.future_a_gamma_time = U256::from(4_000u64);
    let out = s.exchange(0, 1, U256::from(100_000_000u64), 3_000).unwrap();
    assert_eq!(out.dy, U256::from(199_939u64));
    assert_eq!(out.fee, U256::from(60u64));
    assert_eq!(s.balances, [U256::from(1_000_100_000_000u64), U256::from(1_999_800_061u64), U256::from(400_000_000_000_000_000_000u128)]);
    assert_eq!(s.price_scale, [U256::from(50_000_000_000_000_000_000_000u128), U256::from(2_500_000_000_000_000_000_000u128)]);
    assert_eq!(s.price_oracle, [U256::from(50_000_000_000_000_000_000_000u128), U256::from(2_500_000_000_000_000_000_000u128)]);
    assert_eq!(s.last_prices, [U256::from(50_000_113_196_475_190_450_000u128), U256::from(2_500_002_830_060_559_120_000u128)]);
    assert_eq!(s.last_prices_timestamp, 3_000);
    assert_eq!(s.d, U256::from(3_000_000_030_388_485_020_978_404u128));
    assert_eq!(s.virtual_price, U256::from(1_000_000_010_129_495_006u64));
    assert_eq!(s.xcp_profit, U256::from(500_000_005_064_747_503u64));
    assert_eq!(s.xcp_profit_a, U256::from(1_000_000_000_000_000_000u64));
    assert_eq!(s.total_supply, U256::from(2_000_000_000_000_000_000_000u128));
    assert_eq!(s.future_a_gamma_time, U256::from(4_000u64));
}

#[test]
fn the_first_virtual_price_of_three_coins_is_one() {
    let mut s = state();
    s.virtual_price = U256::from(0u64);
    let out = s.exchange(0, 1, U256::from(100_000_000u64), 3_000).unwrap();
    assert_eq!(out.dy, U256::from(199_939u64));
    assert_eq!(out.fee, U256::from(60u64));
    assert_eq!(s.balances, [U256::from(1_000_100_000_000u64), U256::from(1_999_800_061u64), U256::from(400_000_000_000_000_000_000u128)]);
    assert_eq!(s.price_scale, [U256::from(50_000_000_000_000_000_000_000u128), U256::from(2_500_000_000_000_000_000_000u128)]);
    assert_eq!(s.price_oracle, [U256::from(50_000_000_000_000_000_000_000u128), U256::from(2_500_000_000_000_000_000_000u128)]);
    assert_eq!(s.last_prices, [U256::from(50_000_113_196_475_190_450_000u128), U256::from(2_500_002_830_060_559_120_000u128)]);
    assert_eq!(s.last_prices_timestamp, 3_000);
    assert_eq!(s.d, U256::from(3_000_000_030_388_485_020_978_404u128));
    assert_eq!(s.virtual_price, U256::from(1_000_000_000_000_000_000u64));
    assert_eq!(s.xcp_profit, U256::from(1_000_000_000_000_000_000u64));
    assert_eq!(s.xcp_profit_a, U256::from(1_000_000_000_000_000_000u64));
    assert_eq!(s.total_supply, U256::from(2_000_000_000_000_000_000_000u128));
    assert_eq!(s.future_a_gamma_time, U256::from(0u64));
}

#[test]
fn a_moving_average_without_time_is_a_fault() {
    let mut s = state();
    s.ma_time = U256::from(0u64);
    assert_eq!(s.try_exchange(0, 1, U256::from(100_000_000u64), 3_000).err(), Some(Fault));
    assert_eq!(s.balances, [U256::from(1_000_000_000_000u64), U256::from(2_000_000_000u64), U256::from(400_000_000_000_000_000_000u128)]);
    assert_eq!(s.price_scale, [U256::from(50_000_000_000_000_000_000_000u128), U256::from(2_500_000_000_000_000_000_000u128)]);
    assert_eq!(s.price_oracle, [U256::from(50_000_000_000_000_000_000_000u128), U256::from(2_500_000_000_000_000_000_000u128)]);
    assert_eq!(s.last_prices, [U256::from(50_000_000_000_000_000_000_000u128), U256::from(2_500_000_000_000_000_000_000u128)]);
    assert_eq!(s.last_prices_timestamp, 1_000);
    assert_eq!(s.d, U256::from(3_000_000_000_000_000_000_000_000u128));
    assert_eq!(s.virtual_price, U256::from(1_000_000_000_000_000_000u64));
    assert_eq!(s.xcp_profit, U256::from(1_000_000_000_000_000_000u64));
    assert_eq!(s.xcp_profit_a, U256::from(1_000_000_000_000_000_000u64));
    assert_eq!(s.total_supply, U256::from(2_000_000_000_000_000_000_000u128));
    assert_eq!(s.future_a_gamma_time, U256::from(0u64));
}

#[test]
fn liquidity_is_removed_in_one_coin() {
    let mut s = state();
    let out = s.exchange(0, 1, U256::from(50_000_000_000u64), 2_000).unwrap();
    assert_eq!(out.dy, U256::from(94_702_102u64));
    assert_eq!(out.fee, U256::from(668_838u64));
    assert_eq!(s.apply_remove_liquidity_one(U256::from(40_000_000_000_000_000_000u128), 1, U256::from(111_680_044u64), 5_000), Some(U256::from(2_969_069_397_069_357_459_882_333u128)));
    assert_eq!(s.balances, [U256::from(1_050_000_000_000u64), U256::from(1_793_617_854u64), U256::from(400_000_000_000_000_000_000u128)]);
    assert_eq!(s.price_scale, [U256::from(50_979_534_491_828_273_406_224u128), U256::from(2_523_963_596_041_440_111_232u128)]);
    assert_eq!(s.price_oracle, [U256::from(54_897_672_459_141_367_076_034u128), U256::from(2_619_817_980_207_200_557_263u128)]);
    assert_eq!(s.last_prices, [U256::from(58_493_748_526_273_490_450_000u128), U256::from(2_624_309_944_243_709_865_000u128)]);
    assert_eq!(s.last_prices_timestamp, 5_000);
    assert_eq!(s.d, U256::from(2_969_069_397_069_357_459_882_333u128));
    assert_eq!(s.virtual_price, U256::from(1_000_191_989_183_578_637u64));
    assert_eq!(s.xcp_profit, U256::from(1_000_194_646_834_491_664u64));
    assert_eq!(s.xcp_profit_a, U256::from(1_000_000_000_000_000_000u64));
    assert_eq!(s.total_supply, U256::from(1_960_000_000_000_000_000_000u128));
    assert_eq!(s.future_a_gamma_time, U256::from(0u64));
    assert_eq!(s.apply_remove_liquidity_one(U256::from(40_000_000_000_000_000_000u128), 0, U256::from(62_746_383_073u64), 6_000), Some(U256::from(2_940_402_363_678_803_639_485_108u128)));
    assert_eq!(s.balances, [U256::from(987_253_616_927u64), U256::from(1_793_617_854u64), U256::from(400_000_000_000_000_000_000u128)]);
    assert_eq!(s.price_scale, [U256::from(52_256_025_307_246_757_177_202u128), U256::from(2_543_750_122_773_708_337_972u128)]);
    assert_eq!(s.price_oracle, [U256::from(57_361_988_568_920_692_455_722u128), U256::from(2_622_896_229_702_781_247_951u128)]);
    assert_eq!(s.last_prices, [U256::from(55_004_071_672_663_206_053_009u128), U256::from(2_468_663_234_808_299_314_239u128)]);
    assert_eq!(s.last_prices_timestamp, 6_000);
    assert_eq!(s.d, U256::from(2_940_402_363_678_803_639_485_108u128));
    assert_eq!(s.virtual_price, U256::from(1_000_262_543_273_465_334u64));
    assert_eq!(s.xcp_profit, U256::from(1_000_268_626_868_126_995u64));
    assert_eq!(s.xcp_profit_a, U256::from(1_000_000_000_000_000_000u64));
    assert_eq!(s.total_supply, U256::from(1_920_000_000_000_000_000_000u128));
    assert_eq!(s.future_a_gamma_time, U256::from(0u64));
    assert_eq!(s.apply_remove_liquidity_one(U256::from(800_000_000_000_000_000_000u128), 2, U256::from(319_952_450_372_642_793_873u128), 6_000), Some(U256::from(1_734_852_185_702_044_232_790_252u128)));
    assert_eq!(s.balances, [U256::from(987_253_616_927u64), U256::from(1_793_617_854u64), U256::from(80_047_549_627_357_206_127u128)]);
    assert_eq!(s.price_scale, [U256::from(53_277_217_959_581_544_203_030u128), U256::from(2_559_579_344_159_522_919_504u128)]);
    assert_eq!(s.price_oracle, [U256::from(57_361_988_568_920_692_455_722u128), U256::from(2_622_896_229_702_781_247_951u128)]);
    assert_eq!(s.last_prices, [U256::from(55_041_513_328_593_704_369_166u128), U256::from(12_329_577_627_161_699_004_506u128)]);
    assert_eq!(s.last_prices_timestamp, 6_000);
    assert_eq!(s.d, U256::from(1_734_852_185_702_044_232_790_252u128));
    assert_eq!(s.virtual_price, U256::from(1_003_120_613_670_521_614u64));
    assert_eq!(s.xcp_profit, U256::from(1_003_126_537_230_607_357u64));
    assert_eq!(s.xcp_profit_a, U256::from(1_000_000_000_000_000_000u64));
    assert_eq!(s.total_supply, U256::from(1_120_000_000_000_000_000_000u128));
    assert_eq!(s.future_a_gamma_time, U256::from(0u64));
}

#[test]
fn refused_withdrawals_change_nothing() {
    let mut s = state();
    assert!(s.apply_remove_liquidity_one(U256::from(5u64), 3, U256::from(1u64), 5_000).is_none());
    assert!(s.apply_remove_liquidity_one(U256::from(40_000_000_000_000_000_000u128), 1, U256::from(1u64), 5_000).is_none());
    assert!(s.apply_remove_liquidity_one(U256::from(1u64), 0, U256::from(1u64), 5_000).is_none());
    assert!(s.apply_remove_liquidity_one(U256::from(40_000_000_000_000_000_000_000u128), 0, U256::from(1u64), 5_000).is_none());
    assert_eq!(s.balances, [U256::from(1_000_000_000_000u64), U256::from(2_000_000_000u64), U256::from(400_000_000_000_000_000_000u128)]);
    assert_eq!(s.price_scale, [U256::from(50_000_000_000_000_000_000_000u128), U256::from(2_500_000_000_000_000_000_000u128)]);
    assert_eq!(s.price_oracle, [U256::from(50_000_000_000_000_000_000_000u128), U256::from(2_500_000_000_000_000_000_000u128)]);
    assert_eq!(s.last_prices, [U256::from(50_000_000_000_000_000_000_000u128), U256::from(2_500_000_000_000_000_000_000u128)]);
    assert_eq!(s.last_prices_timestamp, 1_000);
    assert_eq!(s.d, U256::from(3_000_000_000_000_000_000_000_000u128));
    assert_eq!(s.virtual_price, U256::from(1_000_000_000_000_000_000u64));
    assert_eq!(s.xcp_profit, U256::from(1_000_000_000_000_000_000u64));
    assert_eq!(s.xcp_profit_a, U256::from(1_000_000_000_000_000_000u64));
    assert_eq!(s.total_supply, U256::from(2_000_000_000_000_000_000_000u128));
    assert_eq!(s.future_a_gamma_time, U256::from(0u64));
    s.total_supply = U256::from(0u64);
    assert!(s.apply_remove_liquidity_one(U256::from(5u64), 0, U256::from(1u64), 5_000).is_none());
    assert_eq!(s.balances, [U256::from(1_000_000_000_000u64), U256::from(2_000_000_000u64), U256::from(400_000_000_000_000_000_000u128)]);
    assert_eq!(s.price_scale, [U256::from(50_000_000_000_000_000_000_000u128), U256::from(2_500_000_000_000_000_000_000u128)]);
    assert_eq!(s.price_oracle, [U256::from(50_000_000_000_000_000_000_000u128), U256::from(2_500_000_000_000_000_000_000u128)]);
    assert_eq!(s.last_prices, [U256::from(50_000_000_000_000_000_000_000u128), U256::from(2_500_000_000_000_000_000_000u128)]);
    assert_eq!(s.last_prices_timestamp, 1_000);
    assert_eq!(s.d, U256::from(3_000_000_000_000_000_000_000_000u128));
    assert_eq!(s.virtual_price, U256::from(1_000_000_000_000_000_000u64));
    assert_eq!(s.xcp_profit, U256::from(1_000_000_000_000_000_000u64));
    assert_eq!(s.xcp_profit_a, U256::from(1_000_000_000_000_000_000u64));
    assert_eq!(s.total_supply, U256::from(0u64));
    assert_eq!(s.future_a_gamma_time, U256::from(0u64));
}

#[test]
fn wad_exp_zero() {
    let result = wad_exp(I256::zero());
    assert_eq!(result, U256::from(WAD), "e^0 should be 1e18");
}

#[test]
fn wad_exp_one() {
    let result = wad_exp(I256::from_unsigned(U256::from(WAD)).unwrap());
    let expected = U256::from(2_718_281_828_459_045_235u128);
    let diff = if result > expected { result - expected } else { expected - result };
    assert!(diff < U256::from(1_000_000_000u64), "e^1 precision: diff={diff:?}");
}

#[test]
fn wad_exp_negative() {
    let neg_one = I256::from_unsigned(U256::from(WAD)).unwrap().try_neg().unwrap();
    let result = wad_exp(neg_one);
    let expected = U256::from(367_879_441_171_442_321u64);
    let diff = if result > expected { result - expected } else { expected - result };
    assert!(diff < U256::from(1_000_000_000u64), "e^-1 precision");
}

fn below_zero(v: u128) -> I256 {
    I256::from_u128(v).try_neg().unwrap()
}

#[test]
fn wad_exp_known_values() {
    assert_eq!(wad_exp(below_zero(1)), U256::from(999_999_999_999_999_999u64));
    assert_eq!(wad_exp(below_zero(1_000_000_000_000_000)), U256::from(999_000_499_833_374_991u64));
    assert_eq!(wad_exp(below_zero(500_000_000_000_000_000)), U256::from(606_530_659_712_633_423u64));
    assert_eq!(wad_exp(below_zero(1_000_000_000_000_000_000)), U256::from(367_879_441_171_442_321u64));
    assert_eq!(wad_exp(below_zero(2_000_000_000_000_000_000)), U256::from(135_335_283_236_612_691u64));
    assert_eq!(wad_exp(below_zero(10_000_000_000_000_000_000)), U256::from(45_399_929_762_484u64));
    assert_eq!(wad_exp(below_zero(41_000_000_000_000_000_000)), U256::from(1u64));
    assert_eq!(wad_exp(below_zero(42_139_678_854_452_767_550)), U256::from(0u64));
    assert_eq!(wad_exp(below_zero(42_139_678_854_452_767_551)), U256::from(0u64));
    assert_eq!(wad_exp(below_zero(50_000_000_000_000_000_000)), U256::from(0u64));
    assert_eq!(wad_exp(I256::from_u128(1)), U256::from(1_000_000_000_000_000_001u64));
    assert_eq!(wad_exp(I256::from_u128(1_000_000_000_000_000_000)), U256::from(2_718_281_828_459_045_235u64));
    assert_eq!(wad_exp(I256::from_u128(20_000_000_000_000_000_000)), U256::from(485_165_195_409_790_277_974_777_105u128));
    assert_eq!(wad_exp(I256::from_u128(100_000_000_000_000_000_000)), U256::from_limbs([451_643_712_148_193_217, 8_866_687_283_970_644_696, 7_704_740_211_227_583_207, 4_282]));
    assert_eq!(wad_exp(I256::from_u128(135_000_000_000_000_000_000)), U256::from_limbs([14_823_510_457_194_641_374, 2_924_987_726_681_613_072, 6_458_286_544_745_203_115, 6_791_972_040_663_585_885]));
    assert_eq!(wad_exp(I256::from_u128(200_000_000_000_000_000_000)), U256::from(0u64));
    assert_eq!(try_wad_exp(I256 { limbs: [u64::MAX, u64::MAX, u64::MAX, u64::MAX >> 1] }).unwrap(), U256::from(999_999_999_999_999_999u64));
}

#[test]
fn marginal_prices_of_three_coins() {
    let p = get_p([U256::from(1_000_000_000_000_000_000_000_000u128), U256::from(1_100_000_000_000_000_000_000_000u128), U256::from(900_000_000_000_000_000_000_000u128)], U256::from(2_990_080_060_481_416_929_172_389u128), [U256::from(2_700_000u64), U256::from(1_300_000_000_000u64)]).unwrap();
    assert_eq!(p, [U256::from(909_440_323_088_268_957u64), U256::from(1_110_684_049_558_782_385u64)]);
    assert_eq!(get_p([U256::from(1_000_000_000_000_000_000_000_000u128), U256::from(1_100_000_000_000_000_000_000_000u128), U256::from(900_000_000_000_000_000_000_000u128)], U256::zero(), [U256::from(2_700_000u64), U256::from(1_300_000_000_000u64)]).err(), Some(Fault));
    assert_eq!(get_p([U256::from(1_000_000_000_000_000_000_000_000u128), U256::zero(), U256::from(900_000_000_000_000_000_000_000u128)], U256::from(2_990_080_060_481_416_929_172_389u128), [U256::from(2_700_000u64), U256::from(1_300_000_000_000u64)]).err(), Some(Fault));
}

#[test]
fn fees_of_three_coins() {
    assert_eq!(fee_3(&[U256::from(1_000_000_000_000_000_000_000_000u128), U256::from(1_000_000_000_000_000_000_000_000u128), U256::from(1_000_000_000_000_000_000_000_000u128)], U256::from(3_000_000u64), U256::from(30_000_000u64), U256::from(230_000_000_000_000u64)), Ok(U256::from(3_000_000u64)));
    assert_eq!(fee_3(&[U256::from(1_000_000_000_000_000_000_000_000u128), U256::from(2_000_000_000_000_000_000_000_000u128), U256::from(100_000_000_000_000_000_000_000u128)], U256::from(3_000_000u64), U256::from(30_000_000u64), U256::from(230_000_000_000_000u64)), Ok(U256::from(29_992_417u64)));
    assert_eq!(fee_3(&[U256::from(1_000_000_000_000_000_000_000_000u128), U256::from(2_000_000_000_000_000_000_000_000u128), U256::from(100_000_000_000_000_000_000_000u128)], U256::from(3_000_000u64), U256::from(30_000_000u64), U256::from(0u64)), Ok(U256::from(25_105_904u64)));
    assert_eq!(fee_3(&[U256::from(1u64), U256::from(0u64), U256::from(0u64)], U256::from(5u64), U256::from(9u64), U256::from(7u64)), Ok(U256::from(8u64)));
    let none = [U256::zero(), U256::zero(), U256::zero()];
    assert_eq!(fee_3(&none, U256::zero(), U256::zero(), U256::zero()).err(), Some(Fault));
}
