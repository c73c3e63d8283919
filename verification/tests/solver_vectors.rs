//! The solvers on balances, parameters and invariants of many sizes.
use curve_math::fault::Fault;
use curve_math::solvers::{tricrypto_ng, twocrypto_ng};
use curve_math::uint::U256;

#[test]
fn balance_of_two_coins_by_the_cubic() {
    assert_eq!(
        twocrypto_ng::try_get_y_2_ng(U256::from(1_786_063u64), U256::from(351_120_945_697_891u64), [U256::from(5_681_720_480_174_571_520_000u128), U256::from(6_776_909_826_236_230_926_336u128)], U256::from(13_561_988_478_460_750_632_995u128), 0),
        Ok(Some((U256::from(6_785_078_679_523_305_549_988u128), U256::from(999_999_641_218_952_637u64))))
    );
    assert_eq!(
        twocrypto_ng::try_get_y_2_ng(U256::from(14_817_755u64), U256::from(42_014_079_177_707_112u64), [U256::from(582_123_804_570_961_942_937_600u128), U256::from(21_662_169_919_821_294_075_904u128)], U256::from(407_954_265_714_714_344_535_890u128), 1),
        Ok(Some((U256::from(21_662_169_919_821_294_010_645u128), U256::from(303_077_957_167_293_316u64))))
    );
    assert_eq!(
        twocrypto_ng::try_get_y_2_ng(U256::from(33_981u64), U256::from(496_767_886_803u64), [U256::from(4_451_414_300_295_112_192u64), U256::from(6_462_698_721_636_301_824u64)], U256::from(89_565_938_757_504_544u64), 0),
        Ok(None)
    );
    assert_eq!(
        twocrypto_ng::try_get_y_2_ng(U256::from(21_703u64), U256::from(45_741_177_900_538u64), [U256::from(786_929_369_919_938_625_536u128), U256::from(190_390_814_006_466_936_832u128)], U256::from(774_540_915_978_092_120_761u128), 1),
        Ok(Some((U256::from(190_390_814_006_466_936_484u128), U256::from(998_971_289_742_108_845u64))))
    );
    assert_eq!(
        twocrypto_ng::try_get_y_2_ng(U256::from(18_329_786u64), U256::from(695_065_667_790_632u64), [U256::from(313_199_005_139_637_248u64), U256::from(913_103_176_047_209_856u64)], U256::from(899_549_824_174_452_476u64), 0),
        Ok(Some((U256::from(208_570_371_059_659_042u64), U256::from(941_416_947_978_862_591u64))))
    );
    assert_eq!(
        twocrypto_ng::try_get_y_2_ng(U256::from(68_892_383u64), U256::from(39_191_593_198_211u64), [U256::from(477_111_338_092_523_225_088u128), U256::from(201_860_541_075_024_871_424u128)], U256::from(623_718_358_727_758_505_686u128), 1),
        Ok(Some((U256::from(201_860_541_075_024_871_089u128), U256::from(990_271_104_552_440_199u64))))
    );
    assert_eq!(
        twocrypto_ng::try_get_y_2_ng(U256::from(4_541u64), U256::from(269_008_000_865u64), [U256::from(12_984_288_683_589_744_640u64), U256::from(95_582_022_803_772_440_576u128)], U256::from(83_992_296_999_425_775_898u128), 0),
        Ok(Some((U256::from(18_451_552_431_351_271_185u128), U256::from(999_977_442_829_357_060u64))))
    );
    assert_eq!(
        twocrypto_ng::try_get_y_2_ng(U256::from(331_715_676u64), U256::from(409_309_143_479u64), [U256::from(92_266_134_421_286_844_641_574_912u128), U256::from(363_176_136_608_259_877_237_686_272u128)], U256::from(328_414_288_099_529_918_287_805_351u128), 1),
        Ok(Some((U256::from(291_954_877_013_594_930_013_149_091u128), U256::from(999_019_498_476_978_823u64))))
    );
    assert_eq!(
        twocrypto_ng::try_get_y_2_ng(U256::from(463_456u64), U256::from(115_971_165_714_362_112u64), [U256::from(373_154_323_437_310_066_653_396_992u128), U256::from(537_134_637_018_846_862_952_628_224u128)], U256::from(909_310_544_988_414_288_351_126_344u128), 0),
        Ok(Some((U256::from(373_154_323_437_310_066_442_564_444u128), U256::from(969_632_520_388_864_736u64))))
    );
    assert_eq!(
        twocrypto_ng::try_get_y_2_ng(U256::from(67_345u64), U256::from(145_014_418_060_808_288u64), [U256::from(468_678_376_163_804_446_720u128), U256::from(342_528_609_159_744_323_584u128)], U256::from(808_496_786_293_130_599_284u128), 1),
        Ok(Some((U256::from(342_528_609_159_744_323_313u128), U256::from(982_370_162_205_636_014u64))))
    );
    assert_eq!(
        twocrypto_ng::try_get_y_2_ng(U256::from(4_649u64), U256::from(1_389_542_688_998_258u64), [U256::from(7_381_657_771_850_333_385_916_416u128), U256::from(190_030_972_713_731_458_410_217_472u128)], U256::from(75_852_750_237_714_176_055_098_108u128), 1),
        Ok(Some((U256::from(192_830_688_388_548_524_892_377_720u128), U256::from(989_571_971_277_153_621u64))))
    );
    assert_eq!(
        twocrypto_ng::try_get_y_2_ng(U256::from(19_189u64), U256::from(7_702_246_716_916_208u64), [U256::from(2_424_243_504_482_989_377_585_152u128), U256::from(46_719_933_045_569_644_134_400u128)], U256::from(944_173_227_396_617_306_816_411u128), 0),
        Ok(Some((U256::from(4_443_352_164_470_400_171_317_656u128), U256::from(931_471_507_921_120_012u64))))
    );
    assert_eq!(
        twocrypto_ng::try_get_y_2_ng(U256::from(10_469u64), U256::from(165_567_984_282u64), [U256::from(634_904_660_709_550_992_654_336u128), U256::from(906_978_794_224_757_149_532_160u128)], U256::from(1_830_826_396_112_215_896_547_530u128), 0),
        Ok(Some((U256::from(923_925_150_408_306_565_753_565u128), U256::from(999_999_040_188_563_166u64))))
    );
    assert_eq!(
        twocrypto_ng::try_get_y_2_ng(U256::from(2_977_858u64), U256::from(265_480_448_216u64), [U256::from(1_108_096_951_633_668_734_976u128), U256::from(1_050_807_860_957_232_103_424u128)], U256::from(3_043_752_652_107_829_200_843u128), 1),
        Ok(Some((U256::from(2_089_953_879_960_571_496_998u128), U256::from(999_898_092_658_128_289u64))))
    );
    assert_eq!(
        twocrypto_ng::try_get_y_2_ng(U256::from(975_535u64), U256::from(40_613_085_846_932u64), [U256::from(322_301_640_069_073_872_772_661_248u128), U256::from(79_117_710_798_370_504_007_745_536u128)], U256::from(269_805_074_900_016_546_435_078_529u128), 0),
        Ok(Some((U256::from(229_372_497_269_280_610_855_326_707u128), U256::from(997_182_890_998_650_428u64))))
    );
    assert_eq!(
        twocrypto_ng::try_get_y_2_ng(U256::from(10_630_804u64), U256::from(1_271_658_811_114u64), [U256::from(5_615_378_978_274_154_496u64), U256::from(984_551_946_155_776_256u64)], U256::from(5_773_405_081_299_607_228u64), 1),
        Ok(Some((U256::from(1_482_882_737_674_657_949u64), U256::from(999_267_614_538_622_640u64))))
    );
    assert_eq!(
        twocrypto_ng::try_get_y_2_ng(U256::from(20_089u64), U256::from(476_400_102_429u64), [U256::from(960_286_506_759_936_128u64), U256::from(565_336_146_828_566_400u64)], U256::from(1_958_978_909_085_156_609u64), 0),
        Ok(Some((U256::from(1_696_973_119_202_751_147u64), U256::from(999_958_987_809_952_314u64))))
    );
    assert_eq!(
        twocrypto_ng::try_get_y_2_ng(U256::from(1_800_525u64), U256::from(246_125_668_790_742u64), [U256::from(81_910_448_478_886_966_591_488u128), U256::from(267_340_694_822_360_511_938_560u128)], U256::from(311_140_120_076_665_586_812_702u128), 1),
        Ok(Some((U256::from(291_697_351_700_024_589_475_967u128), U256::from(987_233_198_657_283_996u64))))
    );
    assert_eq!(
        twocrypto_ng::try_get_y_2_ng(U256::from(437_234_713u64), U256::from(37_653_712_157_493_080u64), [U256::from(38_138_215_836_159_811_584u128), U256::from(119_970_979_549_948_755_968u128)], U256::from(196_940_988_058_677_863_074u128), 0),
        Ok(Some((U256::from(76_971_165_700_063_961_468u128), U256::from(0u64))))
    );
    assert_eq!(
        twocrypto_ng::try_get_y_2_ng(U256::from(3_205_631u64), U256::from(16_808_700_942_616_782u64), [U256::from(3_209_614_319_916_847u64), U256::from(48_053_809_647_474_328u64)], U256::from(32_939_127_928_069_979u64), 1),
        Ok(Some((U256::from(55_216_380_799_613_951u64), U256::from(653_366_079_288_709_048u64))))
    );
    assert_eq!(
        twocrypto_ng::try_get_y_2_ng(U256::from(6_098u64), U256::from(1_675_881_873_700_137u64), [U256::from(7_589_759_558_998_474_752u64), U256::from(7_316_391_978_693_374_976u64)], U256::from(19_714_656_060_382_663_168u128), 0),
        Ok(Some((U256::from(13_239_017_338_781_709_474u64), U256::from(996_860_293_148_739_875u64))))
    );
    assert_eq!(
        twocrypto_ng::try_get_y_2_ng(U256::from(4_717_093u64), U256::from(604_055_562_747_871u64), [U256::from(269_464_744_784_293_823_921_520_640u128), U256::from(2_715_015_460_915_407_118_883_880_960u128)], U256::from(1_672_714_933_906_036_408_499_945_167u128), 0),
        Ok(Some((U256::from(244_831_132_272_442_081_254_144_263u128), U256::from(950_287_618_743_492_145u64))))
    );
    assert_eq!(
        twocrypto_ng::try_get_y_2_ng(U256::from(382_787u64), U256::from(25_046_201_138_228u64), [U256::from(191_994_413_620_423_712u64), U256::from(3_226_043_641_255_262_720u64)], U256::from(453_104_023_262_058_119_168u128), 0),
        Ok(Some((U256::from(15_762_161_093_256_526_118_805u128), U256::from(990_718_229_876_192_042u64))))
    );
    assert_eq!(
        twocrypto_ng::try_get_y_2_ng(U256::from(23_731u64), U256::from(1_234_792_443_978u64), [U256::from(1_759_945_190_971_191u64), U256::from(1_490_159_091_802_498u64)], U256::from(3_745_781_508_273_640u64), 1),
        Ok(Some((U256::from(1_993_048_225_823_182u64), U256::from(999_981_715_608_973_973u64))))
    );
    assert_eq!(
        twocrypto_ng::try_get_y_2_ng(U256::from(3_239_545u64), U256::from(86_891_259_310u64), [U256::from(73_958_287_881_611_362_304u128), U256::from(36_247_561_979_138_482_176u128)], U256::from(136_182_500_684_585_552_462u128), 1),
        Ok(Some((U256::from(62_688_371_573_717_117_594u128), U256::from(999_979_781_484_143_981u64))))
    );
    assert_eq!(
        twocrypto_ng::try_get_y_2_ng(U256::from(74_317u64), U256::from(170_955_987_657u64), [U256::from(644_428_641_458_185_961_472u128), U256::from(4_115_410_029_922_587_508_736u128)], U256::from(3_227_308_037_579_882_457_936u128), 1),
        Ok(Some((U256::from(4_040_415_548_480_283_612_175u128), U256::from(999_953_995_746_423_750u64))))
    );
    assert_eq!(
        twocrypto_ng::try_get_y_2_ng(U256::from(29_109u64), U256::from(13_533_829_561u64), [U256::from(8_094_799_193_101_668_352u64), U256::from(6_796_883_574_931_167_232u64)], U256::from(13_714_664_799_254_985_844u64), 1),
        Ok(Some((U256::from(5_809_028_179_474_917_137u64), U256::from(999_998_064_371_738_270u64))))
    );
    assert_eq!(
        twocrypto_ng::try_get_y_2_ng(U256::from(11_798_175u64), U256::from(4_668_674_621_762u64), [U256::from(152_583_029_592_639_397_825_609_728u128), U256::from(4_535_947_979_993_304_238_668_120_064u128)], U256::from(2_183_379_122_197_865_222_916_065_831u128), 1),
        Ok(Some((U256::from(7_778_971_585_889_619_098_423_021_006u128), U256::from(995_932_956_315_583_403u64))))
    );
    assert_eq!(
        twocrypto_ng::try_get_y_2_ng(U256::from(19_571u64), U256::from(731_732_176_516u64), [U256::from(631_548_850_986_367_164_606_316_544u128), U256::from(5_983_759_728_686_327_043_041_787_904u128)], U256::from(3_888_123_354_789_035_571_252_777_689u128), 1),
        Ok(Some((U256::from(5_983_759_728_686_327_030_942_834_428u128), U256::from(999_910_243_304_424_698u64))))
    );
    assert_eq!(
        twocrypto_ng::try_get_y_2_ng(U256::from(11_922u64), U256::from(2_443_228_845_683_019u64), [U256::from(224_120_957_958_528_035_717_120u128), U256::from(6_084_667_051_379_971_325_952u128)], U256::from(101_537_166_147_843_729_136_987u128), 0),
        Ok(Some((U256::from(412_473_470_387_491_613_742_757u128), U256::from(973_739_425_385_028_256u64))))
    );
    assert_eq!(
        twocrypto_ng::try_get_y_2_ng(U256::from(10_201_410u64), U256::from(401_563_798_530u64), [U256::from(79_258_452_371_102_662_656u128), U256::from(2_549_794_210_465_978_515_456u128)], U256::from(872_740_548_962_978_461_593u128), 0),
        Ok(Some((U256::from(74_628_566_717_776_027_202u128), U256::from(999_309_264_898_315_785u64))))
    );
    assert_eq!(
        twocrypto_ng::try_get_y_2_ng(U256::from(656_935u64), U256::from(5_924_153_879_969_405u64), [U256::from(590_721_287_522_797_486_080u128), U256::from(18_326_913_087_817_079_848_960u128)], U256::from(7_942_975_954_136_450_904_352u128), 1),
        Ok(Some((U256::from(22_650_973_677_565_722_363_597u128), U256::from(848_326_419_908_739_929u64))))
    );
    assert_eq!(
        twocrypto_ng::try_get_y_2_ng(U256::from(31_364u64), U256::from(1_030_960_078_773u64), [U256::from(419_736_771_489_081_655_296u128), U256::from(68_181_698_510_978_973_696u128)], U256::from(465_824_523_564_202_825_424u128), 0),
        Ok(Some((U256::from(795_528_294_270_337_328_077u128), U256::from(999_858_956_009_489_534u64))))
    );
    assert_eq!(
        twocrypto_ng::try_get_y_2_ng(U256::from(71_338_161u64), U256::from(12_491_975_310_142u64), [U256::from(58_142_285_628_055_191_552u128), U256::from(1_308_801_596_502_490_218_496u128)], U256::from(556_944_786_992_859_939_191u128), 0),
        Ok(Some((U256::from(58_557_653_340_897_096_975u128), U256::from(988_309_989_641_481_209u64))))
    );
    assert_eq!(
        twocrypto_ng::try_get_y_2_ng(U256::from(13_977u64), U256::from(270_490_625_227_337_184u64), [U256::from(170_969_104_827_805_106_176u128), U256::from(3_430_133_861_212_836_855_808u128)], U256::from(1_880_140_203_139_873_049_377u128), 0),
        Ok(Some((U256::from(191_872_751_339_882_953_944u128), U256::from(744_738_646_378_876_708u64))))
    );
    assert_eq!(
        twocrypto_ng::try_get_y_2_ng(U256::from_limbs([0, 0, 77_702_805_337_272_080, 0]), U256::from(299u64), [U256::from(441_710_465_219_402_540_253_184u128), U256::from(3_610_450_362_503_132_958_687_232u128)], U256::from(2_125_596_307_346_391_180_775_030u128), 0),
        Ok(Some((U256::from(312_852_913_637_079_020_871_602u128), U256::from(0u64))))
    );
    assert_eq!(
        twocrypto_ng::try_get_y_2_ng(U256::from(8_819_367_084_123u64), U256::from(128_817_354_527_172_175_117_121_869_598_439_768_064u128), [U256::from(3_086_700_829_571_507_256_557_568u128), U256::from(35_942_332_673_206_895_163_473_920u128)], U256::from(18_460_427_365_347_944_699_289_347u128), 0),
        Err(Fault)
    );
    assert_eq!(
        twocrypto_ng::try_get_y_2_ng(U256::from(3_843_842_562_909_808_040_008_904_226_111_488u128), U256::from(5u64), [U256::from(7_175_089_189_568_403_996_672u128), U256::from(1_511_877_029_810_563_448_832u128)], U256::from(8_551_661_227_297_824_055_729u128), 1),
        Ok(Some((U256::from(2_520_478_798_507_096_667_148u128), U256::from(989_166_427_295_967_488u64))))
    );
    assert_eq!(
        twocrypto_ng::try_get_y_2_ng(U256::from_limbs([0, 0, 8_407_468_196_160_602_112, 127]), U256::from_limbs([0, 0, 10_848_212_728_196_104_192, 2_643_595_477]), [U256::from(2_587_387_249_577_708u64), U256::from(2_989_990_027_035_449u64)], U256::from(5_467_435_092_075_508u64), 0),
        Err(Fault)
    );
    assert_eq!(
        twocrypto_ng::try_get_y_2_ng(U256::from(819_227_221_107u64), U256::from_limbs([0, 10_566_570_625_718_026_240, 15_980_601_402, 0]), [U256::from(3_664_193_388_260_220_416u64), U256::from(4_332_652_516_998_161_920u64)], U256::from(7_969_690_367_763_915_867u64), 0),
        Err(Fault)
    );
    assert_eq!(
        twocrypto_ng::try_get_y_2_ng(U256::from(400_000u64), U256::from(100_000_000_000_000u64), [U256::from(1_000_000_000_000_000_000_000u128), U256::from(1_000_000_000_000_000_000_000u128)], U256::from(2_000_000_000_000_000_000_000u128), 2),
        Err(Fault)
    );
    assert_eq!(
        twocrypto_ng::try_get_y_2_ng(U256::from_limbs([18_446_744_073_709_551_615, 18_446_744_073_709_551_615, 18_446_744_073_709_551_615, 18_446_744_073_709_551_615]), U256::from(100_000_000_000_000u64), [U256::from(1_000_000_000_000_000_000_000u128), U256::from(1_000_000_000_000_000_000_000u128)], U256::from(2_000_000_000_000_000_000_000u128), 2),
        Ok(None)
    );
    assert_eq!(
        twocrypto_ng::try_get_y_2_ng(U256::from(400_000u64), U256::from_limbs([18_446_744_073_709_551_615, 18_446_744_073_709_551_615, 18_446_744_073_709_551_615, 18_446_744_073_709_551_615]), [U256::from(1_000_000_000_000_000_000_000u128), U256::from(1_000_000_000_000_000_000_000u128)], U256::from(2_000_000_000_000_000_000_000u128), 0),
        Ok(None)
    );
    assert_eq!(
        twocrypto_ng::try_get_y_2_ng(U256::from(400_000u64), U256::from(100_000_000_000_000u64), [U256::from(1_000_000_000_000_000_000_000u128), U256::from(1_000_000_000_000_000_000_000u128)], U256::from_limbs([18_446_744_073_709_551_615, 18_446_744_073_709_551_615, 18_446_744_073_709_551_615, 18_446_744_073_709_551_615]), 0),
        Ok(None)
    );
    assert_eq!(
        twocrypto_ng::try_get_y_2_ng(U256::from(400_000u64), U256::from(100_000_000_000_000u64), [U256::from_limbs([18_446_744_073_709_551_615, 18_446_744_073_709_551_615, 18_446_744_073_709_551_615, 18_446_744_073_709_551_615]), U256::from_limbs([18_446_744_073_709_551_615, 18_446_744_073_709_551_615, 18_446_744_073_709_551_615, 18_446_744_073_709_551_615])], U256::from(2_000_000_000_000_000_000_000u128), 0),
        Ok(None)
    );
    assert_eq!(
        twocrypto_ng::try_get_y_2_ng(U256::from(400_000u64), U256::from(100_000_000_000_000u64), [U256::from(1_000_000_000_000_000_000_000u128), U256::from(1_000_000_000_000_000_000_000u128)], U256::from(0u64), 0),
        Err(Fault)
    );
    assert_eq!(
        twocrypto_ng::try_get_y_2_ng(U256::from(400_000u64), U256::from(3_000_000_000_000_000_000_000_000_000_000_000_000u128), [U256::from(1_000_000_000_000_000_000_000u128), U256::from(1_000_000_000_000_000_000_000u128)], U256::from(2_000_000_000_000_000_000_000u128), 0),
        Err(Fault)
    );
    assert_eq!(
        twocrypto_ng::try_get_y_2_ng(U256::from(400_000u64), U256::from(100_000_000_000_000u64), [U256::from(0u64), U256::from(0u64)], U256::from(2_000_000_000_000_000_000_000u128), 0),
        Ok(None)
    );
    assert_eq!(
        twocrypto_ng::try_get_y_2_ng(U256::from(0u64), U256::from(100_000_000_000_000u64), [U256::from(1_000_000_000_000_000_000_000u128), U256::from(1_000_000_000_000_000_000_000u128)], U256::from(2_000_000_000_000_000_000_000u128), 1),
        Ok(Some((U256::from(999_999_999_999_999_999_000u128), U256::from(999_999_999_999_999_999u64))))
    );
}

#[test]
fn balance_of_two_coins_by_newton() {
    assert_eq!(
        twocrypto_ng::try_newton_y_2_ng(U256::from(284_467u64), U256::from(1_001_563_444_441_121u64), [U256::from(24_787_816_302_687_672u64), U256::from(188_956_692_500_264_512u64)], U256::from(180_589_604_376_475_264u64), 0, U256::from(10_000_000_000_000_000_000u64)),
        Ok(Some(U256::from(42_319_091_739_685_125u64)))
    );
    assert_eq!(
        twocrypto_ng::try_newton_y_2_ng(U256::from(11_520u64), U256::from(43_151_457_736_663u64), [U256::from(888_550_426_271_618_816u64), U256::from(613_947_820_727_611_776u64)], U256::from(1_179_114_689_536_636_416u64), 0, U256::from(100_000_000_000_000_000_000u128)),
        Ok(Some(U256::from(566_083_913_408_571_810u64)))
    );
    assert_eq!(
        twocrypto_ng::try_newton_y_2_ng(U256::from(6_083_700u64), U256::from(2_327_882_102_124u64), [U256::from(316_823_058_485_909_782_528u128), U256::from(879_515_258_948_805_197_824u128)], U256::from(1_009_808_584_293_797_593_088u128), 0, U256::from(100_000_000_000_000_000_000u128)),
        Ok(Some(U256::from(289_618_368_597_809_744_899u128)))
    );
    assert_eq!(
        twocrypto_ng::try_newton_y_2_ng(U256::from(17_200u64), U256::from(158_487_505_458_683u64), [U256::from(262_644_768_181_704_514_275_901_440u128), U256::from(69_122_048_511_890_747_088_175_104u128)], U256::from(244_485_750_111_791_742_556_569_600u128), 0, U256::from(1_000_000_000_000_000_000u64)),
        Ok(None)
    );
    assert_eq!(
        twocrypto_ng::try_newton_y_2_ng(U256::from(31_752_816u64), U256::from(4_256_911_977_422u64), [U256::from(804_176_709_593_497_472u64), U256::from(6_376_317_681_955_123_200u64)], U256::from(6_300_018_596_535_179_264u64), 1, U256::from(1_000_000_000_000_000_000u64)),
        Ok(None)
    );
    assert_eq!(
        twocrypto_ng::try_newton_y_2_ng(U256::from(17_241u64), U256::from(860_683_599_735u64), [U256::from(1_466_767_005_861_590_335_488u128), U256::from(342_353_347_965_803_233_280u128)], U256::from(1_406_886_832_001_234_239_488u128), 0, U256::from(2_000_000_000_000_000_000u64)),
        Ok(None)
    );
    assert_eq!(
        twocrypto_ng::try_newton_y_2_ng(U256::from(5_430u64), U256::from(66_170_060_476u64), [U256::from(63_900_196_259_492_282_368u128), U256::from(9_649_626_548_729_296_896u64)], U256::from(67_586_701_464_663_891_968u128), 0, U256::from(100_000_000_000_000_000_000u128)),
        Ok(Some(U256::from(118_344_053_686_049_530_871u128)))
    );
    assert_eq!(
        twocrypto_ng::try_newton_y_2_ng(U256::from(44_762_950u64), U256::from(41_040_596_952_960_488u64), [U256::from(109_539_407_011_675_968u64), U256::from(79_766_481_298_775_696u64)], U256::from(178_968_256_295_624_384u64), 1, U256::from(100_000_000_000_000_000_000u128)),
        Ok(Some(U256::from(69_439_243_479_319_342u64)))
    );
    assert_eq!(
        twocrypto_ng::try_newton_y_2_ng(U256::from(94_113_436u64), U256::from(372_291_653_226_978u64), [U256::from(28_636_461_802_043_360_673_792u128), U256::from(128_861_082_318_290_464_800_768u128)], U256::from(123_101_774_981_630_168_924_160u128), 0, U256::from(2_000_000_000_000_000_000u64)),
        Ok(None)
    );
    assert_eq!(
        twocrypto_ng::try_newton_y_2_ng(U256::from(5_898_790u64), U256::from(557_768_461_633u64), [U256::from(249_684_423_976_128_645_955_584u128), U256::from(733_810_658_119_656_165_867_520u128)], U256::from(901_377_156_510_599_732_002_816u128), 0, U256::from(2_000_000_000_000_000_000u64)),
        Ok(Some(U256::from(276_724_200_903_518_399_076_733u128)))
    );
    assert_eq!(
        twocrypto_ng::try_newton_y_2_ng(U256::from(11_902_678u64), U256::from(4_045_272_650_120_977u64), [U256::from(2_330_923_299_841_371_648u64), U256::from(824_941_379_188_502_016u64)], U256::from(2_900_986_702_120_044_544u64), 1, U256::from(1_000_000_000_000_000_000u64)),
        Ok(None)
    );
    assert_eq!(
        twocrypto_ng::try_newton_y_2_ng(U256::from(15_995_896u64), U256::from(3_499_930_534_519_890u64), [U256::from(1_052_373_419_462_674_304u64), U256::from(281_283_747_233_136_352u64)], U256::from(1_258_556_215_400_396_288u64), 0, U256::from(1_000_000_000_000_000_000u64)),
        Ok(None)
    );
    assert_eq!(
        twocrypto_ng::try_newton_y_2_ng(U256::from(95_306_869u64), U256::from(10_483_186_069_543_026u64), [U256::from(126_562_689_671_215_128_978_128_896u128), U256::from(862_218_639_478_360_733_506_338_816u128)], U256::from(896_336_599_757_578_748_521_611_264u128), 1, U256::from(10_000_000_000_000_000_000u64)),
        Ok(Some(U256::from(898_932_377_269_872_767_071_155_751u128)))
    );
    assert_eq!(
        twocrypto_ng::try_newton_y_2_ng(U256::from(49_932u64), U256::from(66_809_307_376_627u64), [U256::from(5_285_289_299_114_379_264u64), U256::from(829_595_711_644_132_992u64)], U256::from(5_639_659_557_391_230_976u64), 0, U256::from(1_000_000_000_000_000_000u64)),
        Ok(None)
    );
    assert_eq!(
        twocrypto_ng::try_newton_y_2_ng(U256::from(53_544_428u64), U256::from(140_410_345_906_798u64), [U256::from(193_712_245_361_771_151_360u128), U256::from(1_103_658_322_430_185_046_016u128)], U256::from(1_181_190_850_351_206_498_304u128), 1, U256::from(10_000_000_000_000_000_000u64)),
        Ok(Some(U256::from(1_728_909_486_761_219_588_332u128)))
    );
    assert_eq!(
        twocrypto_ng::try_newton_y_2_ng(U256::from(217_334_824u64), U256::from(9_772_986_463_551u64), [U256::from(113_697_072_647_271_232_680_493_056u128), U256::from(91_094_732_247_752_772_086_136_832u128)], U256::from(194_509_859_796_960_171_415_044_096u128), 0, U256::from(2_000_000_000_000_000_000u64)),
        Ok(Some(U256::from(103_684_765_259_634_456_457_524_801u128)))
    );
    assert_eq!(
        twocrypto_ng::try_newton_y_2_ng(U256::from(12_083u64), U256::from(26_876_388_674_442_836u64), [U256::from(123_270_443_250_761_696u64), U256::from(231_221_220_811_215_360u64)], U256::from(340_769_039_747_771_200u64), 1, U256::from(10_000_000_000_000_000_000u64)),
        Ok(Some(U256::from(231_357_102_279_646_860u64)))
    );
    assert_eq!(
        twocrypto_ng::try_newton_y_2_ng(U256::from(80_679u64), U256::from(608_035_657_308u64), [U256::from(6_098_983_216_404_845_559_808u128), U256::from(6_534_281_856_566_526_214_144u128)], U256::from(11_189_280_776_293_456_019_456u128), 0, U256::from(2_000_000_000_000_000_000u64)),
        Ok(Some(U256::from(4_789_964_853_673_994_643_867u128)))
    );
    assert_eq!(
        twocrypto_ng::try_newton_y_2_ng(U256::from(3_073_341u64), U256::from(475_490_720_402u64), [U256::from(504_933_779_237_854_637_318_995_968u128), U256::from(3_005_584_833_423_507_885_614_170_112u128)], U256::from(2_985_900_645_312_123_787_326_521_344u128), 0, U256::from(10_000_000_000_000_000_000u64)),
        Ok(Some(U256::from(741_393_289_390_302_523_578_621_558u128)))
    );
    assert_eq!(
        twocrypto_ng::try_newton_y_2_ng(U256::from(18_884_258u64), U256::from(75_437_097_691u64), [U256::from(2_882_209_065_796_043_264u64), U256::from(5_311_159_180_126_275_584u64)], U256::from(6_350_055_028_054_075_392u64), 1, U256::from(2_000_000_000_000_000_000u64)),
        Ok(Some(U256::from(3_497_466_110_132_827_229u64)))
    );
    assert_eq!(
        twocrypto_ng::try_newton_y_2_ng(U256::from(400_000u64), U256::from(100_000_000_000_000u64), [U256::from(1_000_000_000_000_000_000_000u128), U256::from(1_000_000_000_000_000_000_000u128)], U256::from(2_000_000_000_000_000_000_000u128), 0, U256::from(100_000_000_000_000_000_000u128)),
        Ok(Some(U256::from(1_000_000_000_000_000_000_000u128)))
    );
    assert_eq!(
        twocrypto_ng::try_newton_y_2_ng(U256::from(400_000u64), U256::from(100_000_000_000_000u64), [U256::from(1_000_000_000_000_000_000_000u128), U256::from(1_000_000_000_000_000_000_000u128)], U256::from(2_000_000_000_000_000_000_000u128), 3, U256::from(100_000_000_000_000_000_000u128)),
        Err(Fault)
    );
    assert_eq!(
        twocrypto_ng::try_newton_y_2_ng(U256::from(400_000u64), U256::from(100_000_000_000_000u64), [U256::from(0u64), U256::from(0u64)], U256::from(2_000_000_000_000_000_000_000u128), 1, U256::from(100_000_000_000_000_000_000u128)),
        Err(Fault)
    );
    assert_eq!(
        twocrypto_ng::try_newton_y_2_ng(U256::from(400_000u64), U256::from(100_000_000_000_000u64), [U256::from(1_000_000_000_000_000_000_000u128), U256::from(1_000_000_000_000_000_000_000u128)], U256::from(0u64), 0, U256::from(100_000_000_000_000_000_000u128)),
        Err(Fault)
    );
    assert_eq!(
        twocrypto_ng::try_newton_y_2_ng(U256::from(400_000u64), U256::from(100_000_000_000_000u64), [U256::from(1_000_000_000_000_000_000_000u128), U256::from(1_000_000_000_000_000_000_000u128)], U256::from(2_000_000_000_000_000_000_000u128), 0, U256::from(0u64)),
        Err(Fault)
    );
    assert_eq!(
        twocrypto_ng::try_newton_y_2_ng(U256::from(0u64), U256::from(100_000_000_000_000u64), [U256::from(1_000_000_000_000_000_000_000u128), U256::from(1_000_000_000_000_000_000_000u128)], U256::from(2_000_000_000_000_000_000_000u128), 0, U256::from(100_000_000_000_000_000_000u128)),
        Err(Fault)
    );
    assert_eq!(
        twocrypto_ng::try_newton_y_2_ng(U256::from(400_000u64), U256::from(0u64), [U256::from(1_000_000_000_000_000_000_000u128), U256::from(1_000_000_000_000_000_000_000u128)], U256::from(2_000_000_000_000_000_000_000u128), 0, U256::from(100_000_000_000_000_000_000u128)),
        Err(Fault)
    );
}

#[test]
fn invariant_of_two_coins() {
    assert_eq!(
        twocrypto_ng::try_newton_d(U256::from(52_394_229u64), U256::from(116_914_394_961_302_752u64), [U256::from(96_966_651_074_605_692_780_592_234_496u128), U256::from(16_166_426_051_583_573_545_818_521_600u128)], U256::from(0u64)),
        Ok(Some(U256::from(112_514_550_896_820_974_215_611_206_304u128)))
    );
    assert_eq!(
        twocrypto_ng::try_newton_d(U256::from(11_919u64), U256::from(222_348_047_127_536u64), [U256::from(22_963_062_360u64), U256::from(6_272_713_495u64)], U256::from(599_694_182_741_692_032u64)),
        Ok(Some(U256::from(24_029_714_815u64)))
    );
    assert_eq!(
        twocrypto_ng::try_newton_d(U256::from(7_046u64), U256::from(1_614_571_057_835_375u64), [U256::from(3_901_658_435_061_536u64), U256::from(942_867_824_280_632u64)], U256::from(0u64)),
        Ok(Some(U256::from(3_849_020_682_079_661u64)))
    );
    assert_eq!(
        twocrypto_ng::try_newton_d(U256::from(37_845_823u64), U256::from(78_153_914_325_944_848u64), [U256::from(7_790_707_597u64), U256::from(17_743_831u64)], U256::from(0u64)),
        Ok(None)
    );
    assert_eq!(
        twocrypto_ng::try_newton_d(U256::from(70_091_579u64), U256::from(208_458_913_535_191u64), [U256::from(114_280_849_418u64), U256::from(2_642_700_464u64)], U256::from(1_038_381_725_825_965_696u64)),
        Ok(Some(U256::from(34_753_250_715u64)))
    );
    assert_eq!(
        twocrypto_ng::try_newton_d(U256::from(272_603u64), U256::from(137_832_482_482_460_832u64), [U256::from(156_162_649_208_127u64), U256::from(14_352_707_542_142_886u64)], U256::from(0u64)),
        Ok(Some(U256::from(4_925_972_113_459_488u64)))
    );
    assert_eq!(
        twocrypto_ng::try_newton_d(U256::from(66_480u64), U256::from(35_076_125_837_751u64), [U256::from(63_692_422_881u64), U256::from(49_825_096_399_492u64)], U256::from(1_156_937_989_844_708u64)),
        Ok(Some(U256::from(3_571_261_205_902u64)))
    );
    assert_eq!(
        twocrypto_ng::try_newton_d(U256::from(132_136u64), U256::from(18_206_675_243u64), [U256::from(281_778_206_460u64), U256::from(37_801_465_015u64)], U256::from(1_607_947_820_644_442_880u64)),
        Ok(None)
    );
    assert_eq!(
        twocrypto_ng::try_newton_d(U256::from(78_091_284u64), U256::from(171_742_913_969_719_712u64), [U256::from(41_734_110_368_247_557_652_480u128), U256::from(781_704_479_267_428_814_028_800u128)], U256::from(17_479_613_105_357_546u64)),
        Ok(Some(U256::from(810_030_955_922_909_005_714_789u128)))
    );
    assert_eq!(
        twocrypto_ng::try_newton_d(U256::from(8_188_157u64), U256::from(136_468_782_776_692_704u64), [U256::from(122_851_166_644u64), U256::from(1_605_645_061_797u64)], U256::from(0u64)),
        Ok(Some(U256::from(1_578_416_864_156u64)))
    );
    assert_eq!(
        twocrypto_ng::try_newton_d(U256::from(8_063_473u64), U256::from(1_641_049_818_205_593u64), [U256::from(9_013_447_650_766_978_238_560_656_687_104u128), U256::from(1_253_398_899_274_424_167_732_638_384_128u128)], U256::from(72_637_062_737_387_616u64)),
        Ok(Some(U256::from(7_066_727_112_756_609_275_368_735_899_364u128)))
    );
    assert_eq!(
        twocrypto_ng::try_newton_d(U256::from(1_963_762u64), U256::from(352_636_857_830u64), [U256::from(14_474_569_001_920_863_733_284_864u128), U256::from(187_067_025_526_900_893_155_328u128)], U256::from(1_266_912_182_754_939u64)),
        Ok(Some(U256::from(3_291_748_327_271_657_675_794_218u128)))
    );
    assert_eq!(
        twocrypto_ng::try_newton_d(U256::from(170_020u64), U256::from(114_986_033_178_009u64), [U256::from(54_862_043_558_980_258_182_987_776u128), U256::from(8_828_078_190_961_966_889_041_920u128)], U256::from(0u64)),
        Ok(Some(U256::from(44_115_405_609_314_091_010_578_342u128)))
    );
    assert_eq!(
        twocrypto_ng::try_newton_d(U256::from(79_654_105u64), U256::from(2_024_787_289_509_910u64), [U256::from(19_480_047_691_435_836_479_224_934_301_696u128), U256::from(1_383_249_875_594_116_640_506_784_467_910_656u128)], U256::from(89_360_300_883_641_728u64)),
        Ok(None)
    );
    assert_eq!(
        twocrypto_ng::try_newton_d(U256::from(379_881_948u64), U256::from(356_696_865_354_658u64), [U256::from(15_757_177_064_499_730_432u64), U256::from(1_721_533_598_585_516_195_840u128)], U256::from(0u64)),
        Ok(Some(U256::from(377_043_784_375_361_825_527u128)))
    );
    assert_eq!(
        twocrypto_ng::try_newton_d(U256::from(17_654u64), U256::from(7_068_397_376_262_096u64), [U256::from(20_338_574_076_771_028_992u128), U256::from(470_733_164_001_310_081_024u128)], U256::from(0u64)),
        Ok(Some(U256::from(200_256_123_269_441_928_136u128)))
    );
    assert_eq!(
        twocrypto_ng::try_newton_d(U256::from(11_049u64), U256::from(1_473_446_927_363u64), [U256::from(3_469_965_294_249_913_090_048u128), U256::from(38_862_979_546_868_686_848u128)], U256::from(27_248_031_369_188_468u64)),
        Ok(Some(U256::from(734_523_450_589_327_426_608u128)))
    );
    assert_eq!(
        twocrypto_ng::try_newton_d(U256::from(20_964_197u64), U256::from(1_604_643_867_260u64), [U256::from(2_799_923_771_804_458u64), U256::from(3_706_322_555_957u64)], U256::from(0u64)),
        Ok(Some(U256::from(204_157_137_361_215u64)))
    );
    assert_eq!(
        twocrypto_ng::try_newton_d(U256::from(1_879_658u64), U256::from(47_840_523_265_438_344u64), [U256::from(323_759_375_318_116_481_368_064u128), U256::from(4_333_090_268_745_570_975_744u128)], U256::from(2_793_934_992_811_441u64)),
        Ok(Some(U256::from(121_604_699_458_797_566_426_075u128)))
    );
    assert_eq!(
        twocrypto_ng::try_newton_d(U256::from(8_203u64), U256::from(400_343_757_540u64), [U256::from(1_501_002_534_512_437_868_390_938_312_704u128), U256::from(6_815_187_284_691_119_497_773_427_195_904u128)], U256::from(7_354_045_685_304_001u64)),
        Ok(Some(U256::from(6_396_861_386_790_495_268_822_488_584_505u128)))
    );
    assert_eq!(
        twocrypto_ng::try_newton_d(U256::from(604_825_166u64), U256::from(4_152_515_784_347u64), [U256::from(15_205_523_246_112_062u64), U256::from(9_377_870_907_721_418_752u64)], U256::from(57_290_856_197_842_832u64)),
        Ok(Some(U256::from(763_909_522_523_358_759u64)))
    );
    assert_eq!(
        twocrypto_ng::try_newton_d(U256::from(868_960u64), U256::from(1_410_219_268_648u64), [U256::from(1_719_410_143_749u64), U256::from(156_663_554_992_997u64)], U256::from(55_733_480_879_053_184u64)),
        Ok(Some(U256::from(32_839_207_934_777u64)))
    );
    assert_eq!(
        twocrypto_ng::try_newton_d(U256::from(45_190u64), U256::from(865_977_081_176u64), [U256::from(1_127_297_478_115_907_862_528u128), U256::from(26_623_327_120_124_104_671_232u128)], U256::from(1_285_896_433_465_130u64)),
        Ok(Some(U256::from(10_957_662_203_076_176_050_708u128)))
    );
    assert_eq!(
        twocrypto_ng::try_newton_d(U256::from(8_281_643u64), U256::from(190_220_798_194_195_968u64), [U256::from(8_685_772_052_511_950_273_056_342_016u128), U256::from(74_103_978_404_929_222_052_151_296u128)], U256::from(0u64)),
        Ok(Some(U256::from(5_823_213_702_741_718_711_674_621_257u128)))
    );
    assert_eq!(
        twocrypto_ng::try_newton_d(U256::from(2_782_926u64), U256::from(4_347_929_460_894u64), [U256::from(8_872_586_424_790_074u64), U256::from(12_080_689_002_491_098u64)], U256::from(353_399_688_795_261_952u64)),
        Ok(Some(U256::from(20_710_289_108_662_785u64)))
    );
    assert_eq!(
        twocrypto_ng::try_newton_d(U256::from(400_000u64), U256::from(100_000_000_000_000u64), [U256::from(999_999_999u64), U256::from(999_999_999u64)], U256::from(0u64)),
        Ok(None)
    );
    assert_eq!(
        twocrypto_ng::try_newton_d(U256::from(400_000u64), U256::from(100_000_000_000_000u64), [U256::from(1_000_000_000_000_000_000_000_000_000_000_001u128), U256::from(1_000_000_000_000_000_000_000_000_000_000_001u128)], U256::from(0u64)),
        Ok(None)
    );
    assert_eq!(
        twocrypto_ng::try_newton_d(U256::from(400_000u64), U256::from(100_000_000_000_000u64), [U256::from(1_000_000_000_000_000_000_000u128), U256::from(1_000_000_000_000_000u64)], U256::from(0u64)),
        Ok(None)
    );
    assert_eq!(
        twocrypto_ng::try_newton_d(U256::from(0u64), U256::from(100_000_000_000_000u64), [U256::from(1_000_000_000_000_000_000_000u128), U256::from(1_000_000_000_000_000_000_000u128)], U256::from(0u64)),
        Err(Fault)
    );
    assert_eq!(
        twocrypto_ng::try_newton_d(U256::from(400_000u64), U256::from(0u64), [U256::from(1_000_000_000_000_000_000_000u128), U256::from(1_000_000_000_000_000_000_000u128)], U256::from(0u64)),
        Err(Fault)
    );
    assert_eq!(
        twocrypto_ng::try_newton_d(U256::from(400_000u64), U256::from(100_000_000_000_000u64), [U256::from(1_000_000_000_000_000_000_000_000_000_000_000u128), U256::from(1_000_000_000_000_000_000_000_000_000_000_000u128)], U256::from(1u64)),
        Ok(Some(U256::from(2_000_000_000_000_000_000_000_000_000_000_000u128)))
    );
    assert_eq!(
        twocrypto_ng::try_newton_d(U256::from(400_000u64), U256::from(100_000_000_000_000u64), [U256::from(1_000_000_000_000_000_000_000u128), U256::from(1_000_000_000_000_000_000_000u128)], U256::from_limbs([18_446_744_073_709_551_615, 18_446_744_073_709_551_615, 18_446_744_073_709_551_615, 18_446_744_073_709_551_615])),
        Ok(None)
    );
    assert_eq!(
        twocrypto_ng::try_newton_d(U256::from(400_000u64), U256::from(100_000_000_000_000u64), [U256::from(1_000_000_000_000_000_000_000u128), U256::from(900_000_000_000_000_000_000u128)], U256::from(1_000_000_000_000_000_000u64)),
        Ok(Some(U256::from(1_898_014_541_814_831_169_047u128)))
    );
}

#[test]
fn balance_of_three_coins_by_the_cubic() {
    assert_eq!(
        tricrypto_ng::try_get_y_3_ng(U256::from(19_981_752u64), U256::from(1_582_676_250_618_508u64), [U256::from(17_904_451_265_801_362_302_042_112u128), U256::from(14_467_001_761_908_061_760_389_120u128), U256::from(7_941_885_739_912_076_858_490_880u128)], U256::from(128_507_204_469_171_798_016u128), 1),
        Ok(None)
    );
    assert_eq!(
        tricrypto_ng::try_get_y_3_ng(U256::from(382_351u64), U256::from(25_072_708_771_498_712u64), [U256::from(35_003_262_716_966_682_624u128), U256::from(10_142_424_958_037_553_152u64), U256::from(2_615_823_671_362_515_968u64)], U256::from(28_463_907_614_336_824_041u128), 1),
        Ok(Some((U256::from(7_400_875_436_095_853_079u64), U256::from(793_378_246_607_143_511u64))))
    );
    assert_eq!(
        tricrypto_ng::try_get_y_3_ng(U256::from(145_628_261u64), U256::from(134_757_680_847_365u64), [U256::from(1_315_814_913_750_405_480_448u128), U256::from(7_441_301_043_069_376_790_528u128), U256::from(907_172_713_616_219_176_960u128)], U256::from(6_109_238_615_092_211_992_108u128), 1),
        Ok(Some((U256::from(6_729_325_976_977_700_910_278u128), U256::from(951_171_544_944_656_735u64))))
    );
    assert_eq!(
        tricrypto_ng::try_get_y_3_ng(U256::from(92_392u64), U256::from(236_246_352_284_799u64), [U256::from(12_693_769_167_920_580_001_792u128), U256::from(8_477_910_670_195_933_839_360u128), U256::from(5_326_709_010_091_556_732_928u128)], U256::from(26_394_787_628_413_437_964_532u128), 1),
        Ok(Some((U256::from(10_042_018_781_811_005_784_420u128), U256::from(996_964_849_668_551_614u64))))
    );
    assert_eq!(
        tricrypto_ng::try_get_y_3_ng(U256::from(31_949u64), U256::from(320_402_308_088_515u64), [U256::from(51_458_647_135_438_547_976_192u128), U256::from(15_760_021_621_862_702_252_032u128), U256::from(1_857_208_302_311_314_292_736u128)], U256::from(39_995_624_753_652_125_172_744u128), 1),
        Ok(Some((U256::from(24_632_057_626_790_882_246_089u128), U256::from(993_449_925_454_993_512u64))))
    );
    assert_eq!(
        tricrypto_ng::try_get_y_3_ng(U256::from(452_687u64), U256::from(533_151_729_107_151u64), [U256::from(435_160_105_010_106_296_434_688u128), U256::from(303_142_799_287_564_093_095_936u128), U256::from(20_105_560_894_426_830_602_240u128)], U256::from(373_007_818_349_917_933_498_702u128), 2),
        Ok(Some((U256::from(14_235_533_862_460_385_156_402u128), U256::from(976_967_345_464_239_252u64))))
    );
    assert_eq!(
        tricrypto_ng::try_get_y_3_ng(U256::from(2_011_930u64), U256::from(65_824_515_802u64), [U256::from(51_503_295_742_702_906_245_120u128), U256::from(28_122_713_667_890_470_453_248u128), U256::from(4_661_520_606_048_263_077_888u128)], U256::from(16_250_068_055_380_962_165_391_360u128), 1),
        Ok(None)
    );
    assert_eq!(
        tricrypto_ng::try_get_y_3_ng(U256::from(624_888_385u64), U256::from(257_127_083_438_503u64), [U256::from(33_479_848_499_068_496_263_512_064u128), U256::from(58_923_817_576_527_464_503_443_456u128), U256::from(140_046_502_395_927_951_153_561_600u128)], U256::from(191_046_879_752_287_274_518_080_555u128), 0),
        Ok(Some((U256::from(28_500_153_500_506_631_732_126_073u128), U256::from(910_655_803_108_476_195u64))))
    );
    assert_eq!(
        tricrypto_ng::try_get_y_3_ng(U256::from(143_669u64), U256::from(10_401_300_527_297_526u64), [U256::from(3_973_741_365_120_239_927_296u128), U256::from(862_101_039_277_148_733_440u128), U256::from(548_289_193_020_096_053_248u128)], U256::from(3_111_466_995_565_550_108_672u128), 1),
        Ok(Some((U256::from(466_940_645_105_839_815_342u128), U256::from(911_883_023_054_655_459u64))))
    );
    assert_eq!(
        tricrypto_ng::try_get_y_3_ng(U256::from(300_939_269u64), U256::from(55_801_432_592u64), [U256::from(23_706_043_311_446_028_288u128), U256::from(20_507_301_274_684_149_760u128), U256::from(9_610_175_132_448_063_488u64)], U256::from(50_768_180_303_407_432_023u128), 1),
        Ok(Some((U256::from(21_268_526_949_322_577_798u128), U256::from(999_808_351_756_576_615u64))))
    );
    assert_eq!(
        tricrypto_ng::try_get_y_3_ng(U256::from(16_831_881u64), U256::from(349_529_006_061u64), [U256::from(130_099_239_983_085_109_903_360u128), U256::from(56_750_456_304_424_865_234_944u128), U256::from(193_942_894_572_819_758_186_496u128)], U256::from(369_393_272_053_617_477_467_074u128), 1),
        Ok(Some((U256::from(73_968_253_770_575_388_735_061u128), U256::from(999_748_633_951_763_924u64))))
    );
    assert_eq!(
        tricrypto_ng::try_get_y_3_ng(U256::from(401_465_263u64), U256::from(187_859_207_343u64), [U256::from(248_026_175_189_297_213_210_624u128), U256::from(507_689_505_579_253_605_859_328u128), U256::from(241_538_541_139_410_338_971_648u128)], U256::from(947_221_279_832_074_695_153_755u128), 2),
        Ok(Some((U256::from(249_863_179_155_804_770_843_700u128), U256::from(999_556_596_196_957_003u64))))
    );
    assert_eq!(
        tricrypto_ng::try_get_y_3_ng(U256::from(51_428_043u64), U256::from(69_849_192_295_589u64), [U256::from(26_011_034_603_139_765_656_092_672u128), U256::from(10_675_013_138_448_091_304_689_664u128), U256::from(11_217_060_124_744_409_432_457_216u128)], U256::from(44_002_427_107_029_486_576_868_586u128), 1),
        Ok(Some((U256::from(10_675_013_138_448_091_286_585_030u128), U256::from(987_049_562_725_401_692u64))))
    );
    assert_eq!(
        tricrypto_ng::try_get_y_3_ng(U256::from(4_013_453u64), U256::from(948_769_998_522u64), [U256::from(996_014_773_642_411_638_784u128), U256::from(221_899_145_875_061_309_440u128), U256::from(3_992_308_412_391_725_989_888u128)], U256::from(2_878_055_263_832_578_170_864u128), 0),
        Ok(Some((U256::from(996_014_773_642_411_637_131u128), U256::from(999_336_781_042_523_429u64))))
    );
    assert_eq!(
        tricrypto_ng::try_get_y_3_ng(U256::from(63_975u64), U256::from(11_273_700_800_847_384u64), [U256::from(11_997_890_001_951_159_052_402_688u128), U256::from(6_030_967_992_149_008_913_006_592u128), U256::from(3_361_365_166_447_748_379_049_984u128)], U256::from(9_290_324_412_030_081_040_384u128), 2),
        Ok(None)
    );
    assert_eq!(
        tricrypto_ng::try_get_y_3_ng(U256::from(500_029_940u64), U256::from(13_696_281_475_693u64), [U256::from(321_177_103_322_105_658_736_640u128), U256::from(56_495_425_387_142_011_944_960u128), U256::from(469_434_360_331_641_708_085_248u128)], U256::from(750_669_740_978_339_976_316_936u128), 1),
        Ok(Some((U256::from(102_657_754_197_614_958_242_639u128), U256::from(987_934_711_108_896_154u64))))
    );
    assert_eq!(
        tricrypto_ng::try_get_y_3_ng(U256::from(287_697_164u64), U256::from(2_704_500_868_959_445u64), [U256::from(703_782_317_899_985_320_935_424u128), U256::from(474_926_429_676_825_498_091_520u128), U256::from(3_374_654_835_744_563_355_713_536u128)], U256::from(3_708_234_113_250_874_237_159_934u128), 2),
        Ok(Some((U256::from(3_684_774_795_875_444_281_418_103u128), U256::from(652_135_691_371_492_072u64))))
    );
    assert_eq!(
        tricrypto_ng::try_get_y_3_ng(U256::from(207_807u64), U256::from(1_044_386_087_381_796u64), [U256::from(2_674_643_925_779_202_048u64), U256::from(2_520_507_789_249_905_664u64), U256::from(3_412_256_039_100_387_328u64)], U256::from(7_926_990_216_918_318_878u64), 0),
        Ok(Some((U256::from(2_130_832_357_137_842_866u64), U256::from(993_385_314_730_114_959u64))))
    );
    assert_eq!(
        tricrypto_ng::try_get_y_3_ng(U256::from(292_366u64), U256::from(1_809_750_348_404_659u64), [U256::from(443_542_260_789_895_360u64), U256::from(984_062_827_990_823_040u64), U256::from(2_225_231_448_035_498_240u64)], U256::from(3_722_187_087_959_192_297u64), 1),
        Ok(Some((U256::from(1_884_255_706_590_984_594u64), U256::from(973_686_622_837_847_828u64))))
    );
    assert_eq!(
        tricrypto_ng::try_get_y_3_ng(U256::from(132_000_448u64), U256::from(34_369_027_364u64), [U256::from(1_936_580_235_423_499_681_792u128), U256::from(104_992_935_207_677_313_024u128), U256::from(551_218_245_726_296_539_136u128)], U256::from(1_446_531_089_373_160_374_083u128), 0),
        Ok(Some((U256::from(1_936_580_235_423_499_678_748u128), U256::from(999_768_858_134_882_876u64))))
    );
    assert_eq!(
        tricrypto_ng::try_get_y_3_ng(U256::from(61_333_471u64), U256::from(15_038_928_836_802u64), [U256::from(358_103_544_277_344_781_860_864u128), U256::from(480_952_889_366_795_555_700_736u128), U256::from(121_112_401_348_798_785_257_472u128)], U256::from(1_003_982_063_029_663_560_040_298u128), 1),
        Ok(Some((U256::from(857_560_695_822_687_469_183_774u128), U256::from(992_311_455_898_050_292u64))))
    );
    assert_eq!(
        tricrypto_ng::try_get_y_3_ng(U256::from(8_286_070u64), U256::from(18_454_416_582u64), [U256::from(996_643_591_190_082_687_598_592u128), U256::from(124_172_047_864_251_436_498_944u128), U256::from(71_332_960_379_677_140_058_112u128)], U256::from(630_282_119_780_625_314_811_442u128), 2),
        Ok(Some((U256::from(74_929_011_922_148_209_716_213u128), U256::from(999_936_752_154_164_235u64))))
    );
    assert_eq!(
        tricrypto_ng::try_get_y_3_ng(U256::from(6_776_307u64), U256::from(1_996_402_892_943u64), [U256::from(165_658_706_913_255_479_050_240u128), U256::from(569_772_574_026_338_077_245_440u128), U256::from(275_511_053_646_638_404_861_952u128)], U256::from(889_016_834_220_118_258_654_567u128), 0),
        Ok(Some((U256::from(165_658_706_913_255_478_795_205u128), U256::from(999_283_336_198_789_575u64))))
    );
    assert_eq!(
        tricrypto_ng::try_get_y_3_ng(U256::from(250_778u64), U256::from(3_312_659_459_221_996u64), [U256::from(128_068_404_471_430_938_624u128), U256::from(21_440_424_490_126_651_392u128), U256::from(38_897_063_178_094_854_144u128)], U256::from(144_338_073_078_901_383_335u128), 0),
        Ok(Some((U256::from(128_068_404_471_430_938_455u128), U256::from(958_988_160_475_959_658u64))))
    );
    assert_eq!(
        tricrypto_ng::try_get_y_3_ng(U256::from(8_077_797u64), U256::from(351_366_367_406_435u64), [U256::from(232_923_311_695_719_607_740_399_616u128), U256::from(103_895_243_176_606_147_580_788_736u128), U256::from(22_238_807_098_959_282_841_845_760u128)], U256::from(229_933_674_359_178_786_157_405_542u128), 2),
        Ok(Some((U256::from(17_914_622_617_223_363_380_867_693u128), U256::from(962_880_319_028_018_614u64))))
    );
    assert_eq!(
        tricrypto_ng::try_get_y_3_ng(U256::from(29_593_960u64), U256::from(161_478_866_288_643u64), [U256::from(35_507_093_279_175_499_776u128), U256::from(157_854_270_453_832_122_368u128), U256::from(59_096_306_278_868_467_712u128)], U256::from(254_490_359_691_741_932_381u128), 1),
        Ok(Some((U256::from(281_379_039_886_246_935_714u128), U256::from(967_201_494_335_431_522u64))))
    );
    assert_eq!(
        tricrypto_ng::try_get_y_3_ng(U256::from(926_414u64), U256::from(7_453_114_654_698_818u64), [U256::from(34_681_160_960_625_772_331_008u128), U256::from(104_478_751_366_254_124_072_960u128), U256::from(345_764_889_786_711_820_730_368u128)], U256::from(346_730_381_821_208_705_368_064u128), 1),
        Ok(Some((U256::from(113_371_906_146_642_992_607_405u128), U256::from(880_578_419_132_779_934u64))))
    );
    assert_eq!(
        tricrypto_ng::try_get_y_3_ng(U256::from(125_150_521u64), U256::from(240_167_378_529_743u64), [U256::from(168_214_205_766_040_845_025_280u128), U256::from(46_576_030_604_589_812_154_368u128), U256::from(73_078_983_728_640_743_702_528u128)], U256::from(263_172_146_326_664_726_478_968u128), 2),
        Ok(Some((U256::from(82_331_997_278_920_144_179_652u128), U256::from(955_515_619_619_155_529u64))))
    );
    assert_eq!(
        tricrypto_ng::try_get_y_3_ng(U256::from(608_063_673u64), U256::from(10_775_467_072_335_396u64), [U256::from(337_339_795_734_992_322_560u128), U256::from(13_919_135_770_165_694_464u64), U256::from(396_858_995_932_405_956_608u128)], U256::from(644_540_816_654_241_970_513u128), 0),
        Ok(Some((U256::from(416_803_777_300_754_753_452u128), U256::from(0u64))))
    );
    assert_eq!(
        tricrypto_ng::try_get_y_3_ng(U256::from(56_398u64), U256::from(15_059_913_838_393_624u64), [U256::from(3_905_039_518_002_245_632u64), U256::from(49_352_282_776_635_924_480u128), U256::from(4_880_315_581_598_767_104u64)], U256::from(30_847_493_951_423_821_861u128), 1),
        Ok(Some((U256::from(51_691_721_338_292_632_706u128), U256::from(906_146_536_395_965_602u64))))
    );
    assert_eq!(
        tricrypto_ng::try_get_y_3_ng(U256::from(8_088_730u64), U256::from(529_057_934_899_280u64), [U256::from(1_751_385_740_151_006_158_651_392u128), U256::from(1_659_979_458_654_471_857_373_184u128), U256::from(814_275_092_493_132_432_932_864u128)], U256::from(4_022_174_979_912_852_761_121_865u128), 1),
        Ok(Some((U256::from(1_653_129_009_372_323_238_007_985u128), U256::from(978_229_128_748_695_040u64))))
    );
    assert_eq!(
        tricrypto_ng::try_get_y_3_ng(U256::from(876_308_306u64), U256::from(145_207_029_286_776u64), [U256::from(62_248_549_444_067_786_752_000u128), U256::from(7_177_333_354_089_277_292_544u128), U256::from(18_182_381_195_170_831_925_248u128)], U256::from(65_475_951_555_350_903_059_175u128), 0),
        Ok(Some((U256::from(72_213_058_486_411_563_846_903u128), U256::from(906_458_495_517_591_507u64))))
    );
    assert_eq!(
        tricrypto_ng::try_get_y_3_ng(U256::from(22_600_430u64), U256::from(13_428_218_306_910_444u64), [U256::from(6_670_615_047_955_963_904u64), U256::from(48_779_683_035_077_206_016u128), U256::from(15_408_286_928_177_790_976u64)], U256::from(72_001_190_879_449_998_510u128), 1),
        Ok(Some((U256::from(76_466_926_954_902_699_684u128), U256::from(568_510_641_748_092_678u64))))
    );
    assert_eq!(
        tricrypto_ng::try_get_y_3_ng(U256::from(4_207_525u64), U256::from(254_865_047_377_000u64), [U256::from(1_237_407_552_220_802_806_972_416u128), U256::from(1_723_843_149_054_449_771_610_112u128), U256::from(3_493_060_630_020_065_129_922_560u128)], U256::from(6_572_719_417_971_792_028_615_720u128), 2),
        Ok(Some((U256::from(4_846_422_450_360_762_279_260_760u128), U256::from(983_015_265_350_692_265u64))))
    );
    assert_eq!(
        tricrypto_ng::try_get_y_3_ng(U256::from(90_042u64), U256::from(561_937_654_597u64), [U256::from(24_256_250_562_299_058_716_672u128), U256::from(62_698_725_048_156_338_257_920u128), U256::from(10_228_016_970_529_813_561_344u128)], U256::from(79_704_086_749_548_474_720_268u128), 1),
        Ok(Some((U256::from(75_582_013_403_844_310_666_250u128), U256::from(999_897_680_731_065_219u64))))
    );
    assert_eq!(
        tricrypto_ng::try_get_y_3_ng(U256::from(194_790u64), U256::from(247_340_067_063u64), [U256::from(2_410_785_715_412_845_199_360u128), U256::from(1_172_441_353_764_920_229_888u128), U256::from(1_317_797_992_274_516_508_672u128)], U256::from(4_894_958_117_797_695_686_383u128), 2),
        Ok(Some((U256::from(1_536_798_808_273_365_370_906u128), U256::from(999_962_183_588_660_434u64))))
    );
    assert_eq!(
        tricrypto_ng::try_get_y_3_ng(U256::from_limbs([0, 9_223_372_036_854_775_808, 2_418_102_078_738_853, 0]), U256::from_limbs([0, 14_655_874_271_742_525_440, 1_676_953_297, 0]), [U256::from(43_813_101_041_785_430_343_680u128), U256::from(496_279_673_381_747_802_767_360u128), U256::from(156_848_193_484_222_088_871_936u128)], U256::from(476_515_662_168_850_232_975_836u128), 2),
        Err(Fault)
    );
    assert_eq!(
        tricrypto_ng::try_get_y_3_ng(U256::from(188_730_413_823_896_686_784_675_840u128), U256::from_limbs([0, 9_646_470_381_875_232_768, 2_358_394, 0]), [U256::from(1_170_683_347_157_168_029_696u128), U256::from(33_299_816_916_794_961_920u128), U256::from(309_773_480_842_883_760_128u128)], U256::from(800_807_288_370_797_672_666u128), 0),
        Err(Fault)
    );
    assert_eq!(
        tricrypto_ng::try_get_y_3_ng(U256::from_limbs([0, 8_225_348_459_058_692_096, 597_200, 0]), U256::from_limbs([0, 0, 7_127_977_586_931_531_776, 25_410]), [U256::from(4_752_543_739_350_415_910_633_472u128), U256::from(9_630_883_281_147_244_320_915_456u128), U256::from(9_823_673_386_047_290_298_335_232u128)], U256::from(27_247_597_347_292_098_248_690_218u128), 0),
        Ok(Some((U256::from(7_793_040_680_097_563_635_291_206u128), U256::from(0u64))))
    );
    assert_eq!(
        tricrypto_ng::try_get_y_3_ng(U256::from_limbs([0, 13_681_935_667_951_566_848, 1_015_897_328_917, 0]), U256::from_limbs([0, 0, 1_515_296_468_125_089_792, 6_481_827]), [U256::from(7_119_807_744_602_620_821_504u128), U256::from(22_105_491_879_695_273_164_800u128), U256::from(12_848_843_505_284_950_261_760u128)], U256::from(44_278_599_433_159_838_209_446u128), 1),
        Ok(Some((U256::from(24_309_948_183_272_267_135_298u128), U256::from(0u64))))
    );
    assert_eq!(
        tricrypto_ng::try_get_y_3_ng(U256::from(2_700_000u64), U256::from(1_300_000_000_000u64), [U256::from(1_000_000_000_000_000_000_000_000u128), U256::from(1_000_000_000_000_000_000_000_000u128), U256::from(1_000_000_000_000_000_000_000_000u128)], U256::from(3_000_000_000_000_000_000_000_000u128), 3),
        Ok(None)
    );
    assert_eq!(
        tricrypto_ng::try_get_y_3_ng(U256::from_limbs([18_446_744_073_709_551_615, 18_446_744_073_709_551_615, 18_446_744_073_709_551_615, 18_446_744_073_709_551_615]), U256::from(1_300_000_000_000u64), [U256::from(1_000_000_000_000_000_000_000_000u128), U256::from(1_000_000_000_000_000_000_000_000u128), U256::from(1_000_000_000_000_000_000_000_000u128)], U256::from(3_000_000_000_000_000_000_000_000u128), 0),
        Ok(None)
    );
    assert_eq!(
        tricrypto_ng::try_get_y_3_ng(U256::from(2_700_000u64), U256::from_limbs([18_446_744_073_709_551_615, 18_446_744_073_709_551_615, 18_446_744_073_709_551_615, 18_446_744_073_709_551_615]), [U256::from(1_000_000_000_000_000_000_000_000u128), U256::from(1_000_000_000_000_000_000_000_000u128), U256::from(1_000_000_000_000_000_000_000_000u128)], U256::from(3_000_000_000_000_000_000_000_000u128), 0),
        Ok(None)
    );
    assert_eq!(
        tricrypto_ng::try_get_y_3_ng(U256::from(2_700_000u64), U256::from(1_300_000_000_000u64), [U256::from(1_000_000_000_000_000_000_000_000u128), U256::from(1_000_000_000_000_000_000_000_000u128), U256::from(1_000_000_000_000_000_000_000_000u128)], U256::from_limbs([18_446_744_073_709_551_615, 18_446_744_073_709_551_615, 18_446_744_073_709_551_615, 18_446_744_073_709_551_615]), 0),
        Ok(None)
    );
    assert_eq!(
        tricrypto_ng::try_get_y_3_ng(U256::from(2_700_000u64), U256::from(1_300_000_000_000u64), [U256::from_limbs([18_446_744_073_709_551_615, 18_446_744_073_709_551_615, 18_446_744_073_709_551_615, 18_446_744_073_709_551_615]), U256::from_limbs([18_446_744_073_709_551_615, 18_446_744_073_709_551_615, 18_446_744_073_709_551_615, 18_446_744_073_709_551_615]), U256::from_limbs([18_446_744_073_709_551_615, 18_446_744_073_709_551_615, 18_446_744_073_709_551_615, 18_446_744_073_709_551_615])], U256::from(3_000_000_000_000_000_000_000_000u128), 0),
        Ok(None)
    );
    assert_eq!(
        tricrypto_ng::try_get_y_3_ng(U256::from(2_700_000u64), U256::from(1_300_000_000_000u64), [U256::from(1_000_000_000_000_000_000_000_000u128), U256::from(1_000_000_000_000_000_000_000_000u128), U256::from(1_000_000_000_000_000_000_000_000u128)], U256::from(0u64), 1),
        Err(Fault)
    );
    assert_eq!(
        tricrypto_ng::try_get_y_3_ng(U256::from(2_700_000u64), U256::from(1_300_000_000_000u64), [U256::from(0u64), U256::from(0u64), U256::from(0u64)], U256::from(3_000_000_000_000_000_000_000_000u128), 1),
        Err(Fault)
    );
    assert_eq!(
        tricrypto_ng::try_get_y_3_ng(U256::from(0u64), U256::from(1_300_000_000_000u64), [U256::from(1_000_000_000_000_000_000_000_000u128), U256::from(1_000_000_000_000_000_000_000_000u128), U256::from(1_000_000_000_000_000_000_000_000u128)], U256::from(3_000_000_000_000_000_000_000_000u128), 2),
        Ok(Some((U256::from(999_999_999_999_999_249_017_910u128), U256::from(999_999_999_999_999_249u64))))
    );
}

#[test]
fn balance_of_three_coins_by_newton() {
    assert_eq!(
        tricrypto_ng::try_newton_y_3(U256::from(177_777u64), U256::from(392_722_415_261_294u64), [U256::from(8_992_821_824_566_225_920u64), U256::from(5_304_872_127_977_441_280u64), U256::from(11_343_881_850_243_979_264u64)], U256::from(22_006_011_407_015_174_144u128), 2),
        Ok(Some(U256::from(8_242_152_059_070_850_772u64)))
    );
    assert_eq!(
        tricrypto_ng::try_newton_y_3(U256::from(27_123_185u64), U256::from(4_443_481_060_043_230u64), [U256::from(1_999_732_867_350_397_452_288u128), U256::from(11_865_596_639_352_425_807_872u128), U256::from(3_042_220_203_922_203_607_040u128)], U256::from(13_076_221_059_948_246_728_704u128), 4),
        Ok(Some(U256::from(2_304_242_990_856_389_382_571u128)))
    );
    assert_eq!(
        tricrypto_ng::try_newton_y_3(U256::from(731_914_473u64), U256::from(1_137_713_336_434u64), [U256::from(4_136_001_383_252_137_844_146_176u128), U256::from(737_071_146_007_176_209_760_256u128), U256::from(812_506_083_535_163_737_767_936u128)], U256::from(5_512_854_394_427_221_905_244_160u128), 2),
        Ok(Some(U256::from(2_029_666_693_603_317_324_614_508u128)))
    );
    assert_eq!(
        tricrypto_ng::try_newton_y_3(U256::from(5_212_439u64), U256::from(1_768_429_452_192u64), [U256::from(583_918_962_267_222_850_928_640u128), U256::from(385_785_821_756_482_037_743_616u128), U256::from(789_997_889_102_764_056_772_608u128)], U256::from(1_308_981_511_080_744_782_397_440u128), 3),
        Ok(Some(U256::from(179_956_034_625_016_914_809_088u128)))
    );
    assert_eq!(
        tricrypto_ng::try_newton_y_3(U256::from(4_821_889u64), U256::from(54_252_763_351u64), [U256::from(177_193_183_716_125_383_327_744u128), U256::from(229_206_628_920_065_402_077_184u128), U256::from(32_154_937_773_290_390_814_720u128)], U256::from(339_263_365_613_026_711_437_312u128), 4),
        Ok(Some(U256::from(35_607_393_928_204_294_097_742u128)))
    );
    assert_eq!(
        tricrypto_ng::try_newton_y_3(U256::from(16_742_663u64), U256::from(134_606_834_050u64), [U256::from(5_467_420_632_242_432_969_277_440u128), U256::from(15_109_854_185_192_224_681_099_264u128), U256::from(5_673_074_756_513_380_045_946_880u128)], U256::from(23_190_208_846_183_488_603_291_648u128), 1),
        Ok(Some(U256::from(14_889_564_557_494_334_765_028_275u128)))
    );
    assert_eq!(
        tricrypto_ng::try_newton_y_3(U256::from(883_555_906u64), U256::from(1_026_012_865_006_744u64), [U256::from(447_797_838_685_640_327_168u128), U256::from(136_843_362_024_970_862_592u128), U256::from(281_055_064_346_263_027_712u128)], U256::from(670_916_409_002_730_192_896u128), 2),
        Ok(Some(U256::from(147_874_700_900_360_678_928u128)))
    );
    assert_eq!(
        tricrypto_ng::try_newton_y_3(U256::from(66_232_194u64), U256::from(53_397_167_387u64), [U256::from(114_877_199_542_185_072_974_102_528u128), U256::from(124_290_149_148_035_064_696_668_160u128), U256::from(59_619_743_697_236_992_611_844_096u128)], U256::from(182_366_927_245_473_152_591_986_688u128), 3),
        Ok(Some(U256::from(15_729_643_899_534_587_030_970_576u128)))
    );
    assert_eq!(
        tricrypto_ng::try_newton_y_3(U256::from(186_788u64), U256::from(512_012_801_332_035u64), [U256::from(31_102_648_854_095_766_663_200_768u128), U256::from(2_861_464_902_575_455_375_196_160u128), U256::from(4_288_853_128_473_966_360_395_776u128)], U256::from(30_515_512_604_733_287_178_436_608u128), 1),
        Ok(Some(U256::from(7_792_824_265_381_073_782_976_993u128)))
    );
    assert_eq!(
        tricrypto_ng::try_newton_y_3(U256::from(191_094_193u64), U256::from(30_160_413_707u64), [U256::from(55_015_498_805_371_723_394_842_624u128), U256::from(12_235_918_816_147_612_083_683_328u128), U256::from(36_847_804_229_832_595_197_657_088u128)], U256::from(83_362_651_193_025_748_761_837_568u128), 1),
        Ok(Some(U256::from(10_582_427_662_496_789_400_870_806u128)))
    );
    assert_eq!(
        tricrypto_ng::try_newton_y_3(U256::from(43_528_003u64), U256::from(72_091_526_097_846u64), [U256::from(1_972_751_454_422_173_483_008u128), U256::from(2_456_718_579_276_231_213_056u128), U256::from(1_944_023_501_984_612_745_216u128)], U256::from(4_102_093_261_634_658_631_680u128), 4),
        Ok(Some(U256::from(518_762_548_405_189_597_228u128)))
    );
    assert_eq!(
        tricrypto_ng::try_newton_y_3(U256::from(1_389_949u64), U256::from(1_171_094_523_046_353u64), [U256::from(55_014_541_711_890_421_121_024u128), U256::from(60_562_098_454_058_120_511_488u128), U256::from(834_215_669_568_073_094_922_240u128)], U256::from(901_628_267_392_056_334_221_312u128), 0),
        Ok(Some(U256::from(512_638_261_154_489_762_829_823u128)))
    );
    assert_eq!(
        tricrypto_ng::try_newton_y_3(U256::from(994_296_322u64), U256::from(6_333_971_081_829_641u64), [U256::from(19_691_124_624_555_749_085_806_592u128), U256::from(35_291_161_724_093_731_853_828_096u128), U256::from(75_702_899_927_097_589_631_025_152u128)], U256::from(109_081_653_378_657_223_331_282_944u128), 0),
        Ok(Some(U256::from(8_159_793_002_795_095_519_740_167u128)))
    );
    assert_eq!(
        tricrypto_ng::try_newton_y_3(U256::from(303_361_933u64), U256::from(10_822_221_791_776_726u64), [U256::from(2_391_758_655_863_082_765_516_800u128), U256::from(25_593_234_241_370_614_709_354_496u128), U256::from(37_563_852_097_681_429_194_866_688u128)], U256::from(46_311_455_342_533_001_040_887_808u128), 0),
        Ok(Some(U256::from(1_071_014_179_593_161_586_361_890u128)))
    );
    assert_eq!(
        tricrypto_ng::try_newton_y_3(U256::from(15_049_461u64), U256::from(369_011_048_324u64), [U256::from(385_134_227_003_512_586_240u128), U256::from(108_335_518_679_923_032_064u128), U256::from(138_047_447_171_666_100_224u128)], U256::from(545_128_219_085_981_483_008u128), 3),
        Ok(Some(U256::from(112_810_862_436_007_465_089u128)))
    );
    assert_eq!(
        tricrypto_ng::try_newton_y_3(U256::from(947_585u64), U256::from(1_656_796_447_759_174u64), [U256::from(83_306_571_133_655_051_141_120u128), U256::from(170_528_694_991_242_706_026_496u128), U256::from(179_338_351_274_196_717_273_088u128)], U256::from(428_891_458_814_507_065_802_752u128), 0),
        Ok(Some(U256::from(93_682_723_671_888_783_439_417u128)))
    );
    assert_eq!(
        tricrypto_ng::try_newton_y_3(U256::from(52_390_743u64), U256::from(26_429_555_096_804_744u64), [U256::from(30_051_088_112_656_625_664u128), U256::from(85_132_950_734_011_121_664u128), U256::from(65_794_208_007_213_637_632u128)], U256::from(159_895_755_201_119_748_096u128), 0),
        Ok(Some(U256::from(15_545_075_751_190_330_236u64)))
    );
    assert_eq!(
        tricrypto_ng::try_newton_y_3(U256::from(30_305_211u64), U256::from(31_158_201_421_124_764u64), [U256::from(37_932_983_583_929_191_402_307_584u128), U256::from(57_053_875_774_042_686_554_636_288u128), U256::from(21_773_645_769_216_143_602_483_200u128)], U256::from(113_884_312_130_445_626_476_331_008u128), 4),
        Ok(Some(U256::from(26_064_601_524_725_907_533_077_237u128)))
    );
    assert_eq!(
        tricrypto_ng::try_newton_y_3(U256::from(432_505_182u64), U256::from(1_583_707_090_460u64), [U256::from(1_176_980_090_260_410_204_160u128), U256::from(249_058_909_235_216_482_304u128), U256::from(1_049_716_049_652_245_200_896u128)], U256::from(2_330_759_568_876_846_710_784u128), 3),
        Ok(Some(U256::from(378_679_996_151_698_218_696u128)))
    );
    assert_eq!(
        tricrypto_ng::try_newton_y_3(U256::from(4_828_821u64), U256::from(763_638_409_613u64), [U256::from(1_448_945_119_390_997_413_888u128), U256::from(115_838_423_119_612_051_456u128), U256::from(1_405_348_583_071_901_286_400u128)], U256::from(2_265_440_934_232_831_819_776u128), 4),
        Ok(Some(U256::from(211_376_865_112_790_253_651u128)))
    );
    assert_eq!(
        tricrypto_ng::try_newton_y_3(U256::from(2_700_000u64), U256::from(1_300_000_000_000u64), [U256::from(1_000_000_000_000_000_000_000_000u128), U256::from(1_000_000_000_000_000_000_000_000u128), U256::from(1_000_000_000_000_000_000_000_000u128)], U256::from(0u64), 1),
        Err(Fault)
    );
    assert_eq!(
        tricrypto_ng::try_newton_y_3(U256::from(2_700_000u64), U256::from(1_300_000_000_000u64), [U256::from(0u64), U256::from(0u64), U256::from(0u64)], U256::from(3_000_000_000_000_000_000_000_000u128), 1),
        Err(Fault)
    );
    assert_eq!(
        tricrypto_ng::try_newton_y_3(U256::from(0u64), U256::from(1_300_000_000_000u64), [U256::from(1_000_000_000_000_000_000_000_000u128), U256::from(1_000_000_000_000_000_000_000_000u128), U256::from(1_000_000_000_000_000_000_000_000u128)], U256::from(3_000_000_000_000_000_000_000_000u128), 2),
        Err(Fault)
    );
    assert_eq!(
        tricrypto_ng::try_newton_y_3(U256::from(2_700_000u64), U256::from(1_300_000_000_000u64), [U256::from(1_000_000_000_000_000_000_000_000u128), U256::from(1_000_000_000_000_000_000_000_000u128), U256::from(0u64)], U256::from(3_000_000_000_000_000_000_000_000u128), 7),
        Err(Fault)
    );
    assert_eq!(
        tricrypto_ng::try_newton_y_3(U256::from(2_700_000u64), U256::from(1_300_000_000_000u64), [U256::from(1_000_000_000_000_000_000_000_000u128), U256::from(1_000_000_000_000_000_000_000_000u128), U256::from(1_000_000_000_000_000_000_000_000u128)], U256::from(3_000_000_000_000_000_000_000_000u128), 7),
        Ok(Some(U256::from(1_000_000_000_000_000_000_126_796u128)))
    );
}

#[test]
fn invariant_of_three_coins() {
    assert_eq!(
        tricrypto_ng::try_newton_d(U256::from(5_036_213u64), U256::from(4_825_733_930_515_450u64), [U256::from(63_815_031_740_067_834_960_543_744u128), U256::from(9_913_543_957_467_019_027_152_896u128), U256::from(8_209_946_404_040_345_288_441_856u128)], U256::from(0u64)),
        Ok(Some(U256::from(55_170_778_350_405_091_124_535_176u128)))
    );
    assert_eq!(
        tricrypto_ng::try_newton_d(U256::from(101_528u64), U256::from(219_359_016_976_110u64), [U256::from(41_595_517_362_060u64), U256::from(94_739_070_881_989u64), U256::from(22_237_472_640_255u64)], U256::from(0u64)),
        Ok(Some(U256::from(133_446_705_764_680u64)))
    );
    assert_eq!(
        tricrypto_ng::try_newton_d(U256::from(886_519u64), U256::from(278_732_912_128_062u64), [U256::from(4_960_964_284_044_306_022_400u128), U256::from(8_946_459_926_580_060_749_824u128), U256::from(2_999_735_331_118_330_675_200u128)], U256::from(23_916_699_404_020_420u64)),
        Ok(Some(U256::from(15_363_031_991_080_854_507_711u128)))
    );
    assert_eq!(
        tricrypto_ng::try_newton_d(U256::from(157_988u64), U256::from(7_347_238_360_183_142u64), [U256::from(688_318_953_788_988_134_100_579_219_668_992u128), U256::from(1_272_278_279_940_991_776_852_180_293_648_384u128), U256::from(16_103_737_533_080_888_832_232_471_161_470_976u128)], U256::from(49_447_720_255_005_104u64)),
        Ok(Some(U256::from(7_501_201_154_918_559_030_930_957_715_338_028u128)))
    );
    assert_eq!(
        tricrypto_ng::try_newton_d(U256::from(3_127_308u64), U256::from(17_053_801_424_874_624u64), [U256::from(34_942_505_820_769u64), U256::from(11_729_135_768_352u64), U256::from(19_846_553_037_788u64)], U256::from(0u64)),
        Ok(Some(U256::from(63_522_152_761_422u64)))
    );
    assert_eq!(
        tricrypto_ng::try_newton_d(U256::from(44_489u64), U256::from(533_893_143_951_354u64), [U256::from(544_315_690_449_203_231_269_391_958_016u128), U256::from(8_503_249_232_503_351_940_000_776_192u128), U256::from(59_542_558_644_591_662_184_827_715_584u128)], U256::from(56_532_200_529_829_840u64)),
        Ok(Some(U256::from(196_114_209_472_016_684_670_062_913_684u128)))
    );
    assert_eq!(
        tricrypto_ng::try_newton_d(U256::from(2_655_275u64), U256::from(1_138_287_390_757u64), [U256::from(51_697_773_985u64), U256::from(15_447_007_055u64), U256::from(4_661_454_237u64)], U256::from(0u64)),
        Ok(None)
    );
    assert_eq!(
        tricrypto_ng::try_newton_d(U256::from(9_524_675u64), U256::from(2_025_773_896_637u64), [U256::from(7_264_109_368_563_233_792u64), U256::from(6_488_348_881_709_826_048u64), U256::from(3_517_616_698_405_446_144u64)], U256::from(0u64)),
        Ok(Some(U256::from(16_483_855_319_450_400_689u64)))
    );
    assert_eq!(
        tricrypto_ng::try_newton_d(U256::from(41_879_806u64), U256::from(725_516_315_305_212u64), [U256::from(183_602_675_442_220_923_879_424u128), U256::from(404_697_087_137_139_392_512_000u128), U256::from(8_779_192_587_853_675_626_496u128)], U256::from(0u64)),
        Ok(Some(U256::from(272_660_129_815_612_998_583_789u128)))
    );
    assert_eq!(
        tricrypto_ng::try_newton_d(U256::from(3_396_163u64), U256::from(15_584_152_512_083u64), [U256::from(4_282_144_758_646_858_549_648_617_897_984u128), U256::from(2_881_891_317_852_623_563_366_447_710_208u128), U256::from(947_114_305_618_460_007_557_754_781_696u128)], U256::from(80_906_621_101_985_728u64)),
        Ok(Some(U256::from(6_813_906_871_096_205_220_884_097_003_329u128)))
    );
    assert_eq!(
        tricrypto_ng::try_newton_d(U256::from(9_867_502u64), U256::from(31_135_441_334_080u64), [U256::from(142_991_966_911u64), U256::from(129_740_613_356u64), U256::from(30_134_404_143u64)], U256::from(0u64)),
        Ok(None)
    );
    assert_eq!(
        tricrypto_ng::try_newton_d(U256::from(798_614u64), U256::from(1_446_677_887_212_969u64), [U256::from(358_370_153_131_176_064u64), U256::from(48_069_715_810_814_112u64), U256::from(47_598_166_644_364_120u64)], U256::from(339_330_527_141_084_928u64)),
        Ok(Some(U256::from(285_096_682_651_708_709u64)))
    );
    assert_eq!(
        tricrypto_ng::try_newton_d(U256::from(2_819_085u64), U256::from(449_878_328_343u64), [U256::from(726_990_072_352_962_059_087_904_768u128), U256::from(7_108_945_529_458_238_436_159_782_912u128), U256::from(1_607_089_857_711_631_536_056_434_688u128)], U256::from(10_252_398_784_372_564u64)),
        Ok(Some(U256::from(6_076_100_260_678_882_816_283_277_795u128)))
    );
    assert_eq!(
        tricrypto_ng::try_newton_d(U256::from(234_078_312u64), U256::from(2_280_360_671_979u64), [U256::from(2_799_217_961_647_275_008u64), U256::from(55_679_500_300_280_963_072u128), U256::from(53_538_522_335_225_692_160u128)], U256::from(713_978_442_605_000_832u64)),
        Ok(Some(U256::from(60_943_974_585_348_613_545u128)))
    );
    assert_eq!(
        tricrypto_ng::try_newton_d(U256::from(172_645u64), U256::from(3_056_874_536_226_894u64), [U256::from(21_892_245_304_321_615_187_647_922_176u128), U256::from(4_475_245_454_761_044_194_818_523_136u128), U256::from(11_212_855_541_756_766_457_635_536_896u128)], U256::from(0u64)),
        Ok(Some(U256::from(31_266_626_054_633_235_620_468_717_152u128)))
    );
    assert_eq!(
        tricrypto_ng::try_newton_d(U256::from(122_201_198u64), U256::from(196_465_319_182_830u64), [U256::from(73_384_749_645_056_828_243_968u128), U256::from(17_123_342_771_243_024_646_144u128), U256::from(194_760_206_404_879_959_195_648u128)], U256::from(39_381_108_315_348_768u64)),
        Ok(Some(U256::from(191_559_166_755_114_574_046_305u128)))
    );
    assert_eq!(
        tricrypto_ng::try_newton_d(U256::from(608_917_831u64), U256::from(10_213_612_985u64), [U256::from(23_586_758_579_650_891_350_016u128), U256::from(15_216_532_798_320_905_551_872u128), U256::from(30_047_814_030_967_191_896_064u128)], U256::from(18_298_896_710_003_576u64)),
        Ok(Some(U256::from(66_282_051_838_870_371_776_006u128)))
    );
    assert_eq!(
        tricrypto_ng::try_newton_d(U256::from(11_237_069u64), U256::from(464_579_949_276_850u64), [U256::from(106_049_017_175_014_969_133_167_017_984u128), U256::from(35_149_735_307_096_951_437_769_310_208u128), U256::from(85_789_188_011_502_868_644_098_998_272u128)], U256::from(0u64)),
        Ok(Some(U256::from(207_101_479_409_092_006_006_928_039_178u128)))
    );
    assert_eq!(
        tricrypto_ng::try_newton_d(U256::from(38_997_746u64), U256::from(79_019_299_081_288u64), [U256::from(119_909_199_903_395_104u64), U256::from(55_097_839_726_263_064u64), U256::from(300_413_785_768_195_328u64)], U256::from(510_879_450_895_127_168u64)),
        Ok(Some(U256::from(379_325_711_566_549_864u64)))
    );
    assert_eq!(
        tricrypto_ng::try_newton_d(U256::from(42_651_040u64), U256::from(1_139_643_365_440u64), [U256::from(405_332_750_897_830_862_782_464u128), U256::from(158_387_954_434_568_571_846_656u128), U256::from(3_874_059_284_318_367_378_309_120u128)], U256::from(0u64)),
        Ok(Some(U256::from(1_887_865_636_522_407_446_826_855u128)))
    );
    assert_eq!(
        tricrypto_ng::try_newton_d(U256::from(565_279u64), U256::from(1_243_463_439_368u64), [U256::from(16_194_909_605_378_305_844_455_497_759_981_568u128), U256::from(55_554_650_275_769_324_838_966_133_600_026_624u128), U256::from(31_893_945_141_291_949_206_602_680_509_661_184u128)], U256::from(0u64)),
        Ok(None)
    );
    assert_eq!(
        tricrypto_ng::try_newton_d(U256::from(324_238u64), U256::from(1_286_555_609_960u64), [U256::from(3_639_699_195_197_660_326_461_964_288u128), U256::from(904_327_809_572_823_310_654_242_816u128), U256::from(3_312_983_081_300_619_721_508_388_864u128)], U256::from(1_592_987_346_303_090_432u64)),
        Ok(None)
    );
    assert_eq!(
        tricrypto_ng::try_newton_d(U256::from(840_833_528u64), U256::from(16_624_924_820u64), [U256::from(38_862_820_098u64), U256::from(5_296_275_504u64), U256::from(5_582_560_020u64)], U256::from(646_692_431_486_704_384u64)),
        Ok(None)
    );
    assert_eq!(
        tricrypto_ng::try_newton_d(U256::from(64_262_769u64), U256::from(805_503_912_307_009u64), [U256::from(112_817_388_211_863_719_992_390_890_553_344u128), U256::from(61_988_596_534_094_210_466_517_346_156_544u128), U256::from(712_545_204_919_716_261_259_001_318_080_512u128)], U256::from(0u64)),
        Ok(None)
    );
    assert_eq!(
        tricrypto_ng::try_newton_d(U256::from(176_644_012u64), U256::from(13_740_108_950_300_716u64), [U256::from(229_663_466_029_884_080_128u128), U256::from(19_162_374_282_205_097_984u128), U256::from(39_157_921_337_502_433_280u128)], U256::from(21_079_627_932_465_212u64)),
        Ok(Some(U256::from(234_625_825_705_434_324_419u128)))
    );
    assert_eq!(
        tricrypto_ng::try_newton_d(U256::from(2_700_000u64), U256::from(1_300_000_000_000u64), [U256::from(0u64), U256::from(0u64), U256::from(0u64)], U256::from(0u64)),
        Ok(None)
    );
    assert_eq!(
        tricrypto_ng::try_newton_d(U256::from(0u64), U256::from(1_300_000_000_000u64), [U256::from(1_000_000_000_000_000_000_000_000u128), U256::from(1_000_000_000_000_000_000_000_000u128), U256::from(1_000_000_000_000_000_000_000_000u128)], U256::from(0u64)),
        Err(Fault)
    );
    assert_eq!(
        tricrypto_ng::try_newton_d(U256::from(2_700_000u64), U256::from(0u64), [U256::from(1_000_000_000_000_000_000_000_000u128), U256::from(1_000_000_000_000_000_000_000_000u128), U256::from(1_000_000_000_000_000_000_000_000u128)], U256::from(0u64)),
        Err(Fault)
    );
    assert_eq!(
        tricrypto_ng::try_newton_d(U256::from(2_700_000u64), U256::from(1_300_000_000_000u64), [U256::from(1_000_000_000_000_000_000_000_000u128), U256::from(0u64), U256::from(0u64)], U256::from(0u64)),
        Ok(None)
    );
    assert_eq!(
        tricrypto_ng::try_newton_d(U256::from(2_700_000u64), U256::from(1_300_000_000_000u64), [U256::from(1_000_000_000_000_000_000_000_000u128), U256::from(1_000_000_000_000_000_000_000_000u128), U256::from(1_000_000_000_000_000_000_000_000u128)], U256::from(1_000_000_000_000_000_000u64)),
        Ok(Some(U256::from(3_000_000_000_000_000_000_000_000u128)))
    );
    assert_eq!(
        tricrypto_ng::try_newton_d(U256::from(2_700_000u64), U256::from(1_300_000_000_000u64), [U256::from(1_000_000_000_000_000_000_000_000u128), U256::from(1_000_000_000_000_000_000_000_000u128), U256::from(1_000_000_000_000_000_000_000_000u128)], U256::from_limbs([18_446_744_073_709_551_615, 18_446_744_073_709_551_615, 18_446_744_073_709_551_615, 18_446_744_073_709_551_615])),
        Ok(None)
    );
    assert_eq!(
        tricrypto_ng::try_newton_d(U256::from(2_700_000u64), U256::from(1_300_000_000_000u64), [U256::from(1_000_000_000_000_000_000_000_000u128), U256::from(1_000_000_000_000_000_000_000u128), U256::from(10_000_000_000_000_000_000_000u128)], U256::from(0u64)),
        Ok(Some(U256::from(64_673_615_890_305_624_219_760u128)))
    );
}

#[test]
fn fee_of_any_number_of_coins() {
    assert_eq!(
        tricrypto_ng::try_crypto_fee(&[], U256::from(1u64), U256::from(2u64), U256::from(3u64)),
        Ok(None)
    );
    assert_eq!(
        tricrypto_ng::try_crypto_fee(&[U256::from(0u64), U256::from(0u64)], U256::from(1u64), U256::from(2u64), U256::from(3u64)),
        Ok(None)
    );
    assert_eq!(
        tricrypto_ng::try_crypto_fee(&[U256::from(5u64)], U256::from(3_000_000u64), U256::from(30_000_000u64), U256::from(100_000_000_000_000u64)),
        Ok(Some(U256::from(3_000_000u64)))
    );
    assert_eq!(
        tricrypto_ng::try_crypto_fee(&[U256::from(100_000_000_000_000_000_000u128), U256::from(100_000_000_000_000_000_000u128)], U256::from(3_000_000u64), U256::from(30_000_000u64), U256::from(100_000_000_000_000u64)),
        Ok(Some(U256::from(3_000_000u64)))
    );
    assert_eq!(
        tricrypto_ng::try_crypto_fee(&[U256::from(100_000_000_000_000_000_000u128), U256::from(300_000_000_000_000_000_000u128), U256::from(10_000_000_000_000_000_000u64), U256::from(700_000_000_000_000_000_000u128)], U256::from(3_000_000u64), U256::from(30_000_000u64), U256::from(100_000_000_000_000u64)),
        Ok(Some(U256::from(29_997_201u64)))
    );
    assert_eq!(
        tricrypto_ng::try_crypto_fee(&[U256::from(100_000_000_000_000_000_000u128), U256::from(300_000_000_000_000_000_000u128)], U256::from(3_000_000u64), U256::from(30_000_000u64), U256::from(0u64)),
        Ok(Some(U256::from(9_750_000u64)))
    );
    assert_eq!(
        tricrypto_ng::try_crypto_fee(&[U256::from_limbs([18_446_744_073_709_551_615, 18_446_744_073_709_551_615, 18_446_744_073_709_551_615, 18_446_744_073_709_551_615]), U256::from(1u64)], U256::from(1u64), U256::from(2u64), U256::from(3u64)),
        Ok(None)
    );
    assert_eq!(
        tricrypto_ng::try_crypto_fee(&[U256::from_limbs([18_446_744_073_709_551_615, 18_446_744_073_709_551_615, 18_446_744_073_709_551_615, 18_446_744_073_709_551_615]), U256::from(0u64)], U256::from(1u64), U256::from(2u64), U256::from(3u64)),
        Ok(Some(U256::from(1u64)))
    );
    assert_eq!(
        tricrypto_ng::try_crypto_fee(&[U256::from(100_000_000_000_000_000_000u128), U256::from(100_000_000_000_000_000_000u128), U256::from(100_000_000_000_000_000_000u128)], U256::from(1u64), U256::from(2u64), U256::from_limbs([18_446_744_073_709_551_615, 18_446_744_073_709_551_615, 18_446_744_073_709_551_615, 18_446_744_073_709_551_615])),
        Ok(Some(U256::from(2u64)))
    );
    assert_eq!(
        tricrypto_ng::try_crypto_fee(&[U256::from(100_000_000_000_000_000_000u128), U256::from(300_000_000_000_000_000_000u128)], U256::from(1u64), U256::from(2u64), U256::from_limbs([18_196_744_073_709_551_616, 18_446_744_073_709_551_615, 18_446_744_073_709_551_615, 18_446_744_073_709_551_615])),
        Err(Fault)
    );
}

#[test]
fn invariant_of_two_coins_lies_between_the_means() {
    let e9 = U256::from(1_000_000_000u64);
    for ann in [20_001u64, 400_000, 5_400_000_000] {
        for gamma in [10_000_000_000u64, 11_809_167_828_997, 145_000_000_000_000] {
            for (a, b) in [
                (5_000u128, 5_000u128),
                (8_000, 3_000),
                (3_000, 8_000),
                (1, 90),
                (1_000_000, 999_999),
            ] {
                let x0 = U256::from(a * 1_000_000_000_000_000_000);
                let x1 = U256::from(b * 1_000_000_000_000_000_000);
                let found = twocrypto_ng::try_newton_d(U256::from(ann), U256::from(gamma), [x0, x1], U256::from(0u64));
                let d = found.expect("no fault").expect("converges");
                assert!(d <= x0 + x1);
                assert!(U256::from(4u64) * x0 * x1 * e9 <= (e9 + U256::from(1u64)) * d * d);
            }
        }
    }
}

#[test]
fn invariant_of_three_coins_lies_between_the_means() {
    let e9 = U256::from(1_000_000_000u64);
    // cubes are compared in units of 10^15
    let unit = 1_000_000_000_000_000u128;
    for ann in [120_001u64, 1_707_629, 17_076_290_000] {
        for gamma in [10_000_000_000u64, 11_809_167_828_997, 145_000_000_000_000] {
            for (a, b, c) in [
                (10_000u128, 10_000u128, 10_000u128),
                (10_000, 12_000, 10_000),
                (9_000, 1_000, 3_000),
                (1, 20, 30),
                (1_000_000, 999_999, 999_998),
            ] {
                let x = [U256::from(a * 1_000 * unit), U256::from(b * 1_000 * unit), U256::from(c * 1_000 * unit)];
                let found = tricrypto_ng::try_newton_d(U256::from(ann), U256::from(gamma), x, U256::from(0u64));
                let d = found.expect("no fault").expect("converges");
                assert!(d <= x[0] + x[1] + x[2] + U256::from(3u64));
                let product = U256::from(27 * a * b * c * 1_000_000_000u128);
                let part = d / U256::from(unit) + U256::from(1u64);
                assert!(product * e9 <= (e9 + U256::from(1u64)) * part * part * part);
            }
        }
    }
}

#[test]
fn balance_of_two_coins_by_newton_without_a_fault() {
    let half = U256::from(1_000_000_000_000_000_000_000u128);
    let d = U256::from(2_000_000_000_000_000_000_000u128);
    let lim_mul = U256::from(100_000_000_000_000_000_000u128);
    let y = twocrypto_ng::newton_y_2_ng(U256::from(400_000u64), U256::from(100_000_000_000_000u64), [half, half], d, 0, lim_mul);
    assert_eq!(y, Some(half));
}

#[test]
fn invariant_grows_with_a_balance() {
    let ann = U256::from(400_000u64);
    let gamma = U256::from(145_000_000_000_000u64);
    let zero = U256::from(0u64);
    let wad = 1_000_000_000_000_000_000u128;
    for (a, b) in [(5_000u128, 5_000u128), (8_000, 3_000), (40, 1_000)] {
        let x = [U256::from(a * wad), U256::from(b * wad)];
        // one part in ten to the twelfth of the sum, and a little more
        let more = U256::from((a + b) * wad / 900_000_000_000);
        let d = twocrypto_ng::newton_d(ann, gamma, x, zero).expect("converges");
        let first = twocrypto_ng::newton_d(ann, gamma, [x[0] + more, x[1]], zero).expect("converges");
        let second = twocrypto_ng::newton_d(ann, gamma, [x[0], x[1] + more], zero).expect("converges");
        assert!(d < first);
        assert!(d < second);
    }
    for (a, b, c) in [(5_000u128, 5_000u128, 5_000u128), (8_000, 3_000, 500), (40, 1_000, 900)] {
        let x = [U256::from(a * wad), U256::from(b * wad), U256::from(c * wad)];
        let more = U256::from((a + b + c) * wad / 900_000_000_000);
        let d = tricrypto_ng::newton_d(ann, gamma, x, zero).expect("converges");
        let larger = tricrypto_ng::newton_d(ann, gamma, [x[0], x[1] + more, x[2]], zero).expect("converges");
        assert!(d < larger);
    }
}

#[test]
fn invariant_of_an_even_split_of_three_coins() {
    let ann = U256::from(1_707_629u64);
    let gamma = U256::from(11_809_167_828_997u64);
    for b in [1_000_000_000_000_000_000u128, 54_558_660_606_635_918_414_471, 9_999_999_999_999_999_999_999_999] {
        let x = U256::from(b);
        let d = tricrypto_ng::newton_d(ann, gamma, [x, x, x], U256::from(0u64)).expect("converges");
        assert!(d <= U256::from(3 * b + 3));
        assert!(U256::from(3 * b - b / 100_000_000_000_000_000 - 20) <= d);
    }
}

#[test]
fn fee_of_one_and_of_two_coins() {
    let mid = U256::from(3_000_000u64);
    let out = U256::from(30_000_000u64);
    let fee_gamma = U256::from(500_000_000_000_000u64);
    let a = U256::from(100_000_000_000_000_000_000u128);
    let b = U256::from(101_000_000_000_000_000_000u128);
    assert_eq!(tricrypto_ng::crypto_fee(&[a], mid, out, fee_gamma), Some(mid));
    assert_eq!(tricrypto_ng::crypto_fee(&[a, a], mid, out, fee_gamma), Some(mid));
    let uneven = tricrypto_ng::crypto_fee(&[a, b], mid, out, fee_gamma).expect("a fee");
    assert!(mid < uneven);
    assert!(uneven < out);
}

#[test]
fn balance_falls_as_the_others_grow() {
    let wad = 1_000_000_000_000_000_000u128;
    let pools = [
        (17_076_290_000u64, 11_809_167_828_997u64, [10_000u128, 10_000, 10_000], 30_000u128),
        (540_000, 80_500_000_000_000, [4_000, 12_000, 9_000], 24_000),
        (1_707_629, 11_809_167_828_997, [900, 700, 1_100], 2_600),
    ];
    for (ann, gamma, b, d) in pools {
        let ann = U256::from(ann);
        let gamma = U256::from(gamma);
        let x = [U256::from(b[0] * wad), U256::from(b[1] * wad), U256::from(b[2] * wad)];
        let more = U256::from(d * wad / 10_000_000 + 1);
        let d = U256::from(d * wad);
        for i in 0..3usize {
            let (y, _) = tricrypto_ng::get_y_3_ng(ann, gamma, x, d, i).expect("a balance");
            for j in 0..3usize {
                if i != j {
                    let mut larger = x;
                    larger[j] = x[j] + more;
                    let (z, _) = tricrypto_ng::get_y_3_ng(ann, gamma, larger, d, i).expect("a balance");
                    assert!(z < y);
                }
            }
        }
    }
}

#[test]
fn balance_is_found_near_an_even_split() {
    let wad = 1_000_000_000_000_000_000u128;
    for (ann, gamma) in [(540_000u64, 80_500_000_000_000u64), (17_076_290_000, 11_809_167_828_997)] {
        for (b, c) in [(10_000u128, 10_000u128), (8_400, 14_900), (14_900, 14_900), (8_400, 8_400), (9_000, 12_000)] {
            let x = [U256::from(b * wad), U256::from(c * wad), U256::from(1u64)];
            let d = U256::from(30_000 * wad);
            let (y, _) = tricrypto_ng::get_y_3_ng(U256::from(ann), U256::from(gamma), x, d, 2).expect("a balance");
            assert!(U256::from(0u64) < y);
            assert!(y < d);
        }
    }
}

#[test]
fn invariant_of_two_balances_that_hardly_differ() {
    let ann = U256::from(540_000u64);
    let gamma = U256::from(80_500_000_000_000u64);
    for b in [1_000_000_000_000_000_000u128, 54_558_660_606_635_918_414_471, 9_999_999_000_000_000_000_000_000_000] {
        let x = [U256::from(b), U256::from(b + b / 20_000_000)];
        let d = twocrypto_ng::newton_d(ann, gamma, x, U256::from(0u64)).expect("converges");
        assert!(d <= x[0] + x[1]);
        assert!(U256::from(2 * b - 2) <= d);
    }
}
