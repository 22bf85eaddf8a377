//! The generator against sequences of CPython's `random.Random`.

use ow_rs::pyrandom::PyRandom;

struct Reference {
    getrandbits32: &'static [u64],
    getrandbits_var: &'static [u64],
    random: &'static [u64],
    randint_1_99: &'static [i64],
    randint_5_30: &'static [i64],
    randint_5_10: &'static [i64],
    uniform_0_pihalf: &'static [u64],
    uniform_60_150: &'static [u64],
}

fn make(seed_key: &str) -> PyRandom {
    match seed_key {
        "int_42" => PyRandom::from_int(42),
        "int_1602569207" => PyRandom::from_int(1602569207),
        "str_comet" => PyRandom::from_str("orbit_wars-comet-1602569207-50"),
        "str_comet2" => PyRandom::from_str("orbit_wars-comet-42-150"),
        other => panic!("unknown seed {other}"),
    }
}

fn random(r: &mut PyRandom) -> f64 {
    r.random() as f64 / 9007199254740992.0
}

fn uniform(r: &mut PyRandom, a: f64, b: f64) -> f64 {
    a + (b - a) * random(r)
}

const INT_42: Reference = Reference {
    getrandbits32: &[
        2746317213, 478163327, 107420369, 3184935163, 1181241943, 1051802512,
        958682846, 599310825, 3163119785, 440213415, 2906402157, 3181143731,
        3831882064, 2342331444, 373399426, 2536146025, 1812140441, 136505587,
        127978094, 402418010, 939042955, 999270936, 2170484433, 2585650756,
    ],
    getrandbits_var: &[
        1, 0, 0, 11,
        8, 15, 28, 35,
        377, 104, 1385, 3033,
        7308, 8935, 2848, 38698,
        55302, 8331, 15622, 98246,
        458517, 975850, 4239227, 10100198,
        890399, 37664518, 26687537, 192205051,
        348904049, 753041955, 1170252923, 1801823908,
        946785248, 6825844140, 29246281099, 51567519519,
        24935803837, 118962602874, 151785220214, 236890980656,
        1679148444259, 448122261369, 3341882896657, 6314017318807,
        12102562833427, 18612686277123, 6115205051775, 129316009522128,
        70272263011973, 1038415602523468, 177439609692435, 1320356922165489,
        5662286581849394, 15950879833673594, 13029276619690689, 13855854739413439,
        10023954183803376, 190596174753506713, 445643557048912526, 1135883078528750669,
        1972228384002752305, 3995950625880289016, 3506045623077649104, 8363943803604256569,
    ],
    random: &[
        0x3fe4762f307200c5, 0x3f999c6b5eeb2060, 0x3fd19a1491f589dc, 0x3fcc922b623b8c1c,
        0x3fe7912c1468f47e, 0x3fe5a785aef6719a, 0x3fec8cbc2a2e7490, 0x3fb6419f92e55088,
        0x3fdb00c460411746, 0x3f9e83298bfe34a0, 0x3fcbfc5443b8faa0, 0x3fe02bdeda687799,
        0x3f9b2c3ec7d6e0c0, 0x3fc973831b74d0f8, 0x3fe4cbda72ce2822, 0x3fe170291dad969a,
        0x3fcc3765f72ff5d0, 0x3fe2db43b51cde06, 0x3fe9e6dab37a29dd, 0x3f7a9e7184826600,
        0x3fe9c94574a37dbb, 0x3fe657286db0c1d4, 0x3fd5c6aa1a39149c, 0x3fc3e6c09371ecd4,
    ],
    randint_1_99: &[
        82, 15, 4, 95, 36, 32, 29, 18, 95, 14, 87, 95,
        70, 12, 76, 55, 5, 4, 12, 28, 30, 65, 78, 4,
    ],
    randint_5_30: &[
        25, 8, 5, 28, 13, 12, 12, 9, 28, 8, 26, 28,
        22, 7, 23, 18, 6, 5, 7, 11, 12, 21, 24, 5,
    ],
    randint_5_10: &[
        10, 5, 5, 10, 7, 6, 6, 6, 10, 5, 10, 10,
        9, 5, 9, 8, 5, 5, 5, 6, 6, 9, 9, 5,
    ],
    uniform_0_pihalf: &[
        0x3ff0120f7366fe02, 0x3fa41d66573cee9d, 0x3fdba6226c535001, 0x3fd67089073cae22,
        0x3ff282713e2814bf, 0x3ff101df45936cae, 0x3ff66c445e11f70f, 0x3fc17ae724a9f94e,
        0x3fe535464ad5fb79, 0x3fa7f6df5d5e281c, 0x3fd5fad9d8b54a97, 0x3fe966e4b648ee9e,
        0x3fa5576c17786dc8, 0x3fd3fd4571b96492, 0x3ff0555838b45461, 0x3feb64497e88989b,
        0x3fd6293e6719b585, 0x3fed9ea639a84c24, 0x3ff457dc5cb9239e, 0x3f84e80d25798db8,
        0x3ff440a059601412, 0x3ff18bd0eddcb4e9, 0x3fe11a54cb85c405, 0x3fcf42d1704f65de,
    ],
    uniform_60_150: &[
        0x405d63192e10288a, 0x404f201fb7ebd52c, 0x4055302b3b505277, 0x405405b1a04477a1,
        0x405f9212fe59cbe9, 0x405e39c9ff0547e0, 0x4061897a26d454fa, 0x4050f4c486692794,
        0x40587e4509d6e22e, 0x404f57439366ebd0, 0x4053eb5acfe7840e, 0x405a5ed8b1917418,
        0x404f31b1c2483160, 0x4053794e0bd388bc, 0x405d9f5598b8f438, 0x405b42dce8de0de4,
        0x4053f5bcec736e36, 0x405c422b9b584c1c, 0x40609b28e318f2b8, 0x404e4add9f44aebf,
        0x406090c26b017a34, 0x405eb5486d204849, 0x4056a7d7cd38113f, 0x40527f8fd9eb06a1,
    ],
};

const INT_1602569207: Reference = Reference {
    getrandbits32: &[
        408285647, 3725193364, 2105748405, 1576949973, 2404210324, 685198876,
        990176536, 4202713084, 2476195539, 2416379034, 216980485, 1223606428,
        4259558592, 2452668174, 3355255153, 3015361670, 2380534609, 778066461,
        4051004624, 4243382560, 4284823579, 1547848582, 2973124466, 808998621,
    ],
    getrandbits_var: &[
        0, 3, 3, 5,
        17, 10, 29, 250,
        295, 576, 103, 1166,
        8124, 9356, 25598, 46010,
        72648, 47489, 494507, 1035982,
        2092199, 1511570, 5806883, 3160150,
        9252928, 55050383, 68639958, 212895886,
        310667973, 881274891, 1680359352, 154381941,
        3631543882, 16410442194, 28992463924, 30293644295,
        95552070124, 111480714204, 147919243648, 156512693324,
        1238815135024, 1834175634791, 2593373729399, 1412099454545,
        13943806807529, 44909401118194, 120932829090810, 279275978616157,
        482599307384973, 664218858606604, 1061203324376106, 2633962951889149,
        7995226911919682, 13799565082638050, 34603648531148734, 34304841961902114,
        10832936805634804, 36343867473557163, 462652918739253167, 433017554705034098,
        502562704506796719, 1116133196978008531, 3207249670667767539, 13363801558318388781,
    ],
    random: &[
        0x3fb855f1dbc13e10, 0x3fdf60caeaeff2c6, 0x3fe1e9aad0a35d38, 0x3fcd82728fa804fc,
        0x3fe272f7da401c12, 0x3fa9ddb8123bb020, 0x3fefbc769a48c2fc, 0x3fe8ffa42eceeb12,
        0x3fe1bc8268b98168, 0x3fee2ead9bf3b384, 0x3fefeca70171092e, 0x3fe626c8ecc0e15b,
        0x3fd1a6081e90011e, 0x3fe05d735b2c2223, 0x3fe2846ac7487300, 0x3fe90a0fec24ceb9,
        0x3feb0e9ec96c0524, 0x3fea446f3be10ebf, 0x3fe802bc87509412, 0x3fab48a81ddd5a80,
        0x3fcfac70fb6ecb90, 0x3fee98967996ecd7, 0x3fdc2b22622f54ca, 0x3fdc388b1122db3e,
    ],
    randint_1_99: &[
        13, 63, 47, 72, 21, 30, 74, 73, 7, 37, 74, 90,
        71, 24, 47, 89, 25, 36, 66, 75, 5, 46, 97, 7,
    ],
    randint_5_30: &[
        8, 20, 16, 22, 10, 12, 23, 23, 6, 14, 23, 29,
        27, 22, 10, 16, 27, 11, 13, 21, 30, 23, 30, 6,
    ],
    randint_5_10: &[
        5, 8, 7, 9, 6, 6, 9, 9, 5, 7, 9, 10,
        9, 6, 7, 10, 6, 7, 9, 9, 5, 7, 5, 8,
    ],
    uniform_0_pihalf: &[
        0x3fc31cfcb7501f46, 0x3fe8a4f0caa64e77, 0x3fec2326364c4ff4, 0x3fd72d3fcb474b7a,
        0x3fecfad230f0b1ba, 0x3fb450af9b4a5cf5, 0x3ff8ecf044ac9213, 0x3ff3a2443ce60da1,
        0x3febdc372b40e378, 0x3ff7b484d27bcc42, 0x3ff912c941a8f94f, 0x3ff165d2f2b7d910,
        0x3fdbb8e85a124835, 0x3fe9b4c60c92ff8a, 0x3fed163ad26d66ea, 0x3ff3aa7379c4ee2d,
        0x3ff54027a3099d54, 0x3ff4a15bc771abb7, 0x3ff2dba2b0d39ab0, 0x3fb56dbc8e733f60,
        0x3fd8e05adcf0311e, 0x3ff807b3379950c0, 0x3fe61f9c94ad2acd, 0x3fe62a249aa0429d,
    ],
    uniform_60_150: &[
        0x4051238dc1d07bf4, 0x405a080756985b5a, 0x405b984c1ab2dd8c, 0x40542fee234088e0,
        0x405bf8d6457513bc, 0x405022fe56cd1f7d, 0x4062a841b23d948c, 0x406049dfb874bea4,
        0x405b788bb1a26efd, 0x40621c6908d3ad1c, 0x4062b932b681bd3a, 0x405e934546779e74,
        0x4055345edabea064, 0x405a81b51c1b0800, 0x405c051b141ef0dc, 0x40604d899904f0ad,
        0x40610323d2cff9ce, 0x4060bc0f1b0d1f2f, 0x405fe1ec8f24a81d, 0x405032f1634ffa3a,
        0x4054914fdc3279c8, 0x406241a4e6bf0f44, 0x4058e72a1684a3cf, 0x4058ebe0e4064114,
    ],
};

const STR_COMET: Reference = Reference {
    getrandbits32: &[
        3808278250, 2691930470, 1549676715, 708452945, 2838464135, 3191210479,
        3391537993, 1921639782, 3219893434, 1899102426, 210676849, 3245192434,
        3162971183, 3956276751, 2822507633, 832912771, 1234863794, 3706183373,
        2043893634, 1265143955, 1127537483, 708363127, 758227203, 2355112163,
    ],
    getrandbits_var: &[
        1, 2, 2, 2,
        21, 47, 101, 114,
        383, 452, 100, 3094,
        6032, 15091, 21534, 12709,
        37685, 226207, 249498, 308873,
        550555, 691760, 1480912, 9199656,
        18553567, 54628180, 98668795, 255013353,
        230006055, 914787663, 693057362, 1875066274,
        3566683620, 12937641562, 3660179161, 34352385003,
        104098503488, 61628204434, 498084678585, 763980502552,
        1732336462279, 131816151619, 2515139939141, 14895199023729,
        26395910374268, 423941249623, 135302173930975, 137421789171635,
        397627242613127, 189104572570120, 308206613899960, 61542958018262,
        2767353860243276, 15680782654462681, 18326670326386131, 42006489497559049,
        92075059975701099, 109750181238462526, 20439377935352582, 250528660984077009,
        2076382840905269797, 1110011317397239768, 8590656773251612237, 15391585217814929867,
    ],
    random: &[
        0x3fec5fb6de81ce65, 0x3fd7178c2951d112, 0x3fe525f0d2f8d807, 0x3fe944d869ca2795,
        0x3fe7fd7595c4c803, 0x3fa91d58f05b6d30, 0x3fe790e387af3ff8, 0x3fe507818cc694f6,
        0x3fd266a1aee73ef6, 0x3fde74d5e25b4484, 0x3fd0cd36d151c61a, 0x3fc698d088c6028c,
        0x3fe1b1adfb418f54, 0x3fe78643efcccc7a, 0x3fdb6b3a4ed0d1a8, 0x3fd4a79bab7e19ec,
        0x3fea92e8bc98be75, 0x3f8925f2e53e3900, 0x3feb453cd835623b, 0x3feff1f97ded0594,
        0x3fce608dac35ec38, 0x3fd654f161d957f6, 0x3fef0521779a5a4f, 0x3fec192ac2c59af7,
    ],
    randint_1_99: &[
        81, 47, 22, 85, 96, 58, 96, 57, 7, 97, 95, 85,
        25, 37, 61, 38, 34, 22, 23, 71, 71, 95, 55, 42,
    ],
    randint_5_30: &[
        25, 16, 10, 26, 28, 30, 19, 28, 19, 6, 29, 28,
        26, 11, 14, 20, 14, 13, 10, 10, 22, 22, 28, 18,
    ],
    randint_5_10: &[
        10, 7, 6, 10, 10, 8, 10, 8, 5, 10, 10, 6,
        7, 8, 7, 7, 6, 6, 9, 9, 10, 8, 7, 8,
    ],
    uniform_0_pihalf: &[
        0x3ff648e86be4f3ce, 0x3fe222eb2654ee50, 0x3ff09c195e7596cb, 0x3ff3d89e885f132c,
        0x3ff2d77da982ef02, 0x3fb3b998ffd3741b, 0x3ff28238432c1157, 0x3ff084321dd4fb07,
        0x3fdce77159b3b000, 0x3fe7eb9eca09f7c5, 0x3fda6454d3e86932, 0x3fd1bf61fc0cb6fb,
        0x3febcb343ff63328, 0x3ff279e04c7ebcad, 0x3fe588e37af9a8e8, 0x3fe038e0af946158,
        0x3ff4defe09a59a2e, 0x3f93c05a69776c81, 0x3ff56b0d1e8dc4f5, 0x3ff916f759c73aa5,
        0x3fd7dbb0d5f922ce, 0x3fe18a13927299f6, 0x3ff85cf311e1fe55, 0x3ff611800ba891e9,
    ],
    uniform_60_150: &[
        0x406179a64a39a290, 0x40571e474686c380, 0x405ddead5456f7e5, 0x40606234153111ea,
        0x405fde36ad4e5ca2, 0x40501a8a2890048c, 0x405f91dffb6738fa, 0x405dc94716fba0bd,
        0x40557814d77d4c22, 0x4059b51331941616, 0x4054e8254596bfa5, 0x4052f8dca80ace73,
        0x405b70ee54aa18c7, 0x405f8a67c49bffc6, 0x4058a3b27fb569b5, 0x405642ecba4a551d,
        0x4060d7a5d24db2f5, 0x404e8d7576497e01, 0x406116576402c488, 0x4062bb11b64553f6,
        0x405456f8e7457a86, 0x4056d9dcdc6668ec, 0x406267cdc40c43c0, 0x406160d90879787b,
    ],
};

const STR_COMET2: Reference = Reference {
    getrandbits32: &[
        2673848452, 2270976470, 256295622, 3808864468, 3460399280, 3162159727,
        4103206079, 4070974580, 2364270323, 1126874019, 2165249880, 4144942542,
        3541587706, 3105339026, 1812608205, 3681533594, 3514709026, 1169709634,
        3451750201, 2293538808, 610014896, 1187698648, 3057215628, 1198267327,
    ],
    getrandbits_var: &[
        1, 2, 0, 14,
        25, 47, 122, 242,
        281, 268, 1032, 3952,
        6755, 11845, 13829, 56175,
        107260, 71393, 421356, 559945,
        297858, 1159861, 5971124, 4680731,
        30554170, 7031400, 117349342, 214260686,
        521247089, 823194213, 1369693046, 4181658702,
        6807156255, 11671051288, 18829319631, 46780331211,
        54459798053, 221472881184, 197059486675, 132790468318,
        431032389775, 4069435968096, 2361759409753, 13005291487569,
        9828746232841, 9644880092780, 135966117777318, 137972261888824,
        25871883578829, 480201472505294, 2076209021723618, 1002072704240145,
        8890538190005064, 11322481989565077, 16625558376929136, 47329674975358170,
        9663660180219867, 5287392947014919, 66225236777904109, 647134508669585084,
        2006948238164568807, 747644171229490642, 5460760919098786627, 399269915544590521,
    ],
    random: &[
        0x3fe3ebf6121d7167, 0x3fae8d85b8c1aa30, 0x3fe9c83016f1eae9, 0x3fee923e97ca9891,
        0x3fe19d7cdd0caaee, 0x3fe021e2ebdc3b37, 0x3fea630adee45eda, 0x3fdb028d36db7df4,
        0x3fea2fc68516e169, 0x3fe9b7b0e622d27f, 0x3fc22e0b546cad7c, 0x3fe6c72d111db06e,
        0x3fed2383a06b4a68, 0x3febfa6f7b3156f3, 0x3fef119973110f26, 0x3fe468f6dfe4fc31,
        0x3fe2b79ec249552d, 0x3fe6f4c382854416, 0x3fd89427747ada5e, 0x3fec8a669aa43365,
        0x3fe5c1d2459b3006, 0x3fe219ff473852c9, 0x3fec3524796e2dac, 0x3fed5db7d87b0548,
    ],
    randint_1_99: &[
        80, 68, 8, 95, 71, 34, 65, 93, 55, 35, 69, 19,
        36, 92, 36, 14, 99, 82, 75, 74, 92, 81, 50, 72,
    ],
    randint_5_30: &[
        24, 21, 6, 30, 28, 22, 13, 21, 28, 18, 13, 30,
        22, 9, 13, 27, 13, 8, 30, 29, 25, 23, 23, 27,
    ],
    randint_5_10: &[
        9, 9, 5, 10, 9, 7, 9, 10, 8, 7, 9, 6,
        7, 10, 7, 5, 10, 9, 9, 10, 10, 8, 9, 10,
    ],
    uniform_0_pihalf: &[
        0x3fef4b00166348f3, 0x3fb7ff0260c34cab, 0x3ff43fc681a248f1, 0x3ff802b7d2becce4,
        0x3febab7c9e485f6c, 0x3fe95735dd1d0ba1, 0x3ff4b965dfb1be1b, 0x3fe536ad179ff136,
        0x3ff4912208657728, 0x3ff432d19ec5106f, 0x3fcc8e8e3d58de09, 0x3ff1e3cb821db45b,
        0x3ff6e2b0505d011c, 0x3ff5f95d193d0558, 0x3ff866be0bfffff7, 0x3ff007ad6a913932,
        0x3fed66a8ca2196d4, 0x3ff2079973e7a814, 0x3fe34dd8a67ed7f7, 0x3ff66a6f0b5caa1c,
        0x3ff1168708cd7a06, 0x3fec6f10d4f5307f, 0x3ff62778d798fe32, 0x3ff71066eb25f823,
    ],
    uniform_60_150: &[
        0x405d01e904bcb3bc, 0x405057b8205e82bb, 0x40609060e8110c96, 0x40623f6a015d39a3,
        0x405b62bbcb6ce830, 0x405a57d38dd6d9a2, 0x4060c6d1d25c4958, 0x40587ee5a5492a48,
        0x4060b4cbcaca0b3f, 0x40608a9430e83e00, 0x40523217fdd71a7f, 0x405f040bb008e00d,
        0x4061be7c4665b828, 0x4061560b314f5892, 0x40626c2ff273ff54, 0x405d59cd956d0152,
        0x405c291ba09b8fe4, 0x405f241977c5b3df, 0x4057a415def330c5, 0x406188a8125dba12,
        0x405e4c47d8f11dc4, 0x405bba477e139a36, 0x40616aaed2b0bc0e, 0x4061d2f2a21b3fdc,
    ],
};

#[test]
fn rng_matches_cpython() {
    let pi_half = 1.5707963267948966_f64;
    let all = [
        ("int_42", &INT_42),
        ("int_1602569207", &INT_1602569207),
        ("str_comet", &STR_COMET),
        ("str_comet2", &STR_COMET2),
    ];
    for (seed_key, reference) in all {
        let mut r = make(seed_key);
        for (i, v) in reference.getrandbits32.iter().enumerate() {
            assert_eq!(r.getrandbits(32), *v, "{seed_key} getrandbits32[{i}]");
        }
        let mut r = make(seed_key);
        for (i, v) in reference.getrandbits_var.iter().enumerate() {
            let k = (i + 1) as u32;
            assert_eq!(r.getrandbits(k), *v, "{seed_key} getrandbits({k})");
        }
        let mut r = make(seed_key);
        for (i, v) in reference.random.iter().enumerate() {
            assert_eq!(random(&mut r).to_bits(), *v, "{seed_key} random[{i}]");
        }
        let ranges = [
            ("randint_1_99", 1, 99, reference.randint_1_99),
            ("randint_5_30", 5, 30, reference.randint_5_30),
            ("randint_5_10", 5, 10, reference.randint_5_10),
        ];
        for (key, a, b, values) in ranges {
            let mut r = make(seed_key);
            for (i, v) in values.iter().enumerate() {
                assert_eq!(r.randint(a, b), Some(*v), "{seed_key} {key}[{i}]");
            }
        }
        let spans = [
            ("uniform_0_pihalf", 0.0, pi_half, reference.uniform_0_pihalf),
            ("uniform_60_150", 60.0, 150.0, reference.uniform_60_150),
        ];
        for (key, a, b, values) in spans {
            let mut r = make(seed_key);
            for (i, v) in values.iter().enumerate() {
                assert_eq!(uniform(&mut r, a, b).to_bits(), *v, "{seed_key} {key}[{i}]");
            }
        }
    }
}

#[test]
fn words_go_on_past_the_first_blocks() {
    let mut r = PyRandom::from_int(42);
    let mut all: u32 = 0;
    let mut last: u32 = 0;
    for _ in 0..2000 {
        last = r.genrand_uint32();
        all ^= last;
    }
    assert_eq!(last, 1557724698);
    assert_eq!(all, 3399285646);
}

#[test]
fn seeds_of_one_and_two_words() {
    let mut zero = PyRandom::from_int(0);
    for v in [3626764237, 1654615998, 3255389356u32] {
        assert_eq!(zero.genrand_uint32(), v);
    }
    let mut big = PyRandom::from_int(9223372036854775813);
    for v in [1478493593, 736485321, 1981690036u32] {
        assert_eq!(big.genrand_uint32(), v);
    }
}

#[test]
fn draws_below_a_limit() {
    let mut none = PyRandom::from_int(7);
    assert_eq!(none.randbelow(0), Some(0));
    // Nothing is drawn for it.
    assert_eq!(none.randbelow(1000), Some(331));
    let mut r = PyRandom::from_int(7);
    for v in [331, 970, 154, 404, 666, 49u64] {
        assert_eq!(r.randbelow(1000), Some(v));
    }
    let mut wide = PyRandom::from_int(7);
    for v in [868231286071, 105874957392, 208460025899, 470330855157u64] {
        assert_eq!(wide.randbelow(1099511627777), Some(v));
    }
    let mut one = PyRandom::from_int(7);
    assert_eq!(one.randbelow(1), Some(0));
    let mut same = PyRandom::from_int(7);
    assert_eq!(same.randint(12, 12), Some(12));
}

#[test]
fn a_seed_gives_the_same_numbers_again() {
    let mut a = PyRandom::from_str("orbit_wars-comet-7-50");
    let mut b = PyRandom::from_bytes(b"orbit_wars-comet-7-50");
    let mut c = PyRandom::from_str("orbit_wars-comet-7-51");
    let mut differ = false;
    for _ in 0..700 {
        let w = a.genrand_uint32();
        assert_eq!(w, b.genrand_uint32());
        differ = differ || w != c.genrand_uint32();
    }
    assert!(differ);
}

#[test]
fn seeding_leaves_nothing_of_the_old_state() {
    let mut a = PyRandom::from_int(1);
    let mut b = PyRandom::from_str("other");
    for _ in 0..700 {
        b.genrand_uint32();
    }
    a.init_by_array(&vec![42]);
    b.init_by_array(&vec![42]);
    let mut c = PyRandom::from_int(42);
    for _ in 0..1300 {
        let w = c.genrand_uint32();
        assert_eq!((a.genrand_uint32(), b.genrand_uint32()), (w, w));
    }
}
