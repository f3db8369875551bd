//! The generator and the level draw.

use pg_am_hnsw::rng::{l_max, Xoshiro256StarStar, LEVEL_DRAWS};

const REF_SEED42_STATE: [u64; 4] = [
    13679457532755275413,
    2949826092126892291,
    5139283748462763858,
    6349198060258255764,
];
const REF_SEED42_OUTPUTS: [u64; 16] = [
    1546998764402558742,
    6990951692964543102,
    12544586762248559009,
    17057574109182124193,
    18295552978065317476,
    14199186830065750584,
    13267978908934200754,
    15679888225317814407,
    14044878350692344958,
    10760895422300929085,
    12589033428110817649,
    5362058279183681893,
    14776290213336893110,
    5928998142081247042,
    13118401031821625293,
    16191947441114085370,
];
const REF_STATE_1_2_3_4_OUTPUTS: [u64; 8] = [
    11520,
    0,
    1509978240,
    1215971899390074240,
    1216172134540287360,
    607988272756665600,
    16172922978634559625,
    8476171486693032832,
];

#[test]
fn known_answer_seed_path() {
    let mut rng = Xoshiro256StarStar::new(42);
    assert_eq!(rng.state(), REF_SEED42_STATE, "splitmix64 seed expansion drifted");
    for (i, &expected) in REF_SEED42_OUTPUTS.iter().enumerate() {
        assert_eq!(
            rng.next_u64(),
            expected,
            "output {i} diverged from reference"
        );
    }
}

#[test]
fn known_answer_raw_state_path() {
    let mut rng = Xoshiro256StarStar::from_state([1, 2, 3, 4]);
    for (i, &expected) in REF_STATE_1_2_3_4_OUTPUTS.iter().enumerate() {
        assert_eq!(
            rng.next_u64(),
            expected,
            "output {i} diverged from reference"
        );
    }
}

#[test]
fn same_seed_same_sequence() {
    let mut a = Xoshiro256StarStar::new(1234);
    let mut b = Xoshiro256StarStar::new(1234);
    for _ in 0..256 {
        assert_eq!(a.next_u64(), b.next_u64());
    }
    let levels_a: Vec<u8> = (0..1000).map(|_| a.next_level(16)).collect();
    let levels_b: Vec<u8> = (0..1000).map(|_| b.next_level(16)).collect();
    assert_eq!(levels_a, levels_b);
}

#[test]
fn u_zero_redraws_instead_of_asserting() {
    let mut probe = Xoshiro256StarStar::from_state([1, 0, 0, 1]);
    assert_eq!(
        probe.next_u64(),
        0,
        "test premise: this state must yield u == 0.0"
    );

    let mut via_level = Xoshiro256StarStar::from_state([1, 0, 0, 1]);
    let level = via_level.next_level(16);
    assert!(level <= 13, "post-redraw bound at M=16");
    let mut via_draws = Xoshiro256StarStar::from_state([1, 0, 0, 1]);
    via_draws.next_u64();
    via_draws.next_u64();
    assert_eq!(
        via_level.state(), via_draws.state(),
        "redraw must consume exactly the zero draw"
    );
}

#[test]
fn level_respects_the_post_redraw_bound() {
    let mut rng = Xoshiro256StarStar::new(7);
    for _ in 0..100_000 {
        assert!(rng.next_level(16) <= 13);
    }
    let mut rng = Xoshiro256StarStar::new(7);
    for _ in 0..100_000 {
        assert!(rng.next_level(2) <= 53);
    }
}

#[test]
fn largest_drawable_levels() {
    assert_eq!(l_max(2), 53);
    assert_eq!(l_max(4), 26);
    assert_eq!(l_max(16), 13);
    assert_eq!(l_max(64), 8);
    assert_eq!(l_max(u16::MAX), 3);
}

#[test]
fn a_level_is_the_power_of_m_that_the_draw_is_under() {
    let mut draws = Xoshiro256StarStar::new(42);
    let mut levels = Xoshiro256StarStar::new(42);
    for _ in 0..1000 {
        let u = draws.next_u64() >> 11;
        let mut level = 0u8;
        let mut reach = u128::from(u) * 16;
        while reach <= 1u128 << 53 {
            reach *= 16;
            level += 1;
        }
        assert_eq!(levels.next_level(16), level);
    }
}

#[test]
fn a_level_draw_passes_over_low_draws() {
    let longest = [
        0x0200_0000_0000_1000,
        0x0200_0000_0000_0000,
        0x0200_0000_0000_1000,
        0x0200_0000_0000_1000,
    ];
    let states: Vec<[u64; 4]> = vec![[1, 2, 3, 4], [1, 0, 0, 1], [0, 0, 0, 1], longest];
    for s in states {
        let mut draws = Xoshiro256StarStar::from_state(s);
        let mut n: u64 = 1;
        while draws.next_u64() < 2048 {
            n += 1;
        }
        assert!(n <= LEVEL_DRAWS, "{s:?} takes {n} draws");
        assert_eq!(n == LEVEL_DRAWS, s == longest);
        let mut level = Xoshiro256StarStar::from_state(s);
        assert!(level.next_level(16) <= l_max(16));
        assert_eq!(level.state(), draws.state());
    }
}
