use game2048::game_field::{
    calc_score_4, calc_score_6, do_game_step_4, do_game_step_6, spawn_4, spawn_6, test_4, test_6,
    spawn_draw, try_spawn, Field, FieldSize, Usermove,
};

const BOARD_4: [[u32; 4]; 4] = [[2, 2, 2, 2], [2, 0, 2, 4], [0, 2, 2, 0], [4, 0, 2, 2]];

const BOARD_6: [[u32; 6]; 6] = [
    [0, 0, 0, 2, 2, 4],
    [2, 2, 4, 8, 0, 0],
    [0, 0, 0, 0, 0, 0],
    [8, 8, 8, 8, 8, 8],
    [2, 0, 0, 0, 0, 2],
    [4, 4, 0, 4, 4, 4],
];

fn sum4(f: &[[u32; 4]; 4]) -> u32 {
    f.iter().flatten().sum()
}

fn sum6(f: &[[u32; 6]; 6]) -> u32 {
    f.iter().flatten().sum()
}

#[test]
fn left_merges_pairs_from_the_left() {
    let mut f = BOARD_4;
    do_game_step_4(&Usermove::Left, &mut f);
    assert_eq!(f, [[4, 4, 0, 0], [4, 4, 0, 0], [4, 0, 0, 0], [4, 4, 0, 0]]);
}

#[test]
fn right_merges_pairs_from_the_right() {
    let mut f = BOARD_4;
    do_game_step_4(&Usermove::Right, &mut f);
    assert_eq!(f, [[0, 0, 4, 4], [0, 0, 4, 4], [0, 0, 0, 4], [0, 0, 4, 4]]);
}

#[test]
fn up_merges_columns_towards_the_top() {
    let mut f = BOARD_4;
    do_game_step_4(&Usermove::Up, &mut f);
    assert_eq!(f, [[4, 4, 4, 2], [4, 0, 4, 4], [0, 0, 0, 2], [0, 0, 0, 0]]);
}

#[test]
fn down_merges_columns_towards_the_bottom() {
    let mut f = BOARD_4;
    do_game_step_4(&Usermove::Down, &mut f);
    assert_eq!(f, [[0, 0, 0, 0], [0, 0, 0, 2], [4, 0, 4, 4], [4, 4, 4, 2]]);
}

#[test]
fn merged_tile_does_not_merge_again() {
    let mut f = [[2, 2, 4, 0], [4, 4, 8, 16], [0, 0, 0, 0], [0, 0, 0, 0]];
    do_game_step_4(&Usermove::Left, &mut f);
    assert_eq!(f, [[4, 4, 0, 0], [8, 8, 16, 0], [0, 0, 0, 0], [0, 0, 0, 0]]);
}

#[test]
fn steps_on_the_six_board() {
    let cases: [(Usermove, [[u32; 6]; 6]); 4] = [
        (
            Usermove::Left,
            [
                [4, 4, 0, 0, 0, 0],
                [4, 4, 8, 0, 0, 0],
                [0, 0, 0, 0, 0, 0],
                [16, 16, 16, 0, 0, 0],
                [4, 0, 0, 0, 0, 0],
                [8, 8, 4, 0, 0, 0],
            ],
        ),
        (
            Usermove::Right,
            [
                [0, 0, 0, 0, 4, 4],
                [0, 0, 0, 4, 4, 8],
                [0, 0, 0, 0, 0, 0],
                [0, 0, 0, 16, 16, 16],
                [0, 0, 0, 0, 0, 4],
                [0, 0, 0, 4, 8, 8],
            ],
        ),
        (
            Usermove::Up,
            [
                [2, 2, 4, 2, 2, 4],
                [8, 8, 8, 16, 8, 8],
                [2, 4, 0, 4, 4, 2],
                [4, 0, 0, 0, 0, 4],
                [0, 0, 0, 0, 0, 0],
                [0, 0, 0, 0, 0, 0],
            ],
        ),
        (
            Usermove::Down,
            [
                [0, 0, 0, 0, 0, 0],
                [0, 0, 0, 0, 0, 0],
                [2, 0, 0, 0, 0, 4],
                [8, 2, 0, 2, 2, 8],
                [2, 8, 4, 16, 8, 2],
                [4, 4, 8, 4, 4, 4],
            ],
        ),
    ];
    for (m, expected) in cases.iter() {
        let mut f = BOARD_6;
        do_game_step_6(m, &mut f);
        assert_eq!(f, *expected);
    }
}

#[test]
fn a_move_keeps_the_sum_of_the_tiles() {
    for m in [Usermove::Left, Usermove::Right, Usermove::Up, Usermove::Down].iter() {
        let mut f = BOARD_4;
        do_game_step_4(m, &mut f);
        assert_eq!(sum4(&f), sum4(&BOARD_4));
        let mut g = BOARD_6;
        do_game_step_6(m, &mut g);
        assert_eq!(sum6(&g), sum6(&BOARD_6));
    }
}

#[test]
fn big_tiles_merge_up_to_the_limit() {
    let half = 1u32 << 31;
    let mut f = [[half, half, 0, 0], [0, 0, 0, 0], [0, 0, 0, 0], [0, 0, 0, 0]];
    f[0][0] = half - 1;
    f[0][1] = half - 1;
    do_game_step_4(&Usermove::Left, &mut f);
    assert_eq!(f[0], [u32::MAX - 1, 0, 0, 0]);
}

#[test]
fn test_is_false_on_a_locked_board() {
    let mut f = [[2, 4, 2, 4], [4, 2, 4, 2], [2, 4, 2, 4], [4, 2, 4, 2]];
    let before = f;
    assert!(!test_4(&mut f));
    assert_eq!(f, before);
}

#[test]
fn test_is_false_on_an_empty_board() {
    let mut f = [[0u32; 4]; 4];
    assert!(!test_4(&mut f));
    let mut g = [[0u32; 6]; 6];
    assert!(!test_6(&mut g));
}

#[test]
fn test_is_true_when_a_tile_can_slide() {
    let mut f = [[2, 4, 2, 4], [4, 2, 4, 2], [2, 4, 2, 4], [4, 2, 4, 0]];
    let before = f;
    assert!(test_4(&mut f));
    assert_eq!(f, before);
}

#[test]
fn test_is_true_when_two_neighbours_are_equal() {
    let mut f = [[2, 4, 2, 4], [4, 2, 4, 2], [2, 4, 2, 4], [4, 2, 4, 4]];
    assert!(test_4(&mut f));
    let mut g = BOARD_6;
    assert!(test_6(&mut g));
    assert_eq!(g, BOARD_6);
}

#[test]
fn test_is_true_for_a_single_tile_in_a_corner() {
    let mut f = [[0, 0, 0, 0], [0, 0, 0, 0], [0, 0, 0, 0], [0, 0, 0, 2]];
    assert!(test_4(&mut f));
}

#[test]
fn score_is_the_sum_of_the_tiles() {
    let mut f = BOARD_4;
    assert_eq!(calc_score_4(&mut f), 28);
    assert_eq!(f, BOARD_4);
    let mut g = BOARD_6;
    assert_eq!(calc_score_6(&mut g), 96);
    let mut e = [[0u32; 4]; 4];
    assert_eq!(calc_score_4(&mut e), 0);
}

#[test]
fn score_may_reach_the_limit() {
    let mut f = [[0u32; 4]; 4];
    f[0][0] = u32::MAX - 5;
    f[3][3] = 5;
    assert_eq!(calc_score_4(&mut f), u32::MAX);
}

#[test]
fn spawn_fills_the_only_empty_cell() {
    let mut f = [[2, 4, 2, 4], [4, 2, 4, 2], [2, 4, 0, 4], [4, 2, 4, 2]];
    spawn_4(&mut f);
    assert_eq!(f, [[2, 4, 2, 4], [4, 2, 4, 2], [2, 4, 2, 4], [4, 2, 4, 2]]);
}

#[test]
fn spawn_leaves_a_full_board() {
    let mut f = [[2, 4, 2, 4], [4, 2, 4, 2], [2, 4, 2, 4], [4, 2, 4, 2]];
    let before = f;
    spawn_4(&mut f);
    assert_eq!(f, before);
    let mut g = [[8u32; 6]; 6];
    spawn_6(&mut g);
    assert_eq!(g, [[8u32; 6]; 6]);
}

#[test]
fn spawn_puts_one_two_on_an_empty_board() {
    for _ in 0..20 {
        let mut f = [[0u32; 6]; 6];
        spawn_6(&mut f);
        let tiles: Vec<u32> = f.iter().flatten().copied().filter(|v| *v != 0).collect();
        assert_eq!(tiles, vec![2]);
    }
}

#[test]
fn spawn_only_fills_an_empty_cell() {
    for _ in 0..20 {
        let mut f = BOARD_4;
        spawn_4(&mut f);
        let mut changed = 0;
        for i in 0..4 {
            for j in 0..4 {
                if f[i][j] != BOARD_4[i][j] {
                    changed += 1;
                    assert_eq!(BOARD_4[i][j], 0);
                    assert_eq!(f[i][j], 2);
                }
            }
        }
        assert_eq!(changed, 1);
    }
}

#[test]
fn try_spawn_uses_the_picked_cell() {
    // 9 picks row 9 % 4 = 1 and column (9 / 4) % 4 = 2.
    let mut f = [[0u32; 4]; 4];
    assert!(try_spawn(&mut f, 9));
    assert_eq!(f[1][2], 2);
    assert_eq!(f.iter().flatten().filter(|v| **v != 0).count(), 1);
    // The same cell is now taken.
    let before = f;
    assert!(!try_spawn(&mut f, 9));
    assert_eq!(f, before);
    // 6 * 6 + 7 picks row 43 % 6 = 1 and column (43 / 6) % 6 = 1.
    let mut g = [[0u32; 6]; 6];
    assert!(try_spawn(&mut g, 43));
    assert_eq!(g[1][1], 2);
}

#[test]
fn default_four_starts_with_a_two_in_the_corner() {
    let f = Field::default(FieldSize::Four);
    assert!(!f.skip && !f.hard && !f.loose);
    assert_eq!(f.score, 0);
    assert_eq!(f.size, FieldSize::Four);
    assert_eq!(f.field_4, Some([[0, 0, 0, 0], [0, 0, 0, 0], [0, 0, 0, 0], [0, 0, 0, 2]]));
    assert_eq!(f.field_6, None);
}

#[test]
fn default_six_is_recorded_with_size_four() {
    let f = Field::default(FieldSize::Six);
    assert!(!f.skip && !f.hard && !f.loose);
    assert_eq!(f.score, 0);
    assert_eq!(f.size, FieldSize::Four);
    assert_eq!(f.field_4, None);
    let mut expected = [[0u32; 6]; 6];
    expected[5][5] = 2;
    assert_eq!(f.field_6, Some(expected));
}

#[test]
fn default_empty_is_the_record_of_no_game() {
    let f = Field::default(FieldSize::Empty);
    assert_eq!(f.size, FieldSize::Empty);
    assert_eq!(f.field_4, None);
    assert_eq!(f.field_6, None);
    assert_eq!(f.score, 0);
    assert!(!f.skip && !f.hard && !f.loose);
    let e = Field::empty();
    assert_eq!(e.size, FieldSize::Empty);
    assert_eq!(e.field_4, None);
    assert_eq!(e.field_6, None);
}

#[test]
fn field_size_defaults_to_four() {
    assert_eq!(FieldSize::default(), FieldSize::Four);
}

#[test]
fn a_settled_row_does_not_move() {
    let mut f = [[8, 4, 2, 0], [16, 2, 0, 0], [0, 0, 0, 0], [2, 4, 8, 16]];
    let before = f;
    do_game_step_4(&Usermove::Left, &mut f);
    assert_eq!(f, before);
    let mut g = [[4, 4, 0, 0], [0, 0, 0, 0], [0, 0, 0, 0], [0, 0, 0, 0]];
    do_game_step_4(&Usermove::Left, &mut g);
    assert_eq!(g[0], [8, 0, 0, 0]);
}

fn mirror4(f: &[[u32; 4]; 4]) -> [[u32; 4]; 4] {
    let mut r = [[0u32; 4]; 4];
    for i in 0..4 {
        for j in 0..4 {
            r[i][j] = f[i][3 - j];
        }
    }
    r
}

fn transpose4(f: &[[u32; 4]; 4]) -> [[u32; 4]; 4] {
    let mut r = [[0u32; 4]; 4];
    for i in 0..4 {
        for j in 0..4 {
            r[i][j] = f[j][i];
        }
    }
    r
}

fn stepped4(m: &Usermove, f: &[[u32; 4]; 4]) -> [[u32; 4]; 4] {
    let mut g = *f;
    do_game_step_4(m, &mut g);
    g
}

fn sample4() -> [[u32; 4]; 4] {
    [[2, 2, 4, 0], [0, 4, 4, 4], [8, 0, 8, 2], [2, 0, 2, 2]]
}

#[test]
fn moves_are_mirrors_and_transposes_of_left() {
    let f = sample4();
    assert_eq!(stepped4(&Usermove::Right, &f), mirror4(&stepped4(&Usermove::Left, &mirror4(&f))));
    assert_eq!(stepped4(&Usermove::Up, &f), transpose4(&stepped4(&Usermove::Left, &transpose4(&f))));
    assert_eq!(stepped4(&Usermove::Down, &f), transpose4(&stepped4(&Usermove::Right, &transpose4(&f))));
}

#[test]
fn a_move_never_adds_tiles() {
    let f = sample4();
    let count = |g: &[[u32; 4]; 4]| g.iter().flatten().filter(|v| **v != 0).count();
    for m in [Usermove::Left, Usermove::Right, Usermove::Up, Usermove::Down].iter() {
        let g = stepped4(m, &f);
        assert!(count(&g) <= count(&f));
    }
    assert_eq!(count(&stepped4(&Usermove::Left, &f)), 8);
}

#[test]
fn a_move_keeps_tiles_powers_of_two_and_at_most_doubles_the_largest() {
    let f = sample4();
    let largest = |g: &[[u32; 4]; 4]| *g.iter().flatten().max().unwrap();
    for m in [Usermove::Left, Usermove::Right, Usermove::Up, Usermove::Down].iter() {
        let g = stepped4(m, &f);
        assert!(g.iter().flatten().all(|v| *v == 0 || v.is_power_of_two()));
        assert!(largest(&g) <= 2 * largest(&f));
    }
    assert_eq!(largest(&stepped4(&Usermove::Left, &f)), 16);
}

#[test]
fn spawn_draw_places_a_two_in_an_empty_picked_cell() {
    let mut f = [[2u32; 4]; 4];
    f[1][2] = 0;
    // x = 9 picks row 9 % 4 = 1, column (9 / 4) % 4 = 2.
    assert_eq!(spawn_draw(&mut f, 9, 57), None);
    assert_eq!(f, [[2u32; 4]; 4]);
}

#[test]
fn spawn_draw_counts_a_miss() {
    let mut f = [[2u32; 4]; 4];
    f[1][2] = 0;
    let before = f;
    assert_eq!(spawn_draw(&mut f, 0, 0), Some(1));
    assert_eq!(spawn_draw(&mut f, 0, 99), Some(100));
    assert_eq!(f, before);
}

#[test]
fn spawn_draw_scans_after_a_hundred_and_one_misses() {
    let mut f = [[2u32; 6]; 6];
    f[5][5] = 0;
    let before = f;
    assert_eq!(spawn_draw(&mut f, 0, 100), Some(0));
    assert_eq!(f, before);
    let mut full = [[4u32; 6]; 6];
    assert_eq!(spawn_draw(&mut full, 0, 100), None);
    assert_eq!(full, [[4u32; 6]; 6]);
}
