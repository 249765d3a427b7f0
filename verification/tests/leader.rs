use game2048::game_field::FieldSize;
use game2048::leader::{Leader, LeaderBoard};

fn leader(name: &str, score: u32, hard: bool, size: FieldSize) -> Leader {
    Leader { name: name.to_string(), score, hard, size }
}

fn easy4(name: &str, score: u32) -> Leader {
    leader(name, score, false, FieldSize::Four)
}

fn names(list: &Vec<Leader>) -> Vec<(String, u32)> {
    list.iter().map(|l| (l.name.clone(), l.score)).collect()
}

fn board_with_easy4(entries: &[(&str, u32)]) -> LeaderBoard {
    let mut board = LeaderBoard::default();
    for (n, s) in entries {
        board.easy_list.0.push(easy4(n, *s));
    }
    board
}

fn pairs(entries: &[(&str, u32)]) -> Vec<(String, u32)> {
    entries.iter().map(|(n, s)| (n.to_string(), *s)).collect()
}

#[test]
fn a_better_score_takes_its_place_and_the_last_leaves() {
    let mut board = board_with_easy4(&[("ann", 100), ("bob", 50), ("cid", 10)]);
    board.add_leader(easy4("dan", 60));
    assert_eq!(names(&board.easy_list.0), pairs(&[("ann", 100), ("dan", 60), ("bob", 50)]));
}

#[test]
fn a_new_best_score_goes_first() {
    let mut board = board_with_easy4(&[("ann", 100), ("bob", 50), ("cid", 10)]);
    board.add_leader(easy4("dan", 200));
    assert_eq!(names(&board.easy_list.0), pairs(&[("dan", 200), ("ann", 100), ("bob", 50)]));
}

#[test]
fn a_score_equal_to_the_lowest_does_not_enter() {
    let mut board = board_with_easy4(&[("ann", 100), ("bob", 50), ("cid", 10)]);
    board.add_leader(easy4("dan", 10));
    assert_eq!(names(&board.easy_list.0), pairs(&[("ann", 100), ("bob", 50), ("cid", 10)]));
}

#[test]
fn a_lower_score_does_not_enter() {
    let mut board = board_with_easy4(&[("ann", 100), ("bob", 50), ("cid", 10)]);
    board.add_leader(easy4("dan", 5));
    assert_eq!(names(&board.easy_list.0), pairs(&[("ann", 100), ("bob", 50), ("cid", 10)]));
}

#[test]
fn equal_scores_keep_their_order() {
    let mut board = board_with_easy4(&[("ann", 50), ("bob", 50), ("cid", 50)]);
    board.add_leader(easy4("dan", 50));
    assert_eq!(names(&board.easy_list.0), pairs(&[("ann", 50), ("bob", 50), ("cid", 50)]));
    board.add_leader(easy4("eve", 51));
    assert_eq!(names(&board.easy_list.0), pairs(&[("eve", 51), ("ann", 50), ("bob", 50)]));
}

#[test]
fn an_unsorted_list_is_sorted() {
    let mut board = board_with_easy4(&[("ann", 10), ("bob", 100), ("cid", 50)]);
    board.add_leader(easy4("dan", 60));
    assert_eq!(names(&board.easy_list.0), pairs(&[("bob", 100), ("dan", 60), ("cid", 50)]));
}

#[test]
fn an_empty_list_stays_empty() {
    let mut board = LeaderBoard::default();
    board.add_leader(easy4("dan", 60));
    assert!(board.easy_list.0.is_empty());
}

#[test]
fn the_leader_goes_to_the_list_of_its_kind() {
    let mut board = LeaderBoard::default();
    for list in [
        &mut board.easy_list.0,
        &mut board.easy_list.1,
        &mut board.hard_list.0,
        &mut board.hard_list.1,
    ] {
        list.push(easy4("x", 1));
        list.push(easy4("y", 1));
    }
    board.add_leader(leader("six_hard", 5, true, FieldSize::Six));
    assert_eq!(names(&board.hard_list.1), pairs(&[("six_hard", 5), ("x", 1)]));
    assert_eq!(names(&board.hard_list.0), pairs(&[("x", 1), ("y", 1)]));
    assert_eq!(names(&board.easy_list.0), pairs(&[("x", 1), ("y", 1)]));
    assert_eq!(names(&board.easy_list.1), pairs(&[("x", 1), ("y", 1)]));
    board.add_leader(leader("four_hard", 7, true, FieldSize::Four));
    assert_eq!(names(&board.hard_list.0), pairs(&[("four_hard", 7), ("x", 1)]));
    board.add_leader(leader("six_easy", 3, false, FieldSize::Six));
    assert_eq!(names(&board.easy_list.1), pairs(&[("six_easy", 3), ("x", 1)]));
    board.add_leader(leader("four_easy", 2, false, FieldSize::Four));
    assert_eq!(names(&board.easy_list.0), pairs(&[("four_easy", 2), ("x", 1)]));
}

#[test]
fn defaults_are_empty() {
    let l = Leader::default();
    assert_eq!(l.name, "");
    assert_eq!(l.score, 0);
    assert!(!l.hard);
    assert_eq!(l.size, FieldSize::Four);
    let b = LeaderBoard::default();
    assert!(b.hard_list.0.is_empty() && b.hard_list.1.is_empty());
    assert!(b.easy_list.0.is_empty() && b.easy_list.1.is_empty());
}
