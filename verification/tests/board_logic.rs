use battlesnake::algorithms::{self, build_threat_board, evaluate};
use battlesnake::algorythms;
use battlesnake::datatypes::{Battlesnake, Board, CellState, Coord, MoveOutput};
use battlesnake::game::{appearance, game_outcome, GameOutcome};
use battlesnake::move_algos::{
    aggressive_dest, count_space, food_dest, get_low_level_snakes, space_check, ApproachMeasure,
    EvalData, SpaceMeasure,
};
use battlesnake::tools::{app_mode_from_name, distance, min_distance, AppMode};

fn c(x: i32, y: i32) -> Coord {
    Coord { x, y }
}

fn snake(id: &str, health: i32, body: Vec<Coord>) -> Battlesnake {
    Battlesnake {
        id: id.to_string(),
        name: format!("snake-{}", id),
        health,
        head: body[0],
        length: body.len() as i32,
        body,
        latency: "0".to_string(),
        shout: None,
    }
}

fn board(width: i32, height: i32, food: Vec<Coord>, snakes: Vec<Battlesnake>) -> Board {
    Board { height, width, food, snakes, hazards: Vec::new() }
}

#[test]
fn shift_by_name_moves_one_cell() {
    let p = c(3, 3);
    assert_eq!(p.shift_by_name("up"), c(3, 4));
    assert_eq!(p.shift_by_name("down"), c(3, 2));
    assert_eq!(p.shift_by_name("left"), c(2, 3));
    assert_eq!(p.shift_by_name("right"), c(4, 3));
}

#[test]
fn shift_by_name_ignores_unknown_names() {
    let p = c(3, 3);
    assert_eq!(p.shift_by_name("Up"), p);
    assert_eq!(p.shift_by_name(""), p);
    assert_eq!(p.shift_by_name("upward"), p);
}

#[test]
fn shift_by_coord_adds_offsets() {
    assert_eq!(c(2, 5).shift_by_coord(&c(-3, 4)), c(-1, 9));
}

#[test]
fn surrounded_lists_up_down_left_right() {
    assert_eq!(c(0, 0).surrounded(), vec![c(0, 1), c(0, -1), c(-1, 0), c(1, 0)]);
}

#[test]
fn opposite_moves_cancel() {
    let p = c(7, -2);
    assert_eq!(p.shift_by_name("up").shift_by_name("down"), p);
    assert_eq!(p.shift_by_name("left").shift_by_name("right"), p);
}

#[test]
fn neighbours_are_at_distance_one() {
    let p = c(4, 4);
    for n in p.surrounded() {
        assert_eq!(distance(p, n), 1);
    }
}

#[test]
fn distance_is_manhattan_and_symmetric() {
    assert_eq!(distance(c(0, 0), c(3, -4)), 7);
    assert_eq!(distance(c(3, -4), c(0, 0)), 7);
    assert_eq!(distance(c(5, 5), c(5, 5)), 0);
}

#[test]
fn min_distance_of_nothing_is_max() {
    assert_eq!(min_distance(c(1, 1), &[]), i32::MAX);
}

#[test]
fn min_distance_takes_the_nearest() {
    let cells = [c(10, 10), c(2, 1), c(0, 5)];
    assert_eq!(min_distance(c(1, 1), &cells), 1);
    assert_eq!(min_distance(c(9, 9), &cells), 2);
}

#[test]
fn app_mode_names() {
    assert_eq!(app_mode_from_name("dev"), Some(AppMode::DEV));
    assert_eq!(app_mode_from_name("prod"), Some(AppMode::PROD));
    assert_eq!(app_mode_from_name("staging"), None);
    assert_eq!(app_mode_from_name(""), None);
}

#[test]
fn app_mode_ignores_case() {
    assert_eq!(app_mode_from_name("DEV"), Some(AppMode::DEV));
    assert_eq!(app_mode_from_name("Prod"), Some(AppMode::PROD));
    assert_eq!(app_mode_from_name("pRoD"), app_mode_from_name("prod"));
}

#[test]
fn is_safe_depends_on_potential_heads() {
    assert!(CellState::SAFE.is_safe(false));
    assert!(!CellState::POTENTIAL_HEAD.is_safe(false));
    assert!(CellState::POTENTIAL_HEAD.is_safe(true));
    assert!(!CellState::DEATH.is_safe(true));
}

#[test]
fn threat_board_marks_heads_bodies_and_danger() {
    // me: length 3 at the bottom left; rival: length 4
    let me = snake("me", 90, vec![c(0, 0), c(1, 0), c(2, 0)]);
    let rival = snake("rival", 90, vec![c(3, 3), c(3, 4), c(4, 4), c(4, 3)]);
    let b = board(5, 5, vec![], vec![me.clone(), rival]);
    let t = build_threat_board(&me, &b);
    assert_eq!(t.len(), 5);
    assert!(t.iter().all(|row| row.len() == 5));
    // my own head is deadly (my length is at least my length), my middle part too
    assert_eq!(t[0][0], CellState::DEATH);
    assert_eq!(t[0][1], CellState::DEATH);
    // my last part is left free
    assert_eq!(t[0][2], CellState::SAFE);
    // rival head and middle parts
    assert_eq!(t[3][3], CellState::DEATH);
    assert_eq!(t[4][3], CellState::DEATH);
    assert_eq!(t[4][4], CellState::DEATH);
    // the rival's last part lies next to its head
    assert_eq!(t[3][4], CellState::POTENTIAL_HEAD);
    // cells next to the rival head that no later body covers
    assert_eq!(t[2][3], CellState::POTENTIAL_HEAD);
    assert_eq!(t[3][2], CellState::POTENTIAL_HEAD);
    assert_eq!(t[1][1], CellState::SAFE);
}

#[test]
fn threat_board_ignores_shorter_heads() {
    let me = snake("me", 90, vec![c(0, 0), c(1, 0), c(2, 0), c(3, 0)]);
    let small = snake("small", 90, vec![c(2, 2), c(2, 3), c(2, 4)]);
    let b = board(5, 5, vec![], vec![small]);
    let t = build_threat_board(&me, &b);
    assert_eq!(t[2][2], CellState::SAFE);
    assert_eq!(t[3][2], CellState::DEATH);
    assert_eq!(t[2][1], CellState::SAFE);
}

#[test]
fn later_snakes_paint_over_earlier_ones() {
    // the second snake's head ring covers the first snake's middle part
    let me = snake("me", 90, vec![c(0, 0), c(0, 1)]);
    let first = snake("a", 90, vec![c(4, 4), c(2, 1), c(4, 3)]);
    let second = snake("b", 90, vec![c(2, 2), c(3, 2), c(3, 3)]);
    let b = board(5, 5, vec![], vec![first, second]);
    let t = build_threat_board(&me, &b);
    assert_eq!(t[1][2], CellState::POTENTIAL_HEAD);
}

#[test]
fn count_space_on_open_board() {
    let b = board(3, 4, vec![], vec![]);
    let t = vec![vec![CellState::SAFE; 3]; 4];
    assert_eq!(count_space(&c(1, 1), &t, &b), 12);
}

#[test]
fn count_space_from_a_blocked_cell_is_zero() {
    let b = board(3, 3, vec![], vec![]);
    let mut t = vec![vec![CellState::SAFE; 3]; 3];
    t[1][1] = CellState::DEATH;
    assert_eq!(count_space(&c(1, 1), &t, &b), 0);
    t[1][1] = CellState::POTENTIAL_HEAD;
    assert_eq!(count_space(&c(1, 1), &t, &b), 0);
}

#[test]
fn count_space_stops_at_walls() {
    // a wall in column 2 splits a 5x3 board into 6 + 6 cells
    let b = board(5, 3, vec![], vec![]);
    let mut t = vec![vec![CellState::SAFE; 5]; 3];
    for y in 0..3 {
        t[y][2] = CellState::DEATH;
    }
    assert_eq!(count_space(&c(0, 0), &t, &b), 6);
    assert_eq!(count_space(&c(4, 2), &t, &b), 6);
}

#[test]
fn count_space_is_the_same_from_any_cell_of_a_region() {
    let b = board(4, 4, vec![], vec![]);
    let mut t = vec![vec![CellState::SAFE; 4]; 4];
    t[0][1] = CellState::DEATH;
    t[1][1] = CellState::POTENTIAL_HEAD;
    t[2][1] = CellState::DEATH;
    t[2][2] = CellState::DEATH;
    let from_a = count_space(&c(3, 3), &t, &b);
    assert_eq!(from_a, count_space(&c(0, 3), &t, &b));
    assert_eq!(from_a, count_space(&c(3, 0), &t, &b));
    assert_eq!(from_a, 12);
    assert_eq!(count_space(&c(0, 0), &t, &b), 12);
}

#[test]
fn count_space_of_a_pocket() {
    let b = board(4, 4, vec![], vec![]);
    let mut t = vec![vec![CellState::SAFE; 4]; 4];
    t[0][1] = CellState::DEATH;
    t[1][0] = CellState::DEATH;
    assert_eq!(count_space(&c(0, 0), &t, &b), 1);
    assert_eq!(count_space(&c(3, 3), &t, &b), 13);
}

#[test]
fn low_level_snakes_are_shorter_others() {
    let me = snake("me", 90, vec![c(0, 0), c(0, 1), c(0, 2), c(0, 3)]);
    let shorter = snake("s", 90, vec![c(2, 2), c(2, 3), c(2, 4)]);
    let much_shorter = snake("m", 90, vec![c(4, 4), c(4, 3)]);
    let same = snake("e", 90, vec![c(5, 5), c(5, 4), c(5, 3), c(5, 2)]);
    let b = board(7, 7, vec![], vec![me.clone(), shorter, much_shorter, same]);
    assert_eq!(get_low_level_snakes(&me, &b), vec![c(2, 2), c(4, 4)]);
    assert_eq!(algorythms::get_lowlevel_snakes(&me, &b), vec![c(4, 4)]);
}

#[test]
fn lowlevel_heads_are_among_low_level_heads() {
    let me = snake("me", 90, vec![c(0, 0), c(0, 1), c(0, 2), c(0, 3), c(0, 4)]);
    let a = snake("a", 90, vec![c(2, 2), c(2, 3)]);
    let b2 = snake("b", 90, vec![c(3, 3), c(3, 4), c(3, 5), c(3, 6)]);
    let d = snake("d", 90, vec![c(5, 5), c(5, 4), c(5, 3)]);
    let b = board(8, 8, vec![], vec![a, b2, d]);
    let wide = get_low_level_snakes(&me, &b);
    for h in algorythms::get_lowlevel_snakes(&me, &b) {
        assert!(wide.contains(&h));
    }
}

#[test]
fn about_to_eat_needs_food_next_to_the_head() {
    let s = snake("s", 50, vec![c(2, 2), c(2, 1), c(2, 0)]);
    let near = board(5, 5, vec![c(3, 2)], vec![s.clone()]);
    let diagonal = board(5, 5, vec![c(3, 3)], vec![s.clone()]);
    let under = board(5, 5, vec![c(2, 2)], vec![s.clone()]);
    assert!(algorythms::is_about_to_eat(&s, &near));
    assert!(!algorythms::is_about_to_eat(&s, &diagonal));
    assert!(!algorythms::is_about_to_eat(&s, &under));
    assert_eq!(min_distance(s.head, &near.food), 1);
}

#[test]
fn tails_free_up_from_turn_three() {
    let me = snake("me", 90, vec![c(0, 0), c(0, 1), c(0, 2)]);
    let rival = snake("r", 90, vec![c(3, 3), c(3, 2), c(4, 2)]);
    let b = board(5, 5, vec![], vec![me.clone(), rival]);
    let early = algorythms::build_threat_board(&me, &b, 2);
    let late = algorythms::build_threat_board(&me, &b, 3);
    assert_eq!(early[2][4], algorythms::CellState::POTENTIALTAIL);
    assert_eq!(late[2][4], algorythms::CellState::SAFE);
    assert_eq!(late[2][0], algorythms::CellState::SAFE);
    assert_eq!(late[3][3], algorythms::CellState::DEATH);
    assert_eq!(late[2][3], algorythms::CellState::DEATH);
    assert_eq!(late[4][3], algorythms::CellState::POTENTIALHEAD);
}

#[test]
fn tails_stay_when_about_to_eat() {
    let me = snake("me", 90, vec![c(0, 0), c(0, 1), c(0, 2)]);
    let rival = snake("r", 90, vec![c(3, 3), c(3, 2), c(4, 2)]);
    let b = board(5, 5, vec![c(2, 3)], vec![me.clone(), rival]);
    let t = algorythms::build_threat_board(&me, &b, 10);
    assert_eq!(t[2][4], algorythms::CellState::POTENTIALTAIL);
}

#[test]
fn evaluate_rules_out_leaving_the_board() {
    let me = snake("me", 90, vec![c(0, 0), c(1, 0), c(2, 0)]);
    let b = board(5, 5, vec![], vec![me.clone()]);
    let moves = evaluate(&me, &b);
    let names: Vec<&str> = moves.iter().map(|m| m.direction).collect();
    assert_eq!(names, vec!["up", "down", "left", "right"]);
    assert_eq!(moves[1].state, CellState::DEATH);
    assert_eq!(moves[1].space, None);
    assert_eq!(moves[2].state, CellState::DEATH);
    assert_eq!(moves[2].space, None);
    // right runs into my own middle part
    assert_eq!(moves[3].state, CellState::DEATH);
    assert_eq!(moves[3].space, None);
    // up is open: 25 cells minus my head and middle part
    assert_eq!(moves[0].state, CellState::SAFE);
    assert_eq!(moves[0].space, Some(SpaceMeasure { space: 23, length: 3, within_length: false }));
}

#[test]
fn evaluate_keeps_potential_heads() {
    let me = snake("me", 90, vec![c(2, 0), c(3, 0), c(4, 0)]);
    let rival = snake("r", 90, vec![c(2, 2), c(2, 3), c(2, 4), c(1, 4)]);
    let b = board(5, 5, vec![], vec![me.clone(), rival]);
    let moves = evaluate(&me, &b);
    assert_eq!(moves[0].direction, "up");
    assert_eq!(moves[0].state, CellState::POTENTIAL_HEAD);
    // a potential-head cell is itself not counted as free space
    assert_eq!(moves[0].space, Some(SpaceMeasure { space: 0, length: 3, within_length: true }));
    assert_eq!(moves[1].state, CellState::DEATH);
    assert_eq!(moves[2].state, CellState::SAFE);
}

#[test]
fn evaluate_on_a_corner_at_the_top_right() {
    let me = snake("me", 90, vec![c(4, 4), c(3, 4), c(2, 4)]);
    let b = board(5, 5, vec![], vec![me.clone()]);
    let moves = evaluate(&me, &b);
    assert_eq!(moves[0].state, CellState::DEATH);
    assert_eq!(moves[3].state, CellState::DEATH);
    assert_eq!(moves[2].state, CellState::DEATH);
    assert_eq!(moves[1].state, CellState::SAFE);
    assert_eq!(moves[1].space, Some(SpaceMeasure { space: 23, length: 3, within_length: false }));
}

#[test]
fn turn_aware_evaluate_measures_distances() {
    let me = snake("me", 90, vec![c(2, 2), c(2, 1), c(2, 0)]);
    let b = board(5, 5, vec![c(4, 4)], vec![me.clone()]);
    let moves = algorythms::evaluate(&me, &b, 5);
    assert_eq!(moves[0].direction, "up");
    assert_eq!(moves[0].state, algorythms::CellState::SAFE);
    assert_eq!(moves[0].distance, Some(3));
    assert_eq!(moves[1].state, algorythms::CellState::DEATH);
    assert_eq!(moves[1].distance, None);
    assert_eq!(moves[2].distance, Some(5));
    assert_eq!(moves[3].distance, Some(3));
}

#[test]
fn turn_aware_evaluate_hunts_shorter_snakes_when_fed() {
    let me = snake("me", 90, vec![c(2, 2), c(2, 1), c(2, 0), c(1, 0)]);
    let prey = snake("p", 90, vec![c(0, 4), c(0, 3)]);
    let b = board(5, 5, vec![c(4, 4)], vec![me.clone(), prey]);
    let moves = algorythms::evaluate(&me, &b, 5);
    // towards the prey's head at (0, 4)
    assert_eq!(moves[0].distance, Some(3));
    assert_eq!(moves[2].distance, Some(3));
    assert_eq!(moves[3].distance, Some(5));
    let hungry = Battlesnake { health: 30, ..me.clone() };
    let moves = algorythms::evaluate(&hungry, &b, 5);
    // towards the food at (4, 4)
    assert_eq!(moves[3].distance, Some(3));
    assert_eq!(moves[2].distance, Some(5));
}

#[test]
fn turn_aware_evaluate_off_board_and_tails() {
    let me = snake("me", 90, vec![c(0, 0), c(1, 0), c(2, 0)]);
    let b = board(5, 5, vec![], vec![me.clone()]);
    let moves = algorythms::evaluate(&me, &b, 0);
    assert_eq!(moves[1].state, algorythms::CellState::DEATH);
    assert_eq!(moves[2].state, algorythms::CellState::DEATH);
    assert_eq!(moves[3].state, algorythms::CellState::DEATH);
    // no food and no prey: the nearest target is infinitely far
    assert_eq!(moves[0].distance, Some(i32::MAX));
}

#[test]
fn food_dest_measures_food_distance() {
    let me = snake("me", 40, vec![c(1, 1), c(1, 0)]);
    let b = board(6, 4, vec![c(5, 3), c(1, 3)], vec![me.clone()]);
    let next = c(1, 2);
    let data = EvalData { me: &me, board: &b, next_head: &next };
    assert_eq!(food_dest(&data, CellState::SAFE), Some(ApproachMeasure { distance: 1, health: 40, area: 10 }));
    assert_eq!(food_dest(&data, CellState::DEATH), None);
}

#[test]
fn aggressive_dest_needs_a_shorter_snake() {
    let me = snake("me", 70, vec![c(1, 1), c(1, 0), c(0, 0)]);
    let prey = snake("p", 70, vec![c(4, 4), c(4, 3)]);
    let next = c(2, 1);
    let alone = board(6, 6, vec![], vec![me.clone()]);
    let data = EvalData { me: &me, board: &alone, next_head: &next };
    assert_eq!(aggressive_dest(&data, CellState::SAFE), None);
    let with_prey = board(6, 6, vec![], vec![me.clone(), prey]);
    let data = EvalData { me: &me, board: &with_prey, next_head: &next };
    assert_eq!(aggressive_dest(&data, CellState::POTENTIAL_HEAD), Some(ApproachMeasure { distance: 5, health: 70, area: 12 }));
    assert_eq!(aggressive_dest(&data, CellState::DEATH), None);
}

#[test]
fn space_check_counts_reachable_cells() {
    let me = snake("me", 70, vec![c(0, 0), c(1, 0), c(2, 0)]);
    let b = board(3, 3, vec![], vec![me.clone()]);
    let next = c(0, 1);
    let data = EvalData { me: &me, board: &b, next_head: &next };
    assert_eq!(space_check(&data, CellState::SAFE), Some(SpaceMeasure { space: 7, length: 3, within_length: false }));
    assert_eq!(space_check(&data, CellState::DEATH), None);
}

#[test]
fn appearance_per_mode() {
    let dev = appearance(AppMode::DEV);
    assert_eq!((dev.apiversion, dev.author, dev.color, dev.head, dev.tail), ("1", "ak47andrew", "#7d7d7d", "safe", "freckled"));
    let prod = appearance(AppMode::PROD);
    assert_eq!((prod.color, prod.head, prod.tail), ("#FF0000", "crystal-power", "nr-booster"));
}

#[test]
fn game_outcomes() {
    let me = snake("me", 70, vec![c(0, 0), c(1, 0)]);
    let other = snake("o", 70, vec![c(3, 3), c(3, 4)]);
    assert!(matches!(game_outcome(&me, &board(5, 5, vec![], vec![])), GameOutcome::Tie));
    assert!(matches!(game_outcome(&me, &board(5, 5, vec![], vec![me.clone()])), GameOutcome::Won));
    match game_outcome(&me, &board(5, 5, vec![], vec![other, me.clone()])) {
        GameOutcome::Lost(name) => assert_eq!(name, "snake-o"),
        _ => panic!("expected a loss"),
    }
}

#[test]
fn move_output_holds_its_fields() {
    let m = MoveOutput { movement: "up".to_string(), shout: "hi".to_string() };
    assert_eq!(m.movement, "up");
    assert_eq!(m.shout, "hi");
}

#[test]
fn evaluation_directions_are_move_names() {
    let me = snake("me", 90, vec![c(2, 2), c(2, 1), c(2, 0)]);
    let b = board(5, 5, vec![], vec![me.clone()]);
    for m in algorithms::evaluate(&me, &b) {
        let next = me.head.shift_by_name(m.direction);
        assert_eq!(distance(me.head, next), 1);
    }
}

#[test]
fn threat_maps_agree_away_from_tails() {
    let me = snake("me", 90, vec![c(0, 0), c(0, 1), c(0, 2)]);
    let rival = snake("r", 90, vec![c(3, 3), c(3, 2), c(4, 2), c(4, 1)]);
    let b = board(6, 6, vec![c(5, 5)], vec![me.clone(), rival]);
    let current = build_threat_board(&me, &b);
    let turn_aware = algorythms::build_threat_board(&me, &b, 7);
    let tails = [c(0, 2), c(4, 1)];
    for y in 0..6 {
        for x in 0..6 {
            if tails.contains(&c(x, y)) {
                continue;
            }
            let expected = match current[y as usize][x as usize] {
                CellState::SAFE => algorythms::CellState::SAFE,
                CellState::POTENTIAL_HEAD => algorythms::CellState::POTENTIALHEAD,
                CellState::DEATH => algorythms::CellState::DEATH,
            };
            assert_eq!(turn_aware[y as usize][x as usize], expected);
        }
    }
    assert_eq!(current[1][4], CellState::SAFE);
    assert_eq!(turn_aware[1][4], algorythms::CellState::SAFE);
}

#[test]
fn lowlevel_snakes_with_the_shortest_length() {
    let me = Battlesnake { length: i32::MIN, ..snake("me", 90, vec![c(0, 0), c(0, 1)]) };
    let other = snake("o", 90, vec![c(1, 1), c(1, 0)]);
    let b = board(2, 2, vec![], vec![other]);
    assert_eq!(algorythms::get_lowlevel_snakes(&me, &b), Vec::<Coord>::new());
    let alone = board(2, 2, vec![], vec![]);
    let moves = algorythms::evaluate(&me, &alone, 4);
    assert_eq!(moves[0].state, algorythms::CellState::SAFE);
    assert_eq!(moves[0].distance, Some(i32::MAX));
    assert_eq!(moves[1].state, algorythms::CellState::DEATH);
    assert_eq!(moves[2].state, algorythms::CellState::DEATH);
    assert_eq!(moves[3].state, algorythms::CellState::SAFE);
}

#[test]
fn food_search_stops_at_the_first_find() {
    // the search finds the food above before it would step right past i32::MAX
    let s = snake("s", 50, vec![c(i32::MAX, 0), c(i32::MAX, -1)]);
    let b = board(5, 5, vec![c(i32::MAX, 1)], vec![s.clone()]);
    assert!(algorythms::is_about_to_eat(&s, &b));
}
