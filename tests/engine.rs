use nertzpro::session::{App, AppMsg};
use nertzpro::state::{Score, State};

fn session_with(names: &[&str]) -> App {
    let mut app = App::from_state(State::new());
    for name in names {
        assert!(app.update(AppMsg::PlayerAdd(name.to_string())));
    }
    app
}

fn started(names: &[&str]) -> App {
    let mut app = session_with(names);
    app.update(AppMsg::GameStart);
    app
}

fn editing_cells(app: &App) -> Vec<(usize, usize)> {
    let mut out = Vec::new();
    for (r, round) in app.state.scores.iter().enumerate() {
        for (p, cell) in round.iter().enumerate() {
            if cell.is_editing {
                out.push((r, p));
            }
        }
    }
    out
}

fn enter(app: &mut App, round: usize, player: usize, value: i8) {
    app.update(AppMsg::ScoreEnter(round, player, value));
}

#[test]
fn two_rounds_below_target_no_winner() {
    let mut app = started(&["Ann", "Bob"]);
    assert_eq!(app.state.first_to, 100);
    enter(&mut app, 0, 0, 20);
    enter(&mut app, 0, 1, 30);
    assert_eq!(app.state.scores.len(), 2);
    enter(&mut app, 0, 0, 25);
    enter(&mut app, 0, 1, -5);
    assert_eq!(app.state.player_sum(0), 45);
    assert_eq!(app.state.player_sum(1), 25);
    assert_eq!(app.state.get_leader_board(), vec![0, 1]);
    assert_eq!(app.leaderboard, vec![0, 1]);
    assert!(!app.state.is_game_over());
}

#[test]
fn tie_at_target_plays_on() {
    let mut app = started(&["Ann", "Bob"]);
    enter(&mut app, 0, 0, 100);
    enter(&mut app, 0, 1, 100);
    assert!(!app.state.is_game_over());
    assert_eq!(app.state.scores.len(), 2);
    assert_eq!(editing_cells(&app), vec![(0, 0)]);
    assert_eq!(app.state.scores[1][0], Score { val: Some(100), is_editing: false });
}

#[test]
fn unique_leader_past_target_ends_game() {
    let mut app = started(&["Ann", "Bob"]);
    enter(&mut app, 0, 0, 100);
    enter(&mut app, 0, 1, 100);
    enter(&mut app, 0, 0, 5);
    enter(&mut app, 0, 1, 0);
    assert_eq!(app.state.player_sum(0), 105);
    assert_eq!(app.state.player_sum(1), 100);
    assert!(app.state.is_game_over());
    assert_eq!(app.leaderboard, vec![0, 1]);
    assert_eq!(app.state.scores.len(), 2);
    assert!(editing_cells(&app).is_empty());
    assert_eq!(app.get_focused(), "0_0");
}

#[test]
fn unique_prefix_grows_until_names_differ() {
    let app = session_with(&["Anna", "Annika", "Bob"]);
    assert_eq!(app.find_unique_prefix(0), "Anna");
    assert_eq!(app.find_unique_prefix(1), "Anni");
    assert_eq!(app.find_unique_prefix(2), "B");
}

#[test]
fn unique_prefix_ignores_case() {
    let app = session_with(&["Bob", "bobby"]);
    assert_eq!(app.find_unique_prefix(0), "Bob");
    assert_eq!(app.find_unique_prefix(1), "bobb");
}

#[test]
fn unique_prefix_of_name_that_is_a_prefix_of_another() {
    let app = session_with(&["Al", "Alan", "Al"]);
    assert_eq!(app.find_unique_prefix(0), "Al");
    assert_eq!(app.find_unique_prefix(1), "Ala");
}

#[test]
fn empty_name_is_ignored() {
    let app = session_with(&["Ann", "", "Bob"]);
    assert_eq!(app.state.players, vec!["Ann".to_string(), "Bob".to_string()]);
}

#[test]
fn remove_player_shifts_and_ignores_out_of_range() {
    let mut app = session_with(&["Ann", "Bob", "Cy"]);
    app.update(AppMsg::PlayerRemove(7));
    assert_eq!(app.state.players.len(), 3);
    app.update(AppMsg::PlayerRemove(1));
    assert_eq!(app.state.players, vec!["Ann".to_string(), "Cy".to_string()]);
    assert_eq!(app.leaderboard, vec![0, 1]);
}

#[test]
fn start_opens_first_cell_of_first_round() {
    let app = started(&["Ann", "Bob", "Cy"]);
    assert!(app.state.is_in_progress);
    assert_eq!(app.state.scores.len(), 1);
    assert_eq!(app.state.scores[0].len(), 3);
    assert!(app.state.scores[0].iter().all(|c| c.val.is_none()));
    assert_eq!(editing_cells(&app), vec![(0, 0)]);
    assert_eq!(app.get_focused(), "0_0");
}

#[test]
fn start_with_no_players_makes_an_empty_round() {
    let app = started(&[]);
    assert_eq!(app.state.scores.len(), 1);
    assert!(app.state.scores[0].is_empty());
    assert!(!app.state.is_game_over());
    assert!(app.leaderboard.is_empty());
}

#[test]
fn cursor_moves_to_next_unset_cell() {
    let mut app = started(&["Ann", "Bob", "Cy"]);
    enter(&mut app, 0, 0, 4);
    assert_eq!(editing_cells(&app), vec![(0, 1)]);
    assert_eq!(app.get_focused(), "0_1");
    enter(&mut app, 0, 2, 7);
    assert_eq!(editing_cells(&app), vec![(0, 1)]);
    assert_eq!(app.state.scores[0][2], Score { val: Some(7), is_editing: false });
}

#[test]
fn entered_cell_reads_back() {
    let mut app = started(&["Ann", "Bob"]);
    enter(&mut app, 0, 0, -13);
    assert_eq!(app.state.scores[0][0], Score { val: Some(-13), is_editing: false });
    enter(&mut app, 0, 1, 12);
    assert_eq!(app.state.scores[1][1], Score { val: Some(12), is_editing: false });
}

#[test]
fn edit_reopens_a_filled_cell_and_keeps_values() {
    let mut app = started(&["Ann", "Bob"]);
    for _ in 0..11 {
        enter(&mut app, 0, 0, 1);
        enter(&mut app, 0, 1, 2);
    }
    assert_eq!(app.state.scores.len(), 12);
    app.update(AppMsg::ScoreEdit(10, 0));
    assert_eq!(editing_cells(&app), vec![(10, 0)]);
    assert_eq!(app.state.scores[10][0].val, Some(1));
    assert_eq!(app.get_focused(), "10_0");
    enter(&mut app, 10, 0, 9);
    assert_eq!(app.state.scores[10][0], Score { val: Some(9), is_editing: false });
    assert_eq!(editing_cells(&app), vec![(0, 0)]);
    assert_eq!(app.state.player_sum(0), 19);
}

#[test]
fn edit_outside_grid_closes_every_cell() {
    let mut app = started(&["Ann", "Bob"]);
    app.update(AppMsg::ScoreEdit(3, 0));
    assert!(editing_cells(&app).is_empty());
    assert_eq!(app.get_focused(), "0_0");
}

#[test]
fn at_most_one_cell_open_throughout_a_game() {
    let mut app = started(&["Ann", "Bob", "Cy"]);
    let values: [i8; 9] = [10, -3, 40, 30, 30, 30, 60, 50, 20];
    for v in values.iter() {
        let (r, p) = app.state.get_next_empty().unwrap();
        enter(&mut app, r, p, *v);
        assert!(editing_cells(&app).len() <= 1);
        assert!(app.state.is_well_formed());
    }
    assert_eq!(app.state.player_sum(0), 100);
    assert_eq!(app.state.player_sum(1), 77);
    assert_eq!(app.state.player_sum(2), 90);
    assert!(app.state.is_game_over());
    assert!(editing_cells(&app).is_empty());
    assert_eq!(app.leaderboard, vec![0, 2, 1]);
}

#[test]
fn leaderboard_keeps_roster_order_on_ties() {
    let mut app = started(&["Ann", "Bob", "Cy", "Di"]);
    enter(&mut app, 0, 0, 5);
    enter(&mut app, 0, 1, 9);
    enter(&mut app, 0, 2, 5);
    enter(&mut app, 0, 3, 9);
    assert_eq!(app.leaderboard, vec![1, 3, 0, 2]);
}

#[test]
fn totals_skip_unset_cells_and_new_rounds_add_nothing() {
    let mut app = started(&["Ann", "Bob"]);
    enter(&mut app, 0, 0, -7);
    assert_eq!(app.state.player_sum(0), -7);
    assert_eq!(app.state.player_sum(1), 0);
    enter(&mut app, 0, 1, 3);
    assert_eq!(app.state.scores.len(), 2);
    assert_eq!(app.state.totals(), vec![-7, 3]);
}

#[test]
fn totals_do_not_wrap_past_small_integers() {
    let mut app = started(&["Ann", "Bob"]);
    for _ in 0..3 {
        enter(&mut app, 0, 0, 127);
        enter(&mut app, 0, 1, 127);
    }
    assert_eq!(app.state.player_sum(0), 381);
    assert!(!app.state.is_game_over());
}

#[test]
fn game_over_needs_target() {
    let mut app = started(&["Ann", "Bob"]);
    enter(&mut app, 0, 0, 99);
    enter(&mut app, 0, 1, 98);
    assert!(!app.state.is_game_over());
    assert_eq!(app.state.scores.len(), 2);
}

#[test]
fn single_player_reaching_target_wins() {
    let mut app = started(&["Ann"]);
    enter(&mut app, 0, 0, 100);
    assert!(app.state.is_game_over());
    assert_eq!(app.state.scores.len(), 1);
}

#[test]
fn no_players_is_never_over() {
    let state = State::new();
    assert!(!state.is_game_over());
}

#[test]
fn new_game_keeps_roster() {
    let mut app = started(&["Ann", "Bob"]);
    enter(&mut app, 0, 0, 100);
    app.state.first_to = 50;
    app.update(AppMsg::GameNew);
    assert_eq!(app.state.players, vec!["Ann".to_string(), "Bob".to_string()]);
    assert!(app.state.scores.is_empty());
    assert!(!app.state.is_in_progress);
    assert_eq!(app.state.first_to, 100);
    assert_eq!(app.state.negative_size, 13);
    assert_eq!(app.state.deck_size, 52);
}

#[test]
fn well_formedness_check_rejects_bad_grids() {
    let mut state = State::new();
    state.players = vec!["Ann".to_string(), "Bob".to_string()];
    state.scores = vec![vec![Score { val: None, is_editing: true }]];
    assert!(!state.is_well_formed());
    state.scores = vec![
        vec![Score { val: None, is_editing: true }, Score { val: None, is_editing: false }],
        vec![Score { val: Some(1), is_editing: true }, Score { val: Some(2), is_editing: false }],
    ];
    assert!(!state.is_well_formed());
    state.scores[1][0].is_editing = false;
    assert!(state.is_well_formed());
    assert_eq!(state.focused_cell(), (0, 0));
}

#[test]
fn adding_player_mid_game_pads_rounds() {
    let mut app = started(&["Ann", "Bob"]);
    enter(&mut app, 0, 0, 3);
    app.update(AppMsg::PlayerAdd("Cy".to_string()));
    assert_eq!(app.state.scores[0].len(), 3);
    assert_eq!(app.state.scores[0][2], Score { val: None, is_editing: false });
    assert!(app.state.is_well_formed());
}
