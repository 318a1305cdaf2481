use nertzpro::session::{App, AppMsg};
use nertzpro::state::{Score, State};
use serde_json::Value;

fn score_to_json(s: &Score) -> Value {
    let mut m = serde_json::Map::new();
    m.insert(
        "val".to_string(),
        match s.val {
            Some(v) => Value::from(v),
            None => Value::Null,
        },
    );
    m.insert("is_editing".to_string(), Value::Bool(s.is_editing));
    Value::Object(m)
}

fn state_to_json(s: &State) -> Value {
    let mut m = serde_json::Map::new();
    m.insert(
        "players".to_string(),
        Value::Array(s.players.iter().map(|p| Value::String(p.clone())).collect()),
    );
    m.insert(
        "scores".to_string(),
        Value::Array(
            s.scores
                .iter()
                .map(|r| Value::Array(r.iter().map(score_to_json).collect()))
                .collect(),
        ),
    );
    m.insert("is_in_progress".to_string(), Value::Bool(s.is_in_progress));
    m.insert("first_to".to_string(), Value::from(s.first_to));
    m.insert("negative_size".to_string(), Value::from(s.negative_size));
    m.insert("deck_size".to_string(), Value::from(s.deck_size));
    Value::Object(m)
}

fn state_from_json(v: &Value) -> State {
    let mut s = State::new();
    s.players = v["players"]
        .as_array()
        .unwrap()
        .iter()
        .map(|p| p.as_str().unwrap().to_string())
        .collect();
    s.scores = v["scores"]
        .as_array()
        .unwrap()
        .iter()
        .map(|r| {
            r.as_array()
                .unwrap()
                .iter()
                .map(|c| Score {
                    val: c["val"].as_i64().map(|x| x as i8),
                    is_editing: c["is_editing"].as_bool().unwrap(),
                })
                .collect()
        })
        .collect();
    s.is_in_progress = v["is_in_progress"].as_bool().unwrap();
    s.first_to = v["first_to"].as_u64().unwrap() as u8;
    s.negative_size = v["negative_size"].as_u64().unwrap() as u8;
    s.deck_size = v["deck_size"].as_u64().unwrap() as u8;
    s
}

#[test]
fn session_survives_json_round_trip() {
    let mut app = App::from_state(State::new());
    app.update(AppMsg::PlayerAdd("Ann".to_string()));
    app.update(AppMsg::PlayerAdd("Bob".to_string()));
    app.update(AppMsg::GameStart);
    app.update(AppMsg::ScoreEnter(0, 0, 20));
    app.update(AppMsg::ScoreEnter(0, 1, -5));
    app.update(AppMsg::ScoreEnter(0, 0, 7));

    let text = serde_json::to_string(&state_to_json(&app.state)).unwrap();
    let back: Value = serde_json::from_str(&text).unwrap();
    let state = state_from_json(&back);

    assert!(state.is_well_formed());
    assert_eq!(state.players, app.state.players);
    assert_eq!(state.scores, app.state.scores);
    assert_eq!(state.is_in_progress, app.state.is_in_progress);
    assert_eq!(state.first_to, app.state.first_to);
    assert_eq!(state.negative_size, app.state.negative_size);
    assert_eq!(state.deck_size, app.state.deck_size);

    let restored = App::from_state(state);
    assert_eq!(restored.leaderboard, app.leaderboard);
    assert_eq!(restored.get_focused(), app.get_focused());
    assert_eq!(restored.get_focused(), "0_1");
}
