use tilt_maze::game::{
    auto_finished, auto_screenshot, bot_finished, bot_records, key_tilt, scripted_tilt, Action,
    Event, Game, Phase,
};

#[test]
fn new_game_plays_the_first_level() {
    let g = Game::new(3);
    assert_eq!(g.level(), 0);
    assert_eq!(g.count(), 3);
    assert_eq!(g.phase(), Phase::Playing);
}

#[test]
fn reaching_the_goal_loads_the_next_level() {
    let mut g = Game::new(3);
    assert_eq!(g.step(Event::Captured { goal: true }), Action::Nothing);
    assert_eq!(g.phase(), Phase::Sinking { goal: true });
    assert_eq!(g.step(Event::SinkFinished), Action::LoadLevel { index: 1 });
    assert_eq!(g.level(), 1);
    assert_eq!(g.phase(), Phase::Playing);
}

#[test]
fn wrong_hole_restarts_the_level() {
    let mut g = Game::new(3);
    g.step(Event::Captured { goal: false });
    assert_eq!(g.step(Event::SinkFinished), Action::ResetBall);
    assert_eq!(g.level(), 0);
    assert_eq!(g.phase(), Phase::Playing);
}

#[test]
fn beating_the_last_level_ends_the_game() {
    let mut g = Game::new(2);
    g.step(Event::Captured { goal: true });
    g.step(Event::SinkFinished);
    g.step(Event::Captured { goal: true });
    assert_eq!(g.step(Event::SinkFinished), Action::Nothing);
    assert_eq!(g.phase(), Phase::Done);
    assert_eq!(g.level(), 1);
    // skipping does nothing now; restarting goes back to the first level
    assert_eq!(g.step(Event::Skip), Action::Nothing);
    assert_eq!(g.phase(), Phase::Done);
    assert_eq!(g.step(Event::Restart), Action::LoadLevel { index: 0 });
    assert_eq!(g.level(), 0);
    assert_eq!(g.phase(), Phase::Playing);
}

#[test]
fn skipping_wraps_around() {
    let mut g = Game::new(3);
    assert_eq!(g.step(Event::Skip), Action::LoadLevel { index: 1 });
    assert_eq!(g.step(Event::Skip), Action::LoadLevel { index: 2 });
    assert_eq!(g.step(Event::Skip), Action::LoadLevel { index: 0 });
    assert_eq!(g.level(), 0);
}

#[test]
fn restart_while_sinking_resets_the_ball() {
    let mut g = Game::new(3);
    g.step(Event::Skip);
    g.step(Event::Captured { goal: false });
    assert_eq!(g.step(Event::Restart), Action::ResetBall);
    assert_eq!(g.level(), 1);
    assert_eq!(g.phase(), Phase::Playing);
}

#[test]
fn events_out_of_place_change_nothing() {
    let mut g = Game::new(3);
    assert_eq!(g.step(Event::SinkFinished), Action::Nothing);
    assert_eq!(g.phase(), Phase::Playing);
    g.step(Event::Captured { goal: true });
    assert_eq!(g.step(Event::Captured { goal: false }), Action::Nothing);
    assert_eq!(g.phase(), Phase::Sinking { goal: true });
}

#[test]
fn keys_to_tilt() {
    assert_eq!(key_tilt(true, false, false, false), (-1, 0));
    assert_eq!(key_tilt(false, true, false, true), (1, -1));
    assert_eq!(key_tilt(true, true, true, true), (0, 0));
    assert_eq!(key_tilt(false, false, true, false), (0, 1));
}

#[test]
fn scripted_input_cycle() {
    assert_eq!(scripted_tilt(0), (None, Some(-1)));
    assert_eq!(scripted_tilt(1), (Some(1), None));
    assert_eq!(scripted_tilt(2), (Some(-1), Some(-1)));
    assert_eq!(scripted_tilt(7), (Some(1), Some(1)));
}

#[test]
fn recording_schedules() {
    assert_eq!(auto_screenshot(40), Some(1));
    assert_eq!(auto_screenshot(200), Some(5));
    assert_eq!(auto_screenshot(240), None);
    assert_eq!(auto_screenshot(41), None);
    assert_eq!(auto_screenshot(0), Some(0));
    assert!(!auto_finished(200));
    assert!(auto_finished(201));
    assert!(bot_records(30, false));
    assert!(!bot_records(31, false));
    assert!(bot_records(31, true));
    assert!(!bot_finished(9000, false));
    assert!(bot_finished(9001, false));
    assert!(bot_finished(5, true));
}
