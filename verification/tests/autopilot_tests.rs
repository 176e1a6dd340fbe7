use tilt_maze::autopilot::bot_target;
use tilt_maze::level::Level;

const FIRST: &str = "\
#########
#S..#...#
##..#.#.#
#...#.#.#
#.###.#.#
#.....#G#
#########";

const SECOND: &str = "\
###########
#S...#....#
#.##.#.##.#
#.#..#..#.#
#.#.##.O#.#
#.#.....#.#
#.#####.#.#
#......#G.#
###########";

const THIRD: &str = "\
#############
#S...#......#
#.......O...#
###########.#
#..O........#
#.......#O..#
#.###########
#...........#
#.O...#....G#
#############";

fn steps_to_goal(level: &Level) -> usize {
    let mut c = level.start();
    let mut steps = 0;
    while c != level.goal() {
        let n = bot_target(level, c.0, c.1);
        let d = (n.0 - c.0).abs() + (n.1 - c.1).abs();
        assert_eq!(d, 1);
        assert!(!level.is_wall(n.0, n.1));
        assert!(!level.hazards().contains(&n));
        c = n;
        steps += 1;
        assert!(steps < 1000);
    }
    steps
}

#[test]
fn first_step_on_each_level() {
    assert_eq!(bot_target(&Level::parse(FIRST), 1, 1), (2, 1));
    assert_eq!(bot_target(&Level::parse(SECOND), 1, 1), (2, 1));
    assert_eq!(bot_target(&Level::parse(THIRD), 1, 1), (2, 1));
}

#[test]
fn following_the_autopilot_takes_a_shortest_route() {
    assert_eq!(steps_to_goal(&Level::parse(FIRST)), 20);
    assert_eq!(steps_to_goal(&Level::parse(SECOND)), 25);
    assert_eq!(steps_to_goal(&Level::parse(THIRD)), 39);
}

#[test]
fn at_the_goal_it_aims_at_the_goal() {
    let level = Level::parse(FIRST);
    assert_eq!(bot_target(&level, 7, 5), (7, 5));
}

#[test]
fn next_to_the_goal_it_aims_at_the_goal() {
    let level = Level::parse(FIRST);
    assert_eq!(bot_target(&level, 7, 4), (7, 5));
}

#[test]
fn walled_off_goal_gives_the_goal() {
    let level = Level::parse("#####\n#S#G#\n#####");
    assert_eq!(bot_target(&level, 1, 1), (3, 1));
}

#[test]
fn traps_block_the_way() {
    let level = Level::parse("#####\n#SOG#\n#####");
    assert_eq!(bot_target(&level, 1, 1), (3, 1));
    let around = Level::parse("######\n#SO.G#\n#....#\n######");
    assert_eq!(bot_target(&around, 1, 1), (1, 2));
}

#[test]
fn ties_go_the_way_the_search_tries_first() {
    let level = Level::parse("#######\n#S....#\n#.###.#\n#....G#\n#######");
    assert_eq!(bot_target(&level, 1, 1), (2, 1));
}

#[test]
fn start_outside_the_grid() {
    let level = Level::parse(FIRST);
    assert_eq!(bot_target(&level, -5, 40), (7, 5));
}

#[test]
fn start_inside_a_wall_still_finds_a_way_out() {
    // (1, 2) is a wall; its open neighbour (2, 2) leads on
    let level = Level::parse(FIRST);
    let n = bot_target(&level, 1, 2);
    assert!(!level.is_wall(n.0, n.1));
}
