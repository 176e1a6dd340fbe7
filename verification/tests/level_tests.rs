use tilt_maze::level::Level;

const FIRST: &str = "\
#########
#S..#...#
##..#.#.#
#...#.#.#
#.###.#.#
#.....#G#
#########";

const THIRD: &str = "\
#############
#S...#......#
#.......O...#
###########.#
#..O........#
#.......#O..#
#.###########
#...........#
#.O...#....G#
#############";

#[test]
fn parse_first_level() {
    let level = Level::parse(FIRST);
    assert_eq!(level.width(), 9);
    assert_eq!(level.height(), 7);
    assert_eq!(level.start(), (1, 1));
    assert_eq!(level.goal(), (7, 5));
    assert!(level.hazards().is_empty());
    assert!(level.is_wall(0, 0));
    assert!(level.is_wall(4, 1));
    assert!(!level.is_wall(1, 1));
    assert!(!level.is_wall(7, 5));
    assert!(level.is_wall(1, 2));
}

#[test]
fn parse_third_level_traps_in_reading_order() {
    let level = Level::parse(THIRD);
    assert_eq!(level.width(), 13);
    assert_eq!(level.height(), 10);
    assert_eq!(level.goal(), (11, 8));
    assert_eq!(level.hazards().clone(), vec![(8, 2), (3, 4), (9, 5), (2, 8)]);
    // a trap cell is floor, not wall
    assert!(!level.is_wall(8, 2));
}

#[test]
fn outside_the_grid_is_wall() {
    let level = Level::parse(FIRST);
    assert!(level.is_wall(-1, 3));
    assert!(level.is_wall(3, -1));
    assert!(level.is_wall(9, 3));
    assert!(level.is_wall(3, 7));
    assert!(level.is_wall(i32::MIN, i32::MAX));
    assert!(!level.is_solid(-1, 3));
    assert!(!level.is_solid(9, 3));
    assert!(level.is_solid(0, 3));
}

#[test]
fn defaults_without_start_or_goal() {
    let level = Level::parse("....\n....\n....");
    assert_eq!(level.start(), (1, 1));
    // one cell in from the far corner
    assert_eq!(level.goal(), (2, 1));
    let one = Level::parse(".");
    assert_eq!(one.goal(), (-1, -1));
}

#[test]
fn trailing_whitespace_and_blank_lines() {
    let level = Level::parse("\n#S# \r\n\n  \t\n #G#\r\n\n");
    assert_eq!(level.height(), 2);
    assert_eq!(level.width(), 4);
    assert_eq!(level.start(), (1, 0));
    assert_eq!(level.goal(), (2, 1));
    assert!(!level.is_wall(0, 1));
    assert!(level.is_wall(1, 1));
    assert!(level.is_wall(3, 1));
    // the row shorter than the widest has no walls past its end
    assert!(!level.is_wall(3, 0));
}

#[test]
fn last_marker_wins() {
    let level = Level::parse("S..G\n.S.G\n..G.");
    assert_eq!(level.start(), (1, 1));
    assert_eq!(level.goal(), (2, 2));
}

#[test]
fn unicode_whitespace_is_trimmed() {
    let level = Level::parse("#S\u{3000}\u{a0}\n#G\u{2003}");
    assert_eq!(level.width(), 2);
    assert_eq!(level.goal(), (1, 1));
}
