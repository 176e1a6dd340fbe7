use tilt_maze::level::Level;
use tilt_maze::mesh::{collision_cells, push_face_indices, wall_boxes, wall_faces};

#[test]
fn ring_of_walls() {
    let level = Level::parse("###\n#.#\n###");
    let boxes = wall_boxes(&level);
    let cells: Vec<(i32, i32)> = boxes.iter().map(|b| (b.x, b.z)).collect();
    assert_eq!(cells, vec![(0, 0), (1, 0), (2, 0), (0, 1), (2, 1), (0, 2), (1, 2), (2, 2)]);
    assert_eq!(boxes[0].faces, [true, false, false, true, false, true]);
    assert_eq!(boxes[1].faces, [true, false, true, true, false, false]);
    assert_eq!(boxes[4].faces, [true, false, false, false, true, true]);
}

#[test]
fn no_walls_no_boxes() {
    let level = Level::parse("S..\n..G");
    assert!(wall_boxes(&level).is_empty());
}

#[test]
fn lone_wall_shows_every_side() {
    let level = Level::parse("...\n.#.\n...");
    assert_eq!(wall_faces(&level, 1, 1), [true, false, true, true, true, true]);
}

#[test]
fn face_indices() {
    let mut idx = vec![9u16];
    push_face_indices(&mut idx, 4);
    assert_eq!(idx, vec![9, 4, 5, 6, 4, 6, 7]);
}

#[test]
fn probe_order_sides_before_corners() {
    let level = Level::parse(
        "#########\n#S..#...#\n##..#.#.#\n#...#.#.#\n#.###.#.#\n#.....#G#\n#########",
    );
    assert_eq!(
        collision_cells(&level, 1, 1),
        vec![(0, 1), (1, 2), (1, 0), (2, 0), (0, 2), (0, 0)]
    );
    assert!(collision_cells(&level, 2, 2).iter().all(|c| level.is_wall(c.0, c.1)));
    // off the board everything is wall
    assert_eq!(collision_cells(&level, -5, -5).len(), 9);
}

fn shown(level: &Level) -> usize {
    wall_boxes(level).iter().map(|b| b.faces.iter().filter(|f| **f).count()).sum()
}

#[test]
fn new_wall_shows_five_less_twice_its_wall_neighbours() {
    // no wall neighbours: five more faces
    assert_eq!(shown(&Level::parse(".#.\n...\n...")), shown(&Level::parse("...\n...\n...")) + 5);
    // two wall neighbours: one more face
    assert_eq!(shown(&Level::parse("#.#\n...\n...")), 10);
    assert_eq!(shown(&Level::parse("###\n...\n...")), 11);
    // four wall neighbours: three fewer faces
    assert_eq!(
        shown(&Level::parse("###\n###\n###")) + 3,
        shown(&Level::parse("###\n#.#\n###"))
    );
}
