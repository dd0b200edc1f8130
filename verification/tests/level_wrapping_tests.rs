use dsf_core::level_wrapping::{LevelWrappingSystem, Steering, SteeringMode, Transform};
use dsf_core::pos::Pos;

fn steering(x: i32, y: i32, mode: SteeringMode) -> Steering {
    Steering {
        pos: Pos::new(x, y),
        destination: Pos::new(x, y),
        mode,
    }
}

#[test]
fn wraps_left_edge() {
    let system = LevelWrappingSystem::new();
    let mut entities = vec![(
        Transform { x: -1, y: 5 },
        steering(-1, 5, SteeringMode::Grounded),
    )];
    system.run(Pos::new(0, 0), Pos::new(10, 10), &mut entities);
    let (t, s) = entities[0];
    assert_eq!(t.x, 9);
    assert_eq!(s.pos.x, 9);
    assert_eq!(s.destination.x, 9);
    assert_eq!(t.y, 5);
    assert_eq!(s.pos.y, 5);
}

#[test]
fn wraps_right_edge() {
    let system = LevelWrappingSystem::new();
    let mut entities = vec![(
        Transform { x: 11, y: 5 },
        steering(11, 5, SteeringMode::Grounded),
    )];
    system.run(Pos::new(0, 0), Pos::new(10, 10), &mut entities);
    let (t, s) = entities[0];
    assert_eq!(t.x, 1);
    assert_eq!(s.pos.x, 1);
    assert_eq!(s.destination.x, 1);
}

#[test]
fn wraps_bottom_edge_and_shifts_falling_anchor() {
    let system = LevelWrappingSystem::new();
    let mode = SteeringMode::Falling {
        x_movement: 1,
        starting_y_pos: 5,
        duration: 3,
    };
    let mut entities = vec![(Transform { x: 4, y: -1 }, steering(4, -1, mode))];
    system.run(Pos::new(0, 0), Pos::new(10, 10), &mut entities);
    let (t, s) = entities[0];
    assert_eq!(t.y, 9);
    assert_eq!(s.pos.y, 9);
    assert_eq!(s.destination.y, 9);
    assert_eq!(
        s.mode,
        SteeringMode::Falling {
            x_movement: 1,
            starting_y_pos: 15,
            duration: 3,
        }
    );
}

#[test]
fn bottom_edge_leaves_other_modes_untouched() {
    let system = LevelWrappingSystem::new();
    let mut entities = vec![(
        Transform { x: 4, y: -1 },
        steering(4, -1, SteeringMode::Climbing),
    )];
    system.run(Pos::new(0, 0), Pos::new(10, 10), &mut entities);
    let (t, s) = entities[0];
    assert_eq!(t.y, 9);
    assert_eq!(s.pos.y, 9);
    assert_eq!(s.mode, SteeringMode::Climbing);
}

#[test]
fn top_edge_shifts_steering_but_not_transform() {
    let system = LevelWrappingSystem::new();
    let mode = SteeringMode::Falling {
        x_movement: 0,
        starting_y_pos: 12,
        duration: 2,
    };
    let mut entities = vec![(Transform { x: 4, y: 11 }, steering(4, 11, mode))];
    system.run(Pos::new(0, 0), Pos::new(10, 10), &mut entities);
    let (t, s) = entities[0];
    assert_eq!(t.y, 11, "the transform keeps its Y above the top edge");
    assert_eq!(s.pos.y, 1);
    assert_eq!(s.destination.y, 1);
    assert_eq!(
        s.mode,
        SteeringMode::Falling {
            x_movement: 0,
            starting_y_pos: 12,
            duration: 2,
        },
        "the fall anchor is not corrected on the top edge"
    );
}

#[test]
fn entity_inside_bounds_is_untouched() {
    let system = LevelWrappingSystem::new();
    let mut entities = vec![(
        Transform { x: 3, y: 4 },
        steering(3, 4, SteeringMode::Grounded),
    )];
    system.run(Pos::new(0, 0), Pos::new(10, 10), &mut entities);
    assert_eq!(entities[0].0, Transform { x: 3, y: 4 });
    assert_eq!(entities[0].1, steering(3, 4, SteeringMode::Grounded));
}

#[test]
fn corner_exit_wraps_both_axes() {
    let system = LevelWrappingSystem::new();
    let mut entities = vec![(
        Transform { x: -1, y: -1 },
        steering(-1, -1, SteeringMode::Grounded),
    )];
    system.run(Pos::new(0, 0), Pos::new(10, 10), &mut entities);
    let (t, s) = entities[0];
    assert_eq!((t.x, t.y), (9, 9));
    assert_eq!((s.pos.x, s.pos.y), (9, 9));
}

#[test]
fn respects_nonzero_level_origin() {
    let system = LevelWrappingSystem::new();
    let mut entities = vec![(
        Transform { x: 4, y: 20 },
        steering(4, 20, SteeringMode::Grounded),
    )];
    system.run(Pos::new(5, 5), Pos::new(10, 10), &mut entities);
    let (t, s) = entities[0];
    // X below the origin wraps right; Y above origin + height shifts steering only.
    assert_eq!(t.x, 14);
    assert_eq!(s.pos.x, 14);
    assert_eq!(t.y, 20);
    assert_eq!(s.pos.y, 10);
    assert_eq!(s.destination.y, 10);
}

#[test]
fn wraps_each_entity_independently() {
    let system = LevelWrappingSystem::new();
    let mut entities = vec![
        (
            Transform { x: -1, y: 0 },
            steering(-1, 0, SteeringMode::Grounded),
        ),
        (
            Transform { x: 5, y: 5 },
            steering(5, 5, SteeringMode::Grounded),
        ),
        (
            Transform { x: 12, y: -2 },
            steering(12, -2, SteeringMode::Jumping),
        ),
    ];
    system.run(Pos::new(0, 0), Pos::new(10, 10), &mut entities);
    assert_eq!(entities[0].0, Transform { x: 9, y: 0 });
    assert_eq!(entities[1].0, Transform { x: 5, y: 5 });
    assert_eq!(entities[2].0, Transform { x: 2, y: 8 });
    assert_eq!(entities[2].1.pos, Pos::new(2, 8));
}
