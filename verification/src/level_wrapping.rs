use vstd::prelude::*;
use crate::pos::{in_i32, Pos};

verus! {

/// World-space translation of an entity, on the level grid.
#[derive(Clone, Copy, Debug, PartialEq, Eq, Structural)]
pub struct Transform {
    pub x: i32,
    pub y: i32,
}

/// The motion mode an entity is in.
#[derive(Clone, Copy, Debug, PartialEq, Eq, Structural)]
pub enum SteeringMode {
    /// Standing or walking on solid ground.
    Grounded,
    /// On a climbable tile.
    Climbing,
    /// In an upward jump.
    Jumping,
    /// An in-progress fall. The arc of the fall is computed relative to
    /// `starting_y_pos`, the Y coordinate at which the fall began.
    Falling { x_movement: i32, starting_y_pos: i32, duration: i32 },
}

/// An entity's movement intent and state: where it is on the grid, where it
/// is headed, and which motion mode is active.
#[derive(Clone, Copy, Debug, PartialEq, Eq, Structural)]
pub struct Steering {
    pub pos: Pos,
    pub destination: Pos,
    pub mode: SteeringMode,
}

/// The bounds that keep every coordinate shift of one wrap step inside
/// `i32`. Each boundary check only constrains the fields its branch shifts.
pub open spec fn wrap_bounds_ok(t: Transform, s: Steering, origin: Pos, dimens: Pos) -> bool {
    let w = dimens.x as int;
    let h = dimens.y as int;
    &&& t.x < origin.x ==> in_i32(t.x + w) && in_i32(s.pos.x + w) && in_i32(s.destination.x + w)
    &&& t.x > origin.x + dimens.x ==> in_i32(t.x - w) && in_i32(s.pos.x - w) && in_i32(
        s.destination.x - w,
    )
    &&& t.y < origin.y ==> in_i32(t.y + h) && in_i32(s.pos.y + h) && in_i32(s.destination.y + h)
        && (s.mode matches SteeringMode::Falling { starting_y_pos, .. } ==> in_i32(
        starting_y_pos + h,
    ))
    &&& t.y > origin.y + dimens.y ==> in_i32(s.pos.y - h) && in_i32(s.destination.y - h)
}

/// The horizontal wrap step. An entity that exited the left edge reappears at
/// the right edge and vice versa; the steering position and destination shift
/// along with the transform, so a queued horizontal move target stays valid.
pub open spec fn wrap_x(t: Transform, s: Steering, origin: Pos, dimens: Pos) -> (
    Transform,
    Steering,
) {
    if t.x < origin.x {
        (
            Transform { x: (t.x + dimens.x) as i32, y: t.y },
            Steering {
                pos: Pos { x: (s.pos.x + dimens.x) as i32, y: s.pos.y },
                destination: Pos { x: (s.destination.x + dimens.x) as i32, y: s.destination.y },
                mode: s.mode,
            },
        )
    } else if t.x > origin.x + dimens.x {
        (
            Transform { x: (t.x - dimens.x) as i32, y: t.y },
            Steering {
                pos: Pos { x: (s.pos.x - dimens.x) as i32, y: s.pos.y },
                destination: Pos { x: (s.destination.x - dimens.x) as i32, y: s.destination.y },
                mode: s.mode,
            },
        )
    } else {
        (t, s)
    }
}

/// The vertical wrap step. Below the bottom edge, the transform, the steering
/// position and the destination all shift up by the level height, and a fall
/// in progress has its anchor `starting_y_pos` shifted as well, so the fall
/// arc stays continuous across the wrap; other modes carry no anchor and are
/// left untouched. Above the top edge, only the steering position and the
/// destination shift down: the transform and any fall anchor stay where they
/// are.
pub open spec fn wrap_y(t: Transform, s: Steering, origin: Pos, dimens: Pos) -> (
    Transform,
    Steering,
) {
    if t.y < origin.y {
        let mode = match s.mode {
            SteeringMode::Falling { x_movement, starting_y_pos, duration } => {
                SteeringMode::Falling {
                    x_movement,
                    starting_y_pos: (starting_y_pos + dimens.y) as i32,
                    duration,
                }
            },
            m => m,
        };
        (
            Transform { x: t.x, y: (t.y + dimens.y) as i32 },
            Steering {
                pos: Pos { x: s.pos.x, y: (s.pos.y + dimens.y) as i32 },
                destination: Pos { x: s.destination.x, y: (s.destination.y + dimens.y) as i32 },
                mode,
            },
        )
    } else if t.y > origin.y + dimens.y {
        (
            t,
            Steering {
                pos: Pos { x: s.pos.x, y: (s.pos.y - dimens.y) as i32 },
                destination: Pos { x: s.destination.x, y: (s.destination.y - dimens.y) as i32 },
                mode: s.mode,
            },
        )
    } else {
        (t, s)
    }
}

/// One full wrap step for one entity: the X axis first, then the Y axis.
pub open spec fn wrap_entity_spec(t: Transform, s: Steering, origin: Pos, dimens: Pos) -> (
    Transform,
    Steering,
) {
    let (t1, s1) = wrap_x(t, s, origin, dimens);
    wrap_y(t1, s1, origin, dimens)
}

/// Implements wrapping behaviour for levels: if an entity falls out the
/// bottom, it reappears at the top; if it goes off to the left, it wraps
/// around to the right.
///
/// This system performs no collision detection of its own; it only
/// re-anchors coordinates so that systems running later in the same tick see
/// a position consistent with having stepped off one edge and onto the
/// opposite one.
pub struct LevelWrappingSystem {}

impl LevelWrappingSystem {
    pub fn new() -> (r: LevelWrappingSystem) {
        LevelWrappingSystem {}
    }

    /// Wraps one entity's transform and steering against the level bounds.
    pub fn wrap_entity(&self, t: Transform, s: Steering, origin: Pos, dimens: Pos) -> (r: (
        Transform,
        Steering,
    ))
        requires
            wrap_bounds_ok(t, s, origin, dimens),
        ensures
            r == wrap_entity_spec(t, s, origin, dimens),
    {
        let mut t = t;
        let mut s = s;
        if t.x < origin.x {
            t.x = t.x + dimens.x;
            s.pos.x = s.pos.x + dimens.x;
            s.destination.x = s.destination.x + dimens.x;
        } else if (t.x as i64) > (origin.x as i64) + (dimens.x as i64) {
            t.x = t.x - dimens.x;
            s.pos.x = s.pos.x - dimens.x;
            s.destination.x = s.destination.x - dimens.x;
        }
        if t.y < origin.y {
            t.y = t.y + dimens.y;
            s.pos.y = s.pos.y + dimens.y;
            s.destination.y = s.destination.y + dimens.y;
            match s.mode {
                SteeringMode::Falling { x_movement, starting_y_pos, duration } => {
                    s.mode = SteeringMode::Falling {
                        x_movement,
                        starting_y_pos: starting_y_pos + dimens.y,
                        duration,
                    };
                },
                _ => {},
            }
        } else if (t.y as i64) > (origin.y as i64) + (dimens.y as i64) {
            s.pos.y = s.pos.y - dimens.y;
            s.destination.y = s.destination.y - dimens.y;
        }
        (t, s)
    }

    /// Runs one simulation tick over every entity that has both a transform
    /// and a steering component, correcting for level-boundary wrap-around.
    /// `origin` and `dimens` are the level's position and size.
    pub fn run(&self, origin: Pos, dimens: Pos, entities: &mut Vec<(Transform, Steering)>)
        requires
            forall|i: int|
                0 <= i < old(entities)@.len() ==> wrap_bounds_ok(
                    #[trigger] old(entities)@[i].0,
                    old(entities)@[i].1,
                    origin,
                    dimens,
                ),
        ensures
            final(entities)@.len() == old(entities)@.len(),
            forall|i: int|
                0 <= i < old(entities)@.len() ==> #[trigger] final(entities)@[i]
                    == wrap_entity_spec(
                    old(entities)@[i].0,
                    old(entities)@[i].1,
                    origin,
                    dimens,
                ),
    {
        let n = entities.len();
        let mut i: usize = 0;
        while i < n
            invariant
                i <= n,
                n == old(entities)@.len(),
                entities@.len() == n,
                forall|j: int|
                    0 <= j < n ==> wrap_bounds_ok(
                        #[trigger] old(entities)@[j].0,
                        old(entities)@[j].1,
                        origin,
                        dimens,
                    ),
                forall|j: int|
                    0 <= j < i ==> #[trigger] entities@[j] == wrap_entity_spec(
                        old(entities)@[j].0,
                        old(entities)@[j].1,
                        origin,
                        dimens,
                    ),
                forall|j: int| i <= j < n ==> #[trigger] entities@[j] == old(entities)@[j],
            decreases n - i,
        {
            let (t, s) = entities[i];
            let r = self.wrap_entity(t, s, origin, dimens);
            entities[i] = r;
            i += 1;
        }
    }
}

} // verus!
