use aabb_sweep::update::{transform_point, update_aabb, Transform2};
use aabb_sweep::{Vec2, AABB};

fn aabb(min_x: i32, min_y: i32, max_x: i32, max_y: i32) -> AABB {
    AABB {
        min: Vec2 { x: min_x, y: min_y },
        max: Vec2 { x: max_x, y: max_y },
    }
}

#[test]
fn identity_transform_keeps_box_test() {
    let local = aabb(-3, 2, 7, 9);
    let g = update_aabb(&local, &Transform2::identity());
    assert_eq!(g.0, local);
}

#[test]
fn translation_moves_box_test() {
    let local = aabb(0, 0, 10, 5);
    let g = update_aabb(&local, &Transform2::from_translation(100, -20));
    assert_eq!(g.0, aabb(100, -20, 110, -15));
}

#[test]
fn rotation_rebounds_corners_test() {
    // a quarter turn: (x, y) -> (-y, x); the transformed corners of
    // (0,0)..(10,5) are (0,0) and (-5,10), and the world box bounds
    // them component-wise
    let quarter = Transform2 {
        m00: 0,
        m01: -1,
        m10: 1,
        m11: 0,
        tx: 0,
        ty: 0,
    };
    let g = update_aabb(&aabb(0, 0, 10, 5), &quarter);
    assert_eq!(g.0, aabb(-5, 0, 0, 10));
}

#[test]
fn scale_grows_box_test() {
    let scale = Transform2 {
        m00: 2,
        m01: 0,
        m10: 0,
        m11: 3,
        tx: 1,
        ty: 1,
    };
    let g = update_aabb(&aabb(-1, -1, 2, 2), &scale);
    assert_eq!(g.0, aabb(-1, -2, 5, 7));
}

#[test]
fn transform_point_exact_test() {
    let t = Transform2 {
        m00: 2,
        m01: -1,
        m10: 1,
        m11: 1,
        tx: 10,
        ty: -10,
    };
    let p = transform_point(&t, Vec2 { x: 3, y: 4 });
    assert_eq!((p.x, p.y), (2 * 3 - 4 + 10, 3 + 4 - 10));
}
