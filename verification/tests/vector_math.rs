use rphys::library::{dot, find_normal, find_vector, get_magnitude, normalize, Vec2};
use rphys::SCALE;

#[test]
fn test_dot_product() {
    let u = Vec2 { x: 1 * SCALE, y: 2 * SCALE };
    let v = Vec2 { x: 3 * SCALE, y: 4 * SCALE };
    assert_eq!(dot(u, v), (3 + 8) * SCALE * SCALE);
}

#[test]
fn test_dot_product_orthogonal() {
    let u = Vec2 { x: 5 * SCALE, y: 0 };
    let v = Vec2 { x: 0, y: 7 * SCALE };
    assert_eq!(dot(u, v), 0);
}

#[test]
fn test_magnitude_three_four_five() {
    let v = Vec2 { x: 3 * SCALE, y: 4 * SCALE };
    assert_eq!(get_magnitude(v), 5 * SCALE);
}

#[test]
fn test_magnitude_zero() {
    assert_eq!(get_magnitude(Vec2 { x: 0, y: 0 }), 0);
}

#[test]
fn test_magnitude_negative_components() {
    let v = Vec2 { x: -3 * SCALE, y: -4 * SCALE };
    assert_eq!(get_magnitude(v), 5 * SCALE);
}

#[test]
fn test_normalize_three_four() {
    let v = Vec2 { x: 3 * SCALE, y: 4 * SCALE };
    let n = normalize(v);
    // 3072 * 1024 / 5120 and 4096 * 1024 / 5120, truncated
    assert_eq!(n, Vec2 { x: 614, y: 819 });
}

#[test]
fn test_normalize_axis() {
    let v = Vec2 { x: 0, y: 9 * SCALE };
    assert_eq!(normalize(v), Vec2 { x: 0, y: SCALE });
}

#[test]
fn test_normalize_zero_vector() {
    // a degenerate direction yields the zero vector, not an error
    assert_eq!(normalize(Vec2 { x: 0, y: 0 }), Vec2 { x: 0, y: 0 });
}

#[test]
fn test_find_vector_basic() {
    let a = Vec2 { x: 10 * SCALE, y: 20 * SCALE };
    let b = Vec2 { x: 13 * SCALE, y: 16 * SCALE };
    assert_eq!(find_vector(a, b), Vec2 { x: 3 * SCALE, y: -4 * SCALE });
}

#[test]
fn test_find_normal_horizontal_segment() {
    let a = Vec2 { x: 0, y: 0 };
    let b = Vec2 { x: 10 * SCALE, y: 0 };
    // direction (SCALE, 0) rotated counter-clockwise is (0, SCALE)
    assert_eq!(find_normal(a, b), Vec2 { x: 0, y: SCALE });
}

#[test]
fn test_find_normal_degenerate() {
    let a = Vec2 { x: 5 * SCALE, y: 5 * SCALE };
    assert_eq!(find_normal(a, a), Vec2 { x: 0, y: 0 });
}
