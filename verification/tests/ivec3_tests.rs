use schnellwerke::ivec3::Ivec3;

fn v(x: i32, y: i32, z: i32) -> Ivec3 {
    Ivec3 { x, y, z }
}

fn same(a: Ivec3, b: Ivec3) -> bool {
    a.x == b.x && a.y == b.y && a.z == b.z
}

#[test]
fn new_is_zero() {
    assert!(same(Ivec3::new(), v(0, 0, 0)));
}

#[test]
fn cross_of_axes() {
    assert!(same(v(1, 0, 0).cross(v(0, 1, 0)), v(0, 0, 1)));
    assert!(same(v(0, 1, 0).cross(v(1, 0, 0)), v(0, 0, -1)));
    assert!(same(v(2, 3, 4).cross(v(5, 6, 7)), v(-3, 6, -3)));
}

#[test]
fn cross_with_itself_is_zero() {
    assert!(same(v(7, -3, 11).cross(v(7, -3, 11)), v(0, 0, 0)));
}

#[test]
fn min_max_componentwise() {
    let a = v(1, -5, 9);
    let b = v(-2, 4, 9);
    assert!(same(a.min(b), v(-2, -5, 9)));
    assert!(same(a.max(b), v(1, 4, 9)));
}

#[test]
fn abs_componentwise() {
    assert!(same(v(-3, 0, 8).abs(), v(3, 0, 8)));
    assert!(same(v(i32::MAX, -i32::MAX, -1).abs(), v(i32::MAX, i32::MAX, 1)));
}

#[test]
fn arithmetic_operators() {
    let a = v(10, -20, 30);
    let b = v(3, 4, -5);
    assert!(same(a + b, v(13, -16, 25)));
    assert!(same(a - b, v(7, -24, 35)));
    assert!(same(a * b, v(30, -80, -150)));
    assert!(same(a / b, v(3, -5, -6)));
}

#[test]
fn division_rounds_toward_zero() {
    assert!(same(v(-7, 7, -7) / v(2, -2, -2), v(-3, -3, 3)));
}

#[test]
fn sub_undoes_add() {
    let a = v(123, -456, 789);
    let b = v(-1000, 2000, 3);
    assert!(same((a + b) - b, a));
}

#[test]
fn assign_operations() {
    let mut a = v(1, 2, 3);
    a.add_assign(v(1, 1, 1));
    assert!(same(a, v(2, 3, 4)));
    a.sub_assign(v(5, 5, 5));
    assert!(same(a, v(-3, -2, -1)));
    a.mul_assign(v(-2, 3, 4));
    assert!(same(a, v(6, -6, -4)));
    a.div_assign(v(4, 4, 4));
    assert!(same(a, v(1, -1, -1)));
}
