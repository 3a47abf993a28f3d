use canorus::analysis::Proc;
use canorus::analysis::VecMap;
use canorus::math::Mat3x3;
use canorus::math::V3;
use canorus::resolve::AdvancedFace;
use canorus::resolve::Axis;
use canorus::resolve::FaceElement;

const S: i64 = 1_000_000;

fn v(x: i64, y: i64, z: i64) -> V3 {
    V3([x * S, y * S, z * S])
}

#[test]
fn test_prod() {
    let x = Mat3x3([v(1, 2, 3), v(4, 5, 6), v(7, 8, 9)]);
    let ones = Mat3x3([v(1, 1, 1), v(1, 1, 1), v(1, 1, 1)]);
    let r1 = Mat3x3([v(30, 36, 42), v(66, 81, 96), v(102, 126, 150)]);
    let r2 = Mat3x3([v(12, 15, 18), v(12, 15, 18), v(12, 15, 18)]);
    let v1 = v(1, 2, 3);
    let v2 = v(14, 32, 50);
    assert_eq!(x.prod(&x), r1);
    assert_eq!(ones.prod(&x), r2);
    assert_eq!(x.prod_vec(&v1), v2);
}

#[test]
fn test_are_independent() {
    let v1 = v(1, 0, 0);
    let v2 = v(2, 0, 0);
    let v3 = v(2, 1, 0);
    let v4 = v(0, 0, -1);
    assert_eq!(v1.are_independent(&v2), false);
    assert_eq!(v1.are_independent(&v3), true);
    assert_eq!(v1.are_independent(&v4), true);
}

#[test]
fn scaled_vector_is_dependent() {
    // Any vector against itself scaled by a nonzero factor is dependent.
    let a = v(3, -4, 5);
    assert_eq!(a.are_independent(&a.scale(2 * S)), false);
    assert_eq!(a.are_independent(&a.scale(-7 * S)), false);
    let b = v(0, 2, 9);
    assert_eq!(b.are_independent(&b.scale(3 * S)), false);
}

#[test]
fn matrix_vector_associativity() {
    // (A * B) * v equals A * (B * v) for the tested integer matrices.
    let a = Mat3x3([v(1, 2, 3), v(4, 5, 6), v(7, 8, 9)]);
    let b = Mat3x3([v(2, 0, 1), v(1, 3, 0), v(0, 1, 4)]);
    let x = v(5, -2, 7);
    let left = a.prod(&b).prod_vec(&x);
    let right = a.prod_vec(&b.prod_vec(&x));
    // Exact for whole-unit inputs: no truncation occurs.
    assert_eq!(left, right);
    let ones = Mat3x3([v(1, 1, 1), v(1, 1, 1), v(1, 1, 1)]);
    let l2 = ones.prod(&a).prod_vec(&x);
    let r2 = ones.prod_vec(&a.prod_vec(&x));
    assert_eq!(l2, r2);
}

#[test]
fn test_vecmap() {
    let mut map: VecMap<u64> = VecMap::new();
    map.insert(v(1, 0, 0), 1);
    map.insert(v(0, 0, 1), 2);
    assert_eq!(map.get(&v(3, 0, 0)), Some(&1));
    assert_eq!(map.get(&v(1, 0, 1)), None);
}

fn plane(px: i64, py: i64, pz: i64, nx: i64, ny: i64, nz: i64) -> AdvancedFace {
    AdvancedFace {
        flag: true,
        elem: FaceElement::Plane(Axis {
            p: v(px, py, pz),
            direction: v(nx, ny, nz),
            ref_direction: v(1, 0, 0),
        }),
    }
}

#[test]
fn synthetic_solid_analysis() {
    // A rectangular solid: two end caps along the third axis, four side
    // faces in each in-plane family, and one drilled hole.
    let mut faces = vec![
        plane(0, 0, 0, 0, 0, -1),
        plane(0, 0, 30, 0, 0, 1),
        plane(0, 0, 0, -1, 0, 0),
        plane(10, 0, 0, 1, 0, 0),
        plane(0, 0, 0, -1, 0, 0),
        plane(10, 0, 0, 1, 0, 0),
        plane(0, 0, 0, 0, -1, 0),
        plane(0, 20, 0, 0, 1, 0),
        plane(0, 0, 0, 0, -1, 0),
        plane(0, 20, 0, 0, 1, 0),
    ];
    faces.push(AdvancedFace {
        flag: true,
        elem: FaceElement::Cylinder(
            2 * S,
            Axis {
                p: v(2, 3, 7),
                direction: v(1, 0, 0),
                ref_direction: v(0, 1, 0),
            },
        ),
    });
    let proc_r = Proc::new(&faces);
    assert_eq!(proc_r.size, v(10, 20, 30));
    assert_eq!(proc_r.center, v(5, 10, 0));
    assert_eq!(proc_r.drills.len(), 1);
    // The hole's axial depth is its position along the detected extrusion
    // axis: the feed-axis center is the stock's end face.
    assert_eq!(proc_r.drills[0].d, 7 * S);
    assert_eq!(proc_r.drills[0].theta, 0);
    assert_eq!(proc_r.drills[0].slide, 7 * S);
}

#[test]
fn drill_angles_follow_the_axis_direction() {
    // The approach angle is measured in the plane perpendicular to the
    // feed axis, in micro-degrees: a quarter turn for the second axis, a
    // half turn for the negated first axis.
    let mut faces = vec![
        plane(0, 0, 0, 0, 0, -1),
        plane(0, 0, 30, 0, 0, 1),
        plane(0, 0, 0, -1, 0, 0),
        plane(10, 0, 0, 1, 0, 0),
        plane(0, 0, 0, -1, 0, 0),
        plane(10, 0, 0, 1, 0, 0),
        plane(0, 0, 0, 0, -1, 0),
        plane(0, 20, 0, 0, 1, 0),
        plane(0, 0, 0, 0, -1, 0),
        plane(0, 20, 0, 0, 1, 0),
    ];
    for dir in [(0, 1, 0), (-1, 0, 0), (0, -1, 0)] {
        faces.push(AdvancedFace {
            flag: true,
            elem: FaceElement::Cylinder(
                S,
                Axis {
                    p: v(5, 10, 9),
                    direction: v(dir.0, dir.1, dir.2),
                    ref_direction: v(0, 0, 1),
                },
            ),
        });
    }
    let proc_r = Proc::new(&faces);
    assert_eq!(proc_r.drills.len(), 3);
    assert_eq!(proc_r.drills[0].theta, 90_000_000);
    assert_eq!(proc_r.drills[1].theta, 180_000_000);
    assert_eq!(proc_r.drills[2].theta, -90_000_000);
}

#[test]
fn vector_operations() {
    let a = v(1, 2, 3);
    let b = v(4, -5, 6);
    assert_eq!(a.dot(&b), (4 - 10 + 18) * S);
    assert_eq!(a.cross(&b), v(2 * 6 - 3 * (-5), 3 * 4 - 1 * 6, 1 * (-5) - 2 * 4));
    assert_eq!(a.sub(&b), v(-3, 7, -3));
    assert_eq!(a.scale(2 * S), v(2, 4, 6));
    assert!(a.approx(&v(1, 2, 3)));
    assert!(!a.approx(&b));
    // rounding to the nearest hundredth of a unit, ties away from zero
    assert_eq!(V3([1_234_567, -1_235_000, 5_000]).round(), V3([1_230_000, -1_240_000, 10_000]));
}
