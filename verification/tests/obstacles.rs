use fly_sim_core::ieee::Float64;
use fly_sim_core::obstacle::{
    box_contact, direction_or_up, face_normal, flatten_obstacles, nearest_part,
    ray_obstacle_distance, sphere_hit, BoxContact, BoxRay, DynamicObstacle, Obstacle,
};

fn f(x: f64) -> Float64 {
    Float64::from_bits(x.to_bits())
}

fn v(x: f64, y: f64, z: f64) -> [Float64; 3] {
    [f(x), f(y), f(z)]
}

fn sphere(x: f64, r: f64) -> Obstacle {
    Obstacle::Sphere { center: v(x, 0.0, 0.0), radius: f(r) }
}

fn cube(x: f64) -> Obstacle {
    Obstacle::Box { min: v(x, 0.0, 0.0), max: v(x + 1.0, 1.0, 1.0) }
}

fn name(o: &Obstacle) -> String {
    match o {
        Obstacle::Sphere { center, radius } => format!(
            "s{}r{}",
            f64::from_bits(center[0].to_bits()),
            f64::from_bits(radius.to_bits())
        ),
        Obstacle::Box { min, .. } => format!("b{}", f64::from_bits(min[0].to_bits())),
        Obstacle::ConvexHull { parts } => {
            let inner: Vec<String> = parts.iter().map(name).collect();
            format!("({})", inner.join(" "))
        }
    }
}

fn nested() -> Vec<Obstacle> {
    vec![
        sphere(1.0, 0.5),
        Obstacle::ConvexHull {
            parts: vec![
                cube(2.0),
                Obstacle::ConvexHull { parts: vec![sphere(3.0, 1.0), Obstacle::ConvexHull { parts: vec![] }] },
                sphere(4.0, 1.0),
            ],
        },
        cube(5.0),
    ]
}

#[test]
fn flattening_keeps_the_order_and_leaves_no_hull() {
    let flat = flatten_obstacles(&nested());
    let names: Vec<String> = flat.iter().map(name).collect();
    assert_eq!(names, vec!["s1r0.5", "b2", "s3r1", "s4r1", "b5"]);
}

#[test]
fn flattening_twice_is_flattening_once() {
    let once = flatten_obstacles(&nested());
    let twice = flatten_obstacles(&once);
    let a: Vec<String> = once.iter().map(name).collect();
    let b: Vec<String> = twice.iter().map(name).collect();
    assert_eq!(a, b);
}

#[test]
fn flattening_of_parts_is_a_part_of_flattening() {
    let all = nested();
    let whole: Vec<String> = flatten_obstacles(&all).iter().map(name).collect();
    let mut parts: Vec<String> = flatten_obstacles(&all[..1]).iter().map(name).collect();
    parts.extend(flatten_obstacles(&all[1..]).iter().map(name));
    assert_eq!(whole, parts);
}

#[test]
fn a_moving_obstacle_keeps_its_shape() {
    let base = Obstacle::ConvexHull {
        parts: vec![sphere(0.0, 1.0), Obstacle::ConvexHull { parts: vec![cube(2.0)] }],
    };
    let d = DynamicObstacle { base, velocity: v(1.0, 0.0, 0.0) };
    let moved = [sphere(10.0, 1.0), cube(12.0)];
    assert_eq!(name(&d.at(&moved)), "(s10r1 (b12))");
}

#[test]
fn the_nearest_face_pushes_out_of_a_box() {
    let p = v(0.9, 0.5, 0.5);
    let gaps = [f(0.9), f(0.1), f(0.5), f(0.5), f(0.5), f(0.5)];
    let r = box_contact(p, v(0.0, 0.0, 0.0), v(1.0, 1.0, 1.0), gaps);
    assert_eq!(r, BoxContact::Inside { point: p, normal: v(1.0, 0.0, 0.0) });
}

#[test]
fn of_equally_near_faces_the_first_pushes() {
    let p = v(0.5, 0.5, 0.5);
    let gaps = [f(0.5); 6];
    let r = box_contact(p, v(0.0, 0.0, 0.0), v(1.0, 1.0, 1.0), gaps);
    assert_eq!(r, BoxContact::Inside { point: p, normal: v(-1.0, 0.0, 0.0) });
    assert_eq!(face_normal(2), v(0.0, -1.0, 0.0));
    assert_eq!(face_normal(3), v(0.0, 1.0, 0.0));
    assert_eq!(face_normal(4), v(0.0, 0.0, -1.0));
    assert_eq!(face_normal(5), v(0.0, 0.0, 1.0));
}

#[test]
fn outside_a_box_the_point_is_held_to_it() {
    let r = box_contact(
        v(2.0, 0.5, -3.0),
        v(0.0, 0.0, 0.0),
        v(1.0, 1.0, 1.0),
        [f(0.0); 6],
    );
    assert_eq!(r, BoxContact::Outside { point: v(1.0, 0.5, 0.0) });
}

#[test]
fn a_short_vector_points_up() {
    let unit = v(1.0, 0.0, 0.0);
    assert_eq!(direction_or_up(f(1e-9), f(1e-9), unit), v(0.0, 1.0, 0.0));
    assert_eq!(direction_or_up(f(2e-9), f(1e-9), unit), unit);
    assert_eq!(direction_or_up(f(f64::NAN), f(1e-9), unit), v(0.0, 1.0, 0.0));
}

#[test]
fn the_nearest_part_is_the_first_of_the_least() {
    assert_eq!(nearest_part(&[f(3.0), f(1.0), f(1.0)]), Some(1));
    assert_eq!(nearest_part(&[]), None);
    assert_eq!(nearest_part(&[f(f64::INFINITY), f(f64::NAN)]), None);
}

#[test]
fn a_ray_meets_a_sphere_at_its_nearer_root() {
    assert_eq!(sphere_hit(f(1.0), f(2.0), f(4.0), f(10.0)), Some(f(2.0)));
    assert_eq!(sphere_hit(f(1.0), f(-1.0), f(4.0), f(10.0)), Some(f(4.0)));
    assert_eq!(sphere_hit(f(1.0), f(-4.0), f(-1.0), f(10.0)), None);
    assert_eq!(sphere_hit(f(-1.0), f(2.0), f(4.0), f(10.0)), None);
    assert_eq!(sphere_hit(f(1.0), f(12.0), f(14.0), f(10.0)), None);
}

fn ray_at(origin: [f64; 3], dir: [f64; 3], min: [f64; 3], max: [f64; 3]) -> BoxRay {
    let mut t1 = [f(0.0); 3];
    let mut t2 = [f(0.0); 3];
    for i in 0..3 {
        let inv = 1.0 / dir[i];
        t1[i] = f((min[i] - origin[i]) * inv);
        t2[i] = f((max[i] - origin[i]) * inv);
    }
    BoxRay {
        origin: v(origin[0], origin[1], origin[2]),
        dir: v(dir[0], dir[1], dir[2]),
        min: v(min[0], min[1], min[2]),
        max: v(max[0], max[1], max[2]),
        t1,
        t2,
    }
}

#[test]
fn a_ray_meets_a_box_where_it_enters() {
    let lo = [1.0, -1.0, -1.0];
    let hi = [2.0, 1.0, 1.0];
    let ahead = ray_at([0.0, 0.0, 0.0], [1.0, 0.0, 0.0], lo, hi);
    assert_eq!(ahead.hit(f(10.0)), Some(f(1.0)));
    assert_eq!(ahead.hit(f(0.5)), None);
    let from_inside = ray_at([1.5, 0.0, 0.0], [1.0, 0.0, 0.0], lo, hi);
    assert_eq!(from_inside.hit(f(10.0)), Some(f(0.5)));
    let behind = ray_at([3.0, 0.0, 0.0], [1.0, 0.0, 0.0], lo, hi);
    assert_eq!(behind.hit(f(10.0)), None);
    let beside = ray_at([0.0, 2.0, 0.0], [1.0, 0.0, 0.0], lo, hi);
    assert_eq!(beside.hit(f(10.0)), None);
    let across = ray_at([0.0, 3.0, 0.0], [0.6, 0.8, 0.0], lo, hi);
    assert_eq!(across.hit(f(10.0)), None);
}

#[test]
fn the_nearest_of_the_hits_counts() {
    assert_eq!(ray_obstacle_distance(&[]), None);
    assert_eq!(ray_obstacle_distance(&[None, None]), None);
    assert_eq!(
        ray_obstacle_distance(&[Some(f(3.0)), None, Some(f(2.0)), Some(f(5.0))]),
        Some(f(2.0))
    );
}

#[test]
fn of_two_lists_the_nearer_hit_counts() {
    let a = [Some(f(3.0)), None, Some(f(2.5))];
    let b = [None, Some(f(1.5))];
    assert_eq!(ray_obstacle_distance(&a), Some(f(2.5)));
    assert_eq!(ray_obstacle_distance(&b), Some(f(1.5)));
    let both = [a[0], a[1], a[2], b[0], b[1]];
    assert_eq!(ray_obstacle_distance(&both), Some(f(1.5)));
    assert_eq!(ray_obstacle_distance(&[None, None]), None);
}
