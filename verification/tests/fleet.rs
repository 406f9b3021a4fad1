use fly_sim_core::contact::BodyCollider;
use fly_sim_core::ieee::{Float32, Float64};
use fly_sim_core::multi::{
    conflicts, fleet_telemetry, is_closing, peer_sets, telemetry_from_state, DroneLink,
    DroneTelemetry,
};

fn f(x: f64) -> Float64 {
    Float64::from_bits(x.to_bits())
}

fn g(x: f32) -> Float32 {
    Float32::from_bits(x.to_bits())
}

fn fleet(n: usize, t: f64) -> Vec<DroneTelemetry> {
    let pos: Vec<[Float32; 3]> = (0..n).map(|i| [g(i as f32); 3]).collect();
    let vel = vec![[g(0.0); 3]; n];
    fleet_telemetry(&pos, &vel, f(t))
}

#[test]
fn a_vehicle_hears_all_others_and_not_itself() {
    let mut link = DroneLink::new(4);
    assert!(link.neighbors(2).is_empty());
    let telem = fleet(4, 1.5);
    link.broadcast(&telem);
    for i in 0..4 {
        let ids: Vec<u8> = link.neighbors(i).iter().map(|t| t.id).collect();
        let want: Vec<u8> = (0..4u8).filter(|k| *k as usize != i).collect();
        assert_eq!(ids, want);
        assert!(link.neighbors(i).iter().all(|t| t.t == f(1.5)));
    }
}

#[test]
fn a_broadcast_replaces_the_one_before() {
    let mut link = DroneLink::new(2);
    link.broadcast(&fleet(2, 1.0));
    link.broadcast(&fleet(2, 2.0));
    assert_eq!(link.neighbors(0).len(), 1);
    assert_eq!(link.neighbors(0)[0].t, f(2.0));
}

#[test]
fn numbers_of_a_large_fleet_repeat() {
    let t = fleet(258, 0.0);
    assert_eq!(t[255].id, 255);
    assert_eq!(t[256].id, 0);
    assert_eq!(t[257].id, 1);
    assert_eq!(t[257].pos, [g(257.0); 3]);
}

#[test]
fn telemetry_carries_the_state() {
    let t = telemetry_from_state(3, [g(1.0); 3], [g(2.0); 3]);
    assert_eq!((t.id, t.pos, t.vel, t.t), (3, [g(1.0); 3], [g(2.0); 3], f(0.0)));
    let z = DroneTelemetry::zero();
    assert_eq!((z.id, z.pos, z.vel, z.t), (0, [g(0.0); 3], [g(0.0); 3], f(0.0)));
}

#[test]
fn each_pair_is_resolved_once() {
    let bodies: Vec<BodyCollider> = (0..5)
        .map(|i| BodyCollider { id: i, mass: f(1.0), radius: f(0.3) })
        .collect();
    let sets = peer_sets(&bodies);
    let mut count = vec![vec![0; 5]; 5];
    for (i, peers) in sets.iter().enumerate() {
        for p in peers {
            count[i][p.id as usize] += 1;
        }
    }
    for i in 0..5 {
        for j in 0..5 {
            let want = if i == j { 0 } else { 1 };
            assert_eq!(count[i][j] + if i == j { 0 } else { count[j][i] }, want);
        }
    }
    assert!(sets[4].is_empty());
}

#[test]
fn near_neighbours_are_given_way_to() {
    let d = [g(1.0), g(5.0), g(0.0), g(4.9)];
    assert_eq!(conflicts(&d, g(5.0)), vec![0, 3]);
    assert!(is_closing(g(-0.1)));
    assert!(!is_closing(g(0.0)));
}
