use fly_sim_core::contact::{
    approach_only, friction_share, is_touching, merge_contacts, peer_friction, push_only, reaction,
    resolve_body_peer_collisions, slides, summarise_contacts, touching_surfaces, BodyCollider,
    ContactInfo, ContactModel, Separation, Surface, SurfaceContact, TerrainField, GROUND_SLIP,
    OBSTACLE_SLIP,
};
use fly_sim_core::ieee::Float64;

fn f(x: f64) -> Float64 {
    Float64::from_bits(x.to_bits())
}

fn v(x: f64) -> [Float64; 3] {
    [f(x), f(x), f(x)]
}

fn surface(tag: f64, pen: f64) -> SurfaceContact {
    SurfaceContact { point: v(tag), normal: v(-tag), penetration: f(pen), impulse: v(10.0 * tag) }
}

#[test]
fn the_default_model_is_a_soft_pad() {
    let m = ContactModel::default();
    assert_eq!(m.ground_y, f(-5.0));
    assert_eq!(m.restitution, f(0.2));
    assert_eq!(m.friction, f(0.8));
    assert_eq!(m.penalty_k, f(8000.0));
    assert_eq!(m.contact_half_h, f(0.1));
    assert!(m.terrain.is_none());
}

#[test]
fn an_elastic_contact_is_not_damped() {
    let mut m = ContactModel::default();
    assert_eq!(m.damping_ratio(f(0.25)), f(0.25));
    assert_eq!(m.damping_ratio(f(7.0)), f(1.0));
    assert_eq!(m.damping_ratio(f(-1.0)), f(0.0));
    m.restitution = f(1.0);
    assert_eq!(m.damping_ratio(f(0.25)), f(0.0));
}

#[test]
fn contacts_push_and_never_pull() {
    assert_eq!(push_only(f(2.0)), f(2.0));
    assert_eq!(push_only(f(-2.0)), f(0.0));
    assert_eq!(approach_only(f(-2.0)), f(-2.0));
    assert_eq!(approach_only(f(2.0)), f(0.0));
    assert!(is_touching(f(0.1)));
    assert!(!is_touching(f(0.0)));
    assert!(!is_touching(f(-0.1)));
}

#[test]
fn a_grid_gives_the_corners_of_a_cell() {
    let t = TerrainField::HeightMap {
        origin_x: f(0.0),
        origin_z: f(0.0),
        spacing: f(1.0),
        nx: 3,
        nz: 2,
        heights: (0..6).map(|i| f(i as f64)).collect(),
    };
    assert_eq!(
        t.height_at(0, 0),
        Surface::Cell { h00: f(0.0), h10: f(1.0), h01: f(3.0), h11: f(4.0) }
    );
    assert_eq!(
        t.height_at(2, 1),
        Surface::Cell { h00: f(5.0), h10: f(5.0), h01: f(5.0), h11: f(5.0) }
    );
    assert!(t.has_slope());
}

#[test]
fn a_grid_without_spacing_is_level() {
    let t = TerrainField::HeightMap {
        origin_x: f(0.0),
        origin_z: f(0.0),
        spacing: f(0.0),
        nx: 3,
        nz: 2,
        heights: Vec::new(),
    };
    assert_eq!(t.height_at(9, 9), Surface::Level(f(0.0)));
    assert!(!t.has_slope());
    assert_eq!(TerrainField::Flat(f(2.5)).height_at(0, 0), Surface::Level(f(2.5)));
    assert!(!TerrainField::Flat(f(2.5)).has_slope());
}

#[test]
fn the_deepest_contact_stands_for_all() {
    let s = [surface(1.0, -0.2), surface(2.0, 0.3), surface(3.0, 0.5), surface(4.0, 0.5)];
    assert_eq!(touching_surfaces(&s), vec![1, 2, 3]);
    let info = summarise_contacts(&s, f(10.0), f(1.0));
    assert!(info.touching);
    assert_eq!(info.penetration, f(0.5));
    assert_eq!(info.point, v(3.0));
    assert_eq!(info.normal, v(-3.0));
    assert_eq!(info.normal_force, f(10.0));
    assert_eq!(info.friction_impulse, f(1.0));
    assert_eq!(info.impulse, v(30.0));
}

#[test]
fn without_penetration_there_is_no_contact() {
    let info = summarise_contacts(&[surface(1.0, 0.0), surface(2.0, -1.0)], f(10.0), f(1.0));
    assert_eq!(info, ContactInfo::none());
    assert!(touching_surfaces(&[surface(1.0, 0.0)]).is_empty());
}

#[test]
fn forces_are_summed_and_the_impulse_is_that_of_the_deepest() {
    let contact = |x: f64, n: f64, pen: f64, j: f64| SurfaceContact {
        point: [f(x), f(0.0), f(0.0)],
        normal: [f(n), f(0.0), f(0.0)],
        penetration: f(pen),
        impulse: [f(j), f(0.0), f(0.0)],
    };
    let between = [contact(-0.5, 1.0, 0.5, 25.0), contact(0.75, -1.0, 0.25, -12.5)];
    assert_eq!(touching_surfaces(&between), vec![0, 1]);
    let info = summarise_contacts(&between, f(75.0), f(0.0));
    assert_eq!((info.touching, info.penetration, info.normal_force), (true, f(0.5), f(75.0)));
    assert_eq!(info.normal, [f(1.0), f(0.0), f(0.0)]);
    assert_eq!(info.point, [f(-0.5), f(0.0), f(0.0)]);
    assert_eq!(info.impulse, [f(25.0), f(0.0), f(0.0)]);
}

#[test]
fn surfaces_of_two_lists_are_touched_as_those_of_each() {
    let a = [surface(1.0, 0.1), surface(2.0, -0.1)];
    let b = [surface(3.0, 0.0), surface(4.0, 0.2)];
    let both = [a[0], a[1], b[0], b[1]];
    assert_eq!(touching_surfaces(&a), vec![0]);
    assert_eq!(touching_surfaces(&b), vec![1]);
    assert_eq!(touching_surfaces(&both), vec![0, 3]);
}

#[test]
fn no_contact_is_the_default() {
    assert_eq!(ContactInfo::default(), ContactInfo::none());
    assert!(!ContactInfo::default().touching);
    assert_eq!(ContactInfo::default().impulse, v(0.0));
}

#[test]
fn an_obstacle_comes_before_the_ground() {
    let mut ground = ContactInfo::none();
    ground.touching = true;
    let mut obstacle = ground;
    obstacle.penetration = f(0.1);
    assert_eq!(merge_contacts(Some(ground), Some(obstacle)), Some(obstacle));
    assert_eq!(merge_contacts(Some(ground), None), Some(ground));
    assert_eq!(merge_contacts(Some(ground), Some(ContactInfo::none())), Some(ground));
    assert_eq!(merge_contacts(Some(ContactInfo::none()), None), None);
    assert_eq!(merge_contacts(None, None), None);
}

fn body(id: i64, mass: f64) -> BodyCollider {
    BodyCollider { id, mass: f(mass), radius: f(0.5) }
}

fn apart(gap: f64, distance: f64) -> Separation {
    Separation { gap: f(gap), distance: f(distance) }
}

#[test]
fn overlapping_peers_collide() {
    let me = body(0, 1.0);
    let peers = [body(0, 1.0), body(1, 1.0), body(2, 1.0), body(3, 1.0)];
    let s = [apart(-0.5, 0.5), apart(-0.1, 0.9), apart(0.0, 1.0), apart(-1.0, 1e-10)];
    assert_eq!(resolve_body_peer_collisions(me, &peers, &s), vec![1]);
}

#[test]
fn a_fixed_peer_neither_recoils_nor_shares_its_mass() {
    assert!(body(1, 2.0).recoils());
    assert!(!body(1, 0.0).recoils());
    assert_eq!(body(1, 2.0).effective_mass(f(1.0), f(0.6)), f(0.6));
    assert_eq!(body(1, 0.0).effective_mass(f(1.0), f(0.6)), f(1.0));
}

#[test]
fn action_and_reaction_cancel() {
    let j = [f(1.25), f(-3.0), f(1e-3)];
    let r = reaction(j);
    for k in 0..3 {
        let a = f64::from_bits(j[k].to_bits());
        let b = f64::from_bits(r[k].to_bits());
        assert_eq!(a + b, 0.0);
    }
    assert_eq!(reaction(r), j);
}

#[test]
fn friction_stops_and_never_drives_back() {
    assert!(slides(f(1e-8), Float64::from_bits(GROUND_SLIP)));
    assert!(!slides(f(1e-9), Float64::from_bits(GROUND_SLIP)));
    assert!(!slides(f(1e-8), Float64::from_bits(OBSTACLE_SLIP)));
    assert!(slides(f(2e-6), Float64::from_bits(OBSTACLE_SLIP)));
    assert_eq!(friction_share(f(0.25)), f(0.25));
    assert_eq!(friction_share(f(40.0)), f(1.0));
}

#[test]
fn friction_between_bodies_needs_slip_and_pressure() {
    assert_eq!(peer_friction(f(1.0), f(2.0), f(1.6), f(5.0)), f(1.6));
    assert_eq!(peer_friction(f(1.0), f(2.0), f(1.6), f(0.5)), f(0.5));
    assert_eq!(peer_friction(f(0.0), f(2.0), f(1.6), f(0.5)), f(0.0));
    assert_eq!(peer_friction(f(1.0), f(0.0), f(1.6), f(0.5)), f(0.0));
}
