use radar_sim::aircraft::{AircraftEvent, EntityId, LabelKind, Position, World};
use radar_sim::camera::{process_camera_events, CameraEvent, CameraTarget};
use radar_sim::render::{render_position, SimulationSettings};
use radar_sim::text::{flight_level_label, ground_speed, padded_decimal};
use radar_sim::units::{
    feet_to_units, knots_to_units_per_tick, nautical_miles_to_units, units_per_tick_to_knots,
    units_to_feet, units_to_nautical_miles, UNITS_PER_FOOT, UNITS_PER_KNOT,
    UNITS_PER_NAUTICAL_MILE,
};

fn sync_all(w: &mut World) {
    w.update_flight_number_labels();
    w.update_altitude_labels();
    w.update_ground_speed_labels();
}

fn texts(w: &World) -> Vec<String> {
    w.labels.iter().map(|l| l.text.clone()).collect()
}

#[test]
fn end_to_end_debug_aircraft() {
    let mut w = World::new();
    let id = w.spawn("12345".to_string(), (0, 0), (0, 0), 0);
    assert_eq!(id, EntityId { index: 0 });
    let a = w.aircraft[0].as_ref().unwrap();
    assert_eq!(a.position, Position { x: 0, y: 0, z: 0 });
    sync_all(&mut w);
    assert_eq!(texts(&w), vec!["12345", "FL000", "000"]);
    assert!(w.update_aircraft_position_fixed());
    assert_eq!(w.aircraft[0].as_ref().unwrap().position, Position { x: 0, y: 0, z: 0 });
}

#[test]
fn spawn_labels_show_flight_level_and_speed() {
    let mut w = World::new();
    w.spawn("BA123".to_string(), (10, -5), (180, 0), 10000);
    assert_eq!(texts(&w), vec!["BA123", "FL100", "180"]);
    sync_all(&mut w);
    assert_eq!(texts(&w), vec!["BA123", "FL100", "180"]);
    assert_eq!(w.labels[0].kind, LabelKind::FlightNumber);
    assert_eq!(w.labels[1].kind, LabelKind::Altitude);
    assert_eq!(w.labels[2].kind, LabelKind::GroundSpeed);
    assert!(w.labels.iter().all(|l| l.parent == EntityId { index: 0 }));
}

#[test]
fn spawn_converts_to_length_units() {
    let mut w = World::new();
    w.spawn("X".to_string(), (2, -3), (4, -1), 3500);
    let a = w.aircraft[0].as_ref().unwrap();
    assert_eq!(a.position.x, 2 * 41670000);
    assert_eq!(a.position.y, -3 * 41670000);
    assert_eq!(a.position.z, 3500 * 6858);
    assert_eq!(a.velocity.x, 4 * 11575);
    assert_eq!(a.velocity.y, -11575);
    assert_eq!(a.velocity.z, 0);
    assert_eq!(a.flight_number.0, "X");
}

#[test]
fn ground_speed_label_is_magnitude_rounded() {
    let mut w = World::new();
    w.spawn("A".to_string(), (0, 0), (3, 4), 0);
    w.spawn("B".to_string(), (0, 0), (2, 2), 0);
    w.spawn("C".to_string(), (0, 0), (1, 1), 0);
    w.spawn("D".to_string(), (0, 0), (-300, 400), 0);
    sync_all(&mut w);
    let t = texts(&w);
    assert_eq!(t[2], "005");
    assert_eq!(t[5], "003");
    assert_eq!(t[8], "001");
    assert_eq!(t[11], "500");
}

#[test]
fn ticks_add_velocity_each_time() {
    let mut w = World::new();
    w.spawn("A".to_string(), (1, 2), (360, -720), 5000);
    let p0 = w.aircraft[0].as_ref().unwrap().position;
    let v = w.aircraft[0].as_ref().unwrap().velocity;
    for _ in 0..7 {
        assert!(w.update_aircraft_position_fixed());
    }
    let p = w.aircraft[0].as_ref().unwrap().position;
    assert_eq!(p.x, p0.x + 7 * v.x);
    assert_eq!(p.y, p0.y + 7 * v.y);
    assert_eq!(p.z, p0.z);
    sync_all(&mut w);
    assert_eq!(texts(&w), vec!["A", "FL050", "805"]);
}

#[test]
fn tick_that_would_overflow_stops_only_that_aircraft() {
    let mut w = World::new();
    w.spawn("A".to_string(), (0, 0), (1, 0), 0);
    w.aircraft[0].as_mut().unwrap().position.x = i64::MAX;
    w.spawn("B".to_string(), (0, 0), (1, 0), 0);
    assert!(!w.update_aircraft_position_fixed());
    assert_eq!(w.aircraft[0].as_ref().unwrap().position.x, i64::MAX);
    assert_eq!(w.aircraft[1].as_ref().unwrap().position.x, 11575);
    w.despawn(EntityId { index: 0 });
    assert!(w.update_aircraft_position_fixed());
    assert_eq!(w.aircraft[1].as_ref().unwrap().position.x, 2 * 11575);
}

#[test]
fn tick_result_per_aircraft_does_not_depend_on_others() {
    let mut alone = World::new();
    alone.spawn("A".to_string(), (5, 5), (100, 200), 1000);
    let mut crowd = World::new();
    crowd.spawn("B".to_string(), (-1, 0), (50, 0), 2000);
    crowd.spawn("A".to_string(), (5, 5), (100, 200), 1000);
    crowd.spawn("C".to_string(), (0, 9), (0, -70), 3000);
    for _ in 0..3 {
        assert!(alone.update_aircraft_position_fixed());
        assert!(crowd.update_aircraft_position_fixed());
    }
    sync_all(&mut alone);
    sync_all(&mut crowd);
    assert_eq!(
        alone.aircraft[0].as_ref().unwrap().position,
        crowd.aircraft[1].as_ref().unwrap().position
    );
    assert_eq!(texts(&alone)[..], texts(&crowd)[3..6]);
}

#[test]
fn dangling_labels_keep_their_text() {
    let mut w = World::new();
    let id = w.spawn("A".to_string(), (0, 0), (180, 0), 10000);
    w.spawn("B".to_string(), (0, 0), (90, 0), 20000);
    assert!(w.despawn(id));
    assert!(!w.despawn(id));
    assert!(!w.despawn(EntityId { index: 9 }));
    w.labels[0].text = "stale".to_string();
    assert!(w.update_aircraft_position_fixed());
    sync_all(&mut w);
    let t = texts(&w);
    assert_eq!(t[..3], ["stale", "FL100", "180"]);
    assert_eq!(t[3..], ["B", "FL200", "090"]);
    assert!(w.aircraft[0].is_none());
}

#[test]
fn events_spawn_in_order() {
    let mut w = World::new();
    let events = vec![
        AircraftEvent::Spawn {
            flight_number: "ONE".to_string(),
            position: (0, 0),
            ground_speed: (0, 250),
            altitude: 35000,
        },
        AircraftEvent::Spawn {
            flight_number: "TWO".to_string(),
            position: (1, 1),
            ground_speed: (12, 0),
            altitude: 1449,
        },
    ];
    let ids = w.process_aircraft_events(&events);
    assert_eq!(ids, vec![EntityId { index: 0 }, EntityId { index: 1 }]);
    assert_eq!(texts(&w), vec!["ONE", "FL350", "250", "TWO", "FL014", "012"]);
    assert_eq!(w.labels[4].parent, EntityId { index: 1 });
    assert!(w.process_aircraft_events(&Vec::new()).is_empty());
    assert_eq!(w.aircraft.len(), 2);
}

#[test]
fn render_position_scales_horizontally_only() {
    let settings = SimulationSettings::default();
    assert_eq!(settings.horizontal_scale_permille, 100);
    let p = Position { x: 22500, y: -45000, z: 6858 };
    let r = render_position(&p, &settings);
    assert_eq!((r.x, r.y, r.z), (2250000, -4500000, 0));
    assert_eq!(render_position(&p, &settings), r);
    let mut w = World::new();
    w.spawn("A".to_string(), (1, 0), (0, 0), 100);
    w.spawn("B".to_string(), (0, 2), (0, 0), 100);
    w.despawn(EntityId { index: 0 });
    let all = w.update_aircraft_transform(&settings);
    assert_eq!(all.len(), 2);
    assert!(all[0].is_none());
    let b = all[1].unwrap();
    assert_eq!((b.x, b.y, b.z), (0, 2 * 41670000 * 100, 0));
    assert_eq!(w.update_aircraft_transform(&settings), all);
}

#[test]
fn units_round_trip() {
    for v in [0, 1, -1, 250, -37, i32::MAX, i32::MIN] {
        assert_eq!(units_to_feet(feet_to_units(v)), v as i64);
        assert_eq!(units_to_nautical_miles(nautical_miles_to_units(v)), v as i64);
        assert_eq!(units_per_tick_to_knots(knots_to_units_per_tick(v)), v as i64);
    }
    assert_eq!(feet_to_units(1), UNITS_PER_FOOT);
    assert_eq!(nautical_miles_to_units(1), UNITS_PER_NAUTICAL_MILE);
    assert_eq!(knots_to_units_per_tick(1), UNITS_PER_KNOT);
    assert_eq!(units_to_feet(3429), 1);
    assert_eq!(units_to_feet(3428), 0);
    assert_eq!(units_to_feet(-3429), -1);
    let meter_ratio = 0.3048_f64 * 22500.0;
    assert!((meter_ratio - UNITS_PER_FOOT as f64).abs() < 1e-6);
}

#[test]
fn decimal_texts_are_zero_padded() {
    assert_eq!(padded_decimal(0), "000");
    assert_eq!(padded_decimal(5), "005");
    assert_eq!(padded_decimal(42), "042");
    assert_eq!(padded_decimal(180), "180");
    assert_eq!(padded_decimal(1234), "1234");
    assert_eq!(padded_decimal(-5), "0-5");
    assert_eq!(padded_decimal(-42), "-42");
    assert_eq!(padded_decimal(i64::MIN), "-9223372036854775808");
}

#[test]
fn flight_levels_round_to_nearest_hundred_feet_halves_to_even() {
    assert_eq!(flight_level_label(feet_to_units(10000)), "FL100");
    assert_eq!(flight_level_label(feet_to_units(149)), "FL001");
    assert_eq!(flight_level_label(feet_to_units(150)), "FL002");
    assert_eq!(flight_level_label(feet_to_units(-150)), "FL0-2");
    assert_eq!(flight_level_label(feet_to_units(1050)), "FL010");
    assert_eq!(flight_level_label(feet_to_units(1150)), "FL012");
    assert_eq!(flight_level_label(feet_to_units(50)), "FL000");
    assert_eq!(flight_level_label(feet_to_units(250)), "FL002");
    assert_eq!(flight_level_label(feet_to_units(-30)), "FL0-0");
    assert_eq!(flight_level_label(feet_to_units(-250)), "FL0-2");
    assert_eq!(flight_level_label(feet_to_units(123456)), "FL1235");
    assert_eq!(ground_speed(0, 0), 0);
    assert_eq!(ground_speed(3 * UNITS_PER_KNOT, -4 * UNITS_PER_KNOT), 5);
    assert_eq!(ground_speed(UNITS_PER_KNOT / 2 + 1, 0), 1);
    assert_eq!(ground_speed(UNITS_PER_KNOT / 2, 0), 0);
}

#[test]
fn camera_follows_the_last_requested_target() {
    let mut target = CameraTarget::new(7);
    process_camera_events(&mut target, &Vec::new());
    assert_eq!(target.entity, 7);
    process_camera_events(&mut target, &vec![CameraEvent::Target(3), CameraEvent::Target(11)]);
    assert_eq!(target.entity, 11);
    assert_eq!(target.replace(2), 11);
    assert_eq!(target.entity, 2);
}

#[test]
fn despawn_with_labels_removes_only_that_aircrafts_labels() {
    let mut w = World::new();
    let a = w.spawn("A".to_string(), (0, 0), (10, 0), 100);
    w.spawn("B".to_string(), (0, 0), (20, 0), 200);
    assert!(w.despawn_with_labels(a));
    assert!(w.aircraft[0].is_none());
    assert_eq!(texts(&w), vec!["B", "FL002", "020"]);
    assert!(w.labels.iter().all(|l| l.parent == EntityId { index: 1 }));
    assert!(!w.despawn_with_labels(a));
    assert_eq!(w.labels.len(), 3);
}

#[test]
fn spawn_at_half_flight_level_rounds_to_even() {
    let mut w = World::new();
    w.spawn("H".to_string(), (0, 0), (0, 0), 1050);
    assert_eq!(texts(&w)[1], "FL010");
    assert!(w.update_aircraft_position_fixed());
    sync_all(&mut w);
    assert_eq!(texts(&w)[1], "FL010");
}
