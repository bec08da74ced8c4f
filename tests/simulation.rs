use sensor_sim::error::SimError;
use sensor_sim::event::{Event, EventList, Events};
use sensor_sim::evaluation::Evaluation;
use sensor_sim::parameters::{MovableObjects, Parameters};
use sensor_sim::rule::{Condition, RefValue, Rule};
use sensor_sim::sensor::{Sensor, SensorType};
use sensor_sim::simulator::Simulator;
use sensor_sim::structure::{Edge, Node, UnderlyingStructure};
use sensor_sim::time::TimeOfDay;

fn at(h: u32, m: u32, s: u32, ms: u32) -> TimeOfDay {
    TimeOfDay::from_hms_milli(h, m, s, ms).unwrap()
}

fn objects(count: u32, moves: u32) -> MovableObjects {
    MovableObjects {
        number_of_movable_objects: count,
        number_of_random_moves: moves,
        time_of_creation: at(8, 0, 0, 0),
        time_of_deletion: at(17, 0, 0, 0),
        speed_millis: 1000,
    }
}

/// A line of three nodes: start 0, visit 1, end 2.
fn line() -> UnderlyingStructure<(), ()> {
    let mut s = UnderlyingStructure::new(vec![Node::new(()), Node::new(()), Node::new(())]);
    s.edges.push((0, 1, Edge::new(())));
    s.edges.push((1, 2, Edge::new(())));
    s.start_nodes.push(0);
    s.nodes_to_move_to.push(1);
    s.end_nodes.push(2);
    s
}

fn count(list: &EventList, f: fn(&Events) -> bool) -> usize {
    list.events.iter().filter(|e| f(&e.action)).count()
}

#[test]
fn trivial_movement() {
    let mut p = Parameters::new(objects(1, 0));
    p.change_underlying_structure(line());
    let mut sim = Simulator::new(p);
    let list = sim.change_event_list_for_movement(0, &vec![-1500], &vec![2500]).unwrap();
    let l = sim.get_event_list();
    assert_eq!(list.events.len(), l.events.len());
    assert_eq!(count(l, |a| matches!(a, Events::Create(_))), 1);
    assert_eq!(count(l, |a| matches!(a, Events::Delete(_))), 1);
    let ids: Vec<(String, u32, String)> =
        l.events.iter().map(|e| (e.id.clone(), e.time.millis, e.action.to_string())).collect();
    let c = at(8, 0, 0, 0).millis - 1500;
    let d = at(17, 0, 0, 0).millis + 2500;
    assert_eq!(
        ids,
        vec![
            ("Movable_object_0_Creation".to_string(), c, "Create(0)".to_string()),
            ("Movable_object_0_Move_no._0".to_string(), c + 1000, "Move(1)".to_string()),
            ("Movable_object_0_Move_no._1".to_string(), d - 2000, "Move(1)".to_string()),
            ("Movable_object_0_Move_no._2".to_string(), d - 1000, "Move(2)".to_string()),
            ("Movable_object_0_Deletion".to_string(), d, "Delete(2)".to_string()),
        ]
    );
    assert_eq!(sim.get_node_of_stays(), &vec![(1usize, 0u32)]);
}

#[test]
fn movement_with_excursions_keeps_counts_and_order() {
    let mut p = Parameters::new(objects(3, 2));
    p.change_underlying_structure(line());
    let mut sim = Simulator::new(p);
    sim.change_event_list_for_movement(0, &vec![0, 100, -100], &vec![0, 5, 7]).unwrap();
    let l = sim.get_event_list();
    assert_eq!(count(l, |a| matches!(a, Events::Create(_))), 3);
    assert_eq!(count(l, |a| matches!(a, Events::Delete(_))), 3);
    for w in l.events.windows(2) {
        assert!(w[0].time.millis <= w[1].time.millis);
    }
    // every step of a walk joins neighbours of the line
    let matrix = sim.get_matrix_of_nodes_of_movable_objects().unwrap();
    assert_eq!(matrix.len(), 3);
    for (i, row) in matrix.iter().enumerate() {
        assert!(!row.is_empty());
        for m in row {
            assert_eq!(m.0, i);
            assert!(m.2 <= 2);
        }
    }
}

#[test]
fn disconnected_graph_is_a_topology_error() {
    let mut s = line();
    s.edges.clear();
    let mut p = Parameters::new(objects(1, 0));
    p.change_underlying_structure(s);
    let mut sim = Simulator::new(p);
    assert_eq!(
        sim.change_event_list_for_movement(0, &vec![0], &vec![0]).err(),
        Some(SimError::TopologyError)
    );
    assert!(sim.get_event_list().events.is_empty());
}

#[test]
fn missing_graph_or_nodes_is_a_config_error() {
    let mut sim: Simulator<(), ()> = Simulator::new(Parameters::new(objects(1, 0)));
    assert_eq!(sim.change_event_list_for_movement(0, &vec![0], &vec![0]).err(), Some(SimError::ConfigError));
    let mut s = line();
    s.end_nodes.clear();
    let mut p = Parameters::new(objects(1, 0));
    p.change_underlying_structure(s);
    let mut sim = Simulator::new(p);
    assert_eq!(sim.change_event_list_for_movement(0, &vec![0], &vec![0]).err(), Some(SimError::ConfigError));
    let mut p = Parameters::new(objects(2, 0));
    p.change_underlying_structure(line());
    let mut sim = Simulator::new(p);
    assert_eq!(sim.change_event_list_for_movement(0, &vec![0], &vec![0]).err(), Some(SimError::ConfigError));
}

#[test]
fn profile_registration() {
    let mut p: Parameters<(), ()> = Parameters::new(objects(1, 0));
    assert_eq!(p.add_device_profile(0, None, Some(vec!["t".to_string()])), Err(SimError::ConfigError));
    assert_eq!(p.add_device_profile(60, None, None), Err(SimError::ConfigError));
    assert!(p.get_sensor_types().is_empty());
    p.add_device_profile(60, Some(vec!["OFF".to_string()]), Some(vec!["temp".to_string()])).unwrap();
    p.add_device_profile(30, None, Some(vec!["hum".to_string()])).unwrap();
    let t = p.get_sensor_types();
    assert_eq!(t[0].get_id(), "SensorType_0");
    assert_eq!(t[0].get_device_profile_id(), "DevProf_1");
    assert_eq!(t[1].get_id(), "SensorType_1");
    assert_eq!(t[1].get_device_profile_id(), "DevProf_2");
    assert_eq!(t[1].get_uplink_interval_in_sec(), 30);
    assert_eq!(p.get_device_profile_index_via_id("DevProf_2"), Ok(1));
    assert_eq!(p.get_device_profile_index_via_id("DevProf_3"), Err(SimError::ProfileLookupError));
    assert_eq!(p.create_empty_uplink_sensor_message("DevProf_1").unwrap(), "Uplink_Message_temp:**,");
}

fn sensor(node: usize, no: i64, ty: &SensorType) -> Sensor {
    let id = format!("Sensor_{}_no._{}_of_type_{}", node, no, ty.get_id());
    Sensor::new(id, ty.clone(), no)
}

#[test]
fn uplink_scheduling_covers_the_window() {
    let mut p: Parameters<(), ()> = Parameters::new(objects(0, 0));
    p.add_device_profile(60, None, Some(vec!["temp".to_string()])).unwrap();
    let ty = p.get_sensor_types()[0].clone();
    let mut s = line();
    s.nodes[0].add_sensor(sensor(0, 0, &ty));
    p.change_underlying_structure(s);
    p.set_number_of_sensors(1);
    let mut sim = Simulator::new(p);
    let mut list = EventList::new();
    list.add_event(Event::new("Movable_object_0_Creation".to_string(), at(8, 0, 0, 0), Events::Create(0)));
    list.add_event(Event::new("Movable_object_0_Deletion".to_string(), at(9, 0, 0, 0), Events::Delete(2)));
    sim.event_list = list;
    sim.change_event_list_for_sensors().unwrap();
    let msgs: Vec<&Event> =
        sim.get_event_list().events.iter().filter(|e| matches!(e.action, Events::Message(_))).collect();
    assert_eq!(msgs.len(), 63);
    let offset = msgs[0].time.millis - at(7, 59, 0, 0).millis;
    assert!(offset < 2000);
    for (k, e) in msgs.iter().enumerate() {
        assert_eq!(e.time.millis, at(7, 59, 0, 0).millis + offset + 60_000 * k as u32);
        assert_eq!(e.action.get_message(), "Uplink_Message_temp:**,");
        assert_eq!(e.id, "Message_of_0_Sensor_0_no._0_of_type_SensorType_0");
    }
}

#[test]
fn uplink_interval_zero_is_a_config_error() {
    let mut p: Parameters<(), ()> = Parameters::new(objects(0, 0));
    let ty = SensorType::new("SensorType_0".to_string(), "DevProf_1".to_string(), 0);
    let mut s = line();
    s.nodes[0].add_sensor(sensor(0, 0, &ty));
    p.change_underlying_structure(s);
    let mut sim = Simulator::new(p);
    sim.event_list.add_event(Event::new("x".to_string(), at(8, 0, 0, 0), Events::Create(0)));
    assert_eq!(sim.change_event_list_for_sensors().err(), Some(SimError::ConfigError));
}

#[test]
fn unknown_profile_of_a_sensor_is_a_lookup_error() {
    let mut p: Parameters<(), ()> = Parameters::new(objects(0, 0));
    let ty = SensorType::new("SensorType_0".to_string(), "DevProf_5".to_string(), 60);
    let mut s = line();
    s.nodes[1].add_sensor(sensor(1, 0, &ty));
    p.change_underlying_structure(s);
    let mut sim = Simulator::new(p);
    sim.event_list.add_event(Event::new("x".to_string(), at(8, 0, 0, 0), Events::Create(0)));
    assert_eq!(sim.change_event_list_for_sensors().err(), Some(SimError::ProfileLookupError));
}

const A: &str = "Sensor_0_no._0_of_type_SensorType_0";
const B: &str = "Sensor_1_no._1_of_type_SensorType_0";

fn rule_sim(events: Vec<(TimeOfDay, &str, &str)>) -> Simulator<(), ()> {
    let mut p: Parameters<(), ()> = Parameters::new(objects(0, 0));
    p.add_device_profile(60, Some(vec!["OFF".to_string()]), Some(vec!["value".to_string()])).unwrap();
    let a = Rule::create_device_condition(A.to_string(), 0, 0, ">".to_string(), RefValue::IntNumber(10));
    let b = Rule::create_device_condition(B.to_string(), 1, 0, "<".to_string(), RefValue::IntNumber(5));
    p.set_rule(vec![Rule::create_rule(
        "R".to_string(),
        vec![Condition::Device(a), Condition::Device(b)],
        vec!["&".to_string()],
        vec![Rule::create_device_action(A.to_string(), 0, vec![0])],
    )]);
    p.set_number_of_sensors(2);
    let mut sim = Simulator::new(p);
    for (t, id, msg) in events {
        sim.event_list.add_event(Event::new(id.to_string(), t, Events::Message(msg.to_string())));
    }
    sim
}

const A_ID: &str = "Message_of_0_Sensor_0_no._0_of_type_SensorType_0";
const B_ID: &str = "Message_of_1_Sensor_1_no._1_of_type_SensorType_0";

#[test]
fn rule_fires_and_rewrites_later_uplinks() {
    let a_sensor = "Sensor_0_no._0_of_type_SensorType_0";
    let b_sensor = "Sensor_1_no._1_of_type_SensorType_1";
    let a_id = "Message_of_0_Sensor_0_no._0_of_type_SensorType_0";
    let b_id = "Message_of_1_Sensor_1_no._1_of_type_SensorType_1";
    let mut p: Parameters<(), ()> = Parameters::new(objects(0, 0));
    p.add_device_profile(60, Some(vec!["OFF".to_string()]), Some(vec!["value".to_string()])).unwrap();
    p.add_device_profile(60, Some(vec!["OFF".to_string()]), Some(vec!["value".to_string()])).unwrap();
    let a = Rule::create_device_condition(a_sensor.to_string(), 0, 0, ">".to_string(), RefValue::IntNumber(10));
    let b = Rule::create_device_condition(b_sensor.to_string(), 1, 0, "<".to_string(), RefValue::IntNumber(5));
    p.set_rule(vec![Rule::create_rule(
        "R".to_string(),
        vec![Condition::Device(a), Condition::Device(b)],
        vec!["&".to_string()],
        vec![Rule::create_device_action(a_sensor.to_string(), 0, vec![0])],
    )]);
    p.set_number_of_sensors(2);
    let mut sim = Simulator::new(p);
    for (t, id) in [(at(10, 0, 0, 0), a_id), (at(10, 0, 0, 0), b_id), (at(10, 1, 0, 0), a_id), (at(10, 2, 0, 0), a_id)] {
        sim.event_list.add_event(Event::new(id.to_string(), t, Events::Message("Uplink_Message_value:**,".to_string())));
    }
    sim.add_standard_values_to_uplink_messages(
        vec!["0".to_string(), "1".to_string()],
        vec![vec!["15".to_string()], vec!["3".to_string()]],
    )
    .unwrap();
    assert_eq!(sim.get_event_list().events[0].action.get_message(), "Uplink_Message_value:15,");
    assert_eq!(sim.get_event_list().events[1].action.get_message(), "Uplink_Message_value:3,");
    sim.rule_execution().unwrap();
    let l = &sim.get_event_list().events;
    assert_eq!(l.len(), 5);
    let downs: Vec<&Event> =
        l.iter().filter(|e| e.action.get_message().starts_with("Downlink_")).collect();
    assert_eq!(downs.len(), 1);
    assert_eq!(downs[0].id, a_id);
    assert_eq!(downs[0].time, at(10, 0, 0, 1));
    assert_eq!(downs[0].action.get_message(), "Downlink_Message_command:OFF,");
    assert_eq!(l[3].action.get_message(), "Uplink_Message_value:OFF,");
    assert_eq!(l[4].action.get_message(), "Uplink_Message_value:OFF,");
    assert_eq!(l[0].action.get_message(), "Uplink_Message_value:15,");
}

#[test]
fn missing_values_list_is_a_config_error() {
    let mut sim = rule_sim(vec![(at(10, 0, 0, 0), A_ID, "Uplink_Message_value:**,")]);
    assert_eq!(
        sim.add_standard_values_to_uplink_messages(vec!["0".to_string()], vec![]),
        Err(SimError::ConfigError)
    );
    assert_eq!(sim.get_event_list().events[0].action.get_message(), "Uplink_Message_value:**,");
}

#[test]
fn freshness_gate_fires_once() {
    let mut sim = rule_sim(vec![
        (at(10, 0, 0, 0), A_ID, "Uplink_Message_value:15,"),
        (at(10, 0, 0, 500), B_ID, "Uplink_Message_value:3,"),
        (at(10, 5, 0, 0), A_ID, "Uplink_Message_value:16,"),
        (at(10, 6, 0, 0), A_ID, "Uplink_Message_value:17,"),
    ]);
    sim.rule_execution().unwrap();
    let l = &sim.get_event_list().events;
    assert_eq!(l.len(), 5);
    let downs: Vec<&Event> =
        l.iter().filter(|e| e.action.get_message().starts_with("Downlink_")).collect();
    assert_eq!(downs.len(), 1);
    assert_eq!(downs[0].time, at(10, 0, 0, 501));
    assert_eq!(l[3].action.get_message(), "Uplink_Message_value:OFF,");
    assert_eq!(l[4].action.get_message(), "Uplink_Message_value:OFF,");
}

#[test]
fn rule_that_does_not_hold_changes_nothing() {
    let mut sim = rule_sim(vec![
        (at(10, 0, 0, 0), A_ID, "Uplink_Message_value:9,"),
        (at(10, 0, 0, 500), B_ID, "Uplink_Message_value:3,"),
    ]);
    sim.rule_execution().unwrap();
    assert_eq!(sim.get_event_list().events.len(), 2);
}

#[test]
fn message_of_unknown_sensor_is_a_config_error() {
    let mut sim = rule_sim(vec![(at(10, 0, 0, 0), "Message_of_7_x", "Uplink_Message_value:9,")]);
    assert_eq!(sim.rule_execution(), Err(SimError::ConfigError));
}

#[test]
fn counting_messages() {
    let mut sim = rule_sim(vec![
        (at(10, 0, 0, 0), A_ID, "Uplink_Message_value:15,"),
        (at(10, 0, 0, 500), B_ID, "Uplink_Message_value:3,"),
        (at(10, 5, 0, 0), A_ID, "Uplink_Message_value:16,"),
    ]);
    sim.event_list.add_event(Event::new("Movable_object_0_Creation".to_string(), at(7, 0, 0, 0), Events::Create(0)));
    sim.rule_execution().unwrap();
    sim.ending_simulation().unwrap();
    let e: &Evaluation = sim.get_evaluation();
    assert_eq!(e.get_downlink_messages(), 1);
    assert_eq!(e.get_uplink_messages(), 3);
    assert_eq!(e.get_downlink_uplink_messages_per_sensor_type(), &vec![(1u64, 3u64)]);
    assert!(e.get_simulation_ending() >= e.get_simulation_star_up());
    assert!(e.get_simulation_star_up() > 1_600_000_000_000);
}

#[test]
fn counting_needs_known_sensor_types() {
    let mut sim = rule_sim(vec![(at(10, 0, 0, 0), "Message_of_0_Sensor_0_no._0_of_type_SensorType_4", "Uplink_Message_value:1,")]);
    assert_eq!(sim.ending_simulation(), Err(SimError::ConfigError));
}

#[test]
fn nodes_and_edges_carry_sensors() {
    let ty = SensorType::new("SensorType_0".to_string(), "DevProf_1".to_string(), 60);
    let mut n = Node::new(5u8);
    n.add_sensors(vec![sensor(0, 0, &ty), sensor(0, 1, &ty)]);
    n.add_sensor(sensor(0, 2, &ty));
    let s = n.get_sensors();
    assert_eq!(s.iter().map(|x| x.get_number()).collect::<Vec<i64>>(), vec![0, 1, 2]);
    assert_eq!(*n.get_data(), 5u8);
    let mut e = Edge::new("door");
    e.add_sensor(sensor(0, 3, &ty));
    assert_eq!(e.get_sensors()[0].get_sensor_type().get_uplink_interval_in_sec(), 60);
    assert_eq!(*e.get_data(), "door");
    let mut x = sensor(0, 4, &ty);
    x.set_id("other".to_string());
    assert_eq!(x.get_id(), "other");
}

#[test]
fn start_up_runs_movement_then_uplinks() {
    let mut p: Parameters<(), ()> = Parameters::new(objects(2, 1));
    p.add_device_profile(600, None, Some(vec!["temp".to_string()])).unwrap();
    let ty = p.get_sensor_types()[0].clone();
    let mut s = line();
    s.nodes[1].add_sensor(sensor(1, 0, &ty));
    p.change_underlying_structure(s);
    p.set_number_of_sensors(1);
    let mut sim = Simulator::new(p);
    sim.start_up_simulation(10, &vec![0, 0], &vec![0, 0]).unwrap();
    let l = sim.get_event_list();
    assert_eq!(count(l, |a| matches!(a, Events::Create(_))), 2);
    assert_eq!(count(l, |a| matches!(a, Events::Delete(_))), 2);
    assert!(count(l, |a| matches!(a, Events::Message(_))) > 50);
    for w in l.events.windows(2) {
        assert!(w[0].time.millis <= w[1].time.millis);
    }
}

#[test]
fn mutable_access() {
    let mut sim: Simulator<(), ()> = Simulator::new(Parameters::new(objects(1, 0)));
    sim.get_parameters_mut().set_number_of_sensors(4);
    assert_eq!(sim.get_parameters().get_number_of_sensors(), 4);
    sim.get_event_list_mut().add_event(Event::new("e".to_string(), at(1, 0, 0, 0), Events::Move(0)));
    sim.get_event_list_mut().get_event_list_mut()[0].id = "f".to_string();
    assert_eq!(sim.get_event_list().events[0].get_id(), "f");
}

#[test]
fn uplink_reference_rule_is_refused_up_front() {
    let mut sim = rule_sim(vec![(at(10, 0, 0, 0), A_ID, "Uplink_Message_value:15,")]);
    let c = Rule::create_device_condition(B.to_string(), 1, 0, "==".to_string(), RefValue::UplinkRef(A.to_string(), 0));
    let mut rules = sim.get_parameters().get_rules().to_vec();
    rules.push(Rule::create_rule("U".to_string(), vec![Condition::Device(c)], vec![], vec![]));
    sim.get_parameters_mut().set_rule(rules);
    assert_eq!(sim.rule_execution(), Err(SimError::ConfigError));
    assert_eq!(sim.get_event_list().events.len(), 1);
}

#[test]
fn start_node_that_is_home_needs_no_walk() {
    let mut s = UnderlyingStructure::new(vec![Node::new(()), Node::new(())]);
    s.edges.push((0, 1, Edge::new(())));
    s.start_nodes.push(0);
    s.nodes_to_move_to.push(0);
    s.end_nodes.push(1);
    let mut p = Parameters::new(objects(1, 1));
    p.change_underlying_structure(s);
    let mut sim = Simulator::new(p);
    let list = sim.change_event_list_for_movement(0, &vec![0], &vec![0]).unwrap();
    assert_eq!(list.events.len(), sim.get_event_list().events.len());
    let moves: Vec<String> = list
        .events
        .iter()
        .filter(|e| matches!(e.action, Events::Move(_)))
        .map(|e| e.action.to_string())
        .collect();
    assert_eq!(moves, vec!["Move(0)", "Move(1)"]);
}

#[test]
fn movement_ids_are_unique() {
    let mut p = Parameters::new(objects(4, 3));
    p.change_underlying_structure(line());
    let mut sim = Simulator::new(p);
    let list = sim.change_event_list_for_movement(0, &vec![0, 1, 2, 3], &vec![0, 1, 2, 3]).unwrap();
    let mut ids: Vec<String> = list.events.iter().map(|e| e.id.clone()).collect();
    let n = ids.len();
    ids.sort();
    ids.dedup();
    assert_eq!(ids.len(), n);
    for i in 0..4 {
        let c = format!("Movable_object_{}_Creation", i);
        let e = list.events.iter().find(|e| e.id == c).unwrap();
        assert_eq!(e.action.to_string(), "Create(0)");
        let d = format!("Movable_object_{}_Deletion", i);
        let e = list.events.iter().find(|e| e.id == d).unwrap();
        assert_eq!(e.action.to_string(), "Delete(2)");
    }
}
