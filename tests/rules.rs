use sensor_sim::engine::{evaluate_rule, read_payload, SensorRecord};
use sensor_sim::error::SimError;
use sensor_sim::parameters::DeviceProfile;
use sensor_sim::rule::{
    fold_bool_values, parse_bool, parse_bool_ops, parse_i32, time_matches, text_lt, BoolOp,
    Condition, RefValue, Rule,
};
use sensor_sim::sensor::SensorType;
use sensor_sim::text::{parse_u64, u64_to_text};
use sensor_sim::time::TimeOfDay;

fn at(h: u32, m: u32) -> TimeOfDay {
    TimeOfDay::from_hms_milli(h, m, 0, 0).unwrap()
}

#[test]
fn xor_fold_is_left_associative() {
    let ops = parse_bool_ops(&vec!["^".to_string(), "^".to_string()]).unwrap();
    assert_eq!(ops, vec![BoolOp::Xor, BoolOp::Xor]);
    assert!(!fold_bool_values(&vec![true, false, true], &ops));
    let ops = parse_bool_ops(&vec!["|".to_string(), "&".to_string()]).unwrap();
    // (true | false) & false, with no precedence
    assert!(!fold_bool_values(&vec![true, false, false], &ops));
    assert!(parse_bool_ops(&vec!["and".to_string()]).is_none());
}

#[test]
fn wrap_around_time_window() {
    let c = Rule::create_time_condition(None, at(22, 0), at(2, 0));
    assert!(time_matches(&c, at(23, 30)));
    assert!(time_matches(&c, at(1, 0)));
    assert!(!time_matches(&c, at(12, 0)));
    let d = Rule::create_time_condition(None, at(12, 0), at(16, 0));
    assert!(time_matches(&d, at(15, 0)));
    assert!(!time_matches(&d, at(16, 0)));
}

#[test]
fn window_with_equal_ends_holds_nothing() {
    let c = Rule::create_time_condition(None, at(8, 0), at(8, 0));
    for h in 0..24 {
        assert!(!time_matches(&c, at(h, 0)));
        assert!(!time_matches(&c, at(h, 30)));
    }
}

#[test]
fn number_and_bool_reading() {
    assert_eq!(parse_i32("15"), Some(15));
    assert_eq!(parse_i32("-2147483648"), Some(i32::MIN));
    assert_eq!(parse_i32("+7"), Some(7));
    assert_eq!(parse_i32("2147483648"), None);
    assert_eq!(parse_i32("-"), None);
    assert_eq!(parse_i32("**"), None);
    assert_eq!(parse_bool("true"), Some(true));
    assert_eq!(parse_bool("True"), None);
    assert_eq!(parse_u64("18446744073709551615"), Some(u64::MAX));
    assert_eq!(parse_u64("18446744073709551616"), None);
    assert_eq!(u64_to_text(9071), "9071");
    assert!(text_lt("abc", "abd"));
    assert!(text_lt("ab", "abc"));
    assert!(!text_lt("b", "abc"));
}

#[test]
fn payload_reading() {
    let p = read_payload("Uplink_Message_temp:15,hum:3,", 1).unwrap();
    assert_eq!((p.0.as_str(), p.1.as_str()), ("hum", "3"));
    let p = read_payload("Uplink_Message_temp:15,", 0).unwrap();
    assert_eq!((p.0.as_str(), p.1.as_str()), ("temp", "15"));
    assert!(read_payload("Uplink_Message_dummy_message", 0).is_none());
}

fn profile() -> Vec<DeviceProfile> {
    vec![DeviceProfile::new(
        "DevProf_1".to_string(),
        Some(vec!["value".to_string()]),
        Some(vec!["OFF".to_string()]),
    )]
}

fn types() -> Vec<SensorType> {
    vec![SensorType::new("SensorType_0".to_string(), "DevProf_1".to_string(), 60)]
}

fn record(payload: &str, t: TimeOfDay) -> SensorRecord {
    SensorRecord { used_by: Vec::new(), last_time: t, payload: payload.to_string() }
}

const A: &str = "Sensor_0_no._0_of_type_SensorType_0";
const B: &str = "Sensor_1_no._1_of_type_SensorType_0";

fn two_sensor_rule() -> Rule {
    let a = Rule::create_device_condition(A.to_string(), 0, 0, ">".to_string(), RefValue::IntNumber(10));
    let b = Rule::create_device_condition(B.to_string(), 1, 0, "<".to_string(), RefValue::IntNumber(5));
    Rule::create_rule(
        "R".to_string(),
        vec![Condition::Device(a), Condition::Device(b)],
        vec!["&".to_string()],
        vec![Rule::create_device_action(A.to_string(), 0, vec![0])],
    )
}

#[test]
fn rule_fires_on_fresh_readings() {
    let rule = two_sensor_rule();
    let mut table = vec![
        record("Uplink_Message_value:15,", at(10, 0)),
        record("Uplink_Message_value:3,", at(10, 2)),
    ];
    let r = evaluate_rule(&rule, &types(), &profile(), &mut table);
    assert_eq!(r, Ok(Some(at(10, 2))));
    assert_eq!(table[0].used_by, vec!["R".to_string()]);
    assert_eq!(table[1].used_by, vec!["R".to_string()]);
    // the same readings do not fire the rule again
    assert_eq!(evaluate_rule(&rule, &types(), &profile(), &mut table), Ok(None));
}

#[test]
fn rule_waits_for_every_reading() {
    let rule = two_sensor_rule();
    let mut table = vec![record("Uplink_Message_value:15,", at(10, 0)), record("Ü_Ü", at(0, 0))];
    assert_eq!(evaluate_rule(&rule, &types(), &profile(), &mut table), Ok(None));
}

#[test]
fn rule_with_false_fold_does_not_fire() {
    let rule = two_sensor_rule();
    let mut table = vec![
        record("Uplink_Message_value:15,", at(10, 0)),
        record("Uplink_Message_value:8,", at(10, 0)),
    ];
    assert_eq!(evaluate_rule(&rule, &types(), &profile(), &mut table), Ok(None));
}

#[test]
fn rule_without_conditions_never_fires() {
    let rule = Rule::create_rule("Empty".to_string(), vec![], vec![], vec![]);
    let mut table = vec![record("Uplink_Message_value:15,", at(10, 0))];
    assert_eq!(evaluate_rule(&rule, &types(), &profile(), &mut table), Ok(None));
    assert!(rule.get_sensor_information_from_conditions().is_empty());
}

#[test]
fn malformed_reading_is_a_payload_error() {
    let rule = two_sensor_rule();
    let mut table = vec![
        record("Uplink_Message_value:hot,", at(10, 0)),
        record("Uplink_Message_value:3,", at(10, 0)),
    ];
    assert_eq!(
        evaluate_rule(&rule, &types(), &profile(), &mut table),
        Err(SimError::PayloadFormatError)
    );
}

#[test]
fn unknown_operator_is_a_config_error() {
    let a = Rule::create_device_condition(A.to_string(), 0, 0, "=>".to_string(), RefValue::IntNumber(10));
    let rule = Rule::create_rule("R".to_string(), vec![Condition::Device(a)], vec![], vec![]);
    let mut table = vec![record("Uplink_Message_value:15,", at(10, 0))];
    assert_eq!(evaluate_rule(&rule, &types(), &profile(), &mut table), Err(SimError::ConfigError));
}

#[test]
fn unknown_profile_is_a_lookup_error() {
    let rule = two_sensor_rule();
    let t = vec![SensorType::new("SensorType_0".to_string(), "DevProf_9".to_string(), 60)];
    let mut table = vec![
        record("Uplink_Message_value:15,", at(10, 0)),
        record("Uplink_Message_value:3,", at(10, 0)),
    ];
    assert_eq!(evaluate_rule(&rule, &t, &profile(), &mut table), Err(SimError::ProfileLookupError));
}

#[test]
fn string_and_bool_thresholds() {
    let p = vec![DeviceProfile::new(
        "DevProf_1".to_string(),
        Some(vec!["state".to_string()]),
        None,
    )];
    let c = Rule::create_device_condition(A.to_string(), 0, 0, "==".to_string(), RefValue::String("open".to_string()));
    let rule = Rule::create_rule("S".to_string(), vec![Condition::Device(c)], vec![], vec![]);
    let mut table = vec![record("Uplink_Message_state:open,", at(9, 0))];
    assert_eq!(evaluate_rule(&rule, &types(), &p, &mut table), Ok(Some(at(9, 0))));
    let c = Rule::create_device_condition(A.to_string(), 0, 0, "!=".to_string(), RefValue::Bool(true));
    let rule = Rule::create_rule("T".to_string(), vec![Condition::Device(c)], vec![], vec![]);
    let mut table = vec![record("Uplink_Message_state:false,", at(9, 0))];
    assert_eq!(evaluate_rule(&rule, &types(), &p, &mut table), Ok(Some(at(9, 0))));
}
