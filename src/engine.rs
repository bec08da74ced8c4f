//! Evaluating rules against the latest reading of each sensor.
use vstd::prelude::*;
use crate::error::SimError;
use crate::parameters::{DeviceProfile, downlink_message, downlink_text, profile_index, reported_uplink, reported_uplink_message, views};
use crate::rule::{
    Action,
    compare_spec, compare_with, fold_bool_values, fold_values, in_window, op_of, parse_bool,
    parse_bool_ops, parse_bool_spec, parse_i32, parse_i32_spec, text_less, text_lt, time_matches,
    BoolOp, Condition, DeviceCondition, RefValue, Rule, TimeCondition, required_sensors,
};
use crate::sensor::SensorType;
use crate::text::{dec, u64_to_text, find, find_text, parse_digits, parse_u64, piece, piece_text, strip_prefix, strip_prefix_text, same_text};
use crate::time::TimeOfDay;
use crate::event::{
    insert_position, is_time_ordered, list_view, view_insert_position, view_message, ActionView, Event,
    EventList, EventView, Events,
};
use crate::text::contains_text;

verus! {

/// The payload a sensor holds before its first message.
pub open spec fn no_reading() -> Seq<char> {
    seq!['Ü', '_', 'Ü']
}

/// The payload a sensor holds before its first message.
pub fn no_reading_text() -> (r: String)
    ensures
        r@ == no_reading(),
{
    let r = String::from_str("Ü_Ü");
    proof {
        reveal_strlit("Ü_Ü");
    }
    assert(r@ =~= no_reading());
    r
}

/// The latest reading of one sensor, and the rules that have used it.
#[derive(Clone, Debug)]
pub struct SensorRecord {
    pub used_by: Vec<String>,
    pub last_time: TimeOfDay,
    pub payload: String,
}

/// What a sensor record holds, as plain values.
pub struct RecordView {
    pub used_by: Seq<Seq<char>>,
    pub last_time: TimeOfDay,
    pub payload: Seq<char>,
}

impl SensorRecord {
    pub open spec fn view_record(&self) -> RecordView {
        RecordView {
            used_by: self.used_by@.map_values(|x: String| x@),
            last_time: self.last_time,
            payload: self.payload@,
        }
    }
}

/// The records of a table as plain values.
pub open spec fn table_view(t: Seq<SensorRecord>) -> Seq<RecordView> {
    t.map_values(|r: SensorRecord| r.view_record())
}

/// How a condition or a check came out.
#[derive(Clone, Copy, Debug, PartialEq, Eq, Structural)]
pub enum Outcome {
    /// The condition has this value.
    Holds(bool),
    /// The rule is not evaluated further this time.
    Skip,
    /// The evaluation fails.
    Fail(SimError),
}

/// The sensor-type number in a sensor id: the digits after the first
/// `SensorType_`, up to the end.
pub open spec fn sensor_type_index(id: Seq<char>) -> Option<nat> {
    match find(id, "SensorType_"@) {
        None => None,
        Some(i) => parse_digits(id.subrange(i as int + 11, id.len() as int)),
    }
}

/// Reads the sensor-type number out of a sensor id.
pub fn sensor_type_index_of(id: &str) -> (r: Option<u64>)
    ensures
        r.is_some() == sensor_type_index(id@).is_some(),
        r.is_some() ==> r.unwrap() as nat == sensor_type_index(id@).unwrap(),
{
    proof {
        reveal_strlit("SensorType_");
    }
    match find_text(id, "SensorType_") {
        None => None,
        Some(i) => {
            let n = id.unicode_len();
            assert("SensorType_"@.len() == 11);
            proof {
                crate::text::lemma_find_from(id@, "SensorType_"@, 0);
            }
            parse_u64(id.substring_char(i + 11, n))
        },
    }
}

/// The name and value of payload number `k` in an uplink
/// `Uplink_Message_<name>:<value>,...`; `None` where that payload is missing
/// or has no `:`.
pub open spec fn reading_of(payload: Seq<char>, k: nat) -> Option<(Seq<char>, Seq<char>)> {
    let body = strip_prefix(payload, "Uplink_Message_"@);
    match piece(body, ',', k) {
        None => None,
        Some(entry) => match (piece(entry, ':', 0), piece(entry, ':', 1)) {
            (Some(name), Some(value)) => Some((name, value)),
            _ => None,
        },
    }
}

/// Reads the name and value of payload number `k`.
pub fn read_payload(payload: &str, k: usize) -> (r: Option<(String, String)>)
    ensures
        r.is_some() == reading_of(payload@, k as nat).is_some(),
        r.is_some() ==> r.unwrap().0@ == reading_of(payload@, k as nat).unwrap().0 && r.unwrap().1@
            == reading_of(payload@, k as nat).unwrap().1,
{
    let body = strip_prefix_text(payload, "Uplink_Message_");
    match piece_text(body.as_str(), ',', k) {
        None => None,
        Some(entry) => {
            let name = piece_text(entry.as_str(), ':', 0);
            let value = piece_text(entry.as_str(), ':', 1);
            match (name, value) {
                (Some(n), Some(v)) => Some((n, v)),
                _ => None,
            }
        },
    }
}

/// What comparing a reading `value` with `threshold` by `op` gives: an
/// unknown operator or a threshold that no comparison supports is a
/// configuration error, a value that does not read as the threshold's type a
/// payload error.
pub open spec fn value_outcome(threshold: RefValue, op: Seq<char>, value: Seq<char>) -> Outcome {
    if compare_spec(op, false, false).is_none() {
        Outcome::Fail(SimError::ConfigError)
    } else {
        match threshold {
            RefValue::IntNumber(t) => match parse_i32_spec(value) {
                None => Outcome::Fail(SimError::PayloadFormatError),
                Some(v) => Outcome::Holds(compare_spec(op, v < t, v == t).unwrap()),
            },
            RefValue::Bool(t) => match parse_bool_spec(value) {
                None => Outcome::Fail(SimError::PayloadFormatError),
                Some(v) => Outcome::Holds(compare_spec(op, !v && t, v == t).unwrap()),
            },
            RefValue::String(t) => Outcome::Holds(
                compare_spec(op, text_less(value, t@), value == t@).unwrap(),
            ),
            RefValue::UplinkRef(_, _) => Outcome::Fail(SimError::ConfigError),
        }
    }
}

/// Compares a reading with a threshold.
pub fn compare_value(threshold: &RefValue, op: &str, value: &str) -> (r: Outcome)
    ensures
        r == value_outcome(*threshold, op@, value@),
{
    if compare_with(op, false, false).is_none() {
        return Outcome::Fail(SimError::ConfigError);
    }
    match threshold {
        RefValue::IntNumber(t) => match parse_i32(value) {
            None => Outcome::Fail(SimError::PayloadFormatError),
            Some(v) => Outcome::Holds(compare_with(op, v < *t, v == *t).unwrap()),
        },
        RefValue::Bool(t) => match parse_bool(value) {
            None => Outcome::Fail(SimError::PayloadFormatError),
            Some(v) => Outcome::Holds(compare_with(op, !v && *t, v == *t).unwrap()),
        },
        RefValue::String(t) => {
            let lt = text_lt(value, t.as_str());
            let eq = same_text(value, t.as_str());
            Outcome::Holds(compare_with(op, lt, eq).unwrap())
        },
        RefValue::UplinkRef(_, _) => Outcome::Fail(SimError::ConfigError),
    }
}

/// What a device condition gives against the sensor table.
pub open spec fn device_outcome(
    c: DeviceCondition,
    types: Seq<SensorType>,
    profiles: Seq<DeviceProfile>,
    table: Seq<RecordView>,
) -> Outcome {
    match sensor_type_index(c.sensor_id@) {
        None => Outcome::Fail(SimError::ConfigError),
        Some(k) => if k >= types.len() {
            Outcome::Fail(SimError::ConfigError)
        } else {
            match profile_index(profiles, types[k as int].device_profile_id@) {
                None => Outcome::Fail(SimError::ProfileLookupError),
                Some(p) => match profiles[p as int].uplink {
                    None => Outcome::Skip,
                    Some(names) => if c.payload_index >= names@.len() {
                        Outcome::Fail(SimError::ConfigError)
                    } else if c.sensor_number < 0 || c.sensor_number >= table.len() {
                        Outcome::Fail(SimError::ConfigError)
                    } else {
                        match reading_of(
                            table[c.sensor_number as int].payload,
                            c.payload_index as nat,
                        ) {
                            None => Outcome::Fail(SimError::PayloadFormatError),
                            Some((name, value)) => if name != names@[c.payload_index as int]@ {
                                Outcome::Skip
                            } else {
                                value_outcome(c.threshold, c.operator@, value)
                            },
                        }
                    },
                },
            }
        },
    }
}

/// Evaluates a device condition against the sensor table.
pub fn device_condition_outcome(
    c: &DeviceCondition,
    types: &Vec<SensorType>,
    profiles: &Vec<DeviceProfile>,
    table: &Vec<SensorRecord>,
) -> (r: Outcome)
    ensures
        r == device_outcome(*c, types@, profiles@, table_view(table@)),
{
    let k = match sensor_type_index_of(c.sensor_id.as_str()) {
        None => {
            return Outcome::Fail(SimError::ConfigError);
        },
        Some(k) => k,
    };
    if k >= types.len() as u64 {
        return Outcome::Fail(SimError::ConfigError);
    }
    let p = match find_profile(profiles, types[k as usize].device_profile_id.as_str()) {
        None => {
            return Outcome::Fail(SimError::ProfileLookupError);
        },
        Some(p) => p,
    };
    proof {
        crate::parameters::lemma_profile_index_bound(profiles@, types@[k as int].device_profile_id@);
    }
    match &profiles[p].uplink {
        None => Outcome::Skip,
        Some(names) => {
            if c.payload_index >= names.len() {
                return Outcome::Fail(SimError::ConfigError);
            }
            if c.sensor_number < 0 || c.sensor_number as u64 >= table.len() as u64 {
                return Outcome::Fail(SimError::ConfigError);
            }
            let n = c.sensor_number as usize;
            match read_payload(table[n].payload.as_str(), c.payload_index) {
                None => Outcome::Fail(SimError::PayloadFormatError),
                Some((name, value)) => {
                    if !same_text(name.as_str(), names[c.payload_index].as_str()) {
                        Outcome::Skip
                    } else {
                        compare_value(&c.threshold, c.operator.as_str(), value.as_str())
                    }
                },
            }
        },
    }
}

/// The index of the first profile with the given id.
pub fn find_profile(profiles: &Vec<DeviceProfile>, id: &str) -> (r: Option<usize>)
    ensures
        r.is_some() == profile_index(profiles@, id@).is_some(),
        r.is_some() ==> r.unwrap() as nat == profile_index(profiles@, id@).unwrap(),
{
    let mut i: usize = 0;
    while i < profiles.len()
        invariant
            i <= profiles@.len(),
            profile_index(profiles@.subrange(0, i as int), id@) is None,
        decreases profiles@.len() - i,
    {
        assert(profiles@.subrange(0, i + 1).drop_last() =~= profiles@.subrange(0, i as int));
        if same_text(profiles[i].id.as_str(), id) {
            proof {
                crate::parameters::lemma_profile_index_found(profiles@, id@, i as int + 1);
            }
            return Some(i);
        }
        i = i + 1;
    }
    assert(profiles@.subrange(0, i as int) =~= profiles@);
    None
}

/// A time condition holds where one of the times lies in its window; the
/// rule is skipped otherwise.
pub open spec fn time_outcome(c: TimeCondition, times: Seq<TimeOfDay>) -> Outcome {
    if exists|i: int|
        0 <= i < times.len() && in_window(
            c.timespan_start.millis,
            c.timespan_end.millis,
            #[trigger] times[i].millis,
        ) {
        Outcome::Holds(true)
    } else {
        Outcome::Skip
    }
}

/// Evaluates a time condition on the reading times.
pub fn time_condition_outcome(c: &TimeCondition, times: &Vec<TimeOfDay>) -> (r: Outcome)
    ensures
        r == time_outcome(*c, times@),
{
    let mut i: usize = 0;
    while i < times.len()
        invariant
            i <= times@.len(),
            forall|k: int|
                0 <= k < i ==> !in_window(
                    c.timespan_start.millis,
                    c.timespan_end.millis,
                    #[trigger] times@[k].millis,
                ),
        decreases times@.len() - i,
    {
        if time_matches(c, times[i]) {
            return Outcome::Holds(true);
        }
        i = i + 1;
    }
    Outcome::Skip
}

/// What a condition gives.
pub open spec fn condition_outcome(
    c: Condition,
    types: Seq<SensorType>,
    profiles: Seq<DeviceProfile>,
    table: Seq<RecordView>,
    times: Seq<TimeOfDay>,
) -> Outcome {
    match c {
        Condition::Device(d) => device_outcome(d, types, profiles, table),
        Condition::Time(t) => time_outcome(t, times),
    }
}

/// The values of the conditions in order, `Ok(None)` where one of them skips
/// the rule, or the error of the first that fails.
pub open spec fn conditions_outcome(
    cs: Seq<Condition>,
    types: Seq<SensorType>,
    profiles: Seq<DeviceProfile>,
    table: Seq<RecordView>,
    times: Seq<TimeOfDay>,
) -> Result<Option<Seq<bool>>, SimError>
    decreases cs.len(),
{
    if cs.len() == 0 {
        Ok(Some(Seq::empty()))
    } else {
        match conditions_outcome(cs.drop_last(), types, profiles, table, times) {
            Ok(Some(values)) => match condition_outcome(cs.last(), types, profiles, table, times) {
                Outcome::Holds(b) => Ok(Some(values.push(b))),
                Outcome::Skip => Ok(None),
                Outcome::Fail(e) => Err(e),
            },
            other => other,
        }
    }
}

/// Whether `s` holds a text equal to `t`.
pub open spec fn holds_text(s: Seq<String>, t: Seq<char>) -> bool {
    exists|i: int| 0 <= i < s.len() && (#[trigger] s[i])@ == t
}

/// Freshness: the reading times of the sensors a rule reads, in
/// order; `Ok(None)` where one of them has no reading yet or has already
/// been used by the rule; a configuration error for a sensor number out of
/// range.
pub open spec fn fresh_times(
    required: Seq<(Seq<char>, i64)>,
    table: Seq<RecordView>,
    rule_id: Seq<char>,
) -> Result<Option<Seq<TimeOfDay>>, SimError>
    decreases required.len(),
{
    if required.len() == 0 {
        Ok(Some(Seq::empty()))
    } else {
        match fresh_times(required.drop_last(), table, rule_id) {
            Ok(Some(times)) => {
                let n = required.last().1;
                if n < 0 || n >= table.len() {
                    Err(SimError::ConfigError)
                } else if table[n as int].used_by.contains(rule_id) || table[n as int].payload
                    == no_reading() {
                    Ok(None)
                } else {
                    Ok(Some(times.push(table[n as int].last_time)))
                }
            },
            other => other,
        }
    }
}

/// The latest of a non-empty list of times.
pub open spec fn latest(times: Seq<TimeOfDay>) -> TimeOfDay
    decreases times.len(),
{
    if times.len() <= 1 {
        times[0]
    } else if latest(times.drop_last()).millis >= times.last().millis {
        latest(times.drop_last())
    } else {
        times.last()
    }
}

/// What evaluating a rule against the sensor table gives: `Ok(Some(t))`
/// where it fires, `t` being the latest reading time of the sensors it reads;
/// `Ok(None)` where it does not.
pub open spec fn rule_outcome(
    rule: Rule,
    types: Seq<SensorType>,
    profiles: Seq<DeviceProfile>,
    table: Seq<RecordView>,
) -> Result<Option<TimeOfDay>, SimError> {
    match fresh_times(required_sensors(rule.conditions@), table, rule.id@) {
        Err(e) => Err(e),
        Ok(None) => Ok(None),
        Ok(Some(times)) => match conditions_outcome(rule.conditions@, types, profiles, table, times) {
            Err(e) => Err(e),
            Ok(None) => Ok(None),
            Ok(Some(values)) => {
                if exists|i: int| 0 <= i < rule.bool_ops@.len() && op_of(#[trigger] rule.bool_ops@[i]@) is None {
                    Err(SimError::ConfigError)
                } else if values.len() == 0 {
                    Ok(None)
                } else if rule.bool_ops@.len() + 1 < values.len() {
                    Err(SimError::ConfigError)
                } else if !fold_values(values, rule.bool_ops@.map_values(|s: String| op_of(s@).unwrap())) {
                    Ok(None)
                } else if times.len() == 0 {
                    Ok(None)
                } else {
                    Ok(Some(latest(times)))
                }
            },
        },
    }
}

/// Whether a list of texts holds one equal to `t`.
pub fn contains_text_item(s: &Vec<String>, t: &str) -> (r: bool)
    ensures
        r == holds_text(s@, t@),
{
    let mut i: usize = 0;
    while i < s.len()
        invariant
            i <= s@.len(),
            forall|k: int| 0 <= k < i ==> (#[trigger] s@[k])@ != t@,
        decreases s@.len() - i,
    {
        if same_text(s[i].as_str(), t) {
            return true;
        }
        i = i + 1;
    }
    false
}

/// A list of texts holds `t` exactly where its views do.
pub proof fn lemma_holds_text_view(s: Seq<String>, t: Seq<char>)
    ensures
        holds_text(s, t) == s.map_values(|x: String| x@).contains(t),
{
    let v = s.map_values(|x: String| x@);
    if holds_text(s, t) {
        let i = choose|i: int| 0 <= i < s.len() && (#[trigger] s[i])@ == t;
        assert(v[i] == t);
    }
    if v.contains(t) {
        let i = choose|i: int| 0 <= i < v.len() && v[i] == t;
        assert(s[i]@ == t);
    }
}

/// Checks that the readings a rule needs are fresh; `required` is what
/// `get_sensor_information_from_conditions` gave.
pub fn check_freshness(rule: &Rule, required: &Vec<(String, i64)>, table: &Vec<SensorRecord>) -> (r:
    Result<Option<Vec<TimeOfDay>>, SimError>)
    requires
        required@.len() == required_sensors(rule.conditions@).len(),
        forall|i: int|
            0 <= i < required@.len() ==> (#[trigger] required@[i]).1 == required_sensors(
                rule.conditions@,
            )[i].1,
    ensures
        ({
            let g = fresh_times(required_sensors(rule.conditions@), table_view(table@), rule.id@);
            match r {
                Err(e) => g == Err::<Option<Seq<TimeOfDay>>, SimError>(e),
                Ok(None) => g == Ok::<Option<Seq<TimeOfDay>>, SimError>(None),
                Ok(Some(v)) => g == Ok::<Option<Seq<TimeOfDay>>, SimError>(Some(v@)),
            }
        }),
{
    let ghost req = required_sensors(rule.conditions@);
    let ghost tv = table_view(table@);
    let mut times: Vec<TimeOfDay> = Vec::new();
    let mut i: usize = 0;
    while i < required.len()
        invariant
            i <= required@.len(),
            required@.len() == req.len(),
            req == required_sensors(rule.conditions@),
            tv == table_view(table@),
            forall|k: int| 0 <= k < required@.len() ==> (#[trigger] required@[k]).1 == req[k].1,
            fresh_times(req.subrange(0, i as int), tv, rule.id@) == Ok::<
                Option<Seq<TimeOfDay>>,
                SimError,
            >(Some(times@)),
        decreases required@.len() - i,
    {
        assert(req.subrange(0, i + 1).drop_last() =~= req.subrange(0, i as int));
        assert(req.subrange(0, i + 1).last() == req[i as int]);
        let n = required[i].1;
        if n < 0 || n as u64 >= table.len() as u64 {
            proof {
                lemma_fresh_times_stop(req, tv, rule.id@, i as int + 1);
            }
            return Err(SimError::ConfigError);
        }
        let rec = &table[n as usize];
        proof {
            lemma_holds_text_view(rec.used_by@, rule.id@);
            reveal_strlit("Ü_Ü");
            assert("Ü_Ü"@ =~= no_reading());
            assert(tv[n as int] == rec.view_record());
        }
        if contains_text_item(&rec.used_by, rule.id.as_str()) || same_text(
            rec.payload.as_str(),
            "Ü_Ü",
        ) {
            proof {
                lemma_fresh_times_stop(req, tv, rule.id@, i as int + 1);
            }
            return Ok(None);
        }
        times.push(rec.last_time);
        i = i + 1;
    }
    assert(req.subrange(0, i as int) =~= req);
    Ok(Some(times))
}

proof fn lemma_fresh_times_stop(
    req: Seq<(Seq<char>, i64)>,
    table: Seq<RecordView>,
    rule_id: Seq<char>,
    k: int,
)
    requires
        0 <= k <= req.len(),
        !(fresh_times(req.subrange(0, k), table, rule_id) is Ok && fresh_times(
            req.subrange(0, k),
            table,
            rule_id,
        ).unwrap() is Some),
    ensures
        fresh_times(req, table, rule_id) == fresh_times(req.subrange(0, k), table, rule_id),
    decreases req.len() - k,
{
    if k < req.len() {
        assert(req.subrange(0, k + 1).drop_last() =~= req.subrange(0, k));
        lemma_fresh_times_stop(req, table, rule_id, k + 1);
    } else {
        assert(req.subrange(0, k) =~= req);
    }
}

/// Where the conditions end early on the first `k`, their outcome on all of
/// them is that one, and no later condition is evaluated.
proof fn lemma_conditions_stop(
    cs: Seq<Condition>,
    types: Seq<SensorType>,
    profiles: Seq<DeviceProfile>,
    table: Seq<RecordView>,
    times: Seq<TimeOfDay>,
    k: int,
)
    requires
        0 <= k <= cs.len(),
        !(conditions_outcome(cs.subrange(0, k), types, profiles, table, times) is Ok
            && conditions_outcome(cs.subrange(0, k), types, profiles, table, times).unwrap() is Some),
    ensures
        conditions_outcome(cs, types, profiles, table, times) == conditions_outcome(
            cs.subrange(0, k),
            types,
            profiles,
            table,
            times,
        ),
        used_numbers(cs, types, profiles, table, times) == used_numbers(
            cs.subrange(0, k),
            types,
            profiles,
            table,
            times,
        ),
    decreases cs.len() - k,
{
    if k < cs.len() {
        assert(cs.subrange(0, k + 1).drop_last() =~= cs.subrange(0, k));
        lemma_conditions_stop(cs, types, profiles, table, times, k + 1);
    } else {
        assert(cs.subrange(0, k) =~= cs);
    }
}

/// The sensor numbers of the required sensors.
pub open spec fn required_numbers(cs: Seq<Condition>) -> Seq<i64> {
    required_sensors(cs).map_values(|p: (Seq<char>, i64)| p.1)
}

/// The sensor numbers of the device conditions that were evaluated to a
/// value, in order, up to where the conditions stop.
pub open spec fn used_numbers(
    cs: Seq<Condition>,
    types: Seq<SensorType>,
    profiles: Seq<DeviceProfile>,
    table: Seq<RecordView>,
    times: Seq<TimeOfDay>,
) -> Seq<int>
    decreases cs.len(),
{
    if cs.len() == 0 {
        Seq::empty()
    } else {
        let before = used_numbers(cs.drop_last(), types, profiles, table, times);
        match conditions_outcome(cs.drop_last(), types, profiles, table, times) {
            Ok(Some(_)) => match cs.last() {
                Condition::Device(d) => if device_outcome(d, types, profiles, table) is Holds {
                    before.push(d.sensor_number as int)
                } else {
                    before
                },
                Condition::Time(_) => before,
            },
            _ => before,
        }
    }
}

/// Evaluates the conditions of a rule in order. Also gives the sensor number
/// of each device condition that was evaluated to a value, in order; where
/// all conditions give values, these are the numbers of all sensors the rule
/// reads.
pub fn evaluate_conditions(
    rule: &Rule,
    types: &Vec<SensorType>,
    profiles: &Vec<DeviceProfile>,
    table: &Vec<SensorRecord>,
    times: &Vec<TimeOfDay>,
) -> (r: (Result<Option<Vec<bool>>, SimError>, Vec<usize>))
    ensures
        ({
            let c = conditions_outcome(rule.conditions@, types@, profiles@, table_view(table@), times@);
            match r.0 {
                Err(e) => c == Err::<Option<Seq<bool>>, SimError>(e),
                Ok(None) => c == Ok::<Option<Seq<bool>>, SimError>(None),
                Ok(Some(v)) => c == Ok::<Option<Seq<bool>>, SimError>(Some(v@)),
            }
        }),
        forall|k: int| 0 <= k < r.1@.len() ==> (#[trigger] r.1@[k]) < table@.len(),
        r.1@.map_values(|x: usize| x as int) == used_numbers(
            rule.conditions@,
            types@,
            profiles@,
            table_view(table@),
            times@,
        ),
        r.0 matches Ok(Some(_)) ==> r.1@.len() == required_numbers(rule.conditions@).len()
            && forall|k: int|
            0 <= k < r.1@.len() ==> (#[trigger] r.1@[k]) as int == required_numbers(
                rule.conditions@,
            )[k],
{
    let ghost cs = rule.conditions@;
    let ghost tv = table_view(table@);
    let mut values: Vec<bool> = Vec::new();
    let mut used: Vec<usize> = Vec::new();
    let mut i: usize = 0;
    while i < rule.conditions.len()
        invariant
            cs == rule.conditions@,
            tv == table_view(table@),
            i <= cs.len(),
            conditions_outcome(cs.subrange(0, i as int), types@, profiles@, tv, times@)
                == Ok::<Option<Seq<bool>>, SimError>(Some(values@)),
            forall|k: int| 0 <= k < used@.len() ==> (#[trigger] used@[k]) < table@.len(),
            used@.map_values(|x: usize| x as int) == used_numbers(
                cs.subrange(0, i as int),
                types@,
                profiles@,
                tv,
                times@,
            ),
            used@.len() == required_numbers(cs.subrange(0, i as int)).len(),
            forall|k: int|
                0 <= k < used@.len() ==> (#[trigger] used@[k]) as int == required_numbers(
                    cs.subrange(0, i as int),
                )[k],
        decreases cs.len() - i,
    {
        let ghost pre = cs.subrange(0, i as int);
        let ghost next = cs.subrange(0, i + 1);
        assert(next.drop_last() =~= pre);
        assert(next.last() == cs[i as int]);
        let outcome = match &rule.conditions[i] {
            Condition::Device(d) => device_condition_outcome(d, types, profiles, table),
            Condition::Time(t) => time_condition_outcome(t, times),
        };
        match outcome {
            Outcome::Holds(b) => {
                values.push(b);
                let ghost u0 = used@;
                match &rule.conditions[i] {
                    Condition::Device(d) => {
                        let tlen = table.len();
                        assert(0 <= d.sensor_number < tlen);
                        let sn: usize = d.sensor_number as usize;
                        assert(sn as int == d.sensor_number);
                        used.push(sn);
                        assert(used@.map_values(|x: usize| x as int) =~= u0.map_values(
                            |x: usize| x as int,
                        ).push(d.sensor_number as int));
                    },
                    Condition::Time(_) => {},
                }
                assert(required_numbers(next) =~= (match cs[i as int] {
                    Condition::Device(d) => required_numbers(pre).push(d.sensor_number),
                    Condition::Time(_) => required_numbers(pre),
                }));
            },
            Outcome::Skip => {
                proof {
                    lemma_conditions_stop(cs, types@, profiles@, tv, times@, i + 1);
                }
                return (Ok(None), used);
            },
            Outcome::Fail(e) => {
                proof {
                    lemma_conditions_stop(cs, types@, profiles@, tv, times@, i + 1);
                }
                return (Err(e), used);
            },
        }
        i = i + 1;
    }
    assert(cs.subrange(0, i as int) =~= cs);
    (Ok(Some(values)), used)
}

/// The latest of a non-empty list of times (the first of equal ones).
pub fn latest_time(times: &Vec<TimeOfDay>) -> (r: TimeOfDay)
    requires
        times@.len() >= 1,
    ensures
        r == latest(times@),
{
    let mut best = times[0];
    let mut i: usize = 1;
    assert(times@.subrange(0, 1).len() == 1);
    while i < times.len()
        invariant
            1 <= i <= times@.len(),
            best == latest(times@.subrange(0, i as int)),
        decreases times@.len() - i,
    {
        assert(times@.subrange(0, i + 1).drop_last() =~= times@.subrange(0, i as int));
        if times[i].millis > best.millis {
            best = times[i];
        }
        i = i + 1;
    }
    assert(times@.subrange(0, i as int) =~= times@);
    best
}

/// The table with rule `id` recorded as a user of each sensor in `used`, in
/// order.
pub open spec fn add_uses(t: Seq<RecordView>, used: Seq<int>, id: Seq<char>) -> Seq<RecordView>
    decreases used.len(),
{
    if used.len() == 0 {
        t
    } else {
        let t2 = add_uses(t, used.drop_last(), id);
        let n = used.last();
        t2.update(
            n,
            RecordView { used_by: t2[n].used_by.push(id), last_time: t2[n].last_time, payload: t2[n].payload },
        )
    }
}

/// Recording uses keeps the readings, and each listed sensor ends up used by
/// the rule.
pub proof fn lemma_add_uses(t: Seq<RecordView>, used: Seq<int>, id: Seq<char>)
    requires
        forall|k: int| 0 <= k < used.len() ==> 0 <= #[trigger] used[k] < t.len(),
    ensures
        add_uses(t, used, id).len() == t.len(),
        forall|n: int|
            0 <= n < t.len() ==> (#[trigger] add_uses(t, used, id)[n]).last_time == t[n].last_time
                && add_uses(t, used, id)[n].payload == t[n].payload,
        forall|n: int|
            0 <= n < t.len() && t[n].used_by.contains(id) ==> (#[trigger] add_uses(
                t,
                used,
                id,
            )[n]).used_by.contains(id),
        forall|k: int|
            0 <= k < used.len() ==> add_uses(t, used, id)[#[trigger] used[k]].used_by.contains(id),
    decreases used.len(),
{
    if used.len() > 0 {
        let u = used.drop_last();
        lemma_add_uses(t, u, id);
        let t2 = add_uses(t, u, id);
        let n = used.last();
        let r = add_uses(t, used, id);
        assert(r[n].used_by == t2[n].used_by.push(id));
        assert(r[n].used_by[r[n].used_by.len() - 1] == id);
        assert forall|m: int| 0 <= m < t.len() && t[m].used_by.contains(id) implies (
        #[trigger] r[m]).used_by.contains(id) by {
            assert(t2[m].used_by.contains(id));
            if m == n {
                let q = choose|q: int| 0 <= q < t2[m].used_by.len() && t2[m].used_by[q] == id;
                assert(r[m].used_by[q] == id);
            }
        }
        assert forall|k: int| 0 <= k < used.len() implies r[#[trigger] used[k]].used_by.contains(id) by {
            if used[k] != n {
                assert(u[k] == used[k]);
                assert(t2[used[k]].used_by.contains(id));
            }
        }
    }
}

/// Records the rule `id` as a user of each listed sensor.
pub fn record_use(table: &mut Vec<SensorRecord>, used: &Vec<usize>, id: &String)
    requires
        forall|k: int| 0 <= k < used@.len() ==> (#[trigger] used@[k]) < old(table)@.len(),
    ensures
        final(table)@.len() == old(table)@.len(),
        table_view(final(table)@) == add_uses(
            table_view(old(table)@),
            used@.map_values(|x: usize| x as int),
            id@,
        ),
{
    let ghost start = table_view(table@);
    let mut k: usize = 0;
    while k < used.len()
        invariant
            k <= used@.len(),
            table@.len() == start.len(),
            start.len() == old(table)@.len(),
            start == table_view(old(table)@),
            forall|j: int| 0 <= j < used@.len() ==> (#[trigger] used@[j]) < start.len(),
            table_view(table@) == add_uses(
                start,
                used@.subrange(0, k as int).map_values(|x: usize| x as int),
                id@,
            ),
        decreases used@.len() - k,
    {
        let n = used[k];
        let ghost before = table_view(table@);
        table[n].used_by.push(id.clone());
        proof {
            let pre = used@.subrange(0, k as int).map_values(|x: usize| x as int);
            let next = used@.subrange(0, k + 1).map_values(|x: usize| x as int);
            assert(next.drop_last() =~= pre);
            assert(next.last() == n as int);
            assert(table@[n as int].used_by@.map_values(|x: String| x@) =~= before[n as int].used_by.push(id@));
            assert(table_view(table@) =~= add_uses(start, next, id@));
        }
        k = k + 1;
    }
    assert(used@.subrange(0, k as int) =~= used@);
}

/// Where the readings are fresh, the sensors named are in range,
/// have a reading, and have not been used by the rule; the times given
/// are their reading times.
pub proof fn lemma_fresh_times_ok(req: Seq<(Seq<char>, i64)>, table: Seq<RecordView>, id: Seq<char>)
    requires
        fresh_times(req, table, id) matches Ok(Some(_)),
    ensures
        fresh_times(req, table, id).unwrap().unwrap().len() == req.len(),
        forall|j: int|
            0 <= j < req.len() ==> {
                let n = (#[trigger] req[j]).1;
                &&& 0 <= n < table.len()
                &&& fresh_times(req, table, id).unwrap().unwrap()[j] == table[n as int].last_time
                &&& !table[n as int].used_by.contains(id)
                &&& table[n as int].payload != no_reading()
            },
    decreases req.len(),
{
    if req.len() > 0 {
        lemma_fresh_times_ok(req.drop_last(), table, id);
        assert forall|j: int| 0 <= j < req.len() - 1 implies req[j] == req.drop_last()[j] by {}
    }
}

/// The latest of a list of times is one of them.
pub proof fn lemma_latest_in(times: Seq<TimeOfDay>)
    requires
        times.len() >= 1,
    ensures
        exists|j: int| 0 <= j < times.len() && times[j] == latest(times),
    decreases times.len(),
{
    if times.len() > 1 {
        lemma_latest_in(times.drop_last());
        let j = choose|j: int| 0 <= j < times.len() - 1 && times.drop_last()[j] == latest(times.drop_last());
        if latest(times.drop_last()).millis >= times.last().millis {
            assert(times[j] == latest(times));
        } else {
            assert(times[times.len() - 1] == latest(times));
        }
    } else {
        assert(times[0] == latest(times));
    }
}

/// Where a rule fires, its firing time is the reading time of one of the
/// sensors it reads, and that sensor has a reading.
pub proof fn lemma_latest_is_reading(
    rule: Rule,
    types: Seq<SensorType>,
    profiles: Seq<DeviceProfile>,
    table: Seq<RecordView>,
)
    requires
        rule_outcome(rule, types, profiles, table) matches Ok(Some(_)),
    ensures
        exists|n: int|
            0 <= n < table.len() && table[n].payload != no_reading() && table[n].last_time
                == rule_outcome(rule, types, profiles, table).unwrap().unwrap(),
{
    let req = required_sensors(rule.conditions@);
    lemma_fresh_times_ok(req, table, rule.id@);
    let times = fresh_times(req, table, rule.id@).unwrap().unwrap();
    lemma_latest_in(times);
    let j = choose|j: int| 0 <= j < times.len() && times[j] == latest(times);
    let n = req[j].1;
    assert(times[j] == table[n as int].last_time);
}

/// The sensors that conditions evaluated to a value are in the table.
proof fn lemma_used_in_range(
    cs: Seq<Condition>,
    types: Seq<SensorType>,
    profiles: Seq<DeviceProfile>,
    table: Seq<RecordView>,
    times: Seq<TimeOfDay>,
)
    ensures
        forall|k: int|
            0 <= k < used_numbers(cs, types, profiles, table, times).len() ==> 0 <= #[trigger] used_numbers(
                cs,
                types,
                profiles,
                table,
                times,
            )[k] < table.len(),
    decreases cs.len(),
{
    if cs.len() > 0 {
        lemma_used_in_range(cs.drop_last(), types, profiles, table, times);
        let before = used_numbers(cs.drop_last(), types, profiles, table, times);
        let u = used_numbers(cs, types, profiles, table, times);
        if conditions_outcome(cs.drop_last(), types, profiles, table, times) matches Ok(Some(_)) {
            match cs.last() {
                Condition::Device(d) => {
                    if device_outcome(d, types, profiles, table) is Holds {
                        assert(0 <= d.sensor_number < table.len());
                        assert(u == before.push(d.sensor_number as int));
                        assert forall|k: int| 0 <= k < u.len() implies 0 <= #[trigger] u[k] < table.len() by {
                            if k < before.len() {
                                assert(u[k] == before[k]);
                            }
                        }
                    }
                },
                Condition::Time(_) => {},
            }
        }
    }
}

/// Evaluating a rule changes no reading or reading time, only who used it.
pub proof fn lemma_rule_table_keeps(
    rule: Rule,
    types: Seq<SensorType>,
    profiles: Seq<DeviceProfile>,
    table: Seq<RecordView>,
)
    ensures
        rule_table(rule, types, profiles, table).len() == table.len(),
        forall|n: int|
            0 <= n < table.len() ==> (#[trigger] rule_table(rule, types, profiles, table)[n]).last_time
                == table[n].last_time && rule_table(rule, types, profiles, table)[n].payload
                == table[n].payload,
{
    let g = fresh_times(required_sensors(rule.conditions@), table, rule.id@);
    if g is Ok && g.unwrap() is Some {
        let times = g.unwrap().unwrap();
        lemma_used_in_range(rule.conditions@, types, profiles, table, times);
        lemma_add_uses(table, used_numbers(rule.conditions@, types, profiles, table, times), rule.id@);
    }
}

/// The table after evaluating a rule: where its readings are fresh,
/// the rule is recorded as a user of each sensor whose condition was
/// evaluated to a value.
pub open spec fn rule_table(
    rule: Rule,
    types: Seq<SensorType>,
    profiles: Seq<DeviceProfile>,
    table: Seq<RecordView>,
) -> Seq<RecordView> {
    match fresh_times(required_sensors(rule.conditions@), table, rule.id@) {
        Ok(Some(times)) => add_uses(
            table,
            used_numbers(rule.conditions@, types, profiles, table, times),
            rule.id@,
        ),
        _ => table,
    }
}

/// Evaluates a rule against the sensor table, recording the rule as a user
/// of each sensor whose condition it evaluated. Gives the firing time where
/// the rule fires.
pub fn evaluate_rule(
    rule: &Rule,
    types: &Vec<SensorType>,
    profiles: &Vec<DeviceProfile>,
    table: &mut Vec<SensorRecord>,
) -> (r: Result<Option<TimeOfDay>, SimError>)
    ensures
        r == rule_outcome(*rule, types@, profiles@, table_view(old(table)@)),
        final(table)@.len() == old(table)@.len(),
        table_view(final(table)@) == rule_table(*rule, types@, profiles@, table_view(old(table)@)),
        r matches Ok(Some(_)) ==> rule.conditions@.len() > 0 && forall|j: int|
            0 <= j < required_numbers(rule.conditions@).len() ==> {
                let n = #[trigger] required_numbers(rule.conditions@)[j];
                &&& 0 <= n < old(table)@.len()
                &&& table_view(old(table)@)[n as int].payload != no_reading()
                &&& !table_view(old(table)@)[n as int].used_by.contains(rule.id@)
                &&& table_view(final(table)@)[n as int].used_by.contains(rule.id@)
            },
{
    let ghost start = table_view(table@);
    let ghost req = required_sensors(rule.conditions@);
    let required = rule.get_sensor_information_from_conditions();
    let times = match check_freshness(rule, &required, table) {
        Err(e) => {
            return Err(e);
        },
        Ok(None) => {
            return Ok(None);
        },
        Ok(Some(t)) => t,
    };
    proof {
        lemma_fresh_times_ok(req, start, rule.id@);
    }
    let (outcome, used) = evaluate_conditions(rule, types, profiles, table, &times);
    record_use(table, &used, &rule.id);
    proof {
        lemma_add_uses(start, used@.map_values(|x: usize| x as int), rule.id@);
    }
    let values = match outcome {
        Err(e) => {
            return Err(e);
        },
        Ok(None) => {
            return Ok(None);
        },
        Ok(Some(v)) => v,
    };
    let ops = match parse_bool_ops(&rule.bool_ops) {
        None => {
            return Err(SimError::ConfigError);
        },
        Some(o) => o,
    };
    assert(ops@ =~= rule.bool_ops@.map_values(|s: String| op_of(s@).unwrap()));
    if values.len() == 0 {
        return Ok(None);
    }
    if values.len() - 1 > ops.len() {
        return Err(SimError::ConfigError);
    }
    if !fold_bool_values(&values, &ops) {
        return Ok(None);
    }
    if times.len() == 0 {
        return Ok(None);
    }
    proof {
        if rule.conditions@.len() == 0 {
            assert(conditions_outcome(rule.conditions@, types@, profiles@, start, times@)
                == Ok::<Option<Seq<bool>>, SimError>(Some(Seq::<bool>::empty())));
        }
        let um = used@.map_values(|x: usize| x as int);
        assert forall|j: int| 0 <= j < required_numbers(rule.conditions@).len() implies {
            let n = #[trigger] required_numbers(rule.conditions@)[j];
            &&& 0 <= n < start.len()
            &&& start[n as int].payload != no_reading()
            &&& !start[n as int].used_by.contains(rule.id@)
            &&& table_view(table@)[n as int].used_by.contains(rule.id@)
        } by {
            assert(req[j].1 == required_numbers(rule.conditions@)[j]);
            assert(used@[j] as int == required_numbers(rule.conditions@)[j]);
            assert(um[j] == used@[j] as int);
        }
    }
    Ok(Some(latest_time(&times)))
}

/// A rule without conditions never fires.
pub proof fn lemma_no_conditions_never_fires(
    rule: Rule,
    types: Seq<SensorType>,
    profiles: Seq<DeviceProfile>,
    table: Seq<RecordView>,
)
    requires
        rule.conditions@.len() == 0,
    ensures
        !(rule_outcome(rule, types, profiles, table) matches Ok(Some(_))),
{
    let req = required_sensors(rule.conditions@);
    assert(req.len() == 0);
    let g = fresh_times(req, table, rule.id@);
    if g is Ok && g.unwrap() is Some {
        let times = g.unwrap().unwrap();
        assert(conditions_outcome(rule.conditions@, types, profiles, table, times) == Ok::<
            Option<Seq<bool>>,
            SimError,
        >(Some(Seq::<bool>::empty())));
    }
}

/// The commands that the indices pick out of a downlink schema; `None` where
/// an index is out of range.
pub open spec fn picked_commands(indices: Seq<usize>, downlink: Seq<Seq<char>>) -> Option<
    Seq<Seq<char>>,
> {
    if exists|j: int| 0 <= j < indices.len() && #[trigger] indices[j] >= downlink.len() {
        None
    } else {
        Some(indices.map_values(|i: usize| downlink[i as int]))
    }
}

/// What an action sends: the downlink message, and the uplink that reports
/// the commanded values afterwards; or why it cannot be sent.
pub open spec fn action_plan(
    action: Action,
    types: Seq<SensorType>,
    profiles: Seq<DeviceProfile>,
) -> Result<(Seq<char>, Seq<char>), SimError> {
    match sensor_type_index(action.sensor_id@) {
        None => Err(SimError::ConfigError),
        Some(k) => if k >= types.len() {
            Err(SimError::ConfigError)
        } else {
            match profile_index(profiles, types[k as int].device_profile_id@) {
                None => Err(SimError::ProfileLookupError),
                Some(p) => match (profiles[p as int].downlink, profiles[p as int].uplink) {
                    (Some(d), Some(u)) => match picked_commands(action.payload_indices@, views(d@)) {
                        None => Err(SimError::ConfigError),
                        Some(cmds) => if cmds.len() < u@.len() || action.sensor_number < 0 {
                            Err(SimError::ConfigError)
                        } else {
                            Ok((downlink_text(cmds), reported_uplink(views(u@), cmds)))
                        },
                    },
                    _ => Err(SimError::ConfigError),
                },
            }
        },
    }
}

/// The id of the messages of a sensor: `Message_of_<number>_<sensor id>`.
pub open spec fn message_id(number: nat, sensor_id: Seq<char>) -> Seq<char> {
    "Message_of_"@ + dec(number) + "_"@ + sensor_id
}

pub fn message_event_id(number: u64, sensor_id: &str) -> (r: String)
    ensures
        r@ == message_id(number as nat, sensor_id@),
{
    let mut r = String::from_str("Message_of_");
    r.append(u64_to_text(number).as_str());
    r.append("_");
    r.append(sensor_id);
    r
}

/// Works out what an action sends.
pub fn plan_action(action: &Action, types: &Vec<SensorType>, profiles: &Vec<DeviceProfile>) -> (r:
    Result<(String, String), SimError>)
    ensures
        match r {
            Ok((d, u)) => action_plan(*action, types@, profiles@) == Ok::<
                (Seq<char>, Seq<char>),
                SimError,
            >((d@, u@)),
            Err(e) => action_plan(*action, types@, profiles@) == Err::<
                (Seq<char>, Seq<char>),
                SimError,
            >(e),
        },
{
    let k = match sensor_type_index_of(action.sensor_id.as_str()) {
        None => {
            return Err(SimError::ConfigError);
        },
        Some(k) => k,
    };
    if k >= types.len() as u64 {
        return Err(SimError::ConfigError);
    }
    let p = match find_profile(profiles, types[k as usize].device_profile_id.as_str()) {
        None => {
            return Err(SimError::ProfileLookupError);
        },
        Some(p) => p,
    };
    proof {
        crate::parameters::lemma_profile_index_bound(profiles@, types@[k as int].device_profile_id@);
    }
    let down = match &profiles[p].downlink {
        Some(d) => d,
        None => {
            return Err(SimError::ConfigError);
        },
    };
    let up = match &profiles[p].uplink {
        Some(u) => u,
        None => {
            return Err(SimError::ConfigError);
        },
    };
    let mut cmds: Vec<String> = Vec::new();
    let mut j: usize = 0;
    let ghost idx = action.payload_indices@;
    while j < action.payload_indices.len()
        invariant
            idx == action.payload_indices@,
            sensor_type_index(action.sensor_id@) == Some(k as nat),
            k < types@.len(),
            profile_index(profiles@, types@[k as int].device_profile_id@) == Some(p as nat),
            p < profiles@.len(),
            profiles@[p as int].downlink == Some(*down),
            profiles@[p as int].uplink == Some(*up),
            j <= idx.len(),
            cmds@.len() == j,
            forall|q: int| 0 <= q < j ==> idx[q] < down@.len(),
            forall|q: int| 0 <= q < j ==> (#[trigger] cmds@[q])@ == down@[idx[q] as int]@,
        decreases idx.len() - j,
    {
        let c = action.payload_indices[j];
        if c >= down.len() {
            assert(picked_commands(idx, views(down@)) is None);
            return Err(SimError::ConfigError);
        }
        cmds.push(down[c].clone());
        j = j + 1;
    }
    assert(views(cmds@) =~= idx.map_values(|i: usize| views(down@)[i as int]));
    if cmds.len() < up.len() || action.sensor_number < 0 {
        return Err(SimError::ConfigError);
    }
    Ok((downlink_message(&cmds), reported_uplink_message(up, &cmds)))
}

/// The events after position `from` whose id is `id` and that are not
/// downlinks get the message `msg`; the others stay as they are.
pub open spec fn rewritten(old: Event, new: Event, j: int, from: int, id: Seq<char>, msg: Seq<char>) -> bool {
    &&& new.id@ == old.id@
    &&& new.time == old.time
    &&& if j > from && find(crate::event::message_of(old.action), "Downlink_"@) is None && old.id@
        == id {
        new.action is Message && crate::event::message_of(new.action) == msg
    } else {
        new.action == old.action
    }
}

/// The list after sending an action fired at `t` while the sweep stands at
/// `i`: the downlink goes in one millisecond later, then every later event
/// with the target's message id that is not a downlink reports the commanded
/// values.
pub open spec fn fire_view(
    lv: Seq<EventView>,
    i: int,
    action: Action,
    t: TimeOfDay,
    types: Seq<SensorType>,
    profiles: Seq<DeviceProfile>,
) -> Result<Seq<EventView>, SimError> {
    match action_plan(action, types, profiles) {
        Err(e) => Err(e),
        Ok((down, up)) => {
            let id = message_id(action.sensor_number as nat, action.sensor_id@);
            let tt = t.add_millis_spec(1);
            let ins = lv.insert(
                view_insert_position(lv, tt.millis) as int,
                EventView { id: id, time: tt, action: ActionView::Message(down) },
            );
            Ok(
                Seq::new(
                    ins.len(),
                    |j: int|
                        if j > i && find(view_message(ins[j].action), "Downlink_"@) is None
                            && ins[j].id == id {
                            EventView {
                                id: ins[j].id,
                                time: ins[j].time,
                                action: ActionView::Message(up),
                            }
                        } else {
                            ins[j]
                        },
                ),
            )
        },
    }
}

/// Sends an action fired at `fire_time` while the sweep stands at
/// `event_index`: inserts the downlink message one millisecond later, then
/// has every later uplink of the target report the commanded values.
pub fn fire_action(
    event_list: &mut EventList,
    event_index: usize,
    action: &Action,
    fire_time: TimeOfDay,
    types: &Vec<SensorType>,
    profiles: &Vec<DeviceProfile>,
) -> (r: Result<(), SimError>)
    requires
        fire_time.wf(),
        event_index < old(event_list).events@.len(),
    ensures
        match action_plan(*action, types@, profiles@) {
            Err(e) => r == Err::<(), SimError>(e) && *final(event_list) == *old(event_list),
            Ok((down, up)) => {
                let id = message_id(action.sensor_number as nat, action.sensor_id@);
                let t = fire_time.add_millis_spec(1);
                let p = insert_position(old(event_list).events@, t.millis) as int;
                let mid = final(event_list).events@;
                &&& r is Ok
                &&& mid.len() == old(event_list).events@.len() + 1
                &&& mid[p].id@ == id && mid[p].time == t && mid[p].action is Message
                    && crate::event::message_of(mid[p].action) == down
                &&& forall|j: int|
                    0 <= j < mid.len() && j != p ==> rewritten(
                        #[trigger] old(event_list).events@.insert(p, mid[p])[j],
                        mid[j],
                        j,
                        event_index as int,
                        id,
                        up,
                    )
            },
        },
        is_time_ordered(old(event_list).events@) ==> is_time_ordered(final(event_list).events@),
        match fire_view(list_view(old(event_list).events@), event_index as int, *action, fire_time, types@, profiles@) {
            Ok(l) => r is Ok && list_view(final(event_list).events@) == l,
            Err(e) => r == Err::<(), SimError>(e),
        },
{
    let (down, up) = plan_action(action, types, profiles)?;
    let id = message_event_id(action.sensor_number as u64, action.sensor_id.as_str());
    let t = fire_time.add_millis(1);
    let ghost before = event_list.events@;
    let ghost p = insert_position(before, t.millis) as int;
    proof {
        crate::event::lemma_insert_position(before, t.millis);
    }
    let ev = Event::new(id.clone(), t, Events::Message(down));
    let ghost evg = ev;
    proof {
        reveal_strlit("Downlink_Message_command:");
        reveal_strlit("Downlink_");
        let mv = crate::event::message_of(evg.action);
        assert(mv.subrange(0, 9) =~= "Downlink_"@);
        lemma_downlink_marked(evg);
    }
    event_list.add_event(ev);
    let ghost inserted = event_list.events@;
    assert(inserted == before.insert(p, evg));
    let len = event_list.events.len();
    let mut j: usize = event_index + 1;
    while j < len
        invariant
            len == event_list.events@.len(),
            len == inserted.len(),
            0 <= p < len,
            inserted[p] == evg,
            find(crate::event::message_of(evg.action), "Downlink_"@) is Some,
            event_index < j <= len || (j == event_index + 1 && j > len),
            is_time_ordered(before) ==> is_time_ordered(inserted),
            event_list.events@[p] == evg,
            forall|q: int|
                0 <= q < len && q != p ==> if q < j {
                    rewritten(#[trigger] inserted[q], event_list.events@[q], q, event_index as int, id@, up@)
                } else {
                    event_list.events@[q] == inserted[q]
                },
        decreases len - j,
    {
        let m = event_list.events[j].action.get_message();
        if !contains_text(m.as_str(), "Downlink_") && same_text(event_list.events[j].id.as_str(), id.as_str()) {
            proof {
                assert(j != p);
            }
            event_list.events[j].action = Events::Message(up.clone());
        }
        proof {
            reveal_strlit("Downlink_");
        }
        j = j + 1;
    }
    proof {
        assert forall|q: int| 0 <= q < len && q != p implies rewritten(
            #[trigger] inserted[q],
            event_list.events@[q],
            q,
            event_index as int,
            id@,
            up@,
        ) by {
            if q >= j {
                assert(q <= event_index || q >= len);
            }
        }
        if is_time_ordered(before) {
            assert forall|a: int, b: int| 0 <= a < b < len implies event_list.events@[a].time.millis
                <= event_list.events@[b].time.millis by {
                assert(inserted[a].time.millis <= inserted[b].time.millis);
            }
        }
        crate::event::lemma_view_insert_position(before, t.millis);
        let lv = list_view(before);
        let ev_view = crate::event::event_view(evg);
        let ins = lv.insert(p, ev_view);
        assert(ins =~= list_view(inserted));
        let fv = fire_view(lv, event_index as int, *action, fire_time, types@, profiles@);
        let fin = list_view(event_list.events@);
        assert forall|q: int| 0 <= q < len implies fin[q] == fv.unwrap()[q] by {
            if q != p {
                assert(rewritten(inserted[q], event_list.events@[q], q, event_index as int, id@, up@));
            }
        }
        assert(fin =~= fv.unwrap());
    }
    Ok(())
}

/// A message built as a downlink holds `Downlink_`.
pub proof fn lemma_downlink_text_marked(e: Event, down: Seq<char>)
    requires
        e.action is Message,
        crate::event::message_of(e.action) == down,
        exists|c: Seq<Seq<char>>| down == #[trigger] downlink_text(c),
    ensures
        find(crate::event::message_of(e.action), "Downlink_"@) is Some,
{
    reveal_strlit("Downlink_Message_command:");
    reveal_strlit("Downlink_");
    assert(down.subrange(0, 9) =~= "Downlink_"@);
    lemma_downlink_marked(e);
}

/// A downlink message holds `Downlink_`, so rewriting passes it by.
proof fn lemma_downlink_marked(e: Event)
    requires
        e.action is Message,
        crate::event::message_of(e.action).len() >= 9,
        crate::event::message_of(e.action).subrange(0, 9) == "Downlink_"@,
    ensures
        find(crate::event::message_of(e.action), "Downlink_"@) is Some,
{
    reveal_strlit("Downlink_");
}

} // verus!
