//! The summary of a simulation run: when it ran, and how many messages it
//! produced.
use vstd::prelude::*;
use crate::outside::now_millis;

verus! {

/// Wall-clock instants are milliseconds since the Unix epoch.
pub struct Evaluation {
    pub simulation_startup: i64,
    pub simulation_ending: i64,
    pub rule_execution_started: i64,
    pub rule_execution_ended: i64,
    pub uplink_messages: u64,
    pub downlink_messages: u64,
    /// Downlink and uplink counts for each sensor type.
    pub downlink_uplink_messages_per_sensor_type: Vec<(u64, u64)>,
}

impl Evaluation {
    /// A summary with no messages, every instant set to now.
    pub fn new() -> (r: Evaluation)
        ensures
            r.uplink_messages == 0,
            r.downlink_messages == 0,
            r.downlink_uplink_messages_per_sensor_type@.len() == 0,
            r.simulation_ending == r.simulation_startup,
            r.rule_execution_started == r.simulation_startup,
            r.rule_execution_ended == r.simulation_startup,
    {
        let now = now_millis();
        Evaluation {
            simulation_startup: now,
            simulation_ending: now,
            rule_execution_started: now,
            rule_execution_ended: now,
            uplink_messages: 0,
            downlink_messages: 0,
            downlink_uplink_messages_per_sensor_type: Vec::new(),
        }
    }

    pub fn set_downlink_uplink_messages_per_sensor_type(&mut self, tupel_vec: Vec<(u64, u64)>)
        ensures
            final(self).downlink_uplink_messages_per_sensor_type@ == tupel_vec@,
            final(self).uplink_messages == old(self).uplink_messages,
            final(self).downlink_messages == old(self).downlink_messages,
    {
        self.downlink_uplink_messages_per_sensor_type = tupel_vec;
    }

    pub fn get_downlink_uplink_messages_per_sensor_type(&self) -> (r: &Vec<(u64, u64)>)
        ensures
            r@ == self.downlink_uplink_messages_per_sensor_type@,
    {
        &self.downlink_uplink_messages_per_sensor_type
    }

    pub fn set_simulation_star_up(&mut self, start: i64)
        ensures
            final(self).simulation_startup == start,
            final(self).simulation_ending == old(self).simulation_ending,
    {
        self.simulation_startup = start;
    }

    pub fn get_simulation_star_up(&self) -> (r: i64)
        ensures
            r == self.simulation_startup,
    {
        self.simulation_startup
    }

    pub fn set_simulation_ending(&mut self, ending: i64)
        ensures
            final(self).simulation_ending == ending,
            final(self).simulation_startup == old(self).simulation_startup,
    {
        self.simulation_ending = ending;
    }

    pub fn get_simulation_ending(&self) -> (r: i64)
        ensures
            r == self.simulation_ending,
    {
        self.simulation_ending
    }

    pub fn set_rule_execution_started(&mut self, time: i64)
        ensures
            final(self).rule_execution_started == time,
            final(self).rule_execution_ended == old(self).rule_execution_ended,
    {
        self.rule_execution_started = time;
    }

    pub fn get_rule_execution_started(&self) -> (r: i64)
        ensures
            r == self.rule_execution_started,
    {
        self.rule_execution_started
    }

    pub fn set_rule_execution_ended(&mut self, time: i64)
        ensures
            final(self).rule_execution_ended == time,
            final(self).rule_execution_started == old(self).rule_execution_started,
    {
        self.rule_execution_ended = time;
    }

    pub fn get_rule_execution_ended(&self) -> (r: i64)
        ensures
            r == self.rule_execution_ended,
    {
        self.rule_execution_ended
    }

    pub fn get_uplink_messages(&self) -> (r: u64)
        ensures
            r == self.uplink_messages,
    {
        self.uplink_messages
    }

    pub fn set_uplink_messages(&mut self, number: u64)
        ensures
            final(self).uplink_messages == number,
            final(self).downlink_messages == old(self).downlink_messages,
    {
        self.uplink_messages = number;
    }

    pub fn get_downlink_messages(&self) -> (r: u64)
        ensures
            r == self.downlink_messages,
    {
        self.downlink_messages
    }

    pub fn set_downlink_messages(&mut self, number: u64)
        ensures
            final(self).downlink_messages == number,
            final(self).uplink_messages == old(self).uplink_messages,
    {
        self.downlink_messages = number;
    }
}

} // verus!
