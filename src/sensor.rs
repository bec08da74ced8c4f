//! Sensors and the types they belong to.
use vstd::prelude::*;

verus! {

/// A type of sensor: its id (`SensorType_<k>`), the device profile that
/// describes its messages, and how often it sends an uplink.
#[derive(Clone, Debug)]
pub struct SensorType {
    pub id: String,
    pub device_profile_id: String,
    pub uplink_interval_in_sec: u64,
}

impl SensorType {
    /// Creates a sensor type. The id is expected to read `SensorType_<k>`.
    pub fn new(id: String, device_profile_id: String, uplink_interval_in_sec: u64) -> (r: SensorType)
        ensures
            r.id@ == id@,
            r.device_profile_id@ == device_profile_id@,
            r.uplink_interval_in_sec == uplink_interval_in_sec,
    {
        SensorType { id, device_profile_id, uplink_interval_in_sec }
    }

    pub fn get_id(&self) -> (r: String)
        ensures
            r@ == self.id@,
    {
        self.id.clone()
    }

    pub fn get_device_profile_id(&self) -> (r: String)
        ensures
            r@ == self.device_profile_id@,
    {
        self.device_profile_id.clone()
    }

    pub fn get_uplink_interval_in_sec(&self) -> (r: u64)
        ensures
            r == self.uplink_interval_in_sec,
    {
        self.uplink_interval_in_sec
    }

    /// A copy with the same fields.
    pub fn duplicate(&self) -> (r: SensorType)
        ensures
            r == *self,
    {
        SensorType {
            id: self.id.clone(),
            device_profile_id: self.device_profile_id.clone(),
            uplink_interval_in_sec: self.uplink_interval_in_sec,
        }
    }
}

/// A sensor: a globally unique id of the form
/// `Sensor_<node>_no._<k>_of_type_SensorType_<t>`, its type, and a globally
/// unique dense number used to index per-sensor tables.
#[derive(Clone, Debug)]
pub struct Sensor {
    pub id: String,
    pub sensor_type: SensorType,
    pub no: i64,
}

impl Sensor {
    pub fn new(id: String, sensor_type: SensorType, no: i64) -> (r: Sensor)
        ensures
            r.id@ == id@,
            r.sensor_type == sensor_type,
            r.no == no,
    {
        Sensor { id, sensor_type, no }
    }

    pub fn get_id(&self) -> (r: String)
        ensures
            r@ == self.id@,
    {
        self.id.clone()
    }

    pub fn get_sensor_type(&self) -> (r: SensorType)
        ensures
            r.id@ == self.sensor_type.id@,
            r.device_profile_id@ == self.sensor_type.device_profile_id@,
            r.uplink_interval_in_sec == self.sensor_type.uplink_interval_in_sec,
    {
        self.sensor_type.duplicate()
    }

    pub fn set_id(&mut self, id: String)
        ensures
            final(self).id@ == id@,
            final(self).sensor_type == old(self).sensor_type,
            final(self).no == old(self).no,
    {
        self.id = id;
    }

    pub fn get_number(&self) -> (r: i64)
        ensures
            r == self.no,
    {
        self.no
    }

    /// A copy with the same fields.
    pub fn duplicate(&self) -> (r: Sensor)
        ensures
            r.id@ == self.id@,
            r.sensor_type.id@ == self.sensor_type.id@,
            r.sensor_type.device_profile_id@ == self.sensor_type.device_profile_id@,
            r.sensor_type.uplink_interval_in_sec == self.sensor_type.uplink_interval_in_sec,
            r.no == self.no,
    {
        Sensor { id: self.id.clone(), sensor_type: self.sensor_type.duplicate(), no: self.no }
    }
}

} // verus!
