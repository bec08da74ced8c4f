//! What a simulation is set up with: the graph, the movable objects, device
//! profiles and sensor types, and the rules.
use vstd::prelude::*;
use crate::error::SimError;
use crate::rule::Rule;
use crate::sensor::SensorType;
use crate::structure::UnderlyingStructure;
use crate::text::{dec, same_text, u64_to_text};
use crate::time::TimeOfDay;

verus! {

/// How the movable objects behave: how many there are, how many excursions
/// each makes, around which times they appear and leave, and how long one
/// step along an edge takes.
#[derive(Clone, Copy, Debug)]
pub struct MovableObjects {
    pub number_of_movable_objects: u32,
    pub number_of_random_moves: u32,
    pub time_of_creation: TimeOfDay,
    pub time_of_deletion: TimeOfDay,
    pub speed_millis: u32,
}

impl MovableObjects {
    pub fn get_number_of_movable_objects(&self) -> (r: u32)
        ensures
            r == self.number_of_movable_objects,
    {
        self.number_of_movable_objects
    }

    pub fn get_number_of_random_moves(&self) -> (r: u32)
        ensures
            r == self.number_of_random_moves,
    {
        self.number_of_random_moves
    }

    pub fn get_time_of_creation(&self) -> (r: TimeOfDay)
        ensures
            r == self.time_of_creation,
    {
        self.time_of_creation
    }

    pub fn get_time_of_deletion(&self) -> (r: TimeOfDay)
        ensures
            r == self.time_of_deletion,
    {
        self.time_of_deletion
    }

    pub fn get_speed(&self) -> (r: u32)
        ensures
            r == self.speed_millis,
    {
        self.speed_millis
    }
}

/// The message schemas of a device: the names of its uplink payloads and the
/// command names of its downlink payloads, each where it has them.
#[derive(Clone, Debug)]
pub struct DeviceProfile {
    pub id: String,
    pub uplink: Option<Vec<String>>,
    pub downlink: Option<Vec<String>>,
}

/// The views of a list of texts.
pub open spec fn views(s: Seq<String>) -> Seq<Seq<char>> {
    s.map_values(|x: String| x@)
}

/// Each item followed by `sep`, all joined.
pub open spec fn join_each(items: Seq<Seq<char>>, sep: Seq<char>) -> Seq<char>
    decreases items.len(),
{
    if items.len() == 0 {
        Seq::empty()
    } else {
        join_each(items.drop_last(), sep) + items.last() + sep
    }
}

/// Each name followed by `:`, its value and `,`, all joined.
pub open spec fn join_pairs(names: Seq<Seq<char>>, values: Seq<Seq<char>>) -> Seq<char>
    decreases names.len(),
{
    if names.len() == 0 {
        Seq::empty()
    } else {
        join_pairs(names.drop_last(), values) + names.last() + ":"@ + values[names.len() - 1]
            + ","@
    }
}

/// The uplink message of a profile before values are filled in:
/// `Uplink_Message_<name>:**,...`, or `Uplink_Message_dummy_message` for a
/// profile without uplink payloads.
pub open spec fn uplink_template(uplink: Option<Seq<Seq<char>>>) -> Seq<char> {
    match uplink {
        Some(names) => "Uplink_Message_"@ + join_each(names, ":**,"@),
        None => "Uplink_Message_dummy_message"@,
    }
}

/// The downlink message for a list of commands: `Downlink_Message_command:`
/// then each command followed by `,`.
pub open spec fn downlink_text(commands: Seq<Seq<char>>) -> Seq<char> {
    "Downlink_Message_command:"@ + join_each(commands, ","@)
}

/// The uplink that reports commanded values: `Uplink_Message_` then
/// `<name>:<value>,` for each payload name.
pub open spec fn reported_uplink(names: Seq<Seq<char>>, values: Seq<Seq<char>>) -> Seq<char> {
    "Uplink_Message_"@ + join_pairs(names, values)
}

/// Appends each text followed by `sep`.
pub fn append_each(out: &mut String, items: &Vec<String>, sep: &str)
    ensures
        final(out)@ == old(out)@ + join_each(views(items@), sep@),
{
    let mut i: usize = 0;
    let ghost start = out@;
    while i < items.len()
        invariant
            i <= items@.len(),
            out@ == start + join_each(views(items@.subrange(0, i as int)), sep@),
        decreases items@.len() - i,
    {
        proof {
            assert(views(items@.subrange(0, i + 1)).drop_last() =~= views(
                items@.subrange(0, i as int),
            ));
            assert(views(items@.subrange(0, i + 1)).last() == items@[i as int]@);
        }
        out.append(items[i].as_str());
        out.append(sep);
        i = i + 1;
    }
    assert(items@.subrange(0, i as int) =~= items@);
}

impl DeviceProfile {
    pub fn new(id: String, uplink: Option<Vec<String>>, downlink: Option<Vec<String>>) -> (r:
        DeviceProfile)
        ensures
            r.id@ == id@,
            r.uplink == uplink,
            r.downlink == downlink,
    {
        DeviceProfile { id, uplink, downlink }
    }

    pub open spec fn uplink_view(&self) -> Option<Seq<Seq<char>>> {
        match self.uplink {
            Some(v) => Some(views(v@)),
            None => None,
        }
    }

    /// The uplink message with `**` where each value goes.
    pub fn empty_uplink_message(&self) -> (r: String)
        ensures
            r@ == uplink_template(self.uplink_view()),
    {
        match &self.uplink {
            Some(names) => {
                let mut r = String::from_str("Uplink_Message_");
                append_each(&mut r, names, ":**,");
                r
            },
            None => String::from_str("Uplink_Message_dummy_message"),
        }
    }
}

/// The downlink message for a list of commands.
pub fn downlink_message(commands: &Vec<String>) -> (r: String)
    ensures
        r@ == downlink_text(views(commands@)),
{
    let mut r = String::from_str("Downlink_Message_command:");
    append_each(&mut r, commands, ",");
    r
}

/// The uplink that reports the commanded values, one per payload name.
pub fn reported_uplink_message(names: &Vec<String>, values: &Vec<String>) -> (r: String)
    requires
        values@.len() >= names@.len(),
    ensures
        r@ == reported_uplink(views(names@), views(values@)),
{
    let mut r = String::from_str("Uplink_Message_");
    let ghost start = r@;
    let mut i: usize = 0;
    while i < names.len()
        invariant
            i <= names@.len(),
            values@.len() >= names@.len(),
            r@ == start + join_pairs(views(names@.subrange(0, i as int)), views(values@)),
        decreases names@.len() - i,
    {
        proof {
            assert(views(names@.subrange(0, i + 1)).drop_last() =~= views(
                names@.subrange(0, i as int),
            ));
        }
        r.append(names[i].as_str());
        r.append(":");
        r.append(values[i].as_str());
        r.append(",");
        i = i + 1;
    }
    assert(names@.subrange(0, i as int) =~= names@);
    r
}

/// The index of the first profile with the given id.
pub open spec fn profile_index(profiles: Seq<DeviceProfile>, id: Seq<char>) -> Option<nat>
    decreases profiles.len(),
{
    if profiles.len() == 0 {
        None
    } else {
        match profile_index(profiles.drop_last(), id) {
            Some(i) => Some(i),
            None => if profiles.last().id@ == id {
                Some((profiles.len() - 1) as nat)
            } else {
                None
            },
        }
    }
}

/// The parameters of a simulation.
pub struct Parameters<N, E> {
    pub underlying_structure: Option<UnderlyingStructure<N, E>>,
    pub movable_objects: MovableObjects,
    pub rules: Vec<Rule>,
    pub device_profiles: Vec<DeviceProfile>,
    pub sensor_types: Vec<SensorType>,
    pub number_of_sensors: i64,
}

impl<N, E> Parameters<N, E> {
    pub fn new(movable_objects: MovableObjects) -> (r: Parameters<N, E>)
        ensures
            r.underlying_structure.is_none(),
            r.movable_objects == movable_objects,
            r.rules@.len() == 0,
            r.device_profiles@.len() == 0,
            r.sensor_types@.len() == 0,
            r.number_of_sensors == 0,
    {
        Parameters {
            underlying_structure: None,
            movable_objects,
            rules: Vec::new(),
            device_profiles: Vec::new(),
            sensor_types: Vec::new(),
            number_of_sensors: 0,
        }
    }

    pub fn change_movable_objects(&mut self, movable_objects: MovableObjects)
        ensures
            final(self).movable_objects == movable_objects,
            final(self).underlying_structure == old(self).underlying_structure,
            final(self).rules == old(self).rules,
            final(self).device_profiles == old(self).device_profiles,
            final(self).sensor_types == old(self).sensor_types,
            final(self).number_of_sensors == old(self).number_of_sensors,
    {
        self.movable_objects = movable_objects;
    }

    pub fn get_movable_objects(&self) -> (r: &MovableObjects)
        ensures
            *r == self.movable_objects,
    {
        &self.movable_objects
    }

    pub fn change_underlying_structure(&mut self, underlying_structure: UnderlyingStructure<N, E>)
        ensures
            final(self).underlying_structure == Some(underlying_structure),
            final(self).movable_objects == old(self).movable_objects,
            final(self).rules == old(self).rules,
            final(self).device_profiles == old(self).device_profiles,
            final(self).sensor_types == old(self).sensor_types,
            final(self).number_of_sensors == old(self).number_of_sensors,
    {
        self.underlying_structure = Some(underlying_structure);
    }

    pub fn set_underlying_structure(&mut self, underlying_structure: UnderlyingStructure<N, E>)
        ensures
            final(self).underlying_structure == Some(underlying_structure),
            final(self).movable_objects == old(self).movable_objects,
            final(self).rules == old(self).rules,
            final(self).device_profiles == old(self).device_profiles,
            final(self).sensor_types == old(self).sensor_types,
            final(self).number_of_sensors == old(self).number_of_sensors,
    {
        self.underlying_structure = Some(underlying_structure);
    }

    /// The graph, where one was given.
    pub fn get_underlying_structure(&self) -> (r: Option<&UnderlyingStructure<N, E>>)
        ensures
            r.is_some() == self.underlying_structure.is_some(),
            r.is_some() ==> *r.unwrap() == self.underlying_structure.unwrap(),
    {
        self.underlying_structure.as_ref()
    }

    pub fn get_device_profiles(&self) -> (r: &[DeviceProfile])
        ensures
            r@ == self.device_profiles@,
    {
        self.device_profiles.as_slice()
    }

    /// The index of the first device profile with the given id.
    pub fn get_device_profile_index_via_id(&self, device_profile_id: &str) -> (r: Result<
        usize,
        SimError,
    >)
        ensures
            r.is_ok() == profile_index(self.device_profiles@, device_profile_id@).is_some(),
            r.is_ok() ==> r.unwrap() as nat == profile_index(
                self.device_profiles@,
                device_profile_id@,
            ).unwrap(),
            r.is_err() ==> r == Err::<usize, SimError>(SimError::ProfileLookupError),
    {
        let mut i: usize = 0;
        while i < self.device_profiles.len()
            invariant
                i <= self.device_profiles@.len(),
                profile_index(self.device_profiles@.subrange(0, i as int), device_profile_id@)
                    is None,
            decreases self.device_profiles@.len() - i,
        {
            assert(self.device_profiles@.subrange(0, i + 1).drop_last() =~= self.device_profiles@.subrange(0, i as int));
            if same_text(self.device_profiles[i].id.as_str(), device_profile_id) {
                proof { lemma_profile_index_extend(self.device_profiles@, device_profile_id@, i as int + 1); }
                return Ok(i);
            }
            i = i + 1;
        }
        assert(self.device_profiles@.subrange(0, i as int) =~= self.device_profiles@);
        Err(SimError::ProfileLookupError)
    }

    /// Copies of the sensor types.
    pub fn get_sensor_types(&self) -> (r: Vec<SensorType>)
        ensures
            r@ == self.sensor_types@,
    {
        let mut r: Vec<SensorType> = Vec::new();
        let mut i: usize = 0;
        while i < self.sensor_types.len()
            invariant
                i <= self.sensor_types@.len(),
                r@ == self.sensor_types@.subrange(0, i as int),
            decreases self.sensor_types@.len() - i,
        {
            r.push(self.sensor_types[i].duplicate());
            i = i + 1;
            assert(r@ =~= self.sensor_types@.subrange(0, i as int));
        }
        assert(self.sensor_types@.subrange(0, i as int) =~= self.sensor_types@);
        r
    }

    /// Registers a device profile with the given schemas as
    /// `DevProf_<number of profiles after adding>`, and a sensor type for it as
    /// `SensorType_<number of sensor types before adding>`.
    /// Fails with `ConfigError`, changing nothing, where neither schema is given
    /// or the uplink interval is zero.
    pub fn add_device_profile(
        &mut self,
        uplink_interval_in_sec: u64,
        downlink_commands: Option<Vec<String>>,
        uplink_payloads: Option<Vec<String>>,
    ) -> (r: Result<(), SimError>)
        ensures
            r.is_err() <==> (downlink_commands.is_none() && uplink_payloads.is_none())
                || uplink_interval_in_sec == 0 || old(self).device_profiles@.len() >= u64::MAX
                || old(self).sensor_types@.len() >= u64::MAX,
            r.is_err() ==> r == Err::<(), SimError>(SimError::ConfigError) && *final(self)
                == *old(self),
            r.is_ok() ==> ({
                let p = final(self).device_profiles@.last();
                let t = final(self).sensor_types@.last();
                &&& final(self).device_profiles@.len() == old(self).device_profiles@.len() + 1
                &&& final(self).device_profiles@.drop_last() == old(self).device_profiles@
                &&& final(self).sensor_types@.len() == old(self).sensor_types@.len() + 1
                &&& final(self).sensor_types@.drop_last() == old(self).sensor_types@
                &&& p.id@ == "DevProf_"@ + dec(final(self).device_profiles@.len())
                &&& p.uplink == uplink_payloads
                &&& p.downlink == downlink_commands
                &&& t.id@ == "SensorType_"@ + dec(old(self).sensor_types@.len())
                &&& t.device_profile_id@ == p.id@
                &&& t.uplink_interval_in_sec == uplink_interval_in_sec
                &&& final(self).rules == old(self).rules
                &&& final(self).number_of_sensors == old(self).number_of_sensors
                &&& final(self).movable_objects == old(self).movable_objects
                &&& final(self).underlying_structure == old(self).underlying_structure
            }),
    {
        if (downlink_commands.is_none() && uplink_payloads.is_none()) || uplink_interval_in_sec == 0
            || self.device_profiles.len() as u64 >= u64::MAX || self.sensor_types.len() as u64
            >= u64::MAX {
            return Err(SimError::ConfigError);
        }
        let number = self.device_profiles.len() as u64 + 1;
        let mut profile_id = String::from_str("DevProf_");
        profile_id.append(u64_to_text(number).as_str());
        let mut type_id = String::from_str("SensorType_");
        type_id.append(u64_to_text(self.sensor_types.len() as u64).as_str());
        let type_profile_id = profile_id.clone();
        let profile = DeviceProfile::new(profile_id, uplink_payloads, downlink_commands);
        self.sensor_types.push(SensorType::new(type_id, type_profile_id, uplink_interval_in_sec));
        self.device_profiles.push(profile);
        Ok(())
    }

    /// The uplink message of the profile with the given id, with `**` for
    /// every value; `ProfileLookupError` where no profile has that id.
    pub fn create_empty_uplink_sensor_message(&self, dev_prof_id: &str) -> (r: Result<
        String,
        SimError,
    >)
        ensures
            r.is_ok() == profile_index(self.device_profiles@, dev_prof_id@).is_some(),
            r.is_ok() ==> r.unwrap()@ == uplink_template(
                self.device_profiles@[profile_index(
                    self.device_profiles@,
                    dev_prof_id@,
                ).unwrap() as int].uplink_view(),
            ),
            r.is_err() ==> r == Err::<String, SimError>(SimError::ProfileLookupError),
    {
        let index = self.get_device_profile_index_via_id(dev_prof_id)?;
        proof {
            lemma_profile_index_bound(self.device_profiles@, dev_prof_id@);
        }
        Ok(self.device_profiles[index].empty_uplink_message())
    }

    pub fn set_rule(&mut self, rules: Vec<Rule>)
        ensures
            final(self).rules == rules,
            final(self).movable_objects == old(self).movable_objects,
            final(self).underlying_structure == old(self).underlying_structure,
            final(self).device_profiles == old(self).device_profiles,
            final(self).sensor_types == old(self).sensor_types,
            final(self).number_of_sensors == old(self).number_of_sensors,
    {
        self.rules = rules;
    }

    pub fn get_rules(&self) -> (r: &[Rule])
        ensures
            r@ == self.rules@,
    {
        self.rules.as_slice()
    }

    pub fn set_number_of_sensors(&mut self, number_of_sensors: i64)
        ensures
            final(self).number_of_sensors == number_of_sensors,
            final(self).movable_objects == old(self).movable_objects,
            final(self).underlying_structure == old(self).underlying_structure,
            final(self).device_profiles == old(self).device_profiles,
            final(self).sensor_types == old(self).sensor_types,
            final(self).rules == old(self).rules,
    {
        self.number_of_sensors = number_of_sensors;
    }

    pub fn get_number_of_sensors(&self) -> (r: i64)
        ensures
            r == self.number_of_sensors,
    {
        self.number_of_sensors
    }
}

/// A profile found by id is in the list and has that id.
pub proof fn lemma_profile_index_bound(p: Seq<DeviceProfile>, id: Seq<char>)
    requires
        profile_index(p, id) is Some,
    ensures
        profile_index(p, id).unwrap() < p.len(),
        p[profile_index(p, id).unwrap() as int].id@ == id,
    decreases p.len(),
{
    if p.len() > 0 && profile_index(p.drop_last(), id) is Some {
        lemma_profile_index_bound(p.drop_last(), id);
    }
}

/// Where the profile at `k - 1` is the first with the id, the lookup finds it.
pub proof fn lemma_profile_index_found(p: Seq<DeviceProfile>, id: Seq<char>, k: int)
    requires
        1 <= k <= p.len(),
        profile_index(p.subrange(0, k - 1), id) is None,
        p[k - 1].id@ == id,
    ensures
        profile_index(p, id) == Some((k - 1) as nat),
{
    lemma_profile_index_extend(p, id, k);
}

proof fn lemma_profile_index_extend(p: Seq<DeviceProfile>, id: Seq<char>, k: int)
    requires
        1 <= k <= p.len(),
        profile_index(p.subrange(0, k - 1), id) is None,
        p[k - 1].id@ == id,
    ensures
        profile_index(p, id) == Some((k - 1) as nat),
    decreases p.len() - k,
{
    assert(p.subrange(0, k).drop_last() =~= p.subrange(0, k - 1));
    if k < p.len() {
        assert(profile_index(p.subrange(0, k), id) == Some((k - 1) as nat));
        lemma_profile_index_prefix(p, id, k);
    } else {
        assert(p.subrange(0, k) =~= p);
    }
}

/// Once a prefix holds the id, the whole list finds it there.
proof fn lemma_profile_index_prefix(p: Seq<DeviceProfile>, id: Seq<char>, k: int)
    requires
        0 <= k <= p.len(),
        profile_index(p.subrange(0, k), id) is Some,
    ensures
        profile_index(p, id) == profile_index(p.subrange(0, k), id),
    decreases p.len() - k,
{
    if k < p.len() {
        assert(p.subrange(0, k + 1).drop_last() =~= p.subrange(0, k));
        lemma_profile_index_prefix(p, id, k + 1);
    } else {
        assert(p.subrange(0, k) =~= p);
    }
}

} // verus!
