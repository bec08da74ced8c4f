use sensor_sim::event::{Event, EventList, Events};
use sensor_sim::time::TimeOfDay;

fn at(h: u32, m: u32, s: u32, ms: u32) -> TimeOfDay {
    TimeOfDay::from_hms_milli(h, m, s, ms).unwrap()
}

fn ev(id: &str, t: TimeOfDay) -> Event {
    Event::new(id.to_string(), t, Events::Move(1))
}

#[test]
fn add_event_keeps_time_order() {
    let mut list = EventList::new();
    list.add_event(ev("c", at(10, 0, 0, 0)));
    list.add_event(ev("a", at(8, 0, 0, 0)));
    list.add_event(ev("d", at(12, 0, 0, 0)));
    list.add_event(ev("b", at(9, 30, 0, 0)));
    let ids: Vec<String> = list.events.iter().map(|e| e.id.clone()).collect();
    assert_eq!(ids, vec!["a", "b", "c", "d"]);
    for w in list.events.windows(2) {
        assert!(w[0].time.millis <= w[1].time.millis);
    }
    assert_eq!(list.get_eventlist_length(), 4);
}

#[test]
fn equal_times_keep_insertion_order() {
    let mut list = EventList::new();
    list.add_event(ev("early", at(9, 0, 0, 0)));
    list.add_event(ev("first", at(10, 0, 0, 0)));
    list.add_event(ev("late", at(11, 0, 0, 0)));
    list.add_event(ev("second", at(10, 0, 0, 0)));
    let ids: Vec<String> = list.events.iter().map(|e| e.id.clone()).collect();
    assert_eq!(ids, vec!["early", "first", "second", "late"]);
}

#[test]
fn action_text() {
    assert_eq!(Events::Create(3).to_string(), "Create(3)");
    assert_eq!(Events::Move(120).to_string(), "Move(120)");
    assert_eq!(Events::Delete(0).to_string(), "Delete(0)");
    assert_eq!(Events::Message("Downlink_Message_command:OFF,".to_string()).to_string(), "Message(Downlink_Message_command:OFF,)");
    assert_ne!(Events::Move(12).to_string(), Events::Move(1).to_string());
    assert_ne!(Events::Create(7).to_string(), Events::Delete(7).to_string());
    assert!(Events::Message("Uplink_Message_t:1,".to_string()).to_string().starts_with("Message(Uplink_"));
}

#[test]
fn action_accessors() {
    assert_eq!(Events::Move(4).get_node_index(), Some(4));
    assert_eq!(Events::Message("x".to_string()).get_node_index(), None);
    assert_eq!(Events::Message("x".to_string()).get_message(), "x");
    assert_eq!(Events::Create(2).get_message(), "");
}

#[test]
fn time_arithmetic_wraps_around_midnight() {
    let t = at(23, 59, 59, 999);
    assert_eq!(t.add_millis(1).millis, 0);
    assert_eq!(at(0, 0, 0, 0).add_millis(-1).millis, 86_399_999);
    assert_eq!(at(10, 0, 0, 0).add_millis(90 * 60_000), at(11, 30, 0, 0));
    assert_eq!(at(1, 0, 0, 0).add_millis(-3 * 86_400_000 - 3_600_000).millis, 0);
    assert!(TimeOfDay::from_hms_milli(24, 0, 0, 0).is_none());
    let x = at(13, 7, 42, 5);
    assert_eq!((x.hour(), x.minute(), x.second(), x.millisecond()), (13, 7, 42, 5));
}

#[test]
fn event_list_copy() {
    let mut list = EventList::new();
    list.add_event(ev("a", at(8, 0, 0, 0)));
    let copy = list.get_event_list_copy();
    assert_eq!(copy.len(), 1);
    assert_eq!(copy[0].id, "a");
    assert_eq!(list.get_event_list().len(), 1);
}
