//! Events of the simulation and the time-ordered list that holds them.
use vstd::prelude::*;
use crate::text::{dec, lemma_dec_injective, u64_to_text};
use crate::time::TimeOfDay;

verus! {

/// What happens at an event.
#[derive(Clone, Debug)]
pub enum Events {
    /// A movable object appears at the node with this index.
    Create(usize),
    /// A movable object moves to the node with this index.
    Move(usize),
    /// A movable object leaves the graph at the node with this index.
    Delete(usize),
    /// A sensor message with this payload.
    Message(String),
}

/// The text of an action: `Create(<n>)`, `Move(<n>)`, `Delete(<n>)` or
/// `Message(<payload>)`.
pub open spec fn action_text(a: Events) -> Seq<char> {
    match a {
        Events::Create(n) => "Create("@ + dec(n as nat) + ")"@,
        Events::Move(n) => "Move("@ + dec(n as nat) + ")"@,
        Events::Delete(n) => "Delete("@ + dec(n as nat) + ")"@,
        Events::Message(m) => "Message("@ + m@ + ")"@,
    }
}

/// The payload of a message action; empty for any other action.
pub open spec fn message_of(a: Events) -> Seq<char> {
    match a {
        Events::Message(m) => m@,
        _ => Seq::empty(),
    }
}

impl Events {
    /// The payload of a message, or the empty string for other actions.
    pub fn get_message(&self) -> (r: String)
        ensures
            r@ == message_of(*self),
    {
        match self {
            Events::Message(m) => m.clone(),
            _ => String::new(),
        }
    }

    /// The node of a `Create`, `Move` or `Delete`; `None` for a message.
    pub fn get_node_index(&self) -> (r: Option<usize>)
        ensures
            r == (match *self {
                Events::Create(n) => Some(n),
                Events::Move(n) => Some(n),
                Events::Delete(n) => Some(n),
                Events::Message(_) => None::<usize>,
            }),
    {
        match self {
            Events::Create(n) => Some(*n),
            Events::Move(n) => Some(*n),
            Events::Delete(n) => Some(*n),
            Events::Message(_) => None,
        }
    }

    /// The text of the action, as written in an event-list dump.
    pub fn to_string(&self) -> (r: String)
        ensures
            r@ == action_text(*self),
    {
        let (head, body) = match self {
            Events::Create(n) => ("Create(", u64_to_text(*n as u64)),
            Events::Move(n) => ("Move(", u64_to_text(*n as u64)),
            Events::Delete(n) => ("Delete(", u64_to_text(*n as u64)),
            Events::Message(m) => ("Message(", m.clone()),
        };
        let mut r = String::from_str(head);
        r.append(body.as_str());
        r.append(")");
        r
    }

    /// A copy of the action.
    pub fn duplicate(&self) -> (r: Events)
        ensures
            r == *self,
    {
        match self {
            Events::Create(n) => Events::Create(*n),
            Events::Move(n) => Events::Move(*n),
            Events::Delete(n) => Events::Delete(*n),
            Events::Message(m) => Events::Message(m.clone()),
        }
    }
}

/// The node index of a `Create`, `Move` or `Delete` can be read back from its
/// text, and the text tells the three kinds apart.
pub proof fn lemma_action_text_injective(a: Events, b: Events)
    requires
        !(a is Message),
        !(b is Message),
        action_text(a) == action_text(b),
    ensures
        a == b,
{
    reveal_strlit("Create(");
    reveal_strlit("Move(");
    reveal_strlit("Delete(");
    reveal_strlit(")");
    let ta = action_text(a);
    let tb = action_text(b);
    match a {
        Events::Create(x) => {
            assert(ta[0] == 'C');
            match b {
                Events::Create(y) => {
                    assert(dec(x as nat) =~= ta.subrange(7, ta.len() - 1));
                    assert(dec(y as nat) =~= tb.subrange(7, tb.len() - 1));
                    lemma_dec_injective(x as nat, y as nat);
                },
                Events::Move(_) => { assert(tb[0] == 'M'); },
                Events::Delete(_) => { assert(tb[0] == 'D'); },
                _ => {},
            }
        },
        Events::Move(x) => {
            assert(ta[0] == 'M');
            match b {
                Events::Move(y) => {
                    assert(dec(x as nat) =~= ta.subrange(5, ta.len() - 1));
                    assert(dec(y as nat) =~= tb.subrange(5, tb.len() - 1));
                    lemma_dec_injective(x as nat, y as nat);
                },
                Events::Create(_) => { assert(tb[0] == 'C'); },
                Events::Delete(_) => { assert(tb[0] == 'D'); },
                _ => {},
            }
        },
        Events::Delete(x) => {
            assert(ta[0] == 'D');
            match b {
                Events::Delete(y) => {
                    assert(dec(x as nat) =~= ta.subrange(7, ta.len() - 1));
                    assert(dec(y as nat) =~= tb.subrange(7, tb.len() - 1));
                    lemma_dec_injective(x as nat, y as nat);
                },
                Events::Create(_) => { assert(tb[0] == 'C'); },
                Events::Move(_) => { assert(tb[0] == 'M'); },
                _ => {},
            }
        },
        _ => {},
    }
}

/// The text of a message keeps its payload behind a fixed prefix, so whether
/// it was a downlink or an uplink can be read from the text.
pub proof fn lemma_message_text_prefix(m: String, p: Seq<char>)
    ensures
        action_text(Events::Message(m)).subrange(0, 8) == "Message("@,
        m@.len() >= p.len() ==> (action_text(Events::Message(m)).subrange(8, 8 + p.len() as int)
            == p <==> m@.subrange(0, p.len() as int) == p),
{
    reveal_strlit("Message(");
    reveal_strlit(")");
    let t = action_text(Events::Message(m));
    assert(t.subrange(0, 8) =~= "Message("@);
    if m@.len() >= p.len() {
        assert(t.subrange(8, 8 + p.len() as int) =~= m@.subrange(0, p.len() as int));
    }
}

/// An event: its id, the time of day at which it is scheduled, and what
/// happens.
#[derive(Clone, Debug)]
pub struct Event {
    pub id: String,
    pub time: TimeOfDay,
    pub action: Events,
}

impl Event {
    pub fn new(id: String, time: TimeOfDay, action: Events) -> (r: Event)
        ensures
            r.id@ == id@,
            r.time == time,
            r.action == action,
    {
        Event { id, time, action }
    }

    pub fn get_id(&self) -> (r: String)
        ensures
            r@ == self.id@,
    {
        self.id.clone()
    }

    pub fn get_time(&self) -> (r: TimeOfDay)
        ensures
            r == self.time,
    {
        self.time
    }

    pub fn get_action(&self) -> (r: Events)
        ensures
            r == self.action,
    {
        self.action.duplicate()
    }

    /// A copy of the event.
    pub fn duplicate(&self) -> (r: Event)
        ensures
            r == *self,
    {
        Event { id: self.id.clone(), time: self.time, action: self.action.duplicate() }
    }
}

/// Events are in non-decreasing order of time.
pub open spec fn is_time_ordered(s: Seq<Event>) -> bool {
    forall|i: int, j: int| 0 <= i < j < s.len() ==> s[i].time.millis <= s[j].time.millis
}

/// Where an event at time `t` goes: before the first event whose time is
/// after `t`, so after every event at `t` or earlier; at the end if there is
/// none.
pub open spec fn insert_position(s: Seq<Event>, t: u32) -> nat
    decreases s.len(),
{
    if s.len() == 0 {
        0
    } else if s[0].time.millis > t {
        0
    } else {
        1 + insert_position(s.drop_first(), t)
    }
}

/// The insertion position is the first index whose time is after `t`.
pub proof fn lemma_insert_position(s: Seq<Event>, t: u32)
    ensures
        insert_position(s, t) <= s.len(),
        forall|j: int| 0 <= j < insert_position(s, t) ==> s[j].time.millis <= t,
        insert_position(s, t) < s.len() ==> s[insert_position(s, t) as int].time.millis > t,
    decreases s.len(),
{
    if s.len() > 0 && s[0].time.millis <= t {
        lemma_insert_position(s.drop_first(), t);
        assert forall|j: int| 0 <= j < insert_position(s, t) implies s[j].time.millis <= t by {
            if j > 0 {
                assert(s[j] == s.drop_first()[j - 1]);
            }
        }
    }
}

/// Any index that is the first after `t` is the insertion position.
pub proof fn lemma_insert_position_unique(s: Seq<Event>, t: u32, p: int)
    requires
        0 <= p <= s.len(),
        forall|j: int| 0 <= j < p ==> s[j].time.millis <= t,
        p < s.len() ==> s[p].time.millis > t,
    ensures
        insert_position(s, t) == p,
{
    lemma_insert_position(s, t);
    let q = insert_position(s, t) as int;
    if q < p {
        assert(s[q].time.millis <= t);
    }
    if p < q {
        assert(s[p].time.millis <= t);
    }
}

/// Inserting at the insertion position keeps a time-ordered list ordered.
pub proof fn lemma_insert_keeps_order(s: Seq<Event>, e: Event)
    requires
        is_time_ordered(s),
    ensures
        is_time_ordered(s.insert(insert_position(s, e.time.millis) as int, e)),
{
    lemma_insert_position(s, e.time.millis);
    let p = insert_position(s, e.time.millis) as int;
    let r = s.insert(p, e);
    assert forall|i: int, j: int| 0 <= i < j < r.len() implies r[i].time.millis
        <= r[j].time.millis by {
        if j < p {
        } else if j == p {
            assert(r[i] == s[i]);
        } else if i < p {
            assert(r[j] == s[j - 1]);
            assert(s[i].time.millis <= e.time.millis);
            if p < s.len() {
                assert(s[p].time.millis > e.time.millis);
            }
        } else if i == p {
            assert(r[j] == s[j - 1]);
            assert(s[p].time.millis > e.time.millis);
        } else {
            assert(r[j] == s[j - 1]);
            assert(r[i] == s[i - 1]);
        }
    }
}

/// Two events with equal times inserted one after the other keep the order
/// in which they were inserted: the second lands immediately after the
/// first, and every other event keeps its place relative to both.
pub proof fn lemma_equal_time_insertions(s: Seq<Event>, a: Event, b: Event)
    requires
        a.time == b.time,
    ensures
        ({
            let p = insert_position(s, a.time.millis) as int;
            let s1 = s.insert(p, a);
            &&& insert_position(s1, b.time.millis) == p + 1
            &&& s1.insert(p + 1, b) == s.insert(p, a).insert(p + 1, b)
            &&& s1.insert(p + 1, b)[p] == a
            &&& s1.insert(p + 1, b)[p + 1] == b
        }),
{
    let t = a.time.millis;
    lemma_insert_position(s, t);
    let p = insert_position(s, t) as int;
    let s1 = s.insert(p, a);
    assert forall|j: int| 0 <= j < p + 1 implies s1[j].time.millis <= t by {
        if j < p {
            assert(s1[j] == s[j]);
        }
    }
    if p + 1 < s1.len() {
        assert(s1[p + 1] == s[p]);
    }
    lemma_insert_position_unique(s1, t, p + 1);
}

/// A number for each kind of action: 0 for `Create`, 1 for `Move`, 2 for
/// `Delete`, 3 for `Message`.
pub open spec fn kind_of(a: Events) -> nat {
    match a {
        Events::Create(_) => 0,
        Events::Move(_) => 1,
        Events::Delete(_) => 2,
        Events::Message(_) => 3,
    }
}

/// How many events of a kind a list holds.
pub open spec fn count_kind(s: Seq<Event>, k: nat) -> nat
    decreases s.len(),
{
    if s.len() == 0 {
        0
    } else {
        count_kind(s.drop_last(), k) + if kind_of(s.last().action) == k {
            1nat
        } else {
            0nat
        }
    }
}

/// A count of a kind is at most the length of the list.
pub proof fn lemma_count_bound(s: Seq<Event>, k: nat)
    ensures
        count_kind(s, k) <= s.len(),
    decreases s.len(),
{
    if s.len() > 0 {
        lemma_count_bound(s.drop_last(), k);
    }
}

/// Inserting an event adds one to the count of its kind only.
pub proof fn lemma_count_insert(s: Seq<Event>, p: int, e: Event, k: nat)
    requires
        0 <= p <= s.len(),
    ensures
        count_kind(s.insert(p, e), k) == count_kind(s, k) + if kind_of(e.action) == k {
            1nat
        } else {
            0nat
        },
    decreases s.len(),
{
    if p == s.len() {
        assert(s.insert(p, e).drop_last() =~= s);
    } else {
        assert(s.insert(p, e).drop_last() =~= s.drop_last().insert(p, e));
        lemma_count_insert(s.drop_last(), p, e, k);
    }
}

/// What happens at an event, as plain values.
pub enum ActionView {
    Create(usize),
    Move(usize),
    Delete(usize),
    Message(Seq<char>),
}

/// An event as plain values.
pub struct EventView {
    pub id: Seq<char>,
    pub time: TimeOfDay,
    pub action: ActionView,
}

pub open spec fn action_view(a: Events) -> ActionView {
    match a {
        Events::Create(n) => ActionView::Create(n),
        Events::Move(n) => ActionView::Move(n),
        Events::Delete(n) => ActionView::Delete(n),
        Events::Message(m) => ActionView::Message(m@),
    }
}

/// The payload of a message; empty for any other action.
pub open spec fn view_message(a: ActionView) -> Seq<char> {
    match a {
        ActionView::Message(m) => m,
        _ => Seq::empty(),
    }
}

pub open spec fn event_view(e: Event) -> EventView {
    EventView { id: e.id@, time: e.time, action: action_view(e.action) }
}

/// The events of a list as plain values.
pub open spec fn list_view(s: Seq<Event>) -> Seq<EventView> {
    s.map_values(|e: Event| event_view(e))
}

/// Where an event at time `t` goes in a list of plain events.
pub open spec fn view_insert_position(s: Seq<EventView>, t: u32) -> nat
    decreases s.len(),
{
    if s.len() == 0 {
        0
    } else if s[0].time.millis > t {
        0
    } else {
        1 + view_insert_position(s.drop_first(), t)
    }
}

pub proof fn lemma_view_insert_position(s: Seq<Event>, t: u32)
    ensures
        view_insert_position(list_view(s), t) == insert_position(s, t),
    decreases s.len(),
{
    if s.len() > 0 {
        assert(list_view(s).drop_first() =~= list_view(s.drop_first()));
        lemma_view_insert_position(s.drop_first(), t);
    }
}

/// The events of a simulation, ordered by time.
#[derive(Clone, Debug)]
pub struct EventList {
    pub events: Vec<Event>,
}

impl EventList {
    pub fn new() -> (r: EventList)
        ensures
            r.events@.len() == 0,
    {
        EventList { events: Vec::new() }
    }

    /// Inserts an event after every event at its time or earlier, before the
    /// first later one; equal-time events keep the order of insertion.
    pub fn add_event(&mut self, event: Event)
        ensures
            final(self).events@ == old(self).events@.insert(
                insert_position(old(self).events@, event.time.millis) as int,
                event,
            ),
            is_time_ordered(old(self).events@) ==> is_time_ordered(final(self).events@),
    {
        let ghost s = self.events@;
        let t = event.time.millis;
        let len = self.events.len();
        let mut i: usize = 0;
        while i < len && self.events[i].time.millis <= t
            invariant
                len == self.events@.len(),
                self.events@ == s,
                i <= len,
                forall|j: int| 0 <= j < i ==> s[j].time.millis <= t,
            decreases len - i,
        {
            i = i + 1;
        }
        proof {
            lemma_insert_position_unique(s, t, i as int);
            if is_time_ordered(s) {
                lemma_insert_keeps_order(s, event);
            }
        }
        self.events.insert(i, event);
    }

    pub fn get_eventlist_length(&self) -> (r: usize)
        ensures
            r == self.events@.len(),
    {
        self.events.len()
    }

    /// The events, for changing them in place.
    pub fn get_event_list_mut(&mut self) -> (r: &mut Vec<Event>)
        ensures
            *r == old(self).events,
            final(self).events == *final(r),
    {
        &mut self.events
    }

    pub fn get_event_list(&self) -> (r: &[Event])
        ensures
            r@ == self.events@,
    {
        self.events.as_slice()
    }

    pub fn get_event_list_copy(&self) -> (r: Vec<Event>)
        ensures
            r@ == self.events@,
    {
        let mut r: Vec<Event> = Vec::new();
        let mut i: usize = 0;
        while i < self.events.len()
            invariant
                i <= self.events@.len(),
                r@ == self.events@.subrange(0, i as int),
            decreases self.events@.len() - i,
        {
            r.push(self.events[i].duplicate());
            i = i + 1;
            assert(r@ =~= self.events@.subrange(0, i as int));
        }
        assert(self.events@.subrange(0, i as int) =~= self.events@);
        r
    }
}

} // verus!
