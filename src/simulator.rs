//! The simulator: movement of objects over the graph, periodic sensor
//! uplinks, and the sweep that runs the rules over the event list.
use vstd::prelude::*;
use crate::engine::{
    evaluate_rule, fire_action, fire_view, no_reading, no_reading_text, rule_outcome, rule_table,
    table_view, RecordView, SensorRecord,
};
use crate::event::{list_view, view_insert_position, view_message, ActionView, EventView};
use crate::sensor::Sensor;
use crate::rule::{Action, Condition, RefValue, Rule};
use crate::sensor::SensorType;
use crate::parameters::DeviceProfile;
use crate::text::{parse_digits, parse_u64, piece, piece_text, strip_prefix, strip_prefix_text};
use crate::outside::now_millis;
use crate::error::SimError;
use crate::evaluation::Evaluation;
use crate::event::{count_kind, is_time_ordered, lemma_count_insert, insert_position, Event, EventList, Events};
use crate::outside::{random_below, simple_paths, subsecond_millis};
use crate::parameters::Parameters;
use crate::structure::{indices_below, is_route, is_walk, joined, UnderlyingStructure};
use crate::text::{contains_text, dec, find, replace_first, replace_first_text, u64_to_text};
use crate::parameters::{profile_index, uplink_template};
use crate::time::TimeOfDay;

verus! {

/// Minutes an object stays at a destination before heading back.
pub const DWELL_SHORT: i64 = 6;
pub const DWELL_MEDIUM: i64 = 13;
pub const DWELL_LONG: i64 = 25;

/// Milliseconds between arriving home and setting out again.
pub const EXCURSION_GAP_MILLIS: i64 = 5_400_000;

/// The id of an event of a movable object: `Movable_object_<i><tail>`.
pub open spec fn object_event_id(i: nat, tail: Seq<char>) -> Seq<char> {
    "Movable_object_"@ + dec(i) + tail
}

/// The id of move number `k` of object `i`.
pub open spec fn move_id(i: nat, k: nat) -> Seq<char> {
    object_event_id(i, "_Move_no._"@ + dec(k))
}

fn object_id(i: u32, tail: &str) -> (r: String)
    ensures
        r@ == object_event_id(i as nat, tail@),
{
    let mut r = String::from_str("Movable_object_");
    r.append(u64_to_text(i as u64).as_str());
    r.append(tail);
    r
}

fn move_event_id(i: u32, k: u64) -> (r: String)
    ensures
        r@ == move_id(i as nat, k as nat),
{
    let mut tail = String::from_str("_Move_no._");
    tail.append(u64_to_text(k).as_str());
    let r = object_id(i, tail.as_str());
    assert(r@ =~= move_id(i as nat, k as nat));
    r
}

/// Digits followed by a text that starts with a non-digit split in one way
/// only.
proof fn lemma_digits_split(a: Seq<char>, x: Seq<char>, b: Seq<char>, y: Seq<char>)
    requires
        crate::text::all_digits(a),
        crate::text::all_digits(b),
        x.len() > 0,
        y.len() > 0,
        !crate::text::is_digit(x[0]),
        !crate::text::is_digit(y[0]),
        a + x == b + y,
    ensures
        a == b,
        x == y,
{
    if a.len() < b.len() {
        assert((a + x)[a.len() as int] == x[0]);
        assert((b + y)[a.len() as int] == b[a.len() as int]);
    } else if b.len() < a.len() {
        assert((b + y)[b.len() as int] == y[0]);
        assert((a + x)[b.len() as int] == a[b.len() as int]);
    }
    assert(a =~= (a + x).subrange(0, a.len() as int));
    assert(b =~= (b + y).subrange(0, b.len() as int));
    assert(x =~= (a + x).subrange(a.len() as int, (a + x).len() as int));
    assert(y =~= (b + y).subrange(b.len() as int, (b + y).len() as int));
}

/// Ids of objects' events name one object and one tail each.
pub proof fn lemma_object_id_injective(i: nat, x: Seq<char>, j: nat, y: Seq<char>)
    requires
        x.len() > 0 && x[0] == '_',
        y.len() > 0 && y[0] == '_',
        object_event_id(i, x) == object_event_id(j, y),
    ensures
        i == j,
        x == y,
{
    reveal_strlit("Movable_object_");
    let pre = "Movable_object_"@;
    let a = object_event_id(i, x);
    assert(a.subrange(pre.len() as int, a.len() as int) =~= dec(i) + x);
    let b = object_event_id(j, y);
    assert(b.subrange(pre.len() as int, b.len() as int) =~= dec(j) + y);
    crate::text::lemma_dec(i);
    crate::text::lemma_dec(j);
    lemma_digits_split(dec(i), x, dec(j), y);
    crate::text::lemma_dec_injective(i, j);
}

/// Move ids name one object and one move number each, and differ from the
/// ids of creations and deletions.
pub proof fn lemma_move_id_injective(i: nat, k: nat, j: nat, q: nat)
    ensures
        move_id(i, k) == move_id(j, q) ==> i == j && k == q,
        move_id(i, k) != object_event_id(j, "_Creation"@),
        move_id(i, k) != object_event_id(j, "_Deletion"@),
        object_event_id(i, "_Creation"@) != object_event_id(j, "_Deletion"@),
        object_event_id(i, "_Creation"@) == object_event_id(j, "_Creation"@) ==> i == j,
        object_event_id(i, "_Deletion"@) == object_event_id(j, "_Deletion"@) ==> i == j,
{
    reveal_strlit("_Move_no._");
    reveal_strlit("_Creation");
    reveal_strlit("_Deletion");
    let t = "_Move_no._"@;
    let tk = t + dec(k);
    let tq = t + dec(q);
    assert(tk[0] == '_' && tq[0] == '_');
    if move_id(i, k) == move_id(j, q) {
        lemma_object_id_injective(i, tk, j, tq);
        assert(dec(k) =~= tk.subrange(10, tk.len() as int));
        assert(dec(q) =~= tq.subrange(10, tq.len() as int));
        crate::text::lemma_dec_injective(k, q);
    }
    if move_id(i, k) == object_event_id(j, "_Creation"@) {
        lemma_object_id_injective(i, tk, j, "_Creation"@);
        assert(tk[1] == 'M');
    }
    if move_id(i, k) == object_event_id(j, "_Deletion"@) {
        lemma_object_id_injective(i, tk, j, "_Deletion"@);
        assert(tk[1] == 'M');
    }
    if object_event_id(i, "_Creation"@) == object_event_id(j, "_Deletion"@) {
        lemma_object_id_injective(i, "_Creation"@, j, "_Deletion"@);
        assert("_Creation"@[1] != "_Deletion"@[1]);
    }
    if object_event_id(i, "_Creation"@) == object_event_id(j, "_Creation"@) {
        lemma_object_id_injective(i, "_Creation"@, j, "_Creation"@);
    }
    if object_event_id(i, "_Deletion"@) == object_event_id(j, "_Deletion"@) {
        lemma_object_id_injective(i, "_Deletion"@, j, "_Deletion"@);
    }
}

/// The event list holds exactly `c` creations and `c` deletions, in time
/// order.
pub open spec fn movement_counts(s: Seq<Event>, c: nat) -> bool {
    &&& is_time_ordered(s)
    &&& count_kind(s, 0) == c
    &&& count_kind(s, 2) == c
}

/// Some event of the list has the property.
pub open spec fn some_event(s: Seq<Event>, f: spec_fn(Event) -> bool) -> bool {
    exists|j: int| 0 <= j < s.len() && f(#[trigger] s[j])
}

/// Every event of the list has the property.
pub open spec fn every_event(s: Seq<Event>, f: spec_fn(Event) -> bool) -> bool {
    forall|j: int| 0 <= j < s.len() ==> f(#[trigger] s[j])
}

/// Inserting an event keeps the events that were there.
pub proof fn lemma_insert_keeps_events(s: Seq<Event>, p: int, e: Event, f: spec_fn(Event) -> bool)
    requires
        0 <= p <= s.len(),
    ensures
        some_event(s, f) ==> some_event(s.insert(p, e), f),
        every_event(s, f) && f(e) ==> every_event(s.insert(p, e), f),
{
    let t = s.insert(p, e);
    if some_event(s, f) {
        let j = choose|j: int| 0 <= j < s.len() && f(#[trigger] s[j]);
        let j2 = if j < p { j } else { j + 1 };
        assert(t[j2] == s[j]);
    }
    if every_event(s, f) && f(e) {
        assert forall|j: int| 0 <= j < t.len() implies f(#[trigger] t[j]) by {
            if j < p {
                assert(t[j] == s[j]);
            } else if j > p {
                assert(t[j] == s[j - 1]);
            }
        }
    }
}

/// The node an event of a movable object names, if any.
pub open spec fn node_of(a: Events) -> Option<usize> {
    match a {
        Events::Create(v) => Some(v),
        Events::Move(v) => Some(v),
        Events::Delete(v) => Some(v),
        Events::Message(_) => None,
    }
}

/// The event names a node below `n`, or none.
pub open spec fn on_graph(n: nat) -> spec_fn(Event) -> bool {
    |e: Event| node_of(e.action) is None || node_of(e.action).unwrap() < n
}

/// The id names object `i`: its creation, its deletion, or one of its moves.
pub open spec fn id_of_object(id: Seq<char>, i: nat) -> bool {
    id == object_event_id(i, "_Creation"@) || id == object_event_id(i, "_Deletion"@) || exists|
        k: nat,
    | id == #[trigger] move_id(i, k)
}

/// The event's id names an object below `c`.
pub open spec fn of_objects(c: nat) -> spec_fn(Event) -> bool {
    |e: Event| exists|i: nat| i < c && #[trigger] id_of_object(e.id@, i)
}

/// The creation of object `i` at one of the nodes.
pub open spec fn created(i: nat, nodes: Seq<usize>) -> spec_fn(Event) -> bool {
    |e: Event|
        e.id@ == object_event_id(i, "_Creation"@) && e.action is Create && nodes.contains(
            node_of(e.action).unwrap(),
        )
}

/// The deletion of object `i` at one of the nodes.
pub open spec fn deleted(i: nat, nodes: Seq<usize>) -> spec_fn(Event) -> bool {
    |e: Event|
        e.id@ == object_event_id(i, "_Deletion"@) && e.action is Delete && nodes.contains(
            node_of(e.action).unwrap(),
        )
}

/// Every object below `c` has a creation at a start node and a deletion at
/// an end node; every event names one of the objects and a node of the
/// graph.
pub open spec fn objects_placed<N, E>(s: Seq<Event>, c: nat, st: UnderlyingStructure<N, E>) -> bool {
    &&& forall|i: nat| i < c ==> #[trigger] some_event(s, created(i, st.start_nodes@))
    &&& forall|i: nat| i < c ==> #[trigger] some_event(s, deleted(i, st.end_nodes@))
    &&& every_event(s, of_objects(c))
    &&& every_event(s, on_graph(st.nodes@.len()))
}

/// No two events of the list share an id.
pub open spec fn ids_unique(s: Seq<Event>) -> bool {
    forall|x: int, y: int|
        0 <= x < s.len() && 0 <= y < s.len() && x != y ==> (#[trigger] s[x]).id@ != (
        #[trigger] s[y]).id@
}

/// The event has another id.
pub open spec fn other_id(id: Seq<char>) -> spec_fn(Event) -> bool {
    |e: Event| e.id@ != id
}

/// An event with a new id keeps the ids unique.
proof fn lemma_unique_insert(s: Seq<Event>, p: int, e: Event)
    requires
        0 <= p <= s.len(),
        ids_unique(s),
        every_event(s, other_id(e.id@)),
    ensures
        ids_unique(s.insert(p, e)),
{
    let t = s.insert(p, e);
    assert forall|x: int, y: int|
        0 <= x < t.len() && 0 <= y < t.len() && x != y implies (#[trigger] t[x]).id@ != (
        #[trigger] t[y]).id@ by {
        let x0 = if x < p { x } else { x - 1 };
        let y0 = if y < p { y } else { y - 1 };
        if x == p {
            assert(other_id(e.id@)(s[y0]));
            assert(t[y] == s[y0]);
        } else if y == p {
            assert(other_id(e.id@)(s[x0]));
            assert(t[x] == s[x0]);
        } else {
            assert(t[x] == s[x0]);
            assert(t[y] == s[y0]);
        }
    }
}

/// The id is one of an earlier object's, the creation of object `i`, one of
/// its first `moves` moves, or (where `del`) its deletion.
pub open spec fn belongs(id: Seq<char>, i: nat, moves: nat, del: bool) -> bool {
    (exists|o: nat| o < i && #[trigger] id_of_object(id, o)) || id == object_event_id(
        i,
        "_Creation"@,
    ) || (exists|k: nat| k < moves && id == #[trigger] move_id(i, k)) || (del && id
        == object_event_id(i, "_Deletion"@))
}

pub open spec fn belong_all(i: nat, moves: nat, del: bool) -> spec_fn(Event) -> bool {
    |e: Event| belongs(e.id@, i, moves, del)
}

/// An id of object `o` is no id of another object.
proof fn lemma_other_object(id: Seq<char>, o: nat, i: nat, k: nat)
    requires
        id_of_object(id, o),
        o != i,
    ensures
        id != move_id(i, k),
        id != object_event_id(i, "_Creation"@),
        id != object_event_id(i, "_Deletion"@),
{
    lemma_move_id_injective(i, k, o, 0);
    lemma_move_id_injective(o, 0, i, k);
    if exists|q: nat| id == #[trigger] move_id(o, q) {
        let q = choose|q: nat| id == #[trigger] move_id(o, q);
        lemma_move_id_injective(o, q, i, k);
        lemma_move_id_injective(o, q, i, 0);
    }
}

/// What belongs so far is not the next move, nor (before it is added) the
/// deletion; and it still belongs once more is added.
proof fn lemma_belongs(id: Seq<char>, i: nat, moves: nat, del: bool)
    requires
        belongs(id, i, moves, del),
    ensures
        id != move_id(i, moves),
        !del ==> id != object_event_id(i, "_Deletion"@),
        belongs(id, i, moves + 1, del),
        belongs(id, i, moves, true),
{
    lemma_move_id_injective(i, moves, i, 0);
    lemma_move_id_injective(i, 0, i, 0);
    if exists|o: nat| o < i && #[trigger] id_of_object(id, o) {
        let o = choose|o: nat| o < i && #[trigger] id_of_object(id, o);
        lemma_other_object(id, o, i, moves);
    }
    if exists|k: nat| k < moves && id == #[trigger] move_id(i, k) {
        let k = choose|k: nat| k < moves && id == #[trigger] move_id(i, k);
        lemma_move_id_injective(i, k, i, moves);
        assert(id == move_id(i, k) && k < moves + 1);
    }
}

/// Everything that belongs is no next move, and still belongs after it.
proof fn lemma_belong_all(s: Seq<Event>, i: nat, moves: nat, del: bool)
    requires
        every_event(s, belong_all(i, moves, del)),
    ensures
        every_event(s, other_id(move_id(i, moves))),
        !del ==> every_event(s, other_id(object_event_id(i, "_Deletion"@))),
        every_event(s, belong_all(i, moves + 1, del)),
        every_event(s, belong_all(i, moves, true)),
{
    assert forall|j: int| 0 <= j < s.len() implies #[trigger] other_id(move_id(i, moves))(s[j])
        && (!del ==> other_id(object_event_id(i, "_Deletion"@))(s[j])) && belong_all(i, moves + 1, del)(
        s[j],
    ) && belong_all(i, moves, true)(s[j]) by {
        assert(belong_all(i, moves, del)(s[j]));
        lemma_belongs(s[j].id@, i, moves, del);
    }
}

/// Events of earlier objects belong, and leave room for the next creation.
proof fn lemma_fresh_object(s: Seq<Event>, i: nat)
    requires
        every_event(s, of_objects(i)),
    ensures
        every_event(s, other_id(object_event_id(i, "_Creation"@))),
        every_event(s, belong_all(i, 0, false)),
{
    assert forall|j: int| 0 <= j < s.len() implies #[trigger] other_id(object_event_id(i, "_Creation"@))(s[j])
        && belong_all(i, 0, false)(s[j]) by {
        assert(of_objects(i)(s[j]));
        let o = choose|o: nat| o < i && #[trigger] id_of_object(s[j].id@, o);
        lemma_other_object(s[j].id@, o, i, 0);
    }
}

/// A list whose events name objects below `c` names objects below `d >= c`.
proof fn lemma_of_objects_weaken(s: Seq<Event>, c: nat, d: nat)
    requires
        c <= d,
        every_event(s, of_objects(c)),
    ensures
        every_event(s, of_objects(d)),
{
    assert forall|j: int| 0 <= j < s.len() implies #[trigger] of_objects(d)(s[j]) by {
        assert(of_objects(c)(s[j]));
        let i = choose|i: nat| i < c && #[trigger] id_of_object(s[j].id@, i);
        assert(id_of_object(s[j].id@, i));
    }
}

/// The nodes of a route are nodes of the graph.
proof fn lemma_route_on_graph(p: Seq<usize>, n: nat, edges: Seq<(usize, usize)>, a: usize, b: usize)
    requires
        is_route(p, n, edges, a, b),
    ensures
        p.len() >= 1,
        forall|q: int| 0 <= q < p.len() ==> p[q] < n,
{
    if p == seq![a] {
        assert(p[0] == a);
    }
}

/// Every event of the list is at a time of day.
pub open spec fn all_times_wf(s: Seq<Event>) -> bool {
    forall|j: int| 0 <= j < s.len() ==> (#[trigger] s[j]).time.wf()
}

/// Adds an event, keeping the order and counting its kind.
fn add_counted(list: &mut EventList, e: Event)
    ensures
        final(list).events@.len() == old(list).events@.len() + 1,
        final(list).events@ == old(list).events@.insert(
            insert_position(old(list).events@, e.time.millis) as int,
            e,
        ),
        all_times_wf(old(list).events@) && e.time.wf() ==> all_times_wf(final(list).events@),
        forall|f: spec_fn(Event) -> bool|
            some_event(old(list).events@, f) || f(e) ==> #[trigger] some_event(final(list).events@, f),
        forall|f: spec_fn(Event) -> bool|
            every_event(old(list).events@, f) && f(e) ==> #[trigger] every_event(final(list).events@, f),
        ids_unique(old(list).events@) && every_event(old(list).events@, other_id(e.id@)) ==> ids_unique(
            final(list).events@,
        ),
        is_time_ordered(old(list).events@) ==> is_time_ordered(final(list).events@),
        forall|k: nat|
            count_kind(#[trigger] final(list).events@, k) == count_kind(old(list).events@, k)
                + if crate::event::kind_of(e.action) == k {
                1nat
            } else {
                0nat
            },
{
    let ghost s = list.events@;
    let ghost p = insert_position(s, e.time.millis) as int;
    proof {
        crate::event::lemma_insert_position(s, e.time.millis);
    }
    let ghost ev = e;
    list.add_event(e);
    proof {
        assert forall|f: spec_fn(Event) -> bool|
            some_event(s, f) || f(ev) implies #[trigger] some_event(list.events@, f) by {
            lemma_insert_keeps_events(s, p, ev, f);
            if f(ev) {
                assert(list.events@[p] == ev);
            }
        }
        assert forall|f: spec_fn(Event) -> bool|
            every_event(s, f) && f(ev) implies #[trigger] every_event(list.events@, f) by {
            lemma_insert_keeps_events(s, p, ev, f);
        }
        if ids_unique(s) && every_event(s, other_id(ev.id@)) {
            lemma_unique_insert(s, p, ev);
        }
        if all_times_wf(s) && ev.time.wf() {
            assert forall|j: int| 0 <= j < list.events@.len() implies (#[trigger] list.events@[j]).time.wf() by {
                if j < p {
                    assert(list.events@[j] == s[j]);
                } else if j > p {
                    assert(list.events@[j] == s[j - 1]);
                }
            }
        }
    }
    assert forall|k: nat| count_kind(#[trigger] list.events@, k) == count_kind(s, k)
        + if crate::event::kind_of(ev.action) == k {
        1nat
    } else {
        0nat
    } by {
        lemma_count_insert(s, p, ev, k);
    }
}

/// The times of a series that starts at `first` (milliseconds, possibly
/// outside the day) and repeats every `step` milliseconds up to `last`, each
/// taken around the 24-hour circle.
pub open spec fn series_time(first: int, step: int, k: int) -> int {
    crate::time::wrap_day(first + k * step)
}

/// How many times a series `step` apart covers a stretch of `d`
/// milliseconds, both ends included.
pub open spec fn series_count(d: int, step: int) -> nat {
    if d < 0 {
        0
    } else {
        (d / step + 1) as nat
    }
}

proof fn lemma_series_count(d: int, step: int, n: int)
    requires
        step > 0,
        n >= 1,
        (n - 1) * step <= d < n * step,
    ensures
        series_count(d, step) == n,
{
    assert(d >= 0) by (nonlinear_arith)
        requires
            n >= 1,
            step > 0,
            (n - 1) * step <= d,
    ;
    vstd::arithmetic::div_mod::lemma_fundamental_div_mod(d, step);
    let q = d / step;
    let rem = d % step;
    assert(q == n - 1) by (nonlinear_arith)
        requires
            d == step * q + rem,
            0 <= rem < step,
            (n - 1) * step <= d < n * step,
            step > 0,
    ;
}

/// The sensor has a non-zero interval, not too long, and a non-negative
/// number.
pub open spec fn sensor_schedulable(x: Sensor) -> bool {
    x.sensor_type.uplink_interval_in_sec > 0 && x.sensor_type.uplink_interval_in_sec
        <= MAX_UPLINK_INTERVAL_SECS && x.no >= 0
}

/// The sensor can be scheduled and its profile is registered.
pub open spec fn sensor_ready(x: Sensor, profiles: Seq<DeviceProfile>) -> bool {
    sensor_schedulable(x) && profile_index(profiles, x.sensor_type.device_profile_id@) is Some
}

/// The uplinks of one sensor over a list from `ts` to `te`: one interval
/// before `ts` to one interval after `te`, every interval, all shifted by
/// `phi` milliseconds and taken around the day.
pub open spec fn sensor_series(
    x: Sensor,
    ts: int,
    te: int,
    phi: int,
    profiles: Seq<DeviceProfile>,
) -> Seq<EventView> {
    let step = (x.sensor_type.uplink_interval_in_sec * 1000) as int;
    let first = ts - step + phi;
    let id = message_id(x.no as nat, x.id@);
    let msg = uplink_template(
        profiles[profile_index(profiles, x.sensor_type.device_profile_id@).unwrap() as int].uplink_view(),
    );
    Seq::new(
        series_count(te - ts + 2 * step, step),
        |k: int|
            EventView {
                id: id,
                time: TimeOfDay { millis: series_time(first, step, k) as u32 },
                action: ActionView::Message(msg),
            },
    )
}

/// The uplinks of a list of sensors, one sensor after the other.
pub open spec fn sensors_series(
    s: Seq<Sensor>,
    ts: int,
    te: int,
    phi: int,
    profiles: Seq<DeviceProfile>,
) -> Seq<EventView>
    decreases s.len(),
{
    if s.len() == 0 {
        Seq::empty()
    } else {
        sensors_series(s.drop_last(), ts, te, phi, profiles) + sensor_series(
            s.last(),
            ts,
            te,
            phi,
            profiles,
        )
    }
}

/// The uplinks of the sensors on a list of nodes, node after node.
pub open spec fn nodes_series<N>(
    nodes: Seq<crate::structure::Node<N>>,
    ts: int,
    te: int,
    phi: int,
    profiles: Seq<DeviceProfile>,
) -> Seq<EventView>
    decreases nodes.len(),
{
    if nodes.len() == 0 {
        Seq::empty()
    } else {
        nodes_series(nodes.drop_last(), ts, te, phi, profiles) + sensors_series(
            nodes.last().sensors@,
            ts,
            te,
            phi,
            profiles,
        )
    }
}

/// The list with the events added one after the other, each after every
/// event at its time or earlier.
pub open spec fn insert_all(lv: Seq<EventView>, evs: Seq<EventView>) -> Seq<EventView>
    decreases evs.len(),
{
    if evs.len() == 0 {
        lv
    } else {
        let l = insert_all(lv, evs.drop_last());
        l.insert(view_insert_position(l, evs.last().time.millis) as int, evs.last())
    }
}

/// Uplink intervals above this many seconds are refused.
pub const MAX_UPLINK_INTERVAL_SECS: u64 = 1_000_000_000_000;

/// The times of day of a periodic series from `first` to `last`, `step`
/// milliseconds apart.
pub fn periodic_times(first: i64, last: i64, step: i64) -> (r: Vec<TimeOfDay>)
    requires
        0 < step <= 1_000_000_000_000_000,
        -2_000_000_000_000_000 <= first,
        last <= 2_000_000_000_000_000,
    ensures
        r@.len() == series_count(last - first, step as int),
        forall|k: int|
            0 <= k < r@.len() ==> (#[trigger] r@[k]).wf() && r@[k].millis == series_time(
                first as int,
                step as int,
                k,
            ),
        r@.len() == 0 || first + (r@.len() - 1) * step <= last,
        first + r@.len() * step > last,
{
    let mut r: Vec<TimeOfDay> = Vec::new();
    let mut t: i64 = first;
    let start = TimeOfDay::midnight();
    while t <= last
        invariant
            0 < step <= 1_000_000_000_000_000,
            -2_000_000_000_000_000 <= first <= t,
            start.millis == 0,
            last <= 2_000_000_000_000_000,
            t == first + r@.len() * step,
            r@.len() > 0 ==> t <= last,
            forall|k: int|
                0 <= k < r@.len() ==> (#[trigger] r@[k]).wf() && r@[k].millis == series_time(
                    first as int,
                    step as int,
                    k,
                ),
            r@.len() == 0 || first + (r@.len() - 1) * step <= last,
        decreases last + step - t,
    {
        let ghost k = r@.len() as int;
        r.push(start.add_millis(t));
        assert(r@[k].millis == series_time(first as int, step as int, k));
        if last - t < step {
            assert(first + r@.len() * step > last) by (nonlinear_arith)
                requires
                    t == first + k * step,
                    last - t < step,
                    r@.len() == k + 1,
            ;
            proof {
                lemma_series_count(last - first, step as int, k + 1);
            }
            return r;
        }
        t = t + step;
        assert(t == first + r@.len() * step) by (nonlinear_arith)
            requires
                t == first + k * step + step,
                r@.len() == k + 1,
        ;
    }
    r
}

use crate::engine::{message_event_id, message_id};

/// The sensor number in a message id `Message_of_<number>_...`.
pub open spec fn message_sensor_number(id: Seq<char>) -> Option<nat> {
    match piece(strip_prefix(id, "Message_of_"@), '_', 0) {
        None => None,
        Some(digits) => parse_digits(digits),
    }
}

/// Reads the sensor number out of a message id.
pub fn sensor_number_of_message(id: &str) -> (r: Option<u64>)
    ensures
        r.is_some() == message_sensor_number(id@).is_some(),
        r.is_some() ==> r.unwrap() as nat == message_sensor_number(id@).unwrap(),
{
    let rest = strip_prefix_text(id, "Message_of_");
    match piece_text(rest.as_str(), '_', 0) {
        None => None,
        Some(digits) => parse_u64(digits.as_str()),
    }
}

/// Reads the object number out of the id of a movable object's event.
pub fn object_number_of_event(id: &str) -> (r: Option<u64>)
    ensures
        r.is_some() == object_number(id@).is_some(),
        r.is_some() ==> r.unwrap() as nat == object_number(id@).unwrap(),
{
    let rest = strip_prefix_text(id, "Movable_object_");
    match piece_text(rest.as_str(), '_', 0) {
        None => None,
        Some(digits) => parse_u64(digits.as_str()),
    }
}

proof fn lemma_untyped_message(s: Seq<Event>, j: int, n: nat)
    requires
        0 <= j < s.len(),
        s[j].action is Message,
        !(crate::engine::sensor_type_index(s[j].id@) is Some
            && crate::engine::sensor_type_index(s[j].id@).unwrap() < n),
    ensures
        !messages_typed(s, n),
{
}

proof fn lemma_unnumbered_move(s: Seq<Event>, j: int, c: nat)
    requires
        0 <= j < s.len(),
        s[j].action is Move,
        !(object_number(s[j].id@) is Some && object_number(s[j].id@).unwrap() < c),
    ensures
        !moves_numbered(s, c),
{
}

/// Rule sweeps stop after this many events, as a safety net against rules
/// that keep feeding each other.
pub const SWEEP_STEP_LIMIT: u64 = 100_000_000;

/// A message with each `**`, from the first on, replaced by the next of the
/// replacements in turn.
pub open spec fn fill_in(msg: Seq<char>, reps: Seq<Seq<char>>) -> Seq<char>
    decreases reps.len(),
{
    if reps.len() == 0 {
        msg
    } else {
        replace_first(fill_in(msg, reps.drop_last()), "**"@, reps.last())
    }
}

/// A message filled in with the values of each sensor type whose
/// `SensorType_<name>` occurs in the event id, in the order of the types.
pub open spec fn fill_for_types(
    msg: Seq<char>,
    id: Seq<char>,
    types: Seq<Seq<char>>,
    data: Seq<Seq<Seq<char>>>,
) -> Seq<char>
    decreases types.len(),
{
    if types.len() == 0 {
        msg
    } else {
        let before = fill_for_types(msg, id, types.drop_last(), data);
        if find(id, "SensorType_"@ + types.last()).is_some() {
            fill_in(before, data[types.len() - 1])
        } else {
            before
        }
    }
}

pub open spec fn nested_views(d: Seq<Vec<String>>) -> Seq<Seq<Seq<char>>> {
    d.map_values(|v: Vec<String>| crate::parameters::views(v@))
}

fn fill_in_text(msg: String, reps: &Vec<String>) -> (r: String)
    ensures
        r@ == fill_in(msg@, crate::parameters::views(reps@)),
{
    let mut m = msg;
    let mut i: usize = 0;
    while i < reps.len()
        invariant
            i <= reps@.len(),
            m@ == fill_in(msg@, crate::parameters::views(reps@.subrange(0, i as int))),
        decreases reps@.len() - i,
    {
        proof {
            assert(crate::parameters::views(reps@.subrange(0, i + 1)).drop_last()
                =~= crate::parameters::views(reps@.subrange(0, i as int)));
            reveal_strlit("**");
        }
        m = replace_first_text(m.as_str(), "**", reps[i].as_str());
        i = i + 1;
    }
    assert(reps@.subrange(0, i as int) =~= reps@);
    m
}

fn fill_for_types_text(msg: String, id: &str, types: &Vec<String>, data: &Vec<Vec<String>>) -> (r:
    String)
    requires
        data@.len() >= types@.len(),
    ensures
        r@ == fill_for_types(
            msg@,
            id@,
            crate::parameters::views(types@),
            nested_views(data@),
        ),
{
    let mut m = msg;
    let mut i: usize = 0;
    while i < types.len()
        invariant
            i <= types@.len(),
            data@.len() >= types@.len(),
            m@ == fill_for_types(
                msg@,
                id@,
                crate::parameters::views(types@.subrange(0, i as int)),
                nested_views(data@),
            ),
        decreases types@.len() - i,
    {
        proof {
            assert(crate::parameters::views(types@.subrange(0, i + 1)).drop_last()
                =~= crate::parameters::views(types@.subrange(0, i as int)));
        }
        let mut pat = String::from_str("SensorType_");
        pat.append(types[i].as_str());
        if contains_text(id, pat.as_str()) {
            m = fill_in_text(m, &data[i]);
        }
        i = i + 1;
    }
    assert(types@.subrange(0, i as int) =~= types@);
    m
}

/// A message counts as a downlink where it holds `Downlink`, as an uplink
/// where it holds `Uplink` but not `Downlink`.
pub open spec fn is_downlink(m: Seq<char>) -> bool {
    find(m, "Downlink"@) is Some
}

pub open spec fn is_uplink(m: Seq<char>) -> bool {
    !is_downlink(m) && find(m, "Uplink"@) is Some
}

/// How many message events of sensor type `k` (any type where `k` is
/// `None`) are downlinks (`down`) or uplinks (`!down`).
pub open spec fn count_messages(s: Seq<Event>, k: Option<nat>, down: bool) -> nat
    decreases s.len(),
{
    if s.len() == 0 {
        0
    } else {
        let e = s.last();
        let m = crate::event::message_of(e.action);
        let counted = e.action is Message && (k is None || crate::engine::sensor_type_index(e.id@)
            == k) && if down {
            is_downlink(m)
        } else {
            is_uplink(m)
        };
        count_messages(s.drop_last(), k, down) + if counted {
            1nat
        } else {
            0nat
        }
    }
}

/// The downlink (`down`) or uplink counts of a per-type table, summed.
pub open spec fn sum_counts(v: Seq<(u64, u64)>, down: bool) -> int
    decreases v.len(),
{
    if v.len() == 0 {
        0
    } else {
        sum_counts(v.drop_last(), down) + if down {
            v.last().0 as int
        } else {
            v.last().1 as int
        }
    }
}

/// Adding one to an entry adds one to the sum.
proof fn lemma_sum_counts_update(v: Seq<(u64, u64)>, t: int, x: (u64, u64), down: bool)
    requires
        0 <= t < v.len(),
        down ==> x.0 == v[t].0 + 1 && x.1 == v[t].1,
        !down ==> x.1 == v[t].1 + 1 && x.0 == v[t].0,
    ensures
        sum_counts(v.update(t, x), down) == sum_counts(v, down) + 1,
        sum_counts(v.update(t, x), !down) == sum_counts(v, !down),
    decreases v.len(),
{
    let w = v.update(t, x);
    if t == v.len() - 1 {
        assert(w.drop_last() =~= v.drop_last());
    } else {
        assert(w.drop_last() =~= v.drop_last().update(t, x));
        lemma_sum_counts_update(v.drop_last(), t, x, down);
    }
}

proof fn lemma_sum_counts_zero(v: Seq<(u64, u64)>)
    requires
        forall|q: int| 0 <= q < v.len() ==> v[q] == (0u64, 0u64),
    ensures
        sum_counts(v, true) == 0,
        sum_counts(v, false) == 0,
    decreases v.len(),
{
    if v.len() > 0 {
        lemma_sum_counts_zero(v.drop_last());
    }
}

/// Every message event names a sensor type below `n` in its id.
pub open spec fn messages_typed(s: Seq<Event>, n: nat) -> bool {
    forall|j: int|
        0 <= j < s.len() && (#[trigger] s[j]).action is Message ==> {
            &&& crate::engine::sensor_type_index(s[j].id@) is Some
            &&& crate::engine::sensor_type_index(s[j].id@).unwrap() < n
        }
}

/// The object number in an event id `Movable_object_<number>_...`.
pub open spec fn object_number(id: Seq<char>) -> Option<nat> {
    match piece(strip_prefix(id, "Movable_object_"@), '_', 0) {
        None => None,
        Some(digits) => parse_digits(digits),
    }
}

/// The moves of object `n`, in list order: the object number, the time, and
/// the node.
pub open spec fn moves_of(s: Seq<Event>, n: nat) -> Seq<(usize, TimeOfDay, usize)>
    decreases s.len(),
{
    if s.len() == 0 {
        Seq::empty()
    } else {
        let e = s.last();
        match e.action {
            Events::Move(node) => if object_number(e.id@) == Some(n) {
                moves_of(s.drop_last(), n).push((n as usize, e.time, node))
            } else {
                moves_of(s.drop_last(), n)
            },
            _ => moves_of(s.drop_last(), n),
        }
    }
}

/// Every move names an object below `c` in its id.
pub open spec fn moves_numbered(s: Seq<Event>, c: nat) -> bool {
    forall|j: int|
        0 <= j < s.len() && (#[trigger] s[j]).action is Move ==> {
            &&& object_number(s[j].id@) is Some
            &&& object_number(s[j].id@).unwrap() < c
        }
}

/// How many entries of a marking are unset.
pub open spec fn count_unmarked(m: Seq<bool>) -> nat
    decreases m.len(),
{
    if m.len() == 0 {
        0
    } else {
        count_unmarked(m.drop_last()) + if m.last() {
            0nat
        } else {
            1nat
        }
    }
}

proof fn lemma_count_unmarked_none(m: Seq<bool>)
    requires
        forall|j: int| 0 <= j < m.len() ==> !m[j],
    ensures
        count_unmarked(m) == m.len(),
    decreases m.len(),
{
    if m.len() > 0 {
        lemma_count_unmarked_none(m.drop_last());
    }
}

proof fn lemma_count_unmarked_insert(m: Seq<bool>, p: int)
    requires
        0 <= p <= m.len(),
    ensures
        count_unmarked(m.insert(p, true)) == count_unmarked(m),
    decreases m.len(),
{
    if p == m.len() {
        assert(m.insert(p, true).drop_last() =~= m);
    } else {
        assert(m.insert(p, true).drop_last() =~= m.drop_last().insert(p, true));
        lemma_count_unmarked_insert(m.drop_last(), p);
    }
}

/// Some message of the list is at time `t`.
pub open spec fn has_message_at(s: Seq<Event>, t: TimeOfDay) -> bool {
    exists|k: int| 0 <= k < s.len() && (#[trigger] s[k]).action is Message && s[k].time == t
}

/// Every marked event is a downlink message one millisecond after some
/// message of the list.
pub open spec fn injected_downlinks(s: Seq<Event>, mark: Seq<bool>) -> bool {
    &&& mark.len() == s.len()
    &&& forall|j: int|
        0 <= j < s.len() && #[trigger] mark[j] ==> {
            &&& s[j].action is Message
            &&& find(crate::event::message_of(s[j].action), "Downlink_"@) is Some
            &&& exists|k: int|
                0 <= k < s.len() && (#[trigger] s[k]).action is Message && s[j].time
                    == s[k].time.add_millis_spec(1)
        }
}

/// Every sensor with a reading got it from a message of the list.
pub open spec fn readings_backed(table: Seq<SensorRecord>, s: Seq<Event>) -> bool {
    forall|n: int|
        0 <= n < table.len() && (#[trigger] table[n]).payload@ != crate::engine::no_reading()
            ==> has_message_at(s, table[n].last_time)
}

/// Sending an action keeps the messages (and their times) of the list, and
/// the downlink it adds is one millisecond after a message.
proof fn lemma_fire_keeps(
    old: Seq<Event>,
    new: Seq<Event>,
    mark: Seq<bool>,
    p: int,
    t: TimeOfDay,
    from: int,
    id: Seq<char>,
    up: Seq<char>,
)
    requires
        injected_downlinks(old, mark),
        0 <= p <= old.len(),
        new.len() == old.len() + 1,
        new[p].action is Message,
        find(crate::event::message_of(new[p].action), "Downlink_"@) is Some,
        new[p].time == t.add_millis_spec(1),
        has_message_at(old, t),
        forall|j: int|
            0 <= j < new.len() && j != p ==> crate::engine::rewritten(
                #[trigger] old.insert(p, new[p])[j],
                new[j],
                j,
                from,
                id,
                up,
            ),
    ensures
        injected_downlinks(new, mark.insert(p, true)),
        count_unmarked(mark.insert(p, true)) == count_unmarked(mark),
        forall|u: TimeOfDay| has_message_at(old, u) ==> #[trigger] has_message_at(new, u),
{
    lemma_count_unmarked_insert(mark, p);
    let ins = old.insert(p, new[p]);
    assert forall|k: int| 0 <= k < old.len() && old[k].action is Message implies {
        let k2 = if k < p { k } else { k + 1 };
        new[k2].action is Message && new[k2].time == old[k].time
    } by {
        let k2 = if k < p { k } else { k + 1 };
        assert(ins[k2] == old[k]);
        assert(crate::engine::rewritten(ins[k2], new[k2], k2, from, id, up));
    }
    assert forall|u: TimeOfDay| has_message_at(old, u) implies #[trigger] has_message_at(new, u) by {
        let k = choose|k: int| 0 <= k < old.len() && (#[trigger] old[k]).action is Message && old[k].time == u;
        let k2 = if k < p { k } else { k + 1 };
        assert(new[k2].action is Message && new[k2].time == old[k].time);
    }
    let m2 = mark.insert(p, true);
    assert forall|j: int| 0 <= j < new.len() && #[trigger] m2[j] implies {
        &&& new[j].action is Message
        &&& find(crate::event::message_of(new[j].action), "Downlink_"@) is Some
        &&& exists|k: int|
            0 <= k < new.len() && (#[trigger] new[k]).action is Message && new[j].time
                == new[k].time.add_millis_spec(1)
    } by {
        if j == p {
            assert(has_message_at(new, t));
        } else {
            let j0 = if j < p { j } else { j - 1 };
            assert(ins[j] == old[j0]);
            assert(m2[j] == mark[j0]);
            assert(crate::engine::rewritten(ins[j], new[j], j, from, id, up));
            let k = choose|k: int| 0 <= k < old.len() && (#[trigger] old[k]).action is Message && old[j0].time
                == old[k].time.add_millis_spec(1);
            let k2 = if k < p { k } else { k + 1 };
            assert(new[k2].action is Message && new[k2].time == old[k].time);
        }
    }
}

/// The list after sending the actions in order, all fired at `t` while the
/// sweep stands at `i`.
pub open spec fn fire_all(
    lv: Seq<EventView>,
    i: int,
    actions: Seq<Action>,
    t: TimeOfDay,
    types: Seq<SensorType>,
    profiles: Seq<DeviceProfile>,
) -> Result<Seq<EventView>, SimError>
    decreases actions.len(),
{
    if actions.len() == 0 {
        Ok(lv)
    } else {
        match fire_all(lv, i, actions.drop_last(), t, types, profiles) {
            Ok(l2) => fire_view(l2, i, actions.last(), t, types, profiles),
            Err(e) => Err(e),
        }
    }
}

/// The list and the table after evaluating the rules in order against the
/// table, each rule that fires sending its actions.
pub open spec fn rules_all(
    lv: Seq<EventView>,
    tv: Seq<RecordView>,
    i: int,
    rules: Seq<Rule>,
    types: Seq<SensorType>,
    profiles: Seq<DeviceProfile>,
) -> Result<(Seq<EventView>, Seq<RecordView>), SimError>
    decreases rules.len(),
{
    if rules.len() == 0 {
        Ok((lv, tv))
    } else {
        match rules_all(lv, tv, i, rules.drop_last(), types, profiles) {
            Err(e) => Err(e),
            Ok((l2, t2)) => {
                let rule = rules.last();
                let t3 = rule_table(rule, types, profiles, t2);
                match rule_outcome(rule, types, profiles, t2) {
                    Err(e) => Err(e),
                    Ok(None) => Ok((l2, t3)),
                    Ok(Some(ft)) => match fire_all(l2, i, rule.actions@, ft, types, profiles) {
                        Err(e) => Err(e),
                        Ok(l3) => Ok((l3, t3)),
                    },
                }
            },
        }
    }
}

/// The sweep of the rules over the list from position `i` on, for at most
/// `fuel` more events: each message becomes the fresh reading of its sensor,
/// then the rules are evaluated.
pub open spec fn sweep(
    lv: Seq<EventView>,
    tv: Seq<RecordView>,
    i: nat,
    fuel: nat,
    rules: Seq<Rule>,
    types: Seq<SensorType>,
    profiles: Seq<DeviceProfile>,
) -> Result<Seq<EventView>, SimError>
    decreases fuel,
{
    if fuel == 0 || i >= lv.len() {
        Ok(lv)
    } else {
        match lv[i as int].action {
            ActionView::Message(m) => match message_sensor_number(lv[i as int].id) {
                None => Err(SimError::ConfigError),
                Some(n) => if n >= tv.len() || !lv[i as int].time.wf() {
                    Err(SimError::ConfigError)
                } else {
                    let tv2 = tv.update(
                        n as int,
                        RecordView { used_by: Seq::empty(), last_time: lv[i as int].time, payload: m },
                    );
                    match rules_all(lv, tv2, i as int, rules, types, profiles) {
                        Err(e) => Err(e),
                        Ok((l2, t2)) => sweep(l2, t2, i + 1, (fuel - 1) as nat, rules, types, profiles),
                    }
                },
            },
            _ => sweep(lv, tv, i + 1, (fuel - 1) as nat, rules, types, profiles),
        }
    }
}

/// A condition compares with a reference to another device's payload,
/// which no comparison supports.
pub open spec fn uses_uplink_ref(c: Condition) -> bool {
    match c {
        Condition::Device(d) => d.threshold is UplinkRef,
        Condition::Time(_) => false,
    }
}

/// Some rule has a condition that compares with an uplink reference.
pub open spec fn rules_use_uplink_ref(rules: Seq<Rule>) -> bool {
    exists|i: int, j: int|
        0 <= i < rules.len() && 0 <= j < rules[i].conditions@.len() && uses_uplink_ref(
            #[trigger] rules[i].conditions@[j],
        )
}

/// Whether some rule compares with an uplink reference.
pub fn any_uplink_ref(rules: &Vec<Rule>) -> (r: bool)
    ensures
        r == rules_use_uplink_ref(rules@),
{
    let mut i: usize = 0;
    while i < rules.len()
        invariant
            i <= rules@.len(),
            forall|a: int, b: int|
                0 <= a < i && 0 <= b < rules@[a].conditions@.len() ==> !uses_uplink_ref(
                    #[trigger] rules@[a].conditions@[b],
                ),
        decreases rules@.len() - i,
    {
        let cs = &rules[i].conditions;
        let mut j: usize = 0;
        while j < cs.len()
            invariant
                i < rules@.len(),
                cs == &rules@[i as int].conditions,
                j <= cs@.len(),
                forall|a: int, b: int|
                    0 <= a < i && 0 <= b < rules@[a].conditions@.len() ==> !uses_uplink_ref(
                        #[trigger] rules@[a].conditions@[b],
                    ),
                forall|b: int| 0 <= b < j ==> !uses_uplink_ref(#[trigger] cs@[b]),
            decreases cs@.len() - j,
        {
            let found = match &cs[j] {
                Condition::Device(d) => match &d.threshold {
                    RefValue::UplinkRef(_, _) => true,
                    _ => false,
                },
                Condition::Time(_) => false,
            };
            if found {
                assert(uses_uplink_ref(rules@[i as int].conditions@[j as int]));
                return true;
            }
            j = j + 1;
        }
        assert forall|a: int, b: int|
            0 <= a < i + 1 && 0 <= b < rules@[a].conditions@.len() implies !uses_uplink_ref(
                #[trigger] rules@[a].conditions@[b],
            ) by {
            if a == i as int {
                assert(cs@[b] == rules@[a].conditions@[b]);
            }
        }
        i = i + 1;
    }
    false
}

/// The table a sweep starts from: `n` sensors, none with a reading.
pub open spec fn fresh_table(n: nat) -> Seq<RecordView> {
    Seq::new(
        n,
        |k: int| RecordView { used_by: Seq::empty(), last_time: TimeOfDay { millis: 0 }, payload: no_reading() },
    )
}

proof fn lemma_fire_all_err(
    lv: Seq<EventView>,
    i: int,
    actions: Seq<Action>,
    t: TimeOfDay,
    types: Seq<SensorType>,
    profiles: Seq<DeviceProfile>,
    k: int,
)
    requires
        0 <= k <= actions.len(),
        fire_all(lv, i, actions.subrange(0, k), t, types, profiles) is Err,
    ensures
        fire_all(lv, i, actions, t, types, profiles) == fire_all(lv, i, actions.subrange(0, k), t, types, profiles),
    decreases actions.len() - k,
{
    if k < actions.len() {
        assert(actions.subrange(0, k + 1).drop_last() =~= actions.subrange(0, k));
        lemma_fire_all_err(lv, i, actions, t, types, profiles, k + 1);
    } else {
        assert(actions.subrange(0, k) =~= actions);
    }
}

proof fn lemma_rules_all_err(
    lv: Seq<EventView>,
    tv: Seq<RecordView>,
    i: int,
    rules: Seq<Rule>,
    types: Seq<SensorType>,
    profiles: Seq<DeviceProfile>,
    k: int,
)
    requires
        0 <= k <= rules.len(),
        rules_all(lv, tv, i, rules.subrange(0, k), types, profiles) is Err,
    ensures
        rules_all(lv, tv, i, rules, types, profiles) == rules_all(lv, tv, i, rules.subrange(0, k), types, profiles),
    decreases rules.len() - k,
{
    if k < rules.len() {
        assert(rules.subrange(0, k + 1).drop_last() =~= rules.subrange(0, k));
        lemma_rules_all_err(lv, tv, i, rules, types, profiles, k + 1);
    } else {
        assert(rules.subrange(0, k) =~= rules);
    }
}

/// Sends the actions of a rule that fired at `t`, in order.
fn fire_rule_actions(
    event_list: &mut EventList,
    event_index: usize,
    actions: &Vec<Action>,
    t: TimeOfDay,
    types: &Vec<SensorType>,
    profiles: &Vec<DeviceProfile>,
    Ghost(mark): Ghost<Seq<bool>>,
) -> (r: (Result<(), SimError>, Ghost<Seq<bool>>))
    requires
        t.wf(),
        event_index < old(event_list).events@.len(),
        injected_downlinks(old(event_list).events@, mark),
        has_message_at(old(event_list).events@, t),
    ensures
        match fire_all(list_view(old(event_list).events@), event_index as int, actions@, t, types@, profiles@) {
            Ok(l) => r.0 is Ok && list_view(final(event_list).events@) == l,
            Err(e) => r.0 == Err::<(), SimError>(e),
        },
        injected_downlinks(final(event_list).events@, r.1@),
        count_unmarked(r.1@) == count_unmarked(mark),
        final(event_list).events@.len() >= old(event_list).events@.len(),
        is_time_ordered(old(event_list).events@) ==> is_time_ordered(final(event_list).events@),
        forall|u: TimeOfDay| has_message_at(old(event_list).events@, u) ==> #[trigger] has_message_at(final(event_list).events@, u),
{
    let ghost l0 = list_view(event_list.events@);
    let ghost s0 = event_list.events@;
    let ghost mut m = mark;
    let mut a: usize = 0;
    while a < actions.len()
        invariant
            t.wf(),
            a <= actions@.len(),
            l0 == list_view(s0),
            s0 == old(event_list).events@,
            event_index < event_list.events@.len(),
            event_list.events@.len() >= s0.len(),
            is_time_ordered(s0) ==> is_time_ordered(event_list.events@),
            injected_downlinks(event_list.events@, m),
            count_unmarked(m) == count_unmarked(mark),
            has_message_at(event_list.events@, t),
            forall|u: TimeOfDay| has_message_at(s0, u) ==> #[trigger] has_message_at(event_list.events@, u),
            fire_all(l0, event_index as int, actions@.subrange(0, a as int), t, types@, profiles@)
                == Ok::<Seq<EventView>, SimError>(list_view(event_list.events@)),
        decreases actions@.len() - a,
    {
        let ghost old_list = event_list.events@;
        proof {
            assert(actions@.subrange(0, a + 1).drop_last() =~= actions@.subrange(0, a as int));
            assert(actions@.subrange(0, a + 1).last() == actions@[a as int]);
        }
        match fire_action(event_list, event_index, &actions[a], t, types, profiles) {
            Err(e) => {
                proof {
                    lemma_fire_all_err(l0, event_index as int, actions@, t, types@, profiles@, a + 1);
                }
                return (Err(e), Ghost(m));
            },
            Ok(_) => {},
        }
        proof {
            let plan = crate::engine::action_plan(actions@[a as int], types@, profiles@);
            let (down, up) = plan.unwrap();
            let id = crate::engine::message_id(actions@[a as int].sensor_number as nat, actions@[a as int].sensor_id@);
            let p = insert_position(old_list, t.add_millis_spec(1).millis) as int;
            crate::event::lemma_insert_position(old_list, t.add_millis_spec(1).millis);
            let new_list = event_list.events@;
            crate::engine::lemma_downlink_text_marked(new_list[p], down);
            lemma_fire_keeps(old_list, new_list, m, p, t, event_index as int, id, up);
            m = m.insert(p, true);
        }
        a = a + 1;
    }
    proof {
        assert(actions@.subrange(0, a as int) =~= actions@);
    }
    (Ok(()), Ghost(m))
}

/// Evaluates the rules in order while the sweep stands at `event_index`,
/// sending the actions of each rule that fires.
fn run_rules(
    event_list: &mut EventList,
    table: &mut Vec<SensorRecord>,
    event_index: usize,
    rules: &Vec<Rule>,
    types: &Vec<SensorType>,
    profiles: &Vec<DeviceProfile>,
    Ghost(mark): Ghost<Seq<bool>>,
) -> (r: (Result<(), SimError>, Ghost<Seq<bool>>))
    requires
        event_index < old(event_list).events@.len(),
        injected_downlinks(old(event_list).events@, mark),
        readings_backed(old(table)@, old(event_list).events@),
        forall|n: int| 0 <= n < old(table)@.len() ==> (#[trigger] old(table)@[n]).last_time.wf(),
    ensures
        match rules_all(list_view(old(event_list).events@), table_view(old(table)@), event_index as int, rules@, types@, profiles@) {
            Ok((l, tt)) => r.0 is Ok && list_view(final(event_list).events@) == l && table_view(final(table)@) == tt,
            Err(e) => r.0 == Err::<(), SimError>(e),
        },
        injected_downlinks(final(event_list).events@, r.1@),
        count_unmarked(r.1@) == count_unmarked(mark),
        readings_backed(final(table)@, final(event_list).events@),
        forall|n: int| 0 <= n < final(table)@.len() ==> (#[trigger] final(table)@[n]).last_time.wf(),
        final(event_list).events@.len() >= old(event_list).events@.len(),
        is_time_ordered(old(event_list).events@) ==> is_time_ordered(final(event_list).events@),
{
    let ghost l0 = list_view(event_list.events@);
    let ghost t0 = table_view(table@);
    let ghost s0 = event_list.events@;
    let ghost mut m = mark;
    let mut q: usize = 0;
    while q < rules.len()
        invariant
            q <= rules@.len(),
            l0 == list_view(s0),
            s0 == old(event_list).events@,
            t0 == table_view(old(table)@),
            event_index < event_list.events@.len(),
            event_list.events@.len() >= s0.len(),
            is_time_ordered(s0) ==> is_time_ordered(event_list.events@),
            injected_downlinks(event_list.events@, m),
            count_unmarked(m) == count_unmarked(mark),
            readings_backed(table@, event_list.events@),
            forall|n: int| 0 <= n < table@.len() ==> (#[trigger] table@[n]).last_time.wf(),
            rules_all(l0, t0, event_index as int, rules@.subrange(0, q as int), types@, profiles@)
                == Ok::<(Seq<EventView>, Seq<RecordView>), SimError>(
                (list_view(event_list.events@), table_view(table@)),
            ),
        decreases rules@.len() - q,
    {
        let ghost before = table@;
        proof {
            assert(rules@.subrange(0, q + 1).drop_last() =~= rules@.subrange(0, q as int));
            assert(rules@.subrange(0, q + 1).last() == rules@[q as int]);
        }
        let res = evaluate_rule(&rules[q], types, profiles, table);
        proof {
            crate::engine::lemma_rule_table_keeps(rules@[q as int], types@, profiles@, table_view(before));
            assert forall|n: int| 0 <= n < table@.len() implies (#[trigger] table@[n]).last_time.wf() by {
                assert(table_view(table@)[n].last_time == table_view(before)[n].last_time);
            }
            assert forall|k: int|
                0 <= k < table@.len() && (#[trigger] table@[k]).payload@ != no_reading() implies has_message_at(
                event_list.events@,
                table@[k].last_time,
            ) by {
                assert(table_view(table@)[k].last_time == table_view(before)[k].last_time);
                assert(table_view(table@)[k].payload == table_view(before)[k].payload);
                assert(before[k].payload@ == table_view(before)[k].payload);
            }
        }
        let fired = match res {
            Err(e) => {
                proof {
                    lemma_rules_all_err(l0, t0, event_index as int, rules@, types@, profiles@, q + 1);
                }
                return (Err(e), Ghost(m));
            },
            Ok(f) => f,
        };
        match fired {
            None => {},
            Some(t) => {
                proof {
                    crate::engine::lemma_latest_is_reading(rules@[q as int], types@, profiles@, table_view(before));
                    let nn = choose|nn: int|
                        0 <= nn < table_view(before).len() && table_view(before)[nn].payload != no_reading()
                            && table_view(before)[nn].last_time == t;
                    assert(before[nn].payload@ == table_view(before)[nn].payload);
                    assert(has_message_at(event_list.events@, before[nn].last_time));
                    assert(before[nn].last_time.wf());
                }
                let ghost l_before = event_list.events@;
                let (res, m2) = fire_rule_actions(event_list, event_index, &rules[q].actions, t, types, profiles, Ghost(m));
                proof {
                    m = m2@;
                    assert forall|k: int|
                        0 <= k < table@.len() && (#[trigger] table@[k]).payload@ != no_reading() implies has_message_at(
                        event_list.events@,
                        table@[k].last_time,
                    ) by {
                        assert(has_message_at(l_before, table@[k].last_time));
                    }
                }
                match res {
                    Err(e) => {
                        proof {
                            lemma_rules_all_err(l0, t0, event_index as int, rules@, types@, profiles@, q + 1);
                        }
                        return (Err(e), Ghost(m));
                    },
                    Ok(_) => {},
                }
            },
        }
        q = q + 1;
    }
    proof {
        assert(rules@.subrange(0, q as int) =~= rules@);
    }
    (Ok(()), Ghost(m))
}

pub struct Simulator<N, E> {
    pub parameters: Parameters<N, E>,
    pub event_list: EventList,
    pub evaluation: Evaluation,
    pub node_of_stays: Vec<(usize, u32)>,
}

impl<N, E> Simulator<N, E> {
    pub fn new(parameters: Parameters<N, E>) -> (r: Simulator<N, E>)
        ensures
            r.parameters == parameters,
            r.event_list.events@.len() == 0,
            r.node_of_stays@.len() == 0,
    {
        Simulator {
            parameters,
            event_list: EventList::new(),
            evaluation: Evaluation::new(),
            node_of_stays: Vec::new(),
        }
    }

    pub fn get_event_list(&self) -> (r: &EventList)
        ensures
            *r == self.event_list,
    {
        &self.event_list
    }

    pub fn get_event_list_mut(&mut self) -> (r: &mut EventList)
        ensures
            *r == old(self).event_list,
            final(self).event_list == *final(r),
            final(self).parameters == old(self).parameters,
            final(self).node_of_stays == old(self).node_of_stays,
    {
        &mut self.event_list
    }

    pub fn get_parameters_mut(&mut self) -> (r: &mut Parameters<N, E>)
        ensures
            *r == old(self).parameters,
            final(self).parameters == *final(r),
            final(self).event_list == old(self).event_list,
            final(self).node_of_stays == old(self).node_of_stays,
    {
        &mut self.parameters
    }

    pub fn get_parameters(&self) -> (r: &Parameters<N, E>)
        ensures
            *r == self.parameters,
    {
        &self.parameters
    }

    pub fn get_evaluation(&self) -> (r: &Evaluation)
        ensures
            *r == self.evaluation,
    {
        &self.evaluation
    }

    /// The home node of each movable object, with the object's number.
    pub fn get_node_of_stays(&self) -> (r: &Vec<(usize, u32)>)
        ensures
            r@ == self.node_of_stays@,
    {
        &self.node_of_stays
    }

    fn add_node_of_movable_object(&mut self, node_of_movable_object: (usize, u32))
        ensures
            final(self).node_of_stays@ == old(self).node_of_stays@.push(node_of_movable_object),
            final(self).parameters == old(self).parameters,
            final(self).event_list == old(self).event_list,
            final(self).evaluation == old(self).evaluation,
    {
        self.node_of_stays.push(node_of_movable_object);
    }

    /// A route over the graph from `start` to `to`, or, where `to` is `None`,
    /// to a node drawn from `possible`: the single node where both ends are
    /// the same, else one drawn from all simple paths between the two. Fails
    /// with `TopologyError` where there is none, and only then.
    fn search_path(
        structure: &UnderlyingStructure<N, E>,
        edges: &Vec<(usize, usize)>,
        start: usize,
        possible: &Vec<usize>,
        to: Option<usize>,
    ) -> (r: Result<Vec<usize>, SimError>)
        requires
            structure.wf(),
            edges@ == structure.edge_list(),
            start < structure.nodes@.len(),
            possible@.len() > 0,
            indices_below(possible@, structure.nodes@.len()),
            to.is_some() ==> to.unwrap() < structure.nodes@.len(),
        ensures
            r.is_err() ==> r == Err::<Vec<usize>, SimError>(SimError::TopologyError),
            r.is_ok() ==> is_route(
                r.unwrap()@,
                structure.nodes@.len(),
                edges@,
                start,
                r.unwrap()@.last(),
            ),
            r.is_ok() && to.is_some() ==> r.unwrap()@.last() == to.unwrap(),
            r.is_ok() && to.is_none() ==> possible@.contains(r.unwrap()@.last()),
            to.is_some() && joined(structure.nodes@.len(), edges@, start, to.unwrap()) ==> r.is_ok(),
            to.is_none() && (forall|j: int|
                0 <= j < possible@.len() ==> joined(
                    structure.nodes@.len(),
                    edges@,
                    start,
                    #[trigger] possible@[j],
                )) ==> r.is_ok(),
    {
        let target = match to {
            Some(t) => t,
            None => {
                let j = random_below(possible.len());
                assert(possible@.contains(possible@[j as int]));
                possible[j]
            },
        };
        if target == start {
            let mut single: Vec<usize> = Vec::new();
            single.push(start);
            assert(single@ =~= seq![start]);
            return Ok(single);
        }
        proof {
            assert forall|k: int| 0 <= k < edges@.len() implies (#[trigger] edges@[k]).0
                < structure.nodes@.len() && edges@[k].1 < structure.nodes@.len() by {
                assert(edges@[k] == (structure.edges@[k].0, structure.edges@[k].1));
            }
        }
        let paths = simple_paths(structure.nodes.len(), edges, start, target);
        if paths.len() == 0 {
            return Err(SimError::TopologyError);
        }
        let k = random_below(paths.len());
        let path = paths[k].clone();
        proof {
            assert(is_walk(paths@[k as int]@, structure.nodes@.len(), edges@, start, target));
        }
        Ok(path)
    }

    /// Adds a move for each node of the route after the first, one step of
    /// `speed` apart after `next_time`, numbered on from `moves`. Gives the
    /// next move number and the time of the last move.
    fn create_movement_events(
        speed: u32,
        moves: u64,
        path: &Vec<usize>,
        next_time: TimeOfDay,
        number_of_movable_object: u32,
        event_list: &mut EventList,
    ) -> (r: (u64, TimeOfDay))
        requires
            next_time.wf(),
            path@.len() >= 1,
            moves <= count_kind(old(event_list).events@, 1),
        ensures
            r.1.wf(),
            r.0 == moves + path@.len() - 1,
            r.0 <= count_kind(final(event_list).events@, 1),
            count_kind(final(event_list).events@, 1) == count_kind(old(event_list).events@, 1)
                + path@.len() - 1,
            is_time_ordered(old(event_list).events@) ==> is_time_ordered(final(event_list).events@),
            count_kind(final(event_list).events@, 0) == count_kind(old(event_list).events@, 0),
            count_kind(final(event_list).events@, 2) == count_kind(old(event_list).events@, 2),
            all_times_wf(old(event_list).events@) ==> all_times_wf(final(event_list).events@),
            forall|f: spec_fn(Event) -> bool|
                some_event(old(event_list).events@, f) ==> #[trigger] some_event(final(event_list).events@, f),
            forall|c: nat|
                every_event(old(event_list).events@, of_objects(c)) && number_of_movable_object < c
                    ==> #[trigger] every_event(final(event_list).events@, of_objects(c)),
            forall|n: nat|
                every_event(old(event_list).events@, on_graph(n)) && (forall|q: int|
                    0 <= q < path@.len() ==> path@[q] < n) ==> #[trigger] every_event(
                    final(event_list).events@,
                    on_graph(n),
                ),
            ids_unique(old(event_list).events@) && every_event(
                old(event_list).events@,
                belong_all(number_of_movable_object as nat, moves as nat, false),
            ) ==> ids_unique(final(event_list).events@) && every_event(
                final(event_list).events@,
                belong_all(number_of_movable_object as nat, r.0 as nat, false),
            ),
    {
        let old_moves = moves;
        let mut moves = moves;
        let mut next_time = next_time;
        let mut j: usize = 1;
        while j < path.len()
            invariant
                next_time.wf(),
                1 <= j <= path@.len(),
                moves == old_moves + j - 1,
                count_kind(event_list.events@, 1) == count_kind(old(event_list).events@, 1) + j - 1,
                moves <= count_kind(event_list.events@, 1),
                is_time_ordered(old(event_list).events@) ==> is_time_ordered(event_list.events@),
                count_kind(event_list.events@, 0) == count_kind(old(event_list).events@, 0),
                count_kind(event_list.events@, 2) == count_kind(old(event_list).events@, 2),
                all_times_wf(old(event_list).events@) ==> all_times_wf(event_list.events@),
                forall|f: spec_fn(Event) -> bool|
                    some_event(old(event_list).events@, f) ==> #[trigger] some_event(event_list.events@, f),
                forall|c: nat|
                    every_event(old(event_list).events@, of_objects(c)) && number_of_movable_object < c
                        ==> #[trigger] every_event(event_list.events@, of_objects(c)),
                forall|n: nat|
                    every_event(old(event_list).events@, on_graph(n)) && (forall|q: int|
                        0 <= q < path@.len() ==> path@[q] < n) ==> #[trigger] every_event(
                        event_list.events@,
                        on_graph(n),
                    ),
                ids_unique(old(event_list).events@) && every_event(
                    old(event_list).events@,
                    belong_all(number_of_movable_object as nat, old_moves as nat, false),
                ) ==> ids_unique(event_list.events@) && every_event(
                    event_list.events@,
                    belong_all(number_of_movable_object as nat, moves as nat, false),
                ),
            decreases path@.len() - j,
        {
            next_time = next_time.add_millis(speed as i64);
            let id = move_event_id(number_of_movable_object, moves);
            let ev = Event::new(id, next_time, Events::Move(path[j]));
            proof {
                assert forall|c: nat| number_of_movable_object < c implies #[trigger] of_objects(c)(ev) by {
                    assert(id_of_object(ev.id@, number_of_movable_object as nat)) by {
                        assert(ev.id@ == move_id(number_of_movable_object as nat, moves as nat));
                    }
                }
                let ob = number_of_movable_object as nat;
                if every_event(event_list.events@, belong_all(ob, moves as nat, false)) {
                    lemma_belong_all(event_list.events@, ob, moves as nat, false);
                }
                assert(ev.id@ == move_id(ob, moves as nat));
                assert(belong_all(ob, (moves + 1) as nat, false)(ev));
            }
            add_counted(event_list, ev);
            let len = event_list.events.len();
            proof {
                crate::event::lemma_count_bound(event_list.events@, 1);
            }
            moves = moves + 1;
            j = j + 1;
        }
        (moves, next_time)
    }

    /// Adds, for every sensor on every node, uplink messages at every
    /// multiple of its interval from one interval before the first event to
    /// one interval after the last, all shifted by one sub-second offset read
    /// from the clock. Each message is the profile's uplink template with `**`
    /// for every value, under the id `Message_of_<number>_<sensor id>`.
    ///
    /// Fails with `ConfigError` where the graph is missing, the event list is
    /// empty or holds a time past the day, or a sensor has a negative number or
    /// an interval that is zero or too long; with `ProfileLookupError` where a
    /// sensor type names an unknown profile; and succeeds otherwise.
    pub fn change_event_list_for_sensors(&mut self) -> (r: Result<EventList, SimError>)
        ensures
            !old(self).uplinks_config_ok() ==> r == Err::<EventList, SimError>(SimError::ConfigError),
            old(self).uplinks_config_ok() && old(self).sensors_schedulable()
                && old(self).sensor_profiles_known() ==> r.is_ok(),
            r == Err::<EventList, SimError>(SimError::ConfigError) ==> !old(self).uplinks_config_ok()
                || !old(self).sensors_schedulable(),
            r == Err::<EventList, SimError>(SimError::ProfileLookupError)
                ==> !old(self).sensor_profiles_known(),
            r.is_err() ==> r == Err::<EventList, SimError>(SimError::ConfigError) || r == Err::<
                EventList,
                SimError,
            >(SimError::ProfileLookupError),
            final(self).parameters == old(self).parameters,
            is_time_ordered(old(self).event_list.events@) ==> is_time_ordered(
                final(self).event_list.events@,
            ),
            count_kind(final(self).event_list.events@, 0) == count_kind(
                old(self).event_list.events@,
                0,
            ),
            count_kind(final(self).event_list.events@, 1) == count_kind(
                old(self).event_list.events@,
                1,
            ),
            count_kind(final(self).event_list.events@, 2) == count_kind(
                old(self).event_list.events@,
                2,
            ),
            r.is_ok() ==> r.unwrap().events@ == final(self).event_list.events@,
            r.is_ok() ==> exists|phi: int|
                0 <= phi < 2000 && list_view(final(self).event_list.events@) == insert_all(
                    list_view(old(self).event_list.events@),
                    nodes_series(
                        old(self).parameters.underlying_structure.unwrap().nodes@,
                        old(self).event_list.events@[0].time.millis as int,
                        old(self).event_list.events@.last().time.millis as int,
                        phi,
                        old(self).parameters.device_profiles@,
                    ),
                ),
    {
        let structure = match self.parameters.underlying_structure.as_ref() {
            None => {
                return Err(SimError::ConfigError);
            },
            Some(s) => s,
        };
        let len = self.event_list.events.len();
        if len == 0 {
            return Err(SimError::ConfigError);
        }
        let start_time = self.event_list.events[0].time;
        let end_time = self.event_list.events[len - 1].time;
        if start_time.millis >= crate::time::MILLIS_PER_DAY || end_time.millis
            >= crate::time::MILLIS_PER_DAY {
            return Err(SimError::ConfigError);
        }
        let offset = subsecond_millis() as i64;
        let ghost old_list = self.event_list.events@;
        let ghost lv0 = list_view(old_list);
        let ghost ts = start_time.millis as int;
        let ghost te = end_time.millis as int;
        let ghost profiles = self.parameters.device_profiles@;
        let ghost nodes = structure.nodes@;
        let mut n: usize = 0;
        while n < structure.nodes.len()
            invariant
                self.parameters == old(self).parameters,
                self.parameters.underlying_structure == Some(*structure),
                nodes == structure.nodes@,
                profiles == self.parameters.device_profiles@,
                old(self).uplinks_config_ok(),
                start_time.wf(),
                end_time.wf(),
                ts == start_time.millis,
                te == end_time.millis,
                ts == old_list[0].time.millis,
                te == old_list.last().time.millis,
                0 <= offset < 2000,
                lv0 == list_view(old_list),
                is_time_ordered(old_list) ==> is_time_ordered(self.event_list.events@),
                old_list == old(self).event_list.events@,
                old_list.len() > 0,
                count_kind(self.event_list.events@, 0) == count_kind(old_list, 0),
                count_kind(self.event_list.events@, 1) == count_kind(old_list, 1),
                count_kind(self.event_list.events@, 2) == count_kind(old_list, 2),
                n <= nodes.len(),
                forall|i: int, q: int|
                    0 <= i < n && 0 <= q < nodes[i].sensors@.len() ==> sensor_ready(
                        #[trigger] nodes[i].sensors@[q],
                        profiles,
                    ),
                list_view(self.event_list.events@) == insert_all(
                    lv0,
                    nodes_series(nodes.subrange(0, n as int), ts, te, offset as int, profiles),
                ),
            decreases nodes.len() - n,
        {
            let sensors = &structure.nodes[n].sensors;
            let ghost done = nodes_series(nodes.subrange(0, n as int), ts, te, offset as int, profiles);
            let mut k: usize = 0;
            proof {
                assert(sensors@.subrange(0, 0) =~= Seq::<Sensor>::empty());
                assert(done + sensors_series(sensors@.subrange(0, 0), ts, te, offset as int, profiles) =~= done);
            }
            while k < sensors.len()
                invariant
                    self.parameters == old(self).parameters,
                    self.parameters.underlying_structure == Some(*structure),
                    nodes == structure.nodes@,
                    profiles == self.parameters.device_profiles@,
                    old(self).uplinks_config_ok(),
                    start_time.wf(),
                    end_time.wf(),
                    ts == start_time.millis,
                    te == end_time.millis,
                    0 <= offset < 2000,
                    is_time_ordered(old_list) ==> is_time_ordered(self.event_list.events@),
                    old_list == old(self).event_list.events@,
                    old_list.len() > 0,
                    count_kind(self.event_list.events@, 0) == count_kind(old_list, 0),
                    count_kind(self.event_list.events@, 1) == count_kind(old_list, 1),
                    count_kind(self.event_list.events@, 2) == count_kind(old_list, 2),
                    n < nodes.len(),
                    sensors == &nodes[n as int].sensors,
                    k <= sensors@.len(),
                    forall|i: int, q: int|
                        0 <= i < n && 0 <= q < nodes[i].sensors@.len() ==> sensor_ready(
                            #[trigger] nodes[i].sensors@[q],
                            profiles,
                        ),
                    forall|q: int| 0 <= q < k ==> sensor_ready(#[trigger] sensors@[q], profiles),
                    done == nodes_series(nodes.subrange(0, n as int), ts, te, offset as int, profiles),
                    list_view(self.event_list.events@) == insert_all(
                        lv0,
                        done + sensors_series(sensors@.subrange(0, k as int), ts, te, offset as int, profiles),
                    ),
                decreases sensors@.len() - k,
            {
                let sensor = &sensors[k];
                let interval = sensor.sensor_type.uplink_interval_in_sec;
                if interval == 0 || interval > MAX_UPLINK_INTERVAL_SECS || sensor.no < 0 {
                    proof {
                        assert(!sensor_schedulable(nodes[n as int].sensors@[k as int]));
                    }
                    return Err(SimError::ConfigError);
                }
                let message = match self.parameters.create_empty_uplink_sensor_message(
                    sensor.sensor_type.device_profile_id.as_str(),
                ) {
                    Err(e) => {
                        proof {
                            assert(profile_index(profiles, nodes[n as int].sensors@[k as int].sensor_type.device_profile_id@) is None);
                        }
                        return Err(e);
                    },
                    Ok(msg) => msg,
                };
                let step: i64 = (interval * 1000) as i64;
                let first = start_time.millis as i64 - step + offset;
                let last = end_time.millis as i64 + step + offset;
                let times = periodic_times(first, last, step);
                let id = message_event_id(sensor.no as u64, sensor.id.as_str());
                let ghost series = sensor_series(*sensor, ts, te, offset as int, profiles);
                let ghost prefix = done + sensors_series(sensors@.subrange(0, k as int), ts, te, offset as int, profiles);
                proof {
                    assert(series.len() == times@.len());
                    assert(prefix + series.subrange(0, 0) =~= prefix);
                }
                let mut j: usize = 0;
                while j < times.len()
                    invariant
                        self.parameters == old(self).parameters,
                        forall|q: int| 0 <= q < times@.len() ==> (#[trigger] times@[q]).wf(),
                        is_time_ordered(old_list) ==> is_time_ordered(self.event_list.events@),
                        old_list == old(self).event_list.events@,
                        count_kind(self.event_list.events@, 0) == count_kind(old_list, 0),
                        count_kind(self.event_list.events@, 1) == count_kind(old_list, 1),
                        count_kind(self.event_list.events@, 2) == count_kind(old_list, 2),
                        j <= times@.len(),
                        series.len() == times@.len(),
                        series == sensor_series(*sensor, ts, te, offset as int, profiles),
                        forall|q: int| 0 <= q < times@.len() ==> (#[trigger] times@[q]).millis == series[q].time.millis,
                        id@ == message_id(sensor.no as nat, sensor.id@),
                        sensor.no >= 0,
                        message@ == view_message(series[0].action) || series.len() == 0,
                        forall|q: int| 0 <= q < series.len() ==> (#[trigger] series[q]).id == id@
                            && series[q].action == ActionView::Message(message@),
                        list_view(self.event_list.events@) == insert_all(lv0, prefix + series.subrange(0, j as int)),
                    decreases times@.len() - j,
                {
                    let ghost before = self.event_list.events@;
                    let ev = Event::new(id.clone(), times[j], Events::Message(message.clone()));
                    let ghost evg = ev;
                    add_counted(&mut self.event_list, ev);
                    proof {
                        crate::event::lemma_view_insert_position(before, evg.time.millis);
                        crate::event::lemma_insert_position(before, evg.time.millis);
                        assert(crate::event::event_view(evg) == series[j as int]);
                        let pp = insert_position(before, evg.time.millis) as int;
                        assert forall|q: int| 0 <= q < self.event_list.events@.len() implies list_view(self.event_list.events@)[q]
                            == list_view(before).insert(pp, crate::event::event_view(evg))[q] by {
                            if q < pp {
                                assert(self.event_list.events@[q] == before[q]);
                            } else if q > pp {
                                assert(self.event_list.events@[q] == before[q - 1]);
                            }
                        }
                        assert(list_view(self.event_list.events@) =~= list_view(before).insert(
                            view_insert_position(list_view(before), evg.time.millis) as int,
                            crate::event::event_view(evg),
                        ));
                        let nxt = prefix + series.subrange(0, j + 1);
                        assert(nxt.drop_last() =~= prefix + series.subrange(0, j as int));
                        assert(nxt.last() == series[j as int]);
                    }
                    j = j + 1;
                }
                proof {
                    assert(series.subrange(0, j as int) =~= series);
                    let nxt_s = sensors@.subrange(0, k + 1);
                    assert(nxt_s.drop_last() =~= sensors@.subrange(0, k as int));
                    assert(nxt_s.last() == *sensor);
                    assert(done + sensors_series(nxt_s, ts, te, offset as int, profiles) =~= prefix + series);
                }
                k = k + 1;
            }
            proof {
                assert(sensors@.subrange(0, k as int) =~= sensors@);
                let nn = nodes.subrange(0, n + 1);
                assert(nn.drop_last() =~= nodes.subrange(0, n as int));
                assert(nn.last() == nodes[n as int]);
                assert forall|i: int, q: int|
                    0 <= i < n + 1 && 0 <= q < nodes[i].sensors@.len() implies sensor_ready(
                        #[trigger] nodes[i].sensors@[q],
                        profiles,
                    ) by {
                    if i == n as int {
                        assert(sensors@[q] == nodes[i].sensors@[q]);
                    }
                }
            }
            n = n + 1;
        }
        proof {
            assert(nodes.subrange(0, n as int) =~= nodes);
        }
        Ok(EventList { events: self.event_list.get_event_list_copy() })
    }

    /// Fills in the values of uplink messages: in each message whose event id
    /// holds `SensorType_<sensor_type[s]>`, each `**` in turn takes the next of
    /// `data[s]`, for each `s` in order. Fails with `ConfigError`, changing
    /// nothing, where `data` has fewer lists than there are types.
    pub fn add_standard_values_to_uplink_messages(
        &mut self,
        sensor_type: Vec<String>,
        data: Vec<Vec<String>>,
    ) -> (r: Result<(), SimError>)
        ensures
            r.is_err() <==> data@.len() < sensor_type@.len(),
            r.is_err() ==> final(self).event_list == old(self).event_list,
            final(self).parameters == old(self).parameters,
            final(self).event_list.events@.len() == old(self).event_list.events@.len(),
            forall|j: int|
                0 <= j < old(self).event_list.events@.len() ==> {
                    let e = #[trigger] old(self).event_list.events@[j];
                    let f = final(self).event_list.events@[j];
                    &&& f.time == e.time
                    &&& f.id@ == e.id@
                    &&& r.is_ok() && e.action is Message ==> f.action is Message
                        && crate::event::message_of(f.action) == fill_for_types(
                        crate::event::message_of(e.action),
                        e.id@,
                        crate::parameters::views(sensor_type@),
                        nested_views(data@),
                    )
                    &&& !(e.action is Message) ==> f.action == e.action
                },
            is_time_ordered(old(self).event_list.events@) ==> is_time_ordered(
                final(self).event_list.events@,
            ),
    {
        if data.len() < sensor_type.len() {
            return Err(SimError::ConfigError);
        }
        let ghost start = self.event_list.events@;
        let len = self.event_list.events.len();
        let mut j: usize = 0;
        while j < len
            invariant
                self.parameters == old(self).parameters,
                start == old(self).event_list.events@,
                len == start.len(),
                data@.len() >= sensor_type@.len(),
                self.event_list.events@.len() == len,
                forall|q: int|
                    0 <= q < len ==> {
                        let e = #[trigger] start[q];
                        let f = self.event_list.events@[q];
                        &&& f.time == e.time
                        &&& f.id@ == e.id@
                        &&& q < j && e.action is Message ==> f.action is Message
                            && crate::event::message_of(f.action) == fill_for_types(
                            crate::event::message_of(e.action),
                            e.id@,
                            crate::parameters::views(sensor_type@),
                            nested_views(data@),
                        )
                        &&& !(q < j && e.action is Message) ==> f.action == e.action
                    },
            decreases len - j,
        {
            let filled = match &self.event_list.events[j].action {
                Events::Message(m) => Some(
                    fill_for_types_text(m.clone(), self.event_list.events[j].id.as_str(), &sensor_type, &data),
                ),
                _ => None,
            };
            match filled {
                Some(m) => {
                    self.event_list.events[j].action = Events::Message(m);
                },
                None => {},
            }
            j = j + 1;
        }
        proof {
            if is_time_ordered(start) {
                assert forall|a: int, b: int|
                    0 <= a < b < self.event_list.events@.len() implies self.event_list.events@[a].time.millis
                    <= self.event_list.events@[b].time.millis by {
                    assert(start[a].time.millis <= start[b].time.millis);
                }
            }
        }
        Ok(())
    }

    /// Runs the rules over the event list. Walking the list from the front
    /// (events added on the way included), each message becomes the latest
    /// reading of its sensor, with no rule having used it yet; then each rule
    /// in turn is evaluated against the readings, and where it fires each of
    /// its actions is sent (see `fire_action`).
    ///
    /// Fails with `ConfigError`, before the sweep, where the number of sensors
    /// is negative or a rule compares with an uplink reference; during it,
    /// with `ConfigError` where a message id does not name a sensor below the
    /// number of sensors, and with the errors of the rules and actions. The
    /// events keep their time order.
    pub fn rule_execution(&mut self) -> (r: Result<(), SimError>)
        ensures
            old(self).parameters.number_of_sensors < 0 ==> r == Err::<(), SimError>(
                SimError::ConfigError,
            ),
            old(self).parameters.number_of_sensors >= 0 && rules_use_uplink_ref(
                old(self).parameters.rules@,
            ) ==> r == Err::<(), SimError>(SimError::ConfigError),
            old(self).parameters.number_of_sensors >= 0 && !rules_use_uplink_ref(
                old(self).parameters.rules@,
            ) ==> ({
                let s = sweep(
                    list_view(old(self).event_list.events@),
                    fresh_table((old(self).parameters.number_of_sensors + 1) as nat),
                    0,
                    SWEEP_STEP_LIMIT as nat,
                    old(self).parameters.rules@,
                    old(self).parameters.sensor_types@,
                    old(self).parameters.device_profiles@,
                );
                match r {
                    Ok(_) => s == Ok::<Seq<EventView>, SimError>(list_view(final(self).event_list.events@)),
                    Err(e) => s == Err::<Seq<EventView>, SimError>(e),
                }
            }),
            final(self).parameters == old(self).parameters,
            final(self).event_list.events@.len() >= old(self).event_list.events@.len(),
            is_time_ordered(old(self).event_list.events@) ==> is_time_ordered(
                final(self).event_list.events@,
            ),
            r is Ok ==> exists|mark: Seq<bool>|
                injected_downlinks(final(self).event_list.events@, mark) && count_unmarked(mark)
                    == old(self).event_list.events@.len(),
    {
        self.evaluation.set_rule_execution_started(now_millis());
        let number_of_sensors = self.parameters.number_of_sensors;
        if number_of_sensors < 0 || any_uplink_ref(&self.parameters.rules) {
            return Err(SimError::ConfigError);
        }
        let types = self.parameters.get_sensor_types();
        let mut table: Vec<SensorRecord> = Vec::new();
        let mut k: u64 = 0;
        proof {
            reveal_strlit("Ü_Ü");
        }
        while k <= number_of_sensors as u64
            invariant
                0 <= number_of_sensors,
                k <= number_of_sensors as u64 + 1,
                table@.len() == k,
                forall|n: int| 0 <= n < table@.len() ==> (#[trigger] table@[n]).last_time.wf(),
                table_view(table@) == fresh_table(k as nat),
            decreases number_of_sensors as u64 + 1 - k,
        {
            let rec = SensorRecord {
                used_by: Vec::new(),
                last_time: TimeOfDay::midnight(),
                payload: no_reading_text(),
            };
            let ghost t0 = table@;
            let ghost rv = rec.view_record();
            proof {
                assert(rv.used_by =~= Seq::<Seq<char>>::empty());
                assert(rv == RecordView { used_by: Seq::empty(), last_time: TimeOfDay { millis: 0 }, payload: no_reading() });
            }
            table.push(rec);
            proof {
                assert(table_view(table@) =~= table_view(t0).push(rv));
                assert(table_view(table@) =~= fresh_table((k + 1) as nat));
            }
            k = k + 1;
        }
        let ghost start = self.event_list.events@;
        let ghost rules_s = self.parameters.rules@;
        let ghost types_s = self.parameters.sensor_types@;
        let ghost profiles_s = self.parameters.device_profiles@;
        let ghost whole = sweep(
            list_view(start),
            fresh_table((number_of_sensors + 1) as nat),
            0,
            SWEEP_STEP_LIMIT as nat,
            rules_s,
            types_s,
            profiles_s,
        );
        let ghost mut mark: Seq<bool> = Seq::new(start.len(), |j: int| false);
        proof {
            assert(count_unmarked(mark) == start.len()) by {
                lemma_count_unmarked_none(mark);
            }
            assert(table@.len() == number_of_sensors + 1);
            assert forall|n: int| 0 <= n < table@.len() implies (#[trigger] table@[n]).payload@ == no_reading() by {
                assert(table_view(table@)[n].payload == no_reading());
            }
        }
        let mut event_index: usize = 0;
        let mut steps: u64 = 0;
        while event_index < self.event_list.events.len() && steps < SWEEP_STEP_LIMIT
            invariant
                self.parameters == old(self).parameters,
                0 <= old(self).parameters.number_of_sensors,
                number_of_sensors == old(self).parameters.number_of_sensors,
                rules_s == self.parameters.rules@,
                !rules_use_uplink_ref(rules_s),
                types_s == self.parameters.sensor_types@,
                profiles_s == self.parameters.device_profiles@,
                types@ == types_s,
                start == old(self).event_list.events@,
                whole == sweep(
                    list_view(start),
                    fresh_table((number_of_sensors + 1) as nat),
                    0,
                    SWEEP_STEP_LIMIT as nat,
                    rules_s,
                    types_s,
                    profiles_s,
                ),
                whole == sweep(
                    list_view(self.event_list.events@),
                    table_view(table@),
                    event_index as nat,
                    (SWEEP_STEP_LIMIT - steps) as nat,
                    rules_s,
                    types_s,
                    profiles_s,
                ),
                steps <= SWEEP_STEP_LIMIT,
                self.event_list.events@.len() >= start.len(),
                is_time_ordered(start) ==> is_time_ordered(self.event_list.events@),
                forall|n: int| 0 <= n < table@.len() ==> (#[trigger] table@[n]).last_time.wf(),
                injected_downlinks(self.event_list.events@, mark),
                count_unmarked(mark) == start.len(),
                readings_backed(table@, self.event_list.events@),
            decreases SWEEP_STEP_LIMIT - steps,
        {
            let ghost lv = list_view(self.event_list.events@);
            let ghost tv = table_view(table@);
            let ghost fuel = (SWEEP_STEP_LIMIT - steps) as nat;
            assert(lv[event_index as int] == crate::event::event_view(self.event_list.events@[event_index as int]));
            let is_message = match &self.event_list.events[event_index].action {
                Events::Message(_) => true,
                _ => false,
            };
            if is_message {
                let n = match sensor_number_of_message(
                    self.event_list.events[event_index].id.as_str(),
                ) {
                    None => {
                        return Err(SimError::ConfigError);
                    },
                    Some(n) => n,
                };
                if n >= table.len() as u64 {
                    return Err(SimError::ConfigError);
                }
                let time = self.event_list.events[event_index].time;
                if time.millis >= crate::time::MILLIS_PER_DAY {
                    return Err(SimError::ConfigError);
                }
                let payload = self.event_list.events[event_index].action.get_message();
                let ghost t0 = table@;
                table.set(n as usize, SensorRecord { used_by: Vec::new(), last_time: time, payload });
                let ghost tv2 = table_view(table@);
                proof {
                    let s = self.event_list.events@;
                    assert(s[event_index as int].action is Message);
                    assert(table@[n as int].view_record().used_by =~= Seq::<Seq<char>>::empty());
                    assert(tv2 =~= tv.update(
                        n as int,
                        RecordView {
                            used_by: Seq::empty(),
                            last_time: time,
                            payload: crate::event::message_of(s[event_index as int].action),
                        },
                    ));
                    assert forall|m: int|
                        0 <= m < table@.len() && (#[trigger] table@[m]).payload@
                            != crate::engine::no_reading() implies has_message_at(s, table@[m].last_time) by {
                        if m == n as int {
                            assert(s[event_index as int].time == table@[m].last_time);
                        } else {
                            assert(table@[m] == t0[m]);
                        }
                    }
                }
                let (res, new_mark) = run_rules(
                    &mut self.event_list,
                    &mut table,
                    event_index,
                    &self.parameters.rules,
                    &types,
                    &self.parameters.device_profiles,
                    Ghost(mark),
                );
                proof {
                    mark = new_mark@;
                }
                match res {
                    Err(e) => {
                        return Err(e);
                    },
                    Ok(_) => {},
                }
            }
            event_index = event_index + 1;
            steps = steps + 1;
        }
        self.evaluation.set_rule_execution_ended(now_millis());
        Ok(())
    }

    /// The graph is there, and the event list is non-empty with its first and
    /// last times within the day.
    pub open spec fn uplinks_config_ok(&self) -> bool {
        &&& self.parameters.underlying_structure.is_some()
        &&& self.event_list.events@.len() > 0
        &&& self.event_list.events@[0].time.wf()
        &&& self.event_list.events@.last().time.wf()
    }

    /// Every sensor on a node of the graph has a non-zero uplink interval, not
    /// too long, and a non-negative number.
    pub open spec fn sensors_schedulable(&self) -> bool {
        let st = self.parameters.underlying_structure.unwrap();
        forall|i: int, j: int|
            0 <= i < st.nodes@.len() && 0 <= j < st.nodes@[i].sensors@.len() ==> sensor_schedulable(
                #[trigger] st.nodes@[i].sensors@[j],
            )
    }

    /// Every sensor on a node of the graph has a type whose profile is
    /// registered.
    pub open spec fn sensor_profiles_known(&self) -> bool {
        let st = self.parameters.underlying_structure.unwrap();
        forall|i: int, j: int|
            0 <= i < st.nodes@.len() && 0 <= j < st.nodes@[i].sensors@.len() ==> profile_index(
                self.parameters.device_profiles@,
                (#[trigger] st.nodes@[i].sensors@[j]).sensor_type.device_profile_id@,
            ) is Some
    }

    /// Starts a simulation: records the start time, generates the movement of
    /// the objects (see `change_event_list_for_movement`, which takes the
    /// creation and deletion offsets) and then the sensor uplinks (see
    /// `change_event_list_for_sensors`).
    pub fn start_up_simulation(
        &mut self,
        length: i32,
        creation_offsets: &Vec<i64>,
        deletion_offsets: &Vec<i64>,
    ) -> (r: Result<(), SimError>)
        ensures
            !old(self).movement_config_ok(creation_offsets@.len(), deletion_offsets@.len()) ==> r
                == Err::<(), SimError>(SimError::ConfigError),
            old(self).movement_config_ok(creation_offsets@.len(), deletion_offsets@.len())
                && old(self).parameters.underlying_structure.unwrap().movement_connected()
                && old(self).parameters.movable_objects.number_of_movable_objects > 0
                && old(self).sensors_schedulable() && old(self).sensor_profiles_known() ==> r.is_ok(),
            r.is_err() ==> r == Err::<(), SimError>(SimError::ConfigError) || r == Err::<(), SimError>(
                SimError::TopologyError,
            ) || r == Err::<(), SimError>(SimError::ProfileLookupError),
            final(self).parameters == old(self).parameters,
            r.is_ok() ==> movement_counts(
                final(self).event_list.events@,
                old(self).parameters.movable_objects.number_of_movable_objects as nat,
            ),
    {
        self.evaluation.set_simulation_star_up(now_millis());
        self.change_event_list_for_movement(length, creation_offsets, deletion_offsets)?;
        proof {
            crate::event::lemma_count_bound(self.event_list.events@, 0);
        }
        self.change_event_list_for_sensors()?;
        Ok(())
    }

    /// Counts the downlink and uplink messages of the event list, in all and
    /// per sensor type, into the evaluation, and records the end time. Fails
    /// with `ConfigError`, changing no count, where a message id names no
    /// registered sensor type.
    pub fn ending_simulation(&mut self) -> (r: Result<(), SimError>)
        ensures
            r.is_ok() == messages_typed(
                old(self).event_list.events@,
                old(self).parameters.sensor_types@.len(),
            ),
            r.is_err() ==> r == Err::<(), SimError>(SimError::ConfigError),
            final(self).event_list == old(self).event_list,
            final(self).parameters == old(self).parameters,
            r.is_ok() ==> ({
                let s = old(self).event_list.events@;
                let ev = final(self).evaluation;
                &&& ev.downlink_messages == count_messages(s, None, true)
                &&& ev.uplink_messages == count_messages(s, None, false)
                &&& ev.downlink_uplink_messages_per_sensor_type@.len()
                    == old(self).parameters.sensor_types@.len()
                &&& sum_counts(ev.downlink_uplink_messages_per_sensor_type@, true) == ev.downlink_messages
                &&& sum_counts(ev.downlink_uplink_messages_per_sensor_type@, false) == ev.uplink_messages
                &&& forall|k: int|
                    0 <= k < ev.downlink_uplink_messages_per_sensor_type@.len() ==> (
                    #[trigger] ev.downlink_uplink_messages_per_sensor_type@[k]).0 == count_messages(
                        s,
                        Some(k as nat),
                        true,
                    ) && ev.downlink_uplink_messages_per_sensor_type@[k].1 == count_messages(
                        s,
                        Some(k as nat),
                        false,
                    )
            }),
    {
        self.evaluation.set_simulation_ending(now_millis());
        let ntypes = self.parameters.sensor_types.len();
        let mut per: Vec<(u64, u64)> = Vec::new();
        let mut k: usize = 0;
        while k < ntypes
            invariant
                k <= ntypes,
                per@.len() == k,
                forall|q: int| 0 <= q < k ==> (#[trigger] per@[q]) == (0u64, 0u64),
            decreases ntypes - k,
        {
            per.push((0, 0));
            k = k + 1;
        }
        proof {
            lemma_sum_counts_zero(per@);
        }
        let s = &self.event_list.events;
        let mut down: u64 = 0;
        let mut up: u64 = 0;
        let mut j: usize = 0;
        proof {
            reveal_strlit("Downlink");
            reveal_strlit("Uplink");
        }
        while j < s.len()
            invariant
                j <= s@.len(),
                s@ == old(self).event_list.events@,
                self.event_list == old(self).event_list,
                self.parameters == old(self).parameters,
                ntypes == self.parameters.sensor_types@.len(),
                per@.len() == ntypes,
                messages_typed(s@.subrange(0, j as int), ntypes as nat),
                down as nat == count_messages(s@.subrange(0, j as int), None, true),
                up as nat == count_messages(s@.subrange(0, j as int), None, false),
                down + up <= j,
                sum_counts(per@, true) == down,
                sum_counts(per@, false) == up,
                forall|q: int|
                    0 <= q < ntypes ==> (#[trigger] per@[q]).0 == count_messages(
                        s@.subrange(0, j as int),
                        Some(q as nat),
                        true,
                    ) && per@[q].1 == count_messages(s@.subrange(0, j as int), Some(q as nat), false)
                        && per@[q].0 + per@[q].1 <= j,
            decreases s@.len() - j,
        {
            let ghost pre = s@.subrange(0, j as int);
            let ghost next = s@.subrange(0, j + 1);
            assert(next.drop_last() =~= pre);
            assert(next.last() == s@[j as int]);
            match &s[j].action {
                Events::Message(m) => {
                    let t = match crate::engine::sensor_type_index_of(s[j].id.as_str()) {
                        None => {
                            proof {
                                lemma_untyped_message(s@, j as int, ntypes as nat);
                            }
                            return Err(SimError::ConfigError);
                        },
                        Some(t) => t,
                    };
                    if t >= ntypes as u64 {
                        proof {
                            lemma_untyped_message(s@, j as int, ntypes as nat);
                        }
                        return Err(SimError::ConfigError);
                    }
                    let t = t as usize;
                    if crate::text::contains_text(m.as_str(), "Downlink") {
                        let x = (per[t].0 + 1, per[t].1);
                        proof {
                            lemma_sum_counts_update(per@, t as int, x, true);
                        }
                        per.set(t, x);
                        down = down + 1;
                    } else if crate::text::contains_text(m.as_str(), "Uplink") {
                        let x = (per[t].0, per[t].1 + 1);
                        proof {
                            lemma_sum_counts_update(per@, t as int, x, false);
                        }
                        per.set(t, x);
                        up = up + 1;
                    }
                    assert forall|a: int| 0 <= a < next.len() && (#[trigger] next[a]).action is Message implies {
                        &&& crate::engine::sensor_type_index(next[a].id@) is Some
                        &&& crate::engine::sensor_type_index(next[a].id@).unwrap() < ntypes
                    } by {
                        if a < j {
                            assert(next[a] == pre[a]);
                        }
                    }
                },
                _ => {
                    assert forall|a: int| 0 <= a < next.len() && (#[trigger] next[a]).action is Message implies {
                        &&& crate::engine::sensor_type_index(next[a].id@) is Some
                        &&& crate::engine::sensor_type_index(next[a].id@).unwrap() < ntypes
                    } by {
                        assert(next[a] == pre[a]);
                    }
                },
            }
            j = j + 1;
        }
        assert(s@.subrange(0, j as int) =~= s@);
        self.evaluation.downlink_uplink_messages_per_sensor_type = per;
        self.evaluation.downlink_messages = down;
        self.evaluation.uplink_messages = up;
        Ok(())
    }

    /// The moves of each movable object, in list order: for object `i`, its
    /// number, the time and the node of each move. Fails with `ConfigError`
    /// where a move's id names no object below the number of objects.
    pub fn get_matrix_of_nodes_of_movable_objects(&self) -> (r: Result<
        Vec<Vec<(usize, TimeOfDay, usize)>>,
        SimError,
    >)
        ensures
            r.is_ok() == moves_numbered(
                self.event_list.events@,
                self.parameters.movable_objects.number_of_movable_objects as nat,
            ),
            r.is_err() ==> r == Err::<Vec<Vec<(usize, TimeOfDay, usize)>>, SimError>(
                SimError::ConfigError,
            ),
            r.is_ok() ==> r.unwrap()@.len()
                == self.parameters.movable_objects.number_of_movable_objects && forall|i: int|
                0 <= i < r.unwrap()@.len() ==> (#[trigger] r.unwrap()@[i])@ == moves_of(
                    self.event_list.events@,
                    i as nat,
                ),
    {
        let count = self.parameters.movable_objects.number_of_movable_objects as usize;
        let s = &self.event_list.events;
        let mut matrix: Vec<Vec<(usize, TimeOfDay, usize)>> = Vec::new();
        let mut i: usize = 0;
        while i < count
            invariant
                i <= count,
                matrix@.len() == i,
                forall|q: int| 0 <= q < i ==> (#[trigger] matrix@[q])@ == moves_of(
                    s@.subrange(0, 0),
                    q as nat,
                ),
            decreases count - i,
        {
            matrix.push(Vec::new());
            assert(matrix@[i as int]@ =~= moves_of(s@.subrange(0, 0), i as nat));
            i = i + 1;
        }
        let mut j: usize = 0;
        while j < s.len()
            invariant
                j <= s@.len(),
                s@ == self.event_list.events@,
                count == self.parameters.movable_objects.number_of_movable_objects,
                matrix@.len() == count,
                moves_numbered(s@.subrange(0, j as int), count as nat),
                forall|q: int|
                    0 <= q < count ==> (#[trigger] matrix@[q])@ == moves_of(
                        s@.subrange(0, j as int),
                        q as nat,
                    ),
            decreases s@.len() - j,
        {
            let ghost pre = s@.subrange(0, j as int);
            let ghost next = s@.subrange(0, j + 1);
            assert(next.drop_last() =~= pre);
            assert(next.last() == s@[j as int]);
            match &s[j].action {
                Events::Move(node) => {
                    let n = match object_number_of_event(s[j].id.as_str()) {
                        None => {
                            proof {
                                lemma_unnumbered_move(s@, j as int, count as nat);
                            }
                            return Err(SimError::ConfigError);
                        },
                        Some(n) => n,
                    };
                    if n >= count as u64 {
                        proof {
                            lemma_unnumbered_move(s@, j as int, count as nat);
                        }
                        return Err(SimError::ConfigError);
                    }
                    let n = n as usize;
                    let ghost m0 = matrix@;
                    matrix[n].push((n, s[j].time, *node));
                    assert forall|q: int| 0 <= q < count implies (#[trigger] matrix@[q])@ == moves_of(
                        next,
                        q as nat,
                    ) by {
                        if q != n {
                            assert(matrix@[q] == m0[q]);
                        }
                    }
                    assert forall|a: int| 0 <= a < next.len() && (#[trigger] next[a]).action is Move implies {
                        &&& object_number(next[a].id@) is Some
                        &&& object_number(next[a].id@).unwrap() < count
                    } by {
                        if a < j {
                            assert(next[a] == pre[a]);
                        }
                    }
                },
                _ => {
                    assert forall|a: int| 0 <= a < next.len() && (#[trigger] next[a]).action is Move implies {
                        &&& object_number(next[a].id@) is Some
                        &&& object_number(next[a].id@).unwrap() < count
                    } by {
                        assert(next[a] == pre[a]);
                    }
                },
            }
            j = j + 1;
        }
        assert(s@.subrange(0, j as int) =~= s@);
        Ok(matrix)
    }

    /// The graph is there and well formed, no node set is empty, the times
    /// are times of day, and there is an offset for every object.
    pub open spec fn movement_config_ok(&self, n_creation: nat, n_deletion: nat) -> bool {
        let m = self.parameters.movable_objects;
        let st = self.parameters.underlying_structure;
        &&& st.is_some()
        &&& st.unwrap().wf()
        &&& st.unwrap().start_nodes@.len() > 0
        &&& st.unwrap().end_nodes@.len() > 0
        &&& st.unwrap().nodes_to_move_to@.len() > 0
        &&& m.time_of_creation.wf()
        &&& m.time_of_deletion.wf()
        &&& n_creation >= m.number_of_movable_objects
        &&& n_deletion >= m.number_of_movable_objects
    }

    /// Generates the movement of every movable object and makes it the event
    /// list: for object `i`, a creation at a start node at the creation time
    /// moved by `creation_offsets[i]` milliseconds, a walk to a home node drawn
    /// from the visitable nodes, the random excursions from home and back, and
    /// a deletion at an end node at the deletion time moved by
    /// `deletion_offsets[i]`, reached by a walk from home whose last step lands
    /// one step before it. `length` is not consulted.
    ///
    /// Fails with `ConfigError`, changing nothing, where the graph is missing or
    /// malformed, one of the node sets is empty, a time is past the day, or an
    /// offset is missing; with `TopologyError`, changing nothing, where a drawn
    /// pair of nodes is not joined. Succeeds where every start node is joined to
    /// every visitable node, and every visitable node to every other and to
    /// every end node. On success every event id is unique and names one of
    /// the objects, and every node named is a node of the graph.
    pub fn change_event_list_for_movement(
        &mut self,
        length: i32,
        creation_offsets: &Vec<i64>,
        deletion_offsets: &Vec<i64>,
    ) -> (r: Result<EventList, SimError>)
        ensures
            !old(self).movement_config_ok(creation_offsets@.len(), deletion_offsets@.len()) ==> r
                == Err::<EventList, SimError>(SimError::ConfigError),
            old(self).movement_config_ok(creation_offsets@.len(), deletion_offsets@.len())
                && old(self).parameters.underlying_structure.unwrap().movement_connected() ==> r.is_ok(),
            r == Err::<EventList, SimError>(SimError::TopologyError) ==> old(self).movement_config_ok(
                creation_offsets@.len(),
                deletion_offsets@.len(),
            ) && !old(self).parameters.underlying_structure.unwrap().movement_connected(),
            r.is_err() ==> r == Err::<EventList, SimError>(SimError::ConfigError) || r == Err::<
                EventList,
                SimError,
            >(SimError::TopologyError),
            r.is_err() ==> final(self).event_list == old(self).event_list,
            final(self).parameters == old(self).parameters,
            r.is_ok() ==> r.unwrap().events@ == final(self).event_list.events@,
            r.is_ok() ==> movement_counts(
                final(self).event_list.events@,
                old(self).parameters.movable_objects.number_of_movable_objects as nat,
            ),
            r.is_ok() ==> count_kind(final(self).event_list.events@, 1)
                >= old(self).parameters.movable_objects.number_of_movable_objects,
            r.is_ok() ==> all_times_wf(final(self).event_list.events@),
            r.is_ok() ==> ids_unique(final(self).event_list.events@),
            r.is_ok() ==> objects_placed(
                final(self).event_list.events@,
                old(self).parameters.movable_objects.number_of_movable_objects as nat,
                old(self).parameters.underlying_structure.unwrap(),
            ),
    {
        let m = self.parameters.movable_objects;
        let structure = match self.parameters.underlying_structure.as_ref() {
            None => {
                return Err(SimError::ConfigError);
            },
            Some(s) => s,
        };
        if !structure.check() || structure.start_nodes.len() == 0 || structure.end_nodes.len() == 0
            || m.time_of_creation.millis >= crate::time::MILLIS_PER_DAY
            || m.time_of_deletion.millis >= crate::time::MILLIS_PER_DAY
            || structure.nodes_to_move_to.len() == 0 || (creation_offsets.len() as u64) < (
        m.number_of_movable_objects as u64) || (deletion_offsets.len() as u64) < (
        m.number_of_movable_objects as u64) {
            return Err(SimError::ConfigError);
        }
        let ghost conn = structure.movement_connected();
        let ghost n_nodes = structure.nodes@.len();
        let edges = structure.edge_pairs();
        let visit = &structure.nodes_to_move_to;
        let speed = m.speed_millis;
        let mut list = EventList::new();
        let mut homes: Vec<(usize, u32)> = Vec::new();
        let mut i: u32 = 0;
        while i < m.number_of_movable_objects
            invariant
                structure.wf(),
                *structure == old(self).parameters.underlying_structure.unwrap(),
                conn == structure.movement_connected(),
                n_nodes == structure.nodes@.len(),
                structure.start_nodes@.len() > 0,
                structure.end_nodes@.len() > 0,
                visit@ == structure.nodes_to_move_to@,
                visit@.len() > 0,
                creation_offsets@.len() >= m.number_of_movable_objects,
                deletion_offsets@.len() >= m.number_of_movable_objects,
                m.time_of_creation.wf(),
                m.time_of_deletion.wf(),
                edges@ == structure.edge_list(),
                i <= m.number_of_movable_objects,
                movement_counts(list.events@, i as nat),
                count_kind(list.events@, 1) >= i,
                all_times_wf(list.events@),
                objects_placed(list.events@, i as nat, *structure),
                ids_unique(list.events@),
                *self == *old(self),
                old(self).movement_config_ok(creation_offsets@.len(), deletion_offsets@.len()),
            decreases m.number_of_movable_objects - i,
        {
            let ghost c1 = (i + 1) as nat;
            let ghost nn = structure.nodes@.len();
            proof {
                lemma_fresh_object(list.events@, i as nat);
                lemma_of_objects_weaken(list.events@, i as nat, c1);
            }
            // appearance
            let creation_time = m.time_of_creation.add_millis(creation_offsets[i as usize]);
            let si = random_below(structure.start_nodes.len());
            let start = structure.start_nodes[si];
            let ev = Event::new(object_id(i, "_Creation"), creation_time, Events::Create(start));
            proof {
                assert(structure.start_nodes@.contains(structure.start_nodes@[si as int]));
                assert(created(i as nat, structure.start_nodes@)(ev));
                assert(belong_all(i as nat, 0, false)(ev));
                assert(id_of_object(ev.id@, i as nat));
                assert(of_objects(c1)(ev));
                assert(on_graph(nn)(ev));
            }
            add_counted(&mut list, ev);
            // the way to the home node
            proof {
                if conn {
                    assert forall|j: int| 0 <= j < visit@.len() implies joined(
                        n_nodes,
                        edges@,
                        start,
                        #[trigger] visit@[j],
                    ) by {
                        assert(joined(n_nodes, edges@, structure.start_nodes@[si as int], structure.nodes_to_move_to@[j]));
                    }
                }
            }
            let path = Self::search_path(structure, &edges, start, visit, None)?;
            proof {
                lemma_route_on_graph(path@, nn, edges@, start, path@.last());
            }
            let home = path[path.len() - 1];
            let ghost hj = choose|j: int| 0 <= j < visit@.len() && visit@[j] == home;
            homes.push((home, i));
            proof {
                crate::event::lemma_count_bound(list.events@, 1);
            }
            let (mut moves, mut next_time) = Self::create_movement_events(
                speed,
                0,
                &path,
                creation_time,
                i,
                &mut list,
            );
            // excursions from home and back
            let mut e: u32 = 0;
            while e < m.number_of_random_moves
                invariant
                    structure.wf(),
                    *structure == old(self).parameters.underlying_structure.unwrap(),
                    conn == structure.movement_connected(),
                    n_nodes == structure.nodes@.len(),
                    visit@ == structure.nodes_to_move_to@,
                    visit@.len() > 0,
                    edges@ == structure.edge_list(),
                    0 <= hj < visit@.len(),
                    visit@[hj] == home,
                    home < structure.nodes@.len(),
                    next_time.wf(),
                    e <= m.number_of_random_moves,
                    is_time_ordered(list.events@),
                    count_kind(list.events@, 0) == i + 1,
                    count_kind(list.events@, 2) == i,
                    count_kind(list.events@, 1) >= i,
                    moves <= count_kind(list.events@, 1),
                    all_times_wf(list.events@),
                    c1 == i + 1,
                    nn == structure.nodes@.len(),
                    forall|o: nat| o < c1 ==> #[trigger] some_event(list.events@, created(o, structure.start_nodes@)),
                    forall|o: nat| o < i ==> #[trigger] some_event(list.events@, deleted(o, structure.end_nodes@)),
                    every_event(list.events@, of_objects(c1)),
                    every_event(list.events@, on_graph(nn)),
                    ids_unique(list.events@),
                    every_event(list.events@, belong_all(i as nat, moves as nat, false)),
                    *self == *old(self),
                    old(self).movement_config_ok(creation_offsets@.len(), deletion_offsets@.len()),
                decreases m.number_of_random_moves - e,
            {
                let ti = random_below(visit.len());
                let target = visit[ti];
                proof {
                    if conn {
                        assert(joined(n_nodes, edges@, structure.nodes_to_move_to@[hj], structure.nodes_to_move_to@[ti as int]));
                        assert(joined(n_nodes, edges@, structure.nodes_to_move_to@[ti as int], structure.nodes_to_move_to@[hj]));
                    }
                }
                let out = Self::search_path(structure, &edges, home, visit, Some(target))?;
                proof {
                    lemma_route_on_graph(out@, nn, edges@, home, target);
                }
                next_time = next_time.add_millis(EXCURSION_GAP_MILLIS);
                let (mv, t) = Self::create_movement_events(speed, moves, &out, next_time, i, &mut list);
                let dwell = match random_below(3) {
                    0 => DWELL_SHORT,
                    1 => DWELL_MEDIUM,
                    _ => DWELL_LONG,
                };
                next_time = t.add_millis(dwell * 60_000);
                let back = Self::search_path(structure, &edges, target, visit, Some(home))?;
                proof {
                    lemma_route_on_graph(back@, nn, edges@, target, home);
                }
                let (mv2, t2) = Self::create_movement_events(speed, mv, &back, next_time, i, &mut list);
                moves = mv2;
                next_time = t2;
                e = e + 1;
            }
            // departure
            let deletion_time = m.time_of_deletion.add_millis(deletion_offsets[i as usize]);
            let ei = random_below(structure.end_nodes.len());
            let end = structure.end_nodes[ei];
            let ev = Event::new(object_id(i, "_Deletion"), deletion_time, Events::Delete(end));
            proof {
                assert(structure.end_nodes@.contains(structure.end_nodes@[ei as int]));
                assert(deleted(i as nat, structure.end_nodes@)(ev));
                lemma_belong_all(list.events@, i as nat, moves as nat, false);
                assert(belong_all(i as nat, moves as nat, true)(ev));
                assert(id_of_object(ev.id@, i as nat));
                assert(of_objects(c1)(ev));
                assert(on_graph(nn)(ev));
            }
            add_counted(&mut list, ev);
            proof {
                if conn {
                    assert(joined(n_nodes, edges@, structure.nodes_to_move_to@[hj], structure.end_nodes@[ei as int]));
                }
            }
            let last = Self::search_path(structure, &edges, home, visit, Some(end))?;
            proof {
                lemma_route_on_graph(last@, nn, edges@, home, end);
            }
            // walk back from the deletion so the last step lands one step before it
            let mut times: Vec<TimeOfDay> = Vec::new();
            let mut t = deletion_time;
            let mut j: usize = 0;
            while j < last.len()
                invariant
                    t.wf(),
                    times@.len() == j,
                    j <= last@.len(),
                    forall|q: int| 0 <= q < times@.len() ==> (#[trigger] times@[q]).wf(),
                decreases last@.len() - j,
            {
                t = t.add_millis(-(speed as i64));
                times.push(t);
                j = j + 1;
            }
            let mut j: usize = 0;
            while j < last.len()
                invariant
                    times@.len() == last@.len(),
                    last@.len() >= 1,
                    j <= last@.len(),
                    is_time_ordered(list.events@),
                    count_kind(list.events@, 0) == i + 1,
                    count_kind(list.events@, 2) == i + 1,
                    count_kind(list.events@, 1) >= i + j,
                    moves <= count_kind(list.events@, 1),
                    all_times_wf(list.events@),
                    forall|q: int| 0 <= q < times@.len() ==> (#[trigger] times@[q]).wf(),
                    c1 == i + 1,
                    nn == structure.nodes@.len(),
                    forall|q: int| 0 <= q < last@.len() ==> last@[q] < nn,
                    forall|o: nat| o < c1 ==> #[trigger] some_event(list.events@, created(o, structure.start_nodes@)),
                    forall|o: nat| o < c1 ==> #[trigger] some_event(list.events@, deleted(o, structure.end_nodes@)),
                    every_event(list.events@, of_objects(c1)),
                    every_event(list.events@, on_graph(nn)),
                    ids_unique(list.events@),
                    every_event(list.events@, belong_all(i as nat, moves as nat, true)),
                    *self == *old(self),
                decreases last@.len() - j,
            {
                let time = times[last.len() - 1 - j];
                let ev = Event::new(move_event_id(i, moves), time, Events::Move(last[j]));
                proof {
                    assert(id_of_object(ev.id@, i as nat)) by {
                        assert(ev.id@ == move_id(i as nat, moves as nat));
                    }
                    assert(of_objects(c1)(ev));
                    assert(on_graph(nn)(ev));
                    lemma_belong_all(list.events@, i as nat, moves as nat, true);
                    assert(ev.id@ == move_id(i as nat, moves as nat));
                    assert(belong_all(i as nat, (moves + 1) as nat, true)(ev));
                }
                add_counted(&mut list, ev);
                let len = list.events.len();
                proof {
                    crate::event::lemma_count_bound(list.events@, 1);
                }
                moves = moves + 1;
                j = j + 1;
            }
            i = i + 1;
        }
        let copy = EventList { events: list.get_event_list_copy() };
        self.event_list = list;
        let mut k: usize = 0;
        while k < homes.len()
            invariant
                self.parameters == old(self).parameters,
                movement_counts(self.event_list.events@, m.number_of_movable_objects as nat),
                copy.events@ == self.event_list.events@,
                all_times_wf(self.event_list.events@),
                ids_unique(self.event_list.events@),
                objects_placed(
                    self.event_list.events@,
                    m.number_of_movable_objects as nat,
                    old(self).parameters.underlying_structure.unwrap(),
                ),
                m == old(self).parameters.movable_objects,
                count_kind(self.event_list.events@, 1) >= m.number_of_movable_objects,
            decreases homes@.len() - k,
        {
            self.add_node_of_movable_object(homes[k]);
            k = k + 1;
        }
        Ok(copy)
    }
}

} // verus!
