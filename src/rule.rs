//! Rules: device and time conditions joined by boolean connectives, and the
//! actions to take when they hold.
use vstd::prelude::*;
use crate::text::{all_digits, dec_value, is_digit, lemma_dec_value_push_pub};
use crate::time::TimeOfDay;

verus! {

/// The value a device reading is compared with.
#[derive(Clone, Debug)]
pub enum RefValue {
    IntNumber(i32),
    Bool(bool),
    String(String),
    /// A reference to another device's payload; no comparison supports it.
    UplinkRef(String, usize),
}

/// A condition on the latest reading of one sensor: its payload number
/// `payload_index` compared by `operator` with `threshold`.
#[derive(Clone, Debug)]
pub struct DeviceCondition {
    pub sensor_id: String,
    pub sensor_number: i64,
    pub payload_index: usize,
    pub operator: String,
    pub threshold: RefValue,
}

/// A condition on the time of day: inside the window from `timespan_start`
/// to `timespan_end`, which may wrap around midnight. The weekday (0 for
/// Monday) is kept but not consulted.
#[derive(Clone, Debug)]
pub struct TimeCondition {
    pub weekday: Option<u8>,
    pub timespan_start: TimeOfDay,
    pub timespan_end: TimeOfDay,
}

#[derive(Clone, Debug)]
pub enum Condition {
    Device(DeviceCondition),
    Time(TimeCondition),
}

/// The commands to send to one device: indices into its downlink payloads.
#[derive(Clone, Debug)]
pub struct Action {
    pub sensor_id: String,
    pub sensor_number: i64,
    pub payload_indices: Vec<usize>,
}

/// A rule: conditions folded left to right by the connectives (`&`, `|`,
/// `^`), and the actions taken when the fold is true.
#[derive(Clone, Debug)]
pub struct Rule {
    pub id: String,
    pub conditions: Vec<Condition>,
    pub bool_ops: Vec<String>,
    pub actions: Vec<Action>,
}

/// The sensors a list of conditions reads, in order: one entry per device
/// condition.
pub open spec fn required_sensors(c: Seq<Condition>) -> Seq<(Seq<char>, i64)>
    decreases c.len(),
{
    if c.len() == 0 {
        Seq::empty()
    } else {
        match c.last() {
            Condition::Device(d) => required_sensors(c.drop_last()).push(
                (d.sensor_id@, d.sensor_number),
            ),
            Condition::Time(_) => required_sensors(c.drop_last()),
        }
    }
}

impl Rule {
    pub fn get_id(&self) -> (r: String)
        ensures
            r@ == self.id@,
    {
        self.id.clone()
    }

    pub fn get_rule(&self) -> (r: &Rule)
        ensures
            r == self,
    {
        self
    }

    pub fn create_device_condition(
        sensor_id: String,
        sensor_number: i64,
        data_to_be_measured_index: usize,
        operator: String,
        threshold: RefValue,
    ) -> (r: DeviceCondition)
        ensures
            r.sensor_id@ == sensor_id@,
            r.sensor_number == sensor_number,
            r.payload_index == data_to_be_measured_index,
            r.operator@ == operator@,
            r.threshold == threshold,
    {
        DeviceCondition {
            sensor_id,
            sensor_number,
            payload_index: data_to_be_measured_index,
            operator,
            threshold,
        }
    }

    pub fn create_time_condition(
        weekday: Option<u8>,
        timespan_start: TimeOfDay,
        timespan_end: TimeOfDay,
    ) -> (r: TimeCondition)
        ensures
            r.weekday == weekday,
            r.timespan_start == timespan_start,
            r.timespan_end == timespan_end,
    {
        TimeCondition { weekday, timespan_start, timespan_end }
    }

    pub fn create_device_action(sensor_id: String, sensor_number: i64, payload_indices: Vec<usize>) -> (r:
        Action)
        ensures
            r.sensor_id@ == sensor_id@,
            r.sensor_number == sensor_number,
            r.payload_indices@ == payload_indices@,
    {
        Action { sensor_id, sensor_number, payload_indices }
    }

    pub fn create_rule(
        id: String,
        conditions: Vec<Condition>,
        bool_ops: Vec<String>,
        actions: Vec<Action>,
    ) -> (r: Rule)
        ensures
            r.id@ == id@,
            r.conditions@ == conditions@,
            r.bool_ops@ == bool_ops@,
            r.actions@ == actions@,
    {
        Rule { id, conditions, bool_ops, actions }
    }

    /// The id and number of each sensor that a device condition reads, in
    /// the order of the conditions.
    pub fn get_sensor_information_from_conditions(&self) -> (r: Vec<(String, i64)>)
        ensures
            r@.len() == required_sensors(self.conditions@).len(),
            forall|i: int|
                0 <= i < r@.len() ==> (#[trigger] r@[i]).0@ == required_sensors(
                    self.conditions@,
                )[i].0 && r@[i].1 == required_sensors(self.conditions@)[i].1,
    {
        let mut r: Vec<(String, i64)> = Vec::new();
        let mut i: usize = 0;
        while i < self.conditions.len()
            invariant
                i <= self.conditions@.len(),
                r@.len() == required_sensors(self.conditions@.subrange(0, i as int)).len(),
                forall|k: int|
                    0 <= k < r@.len() ==> (#[trigger] r@[k]).0@ == required_sensors(
                        self.conditions@.subrange(0, i as int),
                    )[k].0 && r@[k].1 == required_sensors(
                        self.conditions@.subrange(0, i as int),
                    )[k].1,
            decreases self.conditions@.len() - i,
        {
            let ghost before = self.conditions@.subrange(0, i as int);
            assert(self.conditions@.subrange(0, i + 1).drop_last() =~= before);
            match &self.conditions[i] {
                Condition::Device(d) => {
                    r.push((d.sensor_id.clone(), d.sensor_number));
                },
                Condition::Time(_) => {},
            }
            i = i + 1;
        }
        assert(self.conditions@.subrange(0, i as int) =~= self.conditions@);
        r
    }
}

/// A connective between two condition values.
#[derive(Clone, Copy, Debug, PartialEq, Eq, Structural)]
pub enum BoolOp {
    And,
    Or,
    Xor,
}

pub open spec fn apply_op(op: BoolOp, a: bool, b: bool) -> bool {
    match op {
        BoolOp::And => a && b,
        BoolOp::Or => a || b,
        BoolOp::Xor => a != b,
    }
}

/// The connective that a text names: `&`, `|` or `^`.
pub open spec fn op_of(s: Seq<char>) -> Option<BoolOp> {
    if s == seq!['&'] {
        Some(BoolOp::And)
    } else if s == seq!['|'] {
        Some(BoolOp::Or)
    } else if s == seq!['^'] {
        Some(BoolOp::Xor)
    } else {
        None
    }
}

fn single_char(s: &str) -> (r: Option<char>)
    ensures
        r.is_some() == (s@.len() == 1),
        r.is_some() ==> s@ == seq![r.unwrap()],
{
    if s.unicode_len() == 1 {
        let c = s.get_char(0);
        assert(s@ =~= seq![c]);
        Some(c)
    } else {
        None
    }
}

/// Reads the connectives; `None` where one of them is not `&`, `|` or `^`.
pub fn parse_bool_ops(bool_ops: &Vec<String>) -> (r: Option<Vec<BoolOp>>)
    ensures
        r.is_some() == (forall|i: int| 0 <= i < bool_ops@.len() ==> op_of(#[trigger] bool_ops@[i]@).is_some()),
        r.is_some() ==> r.unwrap()@.len() == bool_ops@.len() && forall|i: int|
            0 <= i < bool_ops@.len() ==> Some(#[trigger] r.unwrap()@[i]) == op_of(bool_ops@[i]@),
{
    let mut r: Vec<BoolOp> = Vec::new();
    let mut i: usize = 0;
    while i < bool_ops.len()
        invariant
            i <= bool_ops@.len(),
            r@.len() == i,
            forall|k: int| 0 <= k < i ==> Some(#[trigger] r@[k]) == op_of(bool_ops@[k]@),
        decreases bool_ops@.len() - i,
    {
        let text: &str = bool_ops[i].as_str();
        assert(text@ == bool_ops@[i as int]@);
        let c = match single_char(text) {
            Some(ch) => ch,
            None => {
                assert(op_of(bool_ops@[i as int]@).is_none());
                return None;
            },
        };
        assert(seq!['&'][0] == '&' && seq!['|'][0] == '|' && seq!['^'][0] == '^');
        let op = if c == '&' {
            assert(text@ =~= seq!['&']);
            BoolOp::And
        } else if c == '|' {
            assert(text@ =~= seq!['|']);
            BoolOp::Or
        } else if c == '^' {
            assert(text@ =~= seq!['^']);
            BoolOp::Xor
        } else {
            assert(op_of(bool_ops@[i as int]@).is_none());
            return None;
        };
        assert(op_of(bool_ops@[i as int]@) == Some(op));
        r.push(op);
        i = i + 1;
    }
    assert forall|k: int| 0 <= k < bool_ops@.len() implies op_of(
        #[trigger] bool_ops@[k]@,
    ).is_some() by {
        assert(Some(r@[k]) == op_of(bool_ops@[k]@));
    }
    Some(r)
}

/// The values folded left to right by the connectives, with no precedence:
/// `((v0 op0 v1) op1 v2) ...`. Needs at least one value and a connective
/// between each two.
pub open spec fn fold_values(values: Seq<bool>, ops: Seq<BoolOp>) -> bool
    decreases values.len(),
{
    if values.len() <= 1 {
        values.len() == 1 && values[0]
    } else {
        apply_op(
            ops[values.len() - 2],
            fold_values(values.drop_last(), ops),
            values.last(),
        )
    }
}

/// Folds condition values left to right with the connectives.
pub fn fold_bool_values(values: &Vec<bool>, ops: &Vec<BoolOp>) -> (r: bool)
    requires
        values@.len() >= 1,
        ops@.len() + 1 >= values@.len(),
    ensures
        r == fold_values(values@, ops@),
{
    let mut acc = values[0];
    let mut i: usize = 1;
    assert(values@.subrange(0, 1).drop_last().len() == 0);
    while i < values.len()
        invariant
            1 <= i <= values@.len(),
            ops@.len() + 1 >= values@.len(),
            acc == fold_values(values@.subrange(0, i as int), ops@),
        decreases values@.len() - i,
    {
        assert(values@.subrange(0, i + 1).drop_last() =~= values@.subrange(0, i as int));
        acc = match ops[i - 1] {
            BoolOp::And => acc && values[i],
            BoolOp::Or => acc || values[i],
            BoolOp::Xor => acc != values[i],
        };
        i = i + 1;
    }
    assert(values@.subrange(0, i as int) =~= values@);
    acc
}

/// A time lies strictly inside the window from `start` to `end`, which runs
/// forward and may wrap around midnight.
pub open spec fn in_window(start: u32, end: u32, t: u32) -> bool {
    (start < t && t < end && start < end) || (start > t && t < end && start > end) || (start < t
        && t > end && start > end)
}

/// Whether the time condition's window holds the time `t`.
pub fn time_matches(condition: &TimeCondition, t: TimeOfDay) -> (r: bool)
    ensures
        r == in_window(condition.timespan_start.millis, condition.timespan_end.millis, t.millis),
{
    let start = condition.timespan_start.millis;
    let end = condition.timespan_end.millis;
    let x = t.millis;
    (start < x && x < end && start < end) || (start > x && x < end && start > end) || (start < x
        && x > end && start > end)
}

/// A window whose start and end are equal holds no time.
pub proof fn lemma_empty_window(start: u32, t: u32)
    ensures
        !in_window(start, start, t),
{
}

/// The comparison that an operator names, applied to a reading that is below
/// (`lt`) or equal to (`eq`) the threshold; `None` for an unknown operator.
pub open spec fn compare_spec(op: Seq<char>, lt: bool, eq: bool) -> Option<bool> {
    if op == seq!['<'] {
        Some(lt)
    } else if op == seq!['<', '='] {
        Some(lt || eq)
    } else if op == seq!['>'] {
        Some(!lt && !eq)
    } else if op == seq!['>', '='] {
        Some(!lt)
    } else if op == seq!['=', '='] {
        Some(eq)
    } else if op == seq!['!', '='] {
        Some(!eq)
    } else {
        None
    }
}

/// Applies the comparison operator `op` given how the reading relates to the
/// threshold.
pub fn compare_with(op: &str, lt: bool, eq: bool) -> (r: Option<bool>)
    ensures
        r == compare_spec(op@, lt, eq),
{
    let n = op.unicode_len();
    if n == 1 {
        let c = op.get_char(0);
        assert(op@ =~= seq![c]);
        if c == '<' {
            Some(lt)
        } else if c == '>' {
            Some(!lt && !eq)
        } else {
            None
        }
    } else if n == 2 {
        let c0 = op.get_char(0);
        let c1 = op.get_char(1);
        assert(op@ =~= seq![c0, c1]);
        if c1 != '=' {
            None
        } else if c0 == '<' {
            Some(lt || eq)
        } else if c0 == '>' {
            Some(!lt)
        } else if c0 == '=' {
            Some(eq)
        } else if c0 == '!' {
            Some(!eq)
        } else {
            None
        }
    } else {
        None
    }
}

/// `a` comes before `b` in lexicographic order of characters.
pub open spec fn text_less(a: Seq<char>, b: Seq<char>) -> bool
    decreases a.len(),
{
    if a.len() == 0 {
        b.len() > 0
    } else if b.len() == 0 {
        false
    } else if a[0] != b[0] {
        a[0] < b[0]
    } else {
        text_less(a.drop_first(), b.drop_first())
    }
}

proof fn lemma_text_less_step(a: Seq<char>, b: Seq<char>, i: int)
    requires
        0 <= i < a.len(),
        i < b.len(),
        a[i] == b[i],
    ensures
        text_less(a.subrange(i, a.len() as int), b.subrange(i, b.len() as int)) == text_less(
            a.subrange(i + 1, a.len() as int),
            b.subrange(i + 1, b.len() as int),
        ),
{
    assert(a.subrange(i, a.len() as int).drop_first() =~= a.subrange(i + 1, a.len() as int));
    assert(b.subrange(i, b.len() as int).drop_first() =~= b.subrange(i + 1, b.len() as int));
}

/// Whether `a` comes before `b` in lexicographic order of characters.
pub fn text_lt(a: &str, b: &str) -> (r: bool)
    ensures
        r == text_less(a@, b@),
{
    let n = a.unicode_len();
    let m = b.unicode_len();
    let mut i: usize = 0;
    assert(a@.subrange(0, n as int) =~= a@);
    assert(b@.subrange(0, m as int) =~= b@);
    while i < n && i < m
        invariant
            n == a@.len(),
            m == b@.len(),
            i <= n,
            i <= m,
            text_less(a@, b@) == text_less(
                a@.subrange(i as int, n as int),
                b@.subrange(i as int, m as int),
            ),
        decreases n - i,
    {
        let x = a.get_char(i);
        let y = b.get_char(i);
        if x != y {
            return x < y;
        }
        proof {
            lemma_text_less_step(a@, b@, i as int);
        }
        i = i + 1;
    }
    i < m && i == n
}

/// The value of a text as Rust reads an `i32`: an optional `+` or `-`, then
/// at least one digit, within range.
pub open spec fn parse_i32_spec(s: Seq<char>) -> Option<i32> {
    let neg = s.len() > 0 && s[0] == '-';
    let digits = if s.len() > 0 && (s[0] == '-' || s[0] == '+') {
        s.drop_first()
    } else {
        s
    };
    if digits.len() == 0 || !all_digits(digits) {
        None
    } else if neg {
        if dec_value(digits) <= 2147483648 {
            Some((-dec_value(digits)) as i32)
        } else {
            None
        }
    } else if dec_value(digits) <= 2147483647 {
        Some(dec_value(digits) as i32)
    } else {
        None
    }
}

/// Reads an `i32` written in decimal, with an optional sign.
pub fn parse_i32(s: &str) -> (r: Option<i32>)
    ensures
        r == parse_i32_spec(s@),
{
    let n = s.unicode_len();
    let mut start: usize = 0;
    let mut neg = false;
    if n > 0 {
        let c = s.get_char(0);
        if c == '-' {
            neg = true;
            start = 1;
        } else if c == '+' {
            start = 1;
        }
    }
    let ghost digits = s@.subrange(start as int, n as int);
    proof {
        if start == 1 {
            assert(digits =~= s@.drop_first());
        } else {
            assert(digits =~= s@);
        }
        assert(neg == (s@.len() > 0 && s@[0] == '-'));
        assert(digits == (if s@.len() > 0 && (s@[0] == '-' || s@[0] == '+') {
            s@.drop_first()
        } else {
            s@
        }));
    }
    if start == n {
        return None;
    }
    let mut i: usize = start;
    let mut v: u64 = 0;
    while i < n
        invariant
            n == s@.len(),
            start <= i <= n,
            digits == s@.subrange(start as int, n as int),
            neg == (s@.len() > 0 && s@[0] == '-'),
            digits == (if s@.len() > 0 && (s@[0] == '-' || s@[0] == '+') {
                s@.drop_first()
            } else {
                s@
            }),
            all_digits(s@.subrange(start as int, i as int)),
            v as nat == dec_value(s@.subrange(start as int, i as int)),
            v <= 2147483648,
        decreases n - i,
    {
        let c = s.get_char(i);
        assert(s@.subrange(start as int, i + 1) =~= s@.subrange(start as int, i as int).push(c));
        if !('0' <= c && c <= '9') {
            assert(digits[i - start] == c);
            assert(!is_digit(digits[i - start]));
            assert(!all_digits(digits));
            return None;
        }
        let d: u64 = (c as u32 - '0' as u32) as u64;
        proof {
            lemma_dec_value_push_pub(s@.subrange(start as int, i as int), c);
        }
        v = v * 10 + d;
        if v > 2147483648 {
            proof {
                if all_digits(digits) {
                    crate::text::lemma_dec_value_monotone_pub(digits, i + 1 - start);
                    assert(digits.subrange(0, i + 1 - start) =~= s@.subrange(start as int, i + 1));
                }
            }
            return None;
        }
        i = i + 1;
    }
    assert(s@.subrange(start as int, n as int) == digits);
    if neg {
        Some((0 - (v as i64)) as i32)
    } else if v <= 2147483647 {
        Some(v as i32)
    } else {
        None
    }
}

/// The value of a text as Rust reads a `bool`.
pub open spec fn parse_bool_spec(s: Seq<char>) -> Option<bool> {
    if s == seq!['t', 'r', 'u', 'e'] {
        Some(true)
    } else if s == seq!['f', 'a', 'l', 's', 'e'] {
        Some(false)
    } else {
        None
    }
}

/// Reads `true` or `false`.
pub fn parse_bool(s: &str) -> (r: Option<bool>)
    ensures
        r == parse_bool_spec(s@),
{
    let n = s.unicode_len();
    if n == 4 {
        let (a, b, c, d) = (s.get_char(0), s.get_char(1), s.get_char(2), s.get_char(3));
        assert(s@ =~= seq![a, b, c, d]);
        if a == 't' && b == 'r' && c == 'u' && d == 'e' {
            return Some(true);
        }
        None
    } else if n == 5 {
        let (a, b, c, d, e) = (s.get_char(0), s.get_char(1), s.get_char(2), s.get_char(3), s.get_char(4));
        assert(s@ =~= seq![a, b, c, d, e]);
        if a == 'f' && b == 'a' && c == 'l' && d == 's' && e == 'e' {
            return Some(false);
        }
        None
    } else {
        None
    }
}

} // verus!
