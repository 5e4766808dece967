use crate::duration::{chamber_label, hhmm_text, minutes_to_hhmm, push_decimal, string_of_chars};
use crate::error::CokeError;
use crate::models::{reading_ok, TempRecord};
use crate::series::{calculate_avg_temperature, samples_ok, window_average, TemperatureSample};
use crate::time::{parse_time, parse_time_result, Instant};
use vstd::prelude::*;
use vstd::string::StringSliceAdditionalSpecFns;

verus! {

/// Number of ovens in the standard configuration, numbered from 1.
pub const OVEN_COUNT: i32 = 3;

/// Number of chambers of each oven in the standard configuration, labelled `1#` upwards.
pub const CHAMBERS_PER_OVEN: u64 = 50;

/// The two kinds of chamber operation.
#[derive(Clone, Copy, Debug, PartialEq, Eq, Structural)]
pub enum OperationKind {
    /// Coal charged into the chamber: a cycle starts.
    Load,
    /// Coke discharged from the chamber: a cycle ends.
    Push,
}

/// `LOAD` or `PUSH`, as bytes.
pub open spec fn kind_of_text(b: Seq<u8>) -> Option<OperationKind> {
    if b == seq![76u8, 79u8, 65u8, 68u8] {
        Some(OperationKind::Load)
    } else if b == seq![80u8, 85u8, 83u8, 72u8] {
        Some(OperationKind::Push)
    } else {
        None
    }
}

/// Reads an operation kind, `LOAD` or `PUSH`.
pub fn parse_operation_kind(op_type: &str) -> (r: Result<OperationKind, CokeError>)
    ensures
        r == (match kind_of_text(op_type.spec_bytes()) {
            Some(k) => Ok(k),
            None => Err(CokeError::InvalidOperationKind),
        }),
{
    let b = op_type.as_bytes();
    if b.len() == 4 {
        if b[0] == 76 && b[1] == 79 && b[2] == 65 && b[3] == 68 {
            assert(b@ =~= seq![76u8, 79u8, 65u8, 68u8]);
            return Ok(OperationKind::Load);
        }
        if b[0] == 80 && b[1] == 85 && b[2] == 83 && b[3] == 72 {
            assert(b@ =~= seq![80u8, 85u8, 83u8, 72u8]);
            return Ok(OperationKind::Push);
        }
    }
    Err(CokeError::InvalidOperationKind)
}

/// An oven and the labels of its chambers.
pub struct Oven {
    pub id: i32,
    pub chambers: Vec<String>,
}

impl Oven {
    pub open spec fn has_chamber(&self, c: Seq<char>) -> bool {
        exists|i: int| 0 <= i < self.chambers@.len() && (#[trigger] self.chambers@[i])@ == c
    }

    /// Whether `chamber` is one of this oven's chamber labels.
    pub fn is_valid_chamber(&self, chamber: &str) -> (r: bool)
        ensures
            r == self.has_chamber(chamber@),
    {
        let c: String = chamber.to_owned();
        let mut i: usize = 0;
        while i < self.chambers.len()
            invariant
                0 <= i <= self.chambers@.len(),
                c@ == chamber@,
                forall|j: int| 0 <= j < i ==> (#[trigger] self.chambers@[j])@ != c@,
            decreases self.chambers@.len() - i,
        {
            if self.chambers[i].eq(&c) {
                return true;
            }
            i = i + 1;
        }
        false
    }
}

/// The labels `1#` to `count#`.
pub fn chamber_labels(count: u64) -> (r: Vec<String>)
    ensures
        r@.len() == count,
        forall|i: int| 0 <= i < count ==> (#[trigger] r@[i])@ == chamber_label((i + 1) as nat),
{
    let mut out: Vec<String> = Vec::new();
    let mut n: u64 = 0;
    while n < count
        invariant
            n <= count,
            out@.len() == n,
            forall|i: int| 0 <= i < n ==> (#[trigger] out@[i])@ == chamber_label((i + 1) as nat),
        decreases count - n,
    {
        let mut text: Vec<char> = Vec::new();
        push_decimal(&mut text, n + 1);
        text.push('#');
        assert(text@ =~= chamber_label((n + 1) as nat));
        out.push(string_of_chars(&text));
        n = n + 1;
    }
    out
}

/// The standard configuration: ovens `1` to `OVEN_COUNT`, each with chambers
/// `1#` to `CHAMBERS_PER_OVEN#`.
pub fn initialize_ovens() -> (r: Vec<Oven>)
    ensures
        r@.len() == OVEN_COUNT,
        forall|i: int|
            #![trigger r@[i]]
            0 <= i < OVEN_COUNT ==> r@[i].id == i + 1 && r@[i].chambers@.len() == CHAMBERS_PER_OVEN
                && forall|j: int|
                0 <= j < CHAMBERS_PER_OVEN ==> (#[trigger] r@[i].chambers@[j])@ == chamber_label(
                (j + 1) as nat),
{
    let mut ovens: Vec<Oven> = Vec::new();
    let mut id: i32 = 1;
    while id <= OVEN_COUNT
        invariant
            1 <= id <= OVEN_COUNT + 1,
            ovens@.len() == id - 1,
            forall|i: int|
                #![trigger ovens@[i]]
                0 <= i < id - 1 ==> ovens@[i].id == i + 1 && ovens@[i].chambers@.len()
                    == CHAMBERS_PER_OVEN && forall|j: int|
                    0 <= j < CHAMBERS_PER_OVEN ==> (#[trigger] ovens@[i].chambers@[j])@
                        == chamber_label((j + 1) as nat),
        decreases OVEN_COUNT + 1 - id,
    {
        ovens.push(Oven { id, chambers: chamber_labels(CHAMBERS_PER_OVEN) });
        id = id + 1;
    }
    ovens
}

/// A stored LOAD or PUSH event.
pub struct OperationRecord {
    pub coke_oven: i32,
    pub chamber: String,
    pub kind: OperationKind,
    pub time: Instant,
}

/// A derived coking cycle: from a LOAD to the PUSH that follows it.
pub struct CokingCycle {
    pub coke_oven: i32,
    pub chamber: String,
    pub loading_time: Instant,
    pub push_time: Instant,
    /// Whole minutes from the load to the push.
    pub duration_minutes: i64,
    /// The duration as `HH:MM`.
    pub duration_hhmm: String,
    /// Time-weighted average machine-side reading, in hundredths of a degree.
    pub avg_temp_machine: Option<i64>,
    /// Time-weighted average coke-side reading, in hundredths of a degree.
    pub avg_temp_coke: Option<i64>,
}

/// The LOAD of oven `o`, chamber `c` with the latest instant strictly before `t`.
pub open spec fn latest_load(ops: Seq<OperationRecord>, o: i32, c: Seq<char>, t: int) -> Option<Instant>
    decreases ops.len(),
{
    if ops.len() == 0 {
        None
    } else {
        let r = latest_load(ops.drop_last(), o, c, t);
        let x = ops.last();
        if x.coke_oven == o && x.chamber@ == c && x.kind == OperationKind::Load && x.time.secs < t
            && (r is None || r.unwrap().secs <= x.time.secs) {
            Some(x.time)
        } else {
            r
        }
    }
}

pub open spec fn is_load_of(x: OperationRecord, o: i32, c: Seq<char>) -> bool {
    x.coke_oven == o && x.chamber@ == c && x.kind == OperationKind::Load
}

/// What `latest_load` returns is a LOAD of the chamber before `t`, and no LOAD
/// of the chamber before `t` is later.
pub proof fn lemma_latest_load(ops: Seq<OperationRecord>, o: i32, c: Seq<char>, t: int)
    ensures
        latest_load(ops, o, c, t) matches Some(l) ==> exists|i: int|
            0 <= i < ops.len() && is_load_of(#[trigger] ops[i], o, c) && ops[i].time == l,
        latest_load(ops, o, c, t) matches Some(l) ==> l.secs < t,
        forall|i: int|
            0 <= i < ops.len() && is_load_of(#[trigger] ops[i], o, c) && ops[i].time.secs < t
                ==> (latest_load(ops, o, c, t) is Some && ops[i].time.secs <= latest_load(
                ops,
                o,
                c,
                t,
            ).unwrap().secs),
    decreases ops.len(),
{
    if ops.len() > 0 {
        let d = ops.drop_last();
        lemma_latest_load(d, o, c, t);
        if let Some(l) = latest_load(d, o, c, t) {
            let i = choose|i: int| 0 <= i < d.len() && is_load_of(#[trigger] d[i], o, c) && d[i].time == l;
            assert(ops[i] == d[i]);
        }
        assert forall|i: int|
            0 <= i < ops.len() && is_load_of(#[trigger] ops[i], o, c) && ops[i].time.secs
                < t implies latest_load(ops, o, c, t) is Some && ops[i].time.secs <= latest_load(
            ops,
            o,
            c,
            t,
        ).unwrap().secs by {
            if i < ops.len() - 1 {
                assert(ops[i] == d[i]);
            }
        }
    }
}

/// A PUSH with no earlier LOAD of its chamber matches no load, so it derives no cycle.
pub proof fn lemma_push_without_load(ops: Seq<OperationRecord>, o: i32, c: Seq<char>, t: int)
    requires
        forall|i: int|
            0 <= i < ops.len() && is_load_of(#[trigger] ops[i], o, c) ==> ops[i].time.secs >= t,
    ensures
        latest_load(ops, o, c, t) is None,
{
    lemma_latest_load(ops, o, c, t);
}

/// Finds the latest LOAD of `chamber` of `coke_oven` strictly before `push_time`.
pub fn latest_load_before(ops: &Vec<OperationRecord>, coke_oven: i32, chamber: &String, push_time: Instant) -> (r:
    Option<Instant>)
    ensures
        r == latest_load(ops@, coke_oven, chamber@, push_time.secs as int),
{
    let ghost s = ops@;
    let mut best: Option<Instant> = None;
    let mut i: usize = 0;
    while i < ops.len()
        invariant
            s == ops@,
            0 <= i <= s.len(),
            best == latest_load(s.take(i as int), coke_oven, chamber@, push_time.secs as int),
        decreases s.len() - i,
    {
        assert(s.take(i + 1).drop_last() =~= s.take(i as int));
        let x = &ops[i];
        if x.coke_oven == coke_oven && x.kind == OperationKind::Load && x.time.secs < push_time.secs
            && x.chamber.eq(chamber) {
            match best {
                Some(b) => {
                    if b.secs <= x.time.secs {
                        best = Some(x.time);
                    }
                },
                None => {
                    best = Some(x.time);
                },
            }
        }
        i = i + 1;
    }
    assert(s.take(s.len() as int) =~= s);
    best
}

/// Whole minutes from `l` to `t`.
pub open spec fn minutes_between(l: Instant, t: Instant) -> int {
    (t.secs - l.secs) / 60
}

/// `c` is the cycle of oven `o`, chamber `ch` from the load at `l` to the push
/// at `t`, with the averages taken from the samples `temps`.
pub open spec fn is_cycle(c: CokingCycle, o: i32, ch: Seq<char>, l: Instant, t: Instant, temps: Seq<TemperatureSample>) -> bool {
    &&& c.coke_oven == o
    &&& c.chamber@ == ch
    &&& c.loading_time == l
    &&& c.push_time == t
    &&& c.duration_minutes == minutes_between(l, t)
    &&& c.duration_hhmm@ == hhmm_text(minutes_between(l, t) as nat)
    &&& match window_average(temps, o, l, t) {
        Some((m, k)) => c.avg_temp_machine == Some(m as i64) && c.avg_temp_coke == Some(k as i64),
        None => c.avg_temp_machine is None && c.avg_temp_coke is None,
    }
}

/// The record store and oven configuration; all operations run on it in turn.
pub struct CokeOvenSystem {
    pub ovens: Vec<Oven>,
    /// Temperature samples, in ascending order of instant.
    pub temperatures: Vec<TemperatureSample>,
    pub operations: Vec<OperationRecord>,
    pub cycles: Vec<CokingCycle>,
}

impl CokeOvenSystem {
    pub open spec fn wf(&self) -> bool {
        &&& samples_ok(self.temperatures@)
        &&& forall|i: int| 0 <= i < self.operations@.len() ==> (#[trigger] self.operations@[i]).time.wf()
        &&& forall|i: int, j: int|
            0 <= i < j < self.ovens@.len() ==> (#[trigger] self.ovens@[i]).id != (#[trigger] self.ovens@[j]).id
    }

    pub open spec fn has_oven(&self, o: i32) -> bool {
        exists|i: int| 0 <= i < self.ovens@.len() && (#[trigger] self.ovens@[i]).id == o
    }

    pub open spec fn has_chamber(&self, o: i32, c: Seq<char>) -> bool {
        exists|i: int|
            0 <= i < self.ovens@.len() && (#[trigger] self.ovens@[i]).id == o && self.ovens@[i].has_chamber(c)
    }

    pub open spec fn has_temperature(&self, o: i32, t: Instant) -> bool {
        exists|i: int|
            0 <= i < self.temperatures@.len() && (#[trigger] self.temperatures@[i]).coke_oven == o
                && self.temperatures@[i].record.time == t
    }

    pub open spec fn has_operation(&self, o: i32, c: Seq<char>, t: Instant) -> bool {
        exists|i: int|
            0 <= i < self.operations@.len() && (#[trigger] self.operations@[i]).coke_oven == o
                && self.operations@[i].chamber@ == c && self.operations@[i].time == t
    }

    /// What recording a temperature sample does: the sample to store, or the error.
    pub open spec fn temperature_outcome(&self, o: i32, time: Seq<u8>, machine: i64, coke: i64) -> Result<TemperatureSample, CokeError> {
        if !self.has_oven(o) {
            Err(CokeError::InvalidOven)
        } else {
            match parse_time_result(time) {
                Err(e) => Err(e),
                Ok(t) => if self.has_temperature(o, t) {
                    Err(CokeError::DuplicateRecord)
                } else {
                    Ok(
                        TemperatureSample {
                            coke_oven: o,
                            record: TempRecord { time: t, machine_side: machine, coke_side: coke },
                        },
                    )
                },
            }
        }
    }

    /// What recording an operation does: its kind and instant, or the error.
    pub open spec fn operation_outcome(&self, o: i32, c: Seq<char>, kind: Seq<u8>, time: Seq<u8>) -> Result<(OperationKind, Instant), CokeError> {
        if !self.has_oven(o) {
            Err(CokeError::InvalidOven)
        } else if !self.has_chamber(o, c) {
            Err(CokeError::InvalidChamber)
        } else {
            match kind_of_text(kind) {
                None => Err(CokeError::InvalidOperationKind),
                Some(k) => match parse_time_result(time) {
                    Err(e) => Err(e),
                    Ok(t) => if self.has_operation(o, c, t) {
                        Err(CokeError::DuplicateRecord)
                    } else {
                        Ok((k, t))
                    },
                },
            }
        }
    }

    /// An empty store over the standard oven configuration.
    pub fn new() -> (r: CokeOvenSystem)
        ensures
            r.wf(),
            r.ovens@.len() == OVEN_COUNT,
            forall|i: int|
                #![trigger r.ovens@[i]]
                0 <= i < OVEN_COUNT ==> r.ovens@[i].id == i + 1 && r.ovens@[i].chambers@.len()
                    == CHAMBERS_PER_OVEN && forall|j: int|
                    0 <= j < CHAMBERS_PER_OVEN ==> (#[trigger] r.ovens@[i].chambers@[j])@
                        == chamber_label((j + 1) as nat),
            r.temperatures@.len() == 0,
            r.operations@.len() == 0,
            r.cycles@.len() == 0,
    {
        let ovens = initialize_ovens();
        CokeOvenSystem {
            ovens,
            temperatures: Vec::new(),
            operations: Vec::new(),
            cycles: Vec::new(),
        }
    }

    fn find_oven(&self, coke_oven: i32) -> (r: Option<usize>)
        ensures
            r matches Some(k) ==> k < self.ovens@.len() && self.ovens@[k as int].id == coke_oven,
            r is None ==> !self.has_oven(coke_oven),
    {
        let mut i: usize = 0;
        while i < self.ovens.len()
            invariant
                0 <= i <= self.ovens@.len(),
                forall|j: int| 0 <= j < i ==> (#[trigger] self.ovens@[j]).id != coke_oven,
            decreases self.ovens@.len() - i,
        {
            if self.ovens[i].id == coke_oven {
                return Some(i);
            }
            i = i + 1;
        }
        None
    }

    fn contains_temperature(&self, coke_oven: i32, t: Instant) -> (r: bool)
        ensures
            r == self.has_temperature(coke_oven, t),
    {
        let mut i: usize = 0;
        while i < self.temperatures.len()
            invariant
                0 <= i <= self.temperatures@.len(),
                forall|j: int|
                    0 <= j < i ==> !((#[trigger] self.temperatures@[j]).coke_oven == coke_oven
                        && self.temperatures@[j].record.time == t),
            decreases self.temperatures@.len() - i,
        {
            let x = self.temperatures[i];
            if x.coke_oven == coke_oven && x.record.time == t {
                return true;
            }
            i = i + 1;
        }
        false
    }

    fn contains_operation(&self, coke_oven: i32, chamber: &String, t: Instant) -> (r: bool)
        ensures
            r == self.has_operation(coke_oven, chamber@, t),
    {
        let mut i: usize = 0;
        while i < self.operations.len()
            invariant
                0 <= i <= self.operations@.len(),
                forall|j: int|
                    0 <= j < i ==> !((#[trigger] self.operations@[j]).coke_oven == coke_oven
                        && self.operations@[j].chamber@ == chamber@ && self.operations@[j].time == t),
            decreases self.operations@.len() - i,
        {
            let x = &self.operations[i];
            if x.coke_oven == coke_oven && x.time == t && x.chamber.eq(chamber) {
                return true;
            }
            i = i + 1;
        }
        false
    }

    /// Stores a sample, keeping the samples in ascending order of instant.
    fn insert_sample(&mut self, sample: TemperatureSample) -> (k: usize)
        requires
            old(self).wf(),
            sample.record.wf(),
            !old(self).has_temperature(sample.coke_oven, sample.record.time),
        ensures
            final(self).wf(),
            k <= old(self).temperatures@.len(),
            final(self).temperatures@ == old(self).temperatures@.insert(k as int, sample),
            final(self).ovens == old(self).ovens,
            final(self).operations == old(self).operations,
            final(self).cycles == old(self).cycles,
    {
        let ghost s = self.temperatures@;
        let t = sample.record.time.secs;
        let mut k: usize = 0;
        while k < self.temperatures.len() && self.temperatures[k].record.time.secs <= t
            invariant
                s == self.temperatures@,
                0 <= k <= s.len(),
                forall|j: int| 0 <= j < k ==> (#[trigger] s[j]).record.time.secs <= t,
            decreases s.len() - k,
        {
            k = k + 1;
        }
        assert forall|j: int| k <= j < s.len() implies (#[trigger] s[j]).record.time.secs > t by {
            assert(s[k as int].record.time.secs <= s[j].record.time.secs);
        }
        self.temperatures.insert(k, sample);
        let ghost n = self.temperatures@;
        assert(n == s.insert(k as int, sample));
        assert forall|i: int| 0 <= i < n.len() implies (#[trigger] n[i]).record.wf() by {
            if i > k {
                assert(n[i] == s[i - 1]);
            } else if i < k {
                assert(n[i] == s[i]);
            }
        }
        assert forall|i: int, j: int| 0 <= i < j < n.len() implies (#[trigger] n[i]).record.time.secs
            <= (#[trigger] n[j]).record.time.secs by {
            if i > k {
                assert(n[i] == s[i - 1] && n[j] == s[j - 1]);
            } else if i == k {
                assert(n[j] == s[j - 1]);
            } else if j < k {
                assert(n[i] == s[i] && n[j] == s[j]);
            } else if j == k {
                assert(n[i] == s[i]);
            } else {
                assert(n[i] == s[i] && n[j] == s[j - 1]);
            }
        }
        assert forall|i: int, j: int|
            0 <= i < j < n.len() && (#[trigger] n[i]).coke_oven == (#[trigger] n[j]).coke_oven
                implies n[i].record.time.secs != n[j].record.time.secs by {
            if i > k {
                assert(n[i] == s[i - 1] && n[j] == s[j - 1]);
            } else if i == k {
                assert(n[j] == s[j - 1]);
                assert(n[j].record.time != sample.record.time);
            } else if j < k {
                assert(n[i] == s[i] && n[j] == s[j]);
            } else if j == k {
                assert(n[i] == s[i]);
                assert(n[i].record.time != sample.record.time);
            } else {
                assert(n[i] == s[i] && n[j] == s[j - 1]);
            }
        }
        k
    }

    /// Records a temperature sample of `coke_oven` at the instant that `time`
    /// spells; readings in hundredths of a degree.
    pub fn record_temperature(&mut self, coke_oven: i32, time: &str, machine_temp: i64, coke_temp: i64) -> (r:
        Result<(), CokeError>)
        requires
            old(self).wf(),
            reading_ok(machine_temp as int),
            reading_ok(coke_temp as int),
        ensures
            final(self).wf(),
            match old(self).temperature_outcome(coke_oven, time.spec_bytes(), machine_temp, coke_temp) {
                Err(e) => r == Err::<(), CokeError>(e) && *final(self) == *old(self),
                Ok(sample) => {
                    &&& r is Ok
                    &&& final(self).ovens == old(self).ovens
                    &&& final(self).operations == old(self).operations
                    &&& final(self).cycles == old(self).cycles
                },
            },
            old(self).temperature_outcome(coke_oven, time.spec_bytes(), machine_temp, coke_temp) is Ok
                ==> final(self).temperatures@.to_multiset() == old(self).temperatures@.to_multiset().insert(
                old(self).temperature_outcome(coke_oven, time.spec_bytes(), machine_temp, coke_temp).unwrap(),
            ),
    {
        match self.find_oven(coke_oven) {
            Some(k) => {
                assert(self.ovens@[k as int].id == coke_oven);
            },
            None => {
                return Err(CokeError::InvalidOven);
            },
        }
        let t = match parse_time(time) {
            Ok(t) => t,
            Err(e) => {
                return Err(e);
            },
        };
        if self.contains_temperature(coke_oven, t) {
            return Err(CokeError::DuplicateRecord);
        }
        let sample = TemperatureSample {
            coke_oven,
            record: TempRecord { time: t, machine_side: machine_temp, coke_side: coke_temp },
        };
        assert(old(self).temperature_outcome(coke_oven, time.spec_bytes(), machine_temp, coke_temp)
            == Ok::<TemperatureSample, CokeError>(sample));
        let k = self.insert_sample(sample);
        proof {
            vstd::seq_lib::to_multiset_insert(old(self).temperatures@, k as int, sample);
        }
        Ok(())
    }

    /// Derives the cycle that a PUSH of `chamber` at `push_time` closes, if a
    /// LOAD of the chamber precedes it, and stores it.
    pub fn try_calculate_coking_cycle(&mut self, coke_oven: i32, chamber: &String, push_time: Instant)
        requires
            old(self).wf(),
            push_time.wf(),
        ensures
            final(self).wf(),
            final(self).ovens == old(self).ovens,
            final(self).temperatures == old(self).temperatures,
            final(self).operations == old(self).operations,
            match latest_load(old(self).operations@, coke_oven, chamber@, push_time.secs as int) {
                None => final(self).cycles@ == old(self).cycles@,
                Some(l) => {
                    &&& final(self).cycles@.len() == old(self).cycles@.len() + 1
                    &&& final(self).cycles@.drop_last() == old(self).cycles@
                    &&& is_cycle(
                        final(self).cycles@.last(),
                        coke_oven,
                        chamber@,
                        l,
                        push_time,
                        old(self).temperatures@,
                    )
                },
            },
    {
        let loading = latest_load_before(&self.operations, coke_oven, chamber, push_time);
        match loading {
            None => {},
            Some(load_time) => {
                proof {
                    lemma_latest_load(self.operations@, coke_oven, chamber@, push_time.secs as int);
                    let i = choose|i: int|
                        0 <= i < self.operations@.len() && is_load_of(
                            #[trigger] self.operations@[i],
                            coke_oven,
                            chamber@,
                        ) && self.operations@[i].time == load_time;
                    assert(self.operations@[i].time.wf());
                }
                let elapsed: i64 = push_time.secs - load_time.secs;
                let minutes: i64 = elapsed / 60;
                let duration_hhmm = minutes_to_hhmm(minutes);
                let avg = calculate_avg_temperature(&self.temperatures, coke_oven, load_time, push_time);
                let (avg_temp_machine, avg_temp_coke) = match avg {
                    Some((m, c)) => (Some(m), Some(c)),
                    None => (None, None),
                };
                let cycle = CokingCycle {
                    coke_oven,
                    chamber: chamber.clone(),
                    loading_time: load_time,
                    push_time,
                    duration_minutes: minutes,
                    duration_hhmm,
                    avg_temp_machine,
                    avg_temp_coke,
                };
                let ghost before = self.cycles@;
                self.cycles.push(cycle);
                assert(self.cycles@.drop_last() =~= before);
            },
        }
    }

    /// Records a LOAD or PUSH of `chamber` of `coke_oven` at the instant that
    /// `time` spells; a PUSH then derives the cycle it closes, if any.
    pub fn record_operation(&mut self, coke_oven: i32, chamber: &str, op_type: &str, time: &str) -> (r:
        Result<(), CokeError>)
        requires
            old(self).wf(),
        ensures
            final(self).wf(),
            match old(self).operation_outcome(coke_oven, chamber@, op_type.spec_bytes(), time.spec_bytes()) {
                Err(e) => r == Err::<(), CokeError>(e) && *final(self) == *old(self),
                Ok((kind, t)) => {
                    &&& r is Ok
                    &&& final(self).ovens == old(self).ovens
                    &&& final(self).temperatures == old(self).temperatures
                    &&& final(self).operations@.len() == old(self).operations@.len() + 1
                    &&& final(self).operations@.drop_last() == old(self).operations@
                    &&& final(self).operations@.last().coke_oven == coke_oven
                    &&& final(self).operations@.last().chamber@ == chamber@
                    &&& final(self).operations@.last().kind == kind
                    &&& final(self).operations@.last().time == t
                    &&& if kind == OperationKind::Push {
                        match latest_load(old(self).operations@, coke_oven, chamber@, t.secs as int) {
                            None => final(self).cycles@ == old(self).cycles@,
                            Some(l) => {
                                &&& final(self).cycles@.len() == old(self).cycles@.len() + 1
                                &&& final(self).cycles@.drop_last() == old(self).cycles@
                                &&& is_cycle(
                                    final(self).cycles@.last(),
                                    coke_oven,
                                    chamber@,
                                    l,
                                    t,
                                    old(self).temperatures@,
                                )
                            },
                        }
                    } else {
                        final(self).cycles@ == old(self).cycles@
                    }
                },
            },
    {
        let k = match self.find_oven(coke_oven) {
            Some(k) => k,
            None => {
                return Err(CokeError::InvalidOven);
            },
        };
        let valid = self.ovens[k].is_valid_chamber(chamber);
        proof {
            if self.has_chamber(coke_oven, chamber@) {
                let i = choose|i: int|
                    0 <= i < self.ovens@.len() && (#[trigger] self.ovens@[i]).id == coke_oven
                        && self.ovens@[i].has_chamber(chamber@);
                if i != k {
                    if i < k {
                        assert(self.ovens@[i].id != self.ovens@[k as int].id);
                    } else {
                        assert(self.ovens@[k as int].id != self.ovens@[i].id);
                    }
                }
            }
        }
        if !valid {
            return Err(CokeError::InvalidChamber);
        }
        let kind = match parse_operation_kind(op_type) {
            Ok(kind) => kind,
            Err(e) => {
                return Err(e);
            },
        };
        let t = match parse_time(time) {
            Ok(t) => t,
            Err(e) => {
                return Err(e);
            },
        };
        let chamber_text: String = chamber.to_owned();
        if self.contains_operation(coke_oven, &chamber_text, t) {
            return Err(CokeError::DuplicateRecord);
        }
        let ghost old_ops = self.operations@;
        self.operations.push(
            OperationRecord { coke_oven, chamber: chamber_text.clone(), kind, time: t },
        );
        assert(self.operations@.drop_last() =~= old_ops);
        if kind == OperationKind::Push {
            proof {
                let n = self.operations@;
                assert(n.drop_last() == old_ops);
                assert(latest_load(n, coke_oven, chamber@, t.secs as int) == latest_load(
                    old_ops,
                    coke_oven,
                    chamber@,
                    t.secs as int,
                ));
            }
            self.try_calculate_coking_cycle(coke_oven, &chamber_text, t);
        }
        Ok(())
    }
}

} // verus!
