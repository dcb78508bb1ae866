//! CPU usage from the first line of `/proc/stat`.
use vstd::prelude::*;
use crate::text::{
    chars_of, first_line, first_line_chars, parse_u64, parse_unsigned, push_str, split_words, string_of,
    views, words,
};

verus! {

/// `std::io::Error`, carried through as it came.
#[verifier::external_type_specification]
#[verifier::external_body]
pub struct ExIoError(std::io::Error);

/// Why CPU usage could not be had.
pub enum Error {
    /// The data did not have the expected shape.
    ParseErr,
    /// Reading or writing a file failed.
    IOErr(std::io::Error),
}

/// The text of an I/O error, as `Display` writes it. The text comes from the
/// system and its messages; nothing is stated of it.
#[verifier::external_body]
fn io_error_text(e: &std::io::Error) -> (s: String) {
    e.to_string()
}

/// The message for an I/O error whose own text is `text`.
pub fn io_error_message(text: &str) -> (s: String)
    ensures
        s@ == "An IO error occurred: "@ + text@,
{
    let mut v: Vec<char> = Vec::new();
    push_str(&mut v, "An IO error occurred: ");
    push_str(&mut v, text);
    string_of(&v)
}

impl Error {
    /// The message that reports the error: a fixed text for a parse error, and
    /// for an I/O error `io_error_message` of the error's own text.
    pub fn message(&self) -> (s: String)
        ensures
            (*self is ParseErr) ==> s@ == "Could not parse data"@,
            (*self is IOErr) ==> "An IO error occurred: "@.is_prefix_of(s@),
    {
        match self {
            Error::ParseErr => "Could not parse data".to_owned(),
            Error::IOErr(e) => {
                let t = io_error_text(e);
                let m = io_error_message(t.as_str());
                assert("An IO error occurred: "@.is_prefix_of(m@)) by {
                    assert(m@.take("An IO error occurred: "@.len() as int) =~= "An IO error occurred: "@);
                }
                m
            },
        }
    }
}

/// CPU time counters, in the order that `/proc/stat` lists them, with their sum.
#[derive(Debug, Clone, Copy)]
pub struct CpuUsage {
    pub user: u64,
    pub nice: u64,
    pub system: u64,
    pub idle: u64,
    pub iowait: u64,
    pub irq: u64,
    pub softirq: u64,
    pub steal: u64,
    pub guest: u64,
    pub guest_nice: u64,
    pub total: u64,
}

/// The sum of a sequence of naturals.
pub open spec fn sum(s: Seq<nat>) -> nat
    decreases s.len(),
{
    if s.len() == 0 {
        0
    } else {
        sum(s.drop_last()) + s.last()
    }
}

/// The ten counters of the first line of `/proc/stat` text: the line must hold
/// exactly eleven whitespace-separated words, and each word after the first
/// must parse as a `u64`.
pub open spec fn stat_times(content: Seq<char>) -> Option<Seq<nat>> {
    let w = words(first_line(content));
    if w.len() == 11 && forall|i: int| 1 <= i < 11 ==> #[trigger] parse_unsigned(w[i], u64::MAX as nat) is Some {
        Some(Seq::new(10, |i: int| parse_unsigned(w[i + 1], u64::MAX as nat)->0))
    } else {
        None
    }
}

impl CpuUsage {
    /// The ten counters, in field order.
    pub open spec fn times(self) -> Seq<nat> {
        seq![
            self.user as nat,
            self.nice as nat,
            self.system as nat,
            self.idle as nat,
            self.iowait as nat,
            self.irq as nat,
            self.softirq as nat,
            self.steal as nat,
            self.guest as nat,
            self.guest_nice as nat,
        ]
    }

    /// The total is the sum of the ten counters.
    pub open spec fn well_formed(self) -> bool {
        self.total == sum(self.times())
    }

    /// No counter of `self`, the total included, is below that of `earlier`.
    pub open spec fn covers(self, earlier: CpuUsage) -> bool {
        &&& self.user >= earlier.user
        &&& self.nice >= earlier.nice
        &&& self.system >= earlier.system
        &&& self.idle >= earlier.idle
        &&& self.iowait >= earlier.iowait
        &&& self.irq >= earlier.irq
        &&& self.softirq >= earlier.softirq
        &&& self.steal >= earlier.steal
        &&& self.guest >= earlier.guest
        &&& self.guest_nice >= earlier.guest_nice
        &&& self.total >= earlier.total
    }

    /// The counter-by-counter difference `self - earlier`.
    pub open spec fn spec_sub(self, earlier: CpuUsage) -> CpuUsage {
        CpuUsage {
            user: (self.user - earlier.user) as u64,
            nice: (self.nice - earlier.nice) as u64,
            system: (self.system - earlier.system) as u64,
            idle: (self.idle - earlier.idle) as u64,
            iowait: (self.iowait - earlier.iowait) as u64,
            irq: (self.irq - earlier.irq) as u64,
            softirq: (self.softirq - earlier.softirq) as u64,
            steal: (self.steal - earlier.steal) as u64,
            guest: (self.guest - earlier.guest) as u64,
            guest_nice: (self.guest_nice - earlier.guest_nice) as u64,
            total: (self.total - earlier.total) as u64,
        }
    }

    /// Whether every counter of `self`, the total included, is at least that of
    /// `earlier`, so that `self.sub(earlier)` is defined.
    pub fn covers_exec(&self, earlier: &CpuUsage) -> (r: bool)
        ensures
            r == self.covers(*earlier),
    {
        self.user >= earlier.user && self.nice >= earlier.nice && self.system >= earlier.system
            && self.idle >= earlier.idle && self.iowait >= earlier.iowait && self.irq
            >= earlier.irq && self.softirq >= earlier.softirq && self.steal >= earlier.steal
            && self.guest >= earlier.guest && self.guest_nice >= earlier.guest_nice && self.total
            >= earlier.total
    }

    /// The usage between two readings: each counter of `rhs` taken from that of
    /// `self`.
    pub fn sub(self, rhs: CpuUsage) -> (r: CpuUsage)
        requires
            self.covers(rhs),
        ensures
            r == self.spec_sub(rhs),
    {
        CpuUsage {
            user: self.user - rhs.user,
            nice: self.nice - rhs.nice,
            system: self.system - rhs.system,
            idle: self.idle - rhs.idle,
            iowait: self.iowait - rhs.iowait,
            irq: self.irq - rhs.irq,
            softirq: self.softirq - rhs.softirq,
            steal: self.steal - rhs.steal,
            guest: self.guest - rhs.guest,
            guest_nice: self.guest_nice - rhs.guest_nice,
            total: self.total - rhs.total,
        }
    }

    /// A reading from its ten counters, with their sum as the total; `None`
    /// where that sum does not fit in a `u64`.
    pub fn from_times(times: &Vec<u64>) -> (r: Option<CpuUsage>)
        requires
            times@.len() == 10,
        ensures
            r is Some <==> sum(times@.map_values(|t: u64| t as nat)) <= u64::MAX,
            r matches Some(c) ==> c.well_formed() && c.times() == times@.map_values(
                |t: u64| t as nat,
            ),
    {
        let ghost ts = times@.map_values(|t: u64| t as nat);
        let mut total: u64 = 0;
        let mut i: usize = 0;
        while i < 10
            invariant
                times@.len() == 10,
                0 <= i <= 10,
                ts == times@.map_values(|t: u64| t as nat),
                total as nat == sum(ts.take(i as int)),
            decreases 10 - i,
        {
            assert(ts.take(i + 1).drop_last() == ts.take(i as int));
            let next = total.checked_add(times[i]);
            match next {
                Some(v) => {
                    total = v;
                },
                None => {
                    proof {
                        lemma_sum_prefix(ts, i + 1);
                    }
                    return None;
                },
            }
            i = i + 1;
        }
        assert(ts.take(10) == ts);
        let c = CpuUsage {
            user: times[0],
            nice: times[1],
            system: times[2],
            idle: times[3],
            iowait: times[4],
            irq: times[5],
            softirq: times[6],
            steal: times[7],
            guest: times[8],
            guest_nice: times[9],
            total,
        };
        assert(c.times() == ts);
        Some(c)
    }

    /// Combines the reading stored by the previous run (if there was one) with
    /// the current reading: the usage since the stored reading where both are
    /// at hand, the current reading where nothing was stored, and otherwise
    /// the first error, the stored reading's before the current one's.
    pub fn get(stored: Option<Result<CpuUsage, Error>>, current: Result<CpuUsage, Error>) -> (r:
        Result<CpuUsage, Error>)
        requires
            stored matches Some(Ok(old)) ==> (current matches Ok(new) ==> new.covers(old)),
        ensures
            match stored {
                None => r == current,
                Some(Err(e)) => r == Err::<CpuUsage, Error>(e),
                Some(Ok(old)) => match current {
                    Ok(new) => r == Ok::<CpuUsage, Error>(new.spec_sub(old)),
                    Err(e) => r == Err::<CpuUsage, Error>(e),
                },
            },
    {
        match stored {
            Some(s) => match (s, current) {
                (Ok(old), Ok(new)) => Ok(new.sub(old)),
                (Err(e), _) => Err(e),
                (_, Err(e)) => Err(e),
            },
            None => current,
        }
    }
}

/// A prefix of a sequence of naturals sums to no more than the whole.
pub proof fn lemma_sum_prefix(s: Seq<nat>, k: int)
    requires
        0 <= k <= s.len(),
    ensures
        sum(s.take(k)) <= sum(s),
    decreases s.len() - k,
{
    if k < s.len() {
        lemma_sum_prefix(s, k + 1);
        assert(s.take(k + 1).drop_last() == s.take(k));
    } else {
        assert(s.take(k) == s);
    }
}

/// The ten counters of the first line of `/proc/stat` text, or `None` where the
/// line does not have the expected shape.
pub fn parse_cpu_times(content: &str) -> (r: Option<Vec<u64>>)
    ensures
        match stat_times(content@) {
            None => r is None,
            Some(ts) => r matches Some(v) && v@.map_values(|t: u64| t as nat) == ts,
        },
{
    let chars = chars_of(content);
    let line = first_line_chars(&chars);
    let w = split_words(&line);
    let ghost ws = words(first_line(content@));
    assert(views(w@) == ws);
    if w.len() != 11 {
        return None;
    }
    let mut out: Vec<u64> = Vec::new();
    let mut i: usize = 1;
    while i < 11
        invariant
            w@.len() == 11,
            ws == words(first_line(content@)),
            views(w@) == ws,
            1 <= i <= 11,
            out@.len() == i - 1,
            forall|j: int| 1 <= j < i ==> #[trigger] parse_unsigned(ws[j], u64::MAX as nat)
                == Some(out@[j - 1] as nat),
        decreases 11 - i,
    {
        assert(w@[i as int]@ == ws[i as int]);
        match parse_u64(&w[i]) {
            Some(x) => {
                out.push(x);
            },
            None => {
                assert(parse_unsigned(ws[i as int], u64::MAX as nat) is None);
                return None;
            },
        }
        i = i + 1;
    }
    proof {
        let ts = stat_times(content@)->0;
        assert(forall|j: int| 1 <= j < 11 ==> #[trigger] parse_unsigned(ws[j], u64::MAX as nat)
            is Some);
        assert(out@.map_values(|t: u64| t as nat) =~= ts) by {
            assert forall|j: int| 0 <= j < 10 implies out@.map_values(|t: u64| t as nat)[j]
                == ts[j] by {
                assert(parse_unsigned(ws[j + 1], u64::MAX as nat) == Some(out@[j] as nat));
            }
        }
    }
    Some(out)
}

/// The first line of `/proc/stat` text, which the next run compares against.
pub fn stat_first_line(content: &str) -> (line: String)
    ensures
        line@ == first_line(content@),
{
    let chars = chars_of(content);
    let l = first_line_chars(&chars);
    string_of(&l)
}

/// A difference of two well-formed readings, the later covering the earlier, is
/// well formed: its total is the sum of its counters.
pub proof fn lemma_sub_well_formed(new: CpuUsage, old: CpuUsage)
    requires
        new.well_formed(),
        old.well_formed(),
        new.covers(old),
    ensures
        new.spec_sub(old).well_formed(),
{
    reveal_with_fuel(sum, 11);
}

/// Counter `i` of a reading, in field order, with the total as counter 10.
pub open spec fn counter(c: CpuUsage, i: int) -> int {
    if i == 0 {
        c.user as int
    } else if i == 1 {
        c.nice as int
    } else if i == 2 {
        c.system as int
    } else if i == 3 {
        c.idle as int
    } else if i == 4 {
        c.iowait as int
    } else if i == 5 {
        c.irq as int
    } else if i == 6 {
        c.softirq as int
    } else if i == 7 {
        c.steal as int
    } else if i == 8 {
        c.guest as int
    } else if i == 9 {
        c.guest_nice as int
    } else {
        c.total as int
    }
}

/// Successive readings in which no counter ever goes down.
pub open spec fn non_decreasing(rs: Seq<CpuUsage>) -> bool {
    forall|k: int| 0 <= k < rs.len() - 1 ==> #[trigger] rs[k + 1].covers(rs[k])
}

/// What `get` reports on each run after the first, over successive readings:
/// each reading minus the one before it.
pub open spec fn run_deltas(rs: Seq<CpuUsage>) -> Seq<CpuUsage> {
    Seq::new((rs.len() - 1) as nat, |k: int| rs[k + 1].spec_sub(rs[k]))
}

/// The sum of counter `i` over a sequence of usages.
pub open spec fn sum_counter(ds: Seq<CpuUsage>, i: int) -> int
    decreases ds.len(),
{
    if ds.len() == 0 {
        0
    } else {
        sum_counter(ds.drop_last(), i) + counter(ds.last(), i)
    }
}

proof fn lemma_counter_of_sub(new: CpuUsage, old: CpuUsage, i: int)
    requires
        new.covers(old),
    ensures
        counter(new.spec_sub(old), i) == counter(new, i) - counter(old, i),
{
}

/// Over successive runs whose readings never go down, the usages that `get`
/// reports after the first run add up, counter by counter, to the last reading
/// minus the first: the difference between the last and the first reading.
pub proof fn lemma_run_deltas_add_up(rs: Seq<CpuUsage>, i: int)
    requires
        rs.len() >= 1,
        non_decreasing(rs),
        0 <= i < 11,
    ensures
        sum_counter(run_deltas(rs), i) == counter(rs.last(), i) - counter(rs[0], i),
        rs.last().covers(rs[0]),
        sum_counter(run_deltas(rs), i) == counter(rs.last().spec_sub(rs[0]), i),
    decreases rs.len(),
{
    if rs.len() == 1 {
        assert(run_deltas(rs).len() == 0);
    } else {
        let front = rs.drop_last();
        assert forall|k: int| 0 <= k < front.len() - 1 implies #[trigger] front[k + 1].covers(
            front[k],
        ) by {
            assert(front[k + 1] == rs[k + 1] && front[k] == rs[k]);
            assert(rs[k + 1].covers(rs[k]));
        }
        lemma_run_deltas_add_up(front, i);
        let n = rs.len();
        assert(run_deltas(rs).drop_last() =~= run_deltas(front));
        let k = n - 2;
        assert(rs[k + 1].covers(rs[k]));
        assert(run_deltas(rs).last() == rs[n - 1].spec_sub(rs[n - 2]));
        lemma_counter_of_sub(rs[n - 1], rs[n - 2], i);
        assert(front.last() == rs[n - 2]);
        assert(front[0] == rs[0]);
    }
    lemma_counter_of_sub(rs.last(), rs[0], i);
}

} // verus!
