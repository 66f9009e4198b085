//! Event templates and the occurrence generator: a template is expanded
//! into the strictly increasing sequence of its occurrence start times up
//! to a horizon, each occurrence keeping the template's duration.

use vstd::prelude::*;
use crate::date::{DateTime, MAX_YEAR, max_day_num, max_minutes, days_in_month, spec_plus_days,
    lemma_spec_plus_days, lemma_day_num_le_max, lemma_minutes_injective, lemma_day_number_lex,
    from_minutes, lemma_from_minutes};

verus! {

/// How often a template repeats.
#[derive(Clone, Copy, Debug, PartialEq, Eq, Structural)]
pub enum Recurrence {
    Once,
    Daily,
    Weekly,
    Biweekly,
    Monthly,
    Yearly,
}

/// A stored event definition, possibly recurring.
#[derive(Debug)]
pub struct Event {
    pub title: String,
    pub start: DateTime,
    pub end: DateTime,
    pub color: Option<String>,
    pub recurrence: Recurrence,
}

/// The text of an optional tag, for field-for-field comparisons.
pub open spec fn opt_text(c: Option<String>) -> Option<Seq<char>> {
    match c {
        Option::Some(s) => Option::Some(s@),
        Option::None => Option::None,
    }
}

/// Field-for-field equality of two templates.
pub open spec fn same_event(a: Event, b: Event) -> bool {
    a.title@ == b.title@ && a.start == b.start && a.end == b.end && opt_text(a.color) == opt_text(
        b.color,
    ) && a.recurrence == b.recurrence
}

impl Clone for Event {
    fn clone(&self) -> (r: Self)
        ensures
            r == *self,
    {
        Event {
            title: self.title.clone(),
            start: self.start,
            end: self.end,
            color: match &self.color {
                Option::Some(c) => Option::Some(c.clone()),
                Option::None => Option::None,
            },
            recurrence: self.recurrence,
        }
    }
}

impl Event {
    /// A well-formed template: valid timestamps, and it does not end
    /// before it starts.
    pub open spec fn wf(self) -> bool {
        self.start.valid() && self.end.valid() && self.start.minutes() <= self.end.minutes()
    }

    /// The template's duration in minutes.
    pub open spec fn duration_min(self) -> int {
        self.end.minutes() - self.start.minutes()
    }

    /// Field-for-field equality, executable.
    pub fn same_fields(&self, other: &Event) -> (r: bool)
        ensures
            r == same_event(*self, *other),
    {
        let color_eq: bool = match (&self.color, &other.color) {
            (Option::Some(a), Option::Some(b)) => *a == *b,
            (Option::None, Option::None) => true,
            _ => false,
        };
        self.title == other.title && self.start == other.start && self.end == other.end && color_eq
            && self.recurrence == other.recurrence
    }
}

/// The length of a fixed-period recurrence, in days.
pub open spec fn period_days(rec: Recurrence) -> int {
    match rec {
        Recurrence::Daily => 1,
        Recurrence::Weekly => 7,
        Recurrence::Biweekly => 14,
        _ => 0,
    }
}

/// The start of the occurrence after one starting at `s`, or `None` when
/// the calendar advance is impossible: generation halts there.
pub open spec fn spec_next(s: DateTime, rec: Recurrence) -> Option<DateTime> {
    match rec {
        Recurrence::Once => Option::None,
        Recurrence::Daily | Recurrence::Weekly | Recurrence::Biweekly => {
            if s.day_num() + period_days(rec) > max_day_num() {
                Option::None
            } else {
                Option::Some(spec_plus_days(s, period_days(rec)))
            }
        },
        Recurrence::Monthly => {
            let ny: int = if s.month < 12 {
                s.year as int
            } else {
                s.year as int + 1
            };
            let nm: int = if s.month < 12 {
                s.month as int + 1
            } else {
                1
            };
            if ny > MAX_YEAR as int || s.day > days_in_month(ny, nm) {
                Option::None
            } else {
                Option::Some(DateTime { year: ny as u16, month: nm as u8, ..s })
            }
        },
        Recurrence::Yearly => {
            if s.year as int + 1 > MAX_YEAR as int || s.day > days_in_month(
                s.year as int + 1,
                s.month as int,
            ) {
                Option::None
            } else {
                Option::Some(DateTime { year: (s.year + 1) as u16, ..s })
            }
        },
    }
}

/// A successful calendar advance yields a later valid timestamp, and a
/// fixed-period advance moves by exactly the period.
pub proof fn lemma_spec_next_increases(s: DateTime, rec: Recurrence)
    requires
        s.valid(),
        spec_next(s, rec) is Some,
    ensures
        spec_next(s, rec).unwrap().valid(),
        spec_next(s, rec).unwrap().minutes() > s.minutes(),
        period_days(rec) > 0 ==> spec_next(s, rec).unwrap().minutes() == s.minutes() + 1440
            * period_days(rec),
{
    let n = spec_next(s, rec).unwrap();
    match rec {
        Recurrence::Daily | Recurrence::Weekly | Recurrence::Biweekly => {
            lemma_spec_plus_days(s, period_days(rec));
        },
        Recurrence::Monthly => {
            lemma_day_number_lex(
                s.year as int,
                s.month as int,
                s.day as int,
                n.year as int,
                n.month as int,
                n.day as int,
            );
        },
        Recurrence::Yearly => {
            lemma_day_number_lex(
                s.year as int,
                s.month as int,
                s.day as int,
                n.year as int,
                n.month as int,
                n.day as int,
            );
        },
        Recurrence::Once => {},
    }
}

/// The starts of the occurrences of a template starting at `s`, up to and
/// including `horizon`: `s` itself, then whatever follows its calendar
/// advance, until the advance leaves the horizon or is impossible.
pub open spec fn occ_starts(s: DateTime, rec: Recurrence, horizon: DateTime) -> Seq<DateTime>
    decreases max_minutes() - s.minutes(),
        when s.valid() && horizon.valid()
        via occ_starts_decreases
{
    if s.minutes() > horizon.minutes() {
        Seq::empty()
    } else {
        match spec_next(s, rec) {
            Option::None => seq![s],
            Option::Some(s2) => seq![s] + occ_starts(s2, rec, horizon),
        }
    }
}

#[via_fn]
proof fn occ_starts_decreases(s: DateTime, rec: Recurrence, horizon: DateTime) {
    if s.minutes() <= horizon.minutes() && spec_next(s, rec) is Some {
        lemma_spec_next_increases(s, rec);
        lemma_day_num_le_max(spec_next(s, rec).unwrap());
        lemma_day_num_le_max(s);
    }
}

/// A template with a fixed-period recurrence (daily, weekly, biweekly)
/// starting at or before the horizon yields exactly
/// `(horizon - start) / period + 1` occurrences, and none otherwise.
pub proof fn lemma_periodic_count(s: DateTime, rec: Recurrence, horizon: DateTime)
    requires
        s.valid(),
        horizon.valid(),
        period_days(rec) > 0,
    ensures
        occ_starts(s, rec, horizon).len() == if s.minutes() <= horizon.minutes() {
            (horizon.minutes() - s.minutes()) / (1440 * period_days(rec)) + 1
        } else {
            0
        },
    decreases max_minutes() - s.minutes(),
{
    lemma_day_num_le_max(s);
    lemma_day_num_le_max(horizon);
    let p = 1440 * period_days(rec);
    if s.minutes() <= horizon.minutes() {
        match spec_next(s, rec) {
            Option::None => {
                // The advance left the representable calendar, so the horizon
                // lies less than one period ahead.
                assert(s.day_num() + period_days(rec) > max_day_num());
                assert(horizon.minutes() - s.minutes() < p);
                vstd::arithmetic::div_mod::lemma_basic_div(horizon.minutes() - s.minutes(), p);
            },
            Option::Some(n) => {
                lemma_spec_next_increases(s, rec);
                lemma_periodic_count(n, rec, horizon);
                if n.minutes() <= horizon.minutes() {
                    vstd::arithmetic::div_mod::lemma_div_plus_one(
                        horizon.minutes() - n.minutes(),
                        p,
                    );
                } else {
                    vstd::arithmetic::div_mod::lemma_basic_div(horizon.minutes() - s.minutes(), p);
                }
            },
        }
    }
}

/// The occurrence starts form a chain within the horizon: the first is the
/// template's start, each next one is the calendar advance of the one
/// before, the starts strictly increase, and the chain ends exactly where
/// the advance leaves the horizon or is impossible — generation halts
/// there, and no occurrence follows.
pub proof fn lemma_occurrence_chain(s: DateTime, rec: Recurrence, horizon: DateTime)
    requires
        s.valid(),
        horizon.valid(),
    ensures
        ({
            let st = occ_starts(s, rec, horizon);
            &&& (st.len() == 0 <==> s.minutes() > horizon.minutes())
            &&& st.len() > 0 ==> st[0] == s
            &&& forall|i: int|
                0 <= i < st.len() ==> (#[trigger] st[i]).valid() && st[i].minutes()
                    <= horizon.minutes()
            &&& forall|i: int| 0 <= i < st.len() - 1 ==> spec_next(#[trigger] st[i], rec)
                == Option::Some(st[i + 1])
            &&& st.len() > 0 ==> (spec_next(st.last(), rec) is None || spec_next(
                st.last(),
                rec,
            ).unwrap().minutes() > horizon.minutes())
            &&& forall|i: int, j: int|
                0 <= i < j < st.len() ==> (#[trigger] st[i]).minutes() < (#[trigger] st[j]).minutes()
        }),
    decreases max_minutes() - s.minutes(),
{
    lemma_day_num_le_max(s);
    let st = occ_starts(s, rec, horizon);
    if s.minutes() <= horizon.minutes() {
        match spec_next(s, rec) {
            Option::None => {
                assert(st =~= seq![s]);
            },
            Option::Some(n) => {
                lemma_spec_next_increases(s, rec);
                lemma_day_num_le_max(n);
                lemma_occurrence_chain(n, rec, horizon);
                let rest = occ_starts(n, rec, horizon);
                assert(st =~= seq![s] + rest);
                if rest.len() == 0 {
                    assert(st =~= seq![s]);
                    assert(spec_next(st.last(), rec).unwrap().minutes() > horizon.minutes());
                } else {
                    assert(st.last() == rest.last());
                    assert forall|i: int, j: int| 0 <= i < j < st.len() implies (#[trigger] st[i]).minutes()
                        < (#[trigger] st[j]).minutes() by {
                        if i > 0 {
                            assert(st[i] == rest[i - 1] && st[j] == rest[j - 1]);
                        } else {
                            assert(st[j] == rest[j - 1]);
                            assert(rest[0] == n);
                            if j - 1 > 0 {
                                assert(rest[0].minutes() < rest[j - 1].minutes());
                            }
                        }
                    }
                }
            },
        }
    }
}

/// The executable calendar advance, matching `spec_next`.
pub fn next_start(s: &DateTime, rec: &Recurrence) -> (r: Option<DateTime>)
    requires
        s.valid(),
    ensures
        r == spec_next(*s, *rec),
{
    match rec {
        Recurrence::Once => Option::None,
        Recurrence::Daily | Recurrence::Weekly | Recurrence::Biweekly => {
            let k: u64 = match rec {
                Recurrence::Daily => 1,
                Recurrence::Weekly => 7,
                _ => 14,
            };
            match s.add_days(k) {
                Option::Some(d) => {
                    proof {
                        lemma_day_num_le_max(d);
                        assert(d.day_num() == s.day_num() + k);
                        lemma_spec_plus_days(*s, k as int);
                        lemma_minutes_injective(d, spec_plus_days(*s, k as int));
                    }
                    Option::Some(d)
                },
                Option::None => Option::None,
            }
        },
        Recurrence::Monthly => s.next_month(),
        Recurrence::Yearly => s.next_year(),
    }
}

/// The occurrence of template `e` that starts at `st`: the template with
/// its start moved to `st` and its end moved to keep the duration.
pub open spec fn spec_occurrence(e: Event, st: DateTime) -> Event {
    Event { start: st, end: from_minutes(st.minutes() + e.duration_min()), ..e }
}

/// All occurrences of template `e` up to `horizon`, as event values.
pub open spec fn generated(e: Event, horizon: DateTime) -> Seq<Event> {
    occ_starts(e.start, e.recurrence, horizon).map(|i: int, st: DateTime| spec_occurrence(e, st))
}

impl Event {
    /// All occurrences of this template with start at or before `until`,
    /// in strictly increasing start order.  Every occurrence keeps the
    /// template's title, color, recurrence and duration.  A non-recurring
    /// template yields exactly itself, or nothing when it starts past the
    /// horizon.
    pub fn generate_occurrences(&self, until: &DateTime) -> (r: Vec<Event>)
        requires
            self.wf(),
            until.valid(),
            until.minutes() + self.duration_min() <= max_minutes(),
        ensures
            ({
                let starts = occ_starts(self.start, self.recurrence, *until);
                &&& r@ == generated(*self, *until)
                &&& r@.len() == starts.len()
                &&& forall|i: int|
                    0 <= i < r@.len() ==> {
                        &&& (#[trigger] r@[i]).start == starts[i]
                        &&& r@[i].wf()
                        &&& r@[i].end.minutes() == starts[i].minutes() + self.duration_min()
                        &&& r@[i].title == self.title
                        &&& r@[i].color == self.color
                        &&& r@[i].recurrence == self.recurrence
                    }
                &&& (self.recurrence == Recurrence::Once ==> (if self.start.minutes()
                    <= until.minutes() {
                    r@.len() == 1 && same_event(r@[0], *self)
                } else {
                    r@.len() == 0
                }))
            }),
    {
        let ghost full = occ_starts(self.start, self.recurrence, *until);
        let duration: u64 = self.end.to_minutes() - self.start.to_minutes();
        let mut out: Vec<Event> = Vec::new();
        let mut cur: DateTime = self.start;
        proof {
            lemma_day_num_le_max(self.start);
        }
        loop
            invariant_except_break
                occ_starts(cur, self.recurrence, *until) == full.skip(out@.len() as int),
                cur.valid(),
            invariant
                self.wf(),
                until.valid(),
                until.minutes() + self.duration_min() <= max_minutes(),
                duration == self.duration_min(),
                out@.len() <= full.len(),
                forall|i: int|
                    0 <= i < out@.len() ==> {
                        &&& (#[trigger] out@[i]).start == full[i]
                        &&& out@[i].wf()
                        &&& out@[i].end.minutes() == full[i].minutes() + self.duration_min()
                        &&& out@[i] == spec_occurrence(*self, full[i])
                    },
            ensures
                out@.len() == full.len(),
            decreases max_minutes() + 1 - cur.minutes(),
        {
            proof {
                lemma_day_num_le_max(cur);
            }
            if !cur.le(until) {
                proof {
                    assert(occ_starts(cur, self.recurrence, *until) =~= Seq::<DateTime>::empty());
                    assert(full.skip(out@.len() as int) =~= Seq::<DateTime>::empty());
                    assert(out@.len() == full.len());
                }
                break;
            }
            let occ_end: DateTime = match cur.add_minutes(duration) {
                Option::Some(e) => e,
                Option::None => {
                    // Unreachable: cur is at or before the horizon, and the
                    // horizon plus the duration is representable.
                    proof {
                        assert(false);
                    }
                    cur
                },
            };
            let occ = Event {
                title: self.title.clone(),
                start: cur,
                end: occ_end,
                color: match &self.color {
                    Option::Some(c) => Option::Some(c.clone()),
                    Option::None => Option::None,
                },
                recurrence: self.recurrence,
            };
            proof {
                assert(occ_starts(cur, self.recurrence, *until).len() >= 1);
                assert(out@.len() < full.len());
                assert(full.skip(out@.len() as int)[0] == cur);
                assert(full[out@.len() as int] == full.skip(out@.len() as int)[0]);
                lemma_from_minutes(cur.minutes() + self.duration_min());
                lemma_minutes_injective(
                    occ.end,
                    from_minutes(cur.minutes() + self.duration_min()),
                );
                assert(occ == spec_occurrence(*self, cur));
            }
            out.push(occ);
            match next_start(&cur, &self.recurrence) {
                Option::Some(n) => {
                    proof {
                        lemma_spec_next_increases(cur, self.recurrence);
                        lemma_day_num_le_max(n);
                        let l = out@.len() as int;
                        let rest = occ_starts(n, self.recurrence, *until);
                        assert(full.skip(l - 1) =~= seq![cur] + rest);
                        assert(rest.len() == full.len() - l);
                        assert forall|i: int| 0 <= i < rest.len() implies rest[i] == full[l
                            + i] by {
                            assert(rest[i] == full.skip(l - 1)[i + 1]);
                        }
                        assert(rest =~= full.skip(l));
                    }
                    cur = n;
                },
                Option::None => {
                    proof {
                        assert(occ_starts(cur, self.recurrence, *until) =~= seq![cur]);
                        assert(full.skip(out@.len() as int - 1).len() == 1);
                        assert(out@.len() == full.len());
                    }
                    break;
                },
            }
        }
        proof {
            assert(out@ =~= generated(*self, *until));
            if self.recurrence == Recurrence::Once && self.start.minutes() <= until.minutes() {
                assert(full =~= seq![self.start]);
                lemma_minutes_injective(out@[0].end, self.end);
            }
        }
        out
    }
}

} // verus!
