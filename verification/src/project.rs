//! The view projector: merges every template's occurrences into one
//! timeline tagged with the originating template's index, filters by view
//! window, upcoming-only flag and color tag, and sorts by start time in
//! the requested direction.

use vstd::prelude::*;
use crate::date::{DateTime, max_minutes};
use crate::event::{Event, generated, opt_text};

verus! {

broadcast use vstd::seq_lib::group_to_multiset_ensures;

/// Which window of the calendar is shown.
#[derive(Clone, Copy, Debug, PartialEq, Eq, Structural)]
pub enum ViewMode {
    All,
    Week,
    Month,
    Year,
}

/// Whether `t` falls in the view window around `reference`: anywhere, the
/// Monday-starting week holding the reference date (day number 0 is a
/// Monday, so the weeks are exactly the blocks of seven day numbers), the
/// same calendar month, or the same calendar year.
pub open spec fn in_view(t: DateTime, view: ViewMode, reference: DateTime) -> bool {
    match view {
        ViewMode::All => true,
        ViewMode::Week => t.day_num() / 7 == reference.day_num() / 7,
        ViewMode::Month => t.year == reference.year && t.month == reference.month,
        ViewMode::Year => t.year == reference.year,
    }
}

/// The projection's filter: the occurrence lies in the view window, starts
/// at or after `now` when only upcoming ones are wanted, and carries
/// exactly the filter color when one is set.
pub open spec fn spec_visible(
    e: Event,
    view: ViewMode,
    reference: DateTime,
    now: DateTime,
    upcoming_only: bool,
    color: Option<Seq<char>>,
) -> bool {
    &&& in_view(e.start, view, reference)
    &&& (!upcoming_only || e.start.minutes() >= now.minutes())
    &&& (color is None || opt_text(e.color) == color)
}

/// The filter as a predicate on tagged occurrences.
pub open spec fn visible_pred(
    view: ViewMode,
    reference: DateTime,
    now: DateTime,
    upcoming_only: bool,
    color: Option<Seq<char>>,
) -> spec_fn((usize, Event)) -> bool {
    |p: (usize, Event)| spec_visible(p.1, view, reference, now, upcoming_only, color)
}

/// Occurrences of one template, each tagged with the template's index.
pub open spec fn tag_gen(idx: usize, occs: Seq<Event>) -> Seq<(usize, Event)> {
    occs.map(|k: int, o: Event| (idx, o))
}

/// Every template's occurrences up to `horizon`, tagged with the
/// originating template's index in `events`.
pub open spec fn tag_all(events: Seq<Event>, horizon: DateTime) -> Seq<(usize, Event)>
    decreases events.len(),
{
    if events.len() == 0 {
        Seq::empty()
    } else {
        tag_all(events.drop_last(), horizon) + tag_gen(
            (events.len() - 1) as usize,
            generated(events.last(), horizon),
        )
    }
}

/// What the projection shows, before sorting: all tagged occurrences that
/// pass the filter, in generation order.
pub open spec fn projected(
    events: Seq<Event>,
    horizon: DateTime,
    view: ViewMode,
    reference: DateTime,
    now: DateTime,
    upcoming_only: bool,
    color: Option<Seq<char>>,
) -> Seq<(usize, Event)> {
    tag_all(events, horizon).filter(visible_pred(view, reference, now, upcoming_only, color))
}

/// Sorted by occurrence start, ascending or descending.
pub open spec fn sorted_by_start(s: Seq<(usize, Event)>, asc: bool) -> bool {
    forall|i: int, j: int|
        0 <= i < j < s.len() ==> if asc {
            (#[trigger] s[i]).1.start.minutes() <= (#[trigger] s[j]).1.start.minutes()
        } else {
            s[i].1.start.minutes() >= s[j].1.start.minutes()
        }
}

/// The executable filter, matching `spec_visible`.
pub fn is_visible(
    e: &Event,
    view: &ViewMode,
    reference: &DateTime,
    now: &DateTime,
    upcoming_only: bool,
    color_filter: &Option<String>,
) -> (r: bool)
    requires
        e.start.valid(),
        reference.valid(),
        now.valid(),
    ensures
        r == spec_visible(*e, *view, *reference, *now, upcoming_only, opt_text(*color_filter)),
{
    let in_window: bool = match view {
        ViewMode::All => true,
        ViewMode::Week => e.start.to_days() / 7 == reference.to_days() / 7,
        ViewMode::Month => e.start.year == reference.year && e.start.month == reference.month,
        ViewMode::Year => e.start.year == reference.year,
    };
    let upcoming_ok: bool = !upcoming_only || e.start.to_minutes() >= now.to_minutes();
    let color_ok: bool = match color_filter {
        Option::None => true,
        Option::Some(c) => match &e.color {
            Option::Some(ec) => *ec == *c,
            Option::None => false,
        },
    };
    in_window && upcoming_ok && color_ok
}

/// Whether `a` comes no later than `b` in the requested direction.
pub open spec fn start_le(a: (usize, Event), b: (usize, Event), asc: bool) -> bool {
    if asc {
        a.1.start.minutes() <= b.1.start.minutes()
    } else {
        a.1.start.minutes() >= b.1.start.minutes()
    }
}

/// Selection sort of tagged occurrences by start time.  The result is a
/// permutation of the input, sorted in the requested direction.
fn sort_by_start(input: Vec<(usize, Event)>, asc: bool) -> (r: Vec<(usize, Event)>)
    requires
        forall|k: int| 0 <= k < input@.len() ==> (#[trigger] input@[k]).1.start.valid(),
    ensures
        r@.to_multiset() == input@.to_multiset(),
        sorted_by_start(r@, asc),
{
    let mut src = input;
    let mut out: Vec<(usize, Event)> = Vec::new();
    while src.len() > 0
        invariant
            out@.to_multiset().add(src@.to_multiset()) == input@.to_multiset(),
            sorted_by_start(out@, asc),
            forall|k: int| 0 <= k < src@.len() ==> (#[trigger] src@[k]).1.start.valid(),
            forall|k: int| 0 <= k < out@.len() ==> (#[trigger] out@[k]).1.start.valid(),
            forall|a: int, b: int|
                0 <= a < out@.len() && 0 <= b < src@.len() ==> start_le(
                    #[trigger] out@[a],
                    #[trigger] src@[b],
                    asc,
                ),
        decreases src@.len(),
    {
        let mut best: usize = 0;
        let mut k: usize = 1;
        while k < src.len()
            invariant
                0 < src@.len(),
                0 <= best < k <= src@.len(),
                forall|k: int| 0 <= k < src@.len() ==> (#[trigger] src@[k]).1.start.valid(),
                forall|j: int| 0 <= j < k ==> start_le(src@[best as int], #[trigger] src@[j], asc),
            decreases src@.len() - k,
        {
            let better: bool = if asc {
                src[k].1.start.to_minutes() < src[best].1.start.to_minutes()
            } else {
                src[k].1.start.to_minutes() > src[best].1.start.to_minutes()
            };
            if better {
                best = k;
            }
            k = k + 1;
        }
        let ghost old_src = src@;
        let ghost old_out = out@;
        let x = src.remove(best);
        proof {
            assert(src@.to_multiset() == old_src.to_multiset().remove(x));
            assert forall|b: int| 0 <= b < src@.len() implies start_le(
                x,
                #[trigger] src@[b],
                asc,
            ) by {
                if b < best {
                    assert(src@[b] == old_src[b]);
                } else {
                    assert(src@[b] == old_src[b + 1]);
                }
            }
            assert forall|a: int, b: int|
                0 <= a < old_out.len() && 0 <= b < src@.len() implies start_le(
                #[trigger] old_out[a],
                #[trigger] src@[b],
                asc,
            ) by {
                if b < best {
                    assert(src@[b] == old_src[b]);
                } else {
                    assert(src@[b] == old_src[b + 1]);
                }
            }
        }
        out.push(x);
        proof {
            assert(out@.to_multiset() == old_out.to_multiset().insert(x));
            assert(out@.to_multiset().add(src@.to_multiset()) =~= input@.to_multiset());
        }
    }
    proof {
        assert(out@.to_multiset().add(src@.to_multiset()) =~= out@.to_multiset());
    }
    out
}

/// The view projection: every occurrence, up to `horizon`, of every
/// template in `events`, tagged with its template's index, filtered by
/// the view window around `reference`, the upcoming-only flag relative to
/// `now`, and the color filter, then sorted by start time in the
/// requested direction.  The result holds exactly the tagged occurrences
/// that `projected` describes.
pub fn project(
    events: &Vec<Event>,
    horizon: &DateTime,
    view: &ViewMode,
    reference: &DateTime,
    now: &DateTime,
    upcoming_only: bool,
    color_filter: &Option<String>,
    sort_asc: bool,
) -> (r: Vec<(usize, Event)>)
    requires
        horizon.valid(),
        reference.valid(),
        now.valid(),
        forall|i: int|
            0 <= i < events@.len() ==> (#[trigger] events@[i]).wf() && horizon.minutes()
                + events@[i].duration_min() <= max_minutes(),
    ensures
        r@.to_multiset() == projected(
            events@,
            *horizon,
            *view,
            *reference,
            *now,
            upcoming_only,
            opt_text(*color_filter),
        ).to_multiset(),
        sorted_by_start(r@, sort_asc),
{
    let ghost pred = visible_pred(*view, *reference, *now, upcoming_only, opt_text(*color_filter));
    let mut acc: Vec<(usize, Event)> = Vec::new();
    let mut i: usize = 0;
    proof {
        reveal(Seq::filter);
        assert(acc@ =~= tag_all(events@.take(0), *horizon).filter(pred));
    }
    while i < events.len()
        invariant
            i <= events@.len(),
            horizon.valid(),
            reference.valid(),
            now.valid(),
            forall|k: int|
                0 <= k < events@.len() ==> (#[trigger] events@[k]).wf() && horizon.minutes()
                    + events@[k].duration_min() <= max_minutes(),
            pred == visible_pred(*view, *reference, *now, upcoming_only, opt_text(*color_filter)),
            acc@ == tag_all(events@.take(i as int), *horizon).filter(pred),
            forall|k: int| 0 <= k < acc@.len() ==> (#[trigger] acc@[k]).1.start.valid(),
        decreases events@.len() - i,
    {
        let occs = events[i].generate_occurrences(horizon);
        let ghost occ_seq = occs@;
        let mut j: usize = 0;
        proof {
            reveal(Seq::filter);
            assert(tag_gen(i, occ_seq.take(0)).filter(pred) =~= Seq::<(usize, Event)>::empty());
        }
        while j < occs.len()
            invariant
                j <= occs@.len(),
                occs@ == occ_seq,
                i < events@.len(),
                forall|k: int| 0 <= k < occs@.len() ==> (#[trigger] occs@[k]).wf(),
                acc@ == tag_all(events@.take(i as int), *horizon).filter(pred) + tag_gen(
                    i,
                    occ_seq.take(j as int),
                ).filter(pred),
                horizon.valid(),
                reference.valid(),
                now.valid(),
                pred == visible_pred(
                    *view,
                    *reference,
                    *now,
                    upcoming_only,
                    opt_text(*color_filter),
                ),
                forall|k: int| 0 <= k < acc@.len() ==> (#[trigger] acc@[k]).1.start.valid(),
            decreases occs@.len() - j,
        {
            let visible = is_visible(&occs[j], view, reference, now, upcoming_only, color_filter);
            let ghost before = tag_gen(i, occ_seq.take(j as int));
            let ghost after = tag_gen(i, occ_seq.take(j as int + 1));
            proof {
                reveal(Seq::filter);
                assert(after =~= before.push((i, occ_seq[j as int])));
                assert(after.drop_last() =~= before);
                assert(after.last() == (i, occ_seq[j as int]));
                assert(after.filter(pred) == if pred((i, occ_seq[j as int])) {
                    before.filter(pred).push((i, occ_seq[j as int]))
                } else {
                    before.filter(pred)
                });
            }
            if visible {
                let occ = occs[j].clone();
                acc.push((i, occ));
            }
            j = j + 1;
        }
        proof {
            assert(occ_seq.take(occ_seq.len() as int) =~= occ_seq);
            let head = events@.take(i as int);
            let tail = tag_gen(i, occ_seq);
            Seq::filter_distributes_over_add(tag_all(head, *horizon), tail, pred);
            let next = events@.take(i as int + 1);
            assert(next.drop_last() =~= head);
            assert(next.last() == events@[i as int]);
            assert(tag_all(next, *horizon) == tag_all(head, *horizon) + tag_gen(
                (next.len() - 1) as usize,
                generated(next.last(), *horizon),
            ));
            assert(occ_seq == generated(events@[i as int], *horizon));
            assert(tag_all(next, *horizon) == tag_all(head, *horizon) + tail);
        }
        i = i + 1;
    }
    proof {
        assert(events@.take(events@.len() as int) =~= events@);
    }
    sort_by_start(acc, sort_asc)
}

} // verus!
