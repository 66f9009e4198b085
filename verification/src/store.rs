//! The template store: the one owner of the persisted collection, with
//! the defined mutations — append, replace in place, and delete, where
//! deleting a recurring template removes every field-for-field identical
//! template and deleting a non-recurring one removes exactly one.

use vstd::prelude::*;
use crate::date::{DateTime, max_minutes};
use crate::event::{Event, Recurrence, same_event, opt_text};

verus! {

/// All templates in a collection are well formed.
pub open spec fn all_wf(events: Seq<Event>) -> bool {
    forall|i: int| 0 <= i < events.len() ==> (#[trigger] events[i]).wf()
}

/// The authoritative template store.
pub struct App {
    pub events: Vec<Event>,
}

impl App {
    pub open spec fn wf(self) -> bool {
        all_wf(self.events@)
    }

    /// A store over loaded templates.  An empty load is seeded with one
    /// sample two-hour event at `now`, as the program's first start shows.
    pub fn new(loaded: Vec<Event>, now: &DateTime) -> (r: App)
        requires
            all_wf(loaded@),
            now.valid(),
            now.minutes() + 120 <= max_minutes(),
        ensures
            r.wf(),
            loaded@.len() > 0 ==> r.events@ == loaded@,
            loaded@.len() == 0 ==> {
                &&& r.events@.len() == 1
                &&& r.events@[0].title@ == "Test"@
                &&& r.events@[0].start == *now
                &&& r.events@[0].end.minutes() == now.minutes() + 120
                &&& opt_text(r.events@[0].color) == Option::Some("blue"@)
                &&& r.events@[0].recurrence == Recurrence::Once
            },
    {
        if loaded.len() == 0 {
            let end = match now.add_minutes(120) {
                Option::Some(e) => e,
                Option::None => {
                    proof {
                        assert(false);
                    }
                    *now
                },
            };
            let sample = Event {
                title: String::from_str("Test"),
                start: *now,
                end,
                color: Option::Some(String::from_str("blue")),
                recurrence: Recurrence::Once,
            };
            let mut events: Vec<Event> = Vec::new();
            events.push(sample);
            App { events }
        } else {
            App { events: loaded }
        }
    }

    /// The persisted text of the collection, written after every
    /// mutation.
    pub fn save(&self) -> (out: String)
        ensures
            out@ == crate::codec::ser_events(self.events@),
    {
        crate::codec::save_events(&self.events)
    }

    /// Append a new template at the end of the collection.
    pub fn add(&mut self, e: Event)
        requires
            old(self).wf(),
            e.wf(),
        ensures
            final(self).wf(),
            final(self).events@ == old(self).events@.push(e),
    {
        self.events.push(e);
    }

    /// Replace the template at `idx` in place, keeping its position.
    pub fn edit_at(&mut self, idx: usize, replacement: Event)
        requires
            old(self).wf(),
            idx < old(self).events@.len(),
            replacement.wf(),
        ensures
            final(self).wf(),
            final(self).events@ == old(self).events@.update(idx as int, replacement),
    {
        self.events.remove(idx);
        self.events.insert(idx, replacement);
        proof {
            assert(self.events@ =~= old(self).events@.update(idx as int, replacement));
        }
    }

    /// Delete driven by the template index behind a selected occurrence.
    /// A non-recurring template is removed alone; a recurring one is
    /// removed together with every template field-for-field identical to
    /// it, and no template with differing fields is touched.
    pub fn delete_at(&mut self, idx: usize)
        requires
            old(self).wf(),
            idx < old(self).events@.len(),
        ensures
            final(self).wf(),
            old(self).events@[idx as int].recurrence == Recurrence::Once ==> final(self).events@
                == old(self).events@.remove(idx as int),
            old(self).events@[idx as int].recurrence != Recurrence::Once ==> final(self).events@
                == old(self).events@.filter(
                |e: Event| !same_event(e, old(self).events@[idx as int]),
            ),
    {
        if self.events[idx].recurrence == Recurrence::Once {
            self.events.remove(idx);
        } else {
            let ghost orig = self.events@;
            let target = self.events[idx].clone();
            let ghost pred = (|e: Event| !same_event(e, orig[idx as int]));
            let mut kept: Vec<Event> = Vec::new();
            let mut i: usize = 0;
            proof {
                reveal(Seq::filter);
                assert(kept@ =~= orig.take(0).filter(pred));
            }
            while i < self.events.len()
                invariant
                    i <= orig.len(),
                    self.events@ == orig,
                    all_wf(orig),
                    target == orig[idx as int],
                    pred == (|e: Event| !same_event(e, orig[idx as int])),
                    kept@ == orig.take(i as int).filter(pred),
                decreases orig.len() - i,
            {
                let keep = !self.events[i].same_fields(&target);
                proof {
                    reveal(Seq::filter);
                    let before = orig.take(i as int);
                    let after = orig.take(i as int + 1);
                    assert(after.drop_last() =~= before);
                    assert(after.last() == orig[i as int]);
                    assert(after.filter(pred) == if pred(orig[i as int]) {
                        before.filter(pred).push(orig[i as int])
                    } else {
                        before.filter(pred)
                    });
                }
                if keep {
                    let e = self.events[i].clone();
                    kept.push(e);
                }
                i = i + 1;
            }
            proof {
                assert(orig.take(orig.len() as int) =~= orig);
            }
            self.events = kept;
            proof {
                broadcast use vstd::seq_lib::group_filter_ensures;

                assert(all_wf(self.events@)) by {
                    assert forall|k: int| 0 <= k < self.events@.len() implies (#[trigger] self
                        .events@[k]).wf() by {
                        assert(orig.filter(pred)[k] == self.events@[k]);
                        orig.lemma_filter_contains_rev(pred, self.events@[k]);
                    }
                }
            }
        }
    }
}

/// Clamp a selection cursor into the bounds of a list of `len` entries:
/// an empty list forces position zero, otherwise a cursor past the end
/// moves to the last entry.
pub fn clamp_selection(selected: usize, len: usize) -> (r: usize)
    ensures
        len == 0 ==> r == 0,
        len > 0 ==> r == if selected < len {
            selected as int
        } else {
            len - 1
        },
{
    if len == 0 {
        0
    } else if selected < len {
        selected
    } else {
        len - 1
    }
}

} // verus!
