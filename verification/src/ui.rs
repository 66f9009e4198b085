//! The keyboard-driven control loop's decisions: one key, applied to the
//! view state and the store, yields the next state, the mutations the
//! original program makes, and what the caller must do next — persist the
//! store or quit.  Rendering and raw input stay outside.

use vstd::prelude::*;
use crate::date::DateTime;
use crate::event::{Event, Recurrence, same_event};
use crate::form::{EventForm, Key, form_key_rel, field, spec_validate, describe_error};
use crate::project::ViewMode;
use crate::store::App;
use crate::colors::{collect_colors, next_color, find_color, color_in_use, color_listed, lex_lt};

verus! {

/// What the caller must do after a step.
#[derive(Clone, Copy, Debug, PartialEq, Eq, Structural)]
pub enum Action {
    Idle,
    Quit,
    Persist,
}

/// The interactive view state.
pub struct UiState {
    pub show_form: bool,
    pub form: EventForm,
    pub selected: usize,
    pub edit_index: Option<usize>,
    pub sort_asc: bool,
    pub show_only_upcoming: bool,
    pub filter_color: Option<String>,
    pub view_mode: ViewMode,
    pub current_date: DateTime,
}

impl UiState {
    pub open spec fn wf(self) -> bool {
        self.current_date.valid() && self.form.wf()
    }

    /// The state at startup: the all view, ascending order, no filters,
    /// no form, the cursor at the top, centered on today's date.
    pub fn new(today: DateTime) -> (s: UiState)
        requires
            today.valid(),
        ensures
            s.wf(),
            !s.show_form,
            s.selected == 0,
            s.edit_index is None,
            s.sort_asc,
            !s.show_only_upcoming,
            s.filter_color is None,
            s.view_mode == ViewMode::All,
            s.current_date == today,
    {
        UiState {
            show_form: false,
            form: EventForm::new(),
            selected: 0,
            edit_index: Option::None,
            sort_asc: true,
            show_only_upcoming: false,
            filter_color: Option::None,
            view_mode: ViewMode::All,
            current_date: today,
        }
    }
}

/// The view cycle: all, week, month, year, and around again.
pub open spec fn spec_next_view(v: ViewMode) -> ViewMode {
    match v {
        ViewMode::All => ViewMode::Week,
        ViewMode::Week => ViewMode::Month,
        ViewMode::Month => ViewMode::Year,
        ViewMode::Year => ViewMode::All,
    }
}

/// The color list `next_color` cycles through: the distinct tags in use,
/// strictly sorted.
pub open spec fn color_listing(colors: Seq<String>, events: Seq<Event>) -> bool {
    &&& forall|i: int, j: int|
        0 <= i < j < colors.len() ==> lex_lt((#[trigger] colors[i])@, (#[trigger] colors[j])@)
    &&& forall|i: int| 0 <= i < colors.len() ==> color_in_use(events, (#[trigger] colors[i])@)
    &&& forall|k: int|
        0 <= k < events.len() ==> match crate::event::opt_text(#[trigger] events[k].color) {
            Option::Some(c) => color_listed(colors, c),
            Option::None => true,
        }
}

/// What one cycling step gives, over a listing of the colors in use.
pub open spec fn cycle_rel(
    colors: Seq<String>,
    before: Option<String>,
    after: Option<String>,
) -> bool {
    if colors.len() == 0 {
        after is None
    } else if before is None {
        after == Option::Some(colors[0])
    } else {
        match find_color(colors, before.unwrap()@) {
            Option::Some(i) => if i + 1 < colors.len() {
                after == Option::Some(colors[i + 1])
            } else {
                after is None
            },
            Option::None => after is None,
        }
    }
}

/// How the date navigation keys move the reference date: by a week in the
/// week view; to the last day of the previous month or into the next
/// month in the month view; to the last day of the previous year or into
/// the next year in the year view.  At the calendar's edges the date
/// stays.
pub open spec fn nav_rel(old_d: DateTime, new_d: DateTime, view: ViewMode, right: bool) -> bool {
    match view {
        ViewMode::Week => {
            if right {
                if old_d.day_num() + 7 > crate::date::max_day_num() {
                    new_d == old_d
                } else {
                    new_d.valid() && new_d.day_num() == old_d.day_num() + 7
                }
            } else {
                if old_d.day_num() < 7 {
                    new_d == old_d
                } else {
                    new_d.valid() && new_d.day_num() == old_d.day_num() - 7
                }
            }
        },
        ViewMode::Month => {
            let first = DateTime { day: 1, ..old_d };
            if right {
                if first.day_num() + 32 > crate::date::max_day_num() {
                    new_d == old_d
                } else {
                    new_d.valid() && new_d.day_num() == first.day_num() + 32
                }
            } else {
                if first.day_num() < 1 {
                    new_d == old_d
                } else {
                    new_d.valid() && new_d.day_num() == first.day_num() - 1
                }
            }
        },
        ViewMode::Year => {
            let jan1 = DateTime { month: 1, day: 1, ..old_d };
            if right {
                if jan1.day_num() + 366 > crate::date::max_day_num() {
                    new_d == old_d
                } else {
                    new_d.valid() && new_d.day_num() == jan1.day_num() + 366
                }
            } else {
                if jan1.day_num() < 1 {
                    new_d == old_d
                } else {
                    new_d.valid() && new_d.day_num() == jan1.day_num() - 1
                }
            }
        },
        ViewMode::All => new_d == old_d,
    }
}

/// Everything the step leaves alone unless it says otherwise.
pub open spec fn same_filters(a: UiState, b: UiState) -> bool {
    &&& a.sort_asc == b.sort_asc
    &&& a.show_only_upcoming == b.show_only_upcoming
    &&& a.filter_color == b.filter_color
    &&& a.view_mode == b.view_mode
    &&& a.current_date == b.current_date
}

impl UiState {
    /// One key applied to the list view or the form, exactly as the
    /// original control loop reacts: quitting, opening the form for a new
    /// or an edited event, deleting by the selected occurrence's
    /// template, toggling sort order and the upcoming filter, cycling the
    /// color filter and the view, moving the cursor and the reference
    /// date; in the form, editing fields, cancelling, and committing a
    /// validated draft into the store.  The returned action says whether
    /// the store must be persisted or the program ends.
    pub fn step(&mut self, app: &mut App, visible: &Vec<(usize, Event)>, key: Key) -> (action:
        Action)
        requires
            old(self).wf(),
            old(app).wf(),
            forall|k: int|
                0 <= k < visible@.len() ==> (#[trigger] visible@[k]).0 < old(app).events@.len(),
            old(self).edit_index matches Option::Some(i) ==> i < old(app).events@.len(),
        ensures
            final(self).wf(),
            final(app).wf(),
            !old(self).show_form ==> match key {
                Key::Char(c) => {
                    if c == 'q' {
                        action == Action::Quit && *final(self) == *old(self) && final(app).events@
                            == old(app).events@
                    } else if c == 'a' {
                        action == Action::Idle && final(app).events@ == old(app).events@ && *final(self) == UiState { show_form: true, ..*old(self) }
                    } else if c == 's' {
                        action == Action::Idle && final(app).events@ == old(app).events@ && *final(self) == UiState { sort_asc: !old(self).sort_asc, ..*old(self) }
                    } else if c == 'f' {
                        action == Action::Idle && final(app).events@ == old(app).events@ && *final(self) == UiState {
                            show_only_upcoming: !old(self).show_only_upcoming,
                            selected: 0,
                            ..*old(self)
                        }
                    } else if c == 'v' {
                        action == Action::Idle && final(app).events@ == old(app).events@ && *final(self) == UiState {
                            view_mode: spec_next_view(old(self).view_mode),
                            selected: 0,
                            ..*old(self)
                        }
                    } else if c == 'c' {
                        &&& action == Action::Idle
                        &&& final(app).events@ == old(app).events@
                        &&& exists|colors: Seq<String>|
                            color_listing(colors, old(app).events@) && cycle_rel(
                                colors,
                                old(self).filter_color,
                                final(self).filter_color,
                            ) && (final(self).selected == (if colors.len() == 0 {
                                old(self).selected as int
                            } else {
                                0
                            }))
                        &&& final(self).show_form == old(self).show_form
                        &&& final(self).edit_index == old(self).edit_index
                        &&& final(self).sort_asc == old(self).sort_asc
                        &&& final(self).show_only_upcoming == old(self).show_only_upcoming
                        &&& final(self).view_mode == old(self).view_mode
                        &&& final(self).current_date == old(self).current_date
                        &&& final(self).form == old(self).form
                    } else if c == 'd' {
                        if old(self).selected < visible@.len() {
                            let idx = visible@[old(self).selected as int].0 as int;
                            &&& action == Action::Persist
                            &&& (old(app).events@[idx].recurrence == Recurrence::Once ==> final(app).events@ == old(app).events@.remove(idx))
                            &&& (old(app).events@[idx].recurrence != Recurrence::Once ==> final(app).events@ == old(app).events@.filter(
                                |e: Event| !same_event(e, old(app).events@[idx]),
                            ))
                            &&& final(self).selected == (if final(app).events@.len() == 0 {
                                0int
                            } else if old(self).selected >= visible@.len() {
                                visible@.len() - 1
                            } else {
                                old(self).selected as int
                            })
                            &&& same_filters(*old(self), *final(self))
                            &&& final(self).show_form == old(self).show_form
                            &&& final(self).edit_index == old(self).edit_index
                        } else {
                            action == Action::Idle && *final(self) == *old(self) && final(app).events@ == old(app).events@
                        }
                    } else if c == 'e' {
                        if old(self).selected < visible@.len() {
                            let idx = visible@[old(self).selected as int].0 as int;
                            &&& action == Action::Idle
                            &&& final(app).events@ == old(app).events@
                            &&& final(self).show_form
                            &&& final(self).edit_index == Option::Some(
                                visible@[old(self).selected as int].0,
                            )
                            &&& final(self).form.title@ == old(app).events@[idx].title@
                            &&& same_filters(*old(self), *final(self))
                            &&& final(self).selected == old(self).selected
                        } else {
                            action == Action::Idle && *final(self) == *old(self) && final(app).events@ == old(app).events@
                        }
                    } else {
                        action == Action::Idle && *final(self) == *old(self) && final(app).events@
                            == old(app).events@
                    }
                },
                Key::Up => action == Action::Idle && final(app).events@ == old(app).events@
                    && *final(self) == UiState {
                    selected: (if old(self).selected > 0 {
                        (old(self).selected - 1) as usize
                    } else {
                        0
                    }),
                    ..*old(self)
                },
                Key::Down => action == Action::Idle && final(app).events@ == old(app).events@
                    && *final(self) == UiState {
                    selected: (if old(self).selected + 1 < visible@.len() {
                        (old(self).selected + 1) as usize
                    } else {
                        old(self).selected
                    }),
                    ..*old(self)
                },
                Key::Left => action == Action::Idle && final(app).events@ == old(app).events@
                    && nav_rel(
                    old(self).current_date,
                    final(self).current_date,
                    old(self).view_mode,
                    false,
                ),
                Key::Right => action == Action::Idle && final(app).events@ == old(app).events@
                    && nav_rel(
                    old(self).current_date,
                    final(self).current_date,
                    old(self).view_mode,
                    true,
                ),
                _ => action == Action::Idle && *final(self) == *old(self) && final(app).events@
                    == old(app).events@,
            },
            old(self).show_form ==> match key {
                Key::Esc => {
                    &&& action == Action::Idle
                    &&& final(app).events@ == old(app).events@
                    &&& !final(self).show_form
                    &&& final(self).edit_index is None
                    &&& final(self).form.active_field == 0
                    &&& forall|i: int| 0 <= i < 5 ==> field(final(self).form, i).len() == 0
                    &&& same_filters(*old(self), *final(self))
                },
                Key::Enter => {
                    if old(self).form.active_field == 4 {
                        if spec_validate(old(self).form) matches Result::Err(e) {
                            // rejected: the store and list state stay, the form
                            // shows the error
                            &&& action == Action::Idle
                            &&& final(app).events@ == old(app).events@
                            &&& final(self).show_form
                            &&& final(self).edit_index == old(self).edit_index
                            &&& same_filters(*old(self), *final(self))
                        } else {
                            // accepted drafts commit; ones whose event cannot be
                            // built keep the form open with an error
                            &&& (action == Action::Persist || action == Action::Idle)
                            &&& (action == Action::Persist ==> {
                                &&& !final(self).show_form
                                &&& final(self).edit_index is None
                                &&& (match old(self).edit_index {
                                    Option::Some(i) => final(app).events@.len() == old(app).events@.len() && final(self).selected == old(self).selected,
                                    Option::None => final(app).events@.len() == old(app).events@.len() + 1 && final(self).selected == old(app).events@.len(),
                                })
                            })
                            &&& (action == Action::Idle ==> final(app).events@ == old(app).events@ && final(self).show_form)
                            &&& same_filters(*old(self), *final(self))
                        }
                    } else {
                        &&& action == Action::Idle
                        &&& final(app).events@ == old(app).events@
                        &&& final(self).show_form
                        &&& form_key_rel(old(self).form, final(self).form, key)
                        &&& same_filters(*old(self), *final(self))
                    }
                },
                _ => {
                    &&& action == Action::Idle
                    &&& final(app).events@ == old(app).events@
                    &&& final(self).show_form
                    &&& form_key_rel(old(self).form, final(self).form, key)
                    &&& same_filters(*old(self), *final(self))
                },
            },
    {
        if self.show_form {
            match key {
                Key::Esc => {
                    self.show_form = false;
                    self.form = EventForm::new();
                    self.edit_index = Option::None;
                    Action::Idle
                },
                Key::Enter => {
                    if self.form.active_field == 4 {
                        match self.form.validate() {
                            Result::Err(e) => {
                                self.form.error_message = Option::Some(describe_error(&e));
                                Action::Idle
                            },
                            Result::Ok(()) => {
                                match self.form.get_event() {
                                    Option::Some(ev) => {
                                        match self.edit_index {
                                            Option::Some(i) => {
                                                app.edit_at(i, ev);
                                                self.edit_index = Option::None;
                                            },
                                            Option::None => {
                                                app.add(ev);
                                                self.selected = app.events.len() - 1;
                                            },
                                        }
                                        self.show_form = false;
                                        self.form = EventForm::new();
                                        Action::Persist
                                    },
                                    Option::None => {
                                        self.form.error_message = Option::Some(
                                            String::from_str("The event could not be created."),
                                        );
                                        Action::Idle
                                    },
                                }
                            },
                        }
                    } else {
                        self.form.handle_input(key);
                        Action::Idle
                    }
                },
                _ => {
                    self.form.handle_input(key);
                    Action::Idle
                },
            }
        } else {
            match key {
                Key::Char(c) => {
                    if c == 'q' {
                        Action::Quit
                    } else if c == 'a' {
                        self.show_form = true;
                        Action::Idle
                    } else if c == 's' {
                        self.sort_asc = !self.sort_asc;
                        Action::Idle
                    } else if c == 'f' {
                        self.show_only_upcoming = !self.show_only_upcoming;
                        self.selected = 0;
                        Action::Idle
                    } else if c == 'v' {
                        self.view_mode = match self.view_mode {
                            ViewMode::All => ViewMode::Week,
                            ViewMode::Week => ViewMode::Month,
                            ViewMode::Month => ViewMode::Year,
                            ViewMode::Year => ViewMode::All,
                        };
                        self.selected = 0;
                        Action::Idle
                    } else if c == 'c' {
                        let colors = collect_colors(&app.events);
                        let next = next_color(&colors, &self.filter_color);
                        if colors.len() > 0 {
                            self.selected = 0;
                        }
                        self.filter_color = next;
                        proof {
                            assert(color_listing(colors@, app.events@));
                        }
                        Action::Idle
                    } else if c == 'd' {
                        if self.selected < visible.len() {
                            let idx = visible[self.selected].0;
                            app.delete_at(idx);
                            if app.events.len() == 0 {
                                self.selected = 0;
                            } else if self.selected >= visible.len() {
                                self.selected = visible.len() - 1;
                            }
                            Action::Persist
                        } else {
                            Action::Idle
                        }
                    } else if c == 'e' {
                        if self.selected < visible.len() {
                            let idx = visible[self.selected].0;
                            self.form = EventForm::from_event(&app.events[idx]);
                            self.show_form = true;
                            self.edit_index = Option::Some(idx);
                            Action::Idle
                        } else {
                            Action::Idle
                        }
                    } else {
                        Action::Idle
                    }
                },
                Key::Up => {
                    if self.selected > 0 {
                        self.selected = self.selected - 1;
                    }
                    Action::Idle
                },
                Key::Down => {
                    if visible.len() > 0 && self.selected < visible.len() - 1 {
                        self.selected = self.selected + 1;
                    }
                    Action::Idle
                },
                Key::Left => {
                    self.navigate(false);
                    Action::Idle
                },
                Key::Right => {
                    self.navigate(true);
                    Action::Idle
                },
                _ => Action::Idle,
            }
        }
    }

    /// Move the reference date one view step left or right.
    fn navigate(&mut self, right: bool)
        requires
            old(self).wf(),
        ensures
            final(self).wf(),
            nav_rel(old(self).current_date, final(self).current_date, old(self).view_mode, right),
            *final(self) == (UiState { current_date: final(self).current_date, ..*old(self) }),
    {
        let d = self.current_date;
        match self.view_mode {
            ViewMode::All => {},
            ViewMode::Week => {
                let moved = if right {
                    d.add_days(7)
                } else {
                    d.sub_days(7)
                };
                match moved {
                    Option::Some(nd) => {
                        proof {
                            crate::date::lemma_day_num_le_max(nd);
                        }
                        self.current_date = nd;
                    },
                    Option::None => {},
                }
            },
            ViewMode::Month => {
                let first = DateTime { day: 1, ..d };
                let moved = if right {
                    first.add_days(32)
                } else {
                    first.sub_days(1)
                };
                match moved {
                    Option::Some(nd) => {
                        proof {
                            crate::date::lemma_day_num_le_max(nd);
                        }
                        self.current_date = nd;
                    },
                    Option::None => {},
                }
            },
            ViewMode::Year => {
                let jan1 = DateTime { month: 1, day: 1, ..d };
                let moved = if right {
                    jan1.add_days(366)
                } else {
                    jan1.sub_days(1)
                };
                match moved {
                    Option::Some(nd) => {
                        proof {
                            crate::date::lemma_day_num_le_max(nd);
                        }
                        self.current_date = nd;
                    },
                    Option::None => {},
                }
            },
        }
    }
}

} // verus!
