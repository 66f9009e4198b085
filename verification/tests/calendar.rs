use calendar_planner::date::DateTime;
use calendar_planner::event::{Event, Recurrence};
use calendar_planner::project::{project, ViewMode};
use calendar_planner::store::{App, clamp_selection};
use calendar_planner::codec::{save_events, load_events};
use calendar_planner::colors::{collect_colors, next_color};
use calendar_planner::form::EventForm;
use calendar_planner::ui::{UiState, Action};
use calendar_planner::form::ValidationError::{EmptyTitle, BadDate, BadDuration, NonPositiveDuration, BadRecurrence};
use calendar_planner::form::Key;

fn dt(year: u16, month: u8, day: u8, hour: u8, minute: u8) -> DateTime {
    DateTime { year, month, day, hour, minute }
}

fn ev(title: &str, start: DateTime, end: DateTime, color: Option<&str>, recurrence: Recurrence) -> Event {
    Event {
        title: title.to_string(),
        start,
        end,
        color: color.map(|c| c.to_string()),
        recurrence,
    }
}

#[test]
fn single_occurrence_within_horizon() {
    let e = ev("solo", dt(2024, 5, 10, 8, 0), dt(2024, 5, 10, 9, 0), None, Recurrence::Once);
    let occs = e.generate_occurrences(&dt(2024, 12, 31, 0, 0));
    assert_eq!(occs.len(), 1);
    assert!(occs[0].same_fields(&e));
}

#[test]
fn single_occurrence_past_horizon() {
    let e = ev("late", dt(2025, 1, 1, 8, 0), dt(2025, 1, 1, 9, 0), None, Recurrence::Once);
    let occs = e.generate_occurrences(&dt(2024, 12, 31, 0, 0));
    assert_eq!(occs.len(), 0);
}

#[test]
fn daily_standup_three_days() {
    let e = ev(
        "Standup",
        dt(2024, 1, 1, 9, 0),
        dt(2024, 1, 1, 9, 30),
        None,
        Recurrence::Daily,
    );
    let occs = e.generate_occurrences(&dt(2024, 1, 3, 9, 0));
    assert_eq!(occs.len(), 3);
    assert_eq!(occs[0].start, dt(2024, 1, 1, 9, 0));
    assert_eq!(occs[0].end, dt(2024, 1, 1, 9, 30));
    assert_eq!(occs[1].start, dt(2024, 1, 2, 9, 0));
    assert_eq!(occs[1].end, dt(2024, 1, 2, 9, 30));
    assert_eq!(occs[2].start, dt(2024, 1, 3, 9, 0));
    assert_eq!(occs[2].end, dt(2024, 1, 3, 9, 30));
}

#[test]
fn periodic_counts_match_formula() {
    // weekly, horizon 30 days later: floor(30*1440 / (7*1440)) + 1 = 5
    let e = ev("w", dt(2024, 1, 1, 0, 0), dt(2024, 1, 1, 1, 0), None, Recurrence::Weekly);
    let occs = e.generate_occurrences(&dt(2024, 1, 31, 0, 0));
    assert_eq!(occs.len(), 5);
    // biweekly over the same span: floor(30/14) + 1 = 3
    let e2 = ev("b", dt(2024, 1, 1, 0, 0), dt(2024, 1, 1, 1, 0), None, Recurrence::Biweekly);
    assert_eq!(e2.generate_occurrences(&dt(2024, 1, 31, 0, 0)).len(), 3);
}

#[test]
fn monthly_halts_on_short_month() {
    // Jan 31 + 1 month would be Feb 31: generation halts after one occurrence
    let e = ev("m", dt(2024, 1, 31, 12, 0), dt(2024, 1, 31, 13, 0), None, Recurrence::Monthly);
    let occs = e.generate_occurrences(&dt(2025, 12, 31, 0, 0));
    assert_eq!(occs.len(), 1);
    assert_eq!(occs[0].start, dt(2024, 1, 31, 12, 0));
    // Jan 15 survives every month of one year: 12 occurrences up to Dec 15
    let e2 = ev("m2", dt(2024, 1, 15, 12, 0), dt(2024, 1, 15, 13, 0), None, Recurrence::Monthly);
    assert_eq!(e2.generate_occurrences(&dt(2024, 12, 31, 0, 0)).len(), 12);
}

#[test]
fn yearly_halts_on_leap_day() {
    let e = ev("leap", dt(2024, 2, 29, 10, 0), dt(2024, 2, 29, 11, 0), None, Recurrence::Yearly);
    let occs = e.generate_occurrences(&dt(2030, 1, 1, 0, 0));
    assert_eq!(occs.len(), 1);
    assert_eq!(occs[0].start, dt(2024, 2, 29, 10, 0));
    let e2 = ev("ann", dt(2024, 3, 1, 10, 0), dt(2024, 3, 1, 11, 0), None, Recurrence::Yearly);
    assert_eq!(e2.generate_occurrences(&dt(2027, 12, 31, 0, 0)).len(), 4);
}

fn minutes(d: &DateTime) -> u64 {
    d.to_minutes()
}

#[test]
fn projection_sorted_in_both_directions() {
    let events = vec![
        ev("a", dt(2024, 1, 5, 10, 0), dt(2024, 1, 5, 11, 0), Some("red"), Recurrence::Once),
        ev("b", dt(2024, 1, 1, 9, 0), dt(2024, 1, 1, 9, 30), Some("blue"), Recurrence::Daily),
        ev("c", dt(2024, 1, 3, 8, 0), dt(2024, 1, 3, 9, 0), None, Recurrence::Once),
    ];
    let horizon = dt(2024, 12, 31, 0, 0);
    let reference = dt(2024, 1, 3, 0, 0);
    let now = dt(2024, 1, 2, 12, 0);
    for view in [ViewMode::All, ViewMode::Week, ViewMode::Month, ViewMode::Year] {
        for upcoming in [false, true] {
            for color in [None, Some("blue".to_string())] {
                for asc in [false, true] {
                    let r = project(&events, &horizon, &view, &reference, &now, upcoming, &color, asc);
                    for w in r.windows(2) {
                        if asc {
                            assert!(minutes(&w[0].1.start) <= minutes(&w[1].1.start));
                        } else {
                            assert!(minutes(&w[0].1.start) >= minutes(&w[1].1.start));
                        }
                    }
                    for (idx, occ) in &r {
                        assert!(*idx < events.len());
                        if upcoming {
                            assert!(minutes(&occ.start) >= minutes(&now));
                        }
                        if let Some(c) = &color {
                            assert_eq!(occ.color.as_deref(), Some(c.as_str()));
                        }
                    }
                }
            }
        }
    }
}

#[test]
fn projection_week_window() {
    // 2024-01-03 is a Wednesday; its Monday-starting week is Jan 1..=Jan 7
    let events = vec![
        ev("in", dt(2024, 1, 1, 9, 0), dt(2024, 1, 1, 10, 0), None, Recurrence::Once),
        ev("also", dt(2024, 1, 7, 23, 0), dt(2024, 1, 7, 23, 30), None, Recurrence::Once),
        ev("out", dt(2024, 1, 8, 0, 0), dt(2024, 1, 8, 1, 0), None, Recurrence::Once),
    ];
    let horizon = dt(2024, 12, 31, 0, 0);
    let reference = dt(2024, 1, 3, 0, 0);
    let now = dt(2024, 1, 1, 0, 0);
    let r = project(&events, &horizon, &ViewMode::Week, &reference, &now, false, &None, true);
    assert_eq!(r.len(), 2);
    assert_eq!(r[0].0, 0);
    assert_eq!(r[1].0, 1);
}

#[test]
fn delete_recurring_removes_all_identical() {
    let twin = || ev("gym", dt(2024, 1, 1, 7, 0), dt(2024, 1, 1, 8, 0), Some("red"), Recurrence::Weekly);
    let other = ev("gym", dt(2024, 1, 2, 7, 0), dt(2024, 1, 2, 8, 0), Some("red"), Recurrence::Weekly);
    let solo = ev("dentist", dt(2024, 3, 1, 9, 0), dt(2024, 3, 1, 10, 0), None, Recurrence::Once);
    let mut app = App { events: vec![twin(), other.clone(), twin(), solo.clone()] };
    app.delete_at(0);
    assert_eq!(app.events.len(), 2);
    assert!(app.events[0].same_fields(&other));
    assert!(app.events[1].same_fields(&solo));
}

#[test]
fn delete_non_recurring_removes_exactly_one() {
    let a = ev("x", dt(2024, 1, 1, 7, 0), dt(2024, 1, 1, 8, 0), None, Recurrence::Once);
    let mut app = App { events: vec![a.clone(), a.clone()] };
    app.delete_at(0);
    assert_eq!(app.events.len(), 1);
    assert!(app.events[0].same_fields(&a));
}

#[test]
fn save_and_load_round_trip() {
    let events = vec![
        ev("Standup", dt(2024, 1, 1, 9, 0), dt(2024, 1, 1, 9, 30), Some("blue"), Recurrence::Daily),
        ev("café & tea", dt(2024, 2, 29, 18, 0), dt(2024, 2, 29, 20, 0), None, Recurrence::Yearly),
        ev("", dt(1, 1, 1, 0, 0), dt(9999, 12, 31, 23, 59), Some(""), Recurrence::Biweekly),
    ];
    let text = save_events(&events);
    let back = load_events(&text);
    assert_eq!(back.len(), events.len());
    for (a, b) in back.iter().zip(events.iter()) {
        assert!(a.same_fields(b));
    }
}

#[test]
fn load_rejects_malformed_text() {
    assert_eq!(load_events("").len(), 0);
    assert_eq!(load_events("not a calendar").len(), 0);
    assert_eq!(load_events("1 ").len(), 0);
    // trailing garbage after a valid collection is malformed too
    let text = save_events(&vec![ev("a", dt(2024, 1, 1, 0, 0), dt(2024, 1, 1, 1, 0), None, Recurrence::Once)]);
    let mut garbled = text.clone();
    garbled.push_str("9 ");
    assert_eq!(load_events(&garbled).len(), 0);
    assert_eq!(load_events(&text).len(), 1);
}

#[test]
fn color_cycle_blue_red_none() {
    let events = vec![
        ev("r", dt(2024, 1, 1, 0, 0), dt(2024, 1, 1, 1, 0), Some("red"), Recurrence::Once),
        ev("b", dt(2024, 1, 2, 0, 0), dt(2024, 1, 2, 1, 0), Some("blue"), Recurrence::Once),
        ev("b2", dt(2024, 1, 3, 0, 0), dt(2024, 1, 3, 1, 0), Some("blue"), Recurrence::Once),
    ];
    let colors = collect_colors(&events);
    assert_eq!(colors, vec!["blue".to_string(), "red".to_string()]);
    let first = next_color(&colors, &None);
    assert_eq!(first.as_deref(), Some("blue"));
    let second = next_color(&colors, &first);
    assert_eq!(second.as_deref(), Some("red"));
    let third = next_color(&colors, &second);
    assert_eq!(third, None);
    let none: Vec<String> = collect_colors(&vec![ev("n", dt(2024, 1, 1, 0, 0), dt(2024, 1, 1, 1, 0), None, Recurrence::Once)]);
    assert_eq!(none.len(), 0);
    assert_eq!(next_color(&none, &None), None);
}

fn form_with(title: &str, start: &str, duration: &str, color: &str, recurrence: &str) -> EventForm {
    EventForm {
        title: title.chars().collect(),
        start: start.chars().collect(),
        duration: duration.chars().collect(),
        color: color.chars().collect(),
        recurrence: recurrence.chars().collect(),
        active_field: 0,
        error_message: None,
    }
}

#[test]
fn validation_rejects_each_bad_field() {
    assert_eq!(form_with("  ", "2024-01-01 09:00", "2", "", "").validate(), Err(EmptyTitle));
    assert_eq!(form_with("t", "2024-13-01 09:00", "2", "", "").validate(), Err(BadDate));
    assert_eq!(form_with("t", "2024-1-1 9:00", "2", "", "").validate(), Err(BadDate));
    assert_eq!(form_with("t", "2024-01-01 09:00", "two", "", "").validate(), Err(BadDuration));
    assert_eq!(form_with("t", "2024-01-01 09:00", "0", "", "").validate(), Err(NonPositiveDuration));
    assert_eq!(form_with("t", "2024-01-01 09:00", "2", "", "sometimes").validate(), Err(BadRecurrence));
    assert_eq!(form_with("t", "2024-01-01 09:00", "2", "blue", "WEEKLY").validate(), Ok(()));
    assert_eq!(form_with("t", "2024-01-01 09:00", "2", "", "").validate(), Ok(()));
}

#[test]
fn form_builds_the_described_event() {
    let f = form_with("Standup", "2024-01-01 09:00", "2", "blue", "daily");
    let e = f.get_event().unwrap();
    assert_eq!(e.title, "Standup");
    assert_eq!(e.start, dt(2024, 1, 1, 9, 0));
    assert_eq!(e.end, dt(2024, 1, 1, 11, 0));
    assert_eq!(e.color.as_deref(), Some("blue"));
    assert_eq!(e.recurrence, Recurrence::Daily);
    assert!(form_with("x", "2024-02-30 09:00", "2", "", "").get_event().is_none());
    assert!(form_with("x", "2024-01-01 09:00", "0", "", "").get_event().is_none());
}

#[test]
fn form_round_trips_a_template() {
    let e = ev("gym", dt(2024, 3, 5, 7, 30), dt(2024, 3, 5, 9, 30), Some("red"), Recurrence::Biweekly);
    let f = EventForm::from_event(&e);
    let text: String = f.start.iter().collect();
    assert_eq!(text, "2024-03-05 07:30");
    let dur: String = f.duration.iter().collect();
    assert_eq!(dur, "2");
    let back = f.get_event().unwrap();
    assert!(back.same_fields(&e));
}

#[test]
fn form_editing_keys() {
    let mut f = EventForm::new();
    f.handle_input(Key::Char('h'));
    f.handle_input(Key::Char('i'));
    assert_eq!(f.title, vec!['h', 'i']);
    f.handle_input(Key::Backspace);
    assert_eq!(f.title, vec!['h']);
    f.handle_input(Key::Down);
    f.handle_input(Key::Char('2'));
    assert_eq!(f.start, vec!['2']);
    f.handle_input(Key::Enter);
    assert_eq!(f.active_field, 2);
    f.handle_input(Key::Up);
    assert_eq!(f.active_field, 1);
}

#[test]
fn clamp_selection_bounds() {
    assert_eq!(clamp_selection(5, 0), 0);
    assert_eq!(clamp_selection(5, 3), 2);
    assert_eq!(clamp_selection(1, 3), 1);
}

#[test]
fn store_seeds_a_sample_on_empty_load() {
    let app = App::new(Vec::new(), &dt(2024, 6, 1, 12, 0));
    assert_eq!(app.events.len(), 1);
    assert_eq!(app.events[0].title, "Test");
    assert_eq!(app.events[0].start, dt(2024, 6, 1, 12, 0));
    assert_eq!(app.events[0].end, dt(2024, 6, 1, 14, 0));
    assert_eq!(app.events[0].color.as_deref(), Some("blue"));
    let loaded = vec![ev("kept", dt(2024, 1, 1, 0, 0), dt(2024, 1, 1, 1, 0), None, Recurrence::Once)];
    let app2 = App::new(loaded, &dt(2024, 6, 1, 12, 0));
    assert_eq!(app2.events.len(), 1);
    assert_eq!(app2.events[0].title, "kept");
}

#[test]
fn app_save_round_trips() {
    let app = App {
        events: vec![ev("x", dt(2024, 1, 1, 0, 0), dt(2024, 1, 1, 2, 0), Some("cyan"), Recurrence::Monthly)],
    };
    let back = load_events(&app.save());
    assert_eq!(back.len(), 1);
    assert!(back[0].same_fields(&app.events[0]));
}

#[test]
fn step_drives_list_and_form() {
    let mut app = App {
        events: vec![
            ev("a", dt(2024, 1, 1, 9, 0), dt(2024, 1, 1, 10, 0), None, Recurrence::Once),
            ev("b", dt(2024, 1, 2, 9, 0), dt(2024, 1, 2, 10, 0), None, Recurrence::Once),
        ],
    };
    let mut ui = UiState::new(dt(2024, 1, 3, 0, 0));
    let horizon = dt(2024, 12, 31, 0, 0);
    let now = dt(2024, 1, 1, 0, 0);
    let visible = project(
        &app.events, &horizon, &ui.view_mode, &ui.current_date, &now,
        ui.show_only_upcoming, &ui.filter_color, ui.sort_asc,
    );
    assert_eq!(ui.step(&mut app, &visible, Key::Char('s')), Action::Idle);
    assert!(!ui.sort_asc);
    assert_eq!(ui.step(&mut app, &visible, Key::Char('v')), Action::Idle);
    assert_eq!(ui.view_mode, ViewMode::Week);
    assert_eq!(ui.step(&mut app, &visible, Key::Down), Action::Idle);
    assert_eq!(ui.selected, 1);
    assert_eq!(ui.step(&mut app, &visible, Key::Up), Action::Idle);
    assert_eq!(ui.selected, 0);
    // delete the first visible occurrence's template
    assert_eq!(ui.step(&mut app, &visible, Key::Char('d')), Action::Persist);
    assert_eq!(ui.step(&mut app, &visible, Key::Char('q')), Action::Quit);
    // add through the form
    assert_eq!(ui.step(&mut app, &visible, Key::Char('a')), Action::Idle);
    assert!(ui.show_form);
    for c in "lunch".chars() {
        ui.step(&mut app, &visible, Key::Char(c));
    }
    ui.step(&mut app, &visible, Key::Down);
    for c in "2024-01-05 12:00".chars() {
        ui.step(&mut app, &visible, Key::Char(c));
    }
    ui.step(&mut app, &visible, Key::Down);
    ui.step(&mut app, &visible, Key::Char('1'));
    ui.step(&mut app, &visible, Key::Down);
    ui.step(&mut app, &visible, Key::Down);
    assert_eq!(ui.form.active_field, 4);
    let action = ui.step(&mut app, &visible, Key::Enter);
    assert_eq!(action, Action::Persist);
    assert!(!ui.show_form);
    let added = &app.events[app.events.len() - 1];
    assert_eq!(added.title, "lunch");
    assert_eq!(added.start, dt(2024, 1, 5, 12, 0));
}

#[test]
fn week_navigation_moves_reference_date() {
    let mut app = App { events: Vec::new() };
    let visible: Vec<(usize, Event)> = Vec::new();
    let mut ui = UiState::new(dt(2024, 1, 10, 0, 0));
    ui.step(&mut app, &visible, Key::Char('v'));
    assert_eq!(ui.view_mode, ViewMode::Week);
    ui.step(&mut app, &visible, Key::Right);
    assert_eq!(ui.current_date, dt(2024, 1, 17, 0, 0));
    ui.step(&mut app, &visible, Key::Left);
    assert_eq!(ui.current_date, dt(2024, 1, 10, 0, 0));
}
