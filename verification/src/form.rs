//! The event form: raw text per field, field navigation, validation of a
//! draft, and the construction of a template from it — and the reverse,
//! loading a template back into a form for editing.

use vstd::prelude::*;
use crate::date::{DateTime, max_minutes};
use crate::event::{Event, Recurrence, opt_text};
use crate::text::{is_digit, digit_val, digit_value, digits_val, dec_digits, run_end,
    lemma_run_end, lemma_run_end_bounds, read_u64, push_u64, str_to_chars, chars_to_string,
    lemma_digits_val_take};

verus! {

/// A key delivered by the terminal, as the library's logic sees it.
#[derive(Clone, Copy, Debug, PartialEq, Eq, Structural)]
pub enum Key {
    Char(char),
    Backspace,
    Enter,
    Esc,
    Up,
    Down,
    Left,
    Right,
    Other,
}

/// The in-progress event form.
pub struct EventForm {
    pub title: Vec<char>,
    pub start: Vec<char>,
    pub duration: Vec<char>,
    pub color: Vec<char>,
    pub recurrence: Vec<char>,
    pub active_field: usize,
    pub error_message: Option<String>,
}

/// The text of the form's field number `i`.
pub open spec fn field(f: EventForm, i: int) -> Seq<char> {
    if i == 0 {
        f.title@
    } else if i == 1 {
        f.start@
    } else if i == 2 {
        f.duration@
    } else if i == 3 {
        f.color@
    } else {
        f.recurrence@
    }
}

/// How one key changes the form: characters append to the active field,
/// backspace removes its last character, enter cycles to the next field,
/// up and down move between fields, and any other key changes nothing.
pub open spec fn form_key_rel(o: EventForm, f: EventForm, key: Key) -> bool {
    match key {
        Key::Char(c) => {
            &&& f.error_message is None
            &&& f.active_field == o.active_field
            &&& forall|i: int|
                0 <= i < 5 ==> field(f, i) == (if i == o.active_field {
                    field(o, i).push(c)
                } else {
                    field(o, i)
                })
        },
        Key::Backspace => {
            &&& f.error_message is None
            &&& f.active_field == o.active_field
            &&& forall|i: int|
                0 <= i < 5 ==> field(f, i) == (if i == o.active_field && field(o, i).len() > 0 {
                    field(o, i).drop_last()
                } else {
                    field(o, i)
                })
        },
        Key::Enter => f == EventForm { active_field: ((o.active_field + 1) % 5) as usize, ..o },
        Key::Up => f == EventForm {
            active_field: (if o.active_field > 0 {
                (o.active_field - 1) as usize
            } else {
                0
            }),
            ..o
        },
        Key::Down => f == EventForm {
            active_field: (if o.active_field < 4 {
                (o.active_field + 1) as usize
            } else {
                o.active_field
            }),
            ..o
        },
        _ => f == o,
    }
}

impl EventForm {
    pub open spec fn wf(self) -> bool {
        self.active_field < 5
    }

    /// An empty form with the first field active.
    pub fn new() -> (f: EventForm)
        ensures
            f.wf(),
            f.active_field == 0,
            f.error_message is None,
            forall|i: int| 0 <= i < 5 ==> field(f, i).len() == 0,
    {
        EventForm {
            title: Vec::new(),
            start: Vec::new(),
            duration: Vec::new(),
            color: Vec::new(),
            recurrence: Vec::new(),
            active_field: 0,
            error_message: Option::None,
        }
    }

    /// One key applied to the form: characters append to the active
    /// field, backspace removes its last character, enter cycles to the
    /// next field, up and down move between fields, and any other key is
    /// ignored.
    pub fn handle_input(&mut self, key: Key)
        requires
            old(self).wf(),
        ensures
            final(self).wf(),
            form_key_rel(*old(self), *final(self), key),
    {
        match key {
            Key::Char(c) => {
                self.error_message = Option::None;
                if self.active_field == 0 {
                    self.title.push(c);
                } else if self.active_field == 1 {
                    self.start.push(c);
                } else if self.active_field == 2 {
                    self.duration.push(c);
                } else if self.active_field == 3 {
                    self.color.push(c);
                } else {
                    self.recurrence.push(c);
                }
            },
            Key::Backspace => {
                self.error_message = Option::None;
                if self.active_field == 0 {
                    self.title.pop();
                } else if self.active_field == 1 {
                    self.start.pop();
                } else if self.active_field == 2 {
                    self.duration.pop();
                } else if self.active_field == 3 {
                    self.color.pop();
                } else {
                    self.recurrence.pop();
                }
            },
            Key::Enter => {
                self.active_field = (self.active_field + 1) % 5;
            },
            Key::Up => {
                if self.active_field > 0 {
                    self.active_field = self.active_field - 1;
                }
            },
            Key::Down => {
                if self.active_field < 4 {
                    self.active_field = self.active_field + 1;
                }
            },
            _ => {},
        }
    }
}

/// Whether the sixteen characters follow the `YYYY-MM-DD HH:MM` shape.
pub open spec fn dt_text_wf(t: Seq<char>) -> bool {
    &&& t.len() == 16
    &&& is_digit(t[0]) && is_digit(t[1]) && is_digit(t[2]) && is_digit(t[3])
    &&& t[4] == '-'
    &&& is_digit(t[5]) && is_digit(t[6])
    &&& t[7] == '-'
    &&& is_digit(t[8]) && is_digit(t[9])
    &&& t[10] == ' '
    &&& is_digit(t[11]) && is_digit(t[12])
    &&& t[13] == ':'
    &&& is_digit(t[14]) && is_digit(t[15])
}

/// The timestamp the sixteen characters spell.
pub open spec fn dt_of_text(t: Seq<char>) -> DateTime {
    DateTime {
        year: (digit_val(t[0]) * 1000 + digit_val(t[1]) * 100 + digit_val(t[2]) * 10 + digit_val(
            t[3],
        )) as u16,
        month: (digit_val(t[5]) * 10 + digit_val(t[6])) as u8,
        day: (digit_val(t[8]) * 10 + digit_val(t[9])) as u8,
        hour: (digit_val(t[11]) * 10 + digit_val(t[12])) as u8,
        minute: (digit_val(t[14]) * 10 + digit_val(t[15])) as u8,
    }
}

/// What a date-time field parses to: the spelled timestamp when the text
/// has the right shape and names a real calendar moment, nothing else.
pub open spec fn parse_dt_spec(t: Seq<char>) -> Option<DateTime> {
    if dt_text_wf(t) && dt_of_text(t).valid() {
        Option::Some(dt_of_text(t))
    } else {
        Option::None
    }
}

/// Parse a `YYYY-MM-DD HH:MM` field.
pub fn parse_datetime(t: &Vec<char>) -> (r: Option<DateTime>)
    ensures
        r == parse_dt_spec(t@),
{
    if t.len() != 16 {
        return Option::None;
    }
    if !(*vstd::slice::slice_index_get(t.as_slice(), 4) == '-' && *vstd::slice::slice_index_get(
        t.as_slice(),
        7,
    ) == '-' && *vstd::slice::slice_index_get(t.as_slice(), 10) == ' '
        && *vstd::slice::slice_index_get(t.as_slice(), 13) == ':') {
        return Option::None;
    }
    let d0 = match digit_value(t[0]) {
        Option::Some(d) => d as u64,
        Option::None => {
            return Option::None;
        },
    };
    let d1 = match digit_value(t[1]) {
        Option::Some(d) => d as u64,
        Option::None => {
            return Option::None;
        },
    };
    let d2 = match digit_value(t[2]) {
        Option::Some(d) => d as u64,
        Option::None => {
            return Option::None;
        },
    };
    let d3 = match digit_value(t[3]) {
        Option::Some(d) => d as u64,
        Option::None => {
            return Option::None;
        },
    };
    let mo = match two_digits(t, 5) {
        Option::Some(v) => v,
        Option::None => {
            return Option::None;
        },
    };
    let da = match two_digits(t, 8) {
        Option::Some(v) => v,
        Option::None => {
            return Option::None;
        },
    };
    let ho = match two_digits(t, 11) {
        Option::Some(v) => v,
        Option::None => {
            return Option::None;
        },
    };
    let mi = match two_digits(t, 14) {
        Option::Some(v) => v,
        Option::None => {
            return Option::None;
        },
    };
    let year: u64 = d0 * 1000 + d1 * 100 + d2 * 10 + d3;
    let dt = DateTime {
        year: year as u16,
        month: mo as u8,
        day: da as u8,
        hour: ho as u8,
        minute: mi as u8,
    };
    if year < 1 || mo < 1 || mo > 12 || da < 1 || da > crate::date::month_days(
        year as u16,
        mo as u8,
    ) as u64 || ho > 23 || mi > 59 {
        return Option::None;
    }
    Option::Some(dt)
}

/// Two decimal digits at `i`, as a number.
fn two_digits(t: &Vec<char>, i: usize) -> (r: Option<u64>)
    requires
        i + 1 < t@.len(),
    ensures
        is_digit(t@[i as int]) && is_digit(t@[i as int + 1]) ==> r == Option::Some(
            (digit_val(t@[i as int]) * 10 + digit_val(t@[i as int + 1])) as u64,
        ),
        !(is_digit(t@[i as int]) && is_digit(t@[i as int + 1])) ==> r is None,
{
    proof {
        vstd::std_specs::vec::axiom_spec_len(t);
    }
    let hi = match digit_value(t[i]) {
        Option::Some(d) => d as u64,
        Option::None => {
            return Option::None;
        },
    };
    let lo = match digit_value(t[i + 1]) {
        Option::Some(d) => d as u64,
        Option::None => {
            return Option::None;
        },
    };
    Option::Some(hi * 10 + lo)
}

/// ASCII lowering of one character.
pub open spec fn lower_char(c: char) -> char {
    if c == 'A' {
        'a'
    } else if c == 'B' {
        'b'
    } else if c == 'C' {
        'c'
    } else if c == 'D' {
        'd'
    } else if c == 'E' {
        'e'
    } else if c == 'F' {
        'f'
    } else if c == 'G' {
        'g'
    } else if c == 'H' {
        'h'
    } else if c == 'I' {
        'i'
    } else if c == 'J' {
        'j'
    } else if c == 'K' {
        'k'
    } else if c == 'L' {
        'l'
    } else if c == 'M' {
        'm'
    } else if c == 'N' {
        'n'
    } else if c == 'O' {
        'o'
    } else if c == 'P' {
        'p'
    } else if c == 'Q' {
        'q'
    } else if c == 'R' {
        'r'
    } else if c == 'S' {
        's'
    } else if c == 'T' {
        't'
    } else if c == 'U' {
        'u'
    } else if c == 'V' {
        'v'
    } else if c == 'W' {
        'w'
    } else if c == 'X' {
        'x'
    } else if c == 'Y' {
        'y'
    } else if c == 'Z' {
        'z'
    } else {
        c
    }
}

/// ASCII lowering of a text.
pub open spec fn lowered(t: Seq<char>) -> Seq<char> {
    t.map(|i: int, c: char| lower_char(c))
}

fn lower_char_exec(c: char) -> (r: char)
    ensures
        r == lower_char(c),
{
    match c {
        'A' => 'a',
        'B' => 'b',
        'C' => 'c',
        'D' => 'd',
        'E' => 'e',
        'F' => 'f',
        'G' => 'g',
        'H' => 'h',
        'I' => 'i',
        'J' => 'j',
        'K' => 'k',
        'L' => 'l',
        'M' => 'm',
        'N' => 'n',
        'O' => 'o',
        'P' => 'p',
        'Q' => 'q',
        'R' => 'r',
        'S' => 's',
        'T' => 't',
        'U' => 'u',
        'V' => 'v',
        'W' => 'w',
        'X' => 'x',
        'Y' => 'y',
        'Z' => 'z',
        _ => c,
    }
}

pub open spec fn kw_none() -> Seq<char> {
    seq!['n', 'o', 'n', 'e']
}

pub open spec fn kw_once() -> Seq<char> {
    seq!['o', 'n', 'c', 'e']
}

pub open spec fn kw_daily() -> Seq<char> {
    seq!['d', 'a', 'i', 'l', 'y']
}

pub open spec fn kw_weekly() -> Seq<char> {
    seq!['w', 'e', 'e', 'k', 'l', 'y']
}

pub open spec fn kw_biweekly() -> Seq<char> {
    seq!['b', 'i', 'w', 'e', 'e', 'k', 'l', 'y']
}

pub open spec fn kw_monthly() -> Seq<char> {
    seq!['m', 'o', 'n', 't', 'h', 'l', 'y']
}

pub open spec fn kw_yearly() -> Seq<char> {
    seq!['y', 'e', 'a', 'r', 'l', 'y']
}

/// The recurrence a keyword names, case-insensitively; unrecognized or
/// empty text names a one-off event.
pub open spec fn rec_of_text(t: Seq<char>) -> Recurrence {
    let l = lowered(t);
    if l == kw_daily() {
        Recurrence::Daily
    } else if l == kw_weekly() {
        Recurrence::Weekly
    } else if l == kw_biweekly() {
        Recurrence::Biweekly
    } else if l == kw_monthly() {
        Recurrence::Monthly
    } else if l == kw_yearly() {
        Recurrence::Yearly
    } else {
        Recurrence::Once
    }
}

/// Whether the recurrence field is acceptable: empty, or one of the
/// recognized keywords (case-insensitive).
pub open spec fn rec_text_ok(t: Seq<char>) -> bool {
    ||| t.len() == 0
    ||| lowered(t) == kw_none()
    ||| lowered(t) == kw_once()
    ||| lowered(t) == kw_daily()
    ||| lowered(t) == kw_weekly()
    ||| lowered(t) == kw_biweekly()
    ||| lowered(t) == kw_monthly()
    ||| lowered(t) == kw_yearly()
}

/// Lower a text, executable.
fn lower_text(t: &Vec<char>) -> (r: Vec<char>)
    ensures
        r@ == lowered(t@),
{
    let mut out: Vec<char> = Vec::new();
    let mut i: usize = 0;
    while i < t.len()
        invariant
            i <= t@.len(),
            out@ == lowered(t@).take(i as int),
        decreases t@.len() - i,
    {
        out.push(lower_char_exec(t[i]));
        proof {
            assert(out@ =~= lowered(t@).take(i as int + 1));
        }
        i = i + 1;
    }
    proof {
        assert(lowered(t@).take(t@.len() as int) =~= lowered(t@));
    }
    out
}

/// Compare a text against a keyword given as chars.
fn chars_eq(a: &Vec<char>, b: &Vec<char>) -> (r: bool)
    ensures
        r == (a@ == b@),
{
    if a.len() != b.len() {
        proof {
            assert(a@ != b@);
        }
        return false;
    }
    let mut i: usize = 0;
    while i < a.len()
        invariant
            i <= a@.len(),
            a@.len() == b@.len(),
            forall|j: int| 0 <= j < i ==> a@[j] == b@[j],
        decreases a@.len() - i,
    {
        if a[i] as u32 != b[i] as u32 {
            proof {
                vstd::utf8::char_u32_cast(a@[i as int], a@[i as int] as u32);
                vstd::utf8::char_u32_cast(b@[i as int], b@[i as int] as u32);
                assert(a@[i as int] != b@[i as int]);
            }
            return false;
        }
        proof {
            vstd::utf8::char_u32_cast(a@[i as int], a@[i as int] as u32);
            vstd::utf8::char_u32_cast(b@[i as int], b@[i as int] as u32);
        }
        i = i + 1;
    }
    proof {
        assert(a@ =~= b@);
    }
    true
}

/// The recurrence the field names, executable.
pub fn rec_from_text(t: &Vec<char>) -> (r: Recurrence)
    ensures
        r == rec_of_text(t@),
{
    let l = lower_text(t);
    let daily: Vec<char> = vec!['d', 'a', 'i', 'l', 'y'];
    let weekly: Vec<char> = vec!['w', 'e', 'e', 'k', 'l', 'y'];
    let biweekly: Vec<char> = vec!['b', 'i', 'w', 'e', 'e', 'k', 'l', 'y'];
    let monthly: Vec<char> = vec!['m', 'o', 'n', 't', 'h', 'l', 'y'];
    let yearly: Vec<char> = vec!['y', 'e', 'a', 'r', 'l', 'y'];
    proof {
        assert(daily@ =~= kw_daily());
        assert(weekly@ =~= kw_weekly());
        assert(biweekly@ =~= kw_biweekly());
        assert(monthly@ =~= kw_monthly());
        assert(yearly@ =~= kw_yearly());
    }
    if chars_eq(&l, &daily) {
        Recurrence::Daily
    } else if chars_eq(&l, &weekly) {
        Recurrence::Weekly
    } else if chars_eq(&l, &biweekly) {
        Recurrence::Biweekly
    } else if chars_eq(&l, &monthly) {
        Recurrence::Monthly
    } else if chars_eq(&l, &yearly) {
        Recurrence::Yearly
    } else {
        Recurrence::Once
    }
}

/// What the duration field is worth: a plain decimal number of hours.
pub open spec fn duration_val(t: Seq<char>) -> Option<int> {
    if t.len() > 0 && (forall|i: int| 0 <= i < t.len() ==> is_digit(#[trigger] t[i]))
        && digits_val(t) <= u64::MAX {
        Option::Some(digits_val(t))
    } else {
        Option::None
    }
}

/// Parse the duration field.
pub fn parse_duration(t: &Vec<char>) -> (r: Option<u64>)
    ensures
        match duration_val(t@) {
            Option::Some(v) => r == Option::Some(v as u64),
            Option::None => r is None,
        },
{
    proof {
        lemma_run_end_bounds(t@, 0);
    }
    match read_u64(t, 0) {
        Option::Some((v, end)) => {
            if end == t.len() {
                proof {
                    assert(t@.subrange(0, t@.len() as int) =~= t@);
                }
                Option::Some(v)
            } else {
                proof {
                    assert(!is_digit(t@[run_end(t@, 0)]));
                }
                Option::None
            }
        },
        Option::None => {
            proof {
                if duration_val(t@) is Some {
                    lemma_run_end(t@, 0, t@.len() as int);
                    assert(t@.subrange(0, t@.len() as int) =~= t@);
                }
            }
            Option::None
        },
    }
}

/// Whether every character of the title is blank space.
pub open spec fn all_blank(t: Seq<char>) -> bool {
    forall|i: int|
        0 <= i < t.len() ==> ((#[trigger] t[i]) == ' ' || t[i] == '\t' || t[i] == '\n' || t[i]
            == '\r')
}

fn title_blank(t: &Vec<char>) -> (r: bool)
    ensures
        r == all_blank(t@),
{
    let mut i: usize = 0;
    while i < t.len()
        invariant
            i <= t@.len(),
            forall|j: int|
                0 <= j < i ==> ((#[trigger] t@[j]) == ' ' || t@[j] == '\t' || t@[j] == '\n'
                    || t@[j] == '\r'),
        decreases t@.len() - i,
    {
        let c = t[i];
        if !(c == ' ' || c == '\t' || c == '\n' || c == '\r') {
            return false;
        }
        i = i + 1;
    }
    true
}

/// Why a draft was rejected.
#[derive(Clone, Copy, Debug, PartialEq, Eq, Structural)]
pub enum ValidationError {
    EmptyTitle,
    BadDate,
    BadDuration,
    NonPositiveDuration,
    BadRecurrence,
}

/// What validation decides, in order: a blank title, an unparsable start
/// date, an unparsable duration, a non-positive duration, then an
/// unrecognized recurrence keyword; otherwise the draft is acceptable.
pub open spec fn spec_validate(f: EventForm) -> Result<(), ValidationError> {
    if all_blank(f.title@) {
        Result::Err(ValidationError::EmptyTitle)
    } else if parse_dt_spec(f.start@) is None {
        Result::Err(ValidationError::BadDate)
    } else if duration_val(f.duration@) is None {
        Result::Err(ValidationError::BadDuration)
    } else if duration_val(f.duration@).unwrap() == 0 {
        Result::Err(ValidationError::NonPositiveDuration)
    } else if !rec_text_ok(f.recurrence@) {
        Result::Err(ValidationError::BadRecurrence)
    } else {
        Result::Ok(())
    }
}

impl EventForm {
    /// Check the draft; rejection names the first failing field.
    pub fn validate(&self) -> (r: Result<(), ValidationError>)
        ensures
            r == spec_validate(*self),
    {
        if title_blank(&self.title) {
            return Result::Err(ValidationError::EmptyTitle);
        }
        if parse_datetime(&self.start).is_none() {
            return Result::Err(ValidationError::BadDate);
        }
        match parse_duration(&self.duration) {
            Option::None => {
                return Result::Err(ValidationError::BadDuration);
            },
            Option::Some(h) => {
                if h == 0 {
                    proof {
                        lemma_digits_val_take(self.duration@, 0);
                    }
                    return Result::Err(ValidationError::NonPositiveDuration);
                }
            },
        }
        let l = lower_text(&self.recurrence);
        let none_kw: Vec<char> = vec!['n', 'o', 'n', 'e'];
        let once_kw: Vec<char> = vec!['o', 'n', 'c', 'e'];
        let daily: Vec<char> = vec!['d', 'a', 'i', 'l', 'y'];
        let weekly: Vec<char> = vec!['w', 'e', 'e', 'k', 'l', 'y'];
        let biweekly: Vec<char> = vec!['b', 'i', 'w', 'e', 'e', 'k', 'l', 'y'];
        let monthly: Vec<char> = vec!['m', 'o', 'n', 't', 'h', 'l', 'y'];
        let yearly: Vec<char> = vec!['y', 'e', 'a', 'r', 'l', 'y'];
        proof {
            assert(none_kw@ =~= kw_none());
            assert(once_kw@ =~= kw_once());
            assert(daily@ =~= kw_daily());
            assert(weekly@ =~= kw_weekly());
            assert(biweekly@ =~= kw_biweekly());
            assert(monthly@ =~= kw_monthly());
            assert(yearly@ =~= kw_yearly());
        }
        let ok = self.recurrence.len() == 0 || chars_eq(&l, &none_kw) || chars_eq(&l, &once_kw)
            || chars_eq(&l, &daily) || chars_eq(&l, &weekly) || chars_eq(&l, &biweekly)
            || chars_eq(&l, &monthly) || chars_eq(&l, &yearly);
        if !ok {
            return Result::Err(ValidationError::BadRecurrence);
        }
        Result::Ok(())
    }

    /// Build the event the draft describes: the parsed start, an end the
    /// given number of hours later, the color when one was typed, and the
    /// named recurrence.  `None` when the date or duration does not
    /// parse, the duration is zero, or the end would leave the calendar.
    pub fn get_event(&self) -> (r: Option<Event>)
        ensures
            ({
                let dt = parse_dt_spec(self.start@);
                let dur = duration_val(self.duration@);
                if dt is Some && dur is Some && 1 <= dur.unwrap() && dt.unwrap().minutes()
                    + dur.unwrap() * 60 <= max_minutes() {
                    match r {
                        Option::Some(e) => {
                            &&& e.title@ == self.title@
                            &&& e.start == dt.unwrap()
                            &&& e.end.minutes() == dt.unwrap().minutes() + dur.unwrap() * 60
                            &&& opt_text(e.color) == (if self.color@.len() == 0 {
                                Option::<Seq<char>>::None
                            } else {
                                Option::Some(self.color@)
                            })
                            &&& e.recurrence == rec_of_text(self.recurrence@)
                            &&& e.wf()
                        },
                        Option::None => false,
                    }
                } else {
                    r is None
                }
            }),
    {
        let start = match parse_datetime(&self.start) {
            Option::Some(d) => d,
            Option::None => {
                return Option::None;
            },
        };
        let hours = match parse_duration(&self.duration) {
            Option::Some(h) => h,
            Option::None => {
                return Option::None;
            },
        };
        proof {
            if duration_val(self.duration@) is Some {
                lemma_digits_val_take(self.duration@, 0);
            }
        }
        if hours == 0 {
            return Option::None;
        }
        let mins = match hours.checked_mul(60) {
            Option::Some(m) => m,
            Option::None => {
                proof {
                    crate::date::lemma_day_num_le_max(start);
                    crate::date::lemma_day_num_bounds(
                        DateTime { year: 9999, month: 12, day: 31, hour: 23, minute: 59 },
                    );
                }
                return Option::None;
            },
        };
        let end = match start.add_minutes(mins) {
            Option::Some(e) => e,
            Option::None => {
                return Option::None;
            },
        };
        let color: Option<String> = if self.color.len() == 0 {
            Option::None
        } else {
            Option::Some(chars_to_string(&self.color))
        };
        let recurrence = rec_from_text(&self.recurrence);
        proof {
            crate::date::lemma_day_num_le_max(end);
        }
        Option::Some(
            Event { title: chars_to_string(&self.title), start, end, color, recurrence },
        )
    }
}

/// The sixteen characters spelling a timestamp, `YYYY-MM-DD HH:MM`.
pub open spec fn fmt_dt(d: DateTime) -> Seq<char> {
    seq![
        crate::text::digit_char(d.year as int / 1000),
        crate::text::digit_char(d.year as int / 100 % 10),
        crate::text::digit_char(d.year as int / 10 % 10),
        crate::text::digit_char(d.year as int % 10),
        '-',
        crate::text::digit_char(d.month as int / 10),
        crate::text::digit_char(d.month as int % 10),
        '-',
        crate::text::digit_char(d.day as int / 10),
        crate::text::digit_char(d.day as int % 10),
        ' ',
        crate::text::digit_char(d.hour as int / 10),
        crate::text::digit_char(d.hour as int % 10),
        ':',
        crate::text::digit_char(d.minute as int / 10),
        crate::text::digit_char(d.minute as int % 10),
    ]
}

/// The display name of a recurrence rule.
pub open spec fn rec_name(r: Recurrence) -> Seq<char> {
    match r {
        Recurrence::Once => seq!['O', 'n', 'c', 'e'],
        Recurrence::Daily => seq!['D', 'a', 'i', 'l', 'y'],
        Recurrence::Weekly => seq!['W', 'e', 'e', 'k', 'l', 'y'],
        Recurrence::Biweekly => seq!['B', 'i', 'w', 'e', 'e', 'k', 'l', 'y'],
        Recurrence::Monthly => seq!['M', 'o', 'n', 't', 'h', 'l', 'y'],
        Recurrence::Yearly => seq!['Y', 'e', 'a', 'r', 'l', 'y'],
    }
}

fn push_two(out: &mut Vec<char>, n: u64)
    requires
        n < 100,
    ensures
        final(out)@ == old(out)@ + seq![
            crate::text::digit_char(n as int / 10),
            crate::text::digit_char(n as int % 10),
        ],
{
    out.push(digit_char_exec(n / 10));
    out.push(digit_char_exec(n % 10));
    proof {
        assert(final(out)@ =~= old(out)@ + seq![
            crate::text::digit_char(n as int / 10),
            crate::text::digit_char(n as int % 10),
        ]);
    }
}

fn digit_char_exec(d: u64) -> (c: char)
    requires
        d < 10,
    ensures
        c == crate::text::digit_char(d as int),
{
    if d == 0 {
        '0'
    } else if d == 1 {
        '1'
    } else if d == 2 {
        '2'
    } else if d == 3 {
        '3'
    } else if d == 4 {
        '4'
    } else if d == 5 {
        '5'
    } else if d == 6 {
        '6'
    } else if d == 7 {
        '7'
    } else if d == 8 {
        '8'
    } else {
        '9'
    }
}

impl EventForm {
    /// A form filled from a stored template, as the basis for an edit:
    /// the formatted start, the duration in whole hours, the color text
    /// and the recurrence name.
    pub fn from_event(e: &Event) -> (f: EventForm)
        requires
            e.wf(),
        ensures
            f.wf(),
            f.active_field == 0,
            f.error_message is None,
            f.title@ == e.title@,
            f.start@ == fmt_dt(e.start),
            f.duration@ == dec_digits(e.duration_min() / 60),
            f.color@ == (match opt_text(e.color) {
                Option::Some(c) => c,
                Option::None => Seq::<char>::empty(),
            }),
            f.recurrence@ == rec_name(e.recurrence),
    {
        let mut start_text: Vec<char> = Vec::new();
        let year: u64 = e.start.year as u64;
        start_text.push(digit_char_exec(year / 1000));
        start_text.push(digit_char_exec(year / 100 % 10));
        start_text.push(digit_char_exec(year / 10 % 10));
        start_text.push(digit_char_exec(year % 10));
        start_text.push('-');
        push_two(&mut start_text, e.start.month as u64);
        start_text.push('-');
        push_two(&mut start_text, e.start.day as u64);
        start_text.push(' ');
        push_two(&mut start_text, e.start.hour as u64);
        start_text.push(':');
        push_two(&mut start_text, e.start.minute as u64);
        proof {
            assert(start_text@ =~= fmt_dt(e.start));
        }
        let hours: u64 = (e.end.to_minutes() - e.start.to_minutes()) / 60;
        let mut dur_text: Vec<char> = Vec::new();
        push_u64(&mut dur_text, hours);
        let color_text: Vec<char> = match &e.color {
            Option::Some(c) => str_to_chars(c.as_str()),
            Option::None => Vec::new(),
        };
        let mut rec_text: Vec<char> = Vec::new();
        match e.recurrence {
            Recurrence::Once => {
                rec_text.push('O');
                rec_text.push('n');
                rec_text.push('c');
                rec_text.push('e');
            },
            Recurrence::Daily => {
                rec_text.push('D');
                rec_text.push('a');
                rec_text.push('i');
                rec_text.push('l');
                rec_text.push('y');
            },
            Recurrence::Weekly => {
                rec_text.push('W');
                rec_text.push('e');
                rec_text.push('e');
                rec_text.push('k');
                rec_text.push('l');
                rec_text.push('y');
            },
            Recurrence::Biweekly => {
                rec_text.push('B');
                rec_text.push('i');
                rec_text.push('w');
                rec_text.push('e');
                rec_text.push('e');
                rec_text.push('k');
                rec_text.push('l');
                rec_text.push('y');
            },
            Recurrence::Monthly => {
                rec_text.push('M');
                rec_text.push('o');
                rec_text.push('n');
                rec_text.push('t');
                rec_text.push('h');
                rec_text.push('l');
                rec_text.push('y');
            },
            Recurrence::Yearly => {
                rec_text.push('Y');
                rec_text.push('e');
                rec_text.push('a');
                rec_text.push('r');
                rec_text.push('l');
                rec_text.push('y');
            },
        }
        proof {
            assert(rec_text@ =~= rec_name(e.recurrence));
        }
        EventForm {
            title: str_to_chars(e.title.as_str()),
            start: start_text,
            duration: dur_text,
            color: color_text,
            recurrence: rec_text,
            active_field: 0,
            error_message: Option::None,
        }
    }
}

/// A short account of a validation failure, for the form's error line.
pub fn describe_error(e: &ValidationError) -> (s: String)
    ensures
        match *e {
            ValidationError::EmptyTitle => s@ == "The title must not be empty."@,
            ValidationError::BadDate => s@ == "The start date must look like YYYY-MM-DD HH:MM."@,
            ValidationError::BadDuration => s@ == "The duration must be a number of hours."@,
            ValidationError::NonPositiveDuration => s@
                == "The duration must be greater than zero."@,
            ValidationError::BadRecurrence => s@ == "The recurrence keyword is not recognized."@,
        },
{
    match e {
        ValidationError::EmptyTitle => String::from_str("The title must not be empty."),
        ValidationError::BadDate => String::from_str(
            "The start date must look like YYYY-MM-DD HH:MM.",
        ),
        ValidationError::BadDuration => String::from_str("The duration must be a number of hours."),
        ValidationError::NonPositiveDuration => String::from_str(
            "The duration must be greater than zero.",
        ),
        ValidationError::BadRecurrence => String::from_str(
            "The recurrence keyword is not recognized.",
        ),
    }
}

} // verus!
