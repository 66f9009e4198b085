//! The persistence format: a template collection as one line of decimal
//! numbers separated by single spaces — the count, then for each event
//! its start and end fields, a recurrence tag, a color presence flag with
//! the color text, and the title text, text being a length followed by
//! one number per character (its code point).  Saving and parsing are
//! exact inverses on well-formed collections; malformed text parses to
//! nothing.

use vstd::prelude::*;
use crate::date::DateTime;
use crate::event::{Event, Recurrence, same_event, opt_text};
use crate::store::all_wf;
use crate::text::{dec_digits, digits_val, is_digit, run_end, lemma_dec_digits, lemma_run_end,
    push_u64, read_u64, str_to_chars, chars_to_string, char_from_u32};

verus! {

/// One number in the stream: its digits and a closing space.
pub open spec fn ser_u(n: int) -> Seq<char> {
    dec_digits(n) + seq![' ']
}

/// One timestamp: year, month, day, hour, minute.
pub open spec fn ser_dt(d: DateTime) -> Seq<char> {
    ser_u(d.year as int) + ser_u(d.month as int) + ser_u(d.day as int) + ser_u(d.hour as int)
        + ser_u(d.minute as int)
}

/// The stored tag of a recurrence rule.
pub open spec fn rec_code(r: Recurrence) -> int {
    match r {
        Recurrence::Once => 0,
        Recurrence::Daily => 1,
        Recurrence::Weekly => 2,
        Recurrence::Biweekly => 3,
        Recurrence::Monthly => 4,
        Recurrence::Yearly => 5,
    }
}

/// A run of characters, one number per character.
pub open spec fn ser_chars(t: Seq<char>) -> Seq<char>
    decreases t.len(),
{
    if t.len() == 0 {
        Seq::empty()
    } else {
        ser_u(t[0] as u32 as int) + ser_chars(t.drop_first())
    }
}

/// A text: its length, then its characters.
pub open spec fn ser_text(t: Seq<char>) -> Seq<char> {
    ser_u(t.len() as int) + ser_chars(t)
}

/// An optional color tag: a presence flag, then the text when present.
pub open spec fn ser_color(c: Option<Seq<char>>) -> Seq<char> {
    match c {
        Option::None => ser_u(0),
        Option::Some(t) => ser_u(1) + ser_text(t),
    }
}

/// One event record.
pub open spec fn ser_event(e: Event) -> Seq<char> {
    ser_dt(e.start) + ser_dt(e.end) + ser_u(rec_code(e.recurrence)) + ser_color(opt_text(e.color))
        + ser_text(e.title@)
}

/// A run of event records.
pub open spec fn ser_list(s: Seq<Event>) -> Seq<char>
    decreases s.len(),
{
    if s.len() == 0 {
        Seq::empty()
    } else {
        ser_event(s[0]) + ser_list(s.drop_first())
    }
}

/// A whole collection: its length, then its records.
pub open spec fn ser_events(s: Seq<Event>) -> Seq<char> {
    ser_u(s.len() as int) + ser_list(s)
}

/// A template the format can hold and give back: well formed, with text
/// lengths a length field can carry.
pub open spec fn persistable(e: Event) -> bool {
    &&& e.wf()
    &&& e.title@.len() <= u64::MAX
    &&& (e.color matches Option::Some(c) ==> c@.len() <= u64::MAX)
}

pub open spec fn all_persistable(s: Seq<Event>) -> bool {
    forall|i: int| 0 <= i < s.len() ==> persistable(#[trigger] s[i])
}

/// Append one number and its closing space.
fn push_num(out: &mut Vec<char>, n: u64)
    ensures
        final(out)@ == old(out)@ + ser_u(n as int),
{
    push_u64(out, n);
    out.push(' ');
    proof {
        assert(final(out)@ =~= old(out)@ + ser_u(n as int));
    }
}

/// Append one timestamp.
fn push_dt(out: &mut Vec<char>, d: &DateTime)
    ensures
        final(out)@ == old(out)@ + ser_dt(*d),
{
    push_num(out, d.year as u64);
    push_num(out, d.month as u64);
    push_num(out, d.day as u64);
    push_num(out, d.hour as u64);
    push_num(out, d.minute as u64);
    proof {
        assert(final(out)@ =~= old(out)@ + ser_dt(*d));
    }
}

/// Append one text: length, then one number per character.
fn push_text(out: &mut Vec<char>, t: &str)
    ensures
        final(out)@ == old(out)@ + ser_text(t@),
{
    let chars = str_to_chars(t);
    push_num(out, chars.len() as u64);
    let ghost target = old(out)@ + ser_text(t@);
    proof {
        assert(t@.skip(0) =~= t@);
        assert(out@ + ser_chars(t@) =~= target);
    }
    let mut i: usize = 0;
    while i < chars.len()
        invariant
            i <= chars@.len(),
            chars@ == t@,
            out@ + ser_chars(t@.skip(i as int)) == target,
        decreases chars@.len() - i,
    {
        let c = chars[i];
        let code: u32 = c as u32;
        let ghost prev = out@;
        proof {
            let rest = t@.skip(i as int);
            assert(rest.drop_first() =~= t@.skip(i as int + 1));
            assert(rest[0] == t@[i as int]);
            assert(ser_chars(rest) == ser_u(t@[i as int] as u32 as int) + ser_chars(
                t@.skip(i as int + 1),
            ));
        }
        push_num(out, code as u64);
        proof {
            assert(code as int == t@[i as int] as u32 as int);
            assert(out@ == prev + ser_u(t@[i as int] as u32 as int));
            assert(out@ + ser_chars(t@.skip(i as int + 1)) =~= prev + ser_chars(
                t@.skip(i as int),
            ));
        }
        i = i + 1;
    }
    proof {
        assert(t@.skip(t@.len() as int) =~= Seq::<char>::empty());
        assert(final(out)@ =~= final(out)@ + ser_chars(t@.skip(t@.len() as int)));
    }
}

/// Append one event record.
fn push_event(out: &mut Vec<char>, e: &Event)
    ensures
        final(out)@ == old(out)@ + ser_event(*e),
{
    push_dt(out, &e.start);
    push_dt(out, &e.end);
    let code: u64 = match e.recurrence {
        Recurrence::Once => 0,
        Recurrence::Daily => 1,
        Recurrence::Weekly => 2,
        Recurrence::Biweekly => 3,
        Recurrence::Monthly => 4,
        Recurrence::Yearly => 5,
    };
    push_num(out, code);
    match &e.color {
        Option::None => {
            push_num(out, 0);
        },
        Option::Some(c) => {
            push_num(out, 1);
            push_text(out, c.as_str());
        },
    }
    push_text(out, e.title.as_str());
    proof {
        assert(final(out)@ =~= old(out)@ + ser_event(*e));
    }
}

/// When `a + b` starts a text, `a` starts it and `b` starts the rest.
proof fn lemma_prefix_split(a: Seq<char>, b: Seq<char>, t: Seq<char>)
    requires
        (a + b).is_prefix_of(t),
    ensures
        a.is_prefix_of(t),
        b.is_prefix_of(t.skip(a.len() as int)),
{
    let ab = a + b;
    assert(ab =~= t.subrange(0, ab.len() as int));
    assert(a =~= t.subrange(0, a.len() as int));
    assert forall|j: int| 0 <= j < b.len() implies b[j] == t.skip(a.len() as int)[j] by {
        assert(b[j] == ab[a.len() + j]);
        assert(ab[a.len() + j] == t[a.len() + j]);
    }
    assert(b =~= t.skip(a.len() as int).subrange(0, b.len() as int));
}

/// Read one number and its closing space.
fn read_num(s: &Vec<char>, pos: usize) -> (r: Option<(u64, usize)>)
    requires
        pos <= s@.len(),
    ensures
        r matches Option::Some(v) ==> pos < v.1 <= s@.len(),
        forall|n: int|
            0 <= n <= u64::MAX && (#[trigger] ser_u(n)).is_prefix_of(s@.skip(pos as int)) ==> r
                == Option::Some((n as u64, (pos + ser_u(n).len()) as usize)),
{
    let r0 = read_u64(s, pos);
    let res: Option<(u64, usize)> = match r0 {
        Option::Some((v, p2)) => {
            proof {
                crate::text::lemma_run_end_bounds(s@, pos as int);
                crate::text::lemma_run_end_bounds(s@, pos as int + 1);
            }
            if p2 < s.len() {
                let c = s[p2];
                if c == ' ' {
                    Option::Some((v, p2 + 1))
                } else {
                    Option::None
                }
            } else {
                Option::None
            }
        },
        Option::None => Option::None,
    };
    proof {
        assert forall|n: int|
            0 <= n <= u64::MAX && (#[trigger] ser_u(n)).is_prefix_of(
                s@.skip(pos as int),
            ) implies res == Option::Some((n as u64, (pos + ser_u(n).len()) as usize)) by {
            lemma_dec_digits(n);
            let dig = dec_digits(n);
            let ll = dig.len() as int;
            let t = s@.skip(pos as int);
            assert(ser_u(n) =~= t.subrange(0, ll + 1));
            assert forall|k: int| pos <= k < pos + ll implies is_digit(#[trigger] s@[k]) by {
                assert(s@[k] == t[k - pos]);
                assert(t[k - pos] == ser_u(n)[k - pos]);
                assert(ser_u(n)[k - pos] == dig[k - pos]);
            }
            assert(s@[pos + ll] == ser_u(n)[ll]);
            assert(s@[pos + ll] == ' ');
            assert(!is_digit(' '));
            lemma_run_end(s@, pos as int, pos + ll);
            assert forall|k: int|
                0 <= k < ll implies s@.subrange(pos as int, pos + ll)[k] == dig[k] by {
                assert(s@.subrange(pos as int, pos + ll)[k] == s@[pos + k]);
                assert(s@[pos + k] == t[k]);
                assert(t[k] == ser_u(n)[k]);
            }
            assert(s@.subrange(pos as int, pos + ll) =~= dig);
            assert(is_digit(s@[pos as int]));
            assert(digits_val(s@.subrange(pos as int, pos + ll)) == n);
            assert(r0 == Option::Some((n as u64, (pos + ll) as usize)));
        }
    }
    res
}

/// A timestamp's record decomposes into its five number fields.
proof fn lemma_dt_prefix(d: DateTime, s: Seq<char>, pos: int)
    requires
        0 <= pos <= s.len(),
        ser_dt(d).is_prefix_of(s.skip(pos)),
    ensures
        ser_u(d.year as int).is_prefix_of(s.skip(pos)),
        ser_u(d.month as int).is_prefix_of(s.skip(pos + ser_u(d.year as int).len())),
        ser_u(d.day as int).is_prefix_of(
            s.skip(pos + ser_u(d.year as int).len() + ser_u(d.month as int).len()),
        ),
        ser_u(d.hour as int).is_prefix_of(
            s.skip(
                pos + ser_u(d.year as int).len() + ser_u(d.month as int).len() + ser_u(
                    d.day as int,
                ).len(),
            ),
        ),
        ser_u(d.minute as int).is_prefix_of(
            s.skip(
                pos + ser_u(d.year as int).len() + ser_u(d.month as int).len() + ser_u(
                    d.day as int,
                ).len() + ser_u(d.hour as int).len(),
            ),
        ),
        ser_dt(d).len() == ser_u(d.year as int).len() + ser_u(d.month as int).len() + ser_u(
            d.day as int,
        ).len() + ser_u(d.hour as int).len() + ser_u(d.minute as int).len(),
{
    let t = s.skip(pos);
    let a1 = ser_u(d.year as int);
    let a2 = ser_u(d.month as int);
    let a3 = ser_u(d.day as int);
    let a4 = ser_u(d.hour as int);
    let a5 = ser_u(d.minute as int);
    assert(ser_dt(d) =~= a1 + (a2 + (a3 + (a4 + a5))));
    lemma_prefix_split(a1, a2 + (a3 + (a4 + a5)), t);
    assert(t.skip(a1.len() as int) =~= s.skip(pos + a1.len()));
    lemma_prefix_split(a2, a3 + (a4 + a5), s.skip(pos + a1.len()));
    assert(s.skip(pos + a1.len()).skip(a2.len() as int) =~= s.skip(pos + a1.len() + a2.len()));
    lemma_prefix_split(a3, a4 + a5, s.skip(pos + a1.len() + a2.len()));
    assert(s.skip(pos + a1.len() + a2.len()).skip(a3.len() as int) =~= s.skip(
        pos + a1.len() + a2.len() + a3.len(),
    ));
    lemma_prefix_split(a4, a5, s.skip(pos + a1.len() + a2.len() + a3.len()));
    assert(s.skip(pos + a1.len() + a2.len() + a3.len()).skip(a4.len() as int) =~= s.skip(
        pos + a1.len() + a2.len() + a3.len() + a4.len(),
    ));
}

/// Read one timestamp, with its fields checked against the calendar.
#[verifier::rlimit(60)]
fn read_dt(s: &Vec<char>, pos: usize) -> (r: Option<(DateTime, usize)>)
    requires
        pos <= s@.len(),
    ensures
        r matches Option::Some(v) ==> pos < v.1 <= s@.len() && v.0.valid(),
        forall|d: DateTime|
            d.valid() && (#[trigger] ser_dt(d)).is_prefix_of(s@.skip(pos as int)) ==> r
                == Option::Some((d, (pos + ser_dt(d).len()) as usize)),
{
    let (y, p1) = match read_num(s, pos) {
        Option::Some(x) => x,
        Option::None => {
            proof {
                assert forall|d: DateTime|
                    !(d.valid() && (#[trigger] ser_dt(d)).is_prefix_of(s@.skip(pos as int))) by {
                    if d.valid() && ser_dt(d).is_prefix_of(s@.skip(pos as int)) {
                        vstd::std_specs::vec::axiom_spec_len(s);
                        assert(pos + ser_dt(d).len() <= s@.len());
                        lemma_dt_prefix(d, s@, pos as int);
                        assert(false);
                    }
                }
            }
            return Option::None;
        },
    };
    let (mo, p2) = match read_num(s, p1) {
        Option::Some(x) => x,
        Option::None => {
            proof {
                assert forall|d: DateTime|
                    !(d.valid() && (#[trigger] ser_dt(d)).is_prefix_of(s@.skip(pos as int))) by {
                    if d.valid() && ser_dt(d).is_prefix_of(s@.skip(pos as int)) {
                        vstd::std_specs::vec::axiom_spec_len(s);
                        assert(pos + ser_dt(d).len() <= s@.len());
                        lemma_dt_prefix(d, s@, pos as int);
                        assert(false);
                    }
                }
            }
            return Option::None;
        },
    };
    let (da, p3) = match read_num(s, p2) {
        Option::Some(x) => x,
        Option::None => {
            proof {
                assert forall|d: DateTime|
                    !(d.valid() && (#[trigger] ser_dt(d)).is_prefix_of(s@.skip(pos as int))) by {
                    if d.valid() && ser_dt(d).is_prefix_of(s@.skip(pos as int)) {
                        vstd::std_specs::vec::axiom_spec_len(s);
                        assert(pos + ser_dt(d).len() <= s@.len());
                        lemma_dt_prefix(d, s@, pos as int);
                        assert(false);
                    }
                }
            }
            return Option::None;
        },
    };
    let (ho, p4) = match read_num(s, p3) {
        Option::Some(x) => x,
        Option::None => {
            proof {
                assert forall|d: DateTime|
                    !(d.valid() && (#[trigger] ser_dt(d)).is_prefix_of(s@.skip(pos as int))) by {
                    if d.valid() && ser_dt(d).is_prefix_of(s@.skip(pos as int)) {
                        vstd::std_specs::vec::axiom_spec_len(s);
                        assert(pos + ser_dt(d).len() <= s@.len());
                        lemma_dt_prefix(d, s@, pos as int);
                        assert(false);
                    }
                }
            }
            return Option::None;
        },
    };
    let (mi, p5) = match read_num(s, p4) {
        Option::Some(x) => x,
        Option::None => {
            proof {
                assert forall|d: DateTime|
                    !(d.valid() && (#[trigger] ser_dt(d)).is_prefix_of(s@.skip(pos as int))) by {
                    if d.valid() && ser_dt(d).is_prefix_of(s@.skip(pos as int)) {
                        vstd::std_specs::vec::axiom_spec_len(s);
                        assert(pos + ser_dt(d).len() <= s@.len());
                        lemma_dt_prefix(d, s@, pos as int);
                        assert(false);
                    }
                }
            }
            return Option::None;
        },
    };
    let fields_ok: bool = 1 <= y && y <= 9999 && 1 <= mo && mo <= 12 && 1 <= da && ho <= 23 && mi
        <= 59 && da <= crate::date::month_days(y as u16, mo as u8) as u64;
    proof {
        assert forall|d: DateTime|
            d.valid() && (#[trigger] ser_dt(d)).is_prefix_of(s@.skip(pos as int)) implies ({
            &&& y == d.year && mo == d.month && da == d.day && ho == d.hour && mi == d.minute
            &&& p5 == pos + ser_dt(d).len()
        }) by {
            vstd::std_specs::vec::axiom_spec_len(s);
            assert(pos + ser_dt(d).len() <= s@.len());
            lemma_dt_prefix(d, s@, pos as int);
        }
    }
    if !fields_ok {
        return Option::None;
    }
    let dt = DateTime {
        year: y as u16,
        month: mo as u8,
        day: da as u8,
        hour: ho as u8,
        minute: mi as u8,
    };
    Option::Some((dt, p5))
}

/// Read one text: a length, then that many character codes.
#[verifier::rlimit(60)]
fn read_text(s: &Vec<char>, pos: usize) -> (r: Option<(Vec<char>, usize)>)
    requires
        pos <= s@.len(),
    ensures
        r matches Option::Some(v) ==> pos < v.1 <= s@.len(),
        forall|t: Seq<char>|
            t.len() <= u64::MAX && (#[trigger] ser_text(t)).is_prefix_of(s@.skip(pos as int))
                ==> (r is Some && r.unwrap().0@ == t && r.unwrap().1 as int == pos + ser_text(
                t,
            ).len()),
{
    let (n, p1) = match read_num(s, pos) {
        Option::Some(x) => x,
        Option::None => {
            proof {
                assert forall|t: Seq<char>|
                    !(t.len() <= u64::MAX && (#[trigger] ser_text(t)).is_prefix_of(
                        s@.skip(pos as int),
                    )) by {
                    if t.len() <= u64::MAX && ser_text(t).is_prefix_of(s@.skip(pos as int)) {
                        lemma_prefix_split(
                            ser_u(t.len() as int),
                            ser_chars(t),
                            s@.skip(pos as int),
                        );
                        assert(false);
                    }
                }
            }
            return Option::None;
        },
    };
    let mut out: Vec<char> = Vec::new();
    let mut p: usize = p1;
    let mut k: u64 = 0;
    proof {
        vstd::std_specs::vec::axiom_spec_len(s);
        assert forall|t: Seq<char>|
            t.len() <= u64::MAX && (#[trigger] ser_text(t)).is_prefix_of(
                s@.skip(pos as int),
            ) implies {
            &&& n as int == t.len()
            &&& out@ == t.take(0)
            &&& ser_chars(t.skip(0)).is_prefix_of(s@.skip(p as int))
            &&& p + ser_chars(t.skip(0)).len() == pos + ser_text(t).len()
        } by {
            lemma_prefix_split(ser_u(t.len() as int), ser_chars(t), s@.skip(pos as int));
            assert(pos + ser_text(t).len() <= s@.len());
            assert(s@.skip(pos as int).skip(ser_u(t.len() as int).len() as int) =~= s@.skip(
                pos as int + ser_u(t.len() as int).len(),
            ));
            assert(t.skip(0) =~= t);
            assert(out@ =~= t.take(0));
        }
    }
    while k < n
        invariant
            pos < p <= s@.len(),
            k <= n,
            out@.len() == k,
            forall|t: Seq<char>|
                t.len() <= u64::MAX && (#[trigger] ser_text(t)).is_prefix_of(s@.skip(pos as int))
                    ==> {
                    &&& n as int == t.len()
                    &&& out@ == t.take(k as int)
                    &&& ser_chars(t.skip(k as int)).is_prefix_of(s@.skip(p as int))
                    &&& p + ser_chars(t.skip(k as int)).len() == pos + ser_text(t).len()
                },
        decreases n - k,
    {
        let rn = read_num(s, p);
        let (code, p2) = match rn {
            Option::Some(x) => x,
            Option::None => {
                proof {
                    assert forall|t: Seq<char>|
                        !(t.len() <= u64::MAX && (#[trigger] ser_text(t)).is_prefix_of(
                            s@.skip(pos as int),
                        )) by {
                        if t.len() <= u64::MAX && ser_text(t).is_prefix_of(s@.skip(pos as int)) {
                            let rest = t.skip(k as int);
                            assert(rest.len() > 0);
                            assert(ser_chars(rest).is_prefix_of(s@.skip(p as int)));
                            assert(rest.drop_first() =~= t.skip(k as int + 1));
                            assert(ser_chars(rest) == ser_u(rest[0] as u32 as int) + ser_chars(
                                t.skip(k as int + 1),
                            ));
                            lemma_prefix_split(
                                ser_u(rest[0] as u32 as int),
                                ser_chars(t.skip(k as int + 1)),
                                s@.skip(p as int),
                            );
                            assert(ser_u(rest[0] as u32 as int).is_prefix_of(s@.skip(p as int)));
                            assert(0 <= rest[0] as u32 as int <= u64::MAX);
                            assert(rn is Some);
                            assert(false);
                        }
                    }
                }
                return Option::None;
            },
        };
        if code > 0x10FFFF {
            proof {
                assert forall|t: Seq<char>|
                    !(t.len() <= u64::MAX && (#[trigger] ser_text(t)).is_prefix_of(
                        s@.skip(pos as int),
                    )) by {
                    if t.len() <= u64::MAX && ser_text(t).is_prefix_of(s@.skip(pos as int)) {
                        let rest = t.skip(k as int);
                        assert(rest.drop_first() =~= t.skip(k as int + 1));
                        assert(ser_chars(rest) == ser_u(rest[0] as u32 as int) + ser_chars(
                            t.skip(k as int + 1),
                        ));
                        lemma_prefix_split(
                            ser_u(rest[0] as u32 as int),
                            ser_chars(t.skip(k as int + 1)),
                            s@.skip(p as int),
                        );
                        vstd::utf8::char_is_scalar(rest[0]);
                        assert(code == rest[0] as u32 as int);
                        assert(false);
                    }
                }
            }
            return Option::None;
        }
        let c = match char_from_u32(code as u32) {
            Option::Some(c) => c,
            Option::None => {
                proof {
                    assert forall|t: Seq<char>|
                        !(t.len() <= u64::MAX && (#[trigger] ser_text(t)).is_prefix_of(
                            s@.skip(pos as int),
                        )) by {
                        if t.len() <= u64::MAX && ser_text(t).is_prefix_of(s@.skip(pos as int)) {
                            let rest = t.skip(k as int);
                            assert(rest.drop_first() =~= t.skip(k as int + 1));
                            assert(ser_chars(rest) == ser_u(rest[0] as u32 as int) + ser_chars(
                                t.skip(k as int + 1),
                            ));
                            lemma_prefix_split(
                                ser_u(rest[0] as u32 as int),
                                ser_chars(t.skip(k as int + 1)),
                                s@.skip(p as int),
                            );
                            vstd::utf8::char_is_scalar(rest[0]);
                            assert(code == rest[0] as u32 as int);
                            assert(code as u32 == rest[0] as u32);
                            assert(false);
                        }
                    }
                }
                return Option::None;
            },
        };
        out.push(c);
        proof {
            assert forall|t: Seq<char>|
                t.len() <= u64::MAX && (#[trigger] ser_text(t)).is_prefix_of(
                    s@.skip(pos as int),
                ) implies {
                &&& out@ == t.take(k as int + 1)
                &&& ser_chars(t.skip(k as int + 1)).is_prefix_of(s@.skip(p2 as int))
                &&& p2 + ser_chars(t.skip(k as int + 1)).len() == pos + ser_text(t).len()
            } by {
                let rest = t.skip(k as int);
                assert(rest.drop_first() =~= t.skip(k as int + 1));
                assert(ser_chars(rest) == ser_u(rest[0] as u32 as int) + ser_chars(
                    t.skip(k as int + 1),
                ));
                lemma_prefix_split(
                    ser_u(rest[0] as u32 as int),
                    ser_chars(t.skip(k as int + 1)),
                    s@.skip(p as int),
                );
                vstd::utf8::char_is_scalar(rest[0]);
                assert(code == rest[0] as u32 as int);
                assert(code as u32 == rest[0] as u32);
                vstd::utf8::char_u32_cast(rest[0], code as u32);
                vstd::utf8::char_u32_cast(c, c as u32);
                assert(c as u32 == code as u32);
                assert(c == rest[0]);
                assert(ser_chars(rest).len() <= s@.len() - p);
                assert(p + ser_u(rest[0] as u32 as int).len() <= s@.len());
                vstd::std_specs::vec::axiom_spec_len(s);
                assert(s@.len() <= usize::MAX);
                assert(p + ser_u(rest[0] as u32 as int).len() <= usize::MAX);
                assert(p2 as int == p + ser_u(rest[0] as u32 as int).len());
                assert(out@ =~= t.take(k as int + 1));
                assert(s@.skip(p as int).skip(ser_u(rest[0] as u32 as int).len() as int) =~= s@.skip(
                    p as int + ser_u(rest[0] as u32 as int).len(),
                ));
            }
        }
        p = p2;
        k = k + 1;
    }
    proof {
        assert forall|t: Seq<char>|
            t.len() <= u64::MAX && (#[trigger] ser_text(t)).is_prefix_of(
                s@.skip(pos as int),
            ) implies (out@ == t && p as int == pos + ser_text(t).len()) by {
            assert(t.take(t.len() as int) =~= t);
            assert(t.skip(t.len() as int) =~= Seq::<char>::empty());
            assert(ser_chars(t.skip(t.len() as int)).len() == 0);
        }
    }
    Option::Some((out, p))
}

/// An event record decomposes into its parts.
proof fn lemma_event_prefix(e: Event, s: Seq<char>, pos: int)
    requires
        0 <= pos <= s.len(),
        ser_event(e).is_prefix_of(s.skip(pos)),
    ensures
        ({
            let p1 = pos + ser_dt(e.start).len();
            let p2 = p1 + ser_dt(e.end).len();
            let p3 = p2 + ser_u(rec_code(e.recurrence)).len();
            let p4 = p3 + ser_color(opt_text(e.color)).len();
            &&& ser_dt(e.start).is_prefix_of(s.skip(pos))
            &&& ser_dt(e.end).is_prefix_of(s.skip(p1))
            &&& ser_u(rec_code(e.recurrence)).is_prefix_of(s.skip(p2))
            &&& ser_color(opt_text(e.color)).is_prefix_of(s.skip(p3))
            &&& ser_text(e.title@).is_prefix_of(s.skip(p4))
            &&& pos + ser_event(e).len() == p4 + ser_text(e.title@).len()
        }),
{
    let t = s.skip(pos);
    let a = ser_dt(e.start);
    let b = ser_dt(e.end);
    let c = ser_u(rec_code(e.recurrence));
    let d = ser_color(opt_text(e.color));
    let f = ser_text(e.title@);
    assert(ser_event(e) =~= a + (b + (c + (d + f))));
    lemma_prefix_split(a, b + (c + (d + f)), t);
    assert(t.skip(a.len() as int) =~= s.skip(pos + a.len()));
    lemma_prefix_split(b, c + (d + f), s.skip(pos + a.len()));
    assert(s.skip(pos + a.len()).skip(b.len() as int) =~= s.skip(pos + a.len() + b.len()));
    lemma_prefix_split(c, d + f, s.skip(pos + a.len() + b.len()));
    assert(s.skip(pos + a.len() + b.len()).skip(c.len() as int) =~= s.skip(
        pos + a.len() + b.len() + c.len(),
    ));
    lemma_prefix_split(d, f, s.skip(pos + a.len() + b.len() + c.len()));
    assert(s.skip(pos + a.len() + b.len() + c.len()).skip(d.len() as int) =~= s.skip(
        pos + a.len() + b.len() + c.len() + d.len(),
    ));
}

/// Read an event record's two timestamps and recurrence rule.
#[verifier::rlimit(100)]
#[verifier::spinoff_prover]
fn read_event_head(s: &Vec<char>, pos: usize) -> (r: Option<((DateTime, DateTime, Recurrence), usize)>)
    requires
        pos <= s@.len(),
    ensures
        r matches Option::Some(v) ==> pos < v.1 <= s@.len() && v.0.0.valid() && v.0.1.valid()
            && v.0.0.minutes() <= v.0.1.minutes(),
        forall|e: Event|
            persistable(e) && (#[trigger] ser_event(e)).is_prefix_of(s@.skip(pos as int)) ==> (
            r is Some && r.unwrap().0.0 == e.start && r.unwrap().0.1 == e.end && r.unwrap().0.2
                == e.recurrence && r.unwrap().1 as int == pos + ser_dt(e.start).len() + ser_dt(
                e.end,
            ).len() + ser_u(rec_code(e.recurrence)).len()),
{
    proof {
        vstd::std_specs::vec::axiom_spec_len(s);
    }
    let (start, p1) = match read_dt(s, pos) {
        Option::Some(x) => x,
        Option::None => {
            proof {
                assert forall|e: Event|
                    !(persistable(e) && (#[trigger] ser_event(e)).is_prefix_of(
                        s@.skip(pos as int),
                    )) by {
                    if persistable(e) && ser_event(e).is_prefix_of(s@.skip(pos as int)) {
                        lemma_event_prefix(e, s@, pos as int);
                        assert(false);
                    }
                }
            }
            return Option::None;
        },
    };
    let (end, p2) = match read_dt(s, p1) {
        Option::Some(x) => x,
        Option::None => {
            proof {
                assert forall|e: Event|
                    !(persistable(e) && (#[trigger] ser_event(e)).is_prefix_of(
                        s@.skip(pos as int),
                    )) by {
                    if persistable(e) && ser_event(e).is_prefix_of(s@.skip(pos as int)) {
                        lemma_event_prefix(e, s@, pos as int);
                        assert(pos + ser_event(e).len() <= s@.len());
                        assert(p1 as int == pos + ser_dt(e.start).len());
                        assert(false);
                    }
                }
            }
            return Option::None;
        },
    };
    if !start.le(&end) {
        proof {
            assert forall|e: Event|
                !(persistable(e) && (#[trigger] ser_event(e)).is_prefix_of(
                    s@.skip(pos as int),
                )) by {
                if persistable(e) && ser_event(e).is_prefix_of(s@.skip(pos as int)) {
                    lemma_event_prefix(e, s@, pos as int);
                    assert(pos + ser_event(e).len() <= s@.len());
                    assert(p1 as int == pos + ser_dt(e.start).len());
                    assert(start == e.start && end == e.end);
                    assert(false);
                }
            }
        }
        return Option::None;
    }
    let (rc, p3) = match read_num(s, p2) {
        Option::Some(x) => x,
        Option::None => {
            proof {
                assert forall|e: Event|
                    !(persistable(e) && (#[trigger] ser_event(e)).is_prefix_of(
                        s@.skip(pos as int),
                    )) by {
                    if persistable(e) && ser_event(e).is_prefix_of(s@.skip(pos as int)) {
                        lemma_event_prefix(e, s@, pos as int);
                        assert(pos + ser_event(e).len() <= s@.len());
                        assert(p1 as int == pos + ser_dt(e.start).len());
                        assert(p2 as int == pos + ser_dt(e.start).len() + ser_dt(e.end).len());
                        assert(false);
                    }
                }
            }
            return Option::None;
        },
    };
    let rec: Recurrence = if rc == 0 {
        Recurrence::Once
    } else if rc == 1 {
        Recurrence::Daily
    } else if rc == 2 {
        Recurrence::Weekly
    } else if rc == 3 {
        Recurrence::Biweekly
    } else if rc == 4 {
        Recurrence::Monthly
    } else if rc == 5 {
        Recurrence::Yearly
    } else {
        proof {
            assert forall|e: Event|
                !(persistable(e) && (#[trigger] ser_event(e)).is_prefix_of(
                    s@.skip(pos as int),
                )) by {
                if persistable(e) && ser_event(e).is_prefix_of(s@.skip(pos as int)) {
                    lemma_event_prefix(e, s@, pos as int);
                    assert(pos + ser_event(e).len() <= s@.len());
                    assert(p1 as int == pos + ser_dt(e.start).len());
                    assert(p2 as int == pos + ser_dt(e.start).len() + ser_dt(e.end).len());
                    assert(rc as int == rec_code(e.recurrence));
                    assert(false);
                }
            }
        }
        return Option::None;
    };
    proof {
        assert forall|e: Event|
            persistable(e) && (#[trigger] ser_event(e)).is_prefix_of(
                s@.skip(pos as int),
            ) implies (start == e.start && end == e.end && rec == e.recurrence && p3 as int == pos
            + ser_dt(e.start).len() + ser_dt(e.end).len() + ser_u(
            rec_code(e.recurrence),
        ).len()) by {
            lemma_event_prefix(e, s@, pos as int);
            assert(pos + ser_event(e).len() <= s@.len());
            assert(p1 as int == pos + ser_dt(e.start).len());
            assert(p2 as int == pos + ser_dt(e.start).len() + ser_dt(e.end).len());
            assert(rc as int == rec_code(e.recurrence));
            assert(rec == e.recurrence);
        }
    }
    Option::Some(((start, end, rec), p3))
}

/// Read an optional color tag: a presence flag, then the text.
#[verifier::rlimit(100)]
#[verifier::spinoff_prover]
fn read_flagged_text(s: &Vec<char>, pos: usize) -> (r: Option<(Option<String>, usize)>)
    requires
        pos <= s@.len(),
    ensures
        r matches Option::Some(v) ==> pos < v.1 <= s@.len(),
        forall|c: Option<Seq<char>>|
            (c matches Option::Some(t) ==> t.len() <= u64::MAX) && (#[trigger] ser_color(
                c,
            )).is_prefix_of(s@.skip(pos as int)) ==> (r is Some && opt_text(r.unwrap().0) == c
                && r.unwrap().1 as int == pos + ser_color(c).len()),
{
    proof {
        vstd::std_specs::vec::axiom_spec_len(s);
    }
    let (flag, p1) = match read_num(s, pos) {
        Option::Some(x) => x,
        Option::None => {
            proof {
                assert forall|c: Option<Seq<char>>|
                    !((c matches Option::Some(t) ==> t.len() <= u64::MAX) && (#[trigger] ser_color(
                        c,
                    )).is_prefix_of(s@.skip(pos as int))) by {
                    if (c matches Option::Some(t) ==> t.len() <= u64::MAX) && ser_color(
                        c,
                    ).is_prefix_of(s@.skip(pos as int)) {
                        match c {
                            Option::None => {},
                            Option::Some(t) => {
                                lemma_prefix_split(ser_u(1), ser_text(t), s@.skip(pos as int));
                            },
                        }
                        assert(false);
                    }
                }
            }
            return Option::None;
        },
    };
    if flag == 0 {
        proof {
            assert forall|c: Option<Seq<char>>|
                (c matches Option::Some(t) ==> t.len() <= u64::MAX) && (#[trigger] ser_color(
                    c,
                )).is_prefix_of(s@.skip(pos as int)) implies (c is None && p1 as int == pos
                + ser_color(c).len()) by {
                match c {
                    Option::Some(t) => {
                        lemma_prefix_split(ser_u(1), ser_text(t), s@.skip(pos as int));
                    },
                    Option::None => {},
                }
            }
        }
        return Option::Some((Option::None, p1));
    }
    if flag != 1 {
        proof {
            assert forall|c: Option<Seq<char>>|
                !((c matches Option::Some(t) ==> t.len() <= u64::MAX) && (#[trigger] ser_color(
                    c,
                )).is_prefix_of(s@.skip(pos as int))) by {
                if (c matches Option::Some(t) ==> t.len() <= u64::MAX) && ser_color(
                    c,
                ).is_prefix_of(s@.skip(pos as int)) {
                    match c {
                        Option::Some(t) => {
                            lemma_prefix_split(ser_u(1), ser_text(t), s@.skip(pos as int));
                        },
                        Option::None => {},
                    }
                    assert(false);
                }
            }
        }
        return Option::None;
    }
    match read_text(s, p1) {
        Option::Some((cv, p2)) => {
            let ctext = chars_to_string(&cv);
            proof {
                assert forall|c: Option<Seq<char>>|
                    (c matches Option::Some(t) ==> t.len() <= u64::MAX) && (#[trigger] ser_color(
                        c,
                    )).is_prefix_of(s@.skip(pos as int)) implies (c matches Option::Some(t)
                    && ctext@ == t && p2 as int == pos + ser_color(c).len()) by {
                    match c {
                        Option::None => {},
                        Option::Some(t) => {
                            lemma_prefix_split(ser_u(1), ser_text(t), s@.skip(pos as int));
                            assert(pos + ser_color(c).len() <= s@.len());
                            assert(s@.skip(pos as int).skip(ser_u(1).len() as int) =~= s@.skip(
                                pos + ser_u(1).len(),
                            ));
                            assert(p1 as int == pos + ser_u(1).len());
                        },
                    }
                }
            }
            Option::Some((Option::Some(ctext), p2))
        },
        Option::None => {
            proof {
                assert forall|c: Option<Seq<char>>|
                    !((c matches Option::Some(t) ==> t.len() <= u64::MAX) && (#[trigger] ser_color(
                        c,
                    )).is_prefix_of(s@.skip(pos as int))) by {
                    if (c matches Option::Some(t) ==> t.len() <= u64::MAX) && ser_color(
                        c,
                    ).is_prefix_of(s@.skip(pos as int)) {
                        match c {
                            Option::None => {},
                            Option::Some(t) => {
                                lemma_prefix_split(ser_u(1), ser_text(t), s@.skip(pos as int));
                                assert(pos + ser_color(c).len() <= s@.len());
                                assert(s@.skip(pos as int).skip(ser_u(1).len() as int) =~= s@.skip(
                                    pos + ser_u(1).len(),
                                ));
                                assert(p1 as int == pos + ser_u(1).len());
                            },
                        }
                        assert(false);
                    }
                }
            }
            Option::None
        },
    }
}

/// Read one event record, checked to be well formed.
#[verifier::rlimit(100)]
#[verifier::spinoff_prover]
fn read_event(s: &Vec<char>, pos: usize) -> (r: Option<(Event, usize)>)
    requires
        pos <= s@.len(),
    ensures
        r matches Option::Some(v) ==> pos < v.1 <= s@.len() && v.0.wf(),
        forall|e: Event|
            persistable(e) && (#[trigger] ser_event(e)).is_prefix_of(s@.skip(pos as int)) ==> (
            r is Some && same_event(r.unwrap().0, e) && r.unwrap().1 as int == pos + ser_event(
                e,
            ).len()),
{
    proof {
        vstd::std_specs::vec::axiom_spec_len(s);
    }
    let ((start, end, rec), p3) = match read_event_head(s, pos) {
        Option::Some(x) => x,
        Option::None => {
            return Option::None;
        },
    };
    let (color, p5) = match read_flagged_text(s, p3) {
        Option::Some(x) => x,
        Option::None => {
            proof {
                assert forall|e: Event|
                    !(persistable(e) && (#[trigger] ser_event(e)).is_prefix_of(
                        s@.skip(pos as int),
                    )) by {
                    if persistable(e) && ser_event(e).is_prefix_of(s@.skip(pos as int)) {
                        lemma_event_prefix(e, s@, pos as int);
                        assert(pos + ser_event(e).len() <= s@.len());
                        assert(ser_color(opt_text(e.color)).is_prefix_of(s@.skip(p3 as int)));
                        assert(false);
                    }
                }
            }
            return Option::None;
        },
    };
    let (tv, p6) = match read_text(s, p5) {
        Option::Some(x) => x,
        Option::None => {
            proof {
                assert forall|e: Event|
                    !(persistable(e) && (#[trigger] ser_event(e)).is_prefix_of(
                        s@.skip(pos as int),
                    )) by {
                    if persistable(e) && ser_event(e).is_prefix_of(s@.skip(pos as int)) {
                        lemma_event_prefix(e, s@, pos as int);
                        assert(pos + ser_event(e).len() <= s@.len());
                        assert(ser_color(opt_text(e.color)).is_prefix_of(s@.skip(p3 as int)));
                        assert(p5 as int == p3 + ser_color(opt_text(e.color)).len());
                        assert(ser_text(e.title@).is_prefix_of(s@.skip(p5 as int)));
                        assert(false);
                    }
                }
            }
            return Option::None;
        },
    };
    let title = chars_to_string(&tv);
    let ev = Event { title, start, end, color, recurrence: rec };
    proof {
        assert forall|e: Event|
            persistable(e) && (#[trigger] ser_event(e)).is_prefix_of(
                s@.skip(pos as int),
            ) implies (same_event(ev, e) && p6 as int == pos + ser_event(e).len()) by {
            lemma_event_prefix(e, s@, pos as int);
            assert(pos + ser_event(e).len() <= s@.len());
            assert(start == e.start && end == e.end && rec == e.recurrence);
            assert(ser_color(opt_text(e.color)).is_prefix_of(s@.skip(p3 as int)));
            assert(opt_text(color) == opt_text(e.color));
            assert(p5 as int == p3 + ser_color(opt_text(e.color)).len());
            assert(ser_text(e.title@).is_prefix_of(s@.skip(p5 as int)));
            assert(tv@ == e.title@);
            assert(p6 as int == p5 + ser_text(e.title@).len());
        }
    }
    Option::Some((ev, p6))
}

/// Parse a persisted collection.  Saved text comes back as the saved
/// events, field for field; any other text yields `None`.
#[verifier::rlimit(60)]
pub fn parse_events(s: &Vec<char>) -> (r: Option<Vec<Event>>)
    ensures
        r matches Option::Some(v) ==> all_wf(v@),
        forall|evs: Seq<Event>|
            all_persistable(evs) && evs.len() <= u64::MAX && s@ == (#[trigger] ser_events(evs))
                ==> (r is Some && r.unwrap()@.len() == evs.len() && (forall|i: int|
                0 <= i < evs.len() ==> same_event(r.unwrap()@[i], #[trigger] evs[i]))),
{
    let (n, p0) = match read_num(s, 0) {
        Option::Some(x) => x,
        Option::None => {
            proof {
                assert forall|evs: Seq<Event>|
                    !(all_persistable(evs) && evs.len() <= u64::MAX && s@ == (
                    #[trigger] ser_events(evs))) by {
                    if all_persistable(evs) && evs.len() <= u64::MAX && s@ == ser_events(evs) {
                        assert(s@.skip(0) =~= s@);
                        lemma_prefix_split(ser_u(evs.len() as int), ser_list(evs), s@.skip(0));
                        assert(false);
                    }
                }
            }
            return Option::None;
        },
    };
    let mut out: Vec<Event> = Vec::new();
    let mut p: usize = p0;
    let mut k: u64 = 0;
    proof {
        vstd::std_specs::vec::axiom_spec_len(s);
        assert forall|evs: Seq<Event>|
            all_persistable(evs) && evs.len() <= u64::MAX && s@ == (
            #[trigger] ser_events(evs)) implies {
            &&& n as int == evs.len()
            &&& ser_list(evs.skip(0)).is_prefix_of(s@.skip(p as int))
            &&& p + ser_list(evs.skip(0)).len() == ser_events(evs).len()
        } by {
            assert(s@.skip(0) =~= s@);
            lemma_prefix_split(ser_u(evs.len() as int), ser_list(evs), s@.skip(0));
            assert(s@.skip(0).skip(ser_u(evs.len() as int).len() as int) =~= s@.skip(
                ser_u(evs.len() as int).len() as int,
            ));
            assert(evs.skip(0) =~= evs);
        }
    }
    while k < n
        invariant
            p <= s@.len(),
            k <= n,
            out@.len() == k,
            all_wf(out@),
            forall|evs: Seq<Event>|
                all_persistable(evs) && evs.len() <= u64::MAX && s@ == (#[trigger] ser_events(evs))
                    ==> {
                    &&& n as int == evs.len()
                    &&& (forall|i: int| 0 <= i < k ==> same_event(out@[i], #[trigger] evs[i]))
                    &&& ser_list(evs.skip(k as int)).is_prefix_of(s@.skip(p as int))
                    &&& p + ser_list(evs.skip(k as int)).len() == ser_events(evs).len()
                },
        decreases n - k,
    {
        let (ev, p2) = match read_event(s, p) {
            Option::Some(x) => x,
            Option::None => {
                proof {
                    assert forall|evs: Seq<Event>|
                        !(all_persistable(evs) && evs.len() <= u64::MAX && s@ == (
                        #[trigger] ser_events(evs))) by {
                        if all_persistable(evs) && evs.len() <= u64::MAX && s@ == ser_events(
                            evs,
                        ) {
                            let rest = evs.skip(k as int);
                            assert(rest.drop_first() =~= evs.skip(k as int + 1));
                            assert(rest[0] == evs[k as int]);
                            assert(ser_list(rest) == ser_event(evs[k as int]) + ser_list(
                                evs.skip(k as int + 1),
                            ));
                            lemma_prefix_split(
                                ser_event(evs[k as int]),
                                ser_list(evs.skip(k as int + 1)),
                                s@.skip(p as int),
                            );
                            assert(persistable(evs[k as int]));
                            assert(false);
                        }
                    }
                }
                return Option::None;
            },
        };
        out.push(ev);
        proof {
            assert forall|evs: Seq<Event>|
                all_persistable(evs) && evs.len() <= u64::MAX && s@ == (
                #[trigger] ser_events(evs)) implies {
                &&& (forall|i: int| 0 <= i < k + 1 ==> same_event(out@[i], #[trigger] evs[i]))
                &&& ser_list(evs.skip(k as int + 1)).is_prefix_of(s@.skip(p2 as int))
                &&& p2 + ser_list(evs.skip(k as int + 1)).len() == ser_events(evs).len()
            } by {
                let rest = evs.skip(k as int);
                assert(rest.drop_first() =~= evs.skip(k as int + 1));
                assert(rest[0] == evs[k as int]);
                assert(ser_list(rest) == ser_event(evs[k as int]) + ser_list(
                    evs.skip(k as int + 1),
                ));
                lemma_prefix_split(
                    ser_event(evs[k as int]),
                    ser_list(evs.skip(k as int + 1)),
                    s@.skip(p as int),
                );
                assert(persistable(evs[k as int]));
                assert(same_event(ev, evs[k as int]));
                assert(s@.skip(p as int).skip(ser_event(evs[k as int]).len() as int) =~= s@.skip(
                    p as int + ser_event(evs[k as int]).len(),
                ));
            }
        }
        p = p2;
        k = k + 1;
    }
    if p != s.len() {
        proof {
            assert forall|evs: Seq<Event>|
                !(all_persistable(evs) && evs.len() <= u64::MAX && s@ == (
                #[trigger] ser_events(evs))) by {
                if all_persistable(evs) && evs.len() <= u64::MAX && s@ == ser_events(evs) {
                    assert(evs.skip(evs.len() as int) =~= Seq::<Event>::empty());
                    assert(ser_list(evs.skip(evs.len() as int)).len() == 0);
                    assert(false);
                }
            }
        }
        return Option::None;
    }
    proof {
        assert forall|evs: Seq<Event>|
            all_persistable(evs) && evs.len() <= u64::MAX && s@ == (
            #[trigger] ser_events(evs)) implies (out@.len() == evs.len() && (forall|i: int|
            0 <= i < evs.len() ==> same_event(out@[i], #[trigger] evs[i]))) by {
        }
    }
    Option::Some(out)
}

/// Load a collection from its persisted text: text saved from a
/// collection comes back field for field equal; missing or malformed
/// text yields the empty collection.
pub fn load_events(text: &str) -> (r: Vec<Event>)
    ensures
        all_wf(r@),
        forall|evs: Seq<Event>|
            all_persistable(evs) && evs.len() <= u64::MAX && text@ == (#[trigger] ser_events(evs))
                ==> (r@.len() == evs.len() && (forall|i: int|
                0 <= i < evs.len() ==> same_event(r@[i], #[trigger] evs[i]))),
{
    let chars = str_to_chars(text);
    match parse_events(&chars) {
        Option::Some(v) => v,
        Option::None => Vec::new(),
    }
}

/// The persisted form of a collection: the whole collection in one text.
pub fn save_events(events: &Vec<Event>) -> (out: String)
    ensures
        out@ == ser_events(events@),
{
    let mut buf: Vec<char> = Vec::new();
    push_num(&mut buf, events.len() as u64);
    let ghost target = ser_events(events@);
    proof {
        assert(events@.skip(0) =~= events@);
        assert(buf@ + ser_list(events@) =~= target);
    }
    let mut i: usize = 0;
    while i < events.len()
        invariant
            i <= events@.len(),
            buf@ + ser_list(events@.skip(i as int)) == target,
        decreases events@.len() - i,
    {
        let ghost prev = buf@;
        proof {
            let rest = events@.skip(i as int);
            assert(rest.drop_first() =~= events@.skip(i as int + 1));
            assert(rest[0] == events@[i as int]);
            assert(ser_list(rest) == ser_event(events@[i as int]) + ser_list(
                events@.skip(i as int + 1),
            ));
        }
        push_event(&mut buf, &events[i]);
        proof {
            assert(buf@ + ser_list(events@.skip(i as int + 1)) =~= prev + ser_list(
                events@.skip(i as int),
            ));
        }
        i = i + 1;
    }
    proof {
        assert(events@.skip(events@.len() as int) =~= Seq::<Event>::empty());
        assert(buf@ =~= buf@ + ser_list(events@.skip(events@.len() as int)));
    }
    chars_to_string(&buf)
}

} // verus!
