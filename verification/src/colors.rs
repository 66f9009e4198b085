//! The color filter's cycle: the distinct colors in use, sorted, and the
//! step from one filter state to the next — none, then each color in
//! order, then none again.

use vstd::prelude::*;
use crate::event::{Event, opt_text};

verus! {

/// Strict lexicographic order on texts, by code point.
pub open spec fn lex_lt(a: Seq<char>, b: Seq<char>) -> bool
    decreases a.len(),
{
    if b.len() == 0 {
        false
    } else if a.len() == 0 {
        true
    } else if a[0] != b[0] {
        (a[0] as u32) < (b[0] as u32)
    } else {
        lex_lt(a.drop_first(), b.drop_first())
    }
}

/// Compare two texts lexicographically.
pub fn text_lt(a: &String, b: &String) -> (r: bool)
    ensures
        r == lex_lt(a@, b@),
{
    let a_str = a.as_str();
    let b_str = b.as_str();
    let an = a_str.unicode_len();
    let bn = b_str.unicode_len();
    let mut i: usize = 0;
    proof {
        assert(a@.skip(0) =~= a@);
        assert(b@.skip(0) =~= b@);
    }
    loop
        invariant
            i <= an,
            i <= bn,
            an == a@.len(),
            bn == b@.len(),
            a_str@ == a@,
            b_str@ == b@,
            lex_lt(a@, b@) == lex_lt(a@.skip(i as int), b@.skip(i as int)),
            forall|j: int| 0 <= j < i ==> a@[j] == b@[j],
        decreases an - i,
    {
        if i == bn {
            proof {
                assert(b@.skip(i as int).len() == 0);
            }
            return false;
        }
        if i == an {
            proof {
                assert(a@.skip(i as int).len() == 0);
                assert(b@.skip(i as int).len() > 0);
            }
            return true;
        }
        let ca = a_str.get_char(i);
        let cb = b_str.get_char(i);
        proof {
            let ra = a@.skip(i as int);
            let rb = b@.skip(i as int);
            assert(ra[0] == a@[i as int] && rb[0] == b@[i as int]);
            assert(ra.drop_first() =~= a@.skip(i as int + 1));
            assert(rb.drop_first() =~= b@.skip(i as int + 1));
        }
        if ca as u32 != cb as u32 {
            proof {
                vstd::utf8::char_u32_cast(ca, ca as u32);
                vstd::utf8::char_u32_cast(cb, cb as u32);
                assert(ca != cb);
            }
            return (ca as u32) < (cb as u32);
        }
        proof {
            vstd::utf8::char_u32_cast(ca, ca as u32);
            vstd::utf8::char_u32_cast(cb, cb as u32);
            assert(ca == cb);
        }
        i = i + 1;
    }
}

/// Some template carries exactly this color tag.
pub open spec fn color_in_use(events: Seq<Event>, c: Seq<char>) -> bool {
    exists|k: int|
        0 <= k < events.len() && opt_text(#[trigger] events[k].color) == Option::Some(c)
}

/// The color list holds this tag.
pub open spec fn color_listed(colors: Seq<String>, c: Seq<char>) -> bool {
    exists|i: int| 0 <= i < colors.len() && (#[trigger] colors[i])@ == c
}

/// The distinct color tags among the templates, in strictly increasing
/// lexicographic order: every tag in use appears exactly once, and
/// nothing else does.
pub fn collect_colors(events: &Vec<Event>) -> (r: Vec<String>)
    ensures
        forall|i: int, j: int| 0 <= i < j < r@.len() ==> lex_lt((#[trigger] r@[i])@, (#[trigger] r@[j])@),
        forall|i: int| 0 <= i < r@.len() ==> color_in_use(events@, (#[trigger] r@[i])@),
        forall|k: int|
            0 <= k < events@.len() ==> match opt_text(#[trigger] events@[k].color) {
                Option::Some(c) => color_listed(r@, c),
                Option::None => true,
            },
{
    let mut out: Vec<String> = Vec::new();
    let mut k: usize = 0;
    while k < events.len()
        invariant
            k <= events@.len(),
            forall|i: int, j: int|
                0 <= i < j < out@.len() ==> lex_lt((#[trigger] out@[i])@, (#[trigger] out@[j])@),
            forall|i: int| 0 <= i < out@.len() ==> color_in_use(events@, (#[trigger] out@[i])@),
            forall|kk: int|
                0 <= kk < k ==> match opt_text(#[trigger] events@[kk].color) {
                    Option::Some(c) => color_listed(out@, c),
                    Option::None => true,
                },
        decreases events@.len() - k,
    {
        match &events[k].color {
            Option::None => {},
            Option::Some(c) => {
                let ghost before = out@;
                // find the insertion point among the sorted colors
                let mut pos: usize = 0;
                let mut found: bool = false;
                loop
                    invariant_except_break
                        !found,
                    invariant
                        out@ == before,
                        pos <= out@.len(),
                        forall|i: int, j: int|
                            0 <= i < j < out@.len() ==> lex_lt(
                                (#[trigger] out@[i])@,
                                (#[trigger] out@[j])@,
                            ),
                        forall|i: int| 0 <= i < pos ==> lex_lt((#[trigger] out@[i])@, c@),
                    ensures
                        out@ == before,
                        pos <= out@.len(),
                        forall|i: int| 0 <= i < pos ==> lex_lt((#[trigger] out@[i])@, c@),
                        found ==> pos < out@.len() && out@[pos as int]@ == c@,
                        !found ==> pos == out@.len() || lex_lt(c@, out@[pos as int]@),
                    decreases out@.len() - pos,
                {
                    if pos >= out.len() {
                        break;
                    }
                    if out[pos] == *c {
                        found = true;
                        break;
                    }
                    if text_lt(&out[pos], c) {
                        pos = pos + 1;
                    } else {
                        proof {
                            lemma_lex_connected(out@[pos as int]@, c@);
                        }
                        break;
                    }
                }
                proof {
                    assert(opt_text(events@[k as int].color) == Option::Some(c@));
                }
                if !found {
                    out.insert(pos, c.clone());
                    proof {
                        assert forall|i: int, j: int|
                            0 <= i < j < out@.len() implies lex_lt(
                            (#[trigger] out@[i])@,
                            (#[trigger] out@[j])@,
                        ) by {
                            if j < pos {
                            } else if i < pos && j == pos {
                                assert(out@[i]@ == before[i]@);
                            } else if i < pos && j > pos {
                                assert(out@[i]@ == before[i]@ && out@[j]@ == before[j - 1]@);
                            } else if i == pos && j == pos + 1 {
                                assert(out@[j]@ == before[pos as int]@);
                            } else if i == pos && j > pos + 1 {
                                assert(out@[j]@ == before[j - 1]@);
                                lemma_lex_trans(c@, before[pos as int]@, before[j - 1]@);
                            } else {
                                assert(out@[i]@ == before[i - 1]@ && out@[j]@ == before[j - 1]@);
                            }
                        }
                        assert(out@[pos as int]@ == c@);
                        assert forall|i: int|
                            0 <= i < out@.len() implies color_in_use(
                            events@,
                            (#[trigger] out@[i])@,
                        ) by {
                            if i < pos {
                                assert(out@[i] == before[i]);
                            } else if i == pos {
                                assert(opt_text(events@[k as int].color) == Option::Some(
                                    out@[i]@,
                                ));
                            } else {
                                assert(out@[i] == before[i - 1]);
                            }
                        }
                        assert forall|kk: int|
                            0 <= kk < k + 1 implies match opt_text(
                            #[trigger] events@[kk].color,
                        ) {
                            Option::Some(cc) => color_listed(out@, cc),
                            Option::None => true,
                        } by {
                            if kk == k {
                                assert(out@[pos as int]@ == c@);
                            } else {
                                match opt_text(events@[kk].color) {
                                    Option::Some(cc) => {
                                        if color_listed(before, cc) {
                                            let i = choose|i: int|
                                                0 <= i < before.len() && (#[trigger] before[i])@
                                                    == cc;
                                            if i < pos {
                                                assert(out@[i]@ == cc);
                                            } else {
                                                assert(out@[i + 1]@ == cc);
                                            }
                                        }
                                    },
                                    Option::None => {},
                                }
                            }
                        }
                    }
                } else {
                    proof {
                        assert(out@[pos as int]@ == c@);
                        assert(color_listed(out@, c@));
                    }
                }
            },
        }
        k = k + 1;
    }
    out
}

/// Lexicographic order is connected: distinct texts compare one way.
pub proof fn lemma_lex_connected(a: Seq<char>, b: Seq<char>)
    requires
        !lex_lt(a, b),
        a != b,
    ensures
        lex_lt(b, a),
    decreases a.len(),
{
    if b.len() == 0 {
        if a.len() == 0 {
            assert(a =~= b);
        }
    } else if a.len() == 0 {
        assert(false);
    } else if a[0] != b[0] {
        vstd::utf8::char_u32_cast(a[0], a[0] as u32);
        vstd::utf8::char_u32_cast(b[0], b[0] as u32);
    } else {
        if a.drop_first() == b.drop_first() {
            assert(a.drop_first().len() == b.drop_first().len());
            assert(a.len() == b.len());
            assert forall|i: int| 0 <= i < a.len() implies a[i] == b[i] by {
                if i > 0 {
                    assert(a[i] == a.drop_first()[i - 1]);
                    assert(b[i] == b.drop_first()[i - 1]);
                }
            }
            assert(a =~= b);
        }
        lemma_lex_connected(a.drop_first(), b.drop_first());
    }
}

/// Lexicographic order is transitive.
pub proof fn lemma_lex_trans(a: Seq<char>, b: Seq<char>, c: Seq<char>)
    requires
        lex_lt(a, b),
        lex_lt(b, c),
    ensures
        lex_lt(a, c),
    decreases a.len() + b.len() + c.len(),
{
    if a.len() > 0 && b.len() > 0 && c.len() > 0 && a[0] == b[0] && b[0] == c[0] {
        lemma_lex_trans(a.drop_first(), b.drop_first(), c.drop_first());
    }
}

/// The first position holding the given color text.
pub open spec fn find_color(colors: Seq<String>, cur: Seq<char>) -> Option<int>
    decreases colors.len(),
{
    if colors.len() == 0 {
        Option::None
    } else if colors[0]@ == cur {
        Option::Some(0)
    } else {
        match find_color(colors.drop_first(), cur) {
            Option::Some(i) => Option::Some(i + 1),
            Option::None => Option::None,
        }
    }
}

/// The next color-filter state: with no colors in use the filter stays
/// off; from "off" the first color; from a color the next one in order;
/// past the last color, or from a color no longer in use, off again.
pub fn next_color(colors: &Vec<String>, current: &Option<String>) -> (r: Option<String>)
    ensures
        colors@.len() == 0 ==> r is None,
        colors@.len() > 0 && (*current) is None ==> r == Option::Some(colors@[0]),
        colors@.len() > 0 && (*current) is Some ==> ({
            let cur = (*current).unwrap();
            match find_color(colors@, cur@) {
                Option::Some(i) => if i + 1 < colors@.len() {
                    r == Option::Some(colors@[i + 1])
                } else {
                    r is None
                },
                Option::None => r is None,
            }
        }),
{
    if colors.len() == 0 {
        return Option::None;
    }
    if current.is_none() {
        return Option::Some(colors[0].clone());
    }
    let cur: &String = current.as_ref().unwrap();
    let r = {
        {
            let mut i: usize = 0;
            proof {
                assert(colors@.skip(0) =~= colors@);
                assert(*cur == (*current).unwrap());
            }
            while i < colors.len()
                invariant
                    colors@.len() > 0,
                    (*current) is Some,
                    *cur == (*current).unwrap(),
                    i <= colors@.len(),
                    forall|j: int| 0 <= j < i ==> (#[trigger] colors@[j])@ != cur@,
                    find_color(colors@, cur@) == match find_color(colors@.skip(i as int), cur@) {
                        Option::Some(x) => Option::Some(x + i),
                        Option::None => Option::None::<int>,
                    },
                decreases colors@.len() - i,
            {
                if colors[i] == *cur {
                    proof {
                        let rest = colors@.skip(i as int);
                        assert(rest[0] == colors@[i as int]);
                        assert(find_color(rest, cur@) == Option::Some(0int));
                        assert(find_color(colors@, cur@) == Option::Some(i as int));
                    }
                    if i + 1 < colors.len() {
                        return Option::Some(colors[i + 1].clone());
                    } else {
                        return Option::None;
                    }
                }
                proof {
                    let rest = colors@.skip(i as int);
                    assert(rest[0] == colors@[i as int]);
                    assert(rest.drop_first() =~= colors@.skip(i as int + 1));
                    assert(rest[0]@ != cur@);
                    match find_color(colors@.skip(i as int + 1), cur@) {
                        Option::Some(x) => {
                            assert(find_color(rest, cur@) == Option::Some(x + 1));
                            assert(find_color(colors@, cur@) == Option::Some(x + 1 + i));
                        },
                        Option::None => {
                            assert(find_color(rest, cur@) is None);
                        },
                    }
                }
                i = i + 1;
            }
            proof {
                assert(colors@.skip(colors@.len() as int).len() == 0);
            }
            Option::None
        }
    };
    r
}

} // verus!
