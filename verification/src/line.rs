//! The status line.

use crate::clock::{DAY_TIME, TIME};
use crate::decimal::{decimal, push_decimal};
use crate::payload::{Payload, PayloadView};
use crate::text::str_view;
use crate::times::{are_offsets, push_times, times_text, Offsets};
use vstd::prelude::*;

verus! {

/// Bold text from here on.
pub const BOLD: &'static str = "\x1b[1m";

/// Text of the default weight and colour from here on.
pub const PLAIN: &'static str = "\x1b[0m";

/// What stands between the line so far and the next field.
pub open spec fn separator(out: Seq<char>) -> Seq<char> {
    if out.len() == 0 {
        Seq::empty()
    } else {
        " | "@
    }
}

/// The line with a field behind it.
pub open spec fn with_field(out: Seq<char>, field: Seq<char>) -> Seq<char> {
    out + separator(out) + field
}

/// The line with a field behind it, if there is one.
pub open spec fn with_optional(out: Seq<char>, field: Option<Seq<char>>) -> Seq<char> {
    match field {
        Some(f) => with_field(out, f),
        None => out,
    }
}

/// The model, and the effort behind it if it is known.
pub open spec fn model_field(p: PayloadView) -> Seq<char> {
    match p.effort {
        Some(e) => p.model + seq![' '] + e,
        None => p.model,
    }
}

/// The use of the context window.
pub open spec fn context_field(p: PayloadView) -> Option<Seq<char>> {
    match p.context {
        Some(n) => Some("ctx: "@ + decimal(n as int) + seq!['%']),
        None => None,
    }
}

/// The use of the five-hour limit, in bold, with the times behind it.
pub open spec fn five_field(p: PayloadView, times: Seq<char>) -> Option<Seq<char>> {
    match p.five {
        Some((used, _)) => Some(
            BOLD@ + "5h: "@ + decimal(used.rounded() as int) + seq!['%'] + times + PLAIN@,
        ),
        None => None,
    }
}

/// The use of the seven-day limit, with the times behind it.
pub open spec fn seven_field(p: PayloadView, times: Seq<char>) -> Option<Seq<char>> {
    match p.seven {
        Some((used, _)) => Some("7d: "@ + decimal(used.rounded() as int) + seq!['%'] + times),
        None => None,
    }
}

/// The path, which is left out where it is empty.
pub open spec fn path_field(p: PayloadView) -> Option<Seq<char>> {
    match p.cwd {
        Some(c) => if c.len() == 0 {
            None
        } else {
            Some(c)
        },
        None => None,
    }
}

/// The line: the time of day, the account, the model, the context window, the two
/// limits, and the path last.
pub open spec fn line_of(
    clock: Seq<char>,
    email: Option<Seq<char>>,
    p: PayloadView,
    five_times: Seq<char>,
    seven_times: Seq<char>,
) -> Seq<char> {
    let out = with_optional(clock, email);
    let out = with_field(out, model_field(p));
    let out = with_optional(out, context_field(p));
    let out = with_optional(out, five_field(p, five_times));
    let out = with_optional(out, seven_field(p, seven_times));
    with_optional(out, path_field(p))
}

/// The separator before the next field: nothing at the start of the line.
pub fn sep(out: &str) -> (r: &'static str)
    ensures
        r@ == separator(out@),
{
    if out.is_empty() {
        proof {
            reveal_strlit("");
            assert(""@ =~= Seq::<char>::empty());
        }
        ""
    } else {
        " | "
    }
}

fn push_field(out: &mut String, field: &str)
    ensures
        final(out)@ == with_field(old(out)@, field@),
{
    let s: &'static str = sep(out.as_str());
    out.append(s);
    out.append(field);
}

/// Puts the line together, given the times behind the two limits.
pub fn compose_line(
    clock: &str,
    email: Option<&str>,
    payload: &Payload,
    five_times: &str,
    seven_times: &str,
) -> (r: String)
    ensures
        r@ == line_of(clock@, str_view(email), payload@, five_times@, seven_times@),
{
    let mut out: String = clock.to_owned();
    if let Some(e) = email {
        push_field(&mut out, e);
    }
    let mut model: String = String::new();
    model.append(payload.model.as_str());
    if let Some(e) = &payload.effort {
        model.push(' ');
        model.append(e.as_str());
    }
    assert(model@ == model_field(payload@));
    push_field(&mut out, model.as_str());
    if let Some(n) = payload.context {
        let mut field: String = String::new();
        field.append("ctx: ");
        push_decimal(&mut field, n);
        field.push('%');
        assert(Some(field@) == context_field(payload@));
        push_field(&mut out, field.as_str());
    }
    if let Some((used, _)) = payload.five {
        let mut field: String = String::new();
        field.append(BOLD);
        field.append("5h: ");
        push_decimal(&mut field, used.round());
        field.push('%');
        field.append(five_times);
        field.append(PLAIN);
        assert(Some(field@) == five_field(payload@, five_times@));
        push_field(&mut out, field.as_str());
    }
    if let Some((used, _)) = payload.seven {
        let mut field: String = String::new();
        field.append("7d: ");
        push_decimal(&mut field, used.round());
        field.push('%');
        field.append(seven_times);
        assert(Some(field@) == seven_field(payload@, seven_times@));
        push_field(&mut out, field.as_str());
    }
    if let Some(c) = &payload.cwd {
        if !c.as_str().is_empty() {
            push_field(&mut out, c.as_str());
        }
    }
    out
}

/// Whether `times` may stand behind the five-hour limit, given its forecast.
pub open spec fn is_five_times(
    p: PayloadView,
    eta: Option<i64>,
    now: int,
    times: Seq<char>,
) -> bool {
    match p.five {
        Some((_, reset)) => exists|at: Offsets| #[trigger]
            are_offsets(eta, reset as int, now, at) && times == times_text(
                eta,
                reset as int,
                now,
                TIME@,
                at,
            ),
        None => true,
    }
}

/// Whether `times` may stand behind the seven-day limit, which has no forecast.
pub open spec fn is_seven_times(p: PayloadView, now: int, times: Seq<char>) -> bool {
    match p.seven {
        Some((_, reset)) => exists|at: Offsets| #[trigger]
            are_offsets(None, reset as int, now, at) && times == times_text(
                None,
                reset as int,
                now,
                DAY_TIME@,
                at,
            ),
        None => true,
    }
}

/// The status line, with times in local time. `eta` is the forecast of the five-hour
/// limit.
pub fn status_line(
    clock: &str,
    email: Option<&str>,
    payload: &Payload,
    eta: Option<i64>,
    now: i64,
) -> (r: String)
    ensures
        exists|five: Seq<char>, seven: Seq<char>| #[trigger]
            is_five_times(payload@, eta, now as int, five) && #[trigger] is_seven_times(
                payload@,
                now as int,
                seven,
            ) && r@ == line_of(clock@, str_view(email), payload@, five, seven),
{
    let mut five: String = String::new();
    if let Some((_, reset)) = payload.five {
        push_times(&mut five, eta, reset, now, TIME);
        proof {
            let at = choose|at: Offsets| #[trigger]
                are_offsets(eta, reset as int, now as int, at) && five@ == Seq::<char>::empty()
                    + times_text(eta, reset as int, now as int, TIME@, at);
            assert(five@ == times_text(eta, reset as int, now as int, TIME@, at));
        }
    }
    let mut seven: String = String::new();
    if let Some((_, reset)) = payload.seven {
        push_times(&mut seven, None, reset, now, DAY_TIME);
        proof {
            let at = choose|at: Offsets| #[trigger]
                are_offsets(None, reset as int, now as int, at) && seven@ == Seq::<char>::empty()
                    + times_text(None, reset as int, now as int, DAY_TIME@, at);
            assert(seven@ == times_text(None, reset as int, now as int, DAY_TIME@, at));
        }
    }
    assert(is_five_times(payload@, eta, now as int, five@));
    assert(is_seven_times(payload@, now as int, seven@));
    compose_line(clock, email, payload, five.as_str(), seven.as_str())
}

/// The line begins with the time of day.
pub proof fn law_clock_first(
    clock: Seq<char>,
    email: Option<Seq<char>>,
    p: PayloadView,
    five_times: Seq<char>,
    seven_times: Seq<char>,
)
    ensures
        clock.is_prefix_of(line_of(clock, email, p, five_times, seven_times)),
{
}

/// The line ends with the path, where there is one.
pub proof fn law_path_last(
    clock: Seq<char>,
    email: Option<Seq<char>>,
    p: PayloadView,
    five_times: Seq<char>,
    seven_times: Seq<char>,
)
    requires
        p.cwd is Some,
    ensures
        p.cwd->0.is_suffix_of(line_of(clock, email, p, five_times, seven_times)),
{
}

/// A field without a source is left out, with its separator: where nothing is known
/// but the model, the line is the time of day and the model.
pub proof fn law_missing_fields(
    clock: Seq<char>,
    p: PayloadView,
    five_times: Seq<char>,
    seven_times: Seq<char>,
)
    requires
        p.effort is None,
        p.context is None,
        p.five is None,
        p.seven is None,
        p.cwd is None,
    ensures
        line_of(clock, None, p, five_times, seven_times) == clock + separator(clock) + p.model,
{
}

/// Every field that is known stands in the line, in full and in this order: the time of
/// day, the account, the model with the effort behind it, the context window, the
/// five-hour limit in bold, the seven-day limit and the path. A bar stands between each
/// two.
pub proof fn law_fields(
    clock: Seq<char>,
    email: Option<Seq<char>>,
    p: PayloadView,
    five_times: Seq<char>,
    seven_times: Seq<char>,
)
    requires
        clock.len() > 0,
    ensures
        line_of(clock, email, p, five_times, seven_times) == clock + (match email {
            Some(e) => " | "@ + e,
            None => Seq::empty(),
        }) + (" | "@ + p.model) + (match p.effort {
            Some(e) => " "@ + e,
            None => Seq::empty(),
        }) + (match p.context {
            Some(n) => " | "@ + "ctx: "@ + decimal(n as int) + "%"@,
            None => Seq::empty(),
        }) + (match p.five {
            Some((used, _)) => " | "@ + "\x1b[1m"@ + "5h: "@ + decimal(used.rounded() as int) + "%"@
                + five_times + "\x1b[0m"@,
            None => Seq::empty(),
        }) + (match p.seven {
            Some((used, _)) => " | "@ + "7d: "@ + decimal(used.rounded() as int) + "%"@
                + seven_times,
            None => Seq::empty(),
        }) + (match p.cwd {
            Some(c) => if c.len() > 0 {
                " | "@ + c
            } else {
                Seq::empty()
            },
            None => Seq::empty(),
        }),
{
    let bar = " | "@;
    let email_part = match email {
        Some(e) => bar + e,
        None => Seq::empty(),
    };
    let a = with_optional(clock, email);
    assert(a == clock + email_part) by {
        lemma_optional(clock, email);
    }
    let effort_part = match p.effort {
        Some(e) => " "@ + e,
        None => Seq::empty(),
    };
    let b = with_field(a, model_field(p));
    assert(b == a + (bar + p.model) + effort_part) by {
        lemma_optional(a, Some(model_field(p)));
        reveal_strlit(" ");
        assert(" "@ =~= seq![' ']);
        assert(b =~= a + (bar + p.model) + effort_part);
    }
    let context_part = match p.context {
        Some(n) => bar + "ctx: "@ + decimal(n as int) + "%"@,
        None => Seq::empty(),
    };
    let c = with_optional(b, context_field(p));
    assert(c == b + context_part) by {
        lemma_optional(b, context_field(p));
        lemma_percent();
        assert(c =~= b + context_part);
    }
    let five_part = match p.five {
        Some((used, _)) => bar + "\x1b[1m"@ + "5h: "@ + decimal(used.rounded() as int) + "%"@
            + five_times + "\x1b[0m"@,
        None => Seq::empty(),
    };
    let d = with_optional(c, five_field(p, five_times));
    assert(d == c + five_part) by {
        lemma_optional(c, five_field(p, five_times));
        lemma_percent();
        if p.five is Some {
            let field = five_field(p, five_times)->0;
            assert(bar + field =~= five_part);
        }
    }
    let seven_part = match p.seven {
        Some((used, _)) => bar + "7d: "@ + decimal(used.rounded() as int) + "%"@ + seven_times,
        None => Seq::empty(),
    };
    let e = with_optional(d, seven_field(p, seven_times));
    assert(e == d + seven_part) by {
        lemma_optional(d, seven_field(p, seven_times));
        lemma_percent();
        if p.seven is Some {
            let field = seven_field(p, seven_times)->0;
            assert(bar + field =~= seven_part);
        }
    }
    lemma_optional(e, path_field(p));
}

proof fn lemma_percent()
    ensures
        "%"@ == seq!['%'],
{
    reveal_strlit("%");
    assert("%"@ =~= seq!['%']);
}

proof fn lemma_optional(out: Seq<char>, field: Option<Seq<char>>)
    requires
        out.len() > 0,
    ensures
        with_optional(out, field) == out + (match field {
            Some(f) => " | "@ + f,
            None => Seq::empty(),
        }),
        with_optional(out, field).len() > 0,
{
    match field {
        Some(f) => {
            assert(out + " | "@ + f =~= out + (" | "@ + f));
        },
        None => {
            assert(out =~= out + Seq::<char>::empty());
        },
    }
}

/// A bar stands before a field, but not at the start of the line.
pub proof fn law_separator(out: Seq<char>)
    ensures
        out.len() == 0 ==> separator(out).len() == 0,
        out.len() > 0 ==> separator(out) == " | "@,
{
}

/// Behind the five-hour limit stand its forecast, if there is one, and the time of its
/// reset, for local time that is ahead by `at`.
pub proof fn law_five_times(p: PayloadView, eta: Option<i64>, now: int, times: Seq<char>) -> (at:
    Offsets)
    requires
        is_five_times(p, eta, now, times),
        p.five is Some,
    ensures
        are_offsets(eta, (p.five->0).1 as int, now, at),
        times == times_text(eta, (p.five->0).1 as int, now, "%H:%M"@, at),
{
    let reset = (p.five->0).1 as int;
    choose|at: Offsets| #[trigger]
        are_offsets(eta, reset, now, at) && times == times_text(eta, reset, now, TIME@, at)
}

/// Behind the seven-day limit stands the time of its reset, with the day of the week, for
/// local time that is ahead by `at`.
pub proof fn law_seven_times(p: PayloadView, now: int, times: Seq<char>) -> (at: Offsets)
    requires
        is_seven_times(p, now, times),
        p.seven is Some,
    ensures
        are_offsets(None, (p.seven->0).1 as int, now, at),
        times == times_text(None, (p.seven->0).1 as int, now, "%a %H:%M"@, at),
{
    let reset = (p.seven->0).1 as int;
    choose|at: Offsets| #[trigger]
        are_offsets(None, reset, now, at) && times == times_text(None, reset, now, DAY_TIME@, at)
}

proof fn lemma_behind(before: Seq<char>, out: Seq<char>, field: Option<Seq<char>>)
    requires
        out.len() > 0,
    ensures
        with_optional(before + out, field) == before + with_optional(out, field),
        with_optional(out, field).len() > 0,
{
    if field is Some {
        let f = field->0;
        assert(before + out + " | "@ + f =~= before + (out + " | "@ + f));
    }
}

/// Without the time of day the line begins with the next field: with the account in its
/// place, or else with the model, and the rest of the line stays as it is.
pub proof fn law_no_clock(
    clock: Seq<char>,
    email: Seq<char>,
    p: PayloadView,
    five_times: Seq<char>,
    seven_times: Seq<char>,
)
    requires
        clock.len() > 0,
        p.model.len() > 0,
    ensures
        line_of(Seq::empty(), Some(email), p, five_times, seven_times) == line_of(
            email,
            None,
            p,
            five_times,
            seven_times,
        ),
        line_of(clock, None, p, five_times, seven_times) == clock + " | "@ + line_of(
            Seq::empty(),
            None,
            p,
            five_times,
            seven_times,
        ),
{
    let none = Seq::<char>::empty();
    assert(none + none + email =~= email);
    let model = model_field(p);
    assert(none + none + model =~= model);
    let before = clock + " | "@;
    assert(with_field(clock, model) == before + model);
    lemma_behind(before, model, context_field(p));
    let b = with_optional(model, context_field(p));
    lemma_behind(before, b, five_field(p, five_times));
    let c = with_optional(b, five_field(p, five_times));
    lemma_behind(before, c, seven_field(p, seven_times));
    let d = with_optional(c, seven_field(p, seven_times));
    lemma_behind(before, d, path_field(p));
}

} // verus!
