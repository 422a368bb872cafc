//! That what is different has different identities, as far as no two digests coincide.
use vstd::prelude::*;
use crate::adapter::{
    date_json, meeting_json, meetings_json, option_source, pe_section_of, pe_source, section_of,
    DateLimitView,
};
use crate::app::{entry_of, manual_source};
use crate::calendar::{event_uid, occurrence, sha256_hex, term_dates, uid_source};
use crate::date::{civil, civil_text, date_text, day_number, lemma_civil_of, year_text};
use crate::json::{json_quoted, law_json_strings_are_unambiguous, JsonView};
use crate::laws::wording::{law_digits_have_the_value, law_padding_keeps_the_value};
use crate::laws::{lemma_same_tail, lemma_three_strings, lemma_two_digits};
use crate::model::{ChosenSectionView, DatasetView, Meeting, TermCalendarView};
use crate::text::{decimal, numeric, padded};

verus! {

/// A number says where its digits end, before what is no digit.
proof fn lemma_number_ends(a: nat, b: nat, x: Seq<char>, y: Seq<char>)
    requires
        decimal(a) + x == decimal(b) + y,
        x.len() > 0 && !numeric(x[0]),
        y.len() > 0 && !numeric(y[0]),
    ensures
        a == b,
        x == y,
{
    law_digits_have_the_value(a);
    law_digits_have_the_value(b);
    let p = decimal(a);
    let q = decimal(b);
    let s = p + x;
    if p.len() < q.len() {
        assert(s[p.len() as int] == x[0]);
        assert((q + y)[p.len() as int] == q[p.len() as int]);
        assert(numeric(q[p.len() as int]));
    }
    if q.len() < p.len() {
        assert((q + y)[q.len() as int] == y[0]);
        assert(s[q.len() as int] == p[q.len() as int]);
        assert(numeric(p[q.len() as int]));
    }
    assert(p =~= s.take(p.len() as int));
    assert(q =~= (q + y).take(q.len() as int));
    assert(x =~= s.skip(p.len() as int));
    assert(y =~= (q + y).skip(q.len() as int));
}

/// A text without a mark says where it ends, before the mark.
proof fn lemma_text_ends(a: Seq<char>, b: Seq<char>, mark: char, x: Seq<char>, y: Seq<char>)
    requires
        a + seq![mark] + x == b + seq![mark] + y,
        !a.contains(mark),
        !b.contains(mark),
    ensures
        a == b,
        x == y,
{
    let s = a + seq![mark] + x;
    let t = b + seq![mark] + y;
    if a.len() < b.len() {
        assert(s[a.len() as int] == mark);
        assert(t[a.len() as int] == b[a.len() as int]);
        assert(b.contains(mark));
    }
    if b.len() < a.len() {
        assert(t[b.len() as int] == mark);
        assert(s[b.len() as int] == a[b.len() as int]);
        assert(a.contains(mark));
    }
    assert(a =~= s.take(a.len() as int));
    assert(b =~= t.take(b.len() as int));
    assert(x =~= s.skip(a.len() as int + 1));
    assert(y =~= t.skip(b.len() as int + 1));
}

/// A date is written with digits and signs.
proof fn lemma_date_characters(number: int)
    ensures
        !date_text(number).contains('"'),
{
    let ymd = crate::date::civil_of(number);
    let text = date_text(number);
    reveal_strlit("-");
    reveal_strlit("+");
    let year = year_text(ymd.0);
    law_padding_keeps_the_value(ymd.1 as nat, 2);
    law_padding_keeps_the_value(ymd.2 as nat, 2);
    if ymd.0 >= 0 {
        law_padding_keeps_the_value(ymd.0 as nat, 4);
        law_digits_have_the_value(ymd.0 as nat);
    } else {
        law_padding_keeps_the_value((-ymd.0) as nat, 4);
    }
    assert(!year.contains('"')) by {
        if year.contains('"') {
            let i = choose|i: int| 0 <= i < year.len() && year[i] == '"';
            if 0 <= ymd.0 <= 9999 {
                assert(numeric(padded(ymd.0 as nat, 4)[i]));
            } else if i > 0 {
                if ymd.0 > 9999 {
                    assert(year[i] == decimal(ymd.0 as nat)[i - 1]);
                    assert(numeric(decimal(ymd.0 as nat)[i - 1]));
                } else {
                    assert(year[i] == padded((-ymd.0) as nat, 4)[i - 1]);
                    assert(numeric(padded((-ymd.0) as nat, 4)[i - 1]));
                }
            }
        }
    }
    if text.contains('"') {
        let i = choose|i: int| 0 <= i < text.len() && text[i] == '"';
        let m = padded(ymd.1 as nat, 2);
        let d = padded(ymd.2 as nat, 2);
        let n = year.len() as int;
        if i < n {
            assert(text[i] == year[i]);
            assert(year.contains('"'));
        } else if i == n {
            assert(text[i] == "-"@[0]);
        } else if i < n + 1 + m.len() {
            assert(text[i] == m[i - n - 1]);
            assert(numeric(m[i - n - 1]));
        } else if i == n + 1 + m.len() {
            assert(text[i] == "-"@[0]);
        } else {
            assert(text[i] == d[i - n - 2 - m.len()]);
            assert(numeric(d[i - n - 2 - m.len()]));
        }
    }
}

/// Different years are written differently.
proof fn lemma_years(a: int, b: int)
    requires
        year_text(a) == year_text(b),
    ensures
        a == b,
{
    reveal_strlit("-");
    reveal_strlit("+");
    let p = year_text(a);
    let q = year_text(b);
    lemma_year_start(a);
    lemma_year_start(b);
    if 0 <= a <= 9999 {
        law_padding_keeps_the_value(a as nat, 4);
        law_padding_keeps_the_value(b as nat, 4);
    } else {
        assert(p.skip(1) =~= (if a > 9999 {
            decimal(a as nat)
        } else {
            padded((-a) as nat, 4)
        }));
        assert(q.skip(1) =~= (if b > 9999 {
            decimal(b as nat)
        } else {
            padded((-b) as nat, 4)
        }));
        if a > 9999 {
            law_digits_have_the_value(a as nat);
            law_digits_have_the_value(b as nat);
        } else {
            law_padding_keeps_the_value((-a) as nat, 4);
            law_padding_keeps_the_value((-b) as nat, 4);
        }
    }
}

proof fn lemma_year_start(a: int)
    ensures
        year_text(a).len() > 0,
        0 <= a <= 9999 <==> numeric(year_text(a)[0]),
        a > 9999 <==> year_text(a)[0] == '+',
        a < 0 <==> year_text(a)[0] == '-',
{
    reveal_strlit("-");
    reveal_strlit("+");
    if 0 <= a <= 9999 {
        law_padding_keeps_the_value(a as nat, 4);
        assert(numeric(padded(a as nat, 4)[0]));
    }
}

/// Different dates are written differently.
pub proof fn law_dates_are_written_differently(
    a: (int, int, int),
    b: (int, int, int),
)
    requires
        civil(a.0, a.1, a.2),
        civil(b.0, b.1, b.2),
        date_text(day_number(a.0, a.1, a.2)) == date_text(day_number(b.0, b.1, b.2)),
    ensures
        a == b,
{
    lemma_civil_of(day_number(a.0, a.1, a.2), a.0, a.1, a.2);
    lemma_civil_of(day_number(b.0, b.1, b.2), b.0, b.1, b.2);
    reveal_strlit("-");
    lemma_two_digits(a.1 as nat);
    lemma_two_digits(a.2 as nat);
    lemma_two_digits(b.1 as nat);
    lemma_two_digits(b.2 as nat);
    let s = civil_text(a.0, a.1, a.2, "-"@);
    let t = civil_text(b.0, b.1, b.2, "-"@);
    assert(s == t);
    let n = s.len();
    assert(year_text(a.0) =~= s.take(n - 6));
    assert(year_text(b.0) =~= t.take(n - 6));
    lemma_years(a.0, b.0);
    assert(padded(a.1 as nat, 2) =~= s.subrange(n - 5, n - 3));
    assert(padded(b.1 as nat, 2) =~= t.subrange(n - 5, n - 3));
    assert(padded(a.2 as nat, 2) =~= s.skip(n - 2));
    assert(padded(b.2 as nat, 2) =~= t.skip(n - 2));
}

/// Three numbers with commas between them and something at the end that is no digit.
proof fn lemma_three_numbers(
    a: (nat, nat, nat),
    b: (nat, nat, nat),
    mark: Seq<char>,
    x: Seq<char>,
    y: Seq<char>,
)
    requires
        mark.len() > 0 && !numeric(mark[0]),
        x.len() > 0 && !numeric(x[0]),
        y.len() > 0 && !numeric(y[0]),
        decimal(a.0) + (mark + (decimal(a.1) + (mark + (decimal(a.2) + x)))) == decimal(b.0) + (mark
            + (decimal(b.1) + (mark + (decimal(b.2) + y)))),
    ensures
        a == b,
        x == y,
{
    let p2 = decimal(a.2) + x;
    let q2 = decimal(b.2) + y;
    let p1 = decimal(a.1) + (mark + p2);
    let q1 = decimal(b.1) + (mark + q2);
    assert((mark + p1)[0] == mark[0] && (mark + q1)[0] == mark[0]);
    lemma_number_ends(a.0, b.0, mark + p1, mark + q1);
    lemma_same_tail(mark, p1, q1);
    assert((mark + p2)[0] == mark[0] && (mark + q2)[0] == mark[0]);
    lemma_number_ends(a.1, b.1, mark + p2, mark + q2);
    lemma_same_tail(mark, p2, q2);
    lemma_number_ends(a.2, b.2, x, y);
}

/// A day and three numbers, taken apart.
proof fn lemma_occurrence_parts(
    head: Seq<char>,
    text: Seq<char>,
    middle: Seq<char>,
    a: Seq<char>,
    mark: Seq<char>,
    b: Seq<char>,
    c: Seq<char>,
    end: Seq<char>,
)
    requires
        middle == seq!['"', ','],
    ensures
        head + text + middle + a + mark + b + mark + c + end == head + (text + seq!['"'] + (seq![
            ',',
        ] + (a + (mark + (b + (mark + (c + end))))))),
{
    assert(middle =~= seq!['"'] + seq![',']);
    assert(head + text + middle + a + mark + b + mark + c + end =~= head + (text + seq!['"'] + (
    seq![','] + (a + (mark + (b + (mark + (c + end))))))));
}

/// The weekday and the times of a meeting.
spec fn numbers_of(m: Meeting) -> Seq<char> {
    decimal(m.weekday as nat) + (","@ + (decimal(m.start_minute as nat) + (","@ + (decimal(
        m.end_minute as nat,
    ) + "]"@))))
}

proof fn lemma_occurrence(m: Meeting, day: int)
    ensures
        occurrence(m, day) == ",\""@ + (date_text(day) + seq!['"'] + (seq![','] + numbers_of(m))),
{
    reveal_strlit("\",");
    assert("\","@ =~= seq!['"', ',']);
    lemma_occurrence_parts(
        ",\""@,
        date_text(day),
        "\","@,
        decimal(m.weekday as nat),
        ","@,
        decimal(m.start_minute as nat),
        decimal(m.end_minute as nat),
        "]"@,
    );
}

proof fn lemma_same_numbers(m: Meeting, n: Meeting)
    requires
        numbers_of(m) == numbers_of(n),
    ensures
        m.weekday == n.weekday,
        m.start_minute == n.start_minute,
        m.end_minute == n.end_minute,
{
    reveal_strlit(",");
    reveal_strlit("]");
    lemma_three_numbers(
        (m.weekday as nat, m.start_minute as nat, m.end_minute as nat),
        (n.weekday as nat, n.start_minute as nat, n.end_minute as nat),
        ","@,
        "]"@,
        "]"@,
    );
}

/// What identifies an event says of which section, on which day and at which times it is.
pub proof fn law_identities_tell_days_and_times(
    calendar: TermCalendarView,
    x: ChosenSectionView,
    m: Meeting,
    a: (int, int, int),
    y: ChosenSectionView,
    n: Meeting,
    b: (int, int, int),
)
    requires
        civil(a.0, a.1, a.2),
        civil(b.0, b.1, b.2),
        uid_source(calendar, x, m, day_number(a.0, a.1, a.2)) == uid_source(
            calendar,
            y,
            n,
            day_number(b.0, b.1, b.2),
        ),
    ensures
        x.course_id == y.course_id,
        x.kind == y.kind,
        x.section.id == y.section.id,
        a == b,
        m.weekday == n.weekday,
        m.start_minute == n.start_minute,
        m.end_minute == n.end_minute,
{
    let d = day_number(a.0, a.1, a.2);
    let e = day_number(b.0, b.1, b.2);
    lemma_three_strings(
        term_dates(calendar),
        ","@,
        (x.course_id, x.kind, x.section.id, occurrence(m, d)),
        (y.course_id, y.kind, y.section.id, occurrence(n, e)),
    );
    lemma_occurrence(m, d);
    lemma_occurrence(n, e);
    let p = seq![','] + numbers_of(m);
    let q = seq![','] + numbers_of(n);
    lemma_same_tail(",\""@, date_text(d) + seq!['"'] + p, date_text(e) + seq!['"'] + q);
    lemma_date_characters(d);
    lemma_date_characters(e);
    lemma_text_ends(date_text(d), date_text(e), '"', p, q);
    law_dates_are_written_differently(a, b);
    lemma_same_tail(seq![','], numbers_of(m), numbers_of(n));
    lemma_same_numbers(m, n);
}

proof fn lemma_two_strings(
    head: Seq<char>,
    a: (Seq<char>, Seq<char>),
    b: (Seq<char>, Seq<char>),
    x: Seq<char>,
    y: Seq<char>,
)
    requires
        head + (json_quoted(a.0) + (","@ + (json_quoted(a.1) + x))) == head + (json_quoted(b.0) + (
        ","@ + (json_quoted(b.1) + y))),
    ensures
        a == b,
        x == y,
{
    let p = json_quoted(a.1) + x;
    let q = json_quoted(b.1) + y;
    lemma_same_tail(head, json_quoted(a.0) + (","@ + p), json_quoted(b.0) + (","@ + q));
    law_json_strings_are_unambiguous(a.0, b.0, ","@ + p, ","@ + q);
    lemma_same_tail(","@, p, q);
    law_json_strings_are_unambiguous(a.1, b.1, x, y);
}

/// Meetings in JSON hold no closing bracket.
proof fn lemma_no_bracket(meetings: Seq<Meeting>)
    ensures
        !meetings_json(meetings).contains(']'),
    decreases meetings.len(),
{
    reveal_strlit(",");
    if meetings.len() == 1 {
        lemma_meeting_no_bracket(meetings[0]);
    } else if meetings.len() > 1 {
        let rest = meetings_json(meetings.drop_last());
        let last = meeting_json(meetings.last());
        lemma_no_bracket(meetings.drop_last());
        lemma_meeting_no_bracket(meetings.last());
        let all = rest + ","@ + last;
        if all.contains(']') {
            let i = choose|i: int| 0 <= i < all.len() && all[i] == ']';
            if i < rest.len() {
                assert(rest[i] == ']');
            } else if i == rest.len() {
                assert(all[i] == ","@[0]);
            } else {
                assert(last[i - rest.len() - 1] == ']');
            }
        }
    }
}

spec fn clear_of(text: Seq<char>, c: char) -> bool {
    forall|i: int| 0 <= i < text.len() ==> #[trigger] text[i] != c
}

proof fn lemma_clear_sum(a: Seq<char>, b: Seq<char>, c: char)
    requires
        clear_of(a, c),
        clear_of(b, c),
    ensures
        clear_of(a + b, c),
{
    assert forall|i: int| 0 <= i < (a + b).len() implies #[trigger] (a + b)[i] != c by {
        if i < a.len() {
            assert((a + b)[i] == a[i]);
        } else {
            assert((a + b)[i] == b[i - a.len()]);
        }
    }
}

proof fn lemma_clear_number(n: nat)
    ensures
        clear_of(decimal(n), ']'),
{
    law_digits_have_the_value(n);
    assert forall|i: int| 0 <= i < decimal(n).len() implies #[trigger] decimal(n)[i] != ']' by {
        assert(numeric(decimal(n)[i]));
    }
}

proof fn lemma_clear_padded(n: nat, width: nat)
    ensures
        clear_of(padded(n, width as int), ']'),
{
    law_padding_keeps_the_value(n, width);
    let text = padded(n, width as int);
    assert forall|i: int| 0 <= i < text.len() implies #[trigger] text[i] != ']' by {
        assert(numeric(text[i]));
    }
}

proof fn lemma_clear_date(date: Option<crate::date::Date>)
    ensures
        clear_of(date_json(date), ']'),
{
    reveal_strlit("null");
    reveal_strlit("\"");
    reveal_strlit("-");
    reveal_strlit("+");
    if date is Some {
        let ymd = crate::date::civil_of(date->0.number());
        let year = year_text(ymd.0);
        let m = padded(ymd.1 as nat, 2);
        let d = padded(ymd.2 as nat, 2);
        lemma_clear_padded(ymd.1 as nat, 2);
        lemma_clear_padded(ymd.2 as nat, 2);
        if 0 <= ymd.0 <= 9999 {
            lemma_clear_padded(ymd.0 as nat, 4);
        } else if ymd.0 > 9999 {
            lemma_clear_number(ymd.0 as nat);
            lemma_clear_sum("+"@, decimal(ymd.0 as nat), ']');
        } else {
            lemma_clear_padded((-ymd.0) as nat, 4);
            lemma_clear_sum("-"@, padded((-ymd.0) as nat, 4), ']');
        }
        lemma_clear_sum(year, "-"@, ']');
        lemma_clear_sum(year + "-"@, m, ']');
        lemma_clear_sum(year + "-"@ + m, "-"@, ']');
        lemma_clear_sum(year + "-"@ + m + "-"@, d, ']');
        let text = date_text(date->0.number());
        lemma_clear_sum("\""@, text, ']');
        lemma_clear_sum("\""@ + text, "\""@, ']');
    }
}

proof fn lemma_meeting_no_bracket(m: Meeting)
    ensures
        !meeting_json(m).contains(']'),
{
    reveal_strlit("{\"weekday\":");
    reveal_strlit(",\"start_minute\":");
    reveal_strlit(",\"end_minute\":");
    reveal_strlit(",\"start_date\":");
    reveal_strlit(",\"end_date\":");
    reveal_strlit("}");
    lemma_clear_number(m.weekday as nat);
    lemma_clear_number(m.start_minute as nat);
    lemma_clear_number(m.end_minute as nat);
    lemma_clear_date(m.start_date);
    lemma_clear_date(m.end_date);
    let a = "{\"weekday\":"@ + decimal(m.weekday as nat);
    lemma_clear_sum("{\"weekday\":"@, decimal(m.weekday as nat), ']');
    let b = a + ",\"start_minute\":"@;
    lemma_clear_sum(a, ",\"start_minute\":"@, ']');
    let c = b + decimal(m.start_minute as nat);
    lemma_clear_sum(b, decimal(m.start_minute as nat), ']');
    let d = c + ",\"end_minute\":"@;
    lemma_clear_sum(c, ",\"end_minute\":"@, ']');
    let e = d + decimal(m.end_minute as nat);
    lemma_clear_sum(d, decimal(m.end_minute as nat), ']');
    let f = e + ",\"start_date\":"@;
    lemma_clear_sum(e, ",\"start_date\":"@, ']');
    let g = f + date_json(m.start_date);
    lemma_clear_sum(f, date_json(m.start_date), ']');
    let h = g + ",\"end_date\":"@;
    lemma_clear_sum(g, ",\"end_date\":"@, ']');
    let i = h + date_json(m.end_date);
    lemma_clear_sum(h, date_json(m.end_date), ']');
    lemma_clear_sum(i, "}"@, ']');
    assert(meeting_json(m) == i + "}"@);
    assert(clear_of(meeting_json(m), ']'));
}

proof fn lemma_meeting_parts(
    head: Seq<char>,
    a: Seq<char>,
    u: Seq<char>,
    b: Seq<char>,
    v: Seq<char>,
    c: Seq<char>,
    w: Seq<char>,
    d: Seq<char>,
    x: Seq<char>,
    e: Seq<char>,
    end: Seq<char>,
)
    ensures
        head + a + u + b + v + c + w + d + x + e + end == head + (a + (u + (b + (v + (c + (w + d + x
            + e + end)))))),
{
    assert(head + a + u + b + v + c + w + d + x + e + end =~= head + (a + (u + (b + (v + (c + (w + d
        + x + e + end)))))));
}

/// What stands behind the times of a meeting in JSON.
spec fn dates_of(m: Meeting) -> Seq<char> {
    ",\"start_date\":"@ + date_json(m.start_date) + ",\"end_date\":"@ + date_json(m.end_date) + "}"@
}

spec fn from_end(m: Meeting) -> Seq<char> {
    decimal(m.end_minute as nat) + dates_of(m)
}

spec fn from_start(m: Meeting) -> Seq<char> {
    decimal(m.start_minute as nat) + (",\"end_minute\":"@ + from_end(m))
}

proof fn lemma_meeting_json(m: Meeting)
    ensures
        meeting_json(m) == "{\"weekday\":"@ + (decimal(m.weekday as nat) + (",\"start_minute\":"@
            + from_start(m))),
{
    lemma_meeting_parts(
        "{\"weekday\":"@,
        decimal(m.weekday as nat),
        ",\"start_minute\":"@,
        decimal(m.start_minute as nat),
        ",\"end_minute\":"@,
        decimal(m.end_minute as nat),
        ",\"start_date\":"@,
        date_json(m.start_date),
        ",\"end_date\":"@,
        date_json(m.end_date),
        "}"@,
    );
}

proof fn lemma_number_and_mark(a: nat, b: nat, mark: Seq<char>, x: Seq<char>, y: Seq<char>)
    requires
        decimal(a) + (mark + x) == decimal(b) + (mark + y),
        mark.len() > 0 && !numeric(mark[0]),
    ensures
        a == b,
        x == y,
{
    assert((mark + x)[0] == mark[0] && (mark + y)[0] == mark[0]);
    lemma_number_ends(a, b, mark + x, mark + y);
    lemma_same_tail(mark, x, y);
}

/// A meeting in JSON says on which weekday and at which times it is.
pub proof fn law_meetings_are_written_differently(a: Meeting, b: Meeting)
    requires
        meeting_json(a) == meeting_json(b),
    ensures
        a.weekday == b.weekday,
        a.start_minute == b.start_minute,
        a.end_minute == b.end_minute,
{
    lemma_meeting_json(a);
    lemma_meeting_json(b);
    lemma_meeting_marks();
    lemma_same_tail(
        "{\"weekday\":"@,
        decimal(a.weekday as nat) + (",\"start_minute\":"@ + from_start(a)),
        decimal(b.weekday as nat) + (",\"start_minute\":"@ + from_start(b)),
    );
    lemma_number_and_mark(
        a.weekday as nat,
        b.weekday as nat,
        ",\"start_minute\":"@,
        from_start(a),
        from_start(b),
    );
    lemma_number_and_mark(
        a.start_minute as nat,
        b.start_minute as nat,
        ",\"end_minute\":"@,
        from_end(a),
        from_end(b),
    );
    lemma_dates_start(a);
    lemma_dates_start(b);
    lemma_number_ends(a.end_minute as nat, b.end_minute as nat, dates_of(a), dates_of(b));
}

proof fn lemma_meeting_marks()
    ensures
        ",\"start_minute\":"@.len() > 0 && !numeric(",\"start_minute\":"@[0]),
        ",\"end_minute\":"@.len() > 0 && !numeric(",\"end_minute\":"@[0]),
{
    reveal_strlit(",\"start_minute\":");
    reveal_strlit(",\"end_minute\":");
}

proof fn lemma_dates_start(m: Meeting)
    ensures
        dates_of(m).len() > 0,
        !numeric(dates_of(m)[0]),
{
    reveal_strlit(",\"start_date\":");
    assert(dates_of(m)[0] == ',');
}

proof fn lemma_source_parts(
    head: Seq<char>,
    a: Seq<char>,
    mark: Seq<char>,
    b: Seq<char>,
    open: Seq<char>,
    m: Seq<char>,
    close: Seq<char>,
    c: Seq<char>,
    end: Seq<char>,
)
    requires
        close == seq![']', ','],
    ensures
        head + a + mark + b + open + m + close + c + end == head + (a + (mark + (b + (open + (m
            + seq![']'] + (seq![','] + (c + end))))))),
{
    assert(close =~= seq![']'] + seq![',']);
    assert(head + a + mark + b + open + m + close + c + end =~= head + (a + (mark + (b + (open + (m
        + seq![']'] + (seq![','] + (c + end))))))));
}

proof fn lemma_option_source(
    course_id: Seq<char>,
    kind: Seq<char>,
    meetings: Seq<Meeting>,
    room: Seq<char>,
)
    ensures
        option_source(course_id, kind, meetings, room) == "["@ + (json_quoted(course_id) + (","@ + (
        json_quoted(kind) + (",["@ + (meetings_json(meetings) + seq![']'] + (seq![','] + (
        json_quoted(room) + "]"@))))))),
{
    reveal_strlit("],");
    assert("],"@ =~= seq![']', ',']);
    lemma_source_parts(
        "["@,
        json_quoted(course_id),
        ","@,
        json_quoted(kind),
        ",["@,
        meetings_json(meetings),
        "],"@,
        json_quoted(room),
        "]"@,
    );
}

proof fn lemma_manual_parts(
    head: Seq<char>,
    a: Seq<char>,
    mark: Seq<char>,
    b: Seq<char>,
    c: Seq<char>,
    d: Seq<char>,
    e: Seq<char>,
    open: Seq<char>,
    m: Seq<char>,
    close: Seq<char>,
)
    requires
        close == seq![']', ']'],
    ensures
        head + a + mark + b + mark + c + mark + d + mark + e + open + m + close == head + (a + (mark
            + (b + (mark + (c + (mark + (d + (mark + (e + (open + (m + seq![']'] + seq![
            ']',
        ]))))))))))),
{
    assert(close =~= seq![']'] + seq![']']);
    let inner = d + (mark + (e + (open + (m + seq![']'] + seq![']']))));
    let short = head + a + mark + b + mark + c + mark;
    assert(short + d + mark + e + open + m + close =~= short + inner);
    assert(short + inner =~= head + (a + (mark + (b + (mark + (c + (mark + inner)))))));
}

/// What identifies a published section says of which course and kind it is, when it meets and where.
pub proof fn law_published_sections_are_told_apart(
    a: (Seq<char>, Seq<char>, Seq<Meeting>, Seq<char>),
    b: (Seq<char>, Seq<char>, Seq<Meeting>, Seq<char>),
)
    requires
        option_source(a.0, a.1, a.2, a.3) == option_source(b.0, b.1, b.2, b.3),
    ensures
        a.0 == b.0,
        a.1 == b.1,
        meetings_json(a.2) == meetings_json(b.2),
        a.3 == b.3,
{
    let p = meetings_json(a.2) + seq![']'] + (seq![','] + (json_quoted(a.3) + "]"@));
    let q = meetings_json(b.2) + seq![']'] + (seq![','] + (json_quoted(b.3) + "]"@));
    lemma_option_source(a.0, a.1, a.2, a.3);
    lemma_option_source(b.0, b.1, b.2, b.3);
    lemma_two_strings("["@, (a.0, a.1), (b.0, b.1), ",["@ + p, ",["@ + q);
    lemma_same_tail(",["@, p, q);
    lemma_no_bracket(a.2);
    lemma_no_bracket(b.2);
    let u = seq![','] + (json_quoted(a.3) + "]"@);
    let v = seq![','] + (json_quoted(b.3) + "]"@);
    lemma_text_ends(meetings_json(a.2), meetings_json(b.2), ']', u, v);
    lemma_same_tail(seq![','], json_quoted(a.3) + "]"@, json_quoted(b.3) + "]"@);
    law_json_strings_are_unambiguous(a.3, b.3, "]"@, "]"@);
}

/// What identifies a new manual section says of which term, course and kind it is, how it is called,
/// where it is, and when it meets.
pub proof fn law_manual_sections_are_told_apart(
    a: (Seq<char>, Seq<char>, Seq<char>, Seq<char>, Seq<char>, Seq<Meeting>),
    b: (Seq<char>, Seq<char>, Seq<char>, Seq<char>, Seq<char>, Seq<Meeting>),
)
    requires
        manual_source(a.0, a.1, a.2, a.3, a.4, a.5) == manual_source(b.0, b.1, b.2, b.3, b.4, b.5),
    ensures
        a.0 == b.0,
        a.1 == b.1,
        a.2 == b.2,
        a.3 == b.3,
        a.4 == b.4,
        meetings_json(a.5) == meetings_json(b.5),
{
    reveal_strlit("]]");
    assert("]]"@ =~= seq![']', ']']);
    let p = meetings_json(a.5) + seq![']'] + seq![']'];
    let q = meetings_json(b.5) + seq![']'] + seq![']'];
    let p2 = json_quoted(a.3) + (","@ + (json_quoted(a.4) + (",["@ + p)));
    let q2 = json_quoted(b.3) + (","@ + (json_quoted(b.4) + (",["@ + q)));
    let p1 = json_quoted(a.2) + (","@ + p2);
    let q1 = json_quoted(b.2) + (","@ + q2);
    lemma_manual_parts(
        "["@,
        json_quoted(a.0),
        ","@,
        json_quoted(a.1),
        json_quoted(a.2),
        json_quoted(a.3),
        json_quoted(a.4),
        ",["@,
        meetings_json(a.5),
        "]]"@,
    );
    lemma_manual_parts(
        "["@,
        json_quoted(b.0),
        ","@,
        json_quoted(b.1),
        json_quoted(b.2),
        json_quoted(b.3),
        json_quoted(b.4),
        ",["@,
        meetings_json(b.5),
        "]]"@,
    );
    lemma_two_strings("["@, (a.0, a.1), (b.0, b.1), ","@ + p1, ","@ + q1);
    lemma_same_tail(","@, p1, q1);
    law_json_strings_are_unambiguous(a.2, b.2, ","@ + p2, ","@ + q2);
    lemma_same_tail(","@, p2, q2);
    let none = Seq::<char>::empty();
    assert(none + p2 =~= p2);
    assert(none + q2 =~= q2);
    lemma_two_strings(none, (a.3, a.4), (b.3, b.4), ",["@ + p, ",["@ + q);
    lemma_same_tail(",["@, p, q);
    lemma_no_bracket(a.5);
    lemma_no_bracket(b.5);
    lemma_text_ends(meetings_json(a.5), meetings_json(b.5), ']', seq![']'], seq![']']);
}

proof fn lemma_pe_parts(
    head: Seq<char>,
    a: Seq<char>,
    open: Seq<char>,
    m: Seq<char>,
    close: Seq<char>,
    b: Seq<char>,
    mark: Seq<char>,
    c: Seq<char>,
    end: Seq<char>,
)
    requires
        close == seq![']', ','],
    ensures
        head + a + open + m + close + b + mark + c + end == head + (a + (open + (m + seq![']'] + (
        seq![','] + (b + (mark + (c + end))))))),
{
    assert(close =~= seq![']'] + seq![',']);
    assert(head + a + open + m + close + b + mark + c + end =~= head + (a + (open + (m + seq![']']
        + (seq![','] + (b + (mark + (c + end))))))));
}

/// What identifies a section of physical education says of which course it is, when it meets and
/// where, and what its number is.
pub proof fn law_pe_sections_are_told_apart(
    a: (Seq<char>, Seq<Meeting>, Seq<char>, Seq<char>),
    b: (Seq<char>, Seq<Meeting>, Seq<char>, Seq<char>),
)
    requires
        pe_source(a.0, a.1, a.2, a.3) == pe_source(b.0, b.1, b.2, b.3),
    ensures
        a.0 == b.0,
        meetings_json(a.1) == meetings_json(b.1),
        a.2 == b.2,
        a.3 == b.3,
{
    reveal_strlit("],");
    assert("],"@ =~= seq![']', ',']);
    let none = Seq::<char>::empty();
    let u = json_quoted(a.2) + (","@ + (json_quoted(a.3) + "]"@));
    let v = json_quoted(b.2) + (","@ + (json_quoted(b.3) + "]"@));
    let p = meetings_json(a.1) + seq![']'] + (seq![','] + u);
    let q = meetings_json(b.1) + seq![']'] + (seq![','] + v);
    let open = ",\"pe\",["@;
    lemma_pe_parts(
        "["@,
        json_quoted(a.0),
        open,
        meetings_json(a.1),
        "],"@,
        json_quoted(a.2),
        ","@,
        json_quoted(a.3),
        "]"@,
    );
    lemma_pe_parts(
        "["@,
        json_quoted(b.0),
        open,
        meetings_json(b.1),
        "],"@,
        json_quoted(b.2),
        ","@,
        json_quoted(b.3),
        "]"@,
    );
    lemma_same_tail("["@, json_quoted(a.0) + (open + p), json_quoted(b.0) + (open + q));
    law_json_strings_are_unambiguous(a.0, b.0, open + p, open + q);
    lemma_same_tail(open, p, q);
    lemma_no_bracket(a.1);
    lemma_no_bracket(b.1);
    lemma_text_ends(meetings_json(a.1), meetings_json(b.1), ']', seq![','] + u, seq![','] + v);
    lemma_same_tail(seq![','], u, v);
    assert(none + u =~= u);
    assert(none + v =~= v);
    lemma_two_strings(none, (a.2, a.3), (b.2, b.3), "]"@, "]"@);
}

/// The ids of sections and the identities of events are the digests of what identifies them.
pub proof fn law_ids_are_digests(
    course_id: Seq<char>,
    kind: Seq<char>,
    at: int,
    json: JsonView,
    labels: Option<Seq<JsonView>>,
    limit: DateLimitView,
    of_course: Option<Seq<char>>,
    number: Seq<char>,
    start: Option<int>,
    end: Option<int>,
)
    ensures
        ({
            let read = section_of(course_id, kind, at, json, labels, limit, of_course);
            read is Ok ==> read->Ok_0.id == "api-"@ + sha256_hex(
                option_source(course_id, kind, read->Ok_0.meetings, read->Ok_0.room),
            )
        }),
        ({
            let read = pe_section_of(course_id, at, json, number, labels, start, end);
            read is Ok ==> read->Ok_0.id == "api-"@ + sha256_hex(
                pe_source(course_id, read->Ok_0.meetings, read->Ok_0.room, number),
            )
        }),
{
}

/// The id of a new manual section is the digest of what identifies it.
pub proof fn law_manual_ids_are_digests(
    base: DatasetView,
    course_id: Seq<char>,
    kind: Seq<char>,
    label: Seq<char>,
    room: Seq<char>,
    meetings: Seq<Meeting>,
)
    ensures
        ({
            let read = entry_of(base, course_id, kind, label, room, meetings, None);
            read is Ok ==> read->Ok_0.option.id == "manual-"@ + sha256_hex(
                manual_source(
                    read->Ok_0.term_id,
                    read->Ok_0.course_id,
                    read->Ok_0.kind,
                    read->Ok_0.option.label,
                    read->Ok_0.option.room,
                    read->Ok_0.option.meetings,
                ),
            )
        }),
{
}

/// The identity of an event is the digest of what identifies it.
pub proof fn law_event_identities_are_digests(
    calendar: TermCalendarView,
    section: ChosenSectionView,
    m: Meeting,
    day: int,
)
    ensures
        event_uid(calendar, section, m, day) == sha256_hex(uid_source(calendar, section, m, day))
            + "@hydrant-optimizer"@,
{
}

} // verus!
