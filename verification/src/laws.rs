//! What holds of the parts of the library together.
pub mod catalog;
pub mod choosing;
pub mod commands;
pub mod dataset;
pub mod export;
pub mod identity;
pub mod keeping;
pub mod lines;
pub mod manual;
pub mod merging;
pub mod notation;
pub mod notices;
pub mod offerings;
pub mod pages;
pub mod panes;
pub mod posing;
pub mod screen;
pub mod terms;
pub mod timetable;
pub mod week;
pub mod wording;

use vstd::arithmetic::div_mod::lemma_mod_bound;
use vstd::prelude::*;
use crate::app::{attempt_suffix, export_target, optimum, settled, ExportAttempt};
use crate::calendar::{
    arranged_events, collected, event_le, event_on, events_on, exported, meeting_days,
    meeting_events, occurrence, omission, omitted_notice, section_events, sha256_hex,
    teaching_days, term_dates, uid_source, without_repeats, EventView,
};
use crate::cli::{checked, placed, switched};
use crate::determinism::{
    distinct_by, in_order, lemma_sorted_unique, lemma_sum_contains, same_elements,
};
use crate::json::{json_quoted, law_json_strings_are_unambiguous};
use crate::model::{
    bounded_pe, clock, day_name, meeting_fault, meeting_text, meeting_valid, taught, times_overlap, window_end,
    window_start, ChosenSectionView, CourseView, DatasetView, ManualEntryView, ManualStoreView,
    Meeting, RequirementView, SectionOptionView, TermCalendarView, TimeChoiceView,
};
use crate::optimizer::{
    canonical, choices_clash, compatible, feasible, first_meeting_fault, id_le,
    lemma_sorted_elements, meeting_le, meetings_clash, members_compatible, Problem,
};
use crate::order::{
    ascending, distinct_ascending, insertion_point, keys_of, law_lookup_after_insert,
    law_stable_sorted, lemma_distinct_ascending, lemma_lookup, lemma_lower_bound_unique,
    lemma_map_insert, lemma_set_insert, lemma_set_remove, lookup, set_insert, set_remove,
    stable_sorted, Rank,
};
use crate::session::{all_storable, law_save_is_restored, save_plan, selection_of, storable_id};
use crate::storage::{
    entry_key, entry_position, kind_position, known_component, merged, merged_all, merged_course, read_meeting,
    read_meetings, read_parts, read_time, read_weekday, requirement_le, tidy, tidy_all,
    with_component, with_manual,
};
use crate::text::{
    all_numeric, ascii, blank, decimal, digit, digit_value, digits_value, find, joined, lemma_find,
    lemma_pieces_nonempty, lower, lower_case, lowered, numeric, only, padded, pieces, shortened,
    split, text_before, trim_end, trim_start, trimmed, whitespace, words,
};
use crate::tui::state::{
    after_mouse, char_step, courses_matching, editor_step, entries_of_term, focus_after, help_step,
    invalidated, key_step, pane_step, refiltered, removed_selected, search_key_step,
    selected_at_cursor, stored_selection, subject_at_cursor, timetable_step, toggled_subject, with_cursor_moved,
    with_cursors_clamped, AppStateView,
};
use crate::tui::{
    at_next_field, meeting_texts, moved, page_step, Focus, Key, KeyCode, ManualFormView, Mouse,
};

verus! {

/// A sequence that is in order already is its own set.
proof fn lemma_ascending_is_distinct<K: Rank>(s: Seq<K::V>)
    requires
        ascending::<K>(s),
    ensures
        distinct_ascending::<K>(s) == s,
    decreases s.len(),
{
    if s.len() > 0 {
        let rest = s.drop_last();
        assert(ascending::<K>(rest)) by {
            assert forall|i: int, j: int|
                #![trigger rest[i], rest[j]]
                0 <= i < j < rest.len() implies K::before(rest[i], rest[j]) by {
                assert(rest[i] == s[i] && rest[j] == s[j]);
            }
        }
        lemma_ascending_is_distinct::<K>(rest);
        let x = s.last();
        assert forall|i: int| #![trigger rest[i]] 0 <= i < rest.len() implies K::before(
            rest[i],
            x,
        ) by {
            assert(rest[i] == s[i] && x == s[s.len() - 1]);
        }
        if rest.contains(x) {
            let i = choose|i: int| 0 <= i < rest.len() && rest[i] == x;
            assert(K::before(rest[i], x));
            K::before_irreflexive(x);
        }
        lemma_lower_bound_unique::<K>(rest, x, rest.len() as int);
        assert(rest.insert(rest.len() as int, x) =~= s);
    } else {
        assert(distinct_ascending::<K>(s) =~= s);
    }
}

/// Two sequences in order with the same elements are the same.
pub proof fn lemma_ascending_is_unique<K: Rank>(a: Seq<K::V>, b: Seq<K::V>)
    requires
        ascending::<K>(a),
        ascending::<K>(b),
        forall|x: K::V| #[trigger] a.contains(x) <==> b.contains(x),
    ensures
        a == b,
    decreases a.len(),
{
    if a.len() == 0 {
        if b.len() > 0 {
            assert(b.contains(b[0]));
            assert(a.contains(b[0]));
        }
        assert(a =~= b);
    } else {
        assert(a.contains(a.last()));
        assert(b.contains(a.last()));
        let k = choose|k: int| 0 <= k < b.len() && b[k] == a.last();
        let y = b.last();
        assert(b.contains(y));
        assert(a.contains(y));
        let i = choose|i: int| 0 <= i < a.len() && a[i] == y;
        if k < b.len() - 1 {
            assert(K::before(b[k], b[b.len() - 1]));
            if i < a.len() - 1 {
                assert(K::before(a[i], a[a.len() - 1]));
                K::before_transitive(y, a.last(), y);
            }
            K::before_irreflexive(y);
        }
        assert(y == a.last());
        let c = a.drop_last();
        let d = b.drop_last();
        assert forall|i: int, j: int|
            #![trigger c[i], c[j]]
            0 <= i < j < c.len() implies K::before(c[i], c[j]) by {
            assert(c[i] == a[i] && c[j] == a[j]);
        }
        assert forall|i: int, j: int|
            #![trigger d[i], d[j]]
            0 <= i < j < d.len() implies K::before(d[i], d[j]) by {
            assert(d[i] == b[i] && d[j] == b[j]);
        }
        assert forall|x: K::V| #[trigger] c.contains(x) <==> d.contains(x) by {
            if c.contains(x) {
                let n = choose|n: int| 0 <= n < c.len() && c[n] == x;
                assert(a[n] == x);
                assert(a.contains(x));
                assert(b.contains(x));
                let m = choose|m: int| 0 <= m < b.len() && b[m] == x;
                assert(K::before(a[n], a[a.len() - 1]));
                K::before_irreflexive(y);
                assert(m < b.len() - 1);
                assert(d[m] == x);
            }
            if d.contains(x) {
                let n = choose|n: int| 0 <= n < d.len() && d[n] == x;
                assert(b[n] == x);
                assert(b.contains(x));
                assert(a.contains(x));
                let m = choose|m: int| 0 <= m < a.len() && a[m] == x;
                assert(K::before(b[n], b[b.len() - 1]));
                K::before_irreflexive(y);
                assert(m < a.len() - 1);
                assert(c[m] == x);
            }
        }
        lemma_ascending_is_unique::<K>(c, d);
        assert(a =~= c.push(a.last()));
        assert(b =~= d.push(b.last()));
    }
}

/// The order in which subjects are selected, and repeating one, changes nothing.
pub proof fn law_selection_order_is_irrelevant(
    dataset: DatasetView,
    a: Seq<Seq<char>>,
    b: Seq<Seq<char>>,
)
    requires
        forall|id: Seq<char>| #[trigger] a.contains(id) <==> b.contains(id),
    ensures
        optimum(dataset, a) == optimum(dataset, b),
{
    lemma_distinct_ascending::<String>(a);
    lemma_distinct_ascending::<String>(b);
    let c = distinct_ascending::<String>(a);
    let d = distinct_ascending::<String>(b);
    assert forall|id: Seq<char>| #[trigger] c.contains(id) <==> d.contains(id) by {
        assert(a.contains(id) <==> b.contains(id));
    }
    lemma_ascending_is_unique::<String>(c, d);
}

/// A text without separators is one piece.
proof fn lemma_one_piece(s: Seq<char>, separator: spec_fn(char) -> bool)
    requires
        forall|i: int| 0 <= i < s.len() ==> !separator(#[trigger] s[i]),
    ensures
        pieces(s, separator) == seq![s],
    decreases s.len(),
{
    if s.len() > 0 {
        let rest = s.drop_last();
        assert forall|i: int| 0 <= i < rest.len() implies !separator(#[trigger] rest[i]) by {
            assert(rest[i] == s[i]);
        }
        lemma_one_piece(rest, separator);
        assert(!separator(s[s.len() - 1]));
        assert(rest.push(s.last()) =~= s);
        assert(pieces(s, separator) =~= seq![s]);
    } else {
        assert(s =~= Seq::empty());
    }
}

/// A last piece is split off at the separator before it.
proof fn lemma_last_piece(
    head: Seq<char>,
    mark: char,
    tail: Seq<char>,
    separator: spec_fn(char) -> bool,
)
    requires
        separator(mark),
        forall|i: int| 0 <= i < tail.len() ==> !separator(#[trigger] tail[i]),
    ensures
        pieces(head + seq![mark] + tail, separator) == pieces(head, separator).push(tail),
    decreases tail.len(),
{
    let s = head + seq![mark] + tail;
    lemma_pieces_nonempty(head, separator);
    if tail.len() == 0 {
        assert(s.drop_last() =~= head);
        assert(s.last() == mark);
        assert(tail =~= Seq::empty());
    } else {
        let rest = tail.drop_last();
        assert forall|i: int| 0 <= i < rest.len() implies !separator(#[trigger] rest[i]) by {
            assert(rest[i] == tail[i]);
        }
        lemma_last_piece(head, mark, rest, separator);
        assert(s.drop_last() =~= head + seq![mark] + rest);
        assert(s.last() == tail[tail.len() - 1]);
        let before = pieces(head, separator).push(rest);
        assert(before.drop_last() =~= pieces(head, separator));
        assert(rest.push(tail.last()) =~= tail);
    }
}

/// Splitting undoes joining.
proof fn lemma_split_joined(texts: Seq<Seq<char>>, mark: char, separator: Seq<char>)
    requires
        texts.len() > 0,
        separator == seq![mark],
        forall|k: int, i: int|
            0 <= k < texts.len() && 0 <= i < texts[k].len() ==> #[trigger] texts[k][i] != mark,
    ensures
        split(joined(texts, separator), mark) == texts,
    decreases texts.len(),
{
    let last = texts.last();
    assert forall|i: int| 0 <= i < last.len() implies !only(mark)(#[trigger] last[i]) by {
        assert(texts[texts.len() - 1][i] != mark);
    }
    if texts.len() == 1 {
        lemma_one_piece(last, only(mark));
        assert(texts =~= seq![last]);
    } else {
        let rest = texts.drop_last();
        assert forall|k: int, i: int| 0 <= k < rest.len() && 0 <= i < rest[k].len() implies
            #[trigger] rest[k][i] != mark by {
            assert(rest[k] == texts[k]);
            assert(texts[k][i] != mark);
        }
        lemma_split_joined(rest, mark, separator);
        lemma_last_piece(joined(rest, separator), mark, last, only(mark));
        assert(texts =~= rest.push(last));
    }
}

/// A text that begins and ends visibly stays as it is when trimmed.
proof fn lemma_trimmed(s: Seq<char>)
    requires
        s.len() > 0,
        !whitespace(s[0]),
        !whitespace(s.last()),
    ensures
        trimmed(s) == s,
{
}

/// A number below 100 with two digits.
proof fn lemma_two_digits(n: nat)
    requires
        n < 100,
    ensures
        padded(n, 2) == seq![digit(n as int / 10), digit(n as int % 10)],
        all_numeric(padded(n, 2)),
        digits_value(padded(n, 2)) == n,
        numeric(digit(n as int / 10)),
        numeric(digit(n as int % 10)),
{
    reveal_with_fuel(decimal, 3);
    let s = seq![digit(n as int / 10), digit(n as int % 10)];
    if n < 10 {
        assert(padded(n, 2) =~= s);
    } else {
        assert(padded(n, 2) =~= s);
    }
    reveal_with_fuel(digits_value, 4);
    assert(s.drop_last() =~= seq![digit(n as int / 10)]);
    assert(s.drop_last().drop_last() =~= Seq::empty());
    assert(digit_value(digit(n as int / 10)) == n / 10);
    assert(digit_value(digit(n as int % 10)) == n % 10);
    assert(s.drop_last().last() == digit(n as int / 10));
    assert(n == 10 * (n / 10) + n % 10);
}

/// The characters of a time.
proof fn lemma_clock(minute: int)
    requires
        0 <= minute <= 1440,
    ensures
        clock(minute) == seq![
            digit(minute / 60 / 10),
            digit(minute / 60 % 10),
            ':',
            digit(minute % 60 / 10),
            digit(minute % 60 % 10),
        ],
        numeric(clock(minute)[0]),
        numeric(clock(minute)[1]),
        numeric(clock(minute)[3]),
        numeric(clock(minute)[4]),
{
    reveal_strlit(":");
    lemma_two_digits((minute / 60) as nat);
    lemma_two_digits((minute % 60) as nat);
    assert(clock(minute) =~= seq![
        digit(minute / 60 / 10),
        digit(minute / 60 % 10),
        ':',
        digit(minute % 60 / 10),
        digit(minute % 60 % 10),
    ]);
}

/// A time is read back.
proof fn lemma_time_round_trip(minute: u16)
    requires
        minute <= 1440,
    ensures
        read_time(clock(minute as int)) == Ok::<u16, Seq<char>>(minute),
{
    let m = minute as int;
    let text = clock(m);
    let hour = padded((m / 60) as nat, 2);
    let rest = padded((m % 60) as nat, 2);
    lemma_clock(m);
    lemma_two_digits((m / 60) as nat);
    lemma_two_digits((m % 60) as nat);
    lemma_trimmed(text);
    lemma_find(text, ':');
    assert(text[2] == ':');
    assert(find(text, ':') == 2);
    assert(text.take(2) =~= hour);
    assert(text.skip(3) =~= rest);
}

/// The name of a weekday is read back.
proof fn lemma_weekday_round_trip(weekday: u8)
    requires
        weekday < 7,
    ensures
        day_name(weekday as int).len() == 3,
        forall|i: int|
            0 <= i < 3 ==> !whitespace(#[trigger] day_name(weekday as int)[i])
                && day_name(weekday as int)[i] != ';',
        read_weekday(day_name(weekday as int)) == Ok::<u8, Seq<char>>(weekday),
{
    reveal_strlit("Mon");
    reveal_strlit("Tue");
    reveal_strlit("Wed");
    reveal_strlit("Thu");
    reveal_strlit("Fri");
    reveal_strlit("Sat");
    reveal_strlit("Sun");
    reveal_strlit("m");
    reveal_strlit("mon");
    reveal_strlit("monday");
    reveal_strlit("t");
    reveal_strlit("tu");
    reveal_strlit("tue");
    reveal_strlit("tues");
    reveal_strlit("tuesday");
    reveal_strlit("w");
    reveal_strlit("wed");
    reveal_strlit("weds");
    reveal_strlit("wednesday");
    reveal_strlit("r");
    reveal_strlit("th");
    reveal_strlit("thu");
    reveal_strlit("thur");
    reveal_strlit("thurs");
    reveal_strlit("thursday");
    reveal_strlit("f");
    reveal_strlit("fri");
    reveal_strlit("friday");
    reveal_strlit("sa");
    reveal_strlit("sat");
    reveal_strlit("saturday");
    reveal_strlit("su");
    reveal_strlit("sun");
    let text = day_name(weekday as int);
    lemma_trimmed(text);
    let name = lowered(text);
    assert(name.len() == 3);
    assert(name[0] == lower(text[0]) && name[1] == lower(text[1]) && name[2] == lower(text[2]));
    if weekday == 0 {
        assert(name =~= "mon"@);
    } else if weekday == 1 {
        assert("mon"@[0] == 'm');
        assert(name =~= "tue"@);
    } else if weekday == 2 {
        assert("mon"@[0] == 'm' && "tue"@[0] == 't');
        assert(name =~= "wed"@);
    } else if weekday == 3 {
        assert("mon"@[0] == 'm' && "tue"@[1] == 'u' && "wed"@[0] == 'w');
        assert(name =~= "thu"@);
    } else if weekday == 4 {
        assert("mon"@[0] == 'm' && "tue"@[0] == 't' && "wed"@[0] == 'w' && "thu"@[0] == 't');
        assert(name =~= "fri"@);
    } else if weekday == 5 {
        assert("mon"@[0] == 'm' && "tue"@[0] == 't' && "wed"@[0] == 'w' && "thu"@[0] == 't'
            && "fri"@[0] == 'f');
        assert(name =~= "sat"@);
    } else {
        assert("mon"@[0] == 'm' && "tue"@[0] == 't' && "wed"@[0] == 'w' && "thu"@[0] == 't'
            && "fri"@[0] == 'f' && "sat"@[1] == 'a');
        assert(name =~= "sun"@);
    }
}

/// A meeting is read back from its text, and the text has no semicolon.
#[verifier::spinoff_prover]
proof fn lemma_meeting_round_trip(m: Meeting, number: nat)
    requires
        meeting_valid(m),
        m.start_date is None,
        m.end_date is None,
    ensures
        read_meeting(meeting_text(m), number) == Ok::<Meeting, Seq<char>>(m),
        forall|i: int| 0 <= i < meeting_text(m).len() ==> #[trigger] meeting_text(m)[i] != ';',
{
    reveal_strlit(" ");
    reveal_strlit("-");
    let day = day_name(m.weekday as int);
    let start = clock(m.start_minute as int);
    let end = clock(m.end_minute as int);
    lemma_weekday_round_trip(m.weekday);
    lemma_clock(m.start_minute as int);
    lemma_clock(m.end_minute as int);
    lemma_time_round_trip(m.start_minute);
    lemma_time_round_trip(m.end_minute);
    let range = start + "-"@ + end;
    let text = meeting_text(m);
    assert(range.len() == 11);
    assert(text =~= day + seq![' '] + range);
    assert forall|i: int| 0 <= i < range.len() implies !whitespace(#[trigger] range[i]) && range[i]
        != ';' by {
        if i < 5 {
            assert(range[i] == start[i]);
        } else if i > 5 {
            assert(range[i] == end[i - 6]);
        } else {
            assert(range[i] == '-');
        }
    }
    assert forall|i: int| 0 <= i < text.len() implies #[trigger] text[i] != ';' by {
        if i < 3 {
            assert(text[i] == day[i]);
        } else if i > 3 {
            assert(text[i] == range[i - 4]);
        }
    }
    assert(text[0] == day[0] && text.last() == range[10]);
    lemma_trimmed(text);
    lemma_one_piece(day, blank());
    lemma_last_piece(day, ' ', range, blank());
    let both = pieces(text, blank());
    assert(both =~= seq![day, range]);
    let nonempty = |piece: Seq<char>| piece.len() > 0;
    assert(words(text) =~= both) by {
        reveal(Seq::filter);
        assert(both.drop_last() =~= seq![day]);
        assert(both.drop_last().drop_last() =~= Seq::empty());
        assert(Seq::<Seq<char>>::empty().filter(nonempty) =~= Seq::empty());
        assert(both.drop_last().filter(nonempty) =~= seq![day]);
        assert(both.filter(nonempty) =~= seq![day, range]);
    }
    lemma_find(range, '-');
    assert(range[5] == '-');
    assert forall|i: int| 0 <= i < 5 implies #[trigger] range[i] != '-' by {
        assert(range[i] == start[i]);
    }
    assert(find(range, '-') == 5);
    assert(range.take(5) =~= start);
    assert(range.skip(6) =~= end);
    assert(meeting_fault(m) is None);
}

proof fn lemma_parts_round_trip(meetings: Seq<Meeting>)
    requires
        forall|i: int|
            0 <= i < meetings.len() ==> meeting_valid(#[trigger] meetings[i])
                && meetings[i].start_date is None && meetings[i].end_date is None,
    ensures
        read_parts(meeting_texts(meetings)) == Ok::<Seq<Meeting>, Seq<char>>(meetings),
    decreases meetings.len(),
{
    let texts = meeting_texts(meetings);
    if meetings.len() == 0 {
        assert(meetings =~= Seq::empty());
    } else {
        let rest = meetings.drop_last();
        assert forall|i: int| 0 <= i < rest.len() implies meeting_valid(#[trigger] rest[i])
            && rest[i].start_date is None && rest[i].end_date is None by {
            assert(rest[i] == meetings[i]);
        }
        lemma_parts_round_trip(rest);
        assert(texts.drop_last() =~= meeting_texts(rest));
        assert(meeting_valid(meetings[meetings.len() - 1]));
        lemma_meeting_round_trip(meetings.last(), texts.len());
        assert(rest.push(meetings.last()) =~= meetings);
    }
}

/// Meetings are read back from the notation that the editor shows for them, in order and without
/// repetitions.
pub proof fn law_meetings_round_trip(meetings: Seq<Meeting>)
    requires
        meetings.len() > 0,
        forall|i: int|
            0 <= i < meetings.len() ==> meeting_valid(#[trigger] meetings[i])
                && meetings[i].start_date is None && meetings[i].end_date is None,
    ensures
        read_meetings(joined(meeting_texts(meetings), ";"@)) == Ok::<Seq<Meeting>, Seq<char>>(
            distinct_ascending::<Meeting>(meetings),
        ),
        ascending::<Meeting>(meetings) ==> distinct_ascending::<Meeting>(meetings) == meetings,
{
    reveal_strlit(";");
    let texts = meeting_texts(meetings);
    assert forall|k: int, i: int| 0 <= k < texts.len() && 0 <= i < texts[k].len() implies
        #[trigger] texts[k][i] != ';' by {
        assert(meeting_valid(meetings[k]));
        lemma_meeting_round_trip(meetings[k], 0);
        assert(meeting_text(meetings[k])[i] != ';');
    }
    assert(";"@ =~= seq![';']);
    lemma_split_joined(texts, ';', ";"@);
    lemma_parts_round_trip(meetings);
    if ascending::<Meeting>(meetings) {
        lemma_ascending_is_distinct::<Meeting>(meetings);
    }
}

proof fn lemma_parts_valid(parts: Seq<Seq<char>>)
    requires
        read_parts(parts) is Ok,
    ensures
        (read_parts(parts)->Ok_0).len() == parts.len(),
        forall|i: int|
            0 <= i < (read_parts(parts)->Ok_0).len() ==> meeting_valid(
                #[trigger] (read_parts(parts)->Ok_0)[i],
            ),
    decreases parts.len(),
{
    if parts.len() > 0 {
        lemma_parts_valid(parts.drop_last());
        let m = read_meeting(parts.last(), parts.len())->Ok_0;
        assert(meeting_fault(m) is None);
    }
}

/// Meetings that are read from a notation are valid, in order, different, and there is at least
/// one.
pub proof fn law_read_meetings_are_valid(text: Seq<char>)
    requires
        read_meetings(text) is Ok,
    ensures
        (read_meetings(text)->Ok_0).len() > 0,
        ascending::<Meeting>(read_meetings(text)->Ok_0),
        forall|i: int|
            0 <= i < (read_meetings(text)->Ok_0).len() ==> meeting_valid(
                #[trigger] (read_meetings(text)->Ok_0)[i],
            ),
{
    let parts = split(text, ';');
    let listed = read_parts(parts)->Ok_0;
    let meetings = read_meetings(text)->Ok_0;
    lemma_pieces_nonempty(text, only(';'));
    lemma_parts_valid(parts);
    lemma_distinct_ascending::<Meeting>(listed);
    assert(listed.contains(listed[0]));
    assert(meetings.contains(listed[0]));
    assert forall|i: int| 0 <= i < meetings.len() implies meeting_valid(#[trigger] meetings[i]) by {
        assert(meetings.contains(meetings[i]));
        assert(listed.contains(meetings[i]));
        let k = choose|k: int| 0 <= k < listed.len() && listed[k] == meetings[i];
        assert(meeting_valid(listed[k]));
    }
}

/// A course has a section among those of a requirement.
pub open spec fn course_offers(
    course: CourseView,
    requirement_id: Seq<char>,
    option: SectionOptionView,
) -> bool {
    exists|i: int|
        0 <= i < course.requirements.len() && (#[trigger] course.requirements[i]).id
            == requirement_id && course.requirements[i].options.contains(option)
}

/// A catalog has a section among those of a requirement of a course.
pub open spec fn offers(
    courses: Seq<(Seq<char>, CourseView)>,
    course_id: Seq<char>,
    requirement_id: Seq<char>,
    option: SectionOptionView,
) -> bool {
    match lookup(courses, course_id) {
        Some(course) => course_offers(course, requirement_id, option),
        None => false,
    }
}

/// A manual entry adds a section to a requirement of a course.
pub open spec fn adds(
    entry: ManualEntryView,
    term_id: Seq<char>,
    course_id: Seq<char>,
    requirement_id: Seq<char>,
    option: SectionOptionView,
) -> bool {
    &&& entry.enabled
    &&& entry.term_id == term_id
    &&& entry.course_id == course_id
    &&& entry.course_id + "/"@ + entry.kind == requirement_id
    &&& entry.option == option
}

proof fn lemma_kind_position(requirements: Seq<RequirementView>, kind: Seq<char>)
    ensures
        0 <= kind_position(requirements, kind) <= requirements.len(),
    decreases requirements.len(),
{
    if requirements.len() > 0 && requirements[0].kind != kind {
        lemma_kind_position(requirements.drop_first(), kind);
    }
}

proof fn lemma_merged_course(
    course: CourseView,
    calendar: Option<TermCalendarView>,
    entry: ManualEntryView,
    requirement_id: Seq<char>,
    option: SectionOptionView,
)
    requires
        merged_course(course, calendar, entry) is Ok,
    ensures
        course_offers(merged_course(course, calendar, entry)->Ok_0, requirement_id, option) <==> (
        course_offers(course, requirement_id, option) || (entry.course_id + "/"@ + entry.kind
            == requirement_id && entry.option == option)),
{
    let before = course.requirements;
    let reqs = with_component(course, entry)->Ok_0;
    let at = kind_position(before, entry.kind);
    let next = merged_course(course, calendar, entry)->Ok_0;
    lemma_kind_position(before, entry.kind);
    let grown = reqs[at].options.push(entry.option);
    lemma_sorted_elements(grown, id_le());
    assert(next.requirements[at].options.contains(option) <==> grown.contains(option));
    assert(grown[grown.len() - 1] == entry.option);
    assert(grown.contains(option) <==> reqs[at].options.contains(option) || option
        == entry.option) by {
        if grown.contains(option) {
            let k = choose|k: int| 0 <= k < grown.len() && grown[k] == option;
            if k < grown.len() - 1 {
                assert(reqs[at].options[k] == option);
            }
        }
        if reqs[at].options.contains(option) {
            let k = choose|k: int|
                0 <= k < reqs[at].options.len() && reqs[at].options[k] == option;
            assert(grown[k] == option);
        }
    }
    if course_offers(course, requirement_id, option) {
        let i = choose|i: int|
            0 <= i < before.len() && (#[trigger] before[i]).id == requirement_id
                && before[i].options.contains(option);
        assert(reqs[i] == before[i]);
        assert(next.requirements[i].id == requirement_id);
        assert(next.requirements[i].options.contains(option));
    }
    if entry.course_id + "/"@ + entry.kind == requirement_id && entry.option == option {
        assert(next.requirements[at].id == requirement_id);
        assert(next.requirements[at].options.contains(option));
    }
    if course_offers(next, requirement_id, option) {
        let i = choose|i: int|
            0 <= i < next.requirements.len() && (#[trigger] next.requirements[i]).id
                == requirement_id && next.requirements[i].options.contains(option);
        if i == at {
            if option != entry.option {
                assert(reqs[at].options.contains(option));
                assert(at < before.len());
                assert(before[at].id == requirement_id);
            }
        } else {
            assert(next.requirements[i] == reqs[i]);
            assert(before[i].id == requirement_id);
        }
    }
}

proof fn lemma_merged_all(
    courses: Seq<(Seq<char>, CourseView)>,
    calendar: Option<TermCalendarView>,
    term_id: Seq<char>,
    entries: Seq<ManualEntryView>,
    course_id: Seq<char>,
    requirement_id: Seq<char>,
    option: SectionOptionView,
)
    requires
        ascending::<String>(keys_of(courses)),
        merged_all(courses, calendar, term_id, entries) is Ok,
    ensures
        ({
            let after = merged_all(courses, calendar, term_id, entries)->Ok_0;
            &&& keys_of(after) == keys_of(courses)
            &&& offers(after, course_id, requirement_id, option) <==> (offers(
                courses,
                course_id,
                requirement_id,
                option,
            ) || exists|k: int|
                0 <= k < entries.len() && adds(
                    #[trigger] entries[k],
                    term_id,
                    course_id,
                    requirement_id,
                    option,
                ))
        }),
    decreases entries.len(),
{
    if entries.len() > 0 {
        let rest = entries.drop_last();
        let entry = entries.last();
        lemma_merged_all(
            courses,
            calendar,
            term_id,
            rest,
            course_id,
            requirement_id,
            option,
        );
        let before = merged_all(courses, calendar, term_id, rest)->Ok_0;
        let after = merged_all(courses, calendar, term_id, entries)->Ok_0;
        assert(forall|k: int| 0 <= k < rest.len() ==> rest[k] == entries[k]);
        assert(entries[entries.len() - 1] == entry);
        if entry.term_id == term_id && entry.enabled {
            let course = lookup(before, entry.course_id)->0;
            let next = merged_course(course, calendar, entry)->Ok_0;
            lemma_map_insert::<String, CourseView>(before, entry.course_id, next);
            law_lookup_after_insert::<String, CourseView>(
                before,
                entry.course_id,
                next,
                course_id,
            );
            lemma_lookup(before, entry.course_id);
            assert(keys_of(after) == keys_of(before));
            if course_id == entry.course_id {
                lemma_merged_course(course, calendar, entry, requirement_id, option);
            }
        }
        if exists|k: int|
            0 <= k < rest.len() && adds(
                #[trigger] rest[k],
                term_id,
                course_id,
                requirement_id,
                option,
            ) {
            let k = choose|k: int|
                0 <= k < rest.len() && adds(
                    #[trigger] rest[k],
                    term_id,
                    course_id,
                    requirement_id,
                    option,
                );
            assert(adds(entries[k], term_id, course_id, requirement_id, option));
        }
        if exists|k: int|
            0 <= k < entries.len() && adds(
                #[trigger] entries[k],
                term_id,
                course_id,
                requirement_id,
                option,
            ) {
            let k = choose|k: int|
                0 <= k < entries.len() && adds(
                    #[trigger] entries[k],
                    term_id,
                    course_id,
                    requirement_id,
                    option,
                );
            if k < rest.len() {
                assert(adds(rest[k], term_id, course_id, requirement_id, option));
            }
        }
    }
}

proof fn lemma_tidy_lookup(courses: Seq<(Seq<char>, CourseView)>, id: Seq<char>)
    ensures
        lookup(tidy_all(courses), id) == (match lookup(courses, id) {
            Some(course) => Some(tidy(course)),
            None => None,
        }),
    decreases courses.len(),
{
    if courses.len() > 0 {
        assert(tidy_all(courses).drop_first() =~= tidy_all(courses.drop_first()));
        lemma_tidy_lookup(courses.drop_first(), id);
    }
}

proof fn lemma_tidy_offers(
    course: CourseView,
    requirement_id: Seq<char>,
    option: SectionOptionView,
)
    ensures
        course_offers(tidy(course), requirement_id, option) <==> course_offers(
            course,
            requirement_id,
            option,
        ),
{
    let sorted = stable_sorted(course.requirements, requirement_le());
    lemma_sorted_elements(course.requirements, requirement_le());
    if course_offers(course, requirement_id, option) {
        let i = choose|i: int|
            0 <= i < course.requirements.len() && (#[trigger] course.requirements[i]).id
                == requirement_id && course.requirements[i].options.contains(option);
        assert(course.requirements.contains(course.requirements[i]));
        assert(sorted.contains(course.requirements[i]));
        let k = choose|k: int| 0 <= k < sorted.len() && sorted[k] == course.requirements[i];
        assert(tidy(course).requirements[k].id == requirement_id);
    }
    if course_offers(tidy(course), requirement_id, option) {
        let i = choose|i: int|
            0 <= i < tidy(course).requirements.len() && (#[trigger] tidy(course).requirements[i]).id
                == requirement_id && tidy(course).requirements[i].options.contains(option);
        assert(sorted.contains(sorted[i]));
        assert(course.requirements.contains(sorted[i]));
        let k = choose|k: int|
            0 <= k < course.requirements.len() && course.requirements[k] == sorted[i];
        assert(course.requirements[k].id == requirement_id);
    }
}

/// Manual sections are an overlay: the catalog with them offers exactly the published sections
/// and those that the enabled entries of its term add, for the same courses. Entries of other
/// terms and disabled ones change nothing.
pub proof fn law_manual_sections_are_an_overlay(
    base: DatasetView,
    store: ManualStoreView,
    course_id: Seq<char>,
    requirement_id: Seq<char>,
    option: SectionOptionView,
)
    requires
        ascending::<String>(keys_of(base.courses)),
        with_manual(base, store) is Ok,
    ensures
        ({
            let merged = with_manual(base, store)->Ok_0;
            &&& merged.term_id == base.term_id
            &&& merged.calendar == base.calendar
            &&& keys_of(merged.courses) == keys_of(base.courses)
            &&& offers(merged.courses, course_id, requirement_id, option) <==> (offers(
                base.courses,
                course_id,
                requirement_id,
                option,
            ) || exists|k: int|
                0 <= k < store.entries.len() && adds(
                    #[trigger] store.entries[k],
                    base.term_id,
                    course_id,
                    requirement_id,
                    option,
                ))
        }),
{
    let courses = merged_all(base.courses, base.calendar, base.term_id, store.entries)->Ok_0;
    lemma_merged_all(
        base.courses,
        base.calendar,
        base.term_id,
        store.entries,
        course_id,
        requirement_id,
        option,
    );
    assert(keys_of(tidy_all(courses)) =~= keys_of(courses));
    lemma_tidy_lookup(courses, course_id);
    match lookup(courses, course_id) {
        Some(course) => lemma_tidy_offers(course, requirement_id, option),
        None => {},
    }
}

/// In a feasible timetable any member of a choice can stand in for another: no two members of
/// different choices exclude each other.
pub proof fn law_members_are_interchangeable(
    p: Problem,
    timetable: Seq<TimeChoiceView>,
    i: int,
    j: int,
    left: SectionOptionView,
    right: SectionOptionView,
)
    requires
        feasible(p, timetable),
        0 <= i < timetable.len(),
        0 <= j < timetable.len(),
        i != j,
        timetable[i].members.contains(left),
        timetable[j].members.contains(right),
    ensures
        members_compatible(left, right),
{
    let a = choose|a: int| 0 <= a < timetable[i].members.len() && timetable[i].members[a] == left;
    let b = choose|b: int| 0 <= b < timetable[j].members.len() && timetable[j].members[b] == right;
    if i < j {
        assert(compatible(timetable[i], timetable[j]));
        assert(members_compatible(timetable[i].members[a], timetable[j].members[b]));
    } else {
        assert(compatible(timetable[j], timetable[i]));
        assert(members_compatible(timetable[j].members[b], timetable[i].members[a]));
    }
}

proof fn lemma_teaching_days(
    calendar: TermCalendarView,
    weekday: int,
    first: int,
    last: int,
    day: int,
)
    ensures
        teaching_days(calendar, weekday, first, last).contains(day) <==> first <= day <= last
            && taught(calendar, day, weekday),
    decreases last - first + 1,
{
    if first <= last {
        lemma_teaching_days(calendar, weekday, first, last - 1, day);
        let rest = teaching_days(calendar, weekday, first, last - 1);
        let all = teaching_days(calendar, weekday, first, last);
        if taught(calendar, last, weekday) {
            assert(all[all.len() - 1] == last);
            if rest.contains(day) {
                let k = choose|k: int| 0 <= k < rest.len() && rest[k] == day;
                assert(all[k] == day);
            }
            if all.contains(day) && day != last {
                let k = choose|k: int| 0 <= k < all.len() && all[k] == day;
                assert(rest[k] == day);
            }
        }
    }
}

/// The exported days of a meeting are exactly the days of the term, within its own dates where
/// they count, that are no holidays and follow the timetable of its weekday.
pub proof fn law_meeting_days(calendar: TermCalendarView, m: Meeting, bounded: bool, day: int)
    ensures
        meeting_days(calendar, m, bounded).contains(day) <==> {
            &&& calendar.start <= day <= calendar.end
            &&& bounded ==> window_start(calendar, m) <= day <= window_end(calendar, m)
            &&& taught(calendar, day, m.weekday as int)
        },
{
    if bounded {
        lemma_teaching_days(
            calendar,
            m.weekday as int,
            window_start(calendar, m),
            window_end(calendar, m),
            day,
        );
    } else {
        lemma_teaching_days(calendar, m.weekday as int, calendar.start, calendar.end, day);
    }
}

/// An event comes before another by start, end and identity.
pub open spec fn event_before(a: EventView, b: EventView) -> bool {
    event_le()(a, b) && (a.start, a.end, a.uid) != (b.start, b.end, b.uid)
}

proof fn lemma_event_order()
    ensures
        forall|x: EventView, y: EventView|
            #![trigger event_le()(x, y)]
            event_le()(x, y) || event_le()(y, x),
        forall|x: EventView, y: EventView, z: EventView|
            #![trigger event_le()(x, y), event_le()(y, z)]
            event_le()(x, y) && event_le()(y, z) ==> event_le()(x, z),
{
    assert forall|x: EventView, y: EventView| #![trigger event_le()(x, y)] event_le()(x, y)
        || event_le()(y, x) by {
        <String as Rank>::before_total(x.start, y.start);
        <String as Rank>::before_total(x.end, y.end);
        <String as Rank>::before_total(x.uid, y.uid);
        if text_before(x.uid, y.uid) && text_before(y.uid, x.uid) {
            <String as Rank>::before_transitive(x.uid, y.uid, x.uid);
            <String as Rank>::before_irreflexive(x.uid);
        }
    }
    assert forall|x: EventView, y: EventView, z: EventView|
        #![trigger event_le()(x, y), event_le()(y, z)]
        event_le()(x, y) && event_le()(y, z) implies event_le()(x, z) by {
        if x.start != y.start && y.start != z.start {
            <String as Rank>::before_transitive(x.start, y.start, z.start);
            if x.start == z.start {
                <String as Rank>::before_irreflexive(x.start);
            }
        } else if x.start == y.start && y.start == z.start {
            if x.end != y.end && y.end != z.end {
                <String as Rank>::before_transitive(x.end, y.end, z.end);
                if x.end == z.end {
                    <String as Rank>::before_irreflexive(x.end);
                }
            } else if x.end == y.end && y.end == z.end {
                lemma_not_after(x.uid, y.uid, z.uid);
            }
        }
    }
}

/// Not coming after is transitive.
proof fn lemma_not_after(a: Seq<char>, b: Seq<char>, c: Seq<char>)
    requires
        !text_before(b, a),
        !text_before(c, b),
    ensures
        !text_before(c, a),
{
    <String as Rank>::before_total(a, b);
    <String as Rank>::before_total(b, c);
    if text_before(c, a) && a != b {
        <String as Rank>::before_transitive(c, a, b);
    }
}

proof fn lemma_without_repeats(events: Seq<EventView>)
    requires
        forall|i: int, j: int|
            #![trigger events[i], events[j]]
            0 <= i < j < events.len() ==> event_le()(events[i], events[j]),
    ensures
        forall|x: EventView| #[trigger]
            without_repeats(events).contains(x) ==> events.contains(x),
        forall|i: int, j: int|
            #![trigger without_repeats(events)[i], without_repeats(events)[j]]
            0 <= i < j < without_repeats(events).len() ==> event_before(
                without_repeats(events)[i],
                without_repeats(events)[j],
            ),
    decreases events.len(),
{
    if events.len() > 0 {
        let before = events.drop_last();
        let last = events.last();
        assert forall|i: int, j: int|
            #![trigger before[i], before[j]]
            0 <= i < j < before.len() implies event_le()(before[i], before[j]) by {
            assert(before[i] == events[i] && before[j] == events[j]);
        }
        lemma_without_repeats(before);
        lemma_event_order();
        let kept = without_repeats(before);
        let out = without_repeats(events);
        assert(events[events.len() - 1] == last);
        assert forall|x: EventView| #[trigger] kept.contains(x) implies events.contains(x)
            && event_le()(x, last) by {
            assert(before.contains(x));
            let k = choose|k: int| 0 <= k < before.len() && before[k] == x;
            assert(events[k] == x);
            assert(event_le()(events[k], events[events.len() - 1]));
        }
        assert forall|x: EventView| #[trigger] out.contains(x) implies events.contains(x) by {
            let k = choose|k: int| 0 <= k < out.len() && out[k] == x;
            if k < kept.len() {
                assert(kept[k] == x);
                assert(kept.contains(x));
            }
        }
        assert forall|i: int, j: int|
            #![trigger out[i], out[j]]
            0 <= i < j < out.len() implies event_before(out[i], out[j]) by {
            assert(out[i] == kept[i]);
            assert(kept.contains(kept[i]));
            if j < kept.len() {
                assert(out[j] == kept[j]);
            } else {
                let end = kept.len() - 1;
                assert(kept.contains(kept[end]));
                assert(kept[end].uid != last.uid);
                if i < end {
                    assert(event_before(kept[i], kept[end]));
                    lemma_before_and_le(kept[i], kept[end], last);
                }
            }
        }
    }
}

proof fn lemma_before_and_le(a: EventView, b: EventView, c: EventView)
    requires
        event_before(a, b),
        event_le()(b, c),
    ensures
        event_before(a, c),
{
    lemma_event_order();
    assert(event_le()(a, b) && event_le()(b, c));
    if (a.start, a.end, a.uid) == (c.start, c.end, c.uid) {
        <String as Rank>::before_total(a.start, b.start);
        <String as Rank>::before_total(a.end, b.end);
        <String as Rank>::before_total(a.uid, b.uid);
        if a.start != b.start {
            <String as Rank>::before_transitive(a.start, b.start, a.start);
            <String as Rank>::before_irreflexive(a.start);
        } else if a.end != b.end {
            <String as Rank>::before_transitive(a.end, b.end, a.end);
            <String as Rank>::before_irreflexive(a.end);
        }
    }
}

/// The exported events are in order, and no two have the same start, end and identity.
pub proof fn law_exported_events_are_ordered(events: Seq<EventView>, i: int, j: int)
    requires
        0 <= i < j < arranged_events(events).len(),
    ensures
        event_before(arranged_events(events)[i], arranged_events(events)[j]),
        events.contains(arranged_events(events)[i]),
{
    let sorted = stable_sorted(events, event_le());
    lemma_event_order();
    law_stable_sorted(events, event_le());
    lemma_sorted_elements(events, event_le());
    lemma_without_repeats(sorted);
    let out = arranged_events(events);
    assert(out.contains(out[i]));
}

/// The events that one section puts into an export.
#[verifier::opaque]
spec fn own_events(calendar: TermCalendarView, section: ChosenSectionView) -> Seq<EventView> {
    if omission(section) is None {
        section_events(calendar, section, section.section.meetings)->Ok_0
    } else {
        Seq::empty()
    }
}

/// What an export says of one section: that it is left out, if it is.
#[verifier::opaque]
spec fn own_notices(calendar: TermCalendarView, section: ChosenSectionView) -> Seq<Seq<char>> {
    if omission(section) is Some {
        seq![omitted_notice(section, omission(section)->0)]
    } else if own_events(calendar, section).len() == 0 {
        seq![omitted_notice(section, "no class dates matched the term calendar"@)]
    } else {
        Seq::empty()
    }
}

/// A section can be exported, or is left out.
spec fn exportable(calendar: TermCalendarView, section: ChosenSectionView) -> bool {
    omission(section) is Some || section_events(calendar, section, section.section.meetings) is Ok
}

proof fn lemma_collected(calendar: TermCalendarView, chosen: Seq<ChosenSectionView>)
    ensures
        collected(calendar, chosen) is Ok <==> forall|i: int|
            0 <= i < chosen.len() ==> exportable(calendar, #[trigger] chosen[i]),
    decreases chosen.len(),
{
    if chosen.len() > 0 {
        let rest = chosen.drop_last();
        lemma_collected(calendar, rest);
        assert(forall|i: int| 0 <= i < rest.len() ==> rest[i] == chosen[i]);
        assert(chosen[chosen.len() - 1] == chosen.last());
        if collected(calendar, chosen) is Ok {
            assert forall|i: int| 0 <= i < chosen.len() implies exportable(
                calendar,
                #[trigger] chosen[i],
            ) by {
                if i < rest.len() {
                    assert(exportable(calendar, rest[i]));
                }
            }
        }
        if forall|i: int| 0 <= i < chosen.len() ==> exportable(calendar, #[trigger] chosen[i]) {
            assert forall|i: int| 0 <= i < rest.len() implies exportable(
                calendar,
                #[trigger] rest[i],
            ) by {
                assert(exportable(calendar, chosen[i]));
            }
            assert(exportable(calendar, chosen[chosen.len() - 1]));
        }
    }
}

/// The last section adds its events and what is said of it.
proof fn lemma_collected_last(calendar: TermCalendarView, chosen: Seq<ChosenSectionView>)
    requires
        chosen.len() > 0,
        collected(calendar, chosen) is Ok,
    ensures
        collected(calendar, chosen.drop_last()) is Ok,
        (collected(calendar, chosen)->Ok_0).0 == (collected(
            calendar,
            chosen.drop_last(),
        )->Ok_0).0 + own_events(calendar, chosen.last()),
        (collected(calendar, chosen)->Ok_0).1 == (collected(
            calendar,
            chosen.drop_last(),
        )->Ok_0).1 + own_notices(calendar, chosen.last()),
{
    reveal(own_events);
    reveal(own_notices);
    let last = chosen.last();
    let (events, notices) = collected(calendar, chosen.drop_last())->Ok_0;
    let (all, said) = collected(calendar, chosen)->Ok_0;
    assert(all =~= events + own_events(calendar, last));
    assert(said =~= notices + own_notices(calendar, last));
}

proof fn lemma_contributed(
    calendar: TermCalendarView,
    chosen: Seq<ChosenSectionView>,
    event: EventView,
)
    requires
        collected(calendar, chosen) is Ok,
    ensures
        (collected(calendar, chosen)->Ok_0).0.contains(event) <==> exists|i: int|
            0 <= i < chosen.len() && own_events(calendar, #[trigger] chosen[i]).contains(event),
    decreases chosen.len(),
{
    if chosen.len() > 0 {
        let rest = chosen.drop_last();
        let n = rest.len() as int;
        lemma_collected_last(calendar, chosen);
        lemma_contributed(calendar, rest, event);
        let events = (collected(calendar, rest)->Ok_0).0;
        let own = own_events(calendar, chosen[n]);
        lemma_sum_contains(events, own, event);
        if events.contains(event) {
            let i = choose|i: int|
                0 <= i < rest.len() && own_events(calendar, #[trigger] rest[i]).contains(event);
            assert(own_events(calendar, chosen[i]).contains(event));
        }
        if exists|i: int|
            0 <= i < chosen.len() && own_events(calendar, #[trigger] chosen[i]).contains(event) {
            let i = choose|i: int|
                0 <= i < chosen.len() && own_events(calendar, #[trigger] chosen[i]).contains(
                    event,
                );
            if i < n {
                assert(own_events(calendar, rest[i]).contains(event));
            }
        }
    }
}

proof fn lemma_said(
    calendar: TermCalendarView,
    chosen: Seq<ChosenSectionView>,
    notice: Seq<char>,
)
    requires
        collected(calendar, chosen) is Ok,
    ensures
        (collected(calendar, chosen)->Ok_0).1.contains(notice) <==> exists|i: int|
            0 <= i < chosen.len() && own_notices(calendar, #[trigger] chosen[i]).contains(notice),
    decreases chosen.len(),
{
    if chosen.len() > 0 {
        let rest = chosen.drop_last();
        let n = rest.len() as int;
        lemma_collected_last(calendar, chosen);
        lemma_said(calendar, rest, notice);
        let notices = (collected(calendar, rest)->Ok_0).1;
        let own = own_notices(calendar, chosen[n]);
        lemma_sum_contains(notices, own, notice);
        if notices.contains(notice) {
            let i = choose|i: int|
                0 <= i < rest.len() && own_notices(calendar, #[trigger] rest[i]).contains(notice);
            assert(own_notices(calendar, chosen[i]).contains(notice));
        }
        if exists|i: int|
            0 <= i < chosen.len() && own_notices(calendar, #[trigger] chosen[i]).contains(notice) {
            let i = choose|i: int|
                0 <= i < chosen.len() && own_notices(calendar, #[trigger] chosen[i]).contains(
                    notice,
                );
            if i < n {
                assert(own_notices(calendar, rest[i]).contains(notice));
            }
        }
    }
}

/// What events are ordered by.
pub open spec fn event_key(event: EventView) -> (Seq<char>, Seq<char>, Seq<char>) {
    (event.start, event.end, event.uid)
}

/// Events with the same start, end and identity are the same.
pub open spec fn told_apart(events: Seq<EventView>) -> bool {
    forall|i: int, j: int|
        #![trigger events[i], events[j]]
        0 <= i < events.len() && 0 <= j < events.len() && event_key(events[i]) == event_key(
            events[j],
        ) ==> events[i] == events[j]
}

/// The keys of events.
spec fn event_keys(events: Seq<EventView>) -> Seq<(Seq<char>, Seq<char>, Seq<char>)> {
    Seq::new(events.len(), |i: int| event_key(events[i]))
}

/// The events, the later of which with the same key as the one before are left out.
spec fn once_each(events: Seq<EventView>) -> Seq<EventView>
    decreases events.len(),
{
    if events.len() == 0 {
        Seq::empty()
    } else {
        let rest = once_each(events.drop_last());
        if rest.len() > 0 && event_key(rest.last()) == event_key(events.last()) {
            rest
        } else {
            rest.push(events.last())
        }
    }
}

/// Leaving out events with the key of the one before does not change what repetitions are left
/// out.
proof fn lemma_once_each(events: Seq<EventView>)
    ensures
        events.len() > 0 ==> once_each(events).len() > 0 && event_key(once_each(events).last())
            == event_key(events.last()),
        events.len() > 0 ==> without_repeats(events).len() > 0 && without_repeats(
            events,
        ).last().uid == events.last().uid,
        without_repeats(once_each(events)) == without_repeats(events),
    decreases events.len(),
{
    if events.len() > 0 {
        let before = events.drop_last();
        let last = events.last();
        lemma_once_each(before);
        let rest = once_each(before);
        if !(rest.len() > 0 && event_key(rest.last()) == event_key(last)) {
            assert(rest.push(last).drop_last() =~= rest);
        } else {
            assert(before.last().uid == last.uid);
        }
    } else {
        assert(once_each(events) =~= events);
    }
}

/// Events in order, each key once.
proof fn lemma_once_ordered(events: Seq<EventView>)
    requires
        in_order(events, event_le()),
    ensures
        forall|x: EventView| #[trigger] once_each(events).contains(x) ==> events.contains(x),
        forall|x: EventView| #[trigger]
            events.contains(x) ==> event_keys(once_each(events)).contains(event_key(x)),
        forall|i: int, j: int|
            #![trigger once_each(events)[i], once_each(events)[j]]
            0 <= i < j < once_each(events).len() ==> event_before(
                once_each(events)[i],
                once_each(events)[j],
            ),
    decreases events.len(),
{
    if events.len() > 0 {
        let before = events.drop_last();
        let last = events.last();
        assert forall|i: int, j: int|
            #![trigger before[i], before[j]]
            0 <= i < j < before.len() implies event_le()(before[i], before[j]) by {
            assert(before[i] == events[i] && before[j] == events[j]);
        }
        lemma_once_ordered(before);
        lemma_once_each(events);
        lemma_event_order();
        let kept = once_each(before);
        let out = once_each(events);
        assert(events[events.len() - 1] == last);
        assert forall|x: EventView| #[trigger] kept.contains(x) implies events.contains(x)
            && event_le()(x, last) by {
            assert(before.contains(x));
            let k = choose|k: int| 0 <= k < before.len() && before[k] == x;
            assert(events[k] == x);
            assert(event_le()(events[k], events[events.len() - 1]));
        }
        assert forall|x: EventView| #[trigger] out.contains(x) implies events.contains(x) by {
            let k = choose|k: int| 0 <= k < out.len() && out[k] == x;
            if k < kept.len() {
                assert(kept[k] == x);
                assert(kept.contains(x));
            }
        }
        let keys = event_keys(out);
        assert forall|x: EventView| #[trigger] events.contains(x) implies keys.contains(
            event_key(x),
        ) by {
            let k = choose|k: int| 0 <= k < events.len() && events[k] == x;
            if k < before.len() {
                assert(before[k] == x);
                assert(before.contains(x));
                let old = event_keys(kept);
                assert(old.contains(event_key(x)));
                let l = choose|l: int| 0 <= l < old.len() && old[l] == event_key(x);
                assert(out[l] == kept[l]);
                assert(keys[l] == event_key(x));
            } else {
                assert(keys[out.len() - 1] == event_key(out.last()));
            }
        }
        assert forall|i: int, j: int|
            #![trigger out[i], out[j]]
            0 <= i < j < out.len() implies event_before(out[i], out[j]) by {
            assert(out[i] == kept[i]);
            assert(kept.contains(kept[i]));
            if j < kept.len() {
                assert(out[j] == kept[j]);
            } else {
                let end = kept.len() - 1;
                assert(kept.contains(kept[end]));
                assert(event_key(kept[end]) != event_key(last));
                if i < end {
                    assert(event_before(kept[i], kept[end]));
                    lemma_before_and_le(kept[i], kept[end], last);
                }
            }
        }
    }
}

/// The keys of the events that remain depend on the keys alone.
proof fn lemma_remaining_keys(a: Seq<EventView>, b: Seq<EventView>)
    requires
        event_keys(a) == event_keys(b),
    ensures
        event_keys(without_repeats(a)) == event_keys(without_repeats(b)),
    decreases a.len(),
{
    assert(a.len() == event_keys(a).len() && b.len() == event_keys(b).len());
    if a.len() > 0 {
        let c = a.drop_last();
        let d = b.drop_last();
        assert(event_keys(c) =~= event_keys(a).drop_last());
        assert(event_keys(d) =~= event_keys(b).drop_last());
        lemma_remaining_keys(c, d);
        let p = without_repeats(c);
        let q = without_repeats(d);
        assert(p.len() == event_keys(p).len() && q.len() == event_keys(q).len());
        assert(event_keys(a)[a.len() - 1] == event_keys(b)[b.len() - 1]);
        assert(event_key(a.last()) == event_key(b.last()));
        if p.len() > 0 {
            assert(event_keys(p)[p.len() - 1] == event_keys(q)[q.len() - 1]);
        }
        assert(event_keys(p.push(a.last())) =~= event_keys(p).push(event_key(a.last())));
        assert(event_keys(q.push(b.last())) =~= event_keys(q).push(event_key(b.last())));
    }
}

/// Keys in order that are the same ones come in the same order.
proof fn lemma_same_keys(a: Seq<EventView>, b: Seq<EventView>)
    requires
        same_elements(a, b),
    ensures
        event_keys(arranged_events(a)) == event_keys(arranged_events(b)),
        forall|x: EventView| #[trigger] arranged_events(a).contains(x) ==> a.contains(x),
{
    let s = stable_sorted(a, event_le());
    let t = stable_sorted(b, event_le());
    lemma_event_order();
    law_stable_sorted(a, event_le());
    law_stable_sorted(b, event_le());
    lemma_sorted_elements(a, event_le());
    lemma_sorted_elements(b, event_le());
    lemma_once_ordered(s);
    lemma_once_ordered(t);
    lemma_once_each(s);
    lemma_once_each(t);
    lemma_without_repeats(s);
    let x = once_each(s);
    let y = once_each(t);
    let p = event_keys(x);
    let q = event_keys(y);
    assert forall|k: (Seq<char>, Seq<char>, Seq<char>)| #[trigger]
        p.contains(k) <==> q.contains(k) by {
        if p.contains(k) {
            let i = choose|i: int| 0 <= i < p.len() && p[i] == k;
            assert(x.contains(x[i]));
            assert(s.contains(x[i]));
            assert(a.contains(x[i]));
            assert(b.contains(x[i]));
            assert(t.contains(x[i]));
        }
        if q.contains(k) {
            let i = choose|i: int| 0 <= i < q.len() && q[i] == k;
            assert(y.contains(y[i]));
            assert(t.contains(y[i]));
            assert(b.contains(y[i]));
            assert(a.contains(y[i]));
            assert(s.contains(y[i]));
        }
    }
    lemma_ordered_keys(x);
    lemma_ordered_keys(y);
    lemma_key_order();
    let whole = |k: (Seq<char>, Seq<char>, Seq<char>)| k;
    lemma_sorted_unique(p, q, key_le(), whole);
    lemma_remaining_keys(x, y);
    assert forall|e: EventView| #[trigger] arranged_events(a).contains(e) implies a.contains(e) by {
        assert(s.contains(e));
    }
}

/// The order of keys.
spec fn key_le() -> spec_fn(
    (Seq<char>, Seq<char>, Seq<char>),
    (Seq<char>, Seq<char>, Seq<char>),
) -> bool {
    |a: (Seq<char>, Seq<char>, Seq<char>), b: (Seq<char>, Seq<char>, Seq<char>)|
        if a.0 != b.0 {
            text_before(a.0, b.0)
        } else if a.1 != b.1 {
            text_before(a.1, b.1)
        } else {
            !text_before(b.2, a.2)
        }
}

proof fn lemma_key_order()
    ensures
        forall|x: (Seq<char>, Seq<char>, Seq<char>), y: (Seq<char>, Seq<char>, Seq<char>)|
            #![trigger key_le()(x, y)]
            key_le()(x, y) && key_le()(y, x) ==> x == y,
{
    assert forall|x: (Seq<char>, Seq<char>, Seq<char>), y: (Seq<char>, Seq<char>, Seq<char>)|
        #![trigger key_le()(x, y)]
        key_le()(x, y) && key_le()(y, x) implies x == y by {
        <String as Rank>::before_total(x.2, y.2);
        if x.0 != y.0 {
            <String as Rank>::before_transitive(x.0, y.0, x.0);
            <String as Rank>::before_irreflexive(x.0);
        } else if x.1 != y.1 {
            <String as Rank>::before_transitive(x.1, y.1, x.1);
            <String as Rank>::before_irreflexive(x.1);
        }
    }
}

proof fn lemma_ordered_keys(events: Seq<EventView>)
    requires
        forall|i: int, j: int|
            #![trigger events[i], events[j]]
            0 <= i < j < events.len() ==> event_before(events[i], events[j]),
    ensures
        in_order(event_keys(events), key_le()),
        distinct_by(event_keys(events), |k: (Seq<char>, Seq<char>, Seq<char>)| k),
{
    let keys = event_keys(events);
    let whole = |k: (Seq<char>, Seq<char>, Seq<char>)| k;
    assert forall|i: int, j: int| #![trigger keys[i], keys[j]] 0 <= i < j < keys.len() implies
        key_le()(keys[i], keys[j]) by {
        assert(event_before(events[i], events[j]));
    }
    assert forall|i: int, j: int|
        #![trigger keys[i], keys[j]]
        0 <= i < keys.len() && 0 <= j < keys.len() && i != j implies whole(keys[i]) != whole(
        keys[j],
    ) by {
        if i < j {
            assert(event_before(events[i], events[j]));
        } else {
            assert(event_before(events[j], events[i]));
        }
    }
}

/// The events of two exports come out the same if they are the same events.
proof fn lemma_same_events(a: Seq<EventView>, b: Seq<EventView>)
    requires
        told_apart(a),
        same_elements(a, b),
    ensures
        arranged_events(a) == arranged_events(b),
{
    let p = arranged_events(a);
    let q = arranged_events(b);
    lemma_same_keys(a, b);
    lemma_same_keys(b, a);
    assert(p.len() == event_keys(p).len() && q.len() == event_keys(q).len());
    assert forall|i: int| 0 <= i < p.len() implies p[i] == q[i] by {
        assert(event_keys(p)[i] == event_keys(q)[i]);
        assert(p.contains(p[i]) && q.contains(q[i]));
        assert(a.contains(p[i]) && b.contains(q[i]));
        assert(a.contains(q[i]));
        let k = choose|k: int| 0 <= k < a.len() && a[k] == p[i];
        let l = choose|l: int| 0 <= l < a.len() && a[l] == q[i];
        assert(event_key(a[k]) == event_key(a[l]));
    }
    assert(p =~= q);
}

/// The order in which sections are chosen, and repeating one, changes nothing of an export: it is
/// refused either way, or the number of events and the notices stay the same. The file does too,
/// unless there are two different events with the same start, end and identity, as a section that
/// is given in two versions has.
pub proof fn law_export_order_is_irrelevant(
    calendar: TermCalendarView,
    a: Seq<ChosenSectionView>,
    b: Seq<ChosenSectionView>,
)
    requires
        forall|section: ChosenSectionView| #[trigger] a.contains(section) <==> b.contains(section),
    ensures
        exported(calendar, a) is Ok <==> exported(calendar, b) is Ok,
        exported(calendar, a) is Ok ==> {
            &&& (exported(calendar, a)->Ok_0).event_count == (exported(
                calendar,
                b,
            )->Ok_0).event_count
            &&& (exported(calendar, a)->Ok_0).notices == (exported(calendar, b)->Ok_0).notices
            &&& told_apart((collected(calendar, a)->Ok_0).0) ==> exported(calendar, a)
                == exported(calendar, b)
        },
{
    lemma_collected(calendar, a);
    lemma_collected(calendar, b);
    if collected(calendar, a) is Ok {
        assert forall|i: int| 0 <= i < b.len() implies exportable(calendar, #[trigger] b[i]) by {
            let k = lemma_chosen_in(a, b, i);
            assert(exportable(calendar, a[k]));
        }
    }
    if collected(calendar, b) is Ok {
        assert forall|i: int| 0 <= i < a.len() implies exportable(calendar, #[trigger] a[i]) by {
            let k = lemma_chosen_in(b, a, i);
            assert(exportable(calendar, b[k]));
        }
    }
    if collected(calendar, a) is Ok {
        let (events, notices) = collected(calendar, a)->Ok_0;
        let (others, more) = collected(calendar, b)->Ok_0;
        assert forall|x: EventView| #[trigger] events.contains(x) <==> others.contains(x) by {
            lemma_contributed(calendar, a, x);
            lemma_contributed(calendar, b, x);
            if events.contains(x) {
                let i = choose|i: int|
                    0 <= i < a.len() && own_events(calendar, #[trigger] a[i]).contains(x);
                let k = lemma_chosen_in(b, a, i);
                assert(own_events(calendar, b[k]).contains(x));
            }
            if others.contains(x) {
                let i = choose|i: int|
                    0 <= i < b.len() && own_events(calendar, #[trigger] b[i]).contains(x);
                let k = lemma_chosen_in(a, b, i);
                assert(own_events(calendar, a[k]).contains(x));
            }
        }
        lemma_same_keys(events, others);
        assert(event_keys(arranged_events(events)).len() == arranged_events(events).len());
        assert(event_keys(arranged_events(others)).len() == arranged_events(others).len());
        if told_apart(events) {
            lemma_same_events(events, others);
        }
        let p = distinct_ascending::<String>(notices);
        let q = distinct_ascending::<String>(more);
        lemma_distinct_ascending::<String>(notices);
        lemma_distinct_ascending::<String>(more);
        assert forall|x: Seq<char>| #[trigger] p.contains(x) <==> q.contains(x) by {
            lemma_said(calendar, a, x);
            lemma_said(calendar, b, x);
            if notices.contains(x) {
                let i = choose|i: int|
                    0 <= i < a.len() && own_notices(calendar, #[trigger] a[i]).contains(x);
                let k = lemma_chosen_in(b, a, i);
                assert(own_notices(calendar, b[k]).contains(x));
            }
            if more.contains(x) {
                let i = choose|i: int|
                    0 <= i < b.len() && own_notices(calendar, #[trigger] b[i]).contains(x);
                let k = lemma_chosen_in(a, b, i);
                assert(own_notices(calendar, a[k]).contains(x));
            }
        }
        lemma_ascending_is_unique::<String>(p, q);
    }
}

/// No section is given in two versions.
pub open spec fn one_version_each(chosen: Seq<ChosenSectionView>) -> bool {
    forall|i: int, j: int|
        #![trigger chosen[i], chosen[j]]
        0 <= i < chosen.len() && 0 <= j < chosen.len() && chosen[i].course_id
            == chosen[j].course_id && chosen[i].kind == chosen[j].kind && chosen[i].section.id
            == chosen[j].section.id ==> chosen[i] == chosen[j]
}

/// A chosen section has a meeting, and the calendar has a day.
pub open spec fn has_meeting(
    calendar: TermCalendarView,
    chosen: Seq<ChosenSectionView>,
    section: ChosenSectionView,
    m: Meeting,
    day: int,
) -> bool {
    &&& chosen.contains(section)
    &&& section.section.meetings.contains(m)
    &&& calendar.start <= day <= calendar.end
}

/// No two digests of what identifies the events coincide.
pub open spec fn digests_differ(
    calendar: TermCalendarView,
    chosen: Seq<ChosenSectionView>,
) -> bool {
    forall|x: ChosenSectionView, m: Meeting, d: int, y: ChosenSectionView, n: Meeting, e: int|
        #![trigger uid_source(calendar, x, m, d), uid_source(calendar, y, n, e)]
        has_meeting(calendar, chosen, x, m, d) && has_meeting(calendar, chosen, y, n, e)
            && sha256_hex(uid_source(calendar, x, m, d)) == sha256_hex(
            uid_source(calendar, y, n, e),
        ) ==> uid_source(calendar, x, m, d) == uid_source(calendar, y, n, e)
}

/// What identifies an event says which section it is of.
proof fn lemma_uid_source(
    calendar: TermCalendarView,
    x: ChosenSectionView,
    m: Meeting,
    d: int,
    y: ChosenSectionView,
    n: Meeting,
    e: int,
)
    requires
        uid_source(calendar, x, m, d) == uid_source(calendar, y, n, e),
    ensures
        x.course_id == y.course_id,
        x.kind == y.kind,
        x.section.id == y.section.id,
{
    lemma_three_strings(
        term_dates(calendar),
        ","@,
        (x.course_id, x.kind, x.section.id, occurrence(m, d)),
        (y.course_id, y.kind, y.section.id, occurrence(n, e)),
    );
}

/// Three JSON strings after the same start.
spec fn three_strings(
    head: Seq<char>,
    mark: Seq<char>,
    s: (Seq<char>, Seq<char>, Seq<char>, Seq<char>),
) -> Seq<char> {
    head + json_quoted(s.0) + mark + json_quoted(s.1) + mark + json_quoted(s.2) + s.3
}

proof fn lemma_three_strings(
    head: Seq<char>,
    mark: Seq<char>,
    s: (Seq<char>, Seq<char>, Seq<char>, Seq<char>),
    t: (Seq<char>, Seq<char>, Seq<char>, Seq<char>),
)
    requires
        three_strings(head, mark, s) == three_strings(head, mark, t),
    ensures
        s == t,
{
    let p2 = json_quoted(s.2) + s.3;
    let q2 = json_quoted(t.2) + t.3;
    let p1 = json_quoted(s.1) + (mark + p2);
    let q1 = json_quoted(t.1) + (mark + q2);
    let p0 = json_quoted(s.0) + (mark + p1);
    let q0 = json_quoted(t.0) + (mark + q1);
    lemma_nested(head, mark, json_quoted(s.0), json_quoted(s.1), json_quoted(s.2), s.3);
    lemma_nested(head, mark, json_quoted(t.0), json_quoted(t.1), json_quoted(t.2), t.3);
    lemma_same_tail(head, p0, q0);
    law_json_strings_are_unambiguous(s.0, t.0, mark + p1, mark + q1);
    lemma_same_tail(mark, p1, q1);
    law_json_strings_are_unambiguous(s.1, t.1, mark + p2, mark + q2);
    lemma_same_tail(mark, p2, q2);
    law_json_strings_are_unambiguous(s.2, t.2, s.3, t.3);
}

proof fn lemma_nested(
    head: Seq<char>,
    mark: Seq<char>,
    a: Seq<char>,
    b: Seq<char>,
    c: Seq<char>,
    tail: Seq<char>,
)
    ensures
        head + a + mark + b + mark + c + tail == head + (a + (mark + (b + (mark + (c + tail))))),
{
    assert(head + a + mark + b + mark + c + tail =~= head + (a + (mark + (b + (mark + (c
        + tail))))));
}

proof fn lemma_same_tail(head: Seq<char>, a: Seq<char>, b: Seq<char>)
    requires
        head + a == head + b,
    ensures
        a == b,
{
    assert(a =~= (head + a).skip(head.len() as int));
    assert(b =~= (head + b).skip(head.len() as int));
}

/// An event comes from a meeting of a section on a day.
spec fn stems(
    calendar: TermCalendarView,
    section: ChosenSectionView,
    m: Meeting,
    day: int,
    event: EventView,
) -> bool {
    event_on(calendar, section, m, day) == Ok::<EventView, Seq<char>>(event)
}

proof fn lemma_stems_on(
    calendar: TermCalendarView,
    section: ChosenSectionView,
    m: Meeting,
    days: Seq<int>,
    event: EventView,
) -> (day: int)
    requires
        events_on(calendar, section, m, days) is Ok,
        (events_on(calendar, section, m, days)->Ok_0).contains(event),
    ensures
        days.contains(day),
        stems(calendar, section, m, day, event),
    decreases days.len(),
{
    let rest = days.drop_last();
    let events = events_on(calendar, section, m, rest)->Ok_0;
    let last = event_on(calendar, section, m, days.last())->Ok_0;
    let all = events_on(calendar, section, m, days)->Ok_0;
    let k = choose|k: int| 0 <= k < all.len() && all[k] == event;
    if k < events.len() {
        assert(events[k] == event);
        let day = lemma_stems_on(calendar, section, m, rest, event);
        let i = choose|i: int| 0 <= i < rest.len() && rest[i] == day;
        assert(days[i] == day);
        day
    } else {
        assert(days[days.len() - 1] == days.last());
        days.last()
    }
}

proof fn lemma_stems(
    calendar: TermCalendarView,
    section: ChosenSectionView,
    meetings: Seq<Meeting>,
    event: EventView,
) -> (r: (Meeting, int))
    requires
        section_events(calendar, section, meetings) is Ok,
        (section_events(calendar, section, meetings)->Ok_0).contains(event),
    ensures
        meetings.contains(r.0),
        calendar.start <= r.1 <= calendar.end,
        stems(calendar, section, r.0, r.1, event),
    decreases meetings.len(),
{
    reveal(meeting_events);
    let rest = meetings.drop_last();
    let m = meetings.last();
    let bounded = bounded_pe(section.kind, section.section.meetings);
    let days = meeting_days(calendar, m, bounded);
    let events = section_events(calendar, section, rest)->Ok_0;
    let more = events_on(calendar, section, m, days)->Ok_0;
    lemma_sum_contains(events, more, event);
    if events.contains(event) {
        let (n, day) = lemma_stems(calendar, section, rest, event);
        let i = choose|i: int| 0 <= i < rest.len() && rest[i] == n;
        assert(meetings[i] == n);
        (n, day)
    } else {
        let day = lemma_stems_on(calendar, section, m, days, event);
        let weekday = m.weekday as int;
        lemma_teaching_days(
            calendar,
            weekday,
            window_start(calendar, m),
            window_end(calendar, m),
            day,
        );
        lemma_teaching_days(calendar, weekday, calendar.start, calendar.end, day);
        assert(meetings[meetings.len() - 1] == m);
        (m, day)
    }
}

/// Events with the same start, end and identity are the same, where no section is given in two
/// versions and no two digests coincide.
pub proof fn law_sections_tell_events_apart(
    calendar: TermCalendarView,
    chosen: Seq<ChosenSectionView>,
)
    requires
        collected(calendar, chosen) is Ok,
        one_version_each(chosen),
        digests_differ(calendar, chosen),
    ensures
        told_apart((collected(calendar, chosen)->Ok_0).0),
{
    let events = (collected(calendar, chosen)->Ok_0).0;
    assert forall|i: int, j: int|
        #![trigger events[i], events[j]]
        0 <= i < events.len() && 0 <= j < events.len() && event_key(events[i]) == event_key(
            events[j],
        ) implies events[i] == events[j] by {
        let (k, m, d) = lemma_origin(calendar, chosen, events[i]);
        let (l, n, e) = lemma_origin(calendar, chosen, events[j]);
        let x = chosen[k];
        let y = chosen[l];
        let suffix = "@hydrant-optimizer"@;
        let a = sha256_hex(uid_source(calendar, x, m, d));
        let b = sha256_hex(uid_source(calendar, y, n, e));
        assert(a + suffix == b + suffix);
        assert(a =~= (a + suffix).take((a + suffix).len() - suffix.len()));
        assert(b =~= (b + suffix).take((b + suffix).len() - suffix.len()));
        lemma_uid_source(calendar, x, m, d, y, n, e);
        assert(x == y);
    }
}

/// An export depends on nothing but which sections are chosen, where no section is given in two
/// versions and no two digests coincide: in any order and with any repetitions the file, the
/// number of events and the notices are the same, or it is refused either way.
pub proof fn law_export_depends_on_sections(
    calendar: TermCalendarView,
    a: Seq<ChosenSectionView>,
    b: Seq<ChosenSectionView>,
)
    requires
        forall|section: ChosenSectionView| #[trigger] a.contains(section) <==> b.contains(section),
        one_version_each(a),
        digests_differ(calendar, a),
    ensures
        exported(calendar, a) is Ok <==> exported(calendar, b) is Ok,
        exported(calendar, a) is Ok ==> exported(calendar, a) == exported(calendar, b),
{
    law_export_order_is_irrelevant(calendar, a, b);
    if exported(calendar, a) is Ok {
        law_sections_tell_events_apart(calendar, a);
    }
}

/// The section, meeting and day that an event comes from.
proof fn lemma_origin(
    calendar: TermCalendarView,
    chosen: Seq<ChosenSectionView>,
    event: EventView,
) -> (r: (int, Meeting, int))
    requires
        collected(calendar, chosen) is Ok,
        (collected(calendar, chosen)->Ok_0).0.contains(event),
    ensures
        0 <= r.0 < chosen.len(),
        has_meeting(calendar, chosen, chosen[r.0], r.1, r.2),
        stems(calendar, chosen[r.0], r.1, r.2, event),
{
    reveal(own_events);
    lemma_contributed(calendar, chosen, event);
    lemma_collected(calendar, chosen);
    let i = choose|i: int|
        0 <= i < chosen.len() && own_events(calendar, #[trigger] chosen[i]).contains(event);
    assert(exportable(calendar, chosen[i]));
    assert(chosen.contains(chosen[i]));
    let (m, day) = lemma_stems(calendar, chosen[i], chosen[i].section.meetings, event);
    (i, m, day)
}

/// Where an element of a sequence with the same elements is.
proof fn lemma_chosen_in(
    a: Seq<ChosenSectionView>,
    b: Seq<ChosenSectionView>,
    i: int,
) -> (k: int)
    requires
        forall|section: ChosenSectionView| #[trigger] a.contains(section) <==> b.contains(section),
        0 <= i < b.len(),
    ensures
        0 <= k < a.len(),
        a[k] == b[i],
{
    assert(b.contains(b[i]));
    assert(a.contains(b[i]));
    choose|k: int| 0 <= k < a.len() && a[k] == b[i]
}

/// No two meetings of different choices of a feasible timetable take place at the same time on a
/// day of the term.
pub proof fn law_timetable_never_collides(
    p: Problem,
    timetable: Seq<TimeChoiceView>,
    i: int,
    j: int,
    left: Meeting,
    right: Meeting,
    day: int,
)
    requires
        p.calendar is Some,
        feasible(p, timetable),
        0 <= i < j < timetable.len(),
        timetable[i].meetings.contains(left),
        timetable[j].meetings.contains(right),
        meeting_valid(left),
        meeting_valid(right),
        meeting_days(p.calendar->0, left, true).contains(day),
        meeting_days(p.calendar->0, right, true).contains(day),
    ensures
        left.end_minute <= right.start_minute || right.end_minute <= left.start_minute,
{
    let calendar = p.calendar->0;
    law_meeting_days(calendar, left, true, day);
    law_meeting_days(calendar, right, true, day);
    let a = choose|a: int| 0 <= a < timetable[i].meetings.len() && timetable[i].meetings[a] == left;
    let b = choose|b: int|
        0 <= b < timetable[j].meetings.len() && timetable[j].meetings[b] == right;
    assert(!choices_clash(p.calendar, p.dated, timetable[i], timetable[j]));
    assert(!meetings_clash(
        p.calendar,
        p.dated,
        timetable[i].meetings[a],
        timetable[j].meetings[b],
    ));
    if times_overlap(left, right) {
        assert(taught(calendar, day, left.weekday as int));
    }
}

/// The digits of a number stand for it.
proof fn lemma_decimal_value(n: nat)
    ensures
        digits_value(decimal(n)) == n,
        all_numeric(decimal(n)),
        decimal(n).len() > 0,
    decreases n,
{
    reveal_with_fuel(digits_value, 3);
    if n < 10 {
        assert(decimal(n).drop_last() =~= Seq::empty());
        assert(digit_value(digit(n as int)) == n);
    } else {
        lemma_decimal_value(n / 10);
        let rest = decimal(n / 10);
        assert(decimal(n).drop_last() =~= rest);
        assert(digit_value(digit((n % 10) as int)) == n % 10);
        assert(n == 10 * (n / 10) + n % 10);
        assert forall|i: int| 0 <= i < decimal(n).len() implies numeric(
            #[trigger] decimal(n)[i],
        ) by {
            if i < rest.len() {
                assert(decimal(n)[i] == rest[i]);
            }
        }
    }
}

/// Different tries to export never have the same file name.
pub proof fn law_export_names_differ(
    parent: Option<Seq<char>>,
    stem: Option<Seq<char>>,
    extension: Option<Seq<char>>,
    a: ExportAttempt,
    b: ExportAttempt,
)
    requires
        a != b,
    ensures
        export_target(parent, stem, extension, attempt_suffix(a)) != export_target(
            parent,
            stem,
            extension,
            attempt_suffix(b),
        ),
{
    reveal_strlit("-1");
    lemma_decimal_value(a.stamp as nat);
    lemma_decimal_value(b.stamp as nat);
    let x = attempt_suffix(a);
    let y = attempt_suffix(b);
    let da = decimal(a.stamp as nat);
    let db = decimal(b.stamp as nat);
    if x == y {
        if a.retry == b.retry {
            if a.retry {
                assert(x.take(x.len() - 2) =~= da);
                assert(y.take(y.len() - 2) =~= db);
            }
            assert(da == db);
        } else if a.retry {
            assert(x[da.len() as int] == '-');
            assert(numeric(db[da.len() as int]));
        } else {
            assert(y[db.len() as int] == '-');
            assert(numeric(da[db.len() as int]));
        }
    }
    assert(x != y);
    let name = if stem is Some && (stem->0).len() > 0 {
        stem->0
    } else {
        "schedule"@
    };
    let kind = if extension is Some && (extension->0).len() > 0 {
        extension->0
    } else {
        "ics"@
    };
    if export_target(parent, stem, extension, x).1 == export_target(parent, stem, extension, y).1 {
        lemma_middle(name + "-"@, x, y, "."@, kind);
    }
}

/// The middle of a text is determined by the text and what stands around the middle.
proof fn lemma_middle(
    head: Seq<char>,
    x: Seq<char>,
    y: Seq<char>,
    mark: Seq<char>,
    tail: Seq<char>,
)
    requires
        head + x + mark + tail == head + y + mark + tail,
    ensures
        x == y,
{
    let p = head + x + mark + tail;
    let q = head + y + mark + tail;
    assert(p.len() == head.len() + x.len() + mark.len() + tail.len());
    assert(q.len() == head.len() + y.len() + mark.len() + tail.len());
    assert(p.subrange(head.len() as int, (head.len() + x.len()) as int) =~= x);
    assert(q.subrange(head.len() as int, (head.len() + y.len()) as int) =~= y);
}

proof fn lemma_entry_position(entries: Seq<ManualEntryView>, term_id: Seq<char>, id: Seq<char>)
    ensures
        0 <= entry_position(entries, term_id, id) <= entries.len(),
        entry_position(entries, term_id, id) < entries.len() ==> entry_key(
            entries[entry_position(entries, term_id, id)],
        ) == (term_id, id),
    decreases entries.len(),
{
    if entries.len() > 0 && entry_key(entries[0]) != (term_id, id) {
        lemma_entry_position(entries.drop_first(), term_id, id);
    }
}

/// An entry that replaces one with the same key is found where that one was.
proof fn lemma_position_after_update(
    entries: Seq<ManualEntryView>,
    term_id: Seq<char>,
    id: Seq<char>,
    entry: ManualEntryView,
)
    requires
        entry_key(entry) == (term_id, id),
        entry_position(entries, term_id, id) < entries.len(),
    ensures
        entry_position(
            entries.update(entry_position(entries, term_id, id), entry),
            term_id,
            id,
        ) == entry_position(entries, term_id, id),
    decreases entries.len(),
{
    let at = entry_position(entries, term_id, id);
    if entries.len() > 0 && entry_key(entries[0]) != (term_id, id) {
        lemma_entry_position(entries.drop_first(), term_id, id);
        lemma_position_after_update(entries.drop_first(), term_id, id, entry);
        assert(entries.update(at, entry).drop_first() =~= entries.drop_first().update(
            at - 1,
            entry,
        ));
    }
}

/// Enabling a manual section after it was disabled gives back the entries as they were.
pub proof fn law_enabling_undoes_disabling(
    base: DatasetView,
    store: ManualStoreView,
    id: Seq<char>,
)
    requires
        switched(base, store, id, false) is Ok,
        store.entries[entry_position(store.entries, base.term_id, id)].enabled,
    ensures
        switched(base, (switched(base, store, id, false)->Ok_0).0, id, true) == checked(
            base,
            store,
            id,
        ),
{
    let at = entry_position(store.entries, base.term_id, id);
    let entry = store.entries[at];
    let off = ManualEntryView { enabled: false, ..entry };
    lemma_entry_position(store.entries, base.term_id, id);
    lemma_position_after_update(store.entries, base.term_id, id, off);
    let next = (switched(base, store, id, false)->Ok_0).0;
    assert(next.entries == store.entries.update(at, off));
    assert(ManualEntryView { enabled: true, ..off } == entry);
    assert(next.entries.update(at, entry) =~= store.entries);
}

/// Replacing a manual section keeps its place, its subject, its component and whether it is
/// enabled, and leaves all other entries as they are.
pub proof fn law_edit_keeps_identity(entries: Seq<ManualEntryView>, entry: ManualEntryView)
    requires
        entry_position(entries, entry.term_id, entry.option.id) < entries.len(),
        placed(entries, entry) is Ok,
    ensures
        ({
            let at = entry_position(entries, entry.term_id, entry.option.id);
            let after = placed(entries, entry)->Ok_0;
            &&& after.len() == entries.len()
            &&& entry_key(after[at]) == entry_key(entries[at])
            &&& after[at].course_id == entries[at].course_id
            &&& after[at].kind == entries[at].kind
            &&& after[at].enabled == entries[at].enabled
            &&& after[at].option == entry.option
            &&& forall|i: int|
                0 <= i < entries.len() && i != at ==> #[trigger] after[i] == entries[i]
        }),
{
    lemma_entry_position(entries, entry.term_id, entry.option.id);
}

/// A sequence that is in order already stays as it is when sorted.
proof fn lemma_sorted_stays<T>(s: Seq<T>, le: spec_fn(T, T) -> bool)
    requires
        forall|i: int, j: int| #![trigger s[i], s[j]] 0 <= i < j < s.len() ==> le(s[i], s[j]),
    ensures
        stable_sorted(s, le) == s,
    decreases s.len(),
{
    if s.len() > 0 {
        let rest = s.drop_first();
        assert forall|i: int, j: int| #![trigger rest[i], rest[j]] 0 <= i < j < rest.len() implies le(
            rest[i],
            rest[j],
        ) by {
            assert(rest[i] == s[i + 1] && rest[j] == s[j + 1]);
        }
        lemma_sorted_stays(rest, le);
        if rest.len() > 0 {
            assert(rest[0] == s[1]);
            assert(le(s[0], s[1]));
        }
        assert(insertion_point(rest, s[0], le) == 0);
        assert(rest.insert(0, s[0]) =~= s);
    }
}

proof fn lemma_no_fault(meetings: Seq<Meeting>)
    ensures
        first_meeting_fault(meetings) is None <==> forall|i: int|
            0 <= i < meetings.len() ==> meeting_fault(#[trigger] meetings[i]) is None,
    decreases meetings.len(),
{
    if meetings.len() > 0 {
        let rest = meetings.drop_last();
        lemma_no_fault(rest);
        assert(forall|i: int| 0 <= i < rest.len() ==> rest[i] == meetings[i]);
        assert(meetings[meetings.len() - 1] == meetings.last());
        if first_meeting_fault(meetings) is None {
            assert forall|i: int| 0 <= i < meetings.len() implies meeting_fault(
                #[trigger] meetings[i],
            ) is None by {
                if i < rest.len() {
                    assert(meeting_fault(rest[i]) is None);
                }
            }
        }
        if forall|i: int|
            0 <= i < meetings.len() ==> meeting_fault(#[trigger] meetings[i]) is None {
            assert forall|i: int| 0 <= i < rest.len() implies meeting_fault(
                #[trigger] rest[i],
            ) is None by {
                assert(meeting_fault(meetings[i]) is None);
            }
        }
    }
}

/// The meetings of a new manual section are valid and in order.
pub proof fn lemma_new_meetings(meetings: Seq<Meeting>)
    requires
        meetings.len() > 0,
        first_meeting_fault(meetings) is None,
    ensures
        distinct_ascending::<Meeting>(meetings).len() > 0,
        first_meeting_fault(distinct_ascending::<Meeting>(meetings)) is None,
        canonical(distinct_ascending::<Meeting>(meetings)) == distinct_ascending::<Meeting>(
            meetings,
        ),
{
    let sorted = distinct_ascending::<Meeting>(meetings);
    lemma_distinct_ascending::<Meeting>(meetings);
    lemma_no_fault(meetings);
    lemma_no_fault(sorted);
    assert(meetings.contains(meetings[0]));
    assert(sorted.contains(meetings[0]));
    assert forall|i: int| 0 <= i < sorted.len() implies meeting_fault(
        #[trigger] sorted[i],
    ) is None by {
        assert(sorted.contains(sorted[i]));
        assert(meetings.contains(sorted[i]));
        let k = choose|k: int| 0 <= k < meetings.len() && meetings[k] == sorted[i];
        assert(meeting_fault(meetings[k]) is None);
    }
    assert forall|i: int, j: int|
        #![trigger sorted[i], sorted[j]]
        0 <= i < j < sorted.len() implies meeting_le()(sorted[i], sorted[j]) by {
        <Meeting as Rank>::before_irreflexive(sorted[i]);
        if <Meeting as Rank>::before(sorted[j], sorted[i]) {
            <Meeting as Rank>::before_transitive(sorted[i], sorted[j], sorted[i]);
        }
    }
    lemma_sorted_stays(sorted, meeting_le());
}

/// A trimmed text is trimmed, and begins and ends visibly.
pub proof fn lemma_trimmed_twice(s: Seq<char>)
    ensures
        trimmed(trimmed(s)) == trimmed(s),
        trimmed(s).len() > 0 ==> !whitespace(trimmed(s)[0]) && !whitespace(trimmed(s).last()),
{
    lemma_trim_start(s);
    let t = trim_start(s);
    lemma_trim_end(t);
    let u = trimmed(s);
    if u.len() > 0 {
        assert(u[0] == t[0]);
        lemma_trimmed(u);
    }
}

/// A trimmed ASCII text is trimmed in lower case too, and stays ASCII.
pub proof fn lemma_trimmed_lowered(s: Seq<char>)
    requires
        ascii(s),
    ensures
        ascii(trimmed(s)),
        trimmed(lower_case(trimmed(s))) == lower_case(trimmed(s)),
        lower_case(lower_case(trimmed(s))) == lower_case(trimmed(s)),
{
    lemma_trimmed_twice(s);
    lemma_trim_start(s);
    let t = trim_start(s);
    lemma_trim_end(t);
    let u = trimmed(s);
    assert forall|i: int| 0 <= i < u.len() implies (#[trigger] u[i] as u32) < 128 by {
        assert(u[i] == t[i]);
    }
    let v = lowered(u);
    assert forall|i: int| 0 <= i < v.len() implies (#[trigger] v[i] as u32) < 128 && lower(v[i])
        == v[i] by {
        assert(v[i] == lower(u[i]));
    }
    assert(lowered(v) =~= v);
    if u.len() > 0 {
        assert(v[0] == lower(u[0]) && v.last() == lower(u.last()));
        lemma_trimmed(v);
    } else {
        assert(v =~= u);
    }
}

/// The components that a manual section may add to any course are in lower case.
pub proof fn lemma_known_component(kind: Seq<char>)
    requires
        known_component(kind),
    ensures
        settled(kind),
{
    reveal_strlit("lecture");
    reveal_strlit("recitation");
    reveal_strlit("lab");
    reveal_strlit("design");
    reveal_strlit("pe");
    lemma_trimmed(kind);
    assert(lowered(kind) =~= kind);
}

proof fn lemma_trim_start(s: Seq<char>)
    ensures
        trim_start(s).len() <= s.len(),
        trim_start(s) == s.skip(s.len() - trim_start(s).len()),
        trim_start(s).len() > 0 ==> !whitespace(trim_start(s)[0]),
    decreases s.len(),
{
    if s.len() > 0 && whitespace(s[0]) {
        lemma_trim_start(s.drop_first());
        let t = trim_start(s);
        assert(t =~= s.skip(s.len() - t.len()));
    } else {
        assert(s.skip(0) =~= s);
    }
}

proof fn lemma_trim_end(s: Seq<char>)
    ensures
        trim_end(s).len() <= s.len(),
        trim_end(s) == s.take(trim_end(s).len() as int),
        trim_end(s).len() > 0 ==> !whitespace(trim_end(s).last()),
    decreases s.len(),
{
    if s.len() > 0 && whitespace(s.last()) {
        lemma_trim_end(s.drop_last());
        let t = trim_end(s);
        assert(t =~= s.take(t.len() as int));
    } else {
        assert(s.take(s.len() as int) =~= s);
    }
}

/// A mouse event moves the focus and changes nothing else; under a window it does not even that.
pub proof fn law_click_changes_only_focus(s: AppStateView, mouse: Mouse)
    ensures
        after_mouse(s, mouse) == (AppStateView { focus: after_mouse(s, mouse).focus, ..s }),
        !mouse.left_press || s.show_help || s.editor is Some || s.focus == Focus::Manual
            ==> after_mouse(s, mouse) == s,
{
}

/// Selecting or removing the subject under the cursor changes that one only, forgets what was
/// found for the previous selection, and has the new one stored: what is then to be written, if
/// anything, has the selection and the retained subjects for the term, and other terms as before.
pub proof fn law_toggled_selection_is_stored(
    s: AppStateView,
    now: Seq<char>,
    id: Seq<char>,
    other: Seq<char>,
)
    requires
        ascending::<String>(s.selected),
        subject_at_cursor(s) is Some,
        s.selection_session is Some,
        ascending::<String>(keys_of((s.selection_session->0).sessions.terms)),
        storable_id(s.dataset.term_id),
        all_storable(stored_selection(toggled_subject(s))),
    ensures
        ({
            let next = toggled_subject(s);
            let session = s.selection_session->0;
            let term = s.dataset.term_id;
            let plan = save_plan(session, term, stored_selection(next), session.disk_bytes, now);
            let sessions = match plan->Ok_0 {
                Some(sessions) => sessions,
                None => session.sessions,
            };
            &&& next.selected.contains(id) <==> (s.selected.contains(id) != (id
                == subject_at_cursor(s)->0))
            &&& next.save_due && next.selection_session == s.selection_session
            &&& next.dataset == s.dataset
            &&& next.solution is None && next.actual_members.len() == 0
            &&& next.generation != s.generation
            &&& plan is Ok
            &&& selection_of(sessions, term) == Some(stored_selection(next))
            &&& other != term ==> selection_of(sessions, other) == selection_of(
                session.sessions,
                other,
            )
        }),
{
    let key = subject_at_cursor(s)->0;
    let next = toggled_subject(s);
    let session = s.selection_session->0;
    let term = s.dataset.term_id;
    lemma_set_remove::<String>(s.selected, key);
    lemma_set_insert::<String>(s.selected, key);
    if s.selected.contains(key) {
        assert(set_remove::<String>(s.selected, key).contains(id) <==> s.selected.contains(id)
            && id != key);
    } else {
        assert(set_insert::<String>(s.selected, key).contains(id) <==> s.selected.contains(id)
            || id == key);
    }
    let selected = stored_selection(next);
    if selection_of(session.sessions, term) != Some(selected) {
        law_save_is_restored(session, term, selected, now, now, Seq::empty(), other);
    }
}

/// Toggling a subject twice gives back the selection.
pub proof fn law_toggling_twice_restores_selection(s: AppStateView)
    requires
        ascending::<String>(s.selected),
    ensures
        toggled_subject(toggled_subject(s)).selected == s.selected,
{
    if subject_at_cursor(s) is Some {
        let id = subject_at_cursor(s)->0;
        let once = toggled_subject(s);
        let removed = set_remove::<String>(s.selected, id);
        let inserted = set_insert::<String>(s.selected, id);
        lemma_set_remove::<String>(s.selected, id);
        lemma_set_insert::<String>(s.selected, id);
        assert(subject_at_cursor(once) == Some(id));
        let twice = toggled_subject(once).selected;
        lemma_set_remove::<String>(once.selected, id);
        lemma_set_insert::<String>(once.selected, id);
        assert forall|x: Seq<char>| #[trigger] twice.contains(x) <==> s.selected.contains(x) by {
            assert(removed.contains(x) <==> s.selected.contains(x) && x != id);
            assert(inserted.contains(x) <==> s.selected.contains(x) || x == id);
            assert(set_remove::<String>(once.selected, id).contains(x) <==> once.selected.contains(
                x,
            ) && x != id);
            assert(set_insert::<String>(once.selected, id).contains(x) <==> once.selected.contains(
                x,
            ) || x == id);
        }
        lemma_ascending_is_unique::<String>(twice, s.selected);
    }
}

/// Going to the next pane and back leads to the same pane.
pub proof fn law_focus_goes_back(focus: Focus, reverse: bool)
    requires
        focus is Subjects || focus is Selected || focus is Timetable,
    ensures
        focus_after(focus_after(focus, reverse), !reverse) == focus,
{
}

/// Going to the next field of the editor and back leads to the same field.
pub proof fn law_field_goes_back(form: ManualFormView, reverse: bool)
    ensures
        at_next_field(at_next_field(form, reverse), !reverse) == form,
{
}

/// The selection, the manual entries and the timetable are the same.
pub open spec fn same_timetable(a: AppStateView, b: AppStateView) -> bool {
    &&& a.selected == b.selected
    &&& a.manual == b.manual
    &&& a.solution == b.solution
    &&& a.actual_members == b.actual_members
    &&& a.generation == b.generation
}

proof fn lemma_moving_keeps_the_timetable(s: AppStateView, delta: int)
    ensures
        same_timetable(with_cursor_moved(s, delta), s),
{
}

proof fn lemma_filtering_keeps_the_timetable(s: AppStateView)
    ensures
        same_timetable(refiltered(s), s),
{
}

#[verifier::spinoff_prover]
proof fn lemma_searching_keeps_the_timetable(s: AppStateView, key: Key)
    ensures
        same_timetable(search_key_step(s, key), s),
{
    match key.code {
        KeyCode::Up => lemma_moving_keeps_the_timetable(
            AppStateView { focus: Focus::Subjects, ..s },
            -1,
        ),
        KeyCode::Down => lemma_moving_keeps_the_timetable(
            AppStateView { focus: Focus::Subjects, ..s },
            1,
        ),
        KeyCode::Backspace => lemma_filtering_keeps_the_timetable(
            AppStateView { query: shortened(s.query), ..s },
        ),
        KeyCode::Delete => lemma_filtering_keeps_the_timetable(
            AppStateView { query: Seq::empty(), ..s },
        ),
        KeyCode::Char(c) => {
            lemma_filtering_keeps_the_timetable(AppStateView { query: Seq::empty(), ..s });
            lemma_filtering_keeps_the_timetable(AppStateView { query: s.query.push(c), ..s });
        },
        _ => {},
    }
}

#[verifier::spinoff_prover]
proof fn lemma_editing_keeps_the_timetable(s: AppStateView, form: ManualFormView, key: Key)
    ensures
        same_timetable(editor_step(s, form, key).0, s),
{
}

/// While the search, the help or the editor takes the keys, no key changes the selection, the
/// manual entries or the timetable.
#[verifier::spinoff_prover]
pub proof fn law_typing_keeps_the_timetable(s: AppStateView, key: Key)
    requires
        s.show_help || s.editor is Some || s.focus == Focus::Search,
    ensures
        same_timetable(key_step(s, key).0, s),
{
    if s.show_help {
        assert(same_timetable(help_step(s, key.code).0, s));
    } else if s.editor is Some {
        lemma_editing_keeps_the_timetable(s, s.editor->0, key);
    } else {
        lemma_searching_keeps_the_timetable(s, key);
    }
}

/// What is stored, and where, is the same.
pub open spec fn same_files(a: AppStateView, b: AppStateView) -> bool {
    &&& a.base == b.base
    &&& a.dataset == b.dataset
    &&& a.manual == b.manual
    &&& a.selection_session == b.selection_session
    &&& a.unavailable_selected == b.unavailable_selected
    &&& a.data_dir == b.data_dir
    &&& a.output == b.output
}

#[verifier::spinoff_prover]
proof fn lemma_searching_keeps_files(s: AppStateView, key: Key)
    ensures
        same_files(search_key_step(s, key), s),
{
}

#[verifier::spinoff_prover]
proof fn lemma_editing_keeps_files(s: AppStateView, form: ManualFormView, key: Key)
    ensures
        same_files(editor_step(s, form, key).0, s),
{
}

#[verifier::spinoff_prover]
proof fn lemma_timetable_keeps_files(s: AppStateView, code: KeyCode)
    requires
        timetable_step(s, code) is Some,
    ensures
        same_files(timetable_step(s, code)->0, s),
{
}

#[verifier::spinoff_prover]
proof fn lemma_letters_keep_files(s: AppStateView, c: char)
    ensures
        same_files(char_step(s, c).0, s),
{
}

#[verifier::spinoff_prover]
proof fn lemma_panes_keep_files(s: AppStateView, code: KeyCode)
    ensures
        same_files(pane_step(s, code).0, s),
{
    match code {
        KeyCode::Char(c) => lemma_letters_keep_files(s, c),
        _ => {},
    }
}

/// No key by itself changes what is stored: that takes an action, which reports whether it
/// succeeded.
#[verifier::spinoff_prover]
pub proof fn law_keys_change_nothing_stored(s: AppStateView, key: Key)
    ensures
        same_files(key_step(s, key).0, s),
{
    if s.show_help {
        assert(same_files(help_step(s, key.code).0, s));
    } else if s.editor is Some {
        lemma_editing_keeps_files(s, s.editor->0, key);
    } else if s.focus == Focus::Search {
        lemma_searching_keeps_files(s, key);
    } else if s.focus == Focus::Timetable && timetable_step(s, key.code) is Some {
        lemma_timetable_keeps_files(s, key.code);
    } else {
        lemma_panes_keep_files(s, key.code);
    }
}

/// A position within a list, 0 where the list is empty.
pub open spec fn within(at: int, len: int) -> bool {
    0 <= at && (at < len || (at == 0 && len == 0))
}

/// The cursors point into their lists and the timetable is not scrolled past its end.
pub open spec fn cursors_within(s: AppStateView) -> bool {
    &&& within(s.cursor, s.filtered.len() as int)
    &&& within(s.selected_cursor, s.selected.len() as int)
    &&& within(
        s.manual_cursor,
        entries_of_term(s.manual.entries, s.base.term_id).len() as int,
    )
    &&& s.timetable_viewport.offset <= s.timetable_viewport.max_offset
}

proof fn lemma_moved_within(at: int, len: int, delta: int)
    requires
        len >= 0,
    ensures
        within(moved(at, len, delta), len),
{
    if len > 0 {
        lemma_mod_bound(at + delta, len);
    }
}

proof fn lemma_moving_stays_within(s: AppStateView, delta: int)
    requires
        cursors_within(s),
    ensures
        cursors_within(with_cursor_moved(s, delta)),
{
    let visible = entries_of_term(s.manual.entries, s.base.term_id).len() as int;
    lemma_moved_within(s.cursor, s.filtered.len() as int, delta);
    lemma_moved_within(s.selected_cursor, s.selected.len() as int, delta);
    lemma_moved_within(s.manual_cursor, visible, delta);
}

proof fn lemma_clamping_stays_within(s: AppStateView)
    requires
        s.cursor >= 0,
        s.selected_cursor >= 0,
        s.manual_cursor >= 0,
        s.timetable_viewport.offset <= s.timetable_viewport.max_offset,
    ensures
        cursors_within(with_cursors_clamped(s)),
{
}

proof fn lemma_invalidating_stays_within(s: AppStateView, message: Seq<char>)
    requires
        s.cursor >= 0,
        s.selected_cursor >= 0,
        s.manual_cursor >= 0,
    ensures
        cursors_within(invalidated(s, message)),
{
}

#[verifier::spinoff_prover]
proof fn lemma_searching_stays_within(s: AppStateView, key: Key)
    requires
        cursors_within(s),
    ensures
        cursors_within(search_key_step(s, key)),
{
    let browsing = AppStateView { focus: Focus::Subjects, ..s };
    lemma_moving_stays_within(browsing, 1);
    lemma_moving_stays_within(browsing, -1);
    match key.code {
        KeyCode::Backspace => lemma_filtering_stays_within(
            AppStateView { query: shortened(s.query), ..s },
        ),
        KeyCode::Delete => lemma_filtering_stays_within(
            AppStateView { query: Seq::empty(), ..s },
        ),
        KeyCode::Char(c) => {
            lemma_filtering_stays_within(AppStateView { query: Seq::empty(), ..s });
            lemma_filtering_stays_within(AppStateView { query: s.query.push(c), ..s });
        },
        _ => {},
    }
}

proof fn lemma_filtering_stays_within(s: AppStateView)
    requires
        cursors_within(s),
    ensures
        cursors_within(refiltered(s)),
{
    lemma_clamping_stays_within(
        AppStateView {
            filtered: courses_matching(s.base.courses, words(lower_case(s.query))),
            ..s
        },
    );
}

#[verifier::spinoff_prover]
proof fn lemma_timetable_stays_within(s: AppStateView, code: KeyCode)
    requires
        cursors_within(s),
        timetable_step(s, code) is Some,
    ensures
        cursors_within(timetable_step(s, code)->0),
{
}

proof fn lemma_toggling_stays_within(s: AppStateView)
    requires
        cursors_within(s),
    ensures
        cursors_within(toggled_subject(s)),
        cursors_within(removed_selected(s)),
{
    if subject_at_cursor(s) is Some {
        let id = subject_at_cursor(s)->0;
        let next = AppStateView {
            selected: if s.selected.contains(id) {
                set_remove::<String>(s.selected, id)
            } else {
                set_insert::<String>(s.selected, id)
            },
            ..s
        };
        lemma_invalidating_stays_within(next, "Selection changed. Optimizing automatically."@);
    }
    if selected_at_cursor(s) is Some {
        let id = selected_at_cursor(s)->0;
        let next = AppStateView { selected: set_remove::<String>(s.selected, id), ..s };
        lemma_invalidating_stays_within(next, "Selection changed. Optimizing automatically."@);
    }
}

#[verifier::spinoff_prover]
proof fn lemma_paging_stays_within(s: AppStateView, code: KeyCode)
    requires
        cursors_within(s),
    ensures
        cursors_within(pane_step(s, code).0),
{
    lemma_toggling_stays_within(s);
    lemma_moving_stays_within(s, 1);
    lemma_moving_stays_within(s, -1);
    lemma_moving_stays_within(s, page_step(s.timetable_viewport.height as int));
    lemma_moving_stays_within(s, -page_step(s.timetable_viewport.height as int));
    match code {
        KeyCode::Char(c) => {
            assert(cursors_within(char_step(s, c).0));
        },
        _ => {},
    }
}

#[verifier::spinoff_prover]
proof fn lemma_helping_stays_within(s: AppStateView, code: KeyCode)
    requires
        cursors_within(s),
    ensures
        cursors_within(help_step(s, code).0),
{
}

#[verifier::spinoff_prover]
proof fn lemma_editing_stays_within(s: AppStateView, form: ManualFormView, key: Key)
    requires
        cursors_within(s),
    ensures
        cursors_within(editor_step(s, form, key).0),
{
}

/// No key moves a cursor out of its list.
#[verifier::spinoff_prover]
#[verifier::rlimit(50)]
pub proof fn law_cursors_stay_within(s: AppStateView, key: Key)
    requires
        cursors_within(s),
    ensures
        cursors_within(key_step(s, key).0),
{
    if s.show_help {
        lemma_helping_stays_within(s, key.code);
    } else if s.editor is Some {
        lemma_editing_stays_within(s, s.editor->0, key);
    } else if s.focus == Focus::Search {
        lemma_searching_stays_within(s, key);
    } else if s.focus == Focus::Timetable && timetable_step(s, key.code) is Some {
        lemma_timetable_stays_within(s, key.code);
    } else {
        lemma_paging_stays_within(s, key.code);
    }
}

} // verus!
