//! What single lines and texts show.
use vstd::prelude::*;
use crate::calendar::{escaped, folded, lines_text, property, shown_location, unfolded};
use crate::cli::{
    check_refresh, course_line, export_line, initial_subjects, manual_line, optimize_subjects,
    refresh_line, Optimized,
};
use crate::color::{course_ids, sorted_course_ids};
use crate::date::{civil, day_number, lemma_civil_of, Date};
use crate::error::Error;
use crate::laws::commands::occurs;
use crate::model::{ChosenSection, Course, Dataset, ManualEntry, ManualStore, Meeting};
use crate::order::{ascending, lemma_distinct_ascending};
use crate::text::{decimal, padded, trimmed};

verus! {

/// A date is written with the digits of its year, month and day.
pub proof fn law_dates_show_their_digits(date: &Date, r: String)
    requires
        call_ensures(Date::text, (date,), r),
    ensures
        forall|year: int, month: int, day: int| #[trigger]
            day_number(year, month, day) == date.number() && civil(year, month, day) && 0 <= year
                <= 9999 ==> r@ == padded(year as nat, 4) + "-"@ + padded(month as nat, 2) + "-"@
                + padded(day as nat, 2),
{
    assert forall|year: int, month: int, day: int| #[trigger]
        day_number(year, month, day) == date.number() && civil(year, month, day) && 0 <= year
            <= 9999 implies r@ == padded(year as nat, 4) + "-"@ + padded(month as nat, 2) + "-"@
        + padded(day as nat, 2) by {
        lemma_civil_of(date.number(), year, month, day);
    }
}

/// The weekdays follow each other in turn from the first day on, which is a Monday.
pub proof fn law_weekdays_follow_each_other(date: &Date, weekday: u8, next: Option<Date>)
    requires
        call_ensures(Date::weekday, (date,), weekday),
        call_ensures(Date::next, (date,), next),
    ensures
        weekday < 7,
        (date.number() - 1 - weekday) % 7 == 0,
        next is Some ==> next->0.number() == date.number() + 1,
{
    let n = date.number();
    assert(weekday == (n - 1) % 7);
    assert((n - 1 - (n - 1) % 7) % 7 == 0);
}

/// The line breaks of a text, all written the same way.
pub open spec fn plain_breaks(s: Seq<char>) -> Seq<char>
    decreases s.len(),
{
    if s.len() == 0 {
        Seq::empty()
    } else if s.len() > 1 && s[0] == '\r' && s[1] == '\n' {
        seq!['\n'] + plain_breaks(s.skip(2))
    } else if s[0] == '\r' {
        seq!['\n'] + plain_breaks(s.skip(1))
    } else {
        seq![s[0]] + plain_breaks(s.skip(1))
    }
}

/// What an escaped text stands for: a backslash with an `n` is a line break, and with another
/// character that one.
pub open spec fn unescaped(s: Seq<char>) -> Seq<char>
    decreases s.len(),
{
    if s.len() == 0 {
        Seq::empty()
    } else if s[0] == '\\' && s.len() > 1 {
        seq![
            if s[1] == 'n' {
                '\n'
            } else {
                s[1]
            },
        ] + unescaped(s.skip(2))
    } else {
        seq![s[0]] + unescaped(s.skip(1))
    }
}

/// An escaped text stands for the text, with its line breaks written the same way.
pub proof fn law_escaping_can_be_undone(s: Seq<char>)
    ensures
        unescaped(escaped(s)) == plain_breaks(s),
    decreases s.len(),
{
    if s.len() > 0 {
        if s.len() > 1 && s[0] == '\r' && s[1] == '\n' {
            law_escaping_can_be_undone(s.skip(2));
            let t = seq!['\\', 'n'] + escaped(s.skip(2));
            assert(t.skip(2) =~= escaped(s.skip(2)));
            assert(t[0] == '\\' && t[1] == 'n' && t.len() > 1);
        } else {
            law_escaping_can_be_undone(s.skip(1));
            if s[0] == '\r' || s[0] == '\n' {
                let t = seq!['\\', 'n'] + escaped(s.skip(1));
                assert(t.skip(2) =~= escaped(s.skip(1)));
                assert(t[0] == '\\' && t[1] == 'n' && t.len() > 1);
            } else if s[0] == '\\' || s[0] == ';' || s[0] == ',' {
                let t = seq!['\\', s[0]] + escaped(s.skip(1));
                assert(t.skip(2) =~= escaped(s.skip(1)));
                assert(t[0] == '\\' && t[1] == s[0] && t.len() > 1);
            } else {
                let t = seq![s[0]] + escaped(s.skip(1));
                assert(t.skip(1) =~= escaped(s.skip(1)));
                assert(t[0] == s[0]);
            }
        }
    }
}

/// No semicolon or comma of an escaped text stands without a backslash before it.
pub proof fn law_escaped_marks_are_marked(s: Seq<char>, k: int)
    requires
        0 <= k < escaped(s).len(),
        escaped(s)[k] == ';' || escaped(s)[k] == ',',
    ensures
        k > 0,
        escaped(s)[k - 1] == '\\',
    decreases s.len(),
{
    if s.len() > 0 {
        let n: int = if s.len() > 1 && s[0] == '\r' && s[1] == '\n' {
            2
        } else {
            1
        };
        let rest = escaped(s.skip(n));
        let head = escaped(s).len() - rest.len();
        if k >= head {
            assert(rest[k - head] == escaped(s)[k]);
            law_escaped_marks_are_marked(s.skip(n), k - head);
            assert(rest[k - head - 1] == escaped(s)[k - 1]);
        }
    }
}

/// A property of an event is its name, a colon and its escaped value, folded into lines.
pub proof fn law_properties_hold_their_values(name: Seq<char>, value: Seq<char>)
    ensures
        exists|lines: Seq<Seq<char>>| #[trigger]
            unfolded(lines) == name + ":"@ + escaped(value) && property(name, value) == lines_text(
                lines,
            ),
{
    let line = name + ":"@ + escaped(value);
    crate::calendar::law_folding(line);
    assert(unfolded(folded(line)) == line);
}

/// A room is shown as it is, unless it is blank.
pub proof fn law_rooms_are_shown(room: Seq<char>)
    ensures
        trimmed(room).len() > 0 ==> shown_location(room) == room,
        trimmed(room).len() == 0 ==> shown_location(room) == "TBA"@,
{
}

proof fn lemma_occurs_at(part: Seq<char>, before: Seq<char>, behind: Seq<char>, text: Seq<char>)
    requires
        text =~= before + part + behind,
    ensures
        occurs(part, text),
{
    assert(text == before + part + behind);
}

/// The line of a course begins with its number and ends with its title.
pub proof fn law_course_lines_show_number_and_title(course: &Course, r: String)
    requires
        call_ensures(course_line, (course,), r),
    ensures
        r@.len() == course.id@.len() + 2 + course.title@.len(),
        r@.take(course.id@.len() as int) == course.id@,
        r@.skip(course.id@.len() as int + 2) == course.title@,
{
    reveal_strlit("  ");
    assert(r@.take(course.id@.len() as int) =~= course.id@);
    assert(r@.skip(course.id@.len() as int + 2) =~= course.title@);
}

/// The line of a refresh shows the term, the number of its subjects and the time of the catalog; the
/// line of an export shows the number of events and where they went.
pub proof fn law_lines_show_their_numbers(
    base: &Dataset,
    refreshed: String,
    count: usize,
    path: &str,
    exported: String,
)
    requires
        call_ensures(refresh_line, (base,), refreshed),
        call_ensures(export_line, (count, path), exported),
    ensures
        occurs(base.term_id@ + ": "@ + decimal(base.deep_view().courses.len()), refreshed@),
        occurs(base.last_updated@, refreshed@),
        occurs(decimal(count as nat) + " events to "@ + path@, exported@),
{
    let none = Seq::<char>::empty();
    let n = decimal(base.deep_view().courses.len());
    let head = base.term_id@ + ": "@ + n;
    lemma_occurs_at(
        head,
        none,
        " subjects, source updated "@ + base.last_updated@,
        refreshed@,
    );
    lemma_occurs_at(
        base.last_updated@,
        head + " subjects, source updated "@,
        none,
        refreshed@,
    );
    lemma_occurs_at(
        decimal(count as nat) + " events to "@ + path@,
        "Exported "@,
        none,
        exported@,
    );
}

/// The line of a manual section begins with its id and says whether it is on.
pub proof fn law_manual_lines_say_on_or_off(entry: &ManualEntry, r: String)
    requires
        call_ensures(manual_line, (entry,), r),
    ensures
        r@.take(entry.option.id@.len() as int) == entry.option.id@,
        entry.enabled ==> occurs(entry.option.id@ + " [on] "@ + entry.term_id@, r@),
        !entry.enabled ==> occurs(entry.option.id@ + " [off] "@ + entry.term_id@, r@),
        occurs(entry.course_id@ + " "@ + entry.kind@ + " "@ + entry.option.label@, r@),
{
    reveal_strlit(" [on] ");
    reveal_strlit(" [off] ");
    reveal_strlit(" [");
    reveal_strlit("on");
    reveal_strlit("off");
    reveal_strlit("] ");
    let none = Seq::<char>::empty();
    let tail = entry.course_id@ + " "@ + entry.kind@ + " "@ + entry.option.label@;
    assert(r@.take(entry.option.id@.len() as int) =~= entry.option.id@);
    let mark = if entry.enabled {
        " [on] "@
    } else {
        " [off] "@
    };
    assert(mark =~= " ["@ + (if entry.enabled {
        "on"@
    } else {
        "off"@
    }) + "] "@);
    lemma_occurs_at(entry.option.id@ + mark + entry.term_id@, none, " "@ + tail, r@);
    lemma_occurs_at(tail, entry.option.id@ + mark + entry.term_id@ + " "@, none, r@);
}

/// A refresh is refused exactly where the network may not be used or a catalog is given.
pub proof fn law_refresh_needs_the_network(offline: bool, catalog: bool, r: Result<(), Error>)
    requires
        call_ensures(check_refresh, (offline, catalog), r),
    ensures
        r is Err <==> offline || catalog,
{
}

/// The subjects that are asked for are there at the start, except after a reload that has the stored
/// ones.
pub proof fn law_asked_subjects_are_there(
    select: Vec<String>,
    reload: bool,
    no_restore: bool,
    r: Vec<String>,
)
    requires
        call_ensures(initial_subjects, (select, reload, no_restore), r),
    ensures
        !reload || no_restore ==> r.deep_view() == select.deep_view(),
        reload && !no_restore ==> r.deep_view().len() == 0,
{
}

/// The courses of chosen sections are listed once each, in order.
pub proof fn law_courses_are_listed_once(sections: &[ChosenSection], r: Vec<String>, id: Seq<char>)
    requires
        call_ensures(sorted_course_ids, (sections,), r),
    ensures
        ascending::<String>(r.deep_view()),
        r.deep_view().contains(id) <==> exists|k: int|
            0 <= k < sections.deep_view().len() && (#[trigger] sections.deep_view()[k]).course_id
                == id,
{
    let views = sections.deep_view();
    let ids = course_ids(views);
    lemma_distinct_ascending::<String>(ids);
    if ids.contains(id) {
        let k = choose|k: int| 0 <= k < ids.len() && ids[k] == id;
        assert(views[k].course_id == id);
    }
    if exists|k: int| 0 <= k < views.len() && (#[trigger] views[k]).course_id == id {
        let k = choose|k: int| 0 <= k < views.len() && (#[trigger] views[k]).course_id == id;
        assert(ids[k] == id);
    }
}

/// A meeting is valid exactly if it is on one of the seven days, ends after it starts and not after
/// midnight, and does not end on a date before its first.
pub proof fn law_valid_meetings(m: &Meeting, r: Result<(), Error>)
    requires
        call_ensures(Meeting::validate, (m,), r),
    ensures
        r is Ok <==> {
            &&& m.weekday <= 6
            &&& m.start_minute < m.end_minute
            &&& m.end_minute <= 24 * 60
            &&& m.start_date is Some && m.end_date is Some ==> m.start_date->0.number()
                <= m.end_date->0.number()
        },
{
}

/// An optimization that has no timetable has no sections.
pub proof fn law_no_timetable_no_sections(
    base: &Dataset,
    manual: &ManualStore,
    subjects: &[String],
    members: &Vec<String>,
    r: Result<Optimized, Error>,
)
    requires
        call_ensures(optimize_subjects, (base, manual, subjects, members), r),
        r is Ok,
    ensures
        ({
            let o = (r->Ok_0).deep_view();
            &&& o.solution.status is OptimalKnown ==> o.sections.len() == o.solution.choices.len()
            &&& !(o.solution.status is OptimalKnown) ==> o.sections.len() == 0
            &&& o.dataset.term_id == base.deep_view().term_id
            &&& o.dataset.calendar == base.deep_view().calendar
        }),
{
    let o = (r->Ok_0).deep_view();
    if o.solution.status is OptimalKnown {
        crate::laws::choosing::lemma_chosen_for_all(
            o.dataset.courses,
            o.solution.choices,
            o.members,
        );
    }
}

} // verus!
