//! That a dataset offers what its catalog publishes, and nothing else.
use vstd::prelude::*;
use crate::adapter::{
    course_of, courses_of, dataset_with, limit_of, optional_date, optional_date_member,
    parse_documents, pe_course_of, pe_course_with, pe_label, pe_notices, pe_section_of,
    pe_sections_of, quarter_named, quarter_title, section_number, times_unknown, title_of,
    with_course, with_pe, with_quarter, with_quarters,
};
use crate::date::date_text;
use crate::error::Error;
use crate::json::{member, text_member, Json, JsonView};
use crate::laws::catalog::{by_id, is_section, lemma_by_id, lemma_section_parts, published_label};
use crate::laws::dataset::{
    describes, is_number, is_title, law_course_is_its_raw_course, lemma_title,
};
use crate::laws::terms::{
    is_calendar, is_known_day, law_calendar_is_that_of_the_term,
    law_metadata_are_those_of_the_catalog,
};
use crate::model::{CourseView, Dataset, DatasetView, SectionOptionView, Source, TermCalendarView};
use crate::optimizer::id_le;
use crate::order::{
    ascending, keys_of, law_lookup_after_insert, lemma_map_insert, lookup, stable_sorted,
};
use crate::text::decimal;

verus! {

/// The number of a section at a position: the one that is listed, else the position counted from
/// one.
pub open spec fn is_section_number(raw: JsonView, at: int, number: Seq<char>) -> bool {
    match member(raw, "sectionNumbers"@) {
        Some(JsonView::Array(numbers)) => at < numbers.len() && numbers[at] == JsonView::Text(
            number,
        ),
        _ => number == decimal((at + 1) as nat),
    }
}

/// The label of a section of physical education: the published one or one made of its number, with
/// the dates where both are known.
pub open spec fn is_pe_label(
    raw: JsonView,
    at: int,
    start: Option<int>,
    end: Option<int>,
    label: Seq<char>,
) -> bool {
    exists|number: Seq<char>| #[trigger]
        is_section_number(raw, at, number) && label == (match published_label(
            listed(raw, "rawSections"@),
            at,
        ) {
            Some(text) => text,
            None => "Section "@ + number,
        }) + (if start is Some && end is Some {
            " ("@ + date_text(start->0) + " to "@ + date_text(end->0) + ")"@
        } else {
            Seq::empty()
        })
}

/// The items of a list in a member, if it is there.
pub open spec fn listed(raw: JsonView, name: Seq<char>) -> Option<Seq<JsonView>> {
    match member(raw, name) {
        Some(JsonView::Array(items)) => Some(items),
        _ => None,
    }
}

/// A section of physical education with what its raw section says.
#[verifier::opaque]
pub open spec fn publishes_pe(
    raw: JsonView,
    json: JsonView,
    at: int,
    start: Option<int>,
    end: Option<int>,
    option: SectionOptionView,
) -> bool {
    &&& is_section(json, optional_date(start), optional_date(end), option.meetings, option.room)
    &&& option.source == Source::Api
    &&& option.incompatible_with.len() == 0
    &&& is_pe_label(raw, at, start, end, option.label)
    &&& start is None || end is None ==> option.unsupported_reason == Some(
        "PE section dates have not been announced"@,
    )
    &&& start is Some && end is Some && option.meetings.len() == 0 ==> option.unsupported_reason
        == Some("section has no known meeting times"@)
    &&& start is Some && end is Some && option.meetings.len() > 0
        ==> option.unsupported_reason is None
}

proof fn lemma_pe_section(
    raw: JsonView,
    course_id: Seq<char>,
    at: int,
    json: JsonView,
    number: Seq<char>,
    start: Option<int>,
    end: Option<int>,
)
    requires
        is_section_number(raw, at, number),
        0 <= at,
        pe_section_of(
            course_id,
            at,
            json,
            number,
            listed(raw, "rawSections"@),
            start,
            end,
        ) is Ok,
    ensures
        publishes_pe(
            raw,
            json,
            at,
            start,
            end,
            pe_section_of(
                course_id,
                at,
                json,
                number,
                listed(raw, "rawSections"@),
                start,
                end,
            )->Ok_0,
        ),
{
    reveal(publishes_pe);
    lemma_section_parts(json, start, end);
    let labels = listed(raw, "rawSections"@);
    let label = pe_label(labels, at, number, start, end);
    let base = match published_label(labels, at) {
        Some(text) => text,
        None => "Section "@ + number,
    };
    if start is Some && end is Some {
        assert(label =~= base + (" ("@ + date_text(start->0) + " to "@ + date_text(end->0) + ")"@));
    } else {
        assert(label =~= base + Seq::empty());
    }
    assert(is_section_number(raw, at, number));
}

proof fn lemma_pe_sections(
    raw: JsonView,
    course_id: Seq<char>,
    sections: Seq<JsonView>,
    start: Option<int>,
    end: Option<int>,
)
    requires
        member(raw, "sectionNumbers"@) is None || member(raw, "sectionNumbers"@)->0 is Array,
        listed(raw, "sectionNumbers"@) is Some ==> listed(raw, "sectionNumbers"@)->0.len()
            >= sections.len(),
        pe_sections_of(
            course_id,
            sections,
            listed(raw, "sectionNumbers"@),
            listed(raw, "rawSections"@),
            start,
            end,
        ) is Ok,
    ensures
        ({
            let options = (pe_sections_of(
                course_id,
                sections,
                listed(raw, "sectionNumbers"@),
                listed(raw, "rawSections"@),
                start,
                end,
            )->Ok_0).0;
            &&& options.len() == sections.len()
            &&& forall|k: int|
                0 <= k < sections.len() ==> publishes_pe(
                    raw,
                    #[trigger] sections[k],
                    k,
                    start,
                    end,
                    options[k],
                )
        }),
    decreases sections.len(),
{
    if sections.len() > 0 {
        let rest = sections.drop_last();
        let at = sections.len() - 1;
        let numbers = listed(raw, "sectionNumbers"@);
        let labels = listed(raw, "rawSections"@);
        let number = section_number(numbers, at)->0;
        lemma_pe_sections(raw, course_id, rest, start, end);
        assert(is_section_number(raw, at, number));
        lemma_pe_section(raw, course_id, at, sections.last(), number, start, end);
        let known = (pe_sections_of(course_id, rest, numbers, labels, start, end)->Ok_0).0;
        let options = (pe_sections_of(course_id, sections, numbers, labels, start, end)->Ok_0).0;
        assert forall|k: int| 0 <= k < sections.len() implies publishes_pe(
            raw,
            #[trigger] sections[k],
            k,
            start,
            end,
            options[k],
        ) by {
            if k < at {
                assert(publishes_pe(raw, rest[k], k, start, end, known[k]));
            }
        }
    }
}

/// The published sections of physical education are those of the raw sections, in the order of
/// their ids, as many as there are.
pub open spec fn publish_pe(
    raw: JsonView,
    start: Option<int>,
    end: Option<int>,
    options: Seq<SectionOptionView>,
) -> bool {
    let sections = match listed(raw, "sections"@) {
        Some(sections) => sections,
        None => Seq::empty(),
    };
    &&& options.len() == sections.len()
    &&& by_id(options)
    &&& forall|k: int|
        0 <= k < sections.len() ==> shown_pe(raw, #[trigger] sections[k], k, start, end, options)
    &&& forall|option: SectionOptionView| #[trigger]
        options.contains(option) ==> stems_from(raw, sections, start, end, option)
}

/// A section is that of one of the raw sections.
pub open spec fn stems_from(
    raw: JsonView,
    sections: Seq<JsonView>,
    start: Option<int>,
    end: Option<int>,
    option: SectionOptionView,
) -> bool {
    exists|k: int|
        0 <= k < sections.len() && publishes_pe(
            raw,
            #[trigger] sections[k],
            k,
            start,
            end,
            option,
        )
}

/// One of the sections is that of a raw section.
pub open spec fn shown_pe(
    raw: JsonView,
    json: JsonView,
    at: int,
    start: Option<int>,
    end: Option<int>,
    options: Seq<SectionOptionView>,
) -> bool {
    exists|option: SectionOptionView| #[trigger]
        options.contains(option) && publishes_pe(raw, json, at, start, end, option)
}

/// A course of physical education is the one that a raw course of a quarter describes.
pub open spec fn describes_pe(
    quarter: int,
    key: Seq<char>,
    raw: JsonView,
    start: Option<int>,
    end: Option<int>,
    course: CourseView,
) -> bool {
    &&& raw is Object
    &&& fits_quarter(raw, quarter)
    &&& is_known_day(raw, "startDate"@, start)
    &&& is_known_day(raw, "endDate"@, end)
    &&& exists|number: Seq<char>, title: Seq<char>|
        {
            &&& #[trigger] is_number(raw, key, number)
            &&& #[trigger] is_title(raw, number, title)
            &&& course.id == number + ".Q"@ + decimal(quarter as nat)
            &&& course.title == title + " ("@ + (if quarter == 5 {
                "IAP"@
            } else {
                "Q"@ + decimal(quarter as nat)
            }) + ")"@
        }
    &&& course.requirements.len() == 1
    &&& course.requirements[0].kind == "pe"@
    &&& course.requirements[0].id == course.id + "/pe"@
    &&& publish_pe(raw, start, end, course.requirements[0].options)
    &&& course.requirements[0].has_unknown_times <==> lacks_times(course.requirements[0].options)
    &&& course.notices.contains("pe: some meeting times are not machine-readable"@) <==> lacks_times(
        course.requirements[0].options,
    )
    &&& course.notices.contains(
        "pe: published options without announced dates are preserved but omitted from weekly optimization"@,
    ) <==> course.requirements[0].options.len() > 0 && (start is None || end is None)
}

/// A course that says of which quarter it is is listed under that one.
pub open spec fn fits_quarter(raw: JsonView, quarter: int) -> bool {
    member(raw, "quarter"@) is Some ==> (member(raw, "quarter"@)->0 matches JsonView::Number(
        Some(n),
        _,
    ) && n == quarter)
}

/// There are no sections, or one without meetings.
pub open spec fn lacks_times(options: Seq<SectionOptionView>) -> bool {
    options.len() == 0 || exists|i: int|
        0 <= i < options.len() && (#[trigger] options[i]).meetings.len() == 0
}

proof fn lemma_pe_notices(options: Seq<SectionOptionView>, start: Option<int>, end: Option<int>)
    ensures
        ({
            let notices = pe_notices(options, start, end);
            &&& notices.contains("pe: some meeting times are not machine-readable"@)
                <==> lacks_times(options)
            &&& notices.contains(
                "pe: published options without announced dates are preserved but omitted from weekly optimization"@,
            ) <==> options.len() > 0 && (start is None || end is None)
        }),
{
    let notices = pe_notices(options, start, end);
    let a = "pe: some meeting times are not machine-readable"@;
    let b =
        "pe: published options without announced dates are preserved but omitted from weekly optimization"@;
    reveal_strlit("pe: some meeting times are not machine-readable");
    reveal_strlit(
        "pe: published options without announced dates are preserved but omitted from weekly optimization",
    );
    assert(a.len() != b.len());
    let unreadable = times_unknown(options);
    let undated = options.len() > 0 && (start is None || end is None);
    if unreadable && undated {
        assert(notices[0] == a && notices[1] == b);
    } else if unreadable {
        assert(notices =~= seq![a]);
        assert(notices[0] == a);
    } else if undated {
        assert(notices =~= seq![b]);
        assert(notices[0] == b);
    } else {
        assert(notices =~= Seq::empty());
    }
}

/// A course of physical education is the one that its raw course describes.
pub proof fn law_pe_course_is_its_raw_course(quarter: int, key: Seq<char>, raw: JsonView)
    requires
        pe_course_of(quarter, key, raw) is Ok,
    ensures
        described_pe(quarter, key, raw, pe_course_of(quarter, key, raw)->Ok_0),
{
    let course = pe_course_of(quarter, key, raw)->Ok_0;
    let number = match text_member(raw, "number"@) {
        Some(number) => number,
        None => key,
    };
    let title = title_of(raw, number);
    let start = optional_date_member(raw, "startDate"@)->Ok_0;
    let end = optional_date_member(raw, "endDate"@)->Ok_0;
    let sections = match listed(raw, "sections"@) {
        Some(sections) => sections,
        None => Seq::empty(),
    };
    let numbers = listed(raw, "sectionNumbers"@);
    let labels = listed(raw, "rawSections"@);
    assert(course == pe_course_with(
        number + ".Q"@ + decimal(quarter as nat),
        title + " ("@ + quarter_title(quarter) + ")"@,
        sections,
        numbers,
        labels,
        start,
        end,
    )->Ok_0);
    lemma_title(raw, number);
    assert(is_number(raw, key, number) && is_title(raw, number, title));
    let options = (pe_sections_of(course.id, sections, numbers, labels, start, end)->Ok_0).0;
    lemma_pe_sections(raw, course.id, sections, start, end);
    lemma_publish_pe(raw, start, end, sections, options);
    lemma_pe_notices(course.requirements[0].options, start, end);
    assert(describes_pe(quarter, key, raw, start, end, course));
}

proof fn lemma_publish_pe(
    raw: JsonView,
    start: Option<int>,
    end: Option<int>,
    sections: Seq<JsonView>,
    options: Seq<SectionOptionView>,
)
    requires
        sections == (match listed(raw, "sections"@) {
            Some(sections) => sections,
            None => Seq::empty(),
        }),
        options.len() == sections.len(),
        forall|k: int|
            0 <= k < sections.len() ==> publishes_pe(
                raw,
                #[trigger] sections[k],
                k,
                start,
                end,
                options[k],
            ),
    ensures
        publish_pe(raw, start, end, stable_sorted(options, id_le())),
{
    let sorted = stable_sorted(options, id_le());
    lemma_by_id(options);
    crate::optimizer::lemma_sorted_elements(options, id_le());
    assert forall|k: int| 0 <= k < sections.len() implies shown_pe(
        raw,
        #[trigger] sections[k],
        k,
        start,
        end,
        sorted,
    ) by {
        assert(options.contains(options[k]));
        assert(sorted.contains(options[k]));
    }
    assert forall|option: SectionOptionView| #[trigger] sorted.contains(option) implies stems_from(
        raw,
        sections,
        start,
        end,
        option,
    ) by {
        assert(options.contains(option));
        let k = choose|k: int| 0 <= k < options.len() && options[k] == option;
        assert(publishes_pe(raw, sections[k], k, start, end, options[k]));
    }
}

/// A course of physical education is the one that a raw course describes, with its dates.
pub open spec fn described_pe(
    quarter: int,
    key: Seq<char>,
    raw: JsonView,
    course: CourseView,
) -> bool {
    exists|start: Option<int>, end: Option<int>| #[trigger]
        describes_pe(quarter, key, raw, start, end, course)
}

/// A course is the one that a raw course describes, with the days that it takes of the term.
pub open spec fn described(
    key: Seq<char>,
    raw: JsonView,
    calendar: TermCalendarView,
    term: JsonView,
    course: CourseView,
) -> bool {
    limit_of(raw, calendar, term) is Ok && describes(
        key,
        raw,
        limit_of(raw, calendar, term)->Ok_0,
        course,
    )
}

proof fn lemma_with_course(
    courses: Seq<(Seq<char>, CourseView)>,
    key: Seq<char>,
    course: CourseView,
    id: Seq<char>,
)
    requires
        ascending::<String>(keys_of(courses)),
        with_course(courses, key, course) is Ok,
    ensures
        ascending::<String>(keys_of(with_course(courses, key, course)->Ok_0)),
        lookup(with_course(courses, key, course)->Ok_0, id) == (if id == course.id {
            Some(course)
        } else {
            lookup(courses, id)
        }),
        lookup(courses, course.id) is None,
{
    lemma_map_insert::<String, CourseView>(courses, course.id, course);
    law_lookup_after_insert::<String, CourseView>(courses, course.id, course, id);
}

/// A member of a catalog is read as a course.
spec fn read_as(
    entry: (Seq<char>, JsonView),
    calendar: TermCalendarView,
    term: JsonView,
    course: CourseView,
) -> bool {
    course_of(entry.0, entry.1, calendar, term) == Ok::<CourseView, Seq<char>>(course)
}

proof fn lemma_courses(
    members: Seq<(Seq<char>, JsonView)>,
    calendar: TermCalendarView,
    term: JsonView,
    id: Seq<char>,
)
    requires
        courses_of(members, calendar, term) is Ok,
    ensures
        ({
            let courses = courses_of(members, calendar, term)->Ok_0;
            &&& ascending::<String>(keys_of(courses))
            &&& lookup(courses, id) is Some ==> lookup(courses, id)->0.id == id && exists|k: int|
                0 <= k < members.len() && read_as(
                    #[trigger] members[k],
                    calendar,
                    term,
                    lookup(courses, id)->0,
                )
            &&& forall|k: int|
                #![trigger members[k]]
                0 <= k < members.len() ==> {
                    let read = course_of(members[k].0, members[k].1, calendar, term);
                    read is Ok && (read->Ok_0.id == id ==> lookup(courses, id) == Some(read->Ok_0))
                }
        }),
    decreases members.len(),
{
    let courses = courses_of(members, calendar, term)->Ok_0;
    if members.len() == 0 {
        assert(keys_of(courses) =~= Seq::empty());
    } else {
        let rest = members.drop_last();
        let at = members.len() - 1;
        let known = courses_of(rest, calendar, term)->Ok_0;
        let key = members.last().0;
        let own = course_of(key, members.last().1, calendar, term)->Ok_0;
        lemma_courses(rest, calendar, term, id);
        lemma_with_course(known, key, own, id);
        assert(members[at] == members.last());
        assert(forall|k: int| 0 <= k < rest.len() ==> #[trigger] rest[k] == members[k]);
        assert(read_as(members[at], calendar, term, own));
        if id != own.id && lookup(courses, id) is Some {
            let k = choose|k: int|
                0 <= k < rest.len() && read_as(
                    #[trigger] rest[k],
                    calendar,
                    term,
                    lookup(known, id)->0,
                );
            assert(read_as(members[k], calendar, term, lookup(courses, id)->0));
        }
        assert forall|k: int|
            #![trigger members[k]]
            0 <= k < members.len() implies {
            let read = course_of(members[k].0, members[k].1, calendar, term);
            read is Ok && (read->Ok_0.id == id ==> lookup(courses, id) == Some(read->Ok_0))
        } by {
            if k < at {
                assert(rest[k] == members[k]);
            }
        }
    }
}

/// A member of a quarter is read as a course of physical education.
spec fn read_as_pe(quarter: int, entry: (Seq<char>, JsonView), course: CourseView) -> bool {
    pe_course_of(quarter, entry.0, entry.1) == Ok::<CourseView, Seq<char>>(course)
}

#[verifier::spinoff_prover]
#[verifier::rlimit(60)]
proof fn lemma_quarter(
    courses: Seq<(Seq<char>, CourseView)>,
    quarter: int,
    members: Seq<(Seq<char>, JsonView)>,
    id: Seq<char>,
)
    requires
        ascending::<String>(keys_of(courses)),
        with_quarter(courses, quarter, members) is Ok,
    ensures
        ({
            let all = with_quarter(courses, quarter, members)->Ok_0;
            &&& ascending::<String>(keys_of(all))
            &&& lookup(courses, id) is Some ==> lookup(all, id) == lookup(courses, id)
            &&& lookup(all, id) is Some && lookup(courses, id) is None ==> lookup(all, id)->0.id
                == id && exists|k: int|
                0 <= k < members.len() && read_as_pe(
                    quarter,
                    #[trigger] members[k],
                    lookup(all, id)->0,
                )
            &&& forall|k: int|
                #![trigger members[k]]
                0 <= k < members.len() ==> {
                    let read = pe_course_of(quarter, members[k].0, members[k].1);
                    read is Ok && (read->Ok_0.id == id ==> lookup(all, id) == Some(read->Ok_0))
                }
        }),
    decreases members.len(),
{
    if members.len() > 0 {
        let all = with_quarter(courses, quarter, members)->Ok_0;
        let rest = members.drop_last();
        let at = members.len() - 1;
        let known = with_quarter(courses, quarter, rest)->Ok_0;
        let key = members.last().0;
        let own = pe_course_of(quarter, key, members.last().1)->Ok_0;
        lemma_quarter(courses, quarter, rest, id);
        lemma_with_course(known, key, own, id);
        assert(members[at] == members.last());
        assert(forall|k: int| 0 <= k < rest.len() ==> #[trigger] rest[k] == members[k]);
        assert(read_as_pe(quarter, members[at], own));
        if id != own.id && lookup(all, id) is Some && lookup(courses, id) is None {
            let k = choose|k: int|
                0 <= k < rest.len() && read_as_pe(quarter, #[trigger] rest[k], lookup(known, id)->0);
            assert(read_as_pe(quarter, members[k], lookup(all, id)->0));
        }
        assert forall|k: int|
            #![trigger members[k]]
            0 <= k < members.len() implies {
            let read = pe_course_of(quarter, members[k].0, members[k].1);
            read is Ok && (read->Ok_0.id == id ==> lookup(all, id) == Some(read->Ok_0))
        } by {
            if k < at {
                assert(rest[k] == members[k]);
            }
        }
    }
}

/// A name is the digit of a quarter.
pub open spec fn is_quarter(name: Seq<char>, quarter: int) -> bool {
    1 <= quarter <= 5 && name == decimal(quarter as nat)
}

proof fn lemma_is_quarter(name: Seq<char>)
    requires
        quarter_named(name) is Some,
    ensures
        is_quarter(name, quarter_named(name)->0),
{
    reveal_strlit("1");
    reveal_strlit("2");
    reveal_strlit("3");
    reveal_strlit("4");
    reveal_strlit("5");
    let quarter = quarter_named(name)->0;
    reveal_with_fuel(decimal, 2);
    assert(name =~= decimal(quarter as nat));
}

/// A quarter lists a raw course of physical education.
pub open spec fn lists_pe(
    quarters: Seq<(Seq<char>, JsonView)>,
    quarter: int,
    key: Seq<char>,
    raw: JsonView,
) -> bool {
    exists|q: int, k: int| #[trigger] lists_at(quarters, q, k, quarter, key, raw)
}

/// A raw course of physical education is at a position of the quarter at a position.
pub open spec fn lists_at(
    quarters: Seq<(Seq<char>, JsonView)>,
    q: int,
    k: int,
    quarter: int,
    key: Seq<char>,
    raw: JsonView,
) -> bool {
    &&& 0 <= q < quarters.len()
    &&& is_quarter(quarters[q].0, quarter)
    &&& quarters[q].1 matches JsonView::Object(members)
    &&& 0 <= k < members.len()
    &&& members[k] == (key, raw)
}

proof fn lemma_quarters(
    courses: Seq<(Seq<char>, CourseView)>,
    quarters: Seq<(Seq<char>, JsonView)>,
    id: Seq<char>,
)
    requires
        ascending::<String>(keys_of(courses)),
        with_quarters(courses, quarters) is Ok,
    ensures
        ({
            let all = with_quarters(courses, quarters)->Ok_0;
            &&& ascending::<String>(keys_of(all))
            &&& lookup(courses, id) is Some ==> lookup(all, id) == lookup(courses, id)
            &&& lookup(all, id) is Some && lookup(courses, id) is None ==> lookup(all, id)->0.id
                == id && exists|quarter: int, key: Seq<char>, raw: JsonView| #[trigger]
                lists_pe(quarters, quarter, key, raw) && read_as_pe(
                    quarter,
                    (key, raw),
                    lookup(all, id)->0,
                )
            &&& forall|quarter: int, key: Seq<char>, raw: JsonView| #[trigger]
                lists_pe(quarters, quarter, key, raw) ==> {
                    let read = pe_course_of(quarter, key, raw);
                    read is Ok && (read->Ok_0.id == id ==> lookup(all, id) == Some(read->Ok_0))
                }
        }),
    decreases quarters.len(),
{
    if quarters.len() > 0 {
        let all = with_quarters(courses, quarters)->Ok_0;
        let rest = quarters.drop_last();
        let at = quarters.len() - 1;
        let known = with_quarters(courses, rest)->Ok_0;
        let name = quarters.last().0;
        let own = quarter_named(name)->0;
        let members = quarters.last().1->Object_0;
        lemma_quarters(courses, rest, id);
        lemma_is_quarter(name);
        lemma_quarter(known, own, members, id);
        assert(quarters[at] == quarters.last());
        if lookup(all, id) is Some && lookup(courses, id) is None {
            if lookup(known, id) is Some {
                let (quarter, key, raw) = choose|quarter: int, key: Seq<char>, raw: JsonView|
                    #[trigger]
                    lists_pe(rest, quarter, key, raw) && read_as_pe(
                        quarter,
                        (key, raw),
                        lookup(known, id)->0,
                    );
                lemma_lists_more(quarters, quarter, key, raw);
            } else {
                let k = choose|k: int|
                    0 <= k < members.len() && read_as_pe(
                        own,
                        #[trigger] members[k],
                        lookup(all, id)->0,
                    );
                let (key, raw) = members[k];
                assert(lists_at(quarters, at, k, own, key, raw));
                assert(lists_pe(quarters, own, key, raw));
            }
        }
        assert forall|quarter: int, key: Seq<char>, raw: JsonView| #[trigger]
            lists_pe(quarters, quarter, key, raw) implies {
            let read = pe_course_of(quarter, key, raw);
            read is Ok && (read->Ok_0.id == id ==> lookup(all, id) == Some(read->Ok_0))
        } by {
            lemma_listed_where(quarters, own, quarter, key, raw);
            if !lists_pe(rest, quarter, key, raw) {
                let k = choose|k: int| 0 <= k < members.len() && members[k] == (key, raw);
                assert(members[k] == (key, raw));
            }
        }
    }
}

proof fn lemma_listed_where(
    quarters: Seq<(Seq<char>, JsonView)>,
    own: int,
    quarter: int,
    key: Seq<char>,
    raw: JsonView,
)
    requires
        quarters.len() > 0,
        is_quarter(quarters.last().0, own),
        lists_pe(quarters, quarter, key, raw),
    ensures
        lists_pe(quarters.drop_last(), quarter, key, raw) || (quarter == own
            && quarters.last().1 is Object && quarters.last().1->Object_0.contains((key, raw))),
{
    let rest = quarters.drop_last();
    let (q, k) = choose|q: int, k: int| #[trigger] lists_at(quarters, q, k, quarter, key, raw);
    if q < rest.len() {
        assert(rest[q] == quarters[q]);
        assert(lists_at(rest, q, k, quarter, key, raw));
    } else {
        lemma_one_quarter(quarters.last().0, own, quarter);
    }
}

proof fn lemma_lists_more(
    quarters: Seq<(Seq<char>, JsonView)>,
    quarter: int,
    key: Seq<char>,
    raw: JsonView,
)
    requires
        quarters.len() > 0,
        lists_pe(quarters.drop_last(), quarter, key, raw),
    ensures
        lists_pe(quarters, quarter, key, raw),
{
    let rest = quarters.drop_last();
    let (q, k) = choose|q: int, k: int| #[trigger] lists_at(rest, q, k, quarter, key, raw);
    assert(quarters[q] == rest[q]);
    assert(lists_at(quarters, q, k, quarter, key, raw));
}

proof fn lemma_one_quarter(name: Seq<char>, a: int, b: int)
    requires
        is_quarter(name, a),
        is_quarter(name, b),
    ensures
        a == b,
{
    reveal_with_fuel(decimal, 2);
    assert(name[0] == crate::text::digit(a));
    assert(name[0] == crate::text::digit(b));
    assert(crate::text::digit_value(crate::text::digit(a)) == a);
    assert(crate::text::digit_value(crate::text::digit(b)) == b);
}

/// A catalog lists a raw course of physical education.
pub open spec fn publishes_in_pe(
    catalog: JsonView,
    quarter: int,
    key: Seq<char>,
    raw: JsonView,
) -> bool {
    member(catalog, "pe"@) matches Some(JsonView::Object(quarters)) && lists_pe(
        quarters,
        quarter,
        key,
        raw,
    )
}

/// A catalog lists a raw course.
pub open spec fn publishes_course(catalog: JsonView, key: Seq<char>, raw: JsonView) -> bool {
    member(catalog, "classes"@) matches Some(JsonView::Object(members)) && members.contains(
        (key, raw),
    )
}

/// A dataset offers what a catalog publishes. Each published course is in it as its raw course
/// describes it, each course in it is published, and its calendar is that of the term.
pub open spec fn offers(catalog: JsonView, term: JsonView, dataset: DatasetView) -> bool {
    &&& dataset.calendar is Some
    &&& is_calendar(term, dataset.calendar->0)
    &&& ascending::<String>(keys_of(dataset.courses))
    &&& forall|key: Seq<char>, raw: JsonView| #[trigger]
        publishes_course(catalog, key, raw) ==> exists|id: Seq<char>| #[trigger]
            lookup(dataset.courses, id) is Some && is_number(raw, key, id) && described(
                key,
                raw,
                dataset.calendar->0,
                term,
                lookup(dataset.courses, id)->0,
            )
    &&& forall|quarter: int, key: Seq<char>, raw: JsonView| #[trigger]
        publishes_in_pe(catalog, quarter, key, raw) ==> exists|id: Seq<char>| #[trigger]
            lookup(dataset.courses, id) is Some && described_pe(
                quarter,
                key,
                raw,
                lookup(dataset.courses, id)->0,
            )
    &&& forall|id: Seq<char>| #[trigger]
        lookup(dataset.courses, id) is Some ==> lookup(dataset.courses, id)->0.id == id && {
            ||| exists|key: Seq<char>, raw: JsonView| #[trigger]
                publishes_course(catalog, key, raw) && described(
                    key,
                    raw,
                    dataset.calendar->0,
                    term,
                    lookup(dataset.courses, id)->0,
                )
            ||| exists|quarter: int, key: Seq<char>, raw: JsonView| #[trigger]
                publishes_in_pe(catalog, quarter, key, raw) && described_pe(
                    quarter,
                    key,
                    raw,
                    lookup(dataset.courses, id)->0,
                )
        }
}

proof fn lemma_offers(
    catalog: JsonView,
    term: JsonView,
    term_id: Seq<char>,
    calendar: TermCalendarView,
)
    requires
        dataset_with(catalog, term, term_id, calendar) is Ok,
        is_calendar(term, calendar),
    ensures
        offers(catalog, term, dataset_with(catalog, term, term_id, calendar)->Ok_0),
{
    let dataset = dataset_with(catalog, term, term_id, calendar)->Ok_0;
    let members = member(catalog, "classes"@)->0->Object_0;
    let plain = courses_of(members, calendar, term)->Ok_0;
    let all = dataset.courses;
    lemma_courses(members, calendar, term, Seq::empty());
    lemma_pe_added(plain, catalog, Seq::empty());
    assert forall|key: Seq<char>, raw: JsonView| #[trigger]
        publishes_course(catalog, key, raw) implies exists|id: Seq<char>| #[trigger]
        lookup(dataset.courses, id) is Some && is_number(raw, key, id) && described(
            key,
            raw,
            calendar,
            term,
            lookup(dataset.courses, id)->0,
        ) by {
        let k = choose|k: int| 0 <= k < members.len() && members[k] == (key, raw);
        let course = course_of(members[k].0, members[k].1, calendar, term)->Ok_0;
        lemma_courses(members, calendar, term, course.id);
        law_course_is_its_raw_course(key, raw, calendar, term);
        lemma_pe_added(plain, catalog, course.id);
        assert(lookup(plain, course.id) == Some(course));
        assert(lookup(dataset.courses, course.id) is Some);
    }
    assert forall|quarter: int, key: Seq<char>, raw: JsonView| #[trigger]
        publishes_in_pe(catalog, quarter, key, raw) implies exists|id: Seq<char>| #[trigger]
        lookup(dataset.courses, id) is Some && described_pe(
            quarter,
            key,
            raw,
            lookup(dataset.courses, id)->0,
        ) by {
        let course = pe_course_of(quarter, key, raw)->Ok_0;
        lemma_pe_added(plain, catalog, course.id);
        law_pe_course_is_its_raw_course(quarter, key, raw);
        assert(lookup(dataset.courses, course.id) is Some);
    }
    assert forall|id: Seq<char>| #[trigger] lookup(dataset.courses, id) is Some implies lookup(
        dataset.courses,
        id,
    )->0.id == id && ({
        ||| exists|key: Seq<char>, raw: JsonView| #[trigger]
            publishes_course(catalog, key, raw) && described(
                key,
                raw,
                calendar,
                term,
                lookup(dataset.courses, id)->0,
            )
        ||| exists|quarter: int, key: Seq<char>, raw: JsonView| #[trigger]
            publishes_in_pe(catalog, quarter, key, raw) && described_pe(
                quarter,
                key,
                raw,
                lookup(dataset.courses, id)->0,
            )
    }) by {
        let course = lookup(dataset.courses, id)->0;
        lemma_courses(members, calendar, term, id);
        lemma_pe_added(plain, catalog, id);
        if lookup(plain, id) is Some {
            let k = choose|k: int|
                0 <= k < members.len() && read_as(#[trigger] members[k], calendar, term, course);
            let (key, raw) = members[k];
            assert(members.contains((key, raw)));
            law_course_is_its_raw_course(key, raw, calendar, term);
            assert(publishes_course(catalog, key, raw));
        } else {
            let (quarter, key, raw) = choose|quarter: int, key: Seq<char>, raw: JsonView| #[trigger]
                publishes_in_pe(catalog, quarter, key, raw) && read_as_pe(
                    quarter,
                    (key, raw),
                    course,
                );
            law_pe_course_is_its_raw_course(quarter, key, raw);
            assert(publishes_in_pe(catalog, quarter, key, raw));
        }
    }
}

proof fn lemma_pe_added(courses: Seq<(Seq<char>, CourseView)>, catalog: JsonView, id: Seq<char>)
    requires
        ascending::<String>(keys_of(courses)),
        with_pe(courses, catalog) is Ok,
    ensures
        ({
            let all = with_pe(courses, catalog)->Ok_0;
            &&& ascending::<String>(keys_of(all))
            &&& lookup(courses, id) is Some ==> lookup(all, id) == lookup(courses, id)
            &&& lookup(all, id) is Some && lookup(courses, id) is None ==> lookup(all, id)->0.id
                == id && exists|quarter: int, key: Seq<char>, raw: JsonView| #[trigger]
                publishes_in_pe(catalog, quarter, key, raw) && read_as_pe(
                    quarter,
                    (key, raw),
                    lookup(all, id)->0,
                )
            &&& forall|quarter: int, key: Seq<char>, raw: JsonView| #[trigger]
                publishes_in_pe(catalog, quarter, key, raw) ==> {
                    let read = pe_course_of(quarter, key, raw);
                    read is Ok && (read->Ok_0.id == id ==> lookup(all, id) == Some(read->Ok_0))
                }
        }),
{
    match member(catalog, "pe"@) {
        Some(JsonView::Object(quarters)) => {
            lemma_quarters(courses, quarters, id);
            let all = with_pe(courses, catalog)->Ok_0;
            if lookup(all, id) is Some && lookup(courses, id) is None {
                let (quarter, key, raw) = choose|quarter: int, key: Seq<char>, raw: JsonView|
                    #[trigger]
                    lists_pe(quarters, quarter, key, raw) && read_as_pe(
                        quarter,
                        (key, raw),
                        lookup(all, id)->0,
                    );
                assert(publishes_in_pe(catalog, quarter, key, raw));
            }
        },
        _ => {},
    }
}

/// The dataset of a catalog and of the metadata of its term offers what they publish, under the
/// name of the term and with the time of the catalog.
pub proof fn law_dataset_offers_the_catalog(
    catalog: &Json,
    term: &Json,
    r: Result<Dataset, Error>,
) -> (info: JsonView)
    requires
        call_ensures(parse_documents, (catalog, term), r),
        r is Ok,
    ensures
        offers(catalog.deep_view(), info, (r->Ok_0).deep_view()),
        ({
            let own = member(catalog.deep_view(), "termInfo"@);
            let dataset = (r->Ok_0).deep_view();
            &&& term.deep_view() is Null ==> own == Some(info)
            &&& own is Some && text_member(own->0, "urlName"@) is Some ==> dataset.term_id
                == text_member(own->0, "urlName"@)->0
            &&& text_member(info, "urlName"@) is Some ==> dataset.term_id == text_member(
                info,
                "urlName"@,
            )->0
            &&& text_member(catalog.deep_view(), "lastUpdated"@) is Some ==> dataset.last_updated
                == text_member(catalog.deep_view(), "lastUpdated"@)->0
            &&& text_member(catalog.deep_view(), "lastUpdated"@) is None ==> dataset.last_updated
                == "unknown"@ && dataset.notices.len() == 1
        }),
{
    let own = match member(catalog.deep_view(), "termInfo"@) {
        Some(info) => info,
        None => JsonView::Null,
    };
    let info = crate::adapter::term_for(own, term.deep_view())->Ok_0;
    law_metadata_are_those_of_the_catalog(own, term.deep_view());
    law_calendar_is_that_of_the_term(info);
    lemma_offers(
        catalog.deep_view(),
        info,
        (r->Ok_0).deep_view().term_id,
        crate::adapter::calendar_of(info)->Ok_0,
    );
    info
}

} // verus!
