//! What a published catalog means.
use vstd::prelude::*;
use crate::adapter::{
    optional_date, raw_meeting, raw_meetings, repeated, requirement_of, section_of, section_parts,
    sections_of, slot_meeting, DateLimitView,
};
use crate::date::{lemma_date_of, Date};
use crate::determinism::lemma_id_order;
use crate::json::{member, JsonView};
use crate::model::{meeting_fault, Meeting, RequirementView, SectionOptionView, Source};
use crate::optimizer::{id_le, lemma_sorted_elements};
use crate::order::{ascending, law_stable_sorted, lemma_distinct_ascending, stable_sorted};
use crate::text::{capitalized, decimal, text_before, trimmed};

verus! {

/// A value is the pair of the given numbers.
pub open spec fn pair_of(json: JsonView, slot: int, length: int) -> bool {
    &&& json matches JsonView::Array(pair)
    &&& pair.len() == 2
    &&& pair[0] matches JsonView::Number(Some(a), _)
    &&& pair[1] matches JsonView::Number(Some(b), _)
    &&& a == slot && b == length
}

/// A meeting fills `length` half hours of the week from the half hour `slot` on, where a day has 34
/// of them and the first begins at six.
pub open spec fn fills(m: Meeting, slot: int, length: int) -> bool {
    &&& m.weekday < 7
    &&& m.start_minute >= 360
    &&& (m.start_minute - 360) % 30 == 0
    &&& (m.start_minute - 360) / 30 < 34
    &&& m.weekday * 34 + (m.start_minute - 360) / 30 == slot
    &&& m.end_minute - m.start_minute == 30 * length
    &&& length > 0
    &&& m.end_minute <= 1440
}

/// Two dates that are not in the wrong order.
pub open spec fn in_turn(start: Option<Date>, end: Option<Date>) -> bool {
    start is Some && end is Some ==> start->0.number() <= end->0.number()
}

proof fn lemma_dates(start: Option<Date>)
    ensures
        optional_date(start.deep_view()) == start,
{
    if start is Some {
        lemma_date_of(start->0);
    }
}

/// A raw pair of slot and length is read as the meeting that fills those half hours, with the dates
/// of its course, and refused exactly where no meeting does.
pub proof fn law_pair_is_the_meeting_that_fills_it(
    json: JsonView,
    start: Option<Date>,
    end: Option<Date>,
    m: Meeting,
)
    ensures
        raw_meeting(json, start.deep_view(), end.deep_view()) == Ok::<Meeting, Seq<char>>(m)
            <==> stands_for(json, start, end, m),
        raw_meeting(json, start.deep_view(), end.deep_view()) is Ok <==> exists|n: Meeting|
            stands_for(json, start, end, n),
{
    lemma_dates(start);
    lemma_dates(end);
    let first = start.deep_view();
    let last = end.deep_view();
    if raw_meeting(json, first, last) is Ok {
        lemma_read_pair(json, first, last);
    }
    if stands_for(json, start, end, m) {
        lemma_written_pair(json, first, last, m);
    }
    if exists|n: Meeting| stands_for(json, start, end, n) {
        let n = choose|n: Meeting| stands_for(json, start, end, n);
        lemma_written_pair(json, first, last, n);
    }
}

/// A raw pair is the one of a meeting with the given dates.
pub open spec fn stands_for(
    json: JsonView,
    start: Option<Date>,
    end: Option<Date>,
    m: Meeting,
) -> bool {
    &&& exists|slot: int, length: int| #[trigger] pair_of(json, slot, length) && fills(m, slot, length)
    &&& m.start_date == start
    &&& m.end_date == end
    &&& in_turn(start, end)
}

proof fn lemma_read_pair(json: JsonView, start: Option<int>, end: Option<int>)
    requires
        raw_meeting(json, start, end) is Ok,
    ensures
        stands_for(
            json,
            optional_date(start),
            optional_date(end),
            raw_meeting(json, start, end)->Ok_0,
        ),
{
    let m = raw_meeting(json, start, end)->Ok_0;
    let pair = json->Array_0;
    let slot = match pair[0] {
        JsonView::Number(Some(n), _) => n as int,
        _ => 0,
    };
    let length = match pair[1] {
        JsonView::Number(Some(n), _) => n as int,
        _ => 0,
    };
    assert(pair_of(json, slot, length));
    assert(slot == 34 * (slot / 34) + slot % 34);
    assert(m == slot_meeting(slot, length, start, end));
    assert(fills(m, slot, length));
}

proof fn lemma_written_pair(json: JsonView, start: Option<int>, end: Option<int>, m: Meeting)
    requires
        stands_for(json, optional_date(start), optional_date(end), m),
    ensures
        raw_meeting(json, start, end) == Ok::<Meeting, Seq<char>>(m),
{
    let (slot, length) = choose|slot: int, length: int| #[trigger]
        pair_of(json, slot, length) && fills(m, slot, length);
    let half = (m.start_minute - 360) / 30;
    assert(slot / 34 == m.weekday && slot % 34 == half);
    assert(m == slot_meeting(slot, length, start, end));
    assert(meeting_fault(m) is None);
}

proof fn lemma_raw_meetings(items: Seq<JsonView>, start: Option<int>, end: Option<int>)
    requires
        raw_meetings(items, start, end) is Ok,
    ensures
        ({
            let meetings = raw_meetings(items, start, end)->Ok_0;
            &&& meetings.len() == items.len()
            &&& forall|k: int|
                0 <= k < items.len() ==> stands_for(
                    #[trigger] items[k],
                    optional_date(start),
                    optional_date(end),
                    meetings[k],
                )
        }),
    decreases items.len(),
{
    if items.len() > 0 {
        let rest = items.drop_last();
        lemma_raw_meetings(rest, start, end);
        lemma_read_pair(items.last(), start, end);
        let meetings = raw_meetings(items, start, end)->Ok_0;
        assert forall|k: int| 0 <= k < items.len() implies stands_for(
            #[trigger] items[k],
            optional_date(start),
            optional_date(end),
            meetings[k],
        ) by {
            if k < rest.len() {
                assert(stands_for(
                    rest[k],
                    optional_date(start),
                    optional_date(end),
                    meetings[k],
                ));
            }
        }
    }
}

/// A published section is the one of a raw section: its meetings are those of the raw pairs, each
/// once and in order, and its room the one beside them.
pub open spec fn is_section(
    json: JsonView,
    start: Option<Date>,
    end: Option<Date>,
    meetings: Seq<Meeting>,
    room: Seq<char>,
) -> bool {
    &&& json matches JsonView::Array(parts)
    &&& parts.len() == 2
    &&& parts[0] matches JsonView::Array(pairs)
    &&& parts[1] matches JsonView::Text(place)
    &&& room == trimmed(place)
    &&& ascending::<Meeting>(meetings)
    &&& forall|k: int|
        0 <= k < pairs.len() ==> meets_as(meetings, #[trigger] pairs[k], start, end)
    &&& forall|m: Meeting| #[trigger]
        meetings.contains(m) ==> exists|k: int|
            0 <= k < pairs.len() && stands_for(#[trigger] pairs[k], start, end, m)
}

/// One of the meetings is that of a raw pair.
pub open spec fn meets_as(
    meetings: Seq<Meeting>,
    pair: JsonView,
    start: Option<Date>,
    end: Option<Date>,
) -> bool {
    exists|m: Meeting| #[trigger] meetings.contains(m) && stands_for(pair, start, end, m)
}

/// The meetings and the room of a published section are those of its raw section.
pub proof fn law_section_is_its_raw_section(json: JsonView, start: Option<Date>, end: Option<Date>)
    requires
        section_parts(json, start.deep_view(), end.deep_view()) is Ok,
    ensures
        is_section(
            json,
            start,
            end,
            (section_parts(json, start.deep_view(), end.deep_view())->Ok_0).0,
            (section_parts(json, start.deep_view(), end.deep_view())->Ok_0).1,
        ),
{
    lemma_dates(start);
    lemma_dates(end);
    lemma_section_parts(json, start.deep_view(), end.deep_view());
}

pub(crate) proof fn lemma_section_parts(json: JsonView, first: Option<int>, last: Option<int>)
    requires
        section_parts(json, first, last) is Ok,
    ensures
        is_section(
            json,
            optional_date(first),
            optional_date(last),
            (section_parts(json, first, last)->Ok_0).0,
            (section_parts(json, first, last)->Ok_0).1,
        ),
{
    let start = optional_date(first);
    let end = optional_date(last);
    let parts = json->Array_0;
    let pairs = parts[0]->Array_0;
    let read = raw_meetings(pairs, first, last)->Ok_0;
    let meetings = (section_parts(json, first, last)->Ok_0).0;
    lemma_raw_meetings(pairs, first, last);
    lemma_distinct_ascending::<Meeting>(read);
    assert forall|k: int| 0 <= k < pairs.len() implies meets_as(
        meetings,
        #[trigger] pairs[k],
        start,
        end,
    ) by {
        assert(read.contains(read[k]));
        assert(meetings.contains(read[k]));
    }
    assert forall|m: Meeting| #[trigger] meetings.contains(m) implies exists|k: int|
        0 <= k < pairs.len() && stands_for(#[trigger] pairs[k], start, end, m) by {
        assert(read.contains(m));
        let k = choose|k: int| 0 <= k < read.len() && read[k] == m;
        assert(stands_for(pairs[k], start, end, m));
    }
}

/// Why a published section cannot be placed: what holds of its whole course, or that its times are
/// not known.
pub open spec fn is_reason(
    reason: Option<Seq<char>>,
    of_course: Option<Seq<char>>,
    meetings: Seq<Meeting>,
) -> bool {
    &&& of_course is Some ==> reason == of_course
    &&& of_course is None && meetings.len() > 0 ==> reason is None
    &&& of_course is None && meetings.len() == 0 ==> reason == Some(
        "section has no known meeting times"@,
    )
}

/// A published section with what its raw section says.
#[verifier::opaque]
pub open spec fn publishes(
    json: JsonView,
    limit: DateLimitView,
    of_course: Option<Seq<char>>,
    option: SectionOptionView,
) -> bool {
    &&& is_section(
        json,
        optional_date(limit.start),
        optional_date(limit.end),
        option.meetings,
        option.room,
    )
    &&& is_reason(option.unsupported_reason, of_course, option.meetings)
    &&& option.source == Source::Api
    &&& option.incompatible_with.len() == 0
}

/// The label of a section at a position: the published one where there is one that is not blank,
/// else one made of its kind and of its number, counted from one.
#[verifier::opaque]
pub open spec fn is_label(
    label: Seq<char>,
    labels: Option<Seq<JsonView>>,
    kind: Seq<char>,
    at: int,
) -> bool {
    match published_label(labels, at) {
        Some(text) => label == text,
        None => label == (if kind.len() == 0 {
            "Section"@
        } else {
            capitalized(kind)
        }) + " "@ + decimal((at + 1) as nat),
    }
}

/// The published label at a position, if it is there and not blank.
pub open spec fn published_label(labels: Option<Seq<JsonView>>, at: int) -> Option<Seq<char>> {
    if labels is Some && at < labels->0.len() && labels->0[at] is Text && trimmed(
        labels->0[at]->Text_0,
    ).len() > 0 {
        Some(trimmed(labels->0[at]->Text_0))
    } else {
        None
    }
}

/// One of the published sections is that of a raw section.
pub open spec fn published_in(
    options: Seq<SectionOptionView>,
    json: JsonView,
    limit: DateLimitView,
    of_course: Option<Seq<char>>,
) -> bool {
    exists|option: SectionOptionView| #[trigger]
        options.contains(option) && publishes(json, limit, of_course, option)
}

/// A published section is that of one of the raw sections, from which it has its label.
pub open spec fn comes_from(
    sections: Seq<JsonView>,
    labels: Option<Seq<JsonView>>,
    kind: Seq<char>,
    limit: DateLimitView,
    of_course: Option<Seq<char>>,
    option: SectionOptionView,
) -> bool {
    exists|k: int|
        0 <= k < sections.len() && publishes(#[trigger] sections[k], limit, of_course, option)
            && is_label(option.label, labels, kind, k)
}

/// The published sections of a list: each raw section has one, and each of them has a raw section.
pub open spec fn publish(
    sections: Seq<JsonView>,
    labels: Option<Seq<JsonView>>,
    kind: Seq<char>,
    limit: DateLimitView,
    of_course: Option<Seq<char>>,
    options: Seq<SectionOptionView>,
) -> bool {
    &&& forall|k: int|
        0 <= k < sections.len() ==> published_in(
            options,
            #[trigger] sections[k],
            limit,
            of_course,
        )
    &&& forall|option: SectionOptionView| #[trigger]
        options.contains(option) ==> comes_from(
            sections,
            labels,
            kind,
            limit,
            of_course,
            option,
        )
}

/// No two sections have the same meetings, room and reason.
pub open spec fn told_apart(options: Seq<SectionOptionView>) -> bool {
    forall|x: SectionOptionView, y: SectionOptionView|
        #![trigger options.contains(x), options.contains(y)]
        options.contains(x) && options.contains(y) && x.meetings == y.meetings && x.room == y.room
            && x.unsupported_reason == y.unsupported_reason ==> x == y
}

proof fn lemma_section_of(
    course_id: Seq<char>,
    kind: Seq<char>,
    at: int,
    section: JsonView,
    labels: Option<Seq<JsonView>>,
    limit: DateLimitView,
    of_course: Option<Seq<char>>,
)
    requires
        section_of(course_id, kind, at, section, labels, limit, of_course) is Ok,
        0 <= at,
    ensures
        ({
            let option =
                section_of(course_id, kind, at, section, labels, limit, of_course)->Ok_0;
            &&& publishes(section, limit, of_course, option)
            &&& is_label(option.label, labels, kind, at)
        }),
{
    reveal(publishes);
    reveal(is_label);
    lemma_section_parts(section, limit.start, limit.end);
}

/// What says the same as a section of a raw section is one of it too.
proof fn lemma_alike(
    x: JsonView,
    y: JsonView,
    limit: DateLimitView,
    of_course: Option<Seq<char>>,
    a: SectionOptionView,
    b: SectionOptionView,
)
    requires
        publishes(x, limit, of_course, a),
        publishes(y, limit, of_course, b),
        a.meetings == b.meetings,
        a.room == b.room,
        a.unsupported_reason == b.unsupported_reason,
    ensures
        publishes(x, limit, of_course, b),
{
    reveal(publishes);
}

proof fn lemma_sections_of(
    course_id: Seq<char>,
    kind: Seq<char>,
    sections: Seq<JsonView>,
    labels: Option<Seq<JsonView>>,
    limit: DateLimitView,
    of_course: Option<Seq<char>>,
)
    requires
        sections_of(course_id, kind, sections, labels, limit, of_course) is Ok,
    ensures
        ({
            let options =
                sections_of(course_id, kind, sections, labels, limit, of_course)->Ok_0;
            &&& publish(sections, labels, kind, limit, of_course, options)
            &&& told_apart(options)
        }),
    decreases sections.len(),
{
    if sections.len() > 0 {
        let rest = sections.drop_last();
        let at = sections.len() - 1;
        let known = sections_of(course_id, kind, rest, labels, limit, of_course)->Ok_0;
        let own = section_of(
            course_id,
            kind,
            at,
            sections.last(),
            labels,
            limit,
            of_course,
        )->Ok_0;
        lemma_sections_of(course_id, kind, rest, labels, limit, of_course);
        lemma_section_of(course_id, kind, at, sections.last(), labels, limit, of_course);
        lemma_one_more(rest, sections.last(), labels, kind, limit, of_course, known, own);
        assert(rest.push(sections.last()) =~= sections);
    }
}

/// The published sections with those of one more raw section.
proof fn lemma_one_more(
    rest: Seq<JsonView>,
    last: JsonView,
    labels: Option<Seq<JsonView>>,
    kind: Seq<char>,
    limit: DateLimitView,
    of_course: Option<Seq<char>>,
    known: Seq<SectionOptionView>,
    own: SectionOptionView,
)
    requires
        publish(rest, labels, kind, limit, of_course, known),
        told_apart(known),
        publishes(last, limit, of_course, own),
        is_label(own.label, labels, kind, rest.len() as int),
    ensures
        repeated(known, own) ==> publish(rest.push(last), labels, kind, limit, of_course, known),
        !repeated(known, own) ==> publish(
            rest.push(last),
            labels,
            kind,
            limit,
            of_course,
            known.push(own),
        ) && told_apart(known.push(own)),
{
    if repeated(known, own) {
        lemma_same_again(rest, last, labels, kind, limit, of_course, known, own);
        lemma_still_published(rest, last, limit, of_course, known, known);
        lemma_still_from(rest, last, labels, kind, limit, of_course, known);
    } else {
        assert forall|x: SectionOptionView| #[trigger] known.push(own).contains(x) <==> (
        known.contains(x) || x == own) by {
            lemma_pushed(known, own, x);
        }
        assert(known.push(own).contains(own));
        assert(published_in(known.push(own), last, limit, of_course));
        lemma_still_published(rest, last, limit, of_course, known, known.push(own));
        lemma_still_from(rest, last, labels, kind, limit, of_course, known);
        assert(rest.push(last)[rest.len() as int] == last);
        assert(comes_from(rest.push(last), labels, kind, limit, of_course, own));
        lemma_apart(known, own);
    }
}

proof fn lemma_apart(known: Seq<SectionOptionView>, own: SectionOptionView)
    requires
        told_apart(known),
        !repeated(known, own),
    ensures
        told_apart(known.push(own)),
{
    let options = known.push(own);
    assert forall|x: SectionOptionView, y: SectionOptionView|
        #![trigger options.contains(x), options.contains(y)]
        options.contains(x) && options.contains(y) && x.meetings == y.meetings && x.room == y.room
            && x.unsupported_reason == y.unsupported_reason implies x == y by {
        lemma_pushed(known, own, x);
        lemma_pushed(known, own, y);
        if known.contains(x) && !known.contains(y) {
            let i = choose|i: int| 0 <= i < known.len() && known[i] == x;
            assert(repeated(known, own));
        }
        if known.contains(y) && !known.contains(x) {
            let i = choose|i: int| 0 <= i < known.len() && known[i] == y;
            assert(repeated(known, own));
        }
    }
}

proof fn lemma_same_again(
    rest: Seq<JsonView>,
    last: JsonView,
    labels: Option<Seq<JsonView>>,
    kind: Seq<char>,
    limit: DateLimitView,
    of_course: Option<Seq<char>>,
    known: Seq<SectionOptionView>,
    own: SectionOptionView,
)
    requires
        publish(rest, labels, kind, limit, of_course, known),
        publishes(last, limit, of_course, own),
        repeated(known, own),
    ensures
        published_in(known, last, limit, of_course),
{
    let i = choose|i: int|
        0 <= i < known.len() && (#[trigger] known[i]).meetings == own.meetings && known[i].room
            == own.room && known[i].unsupported_reason == own.unsupported_reason;
    let x = known[i];
    assert(known.contains(x));
    assert(comes_from(rest, labels, kind, limit, of_course, x));
    let j = choose|j: int|
        0 <= j < rest.len() && publishes(#[trigger] rest[j], limit, of_course, x) && is_label(
            x.label,
            labels,
            kind,
            j,
        );
    lemma_alike(last, rest[j], limit, of_course, own, x);
}

proof fn lemma_still_published(
    rest: Seq<JsonView>,
    last: JsonView,
    limit: DateLimitView,
    of_course: Option<Seq<char>>,
    known: Seq<SectionOptionView>,
    options: Seq<SectionOptionView>,
)
    requires
        forall|k: int|
            0 <= k < rest.len() ==> published_in(known, #[trigger] rest[k], limit, of_course),
        forall|x: SectionOptionView| #[trigger] known.contains(x) ==> options.contains(x),
        published_in(options, last, limit, of_course),
    ensures
        forall|k: int|
            0 <= k < rest.push(last).len() ==> published_in(
                options,
                #[trigger] rest.push(last)[k],
                limit,
                of_course,
            ),
{
    let sections = rest.push(last);
    assert forall|k: int| 0 <= k < sections.len() implies published_in(
        options,
        #[trigger] sections[k],
        limit,
        of_course,
    ) by {
        if k < rest.len() {
            assert(published_in(known, rest[k], limit, of_course));
            let option = choose|option: SectionOptionView| #[trigger]
                known.contains(option) && publishes(rest[k], limit, of_course, option);
            assert(options.contains(option));
        }
    }
}

proof fn lemma_still_from(
    rest: Seq<JsonView>,
    last: JsonView,
    labels: Option<Seq<JsonView>>,
    kind: Seq<char>,
    limit: DateLimitView,
    of_course: Option<Seq<char>>,
    known: Seq<SectionOptionView>,
)
    requires
        forall|option: SectionOptionView| #[trigger]
            known.contains(option) ==> comes_from(rest, labels, kind, limit, of_course, option),
    ensures
        forall|option: SectionOptionView| #[trigger]
            known.contains(option) ==> comes_from(
                rest.push(last),
                labels,
                kind,
                limit,
                of_course,
                option,
            ),
{
    assert forall|option: SectionOptionView| #[trigger] known.contains(option) implies comes_from(
        rest.push(last),
        labels,
        kind,
        limit,
        of_course,
        option,
    ) by {
        let k = choose|k: int|
            0 <= k < rest.len() && publishes(#[trigger] rest[k], limit, of_course, option)
                && is_label(option.label, labels, kind, k);
        assert(rest.push(last)[k] == rest[k]);
    }
}

pub(crate) proof fn lemma_pushed<T>(s: Seq<T>, last: T, x: T)
    ensures
        s.push(last).contains(x) <==> s.contains(x) || x == last,
{
    let all = s.push(last);
    if s.contains(x) {
        let i = choose|i: int| 0 <= i < s.len() && s[i] == x;
        assert(all[i] == x);
    }
    assert(all[s.len() as int] == last);
    if all.contains(x) {
        let i = choose|i: int| 0 <= i < all.len() && all[i] == x;
        if i < s.len() {
            assert(s[i] == x);
        }
    }
}

/// The raw sections that a course lists for a kind.
pub open spec fn raw_sections(raw: JsonView, kind: Seq<char>) -> Seq<JsonView> {
    match member(raw, kind + "Sections"@) {
        Some(JsonView::Array(items)) => items,
        _ => Seq::empty(),
    }
}

/// The labels that a course lists for the sections of a kind.
pub open spec fn raw_labels(raw: JsonView, kind: Seq<char>) -> Option<Seq<JsonView>> {
    match member(raw, kind + "RawSections"@) {
        Some(JsonView::Array(items)) => Some(items),
        _ => None,
    }
}

/// A component of a course with the sections that are published for its kind, in the order of
/// their ids.
pub open spec fn is_component(
    raw: JsonView,
    course_id: Seq<char>,
    limit: DateLimitView,
    of_course: Option<Seq<char>>,
    requirement: RequirementView,
) -> bool {
    let kind = requirement.kind;
    &&& requirement.id == course_id + "/"@ + kind
    &&& publish(
        raw_sections(raw, kind),
        raw_labels(raw, kind),
        kind,
        limit,
        of_course,
        requirement.options,
    )
    &&& told_apart(requirement.options)
    &&& by_id(requirement.options)
    &&& requirement.has_unknown_times <==> requirement.options.len() == 0 || exists|i: int|
        0 <= i < requirement.options.len() && (#[trigger] requirement.options[i]).meetings.len()
            == 0
}

pub(crate) proof fn lemma_requirement_of(
    course_id: Seq<char>,
    kind: Seq<char>,
    raw: JsonView,
    limit: DateLimitView,
    of_course: Option<Seq<char>>,
)
    requires
        requirement_of(course_id, kind, raw, limit, of_course) is Ok,
    ensures
        ({
            let requirement = requirement_of(course_id, kind, raw, limit, of_course)->Ok_0;
            &&& requirement.kind == kind
            &&& is_component(raw, course_id, limit, of_course, requirement)
        }),
{
    let requirement = requirement_of(course_id, kind, raw, limit, of_course)->Ok_0;
    let sections = raw_sections(raw, kind);
    let labels = raw_labels(raw, kind);
    let options = sections_of(course_id, kind, sections, labels, limit, of_course)->Ok_0;
    lemma_sections_of(course_id, kind, sections, labels, limit, of_course);
    lemma_in_order(sections, labels, kind, limit, of_course, options);
}

/// Sections in the order of their ids.
pub open spec fn by_id(options: Seq<SectionOptionView>) -> bool {
    forall|i: int, j: int|
        #![trigger options[i], options[j]]
        0 <= i < j < options.len() ==> !text_before(options[j].id, options[i].id)
}

pub(crate) proof fn lemma_by_id(options: Seq<SectionOptionView>)
    ensures
        by_id(stable_sorted(options, id_le())),
        forall|x: SectionOptionView| #[trigger]
            stable_sorted(options, id_le()).contains(x) <==> options.contains(x),
{
    let sorted = stable_sorted(options, id_le());
    lemma_sorted_elements(options, id_le());
    lemma_id_order();
    law_stable_sorted(options, id_le());
    assert forall|i: int, j: int|
        #![trigger sorted[i], sorted[j]]
        0 <= i < j < sorted.len() implies !text_before(sorted[j].id, sorted[i].id) by {
        assert(id_le()(sorted[i], sorted[j]));
    }
}

proof fn lemma_in_order(
    sections: Seq<JsonView>,
    labels: Option<Seq<JsonView>>,
    kind: Seq<char>,
    limit: DateLimitView,
    of_course: Option<Seq<char>>,
    options: Seq<SectionOptionView>,
)
    requires
        publish(sections, labels, kind, limit, of_course, options),
        told_apart(options),
    ensures
        publish(sections, labels, kind, limit, of_course, stable_sorted(options, id_le())),
        told_apart(stable_sorted(options, id_le())),
        by_id(stable_sorted(options, id_le())),
{
    let sorted = stable_sorted(options, id_le());
    lemma_by_id(options);
    assert forall|k: int| 0 <= k < sections.len() implies published_in(
        sorted,
        #[trigger] sections[k],
        limit,
        of_course,
    ) by {
        assert(published_in(options, sections[k], limit, of_course));
        let option = choose|option: SectionOptionView| #[trigger]
            options.contains(option) && publishes(sections[k], limit, of_course, option);
        assert(sorted.contains(option));
    }
    assert forall|x: SectionOptionView, y: SectionOptionView|
        #![trigger sorted.contains(x), sorted.contains(y)]
        sorted.contains(x) && sorted.contains(y) && x.meetings == y.meetings && x.room == y.room
            && x.unsupported_reason == y.unsupported_reason implies x == y by {
        assert(options.contains(x) && options.contains(y));
    }
}

} // verus!
