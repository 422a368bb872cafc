//! What a dataset takes from a published catalog.
use vstd::prelude::*;
use crate::adapter::{
    component_notices, components_of, course_of, kinds_of, known_kind, limit_of, limit_reason,
    listed_kinds, requirement_of, title_of, with_known_kinds, DateLimitView,
};
use crate::json::{member, text_member, JsonView};
use crate::laws::catalog::{is_component, lemma_pushed, lemma_requirement_of, raw_sections};
use crate::model::{CourseView, RequirementView, TermCalendarView};
use crate::text::{lower_case, trimmed};

verus! {

/// A list names a kind, whatever the case and the blanks around it.
pub open spec fn names_kind(items: Seq<JsonView>, kind: Seq<char>) -> bool {
    kind.len() > 0 && exists|k: int|
        0 <= k < items.len() && #[trigger] items[k] is Text && lower_case(
            trimmed(items[k]->Text_0),
        ) == kind
}

proof fn lemma_listed_kinds(items: Seq<JsonView>, kind: Seq<char>)
    requires
        listed_kinds(items) is Ok,
    ensures
        (listed_kinds(items)->Ok_0).contains(kind) <==> names_kind(items, kind),
        (listed_kinds(items)->Ok_0).no_duplicates(),
    decreases items.len(),
{
    if items.len() > 0 {
        let rest = items.drop_last();
        let at = items.len() - 1;
        let known = listed_kinds(rest)->Ok_0;
        let own = lower_case(trimmed(items.last()->Text_0));
        lemma_listed_kinds(rest, kind);
        lemma_listed_kinds(rest, own);
        lemma_pushed(known, own, kind);
        assert(items[at] == items.last());
        assert(forall|k: int| 0 <= k < rest.len() ==> #[trigger] rest[k] == items[k]);
        if names_kind(rest, kind) {
            let k = choose|k: int|
                0 <= k < rest.len() && #[trigger] rest[k] is Text && lower_case(
                    trimmed(rest[k]->Text_0),
                ) == kind;
            assert(items[k] is Text);
        }
        if names_kind(items, kind) {
            let k = choose|k: int|
                0 <= k < items.len() && #[trigger] items[k] is Text && lower_case(
                    trimmed(items[k]->Text_0),
                ) == kind;
            if k < at {
                assert(rest[k] is Text);
            }
        }
    }
}

/// One of the four kinds that every course may have, with sections of it in a course.
pub open spec fn has_sections_of(raw: JsonView, kind: Seq<char>) -> bool {
    &&& kind == "lecture"@ || kind == "recitation"@ || kind == "lab"@ || kind == "design"@
    &&& raw_sections(raw, kind).len() > 0
}

/// A course has a component of a kind: it lists it, or it has sections of it.
pub open spec fn has_kind(raw: JsonView, kind: Seq<char>) -> bool {
    ||| has_sections_of(raw, kind)
    ||| member(raw, "sectionKinds"@) matches Some(JsonView::Array(items)) && names_kind(items, kind)
}

proof fn lemma_known_kinds(raw: JsonView, kinds: Seq<Seq<char>>, n: int, kind: Seq<char>)
    requires
        with_known_kinds(raw, kinds, n) is Ok,
        kinds.no_duplicates(),
        0 <= n <= 4,
    ensures
        (with_known_kinds(raw, kinds, n)->Ok_0).contains(kind) <==> kinds.contains(kind) || (exists|
            j: int,
        |
            0 <= j < n && kind == #[trigger] known_kind(j) && raw_sections(raw, kind).len() > 0),
        (with_known_kinds(raw, kinds, n)->Ok_0).no_duplicates(),
    decreases n,
{
    if n > 0 {
        let known = with_known_kinds(raw, kinds, n - 1)->Ok_0;
        let own = known_kind(n - 1);
        lemma_known_kinds(raw, kinds, n - 1, kind);
        lemma_known_kinds(raw, kinds, n - 1, own);
        lemma_pushed(known, own, kind);
        if exists|j: int|
            0 <= j < n && kind == #[trigger] known_kind(j) && raw_sections(raw, kind).len() > 0 {
            let j = choose|j: int|
                0 <= j < n && kind == #[trigger] known_kind(j) && raw_sections(raw, kind).len() > 0;
            if j == n - 1 {
                assert(kind == own);
            }
        }
    }
}

/// The components of a course are of the kinds that it lists and of those that it has sections of,
/// each once.
pub proof fn law_course_has_its_kinds(raw: JsonView, kind: Seq<char>)
    requires
        kinds_of(raw) is Ok,
    ensures
        (kinds_of(raw)->Ok_0).contains(kind) <==> has_kind(raw, kind),
        (kinds_of(raw)->Ok_0).no_duplicates(),
{
    let listed = match member(raw, "sectionKinds"@) {
        Some(JsonView::Array(items)) => listed_kinds(items)->Ok_0,
        _ => Seq::empty(),
    };
    match member(raw, "sectionKinds"@) {
        Some(JsonView::Array(items)) => {
            lemma_listed_kinds(items, kind);
        },
        _ => {},
    }
    lemma_known_kinds(raw, listed, 4, kind);
    assert(known_kind(0) == "lecture"@ && known_kind(1) == "recitation"@);
    assert(known_kind(2) == "lab"@ && known_kind(3) == "design"@);
    if has_sections_of(raw, kind) {
        let j: int = if kind == "lecture"@ {
            0
        } else if kind == "recitation"@ {
            1
        } else if kind == "lab"@ {
            2
        } else {
            3
        };
        assert(kind == known_kind(j));
    }
}

/// What a course says of one of its components.
pub open spec fn says_of(
    requirement: RequirementView,
    limited: bool,
    notice: Seq<char>,
) -> bool {
    ||| requirement.options.len() == 0 && notice == requirement.kind + ": no known meeting times"@
    ||| requirement.options.len() > 0 && limited && notice == requirement.kind
        + ": date-limited published options are preserved but omitted from weekly optimization"@
}

proof fn lemma_components(
    course_id: Seq<char>,
    kinds: Seq<Seq<char>>,
    raw: JsonView,
    limit: DateLimitView,
    of_course: Option<Seq<char>>,
)
    requires
        components_of(course_id, kinds, raw, limit, of_course) is Ok,
    ensures
        ({
            let (requirements, notices) =
                components_of(course_id, kinds, raw, limit, of_course)->Ok_0;
            &&& requirements.len() == kinds.len()
            &&& forall|i: int|
                0 <= i < requirements.len() ==> (#[trigger] requirements[i]).kind == kinds[i]
                    && is_component(raw, course_id, limit, of_course, requirements[i])
        }),
    decreases kinds.len(),
{
    if kinds.len() > 0 {
        let rest = kinds.drop_last();
        lemma_components(course_id, rest, raw, limit, of_course);
        lemma_requirement_of(course_id, kinds.last(), raw, limit, of_course);
        let known = (components_of(course_id, rest, raw, limit, of_course)->Ok_0).0;
        let requirements = (components_of(course_id, kinds, raw, limit, of_course)->Ok_0).0;
        assert forall|i: int| 0 <= i < requirements.len() implies (#[trigger] requirements[i]).kind
            == kinds[i] && is_component(raw, course_id, limit, of_course, requirements[i]) by {
            if i < rest.len() {
                assert(requirements[i] == known[i]);
                assert(known[i].kind == rest[i]);
            }
        }
    }
}

proof fn lemma_component_notices(
    course_id: Seq<char>,
    kinds: Seq<Seq<char>>,
    raw: JsonView,
    limit: DateLimitView,
    of_course: Option<Seq<char>>,
    notice: Seq<char>,
)
    requires
        components_of(course_id, kinds, raw, limit, of_course) is Ok,
    ensures
        ({
            let (requirements, notices) =
                components_of(course_id, kinds, raw, limit, of_course)->Ok_0;
            notices.contains(notice) <==> exists|i: int|
                0 <= i < requirements.len() && says_of(
                    #[trigger] requirements[i],
                    of_course is Some,
                    notice,
                )
        }),
    decreases kinds.len(),
{
    if kinds.len() > 0 {
        let rest = kinds.drop_last();
        lemma_component_notices(course_id, rest, raw, limit, of_course, notice);
        let (known, said) = components_of(course_id, rest, raw, limit, of_course)->Ok_0;
        let (requirements, notices) = components_of(course_id, kinds, raw, limit, of_course)->Ok_0;
        let own = requirement_of(course_id, kinds.last(), raw, limit, of_course)->Ok_0;
        let more = component_notices(own, of_course is Some);
        crate::determinism::lemma_sum_contains(said, more, notice);
        assert(requirements[known.len() as int] == own);
        assert(forall|i: int| 0 <= i < known.len() ==> #[trigger] requirements[i] == known[i]);
        assert(more.contains(notice) <==> says_of(own, of_course is Some, notice)) by {
            if more.len() > 0 {
                assert(more[0] == more[0]);
                if more.contains(notice) {
                    let k = choose|k: int| 0 <= k < more.len() && more[k] == notice;
                    assert(k == 0);
                }
            }
        }
        if said.contains(notice) {
            let i = choose|i: int|
                0 <= i < known.len() && says_of(#[trigger] known[i], of_course is Some, notice);
            assert(says_of(requirements[i], of_course is Some, notice));
        }
        if exists|i: int|
            0 <= i < requirements.len() && says_of(
                #[trigger] requirements[i],
                of_course is Some,
                notice,
            ) {
            let i = choose|i: int|
                0 <= i < requirements.len() && says_of(
                    #[trigger] requirements[i],
                    of_course is Some,
                    notice,
                );
            if i < known.len() {
                assert(says_of(known[i], of_course is Some, notice));
            }
        }
    }
}

/// A course has the number that it gives, else the key under which it is listed.
pub open spec fn is_number(raw: JsonView, key: Seq<char>, id: Seq<char>) -> bool {
    match member(raw, "number"@) {
        Some(JsonView::Text(number)) => id == number,
        _ => id == key,
    }
}

/// A course has its name as its title, else what it gives as its title, without the blanks around
/// it; a blank title is replaced by the number.
pub open spec fn is_title(raw: JsonView, id: Seq<char>, title: Seq<char>) -> bool {
    let given = match member(raw, "name"@) {
        Some(JsonView::Text(name)) => name,
        _ => match member(raw, "title"@) {
            Some(JsonView::Text(name)) => name,
            _ => Seq::empty(),
        },
    };
    if trimmed(given) == Seq::<char>::empty() {
        title == id
    } else {
        title == trimmed(given)
    }
}

/// A course is the one that a raw course describes, with the limits of its dates.
pub open spec fn describes(
    key: Seq<char>,
    raw: JsonView,
    limit: DateLimitView,
    course: CourseView,
) -> bool {
    &&& raw is Object
    &&& is_number(raw, key, course.id)
    &&& trimmed(course.id).len() > 0
    &&& is_title(raw, course.id, course.title)
    &&& forall|kind: Seq<char>| #[trigger]
        has_kind(raw, kind) <==> exists|i: int|
            0 <= i < course.requirements.len() && (#[trigger] course.requirements[i]).kind == kind
    &&& forall|i: int, j: int|
        #![trigger course.requirements[i], course.requirements[j]]
        0 <= i < j < course.requirements.len() ==> course.requirements[i].kind
            != course.requirements[j].kind
    &&& forall|i: int|
        0 <= i < course.requirements.len() ==> is_component(
            raw,
            course.id,
            limit,
            limit_reason(limit),
            #[trigger] course.requirements[i],
        )
    &&& forall|notice: Seq<char>| #[trigger]
        course.notices.contains(notice) <==> exists|i: int|
            0 <= i < course.requirements.len() && says_of(
                #[trigger] course.requirements[i],
                limit.unsupported,
                notice,
            )
}

/// A published course is the one that its raw course describes.
pub proof fn law_course_is_its_raw_course(
    key: Seq<char>,
    raw: JsonView,
    calendar: TermCalendarView,
    term: JsonView,
)
    requires
        course_of(key, raw, calendar, term) is Ok,
    ensures
        limit_of(raw, calendar, term) is Ok,
        describes(
            key,
            raw,
            limit_of(raw, calendar, term)->Ok_0,
            course_of(key, raw, calendar, term)->Ok_0,
        ),
{
    let course = course_of(key, raw, calendar, term)->Ok_0;
    let limit = limit_of(raw, calendar, term)->Ok_0;
    let kinds = kinds_of(raw)->Ok_0;
    let of_course = limit_reason(limit);
    let id = course.id;
    lemma_components(id, kinds, raw, limit, of_course);
    law_course_has_its_kinds(raw, Seq::empty());
    assert(course.requirements.len() == kinds.len());
    assert forall|kind: Seq<char>| #[trigger] has_kind(raw, kind) <==> exists|i: int|
        0 <= i < course.requirements.len() && (#[trigger] course.requirements[i]).kind == kind by {
        law_course_has_its_kinds(raw, kind);
        if kinds.contains(kind) {
            let i = choose|i: int| 0 <= i < kinds.len() && kinds[i] == kind;
            assert(course.requirements[i].kind == kind);
        }
        if exists|i: int|
            0 <= i < course.requirements.len() && (#[trigger] course.requirements[i]).kind == kind {
            let i = choose|i: int|
                0 <= i < course.requirements.len() && (#[trigger] course.requirements[i]).kind
                    == kind;
            assert(kinds[i] == kind);
        }
    }
    assert forall|i: int, j: int|
        #![trigger course.requirements[i], course.requirements[j]]
        0 <= i < j < course.requirements.len() implies course.requirements[i].kind
        != course.requirements[j].kind by {
        assert(kinds[i] != kinds[j]);
    }
    assert forall|notice: Seq<char>| #[trigger]
        course.notices.contains(notice) <==> exists|i: int|
            0 <= i < course.requirements.len() && says_of(
                #[trigger] course.requirements[i],
                limit.unsupported,
                notice,
            ) by {
        lemma_component_notices(id, kinds, raw, limit, of_course, notice);
    }
    lemma_title(raw, id);
}

pub(crate) proof fn lemma_title(raw: JsonView, id: Seq<char>)
    ensures
        is_title(raw, id, title_of(raw, id)),
{
    let given = match text_member(raw, "name"@) {
        Some(name) => name,
        None => match text_member(raw, "title"@) {
            Some(title) => title,
            None => Seq::empty(),
        },
    };
    if trimmed(given).len() == 0 {
        assert(trimmed(given) =~= Seq::<char>::empty());
    }
}

} // verus!
