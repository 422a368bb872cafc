//! Exact search for the best timetable.
use std::sync::atomic::{AtomicBool, Ordering};
use vstd::prelude::*;
use crate::error::{outcome, Error};
use crate::model::{
    any_date_limited, bounded_pe, bounded_pe_meetings, calendar_meetings_overlap, calendar_overlap,
    internal_calendar_overlap, internal_natural_overlap, is_pe_kind, meeting_before, meeting_fault,
    meeting_valid, meetings_have_date_limits, meetings_have_internal_calendar_overlap,
    meetings_have_internal_natural_overlap, natural_meetings_overlap, natural_overlap, pe_kind,
    times_overlap, Meeting, Requirement, RequirementView, Score, SectionOption, SectionOptionView,
    Solution, SolutionView, SolveStatus, TermCalendar, TermCalendarView, TimeChoice,
    TimeChoiceView,
};
use crate::order::{
    distinct_ascending, duplicate_all, lemma_filtered, lemma_insertion_point, set_insert, sort_by, stable_sorted,
    Duplicate, OrderedSet, Rank,
};
use crate::text::{text_before, trim, trimmed};
use crate::week_bits::{
    all_valid, any_covers, covers, lemma_shared_minute, score_bits, week_score, WeekBits,
};

verus! {

/// How many equally good timetables a solution lists.
pub const MAX_TIMETABLE_ALTERNATIVES: usize = 1000;

/// The order of meetings.
pub open spec fn meeting_le() -> spec_fn(Meeting, Meeting) -> bool {
    |a: Meeting, b: Meeting| !meeting_before(b, a)
}

/// The meetings in order.
pub open spec fn canonical(meetings: Seq<Meeting>) -> Seq<Meeting> {
    stable_sorted(meetings, meeting_le())
}

/// What is wrong with the first meeting that is not valid.
pub open spec fn first_meeting_fault(meetings: Seq<Meeting>) -> Option<Seq<char>>
    decreases meetings.len(),
{
    if meetings.len() == 0 {
        None
    } else {
        match first_meeting_fault(meetings.drop_last()) {
            Some(fault) => Some(fault),
            None => meeting_fault(meetings.last()),
        }
    }
}

/// Sorting neither adds nor loses elements.
pub proof fn lemma_sorted_elements<T>(s: Seq<T>, le: spec_fn(T, T) -> bool)
    ensures
        stable_sorted(s, le).len() == s.len(),
        forall|x: T| #[trigger] stable_sorted(s, le).contains(x) <==> s.contains(x),
    decreases s.len(),
{
    if s.len() > 0 {
        let rest = stable_sorted(s.drop_first(), le);
        lemma_sorted_elements(s.drop_first(), le);
        lemma_insertion_point(rest, s[0], le);
        let n = crate::order::insertion_point(rest, s[0], le);
        let out = rest.insert(n, s[0]);
        assert forall|x: T| #[trigger] out.contains(x) <==> s.contains(x) by {
            assert(rest.contains(x) <==> s.drop_first().contains(x));
            assert(out[n] == s[0]);
            if s.contains(x) && x != s[0] {
                let i = choose|i: int| 0 <= i < s.len() && s[i] == x;
                assert(s.drop_first()[i - 1] == x);
                let j = choose|j: int| 0 <= j < rest.len() && rest[j] == x;
                if j < n {
                    assert(out[j] == x);
                } else {
                    assert(out[j + 1] == x);
                }
            }
            if out.contains(x) && x != s[0] {
                let i = choose|i: int| 0 <= i < out.len() && out[i] == x;
                if i < n {
                    assert(rest[i] == x);
                } else {
                    assert(rest[i - 1] == x);
                }
                let j = choose|j: int| 0 <= j < s.drop_first().len() && s.drop_first()[j] == x;
                assert(s[j + 1] == x);
            }
        }
    }
}

/// The values of meetings are the meetings themselves.
pub proof fn lemma_meetings_view(meetings: Vec<Meeting>)
    ensures
        meetings.deep_view() == meetings@,
{
    assert(meetings.deep_view() =~= meetings@);
}

fn meeting_may_precede(a: &Meeting, b: &Meeting) -> (r: bool)
    ensures
        r == !meeting_before(*b, *a),
{
    !b.is_before(a)
}

fn canonical_meetings(meetings: &Vec<Meeting>) -> (r: Result<Vec<Meeting>, Error>)
    ensures
        match first_meeting_fault(meetings@) {
            Some(fault) => r is Err && (r->Err_0).deep_view() == fault,
            None => r is Ok && (r->Ok_0)@ == canonical(meetings@) && all_valid((r->Ok_0)@),
        },
{
    let mut index: usize = 0;
    while index < meetings.len()
        invariant
            index <= meetings@.len(),
            first_meeting_fault(meetings@.take(index as int)) is None,
            forall|i: int| 0 <= i < index ==> meeting_valid(#[trigger] meetings@[i]),
        decreases meetings@.len() - index,
    {
        assert(meetings@.take(index + 1).drop_last() =~= meetings@.take(index as int));
        match meetings[index].validate() {
            Ok(_) => {},
            Err(error) => {
                proof {
                    lemma_first_fault_prefix(meetings@, index + 1);
                }
                return Err(error);
            },
        }
        index += 1;
    }
    assert(meetings@.take(index as int) =~= meetings@);
    let sorted = sorted_meetings(meetings);
    proof {
        lemma_sorted_elements(meetings@, meeting_le());
        assert forall|i: int| 0 <= i < sorted@.len() implies meeting_valid(#[trigger] sorted@[i]) by {
            assert(sorted@.contains(sorted@[i]));
            assert(stable_sorted(meetings@, meeting_le()).contains(sorted@[i]));
        }
    }
    Ok(sorted)
}

/// The meetings in order.
pub fn sorted_meetings(meetings: &Vec<Meeting>) -> (r: Vec<Meeting>)
    ensures
        r@ == canonical(meetings@),
{
    let copy = duplicate_all(meetings);
    let sorted = sort_by(copy, meeting_may_precede, Ghost(meeting_le()));
    proof {
        lemma_meetings_view(copy);
        lemma_meetings_view(sorted);
        lemma_meetings_view(*meetings);
    }
    sorted
}

pub proof fn lemma_first_fault_prefix(meetings: Seq<Meeting>, n: int)
    requires
        0 <= n <= meetings.len(),
        first_meeting_fault(meetings.take(n)) is Some,
    ensures
        first_meeting_fault(meetings) == first_meeting_fault(meetings.take(n)),
    decreases meetings.len() - n,
{
    if n == meetings.len() {
        assert(meetings.take(n) =~= meetings);
    } else {
        assert(meetings.take(n + 1).drop_last() =~= meetings.take(n));
        lemma_first_fault_prefix(meetings, n + 1);
    }
}

/// Whether the search can place a section with these meetings.
pub open spec fn searchable(kind: Seq<char>, meetings: Seq<Meeting>, unsupported: bool) -> bool {
    &&& meetings.len() > 0
    &&& !unsupported
    &&& if pe_kind(kind) {
        bounded_pe(kind, meetings)
    } else {
        !any_date_limited(meetings)
    }
}

fn option_is_searchable(kind: &str, meetings: &[Meeting], unsupported: bool) -> (r: bool)
    ensures
        r == searchable(kind@, meetings@, unsupported),
{
    meetings.len() > 0 && !unsupported && if is_pe_kind(kind) {
        bounded_pe_meetings(kind, meetings)
    } else {
        !meetings_have_date_limits(meetings)
    }
}

/// Whether the search can place a section of a component.
pub open spec fn option_searchable(kind: Seq<char>, option: SectionOptionView) -> bool {
    searchable(kind, canonical(option.meetings), option.unsupported_reason is Some)
}

/// Two meetings of one section coincide.
pub open spec fn self_overlapping(
    calendar: Option<TermCalendarView>,
    meetings: Seq<Meeting>,
) -> bool {
    match calendar {
        Some(calendar) => internal_calendar_overlap(calendar, meetings),
        None => internal_natural_overlap(meetings),
    }
}

fn ensure_no_internal_overlap(meetings: &[Meeting], calendar: Option<&TermCalendar>) -> (r: Result<
    (),
    Error,
>)
    ensures
        r is Err <==> self_overlapping(calendar.deep_view(), meetings@),
        r is Err ==> (r->Err_0).deep_view() == "meetings within one option overlap"@,
{
    let overlap = match calendar {
        Some(calendar) => meetings_have_internal_calendar_overlap(calendar, meetings),
        None => meetings_have_internal_natural_overlap(meetings),
    };
    if overlap {
        Err(Error::new("meetings within one option overlap"))
    } else {
        Ok(())
    }
}

/// What is wrong with a section, given the ids of those before it.
pub open spec fn option_fault(
    seen: Seq<Seq<char>>,
    kind: Seq<char>,
    option: SectionOptionView,
    calendar: Option<TermCalendarView>,
) -> Option<Seq<char>> {
    if trimmed(option.id).len() == 0 {
        Some("option id must not be empty"@)
    } else if seen.contains(option.id) {
        Some("duplicate option id "@ + option.id)
    } else if first_meeting_fault(option.meetings) is Some {
        first_meeting_fault(option.meetings)
    } else if option_searchable(kind, option) && self_overlapping(
        calendar,
        canonical(option.meetings),
    ) {
        Some("meetings within one option overlap"@)
    } else {
        None
    }
}

pub open spec fn option_ids(options: Seq<SectionOptionView>) -> Seq<Seq<char>> {
    Seq::new(options.len(), |i: int| options[i].id)
}

/// What is wrong with the first faulty section.
pub open spec fn options_fault(
    seen: Seq<Seq<char>>,
    kind: Seq<char>,
    options: Seq<SectionOptionView>,
    calendar: Option<TermCalendarView>,
) -> Option<Seq<char>>
    decreases options.len(),
{
    if options.len() == 0 {
        None
    } else {
        match options_fault(seen, kind, options.drop_last(), calendar) {
            Some(fault) => Some(fault),
            None => option_fault(
                seen + option_ids(options.drop_last()),
                kind,
                options.last(),
                calendar,
            ),
        }
    }
}

/// The ids of all sections, in order.
pub open spec fn all_option_ids(requirements: Seq<RequirementView>) -> Seq<Seq<char>>
    decreases requirements.len(),
{
    if requirements.len() == 0 {
        Seq::empty()
    } else {
        all_option_ids(requirements.drop_last()) + option_ids(requirements.last().options)
    }
}

pub open spec fn requirement_ids(requirements: Seq<RequirementView>) -> Seq<Seq<char>> {
    Seq::new(requirements.len(), |i: int| requirements[i].id)
}

/// What is wrong with a requirement, given those before it.
pub open spec fn requirement_fault(
    earlier: Seq<RequirementView>,
    requirement: RequirementView,
    calendar: Option<TermCalendarView>,
) -> Option<Seq<char>> {
    if trimmed(requirement.id).len() == 0 {
        Some("requirement id must not be empty"@)
    } else if requirement_ids(earlier).contains(requirement.id) {
        Some("duplicate requirement id "@ + requirement.id)
    } else {
        options_fault(all_option_ids(earlier), requirement.kind, requirement.options, calendar)
    }
}

/// What is wrong with the first faulty requirement.
pub open spec fn problem_fault(
    requirements: Seq<RequirementView>,
    calendar: Option<TermCalendarView>,
) -> Option<Seq<char>>
    decreases requirements.len(),
{
    if requirements.len() == 0 {
        None
    } else {
        match problem_fault(requirements.drop_last(), calendar) {
            Some(fault) => Some(fault),
            None => requirement_fault(requirements.drop_last(), requirements.last(), calendar),
        }
    }
}

/// What the search has to say about one section.
pub open spec fn option_notices(
    requirement_id: Seq<char>,
    kind: Seq<char>,
    option: SectionOptionView,
) -> Seq<Seq<char>> {
    let meetings = canonical(option.meetings);
    let start = requirement_id + ": option "@ + option.id;
    let unknown = if meetings.len() == 0 {
        seq![start + " has unknown/TBA meeting times"@]
    } else {
        Seq::empty()
    };
    let unsupported = match option.unsupported_reason {
        Some(reason) => seq![start + " is unsupported: "@ + reason],
        None => Seq::empty(),
    };
    let partial = if any_date_limited(meetings) && !bounded_pe(kind, meetings) && !pe_kind(kind) {
        seq![
            start
                + " has date-limited meetings; partial-term optimization is not supported"@,
        ]
    } else {
        Seq::empty()
    };
    let unbounded = if pe_kind(kind) && meetings.len() > 0 && option.unsupported_reason is None
        && !bounded_pe(kind, meetings) {
        seq![start + " is PE and requires complete valid start/end date bounds"@]
    } else {
        Seq::empty()
    };
    unknown + unsupported + partial + unbounded
}

pub open spec fn options_notices(
    requirement_id: Seq<char>,
    kind: Seq<char>,
    options: Seq<SectionOptionView>,
) -> Seq<Seq<char>>
    decreases options.len(),
{
    if options.len() == 0 {
        Seq::empty()
    } else {
        options_notices(requirement_id, kind, options.drop_last()) + option_notices(
            requirement_id,
            kind,
            options.last(),
        )
    }
}

/// What the search has to say about one requirement and its sections.
pub open spec fn requirement_notices(requirement: RequirementView) -> Seq<Seq<char>> {
    let unknown = if requirement.has_unknown_times {
        seq![
            requirement.id
                + ": some options have unknown/TBA meeting times and are not optimized"@,
        ]
    } else {
        Seq::empty()
    };
    unknown + options_notices(requirement.id, requirement.kind, requirement.options)
}

pub open spec fn opening_notices(requirements: Seq<RequirementView>) -> Seq<Seq<char>>
    decreases requirements.len(),
{
    if requirements.len() == 0 {
        Seq::empty()
    } else {
        opening_notices(requirements.drop_last()) + requirement_notices(requirements.last())
    }
}

/// The sections of a requirement that the search can place.
pub open spec fn searchable_options(requirement: RequirementView) -> Seq<SectionOptionView> {
    requirement.options.filter(|option: SectionOptionView|
        option_searchable(requirement.kind, option))
}

/// The requirements of which no section can be placed.
pub open spec fn closing_notices(requirements: Seq<RequirementView>) -> Seq<Seq<char>>
    decreases requirements.len(),
{
    if requirements.len() == 0 {
        Seq::empty()
    } else {
        let last = requirements.last();
        closing_notices(requirements.drop_last()) + (if searchable_options(last).len() == 0 {
            seq![last.id + ": no known supported meeting options; left unresolved"@]
        } else {
            Seq::empty()
        })
    }
}

/// Everything that the search leaves out or cannot know, in order.
pub open spec fn search_notices(requirements: Seq<RequirementView>) -> Seq<Seq<char>> {
    distinct_ascending::<String>(opening_notices(requirements) + closing_notices(requirements))
}

/// A section that can be placed, with the requirement it belongs to.
#[verifier::ext_equal]
pub struct Located {
    pub requirement_id: Seq<char>,
    pub option: SectionOptionView,
}

pub open spec fn located_in(requirement: RequirementView) -> Seq<Located> {
    searchable_options(requirement).map_values(
        |option: SectionOptionView| Located { requirement_id: requirement.id, option },
    )
}

/// All sections that can be placed.
pub open spec fn located(requirements: Seq<RequirementView>) -> Seq<Located>
    decreases requirements.len(),
{
    if requirements.len() == 0 {
        Seq::empty()
    } else {
        located(requirements.drop_last()) + located_in(requirements.last())
    }
}

/// A section of another requirement has this id.
pub open spec fn placed_elsewhere(
    all: Seq<Located>,
    requirement_id: Seq<char>,
    id: Seq<char>,
) -> bool {
    exists|i: int|
        0 <= i < all.len() && (#[trigger] all[i]).requirement_id != requirement_id
            && all[i].option.id == id
}

/// The sections of other requirements that a section excludes.
pub open spec fn outbound(
    all: Seq<Located>,
    requirement_id: Seq<char>,
    option: SectionOptionView,
) -> Seq<Seq<char>> {
    option.incompatible_with.filter(|id: Seq<char>| placed_elsewhere(all, requirement_id, id))
}

/// The sections of other requirements that exclude a section.
pub open spec fn inbound(
    all: Seq<Located>,
    requirement_id: Seq<char>,
    option: SectionOptionView,
) -> Seq<Seq<char>>
    decreases all.len(),
{
    if all.len() == 0 {
        Seq::empty()
    } else {
        let last = all.last();
        let rest = inbound(all.drop_last(), requirement_id, option);
        if last.requirement_id != requirement_id && last.option.incompatible_with.contains(
            option.id,
        ) {
            rest.push(last.option.id)
        } else {
            rest
        }
    }
}

/// What sections have in common that the search cannot tell apart.
#[verifier::ext_equal]
pub struct GroupKey {
    pub meetings: Seq<Meeting>,
    pub outbound: Seq<Seq<char>>,
    pub inbound: Seq<Seq<char>>,
}

pub open spec fn group_key(
    all: Seq<Located>,
    requirement_id: Seq<char>,
    option: SectionOptionView,
) -> GroupKey {
    GroupKey {
        meetings: canonical(option.meetings),
        outbound: outbound(all, requirement_id, option),
        inbound: inbound(all, requirement_id, option),
    }
}

/// The elements of `s` in classes of equal keys; classes in the order of their first elements.
pub open spec fn classes<T, K>(s: Seq<T>, key: spec_fn(T) -> K) -> Seq<Seq<T>>
    decreases s.len(),
{
    if s.len() == 0 {
        Seq::empty()
    } else {
        proof {
            lemma_class_shrinks(s, key);
        }
        seq![s.filter(|x: T| key(x) == key(s[0]))] + classes(
            s.filter(|x: T| key(x) != key(s[0])),
            key,
        )
    }
}

pub proof fn lemma_class_shrinks<T, K>(s: Seq<T>, key: spec_fn(T) -> K)
    requires
        s.len() > 0,
    ensures
        s.filter(|x: T| key(x) != key(s[0])).len() < s.len(),
{
    let pred = |x: T| key(x) != key(s[0]);
    let rest = s.drop_first();
    assert(s =~= seq![s[0]] + rest);
    Seq::filter_distributes_over_add(seq![s[0]], rest, pred);
    rest.lemma_filter_len(pred);
    reveal(Seq::filter);
    seq![s[0]].drop_last().lemma_filter_len(pred);
    assert(seq![s[0]].filter(pred).len() == 0);
}

/// The order of sections by id.
pub open spec fn id_le() -> spec_fn(SectionOptionView, SectionOptionView) -> bool {
    |a: SectionOptionView, b: SectionOptionView| !text_before(b.id, a.id)
}

/// The choice that stands for sections that the search cannot tell apart.
pub open spec fn choice_of(
    requirement_id: Seq<char>,
    members: Seq<SectionOptionView>,
) -> TimeChoiceView {
    TimeChoiceView {
        id: members[0].id,
        requirement_id,
        meetings: canonical(members[0].meetings),
        members,
    }
}

/// The choices for one requirement.
#[verifier::ext_equal]
pub struct GroupView {
    pub requirement_id: Seq<char>,
    pub kind: Seq<char>,
    pub choices: Seq<TimeChoiceView>,
}

pub open spec fn group_classes(
    all: Seq<Located>,
    requirement: RequirementView,
) -> Seq<Seq<SectionOptionView>> {
    classes(
        stable_sorted(searchable_options(requirement), id_le()),
        |option: SectionOptionView| group_key(all, requirement.id, option),
    )
}

pub open spec fn group_of(all: Seq<Located>, requirement: RequirementView) -> GroupView {
    GroupView {
        requirement_id: requirement.id,
        kind: requirement.kind,
        choices: group_classes(all, requirement).map_values(
            |members: Seq<SectionOptionView>| choice_of(requirement.id, members),
        ),
    }
}

/// The requirements that have choices, in the order given.
pub open spec fn groups_of(all: Seq<Located>, requirements: Seq<RequirementView>) -> Seq<GroupView>
    decreases requirements.len(),
{
    if requirements.len() == 0 {
        Seq::empty()
    } else {
        groups_of(all, requirements.drop_last()) + (if searchable_options(
            requirements.last(),
        ).len() == 0 {
            Seq::empty()
        } else {
            seq![group_of(all, requirements.last())]
        })
    }
}

/// Fewer choices first, then by id.
pub open spec fn group_le() -> spec_fn(GroupView, GroupView) -> bool {
    |a: GroupView, b: GroupView|
        a.choices.len() < b.choices.len() || (a.choices.len() == b.choices.len() && !text_before(
            b.requirement_id,
            a.requirement_id,
        ))
}

/// The requirements that the search decides, in the order in which it does.
pub open spec fn search_groups(requirements: Seq<RequirementView>) -> Seq<GroupView> {
    stable_sorted(groups_of(located(requirements), requirements), group_le())
}

/// A section that can be placed, with its meetings in order.
struct Entry {
    requirement_id: String,
    option: SectionOption,
    meetings: Vec<Meeting>,
}

impl DeepView for Entry {
    type V = Located;

    closed spec fn deep_view(&self) -> Located {
        Located { requirement_id: self.requirement_id@, option: self.option.deep_view() }
    }
}

impl Entry {
    spec fn wf(&self) -> bool {
        self.meetings@ == canonical(self.option.deep_view().meetings) && all_valid(self.meetings@)
    }

    fn copy(&self) -> (r: Self)
        requires
            self.wf(),
        ensures
            r.wf(),
            r.deep_view() == self.deep_view(),
    {
        let r = Entry {
            requirement_id: self.requirement_id.clone(),
            option: self.option.duplicate(),
            meetings: duplicate_all(&self.meetings),
        };
        proof {
            lemma_meetings_view(r.meetings);
            lemma_meetings_view(self.meetings);
        }
        r
    }
}

spec fn entries_wf(entries: Seq<Entry>) -> bool {
    forall|i: int| 0 <= i < entries.len() ==> (#[trigger] entries[i]).wf()
}

/// The text `<requirement>: option <option><rest>`.
fn option_notice(requirement_id: &str, option_id: &str, rest: &str) -> (r: String)
    ensures
        r@ == requirement_id@ + ": option "@ + option_id@ + rest@,
{
    let mut notice = requirement_id.to_owned();
    notice.append(": option ");
    notice.append(option_id);
    notice.append(rest);
    notice
}

fn push_option_notices(
    requirement_id: &str,
    kind: &str,
    option: &SectionOption,
    meetings: &Vec<Meeting>,
    notices: &mut Vec<String>,
)
    requires
        meetings@ == canonical(option.deep_view().meetings),
    ensures
        final(notices).deep_view() == old(notices).deep_view() + option_notices(
            requirement_id@,
            kind@,
            option.deep_view(),
        ),
{
    let ghost before = notices.deep_view();
    let ghost start = requirement_id@ + ": option "@ + option.id@;
    let ghost mut said = Seq::<Seq<char>>::empty();
    if meetings.len() == 0 {
        notices.push(
            option_notice(requirement_id, option.id.as_str(), " has unknown/TBA meeting times"),
        );
        proof {
            said = said.push(start + " has unknown/TBA meeting times"@);
        }
    }
    assert(notices.deep_view() =~= before + said);
    match &option.unsupported_reason {
        Some(reason) => {
            let mut notice = option_notice(
                requirement_id,
                option.id.as_str(),
                " is unsupported: ",
            );
            notice.append(reason.as_str());
            notices.push(notice);
            proof {
                said = said.push(start + " is unsupported: "@ + reason@);
            }
        },
        None => {},
    }
    assert(notices.deep_view() =~= before + said);
    let date_limited = meetings_have_date_limits(meetings.as_slice());
    let bounded = bounded_pe_meetings(kind, meetings.as_slice());
    let pe = is_pe_kind(kind);
    if date_limited && !bounded && !pe {
        notices.push(
            option_notice(
                requirement_id,
                option.id.as_str(),
                " has date-limited meetings; partial-term optimization is not supported",
            ),
        );
        proof {
            said = said.push(
                start + " has date-limited meetings; partial-term optimization is not supported"@,
            );
        }
    }
    assert(notices.deep_view() =~= before + said);
    if pe && meetings.len() > 0 && option.unsupported_reason.is_none() && !bounded {
        notices.push(
            option_notice(
                requirement_id,
                option.id.as_str(),
                " is PE and requires complete valid start/end date bounds",
            ),
        );
        proof {
            said = said.push(start + " is PE and requires complete valid start/end date bounds"@);
        }
    }
    assert(notices.deep_view() =~= before + said);
    assert(said =~= option_notices(requirement_id@, kind@, option.deep_view()));
}

/// The elements of a set are the elements seen.
spec fn same_elements(set: Seq<Seq<char>>, seen: Seq<Seq<char>>) -> bool {
    forall|x: Seq<char>| #[trigger] set.contains(x) <==> seen.contains(x)
}

/// Inserting into a set and appending to a list keep their elements the same.
proof fn lemma_same_elements(set: Seq<Seq<char>>, seen: Seq<Seq<char>>, x: Seq<char>)
    requires
        crate::order::ascending::<String>(set),
        same_elements(set, seen),
    ensures
        same_elements(set_insert::<String>(set, x), seen.push(x)),
{
    crate::order::lemma_set_insert::<String>(set, x);
    assert forall|y: Seq<char>| #[trigger]
        set_insert::<String>(set, x).contains(y) <==> seen.push(x).contains(y) by {
        assert(set.contains(y) <==> seen.contains(y));
        if seen.contains(y) {
            let i = choose|i: int| 0 <= i < seen.len() && seen[i] == y;
            assert(seen.push(x)[i] == y);
        }
        assert(seen.push(x)[seen.len() as int] == x);
        if seen.push(x).contains(y) && y != x {
            let i = choose|i: int| 0 <= i < seen.push(x).len() && seen.push(x)[i] == y;
            assert(seen[i] == y);
        }
    }
}

proof fn lemma_options_fault_prefix(
    seen: Seq<Seq<char>>,
    kind: Seq<char>,
    options: Seq<SectionOptionView>,
    calendar: Option<TermCalendarView>,
    n: int,
)
    requires
        0 <= n <= options.len(),
        options_fault(seen, kind, options.take(n), calendar) is Some,
    ensures
        options_fault(seen, kind, options, calendar) == options_fault(
            seen,
            kind,
            options.take(n),
            calendar,
        ),
    decreases options.len() - n,
{
    if n == options.len() {
        assert(options.take(n) =~= options);
    } else {
        assert(options.take(n + 1).drop_last() =~= options.take(n));
        lemma_options_fault_prefix(seen, kind, options, calendar, n + 1);
    }
}

/// Checks the sections of a requirement and picks those that can be placed.
fn searchable_entries(
    requirement: &Requirement,
    calendar: Option<&TermCalendar>,
    seen_options: &mut OrderedSet<String>,
    notices: &mut Vec<String>,
    Ghost(seen): Ghost<Seq<Seq<char>>>,
) -> (r: Result<Vec<Entry>, Error>)
    requires
        same_elements(old(seen_options).deep_view(), seen),
    ensures
        match options_fault(
            seen,
            requirement.kind@,
            requirement.options.deep_view(),
            calendar.deep_view(),
        ) {
            Some(fault) => r is Err && (r->Err_0).deep_view() == fault,
            None => {
                &&& r is Ok
                &&& (r->Ok_0).deep_view() == located_in(requirement.deep_view())
                &&& entries_wf((r->Ok_0)@)
                &&& same_elements(
                    final(seen_options).deep_view(),
                    seen + option_ids(requirement.options.deep_view()),
                )
                &&& final(notices).deep_view() == old(notices).deep_view() + options_notices(
                    requirement.id@,
                    requirement.kind@,
                    requirement.options.deep_view(),
                )
            },
        },
{
    let ghost options = requirement.options.deep_view();
    let ghost kind = requirement.kind@;
    let ghost cal = calendar.deep_view();
    let ghost view = requirement.deep_view();
    let ghost pick = |option: SectionOptionView| option_searchable(view.kind, option);
    let ghost wrap = |option: SectionOptionView|
        Located { requirement_id: view.id, option };
    let ghost before = notices.deep_view();
    let mut entries: Vec<Entry> = Vec::new();
    let mut index: usize = 0;
    proof {
        reveal(Seq::filter);
        assert(options.take(0) =~= Seq::empty());
        assert(option_ids(options.take(0)) =~= Seq::empty());
        assert(seen + option_ids(options.take(0)) =~= seen);
        assert(entries.deep_view() =~= options.take(0).filter(pick).map_values(wrap));
        assert(before =~= before + options_notices(view.id, kind, options.take(0)));
    }
    while index < requirement.options.len()
        invariant
            index <= requirement.options@.len(),
            options == requirement.options.deep_view(),
            kind == requirement.kind@,
            cal == calendar.deep_view(),
            view == requirement.deep_view(),
            pick == (|option: SectionOptionView| option_searchable(view.kind, option)),
            wrap == (|option: SectionOptionView| Located { requirement_id: view.id, option }),
            options_fault(seen, kind, options.take(index as int), cal) is None,
            same_elements(
                seen_options.deep_view(),
                seen + option_ids(options.take(index as int)),
            ),
            entries.deep_view() == options.take(index as int).filter(pick).map_values(wrap),
            entries_wf(entries@),
            notices.deep_view() == before + options_notices(
                view.id,
                kind,
                options.take(index as int),
            ),
        decreases requirement.options@.len() - index,
    {
        let option = &requirement.options[index];
        let ghost done = options.take(index as int);
        let ghost next = options.take(index + 1);
        let ghost known = seen + option_ids(done);
        proof {
            assert(next.drop_last() =~= done);
            assert(next.last() == option.deep_view());
            if option_fault(known, kind, option.deep_view(), cal) is Some {
                lemma_options_fault_prefix(seen, kind, options, cal, index + 1);
            }
            assert(known.push(option.id@) =~= seen + option_ids(next));
            lemma_meetings_view(option.meetings);
        }
        if trim(option.id.as_str()).as_str().is_empty() {
            return Err(Error::new("option id must not be empty"));
        }
        let ghost so_far = seen_options.deep_view();
        let fresh = seen_options.insert(option.id.clone());
        proof {
            lemma_same_elements(so_far, known, option.id@);
        }
        if !fresh {
            let mut message = "duplicate option id ".to_owned();
            message.append(option.id.as_str());
            return Err(Error { message });
        }
        let meetings = match canonical_meetings(&option.meetings) {
            Ok(meetings) => meetings,
            Err(error) => {
                return Err(error);
            },
        };
        push_option_notices(
            requirement.id.as_str(),
            requirement.kind.as_str(),
            option,
            &meetings,
            notices,
        );
        let placeable = option_is_searchable(
            requirement.kind.as_str(),
            meetings.as_slice(),
            option.unsupported_reason.is_some(),
        );
        assert(placeable == pick(option.deep_view()));
        proof {
            reveal(Seq::filter);
            assert(next.filter(pick) == if placeable {
                done.filter(pick).push(option.deep_view())
            } else {
                done.filter(pick)
            });
            assert(notices.deep_view() =~= before + options_notices(view.id, kind, next));
        }
        if placeable {
            match ensure_no_internal_overlap(meetings.as_slice(), calendar) {
                Ok(_) => {},
                Err(error) => {
                    return Err(error);
                },
            }
            let ghost so_far = entries.deep_view();
            entries.push(
                Entry {
                    requirement_id: requirement.id.clone(),
                    option: option.duplicate(),
                    meetings,
                },
            );
            proof {
                assert(entries.deep_view() =~= so_far.push(wrap(option.deep_view())));
                assert(done.filter(pick).push(option.deep_view()).map_values(wrap) =~= done.filter(
                    pick,
                ).map_values(wrap).push(wrap(option.deep_view())));
            }
        }
        index += 1;
    }
    assert(options.take(index as int) =~= options);
    assert(located_in(view) =~= options.filter(pick).map_values(wrap));
    Ok(entries)
}

/// An entry with the sections of other requirements that it excludes or that exclude it.
struct Keyed {
    entry: Entry,
    outbound: Vec<String>,
    inbound: Vec<String>,
}

impl DeepView for Keyed {
    type V = SectionOptionView;

    closed spec fn deep_view(&self) -> SectionOptionView {
        self.entry.option.deep_view()
    }
}

impl Keyed {
    spec fn wf(&self, all: Seq<Located>, requirement_id: Seq<char>) -> bool {
        &&& self.entry.wf()
        &&& self.outbound.deep_view() == outbound(all, requirement_id, self.deep_view())
        &&& self.inbound.deep_view() == inbound(all, requirement_id, self.deep_view())
    }
}

spec fn keyed_wf(keyed: Seq<Keyed>, all: Seq<Located>, requirement_id: Seq<char>) -> bool {
    forall|i: int| 0 <= i < keyed.len() ==> (#[trigger] keyed[i]).wf(all, requirement_id)
}

fn outbound_ids(all: &Vec<Entry>, requirement_id: &String, option: &SectionOption) -> (r: Vec<
    String,
>)
    ensures
        r.deep_view() == outbound(all.deep_view(), requirement_id@, option.deep_view()),
{
    let excluded = option.incompatible_with.items();
    let ghost ids = excluded.deep_view();
    let ghost places = all.deep_view();
    let ghost pred = |id: Seq<char>| placed_elsewhere(places, requirement_id@, id);
    let mut out: Vec<String> = Vec::new();
    let mut index: usize = 0;
    proof {
        reveal(Seq::filter);
        assert(ids.take(0) =~= Seq::empty());
        assert(out.deep_view() =~= ids.take(0).filter(pred));
    }
    while index < excluded.len()
        invariant
            index <= excluded@.len(),
            ids == excluded.deep_view(),
            places == all.deep_view(),
            pred == (|id: Seq<char>| placed_elsewhere(places, requirement_id@, id)),
            out.deep_view() == ids.take(index as int).filter(pred),
        decreases excluded@.len() - index,
    {
        let id = &excluded[index];
        let mut elsewhere = false;
        let mut at: usize = 0;
        while at < all.len() && !elsewhere
            invariant
                at <= all@.len(),
                places == all.deep_view(),
                elsewhere ==> placed_elsewhere(places, requirement_id@, id@),
                !elsewhere ==> forall|i: int|
                    0 <= i < at ==> !((#[trigger] places[i]).requirement_id != requirement_id@
                        && places[i].option.id == id@),
            decreases all@.len() - at + (if elsewhere {
                    0int
                } else {
                    1int
                }),
        {
            assert(places[at as int] == all@[at as int].deep_view());
            if all[at].option.id == *id && all[at].requirement_id != *requirement_id {
                elsewhere = true;
            } else {
                at += 1;
            }
        }
        let ghost so_far = out.deep_view();
        proof {
            reveal(Seq::filter);
            assert(ids.take(index + 1).drop_last() =~= ids.take(index as int));
            assert(ids.take(index + 1).last() == id@);
            assert(pred(id@) == elsewhere);
        }
        if elsewhere {
            out.push(id.clone());
            assert(out.deep_view() =~= so_far.push(id@));
        }
        index += 1;
    }
    assert(ids.take(index as int) =~= ids);
    out
}

fn inbound_ids(all: &Vec<Entry>, requirement_id: &String, option: &SectionOption) -> (r: Vec<
    String,
>)
    ensures
        r.deep_view() == inbound(all.deep_view(), requirement_id@, option.deep_view()),
{
    let ghost places = all.deep_view();
    let ghost view = option.deep_view();
    let mut out: Vec<String> = Vec::new();
    let mut index: usize = 0;
    assert(out.deep_view() =~= inbound(places.take(0), requirement_id@, view));
    while index < all.len()
        invariant
            index <= all@.len(),
            places == all.deep_view(),
            view == option.deep_view(),
            out.deep_view() == inbound(places.take(index as int), requirement_id@, view),
        decreases all@.len() - index,
    {
        let entry = &all[index];
        let ghost so_far = out.deep_view();
        proof {
            assert(places.take(index + 1).drop_last() =~= places.take(index as int));
            assert(places.take(index + 1).last() == entry.deep_view());
        }
        if entry.requirement_id != *requirement_id && entry.option.incompatible_with.contains(
            &option.id,
        ) {
            out.push(entry.option.id.clone());
            assert(out.deep_view() =~= so_far.push(entry.option.id@));
        }
        index += 1;
    }
    assert(places.take(index as int) =~= places);
    out
}

pub fn same_texts(a: &Vec<String>, b: &Vec<String>) -> (r: bool)
    ensures
        r == (a.deep_view() == b.deep_view()),
{
    if a.len() != b.len() {
        assert(a.deep_view().len() != b.deep_view().len());
        return false;
    }
    let mut index: usize = 0;
    while index < a.len()
        invariant
            index <= a@.len(),
            a@.len() == b@.len(),
            forall|i: int| 0 <= i < index ==> (#[trigger] a@[i])@ == b@[i]@,
        decreases a@.len() - index,
    {
        if a[index] != b[index] {
            assert(a.deep_view()[index as int] != b.deep_view()[index as int]);
            return false;
        }
        index += 1;
    }
    assert(a.deep_view() =~= b.deep_view());
    true
}

pub fn same_meetings(a: &Vec<Meeting>, b: &Vec<Meeting>) -> (r: bool)
    ensures
        r == (a@ == b@),
{
    if a.len() != b.len() {
        return false;
    }
    let mut index: usize = 0;
    while index < a.len()
        invariant
            index <= a@.len(),
            a@.len() == b@.len(),
            forall|i: int| 0 <= i < index ==> #[trigger] a@[i] == b@[i],
        decreases a@.len() - index,
    {
        if a[index] != b[index] {
            assert(a@[index as int] != b@[index as int]);
            return false;
        }
        index += 1;
    }
    assert(a@ =~= b@);
    true
}

fn same_key(
    a: &Keyed,
    b: &Keyed,
    Ghost(all): Ghost<Seq<Located>>,
    Ghost(requirement_id): Ghost<Seq<char>>,
) -> (r: bool)
    requires
        a.wf(all, requirement_id),
        b.wf(all, requirement_id),
    ensures
        r == (group_key(all, requirement_id, a.deep_view()) == group_key(
            all,
            requirement_id,
            b.deep_view(),
        )),
{
    same_meetings(&a.entry.meetings, &b.entry.meetings) && same_texts(&a.outbound, &b.outbound)
        && same_texts(&a.inbound, &b.inbound)
}

/// The choices for one requirement with the minutes that each occupies.
struct SearchGroup {
    requirement_id: String,
    kind: String,
    choices: Vec<TimeChoice>,
    bits: Vec<WeekBits>,
}

impl DeepView for SearchGroup {
    type V = GroupView;

    closed spec fn deep_view(&self) -> GroupView {
        GroupView {
            requirement_id: self.requirement_id@,
            kind: self.kind@,
            choices: self.choices.deep_view(),
        }
    }
}

/// The set holds the minutes that the meetings cover.
spec fn bits_match(bits: WeekBits, meetings: Seq<Meeting>) -> bool {
    forall|at: int| #[trigger] bits.has(at) == any_covers(meetings, at)
}

impl SearchGroup {
    spec fn wf(&self) -> bool {
        &&& self.bits@.len() == self.choices@.len()
        &&& forall|i: int|
            0 <= i < self.choices@.len() ==> {
                let meetings = (#[trigger] self.choices@[i]).deep_view().meetings;
                all_valid(meetings) && bits_match(self.bits@[i], meetings)
            }
    }
}

spec fn groups_wf(groups: Seq<SearchGroup>) -> bool {
    forall|i: int| 0 <= i < groups.len() ==> (#[trigger] groups[i]).wf()
}

/// The sections that indices point to.
spec fn pointed(keyed: Seq<Keyed>, indices: Seq<usize>) -> Seq<SectionOptionView> {
    Seq::new(indices.len(), |i: int| keyed[indices[i] as int].deep_view())
}

spec fn indices_wf(keyed: Seq<Keyed>, indices: Seq<usize>) -> bool {
    forall|i: int| 0 <= i < indices.len() ==> (#[trigger] indices[i]) < keyed.len()
}

fn keyed_may_precede(a: &Keyed, b: &Keyed) -> (r: bool)
    ensures
        r == id_le()(a.deep_view(), b.deep_view()),
{
    !b.entry.option.id.is_before(&a.entry.option.id)
}

/// Splits indices by whether they point to sections with the key of the first.
fn split_by_key(
    keyed: &Vec<Keyed>,
    indices: &Vec<usize>,
    Ghost(all): Ghost<Seq<Located>>,
    Ghost(requirement_id): Ghost<Seq<char>>,
) -> (r: (Vec<usize>, Vec<usize>))
    requires
        keyed_wf(keyed@, all, requirement_id),
        indices_wf(keyed@, indices@),
        indices@.len() > 0,
    ensures
        indices_wf(keyed@, r.0@),
        indices_wf(keyed@, r.1@),
        ({
            let s = pointed(keyed@, indices@);
            let key = |option: SectionOptionView| group_key(all, requirement_id, option);
            &&& pointed(keyed@, r.0@) == s.filter(|x: SectionOptionView| key(x) == key(s[0]))
            &&& pointed(keyed@, r.1@) == s.filter(|x: SectionOptionView| key(x) != key(s[0]))
        }),
{
    let ghost s = pointed(keyed@, indices@);
    let ghost key = |option: SectionOptionView| group_key(all, requirement_id, option);
    let ghost same = |x: SectionOptionView| key(x) == key(s[0]);
    let ghost other = |x: SectionOptionView| key(x) != key(s[0]);
    let mut matched: Vec<usize> = Vec::new();
    let mut rest: Vec<usize> = Vec::new();
    let mut index: usize = 0;
    proof {
        reveal(Seq::filter);
        assert(s.take(0) =~= Seq::empty());
        assert(pointed(keyed@, matched@) =~= s.take(0).filter(same));
        assert(pointed(keyed@, rest@) =~= s.take(0).filter(other));
    }
    while index < indices.len()
        invariant
            index <= indices@.len(),
            indices@.len() > 0,
            keyed_wf(keyed@, all, requirement_id),
            indices_wf(keyed@, indices@),
            s == pointed(keyed@, indices@),
            key == (|option: SectionOptionView| group_key(all, requirement_id, option)),
            same == (|x: SectionOptionView| key(x) == key(s[0])),
            other == (|x: SectionOptionView| key(x) != key(s[0])),
            indices_wf(keyed@, matched@),
            indices_wf(keyed@, rest@),
            pointed(keyed@, matched@) == s.take(index as int).filter(same),
            pointed(keyed@, rest@) == s.take(index as int).filter(other),
        decreases indices@.len() - index,
    {
        let ghost m = pointed(keyed@, matched@);
        let ghost t = pointed(keyed@, rest@);
        assert(indices@[0] < keyed@.len() && indices@[index as int] < keyed@.len());
        let first = &keyed[indices[0]];
        let here = &keyed[indices[index]];
        let ghost x = here.deep_view();
        proof {
            reveal(Seq::filter);
            assert(s.take(index + 1).drop_last() =~= s.take(index as int));
            assert(s.take(index + 1).last() == x);
            assert(s[0] == first.deep_view());
        }
        if same_key(here, first, Ghost(all), Ghost(requirement_id)) {
            matched.push(indices[index]);
            assert(pointed(keyed@, matched@) =~= m.push(x));
        } else {
            rest.push(indices[index]);
            assert(pointed(keyed@, rest@) =~= t.push(x));
        }
        index += 1;
    }
    assert(s.take(index as int) =~= s);
    (matched, rest)
}

/// The choice that stands for the sections that indices point to.
fn choice_from(
    requirement_id: &String,
    keyed: &Vec<Keyed>,
    indices: &Vec<usize>,
    Ghost(all): Ghost<Seq<Located>>,
) -> (r: TimeChoice)
    requires
        keyed_wf(keyed@, all, requirement_id@),
        indices_wf(keyed@, indices@),
        indices@.len() > 0,
    ensures
        r.deep_view() == choice_of(requirement_id@, pointed(keyed@, indices@)),
        all_valid(r.meetings@),
{
    let mut members: Vec<SectionOption> = Vec::new();
    let mut index: usize = 0;
    let ghost view = pointed(keyed@, indices@);
    assert(members.deep_view() =~= view.take(0));
    while index < indices.len()
        invariant
            index <= indices@.len(),
            indices_wf(keyed@, indices@),
            view == pointed(keyed@, indices@),
            members.deep_view() == view.take(index as int),
        decreases indices@.len() - index,
    {
        assert(indices@[index as int] < keyed@.len());
        let ghost so_far = members.deep_view();
        members.push(keyed[indices[index]].entry.option.duplicate());
        assert(members.deep_view() =~= so_far.push(view[index as int]));
        assert(members.deep_view() =~= view.take(index + 1));
        index += 1;
    }
    assert(view.take(index as int) =~= view);
    assert(indices@[0] < keyed@.len());
    let first = &keyed[indices[0]];
    assert(view[0] == first.deep_view());
    assert(first.wf(all, requirement_id@));
    let meetings = duplicate_all(&first.entry.meetings);
    proof {
        lemma_meetings_view(meetings);
        lemma_meetings_view(first.entry.meetings);
    }
    TimeChoice {
        id: first.entry.option.id.clone(),
        requirement_id: requirement_id.clone(),
        meetings,
        members,
    }
}

/// Groups the sections of one requirement.
fn group_entries(requirement: &Requirement, entries: &Vec<Entry>, all: &Vec<Entry>) -> (r:
    SearchGroup)
    requires
        entries_wf(entries@),
        entries.deep_view() == located_in(requirement.deep_view()),
    ensures
        r.deep_view() == group_of(all.deep_view(), requirement.deep_view()),
        r.wf(),
{
    let ghost places = all.deep_view();
    let ghost view = requirement.deep_view();
    let ghost options = searchable_options(view);
    let mut keyed: Vec<Keyed> = Vec::new();
    let mut index: usize = 0;
    assert(keyed.deep_view() =~= options.take(0));
    assert(entries.deep_view().len() == entries@.len());
    assert(located_in(view).len() == options.len());
    while index < entries.len()
        invariant
            index <= entries@.len(),
            entries@.len() == options.len(),
            entries_wf(entries@),
            places == all.deep_view(),
            view == requirement.deep_view(),
            options == searchable_options(view),
            entries.deep_view() == located_in(view),
            keyed.deep_view() == options.take(index as int),
            keyed_wf(keyed@, places, view.id),
        decreases entries@.len() - index,
    {
        let ghost so_far = keyed.deep_view();
        let entry = entries[index].copy();
        assert(entries.deep_view()[index as int] == entries@[index as int].deep_view());
        assert(located_in(view)[index as int].option == options[index as int]);
        let outbound = outbound_ids(all, &requirement.id, &entry.option);
        let inbound = inbound_ids(all, &requirement.id, &entry.option);
        keyed.push(Keyed { entry, outbound, inbound });
        assert(keyed.deep_view() =~= so_far.push(options[index as int]));
        assert(keyed.deep_view() =~= options.take(index + 1));
        index += 1;
    }
    assert(options.take(index as int) =~= options);
    let ghost unsorted = keyed@;
    let keyed = sort_by(keyed, keyed_may_precede, Ghost(id_le()));
    assert(keyed_wf(keyed@, places, view.id));
    let mut choices: Vec<TimeChoice> = Vec::new();
    let mut bits: Vec<WeekBits> = Vec::new();
    let ghost key = |option: SectionOptionView| group_key(places, view.id, option);
    let ghost sorted = stable_sorted(options, id_le());
    let ghost wrap = |members: Seq<SectionOptionView>| choice_of(view.id, members);
    let mut indices = all_indices(&keyed);
    assert(pointed(keyed@, indices@) =~= sorted);
    let ghost total = classes(sorted, key).map_values(wrap);
    assert(choices.deep_view() + classes(sorted, key).map_values(wrap) =~= total);
    while indices.len() > 0
        invariant
            view == requirement.deep_view(),
            key == (|option: SectionOptionView| group_key(places, view.id, option)),
            wrap == (|members: Seq<SectionOptionView>| choice_of(view.id, members)),
            keyed_wf(keyed@, places, view.id),
            indices_wf(keyed@, indices@),
            choices.deep_view() + classes(pointed(keyed@, indices@), key).map_values(wrap) == total,
            bits@.len() == choices@.len(),
            forall|i: int|
                0 <= i < choices@.len() ==> {
                    let meetings = (#[trigger] choices@[i]).deep_view().meetings;
                    all_valid(meetings) && bits_match(bits@[i], meetings)
                },
        decreases pointed(keyed@, indices@).len(),
    {
        let ghost s = pointed(keyed@, indices@);
        let ghost so_far = choices.deep_view();
        let (matched, rest) = split_by_key(&keyed, &indices, Ghost(places), Ghost(view.id));
        proof {
            lemma_class_shrinks(s, key);
            let same = |x: SectionOptionView| key(x) == key(s[0]);
            s.lemma_filter_contains(same, 0);
            assert(pointed(keyed@, matched@).len() > 0);
        }
        let choice = choice_from(&requirement.id, &keyed, &matched, Ghost(places));
        proof {
            lemma_meetings_view(choice.meetings);
        }
        bits.push(WeekBits::from_meetings(choice.meetings.as_slice()));
        choices.push(choice);
        proof {
            let class = pointed(keyed@, matched@);
            let later = classes(pointed(keyed@, rest@), key);
            assert(choices.deep_view() =~= so_far.push(wrap(class)));
            assert(classes(s, key) =~= seq![class] + later);
            assert((seq![class] + later).map_values(wrap) =~= seq![wrap(class)]
                + later.map_values(wrap));
            assert(choices.deep_view() + later.map_values(wrap) =~= so_far + (seq![wrap(class)]
                + later.map_values(wrap)));
        }
        indices = rest;
    }
    proof {
        assert(pointed(keyed@, indices@) =~= Seq::empty());
        assert(classes(pointed(keyed@, indices@), key).map_values(wrap) =~= Seq::empty());
        assert(choices.deep_view() =~= total);
        assert(group_classes(places, view) == classes(sorted, key));
    }
    SearchGroup {
        requirement_id: requirement.id.clone(),
        kind: requirement.kind.clone(),
        choices,
        bits,
    }
}

/// Points to every section in turn.
fn all_indices(keyed: &Vec<Keyed>) -> (r: Vec<usize>)
    ensures
        indices_wf(keyed@, r@),
        pointed(keyed@, r@) == keyed.deep_view(),
{
    let mut indices: Vec<usize> = Vec::new();
    let mut index: usize = 0;
    while index < keyed.len()
        invariant
            index <= keyed@.len(),
            indices@.len() == index,
            forall|i: int| 0 <= i < index ==> #[trigger] indices@[i] == i,
        decreases keyed@.len() - index,
    {
        indices.push(index);
        index += 1;
    }
    assert(pointed(keyed@, indices@) =~= keyed.deep_view());
    indices
}

proof fn lemma_problem_fault_prefix(
    requirements: Seq<RequirementView>,
    calendar: Option<TermCalendarView>,
    n: int,
)
    requires
        0 <= n <= requirements.len(),
        problem_fault(requirements.take(n), calendar) is Some,
    ensures
        problem_fault(requirements, calendar) == problem_fault(requirements.take(n), calendar),
    decreases requirements.len() - n,
{
    if n == requirements.len() {
        assert(requirements.take(n) =~= requirements);
    } else {
        assert(requirements.take(n + 1).drop_last() =~= requirements.take(n));
        lemma_problem_fault_prefix(requirements, calendar, n + 1);
    }
}

/// The placeable sections of each requirement.
spec fn entries_match(prepared: Seq<Vec<Entry>>, requirements: Seq<RequirementView>) -> bool {
    &&& prepared.len() == requirements.len()
    &&& forall|i: int|
        0 <= i < prepared.len() ==> {
            &&& entries_wf((#[trigger] prepared[i])@)
            &&& prepared[i].deep_view() == located_in(requirements[i])
        }
}

/// The text `<requirement><rest>`.
fn requirement_notice(requirement_id: &str, rest: &str) -> (r: String)
    ensures
        r@ == requirement_id@ + rest@,
{
    let mut notice = requirement_id.to_owned();
    notice.append(rest);
    notice
}

/// Checks all requirements; returns the sections that can be placed, by requirement and together.
fn check_requirements(
    requirements: &[Requirement],
    calendar: Option<&TermCalendar>,
    notices: &mut Vec<String>,
) -> (r: Result<(Vec<Vec<Entry>>, Vec<Entry>), Error>)
    requires
        old(notices)@.len() == 0,
    ensures
        match problem_fault(requirements.deep_view(), calendar.deep_view()) {
            Some(fault) => r is Err && (r->Err_0).deep_view() == fault,
            None => {
                &&& r is Ok
                &&& entries_match((r->Ok_0).0@, requirements.deep_view())
                &&& (r->Ok_0).1.deep_view() == located(requirements.deep_view())
                &&& final(notices).deep_view() == opening_notices(requirements.deep_view())
            },
        },
{
    let ghost views = requirements.deep_view();
    let ghost cal = calendar.deep_view();
    let mut seen_requirements: OrderedSet<String> = OrderedSet::new();
    let mut seen_options: OrderedSet<String> = OrderedSet::new();
    let mut prepared: Vec<Vec<Entry>> = Vec::new();
    let mut all: Vec<Entry> = Vec::new();
    let mut index: usize = 0;
    proof {
        assert(views.take(0) =~= Seq::empty());
        assert(requirement_ids(views.take(0)) =~= Seq::empty());
        assert(all.deep_view() =~= located(views.take(0)));
        assert(notices.deep_view() =~= opening_notices(views.take(0)));
    }
    while index < requirements.len()
        invariant
            index <= requirements@.len(),
            views == requirements.deep_view(),
            cal == calendar.deep_view(),
            problem_fault(views.take(index as int), cal) is None,
            same_elements(
                seen_requirements.deep_view(),
                requirement_ids(views.take(index as int)),
            ),
            same_elements(seen_options.deep_view(), all_option_ids(views.take(index as int))),
            entries_match(prepared@, views.take(index as int)),
            all.deep_view() == located(views.take(index as int)),
            notices.deep_view() == opening_notices(views.take(index as int)),
        decreases requirements@.len() - index,
    {
        let requirement = &requirements[index];
        let ghost done = views.take(index as int);
        let ghost next = views.take(index + 1);
        let ghost known = requirement_ids(done);
        let ghost said = notices.deep_view();
        proof {
            assert(next.drop_last() =~= done);
            assert(next.last() == requirement.deep_view());
            if requirement_fault(done, requirement.deep_view(), cal) is Some {
                lemma_problem_fault_prefix(views, cal, index + 1);
            }
            assert(known.push(requirement.id@) =~= requirement_ids(next));
        }
        if trim(requirement.id.as_str()).as_str().is_empty() {
            return Err(Error::new("requirement id must not be empty"));
        }
        let ghost so_far = seen_requirements.deep_view();
        let fresh = seen_requirements.insert(requirement.id.clone());
        proof {
            lemma_same_elements(so_far, known, requirement.id@);
        }
        if !fresh {
            let mut message = "duplicate requirement id ".to_owned();
            message.append(requirement.id.as_str());
            return Err(Error { message });
        }
        if requirement.has_unknown_times {
            notices.push(
                requirement_notice(
                    requirement.id.as_str(),
                    ": some options have unknown/TBA meeting times and are not optimized",
                ),
            );
        }
        let ghost head = notices.deep_view();
        proof {
            assert(head =~= said + (if requirement.has_unknown_times {
                seq![
                    requirement.id@
                        + ": some options have unknown/TBA meeting times and are not optimized"@,
                ]
            } else {
                Seq::empty()
            }));
        }
        let entries = match searchable_entries(
            requirement,
            calendar,
            &mut seen_options,
            notices,
            Ghost(all_option_ids(done)),
        ) {
            Ok(entries) => entries,
            Err(error) => {
                return Err(error);
            },
        };
        assert(notices.deep_view() =~= said + requirement_notices(requirement.deep_view()));
        append_copies(&mut all, &entries);
        let ghost earlier = prepared@;
        prepared.push(entries);
        proof {
            assert forall|i: int| 0 <= i < prepared@.len() implies {
                &&& entries_wf((#[trigger] prepared@[i])@)
                &&& prepared@[i].deep_view() == located_in(next[i])
            } by {
                if i < index {
                    assert(prepared@[i] == earlier[i]);
                    assert(done[i] == next[i]);
                }
            }
        }
        index += 1;
    }
    assert(views.take(index as int) =~= views);
    Ok((prepared, all))
}

/// Adds a copy of every entry.
fn append_copies(all: &mut Vec<Entry>, entries: &Vec<Entry>)
    requires
        entries_wf(entries@),
    ensures
        final(all).deep_view() == old(all).deep_view() + entries.deep_view(),
{
    let ghost before = all.deep_view();
    let ghost more = entries.deep_view();
    let mut index: usize = 0;
    assert(all.deep_view() =~= before + more.take(0));
    while index < entries.len()
        invariant
            index <= entries@.len(),
            entries_wf(entries@),
            more == entries.deep_view(),
            all.deep_view() == before + more.take(index as int),
        decreases entries@.len() - index,
    {
        let ghost so_far = all.deep_view();
        all.push(entries[index].copy());
        assert(all.deep_view() =~= so_far.push(more[index as int]));
        assert(all.deep_view() =~= before + more.take(index + 1));
        index += 1;
    }
    assert(more.take(index as int) =~= more);
}

/// Groups the sections of every requirement; returns the groups and the notices.
fn prepare(requirements: &[Requirement], calendar: Option<&TermCalendar>) -> (r: Result<
    (Vec<SearchGroup>, Vec<String>),
    Error,
>)
    ensures
        match problem_fault(requirements.deep_view(), calendar.deep_view()) {
            Some(fault) => r is Err && (r->Err_0).deep_view() == fault,
            None => {
                &&& r is Ok
                &&& (r->Ok_0).0.deep_view() == groups_of(
                    located(requirements.deep_view()),
                    requirements.deep_view(),
                )
                &&& groups_wf((r->Ok_0).0@)
                &&& (r->Ok_0).1.deep_view() == search_notices(requirements.deep_view())
            },
        },
{
    let mut notices: Vec<String> = Vec::new();
    let (prepared, all) = match check_requirements(requirements, calendar, &mut notices) {
        Ok(prepared) => prepared,
        Err(error) => {
            return Err(error);
        },
    };
    let ghost views = requirements.deep_view();
    let ghost places = all.deep_view();
    let ghost opening = opening_notices(views);
    let mut groups: Vec<SearchGroup> = Vec::new();
    let mut index: usize = 0;
    proof {
        assert(views.take(0) =~= Seq::empty());
        assert(groups.deep_view() =~= groups_of(places, views.take(0)));
        assert(notices.deep_view() =~= opening + closing_notices(views.take(0)));
    }
    while index < requirements.len()
        invariant
            index <= requirements@.len(),
            views == requirements.deep_view(),
            places == all.deep_view(),
            entries_match(prepared@, views),
            groups_wf(groups@),
            groups.deep_view() == groups_of(places, views.take(index as int)),
            notices.deep_view() == opening + closing_notices(views.take(index as int)),
        decreases requirements@.len() - index,
    {
        let requirement = &requirements[index];
        let ghost done = groups.deep_view();
        let ghost said = notices.deep_view();
        proof {
            assert(views.take(index + 1).drop_last() =~= views.take(index as int));
            assert(views.take(index + 1).last() == requirement.deep_view());
            assert(views[index as int] == requirement.deep_view());
            assert(prepared@[index as int].deep_view().len() == prepared@[index as int]@.len());
            assert(located_in(requirement.deep_view()).len() == searchable_options(
                requirement.deep_view(),
            ).len());
        }
        if prepared[index].len() == 0 {
            notices.push(
                requirement_notice(
                    requirement.id.as_str(),
                    ": no known supported meeting options; left unresolved",
                ),
            );
            proof {
                assert(notices.deep_view() =~= said.push(
                    requirement.id@ + ": no known supported meeting options; left unresolved"@,
                ));
                assert(notices.deep_view() =~= opening + closing_notices(views.take(index + 1)));
                assert(groups.deep_view() =~= groups_of(places, views.take(index + 1)));
            }
        } else {
            let group = group_entries(requirement, &prepared[index], &all);
            groups.push(group);
            proof {
                assert(groups.deep_view() =~= done.push(group.deep_view()));
                assert(groups.deep_view() =~= groups_of(places, views.take(index + 1)));
                assert(notices.deep_view() =~= opening + closing_notices(views.take(index + 1)));
            }
        }
        index += 1;
    }
    assert(views.take(index as int) =~= views);
    let notices = OrderedSet::from_vec(notices).into_vec();
    Ok((groups, notices))
}

/// Two meetings of different sections get in each other's way. Where no date matters the
/// weekly times decide.
pub open spec fn meetings_clash(
    calendar: Option<TermCalendarView>,
    dated: bool,
    left: Meeting,
    right: Meeting,
) -> bool {
    if !dated {
        times_overlap(left, right)
    } else {
        match calendar {
            Some(calendar) => calendar_overlap(calendar, left, right),
            None => natural_overlap(left, right),
        }
    }
}

pub open spec fn choices_clash(
    calendar: Option<TermCalendarView>,
    dated: bool,
    left: TimeChoiceView,
    right: TimeChoiceView,
) -> bool {
    exists|i: int, j: int|
        0 <= i < left.meetings.len() && 0 <= j < right.meetings.len() && #[trigger] meetings_clash(
            calendar,
            dated,
            left.meetings[i],
            right.meetings[j],
        )
}

/// Neither section excludes the other.
pub open spec fn members_compatible(left: SectionOptionView, right: SectionOptionView) -> bool {
    !left.incompatible_with.contains(right.id) && !right.incompatible_with.contains(left.id)
}

/// No member of one choice excludes a member of the other.
pub open spec fn compatible(left: TimeChoiceView, right: TimeChoiceView) -> bool {
    forall|i: int, j: int|
        0 <= i < left.members.len() && 0 <= j < right.members.len() ==> #[trigger]
            members_compatible(left.members[i], right.members[j])
}

/// A choice can be added to those already made.
pub open spec fn admissible(
    calendar: Option<TermCalendarView>,
    dated: bool,
    selected: Seq<TimeChoiceView>,
    choice: TimeChoiceView,
) -> bool {
    forall|i: int|
        0 <= i < selected.len() ==> !choices_clash(
            calendar,
            dated,
            #[trigger] selected[i],
            choice,
        ) && compatible(selected[i], choice)
}

/// Some choice depends on dates.
pub open spec fn date_sensitive(groups: Seq<GroupView>) -> bool {
    exists|i: int, j: int|
        0 <= i < groups.len() && 0 <= j < groups[i].choices.len() && any_date_limited(
            (#[trigger] groups[i].choices[j]).meetings,
        )
}

/// What the search works on.
#[verifier::ext_equal]
pub struct Problem {
    pub groups: Seq<GroupView>,
    pub calendar: Option<TermCalendarView>,
    pub dated: bool,
}

/// All ways to complete a selection for the first groups, in the order of the choices.
pub open spec fn completions(p: Problem, selected: Seq<TimeChoiceView>) -> Seq<Seq<TimeChoiceView>>
    decreases
            p.groups.len() - selected.len(),
            2 + p.groups[selected.len() as int].choices.len(),
{
    if selected.len() >= p.groups.len() {
        seq![selected]
    } else {
        branches(p, selected, 0)
    }
}

/// The completions that take the choice at `from` or a later one for the next group.
pub open spec fn branches(p: Problem, selected: Seq<TimeChoiceView>, from: int) -> Seq<
    Seq<TimeChoiceView>,
>
    decreases
            p.groups.len() - selected.len(),
            1 + p.groups[selected.len() as int].choices.len() - from,
{
    if selected.len() >= p.groups.len() {
        Seq::empty()
    } else {
        let choices = p.groups[selected.len() as int].choices;
        if from < 0 || from >= choices.len() {
            Seq::empty()
        } else {
            (if admissible(p.calendar, p.dated, selected, choices[from]) {
                completions(p, selected.push(choices[from]))
            } else {
                Seq::empty()
            }) + branches(p, selected, from + 1)
        }
    }
}

/// Some meeting of the choices is under way at a minute of the week.
pub open spec fn occupied(choices: Seq<TimeChoiceView>, at: int) -> bool {
    exists|i: int| 0 <= i < choices.len() && any_covers((#[trigger] choices[i]).meetings, at)
}

/// The score of a timetable.
pub open spec fn timetable_score(choices: Seq<TimeChoiceView>) -> Score {
    week_score(|at: int| occupied(choices, at))
}

/// Fewer days, or as many days and smaller gaps.
pub open spec fn better(a: Score, b: Score) -> bool {
    a.occupied_days < b.occupied_days || (a.occupied_days == b.occupied_days && a.gap_minutes
        < b.gap_minutes)
}

pub fn is_better(a: Score, b: Score) -> (r: bool)
    ensures
        r == better(a, b),
{
    a.occupied_days < b.occupied_days || (a.occupied_days == b.occupied_days && a.gap_minutes
        < b.gap_minutes)
}

/// The best score of the listed timetables.
pub open spec fn best_score(listing: Seq<Seq<TimeChoiceView>>) -> Option<Score>
    decreases listing.len(),
{
    if listing.len() == 0 {
        None
    } else {
        let score = timetable_score(listing.last());
        match best_score(listing.drop_last()) {
            Some(best) => if better(score, best) {
                Some(score)
            } else {
                Some(best)
            },
            None => Some(score),
        }
    }
}

/// The listed timetables with the best score.
pub open spec fn optima(listing: Seq<Seq<TimeChoiceView>>) -> Seq<Seq<TimeChoiceView>> {
    listing.filter(|t: Seq<TimeChoiceView>| Some(timetable_score(t)) == best_score(listing))
}

/// The order of choices in a solution.
pub open spec fn choice_le() -> spec_fn(TimeChoiceView, TimeChoiceView) -> bool {
    |a: TimeChoiceView, b: TimeChoiceView|
        text_before(a.requirement_id, b.requirement_id) || (a.requirement_id == b.requirement_id
            && !text_before(b.id, a.id))
}

/// A timetable as a solution shows it.
pub open spec fn arranged(timetable: Seq<TimeChoiceView>) -> Seq<TimeChoiceView> {
    stable_sorted(timetable, choice_le())
}

/// The first `MAX_TIMETABLE_ALTERNATIVES` timetables, as a solution shows them.
pub open spec fn shown(timetables: Seq<Seq<TimeChoiceView>>) -> Seq<Seq<TimeChoiceView>> {
    Seq::new(
        if timetables.len() <= MAX_TIMETABLE_ALTERNATIVES {
            timetables.len()
        } else {
            MAX_TIMETABLE_ALTERNATIVES as nat
        },
        |i: int| arranged(timetables[i]),
    )
}

/// The best of the timetables looked at so far.
struct Best {
    score: Option<Score>,
    alternatives: Vec<Vec<TimeChoice>>,
    truncated: bool,
}

impl Best {
    spec fn reflects(&self, listing: Seq<Seq<TimeChoiceView>>) -> bool {
        &&& self.score == best_score(listing)
        &&& self.alternatives.deep_view() == shown(optima(listing))
        &&& self.truncated == (optima(listing).len() > MAX_TIMETABLE_ALTERNATIVES)
    }
}

/// No listed timetable is better than the best score.
pub proof fn lemma_best_score(listing: Seq<Seq<TimeChoiceView>>)
    ensures
        best_score(listing) is None <==> listing.len() == 0,
        forall|i: int|
            0 <= i < listing.len() ==> !better(
                timetable_score(#[trigger] listing[i]),
                best_score(listing)->0,
            ),
        listing.len() > 0 ==> exists|i: int|
            0 <= i < listing.len() && timetable_score(#[trigger] listing[i]) == best_score(
                listing,
            )->0,
    decreases listing.len(),
{
    if listing.len() > 0 {
        let rest = listing.drop_last();
        lemma_best_score(rest);
        let best = best_score(listing)->0;
        assert forall|i: int| 0 <= i < listing.len() implies !better(
            timetable_score(#[trigger] listing[i]),
            best,
        ) by {
            if i < rest.len() {
                assert(listing[i] == rest[i]);
            }
        }
        if best == timetable_score(listing.last()) {
            assert(listing[listing.len() - 1] == listing.last());
        } else {
            let i = choose|i: int|
                0 <= i < rest.len() && timetable_score(#[trigger] rest[i]) == best_score(rest)->0;
            assert(listing[i] == rest[i]);
        }
    }
}

proof fn lemma_filter_none<T>(s: Seq<T>, pred: spec_fn(T) -> bool)
    requires
        forall|i: int| 0 <= i < s.len() ==> !pred(#[trigger] s[i]),
    ensures
        s.filter(pred) == Seq::<T>::empty(),
    decreases s.len(),
{
    reveal(Seq::filter);
    if s.len() > 0 {
        assert forall|i: int| 0 <= i < s.drop_last().len() implies !pred(
            #[trigger] s.drop_last()[i],
        ) by {
            assert(s.drop_last()[i] == s[i]);
        }
        lemma_filter_none(s.drop_last(), pred);
        assert(!pred(s[s.len() - 1]));
    }
}

/// How one more timetable changes the best ones.
proof fn lemma_optima_push(listing: Seq<Seq<TimeChoiceView>>, t: Seq<TimeChoiceView>)
    ensures
        ({
            let score = timetable_score(t);
            let next = listing.push(t);
            match best_score(listing) {
                None => best_score(next) == Some(score) && optima(next) == seq![t],
                Some(best) => if better(score, best) {
                    best_score(next) == Some(score) && optima(next) == seq![t]
                } else if score == best {
                    best_score(next) == Some(best) && optima(next) == optima(listing).push(t)
                } else {
                    best_score(next) == Some(best) && optima(next) == optima(listing)
                },
            }
        }),
{
    let next = listing.push(t);
    let score = timetable_score(t);
    assert(next.drop_last() =~= listing);
    assert(next.last() == t);
    let pred = |u: Seq<TimeChoiceView>| Some(timetable_score(u)) == best_score(next);
    let old_pred = |u: Seq<TimeChoiceView>| Some(timetable_score(u)) == best_score(listing);
    reveal(Seq::filter);
    assert(next.filter(pred) == if pred(t) {
        listing.filter(pred).push(t)
    } else {
        listing.filter(pred)
    });
    lemma_best_score(listing);
    if best_score(listing) is None || better(score, best_score(listing)->0) {
        assert forall|i: int| 0 <= i < listing.len() implies !pred(#[trigger] listing[i]) by {
            assert(!better(timetable_score(listing[i]), best_score(listing)->0));
        }
        lemma_filter_none(listing, pred);
        assert(optima(next) =~= seq![t]);
    } else {
        assert(pred =~= old_pred);
    }
}

/// Records one timetable.
fn record(
    best: &mut Best,
    score: Score,
    timetable: Vec<TimeChoice>,
    Ghost(listing): Ghost<Seq<Seq<TimeChoiceView>>>,
    Ghost(view): Ghost<Seq<TimeChoiceView>>,
)
    requires
        old(best).reflects(listing),
        timetable.deep_view() == arranged(view),
        score == timetable_score(view),
    ensures
        final(best).reflects(listing.push(view)),
{
    proof {
        lemma_optima_push(listing, view);
    }
    let ghost alternatives = best.alternatives.deep_view();
    let fresh = match best.score {
        Some(known) => is_better(score, known),
        None => true,
    };
    if fresh {
        best.score = Some(score);
        let mut only: Vec<Vec<TimeChoice>> = Vec::new();
        only.push(timetable);
        best.alternatives = only;
        best.truncated = false;
        assert(best.alternatives.deep_view() =~= shown(seq![view]));
    } else if best.score == Some(score) {
        assert(best.alternatives@.len() == alternatives.len());
        if best.alternatives.len() < MAX_TIMETABLE_ALTERNATIVES {
            best.alternatives.push(timetable);
            assert(best.alternatives.deep_view() =~= alternatives.push(arranged(view)));
            assert(best.alternatives.deep_view() =~= shown(optima(listing).push(view)));
        } else {
            best.truncated = true;
            assert(best.alternatives.deep_view() =~= shown(optima(listing).push(view)));
        }
    }
}

fn choice_may_precede(a: &TimeChoice, b: &TimeChoice) -> (r: bool)
    ensures
        r == choice_le()(a.deep_view(), b.deep_view()),
{
    a.requirement_id.is_before(&b.requirement_id) || (a.requirement_id == b.requirement_id
        && !b.id.is_before(&a.id))
}

fn group_may_precede(a: &SearchGroup, b: &SearchGroup) -> (r: bool)
    ensures
        r == group_le()(a.deep_view(), b.deep_view()),
{
    assert(a.deep_view().choices.len() == a.choices@.len());
    assert(b.deep_view().choices.len() == b.choices@.len());
    a.choices.len() < b.choices.len() || (a.choices.len() == b.choices.len()
        && !b.requirement_id.is_before(&a.requirement_id))
}

/// What the search reads throughout.
struct Search<'a> {
    groups: &'a Vec<SearchGroup>,
    calendar: Option<&'a TermCalendar>,
    dated: bool,
}

impl<'a> Search<'a> {
    spec fn problem(&self) -> Problem {
        Problem {
            groups: self.groups.deep_view(),
            calendar: self.calendar.deep_view(),
            dated: self.dated,
        }
    }

    /// The choices that the selected indices stand for.
    spec fn chosen(&self, selected: Seq<usize>) -> Seq<TimeChoiceView> {
        Seq::new(
            selected.len(),
            |i: int| self.groups.deep_view()[i].choices[selected[i] as int],
        )
    }

    spec fn selection_wf(&self, selected: Seq<usize>) -> bool {
        &&& selected.len() <= self.groups@.len()
        &&& forall|i: int|
            0 <= i < selected.len() ==> (#[trigger] selected[i]) < self.groups@[i].choices@.len()
    }
}

/// A load of the flag can give `stop`; without a flag nobody asks to stop.
pub open spec fn flag_reads(cancel: Option<&AtomicBool>, stop: bool) -> bool {
    match cancel {
        Some(flag) => call_ensures(AtomicBool::load, (flag, Ordering::Relaxed), stop),
        None => !stop,
    }
}

/// Whether the caller asked to stop.
fn is_cancelled(cancel: Option<&AtomicBool>) -> (r: bool)
    ensures
        flag_reads(cancel, r),
{
    match cancel {
        Some(cancel) => cancel.load(Ordering::Relaxed),
        None => false,
    }
}

fn meetings_conflict(left: &Meeting, right: &Meeting, calendar: Option<&TermCalendar>) -> (r: bool)
    ensures
        r == meetings_clash(calendar.deep_view(), true, *left, *right),
{
    match calendar {
        Some(calendar) => calendar_meetings_overlap(calendar, left, right),
        None => natural_meetings_overlap(left, right),
    }
}

fn candidates_conflict(left: &TimeChoice, right: &TimeChoice, calendar: Option<&TermCalendar>) -> (r:
    bool)
    ensures
        r == choices_clash(calendar.deep_view(), true, left.deep_view(), right.deep_view()),
{
    proof {
        lemma_meetings_view(left.meetings);
        lemma_meetings_view(right.meetings);
    }
    let ghost cal = calendar.deep_view();
    let ghost a = left.deep_view().meetings;
    let ghost b = right.deep_view().meetings;
    let mut i: usize = 0;
    while i < left.meetings.len()
        invariant
            i <= left.meetings@.len(),
            cal == calendar.deep_view(),
            a == left.meetings@,
            b == right.meetings@,
            forall|x: int, y: int|
                0 <= x < i && 0 <= y < b.len() ==> !#[trigger] meetings_clash(cal, true, a[x], b[y]),
        decreases left.meetings@.len() - i,
    {
        let mut j: usize = 0;
        while j < right.meetings.len()
            invariant
                i < left.meetings@.len(),
                j <= right.meetings@.len(),
                cal == calendar.deep_view(),
                a == left.meetings@,
                b == right.meetings@,
                a == left.deep_view().meetings,
                b == right.deep_view().meetings,
                forall|y: int|
                    0 <= y < j ==> !#[trigger] meetings_clash(cal, true, a[i as int], b[y]),
            decreases right.meetings@.len() - j,
        {
            if meetings_conflict(&left.meetings[i], &right.meetings[j], calendar) {
                assert(meetings_clash(cal, true, a[i as int], b[j as int]));
                return true;
            }
            j += 1;
        }
        i += 1;
    }
    false
}

fn choices_compatible(left: &TimeChoice, right: &TimeChoice) -> (r: bool)
    ensures
        r == compatible(left.deep_view(), right.deep_view()),
{
    let ghost a = left.deep_view().members;
    let ghost b = right.deep_view().members;
    let mut i: usize = 0;
    while i < left.members.len()
        invariant
            i <= left.members@.len(),
            a == left.members.deep_view(),
            b == right.members.deep_view(),
            forall|x: int, y: int|
                0 <= x < i && 0 <= y < b.len() ==> #[trigger] members_compatible(a[x], b[y]),
        decreases left.members@.len() - i,
    {
        let mut j: usize = 0;
        while j < right.members.len()
            invariant
                i < left.members@.len(),
                j <= right.members@.len(),
                a == left.members.deep_view(),
                b == right.members.deep_view(),
                a == left.deep_view().members,
                b == right.deep_view().members,
                forall|y: int| 0 <= y < j ==> #[trigger] members_compatible(a[i as int], b[y]),
            decreases right.members@.len() - j,
        {
            let one = &left.members[i];
            let other = &right.members[j];
            assert(a[i as int] == one.deep_view() && b[j as int] == other.deep_view());
            if one.incompatible_with.contains(&other.id) || other.incompatible_with.contains(
                &one.id,
            ) {
                assert(!members_compatible(a[i as int], b[j as int]));
                return false;
            }
            j += 1;
        }
        i += 1;
    }
    true
}

/// The weekly times of two choices overlap exactly if they share a minute of the week.
proof fn lemma_clash_by_minutes(
    calendar: Option<TermCalendarView>,
    left: TimeChoiceView,
    right: TimeChoiceView,
)
    requires
        all_valid(left.meetings),
        all_valid(right.meetings),
    ensures
        choices_clash(calendar, false, left, right) <==> exists|at: int| #[trigger]
            any_covers(left.meetings, at) && any_covers(right.meetings, at),
{
    if choices_clash(calendar, false, left, right) {
        let (i, j) = choose|i: int, j: int|
            0 <= i < left.meetings.len() && 0 <= j < right.meetings.len()
                && #[trigger] meetings_clash(
                calendar,
                false,
                left.meetings[i],
                right.meetings[j],
            );
        lemma_shared_minute(left.meetings[i], right.meetings[j]);
        let at = choose|at: int| #[trigger]
            covers(left.meetings[i], at) && covers(right.meetings[j], at);
        assert(any_covers(left.meetings, at) && any_covers(right.meetings, at));
    }
    if exists|at: int| #[trigger]
        any_covers(left.meetings, at) && any_covers(right.meetings, at) {
        let at = choose|at: int| #[trigger]
            any_covers(left.meetings, at) && any_covers(right.meetings, at);
        let i = choose|i: int| 0 <= i < left.meetings.len() && covers(#[trigger] left.meetings[i], at);
        let j = choose|j: int|
            0 <= j < right.meetings.len() && covers(#[trigger] right.meetings[j], at);
        lemma_shared_minute(left.meetings[i], right.meetings[j]);
        assert(meetings_clash(calendar, false, left.meetings[i], right.meetings[j]));
    }
}

/// Whether a choice for the next group can be added to the selected ones.
fn can_add(search: &Search, selected: &Vec<usize>, occupancy: &WeekBits, at: usize) -> (r: bool)
    requires
        groups_wf(search.groups@),
        search.selection_wf(selected@),
        selected@.len() < search.groups@.len(),
        at < search.groups@[selected@.len() as int].choices@.len(),
        forall|m: int| #[trigger] occupancy.has(m) == occupied(search.chosen(selected@), m),
    ensures
        r == admissible(
            search.problem().calendar,
            search.dated,
            search.chosen(selected@),
            search.groups@[selected@.len() as int].choices@[at as int].deep_view(),
        ),
{
    let group = &search.groups[selected.len()];
    let candidate = &group.choices[at];
    let ghost cal = search.problem().calendar;
    let ghost chosen = search.chosen(selected@);
    let ghost choice = candidate.deep_view();
    assert(group.wf());
    assert(all_valid(choice.meetings) && bits_match(group.bits@[at as int], choice.meetings));
    if !search.dated && occupancy.intersects(&group.bits[at]) {
        proof {
            let m = choose|m: int| #[trigger]
                occupancy.has(m) && group.bits@[at as int].has(m);
            assert(occupied(chosen, m));
            let i = choose|i: int|
                0 <= i < chosen.len() && any_covers((#[trigger] chosen[i]).meetings, m);
            assert(any_covers(chosen[i].meetings, m) && any_covers(choice.meetings, m));
            lemma_chosen(search, selected@, i);
            lemma_clash_by_minutes(cal, chosen[i], choice);
        }
        return false;
    }
    proof {
        if !search.dated {
            assert forall|i: int| 0 <= i < chosen.len() implies !choices_clash(
                cal,
                false,
                #[trigger] chosen[i],
                choice,
            ) by {
                lemma_chosen(search, selected@, i);
                lemma_clash_by_minutes(cal, chosen[i], choice);
                if choices_clash(cal, false, chosen[i], choice) {
                    let m = choose|m: int| #[trigger]
                        any_covers(chosen[i].meetings, m) && any_covers(choice.meetings, m);
                    assert(occupied(chosen, m));
                    assert(occupancy.has(m) && group.bits@[at as int].has(m));
                }
            }
        }
    }
    let mut index: usize = 0;
    while index < selected.len()
        invariant
            groups_wf(search.groups@),
            search.selection_wf(selected@),
            index <= selected@.len() < search.groups@.len(),
            cal == search.problem().calendar,
            chosen == search.chosen(selected@),
            choice == candidate.deep_view(),
            choice == search.groups@[selected@.len() as int].choices@[at as int].deep_view(),
            all_valid(choice.meetings),
            !search.dated ==> forall|i: int|
                0 <= i < chosen.len() ==> !choices_clash(
                    cal,
                    false,
                    #[trigger] chosen[i],
                    choice,
                ),
            forall|i: int|
                0 <= i < index ==> !choices_clash(
                    cal,
                    search.dated,
                    #[trigger] chosen[i],
                    choice,
                ) && compatible(chosen[i], choice),
        decreases selected@.len() - index,
    {
        proof {
            lemma_chosen(search, selected@, index as int);
        }
        let other = &search.groups[index].choices[selected[index]];
        assert(chosen[index as int] == other.deep_view());
        if search.dated && candidates_conflict(other, candidate, search.calendar) {
            return false;
        }
        if !choices_compatible(other, candidate) {
            return false;
        }
        index += 1;
    }
    true
}

proof fn lemma_chosen(search: &Search, selected: Seq<usize>, i: int)
    requires
        groups_wf(search.groups@),
        search.selection_wf(selected),
        0 <= i < selected.len(),
    ensures
        selected[i] < search.groups@[i].choices@.len(),
        search.chosen(selected)[i] == search.groups@[i].choices@[selected[i] as int].deep_view(),
        all_valid(search.chosen(selected)[i].meetings),
{
    assert(search.groups@[i].wf());
    let choice = search.groups@[i].choices@[selected[i] as int];
    assert(all_valid(choice.deep_view().meetings));
}

/// Looks at every completion of a selection; returns whether it was told to stop.
fn run<F: Fn() -> bool>(
    search: &Search,
    selected: &mut Vec<usize>,
    occupancy: &WeekBits,
    best: &mut Best,
    stop: &F,
    Ghost(listing): Ghost<Seq<Seq<TimeChoiceView>>>,
) -> (cancelled: bool)
    requires
        call_requires(*stop, ()),
        groups_wf(search.groups@),
        search.selection_wf(old(selected)@),
        forall|m: int| #[trigger]
            occupancy.has(m) == occupied(search.chosen(old(selected)@), m),
        old(best).reflects(listing),
    ensures
        final(selected)@ == old(selected)@,
        cancelled ==> call_ensures(*stop, (), true),
        !cancelled ==> final(best).reflects(
            listing + completions(search.problem(), search.chosen(old(selected)@)),
        ),
    decreases search.groups@.len() - old(selected)@.len(),
{
    if stop() {
        return true;
    }
    let ghost p = search.problem();
    let ghost chosen = search.chosen(selected@);
    let ghost start = selected@;
    if selected.len() == search.groups.len() {
        let score = score_bits(occupancy);
        assert((|at: int| occupancy.has(at)) =~= (|at: int| occupied(chosen, at)));
        let timetable = chosen_choices(search, selected);
        let timetable = sort_by(timetable, choice_may_precede, Ghost(choice_le()));
        record(best, score, timetable, Ghost(listing), Ghost(chosen));
        assert(listing.push(chosen) =~= listing + completions(p, chosen));
        return false;
    }
    let ghost group = p.groups[start.len() as int];
    let ghost mut seen = listing;
    let mut at: usize = 0;
    while at < search.groups[selected.len()].choices.len()
        invariant
            call_requires(*stop, ()),
            selected@ == start,
            start == old(selected)@,
            groups_wf(search.groups@),
            search.selection_wf(start),
            start.len() < search.groups@.len(),
            p == search.problem(),
            chosen == search.chosen(start),
            group == p.groups[start.len() as int],
            group.choices.len() == search.groups@[start.len() as int].choices@.len(),
            forall|m: int| #[trigger] occupancy.has(m) == occupied(chosen, m),
            at <= group.choices.len(),
            best.reflects(seen),
            seen + branches(p, chosen, at as int) == listing + branches(p, chosen, 0),
        decreases group.choices.len() - at,
    {
        if stop() {
            return true;
        }
        let ghost choice = group.choices[at as int];
        assert(choice == search.groups@[start.len() as int].choices@[at as int].deep_view());
        if can_add(search, selected, occupancy, at) {
            assert(search.groups@[start.len() as int].wf());
            let ghost bits = search.groups@[start.len() as int].bits@[at as int];
            assert(bits_match(bits, choice.meetings)) by {
                let c = search.groups@[start.len() as int].choices@[at as int];
                assert(bits_match(bits, c.deep_view().meetings));
            }
            let wider = occupancy.union(&search.groups[selected.len()].bits[at]);
            selected.push(at);
            proof {
                assert(search.chosen(selected@) =~= chosen.push(choice));
                assert forall|m: int| #[trigger]
                    wider.has(m) == occupied(chosen.push(choice), m) by {
                    lemma_occupied_push(chosen, choice, m);
                }
                assert(search.selection_wf(selected@));
            }
            let cancelled = run(search, selected, &wider, best, stop, Ghost(seen));
            selected.pop();
            assert(selected@ =~= start);
            if cancelled {
                return true;
            }
            proof {
                let found = completions(p, chosen.push(choice));
                assert(seen + branches(p, chosen, at as int) =~= (seen + found) + branches(
                    p,
                    chosen,
                    at + 1,
                ));
                seen = seen + found;
            }
        } else {
            assert(branches(p, chosen, at as int) =~= branches(p, chosen, at + 1));
        }
        at += 1;
    }
    proof {
        assert(branches(p, chosen, at as int) =~= Seq::empty());
        assert(seen + branches(p, chosen, at as int) =~= seen);
    }
    false
}

proof fn lemma_occupied_push(chosen: Seq<TimeChoiceView>, choice: TimeChoiceView, m: int)
    ensures
        occupied(chosen.push(choice), m) == (occupied(chosen, m) || any_covers(choice.meetings, m)),
{
    let next = chosen.push(choice);
    if occupied(chosen, m) {
        let i = choose|i: int|
            0 <= i < chosen.len() && any_covers((#[trigger] chosen[i]).meetings, m);
        assert(next[i] == chosen[i]);
    }
    assert(next[chosen.len() as int] == choice);
    if occupied(next, m) {
        let i = choose|i: int| 0 <= i < next.len() && any_covers((#[trigger] next[i]).meetings, m);
        if i < chosen.len() {
            assert(chosen[i] == next[i]);
        }
    }
}

/// Copies of the selected choices.
fn chosen_choices(search: &Search, selected: &Vec<usize>) -> (r: Vec<TimeChoice>)
    requires
        groups_wf(search.groups@),
        search.selection_wf(selected@),
    ensures
        r.deep_view() == search.chosen(selected@),
{
    let mut out: Vec<TimeChoice> = Vec::new();
    let ghost chosen = search.chosen(selected@);
    let mut index: usize = 0;
    assert(out.deep_view() =~= chosen.take(0));
    while index < selected.len()
        invariant
            index <= selected@.len(),
            groups_wf(search.groups@),
            search.selection_wf(selected@),
            chosen == search.chosen(selected@),
            out.deep_view() == chosen.take(index as int),
        decreases selected@.len() - index,
    {
        proof {
            lemma_chosen(search, selected@, index as int);
        }
        let ghost so_far = out.deep_view();
        out.push(search.groups[index].choices[selected[index]].duplicate());
        assert(out.deep_view() =~= so_far.push(chosen[index as int]));
        assert(out.deep_view() =~= chosen.take(index + 1));
        index += 1;
    }
    assert(chosen.take(index as int) =~= chosen);
    out
}

/// What a solution adds when a bounded physical education section was chosen.
pub open spec fn pe_notice() -> Seq<char> {
    "selected bounded PE meetings use a combined weekly template for score, and date bounds constrain conflicts and calendar export"@
}

/// What a solution adds when it does not list all of the best timetables.
pub open spec fn truncated_notice() -> Seq<char> {
    "only the first 1000 equally optimal timetables are listed; the others are omitted"@
}

/// Some choice is a bounded physical education section.
pub open spec fn chooses_bounded_pe(groups: Seq<GroupView>, choices: Seq<TimeChoiceView>) -> bool {
    exists|i: int, j: int|
        0 <= i < choices.len() && 0 <= j < groups.len() && (#[trigger] groups[j]).requirement_id == (
        #[trigger] choices[i]).requirement_id && bounded_pe(groups[j].kind, choices[i].meetings)
}

/// The notices of a solution.
pub open spec fn final_notices(notices: Seq<Seq<char>>, pe: bool, truncated: bool) -> Seq<
    Seq<char>,
> {
    let more = (if pe {
        seq![pe_notice()]
    } else {
        Seq::empty()
    }) + (if truncated {
        seq![truncated_notice()]
    } else {
        Seq::empty()
    });
    if more.len() == 0 {
        notices
    } else {
        distinct_ascending::<String>(notices + more)
    }
}

/// The problem that a list of requirements poses.
pub open spec fn problem_of(
    requirements: Seq<RequirementView>,
    calendar: Option<TermCalendarView>,
) -> Problem {
    let groups = search_groups(requirements);
    Problem { groups, calendar, dated: date_sensitive(groups) }
}

/// All timetables that fill every group without conflicts, in the order of the search.
pub open spec fn timetables(p: Problem) -> Seq<Seq<TimeChoiceView>> {
    completions(p, Seq::empty())
}

/// The solution of a search that ran to its end.
pub open spec fn solution_of(p: Problem, notices: Seq<Seq<char>>) -> SolutionView {
    let best = optima(timetables(p));
    if best.len() == 0 {
        SolutionView {
            status: SolveStatus::Infeasible,
            choices: Seq::empty(),
            score: None,
            unresolved: notices,
            alternatives: Seq::empty(),
            alternatives_truncated: false,
        }
    } else {
        let choices = arranged(best[0]);
        let truncated = best.len() > MAX_TIMETABLE_ALTERNATIVES;
        SolutionView {
            status: SolveStatus::OptimalKnown,
            choices,
            score: best_score(timetables(p)),
            unresolved: final_notices(notices, chooses_bounded_pe(p.groups, choices), truncated),
            alternatives: shown(best),
            alternatives_truncated: truncated,
        }
    }
}

/// The solution of a search that was told to stop.
pub open spec fn stopped(notices: Seq<Seq<char>>) -> SolutionView {
    SolutionView {
        status: SolveStatus::Cancelled,
        choices: Seq::empty(),
        score: None,
        unresolved: notices,
        alternatives: Seq::empty(),
        alternatives_truncated: false,
    }
}

/// What an uninterrupted search answers.
pub open spec fn solved(
    requirements: Seq<RequirementView>,
    calendar: Option<TermCalendarView>,
) -> Result<SolutionView, Seq<char>> {
    match problem_fault(requirements, calendar) {
        Some(fault) => Err(fault),
        None => Ok(
            solution_of(problem_of(requirements, calendar), search_notices(requirements)),
        ),
    }
}

/// What a search answers if it is told to stop on the way.
pub open spec fn interrupted(
    requirements: Seq<RequirementView>,
    calendar: Option<TermCalendarView>,
    r: Result<SolutionView, Seq<char>>,
) -> bool {
    ||| r == Ok::<SolutionView, Seq<char>>(stopped(Seq::empty()))
    ||| problem_fault(requirements, calendar) is None && r == Ok::<SolutionView, Seq<char>>(
        stopped(search_notices(requirements)),
    )
}

fn cancelled_solution(unresolved: Vec<String>) -> (r: Solution)
    ensures
        r.deep_view() == stopped(unresolved.deep_view()),
{
    let r = Solution {
        status: SolveStatus::Cancelled,
        choices: Vec::new(),
        score: None,
        unresolved,
        alternatives: Vec::new(),
        alternatives_truncated: false,
    };
    assert(r.deep_view() =~= stopped(unresolved.deep_view()));
    r
}

fn is_date_sensitive(groups: &Vec<SearchGroup>) -> (r: bool)
    ensures
        r == date_sensitive(groups.deep_view()),
{
    let ghost views = groups.deep_view();
    let mut i: usize = 0;
    while i < groups.len()
        invariant
            i <= groups@.len(),
            views == groups.deep_view(),
            forall|x: int, y: int|
                0 <= x < i && 0 <= y < views[x].choices.len() ==> !any_date_limited(
                    (#[trigger] views[x].choices[y]).meetings,
                ),
        decreases groups@.len() - i,
    {
        let mut j: usize = 0;
        while j < groups[i].choices.len()
            invariant
                i < groups@.len(),
                views == groups.deep_view(),
                j <= groups@[i as int].choices@.len(),
                forall|y: int|
                    0 <= y < j ==> !any_date_limited(
                        (#[trigger] views[i as int].choices[y]).meetings,
                    ),
            decreases groups@[i as int].choices@.len() - j,
        {
            let choice = &groups[i].choices[j];
            proof {
                lemma_meetings_view(choice.meetings);
                assert(views[i as int].choices[j as int] == choice.deep_view());
            }
            if meetings_have_date_limits(choice.meetings.as_slice()) {
                return true;
            }
            j += 1;
        }
        i += 1;
    }
    false
}

fn any_bounded_pe(groups: &Vec<SearchGroup>, choices: &Vec<TimeChoice>) -> (r: bool)
    ensures
        r == chooses_bounded_pe(groups.deep_view(), choices.deep_view()),
{
    let ghost g = groups.deep_view();
    let ghost c = choices.deep_view();
    let mut i: usize = 0;
    while i < choices.len()
        invariant
            i <= choices@.len(),
            g == groups.deep_view(),
            c == choices.deep_view(),
            forall|x: int, y: int|
                0 <= x < i && 0 <= y < g.len() ==> !((#[trigger] g[y]).requirement_id == (
                #[trigger] c[x]).requirement_id && bounded_pe(g[y].kind, c[x].meetings)),
        decreases choices@.len() - i,
    {
        let choice = &choices[i];
        proof {
            lemma_meetings_view(choice.meetings);
            assert(c[i as int] == choice.deep_view());
        }
        let mut j: usize = 0;
        while j < groups.len()
            invariant
                i < choices@.len(),
                j <= groups@.len(),
                g == groups.deep_view(),
                c == choices.deep_view(),
                choice == choices@[i as int],
                c[i as int].meetings == choice.meetings@,
                c[i as int].requirement_id == choice.requirement_id@,
                forall|y: int|
                    0 <= y < j ==> !((#[trigger] g[y]).requirement_id == c[i as int].requirement_id
                        && bounded_pe(g[y].kind, c[i as int].meetings)),
            decreases groups@.len() - j,
        {
            assert(g[j as int] == groups@[j as int].deep_view());
            if groups[j].requirement_id == choice.requirement_id && bounded_pe_meetings(
                groups[j].kind.as_str(),
                choice.meetings.as_slice(),
            ) {
                return true;
            }
            j += 1;
        }
        i += 1;
    }
    false
}

/// What a search may answer that asks on the way whether to stop: `stops` if it can be told so,
/// `goes_on` if it can be told to go on.
pub open spec fn answers(
    requirements: Seq<RequirementView>,
    calendar: Option<TermCalendarView>,
    stops: bool,
    goes_on: bool,
    r: Result<SolutionView, Seq<char>>,
) -> bool {
    &&& r == solved(requirements, calendar) || (stops && interrupted(requirements, calendar, r))
    &&& goes_on || r == Ok::<SolutionView, Seq<char>>(stopped(Seq::empty()))
}

/// Finds the best timetable unless `stop` says to stop. If it never does, the search runs to its
/// end; if it always does, the answer is that of a search that did not begin.
pub fn solve_until<F: Fn() -> bool>(
    requirements: &[Requirement],
    calendar: Option<&TermCalendar>,
    stop: F,
) -> (r: Result<Solution, Error>)
    requires
        call_requires(stop, ()),
    ensures
        (forall|b: bool| call_ensures(stop, (), b) ==> !b) ==> outcome(r) == solved(
            requirements.deep_view(),
            calendar.deep_view(),
        ),
        (forall|b: bool| call_ensures(stop, (), b) ==> b) ==> outcome(r) == Ok::<
            SolutionView,
            Seq<char>,
        >(stopped(Seq::empty())),
        answers(
            requirements.deep_view(),
            calendar.deep_view(),
            call_ensures(stop, (), true),
            call_ensures(stop, (), false),
            outcome(r),
        ),
{
    if stop() {
        let nothing: Vec<String> = Vec::new();
        assert(nothing.deep_view() =~= Seq::empty());
        return Ok(cancelled_solution(nothing));
    }
    let (groups, unresolved) = match prepare(requirements, calendar) {
        Ok(prepared) => prepared,
        Err(error) => {
            return Err(error);
        },
    };
    if stop() {
        return Ok(cancelled_solution(unresolved));
    }
    let ghost unordered = groups@;
    let groups = sort_by(groups, group_may_precede, Ghost(group_le()));
    let ghost p = problem_of(requirements.deep_view(), calendar.deep_view());
    let ghost notices = unresolved.deep_view();
    let dated = is_date_sensitive(&groups);
    let search = Search { groups: &groups, calendar, dated };
    let mut best = Best { score: None, alternatives: Vec::new(), truncated: false };
    let mut selected: Vec<usize> = Vec::new();
    let occupancy = WeekBits::empty();
    let ghost listing = Seq::<Seq<TimeChoiceView>>::empty();
    proof {
        reveal(Seq::filter);
        assert(groups_wf(groups@));
        assert(search.problem() == p);
        assert(search.chosen(selected@) =~= Seq::empty());
        assert(best.alternatives.deep_view() =~= shown(optima(listing)));
        assert(listing + timetables(p) =~= timetables(p));
    }
    let cancelled = run(&search, &mut selected, &occupancy, &mut best, &stop, Ghost(listing));
    if cancelled || stop() {
        return Ok(cancelled_solution(unresolved));
    }
    proof {
        lemma_best_score(timetables(p));
        lemma_optima_nonempty(timetables(p));
    }
    let score = match best.score {
        Some(score) => score,
        None => {
            let r = Solution {
                status: SolveStatus::Infeasible,
                choices: Vec::new(),
                score: None,
                unresolved,
                alternatives: Vec::new(),
                alternatives_truncated: false,
            };
            assert(r.deep_view() =~= solution_of(p, notices));
            return Ok(r);
        },
    };
    assert(best.alternatives@.len() == best.alternatives.deep_view().len());
    let choices = duplicate_all(&best.alternatives[0]);
    assert(choices.deep_view() == best.alternatives.deep_view()[0]);
    let mut unresolved = unresolved;
    let pe = any_bounded_pe(&groups, &choices);
    if pe {
        unresolved.push(
            "selected bounded PE meetings use a combined weekly template for score, and date bounds constrain conflicts and calendar export".to_owned(),
        );
    }
    if best.truncated {
        unresolved.push(
            "only the first 1000 equally optimal timetables are listed; the others are omitted".to_owned(),
        );
    }
    if pe || best.truncated {
        proof {
            let more = (if pe {
                seq![pe_notice()]
            } else {
                Seq::empty()
            }) + (if best.truncated {
                seq![truncated_notice()]
            } else {
                Seq::empty()
            });
            assert(unresolved.deep_view() =~= notices + more);
        }
        unresolved = OrderedSet::from_vec(unresolved).into_vec();
    }
    let r = Solution {
        status: SolveStatus::OptimalKnown,
        choices,
        score: Some(score),
        unresolved,
        alternatives: best.alternatives,
        alternatives_truncated: best.truncated,
    };
    assert(r.deep_view() =~= solution_of(p, notices));
    Ok(r)
}

/// Finds the best timetable unless the flag is seen to be set.
fn solve_impl(
    requirements: &[Requirement],
    calendar: Option<&TermCalendar>,
    cancel: Option<&AtomicBool>,
) -> (r: Result<Solution, Error>)
    ensures
        answers(
            requirements.deep_view(),
            calendar.deep_view(),
            flag_reads(cancel, true),
            flag_reads(cancel, false),
            outcome(r),
        ),
{
    let stop = || -> (stop: bool)
        ensures
            flag_reads(cancel, stop),
        { is_cancelled(cancel) };
    solve_until(requirements, calendar, stop)
}

/// Some timetable has the best score unless there is none.
pub proof fn lemma_optima_nonempty(listing: Seq<Seq<TimeChoiceView>>)
    ensures
        optima(listing).len() == 0 <==> listing.len() == 0,
{
    lemma_best_score(listing);
    let pred = |t: Seq<TimeChoiceView>| Some(timetable_score(t)) == best_score(listing);
    listing.lemma_filter_len(pred);
    if listing.len() > 0 {
        let i = choose|i: int|
            0 <= i < listing.len() && timetable_score(#[trigger] listing[i]) == best_score(
                listing,
            )->0;
        listing.lemma_filter_contains(pred, i);
        assert(listing.filter(pred).contains(listing[i]));
    }
}

/// Finds the best timetable; dates count for conflicts by weekday alone.
pub fn solve(requirements: &[Requirement], cancel: Option<&AtomicBool>) -> (r: Result<
    Solution,
    Error,
>)
    ensures
        answers(
            requirements.deep_view(),
            None,
            flag_reads(cancel, true),
            flag_reads(cancel, false),
            outcome(r),
        ),
{
    solve_impl(requirements, None, cancel)
}

/// What is wrong with a calendar, if anything.
pub open spec fn calendar_fault(calendar: TermCalendarView) -> Option<Seq<char>> {
    if calendar.start > calendar.end {
        Some("calendar start follows end"@)
    } else if exists|i: int|
        0 <= i < calendar.alternate_days.len() && (#[trigger] calendar.alternate_days[i]).1 >= 7 {
        Some("alternate calendar weekdays must be Monday through Sunday"@)
    } else {
        None
    }
}

/// Checks that a calendar's dates are in order and its alternate days are weekdays.
pub fn check_calendar(calendar: &TermCalendar) -> (r: Result<(), Error>)
    ensures
        outcome(r) == (match calendar_fault(calendar.deep_view()) {
            Some(fault) => Err::<(), _>(fault),
            None => Ok(()),
        }),
{
    if calendar.start.is_after(&calendar.end) {
        return Err(Error::new("calendar start follows end"));
    }
    let weekdays = calendar.alternate_days.values();
    let ghost days = calendar.deep_view().alternate_days;
    let mut index: usize = 0;
    while index < weekdays.len()
        invariant
            index <= weekdays@.len(),
            weekdays@.len() == days.len(),
            days == calendar.deep_view().alternate_days,
            calendar.deep_view().start <= calendar.deep_view().end,
            forall|i: int| 0 <= i < weekdays@.len() ==> #[trigger] weekdays@[i] == days[i].1,
            forall|i: int| 0 <= i < index ==> (#[trigger] days[i]).1 < 7,
        decreases weekdays@.len() - index,
    {
        assert(weekdays@[index as int] == days[index as int].1);
        if weekdays[index] >= 7 {
            return Err(
                Error::new("alternate calendar weekdays must be Monday through Sunday"),
            );
        }
        index += 1;
    }
    Ok(())
}

/// Finds the best timetable; meetings conflict only on teaching days of the calendar.
pub fn solve_with_calendar(
    requirements: &[Requirement],
    calendar: &TermCalendar,
    cancel: Option<&AtomicBool>,
) -> (r: Result<Solution, Error>)
    ensures
        match calendar_fault(calendar.deep_view()) {
            Some(fault) => r is Err && (r->Err_0).deep_view() == fault,
            None => answers(
                requirements.deep_view(),
                Some(calendar.deep_view()),
                flag_reads(cancel, true),
                flag_reads(cancel, false),
                outcome(r),
            ),
        },
{
    match check_calendar(calendar) {
        Ok(_) => solve_impl(requirements, Some(calendar), cancel),
        Err(error) => Err(error),
    }
}

/// The time pattern and exclusions of a section.
pub type PatternKey = (Vec<Meeting>, Vec<String>);

pub open spec fn pattern(option: SectionOptionView) -> (Seq<Meeting>, Seq<Seq<char>>) {
    (canonical(option.meetings), option.incompatible_with)
}

pub open spec fn patterns(options: Seq<SectionOptionView>) -> Seq<(Seq<Meeting>, Seq<Seq<char>>)> {
    Seq::new(options.len(), |i: int| pattern(options[i]))
}

/// The order of members: by id, then label, then room.
pub open spec fn member_le() -> spec_fn(SectionOptionView, SectionOptionView) -> bool {
    |a: SectionOptionView, b: SectionOptionView|
        if a.id != b.id {
            text_before(a.id, b.id)
        } else if a.label != b.label {
            text_before(a.label, b.label)
        } else {
            !text_before(b.room, a.room)
        }
}

fn member_may_precede(a: &SectionOption, b: &SectionOption) -> (r: bool)
    ensures
        r == member_le()(a.deep_view(), b.deep_view()),
{
    if a.id != b.id {
        a.id.is_before(&b.id)
    } else if a.label != b.label {
        a.label.is_before(&b.label)
    } else {
        !b.room.is_before(&a.room)
    }
}

/// The members with a given pattern.
pub open spec fn pattern_members(
    options: Seq<SectionOptionView>,
    key: (Seq<Meeting>, Seq<Seq<char>>),
) -> Seq<SectionOptionView> {
    stable_sorted(options.filter(|option: SectionOptionView| pattern(option) == key), member_le())
}

/// The choices of one requirement by complete time pattern.
pub open spec fn grouped(requirement: RequirementView) -> Seq<TimeChoiceView> {
    let options = searchable_options(requirement);
    let keys = distinct_ascending::<PatternKey>(patterns(options));
    Seq::new(
        keys.len(),
        |i: int|
            TimeChoiceView {
                id: pattern_members(options, keys[i])[0].id,
                requirement_id: requirement.id,
                meetings: keys[i].0,
                members: pattern_members(options, keys[i]),
            },
    )
}

/// What is wrong with the first section that cannot be grouped.
pub open spec fn grouping_fault(kind: Seq<char>, options: Seq<SectionOptionView>) -> Option<
    Seq<char>,
>
    decreases options.len(),
{
    if options.len() == 0 {
        None
    } else {
        let last = options.last();
        match grouping_fault(kind, options.drop_last()) {
            Some(fault) => Some(fault),
            None => if first_meeting_fault(last.meetings) is Some {
                first_meeting_fault(last.meetings)
            } else if option_searchable(kind, last) && self_overlapping(
                None,
                canonical(last.meetings),
            ) {
                Some("meetings within one option overlap"@)
            } else {
                None
            },
        }
    }
}

proof fn lemma_grouping_fault_prefix(kind: Seq<char>, options: Seq<SectionOptionView>, n: int)
    requires
        0 <= n <= options.len(),
        grouping_fault(kind, options.take(n)) is Some,
    ensures
        grouping_fault(kind, options) == grouping_fault(kind, options.take(n)),
    decreases options.len() - n,
{
    if n == options.len() {
        assert(options.take(n) =~= options);
    } else {
        assert(options.take(n + 1).drop_last() =~= options.take(n));
        lemma_grouping_fault_prefix(kind, options, n + 1);
    }
}

/// Copies of the sections with a given pattern.
fn members_with(
    options: &Vec<SectionOption>,
    keys: &Vec<PatternKey>,
    key: &PatternKey,
) -> (r: Vec<SectionOption>)
    requires
        keys.deep_view() == patterns(options.deep_view()),
    ensures
        r.deep_view() == pattern_members(options.deep_view(), key.deep_view()),
{
    let ghost all = options.deep_view();
    let ghost wanted = key.deep_view();
    let ghost pred = |option: SectionOptionView| pattern(option) == wanted;
    let mut members: Vec<SectionOption> = Vec::new();
    let mut index: usize = 0;
    proof {
        reveal(Seq::filter);
        assert(all.take(0) =~= Seq::empty());
        assert(members.deep_view() =~= all.take(0).filter(pred));
        assert(keys.deep_view().len() == keys@.len());
    }
    while index < options.len()
        invariant
            index <= options@.len(),
            keys@.len() == options@.len(),
            all == options.deep_view(),
            wanted == key.deep_view(),
            pred == (|option: SectionOptionView| pattern(option) == wanted),
            keys.deep_view() == patterns(all),
            members.deep_view() == all.take(index as int).filter(pred),
        decreases options@.len() - index,
    {
        let ghost so_far = members.deep_view();
        proof {
            reveal(Seq::filter);
            assert(all.take(index + 1).drop_last() =~= all.take(index as int));
            assert(all.take(index + 1).last() == options@[index as int].deep_view());
            assert(keys@[index as int].deep_view() == patterns(all)[index as int]);
            lemma_meetings_view(keys@[index as int].0);
            lemma_meetings_view(key.0);
        }
        if same_meetings(&keys[index].0, &key.0) && same_texts(&keys[index].1, &key.1) {
            members.push(options[index].duplicate());
            assert(members.deep_view() =~= so_far.push(all[index as int]));
        }
        index += 1;
    }
    assert(all.take(index as int) =~= all);
    sort_by(members, member_may_precede, Ghost(member_le()))
}

/// Group one requirement by complete canonical time pattern.
///
/// `solve` performs stricter global grouping that also accounts for inbound
/// compatibility from other selected requirements. This standalone helper is
/// useful when no external pairing restrictions are in scope.
pub fn group(requirement: &Requirement) -> (r: Result<Vec<TimeChoice>, Error>)
    ensures
        outcome(r) == (match grouping_fault(
            requirement.kind@,
            requirement.options.deep_view(),
        ) {
            Some(fault) => Err(fault),
            None => Ok(grouped(requirement.deep_view())),
        }),
{
    let ghost view = requirement.deep_view();
    let ghost all = requirement.options.deep_view();
    let ghost pick = |option: SectionOptionView| option_searchable(view.kind, option);
    let mut options: Vec<SectionOption> = Vec::new();
    let mut keys: Vec<PatternKey> = Vec::new();
    let mut index: usize = 0;
    proof {
        reveal(Seq::filter);
        assert(all.take(0) =~= Seq::empty());
        assert(options.deep_view() =~= all.take(0).filter(pick));
        assert(keys.deep_view() =~= patterns(options.deep_view()));
    }
    while index < requirement.options.len()
        invariant
            index <= requirement.options@.len(),
            view == requirement.deep_view(),
            all == requirement.options.deep_view(),
            pick == (|option: SectionOptionView| option_searchable(view.kind, option)),
            grouping_fault(view.kind, all.take(index as int)) is None,
            options.deep_view() == all.take(index as int).filter(pick),
            keys.deep_view() == patterns(options.deep_view()),
        decreases requirement.options@.len() - index,
    {
        let option = &requirement.options[index];
        let ghost so_far = options.deep_view();
        let ghost known = keys.deep_view();
        proof {
            reveal(Seq::filter);
            assert(all.take(index + 1).drop_last() =~= all.take(index as int));
            assert(all.take(index + 1).last() == option.deep_view());
            lemma_meetings_view(option.meetings);
            if grouping_fault(view.kind, all.take(index + 1)) is Some {
                lemma_grouping_fault_prefix(view.kind, all, index + 1);
            }
        }
        let meetings = match canonical_meetings(&option.meetings) {
            Ok(meetings) => meetings,
            Err(error) => {
                return Err(error);
            },
        };
        if option_is_searchable(
            requirement.kind.as_str(),
            meetings.as_slice(),
            option.unsupported_reason.is_some(),
        ) {
            match ensure_no_internal_overlap(meetings.as_slice(), None) {
                Ok(_) => {},
                Err(error) => {
                    return Err(error);
                },
            }
            let outbound = duplicate_all(option.incompatible_with.items());
            proof {
                lemma_meetings_view(meetings);
            }
            let key = (meetings, outbound);
            options.push(option.duplicate());
            keys.push(key);
            proof {
                assert(options.deep_view() =~= so_far.push(option.deep_view()));
                assert(key.deep_view() == pattern(option.deep_view()));
                assert(keys.deep_view() =~= known.push(key.deep_view()));
                assert(keys.deep_view() =~= patterns(options.deep_view()));
            }
        }
        index += 1;
    }
    assert(all.take(index as int) =~= all);
    assert(options.deep_view() == searchable_options(view));
    let copies = duplicate_all(&keys);
    let distinct = OrderedSet::from_vec(copies).into_vec();
    let ghost order = distinct.deep_view();
    let mut choices: Vec<TimeChoice> = Vec::new();
    let mut at: usize = 0;
    assert(choices.deep_view() =~= grouped(view).take(0));
    while at < distinct.len()
        invariant
            at <= distinct@.len(),
            view == requirement.deep_view(),
            options.deep_view() == searchable_options(view),
            keys.deep_view() == patterns(options.deep_view()),
            order == distinct.deep_view(),
            order == distinct_ascending::<PatternKey>(patterns(searchable_options(view))),
            choices.deep_view() == grouped(view).take(at as int),
        decreases distinct@.len() - at,
    {
        let ghost so_far = choices.deep_view();
        let key = &distinct[at];
        let members = members_with(&options, &keys, key);
        proof {
            assert(order[at as int] == key.deep_view());
            lemma_pattern_used(searchable_options(view), order[at as int]);
            assert(members.deep_view().len() == members@.len());
            lemma_meetings_view(key.0);
        }
        let id = members[0].id.clone();
        assert(members.deep_view()[0] == members@[0].deep_view());
        choices.push(
            TimeChoice {
                id,
                requirement_id: requirement.id.clone(),
                meetings: duplicate_all(&key.0),
                members,
            },
        );
        proof {
            assert(choices.deep_view() =~= so_far.push(grouped(view)[at as int]));
            assert(choices.deep_view() =~= grouped(view).take(at + 1));
        }
        at += 1;
    }
    assert(grouped(view).take(at as int) =~= grouped(view));
    Ok(choices)
}

/// Every pattern in use has a member.
proof fn lemma_pattern_used(
    options: Seq<SectionOptionView>,
    key: (Seq<Meeting>, Seq<Seq<char>>),
)
    requires
        distinct_ascending::<PatternKey>(patterns(options)).contains(key),
    ensures
        pattern_members(options, key).len() > 0,
{
    crate::order::lemma_distinct_ascending::<PatternKey>(patterns(options));
    assert(patterns(options).contains(key));
    let i = choose|i: int| 0 <= i < patterns(options).len() && patterns(options)[i] == key;
    let pred = |option: SectionOptionView| pattern(option) == key;
    options.lemma_filter_contains(pred, i);
    lemma_sorted_elements(options.filter(pred), member_le());
}

/// A timetable fills every group with one of its choices, without conflicts or exclusions.
pub open spec fn feasible(p: Problem, timetable: Seq<TimeChoiceView>) -> bool {
    &&& timetable.len() == p.groups.len()
    &&& forall|i: int|
        0 <= i < timetable.len() ==> p.groups[i].choices.contains(#[trigger] timetable[i])
    &&& forall|i: int, j: int|
        #![trigger timetable[i], timetable[j]]
        0 <= i < j < timetable.len() ==> !choices_clash(
            p.calendar,
            p.dated,
            timetable[i],
            timetable[j],
        ) && compatible(timetable[i], timetable[j])
}

/// The timetable continues a selection choice by choice.
spec fn continues(p: Problem, selected: Seq<TimeChoiceView>, t: Seq<TimeChoiceView>) -> bool {
    &&& t.len() == p.groups.len()
    &&& selected.len() <= t.len()
    &&& t.take(selected.len() as int) == selected
    &&& forall|i: int|
        selected.len() <= i < t.len() ==> p.groups[i].choices.contains(#[trigger] t[i])
            && admissible(p.calendar, p.dated, t.take(i), t[i])
}

proof fn lemma_completions(p: Problem, selected: Seq<TimeChoiceView>, t: Seq<TimeChoiceView>)
    requires
        selected.len() <= p.groups.len(),
    ensures
        completions(p, selected).contains(t) <==> continues(p, selected, t),
    decreases p.groups.len() - selected.len(), 2 + p.groups[selected.len() as int].choices.len(),
{
    if selected.len() == p.groups.len() {
        assert(completions(p, selected)[0] == selected);
        if continues(p, selected, t) {
            assert(t.take(selected.len() as int) =~= t);
        } else if completions(p, selected).contains(t) {
            assert(t.take(selected.len() as int) =~= t);
        }
    } else {
        lemma_branches(p, selected, 0, t);
        if continues(p, selected, t) {
            let n = selected.len() as int;
            assert(p.groups[n].choices.contains(t[n]));
            let c = choose|c: int|
                0 <= c < p.groups[n].choices.len() && p.groups[n].choices[c] == t[n];
            assert(takes_from(p, selected, 0, t, c));
        }
    }
}

/// The timetable continues a selection with the choice at `c`.
spec fn takes_from(
    p: Problem,
    selected: Seq<TimeChoiceView>,
    from: int,
    t: Seq<TimeChoiceView>,
    c: int,
) -> bool {
    let n = selected.len() as int;
    &&& from <= c < p.groups[n].choices.len()
    &&& continues(p, selected, t)
    &&& t[n] == p.groups[n].choices[c]
}

proof fn lemma_branches(
    p: Problem,
    selected: Seq<TimeChoiceView>,
    from: int,
    t: Seq<TimeChoiceView>,
)
    requires
        selected.len() < p.groups.len(),
        0 <= from,
    ensures
        branches(p, selected, from).contains(t) <==> exists|c: int| #[trigger]
            takes_from(p, selected, from, t, c),
    decreases
            p.groups.len() - selected.len(),
            1 + p.groups[selected.len() as int].choices.len() - from,
{
    let n = selected.len() as int;
    let choices = p.groups[n].choices;
    if from < choices.len() {
        let choice = choices[from];
        let more = selected.push(choice);
        let here = if admissible(p.calendar, p.dated, selected, choice) {
            completions(p, more)
        } else {
            Seq::empty()
        };
        let later = branches(p, selected, from + 1);
        lemma_branches(p, selected, from + 1, t);
        if admissible(p.calendar, p.dated, selected, choice) {
            lemma_completions(p, more, t);
        }
        let whole = here + later;
        assert(branches(p, selected, from) == whole);
        assert(whole.contains(t) <==> here.contains(t) || later.contains(t)) by {
            if here.contains(t) {
                let i = choose|i: int| 0 <= i < here.len() && here[i] == t;
                assert(whole[i] == t);
            }
            if later.contains(t) {
                let i = choose|i: int| 0 <= i < later.len() && later[i] == t;
                assert(whole[here.len() + i] == t);
            }
            if whole.contains(t) {
                let i = choose|i: int| 0 <= i < whole.len() && whole[i] == t;
                if i < here.len() {
                    assert(here[i] == t);
                } else {
                    assert(later[i - here.len()] == t);
                }
            }
        }
        if here.contains(t) {
            assert(continues(p, more, t));
            assert(t[n] == t.take(n + 1)[n]);
            assert(t.take(n) =~= t.take(n + 1).take(n));
            assert(more.take(n) =~= selected);
            assert(choices.contains(choice));
            assert(continues(p, selected, t)) by {
                assert forall|i: int| n <= i < t.len() implies p.groups[i].choices.contains(
                    #[trigger] t[i],
                ) && admissible(p.calendar, p.dated, t.take(i), t[i]) by {
                    if i == n {
                        assert(t[n] == choice);
                    }
                }
            }
            assert(takes_from(p, selected, from, t, from));
        }
        if later.contains(t) {
            let c = choose|c: int| #[trigger] takes_from(p, selected, from + 1, t, c);
            assert(takes_from(p, selected, from, t, c));
        }
        if exists|c: int| #[trigger] takes_from(p, selected, from, t, c) {
            let c = choose|c: int| #[trigger] takes_from(p, selected, from, t, c);
            if c > from {
                assert(takes_from(p, selected, from + 1, t, c));
            } else {
                assert(t.take(n + 1) =~= more);
                assert(admissible(p.calendar, p.dated, t.take(n), t[n]));
                assert(continues(p, more, t));
            }
        }
    }
}

/// The search looks at exactly the feasible timetables.
pub proof fn law_search_is_exhaustive(p: Problem, timetable: Seq<TimeChoiceView>)
    ensures
        timetables(p).contains(timetable) <==> feasible(p, timetable),
{
    let t = timetable;
    let none = Seq::<TimeChoiceView>::empty();
    lemma_completions(p, none, t);
    if feasible(p, t) {
        assert(t.take(0) =~= none);
        assert forall|i: int| 0 <= i < t.len() implies p.groups[i].choices.contains(
            #[trigger] t[i],
        ) && admissible(p.calendar, p.dated, t.take(i), t[i]) by {
            assert forall|k: int| 0 <= k < i implies !choices_clash(
                p.calendar,
                p.dated,
                #[trigger] t.take(i)[k],
                t[i],
            ) && compatible(t.take(i)[k], t[i]) by {
                assert(t.take(i)[k] == t[k]);
            }
        }
    }
    if continues(p, none, t) {
        assert forall|i: int, j: int|
            #![trigger t[i], t[j]]
            0 <= i < j < t.len() implies !choices_clash(p.calendar, p.dated, t[i], t[j])
            && compatible(t[i], t[j]) by {
            assert(admissible(p.calendar, p.dated, t.take(j), t[j]));
            assert(t.take(j)[i] == t[i]);
        }
    }
}

/// A solution is infeasible exactly if no timetable is feasible. Otherwise it shows a feasible
/// timetable, no feasible one scores better, and the alternatives are feasible timetables that
/// score the same, the first being the one shown.
pub proof fn law_solution_is_optimal(p: Problem, notices: Seq<Seq<char>>)
    ensures
        ({
            let s = solution_of(p, notices);
            &&& s.status == SolveStatus::Infeasible <==> forall|t: Seq<TimeChoiceView>|
                !#[trigger] feasible(p, t)
            &&& s.status == SolveStatus::OptimalKnown ==> {
                &&& s.score is Some
                &&& s.alternatives.len() > 0
                &&& s.choices == s.alternatives[0]
                &&& forall|t: Seq<TimeChoiceView>| #[trigger]
                    feasible(p, t) ==> !better(timetable_score(t), s.score->0)
                &&& forall|i: int|
                    0 <= i < s.alternatives.len() ==> exists|t: Seq<TimeChoiceView>| #[trigger]
                        feasible(p, t) && timetable_score(t) == s.score->0 && arranged(t)
                            == #[trigger] s.alternatives[i]
            }
        }),
{
    let listing = timetables(p);
    let s = solution_of(p, notices);
    let best = optima(listing);
    lemma_best_score(listing);
    lemma_optima_nonempty(listing);
    assert forall|t: Seq<TimeChoiceView>| #[trigger] feasible(p, t) implies best.len() > 0
        && !better(timetable_score(t), best_score(listing)->0) by {
        law_search_is_exhaustive(p, t);
        let i = choose|i: int| 0 <= i < listing.len() && listing[i] == t;
        assert(!better(timetable_score(listing[i]), best_score(listing)->0));
    }
    let pred = |t: Seq<TimeChoiceView>| Some(timetable_score(t)) == best_score(listing);
    if best.len() > 0 {
        assert forall|i: int| 0 <= i < s.alternatives.len() implies exists|t: Seq<TimeChoiceView>|
            #[trigger]
            feasible(p, t) && timetable_score(t) == s.score->0 && arranged(t)
                == #[trigger] s.alternatives[i] by {
            let t = best[i];
            assert(best.contains(t));
            lemma_filtered(listing, pred, t);
            law_search_is_exhaustive(p, t);
            assert(feasible(p, t));
        }
        assert(best.contains(best[0]));
        lemma_filtered(listing, pred, best[0]);
        law_search_is_exhaustive(p, best[0]);
        assert(feasible(p, best[0]));
    }
}

proof fn lemma_classes<T, K>(s: Seq<T>, key: spec_fn(T) -> K, x: T)
    ensures
        s.contains(x) <==> exists|i: int|
            0 <= i < classes(s, key).len() && (#[trigger] classes(s, key)[i]).contains(x),
        forall|i: int|
            0 <= i < classes(s, key).len() ==> (#[trigger] classes(s, key)[i]).len() > 0,
        forall|i: int|
            #![trigger classes(s, key)[i]]
            0 <= i < classes(s, key).len() && classes(s, key)[i].contains(x) ==> key(x) == key(
                classes(s, key)[i][0],
            ),
    decreases s.len(),
{
    if s.len() > 0 {
        let same = |y: T| key(y) == key(s[0]);
        let other = |y: T| key(y) != key(s[0]);
        let first = s.filter(same);
        let rest = s.filter(other);
        lemma_class_shrinks(s, key);
        lemma_classes(rest, key, x);
        lemma_filtered(s, same, x);
        lemma_filtered(s, other, x);
        lemma_filtered(s, same, s[0]);
        assert(s.contains(s[0]));
        assert(first.contains(s[0]));
        assert(first.len() > 0);
        assert(first.contains(first[0]));
        lemma_filtered(s, same, first[0]);
        let all = classes(s, key);
        let later = classes(rest, key);
        assert(all =~= seq![first] + later);
        assert(all[0] == first);
        assert forall|i: int| 0 < i < all.len() implies #[trigger] all[i] == later[i - 1] by {}
        if rest.contains(x) {
            let i = choose|i: int| 0 <= i < later.len() && (#[trigger] later[i]).contains(x);
            assert(all[i + 1] == later[i]);
        }
        if exists|i: int| 0 <= i < all.len() && (#[trigger] all[i]).contains(x) {
            let i = choose|i: int| 0 <= i < all.len() && (#[trigger] all[i]).contains(x);
            if i > 0 {
                assert(later[i - 1].contains(x));
            }
        }
    }
}

/// Grouping keeps every section that can be placed: each is a member of some choice, a choice
/// has no other members, and its meetings are those of each member. So whichever member of a
/// choice is taken, the timetable stays as it is.
pub proof fn law_grouping_keeps_sections(
    all: Seq<Located>,
    requirement: RequirementView,
    option: SectionOptionView,
)
    ensures
        searchable_options(requirement).contains(option) <==> exists|i: int|
            0 <= i < group_of(all, requirement).choices.len() && (#[trigger] group_of(
                all,
                requirement,
            ).choices[i]).members.contains(option),
        forall|i: int|
            #![trigger group_of(all, requirement).choices[i]]
            0 <= i < group_of(all, requirement).choices.len() && group_of(
                all,
                requirement,
            ).choices[i].members.contains(option) ==> canonical(option.meetings) == group_of(
                all,
                requirement,
            ).choices[i].meetings,
{
    let key = |o: SectionOptionView| group_key(all, requirement.id, o);
    let sorted = stable_sorted(searchable_options(requirement), id_le());
    let sets = group_classes(all, requirement);
    let choices = group_of(all, requirement).choices;
    lemma_sorted_elements(searchable_options(requirement), id_le());
    lemma_classes(sorted, key, option);
    assert(sets == classes(sorted, key));
    assert forall|i: int| 0 <= i < choices.len() implies (#[trigger] choices[i]).members == sets[i]
        && choices[i].meetings == canonical(sets[i][0].meetings) by {}
    assert forall|i: int|
        #![trigger choices[i]]
        0 <= i < choices.len() && choices[i].members.contains(option) implies canonical(
        option.meetings,
    ) == choices[i].meetings by {
        assert(key(option) == key(sets[i][0]));
    }
    if searchable_options(requirement).contains(option) {
        let i = choose|i: int| 0 <= i < sets.len() && (#[trigger] sets[i]).contains(option);
        assert(choices[i].members.contains(option));
    }
    if exists|i: int| 0 <= i < choices.len() && (#[trigger] choices[i]).members.contains(option) {
        let i = choose|i: int|
            0 <= i < choices.len() && (#[trigger] choices[i]).members.contains(option);
        assert(sets[i].contains(option));
    }
}

/// A choice has members, and they cannot be told apart by their meetings and exclusions.
pub proof fn lemma_members_alike(
    all: Seq<Located>,
    requirement: RequirementView,
    c: int,
    option: SectionOptionView,
)
    requires
        0 <= c < group_of(all, requirement).choices.len(),
    ensures
        group_of(all, requirement).choices[c].requirement_id == requirement.id,
        group_of(all, requirement).choices[c].members.len() > 0,
        group_of(all, requirement).choices[c].members.contains(option) ==> group_key(
            all,
            requirement.id,
            option,
        ) == group_key(all, requirement.id, group_of(all, requirement).choices[c].members[0]),
{
    let key = |o: SectionOptionView| group_key(all, requirement.id, o);
    let sorted = stable_sorted(searchable_options(requirement), id_le());
    let sets = group_classes(all, requirement);
    lemma_classes(sorted, key, option);
    assert(sets == classes(sorted, key));
    assert(group_of(all, requirement).choices[c].members == sets[c]);
}

/// Unless alternatives were left out, every timetable with the best score is among them.
pub proof fn law_alternatives_are_complete(
    p: Problem,
    notices: Seq<Seq<char>>,
    timetable: Seq<TimeChoiceView>,
)
    requires
        feasible(p, timetable),
        solution_of(p, notices).score == Some(timetable_score(timetable)),
        !solution_of(p, notices).alternatives_truncated,
    ensures
        solution_of(p, notices).alternatives.contains(arranged(timetable)),
{
    let listing = timetables(p);
    let best = optima(listing);
    let pred = |t: Seq<TimeChoiceView>| Some(timetable_score(t)) == best_score(listing);
    law_search_is_exhaustive(p, timetable);
    lemma_filtered(listing, pred, timetable);
    let k = choose|k: int| 0 <= k < best.len() && best[k] == timetable;
    assert(solution_of(p, notices).alternatives[k] == arranged(timetable));
}

/// The choices of every group are different.
pub open spec fn choices_differ(p: Problem) -> bool {
    forall|g: int| 0 <= g < p.groups.len() ==> (#[trigger] p.groups[g]).choices.no_duplicates()
}

/// The search comes to every timetable once.
pub proof fn lemma_timetables_differ(p: Problem)
    requires
        choices_differ(p),
    ensures
        timetables(p).no_duplicates(),
{
    lemma_completions_differ(p, Seq::empty());
}

proof fn lemma_completions_differ(p: Problem, selected: Seq<TimeChoiceView>)
    requires
        choices_differ(p),
        selected.len() <= p.groups.len(),
    ensures
        completions(p, selected).no_duplicates(),
    decreases p.groups.len() - selected.len(), 2 + p.groups[selected.len() as int].choices.len(),
{
    if selected.len() < p.groups.len() {
        lemma_branches_differ(p, selected, 0);
    }
}

proof fn lemma_branches_differ(p: Problem, selected: Seq<TimeChoiceView>, from: int)
    requires
        choices_differ(p),
        selected.len() < p.groups.len(),
        0 <= from,
    ensures
        branches(p, selected, from).no_duplicates(),
    decreases
            p.groups.len() - selected.len(),
            1 + p.groups[selected.len() as int].choices.len() - from,
{
    let n = selected.len() as int;
    let choices = p.groups[n].choices;
    if from < choices.len() {
        let more = selected.push(choices[from]);
        let here = if admissible(p.calendar, p.dated, selected, choices[from]) {
            completions(p, more)
        } else {
            Seq::empty()
        };
        let later = branches(p, selected, from + 1);
        lemma_branches_differ(p, selected, from + 1);
        if admissible(p.calendar, p.dated, selected, choices[from]) {
            lemma_completions_differ(p, more);
        }
        let whole = here + later;
        assert forall|i: int, j: int|
            0 <= i < here.len() && 0 <= j < later.len() implies #[trigger] here[i]
            != #[trigger] later[j] by {
            assert(here.contains(here[i]));
            lemma_completions(p, more, here[i]);
            assert(here[i].take(n + 1)[n] == choices[from]);
            assert(later.contains(later[j]));
            lemma_branches(p, selected, from + 1, later[j]);
            let c = choose|c: int| #[trigger] takes_from(p, selected, from + 1, later[j], c);
            assert(choices[c] != choices[from]);
        }
        assert forall|i: int, j: int|
            0 <= i < whole.len() && 0 <= j < whole.len() && i != j implies whole[i]
            != whole[j] by {
            let m = here.len() as int;
            if i < m && j < m {
                assert(whole[i] == here[i] && whole[j] == here[j]);
            } else if i >= m && j >= m {
                assert(whole[i] == later[i - m] && whole[j] == later[j - m]);
            } else if i < m {
                assert(whole[i] == here[i] && whole[j] == later[j - m]);
            } else {
                assert(whole[j] == here[j] && whole[i] == later[i - m]);
            }
        }
    }
}

} // verus!
