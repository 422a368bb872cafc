//! Catalog data, meetings and the relations between them.
use vstd::prelude::*;
use crate::date::{lemma_date_number_injective, weekday_of, Date, LAST_DAY};
use crate::error::{outcome, Error};
use crate::order::{duplicate_all, lookup, Duplicate, OrderedMap, OrderedSet, Rank};
use crate::text::{eq_ignore_case, padded, padded_text, same_ignoring_case, trim, trimmed};

verus! {

/// One weekly meeting, optionally limited to a range of dates.
#[derive(Clone, Copy, Debug, PartialEq, Eq, PartialOrd, Ord, Structural)]
pub struct Meeting {
    /// Monday is 0.
    pub weekday: u8,
    pub start_minute: u16,
    pub end_minute: u16,
    pub start_date: Option<Date>,
    pub end_date: Option<Date>,
}

impl DeepView for Meeting {
    type V = Meeting;

    open spec fn deep_view(&self) -> Meeting {
        *self
    }
}

impl Duplicate for Meeting {
    fn duplicate(&self) -> (r: Self) {
        *self
    }
}

/// Where a section comes from.
#[derive(Clone, Copy, Debug, PartialEq, Eq, Structural)]
pub enum Source {
    Api,
    Manual,
}

/// One section that can fill a requirement.
#[derive(Clone, Debug, PartialEq, Eq)]
pub struct SectionOption {
    pub id: String,
    pub label: String,
    pub room: String,
    pub source: Source,
    pub meetings: Vec<Meeting>,
    pub incompatible_with: OrderedSet<String>,
    pub unsupported_reason: Option<String>,
}

#[verifier::ext_equal]
pub struct SectionOptionView {
    pub id: Seq<char>,
    pub label: Seq<char>,
    pub room: Seq<char>,
    pub source: Source,
    pub meetings: Seq<Meeting>,
    pub incompatible_with: Seq<Seq<char>>,
    pub unsupported_reason: Option<Seq<char>>,
}

impl DeepView for SectionOption {
    type V = SectionOptionView;

    open spec fn deep_view(&self) -> SectionOptionView {
        SectionOptionView {
            id: self.id@,
            label: self.label@,
            room: self.room@,
            source: self.source,
            meetings: self.meetings.deep_view(),
            incompatible_with: self.incompatible_with.deep_view(),
            unsupported_reason: self.unsupported_reason.deep_view(),
        }
    }
}

/// A copy of an optional text.
pub fn duplicate_text(text: &Option<String>) -> (r: Option<String>)
    ensures
        r.deep_view() == text.deep_view(),
{
    match text {
        Some(text) => Some(text.clone()),
        None => None,
    }
}

impl Duplicate for SectionOption {
    fn duplicate(&self) -> (r: Self) {
        SectionOption {
            id: self.id.clone(),
            label: self.label.clone(),
            room: self.room.clone(),
            source: self.source,
            meetings: duplicate_all(&self.meetings),
            incompatible_with: self.incompatible_with.duplicate(),
            unsupported_reason: duplicate_text(&self.unsupported_reason),
        }
    }
}

/// One component of a course of which one section has to be taken.
#[derive(Clone, Debug, PartialEq, Eq)]
pub struct Requirement {
    pub id: String,
    pub kind: String,
    pub options: Vec<SectionOption>,
    pub has_unknown_times: bool,
}

#[verifier::ext_equal]
pub struct RequirementView {
    pub id: Seq<char>,
    pub kind: Seq<char>,
    pub options: Seq<SectionOptionView>,
    pub has_unknown_times: bool,
}

impl DeepView for Requirement {
    type V = RequirementView;

    open spec fn deep_view(&self) -> RequirementView {
        RequirementView {
            id: self.id@,
            kind: self.kind@,
            options: self.options.deep_view(),
            has_unknown_times: self.has_unknown_times,
        }
    }
}

impl Duplicate for Requirement {
    fn duplicate(&self) -> (r: Self) {
        Requirement {
            id: self.id.clone(),
            kind: self.kind.clone(),
            options: duplicate_all(&self.options),
            has_unknown_times: self.has_unknown_times,
        }
    }
}

#[derive(Clone, Debug, PartialEq, Eq)]
pub struct Course {
    pub id: String,
    pub title: String,
    pub requirements: Vec<Requirement>,
    pub notices: Vec<String>,
}

#[verifier::ext_equal]
pub struct CourseView {
    pub id: Seq<char>,
    pub title: Seq<char>,
    pub requirements: Seq<RequirementView>,
    pub notices: Seq<Seq<char>>,
}

impl DeepView for Course {
    type V = CourseView;

    open spec fn deep_view(&self) -> CourseView {
        CourseView {
            id: self.id@,
            title: self.title@,
            requirements: self.requirements.deep_view(),
            notices: self.notices.deep_view(),
        }
    }
}

impl Duplicate for Course {
    fn duplicate(&self) -> (r: Self) {
        Course {
            id: self.id.clone(),
            title: self.title.clone(),
            requirements: duplicate_all(&self.requirements),
            notices: duplicate_all(&self.notices),
        }
    }
}

/// The teaching days of a term.
#[derive(Clone, Debug, PartialEq, Eq)]
pub struct TermCalendar {
    pub start: Date,
    pub end: Date,
    pub holidays: OrderedSet<Date>,
    /// Date -> weekday whose timetable is followed (Monday = 0).
    pub alternate_days: OrderedMap<Date, u8>,
}

/// Dates appear as day numbers.
#[verifier::ext_equal]
pub struct TermCalendarView {
    pub start: int,
    pub end: int,
    pub holidays: Seq<int>,
    pub alternate_days: Seq<(int, u8)>,
}

impl DeepView for TermCalendar {
    type V = TermCalendarView;

    open spec fn deep_view(&self) -> TermCalendarView {
        TermCalendarView {
            start: self.start.number(),
            end: self.end.number(),
            holidays: self.holidays.deep_view(),
            alternate_days: self.alternate_days.deep_view(),
        }
    }
}

impl Duplicate for u8 {
    fn duplicate(&self) -> (r: Self) {
        *self
    }
}

impl Duplicate for TermCalendar {
    fn duplicate(&self) -> (r: Self) {
        TermCalendar {
            start: self.start,
            end: self.end,
            holidays: self.holidays.duplicate(),
            alternate_days: self.alternate_days.duplicate(),
        }
    }
}

#[derive(Clone, Debug, PartialEq, Eq)]
pub struct Dataset {
    pub term_id: String,
    pub last_updated: String,
    pub calendar: Option<TermCalendar>,
    pub courses: OrderedMap<String, Course>,
    pub notices: Vec<String>,
}

#[verifier::ext_equal]
pub struct DatasetView {
    pub term_id: Seq<char>,
    pub last_updated: Seq<char>,
    pub calendar: Option<TermCalendarView>,
    pub courses: Seq<(Seq<char>, CourseView)>,
    pub notices: Seq<Seq<char>>,
}

impl DeepView for Dataset {
    type V = DatasetView;

    open spec fn deep_view(&self) -> DatasetView {
        DatasetView {
            term_id: self.term_id@,
            last_updated: self.last_updated@,
            calendar: self.calendar.deep_view(),
            courses: self.courses.deep_view(),
            notices: self.notices.deep_view(),
        }
    }
}

impl Duplicate for Dataset {
    fn duplicate(&self) -> (r: Self) {
        Dataset {
            term_id: self.term_id.clone(),
            last_updated: self.last_updated.clone(),
            calendar: match &self.calendar {
                Some(calendar) => Some(calendar.duplicate()),
                None => None,
            },
            courses: self.courses.duplicate(),
            notices: duplicate_all(&self.notices),
        }
    }
}

/// Sections with the same meetings, which the search treats as one.
#[derive(Clone, Debug, PartialEq, Eq)]
pub struct TimeChoice {
    pub id: String,
    pub requirement_id: String,
    pub meetings: Vec<Meeting>,
    pub members: Vec<SectionOption>,
}

#[verifier::ext_equal]
pub struct TimeChoiceView {
    pub id: Seq<char>,
    pub requirement_id: Seq<char>,
    pub meetings: Seq<Meeting>,
    pub members: Seq<SectionOptionView>,
}

impl DeepView for TimeChoice {
    type V = TimeChoiceView;

    open spec fn deep_view(&self) -> TimeChoiceView {
        TimeChoiceView {
            id: self.id@,
            requirement_id: self.requirement_id@,
            meetings: self.meetings.deep_view(),
            members: self.members.deep_view(),
        }
    }
}

impl Duplicate for TimeChoice {
    fn duplicate(&self) -> (r: Self) {
        TimeChoice {
            id: self.id.clone(),
            requirement_id: self.requirement_id.clone(),
            meetings: duplicate_all(&self.meetings),
            members: duplicate_all(&self.members),
        }
    }
}

/// What the search minimises: first the occupied days, then the gaps within them.
#[derive(Clone, Copy, Debug, PartialEq, Eq, PartialOrd, Ord, Structural)]
pub struct Score {
    pub occupied_days: u8,
    pub gap_minutes: u32,
}

#[derive(Clone, Copy, Debug, PartialEq, Eq, Structural)]
pub enum SolveStatus {
    OptimalKnown,
    Infeasible,
    Cancelled,
}

#[derive(Clone, Debug, PartialEq, Eq)]
pub struct Solution {
    pub status: SolveStatus,
    pub choices: Vec<TimeChoice>,
    pub score: Option<Score>,
    pub unresolved: Vec<String>,
    /// Every equally good assignment in search order, the first being `choices`.
    pub alternatives: Vec<Vec<TimeChoice>>,
    /// Whether equally good assignments were left out of `alternatives`.
    pub alternatives_truncated: bool,
}

#[verifier::ext_equal]
pub struct SolutionView {
    pub status: SolveStatus,
    pub choices: Seq<TimeChoiceView>,
    pub score: Option<Score>,
    pub unresolved: Seq<Seq<char>>,
    pub alternatives: Seq<Seq<TimeChoiceView>>,
    pub alternatives_truncated: bool,
}

impl DeepView for Solution {
    type V = SolutionView;

    open spec fn deep_view(&self) -> SolutionView {
        SolutionView {
            status: self.status,
            choices: self.choices.deep_view(),
            score: self.score,
            unresolved: self.unresolved.deep_view(),
            alternatives: self.alternatives.deep_view(),
            alternatives_truncated: self.alternatives_truncated,
        }
    }
}

/// A section that the user added to a course.
#[derive(Clone, Debug, PartialEq, Eq)]
pub struct ManualEntry {
    pub term_id: String,
    pub course_id: String,
    pub kind: String,
    pub option: SectionOption,
    pub enabled: bool,
}

#[verifier::ext_equal]
pub struct ManualEntryView {
    pub term_id: Seq<char>,
    pub course_id: Seq<char>,
    pub kind: Seq<char>,
    pub option: SectionOptionView,
    pub enabled: bool,
}

impl DeepView for ManualEntry {
    type V = ManualEntryView;

    open spec fn deep_view(&self) -> ManualEntryView {
        ManualEntryView {
            term_id: self.term_id@,
            course_id: self.course_id@,
            kind: self.kind@,
            option: self.option.deep_view(),
            enabled: self.enabled,
        }
    }
}

impl Duplicate for ManualEntry {
    fn duplicate(&self) -> (r: Self) {
        ManualEntry {
            term_id: self.term_id.clone(),
            course_id: self.course_id.clone(),
            kind: self.kind.clone(),
            option: self.option.duplicate(),
            enabled: self.enabled,
        }
    }
}

#[derive(Clone, Debug, PartialEq, Eq)]
pub struct ManualStore {
    pub version: u32,
    pub entries: Vec<ManualEntry>,
}

#[verifier::ext_equal]
pub struct ManualStoreView {
    pub version: u32,
    pub entries: Seq<ManualEntryView>,
}

impl DeepView for ManualStore {
    type V = ManualStoreView;

    open spec fn deep_view(&self) -> ManualStoreView {
        ManualStoreView { version: self.version, entries: self.entries.deep_view() }
    }
}

impl Default for ManualStore {
    fn default() -> (r: Self)
        ensures
            r.version == 1,
            r.entries@ == Seq::<ManualEntry>::empty(),
    {
        ManualStore { version: 1, entries: Vec::new() }
    }
}

/// Actual member selected after optimization. Switching it must preserve TimeChoice.
#[derive(Clone, Debug, PartialEq, Eq)]
pub struct ChosenSection {
    pub course_id: String,
    pub course_title: String,
    pub kind: String,
    pub section: SectionOption,
}

#[verifier::ext_equal]
pub struct ChosenSectionView {
    pub course_id: Seq<char>,
    pub course_title: Seq<char>,
    pub kind: Seq<char>,
    pub section: SectionOptionView,
}

impl DeepView for ChosenSection {
    type V = ChosenSectionView;

    open spec fn deep_view(&self) -> ChosenSectionView {
        ChosenSectionView {
            course_id: self.course_id@,
            course_title: self.course_title@,
            kind: self.kind@,
            section: self.section.deep_view(),
        }
    }
}

/// The reason why a meeting is not valid, if it is not.
pub open spec fn meeting_fault(m: Meeting) -> Option<Seq<char>> {
    if m.weekday >= 7 {
        Some("weekday must be Monday through Sunday"@)
    } else if !(m.start_minute < m.end_minute && m.end_minute <= 1440) {
        Some("meeting must satisfy 00:00 <= start < end <= 24:00"@)
    } else if m.start_date is Some && m.end_date is Some && m.start_date->0.number()
        > m.end_date->0.number() {
        Some("meeting start date follows end date"@)
    } else {
        None
    }
}

/// A weekday, times within a day in order, and a range of dates in order.
pub open spec fn meeting_valid(m: Meeting) -> bool {
    &&& m.weekday < 7
    &&& m.start_minute < m.end_minute <= 1440
    &&& m.start_date is Some && m.end_date is Some ==> m.start_date->0.number()
        <= m.end_date->0.number()
}

/// The short name of a weekday.
pub open spec fn day_name(weekday: int) -> Seq<char> {
    if weekday == 0 {
        "Mon"@
    } else if weekday == 1 {
        "Tue"@
    } else if weekday == 2 {
        "Wed"@
    } else if weekday == 3 {
        "Thu"@
    } else if weekday == 4 {
        "Fri"@
    } else if weekday == 5 {
        "Sat"@
    } else if weekday == 6 {
        "Sun"@
    } else {
        "?"@
    }
}

pub fn day_name_text(weekday: u8) -> (r: &'static str)
    ensures
        r@ == day_name(weekday as int),
{
    if weekday == 0 {
        "Mon"
    } else if weekday == 1 {
        "Tue"
    } else if weekday == 2 {
        "Wed"
    } else if weekday == 3 {
        "Thu"
    } else if weekday == 4 {
        "Fri"
    } else if weekday == 5 {
        "Sat"
    } else if weekday == 6 {
        "Sun"
    } else {
        "?"
    }
}

/// A minute of the day as `HH:MM`.
pub open spec fn clock(minute: int) -> Seq<char> {
    padded((minute / 60) as nat, 2) + ":"@ + padded((minute % 60) as nat, 2)
}

pub fn clock_text(minute: u16) -> (r: String)
    ensures
        r@ == clock(minute as int),
{
    let mut out = padded_text((minute / 60) as u64, 2);
    out.append(":");
    out.append(padded_text((minute % 60) as u64, 2).as_str());
    out
}

/// The weekday and the times of a meeting.
pub open spec fn meeting_text(m: Meeting) -> Seq<char> {
    day_name(m.weekday as int) + " "@ + clock(m.start_minute as int) + "-"@ + clock(
        m.end_minute as int,
    )
}

impl Meeting {
    pub fn validate(&self) -> (r: Result<(), Error>)
        ensures
            outcome(r) == (match meeting_fault(*self) {
                Some(fault) => Err::<(), _>(fault),
                None => Ok(()),
            }),
            r is Ok <==> meeting_valid(*self),
    {
        if self.weekday >= 7 {
            return Err(Error::new("weekday must be Monday through Sunday"));
        }
        if !(self.start_minute < self.end_minute && self.end_minute <= 1440) {
            return Err(Error::new("meeting must satisfy 00:00 <= start < end <= 24:00"));
        }
        if let (Some(start), Some(end)) = (self.start_date, self.end_date) {
            if start.is_after(&end) {
                return Err(Error::new("meeting start date follows end date"));
            }
        }
        Ok(())
    }

    pub fn display(&self) -> (r: String)
        ensures
            r@ == meeting_text(*self),
    {
        let mut out = day_name_text(self.weekday).to_owned();
        out.append(" ");
        out.append(clock_text(self.start_minute).as_str());
        out.append("-");
        out.append(clock_text(self.end_minute).as_str());
        out
    }
}

/// A physical education component.
pub open spec fn pe_kind(kind: Seq<char>) -> bool {
    same_ignoring_case(trimmed(kind), "pe"@)
}

pub fn is_pe_kind(kind: &str) -> (r: bool)
    ensures
        r == pe_kind(kind@),
{
    eq_ignore_case(trim(kind).as_str(), "pe")
}

/// A meeting that does not run for the whole term.
pub open spec fn date_limited(m: Meeting) -> bool {
    m.start_date is Some || m.end_date is Some
}

pub fn meeting_has_date_limit(meeting: &Meeting) -> (r: bool)
    ensures
        r == date_limited(*meeting),
{
    meeting.start_date.is_some() || meeting.end_date.is_some()
}

pub open spec fn any_date_limited(meetings: Seq<Meeting>) -> bool {
    exists|i: int| 0 <= i < meetings.len() && date_limited(#[trigger] meetings[i])
}

pub fn meetings_have_date_limits(meetings: &[Meeting]) -> (r: bool)
    ensures
        r == any_date_limited(meetings@),
{
    let mut index: usize = 0;
    while index < meetings.len()
        invariant
            index <= meetings@.len(),
            forall|i: int| 0 <= i < index ==> !date_limited(#[trigger] meetings@[i]),
        decreases meetings@.len() - index,
    {
        if meeting_has_date_limit(&meetings[index]) {
            return true;
        }
        index += 1;
    }
    false
}

/// Both dates are given and in order.
pub open spec fn date_bounded(m: Meeting) -> bool {
    m.start_date is Some && m.end_date is Some && m.start_date->0.number()
        <= m.end_date->0.number()
}

pub fn meeting_has_complete_date_bounds(meeting: &Meeting) -> (r: bool)
    ensures
        r == date_bounded(*meeting),
{
    match (meeting.start_date, meeting.end_date) {
        (Some(start), Some(end)) => !start.is_after(&end),
        _ => false,
    }
}

/// Physical education whose meetings are all valid and bounded by dates.
pub open spec fn bounded_pe(kind: Seq<char>, meetings: Seq<Meeting>) -> bool {
    &&& pe_kind(kind)
    &&& meetings.len() > 0
    &&& forall|i: int|
        0 <= i < meetings.len() ==> date_bounded(#[trigger] meetings[i]) && meeting_valid(
            meetings[i],
        )
}

pub fn bounded_pe_meetings(kind: &str, meetings: &[Meeting]) -> (r: bool)
    ensures
        r == bounded_pe(kind@, meetings@),
{
    if !is_pe_kind(kind) || meetings.len() == 0 {
        return false;
    }
    let mut index: usize = 0;
    while index < meetings.len()
        invariant
            index <= meetings@.len(),
            forall|i: int|
                0 <= i < index ==> date_bounded(#[trigger] meetings@[i]) && meeting_valid(
                    meetings@[i],
                ),
        decreases meetings@.len() - index,
    {
        if !meeting_has_complete_date_bounds(&meetings[index]) || meetings[index].validate().is_err() {
            return false;
        }
        index += 1;
    }
    true
}

/// The same weekday, at times that overlap.
pub open spec fn times_overlap(left: Meeting, right: Meeting) -> bool {
    &&& left.weekday == right.weekday
    &&& left.start_minute < right.end_minute
    &&& right.start_minute < left.end_minute
    &&& left.start_minute < left.end_minute
    &&& right.start_minute < right.end_minute
}

fn meeting_times_overlap(left: &Meeting, right: &Meeting) -> (r: bool)
    ensures
        r == times_overlap(*left, *right),
{
    let start: u16 = if left.start_minute >= right.start_minute {
        left.start_minute
    } else {
        right.start_minute
    };
    let end: u16 = if left.end_minute <= right.end_minute {
        left.end_minute
    } else {
        right.end_minute
    };
    left.weekday == right.weekday && start < end
}

/// Some day from `first` to `last` falls on `weekday`.
pub open spec fn weekday_occurs(weekday: int, first: int, last: int) -> bool {
    exists|day: int| first <= day <= last && #[trigger] weekday_of(day) == weekday
}

fn natural_weekday_occurs(weekday: u8, first: Date, last: Date) -> (r: bool)
    ensures
        r == weekday_occurs(weekday as int, first.number(), last.number()),
{
    let mut date = first;
    let limit: i32 = last.days();
    while !date.is_after(&last)
        invariant
            first.number() <= date.number(),
            limit == last.number() <= LAST_DAY,
            forall|day: int|
                first.number() <= day < date.number() ==> #[trigger] weekday_of(day) != weekday,
        decreases last.number() - date.number() + 1,
    {
        if date.weekday() == weekday {
            assert(weekday_of(date.number()) == weekday);
            return true;
        }
        match date.next() {
            Some(next) => {
                date = next;
            },
            None => {
                return false;
            },
        }
    }
    false
}

/// The range of dates that two meetings share holds a day on which they meet, as far as
/// their dates are known.
pub open spec fn natural_windows_overlap(left: Meeting, right: Meeting) -> bool {
    let weekday = left.weekday as int;
    if date_complete(left) && date_complete(right) {
        weekday_occurs(
            weekday,
            later(left.start_date->0.number(), right.start_date->0.number()),
            earlier(left.end_date->0.number(), right.end_date->0.number()),
        )
    } else if date_complete(left) && !date_limited(right) {
        weekday_occurs(weekday, left.start_date->0.number(), left.end_date->0.number())
    } else if date_complete(right) && !date_limited(left) {
        weekday_occurs(weekday, right.start_date->0.number(), right.end_date->0.number())
    } else {
        true
    }
}

/// Both dates are given.
pub open spec fn date_complete(m: Meeting) -> bool {
    m.start_date is Some && m.end_date is Some
}

pub open spec fn later(a: int, b: int) -> int {
    if a >= b {
        a
    } else {
        b
    }
}

pub open spec fn earlier(a: int, b: int) -> int {
    if a <= b {
        a
    } else {
        b
    }
}

fn natural_date_windows_overlap(left: &Meeting, right: &Meeting) -> (r: bool)
    ensures
        r == natural_windows_overlap(*left, *right),
{
    match (left.start_date, left.end_date, right.start_date, right.end_date) {
        (
            Some(left_start),
            Some(left_end),
            Some(right_start),
            Some(right_end),
        ) => natural_weekday_occurs(
            left.weekday,
            left_start.max(right_start),
            left_end.min(right_end),
        ),
        (Some(start), Some(end), None, None) => natural_weekday_occurs(left.weekday, start, end),
        (None, None, Some(start), Some(end)) => natural_weekday_occurs(left.weekday, start, end),
        _ => true,
    }
}

/// The meetings coincide on some day, going by the dates alone.
pub open spec fn natural_overlap(left: Meeting, right: Meeting) -> bool {
    times_overlap(left, right) && natural_windows_overlap(left, right)
}

pub fn natural_meetings_overlap(left: &Meeting, right: &Meeting) -> (r: bool)
    ensures
        r == natural_overlap(*left, *right),
{
    meeting_times_overlap(left, right) && natural_date_windows_overlap(left, right)
}

/// Two different meetings of the list are related.
pub open spec fn any_pair(meetings: Seq<Meeting>, related: spec_fn(Meeting, Meeting) -> bool) -> bool {
    exists|i: int, j: int|
        0 <= i < j < meetings.len() && #[trigger] related(meetings[i], meetings[j])
}

pub open spec fn internal_natural_overlap(meetings: Seq<Meeting>) -> bool {
    any_pair(meetings, |left: Meeting, right: Meeting| natural_overlap(left, right))
}

pub fn meetings_have_internal_natural_overlap(meetings: &[Meeting]) -> (r: bool)
    ensures
        r == internal_natural_overlap(meetings@),
{
    let ghost related = |left: Meeting, right: Meeting| natural_overlap(left, right);
    let mut i: usize = 0;
    while i < meetings.len()
        invariant
            related == (|left: Meeting, right: Meeting| natural_overlap(left, right)),
            i <= meetings@.len(),
            forall|a: int, b: int|
                0 <= a < i && a < b < meetings@.len() ==> !#[trigger] related(
                    meetings@[a],
                    meetings@[b],
                ),
        decreases meetings@.len() - i,
    {
        let mut j: usize = i + 1;
        while j < meetings.len()
            invariant
                related == (|left: Meeting, right: Meeting| natural_overlap(left, right)),
                i < j <= meetings@.len(),
                forall|b: int|
                    i < b < j ==> !#[trigger] related(meetings@[i as int], meetings@[b]),
            decreases meetings@.len() - j,
        {
            if natural_meetings_overlap(&meetings[i], &meetings[j]) {
                assert(related(meetings@[i as int], meetings@[j as int]));
                return true;
            }
            j += 1;
        }
        i += 1;
    }
    false
}

/// The first day of a meeting within the term.
pub open spec fn window_start(calendar: TermCalendarView, m: Meeting) -> int {
    match m.start_date {
        Some(date) => later(date.number(), calendar.start),
        None => calendar.start,
    }
}

/// The last day of a meeting within the term.
pub open spec fn window_end(calendar: TermCalendarView, m: Meeting) -> int {
    match m.end_date {
        Some(date) => earlier(date.number(), calendar.end),
        None => calendar.end,
    }
}

/// The weekday whose timetable is followed on a day.
pub open spec fn followed_weekday(calendar: TermCalendarView, day: int) -> int {
    match lookup(calendar.alternate_days, day) {
        Some(weekday) => weekday as int,
        None => weekday_of(day),
    }
}

/// A teaching day that follows the timetable of `weekday`.
pub open spec fn taught(calendar: TermCalendarView, day: int, weekday: int) -> bool {
    !calendar.holidays.contains(day) && followed_weekday(calendar, day) == weekday
}

pub fn effective_weekday(calendar: &TermCalendar, date: Date) -> (r: u8)
    ensures
        r == followed_weekday(calendar.deep_view(), date.number()),
{
    match calendar.alternate_days.get(&date) {
        Some(weekday) => *weekday,
        None => date.weekday(),
    }
}

/// The meetings coincide on some teaching day of the term.
pub open spec fn calendar_overlap(
    calendar: TermCalendarView,
    left: Meeting,
    right: Meeting,
) -> bool {
    &&& times_overlap(left, right)
    &&& exists|day: int|
        {
            &&& window_start(calendar, left) <= day <= window_end(calendar, left)
            &&& window_start(calendar, right) <= day <= window_end(calendar, right)
            &&& #[trigger] taught(calendar, day, left.weekday as int)
        }
}

fn clipped_meeting_window(calendar: &TermCalendar, meeting: &Meeting) -> (r: Option<(Date, Date)>)
    ensures
        r is Some <==> window_start(calendar.deep_view(), *meeting) <= window_end(
            calendar.deep_view(),
            *meeting,
        ),
        r is Some ==> (r->0).0.number() == window_start(calendar.deep_view(), *meeting)
            && (r->0).1.number() == window_end(calendar.deep_view(), *meeting),
{
    let start = match meeting.start_date {
        Some(date) => date.max(calendar.start),
        None => calendar.start,
    };
    let end = match meeting.end_date {
        Some(date) => date.min(calendar.end),
        None => calendar.end,
    };
    if start.is_after(&end) {
        None
    } else {
        Some((start, end))
    }
}

pub fn calendar_meetings_overlap(calendar: &TermCalendar, left: &Meeting, right: &Meeting) -> (r:
    bool)
    ensures
        r == calendar_overlap(calendar.deep_view(), *left, *right),
{
    if !meeting_times_overlap(left, right) {
        return false;
    }
    let (left_start, left_end) = match clipped_meeting_window(calendar, left) {
        Some(window) => window,
        None => {
            return false;
        },
    };
    let (right_start, right_end) = match clipped_meeting_window(calendar, right) {
        Some(window) => window,
        None => {
            return false;
        },
    };
    let first = left_start.max(right_start);
    let end = left_end.min(right_end);
    let limit: i32 = end.days();
    let mut date = first;
    while !date.is_after(&end)
        invariant
            first.number() <= date.number(),
            limit == end.number() <= LAST_DAY,
            first.number() == later(left_start.number(), right_start.number()),
            end.number() == earlier(left_end.number(), right_end.number()),
            left_start.number() == window_start(calendar.deep_view(), *left),
            left_end.number() == window_end(calendar.deep_view(), *left),
            right_start.number() == window_start(calendar.deep_view(), *right),
            right_end.number() == window_end(calendar.deep_view(), *right),
            times_overlap(*left, *right),
            forall|day: int|
                first.number() <= day < date.number() ==> !#[trigger] taught(
                    calendar.deep_view(),
                    day,
                    left.weekday as int,
                ),
        decreases end.number() - date.number() + 1,
    {
        if !calendar.holidays.contains(&date) && effective_weekday(calendar, date)
            == left.weekday {
            assert(taught(calendar.deep_view(), date.number(), left.weekday as int));
            return true;
        }
        match date.next() {
            Some(next) => {
                date = next;
            },
            None => {
                return false;
            },
        }
    }
    false
}

pub open spec fn internal_calendar_overlap(
    calendar: TermCalendarView,
    meetings: Seq<Meeting>,
) -> bool {
    any_pair(meetings, |left: Meeting, right: Meeting| calendar_overlap(calendar, left, right))
}

pub fn meetings_have_internal_calendar_overlap(
    calendar: &TermCalendar,
    meetings: &[Meeting],
) -> (r: bool)
    ensures
        r == internal_calendar_overlap(calendar.deep_view(), meetings@),
{
    let ghost view = calendar.deep_view();
    let ghost related = |left: Meeting, right: Meeting| calendar_overlap(view, left, right);
    let mut i: usize = 0;
    while i < meetings.len()
        invariant
            view == calendar.deep_view(),
            related == (|left: Meeting, right: Meeting| calendar_overlap(view, left, right)),
            i <= meetings@.len(),
            forall|a: int, b: int|
                0 <= a < i && a < b < meetings@.len() ==> !#[trigger] related(
                    meetings@[a],
                    meetings@[b],
                ),
        decreases meetings@.len() - i,
    {
        let mut j: usize = i + 1;
        while j < meetings.len()
            invariant
                view == calendar.deep_view(),
                related == (|left: Meeting, right: Meeting| calendar_overlap(view, left, right)),
                i < j <= meetings@.len(),
                forall|b: int|
                    i < b < j ==> !#[trigger] related(meetings@[i as int], meetings@[b]),
            decreases meetings@.len() - j,
        {
            if calendar_meetings_overlap(calendar, &meetings[i], &meetings[j]) {
                assert(related(meetings@[i as int], meetings@[j as int]));
                return true;
            }
            j += 1;
        }
        i += 1;
    }
    false
}

/// The ranges of dates have a day in common, as far as both are known.
pub open spec fn windows_overlap(left: Meeting, right: Meeting) -> bool {
    date_complete(left) && date_complete(right) ==> left.start_date->0.number()
        <= right.end_date->0.number() && right.start_date->0.number()
        <= left.end_date->0.number()
}

fn date_windows_overlap(left: &Meeting, right: &Meeting) -> (r: bool)
    ensures
        r == windows_overlap(*left, *right),
{
    match (left.start_date, left.end_date, right.start_date, right.end_date) {
        (Some(left_start), Some(left_end), Some(right_start), Some(right_end)) => {
            !left_start.is_after(&right_end) && !right_start.is_after(&left_end)
        },
        _ => true,
    }
}

/// The times overlap and so do the ranges of dates.
pub open spec fn window_overlap(left: Meeting, right: Meeting) -> bool {
    times_overlap(left, right) && windows_overlap(left, right)
}

pub fn date_window_meetings_overlap(left: &Meeting, right: &Meeting) -> (r: bool)
    ensures
        r == window_overlap(*left, *right),
{
    meeting_times_overlap(left, right) && date_windows_overlap(left, right)
}

pub open spec fn internal_window_overlap(meetings: Seq<Meeting>) -> bool {
    any_pair(meetings, |left: Meeting, right: Meeting| window_overlap(left, right))
}

pub fn meetings_have_internal_date_window_overlap(meetings: &[Meeting]) -> (r: bool)
    ensures
        r == internal_window_overlap(meetings@),
{
    let ghost related = |left: Meeting, right: Meeting| window_overlap(left, right);
    let mut i: usize = 0;
    while i < meetings.len()
        invariant
            related == (|left: Meeting, right: Meeting| window_overlap(left, right)),
            i <= meetings@.len(),
            forall|a: int, b: int|
                0 <= a < i && a < b < meetings@.len() ==> !#[trigger] related(
                    meetings@[a],
                    meetings@[b],
                ),
        decreases meetings@.len() - i,
    {
        let mut j: usize = i + 1;
        while j < meetings.len()
            invariant
                related == (|left: Meeting, right: Meeting| window_overlap(left, right)),
                i < j <= meetings@.len(),
                forall|b: int|
                    i < b < j ==> !#[trigger] related(meetings@[i as int], meetings@[b]),
            decreases meetings@.len() - j,
        {
            if date_window_meetings_overlap(&meetings[i], &meetings[j]) {
                assert(related(meetings@[i as int], meetings@[j as int]));
                return true;
            }
            j += 1;
        }
        i += 1;
    }
    false
}

/// It does not matter which of two meetings comes first in any of the three relations.
pub proof fn law_overlap_is_symmetric(calendar: TermCalendarView, left: Meeting, right: Meeting)
    ensures
        natural_overlap(left, right) == natural_overlap(right, left),
        calendar_overlap(calendar, left, right) == calendar_overlap(calendar, right, left),
        window_overlap(left, right) == window_overlap(right, left),
{
    if calendar_overlap(calendar, left, right) {
        let day = choose|day: int|
            {
                &&& window_start(calendar, left) <= day <= window_end(calendar, left)
                &&& window_start(calendar, right) <= day <= window_end(calendar, right)
                &&& #[trigger] taught(calendar, day, left.weekday as int)
            };
        assert(taught(calendar, day, right.weekday as int));
    }
    if calendar_overlap(calendar, right, left) {
        let day = choose|day: int|
            {
                &&& window_start(calendar, right) <= day <= window_end(calendar, right)
                &&& window_start(calendar, left) <= day <= window_end(calendar, left)
                &&& #[trigger] taught(calendar, day, right.weekday as int)
            };
        assert(taught(calendar, day, left.weekday as int));
    }
}

/// The earlier of two meetings in the order of their fields; a missing date comes first.
pub open spec fn meeting_before(a: Meeting, b: Meeting) -> bool {
    if a.weekday != b.weekday {
        a.weekday < b.weekday
    } else if a.start_minute != b.start_minute {
        a.start_minute < b.start_minute
    } else if a.end_minute != b.end_minute {
        a.end_minute < b.end_minute
    } else if a.start_date != b.start_date {
        date_before(a.start_date, b.start_date)
    } else {
        date_before(a.end_date, b.end_date)
    }
}

pub open spec fn date_before(a: Option<Date>, b: Option<Date>) -> bool {
    match (a, b) {
        (_, None) => false,
        (None, Some(_)) => true,
        (Some(a), Some(b)) => a.number() < b.number(),
    }
}

fn is_date_before(a: Option<Date>, b: Option<Date>) -> (r: bool)
    ensures
        r == date_before(a, b),
{
    match (a, b) {
        (_, None) => false,
        (None, Some(_)) => true,
        (Some(a), Some(b)) => b.is_after(&a),
    }
}

impl Rank for Meeting {
    open spec fn before(a: Meeting, b: Meeting) -> bool {
        meeting_before(a, b)
    }

    proof fn before_irreflexive(a: Meeting) {
    }

    proof fn before_transitive(a: Meeting, b: Meeting, c: Meeting) {
        broadcast use lemma_date_number_injective;

    }

    proof fn before_total(a: Meeting, b: Meeting) {
        broadcast use lemma_date_number_injective;

        if a.start_date is Some && b.start_date is Some {
            assert(a.start_date->0.number() == b.start_date->0.number() ==> a.start_date
                == b.start_date);
        }
        if a.end_date is Some && b.end_date is Some {
            assert(a.end_date->0.number() == b.end_date->0.number() ==> a.end_date == b.end_date);
        }
    }

    fn is_before(&self, other: &Self) -> (r: bool) {
        if self.weekday != other.weekday {
            self.weekday < other.weekday
        } else if self.start_minute != other.start_minute {
            self.start_minute < other.start_minute
        } else if self.end_minute != other.end_minute {
            self.end_minute < other.end_minute
        } else if self.start_date != other.start_date {
            is_date_before(self.start_date, other.start_date)
        } else {
            is_date_before(self.end_date, other.end_date)
        }
    }
}

} // verus!
