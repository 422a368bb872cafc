//! Manual sections: their notation, their rules, and how they join the catalog.
use vstd::prelude::*;
use crate::error::{outcome, Error};
use crate::model::{
    any_date_limited, bounded_pe, bounded_pe_meetings, internal_calendar_overlap,
    internal_natural_overlap, internal_window_overlap, is_pe_kind, meeting_fault,
    meetings_have_date_limits, meetings_have_internal_calendar_overlap,
    meetings_have_internal_date_window_overlap, meetings_have_internal_natural_overlap, pe_kind,
    Course, CourseView, Dataset, DatasetView, ManualEntry, ManualEntryView, ManualStore,
    ManualStoreView, Meeting, Requirement, RequirementView, SectionOption, SectionOptionView,
    Source, TermCalendar, TermCalendarView,
};
use crate::optimizer::{canonical, first_meeting_fault, id_le, lemma_meetings_view, sorted_meetings};
use crate::order::{
    distinct_ascending, duplicate_all, lookup, map_insert, sort_by, stable_sorted, Duplicate,
    OrderedSet, Rank,
};
use crate::text::{
    all_numeric, any_char, ascii_lowercase, begins_with, chars_of, decimal, decimal_text,
    digits_value, has_whitespace, is_all_numeric, lower_case, lowercase, lowered, same_text, split,
    split_first, split_once_text, split_text, split_words, starts_with, trim, trimmed, whitespace,
    words,
};

verus! {

/// The weekday that a name or abbreviation stands for, Monday being 0.
pub open spec fn weekday_named(text: Seq<char>) -> Option<u8> {
    let name = lowered(trimmed(text));
    if name == "m"@ || name == "mon"@ || name == "monday"@ {
        Some(0)
    } else if name == "t"@ || name == "tu"@ || name == "tue"@ || name == "tues"@ || name
        == "tuesday"@ {
        Some(1)
    } else if name == "w"@ || name == "wed"@ || name == "weds"@ || name == "wednesday"@ {
        Some(2)
    } else if name == "r"@ || name == "th"@ || name == "thu"@ || name == "thur"@ || name
        == "thurs"@ || name == "thursday"@ {
        Some(3)
    } else if name == "f"@ || name == "fri"@ || name == "friday"@ {
        Some(4)
    } else if name == "sa"@ || name == "sat"@ || name == "saturday"@ {
        Some(5)
    } else if name == "su"@ || name == "sun"@ || name == "sunday"@ {
        Some(6)
    } else {
        None
    }
}

pub open spec fn read_weekday(text: Seq<char>) -> Result<u8, Seq<char>> {
    match weekday_named(text) {
        Some(weekday) => Ok(weekday),
        None => Err("unknown weekday "@ + text),
    }
}

pub fn parse_weekday(text: &str) -> (r: Result<u8, Error>)
    ensures
        outcome(r) == read_weekday(text@),
{
    let name = ascii_lowercase(trim(text).as_str());
    let name = name.as_str();
    if same_text(name, "m") || same_text(name, "mon") || same_text(name, "monday") {
        Ok(0)
    } else if same_text(name, "t") || same_text(name, "tu") || same_text(name, "tue") || same_text(
        name,
        "tues",
    ) || same_text(name, "tuesday") {
        Ok(1)
    } else if same_text(name, "w") || same_text(name, "wed") || same_text(name, "weds")
        || same_text(name, "wednesday") {
        Ok(2)
    } else if same_text(name, "r") || same_text(name, "th") || same_text(name, "thu") || same_text(
        name,
        "thur",
    ) || same_text(name, "thurs") || same_text(name, "thursday") {
        Ok(3)
    } else if same_text(name, "f") || same_text(name, "fri") || same_text(name, "friday") {
        Ok(4)
    } else if same_text(name, "sa") || same_text(name, "sat") || same_text(name, "saturday") {
        Ok(5)
    } else if same_text(name, "su") || same_text(name, "sun") || same_text(name, "sunday") {
        Ok(6)
    } else {
        let mut message = "unknown weekday ".to_owned();
        message.append(text);
        Err(Error { message })
    }
}

/// The minute of the day that `H:MM` or `HH:MM` stands for.
pub open spec fn read_time(text: Seq<char>) -> Result<u16, Seq<char>> {
    match split_first(trimmed(text), ':') {
        None => Err("time must be HH:MM"@),
        Some((hour, minute)) => if !(1 <= hour.len() <= 2 && minute.len() == 2 && all_numeric(hour)
            && all_numeric(minute)) {
            Err("time must be H:MM or HH:MM"@)
        } else if digits_value(hour) > 24 {
            Err("hour must be 0 through 24"@)
        } else if digits_value(minute) >= 60 {
            Err("minute must be 0 through 59"@)
        } else if digits_value(hour) == 24 && digits_value(minute) != 0 {
            Err("24 hour is only valid as 24:00"@)
        } else {
            Ok((digits_value(hour) * 60 + digits_value(minute)) as u16)
        },
    }
}

/// The number that one or two digits stand for.
fn short_number(digits: &Vec<char>) -> (r: u16)
    requires
        1 <= digits@.len() <= 2,
        all_numeric(digits@),
    ensures
        r == digits_value(digits@),
        r < 100,
{
    proof {
        assert(digits@.drop_last().len() < 2);
        reveal_with_fuel(digits_value, 3);
    }
    let first: u16 = digits[0] as u16 - 48;
    if digits.len() == 1 {
        first
    } else {
        assert(digits@.drop_last()[0] == digits@[0]);
        first * 10 + (digits[1] as u16 - 48)
    }
}

pub fn parse_time(text: &str) -> (r: Result<u16, Error>)
    ensures
        outcome(r) == read_time(text@),
        r is Ok ==> r->Ok_0 <= 1440,
{
    let (hour, minute) = match split_once_text(trim(text).as_str(), ':') {
        Some(parts) => parts,
        None => {
            return Err(Error::new("time must be HH:MM"));
        },
    };
    let hour = chars_of(hour.as_str());
    let minute = chars_of(minute.as_str());
    if !(1 <= hour.len() && hour.len() <= 2 && minute.len() == 2 && is_all_numeric(&hour)
        && is_all_numeric(&minute)) {
        return Err(Error::new("time must be H:MM or HH:MM"));
    }
    let hour = short_number(&hour);
    let minute = short_number(&minute);
    if hour > 24 {
        return Err(Error::new("hour must be 0 through 24"));
    }
    if minute >= 60 {
        return Err(Error::new("minute must be 0 through 59"));
    }
    if hour == 24 && minute != 0 {
        return Err(Error::new("24 hour is only valid as 24:00"));
    }
    Ok(hour * 60 + minute)
}

/// The meeting that the part with number `number` of a notation stands for.
pub open spec fn read_meeting(part: Seq<char>, number: nat) -> Result<Meeting, Seq<char>> {
    let n = decimal(number);
    let fields = words(trimmed(part));
    if trimmed(part).len() == 0 {
        Err("meeting "@ + n + " is empty"@)
    } else if fields.len() == 0 {
        Err("meeting "@ + n + " is missing weekday"@)
    } else if fields.len() == 1 {
        Err("meeting "@ + n + " is missing time range"@)
    } else if fields.len() > 2 {
        Err("meeting "@ + n + " has extra text"@)
    } else {
        match split_first(fields[1], '-') {
            None => Err("meeting "@ + n + " time range must be START-END"@),
            Some((start, end)) => match read_weekday(fields[0]) {
                Err(fault) => Err("invalid weekday in meeting "@ + n + ": "@ + fault),
                Ok(weekday) => match read_time(start) {
                    Err(fault) => Err("invalid start time in meeting "@ + n + ": "@ + fault),
                    Ok(start_minute) => match read_time(end) {
                        Err(fault) => Err("invalid end time in meeting "@ + n + ": "@ + fault),
                        Ok(end_minute) => {
                            let meeting = Meeting {
                                weekday,
                                start_minute,
                                end_minute,
                                start_date: None,
                                end_date: None,
                            };
                            match meeting_fault(meeting) {
                                Some(fault) => Err(
                                    "invalid time range in meeting "@ + n + ": "@ + fault,
                                ),
                                None => Ok(meeting),
                            }
                        },
                    },
                },
            },
        }
    }
}

/// The text `<start><number><rest>`.
fn numbered(start: &str, number: usize, rest: &str) -> (r: String)
    ensures
        r@ == start@ + decimal(number as nat) + rest@,
{
    let mut out = start.to_owned();
    out.append(decimal_text(number as u64).as_str());
    out.append(rest);
    out
}

fn parse_meeting(part: &str, number: usize) -> (r: Result<Meeting, Error>)
    ensures
        outcome(r) == read_meeting(part@, number as nat),
{
    let part = trim(part);
    if part.as_str().is_empty() {
        return Err(Error { message: numbered("meeting ", number, " is empty") });
    }
    let fields = split_words(part.as_str());
    assert(fields.deep_view().len() == fields@.len());
    if fields.len() == 0 {
        return Err(Error { message: numbered("meeting ", number, " is missing weekday") });
    }
    if fields.len() == 1 {
        return Err(Error { message: numbered("meeting ", number, " is missing time range") });
    }
    if fields.len() > 2 {
        return Err(Error { message: numbered("meeting ", number, " has extra text") });
    }
    assert(fields.deep_view()[0] == fields@[0]@ && fields.deep_view()[1] == fields@[1]@);
    let (start, end) = match split_once_text(fields[1].as_str(), '-') {
        Some(range) => range,
        None => {
            return Err(
                Error { message: numbered("meeting ", number, " time range must be START-END") },
            );
        },
    };
    let weekday = match parse_weekday(fields[0].as_str()) {
        Ok(weekday) => weekday,
        Err(error) => {
            return Err(in_meeting(error, "invalid weekday in meeting ", number));
        },
    };
    let start_minute = match parse_time(start.as_str()) {
        Ok(minute) => minute,
        Err(error) => {
            return Err(in_meeting(error, "invalid start time in meeting ", number));
        },
    };
    let end_minute = match parse_time(end.as_str()) {
        Ok(minute) => minute,
        Err(error) => {
            return Err(in_meeting(error, "invalid end time in meeting ", number));
        },
    };
    let meeting = Meeting { weekday, start_minute, end_minute, start_date: None, end_date: None };
    match meeting.validate() {
        Ok(_) => Ok(meeting),
        Err(error) => Err(in_meeting(error, "invalid time range in meeting ", number)),
    }
}

/// An error in the meeting with a number.
fn in_meeting(error: Error, start: &str, number: usize) -> (r: Error)
    ensures
        r.deep_view() == start@ + decimal(number as nat) + ": "@ + error.deep_view(),
{
    let mut context = start.to_owned();
    context.append(decimal_text(number as u64).as_str());
    error.within(context.as_str())
}

/// The meetings that the parts of a notation stand for, in order.
pub open spec fn read_parts(parts: Seq<Seq<char>>) -> Result<Seq<Meeting>, Seq<char>>
    decreases parts.len(),
{
    if parts.len() == 0 {
        Ok(Seq::empty())
    } else {
        match read_parts(parts.drop_last()) {
            Err(fault) => Err(fault),
            Ok(meetings) => match read_meeting(parts.last(), parts.len()) {
                Err(fault) => Err(fault),
                Ok(meeting) => Ok(meetings.push(meeting)),
            },
        }
    }
}

/// The meetings that a notation such as `Mon 09:00-10:00; Wed 09:00-10:00` stands for.
pub open spec fn read_meetings(text: Seq<char>) -> Result<Seq<Meeting>, Seq<char>> {
    match read_parts(split(text, ';')) {
        Err(fault) => Err(fault),
        Ok(meetings) => Ok(distinct_ascending::<Meeting>(meetings)),
    }
}

proof fn lemma_read_parts_prefix(parts: Seq<Seq<char>>, n: int)
    requires
        0 <= n <= parts.len(),
        read_parts(parts.take(n)) is Err,
    ensures
        read_parts(parts) == read_parts(parts.take(n)),
    decreases parts.len() - n,
{
    if n == parts.len() {
        assert(parts.take(n) =~= parts);
    } else {
        assert(parts.take(n + 1).drop_last() =~= parts.take(n));
        lemma_read_parts_prefix(parts, n + 1);
    }
}

/// Reads a notation such as `Mon 09:00-10:00; Wed 09:00-10:00`; the meetings come out in order
/// and without repetitions.
pub fn parse_meetings(text: &str) -> (r: Result<Vec<Meeting>, Error>)
    ensures
        outcome(r) == read_meetings(text@),
{
    let parts = split_text(text, ';');
    let ghost views = parts.deep_view();
    let mut meetings: Vec<Meeting> = Vec::new();
    let mut index: usize = 0;
    assert(views.take(0) =~= Seq::empty());
    while index < parts.len()
        invariant
            index <= parts@.len(),
            views == parts.deep_view(),
            views == split(text@, ';'),
            read_parts(views.take(index as int)) == Ok::<Seq<Meeting>, Seq<char>>(meetings@),
        decreases parts@.len() - index,
    {
        proof {
            assert(views.take(index + 1).drop_last() =~= views.take(index as int));
            assert(views.take(index + 1).last() == parts@[index as int]@);
            if read_parts(views.take(index + 1)) is Err {
                lemma_read_parts_prefix(views, index + 1);
            }
        }
        match parse_meeting(parts[index].as_str(), index + 1) {
            Ok(meeting) => {
                meetings.push(meeting);
            },
            Err(error) => {
                return Err(error);
            },
        }
        index += 1;
    }
    assert(views.take(index as int) =~= views);
    proof {
        lemma_meetings_view(meetings);
    }
    Ok(OrderedSet::from_vec(meetings).into_vec())
}

/// What is wrong with a manual entry, if anything.
pub open spec fn entry_fault(entry: ManualEntryView) -> Option<Seq<char>> {
    let option = entry.option;
    let name = "manual entry "@ + option.id;
    if trimmed(entry.term_id).len() == 0 {
        Some("manual entry term_id is empty"@)
    } else if trimmed(entry.course_id).len() == 0 {
        Some("manual entry course_id is empty"@)
    } else if trimmed(entry.kind).len() == 0 || lower_case(trimmed(entry.kind))
        != entry.kind {
        Some("manual entry kind must be nonempty, trimmed, and lowercase"@)
    } else if option.source != Source::Manual {
        Some(name + " must have manual source"@)
    } else if !(begins_with(option.id, "manual-"@) && option.id.len() > "manual-"@.len()
        && !any_char(option.id, |c: char| whitespace(c))) {
        Some(
            "manual entry id must start with manual- and contain a nonempty identifier without whitespace"@,
        )
    } else if trimmed(option.label).len() == 0 {
        Some(name + " label is empty"@)
    } else if option.meetings.len() == 0 {
        Some(name + " has no meetings"@)
    } else if option.incompatible_with.contains(option.id) {
        Some("manual entry cannot be incompatible with itself"@)
    } else if first_meeting_fault(option.meetings) is Some {
        Some(name + " has invalid meeting"@ + ": "@ + first_meeting_fault(option.meetings)->0)
    } else if canonical(option.meetings) != option.meetings {
        Some(name + " meetings must be sorted"@)
    } else if pe_kind(entry.kind) {
        if !bounded_pe(entry.kind, option.meetings) {
            Some(name + " with kind pe must have complete start/end date bounds"@)
        } else if option.unsupported_reason is Some {
            Some(
                name + " with kind pe and complete bounds must not be marked unsupported"@,
            )
        } else if internal_window_overlap(option.meetings) {
            Some(name + " has overlapping meetings"@)
        } else {
            None
        }
    } else if any_date_limited(option.meetings) {
        if option.unsupported_reason is None {
            Some(name + " with date bounds must be marked unsupported"@)
        } else {
            None
        }
    } else if internal_natural_overlap(option.meetings) {
        Some(name + " has overlapping meetings"@)
    } else {
        None
    }
}

/// The refusal of a manual entry: `manual entry <id><rest>`.
fn refused(id: &str, rest: &str) -> (r: Error)
    ensures
        r.deep_view() == "manual entry "@ + id@ + rest@,
{
    let mut message = "manual entry ".to_owned();
    message.append(id);
    message.append(rest);
    Error { message }
}

/// The first meeting that is not valid stops the check.
pub fn validate_meetings(meetings: &Vec<Meeting>) -> (r: Result<(), Error>)
    ensures
        outcome(r) == (match first_meeting_fault(meetings@) {
            Some(fault) => Err::<(), _>(fault),
            None => Ok(()),
        }),
{
    let mut index: usize = 0;
    assert(meetings@.take(0) =~= Seq::empty());
    while index < meetings.len()
        invariant
            index <= meetings@.len(),
            first_meeting_fault(meetings@.take(index as int)) is None,
        decreases meetings@.len() - index,
    {
        assert(meetings@.take(index + 1).drop_last() =~= meetings@.take(index as int));
        match meetings[index].validate() {
            Ok(_) => {},
            Err(error) => {
                proof {
                    crate::optimizer::lemma_first_fault_prefix(meetings@, index + 1);
                }
                return Err(error);
            },
        }
        index += 1;
    }
    assert(meetings@.take(index as int) =~= meetings@);
    Ok(())
}

pub fn validate_manual_entry(entry: &ManualEntry) -> (r: Result<(), Error>)
    ensures
        outcome(r) == (match entry_fault(entry.deep_view()) {
            Some(fault) => Err::<(), _>(fault),
            None => Ok(()),
        }),
{
    let option = &entry.option;
    let id = option.id.as_str();
    let meetings = option.meetings.as_slice();
    proof {
        lemma_meetings_view(option.meetings);
    }
    if trim(entry.term_id.as_str()).as_str().is_empty() {
        return Err(Error::new("manual entry term_id is empty"));
    }
    if trim(entry.course_id.as_str()).as_str().is_empty() {
        return Err(Error::new("manual entry course_id is empty"));
    }
    let kind = trim(entry.kind.as_str());
    if kind.as_str().is_empty() || lowercase(kind.as_str()) != entry.kind {
        return Err(Error::new("manual entry kind must be nonempty, trimmed, and lowercase"));
    }
    if option.source != Source::Manual {
        return Err(refused(id, " must have manual source"));
    }
    if !(starts_with(id, "manual-") && chars_of(id).len() > chars_of("manual-").len()
        && !has_whitespace(id)) {
        return Err(
            Error::new(
                "manual entry id must start with manual- and contain a nonempty identifier without whitespace",
            ),
        );
    }
    if trim(option.label.as_str()).as_str().is_empty() {
        return Err(refused(id, " label is empty"));
    }
    if option.meetings.len() == 0 {
        return Err(refused(id, " has no meetings"));
    }
    if option.incompatible_with.contains(&option.id) {
        return Err(Error::new("manual entry cannot be incompatible with itself"));
    }
    match validate_meetings(&option.meetings) {
        Ok(_) => {},
        Err(error) => {
            let context = refused(id, " has invalid meeting").message;
            return Err(error.within(context.as_str()));
        },
    }
    if !crate::optimizer::same_meetings(&sorted_meetings(&option.meetings), &option.meetings) {
        return Err(refused(id, " meetings must be sorted"));
    }
    if is_pe_kind(entry.kind.as_str()) {
        if !bounded_pe_meetings(entry.kind.as_str(), meetings) {
            return Err(refused(id, " with kind pe must have complete start/end date bounds"));
        }
        if option.unsupported_reason.is_some() {
            return Err(
                refused(id, " with kind pe and complete bounds must not be marked unsupported"),
            );
        }
        if meetings_have_internal_date_window_overlap(meetings) {
            return Err(refused(id, " has overlapping meetings"));
        }
    } else if meetings_have_date_limits(meetings) {
        if option.unsupported_reason.is_none() {
            return Err(refused(id, " with date bounds must be marked unsupported"));
        }
    } else if meetings_have_internal_natural_overlap(meetings) {
        return Err(refused(id, " has overlapping meetings"));
    }
    Ok(())
}

/// What identifies a manual entry.
pub open spec fn entry_key(entry: ManualEntryView) -> (Seq<char>, Seq<char>) {
    (entry.term_id, entry.option.id)
}

pub open spec fn entry_keys(entries: Seq<ManualEntryView>) -> Seq<(Seq<char>, Seq<char>)> {
    Seq::new(entries.len(), |i: int| entry_key(entries[i]))
}

/// What is wrong with the first entry that is faulty or repeats an earlier one.
pub open spec fn entries_fault(entries: Seq<ManualEntryView>) -> Option<Seq<char>>
    decreases entries.len(),
{
    if entries.len() == 0 {
        None
    } else {
        let entry = entries.last();
        match entries_fault(entries.drop_last()) {
            Some(fault) => Some(fault),
            None => if entry_fault(entry) is Some {
                entry_fault(entry)
            } else if entry_keys(entries.drop_last()).contains(entry_key(entry)) {
                Some(
                    "duplicate manual entry "@ + entry.option.id + " for "@ + entry.course_id
                        + "/"@ + entry.kind + " in "@ + entry.term_id,
                )
            } else {
                None
            },
        }
    }
}

/// What is wrong with a manual store, if anything.
pub open spec fn store_fault(store: ManualStoreView) -> Option<Seq<char>> {
    if store.version != 1 {
        Some("unsupported manual store version "@ + decimal(store.version as nat))
    } else {
        entries_fault(store.entries)
    }
}

proof fn lemma_entries_fault_prefix(entries: Seq<ManualEntryView>, n: int)
    requires
        0 <= n <= entries.len(),
        entries_fault(entries.take(n)) is Some,
    ensures
        entries_fault(entries) == entries_fault(entries.take(n)),
    decreases entries.len() - n,
{
    if n == entries.len() {
        assert(entries.take(n) =~= entries);
    } else {
        assert(entries.take(n + 1).drop_last() =~= entries.take(n));
        lemma_entries_fault_prefix(entries, n + 1);
    }
}

pub fn validate_manual_store(store: &ManualStore) -> (r: Result<(), Error>)
    ensures
        outcome(r) == (match store_fault(store.deep_view()) {
            Some(fault) => Err::<(), _>(fault),
            None => Ok(()),
        }),
{
    if store.version != 1 {
        let mut message = "unsupported manual store version ".to_owned();
        message.append(decimal_text(store.version as u64).as_str());
        return Err(Error { message });
    }
    let ghost views = store.entries.deep_view();
    let mut seen: OrderedSet<(String, String)> = OrderedSet::new();
    let mut index: usize = 0;
    proof {
        assert(views.take(0) =~= Seq::empty());
        assert(entry_keys(views.take(0)) =~= Seq::empty());
    }
    while index < store.entries.len()
        invariant
            store.version == 1,
            index <= store.entries@.len(),
            views == store.entries.deep_view(),
            entries_fault(views.take(index as int)) is None,
            forall|key: (Seq<char>, Seq<char>)| #[trigger]
                seen.deep_view().contains(key) <==> entry_keys(views.take(index as int)).contains(
                    key,
                ),
        decreases store.entries@.len() - index,
    {
        let entry = &store.entries[index];
        let ghost done = views.take(index as int);
        let ghost next = views.take(index + 1);
        proof {
            assert(next.drop_last() =~= done);
            assert(next.last() == entry.deep_view());
            if entries_fault(next) is Some {
                lemma_entries_fault_prefix(views, index + 1);
            }
        }
        match validate_manual_entry(entry) {
            Ok(_) => {},
            Err(error) => {
                return Err(error);
            },
        }
        let key = (entry.term_id.clone(), entry.option.id.clone());
        let ghost so_far = seen.deep_view();
        if !seen.insert(key) {
            let mut message = "duplicate manual entry ".to_owned();
            message.append(entry.option.id.as_str());
            message.append(" for ");
            message.append(entry.course_id.as_str());
            message.append("/");
            message.append(entry.kind.as_str());
            message.append(" in ");
            message.append(entry.term_id.as_str());
            return Err(Error { message });
        }
        proof {
            let k = entry_key(entry.deep_view());
            crate::order::lemma_set_insert::<(String, String)>(so_far, k);
            assert(entry_keys(next) =~= entry_keys(done).push(k));
            assert forall|key: (Seq<char>, Seq<char>)| #[trigger]
                seen.deep_view().contains(key) <==> entry_keys(next).contains(key) by {
                assert(so_far.contains(key) <==> entry_keys(done).contains(key));
                if entry_keys(done).contains(key) {
                    let i = choose|i: int|
                        0 <= i < entry_keys(done).len() && entry_keys(done)[i] == key;
                    assert(entry_keys(next)[i] == key);
                }
                assert(entry_keys(next)[index as int] == k);
                if entry_keys(next).contains(key) && key != k {
                    let i = choose|i: int|
                        0 <= i < entry_keys(next).len() && entry_keys(next)[i] == key;
                    assert(entry_keys(done)[i] == key);
                }
            }
        }
        index += 1;
    }
    assert(views.take(index as int) =~= views);
    Ok(())
}

/// The position of the first entry of a term with an id, the length if there is none.
pub open spec fn entry_position(
    entries: Seq<ManualEntryView>,
    term_id: Seq<char>,
    id: Seq<char>,
) -> int
    decreases entries.len(),
{
    if entries.len() == 0 || entry_key(entries[0]) == (term_id, id) {
        0
    } else {
        1 + entry_position(entries.drop_first(), term_id, id)
    }
}

/// The first entry of a term with an id.
pub open spec fn entry_with(entries: Seq<ManualEntryView>, term_id: Seq<char>, id: Seq<char>) -> Option<
    ManualEntryView,
> {
    if entry_position(entries, term_id, id) < entries.len() {
        Some(entries[entry_position(entries, term_id, id)])
    } else {
        None
    }
}

/// The position of the first entry of a term with an id, the length if there is none.
pub fn find_entry(entries: &Vec<ManualEntry>, term_id: &String, id: &String) -> (r: usize)
    ensures
        r == entry_position(entries.deep_view(), term_id@, id@),
        r <= entries@.len(),
{
    let ghost all = entries.deep_view();
    let mut index: usize = 0;
    assert(all.skip(0) =~= all);
    while index < entries.len() && !(entries[index].term_id == *term_id && entries[index].option.id
        == *id)
        invariant
            all == entries.deep_view(),
            index <= entries@.len(),
            entry_position(all, term_id@, id@) == index + entry_position(
                all.skip(index as int),
                term_id@,
                id@,
            ),
        decreases entries@.len() - index,
    {
        assert(all.skip(index as int)[0] == entries@[index as int].deep_view());
        assert(all.skip(index as int).drop_first() =~= all.skip(index + 1));
        index += 1;
    }
    assert(index < entries@.len() ==> all.skip(index as int)[0]
        == entries@[index as int].deep_view());
    index
}

/// The entries with one that replaces the entry of its term with its id, or comes last.
pub open spec fn with_entry(entries: Seq<ManualEntryView>, entry: ManualEntryView) -> Seq<
    ManualEntryView,
> {
    let at = entry_position(entries, entry.term_id, entry.option.id);
    if at < entries.len() {
        entries.update(at, entry)
    } else {
        entries.push(entry)
    }
}

/// The entries with one that replaces the entry of its term with its id, or comes last.
pub fn upsert_entry(entries: &Vec<ManualEntry>, entry: ManualEntry) -> (r: Vec<ManualEntry>)
    ensures
        r.deep_view() == with_entry(entries.deep_view(), entry.deep_view()),
{
    let ghost all = entries.deep_view();
    let at = find_entry(entries, &entry.term_id, &entry.option.id);
    let mut out = duplicate_all(entries);
    assert(out.deep_view().len() == out@.len());
    assert(all.len() == entries@.len());
    if at < out.len() {
        out.set(at, entry);
        assert(out.deep_view() =~= all.update(at as int, entry.deep_view()));
    } else {
        out.push(entry);
        assert(out.deep_view() =~= all.push(entry.deep_view()));
    }
    out
}

/// The position of the requirement with a kind, the length if there is none.
pub open spec fn kind_position(requirements: Seq<RequirementView>, kind: Seq<char>) -> int
    decreases requirements.len(),
{
    if requirements.len() == 0 || requirements[0].kind == kind {
        0
    } else {
        1 + kind_position(requirements.drop_first(), kind)
    }
}

/// The kinds of component that a manual section may add to a course.
pub open spec fn known_component(kind: Seq<char>) -> bool {
    kind == "lecture"@ || kind == "recitation"@ || kind == "lab"@ || kind == "design"@ || kind
        == "pe"@
}

/// A section with usable meetings.
pub open spec fn supported(kind: Seq<char>, option: SectionOptionView) -> bool {
    &&& option.unsupported_reason is None
    &&& option.meetings.len() > 0
    &&& if pe_kind(kind) {
        bounded_pe(kind, option.meetings)
    } else {
        !any_date_limited(option.meetings)
    }
}

fn is_supported_option(kind: &str, option: &SectionOption) -> (r: bool)
    ensures
        r == supported(kind@, option.deep_view()),
{
    proof {
        lemma_meetings_view(option.meetings);
    }
    option.unsupported_reason.is_none() && option.meetings.len() > 0 && if is_pe_kind(kind) {
        bounded_pe_meetings(kind, option.meetings.as_slice())
    } else {
        !meetings_have_date_limits(option.meetings.as_slice())
    }
}

/// The requirements of a course, with one for the kind of a manual entry if it may add one.
pub open spec fn with_component(course: CourseView, entry: ManualEntryView) -> Result<
    Seq<RequirementView>,
    Seq<char>,
> {
    if kind_position(course.requirements, entry.kind) < course.requirements.len() {
        Ok(course.requirements)
    } else if !known_component(entry.kind) {
        Err(
            "manual section "@ + entry.option.id + " cannot create unknown component "@
                + entry.kind,
        )
    } else {
        Ok(
            course.requirements.push(
                RequirementView {
                    id: entry.course_id + "/"@ + entry.kind,
                    kind: entry.kind,
                    options: Seq::empty(),
                    has_unknown_times: true,
                },
            ),
        )
    }
}

/// What keeps a manual section out of a requirement, if anything.
pub open spec fn merge_fault(
    requirement: RequirementView,
    calendar: Option<TermCalendarView>,
    entry: ManualEntryView,
) -> Option<Seq<char>> {
    if requirement.id != entry.course_id + "/"@ + entry.kind {
        Some(
            "manual section "@ + entry.option.id + " targets inconsistent component "@
                + entry.kind,
        )
    } else if exists|i: int|
        0 <= i < requirement.options.len() && (#[trigger] requirement.options[i]).id
            == entry.option.id {
        Some("duplicate section id after manual merge: "@ + entry.option.id)
    } else if pe_kind(entry.kind) && calendar is Some && internal_calendar_overlap(
        calendar->0,
        entry.option.meetings,
    ) {
        Some(
            "manual section "@ + entry.option.id
                + " has overlapping PE meetings in the term calendar"@,
        )
    } else {
        None
    }
}

/// A requirement with a manual section added.
pub open spec fn merged_requirement(
    requirement: RequirementView,
    entry: ManualEntryView,
) -> RequirementView {
    RequirementView {
        id: requirement.id,
        kind: requirement.kind,
        options: stable_sorted(requirement.options.push(entry.option), id_le()),
        has_unknown_times: requirement.has_unknown_times && !supported(entry.kind, entry.option),
    }
}

/// The condition of being another text.
pub open spec fn other_than(text: Seq<char>) -> spec_fn(Seq<char>) -> bool {
    |other: Seq<char>| other != text
}

/// The notices of a course after a manual section was added.
pub open spec fn merged_notices(notices: Seq<Seq<char>>, entry: ManualEntryView) -> Seq<Seq<char>> {
    let unresolved = entry.kind + ": no known meeting times"@;
    let kept = if supported(entry.kind, entry.option) {
        notices.filter(other_than(unresolved))
    } else {
        notices
    };
    let partial = entry.kind
        + ": date-limited manual options are preserved but omitted from weekly optimization"@;
    if entry.option.unsupported_reason is Some && !kept.contains(partial) {
        kept.push(partial)
    } else {
        kept
    }
}

/// A course with a manual section added.
pub open spec fn merged_course(
    course: CourseView,
    calendar: Option<TermCalendarView>,
    entry: ManualEntryView,
) -> Result<CourseView, Seq<char>> {
    match with_component(course, entry) {
        Err(fault) => Err(fault),
        Ok(requirements) => {
            let at = kind_position(course.requirements, entry.kind);
            match merge_fault(requirements[at], calendar, entry) {
                Some(fault) => Err(fault),
                None => Ok(
                    CourseView {
                        id: course.id,
                        title: course.title,
                        requirements: requirements.update(
                            at,
                            merged_requirement(requirements[at], entry),
                        ),
                        notices: merged_notices(course.notices, entry),
                    },
                ),
            }
        },
    }
}

/// The courses with a manual section added.
pub open spec fn merged(
    courses: Seq<(Seq<char>, CourseView)>,
    calendar: Option<TermCalendarView>,
    entry: ManualEntryView,
) -> Result<Seq<(Seq<char>, CourseView)>, Seq<char>> {
    match lookup(courses, entry.course_id) {
        None => Err(
            "manual section "@ + entry.option.id + " references unknown subject "@
                + entry.course_id + " in "@ + entry.term_id,
        ),
        Some(course) => match merged_course(course, calendar, entry) {
            Err(fault) => Err(fault),
            Ok(course) => Ok(map_insert::<String, CourseView>(courses, entry.course_id, course)),
        },
    }
}

/// The courses with all enabled manual sections of a term added, one after the other.
pub open spec fn merged_all(
    courses: Seq<(Seq<char>, CourseView)>,
    calendar: Option<TermCalendarView>,
    term_id: Seq<char>,
    entries: Seq<ManualEntryView>,
) -> Result<Seq<(Seq<char>, CourseView)>, Seq<char>>
    decreases entries.len(),
{
    if entries.len() == 0 {
        Ok(courses)
    } else {
        let entry = entries.last();
        match merged_all(courses, calendar, term_id, entries.drop_last()) {
            Err(fault) => Err(fault),
            Ok(courses) => if entry.term_id == term_id && entry.enabled {
                merged(courses, calendar, entry)
            } else {
                Ok(courses)
            },
        }
    }
}

/// The order of requirements by id.
pub open spec fn requirement_le() -> spec_fn(RequirementView, RequirementView) -> bool {
    |a: RequirementView, b: RequirementView| !crate::text::text_before(b.id, a.id)
}

/// A course with its requirements and notices in order.
pub open spec fn tidy(course: CourseView) -> CourseView {
    CourseView {
        id: course.id,
        title: course.title,
        requirements: stable_sorted(course.requirements, requirement_le()),
        notices: distinct_ascending::<String>(course.notices),
    }
}

pub open spec fn tidy_all(courses: Seq<(Seq<char>, CourseView)>) -> Seq<(Seq<char>, CourseView)> {
    Seq::new(courses.len(), |i: int| (courses[i].0, tidy(courses[i].1)))
}

/// The catalog with the manual sections of its term.
pub open spec fn with_manual(base: DatasetView, store: ManualStoreView) -> Result<
    DatasetView,
    Seq<char>,
> {
    match store_fault(store) {
        Some(fault) => Err(fault),
        None => match merged_all(base.courses, base.calendar, base.term_id, store.entries) {
            Err(fault) => Err(fault),
            Ok(courses) => Ok(DatasetView { courses: tidy_all(courses), ..base }),
        },
    }
}

/// The refusal of a manual section: `manual section <id><middle><rest>`.
fn section_refused(id: &str, middle: &str, rest: &str) -> (r: Error)
    ensures
        r.deep_view() == "manual section "@ + id@ + middle@ + rest@,
{
    let mut message = "manual section ".to_owned();
    message.append(id);
    message.append(middle);
    message.append(rest);
    Error { message }
}

fn find_kind(requirements: &Vec<Requirement>, kind: &String) -> (r: usize)
    ensures
        r == kind_position(requirements.deep_view(), kind@),
        r <= requirements@.len(),
{
    let ghost views = requirements.deep_view();
    let mut index: usize = 0;
    assert(views.skip(0) =~= views);
    while index < requirements.len() && requirements[index].kind != *kind
        invariant
            views == requirements.deep_view(),
            index <= requirements@.len(),
            kind_position(views, kind@) == index + kind_position(views.skip(index as int), kind@),
        decreases requirements@.len() - index,
    {
        assert(views.skip(index as int)[0] == requirements@[index as int].deep_view());
        assert(views.skip(index as int).drop_first() =~= views.skip(index + 1));
        index += 1;
    }
    assert(index < requirements@.len() ==> views.skip(index as int)[0]
        == requirements@[index as int].deep_view());
    index
}

fn has_option(options: &Vec<SectionOption>, id: &String) -> (r: bool)
    ensures
        r == exists|i: int|
            0 <= i < options.deep_view().len() && (#[trigger] options.deep_view()[i]).id == id@,
{
    let mut index: usize = 0;
    while index < options.len()
        invariant
            index <= options@.len(),
            forall|i: int| 0 <= i < index ==> (#[trigger] options.deep_view()[i]).id != id@,
        decreases options@.len() - index,
    {
        assert(options.deep_view()[index as int] == options@[index as int].deep_view());
        if options[index].id == *id {
            return true;
        }
        index += 1;
    }
    false
}

fn option_may_precede(a: &SectionOption, b: &SectionOption) -> (r: bool)
    ensures
        r == id_le()(a.deep_view(), b.deep_view()),
{
    !b.id.is_before(&a.id)
}

fn requirement_may_precede(a: &Requirement, b: &Requirement) -> (r: bool)
    ensures
        r == requirement_le()(a.deep_view(), b.deep_view()),
{
    !b.id.is_before(&a.id)
}

fn merge_notices(notices: &Vec<String>, entry: &ManualEntry) -> (r: Vec<String>)
    ensures
        r.deep_view() == merged_notices(notices.deep_view(), entry.deep_view()),
{
    let mut unresolved = entry.kind.clone();
    unresolved.append(": no known meeting times");
    let supported = is_supported_option(entry.kind.as_str(), &entry.option);
    let ghost all = notices.deep_view();
    let ghost pred = other_than(unresolved@);
    let mut kept: Vec<String> = Vec::new();
    let mut index: usize = 0;
    proof {
        reveal(Seq::filter);
        assert(all.take(0) =~= Seq::empty());
        assert(kept.deep_view() =~= all.take(0).filter(pred));
        assert(kept.deep_view() =~= all.take(0));
    }
    while index < notices.len()
        invariant
            index <= notices@.len(),
            all == notices.deep_view(),
            pred == other_than(unresolved@),
            supported ==> kept.deep_view() == all.take(index as int).filter(pred),
            !supported ==> kept.deep_view() == all.take(index as int),
        decreases notices@.len() - index,
    {
        let ghost so_far = kept.deep_view();
        proof {
            reveal(Seq::filter);
            assert(all.take(index + 1).drop_last() =~= all.take(index as int));
            assert(all.take(index + 1).last() == notices@[index as int]@);
        }
        if !supported || notices[index] != unresolved {
            kept.push(notices[index].clone());
            assert(kept.deep_view() =~= so_far.push(all[index as int]));
            assert(!supported ==> kept.deep_view() =~= all.take(index + 1));
        }
        index += 1;
    }
    assert(all.take(index as int) =~= all);
    let ghost base = kept.deep_view();
    if entry.option.unsupported_reason.is_some() {
        let mut partial = entry.kind.clone();
        partial.append(
            ": date-limited manual options are preserved but omitted from weekly optimization",
        );
        if !contains_text(&kept, &partial) {
            kept.push(partial);
            assert(kept.deep_view() =~= base.push(partial@));
        }
    }
    kept
}

pub fn contains_text(texts: &Vec<String>, wanted: &String) -> (r: bool)
    ensures
        r == texts.deep_view().contains(wanted@),
{
    let mut index: usize = 0;
    while index < texts.len()
        invariant
            index <= texts@.len(),
            forall|i: int| 0 <= i < index ==> #[trigger] texts.deep_view()[i] != wanted@,
        decreases texts@.len() - index,
    {
        assert(texts.deep_view()[index as int] == texts@[index as int]@);
        if texts[index] == *wanted {
            return true;
        }
        index += 1;
    }
    false
}

fn merge_entry(course: &Course, calendar: &Option<TermCalendar>, entry: &ManualEntry) -> (r: Result<
    Course,
    Error,
>)
    ensures
        outcome(r) == merged_course(
            course.deep_view(),
            calendar.deep_view(),
            entry.deep_view(),
        ),
{
    let ghost view = course.deep_view();
    let id = entry.option.id.as_str();
    let mut requirement_id = entry.course_id.clone();
    requirement_id.append("/");
    requirement_id.append(entry.kind.as_str());
    let at = find_kind(&course.requirements, &entry.kind);
    let mut requirements = duplicate_all(&course.requirements);
    assert(requirements.deep_view().len() == requirements@.len());
    assert(course.requirements.deep_view().len() == course.requirements@.len());
    let ghost before = requirements.deep_view();
    if at == requirements.len() {
        let kind = entry.kind.as_str();
        if !(same_text(kind, "lecture") || same_text(kind, "recitation") || same_text(kind, "lab")
            || same_text(kind, "design") || same_text(kind, "pe")) {
            return Err(section_refused(id, " cannot create unknown component ", kind));
        }
        let added = Requirement {
            id: requirement_id.clone(),
            kind: entry.kind.clone(),
            options: Vec::new(),
            has_unknown_times: true,
        };
        assert(added.options.deep_view() =~= Seq::empty());
        requirements.push(added);
        assert(requirements.deep_view() =~= before.push(added.deep_view()));
    }
    let ghost all = requirements.deep_view();
    assert(with_component(view, entry.deep_view()) == Ok::<Seq<RequirementView>, Seq<char>>(all));
    let requirement = &requirements[at];
    assert(all[at as int] == requirement.deep_view());
    proof {
        lemma_meetings_view(entry.option.meetings);
    }
    if requirement.id != requirement_id {
        return Err(
            section_refused(id, " targets inconsistent component ", entry.kind.as_str()),
        );
    }
    if has_option(&requirement.options, &entry.option.id) {
        let mut message = "duplicate section id after manual merge: ".to_owned();
        message.append(id);
        return Err(Error { message });
    }
    if is_pe_kind(entry.kind.as_str()) {
        if let Some(calendar) = calendar {
            if meetings_have_internal_calendar_overlap(calendar, entry.option.meetings.as_slice()) {
                let mut message = "manual section ".to_owned();
                message.append(id);
                message.append(" has overlapping PE meetings in the term calendar");
                return Err(Error { message });
            }
        }
    }
    let mut options = duplicate_all(&requirement.options);
    let ghost known = options.deep_view();
    options.push(entry.option.duplicate());
    assert(options.deep_view() =~= known.push(entry.option.deep_view()));
    let options = sort_by(options, option_may_precede, Ghost(id_le()));
    let updated = Requirement {
        id: requirement.id.clone(),
        kind: requirement.kind.clone(),
        options,
        has_unknown_times: requirement.has_unknown_times && !is_supported_option(
            entry.kind.as_str(),
            &entry.option,
        ),
    };
    requirements.set(at, updated);
    assert(requirements.deep_view() =~= all.update(at as int, updated.deep_view()));
    Ok(
        Course {
            id: course.id.clone(),
            title: course.title.clone(),
            requirements,
            notices: merge_notices(&course.notices, entry),
        },
    )
}

fn tidy_course(course: &Course) -> (r: Course)
    ensures
        r.deep_view() == tidy(course.deep_view()),
{
    let requirements = sort_by(
        duplicate_all(&course.requirements),
        requirement_may_precede,
        Ghost(requirement_le()),
    );
    let notices = OrderedSet::from_vec(duplicate_all(&course.notices)).into_vec();
    Course { id: course.id.clone(), title: course.title.clone(), requirements, notices }
}

proof fn lemma_merged_all_prefix(
    courses: Seq<(Seq<char>, CourseView)>,
    calendar: Option<TermCalendarView>,
    term_id: Seq<char>,
    entries: Seq<ManualEntryView>,
    n: int,
)
    requires
        0 <= n <= entries.len(),
        merged_all(courses, calendar, term_id, entries.take(n)) is Err,
    ensures
        merged_all(courses, calendar, term_id, entries) == merged_all(
            courses,
            calendar,
            term_id,
            entries.take(n),
        ),
    decreases entries.len() - n,
{
    if n == entries.len() {
        assert(entries.take(n) =~= entries);
    } else {
        assert(entries.take(n + 1).drop_last() =~= entries.take(n));
        lemma_merged_all_prefix(courses, calendar, term_id, entries, n + 1);
    }
}

/// Adds the enabled manual sections of the catalog's term; the catalog itself stays as it is.
pub fn apply_manual(base: &Dataset, store: &ManualStore) -> (r: Result<Dataset, Error>)
    ensures
        outcome(r) == with_manual(base.deep_view(), store.deep_view()),
{
    match validate_manual_store(store) {
        Ok(_) => {},
        Err(error) => {
            return Err(error);
        },
    }
    let ghost view = base.deep_view();
    let ghost views = store.entries.deep_view();
    let ghost cal = base.calendar.deep_view();
    let mut courses = base.courses.duplicate();
    let mut index: usize = 0;
    assert(views.take(0) =~= Seq::empty());
    while index < store.entries.len()
        invariant
            index <= store.entries@.len(),
            view == base.deep_view(),
            views == store.entries.deep_view(),
            cal == base.calendar.deep_view(),
            store_fault(store.deep_view()) is None,
            merged_all(view.courses, cal, view.term_id, views.take(index as int)) == Ok::<
                Seq<(Seq<char>, CourseView)>,
                Seq<char>,
            >(courses.deep_view()),
        decreases store.entries@.len() - index,
    {
        let entry = &store.entries[index];
        proof {
            assert(views.take(index + 1).drop_last() =~= views.take(index as int));
            assert(views.take(index + 1).last() == entry.deep_view());
            if merged_all(view.courses, cal, view.term_id, views.take(index + 1)) is Err {
                lemma_merged_all_prefix(view.courses, cal, view.term_id, views, index + 1);
            }
        }
        if entry.term_id == base.term_id && entry.enabled {
            let updated = match courses.get(&entry.course_id) {
                Some(course) => merge_entry(course, &base.calendar, entry),
                None => {
                    let mut rest = entry.course_id.clone();
                    rest.append(" in ");
                    rest.append(entry.term_id.as_str());
                    let error = section_refused(
                        entry.option.id.as_str(),
                        " references unknown subject ",
                        rest.as_str(),
                    );
                    assert(error.deep_view() =~= "manual section "@ + entry.option.id@
                        + " references unknown subject "@ + entry.course_id@ + " in "@
                        + entry.term_id@);
                    return Err(error);
                },
            };
            match updated {
                Ok(course) => {
                    courses.insert(entry.course_id.clone(), course);
                },
                Err(error) => {
                    return Err(error);
                },
            }
        }
        index += 1;
    }
    assert(views.take(index as int) =~= views);
    let all = courses.values();
    let ghost pairs = courses.deep_view();
    let mut tidied: Vec<Course> = Vec::new();
    let mut at: usize = 0;
    while at < all.len()
        invariant
            at <= all@.len(),
            all@.len() == pairs.len(),
            forall|i: int| 0 <= i < all@.len() ==> (#[trigger] all@[i]).deep_view() == pairs[i].1,
            tidied@.len() == at,
            forall|i: int| 0 <= i < at ==> (#[trigger] tidied@[i]).deep_view() == tidy(pairs[i].1),
        decreases all@.len() - at,
    {
        assert(all@[at as int].deep_view() == pairs[at as int].1);
        tidied.push(tidy_course(&all[at]));
        at += 1;
    }
    let courses = courses.with_values(tidied);
    assert(courses.deep_view() =~= tidy_all(pairs));
    Ok(
        Dataset {
            term_id: base.term_id.clone(),
            last_updated: base.last_updated.clone(),
            calendar: match &base.calendar {
                Some(calendar) => Some(calendar.duplicate()),
                None => None,
            },
            courses,
            notices: duplicate_all(&base.notices),
        },
    )
}

} // verus!
