//! What the notation of meetings means.
use vstd::prelude::*;
use crate::error::Error;
use crate::laws::lemma_two_digits;
use crate::model::{meeting_fault, Meeting};
use crate::optimizer::lemma_meetings_view;
use crate::order::{ascending, lemma_distinct_ascending};
use crate::storage::{
    parse_meetings, parse_time, parse_weekday, read_meeting, read_meetings, read_parts, read_time,
    read_weekday, weekday_named,
};
use crate::text::{
    all_numeric, decimal, digit, digit_value, digits_value, find, joined, lemma_find,
    lemma_pieces_nonempty, lowered, numeric, only, padded, pieces, split, split_first, trimmed,
    words,
};

verus! {

/// The English name of a weekday, Monday being 0.
pub open spec fn english(weekday: int) -> Seq<char> {
    if weekday == 0 {
        "monday"@
    } else if weekday == 1 {
        "tuesday"@
    } else if weekday == 2 {
        "wednesday"@
    } else if weekday == 3 {
        "thursday"@
    } else if weekday == 4 {
        "friday"@
    } else if weekday == 5 {
        "saturday"@
    } else {
        "sunday"@
    }
}

/// Whether the name of a weekday may be cut to its first `n` letters: to three, to two where one
/// would do for another day, to one where that is clear, with Tuesday before Thursday, and to the
/// customary four and five.
pub open spec fn may_be_cut(weekday: int, n: int) -> bool {
    ||| n == english(weekday).len()
    ||| n == 3
    ||| n == 2 && (weekday == 1 || weekday == 3 || weekday >= 5)
    ||| n == 1 && (weekday <= 2 || weekday == 4)
    ||| n == 4 && (weekday == 1 || weekday == 3)
    ||| n == 5 && weekday == 3
}

/// A word, in any case, stands for a weekday: the name, what it may be cut to, or one of the two
/// customary forms that do not begin the name.
pub open spec fn names_day(word: Seq<char>, weekday: int) -> bool {
    let name = lowered(trimmed(word));
    &&& 0 <= weekday < 7
    &&& {
        ||| exists|n: int| #[trigger] may_be_cut(weekday, n) && name == english(weekday).take(n)
        ||| weekday == 2 && name == "weds"@
        ||| weekday == 3 && name == "r"@
    }
}

proof fn reveal_names()
    ensures
        "monday"@ == seq!['m', 'o', 'n', 'd', 'a', 'y'],
        "tuesday"@ == seq!['t', 'u', 'e', 's', 'd', 'a', 'y'],
        "wednesday"@ == seq!['w', 'e', 'd', 'n', 'e', 's', 'd', 'a', 'y'],
        "thursday"@ == seq!['t', 'h', 'u', 'r', 's', 'd', 'a', 'y'],
        "friday"@ == seq!['f', 'r', 'i', 'd', 'a', 'y'],
        "saturday"@ == seq!['s', 'a', 't', 'u', 'r', 'd', 'a', 'y'],
        "sunday"@ == seq!['s', 'u', 'n', 'd', 'a', 'y'],
        "m"@ == seq!['m'],
        "mon"@ == seq!['m', 'o', 'n'],
        "t"@ == seq!['t'],
        "tu"@ == seq!['t', 'u'],
        "tue"@ == seq!['t', 'u', 'e'],
        "tues"@ == seq!['t', 'u', 'e', 's'],
        "w"@ == seq!['w'],
        "wed"@ == seq!['w', 'e', 'd'],
        "weds"@ == seq!['w', 'e', 'd', 's'],
        "r"@ == seq!['r'],
        "th"@ == seq!['t', 'h'],
        "thu"@ == seq!['t', 'h', 'u'],
        "thur"@ == seq!['t', 'h', 'u', 'r'],
        "thurs"@ == seq!['t', 'h', 'u', 'r', 's'],
        "f"@ == seq!['f'],
        "fri"@ == seq!['f', 'r', 'i'],
        "sa"@ == seq!['s', 'a'],
        "sat"@ == seq!['s', 'a', 't'],
        "su"@ == seq!['s', 'u'],
        "sun"@ == seq!['s', 'u', 'n'],
{
    reveal_strlit("monday");
    reveal_strlit("tuesday");
    reveal_strlit("wednesday");
    reveal_strlit("thursday");
    reveal_strlit("friday");
    reveal_strlit("saturday");
    reveal_strlit("sunday");
    reveal_strlit("m");
    reveal_strlit("mon");
    reveal_strlit("t");
    reveal_strlit("tu");
    reveal_strlit("tue");
    reveal_strlit("tues");
    reveal_strlit("w");
    reveal_strlit("wed");
    reveal_strlit("weds");
    reveal_strlit("r");
    reveal_strlit("th");
    reveal_strlit("thu");
    reveal_strlit("thur");
    reveal_strlit("thurs");
    reveal_strlit("f");
    reveal_strlit("fri");
    reveal_strlit("sa");
    reveal_strlit("sat");
    reveal_strlit("su");
    reveal_strlit("sun");
}

/// The letters by which the names that are read differ.
proof fn lemma_letters()
    ensures
        "t"@[0] == 't' && "th"@[1] == 'h' && "tu"@[1] == 'u',
        "tue"@[1] == 'u' && "tues"@[1] == 'u' && "tuesday"@[1] == 'u',
        "thu"@[1] == 'h' && "thur"@[1] == 'h' && "thurs"@[1] == 'h' && "thursday"@[1] == 'h',
        "sa"@[1] == 'a' && "sat"@[1] == 'a' && "saturday"@[1] == 'a',
        "su"@[1] == 'u' && "sun"@[1] == 'u' && "sunday"@[1] == 'u',
        "m"@[0] == 'm' && "mon"@[0] == 'm' && "monday"@[0] == 'm',
        "w"@[0] == 'w' && "wed"@[0] == 'w' && "weds"@[0] == 'w' && "wednesday"@[0] == 'w',
        "f"@[0] == 'f' && "fri"@[0] == 'f' && "friday"@[0] == 'f',
        "r"@[0] == 'r',
{
    reveal_names();
}

/// A cut name is one of those that are read.
#[verifier::spinoff_prover]
proof fn lemma_cut_names(weekday: int, n: int)
    requires
        0 <= weekday < 7,
        may_be_cut(weekday, n),
    ensures
        ({
            let name = english(weekday).take(n);
            &&& weekday == 0 ==> name == "m"@ || name == "mon"@ || name == "monday"@
            &&& weekday == 1 ==> name == "t"@ || name == "tu"@ || name == "tue"@ || name == "tues"@
                || name == "tuesday"@
            &&& weekday == 2 ==> name == "w"@ || name == "wed"@ || name == "wednesday"@
            &&& weekday == 3 ==> name == "th"@ || name == "thu"@ || name == "thur"@ || name
                == "thurs"@ || name == "thursday"@
            &&& weekday == 4 ==> name == "f"@ || name == "fri"@ || name == "friday"@
            &&& weekday == 5 ==> name == "sa"@ || name == "sat"@ || name == "saturday"@
            &&& weekday == 6 ==> name == "su"@ || name == "sun"@ || name == "sunday"@
        }),
{
    reveal_names();
    let name = english(weekday).take(n);
    if n == english(weekday).len() {
        assert(name =~= english(weekday));
    } else if n == 1 {
        assert(name =~= seq![english(weekday)[0]]);
    } else if n == 2 {
        assert(name =~= seq![english(weekday)[0], english(weekday)[1]]);
    } else if n == 3 {
        assert(name =~= seq![english(weekday)[0], english(weekday)[1], english(weekday)[2]]);
    } else if n == 4 {
        assert(name =~= seq![
            english(weekday)[0],
            english(weekday)[1],
            english(weekday)[2],
            english(weekday)[3],
        ]);
    } else {
        assert(name =~= seq![
            english(weekday)[0],
            english(weekday)[1],
            english(weekday)[2],
            english(weekday)[3],
            english(weekday)[4],
        ]);
    }
}

/// No two of the names that are read are the same, by their lengths and letters.
#[verifier::spinoff_prover]
proof fn lemma_read_names(text: Seq<char>, weekday: int)
    requires
        names_day(text, weekday),
    ensures
        weekday_named(text) == Some(weekday as u8),
{
    reveal_names();
    let name = lowered(trimmed(text));
    if exists|n: int| #[trigger] may_be_cut(weekday, n) && name == english(weekday).take(n) {
        let n = choose|n: int| #[trigger] may_be_cut(weekday, n) && name == english(weekday).take(n);
        lemma_cut_names(weekday, n);
    }
    lemma_letters();
    assert(name.len() > 0);
}

/// What is read as a weekday names it.
#[verifier::spinoff_prover]
proof fn lemma_named(text: Seq<char>, weekday: int)
    requires
        weekday_named(text) == Some(weekday as u8),
        0 <= weekday < 256,
    ensures
        names_day(text, weekday),
{
    reveal_names();
    lemma_letters();
    let name = lowered(trimmed(text));
    assert(0 <= weekday < 7);
    if !(name == "weds"@ || name == "r"@) {
        let n = name.len() as int;
        assert(name =~= english(weekday).take(n));
        assert(may_be_cut(weekday, n));
    }
}

/// A text is read as a weekday exactly if it names it, in any case: a beginning of the English name
/// is never read as another day.
pub proof fn law_weekdays_are_read_by_name(text: &str, r: Result<u8, Error>)
    requires
        call_ensures(parse_weekday, (text,), r),
    ensures
        r is Ok ==> names_day(text@, (r->Ok_0) as int),
        forall|d: int| names_day(text@, d) ==> r is Ok && (r->Ok_0) as int == d,
{
    assert forall|d: int| names_day(text@, d) implies r is Ok && (r->Ok_0) as int == d by {
        lemma_weekdays(text@, d as u8);
    }
    if r is Ok {
        lemma_weekdays(text@, r->Ok_0);
    }
}

pub(crate) proof fn lemma_weekdays(word: Seq<char>, weekday: u8)
    ensures
        read_weekday(word) == Ok::<u8, Seq<char>>(weekday) <==> names_day(word, weekday as int),
        read_weekday(word) is Ok <==> exists|d: int| names_day(word, d),
{
    if names_day(word, weekday as int) {
        lemma_read_names(word, weekday as int);
    }
    if read_weekday(word) is Ok {
        let d = (read_weekday(word)->Ok_0) as int;
        lemma_named(word, d);
        assert(names_day(word, d));
    }
    if exists|d: int| names_day(word, d) {
        let d = choose|d: int| names_day(word, d);
        lemma_read_names(word, d);
    }
}

/// A text stands for a minute of the day: the hour with one or two digits, the minute with two.
pub open spec fn tells_time(text: Seq<char>, minute: int) -> bool {
    &&& 0 <= minute <= 1440
    &&& exists|h: int, m: int| #[trigger] shows_time(trimmed(text), h, m) && minute == 60 * h + m
}

/// A text is an hour and a minute with a colon between them.
pub open spec fn shows_time(text: Seq<char>, h: int, m: int) -> bool {
    &&& 0 <= h && 0 <= m < 60
    &&& text == padded(h as nat, 2) + seq![':'] + padded(m as nat, 2) || (h < 10 && text == decimal(
        h as nat,
    ) + seq![':'] + padded(m as nat, 2))
}

proof fn lemma_digits(s: Seq<char>)
    requires
        all_numeric(s),
        1 <= s.len() <= 2,
    ensures
        0 <= digits_value(s) < 100,
        s.len() == 1 ==> digits_value(s) < 10 && s == decimal(digits_value(s) as nat),
        s.len() == 2 ==> s == padded(digits_value(s) as nat, 2),
{
    reveal_with_fuel(digits_value, 3);
    reveal_with_fuel(decimal, 3);
    let last = s.last();
    assert(numeric(s[s.len() - 1]));
    assert(digit(digit_value(last)) == last);
    if s.len() == 1 {
        assert(s.drop_last() =~= Seq::empty());
        assert(s =~= seq![last]);
    } else {
        assert(numeric(s[0]));
        assert(digit(digit_value(s[0])) == s[0]);
        assert(s.drop_last() =~= seq![s[0]]);
        assert(s.drop_last().drop_last() =~= Seq::empty());
        assert(s.drop_last().last() == s[0]);
        let v = digits_value(s);
        assert(v == 10 * digit_value(s[0]) + digit_value(last));
        lemma_two_digits(v as nat);
        assert(v / 10 == digit_value(s[0]) && v % 10 == digit_value(last));
        assert(s =~= seq![s[0], last]);
    }
}

proof fn lemma_shown_time(text: Seq<char>, h: int, m: int)
    requires
        shows_time(text, h, m),
        h <= 24,
        h == 24 ==> m == 0,
    ensures
        split_first(text, ':') is Some,
        ({
            let (a, b) = split_first(text, ':')->0;
            &&& 1 <= a.len() <= 2 && b.len() == 2 && all_numeric(a) && all_numeric(b)
            &&& digits_value(a) == h && digits_value(b) == m
        }),
{
    lemma_two_digits(h as nat);
    lemma_two_digits(m as nat);
    let b = padded(m as nat, 2);
    let a = if text == padded(h as nat, 2) + seq![':'] + b {
        padded(h as nat, 2)
    } else {
        decimal(h as nat)
    };
    if a == decimal(h as nat) && h < 10 {
        reveal_with_fuel(digits_value, 3);
        reveal_with_fuel(decimal, 2);
        assert(a =~= seq![digit(h)]);
        assert(a.drop_last() =~= Seq::empty());
        assert(digit_value(digit(h)) == h && numeric(digit(h)));
    }
    assert(all_numeric(a) && digits_value(a) == h && 1 <= a.len() <= 2);
    assert(text == a + seq![':'] + b);
    assert(text[a.len() as int] == ':');
    lemma_find(text, ':');
    let at = find(text, ':');
    assert(at <= a.len()) by {
        if at > a.len() {
            assert(text[a.len() as int] != ':');
        }
    }
    if at < a.len() {
        assert(text[at] == a[at]);
        assert(numeric(a[at]));
    }
    assert(text.take(at) =~= a);
    assert(text.skip(at + 1) =~= b);
}

/// A text is read as a minute of the day exactly if it shows its hour and its minute.
pub proof fn law_times_are_read_by_the_clock(text: &str, r: Result<u16, Error>)
    requires
        call_ensures(parse_time, (text,), r),
    ensures
        r is Ok ==> tells_time(text@, (r->Ok_0) as int),
        forall|m: int| tells_time(text@, m) ==> r is Ok && (r->Ok_0) as int == m,
{
    assert forall|m: int| tells_time(text@, m) implies r is Ok && (r->Ok_0) as int == m by {
        lemma_times(text@, m as u16);
    }
    if r is Ok {
        lemma_times(text@, r->Ok_0);
    }
}

pub(crate) proof fn lemma_times(text: Seq<char>, minute: u16)
    ensures
        read_time(text) == Ok::<u16, Seq<char>>(minute) <==> tells_time(text, minute as int),
        read_time(text) is Ok <==> exists|m: int| tells_time(text, m),
{
    let t = trimmed(text);
    assert forall|h: int, m: int| #[trigger] shows_time(t, h, m) && 60 * h + m <= 1440 implies
        read_time(text) == Ok::<u16, Seq<char>>((60 * h + m) as u16) by {
        lemma_shown_time(t, h, m);
    }
    if read_time(text) is Ok {
        let value = read_time(text)->Ok_0;
        let (a, b) = split_first(t, ':')->0;
        lemma_digits(a);
        lemma_digits(b);
        lemma_find(t, ':');
        let at = find(t, ':');
        assert(t =~= a + seq![':'] + b);
        let h = digits_value(a);
        let m = digits_value(b);
        assert(shows_time(t, h, m));
        assert(value == 60 * h + m);
        assert(tells_time(text, value as int));
    }
    if tells_time(text, minute as int) {
        let (h, m) = choose|h: int, m: int| #[trigger]
            shows_time(t, h, m) && minute as int == 60 * h + m;
        assert(shows_time(t, h, m));
    }
    if exists|m: int| tells_time(text, m) {
        let k = choose|m: int| tells_time(text, m);
        let (h, m) = choose|h: int, m: int| #[trigger] shows_time(t, h, m) && k == 60 * h + m;
        assert(shows_time(t, h, m));
    }
}

/// A part of a notation stands for a meeting: the name of its day, then its start and its end with
/// a dash between them.
pub open spec fn says_meeting(part: Seq<char>, m: Meeting) -> bool {
    &&& m.start_date is None && m.end_date is None
    &&& m.start_minute < m.end_minute
    &&& words(trimmed(part)).len() == 2
    &&& names_day(words(trimmed(part))[0], m.weekday as int)
    &&& exists|start: Seq<char>, end: Seq<char>|
        {
            &&& !start.contains('-')
            &&& words(trimmed(part))[1] == #[trigger] (start + seq!['-'] + end)
            &&& tells_time(start, m.start_minute as int)
            &&& tells_time(end, m.end_minute as int)
        }
}

proof fn lemma_split_at(text: Seq<char>, c: char, a: Seq<char>, b: Seq<char>)
    requires
        text == a + seq![c] + b,
        !a.contains(c),
    ensures
        split_first(text, c) == Some((a, b)),
{
    lemma_find(text, c);
    let at = find(text, c);
    assert(text[a.len() as int] == c);
    if at < a.len() {
        assert(a[at] == c);
        assert(a.contains(c));
    }
    if at > a.len() {
        assert(text[a.len() as int] != c);
    }
    assert(text.take(at) =~= a);
    assert(text.skip(at + 1) =~= b);
}

/// A part of a notation stands for some meeting.
pub open spec fn says_something(part: Seq<char>) -> bool {
    exists|m: Meeting| says_meeting(part, m)
}

/// A part of a notation is read as what it says, and refused if it says no meeting.
pub proof fn law_meeting_is_read_as_it_says(part: Seq<char>, number: nat, m: Meeting)
    ensures
        read_meeting(part, number) == Ok::<Meeting, Seq<char>>(m) <==> says_meeting(part, m),
        read_meeting(part, number) is Ok <==> says_something(part),
{
    if says_meeting(part, m) {
        lemma_said(part, number, m);
    }
    if read_meeting(part, number) is Ok {
        lemma_heard(part, number);
        assert(says_meeting(part, read_meeting(part, number)->Ok_0));
    }
    if says_something(part) {
        let n = choose|n: Meeting| says_meeting(part, n);
        lemma_said(part, number, n);
    }
}

proof fn lemma_said(part: Seq<char>, number: nat, m: Meeting)
    requires
        says_meeting(part, m),
    ensures
        read_meeting(part, number) == Ok::<Meeting, Seq<char>>(m),
{
    let text = trimmed(part);
    let fields = words(text);
    let (start, end) = choose|start: Seq<char>, end: Seq<char>|
        {
            &&& !start.contains('-')
            &&& fields[1] == #[trigger] (start + seq!['-'] + end)
            &&& tells_time(start, m.start_minute as int)
            &&& tells_time(end, m.end_minute as int)
        };
    lemma_split_at(fields[1], '-', start, end);
    lemma_weekdays(fields[0], m.weekday);
    lemma_times(start, m.start_minute);
    lemma_times(end, m.end_minute);
    assert(meeting_fault(m) is None);
    if text.len() == 0 {
        reveal(Seq::filter);
        assert(fields.len() == 0) by {
            let empty = pieces(text, crate::text::blank());
            assert(empty =~= seq![Seq::<char>::empty()]);
            assert(empty.drop_last() =~= Seq::empty());
        }
    }
}

proof fn lemma_heard(part: Seq<char>, number: nat)
    requires
        read_meeting(part, number) is Ok,
    ensures
        says_meeting(part, read_meeting(part, number)->Ok_0),
{
    let m = read_meeting(part, number)->Ok_0;
    let fields = words(trimmed(part));
    let (start, end) = split_first(fields[1], '-')->0;
    lemma_find(fields[1], '-');
    let at = find(fields[1], '-');
    assert(fields[1] =~= start + seq!['-'] + end);
    assert(!start.contains('-')) by {
        if start.contains('-') {
            let i = choose|i: int| 0 <= i < start.len() && start[i] == '-';
            assert(fields[1][i] == '-');
        }
    }
    lemma_weekdays(fields[0], m.weekday);
    lemma_times(start, m.start_minute);
    lemma_times(end, m.end_minute);
    assert(meeting_fault(m) is None);
}

proof fn lemma_parts(parts: Seq<Seq<char>>)
    ensures
        read_parts(parts) is Ok <==> forall|k: int|
            0 <= k < parts.len() ==> says_something(#[trigger] parts[k]),
        read_parts(parts) is Ok ==> (read_parts(parts)->Ok_0).len() == parts.len() && forall|k: int|
            0 <= k < parts.len() ==> says_meeting(
                #[trigger] parts[k],
                (read_parts(parts)->Ok_0)[k],
            ),
    decreases parts.len(),
{
    if parts.len() > 0 {
        let rest = parts.drop_last();
        let at = parts.len() - 1;
        lemma_parts(rest);
        let read = read_meeting(parts.last(), parts.len());
        law_meeting_is_read_as_it_says(parts.last(), parts.len(), read->Ok_0);
        assert(forall|k: int| 0 <= k < rest.len() ==> #[trigger] rest[k] == parts[k]);
        assert(parts[at] == parts.last());
        if read_parts(parts) is Ok {
            let all = read_parts(parts)->Ok_0;
            assert forall|k: int| 0 <= k < parts.len() implies says_something(#[trigger] parts[k])
                && says_meeting(parts[k], all[k]) by {
                if k < rest.len() {
                    assert(says_something(rest[k]));
                    assert(says_meeting(rest[k], (read_parts(rest)->Ok_0)[k]));
                }
            }
        }
        if forall|k: int| 0 <= k < parts.len() ==> says_something(#[trigger] parts[k]) {
            assert forall|k: int| 0 <= k < rest.len() implies says_something(#[trigger] rest[k]) by {
                assert(says_something(parts[k]));
            }
            assert(says_something(parts[at]));
        }
    }
}

/// Only one meeting is said by a part.
proof fn lemma_one_meaning(part: Seq<char>, a: Meeting, b: Meeting)
    requires
        says_meeting(part, a),
        says_meeting(part, b),
    ensures
        a == b,
{
    law_meeting_is_read_as_it_says(part, 1, a);
    law_meeting_is_read_as_it_says(part, 1, b);
}

/// Splitting at a character gives the parts that it stands between.
pub proof fn law_split_parts(text: Seq<char>, c: char)
    ensures
        split(text, c).len() > 0,
        joined(split(text, c), seq![c]) == text,
        forall|k: int| 0 <= k < split(text, c).len() ==> !(#[trigger] split(text, c)[k]).contains(c),
    decreases text.len(),
{
    lemma_pieces_nonempty(text, only(c));
    let parts = split(text, c);
    if text.len() > 0 {
        let rest = text.drop_last();
        let last = text.last();
        law_split_parts(rest, c);
        let before = split(rest, c);
        if last == c {
            assert(parts.drop_last() =~= before);
            assert(joined(parts, seq![c]) =~= text);
            assert forall|k: int| 0 <= k < parts.len() implies !(#[trigger] parts[k]).contains(
                c,
            ) by {
                if k < before.len() {
                    assert(parts[k] == before[k]);
                }
            }
        } else {
            assert(parts =~= before.drop_last().push(before.last().push(last)));
            assert(parts.drop_last() =~= before.drop_last());
            assert(text =~= rest.push(last));
            if before.len() == 1 {
                assert(joined(before, seq![c]) == before[0]);
                assert(joined(parts, seq![c]) == parts[0]);
                assert(parts[0] =~= before[0].push(last));
            } else {
                assert(joined(before, seq![c]) == joined(before.drop_last(), seq![c]) + seq![c]
                    + before.last());
                assert(joined(parts, seq![c]) == joined(parts.drop_last(), seq![c]) + seq![c]
                    + parts.last());
            }
            assert(joined(parts, seq![c]) =~= text);
            assert forall|k: int| 0 <= k < parts.len() implies !(#[trigger] parts[k]).contains(
                c,
            ) by {
                assert(!before[k].contains(c));
                if k == parts.len() - 1 {
                    let piece = parts[k];
                    if piece.contains(c) {
                        let i = choose|i: int| 0 <= i < piece.len() && piece[i] == c;
                        assert(before[k][i] == c);
                    }
                } else {
                    assert(parts[k] == before[k]);
                }
            }
        }
    } else {
        assert(parts =~= seq![Seq::<char>::empty()]);
        assert(joined(parts, seq![c]) =~= text);
    }
}

/// A notation is read as the meetings that its parts say, each once and in order; it is refused
/// exactly if some part says none.
pub proof fn law_notation_means_what_it_says(text: &str, r: Result<Vec<Meeting>, Error>, m: Meeting)
    requires
        call_ensures(parse_meetings, (text,), r),
    ensures
        r is Ok <==> forall|k: int|
            0 <= k < split(text@, ';').len() ==> says_something(#[trigger] split(text@, ';')[k]),
        r is Ok ==> ((r->Ok_0)@.contains(m) <==> exists|k: int|
            0 <= k < split(text@, ';').len() && says_meeting(#[trigger] split(text@, ';')[k], m)),
        r is Ok ==> ascending::<Meeting>((r->Ok_0)@),
{
    lemma_notation(text@, m);
    if r is Ok {
        lemma_meetings_view(r->Ok_0);
    }
}

pub(crate) proof fn lemma_notation(text: Seq<char>, m: Meeting)
    ensures
        read_meetings(text) is Ok <==> forall|k: int|
            0 <= k < split(text, ';').len() ==> says_something(#[trigger] split(text, ';')[k]),
        read_meetings(text) is Ok ==> ((read_meetings(text)->Ok_0).contains(m) <==> exists|k: int|
            0 <= k < split(text, ';').len() && says_meeting(#[trigger] split(text, ';')[k], m)),
        read_meetings(text) is Ok ==> ascending::<Meeting>(read_meetings(text)->Ok_0),
{
    let parts = split(text, ';');
    lemma_parts(parts);
    if read_meetings(text) is Ok {
        let all = read_parts(parts)->Ok_0;
        lemma_distinct_ascending::<Meeting>(all);
        if all.contains(m) {
            let k = choose|k: int| 0 <= k < all.len() && all[k] == m;
            assert(says_meeting(parts[k], m));
        }
        if exists|k: int| 0 <= k < parts.len() && says_meeting(#[trigger] parts[k], m) {
            let k = choose|k: int| 0 <= k < parts.len() && says_meeting(#[trigger] parts[k], m);
            lemma_one_meaning(parts[k], m, all[k]);
            assert(all.contains(m));
        }
    }
}

} // verus!
