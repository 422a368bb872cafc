//! What the commands answer.
use vstd::prelude::*;
use crate::cli::{
    course_found, exit_code, exports, found_courses, parse_members, read_members, search,
};
use crate::error::Error;
use crate::model::{CourseView, Dataset, SolveStatus};
use crate::order::{
    ascending, keys_of, law_lookup_after_insert, lemma_map_insert, lookup, OrderedMap,
};
use crate::text::{
    ascii, find, holds, holds_at, lemma_find, lower, lower_case, lowered, split_first,
};

verus! {

/// A text occurs in another: something stands before it and something behind it, either of which
/// may be empty.
pub open spec fn occurs(part: Seq<char>, text: Seq<char>) -> bool {
    exists|before: Seq<char>, behind: Seq<char>| text == #[trigger] (before + part + behind)
}

pub proof fn lemma_occurs(part: Seq<char>, text: Seq<char>)
    ensures
        holds(text, part) <==> occurs(part, text),
{
    if holds(text, part) {
        let at = choose|at: int| #[trigger] holds_at(text, part, at);
        let before = text.take(at);
        let behind = text.skip(at + part.len());
        assert(text =~= before + part + behind);
    }
    if occurs(part, text) {
        let (before, behind) = choose|before: Seq<char>, behind: Seq<char>|
            text == #[trigger] (before + part + behind);
        let at = before.len() as int;
        assert(text.subrange(at, at + part.len()) =~= part);
        assert(holds_at(text, part, at));
    }
}

proof fn lemma_found(courses: Seq<(Seq<char>, CourseView)>, query: Seq<char>, k: int)
    requires
        0 <= k < courses.len(),
    ensures
        found_courses(courses, query).contains(k) <==> course_found(
            lower_case(query),
            courses[k].1,
        ),
    decreases courses.len(),
{
    lemma_found_range(courses, query);
    lemma_found_range(courses.drop_last(), query);
    let rest = found_courses(courses.drop_last(), query);
    let found = found_courses(courses, query);
    if k < courses.len() - 1 {
        lemma_found(courses.drop_last(), query, k);
        assert(courses.drop_last()[k] == courses[k]);
        if rest.contains(k) {
            let i = choose|i: int| 0 <= i < rest.len() && rest[i] == k;
            assert(found[i] == k);
        }
        if found.contains(k) {
            let i = choose|i: int| 0 <= i < found.len() && found[i] == k;
            assert(rest[i] == k);
        }
    } else if course_found(lower_case(query), courses.last().1) {
        assert(found[rest.len() as int] == k);
    } else if found.contains(k) {
        let i = choose|i: int| 0 <= i < found.len() && found[i] == k;
        assert(rest[i] < courses.len() - 1);
    }
}

proof fn lemma_found_range(courses: Seq<(Seq<char>, CourseView)>, query: Seq<char>)
    ensures
        forall|i: int|
            0 <= i < found_courses(courses, query).len() ==> 0 <= #[trigger] found_courses(
                courses,
                query,
            )[i] < courses.len(),
        forall|i: int, j: int|
            0 <= i < j < found_courses(courses, query).len() ==> #[trigger] found_courses(
                courses,
                query,
            )[i] < #[trigger] found_courses(courses, query)[j],
    decreases courses.len(),
{
    if courses.len() > 0 {
        let rest = found_courses(courses.drop_last(), query);
        let found = found_courses(courses, query);
        lemma_found_range(courses.drop_last(), query);
        assert(forall|i: int| 0 <= i < rest.len() ==> #[trigger] found[i] == rest[i]);
    }
}

/// A search lists a course exactly if the query in lower case occurs in its number or in its title
/// in lower case. The positions ascend.
pub proof fn law_search_looks_at_numbers_and_titles(
    base: &Dataset,
    query: &str,
    r: Vec<usize>,
    k: usize,
)
    requires
        call_ensures(search, (base, query), r),
    ensures
        r@.contains(k) <==> {
            let courses = base.deep_view().courses;
            &&& k < courses.len()
            &&& {
                ||| occurs(lower_case(query@), lower_case(courses[k as int].1.id))
                ||| occurs(lower_case(query@), lower_case(courses[k as int].1.title))
            }
        },
        forall|i: int, j: int| 0 <= i < j < r@.len() ==> #[trigger] r@[i] < #[trigger] r@[j],
{
    let courses = base.deep_view().courses;
    let found = found_courses(courses, query@);
    lemma_found_range(courses, query@);
    assert forall|i: int, j: int| 0 <= i < j < r@.len() implies #[trigger] r@[i]
        < #[trigger] r@[j] by {
        assert(found[i] < found[j]);
    }
    if k < courses.len() {
        lemma_found(courses, query@, k as int);
        lemma_occurs(lower_case(query@), lower_case(courses[k as int].1.id));
        lemma_occurs(lower_case(query@), lower_case(courses[k as int].1.title));
        if found.contains(k as int) {
            let i = choose|i: int| 0 <= i < found.len() && found[i] == k as int;
            assert(r@[i] == k);
        }
    }
    if r@.contains(k) {
        let i = choose|i: int| 0 <= i < r@.len() && r@[i] == k;
        assert(found[i] == k as int);
        assert(found.contains(k as int));
    }
}

/// A search for the number or the title of a course lists it, and so does one for a part of either
/// that is written in small ASCII letters.
pub proof fn law_search_finds_what_it_names(base: &Dataset, query: &str, r: Vec<usize>, k: usize)
    requires
        call_ensures(search, (base, query), r),
        k < base.deep_view().courses.len(),
        ({
            let course = base.deep_view().courses[k as int].1;
            ||| query@ == course.id
            ||| query@ == course.title
            ||| small(query@) && small(course.id) && occurs(query@, course.id)
            ||| small(query@) && small(course.title) && occurs(query@, course.title)
        }),
    ensures
        r@.contains(k),
{
    let course = base.deep_view().courses[k as int].1;
    law_search_looks_at_numbers_and_titles(base, query, r, k);
    if query@ == course.id {
        assert(lower_case(course.id) =~= Seq::<char>::empty() + lower_case(query@) + Seq::empty());
    } else if query@ == course.title {
        assert(lower_case(course.title) =~= Seq::<char>::empty() + lower_case(query@)
            + Seq::empty());
    } else {
        law_small_letters_stay(query@);
        if small(course.id) && occurs(query@, course.id) {
            law_small_letters_stay(course.id);
        } else {
            law_small_letters_stay(course.title);
        }
    }
}

/// ASCII text without capitals.
pub open spec fn small(text: Seq<char>) -> bool {
    forall|i: int|
        0 <= i < text.len() ==> (#[trigger] text[i] as u32) < 128 && !('A' <= text[i] <= 'Z')
}

/// Text without capitals stays as it is in lower case.
pub proof fn law_small_letters_stay(text: Seq<char>)
    requires
        small(text),
    ensures
        lower_case(text) == text,
        lowered(text) == text,
{
    assert(lowered(text) =~= text);
}

/// Two ASCII texts that differ in the case of their letters alone.
pub open spec fn differ_in_case(a: Seq<char>, b: Seq<char>) -> bool {
    &&& a.len() == b.len()
    &&& forall|i: int|
        0 <= i < a.len() ==> {
            &&& (#[trigger] a[i] as u32) < 128
            &&& {
                ||| a[i] == b[i]
                ||| 'A' <= a[i] <= 'Z' && b[i] as u32 == a[i] as u32 + 32
                ||| 'A' <= b[i] <= 'Z' && a[i] as u32 == b[i] as u32 + 32
            }
        }
}

proof fn lemma_letter_case(x: char, y: char)
    requires
        (x as u32) < 128,
        x == y || ('A' <= x <= 'Z' && y as u32 == x as u32 + 32) || ('A' <= y <= 'Z' && x as u32
            == y as u32 + 32),
    ensures
        lower(x) == lower(y),
        (y as u32) < 128,
{
    assert((x as u32) as u8 as char == x);
    assert((y as u32) < 128);
    assert((y as u32) as u8 as char == y);
}

/// Texts that differ in case alone are the same in lower case.
pub proof fn law_case_is_dropped(a: Seq<char>, b: Seq<char>)
    requires
        differ_in_case(a, b),
    ensures
        lowered(a) == lowered(b),
        lower_case(a) == lower_case(b),
{
    assert forall|i: int| 0 <= i < a.len() implies lower(#[trigger] a[i]) == lower(b[i]) && (
    b[i] as u32) < 128 by {
        lemma_letter_case(a[i], b[i]);
    }
    assert(lowered(a) =~= lowered(b));
    assert(ascii(a));
    assert forall|i: int| 0 <= i < b.len() implies (#[trigger] b[i] as u32) < 128 by {
        lemma_letter_case(a[i], b[i]);
    }
    assert(ascii(b));
}

/// Searches for texts that differ in case alone give the same answer.
pub proof fn law_search_ignores_case(
    base: &Dataset,
    a: &str,
    b: &str,
    ra: Vec<usize>,
    rb: Vec<usize>,
)
    requires
        call_ensures(search, (base, a), ra),
        call_ensures(search, (base, b), rb),
        differ_in_case(a@, b@),
    ensures
        ra@ == rb@,
{
    law_case_is_dropped(a@, b@);
    lemma_found_same(base.deep_view().courses, a@, b@);
    assert(ra@ =~= rb@);
}

proof fn lemma_found_same(courses: Seq<(Seq<char>, CourseView)>, a: Seq<char>, b: Seq<char>)
    requires
        lower_case(a) == lower_case(b),
    ensures
        found_courses(courses, a) == found_courses(courses, b),
    decreases courses.len(),
{
    if courses.len() > 0 {
        lemma_found_same(courses.drop_last(), a, b);
    }
}

/// An argument picks a member for a requirement.
pub open spec fn picks_member(
    argument: Seq<char>,
    requirement: Seq<char>,
    member: Seq<char>,
) -> bool {
    &&& requirement.len() > 0 && member.len() > 0
    &&& !requirement.contains('=')
    &&& argument == requirement + seq!['='] + member
}

proof fn lemma_picks(argument: Seq<char>, requirement: Seq<char>, member: Seq<char>)
    ensures
        picks_member(argument, requirement, member) <==> {
            &&& split_first(argument, '=') == Some((requirement, member))
            &&& requirement.len() > 0
            &&& member.len() > 0
        },
{
    lemma_find(argument, '=');
    let at = find(argument, '=');
    if picks_member(argument, requirement, member) {
        assert(argument[requirement.len() as int] == '=');
        if at < requirement.len() {
            assert(requirement[at] == '=');
        }
        if at > requirement.len() {
            assert(argument[requirement.len() as int] != '=');
        }
        assert(argument.take(at) =~= requirement);
        assert(argument.skip(at + 1) =~= member);
    }
    if split_first(argument, '=') == Some((requirement, member)) {
        assert(argument =~= requirement + seq!['='] + member);
        if requirement.contains('=') {
            let i = choose|i: int| 0 <= i < requirement.len() && requirement[i] == '=';
            assert(argument[i] == '=');
        }
    }
}

proof fn lemma_read_members(members: Seq<Seq<char>>, requirement: Seq<char>, member: Seq<char>)
    requires
        read_members(members) is Ok,
    ensures
        ascending::<String>(keys_of(read_members(members)->Ok_0)),
        lookup(read_members(members)->Ok_0, requirement) == Some(member) <==> exists|i: int|
            0 <= i < members.len() && picks_member(#[trigger] members[i], requirement, member),
    decreases members.len(),
{
    if members.len() == 0 {
        assert(keys_of(read_members(members)->Ok_0) =~= Seq::empty());
    } else {
        let rest = members.drop_last();
        let last = members.last();
        let at = members.len() - 1;
        let known = read_members(rest)->Ok_0;
        let (key, value) = split_first(last, '=')->0;
        lemma_read_members(rest, requirement, member);
        lemma_map_insert::<String, Seq<char>>(known, key, value);
        law_lookup_after_insert::<String, Seq<char>>(known, key, value, requirement);
        lemma_picks(last, requirement, member);
        lemma_picks(last, key, value);
        assert(forall|i: int| 0 <= i < rest.len() ==> #[trigger] rest[i] == members[i]);
        assert(members[at] == last);
        let now = read_members(members)->Ok_0;
        if lookup(now, requirement) == Some(member) {
            if requirement == key {
                assert(picks_member(members[at], requirement, member));
            } else {
                let i = choose|i: int|
                    0 <= i < rest.len() && picks_member(#[trigger] rest[i], requirement, member);
                assert(picks_member(members[i], requirement, member));
            }
        }
        if exists|i: int|
            0 <= i < members.len() && picks_member(#[trigger] members[i], requirement, member) {
            let i = choose|i: int|
                0 <= i < members.len() && picks_member(#[trigger] members[i], requirement, member);
            if i < at {
                assert(picks_member(rest[i], requirement, member));
            }
        }
    }
}

/// Arguments `requirement=member` are read as the choices that they write, which are refused if one
/// of them writes none.
pub proof fn law_members_are_read_as_written(
    members: &Vec<String>,
    r: Result<OrderedMap<String, String>, Error>,
    requirement: Seq<char>,
    member: Seq<char>,
)
    requires
        call_ensures(parse_members, (members,), r),
    ensures
        r is Ok ==> (lookup((r->Ok_0).deep_view(), requirement) == Some(member) <==> exists|i: int|
            0 <= i < members@.len() && picks_member(
                #[trigger] members.deep_view()[i],
                requirement,
                member,
            )),
        r is Ok ==> forall|i: int|
            0 <= i < members@.len() ==> writes_choice(#[trigger] members.deep_view()[i]),
{
    if r is Ok {
        let all = members.deep_view();
        lemma_read_members(all, requirement, member);
        lemma_written(all);
        assert(all.len() == members@.len());
    }
}

/// An argument picks a member for some requirement.
pub open spec fn writes_choice(argument: Seq<char>) -> bool {
    exists|requirement: Seq<char>, member: Seq<char>| picks_member(argument, requirement, member)
}

proof fn lemma_written(members: Seq<Seq<char>>)
    requires
        read_members(members) is Ok,
    ensures
        forall|i: int| 0 <= i < members.len() ==> writes_choice(#[trigger] members[i]),
    decreases members.len(),
{
    if members.len() > 0 {
        let rest = members.drop_last();
        lemma_written(rest);
        let (key, value) = split_first(members.last(), '=')->0;
        lemma_picks(members.last(), key, value);
        assert(picks_member(members.last(), key, value));
        assert forall|i: int| 0 <= i < members.len() implies writes_choice(
            #[trigger] members[i],
        ) by {
            if i < rest.len() {
                assert(rest[i] == members[i]);
            }
        }
    }
}

/// Arguments that each write a choice, no two for the same requirement, are all read.
pub proof fn law_written_members_are_read(
    members: &Vec<String>,
    r: Result<OrderedMap<String, String>, Error>,
)
    requires
        call_ensures(parse_members, (members,), r),
        forall|i: int|
            0 <= i < members.deep_view().len() ==> writes_choice(#[trigger] members.deep_view()[i]),
        forall|i: int, j: int, id: Seq<char>|
            #![trigger picks_for(members.deep_view()[i], id), picks_for(members.deep_view()[j], id)]
            0 <= i < j < members.deep_view().len() ==> !(picks_for(members.deep_view()[i], id)
                && picks_for(members.deep_view()[j], id)),
    ensures
        r is Ok,
{
    lemma_all_read(members.deep_view());
}

/// An argument picks a member for a requirement.
pub open spec fn picks_for(argument: Seq<char>, requirement: Seq<char>) -> bool {
    exists|member: Seq<char>| picks_member(argument, requirement, member)
}

proof fn lemma_all_read(members: Seq<Seq<char>>)
    requires
        forall|i: int| 0 <= i < members.len() ==> writes_choice(#[trigger] members[i]),
        forall|i: int, j: int, id: Seq<char>|
            #![trigger picks_for(members[i], id), picks_for(members[j], id)]
            0 <= i < j < members.len() ==> !(picks_for(members[i], id) && picks_for(
                members[j],
                id,
            )),
    ensures
        read_members(members) is Ok,
    decreases members.len(),
{
    if members.len() > 0 {
        let rest = members.drop_last();
        let last = members.last();
        let at = members.len() - 1;
        assert(members[at] == last);
        assert forall|i: int| 0 <= i < rest.len() implies writes_choice(#[trigger] rest[i]) by {
            assert(rest[i] == members[i]);
        }
        assert forall|i: int, j: int, id: Seq<char>|
            #![trigger picks_for(rest[i], id), picks_for(rest[j], id)]
            0 <= i < j < rest.len() implies !(picks_for(rest[i], id) && picks_for(rest[j], id)) by {
            assert(rest[i] == members[i] && rest[j] == members[j]);
        }
        lemma_all_read(rest);
        let (requirement, member) = choose|requirement: Seq<char>, member: Seq<char>|
            picks_member(last, requirement, member);
        assert(writes_choice(members[at]));
        lemma_picks(last, requirement, member);
        let known = read_members(rest)->Ok_0;
        if lookup(known, requirement) is Some {
            let other = lookup(known, requirement)->0;
            lemma_read_members(rest, requirement, other);
            let i = choose|i: int|
                0 <= i < rest.len() && picks_member(#[trigger] rest[i], requirement, other);
            assert(picks_for(members[i], requirement)) by {
                assert(picks_member(members[i], requirement, other));
            }
            assert(picks_for(members[at], requirement));
        }
    }
}

/// An infeasible problem has the exit status 2 and writes no calendar; every other outcome has the
/// exit status 0, and a timetable is written exactly where that was asked for.
pub proof fn law_exit_status(status: SolveStatus, export: bool, code: u8, written: bool)
    requires
        call_ensures(exit_code, (status,), code),
        call_ensures(exports, (export, status), written),
    ensures
        code == 2 <==> status is Infeasible,
        code == 0 <==> status is OptimalKnown || status is Cancelled,
        written <==> export && status is OptimalKnown,
{
}

} // verus!
