//! The answer of the search: the order in which requirements and sections are given does not
//! matter to it, and no timetable is listed twice.
use vstd::prelude::*;
use crate::model::{RequirementView, SectionOptionView, TermCalendarView, TimeChoiceView};
use crate::optimizer::{
    all_option_ids, arranged, best_score, choice_le, classes, closing_notices, feasible,
    group_classes, group_key, group_le, group_of, groups_of, id_le, inbound,
    law_search_is_exhaustive, lemma_class_shrinks, lemma_sorted_elements, lemma_timetables_differ,
    located, located_in, opening_notices, optima, option_ids, option_notices, option_searchable,
    option_fault, options_fault, options_notices, outbound, placed_elsewhere, problem_fault, problem_of,
    requirement_fault, requirement_ids, requirement_notices, search_groups, search_notices, searchable_options, solved,
    timetable_score, timetables, GroupView, Located,
};
use crate::order::{
    distinct_ascending, insertion_point, law_stable_sorted, lemma_distinct_ascending,
    lemma_filtered, lemma_insertion_point, stable_sorted, Rank,
};
use crate::laws::lemma_ascending_is_unique;
use crate::text::{text_before, trimmed};

verus! {

/// No two elements have the same key.
pub(crate) open spec fn distinct_by<T, K>(s: Seq<T>, key: spec_fn(T) -> K) -> bool {
    forall|i: int, j: int|
        #![trigger s[i], s[j]]
        0 <= i < s.len() && 0 <= j < s.len() && i != j ==> key(s[i]) != key(s[j])
}

/// The sequences have the same elements.
pub(crate) open spec fn same_elements<T>(a: Seq<T>, b: Seq<T>) -> bool {
    forall|x: T| #[trigger] a.contains(x) <==> b.contains(x)
}

/// Every element may precede the later ones.
pub(crate) open spec fn in_order<T>(s: Seq<T>, le: spec_fn(T, T) -> bool) -> bool {
    forall|i: int, j: int| #![trigger s[i], s[j]] 0 <= i < j < s.len() ==> le(s[i], s[j])
}

/// Different elements have one order.
pub(crate) proof fn lemma_sorted_unique<T, K>(
    a: Seq<T>,
    b: Seq<T>,
    le: spec_fn(T, T) -> bool,
    key: spec_fn(T) -> K,
)
    requires
        in_order(a, le),
        in_order(b, le),
        distinct_by(a, key),
        distinct_by(b, key),
        same_elements(a, b),
        forall|x: T, y: T| #![trigger le(x, y)] le(x, y) && le(y, x) ==> key(x) == key(y),
    ensures
        a == b,
    decreases a.len(),
{
    if a.len() == 0 {
        if b.len() > 0 {
            assert(b.contains(b[0]));
            assert(a.contains(b[0]));
        }
        assert(a =~= b);
    } else {
        let n = a.len() - 1;
        assert(a.contains(a[n]));
        assert(b.contains(a[n]));
        let m = b.len() - 1;
        let k = choose|k: int| 0 <= k < b.len() && b[k] == a[n];
        assert(b.contains(b[m]));
        assert(a.contains(b[m]));
        let i = choose|i: int| 0 <= i < a.len() && a[i] == b[m];
        if k < m && i < n {
            assert(le(b[k], b[m]));
            assert(le(a[i], a[n]));
            assert(key(a[n]) == key(b[m]));
            assert(key(a[i]) != key(a[n]));
        }
        assert(a[n] == b[m]);
        let c = a.drop_last();
        let d = b.drop_last();
        assert forall|i: int, j: int| #![trigger c[i], c[j]] 0 <= i < j < c.len() implies le(
            c[i],
            c[j],
        ) by {
            assert(c[i] == a[i] && c[j] == a[j]);
        }
        assert forall|i: int, j: int| #![trigger d[i], d[j]] 0 <= i < j < d.len() implies le(
            d[i],
            d[j],
        ) by {
            assert(d[i] == b[i] && d[j] == b[j]);
        }
        assert forall|i: int, j: int|
            #![trigger c[i], c[j]]
            0 <= i < c.len() && 0 <= j < c.len() && i != j implies key(c[i]) != key(c[j]) by {
            assert(c[i] == a[i] && c[j] == a[j]);
        }
        assert forall|i: int, j: int|
            #![trigger d[i], d[j]]
            0 <= i < d.len() && 0 <= j < d.len() && i != j implies key(d[i]) != key(d[j]) by {
            assert(d[i] == b[i] && d[j] == b[j]);
        }
        assert forall|x: T| #[trigger] c.contains(x) <==> d.contains(x) by {
            if c.contains(x) {
                let p = choose|p: int| 0 <= p < c.len() && c[p] == x;
                assert(a[p] == x);
                assert(a.contains(x));
                assert(b.contains(x));
                let q = choose|q: int| 0 <= q < b.len() && b[q] == x;
                assert(key(a[p]) != key(a[n]));
                assert(q < m);
                assert(d[q] == x);
            }
            if d.contains(x) {
                let p = choose|p: int| 0 <= p < d.len() && d[p] == x;
                assert(b[p] == x);
                assert(b.contains(x));
                assert(a.contains(x));
                let q = choose|q: int| 0 <= q < a.len() && a[q] == x;
                assert(key(b[p]) != key(b[m]));
                assert(q < n);
                assert(c[q] == x);
            }
        }
        lemma_sorted_unique(c, d, le, key);
        assert(a =~= c.push(a[n]));
        assert(b =~= d.push(b[m]));
    }
}

proof fn lemma_sorted_distinct<T, K>(
    s: Seq<T>,
    le: spec_fn(T, T) -> bool,
    key: spec_fn(T) -> K,
)
    requires
        distinct_by(s, key),
    ensures
        distinct_by(stable_sorted(s, le), key),
    decreases s.len(),
{
    if s.len() > 0 {
        let tail = s.drop_first();
        assert forall|i: int, j: int|
            #![trigger tail[i], tail[j]]
            0 <= i < tail.len() && 0 <= j < tail.len() && i != j implies key(tail[i]) != key(
            tail[j],
        ) by {
            assert(tail[i] == s[i + 1] && tail[j] == s[j + 1]);
        }
        lemma_sorted_distinct(tail, le, key);
        lemma_sorted_elements(tail, le);
        let rest = stable_sorted(tail, le);
        lemma_insertion_point(rest, s[0], le);
        let n = insertion_point(rest, s[0], le);
        let out = rest.insert(n, s[0]);
        assert forall|i: int| 0 <= i < rest.len() implies key(#[trigger] rest[i]) != key(s[0]) by {
            assert(rest.contains(rest[i]));
            assert(tail.contains(rest[i]));
            let k = choose|k: int| 0 <= k < tail.len() && tail[k] == rest[i];
            assert(tail[k] == s[k + 1]);
            assert(key(s[k + 1]) != key(s[0]));
        }
        assert forall|i: int, j: int|
            #![trigger out[i], out[j]]
            0 <= i < out.len() && 0 <= j < out.len() && i != j implies key(out[i]) != key(
            out[j],
        ) by {
            let p = if i < n {
                i
            } else {
                i - 1
            };
            let q = if j < n {
                j
            } else {
                j - 1
            };
            if i != n {
                assert(out[i] == rest[p]);
            }
            if j != n {
                assert(out[j] == rest[q]);
            }
        }
    }
}

/// Sorting forgets the order that elements with different keys had.
proof fn lemma_same_order<T, K>(
    a: Seq<T>,
    b: Seq<T>,
    le: spec_fn(T, T) -> bool,
    key: spec_fn(T) -> K,
)
    requires
        distinct_by(a, key),
        distinct_by(b, key),
        same_elements(a, b),
        forall|x: T, y: T| #![trigger le(x, y)] le(x, y) || le(y, x),
        forall|x: T, y: T, z: T| #![trigger le(x, y), le(y, z)] le(x, y) && le(y, z) ==> le(x, z),
        forall|x: T, y: T| #![trigger le(x, y)] le(x, y) && le(y, x) ==> key(x) == key(y),
    ensures
        stable_sorted(a, le) == stable_sorted(b, le),
{
    law_stable_sorted(a, le);
    law_stable_sorted(b, le);
    lemma_sorted_distinct(a, le, key);
    lemma_sorted_distinct(b, le, key);
    lemma_sorted_elements(a, le);
    lemma_sorted_elements(b, le);
    let c = stable_sorted(a, le);
    let d = stable_sorted(b, le);
    assert forall|x: T| #[trigger] c.contains(x) <==> d.contains(x) by {
        assert(a.contains(x) <==> b.contains(x));
    }
    lemma_sorted_unique(c, d, le, key);
}

proof fn lemma_filter_distinct<T, K>(
    s: Seq<T>,
    pred: spec_fn(T) -> bool,
    key: spec_fn(T) -> K,
)
    requires
        distinct_by(s, key),
    ensures
        distinct_by(s.filter(pred), key),
    decreases s.len(),
{
    reveal(Seq::filter);
    if s.len() > 0 {
        let rest = s.drop_last();
        assert forall|i: int, j: int|
            #![trigger rest[i], rest[j]]
            0 <= i < rest.len() && 0 <= j < rest.len() && i != j implies key(rest[i]) != key(
            rest[j],
        ) by {
            assert(rest[i] == s[i] && rest[j] == s[j]);
        }
        lemma_filter_distinct(rest, pred, key);
        let kept = rest.filter(pred);
        let out = s.filter(pred);
        assert forall|i: int| 0 <= i < kept.len() implies key(#[trigger] kept[i]) != key(
            s.last(),
        ) by {
            assert(kept.contains(kept[i]));
            lemma_filtered(rest, pred, kept[i]);
            let k = choose|k: int| 0 <= k < rest.len() && rest[k] == kept[i];
            assert(s[k] == rest[k]);
            assert(key(s[k]) != key(s[s.len() - 1]));
        }
        assert forall|i: int, j: int|
            #![trigger out[i], out[j]]
            0 <= i < out.len() && 0 <= j < out.len() && i != j implies key(out[i]) != key(
            out[j],
        ) by {
            if i < kept.len() {
                assert(out[i] == kept[i]);
            }
            if j < kept.len() {
                assert(out[j] == kept[j]);
            }
        }
    }
}

proof fn lemma_filter_same<T>(s: Seq<T>, p: spec_fn(T) -> bool, q: spec_fn(T) -> bool)
    requires
        forall|i: int| 0 <= i < s.len() ==> p(#[trigger] s[i]) == q(s[i]),
    ensures
        s.filter(p) == s.filter(q),
    decreases s.len(),
{
    reveal(Seq::filter);
    if s.len() > 0 {
        let rest = s.drop_last();
        assert forall|i: int| 0 <= i < rest.len() implies p(#[trigger] rest[i]) == q(rest[i]) by {
            assert(rest[i] == s[i]);
        }
        lemma_filter_same(rest, p, q);
        assert(p(s[s.len() - 1]) == q(s[s.len() - 1]));
    }
}

/// Keys that tell the same elements apart give the same classes.
proof fn lemma_classes_same<T, K>(s: Seq<T>, f: spec_fn(T) -> K, g: spec_fn(T) -> K)
    requires
        forall|i: int, j: int|
            #![trigger s[i], s[j]]
            0 <= i < s.len() && 0 <= j < s.len() ==> (f(s[i]) == f(s[j]) <==> g(s[i]) == g(s[j])),
    ensures
        classes(s, f) == classes(s, g),
    decreases s.len(),
{
    if s.len() > 0 {
        let of = |x: T| f(x) == f(s[0]);
        let og = |x: T| g(x) == g(s[0]);
        let nf = |x: T| f(x) != f(s[0]);
        let ng = |x: T| g(x) != g(s[0]);
        assert forall|i: int| 0 <= i < s.len() implies of(#[trigger] s[i]) == og(s[i]) && nf(s[i])
            == ng(s[i]) by {
            assert(f(s[i]) == f(s[0]) <==> g(s[i]) == g(s[0]));
        }
        lemma_filter_same(s, of, og);
        lemma_filter_same(s, nf, ng);
        lemma_class_shrinks(s, f);
        let rest = s.filter(nf);
        assert forall|i: int, j: int|
            #![trigger rest[i], rest[j]]
            0 <= i < rest.len() && 0 <= j < rest.len() implies (f(rest[i]) == f(rest[j]) <==> g(
            rest[i],
        ) == g(rest[j])) by {
            assert(rest.contains(rest[i]) && rest.contains(rest[j]));
            lemma_filtered(s, nf, rest[i]);
            lemma_filtered(s, nf, rest[j]);
            let p = choose|p: int| 0 <= p < s.len() && s[p] == rest[i];
            let q = choose|q: int| 0 <= q < s.len() && s[q] == rest[j];
            assert(f(s[p]) == f(s[q]) <==> g(s[p]) == g(s[q]));
        }
        lemma_classes_same(rest, f, g);
    }
}

proof fn lemma_options_distinct(
    seen: Seq<Seq<char>>,
    kind: Seq<char>,
    options: Seq<SectionOptionView>,
    calendar: Option<TermCalendarView>,
)
    requires
        seen.no_duplicates(),
        options_fault(seen, kind, options, calendar) is None,
    ensures
        (seen + option_ids(options)).no_duplicates(),
    decreases options.len(),
{
    if options.len() == 0 {
        assert(seen + option_ids(options) =~= seen);
    } else {
        let rest = options.drop_last();
        lemma_options_distinct(seen, kind, rest, calendar);
        let before = seen + option_ids(rest);
        let id = options.last().id;
        assert(!before.contains(id));
        assert(seen + option_ids(options) =~= before.push(id));
        assert forall|i: int, j: int|
            0 <= i < before.push(id).len() && 0 <= j < before.push(id).len() && i
                != j implies before.push(id)[i] != before.push(id)[j] by {
            if i == before.len() {
                assert(before.contains(before[j]));
            }
            if j == before.len() {
                assert(before.contains(before[i]));
            }
        }
    }
}

proof fn lemma_all_distinct(
    requirements: Seq<RequirementView>,
    calendar: Option<TermCalendarView>,
)
    requires
        problem_fault(requirements, calendar) is None,
    ensures
        all_option_ids(requirements).no_duplicates(),
        distinct_by(requirements, |r: RequirementView| r.id),
        forall|i: int|
            0 <= i < requirements.len() ==> distinct_by(
                (#[trigger] requirements[i]).options,
                |o: SectionOptionView| o.id,
            ),
    decreases requirements.len(),
{
    let id_of = |r: RequirementView| r.id;
    let option_id = |o: SectionOptionView| o.id;
    if requirements.len() > 0 {
        let rest = requirements.drop_last();
        let last = requirements.last();
        lemma_all_distinct(rest, calendar);
        let seen = all_option_ids(rest);
        lemma_options_distinct(seen, last.kind, last.options, calendar);
        let all = seen + option_ids(last.options);
        assert forall|i: int, j: int|
            #![trigger last.options[i], last.options[j]]
            0 <= i < last.options.len() && 0 <= j < last.options.len() && i != j implies option_id(
            last.options[i],
        ) != option_id(last.options[j]) by {
            assert(all[seen.len() + i] == last.options[i].id);
            assert(all[seen.len() + j] == last.options[j].id);
        }
        assert forall|i: int, j: int|
            #![trigger requirements[i], requirements[j]]
            0 <= i < requirements.len() && 0 <= j < requirements.len() && i != j implies id_of(
            requirements[i],
        ) != id_of(requirements[j]) by {
            let ids = requirement_ids(rest);
            if i < rest.len() {
                assert(rest[i] == requirements[i]);
                assert(ids[i] == requirements[i].id);
                assert(ids.contains(ids[i]));
            }
            if j < rest.len() {
                assert(rest[j] == requirements[j]);
                assert(ids[j] == requirements[j].id);
                assert(ids.contains(ids[j]));
            }
        }
        assert forall|i: int| 0 <= i < requirements.len() implies distinct_by(
            (#[trigger] requirements[i]).options,
            option_id,
        ) by {
            if i < rest.len() {
                assert(rest[i] == requirements[i]);
            }
        }
    }
}

proof fn lemma_option_id_of_requirement(
    requirements: Seq<RequirementView>,
    i: int,
    option: SectionOptionView,
)
    requires
        0 <= i < requirements.len(),
        requirements[i].options.contains(option),
    ensures
        all_option_ids(requirements).contains(option.id),
    decreases requirements.len(),
{
    let rest = requirements.drop_last();
    let last = requirements.last();
    let all = all_option_ids(requirements);
    let before = all_option_ids(rest);
    if i < rest.len() {
        assert(rest[i] == requirements[i]);
        lemma_option_id_of_requirement(rest, i, option);
        let k = choose|k: int| 0 <= k < before.len() && before[k] == option.id;
        assert(all[k] == option.id);
    } else {
        let k = choose|k: int| 0 <= k < last.options.len() && last.options[k] == option;
        assert(option_ids(last.options)[k] == option.id);
        assert(all[before.len() + k] == option.id);
    }
}

/// A requirement has a section that can be placed.
spec fn places(requirement: RequirementView, l: Located) -> bool {
    &&& l.requirement_id == requirement.id
    &&& requirement.options.contains(l.option)
    &&& option_searchable(requirement.kind, l.option)
}

pub(crate) proof fn lemma_searchable(requirement: RequirementView, option: SectionOptionView)
    ensures
        searchable_options(requirement).contains(option) <==> requirement.options.contains(option)
            && option_searchable(requirement.kind, option),
{
    lemma_filtered(
        requirement.options,
        |option: SectionOptionView| option_searchable(requirement.kind, option),
        option,
    );
}

proof fn lemma_located_in(requirement: RequirementView, l: Located)
    ensures
        located_in(requirement).contains(l) <==> places(requirement, l),
{
    let options = searchable_options(requirement);
    let all = located_in(requirement);
    lemma_searchable(requirement, l.option);
    if all.contains(l) {
        let k = choose|k: int| 0 <= k < all.len() && all[k] == l;
        assert(options[k] == l.option);
    }
    if places(requirement, l) {
        let k = choose|k: int| 0 <= k < options.len() && options[k] == l.option;
        assert(all[k] == l);
    }
}

proof fn lemma_located(requirements: Seq<RequirementView>, l: Located)
    ensures
        located(requirements).contains(l) <==> exists|i: int|
            0 <= i < requirements.len() && places(#[trigger] requirements[i], l),
    decreases requirements.len(),
{
    if requirements.len() > 0 {
        let rest = requirements.drop_last();
        let last = requirements.last();
        lemma_located(rest, l);
        lemma_located_in(last, l);
        let all = located(requirements);
        let before = located(rest);
        let added = located_in(last);
        if all.contains(l) {
            let k = choose|k: int| 0 <= k < all.len() && all[k] == l;
            if k < before.len() {
                assert(before[k] == l);
                let i = choose|i: int| 0 <= i < rest.len() && places(#[trigger] rest[i], l);
                assert(places(requirements[i], l));
            } else {
                assert(added[k - before.len()] == l);
                assert(places(requirements[requirements.len() - 1], l));
            }
        }
        if exists|i: int| 0 <= i < requirements.len() && places(#[trigger] requirements[i], l) {
            let i = choose|i: int|
                0 <= i < requirements.len() && places(#[trigger] requirements[i], l);
            if i < rest.len() {
                assert(places(rest[i], l));
                let k = choose|k: int| 0 <= k < before.len() && before[k] == l;
                assert(all[k] == l);
            } else {
                let k = choose|k: int| 0 <= k < added.len() && added[k] == l;
                assert(all[before.len() + k] == l);
            }
        }
    }
}

/// The id of a placed section.
spec fn placed_id() -> spec_fn(Located) -> Seq<char> {
    |l: Located| l.option.id
}

proof fn lemma_located_distinct(
    requirements: Seq<RequirementView>,
    calendar: Option<TermCalendarView>,
)
    requires
        problem_fault(requirements, calendar) is None,
    ensures
        distinct_by(located(requirements), placed_id()),
    decreases requirements.len(),
{
    if requirements.len() > 0 {
        let rest = requirements.drop_last();
        let last = requirements.last();
        lemma_located_distinct(rest, calendar);
        lemma_all_distinct(requirements, calendar);
        assert(distinct_by(
            requirements[requirements.len() - 1].options,
            |o: SectionOptionView| o.id,
        ));
        let options = searchable_options(last);
        lemma_filter_distinct(
            last.options,
            |option: SectionOptionView| option_searchable(last.kind, option),
            |o: SectionOptionView| o.id,
        );
        let before = located(rest);
        let added = located_in(last);
        let all = located(requirements);
        let ids = all_option_ids(rest);
        let own = option_ids(last.options);
        assert(all_option_ids(requirements) == ids + own);
        assert forall|i: int, j: int|
            0 <= i < before.len() && 0 <= j < added.len() implies (#[trigger] before[i]).option.id
            != (#[trigger] added[j]).option.id by {
            lemma_located(rest, before[i]);
            assert(before.contains(before[i]));
            let k = choose|k: int| 0 <= k < rest.len() && places(#[trigger] rest[k], before[i]);
            lemma_option_id_of_requirement(rest, k, before[i].option);
            let p = choose|p: int| 0 <= p < ids.len() && ids[p] == before[i].option.id;
            lemma_located_in(last, added[j]);
            assert(added.contains(added[j]));
            let q = choose|q: int|
                0 <= q < last.options.len() && last.options[q] == added[j].option;
            assert((ids + own)[p] == before[i].option.id);
            assert((ids + own)[ids.len() + q] == added[j].option.id);
        }
        assert forall|i: int, j: int|
            #![trigger all[i], all[j]]
            0 <= i < all.len() && 0 <= j < all.len() && i != j implies placed_id()(all[i])
            != placed_id()(all[j]) by {
            let n = before.len();
            if i < n {
                assert(all[i] == before[i]);
            } else {
                assert(all[i] == added[i - n]);
                assert(added[i - n].option == options[i - n]);
            }
            if j < n {
                assert(all[j] == before[j]);
            } else {
                assert(all[j] == added[j - n]);
                assert(added[j - n].option == options[j - n]);
            }
        }
    }
}

proof fn lemma_inbound(
    all: Seq<Located>,
    requirement_id: Seq<char>,
    option: SectionOptionView,
    id: Seq<char>,
)
    ensures
        inbound(all, requirement_id, option).contains(id) <==> exists|i: int|
            0 <= i < all.len() && (#[trigger] all[i]).requirement_id != requirement_id
                && all[i].option.incompatible_with.contains(option.id) && all[i].option.id == id,
    decreases all.len(),
{
    if all.len() > 0 {
        let rest = all.drop_last();
        let last = all.last();
        lemma_inbound(rest, requirement_id, option, id);
        let before = inbound(rest, requirement_id, option);
        let after = inbound(all, requirement_id, option);
        assert(forall|i: int| 0 <= i < rest.len() ==> rest[i] == all[i]);
        if after.contains(id) {
            let k = choose|k: int| 0 <= k < after.len() && after[k] == id;
            if k < before.len() {
                assert(before[k] == id);
                let i = choose|i: int|
                    0 <= i < rest.len() && (#[trigger] rest[i]).requirement_id != requirement_id
                        && rest[i].option.incompatible_with.contains(option.id)
                        && rest[i].option.id == id;
                assert(all[i].option.id == id);
            } else {
                assert(all[all.len() - 1].option.id == id);
            }
        }
        if exists|i: int|
            0 <= i < all.len() && (#[trigger] all[i]).requirement_id != requirement_id
                && all[i].option.incompatible_with.contains(option.id) && all[i].option.id == id {
            let i = choose|i: int|
                0 <= i < all.len() && (#[trigger] all[i]).requirement_id != requirement_id
                    && all[i].option.incompatible_with.contains(option.id) && all[i].option.id
                    == id;
            if i < rest.len() {
                assert(rest[i].option.id == id);
                let k = choose|k: int| 0 <= k < before.len() && before[k] == id;
                assert(after[k] == id);
            } else {
                assert(after[before.len() as int] == id);
            }
        }
    }
}

/// Every section of another requirement excludes both or neither.
spec fn excluded_alike(
    all: Seq<Located>,
    requirement_id: Seq<char>,
    x: SectionOptionView,
    y: SectionOptionView,
) -> bool {
    forall|l: Located| #[trigger]
        all.contains(l) && l.requirement_id != requirement_id
            ==> (l.option.incompatible_with.contains(x.id)
            <==> l.option.incompatible_with.contains(y.id))
}

proof fn lemma_same_inbound(
    all: Seq<Located>,
    requirement_id: Seq<char>,
    x: SectionOptionView,
    y: SectionOptionView,
)
    requires
        excluded_alike(all, requirement_id, x, y),
    ensures
        inbound(all, requirement_id, x) == inbound(all, requirement_id, y),
    decreases all.len(),
{
    if all.len() > 0 {
        let rest = all.drop_last();
        assert forall|l: Located| #[trigger]
            rest.contains(l) && l.requirement_id != requirement_id implies (
        l.option.incompatible_with.contains(x.id) <==> l.option.incompatible_with.contains(
            y.id,
        )) by {
            let k = choose|k: int| 0 <= k < rest.len() && rest[k] == l;
            assert(all[k] == l);
            assert(all.contains(l));
        }
        lemma_same_inbound(rest, requirement_id, x, y);
        assert(all.contains(all[all.len() - 1]));
    }
}

proof fn lemma_inbound_alike(
    all: Seq<Located>,
    requirement_id: Seq<char>,
    x: SectionOptionView,
    y: SectionOptionView,
)
    requires
        distinct_by(all, placed_id()),
    ensures
        inbound(all, requirement_id, x) == inbound(all, requirement_id, y) <==> excluded_alike(
            all,
            requirement_id,
            x,
            y,
        ),
{
    if excluded_alike(all, requirement_id, x, y) {
        lemma_same_inbound(all, requirement_id, x, y);
    }
    if inbound(all, requirement_id, x) == inbound(all, requirement_id, y) {
        assert forall|l: Located| #[trigger]
            all.contains(l) && l.requirement_id != requirement_id implies (
        l.option.incompatible_with.contains(x.id) <==> l.option.incompatible_with.contains(
            y.id,
        )) by {
            let k = choose|k: int| 0 <= k < all.len() && all[k] == l;
            let id = l.option.id;
            lemma_inbound(all, requirement_id, x, id);
            lemma_inbound(all, requirement_id, y, id);
            if l.option.incompatible_with.contains(x.id) {
                assert(all[k].option.id == id);
                assert(inbound(all, requirement_id, y).contains(id));
                let i = choose|i: int|
                    0 <= i < all.len() && (#[trigger] all[i]).requirement_id != requirement_id
                        && all[i].option.incompatible_with.contains(y.id) && all[i].option.id
                        == id;
                if i != k {
                    assert(placed_id()(all[i]) != placed_id()(all[k]));
                }
            }
            if l.option.incompatible_with.contains(y.id) {
                assert(all[k].option.id == id);
                assert(inbound(all, requirement_id, x).contains(id));
                let i = choose|i: int|
                    0 <= i < all.len() && (#[trigger] all[i]).requirement_id != requirement_id
                        && all[i].option.incompatible_with.contains(x.id) && all[i].option.id
                        == id;
                if i != k {
                    assert(placed_id()(all[i]) != placed_id()(all[k]));
                }
            }
        }
    }
}

proof fn lemma_same_outbound(
    a: Seq<Located>,
    b: Seq<Located>,
    requirement_id: Seq<char>,
    option: SectionOptionView,
)
    requires
        same_elements(a, b),
    ensures
        outbound(a, requirement_id, option) == outbound(b, requirement_id, option),
{
    let f = |id: Seq<char>| placed_elsewhere(a, requirement_id, id);
    let g = |id: Seq<char>| placed_elsewhere(b, requirement_id, id);
    assert forall|id: Seq<char>| #[trigger] f(id) == g(id) by {
        if placed_elsewhere(a, requirement_id, id) {
            let i = choose|i: int|
                0 <= i < a.len() && (#[trigger] a[i]).requirement_id != requirement_id
                    && a[i].option.id == id;
            assert(a.contains(a[i]));
            assert(b.contains(a[i]));
            let j = choose|j: int| 0 <= j < b.len() && b[j] == a[i];
            assert(b[j].option.id == id);
        }
        if placed_elsewhere(b, requirement_id, id) {
            let i = choose|i: int|
                0 <= i < b.len() && (#[trigger] b[i]).requirement_id != requirement_id
                    && b[i].option.id == id;
            assert(b.contains(b[i]));
            assert(a.contains(b[i]));
            let j = choose|j: int| 0 <= j < a.len() && a[j] == b[i];
            assert(a[j].option.id == id);
        }
    }
    lemma_filter_same(option.incompatible_with, f, g);
}

/// The same requirement, with its sections in any order.
spec fn same_requirement(x: RequirementView, y: RequirementView) -> bool {
    &&& x.id == y.id
    &&& x.kind == y.kind
    &&& x.has_unknown_times == y.has_unknown_times
    &&& forall|option: SectionOptionView| #[trigger]
        x.options.contains(option) <==> y.options.contains(option)
}

/// The same requirement is in a list, with its sections in any order.
spec fn holds(b: Seq<RequirementView>, x: RequirementView) -> bool {
    exists|j: int| 0 <= j < b.len() && same_requirement(x, #[trigger] b[j])
}

/// Every requirement of `a` is in `b`, with its sections in any order.
spec fn covered(a: Seq<RequirementView>, b: Seq<RequirementView>) -> bool {
    forall|i: int| 0 <= i < a.len() ==> holds(b, #[trigger] a[i])
}

proof fn lemma_covered(a: Seq<RequirementView>, b: Seq<RequirementView>, i: int) -> (j: int)
    requires
        covered(a, b),
        0 <= i < a.len(),
    ensures
        0 <= j < b.len(),
        same_requirement(a[i], b[j]),
{
    assert(holds(b, a[i]));
    choose|j: int| 0 <= j < b.len() && same_requirement(a[i], #[trigger] b[j])
}

proof fn lemma_same_located(a: Seq<RequirementView>, b: Seq<RequirementView>)
    requires
        covered(a, b),
        covered(b, a),
    ensures
        same_elements(located(a), located(b)),
{
    assert forall|l: Located| #[trigger] located(a).contains(l) <==> located(b).contains(l) by {
        lemma_located(a, l);
        lemma_located(b, l);
        if located(a).contains(l) {
            let i = choose|i: int| 0 <= i < a.len() && places(#[trigger] a[i], l);
            let j = lemma_covered(a, b, i);
            assert(places(b[j], l));
        }
        if located(b).contains(l) {
            let i = choose|i: int| 0 <= i < b.len() && places(#[trigger] b[i], l);
            let j = lemma_covered(b, a, i);
            assert(places(a[j], l));
        }
    }
}

pub(crate) proof fn lemma_id_order()
    ensures
        forall|x: SectionOptionView, y: SectionOptionView|
            #![trigger id_le()(x, y)]
            id_le()(x, y) || id_le()(y, x),
        forall|x: SectionOptionView, y: SectionOptionView, z: SectionOptionView|
            #![trigger id_le()(x, y), id_le()(y, z)]
            id_le()(x, y) && id_le()(y, z) ==> id_le()(x, z),
        forall|x: SectionOptionView, y: SectionOptionView|
            #![trigger id_le()(x, y)]
            id_le()(x, y) && id_le()(y, x) ==> x.id == y.id,
{
    assert forall|x: SectionOptionView, y: SectionOptionView|
        #![trigger id_le()(x, y)]
        (id_le()(x, y) || id_le()(y, x)) && (id_le()(x, y) && id_le()(y, x) ==> x.id == y.id) by {
        <String as Rank>::before_total(x.id, y.id);
        if text_before(x.id, y.id) && text_before(y.id, x.id) {
            <String as Rank>::before_transitive(x.id, y.id, x.id);
            <String as Rank>::before_irreflexive(x.id);
        }
    }
    assert forall|x: SectionOptionView, y: SectionOptionView, z: SectionOptionView|
        #![trigger id_le()(x, y), id_le()(y, z)]
        id_le()(x, y) && id_le()(y, z) implies id_le()(x, z) by {
        lemma_not_before(x.id, y.id, z.id);
    }
}

/// Not coming after is transitive.
proof fn lemma_not_before(a: Seq<char>, b: Seq<char>, c: Seq<char>)
    requires
        !text_before(b, a),
        !text_before(c, b),
    ensures
        !text_before(c, a),
{
    <String as Rank>::before_total(a, b);
    <String as Rank>::before_total(b, c);
    if text_before(c, a) {
        if a != b {
            <String as Rank>::before_transitive(c, a, b);
        }
    }
}

proof fn lemma_group_order()
    ensures
        forall|x: GroupView, y: GroupView|
            #![trigger group_le()(x, y)]
            group_le()(x, y) || group_le()(y, x),
        forall|x: GroupView, y: GroupView, z: GroupView|
            #![trigger group_le()(x, y), group_le()(y, z)]
            group_le()(x, y) && group_le()(y, z) ==> group_le()(x, z),
        forall|x: GroupView, y: GroupView|
            #![trigger group_le()(x, y)]
            group_le()(x, y) && group_le()(y, x) ==> x.requirement_id == y.requirement_id,
{
    assert forall|x: GroupView, y: GroupView|
        #![trigger group_le()(x, y)]
        (group_le()(x, y) || group_le()(y, x)) && (group_le()(x, y) && group_le()(y, x)
            ==> x.requirement_id == y.requirement_id) by {
        <String as Rank>::before_total(x.requirement_id, y.requirement_id);
        if text_before(x.requirement_id, y.requirement_id) && text_before(
            y.requirement_id,
            x.requirement_id,
        ) {
            <String as Rank>::before_transitive(
                x.requirement_id,
                y.requirement_id,
                x.requirement_id,
            );
            <String as Rank>::before_irreflexive(x.requirement_id);
        }
    }
    assert forall|x: GroupView, y: GroupView, z: GroupView|
        #![trigger group_le()(x, y), group_le()(y, z)]
        group_le()(x, y) && group_le()(y, z) implies group_le()(x, z) by {
        if x.choices.len() == y.choices.len() && y.choices.len() == z.choices.len() {
            lemma_not_before(x.requirement_id, y.requirement_id, z.requirement_id);
        }
    }
}

/// The sections of a requirement that can be placed, by id, are the same in any order.
proof fn lemma_same_sorted(x: RequirementView, y: RequirementView)
    requires
        same_requirement(x, y),
        distinct_by(x.options, |o: SectionOptionView| o.id),
        distinct_by(y.options, |o: SectionOptionView| o.id),
    ensures
        stable_sorted(searchable_options(x), id_le()) == stable_sorted(
            searchable_options(y),
            id_le(),
        ),
        (searchable_options(x).len() == 0) == (searchable_options(y).len() == 0),
{
    let id_of = |o: SectionOptionView| o.id;
    let a = searchable_options(x);
    let b = searchable_options(y);
    lemma_filter_distinct(
        x.options,
        |option: SectionOptionView| option_searchable(x.kind, option),
        id_of,
    );
    lemma_filter_distinct(
        y.options,
        |option: SectionOptionView| option_searchable(y.kind, option),
        id_of,
    );
    assert forall|o: SectionOptionView| #[trigger] a.contains(o) <==> b.contains(o) by {
        lemma_searchable(x, o);
        lemma_searchable(y, o);
        assert(x.options.contains(o) <==> y.options.contains(o));
    }
    lemma_id_order();
    lemma_same_order(a, b, id_le(), id_of);
    lemma_sorted_elements(a, id_le());
    lemma_sorted_elements(b, id_le());
}

proof fn lemma_same_group(
    all: Seq<Located>,
    other: Seq<Located>,
    x: RequirementView,
    y: RequirementView,
)
    requires
        same_requirement(x, y),
        distinct_by(x.options, |o: SectionOptionView| o.id),
        distinct_by(y.options, |o: SectionOptionView| o.id),
        same_elements(all, other),
        distinct_by(all, placed_id()),
        distinct_by(other, placed_id()),
    ensures
        group_of(all, x) == group_of(other, y),
{
    lemma_same_sorted(x, y);
    let sorted = stable_sorted(searchable_options(x), id_le());
    let f = |option: SectionOptionView| group_key(all, x.id, option);
    let g = |option: SectionOptionView| group_key(other, y.id, option);
    assert forall|i: int, j: int|
        #![trigger sorted[i], sorted[j]]
        0 <= i < sorted.len() && 0 <= j < sorted.len() implies (f(sorted[i]) == f(sorted[j]) <==> g(
        sorted[i],
    ) == g(sorted[j])) by {
        let p = sorted[i];
        let q = sorted[j];
        lemma_same_outbound(all, other, x.id, p);
        lemma_same_outbound(all, other, x.id, q);
        lemma_inbound_alike(all, x.id, p, q);
        lemma_inbound_alike(other, x.id, p, q);
        assert(excluded_alike(all, x.id, p, q) <==> excluded_alike(other, x.id, p, q)) by {
            if excluded_alike(all, x.id, p, q) {
                assert forall|l: Located| #[trigger]
                    other.contains(l) && l.requirement_id != x.id implies (
                l.option.incompatible_with.contains(p.id)
                    <==> l.option.incompatible_with.contains(q.id)) by {
                    assert(all.contains(l));
                }
            }
            if excluded_alike(other, x.id, p, q) {
                assert forall|l: Located| #[trigger]
                    all.contains(l) && l.requirement_id != x.id implies (
                l.option.incompatible_with.contains(p.id)
                    <==> l.option.incompatible_with.contains(q.id)) by {
                    assert(other.contains(l));
                }
            }
        }
        let fp = f(p);
        let fq = f(q);
        let gp = g(p);
        let gq = g(q);
        assert(fp.meetings == gp.meetings && fq.meetings == gq.meetings);
        assert(fp.outbound == gp.outbound && fq.outbound == gq.outbound);
        assert((fp.inbound == fq.inbound) <==> (gp.inbound == gq.inbound));
    }
    lemma_classes_same(sorted, f, g);
    assert(group_classes(all, x) == group_classes(other, y));
    assert(group_of(all, x) =~= group_of(other, y));
}

/// The groups of requirements that can be placed.
proof fn lemma_groups(all: Seq<Located>, requirements: Seq<RequirementView>, g: GroupView)
    ensures
        groups_of(all, requirements).contains(g) <==> exists|i: int|
            0 <= i < requirements.len() && searchable_options(#[trigger] requirements[i]).len() > 0
                && g == group_of(all, requirements[i]),
    decreases requirements.len(),
{
    if requirements.len() > 0 {
        let rest = requirements.drop_last();
        let last = requirements.last();
        lemma_groups(all, rest, g);
        let before = groups_of(all, rest);
        let after = groups_of(all, requirements);
        assert(forall|i: int| 0 <= i < rest.len() ==> rest[i] == requirements[i]);
        if after.contains(g) {
            let k = choose|k: int| 0 <= k < after.len() && after[k] == g;
            if k < before.len() {
                assert(before[k] == g);
                let i = choose|i: int|
                    0 <= i < rest.len() && searchable_options(#[trigger] rest[i]).len() > 0 && g
                        == group_of(all, rest[i]);
                assert(g == group_of(all, requirements[i]));
            } else {
                assert(g == group_of(all, requirements[requirements.len() - 1]));
            }
        }
        if exists|i: int|
            0 <= i < requirements.len() && searchable_options(#[trigger] requirements[i]).len() > 0
                && g == group_of(all, requirements[i]) {
            let i = choose|i: int|
                0 <= i < requirements.len() && searchable_options(
                    #[trigger] requirements[i],
                ).len() > 0 && g == group_of(all, requirements[i]);
            if i < rest.len() {
                assert(g == group_of(all, rest[i]));
                let k = choose|k: int| 0 <= k < before.len() && before[k] == g;
                assert(after[k] == g);
            } else {
                assert(after[before.len() as int] == g);
            }
        }
    }
}

proof fn lemma_groups_distinct(all: Seq<Located>, requirements: Seq<RequirementView>)
    requires
        distinct_by(requirements, |r: RequirementView| r.id),
    ensures
        distinct_by(groups_of(all, requirements), |g: GroupView| g.requirement_id),
    decreases requirements.len(),
{
    let id_of = |r: RequirementView| r.id;
    let group_id = |g: GroupView| g.requirement_id;
    if requirements.len() > 0 {
        let rest = requirements.drop_last();
        let last = requirements.last();
        assert forall|i: int, j: int|
            #![trigger rest[i], rest[j]]
            0 <= i < rest.len() && 0 <= j < rest.len() && i != j implies id_of(rest[i]) != id_of(
            rest[j],
        ) by {
            assert(rest[i] == requirements[i] && rest[j] == requirements[j]);
        }
        lemma_groups_distinct(all, rest);
        let before = groups_of(all, rest);
        let after = groups_of(all, requirements);
        assert forall|k: int| 0 <= k < before.len() implies (#[trigger] before[k]).requirement_id
            != last.id by {
            lemma_groups(all, rest, before[k]);
            assert(before.contains(before[k]));
            let i = choose|i: int|
                0 <= i < rest.len() && searchable_options(#[trigger] rest[i]).len() > 0
                    && before[k] == group_of(all, rest[i]);
            assert(rest[i] == requirements[i]);
            assert(id_of(requirements[i]) != id_of(requirements[requirements.len() - 1]));
        }
        assert forall|i: int, j: int|
            #![trigger after[i], after[j]]
            0 <= i < after.len() && 0 <= j < after.len() && i != j implies group_id(after[i])
            != group_id(after[j]) by {
            if i < before.len() {
                assert(after[i] == before[i]);
            }
            if j < before.len() {
                assert(after[j] == before[j]);
            }
        }
    }
}

proof fn lemma_groups_covered(
    a: Seq<RequirementView>,
    b: Seq<RequirementView>,
    calendar: Option<TermCalendarView>,
    g: GroupView,
)
    requires
        covered(a, b),
        covered(b, a),
        problem_fault(a, calendar) is None,
        problem_fault(b, calendar) is None,
        groups_of(located(a), a).contains(g),
    ensures
        groups_of(located(b), b).contains(g),
{
    lemma_groups(located(a), a, g);
    lemma_groups(located(b), b, g);
    lemma_all_distinct(a, calendar);
    lemma_all_distinct(b, calendar);
    lemma_located_distinct(a, calendar);
    lemma_located_distinct(b, calendar);
    lemma_same_located(a, b);
    let i = choose|i: int|
        0 <= i < a.len() && searchable_options(#[trigger] a[i]).len() > 0 && g == group_of(
            located(a),
            a[i],
        );
    let j = lemma_covered(a, b, i);
    lemma_same_sorted(a[i], b[j]);
    lemma_same_group(located(a), located(b), a[i], b[j]);
    assert(g == group_of(located(b), b[j]));
}

proof fn lemma_same_groups(
    a: Seq<RequirementView>,
    b: Seq<RequirementView>,
    calendar: Option<TermCalendarView>,
)
    requires
        covered(a, b),
        covered(b, a),
        problem_fault(a, calendar) is None,
        problem_fault(b, calendar) is None,
    ensures
        search_groups(a) == search_groups(b),
{
    let c = groups_of(located(a), a);
    let d = groups_of(located(b), b);
    lemma_all_distinct(a, calendar);
    lemma_all_distinct(b, calendar);
    lemma_groups_distinct(located(a), a);
    lemma_groups_distinct(located(b), b);
    assert forall|g: GroupView| #[trigger] c.contains(g) <==> d.contains(g) by {
        if c.contains(g) {
            lemma_groups_covered(a, b, calendar, g);
        }
        if d.contains(g) {
            lemma_groups_covered(b, a, calendar, g);
        }
    }
    lemma_group_order();
    lemma_same_order(c, d, group_le(), |g: GroupView| g.requirement_id);
}

pub(crate) proof fn lemma_sum_contains<T>(a: Seq<T>, b: Seq<T>, x: T)
    ensures
        (a + b).contains(x) <==> a.contains(x) || b.contains(x),
{
    if a.contains(x) {
        let k = choose|k: int| 0 <= k < a.len() && a[k] == x;
        assert((a + b)[k] == x);
    }
    if b.contains(x) {
        let k = choose|k: int| 0 <= k < b.len() && b[k] == x;
        assert((a + b)[a.len() + k] == x);
    }
    if (a + b).contains(x) {
        let k = choose|k: int| 0 <= k < (a + b).len() && (a + b)[k] == x;
        if k < a.len() {
            assert(a[k] == x);
        } else {
            assert(b[k - a.len()] == x);
        }
    }
}

pub(crate) proof fn lemma_options_notices(
    id: Seq<char>,
    kind: Seq<char>,
    options: Seq<SectionOptionView>,
    notice: Seq<char>,
)
    ensures
        options_notices(id, kind, options).contains(notice) <==> exists|o: SectionOptionView|
            options.contains(o) && #[trigger] option_notices(id, kind, o).contains(notice),
    decreases options.len(),
{
    if options.len() > 0 {
        let rest = options.drop_last();
        let last = options.last();
        lemma_options_notices(id, kind, rest, notice);
        lemma_sum_contains(
            options_notices(id, kind, rest),
            option_notices(id, kind, last),
            notice,
        );
        assert(options[options.len() - 1] == last);
        assert(options.contains(last));
        if exists|o: SectionOptionView|
            rest.contains(o) && #[trigger] option_notices(id, kind, o).contains(notice) {
            let o = choose|o: SectionOptionView|
                rest.contains(o) && #[trigger] option_notices(id, kind, o).contains(notice);
            let k = choose|k: int| 0 <= k < rest.len() && rest[k] == o;
            assert(options[k] == o);
            assert(options.contains(o));
        }
        if exists|o: SectionOptionView|
            options.contains(o) && #[trigger] option_notices(id, kind, o).contains(notice) {
            let o = choose|o: SectionOptionView|
                options.contains(o) && #[trigger] option_notices(id, kind, o).contains(notice);
            let k = choose|k: int| 0 <= k < options.len() && options[k] == o;
            if k < rest.len() {
                assert(rest[k] == o);
                assert(rest.contains(o));
            }
        }
    }
}

/// A requirement is the reason for a notice.
pub(crate) open spec fn causes(requirement: RequirementView, notice: Seq<char>) -> bool {
    requirement_notices(requirement).contains(notice) || (searchable_options(requirement).len() == 0
        && notice == requirement.id + ": no known supported meeting options; left unresolved"@)
}

pub(crate) proof fn lemma_notices(requirements: Seq<RequirementView>, notice: Seq<char>)
    ensures
        (opening_notices(requirements) + closing_notices(requirements)).contains(notice)
            <==> exists|i: int|
            0 <= i < requirements.len() && causes(#[trigger] requirements[i], notice),
    decreases requirements.len(),
{
    let opening = opening_notices(requirements);
    let closing = closing_notices(requirements);
    lemma_sum_contains(opening, closing, notice);
    if requirements.len() > 0 {
        let rest = requirements.drop_last();
        let last = requirements.last();
        lemma_notices(rest, notice);
        lemma_sum_contains(opening_notices(rest), closing_notices(rest), notice);
        lemma_sum_contains(opening_notices(rest), requirement_notices(last), notice);
        let end = if searchable_options(last).len() == 0 {
            seq![last.id + ": no known supported meeting options; left unresolved"@]
        } else {
            Seq::empty()
        };
        lemma_sum_contains(closing_notices(rest), end, notice);
        if searchable_options(last).len() == 0 {
            assert(end[0] == last.id + ": no known supported meeting options; left unresolved"@);
        }
        assert(end.contains(notice) <==> searchable_options(last).len() == 0 && notice == last.id
            + ": no known supported meeting options; left unresolved"@);
        assert(requirements[requirements.len() - 1] == last);
        assert(forall|i: int| 0 <= i < rest.len() ==> rest[i] == requirements[i]);
        if exists|i: int| 0 <= i < rest.len() && causes(#[trigger] rest[i], notice) {
            let i = choose|i: int| 0 <= i < rest.len() && causes(#[trigger] rest[i], notice);
            assert(causes(requirements[i], notice));
        }
        if exists|i: int| 0 <= i < requirements.len() && causes(#[trigger] requirements[i], notice) {
            let i = choose|i: int|
                0 <= i < requirements.len() && causes(#[trigger] requirements[i], notice);
            if i < rest.len() {
                assert(causes(rest[i], notice));
            }
        }
    } else {
        assert(!opening.contains(notice) && !closing.contains(notice));
    }
}

/// A text that goes on with a colon has one.
proof fn lemma_colon(head: Seq<char>, tail: Seq<char>)
    requires
        tail.len() > 0,
        tail[0] == ':',
    ensures
        (head + tail).contains(':'),
{
    assert((head + tail)[head.len() as int] == ':');
}

proof fn lemma_option_notice_has_colon(
    id: Seq<char>,
    kind: Seq<char>,
    option: SectionOptionView,
    notice: Seq<char>,
)
    requires
        option_notices(id, kind, option).contains(notice),
    ensures
        notice.contains(':'),
{
    reveal_strlit(": option ");
    let notices = option_notices(id, kind, option);
    let k = choose|k: int| 0 <= k < notices.len() && notices[k] == notice;
    let start = id + ": option "@ + option.id;
    assert(start[id.len() as int] == ':');
    assert(notice.len() >= start.len() && notice[id.len() as int] == ':');
}

/// Every notice of the search names its requirement, with a colon after it.
pub(crate) proof fn lemma_notice_has_colon(
    requirements: Seq<RequirementView>,
    notice: Seq<char>,
)
    requires
        search_notices(requirements).contains(notice),
    ensures
        notice.contains(':'),
{
    reveal_strlit(": some options have unknown/TBA meeting times and are not optimized");
    reveal_strlit(": no known supported meeting options; left unresolved");
    lemma_distinct_ascending::<String>(
        opening_notices(requirements) + closing_notices(requirements),
    );
    lemma_notices(requirements, notice);
    let i = choose|i: int| 0 <= i < requirements.len() && causes(#[trigger] requirements[i], notice);
    let r = requirements[i];
    let unknown = ": some options have unknown/TBA meeting times and are not optimized"@;
    let head = if r.has_unknown_times {
        seq![r.id + unknown]
    } else {
        Seq::empty()
    };
    lemma_colon(r.id, unknown);
    lemma_colon(r.id, ": no known supported meeting options; left unresolved"@);
    if requirement_notices(r).contains(notice) {
        lemma_sum_contains(head, options_notices(r.id, r.kind, r.options), notice);
        lemma_options_notices(r.id, r.kind, r.options, notice);
        if options_notices(r.id, r.kind, r.options).contains(notice) {
            let o = choose|o: SectionOptionView|
                r.options.contains(o) && #[trigger] option_notices(r.id, r.kind, o).contains(
                    notice,
                );
            lemma_option_notice_has_colon(r.id, r.kind, o, notice);
        }
    }
}

proof fn lemma_same_cause(x: RequirementView, y: RequirementView, notice: Seq<char>)
    requires
        same_requirement(x, y),
        distinct_by(x.options, |o: SectionOptionView| o.id),
        distinct_by(y.options, |o: SectionOptionView| o.id),
        causes(x, notice),
    ensures
        causes(y, notice),
{
    lemma_same_sorted(x, y);
    let head = if x.has_unknown_times {
        seq![x.id + ": some options have unknown/TBA meeting times and are not optimized"@]
    } else {
        Seq::empty()
    };
    lemma_sum_contains(head, options_notices(x.id, x.kind, x.options), notice);
    lemma_sum_contains(head, options_notices(y.id, y.kind, y.options), notice);
    lemma_options_notices(x.id, x.kind, x.options, notice);
    lemma_options_notices(y.id, y.kind, y.options, notice);
    if options_notices(x.id, x.kind, x.options).contains(notice) {
        let o = choose|o: SectionOptionView|
            x.options.contains(o) && #[trigger] option_notices(x.id, x.kind, o).contains(notice);
        assert(y.options.contains(o));
        assert(option_notices(y.id, y.kind, o).contains(notice));
    }
}

/// Lists without faults that have the same requirements are answered alike.
proof fn lemma_same_answer(
    a: Seq<RequirementView>,
    b: Seq<RequirementView>,
    calendar: Option<TermCalendarView>,
)
    requires
        covered(a, b),
        covered(b, a),
        problem_fault(a, calendar) is None,
        problem_fault(b, calendar) is None,
    ensures
        solved(a, calendar) == solved(b, calendar),
{
    lemma_same_groups(a, b, calendar);
    lemma_all_distinct(a, calendar);
    lemma_all_distinct(b, calendar);
    let c = opening_notices(a) + closing_notices(a);
    let d = opening_notices(b) + closing_notices(b);
    assert forall|notice: Seq<char>| #[trigger] c.contains(notice) <==> d.contains(notice) by {
        lemma_notices(a, notice);
        lemma_notices(b, notice);
        if c.contains(notice) {
            let i = choose|i: int| 0 <= i < a.len() && causes(#[trigger] a[i], notice);
            let j = lemma_covered(a, b, i);
            lemma_same_cause(a[i], b[j], notice);
        }
        if d.contains(notice) {
            let i = choose|i: int| 0 <= i < b.len() && causes(#[trigger] b[i], notice);
            let j = lemma_covered(b, a, i);
            assert(same_requirement(b[i], a[j]));
            lemma_same_cause(b[i], a[j], notice);
        }
    }
    lemma_distinct_ascending::<String>(c);
    lemma_distinct_ascending::<String>(d);
    let p = distinct_ascending::<String>(c);
    let q = distinct_ascending::<String>(d);
    assert forall|x: Seq<char>| #[trigger] p.contains(x) <==> q.contains(x) by {
        assert(c.contains(x) <==> d.contains(x));
    }
    lemma_ascending_is_unique::<String>(p, q);
}

/// Nothing is wrong with a section by itself.
pub(crate) open spec fn faultless(
    kind: Seq<char>,
    option: SectionOptionView,
    calendar: Option<TermCalendarView>,
) -> bool {
    option_fault(Seq::empty(), kind, option, calendar) is None
}

/// No section has the id of another one.
pub(crate) open spec fn options_apart(requirements: Seq<RequirementView>) -> bool {
    forall|i: int, k: int, j: int, l: int|
        #![trigger requirements[i].options[k], requirements[j].options[l]]
        0 <= i < requirements.len() && 0 <= k < requirements[i].options.len() && 0 <= j
            < requirements.len() && 0 <= l < requirements[j].options.len()
            && requirements[i].options[k].id == requirements[j].options[l].id ==> i == j && k == l
}

/// What makes a list of requirements free of faults, whatever its order.
pub(crate) open spec fn sound(requirements: Seq<RequirementView>, calendar: Option<TermCalendarView>) -> bool {
    &&& forall|i: int|
        0 <= i < requirements.len() ==> trimmed((#[trigger] requirements[i]).id).len() > 0
    &&& requirement_ids(requirements).no_duplicates()
    &&& forall|i: int, k: int|
        0 <= i < requirements.len() && 0 <= k < requirements[i].options.len() ==> faultless(
            requirements[i].kind,
            #[trigger] requirements[i].options[k],
            calendar,
        )
    &&& options_apart(requirements)
}

proof fn lemma_options_sound(
    seen: Seq<Seq<char>>,
    kind: Seq<char>,
    options: Seq<SectionOptionView>,
    calendar: Option<TermCalendarView>,
)
    ensures
        options_fault(seen, kind, options, calendar) is None <==> {
            &&& forall|k: int|
                0 <= k < options.len() ==> faultless(kind, #[trigger] options[k], calendar)
                    && !seen.contains(options[k].id)
            &&& option_ids(options).no_duplicates()
        },
    decreases options.len(),
{
    let ids = option_ids(options);
    if options.len() > 0 {
        let rest = options.drop_last();
        let last = options.last();
        let n = rest.len() as int;
        lemma_options_sound(seen, kind, rest, calendar);
        let before = option_ids(rest);
        assert(ids =~= before.push(last.id));
        assert(forall|k: int| 0 <= k < n ==> rest[k] == options[k]);
        assert(options[n] == last);
        let all = seen + before;
        assert(all.contains(last.id) <==> seen.contains(last.id) || before.contains(last.id)) by {
            lemma_sum_contains(seen, before, last.id);
        }
        if before.contains(last.id) {
            let k = choose|k: int| 0 <= k < before.len() && before[k] == last.id;
            assert(ids[k] == ids[n]);
        }
        if before.no_duplicates() && !before.contains(last.id) {
            assert forall|i: int, j: int|
                0 <= i < ids.len() && 0 <= j < ids.len() && i != j implies ids[i] != ids[j] by {
                if i == n {
                    assert(before.contains(before[j]));
                }
                if j == n {
                    assert(before.contains(before[i]));
                }
            }
        }
        if ids.no_duplicates() {
            assert forall|i: int, j: int|
                0 <= i < n && 0 <= j < n && i != j implies before[i] != before[j] by {
                assert(ids[i] == before[i] && ids[j] == before[j]);
            }
        }
        if options_fault(seen, kind, options, calendar) is None {
            assert forall|k: int| 0 <= k < options.len() implies faultless(
                kind,
                #[trigger] options[k],
                calendar,
            ) && !seen.contains(options[k].id) by {
                if k < n {
                    assert(options[k] == rest[k]);
                }
            }
        }
    } else {
        assert(ids =~= Seq::empty());
    }
}

proof fn lemma_id_of_option(requirements: Seq<RequirementView>, id: Seq<char>)
    ensures
        all_option_ids(requirements).contains(id) <==> exists|i: int, k: int|
            0 <= i < requirements.len() && 0 <= k < requirements[i].options.len() && (
            #[trigger] requirements[i].options[k]).id == id,
    decreases requirements.len(),
{
    if requirements.len() > 0 {
        let rest = requirements.drop_last();
        let last = requirements.last();
        let n = rest.len() as int;
        lemma_id_of_option(rest, id);
        lemma_sum_contains(all_option_ids(rest), option_ids(last.options), id);
        assert(requirements[n] == last);
        if all_option_ids(rest).contains(id) {
            let (i, k) = choose|i: int, k: int|
                0 <= i < rest.len() && 0 <= k < rest[i].options.len() && (
                #[trigger] rest[i].options[k]).id == id;
            assert(requirements[i].options[k].id == id);
        }
        let ids = option_ids(last.options);
        if ids.contains(id) {
            let k = choose|k: int| 0 <= k < ids.len() && ids[k] == id;
            assert(requirements[n].options[k].id == id);
        }
        if exists|i: int, k: int|
            0 <= i < requirements.len() && 0 <= k < requirements[i].options.len() && (
            #[trigger] requirements[i].options[k]).id == id {
            let (i, k) = choose|i: int, k: int|
                0 <= i < requirements.len() && 0 <= k < requirements[i].options.len() && (
                #[trigger] requirements[i].options[k]).id == id;
            if i < n {
                assert(rest[i].options[k].id == id);
            } else {
                assert(ids[k] == id);
            }
        }
    }
}

pub(crate) proof fn lemma_sound(requirements: Seq<RequirementView>, calendar: Option<TermCalendarView>)
    ensures
        problem_fault(requirements, calendar) is None <==> sound(requirements, calendar),
    decreases requirements.len(),
{
    let ids = requirement_ids(requirements);
    if requirements.len() > 0 {
        let rest = requirements.drop_last();
        let last = requirements.last();
        let n = rest.len() as int;
        let before = requirement_ids(rest);
        let seen = all_option_ids(rest);
        lemma_sound(rest, calendar);
        lemma_options_sound(seen, last.kind, last.options, calendar);
        assert(requirements[n] == last);
        assert(forall|i: int| 0 <= i < n ==> rest[i] == requirements[i]);
        assert(ids =~= before.push(last.id));
        if problem_fault(requirements, calendar) is None {
            lemma_sound_with(rest, last, calendar);
            assert(rest.push(last) =~= requirements);
        }
        if sound(requirements, calendar) {
            assert forall|i: int, k: int, j: int, l: int|
                #![trigger rest[i].options[k], rest[j].options[l]]
                0 <= i < rest.len() && 0 <= k < rest[i].options.len() && 0 <= j < rest.len() && 0
                    <= l < rest[j].options.len() && rest[i].options[k].id
                    == rest[j].options[l].id implies i == j && k == l by {
                assert(requirements[i].options[k].id == requirements[j].options[l].id);
            }
            assert forall|i: int, k: int|
                0 <= i < rest.len() && 0 <= k < rest[i].options.len() implies faultless(
                rest[i].kind,
                #[trigger] rest[i].options[k],
                calendar,
            ) by {
                assert(faultless(requirements[i].kind, requirements[i].options[k], calendar));
            }
            assert forall|i: int, j: int|
                0 <= i < n && 0 <= j < n && i != j implies before[i] != before[j] by {
                assert(ids[i] == before[i] && ids[j] == before[j]);
            }
            assert(sound(rest, calendar));
            if before.contains(last.id) {
                let i = choose|i: int| 0 <= i < before.len() && before[i] == last.id;
                assert(ids[i] == ids[n]);
            }
            assert forall|k: int| 0 <= k < last.options.len() implies faultless(
                last.kind,
                #[trigger] last.options[k],
                calendar,
            ) && !seen.contains(last.options[k].id) by {
                let id = last.options[k].id;
                assert(requirements[n].options[k].id == id);
                lemma_id_of_option(rest, id);
                if seen.contains(id) {
                    let (i, l) = choose|i: int, l: int|
                        0 <= i < rest.len() && 0 <= l < rest[i].options.len() && (
                        #[trigger] rest[i].options[l]).id == id;
                    assert(requirements[i].options[l].id == requirements[n].options[k].id);
                }
            }
            let own = option_ids(last.options);
            assert forall|k: int, l: int|
                0 <= k < own.len() && 0 <= l < own.len() && k != l implies own[k] != own[l] by {
                assert(requirements[n].options[k].id == own[k]);
                assert(requirements[n].options[l].id == own[l]);
            }
        }
    } else {
        assert(ids =~= Seq::empty());
    }
}

/// A requirement without faults keeps a list sound.
proof fn lemma_sound_with(
    rest: Seq<RequirementView>,
    last: RequirementView,
    calendar: Option<TermCalendarView>,
)
    requires
        sound(rest, calendar),
        requirement_fault(rest, last, calendar) is None,
    ensures
        sound(rest.push(last), calendar),
{
    let all = rest.push(last);
    let n = rest.len() as int;
    let before = requirement_ids(rest);
    let ids = requirement_ids(all);
    let seen = all_option_ids(rest);
    lemma_options_sound(seen, last.kind, last.options, calendar);
    assert forall|i: int, j: int| 0 <= i < ids.len() && 0 <= j < ids.len() && i != j implies ids[i]
        != ids[j] by {
        if i < n {
            assert(ids[i] == before[i]);
            assert(before.contains(before[i]));
        }
        if j < n {
            assert(ids[j] == before[j]);
            assert(before.contains(before[j]));
        }
    }
    assert forall|i: int, k: int|
        0 <= i < all.len() && 0 <= k < all[i].options.len() implies faultless(
        all[i].kind,
        #[trigger] all[i].options[k],
        calendar,
    ) by {
        if i < n {
            assert(faultless(rest[i].kind, rest[i].options[k], calendar));
        } else {
            assert(faultless(last.kind, last.options[k], calendar));
        }
    }
    let own = option_ids(last.options);
    assert forall|i: int, k: int, j: int, l: int|
        #![trigger all[i].options[k], all[j].options[l]]
        0 <= i < all.len() && 0 <= k < all[i].options.len() && 0 <= j < all.len() && 0 <= l
            < all[j].options.len() && all[i].options[k].id == all[j].options[l].id implies i == j
        && k == l by {
        let id = all[i].options[k].id;
        lemma_id_of_option(rest, id);
        if i < n && j < n {
            assert(rest[i].options[k].id == rest[j].options[l].id);
        } else if i < n {
            assert(rest[i].options[k].id == id);
            assert(!seen.contains(last.options[l].id));
        } else if j < n {
            assert(rest[j].options[l].id == id);
            assert(!seen.contains(last.options[k].id));
        } else {
            assert(own[k] == own[l]);
        }
    }
}

/// The same requirement, with its sections in another order.
pub open spec fn rearranged(x: RequirementView, y: RequirementView) -> bool {
    &&& x.id == y.id
    &&& x.kind == y.kind
    &&& x.has_unknown_times == y.has_unknown_times
    &&& x.options.to_multiset() == y.options.to_multiset()
}

/// As many requirements in another order, each with its sections in another order.
pub open spec fn reordered(a: Seq<RequirementView>, b: Seq<RequirementView>) -> bool {
    &&& a.len() == b.len()
    &&& forall|i: int| 0 <= i < a.len() ==> recurs(b, #[trigger] a[i])
}

/// A requirement is in a list, with its sections in another order.
pub open spec fn recurs(b: Seq<RequirementView>, x: RequirementView) -> bool {
    exists|j: int| 0 <= j < b.len() && rearranged(x, #[trigger] b[j])
}

/// Different elements fill a sequence of the same length.
proof fn lemma_filled<T>(a: Seq<T>, b: Seq<T>)
    requires
        a.no_duplicates(),
        a.len() == b.len(),
        forall|x: T| #[trigger] a.contains(x) ==> b.contains(x),
    ensures
        b.no_duplicates(),
        forall|x: T| #[trigger] b.contains(x) ==> a.contains(x),
{
    a.unique_seq_to_set();
    b.lemma_cardinality_of_set();
    let s = a.to_set();
    let t = b.to_set();
    vstd::seq_lib::seq_to_set_is_finite(a);
    vstd::seq_lib::seq_to_set_is_finite(b);
    assert forall|x: T| #[trigger] s.contains(x) implies t.contains(x) by {
        assert(a.contains(x));
        assert(b.contains(x));
    }
    vstd::set_lib::lemma_len_subset(s, t);
    vstd::set_lib::lemma_subset_equality(s, t);
    b.lemma_no_dup_set_cardinality();
    assert forall|x: T| #[trigger] b.contains(x) implies a.contains(x) by {
        assert(t.contains(x));
        assert(s.contains(x));
    }
}

/// A rearranged requirement has the same sections, and as many.
proof fn lemma_rearranged(x: RequirementView, y: RequirementView)
    requires
        rearranged(x, y),
    ensures
        same_requirement(x, y),
        same_requirement(y, x),
        x.options.len() == y.options.len(),
{
    broadcast use vstd::seq_lib::group_to_multiset_ensures;

    assert(x.options.to_multiset().len() == x.options.len());
    assert(y.options.to_multiset().len() == y.options.len());
    assert forall|o: SectionOptionView| #[trigger] x.options.contains(o) <==> y.options.contains(
        o,
    ) by {
        assert(x.options.contains(o) <==> x.options.to_multiset().count(o) > 0);
        assert(y.options.contains(o) <==> y.options.to_multiset().count(o) > 0);
    }
}

/// Where a requirement of the reordered list comes from.
proof fn lemma_reordered(
    a: Seq<RequirementView>,
    b: Seq<RequirementView>,
    j: int,
) -> (i: int)
    requires
        reordered(a, b),
        requirement_ids(a).no_duplicates(),
        0 <= j < b.len(),
    ensures
        0 <= i < a.len(),
        rearranged(a[i], b[j]),
        requirement_ids(b).no_duplicates(),
{
    let p = requirement_ids(a);
    let q = requirement_ids(b);
    assert forall|id: Seq<char>| #[trigger] p.contains(id) implies q.contains(id) by {
        let i = choose|i: int| 0 <= i < p.len() && p[i] == id;
        assert(recurs(b, a[i]));
        let k = choose|k: int| 0 <= k < b.len() && rearranged(a[i], #[trigger] b[k]);
        assert(q[k] == id);
    }
    lemma_filled(p, q);
    assert(q.contains(q[j]));
    assert(p.contains(q[j]));
    let i = choose|i: int| 0 <= i < p.len() && p[i] == q[j];
    assert(recurs(b, a[i]));
    let k = choose|k: int| 0 <= k < b.len() && rearranged(a[i], #[trigger] b[k]);
    assert(q[k] == q[j]);
    i
}

/// Where a section of a rearranged requirement comes from.
proof fn lemma_rearranged_option(x: RequirementView, y: RequirementView, k: int) -> (l: int)
    requires
        rearranged(x, y),
        0 <= k < y.options.len(),
    ensures
        0 <= l < x.options.len(),
        x.options[l] == y.options[k],
{
    lemma_rearranged(x, y);
    assert(y.options.contains(y.options[k]));
    assert(x.options.contains(y.options[k]));
    choose|l: int| 0 <= l < x.options.len() && x.options[l] == y.options[k]
}

/// In another order, sections keep different ids.
proof fn lemma_reordered_apart(
    a: Seq<RequirementView>,
    b: Seq<RequirementView>,
    j: int,
    k: int,
    m: int,
    n: int,
)
    requires
        reordered(a, b),
        requirement_ids(a).no_duplicates(),
        options_apart(a),
        0 <= j < b.len(),
        0 <= k < b[j].options.len(),
        0 <= m < b.len(),
        0 <= n < b[m].options.len(),
        b[j].options[k].id == b[m].options[n].id,
    ensures
        j == m,
        k == n,
{
    let i = lemma_reordered(a, b, j);
    let l = lemma_rearranged_option(a[i], b[j], k);
    let g = lemma_reordered(a, b, m);
    let h = lemma_rearranged_option(a[g], b[m], n);
    assert(a[i].options[l].id == a[g].options[h].id);
    assert(i == g && l == h);
    assert(requirement_ids(b)[j] == requirement_ids(b)[m]);
    lemma_options_differ(a, i, b[j]);
    assert(option_ids(b[j].options)[k] == option_ids(b[j].options)[n]);
}

/// A list without faults has none in another order.
proof fn lemma_reordered_sound(
    a: Seq<RequirementView>,
    b: Seq<RequirementView>,
    calendar: Option<TermCalendarView>,
)
    requires
        reordered(a, b),
        sound(a, calendar),
    ensures
        sound(b, calendar),
{
    if b.len() > 0 {
        let i = lemma_reordered(a, b, 0);
    } else {
        assert(requirement_ids(b) =~= Seq::empty());
    }
    assert forall|j: int| 0 <= j < b.len() implies trimmed((#[trigger] b[j]).id).len() > 0 by {
        let i = lemma_reordered(a, b, j);
        assert(trimmed(a[i].id).len() > 0);
    }
    assert forall|j: int, k: int|
        0 <= j < b.len() && 0 <= k < b[j].options.len() implies faultless(
        b[j].kind,
        #[trigger] b[j].options[k],
        calendar,
    ) by {
        let i = lemma_reordered(a, b, j);
        let l = lemma_rearranged_option(a[i], b[j], k);
        assert(faultless(a[i].kind, a[i].options[l], calendar));
    }
    assert forall|j: int, k: int, m: int, n: int|
        #![trigger b[j].options[k], b[m].options[n]]
        0 <= j < b.len() && 0 <= k < b[j].options.len() && 0 <= m < b.len() && 0 <= n
            < b[m].options.len() && b[j].options[k].id == b[m].options[n].id implies j == m && k
        == n by {
        lemma_reordered_apart(a, b, j, k, m, n);
    }
}

/// Lists in different orders have the same requirements.
proof fn lemma_reordered_covered(a: Seq<RequirementView>, b: Seq<RequirementView>)
    requires
        reordered(a, b),
        requirement_ids(a).no_duplicates(),
    ensures
        covered(a, b),
        covered(b, a),
{
    assert forall|i: int| 0 <= i < a.len() implies holds(b, #[trigger] a[i]) by {
        assert(recurs(b, a[i]));
        let j = choose|j: int| 0 <= j < b.len() && rearranged(a[i], #[trigger] b[j]);
        lemma_rearranged(a[i], b[j]);
    }
    assert forall|j: int| 0 <= j < b.len() implies holds(a, #[trigger] b[j]) by {
        let i = lemma_reordered(a, b, j);
        lemma_rearranged(a[i], b[j]);
    }
}

/// The sections of a rearranged requirement have different ids.
proof fn lemma_options_differ(a: Seq<RequirementView>, i: int, y: RequirementView)
    requires
        options_apart(a),
        0 <= i < a.len(),
        rearranged(a[i], y),
    ensures
        option_ids(y.options).no_duplicates(),
{
    let x = a[i];
    let p = option_ids(x.options);
    let q = option_ids(y.options);
    lemma_rearranged(x, y);
    assert forall|k: int, l: int| 0 <= k < p.len() && 0 <= l < p.len() && k != l implies p[k]
        != p[l] by {
        assert(a[i].options[k].id == p[k] && a[i].options[l].id == p[l]);
    }
    assert forall|id: Seq<char>| #[trigger] p.contains(id) implies q.contains(id) by {
        let k = choose|k: int| 0 <= k < p.len() && p[k] == id;
        assert(x.options.contains(x.options[k]));
        assert(y.options.contains(x.options[k]));
        let l = choose|l: int| 0 <= l < y.options.len() && y.options[l] == x.options[k];
        assert(q[l] == id);
    }
    lemma_filled(p, q);
}

/// Whatever the order in which the requirements and their sections are given, the search answers
/// the same; a list that it does not refuse is refused in no order.
pub proof fn law_order_is_irrelevant(
    a: Seq<RequirementView>,
    b: Seq<RequirementView>,
    calendar: Option<TermCalendarView>,
)
    requires
        reordered(a, b),
        problem_fault(a, calendar) is None,
    ensures
        problem_fault(b, calendar) is None,
        solved(a, calendar) == solved(b, calendar),
{
    lemma_sound(a, calendar);
    lemma_reordered_sound(a, b, calendar);
    lemma_reordered_covered(a, b);
    lemma_sound(b, calendar);
    lemma_same_answer(a, b, calendar);
}

proof fn lemma_class_of<T, K>(s: Seq<T>, key: spec_fn(T) -> K, i: int)
    requires
        0 <= i < classes(s, key).len(),
    ensures
        classes(s, key)[i].len() > 0,
        s.contains(classes(s, key)[i][0]),
    decreases s.len(),
{
    let same = |x: T| key(x) == key(s[0]);
    let other = |x: T| key(x) != key(s[0]);
    let rest = s.filter(other);
    lemma_class_shrinks(s, key);
    if i == 0 {
        let first = s.filter(same);
        assert(s.contains(s[0]));
        lemma_filtered(s, same, s[0]);
        assert(first.len() > 0);
        assert(first.contains(first[0]));
        lemma_filtered(s, same, first[0]);
    } else {
        lemma_class_of(rest, key, i - 1);
        lemma_filtered(s, other, classes(rest, key)[i - 1][0]);
    }
}

/// Different classes have different keys.
proof fn lemma_classes_apart<T, K>(s: Seq<T>, key: spec_fn(T) -> K, i: int, j: int)
    requires
        0 <= i < j < classes(s, key).len(),
    ensures
        key(classes(s, key)[i][0]) != key(classes(s, key)[j][0]),
    decreases s.len(),
{
    let same = |x: T| key(x) == key(s[0]);
    let other = |x: T| key(x) != key(s[0]);
    let rest = s.filter(other);
    lemma_class_shrinks(s, key);
    if i == 0 {
        lemma_class_of(s, key, 0);
        let first = s.filter(same);
        assert(first.contains(first[0]));
        lemma_filtered(s, same, first[0]);
        lemma_class_of(rest, key, j - 1);
        lemma_filtered(s, other, classes(rest, key)[j - 1][0]);
    } else {
        lemma_classes_apart(rest, key, i - 1, j - 1);
    }
}

proof fn lemma_group_choices(all: Seq<Located>, requirement: RequirementView)
    ensures
        group_of(all, requirement).choices.no_duplicates(),
        forall|i: int|
            0 <= i < group_of(all, requirement).choices.len() ==> (#[trigger] group_of(
                all,
                requirement,
            ).choices[i]).requirement_id == requirement.id,
{
    let sorted = stable_sorted(searchable_options(requirement), id_le());
    let key = |option: SectionOptionView| group_key(all, requirement.id, option);
    let sets = group_classes(all, requirement);
    let choices = group_of(all, requirement).choices;
    assert(sets == classes(sorted, key));
    assert forall|i: int, j: int|
        0 <= i < choices.len() && 0 <= j < choices.len() && i != j implies choices[i]
        != choices[j] by {
        assert(choices[i].members == sets[i] && choices[j].members == sets[j]);
        if i < j {
            lemma_classes_apart(sorted, key, i, j);
        } else {
            lemma_classes_apart(sorted, key, j, i);
        }
    }
}

/// The group at a position of the search is that of a requirement.
proof fn lemma_search_group(requirements: Seq<RequirementView>, g: int) -> (i: int)
    requires
        0 <= g < search_groups(requirements).len(),
    ensures
        0 <= i < requirements.len(),
        search_groups(requirements)[g] == group_of(located(requirements), requirements[i]),
{
    let all = located(requirements);
    let groups = groups_of(all, requirements);
    let sorted = search_groups(requirements);
    lemma_sorted_elements(groups, group_le());
    assert(sorted.contains(sorted[g]));
    lemma_groups(all, requirements, sorted[g]);
    choose|i: int|
        0 <= i < requirements.len() && searchable_options(#[trigger] requirements[i]).len() > 0
            && sorted[g] == group_of(all, requirements[i])
}

/// The groups of the search are those of the requirements that have a section to place, and no two
/// of them have the same id.
pub(crate) proof fn lemma_search_groups(
    requirements: Seq<RequirementView>,
    calendar: Option<TermCalendarView>,
)
    requires
        problem_fault(requirements, calendar) is None,
    ensures
        forall|i: int, j: int|
            #![trigger requirements[i], requirements[j]]
            0 <= i < requirements.len() && 0 <= j < requirements.len() && i != j
                ==> requirements[i].id != requirements[j].id,
        forall|g: int, h: int|
            #![trigger search_groups(requirements)[g], search_groups(requirements)[h]]
            0 <= g < search_groups(requirements).len() && 0 <= h < search_groups(
                requirements,
            ).len() && g != h ==> search_groups(requirements)[g].requirement_id != search_groups(
                requirements,
            )[h].requirement_id,
        forall|group: GroupView| #[trigger]
            search_groups(requirements).contains(group) <==> exists|i: int|
                0 <= i < requirements.len() && searchable_options(
                    #[trigger] requirements[i],
                ).len() > 0 && group == group_of(located(requirements), requirements[i]),
{
    let all = located(requirements);
    let groups = groups_of(all, requirements);
    let sorted = search_groups(requirements);
    let id_of = |r: RequirementView| r.id;
    let group_id = |g: GroupView| g.requirement_id;
    lemma_all_distinct(requirements, calendar);
    lemma_groups_distinct(all, requirements);
    lemma_sorted_distinct(groups, group_le(), group_id);
    lemma_sorted_elements(groups, group_le());
    assert forall|i: int, j: int|
        #![trigger requirements[i], requirements[j]]
        0 <= i < requirements.len() && 0 <= j < requirements.len() && i
            != j implies requirements[i].id != requirements[j].id by {
        assert(id_of(requirements[i]) != id_of(requirements[j]));
    }
    assert forall|g: int, h: int|
        #![trigger sorted[g], sorted[h]]
        0 <= g < sorted.len() && 0 <= h < sorted.len() && g
            != h implies sorted[g].requirement_id != sorted[h].requirement_id by {
        assert(group_id(sorted[g]) != group_id(sorted[h]));
    }
    assert forall|group: GroupView| #[trigger]
        sorted.contains(group) <==> exists|i: int|
            0 <= i < requirements.len() && searchable_options(#[trigger] requirements[i]).len() > 0
                && group == group_of(all, requirements[i]) by {
        lemma_groups(all, requirements, group);
    }
}

/// Sections that grouping does not tell apart exclude the same sections of other requirements, and
/// are excluded by the same ones.
pub(crate) proof fn lemma_alike(
    requirements: Seq<RequirementView>,
    calendar: Option<TermCalendarView>,
    requirement_id: Seq<char>,
    x: SectionOptionView,
    y: SectionOptionView,
    i: int,
    other: SectionOptionView,
)
    requires
        problem_fault(requirements, calendar) is None,
        group_key(located(requirements), requirement_id, x) == group_key(
            located(requirements),
            requirement_id,
            y,
        ),
        0 <= i < requirements.len(),
        requirements[i].id != requirement_id,
        searchable_options(requirements[i]).contains(other),
    ensures
        x.incompatible_with.contains(other.id) <==> y.incompatible_with.contains(other.id),
        other.incompatible_with.contains(x.id) <==> other.incompatible_with.contains(y.id),
{
    let all = located(requirements);
    let l = Located { requirement_id: requirements[i].id, option: other };
    lemma_searchable(requirements[i], other);
    assert(places(requirements[i], l));
    lemma_located(requirements, l);
    assert(all.contains(l));
    let k = choose|k: int| 0 <= k < all.len() && all[k] == l;
    lemma_located_distinct(requirements, calendar);
    lemma_inbound_alike(all, requirement_id, x, y);
    assert(excluded_alike(all, requirement_id, x, y));
    assert(placed_elsewhere(all, requirement_id, other.id)) by {
        assert(all[k].option.id == other.id);
    }
    let elsewhere = |id: Seq<char>| placed_elsewhere(all, requirement_id, id);
    assert(outbound(all, requirement_id, x) == outbound(all, requirement_id, y));
    lemma_filtered(x.incompatible_with, elsewhere, other.id);
    lemma_filtered(y.incompatible_with, elsewhere, other.id);
}

/// A feasible timetable is determined by what a solution shows of it.
proof fn lemma_arranged_determines(
    requirements: Seq<RequirementView>,
    calendar: Option<TermCalendarView>,
    t: Seq<TimeChoiceView>,
    u: Seq<TimeChoiceView>,
)
    requires
        problem_fault(requirements, calendar) is None,
        feasible(problem_of(requirements, calendar), t),
        feasible(problem_of(requirements, calendar), u),
        arranged(t) == arranged(u),
    ensures
        t == u,
{
    let p = problem_of(requirements, calendar);
    let all = located(requirements);
    let group_id = |g: GroupView| g.requirement_id;
    lemma_all_distinct(requirements, calendar);
    lemma_groups_distinct(all, requirements);
    lemma_sorted_distinct(groups_of(all, requirements), group_le(), group_id);
    lemma_sorted_elements(t, choice_le());
    lemma_sorted_elements(u, choice_le());
    assert forall|i: int| 0 <= i < t.len() implies #[trigger] t[i] == u[i] by {
        assert(t.contains(t[i]));
        assert(arranged(t).contains(t[i]));
        assert(arranged(u).contains(t[i]));
        assert(u.contains(t[i]));
        let k = choose|k: int| 0 <= k < u.len() && u[k] == t[i];
        let a = lemma_search_group(requirements, i);
        let b = lemma_search_group(requirements, k);
        lemma_group_choices(all, requirements[a]);
        lemma_group_choices(all, requirements[b]);
        assert(p.groups[i].choices.contains(t[i]));
        assert(p.groups[k].choices.contains(u[k]));
        assert(t[i].requirement_id == p.groups[i].requirement_id);
        assert(u[k].requirement_id == p.groups[k].requirement_id);
        if k != i {
            assert(group_id(p.groups[i]) != group_id(p.groups[k]));
        }
    }
    assert(t =~= u);
}

/// No timetable is listed twice among the alternatives.
pub proof fn law_alternatives_are_distinct(
    requirements: Seq<RequirementView>,
    calendar: Option<TermCalendarView>,
)
    requires
        problem_fault(requirements, calendar) is None,
    ensures
        (solved(requirements, calendar)->Ok_0).alternatives.no_duplicates(),
{
    let p = problem_of(requirements, calendar);
    let listing = timetables(p);
    let best = optima(listing);
    let pred = |t: Seq<TimeChoiceView>| Some(timetable_score(t)) == best_score(listing);
    let itself = |t: Seq<TimeChoiceView>| t;
    let alternatives = (solved(requirements, calendar)->Ok_0).alternatives;
    assert forall|g: int| 0 <= g < p.groups.len() implies (
    #[trigger] p.groups[g]).choices.no_duplicates() by {
        let i = lemma_search_group(requirements, g);
        lemma_group_choices(located(requirements), requirements[i]);
    }
    lemma_timetables_differ(p);
    assert(distinct_by(listing, itself));
    lemma_filter_distinct(listing, pred, itself);
    assert forall|i: int, j: int|
        0 <= i < alternatives.len() && 0 <= j < alternatives.len() && i != j implies alternatives[i]
        != alternatives[j] by {
        assert(best.contains(best[i]) && best.contains(best[j]));
        lemma_filtered(listing, pred, best[i]);
        lemma_filtered(listing, pred, best[j]);
        law_search_is_exhaustive(p, best[i]);
        law_search_is_exhaustive(p, best[j]);
        assert(alternatives[i] == arranged(best[i]) && alternatives[j] == arranged(best[j]));
        assert(itself(best[i]) != itself(best[j]));
        if arranged(best[i]) == arranged(best[j]) {
            lemma_arranged_determines(requirements, calendar, best[i], best[j]);
        }
    }
}

} // verus!
