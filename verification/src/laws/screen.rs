//! What the keys of the terminal interface do.
use vstd::prelude::*;
use crate::laws::commands::{lemma_occurs, occurs};
use crate::model::{CourseView, Dataset, Meeting, SectionOptionView, SolutionView, TimeChoiceView};
use crate::optimizer::lemma_sorted_elements;
use crate::order::{
    ascending, keys_of, law_lookup_after_insert, law_stable_sorted, lemma_lookup, lemma_set_insert,
    lemma_set_remove, lookup, set_insert, set_remove,
};
use crate::text::{holds, lower_case, same_ignoring_case, shortened, words};
use crate::tui::state::{
    after_mouse, after_worker, clicked, course_matches, courses_matching, id_position, key_step,
    matching_subjects, resolved, same_id, search_step, with_member_cycled, AppStateView,
    WorkerCommandView,
};
use crate::tui::timetable::{all_blocks, block_le, blocks_of, choice_blocks, Block, Navigation};
use crate::tui::{
    field_value, moved, moved_offset, AppAction, Area, EditorField, Focus, Key, KeyCode,
    ManualFormView, Mouse,
};

verus! {

proof fn lemma_matching(
    courses: Seq<(Seq<char>, CourseView)>,
    terms: Seq<Seq<char>>,
    id: Seq<char>,
)
    ensures
        courses_matching(courses, terms).contains(id) <==> exists|k: int|
            0 <= k < courses.len() && (#[trigger] courses[k]).0 == id && course_matches(
                terms,
                id,
                courses[k].1.title,
            ),
    decreases courses.len(),
{
    if courses.len() > 0 {
        let rest = courses.drop_last();
        let last = courses.last();
        let known = courses_matching(rest, terms);
        let at = courses.len() - 1;
        lemma_matching(rest, terms, id);
        crate::laws::catalog::lemma_pushed(known, last.0, id);
        assert(courses[at] == last);
        assert(forall|k: int| 0 <= k < rest.len() ==> #[trigger] rest[k] == courses[k]);
        if known.contains(id) {
            let k = choose|k: int|
                0 <= k < rest.len() && (#[trigger] rest[k]).0 == id && course_matches(
                    terms,
                    id,
                    rest[k].1.title,
                );
            assert(courses[k].0 == id);
        }
        if exists|k: int|
            0 <= k < courses.len() && (#[trigger] courses[k]).0 == id && course_matches(
                terms,
                id,
                courses[k].1.title,
            ) {
            let k = choose|k: int|
                0 <= k < courses.len() && (#[trigger] courses[k]).0 == id && course_matches(
                    terms,
                    id,
                    courses[k].1.title,
                );
            if k < at {
                assert(rest[k].0 == id);
            }
        }
    }
}

/// The subjects that are listed for a search are those in whose number and title, in lower case and
/// with a blank between them, every one of its words occurs.
pub proof fn law_listed_subjects_have_all_words(
    base: &Dataset,
    terms: &Vec<String>,
    r: Vec<String>,
    id: Seq<char>,
)
    requires
        call_ensures(matching_subjects, (base, terms), r),
    ensures
        r.deep_view().contains(id) <==> exists|k: int|
            {
                &&& 0 <= k < base.deep_view().courses.len()
                &&& (#[trigger] base.deep_view().courses[k]).0 == id
                &&& forall|i: int|
                    0 <= i < terms.deep_view().len() ==> occurs(
                        #[trigger] terms.deep_view()[i],
                        lower_case(id) + " "@ + lower_case(base.deep_view().courses[k].1.title),
                    )
            },
{
    let courses = base.deep_view().courses;
    let wanted = terms.deep_view();
    lemma_matching(courses, wanted, id);
    assert forall|k: int| 0 <= k < courses.len() implies (course_matches(
        wanted,
        id,
        (#[trigger] courses[k]).1.title,
    ) <==> forall|i: int|
        0 <= i < wanted.len() ==> occurs(
            #[trigger] wanted[i],
            lower_case(id) + " "@ + lower_case(courses[k].1.title),
        )) by {
        let text = lower_case(id) + " "@ + lower_case(courses[k].1.title);
        assert forall|i: int| 0 <= i < wanted.len() implies holds(text, #[trigger] wanted[i])
            == occurs(wanted[i], text) by {
            lemma_occurs(wanted[i], text);
        }
    }
}

/// No text is typed and no window is open.
pub open spec fn at_rest(s: AppStateView, focus: Focus) -> bool {
    !s.show_help && s.editor is None && s.focus == focus
}

/// What was found for another selection is gone, the search is to start anew, and the selection is
/// to be stored where selections are.
pub open spec fn starts_anew(before: AppStateView, after: AppStateView) -> bool {
    &&& after.solution is None
    &&& after.export is None
    &&& after.actual_members.len() == 0
    &&& !after.optimize_running
    &&& after.generation != before.generation
    &&& after.save_due <==> before.save_due || before.selection_session is Some
    &&& after.base == before.base
    &&& after.dataset == before.dataset
    &&& after.manual == before.manual
    &&& after.query == before.query
    &&& after.filtered == before.filtered
    &&& after.focus == before.focus
}

/// Enter or the space bar on a subject selects it, or removes it where it is selected; on a selected
/// subject they remove it. Everything else stays selected as it was.
pub proof fn law_enter_and_space_change_the_selection(s: AppStateView, key: Key, id: Seq<char>)
    requires
        ascending::<String>(s.selected),
        key.code == KeyCode::Enter || key.code == KeyCode::Char(' '),
        0 <= s.cursor,
        0 <= s.selected_cursor,
    ensures
        ({
            let after = key_step(s, key).0;
            &&& at_rest(s, Focus::Subjects) && s.cursor < s.filtered.len() ==> {
                &&& after.selected.contains(id) <==> (s.selected.contains(id) != (id
                    == s.filtered[s.cursor]))
                &&& starts_anew(s, after)
            }
            &&& at_rest(s, Focus::Selected) && s.selected_cursor < s.selected.len() ==> {
                &&& after.selected.contains(id) <==> s.selected.contains(id) && id
                    != s.selected[s.selected_cursor]
                &&& starts_anew(s, after)
            }
            &&& at_rest(s, Focus::Subjects) && s.cursor >= s.filtered.len() ==> after == s
            &&& at_rest(s, Focus::Selected) && s.selected_cursor >= s.selected.len() ==> after == s
        }),
{
    if at_rest(s, Focus::Subjects) && s.cursor < s.filtered.len() {
        let own = s.filtered[s.cursor];
        lemma_set_insert::<String>(s.selected, own);
        lemma_set_remove::<String>(s.selected, own);
        assert(set_insert::<String>(s.selected, own).contains(id) <==> s.selected.contains(id) || id
            == own);
        assert(set_remove::<String>(s.selected, own).contains(id) <==> s.selected.contains(id) && id
            != own);
    }
    if at_rest(s, Focus::Selected) && s.selected_cursor < s.selected.len() {
        let own = s.selected[s.selected_cursor];
        lemma_set_remove::<String>(s.selected, own);
        assert(set_remove::<String>(s.selected, own).contains(id) <==> s.selected.contains(id) && id
            != own);
    }
}

/// A key that types a character.
pub open spec fn types(key: Key, c: char) -> bool {
    key.code == KeyCode::Char(c) && !key.control && !key.alt
}

/// Typing in the search adds the character to what is searched for, taking it back removes it, and
/// what is listed is what has the words that are then searched for. Nothing is selected by it.
pub proof fn law_search_follows_typing(s: AppStateView, key: Key, back: Key, c: char)
    requires
        at_rest(s, Focus::Search),
        types(key, c),
        back.code == KeyCode::Backspace,
    ensures
        ({
            let typed = key_step(s, key).0;
            let taken = key_step(typed, back).0;
            &&& typed.query == s.query + seq![c]
            &&& typed.filtered == courses_matching(s.base.courses, words(lower_case(typed.query)))
            &&& typed.selected == s.selected
            &&& typed.focus == Focus::Search
            &&& taken.query == s.query
            &&& taken.filtered == courses_matching(s.base.courses, words(lower_case(s.query)))
        }),
{
    let typed = key_step(s, key).0;
    assert(typed.query =~= s.query + seq![c]);
    assert(shortened(typed.query) =~= s.query);
}

/// Typing in the editor adds the character to the current field, taking it back removes it, and the
/// other fields stay as they are. Escape closes the editor and changes nothing else.
pub proof fn law_editor_follows_typing(
    s: AppStateView,
    key: Key,
    back: Key,
    escape: Key,
    c: char,
    other: EditorField,
)
    requires
        !s.show_help,
        s.editor is Some,
        types(key, c),
        back.code == KeyCode::Backspace,
        escape.code == KeyCode::Esc,
    ensures
        ({
            let form = s.editor->0;
            let typed = key_step(s, key).0;
            let taken = key_step(typed, back).0;
            &&& typed.editor is Some
            &&& field_value(typed.editor->0, form.field) == field_value(form, form.field) + seq![c]
            &&& other != form.field ==> field_value(typed.editor->0, other) == field_value(
                form,
                other,
            )
            &&& typed.editor->0.field == form.field
            &&& typed.editor->0.entry_id == form.entry_id
            &&& typed == (AppStateView { editor: typed.editor, ..s })
            &&& taken.editor == Some((ManualFormView { error: None, ..form }))
            &&& key_step(s, escape) == ((AppStateView { editor: None, ..s }), AppAction::Nothing)
        }),
{
    let form = s.editor->0;
    let clean = ManualFormView { error: None, ..form };
    let value = field_value(form, form.field);
    let typed = key_step(s, key).0;
    assert(field_value(typed.editor->0, form.field) =~= value + seq![c]);
    assert(shortened(value.push(c)) =~= value);
    let taken = key_step(typed, back).0;
    assert(taken.editor->0 =~= clean);
}

/// Enter in the editor, and `s` with the control key, ask for the section to be saved.
pub proof fn law_editor_asks_to_save(s: AppStateView, key: Key)
    requires
        !s.show_help,
        s.editor is Some,
    ensures
        key_step(s, key).1 == AppAction::SaveManual <==> key.code == KeyCode::Enter || (key.code
            == KeyCode::Char('s') && key.control),
        key_step(s, key).1 == AppAction::SaveManual || key_step(s, key).1 == AppAction::Nothing,
{
}

/// The letters that ask for something, outside of texts: quit, cancel the search, export, and
/// switch a manual section on or off while these are shown.
pub proof fn law_letters_ask(s: AppStateView, key: Key)
    requires
        !s.show_help,
        s.editor is None,
        s.focus == Focus::Subjects || s.focus == Focus::Selected || s.focus == Focus::Manual,
    ensures
        ({
            let asked = key_step(s, key).1;
            &&& asked == AppAction::Quit <==> key.code == KeyCode::Char('q') || (key.code
                == KeyCode::Esc && s.focus != Focus::Manual)
            &&& asked == AppAction::CancelOptimize <==> key.code == KeyCode::Char('c')
            &&& asked == AppAction::Export <==> key.code == KeyCode::Char('e')
            &&& asked == AppAction::ToggleManualEnabled <==> key.code == KeyCode::Char('x')
                && s.focus == Focus::Manual
            &&& asked != AppAction::SaveManual
        }),
{
}

/// The letters that go somewhere, outside of texts.
pub proof fn law_letters_go(s: AppStateView, key: Key)
    requires
        !s.show_help,
        s.editor is None,
        s.focus == Focus::Subjects || s.focus == Focus::Selected,
    ensures
        ({
            let after = key_step(s, key).0;
            &&& key.code == KeyCode::Char('?') ==> after.show_help
            &&& key.code == KeyCode::Char('/') ==> after.focus == Focus::Search
            &&& key.code == KeyCode::Char('s') ==> after.focus == Focus::Selected
            &&& key.code == KeyCode::Char('t') ==> after.focus == Focus::Timetable
            &&& key.code == KeyCode::Char('m') ==> after.focus == Focus::Manual
            &&& key.code == KeyCode::Char('a') ==> after.editor is Some
            &&& key.code == KeyCode::Char('q') ==> after.should_quit
        }),
{
}

/// While the help is shown it is closed by three keys, `q` quits, and no other key does anything.
pub proof fn law_help_is_closed(s: AppStateView, key: Key)
    requires
        s.show_help,
    ensures
        ({
            let (after, asked) = key_step(s, key);
            let closes = key.code == KeyCode::Esc || key.code == KeyCode::Enter || key.code
                == KeyCode::Char('?');
            &&& closes ==> after == (AppStateView { show_help: false, ..s }) && asked
                == AppAction::Nothing
            &&& key.code == KeyCode::Char('q') ==> after.should_quit && asked == AppAction::Quit
            &&& !closes && key.code != KeyCode::Char('q') ==> after == s && asked
                == AppAction::Nothing
        }),
{
}

/// Going around a list: the next place is one further and the last is followed by the first.
pub proof fn law_going_around(at: int, len: int)
    requires
        0 <= at < len,
    ensures
        0 <= moved(at, len, 1) < len,
        moved(at, len, 1) == (if at + 1 == len {
            0
        } else {
            at + 1
        }),
        moved(at, len, -1) == (if at == 0 {
            len - 1
        } else {
            at - 1
        }),
        moved(moved(at, len, 1), len, -1) == at,
        moved(moved(at, len, -1), len, 1) == at,
{
    if at + 1 == len {
        assert((at + 1) % len == 0) by (nonlinear_arith)
            requires
                at + 1 == len,
                len > 0,
        ;
    } else {
        assert((at + 1) % len == at + 1) by (nonlinear_arith)
            requires
                0 <= at + 1 < len,
        ;
    }
    if at == 0 {
        assert((at - 1) % len == len - 1) by (nonlinear_arith)
            requires
                at == 0,
                len > 0,
        ;
    } else {
        assert((at - 1) % len == at - 1) by (nonlinear_arith)
            requires
                0 <= at - 1 < len,
        ;
    }
    let up = moved(at, len, 1);
    if up == 0 {
        assert((up - 1) % len == len - 1) by (nonlinear_arith)
            requires
                up == 0,
                len > 0,
        ;
    } else {
        assert((up - 1) % len == up - 1) by (nonlinear_arith)
            requires
                0 <= up - 1 < len,
        ;
    }
    let down = moved(at, len, -1);
    if down + 1 == len {
        assert((down + 1) % len == 0) by (nonlinear_arith)
            requires
                down + 1 == len,
                len > 0,
        ;
    } else {
        assert((down + 1) % len == down + 1) by (nonlinear_arith)
            requires
                0 <= down + 1 < len,
        ;
    }
}

/// The down key moves the cursor of a list one further, around its end, and nothing else.
pub proof fn law_cursor_goes_around(s: AppStateView, key: Key)
    requires
        at_rest(s, Focus::Subjects),
        0 <= s.cursor < s.filtered.len(),
        key.code == KeyCode::Down || key.code == KeyCode::Up,
    ensures
        ({
            let after = key_step(s, key).0;
            &&& after == (AppStateView { cursor: after.cursor, ..s })
            &&& key.code == KeyCode::Down ==> after.cursor == (if s.cursor + 1 == s.filtered.len() {
                0
            } else {
                s.cursor + 1
            })
            &&& key.code == KeyCode::Up ==> after.cursor == (if s.cursor == 0 {
                s.filtered.len() - 1
            } else {
                s.cursor - 1
            })
        }),
{
    law_going_around(s.cursor, s.filtered.len() as int);
}

/// The right and left keys go through the equally good timetables, around the list, and show the one
/// that they reach; going there and back shows the same one again.
pub proof fn law_alternatives_go_around(s: AppStateView, right: Key, left: Key)
    requires
        at_rest(s, Focus::Timetable),
        s.timetable_navigation == Navigation::Alternatives,
        s.solution is Some,
        s.solution->0.status is OptimalKnown,
        s.solution->0.alternatives.len() > 1,
        0 <= s.alternative < s.solution->0.alternatives.len(),
        right.code == KeyCode::Right,
        left.code == KeyCode::Left,
    ensures
        ({
            let all = s.solution->0.alternatives;
            let there = key_step(s, right).0;
            let back = key_step(there, left).0;
            &&& there.alternative == (if s.alternative + 1 == all.len() {
                0
            } else {
                s.alternative + 1
            })
            &&& there.solution is Some
            &&& there.solution->0.choices == all[there.alternative]
            &&& there.solution->0.alternatives == all
            &&& there.solution->0.score == s.solution->0.score
            &&& there.selected == s.selected
            &&& back.alternative == s.alternative
            &&& back.solution->0.choices == all[s.alternative]
        }),
{
    law_going_around(s.alternative, s.solution->0.alternatives.len() as int);
}

proof fn lemma_id_position(members: Seq<SectionOptionView>, k: int)
    requires
        0 <= k < members.len(),
        forall|i: int, j: int|
            #![trigger members[i], members[j]]
            0 <= i < j < members.len() ==> members[i].id != members[j].id,
    ensures
        id_position(members, members[k].id) == k,
    decreases members.len(),
{
    if k > 0 {
        assert(members[0].id != members[k].id);
        let rest = members.drop_first();
        assert(rest[k - 1] == members[k]);
        assert forall|i: int, j: int|
            #![trigger rest[i], rest[j]]
            0 <= i < j < rest.len() implies rest[i].id != rest[j].id by {
            assert(rest[i] == members[i + 1] && rest[j] == members[j + 1]);
        }
        lemma_id_position(rest, k - 1);
    }
}

/// Switching the section of a choice takes the next of its sections, around the list, for that
/// choice and no other, and keeps the times.
pub proof fn law_sections_of_a_choice_go_around(
    s: AppStateView,
    choice: TimeChoiceView,
    k: int,
    other: Seq<char>,
)
    requires
        s.solution is Some,
        s.solution->0.status is OptimalKnown,
        0 <= s.result_cursor < s.solution->0.choices.len(),
        choice == s.solution->0.choices[s.result_cursor],
        choice.members.len() > 1,
        forall|i: int, j: int|
            #![trigger choice.members[i], choice.members[j]]
            0 <= i < j < choice.members.len() ==> choice.members[i].id != choice.members[j].id,
        0 <= k < choice.members.len(),
        lookup(s.actual_members, choice.requirement_id) == Some(choice.members[k].id) || (k == 0
            && lookup(s.actual_members, choice.requirement_id) is None),
        ascending::<String>(keys_of(s.actual_members)),
    ensures
        ({
            let after = with_member_cycled(s, 1);
            let next = if k + 1 == choice.members.len() {
                0
            } else {
                k + 1
            };
            &&& lookup(after.actual_members, choice.requirement_id) == Some(choice.members[next].id)
            &&& other != choice.requirement_id ==> lookup(after.actual_members, other) == lookup(
                s.actual_members,
                other,
            )
            &&& after.solution == s.solution
            &&& after.export is None
        }),
{
    let members = choice.members;
    lemma_id_position(members, k);
    law_going_around(k, members.len() as int);
    let next = members[moved(k, members.len() as int, 1)];
    law_lookup_after_insert::<String, Seq<char>>(
        s.actual_members,
        choice.requirement_id,
        next.id,
        choice.requirement_id,
    );
    law_lookup_after_insert::<String, Seq<char>>(
        s.actual_members,
        choice.requirement_id,
        next.id,
        other,
    );
}

pub(crate) proof fn lemma_same_id(ids: Seq<Seq<char>>, wanted: Seq<char>)
    ensures
        same_id(ids, wanted) is Some ==> ids.contains(same_id(ids, wanted)->0)
            && same_ignoring_case(same_id(ids, wanted)->0, wanted),
        same_id(ids, wanted) is None <==> forall|k: int|
            0 <= k < ids.len() ==> !same_ignoring_case(#[trigger] ids[k], wanted),
    decreases ids.len(),
{
    if ids.len() > 0 {
        let rest = ids.drop_first();
        lemma_same_id(rest, wanted);
        assert(forall|k: int| 0 <= k < rest.len() ==> #[trigger] rest[k] == ids[k + 1]);
        if same_ignoring_case(ids[0], wanted) {
            assert(ids.contains(ids[0]));
        } else if same_id(ids, wanted) is Some {
            let k = choose|k: int| 0 <= k < rest.len() && rest[k] == same_id(ids, wanted)->0;
            assert(ids[k + 1] == same_id(ids, wanted)->0);
        } else {
            assert forall|k: int| 0 <= k < ids.len() implies !same_ignoring_case(
                #[trigger] ids[k],
                wanted,
            ) by {
                if k > 0 {
                    assert(!same_ignoring_case(rest[k - 1], wanted));
                }
            }
        }
        if forall|k: int| 0 <= k < ids.len() ==> !same_ignoring_case(#[trigger] ids[k], wanted) {
            assert(!same_ignoring_case(ids[0], wanted));
            assert forall|k: int| 0 <= k < rest.len() implies !same_ignoring_case(
                #[trigger] rest[k],
                wanted,
            ) by {
                assert(!same_ignoring_case(ids[k + 1], wanted));
            }
        }
    }
}

/// A subject that is asked for is the course with that number, else one whose number differs in case
/// alone; there is none exactly where no course has such a number.
pub proof fn law_subjects_are_found_by_number(
    courses: Seq<(Seq<char>, CourseView)>,
    wanted: Seq<char>,
)
    ensures
        keys_of(courses).contains(wanted) ==> resolved(courses, wanted) == Some(wanted),
        resolved(courses, wanted) is Some ==> keys_of(courses).contains(
            resolved(courses, wanted)->0,
        ) && same_ignoring_case(resolved(courses, wanted)->0, wanted),
        resolved(courses, wanted) is None <==> forall|k: int|
            0 <= k < courses.len() ==> !same_ignoring_case(
                #[trigger] keys_of(courses)[k],
                wanted,
            ),
{
    lemma_lookup(courses, wanted);
    lemma_same_id(keys_of(courses), wanted);
    assert(same_ignoring_case(wanted, wanted));
    if keys_of(courses).contains(wanted) {
        let k = choose|k: int| 0 <= k < courses.len() && keys_of(courses)[k] == wanted;
        assert(same_ignoring_case(keys_of(courses)[k], wanted));
    }
}

/// The answer of the search that is under way is shown; any other answer changes no timetable.
pub proof fn law_answers_are_shown(
    s: AppStateView,
    answer: u64,
    worker: u64,
    solution: SolutionView,
)
    ensures
        ({
            let after = after_worker(
                s,
                Some((answer, worker, Ok::<SolutionView, Seq<char>>(solution))),
            );
            &&& answer == s.generation && worker == s.generation ==> after.solution == Some(
                solution,
            ) && after.alternative == 0 && after.actual_members.len() == 0
            &&& answer != s.generation || worker != s.generation ==> after.solution == s.solution
                && after.actual_members == s.actual_members
            &&& !after.optimize_running
            &&& after.selected == s.selected
        }),
{
}

/// A search is started for each new selection that is not empty, for just the selected subjects,
/// and only once.
pub proof fn law_search_starts_once(s: AppStateView, attempted: Option<u64>)
    ensures
        ({
            let (after, command) = search_step(s, attempted);
            &&& command is Start <==> attempted != Some(s.generation) && s.selected.len() > 0
            &&& command is Start ==> command == WorkerCommandView::Start(s.selected, s.generation)
                && after.optimize_running && after.solution is None
            &&& command is Keep <==> attempted == Some(s.generation)
            &&& after.selected == s.selected && after.generation == s.generation
        }),
{
}

/// A left click goes to a pane that is drawn where it is made; where none is, the focus stays.
pub proof fn law_clicks_go_where_they_point(s: AppStateView, mouse: Mouse)
    requires
        mouse.left_press,
        !s.show_help,
        s.editor is None,
        s.focus != Focus::Manual,
    ensures
        ({
            let after = after_mouse(s, mouse);
            let column = mouse.column as int;
            let row = mouse.row as int;
            ||| exists|k: int|
                0 <= k < s.focus_regions.len() && (#[trigger] s.focus_regions[k]).1 == after.focus
                    && s.focus_regions[k].0.x <= column < s.focus_regions[k].0.x
                    + s.focus_regions[k].0.width && s.focus_regions[k].0.y <= row
                    < s.focus_regions[k].0.y + s.focus_regions[k].0.height
            ||| after.focus == s.focus && forall|k: int|
                0 <= k < s.focus_regions.len() ==> !(#[trigger] s.focus_regions[k]).0.covers(
                    column,
                    row,
                )
        }),
{
    lemma_clicked(s.focus_regions, mouse.column as int, mouse.row as int, s.focus);
}

proof fn lemma_clicked(
    regions: Seq<(Area, Focus)>,
    column: int,
    row: int,
    focus: Focus,
)
    ensures
        (exists|k: int|
            0 <= k < regions.len() && (#[trigger] regions[k]).1 == clicked(
                regions,
                column,
                row,
                focus,
            ) && regions[k].0.covers(column, row)) || (clicked(regions, column, row, focus) == focus
            && forall|k: int|
            0 <= k < regions.len() ==> !(#[trigger] regions[k]).0.covers(column, row)),
    decreases regions.len(),
{
    if regions.len() > 0 {
        if regions[0].0.covers(column, row) {
            assert(regions[0].1 == clicked(regions, column, row, focus));
        } else {
            let rest = regions.drop_first();
            lemma_clicked(rest, column, row, focus);
            assert(forall|k: int| 0 <= k < rest.len() ==> #[trigger] rest[k] == regions[k + 1]);
            if exists|k: int|
                0 <= k < rest.len() && (#[trigger] rest[k]).1 == clicked(rest, column, row, focus)
                    && rest[k].0.covers(column, row) {
                let k = choose|k: int|
                    0 <= k < rest.len() && (#[trigger] rest[k]).1 == clicked(
                        rest,
                        column,
                        row,
                        focus,
                    ) && rest[k].0.covers(column, row);
                assert(regions[k + 1] == rest[k]);
            } else {
                assert forall|k: int| 0 <= k < regions.len() implies !(
                #[trigger] regions[k]).0.covers(column, row) by {
                    if k > 0 {
                        assert(rest[k - 1] == regions[k]);
                    }
                }
            }
        }
    }
}

/// A block shows a meeting on a working day of one of the choices.
pub open spec fn is_block(choices: Seq<TimeChoiceView>, block: Block) -> bool {
    &&& block.weekday < 5
    &&& block.choice < choices.len()
    &&& exists|k: int|
        0 <= k < choices[block.choice as int].meetings.len() && (
        #[trigger] choices[block.choice as int].meetings[k]).weekday == block.weekday
            && choices[block.choice as int].meetings[k].start_minute == block.start_minute
            && choices[block.choice as int].meetings[k].end_minute == block.end_minute
}

proof fn lemma_choice_blocks(meetings: Seq<Meeting>, choice: int, block: Block)
    ensures
        choice_blocks(meetings, choice).contains(block) <==> block.choice == choice as usize
            && block.weekday < 5 && exists|k: int|
            0 <= k < meetings.len() && (#[trigger] meetings[k]).weekday == block.weekday
                && meetings[k].start_minute == block.start_minute && meetings[k].end_minute
                == block.end_minute,
    decreases meetings.len(),
{
    if meetings.len() > 0 {
        let rest = meetings.drop_last();
        let m = meetings.last();
        let at = meetings.len() - 1;
        let own = Block {
            weekday: m.weekday,
            start_minute: m.start_minute,
            end_minute: m.end_minute,
            choice: choice as usize,
        };
        lemma_choice_blocks(rest, choice, block);
        crate::laws::catalog::lemma_pushed(choice_blocks(rest, choice), own, block);
        assert(meetings[at] == m);
        assert(forall|k: int| 0 <= k < rest.len() ==> #[trigger] rest[k] == meetings[k]);
        if choice_blocks(rest, choice).contains(block) {
            let k = choose|k: int|
                0 <= k < rest.len() && (#[trigger] rest[k]).weekday == block.weekday
                    && rest[k].start_minute == block.start_minute && rest[k].end_minute
                    == block.end_minute;
            assert(meetings[k].weekday == block.weekday);
        }
        if block == own {
            assert(meetings[at].weekday == block.weekday);
        }
        if exists|k: int|
            0 <= k < meetings.len() && (#[trigger] meetings[k]).weekday == block.weekday
                && meetings[k].start_minute == block.start_minute && meetings[k].end_minute
                == block.end_minute {
            let k = choose|k: int|
                0 <= k < meetings.len() && (#[trigger] meetings[k]).weekday == block.weekday
                    && meetings[k].start_minute == block.start_minute && meetings[k].end_minute
                    == block.end_minute;
            if k < at {
                assert(rest[k].weekday == block.weekday);
            }
        }
    }
}

proof fn lemma_all_blocks(choices: Seq<TimeChoiceView>, block: Block)
    requires
        choices.len() <= usize::MAX,
    ensures
        all_blocks(choices).contains(block) <==> is_block(choices, block),
    decreases choices.len(),
{
    if choices.len() > 0 {
        let rest = choices.drop_last();
        let at = choices.len() - 1;
        let own = choice_blocks(choices.last().meetings, at);
        lemma_all_blocks(rest, block);
        lemma_choice_blocks(choices.last().meetings, at, block);
        crate::determinism::lemma_sum_contains(all_blocks(rest), own, block);
        assert(choices[at] == choices.last());
        if block.choice < rest.len() {
            assert(rest[block.choice as int] == choices[block.choice as int]);
        }
    }
}

/// The blocks of a timetable are the meetings of its choices on working days, by day, start and end.
pub proof fn law_blocks_are_the_meetings(choices: Seq<TimeChoiceView>, block: Block)
    requires
        choices.len() <= usize::MAX,
    ensures
        blocks_of(choices).contains(block) <==> is_block(choices, block),
        forall|i: int, j: int|
            #![trigger blocks_of(choices)[i], blocks_of(choices)[j]]
            0 <= i < j < blocks_of(choices).len() ==> blocks_of(choices)[i].weekday < blocks_of(
                choices,
            )[j].weekday || (blocks_of(choices)[i].weekday == blocks_of(choices)[j].weekday
                && blocks_of(choices)[i].start_minute <= blocks_of(choices)[j].start_minute),
{
    let all = all_blocks(choices);
    let sorted = blocks_of(choices);
    lemma_all_blocks(choices, block);
    lemma_sorted_elements(all, block_le());
    law_stable_sorted(all, block_le());
    assert forall|i: int, j: int|
        #![trigger sorted[i], sorted[j]]
        0 <= i < j < sorted.len() implies sorted[i].weekday < sorted[j].weekday || (
    sorted[i].weekday == sorted[j].weekday && sorted[i].start_minute <= sorted[j].start_minute) by {
        assert(block_le()(sorted[i], sorted[j]));
    }
}

/// Scrolling goes by the given lines and stays between the first line and the last page.
pub proof fn law_scrolling_stays_within(offset: int, delta: int, last: int)
    requires
        0 <= offset <= last,
    ensures
        0 <= moved_offset(offset, delta, last) <= last,
        0 <= offset + delta <= last ==> moved_offset(offset, delta, last) == offset + delta,
        offset + delta < 0 ==> moved_offset(offset, delta, last) == 0,
        offset + delta > last ==> moved_offset(offset, delta, last) == last,
{
}

} // verus!
