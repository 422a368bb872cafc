//! Moving through the timetable: its alternatives, its blocks, and the members of a block.
use vstd::prelude::*;
use crate::model::{Meeting, TimeChoice, TimeChoiceView};
use crate::optimizer::lemma_meetings_view;
use crate::order::{sort_by, stable_sorted};

verus! {

/// What the keys of the timetable move through.
#[derive(Clone, Copy, Debug, PartialEq, Eq, Structural)]
pub enum Navigation {
    /// The equally good timetables.
    Alternatives,
    /// The blocks of a timetable; the position of the current one.
    Blocks(usize),
    /// The sections that can stand in a block.
    Members(usize),
}

/// What the keys of the timetable do.
pub open spec fn hint_of(navigation: Navigation) -> Seq<char> {
    match navigation {
        Navigation::Alternatives => "h/l alternatives | Enter blocks | j/k scroll | Home/End first/last line | Tab panes"@,
        Navigation::Blocks(_) => "hjkl move between blocks | Enter same-time members | Esc back"@,
        Navigation::Members(_) => "h/l switch same-time member | Esc back"@,
    }
}

impl Navigation {
    /// What the keys do.
    pub fn hint(self) -> (r: &'static str)
        ensures
            r@ == hint_of(self),
    {
        match self {
            Navigation::Alternatives => "h/l alternatives | Enter blocks | j/k scroll | Home/End first/last line | Tab panes",
            Navigation::Blocks(_) => "hjkl move between blocks | Enter same-time members | Esc back",
            Navigation::Members(_) => "h/l switch same-time member | Esc back",
        }
    }
}

/// One meeting of a choice on a weekday of the grid.
#[derive(Clone, Copy, Debug, PartialEq, Eq, Structural)]
pub struct Block {
    pub weekday: u8,
    pub start_minute: u16,
    pub end_minute: u16,
    /// The position of the choice in the solution.
    pub choice: usize,
}

impl DeepView for Block {
    type V = Block;

    open spec fn deep_view(&self) -> Block {
        *self
    }
}

/// The weekday meetings of a choice.
pub open spec fn choice_blocks(meetings: Seq<Meeting>, choice: int) -> Seq<Block>
    decreases meetings.len(),
{
    if meetings.len() == 0 {
        Seq::empty()
    } else {
        let m = meetings.last();
        let rest = choice_blocks(meetings.drop_last(), choice);
        if m.weekday < 5 {
            rest.push(
                Block {
                    weekday: m.weekday,
                    start_minute: m.start_minute,
                    end_minute: m.end_minute,
                    choice: choice as usize,
                },
            )
        } else {
            rest
        }
    }
}

/// The weekday meetings of all choices.
pub open spec fn all_blocks(choices: Seq<TimeChoiceView>) -> Seq<Block>
    decreases choices.len(),
{
    if choices.len() == 0 {
        Seq::empty()
    } else {
        all_blocks(choices.drop_last()) + choice_blocks(
            choices.last().meetings,
            choices.len() - 1,
        )
    }
}

/// The order of blocks: by day, start and end.
pub open spec fn block_le() -> spec_fn(Block, Block) -> bool {
    |a: Block, b: Block|
        if a.weekday != b.weekday {
            a.weekday < b.weekday
        } else if a.start_minute != b.start_minute {
            a.start_minute < b.start_minute
        } else {
            a.end_minute <= b.end_minute
        }
}

/// The blocks of a timetable, in order.
pub open spec fn blocks_of(choices: Seq<TimeChoiceView>) -> Seq<Block> {
    stable_sorted(all_blocks(choices), block_le())
}

fn block_may_precede(a: &Block, b: &Block) -> (r: bool)
    ensures
        r == block_le()(*a, *b),
{
    if a.weekday != b.weekday {
        a.weekday < b.weekday
    } else if a.start_minute != b.start_minute {
        a.start_minute < b.start_minute
    } else {
        a.end_minute <= b.end_minute
    }
}

fn push_choice_blocks(meetings: &Vec<Meeting>, choice: usize, blocks: &mut Vec<Block>)
    ensures
        final(blocks)@ == old(blocks)@ + choice_blocks(meetings@, choice as int),
{
    let ghost before = blocks@;
    let mut index: usize = 0;
    assert(meetings@.take(0) =~= Seq::empty());
    assert(blocks@ =~= before + choice_blocks(meetings@.take(0), choice as int));
    while index < meetings.len()
        invariant
            index <= meetings@.len(),
            blocks@ == before + choice_blocks(meetings@.take(index as int), choice as int),
        decreases meetings@.len() - index,
    {
        let m = meetings[index];
        assert(meetings@.take(index + 1).drop_last() =~= meetings@.take(index as int));
        if m.weekday < 5 {
            blocks.push(
                Block {
                    weekday: m.weekday,
                    start_minute: m.start_minute,
                    end_minute: m.end_minute,
                    choice,
                },
            );
        }
        assert(blocks@ =~= before + choice_blocks(meetings@.take(index + 1), choice as int));
        index += 1;
    }
    assert(meetings@.take(index as int) =~= meetings@);
}

/// The blocks of a timetable, in order.
pub fn timetable_blocks(choices: &Vec<TimeChoice>) -> (r: Vec<Block>)
    ensures
        r@ == blocks_of(choices.deep_view()),
{
    let ghost all = choices.deep_view();
    let mut blocks: Vec<Block> = Vec::new();
    let mut index: usize = 0;
    assert(all.take(0) =~= Seq::empty());
    assert(blocks@ =~= all_blocks(all.take(0)));
    while index < choices.len()
        invariant
            index <= choices@.len(),
            all == choices.deep_view(),
            blocks@ == all_blocks(all.take(index as int)),
        decreases choices@.len() - index,
    {
        proof {
            assert(all.take(index + 1).drop_last() =~= all.take(index as int));
            assert(all.take(index + 1).last() == choices@[index as int].deep_view());
            lemma_meetings_view(choices@[index as int].meetings);
        }
        push_choice_blocks(&choices[index].meetings, index, &mut blocks);
        index += 1;
    }
    assert(all.take(index as int) =~= all);
    assert(blocks.deep_view() =~= blocks@);
    let sorted = sort_by(blocks, block_may_precede, Ghost(block_le()));
    assert(sorted.deep_view() =~= sorted@);
    sorted
}

/// The first block of the nearest other day from `day` on in one direction, going around the
/// week; `at` where there is no other day.
pub open spec fn other_day(blocks: Seq<Block>, at: int, day: int, back: bool, steps: int) -> int
    decreases steps,
{
    if steps <= 0 {
        at
    } else {
        let next = (if back {
            day + 4
        } else {
            day + 1
        }) % 5;
        let found = first_of_day(blocks, next);
        if found < blocks.len() {
            found
        } else {
            other_day(blocks, at, next, back, steps - 1)
        }
    }
}

/// The position of the first block of a day, the length if there is none.
pub open spec fn first_of_day(blocks: Seq<Block>, day: int) -> int
    decreases blocks.len(),
{
    if blocks.len() == 0 || blocks[0].weekday == day {
        0
    } else {
        1 + first_of_day(blocks.drop_first(), day)
    }
}

fn find_first_of_day(blocks: &Vec<Block>, day: u8) -> (r: usize)
    ensures
        r == first_of_day(blocks@, day as int),
        r <= blocks@.len(),
{
    let mut index: usize = 0;
    assert(blocks@.skip(0) =~= blocks@);
    while index < blocks.len() && blocks[index].weekday != day
        invariant
            index <= blocks@.len(),
            first_of_day(blocks@, day as int) == index + first_of_day(
                blocks@.skip(index as int),
                day as int,
            ),
        decreases blocks@.len() - index,
    {
        assert(blocks@.skip(index as int).drop_first() =~= blocks@.skip(index + 1));
        index += 1;
    }
    index
}

/// The block to which a move to another day leads.
pub fn move_to_day(blocks: &Vec<Block>, at: usize, back: bool) -> (r: usize)
    requires
        at < blocks@.len(),
        blocks@[at as int].weekday < 5,
    ensures
        r == other_day(blocks@, at as int, blocks@[at as int].weekday as int, back, 5),
        r < blocks@.len(),
{
    let mut day: u8 = blocks[at].weekday;
    let mut steps: u8 = 5;
    let ghost goal = other_day(blocks@, at as int, day as int, back, 5);
    while steps > 0
        invariant
            at < blocks@.len(),
            steps <= 5,
            day < 5,
            goal == other_day(
                blocks@,
                at as int,
                blocks@[at as int].weekday as int,
                back,
                5,
            ),
            goal == other_day(blocks@, at as int, day as int, back, steps as int),
        decreases steps,
    {
        day = (if back {
            day + 4
        } else {
            day + 1
        }) % 5;
        let found = find_first_of_day(blocks, day);
        if found < blocks.len() {
            return found;
        }
        steps -= 1;
    }
    at
}

/// Every block of a timetable lies on a weekday of the grid and belongs to one of its choices.
pub proof fn lemma_blocks_wf(choices: Seq<TimeChoiceView>)
    requires
        choices.len() <= usize::MAX,
    ensures
        forall|i: int|
            0 <= i < blocks_of(choices).len() ==> (#[trigger] blocks_of(choices)[i]).weekday < 5
                && blocks_of(choices)[i].choice < choices.len(),
{
    lemma_all_blocks_wf(choices);
    crate::optimizer::lemma_sorted_elements(all_blocks(choices), block_le());
    assert forall|i: int| 0 <= i < blocks_of(choices).len() implies (#[trigger] blocks_of(
        choices,
    )[i]).weekday < 5 && blocks_of(choices)[i].choice < choices.len() by {
        let b = blocks_of(choices)[i];
        assert(blocks_of(choices).contains(b));
        let j = choose|j: int| 0 <= j < all_blocks(choices).len() && all_blocks(choices)[j] == b;
        assert(all_blocks(choices)[j].weekday < 5);
    }
}

proof fn lemma_all_blocks_wf(choices: Seq<TimeChoiceView>)
    requires
        choices.len() <= usize::MAX,
    ensures
        forall|i: int|
            0 <= i < all_blocks(choices).len() ==> (#[trigger] all_blocks(choices)[i]).weekday < 5
                && all_blocks(choices)[i].choice < choices.len(),
    decreases choices.len(),
{
    if choices.len() > 0 {
        lemma_all_blocks_wf(choices.drop_last());
        lemma_choice_blocks_wf(choices.last().meetings, choices.len() - 1);
        let head = all_blocks(choices.drop_last());
        let tail = choice_blocks(choices.last().meetings, choices.len() - 1);
        assert forall|i: int| 0 <= i < all_blocks(choices).len() implies (#[trigger] all_blocks(
            choices,
        )[i]).weekday < 5 && all_blocks(choices)[i].choice < choices.len() by {
            if i < head.len() {
                assert(all_blocks(choices)[i] == head[i]);
            } else {
                assert(all_blocks(choices)[i] == tail[i - head.len()]);
            }
        }
    }
}

proof fn lemma_choice_blocks_wf(meetings: Seq<Meeting>, choice: int)
    requires
        0 <= choice <= usize::MAX,
    ensures
        forall|i: int|
            0 <= i < choice_blocks(meetings, choice).len() ==> (#[trigger] choice_blocks(
                meetings,
                choice,
            )[i]).weekday < 5 && choice_blocks(meetings, choice)[i].choice == choice,
    decreases meetings.len(),
{
    if meetings.len() > 0 {
        lemma_choice_blocks_wf(meetings.drop_last(), choice);
        let rest = choice_blocks(meetings.drop_last(), choice);
        let all = choice_blocks(meetings, choice);
        assert forall|i: int| 0 <= i < all.len() implies (#[trigger] all[i]).weekday < 5
            && all[i].choice == choice by {
            if i < rest.len() {
                assert(all[i] == rest[i]);
            }
        }
    }
}

} // verus!
