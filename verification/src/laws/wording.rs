//! What texts are made of.
use vstd::prelude::*;
use crate::color::{collapsed, component_label, course_color_index, first_visible, position};
use crate::laws::notation::{lemma_times, lemma_weekdays, names_day, tells_time};
use crate::laws::{
    lemma_decimal_value, lemma_time_round_trip, lemma_trim_end, lemma_trim_start,
    lemma_weekday_round_trip,
};
use crate::model::{clock, clock_text, day_name, day_name_text};
use crate::text::{
    all_numeric, alphanumeric, blank, decimal, digit, digits_value, lower, lower_case_char, lowered,
    numeric, padded, pieces, titlecase, trim_end, trim_start, trimmed, upper, whitespace, words,
};

verus! {

/// Nothing but white space.
pub open spec fn invisible(text: Seq<char>) -> bool {
    forall|i: int| 0 <= i < text.len() ==> whitespace(#[trigger] text[i])
}

proof fn lemma_front(s: Seq<char>)
    ensures
        invisible(s.take(s.len() - trim_start(s).len())),
    decreases s.len(),
{
    lemma_trim_start(s);
    if s.len() > 0 && whitespace(s[0]) {
        let rest = s.drop_first();
        lemma_front(rest);
        lemma_trim_start(rest);
        let n = s.len() - trim_start(s).len();
        let front = s.take(n);
        assert forall|i: int| 0 <= i < front.len() implies whitespace(#[trigger] front[i]) by {
            if i > 0 {
                assert(rest.take(n - 1)[i - 1] == s[i]);
            }
        }
    }
}

proof fn lemma_back(s: Seq<char>)
    ensures
        invisible(s.skip(trim_end(s).len() as int)),
    decreases s.len(),
{
    lemma_trim_end(s);
    if s.len() > 0 && whitespace(s.last()) {
        let rest = s.drop_last();
        lemma_back(rest);
        lemma_trim_end(rest);
        let n = trim_end(s).len() as int;
        let back = s.skip(n);
        assert forall|i: int| 0 <= i < back.len() implies whitespace(#[trigger] back[i]) by {
            if n + i < rest.len() {
                assert(rest.skip(n)[i] == s[n + i]);
            }
        }
    }
}

/// Trimming takes away white space at the ends and nothing else, and leaves none there.
pub proof fn law_trimming_takes_only_white_space(s: Seq<char>)
    ensures
        exists|front: Seq<char>, back: Seq<char>|
            #![trigger invisible(front), invisible(back)]
            invisible(front) && invisible(back) && s == front + trimmed(s) + back,
        trimmed(s).len() > 0 ==> !whitespace(trimmed(s)[0]) && !whitespace(trimmed(s).last()),
{
    let inner = trim_start(s);
    lemma_trim_start(s);
    lemma_trim_end(inner);
    lemma_front(s);
    lemma_back(inner);
    let front = s.take(s.len() - inner.len());
    let back = inner.skip(trim_end(inner).len() as int);
    assert(s =~= front + trimmed(s) + back);
    if trimmed(s).len() > 0 {
        assert(trimmed(s)[0] == inner[0]);
    }
}

/// The decimal digits of a number have its value and no zero in front.
pub proof fn law_digits_have_the_value(n: nat)
    ensures
        all_numeric(decimal(n)),
        decimal(n).len() > 0,
        digits_value(decimal(n)) == n,
        n > 0 ==> decimal(n)[0] != '0',
    decreases n,
{
    lemma_decimal_value(n);
    if n >= 10 {
        law_digits_have_the_value(n / 10);
    } else if n > 0 {
        assert(digit(n as int) != '0');
    }
}

proof fn lemma_zeros(s: Seq<char>, n: nat)
    ensures
        digits_value(Seq::new(n, |i: int| '0') + s) == digits_value(s),
    decreases s.len(),
{
    let zeros = Seq::new(n, |i: int| '0');
    if s.len() == 0 {
        assert(zeros + s =~= zeros);
        lemma_all_zeros(n);
    } else {
        lemma_zeros(s.drop_last(), n);
        assert((zeros + s).drop_last() =~= zeros + s.drop_last());
    }
}

proof fn lemma_all_zeros(n: nat)
    ensures
        digits_value(Seq::new(n, |i: int| '0')) == 0,
    decreases n,
{
    if n > 0 {
        let zeros = Seq::new(n, |i: int| '0');
        lemma_all_zeros((n - 1) as nat);
        assert(zeros.drop_last() =~= Seq::new((n - 1) as nat, |i: int| '0'));
    }
}

/// Padding a number keeps its value and gives it at least the width, no more than it needs.
pub proof fn law_padding_keeps_the_value(n: nat, width: nat)
    ensures
        all_numeric(padded(n, width as int)),
        digits_value(padded(n, width as int)) == n,
        padded(n, width as int).len() >= width,
        padded(n, width as int).len() == width || padded(n, width as int) == decimal(n),
{
    law_digits_have_the_value(n);
    let s = decimal(n);
    if s.len() < width {
        lemma_zeros(s, (width - s.len()) as nat);
        let all = padded(n, width as int);
        assert forall|i: int| 0 <= i < all.len() implies numeric(#[trigger] all[i]) by {
            if i >= width - s.len() {
                assert(all[i] == s[i - (width - s.len())]);
            }
        }
    }
}

/// A minute of the day is written as the time that it is read from, and a weekday as a name of it.
pub proof fn law_times_are_written_as_they_are_read(
    minute: u16,
    weekday: u8,
    time: String,
    name: &'static str,
)
    requires
        call_ensures(clock_text, (minute,), time),
        call_ensures(day_name_text, (weekday,), name),
        minute <= 1440,
        weekday < 7,
    ensures
        tells_time(time@, minute as int),
        time@.len() == 5,
        names_day(name@, weekday as int),
        name@.len() == 3,
{
    lemma_time_round_trip(minute);
    lemma_times(clock(minute as int), minute);
    crate::laws::lemma_clock(minute as int);
    lemma_weekday_round_trip(weekday);
    lemma_weekdays(day_name(weekday as int), weekday);
    reveal_strlit("Mon");
    reveal_strlit("Tue");
    reveal_strlit("Wed");
    reveal_strlit("Thu");
    reveal_strlit("Fri");
    reveal_strlit("Sat");
    reveal_strlit("Sun");
}

/// The words of a text are visible: none is empty or has white space in it.
pub proof fn law_words_are_visible(s: Seq<char>, k: int)
    requires
        0 <= k < words(s).len(),
    ensures
        words(s)[k].len() > 0,
        forall|i: int| 0 <= i < words(s)[k].len() ==> !whitespace(#[trigger] words(s)[k][i]),
{
    let all = pieces(s, blank());
    let keep = |piece: Seq<char>| piece.len() > 0;
    let word = words(s)[k];
    assert(words(s).contains(word));
    crate::order::lemma_filtered(all, keep, word);
    let j = choose|j: int| 0 <= j < all.len() && all[j] == word;
    lemma_pieces_clear(s, j);
}

proof fn lemma_pieces_clear(s: Seq<char>, j: int)
    requires
        0 <= j < pieces(s, blank()).len(),
    ensures
        forall|i: int|
            0 <= i < pieces(s, blank())[j].len() ==> !whitespace(
                #[trigger] pieces(s, blank())[j][i],
            ),
    decreases s.len(),
{
    if s.len() > 0 {
        let before = pieces(s.drop_last(), blank());
        crate::text::lemma_pieces_nonempty(s.drop_last(), blank());
        let all = pieces(s, blank());
        if j < before.len() {
            lemma_pieces_clear(s.drop_last(), j);
        }
    }
}

/// The letters and digits of a kind, in lower case, make a word.
pub open spec fn spells(kind: Seq<char>, word: Seq<char>) -> bool {
    collapsed(lowered(trimmed(kind))) == word
}

/// The usual kinds have their usual labels, whatever their case and whatever stands between their
/// letters; a kind without letters and digits has a label too.
pub proof fn law_kinds_have_their_labels(kind: &str, r: String)
    requires
        call_ensures(component_label, (kind,), r),
    ensures
        spells(kind@, "lecture"@) || spells(kind@, "lec"@) ==> r@ == "Lec"@,
        spells(kind@, "recitation"@) || spells(kind@, "rec"@) ==> r@ == "Rec"@,
        spells(kind@, "lab"@) || spells(kind@, "laboratory"@) ==> r@ == "Lab"@,
        spells(kind@, "pe"@) || spells(kind@, "physicaleducation"@) ==> r@ == "PE"@,
        spells(kind@, "design"@) ==> r@ == "Design"@,
        spells(kind@, Seq::empty()) ==> r@ == "Other"@,
{
    reveal_strlit("lecture");
    reveal_strlit("lec");
    reveal_strlit("recitation");
    reveal_strlit("rec");
    reveal_strlit("lab");
    reveal_strlit("laboratory");
    reveal_strlit("pe");
    reveal_strlit("physicaleducation");
    reveal_strlit("design");
    assert("lec"@[0] == 'l' && "lec"@[1] == 'e');
    assert("rec"@[0] == 'r');
    assert("lab"@[0] == 'l' && "lab"@[1] == 'a');
    assert("recitation"@[0] == 'r' && "laboratory"@[0] == 'l');
}

proof fn lemma_titlecase(s: Seq<char>)
    requires
        forall|i: int| 0 <= i < s.len() ==> (#[trigger] s[i] as u32) < 128,
    ensures
        titlecase(s).len() == s.len(),
        s.len() > 0 ==> titlecase(s)[0] == upper(s[0]),
        forall|i: int| 1 <= i < s.len() ==> #[trigger] titlecase(s)[i] == lower(s[i]),
    decreases s.len(),
{
    if s.len() > 1 {
        let rest = s.drop_last();
        lemma_titlecase(rest);
        assert(titlecase(s) == titlecase(rest) + lower_case_char(s.last()));
        assert((s.last() as u32) < 128);
        assert forall|i: int| 1 <= i < s.len() implies #[trigger] titlecase(s)[i] == lower(s[i]) by {
            if i < rest.len() {
                assert(titlecase(rest)[i] == lower(rest[i]));
            }
        }
    } else if s.len() == 1 {
        assert((s[0] as u32) < 128);
        assert(titlecase(s) =~= seq![upper(s[0])]);
    }
}

/// Another kind of ASCII letters has its first three of them as its label, the first as a capital.
pub proof fn law_other_kinds_are_shortened(kind: &str, r: String)
    requires
        call_ensures(component_label, (kind,), r),
        trimmed(kind@) == kind@,
        kind@.len() >= 3,
        forall|i: int|
            0 <= i < kind@.len() ==> ('a' <= #[trigger] kind@[i] <= 'z' || 'A' <= kind@[i] <= 'Z'),
        !is_usual(kind@),
    ensures
        r@ == seq![upper(kind@[0]), lower(kind@[1]), lower(kind@[2])],
{
    let visible = kind@.filter(|c: char| !whitespace(c));
    lemma_all_kept(kind@, |c: char| !whitespace(c));
    lemma_all_kept(lowered(kind@), |c: char| alphanumeric(c));
    assert(visible == kind@);
    let shown = if kind@.len() <= 3 {
        kind@
    } else {
        kind@.take(3)
    };
    assert(first_visible(kind@, 3) == shown);
    lemma_titlecase(shown);
    assert(r@ =~= seq![upper(kind@[0]), lower(kind@[1]), lower(kind@[2])]);
}

/// A kind is one of those with a usual label.
pub open spec fn is_usual(kind: Seq<char>) -> bool {
    ||| spells(kind, "lecture"@)
    ||| spells(kind, "lec"@)
    ||| spells(kind, "recitation"@)
    ||| spells(kind, "rec"@)
    ||| spells(kind, "lab"@)
    ||| spells(kind, "laboratory"@)
    ||| spells(kind, "pe"@)
    ||| spells(kind, "physicaleducation"@)
    ||| spells(kind, "design"@)
}

proof fn lemma_all_kept(s: Seq<char>, pred: spec_fn(char) -> bool)
    requires
        forall|i: int| 0 <= i < s.len() ==> #[trigger] pred(s[i]),
    ensures
        s.filter(pred) == s,
    decreases s.len(),
{
    reveal(Seq::filter);
    if s.len() > 0 {
        let rest = s.drop_last();
        assert forall|i: int| 0 <= i < rest.len() implies #[trigger] pred(rest[i]) by {
            assert(pred(s[i]));
        }
        lemma_all_kept(rest, pred);
        assert(pred(s[s.len() - 1]));
        assert(rest.push(s.last()) =~= s);
    }
}

proof fn lemma_position(s: Seq<Seq<char>>, k: int)
    requires
        0 <= k < s.len(),
        forall|i: int| 0 <= i < k ==> #[trigger] s[i] != s[k],
    ensures
        position(s, s[k]) == k,
    decreases s.len(),
{
    if k > 0 {
        assert(s[0] != s[k]);
        let rest = s.drop_first();
        assert(rest[k - 1] == s[k]);
        assert forall|i: int| 0 <= i < k - 1 implies #[trigger] rest[i] != rest[k - 1] by {
            assert(s[i + 1] != s[k]);
        }
        lemma_position(rest, k - 1);
    }
}

proof fn lemma_no_position(s: Seq<Seq<char>>, x: Seq<char>)
    requires
        !s.contains(x),
    ensures
        position(s, x) == s.len(),
    decreases s.len(),
{
    if s.len() > 0 {
        assert(s.contains(s[0]));
        let rest = s.drop_first();
        assert forall|i: int| 0 <= i < rest.len() implies #[trigger] rest[i] != x by {
            assert(s.contains(s[i + 1]));
        }
        lemma_no_position(rest, x);
    }
}

/// The courses of a list take the colors of the palette in turn; what is not in it has the first.
pub proof fn law_courses_take_colors_in_turn(
    course_id: &str,
    ordered: &[String],
    r: usize,
    k: int,
)
    requires
        call_ensures(course_color_index, (course_id, ordered), r),
        ordered.deep_view().no_duplicates(),
    ensures
        0 <= k < ordered.deep_view().len() && ordered.deep_view()[k] == course_id@ ==> r == k
            % 8,
        !ordered.deep_view().contains(course_id@) ==> r == 0,
{
    let ids = ordered.deep_view();
    if 0 <= k < ids.len() && ids[k] == course_id@ {
        lemma_position(ids, k);
    }
    if !ids.contains(course_id@) {
        lemma_no_position(ids, course_id@);
    }
}

} // verus!
