//! Text as sequences of characters.
use vstd::prelude::*;
use crate::order::{Duplicate, Rank};

verus! {

/// Lexicographic order by Unicode scalar value.
pub open spec fn text_before(a: Seq<char>, b: Seq<char>) -> bool
    decreases a.len(),
{
    if b.len() == 0 {
        false
    } else if a.len() == 0 {
        true
    } else if a[0] != b[0] {
        a[0] < b[0]
    } else {
        text_before(a.drop_first(), b.drop_first())
    }
}

proof fn lemma_text_before_irreflexive(a: Seq<char>)
    ensures
        !text_before(a, a),
    decreases a.len(),
{
    if a.len() > 0 {
        lemma_text_before_irreflexive(a.drop_first());
    }
}

proof fn lemma_text_before_transitive(a: Seq<char>, b: Seq<char>, c: Seq<char>)
    requires
        text_before(a, b),
        text_before(b, c),
    ensures
        text_before(a, c),
    decreases a.len(),
{
    if a.len() > 0 && a[0] == b[0] && b[0] == c[0] {
        lemma_text_before_transitive(a.drop_first(), b.drop_first(), c.drop_first());
    }
}

proof fn lemma_text_before_total(a: Seq<char>, b: Seq<char>)
    ensures
        a == b || text_before(a, b) || text_before(b, a),
    decreases a.len(),
{
    if a.len() > 0 && b.len() > 0 && a[0] == b[0] {
        lemma_text_before_total(a.drop_first(), b.drop_first());
        if a.drop_first() == b.drop_first() {
            assert(a =~= seq![a[0]] + a.drop_first());
            assert(b =~= seq![b[0]] + b.drop_first());
        }
    } else if a.len() == 0 && b.len() == 0 {
        assert(a =~= b);
    }
}

/// The characters of `s`.
pub fn chars_of(s: &str) -> (r: Vec<char>)
    ensures
        r@ == s@,
{
    let mut out: Vec<char> = Vec::new();
    for c in it: s.chars()
        invariant
            it.seq() == s@,
            out@ == s@.take(it.index() as int),
    {
        out.push(c);
        assert(out@ =~= s@.take(it.index() + 1));
    }
    assert(s@.take(s@.len() as int) =~= s@);
    out
}

/// Whether `a` comes strictly before `b` in lexicographic order.
pub fn is_text_before(a: &str, b: &str) -> (r: bool)
    ensures
        r == text_before(a@, b@),
{
    let left = chars_of(a);
    let right = chars_of(b);
    let mut index: usize = 0;
    assert(a@.skip(0) =~= a@ && b@.skip(0) =~= b@);
    while index < left.len() && index < right.len() && left[index] == right[index]
        invariant
            left@ == a@,
            right@ == b@,
            index <= left@.len(),
            index <= right@.len(),
            text_before(a@, b@) == text_before(a@.skip(index as int), b@.skip(index as int)),
        decreases left@.len() - index,
    {
        assert(a@.skip(index as int).drop_first() =~= a@.skip(index + 1));
        assert(b@.skip(index as int).drop_first() =~= b@.skip(index + 1));
        index += 1;
    }
    if index == right.len() {
        false
    } else if index == left.len() {
        true
    } else {
        left[index] < right[index]
    }
}

impl Rank for String {
    open spec fn before(a: Seq<char>, b: Seq<char>) -> bool {
        text_before(a, b)
    }

    proof fn before_irreflexive(a: Seq<char>) {
        lemma_text_before_irreflexive(a);
    }

    proof fn before_transitive(a: Seq<char>, b: Seq<char>, c: Seq<char>) {
        lemma_text_before_transitive(a, b, c);
    }

    proof fn before_total(a: Seq<char>, b: Seq<char>) {
        lemma_text_before_total(a, b);
    }

    fn is_before(&self, other: &Self) -> (r: bool) {
        is_text_before(self.as_str(), other.as_str())
    }
}

impl Duplicate for String {
    fn duplicate(&self) -> (r: Self) {
        self.clone()
    }
}

/// `String::push`: the character is added at the end.
pub assume_specification[ String::push ](s: &mut String, c: char)
    ensures
        final(s)@ == old(s)@.push(c),
;

/// The string made of the given characters.
pub fn text_of(chars: &Vec<char>) -> (r: String)
    ensures
        r@ == chars@,
{
    let mut out = String::new();
    let mut index: usize = 0;
    assert(chars@.take(0) =~= Seq::<char>::empty());
    while index < chars.len()
        invariant
            index <= chars@.len(),
            out@ == chars@.take(index as int),
        decreases chars@.len() - index,
    {
        out.push(chars[index]);
        assert(chars@.take(index + 1) =~= chars@.take(index as int).push(chars@[index as int]));
        index += 1;
    }
    assert(chars@.take(index as int) =~= chars@);
    out
}

/// Whether a character is white space in the sense of Unicode.
pub open spec fn whitespace(c: char) -> bool {
    let n = c as u32;
    ||| 9 <= n <= 13
    ||| n == 0x20
    ||| n == 0x85
    ||| n == 0xA0
    ||| n == 0x1680
    ||| 0x2000 <= n <= 0x200A
    ||| n == 0x2028
    ||| n == 0x2029
    ||| n == 0x202F
    ||| n == 0x205F
    ||| n == 0x3000
}

pub fn is_whitespace(c: char) -> (r: bool)
    ensures
        r == whitespace(c),
{
    let n: u32 = c as u32;
    (9 <= n && n <= 13) || n == 0x20 || n == 0x85 || n == 0xA0 || n == 0x1680 || (0x2000 <= n && n
        <= 0x200A) || n == 0x2028 || n == 0x2029 || n == 0x202F || n == 0x205F || n == 0x3000
}

/// Whether a character is a control character.
pub open spec fn control(c: char) -> bool {
    (c as u32) < 0x20 || 0x7F <= (c as u32) < 0xA0
}

pub fn is_control(c: char) -> (r: bool)
    ensures
        r == control(c),
{
    let n: u32 = c as u32;
    n < 0x20 || (0x7F <= n && n < 0xA0)
}

/// `s` without the white space at its start.
pub open spec fn trim_start(s: Seq<char>) -> Seq<char>
    decreases s.len(),
{
    if s.len() > 0 && whitespace(s[0]) {
        trim_start(s.drop_first())
    } else {
        s
    }
}

/// `s` without the white space at its end.
pub open spec fn trim_end(s: Seq<char>) -> Seq<char>
    decreases s.len(),
{
    if s.len() > 0 && whitespace(s.last()) {
        trim_end(s.drop_last())
    } else {
        s
    }
}

/// `s` without the white space at its ends.
pub open spec fn trimmed(s: Seq<char>) -> Seq<char> {
    trim_end(trim_start(s))
}

/// The text without the white space at its ends.
pub fn trim(s: &str) -> (r: String)
    ensures
        r@ == trimmed(s@),
{
    let chars = chars_of(s);
    let mut start: usize = 0;
    assert(s@.skip(0) =~= s@);
    while start < chars.len() && is_whitespace(chars[start])
        invariant
            chars@ == s@,
            start <= chars@.len(),
            trim_start(s@) == trim_start(s@.skip(start as int)),
        decreases chars@.len() - start,
    {
        assert(s@.skip(start as int).drop_first() =~= s@.skip(start + 1));
        start += 1;
    }
    let mut end: usize = chars.len();
    assert(s@.skip(start as int) =~= s@.subrange(start as int, end as int));
    while end > start && is_whitespace(chars[end - 1])
        invariant
            chars@ == s@,
            start <= end <= chars@.len(),
            trimmed(s@) == trim_end(s@.subrange(start as int, end as int)),
        decreases end,
    {
        assert(s@.subrange(start as int, end as int).drop_last() =~= s@.subrange(
            start as int,
            end - 1,
        ));
        end -= 1;
    }
    let mut out = String::new();
    let mut index: usize = start;
    assert(s@.subrange(start as int, start as int) =~= Seq::<char>::empty());
    while index < end
        invariant
            chars@ == s@,
            start <= index <= end <= chars@.len(),
            out@ == s@.subrange(start as int, index as int),
        decreases end - index,
    {
        out.push(chars[index]);
        assert(s@.subrange(start as int, index + 1) =~= s@.subrange(
            start as int,
            index as int,
        ).push(s@[index as int]));
        index += 1;
    }
    out
}

/// A character in ASCII lower case.
pub open spec fn lower(c: char) -> char {
    if 'A' <= c <= 'Z' {
        ((c as u32) + 32) as u8 as char
    } else {
        c
    }
}

pub fn to_lower(c: char) -> (r: char)
    ensures
        r == lower(c),
{
    if 'A' <= c && c <= 'Z' {
        ((c as u32) + 32) as u8 as char
    } else {
        c
    }
}

/// Equality up to ASCII case.
pub open spec fn same_ignoring_case(a: Seq<char>, b: Seq<char>) -> bool {
    a.len() == b.len() && forall|i: int| 0 <= i < a.len() ==> lower(#[trigger] a[i]) == lower(b[i])
}

pub fn eq_ignore_case(a: &str, b: &str) -> (r: bool)
    ensures
        r == same_ignoring_case(a@, b@),
{
    let left = chars_of(a);
    let right = chars_of(b);
    if left.len() != right.len() {
        return false;
    }
    let mut index: usize = 0;
    while index < left.len()
        invariant
            left@ == a@,
            right@ == b@,
            left@.len() == right@.len(),
            index <= left@.len(),
            forall|i: int| 0 <= i < index ==> lower(#[trigger] a@[i]) == lower(b@[i]),
        decreases left@.len() - index,
    {
        if to_lower(left[index]) != to_lower(right[index]) {
            return false;
        }
        index += 1;
    }
    true
}

/// A decimal digit.
pub open spec fn digit(n: int) -> char {
    (48 + n) as u8 as char
}

/// A number in decimal.
pub open spec fn decimal(n: nat) -> Seq<char>
    decreases n,
{
    if n < 10 {
        seq![digit(n as int)]
    } else {
        decimal(n / 10).push(digit((n % 10) as int))
    }
}

/// `s` with zeros in front, up to `width` characters.
pub open spec fn zero_filled(s: Seq<char>, width: int) -> Seq<char> {
    if s.len() < width {
        Seq::new((width - s.len()) as nat, |i: int| '0') + s
    } else {
        s
    }
}

/// A number in decimal with at least `width` digits.
pub open spec fn padded(n: nat, width: int) -> Seq<char> {
    zero_filled(decimal(n), width)
}

pub fn decimal_text(n: u64) -> (r: String)
    ensures
        r@ == decimal(n as nat),
    decreases n,
{
    if n < 10 {
        let mut out = String::new();
        out.push((48 + n as u8) as char);
        assert(out@ =~= decimal(n as nat));
        out
    } else {
        let mut out = decimal_text(n / 10);
        out.push((48 + (n % 10) as u8) as char);
        out
    }
}

pub fn padded_text(n: u64, width: usize) -> (r: String)
    ensures
        r@ == padded(n as nat, width as int),
{
    let digits = decimal_text(n);
    let count = chars_of(digits.as_str()).len();
    let mut out = String::new();
    let mut filled: usize = count;
    assert(out@ =~= Seq::new(0, |i: int| '0'));
    while filled < width
        invariant
            count == digits@.len(),
            count <= filled,
            filled <= width || filled == count,
            out@ == Seq::new((filled - count) as nat, |i: int| '0'),
        decreases width - filled,
    {
        out.push('0');
        assert(out@ =~= Seq::new((filled + 1 - count) as nat, |i: int| '0'));
        filled += 1;
    }
    out.append(digits.as_str());
    assert(out@ =~= padded(n as nat, width as int));
    out
}

/// Whether two texts are the same.
pub fn same_text(a: &str, b: &str) -> (r: bool)
    ensures
        r == (a@ == b@),
{
    a.to_owned() == b.to_owned()
}

/// A text in ASCII lower case.
pub open spec fn lowered(s: Seq<char>) -> Seq<char> {
    Seq::new(s.len(), |i: int| lower(s[i]))
}

pub fn ascii_lowercase(s: &str) -> (r: String)
    ensures
        r@ == lowered(s@),
{
    let chars = chars_of(s);
    let mut out = String::new();
    let mut index: usize = 0;
    assert(out@ =~= lowered(s@).take(0));
    while index < chars.len()
        invariant
            chars@ == s@,
            index <= chars@.len(),
            out@ == lowered(s@).take(index as int),
        decreases chars@.len() - index,
    {
        out.push(to_lower(chars[index]));
        assert(out@ =~= lowered(s@).take(index + 1));
        index += 1;
    }
    assert(lowered(s@).take(index as int) =~= lowered(s@));
    out
}

/// Whether every character is ASCII.
pub open spec fn ascii(s: Seq<char>) -> bool {
    forall|i: int| 0 <= i < s.len() ==> (#[trigger] s[i] as u32) < 128
}

/// A text in lower case according to Unicode.
pub uninterp spec fn unicode_lowered(s: Seq<char>) -> Seq<char>;

/// `str::to_lowercase`: on ASCII text the ASCII letters change, and nothing else does.
#[verifier::external_body]
pub(crate) fn lowercase(s: &str) -> (r: String)
    ensures
        r@ == unicode_lowered(s@),
        ascii(s@) ==> r@ == lowered(s@),
{
    s.to_lowercase()
}

/// A text in lower case: the letters of ASCII text change one by one, other text as Unicode has it.
pub open spec fn lower_case(s: Seq<char>) -> Seq<char> {
    if ascii(s) {
        lowered(s)
    } else {
        unicode_lowered(s)
    }
}

/// A character in upper case according to Unicode.
pub uninterp spec fn unicode_upper_char(c: char) -> Seq<char>;

/// `char::to_uppercase`: an ASCII letter gives its upper case letter, another ASCII character
/// itself.
#[verifier::external_body]
fn upper_char(c: char) -> (r: String)
    ensures
        r@ == unicode_upper_char(c),
        (c as u32) < 128 ==> r@ == seq![upper(c)],
{
    c.to_uppercase().to_string()
}

/// A character in ASCII upper case.
pub open spec fn upper(c: char) -> char {
    if 'a' <= c <= 'z' {
        ((c as u32) - 32) as u8 as char
    } else {
        c
    }
}

/// A character in lower case according to Unicode.
pub uninterp spec fn unicode_lower_char(c: char) -> Seq<char>;

/// `char::to_lowercase`: an ASCII letter gives its lower case letter, another ASCII character
/// itself.
#[verifier::external_body]
fn lower_char(c: char) -> (r: String)
    ensures
        r@ == unicode_lower_char(c),
        (c as u32) < 128 ==> r@ == seq![lower(c)],
{
    c.to_lowercase().to_string()
}

/// A character in upper case.
pub open spec fn upper_case_char(c: char) -> Seq<char> {
    if (c as u32) < 128 {
        seq![upper(c)]
    } else {
        unicode_upper_char(c)
    }
}

/// A character in lower case.
pub open spec fn lower_case_char(c: char) -> Seq<char> {
    if (c as u32) < 128 {
        seq![lower(c)]
    } else {
        unicode_lower_char(c)
    }
}

/// A text with its first character in upper case.
pub open spec fn capitalized(s: Seq<char>) -> Seq<char> {
    if s.len() == 0 {
        s
    } else {
        upper_case_char(s[0]) + s.drop_first()
    }
}

pub fn upper_first(s: &str) -> (r: String)
    ensures
        r@ == capitalized(s@),
{
    let chars = chars_of(s);
    if chars.len() == 0 {
        return s.to_owned();
    }
    let mut out = upper_char(chars[0]);
    let ghost head = out@;
    let mut index: usize = 1;
    assert(s@.subrange(1, 1) =~= Seq::<char>::empty());
    assert(out@ =~= head + s@.subrange(1, 1));
    while index < chars.len()
        invariant
            chars@ == s@,
            1 <= index <= chars@.len(),
            out@ == head + s@.subrange(1, index as int),
        decreases chars@.len() - index,
    {
        out.push(chars[index]);
        assert(out@ =~= head + s@.subrange(1, index + 1));
        index += 1;
    }
    assert(s@.subrange(1, index as int) =~= s@.drop_first());
    out
}

/// The first character in upper case, the others in lower case.
pub open spec fn titlecase(s: Seq<char>) -> Seq<char>
    decreases s.len(),
{
    if s.len() == 0 {
        Seq::empty()
    } else if s.len() == 1 {
        upper_case_char(s[0])
    } else {
        titlecase(s.drop_last()) + lower_case_char(s.last())
    }
}

pub fn titlecase_text(chars: &Vec<char>) -> (r: String)
    ensures
        r@ == titlecase(chars@),
{
    if chars.len() == 0 {
        return String::new();
    }
    let mut out = upper_char(chars[0]);
    let mut index: usize = 1;
    assert(chars@.take(1) =~= seq![chars@[0]]);
    while index < chars.len()
        invariant
            1 <= index <= chars@.len(),
            out@ == titlecase(chars@.take(index as int)),
        decreases chars@.len() - index,
    {
        assert(chars@.take(index + 1).drop_last() =~= chars@.take(index as int));
        out.append(lower_char(chars[index]).as_str());
        index += 1;
    }
    assert(chars@.take(index as int) =~= chars@);
    out
}

/// Whether a character is an ASCII letter or digit.
pub open spec fn alphanumeric(c: char) -> bool {
    'a' <= c <= 'z' || 'A' <= c <= 'Z' || '0' <= c <= '9'
}

pub fn is_alphanumeric(c: char) -> (r: bool)
    ensures
        r == alphanumeric(c),
{
    ('a' <= c && c <= 'z') || ('A' <= c && c <= 'Z') || ('0' <= c && c <= '9')
}

/// Whether a character is an ASCII digit.
pub open spec fn numeric(c: char) -> bool {
    '0' <= c <= '9'
}

pub fn is_numeric(c: char) -> (r: bool)
    ensures
        r == numeric(c),
{
    '0' <= c && c <= '9'
}

/// The pieces of a text between the separators.
pub open spec fn pieces(s: Seq<char>, separator: spec_fn(char) -> bool) -> Seq<Seq<char>>
    decreases s.len(),
{
    if s.len() == 0 {
        seq![Seq::empty()]
    } else {
        let before = pieces(s.drop_last(), separator);
        if separator(s.last()) {
            before.push(Seq::empty())
        } else {
            before.drop_last().push(before.last().push(s.last()))
        }
    }
}

pub proof fn lemma_pieces_nonempty(s: Seq<char>, separator: spec_fn(char) -> bool)
    ensures
        pieces(s, separator).len() > 0,
    decreases s.len(),
{
    if s.len() > 0 {
        lemma_pieces_nonempty(s.drop_last(), separator);
    }
}

/// The pieces of a text between the occurrences of a character.
pub open spec fn split(s: Seq<char>, separator: char) -> Seq<Seq<char>> {
    pieces(s, only(separator))
}

/// The condition of being the given character.
pub open spec fn only(wanted: char) -> spec_fn(char) -> bool {
    |c: char| c == wanted
}

/// The words of a text, which white space separates.
pub open spec fn words(s: Seq<char>) -> Seq<Seq<char>> {
    nonempty_pieces(s, blank())
}

pub fn split_text(s: &str, separator: char) -> (r: Vec<String>)
    ensures
        r.deep_view() == split(s@, separator),
{
    let ghost sep = only(separator);
    let chars = chars_of(s);
    let mut parts: Vec<String> = Vec::new();
    let mut current = String::new();
    let mut index: usize = 0;
    proof {
        assert(s@.take(0) =~= Seq::empty());
        assert(parts.deep_view().push(current@) =~= pieces(s@.take(0), sep));
    }
    while index < chars.len()
        invariant
            chars@ == s@,
            sep == only(separator),
            index <= chars@.len(),
            parts.deep_view().push(current@) == pieces(s@.take(index as int), sep),
        decreases chars@.len() - index,
    {
        let ghost done = parts.deep_view();
        let ghost piece = current@;
        proof {
            assert(s@.take(index + 1).drop_last() =~= s@.take(index as int));
            assert(s@.take(index + 1).last() == chars@[index as int]);
            assert(done.push(piece).drop_last() =~= done);
        }
        if chars[index] == separator {
            parts.push(current);
            current = String::new();
            assert(parts.deep_view() =~= done.push(piece));
            assert(parts.deep_view().push(current@) =~= pieces(s@.take(index + 1), sep));
        } else {
            current.push(chars[index]);
            assert(parts.deep_view().push(current@) =~= pieces(s@.take(index + 1), sep));
        }
        index += 1;
    }
    assert(s@.take(index as int) =~= s@);
    let ghost done = parts.deep_view();
    let ghost piece = current@;
    parts.push(current);
    assert(parts.deep_view() =~= done.push(piece));
    assert(parts.deep_view() == pieces(s@, sep));
    parts
}

/// The condition of being white space.
pub open spec fn blank() -> spec_fn(char) -> bool {
    |c: char| whitespace(c)
}

pub fn split_words(s: &str) -> (r: Vec<String>)
    ensures
        r.deep_view() == words(s@),
{
    split_nonempty(s, is_whitespace, Ghost(blank()))
}

/// The pieces of a text between separators, without the empty ones.
pub open spec fn nonempty_pieces(s: Seq<char>, separator: spec_fn(char) -> bool) -> Seq<Seq<char>> {
    pieces(s, separator).filter(|piece: Seq<char>| piece.len() > 0)
}

/// Splits a text where `separates` says so, leaving the empty pieces out.
pub fn split_nonempty<F: Fn(char) -> bool>(
    s: &str,
    separates: F,
    Ghost(sep): Ghost<spec_fn(char) -> bool>,
) -> (r: Vec<String>)
    requires
        forall|c: char| #[trigger] call_requires(separates, (c,)),
        forall|c: char, b: bool| #[trigger] call_ensures(separates, (c,), b) ==> b == sep(c),
    ensures
        r.deep_view() == nonempty_pieces(s@, sep),
{
    let ghost nonempty = |piece: Seq<char>| piece.len() > 0;
    let chars = chars_of(s);
    let mut parts: Vec<String> = Vec::new();
    let mut current = String::new();
    let mut index: usize = 0;
    proof {
        reveal(Seq::filter);
        assert(s@.take(0) =~= Seq::empty());
        assert(pieces(s@.take(0), sep).drop_last() =~= Seq::empty());
        assert(parts.deep_view() =~= pieces(s@.take(0), sep).drop_last().filter(nonempty));
        assert(current@ =~= pieces(s@.take(0), sep).last());
    }
    while index < chars.len()
        invariant
            forall|c: char| #[trigger] call_requires(separates, (c,)),
            forall|c: char, b: bool| #[trigger] call_ensures(separates, (c,), b) ==> b == sep(c),
            chars@ == s@,
            nonempty == (|piece: Seq<char>| piece.len() > 0),
            index <= chars@.len(),
            parts.deep_view() == pieces(s@.take(index as int), sep).drop_last().filter(nonempty),
            current@ == pieces(s@.take(index as int), sep).last(),
        decreases chars@.len() - index,
    {
        let ghost done = parts.deep_view();
        let ghost piece = current@;
        let ghost before = pieces(s@.take(index as int), sep);
        let ghost after = pieces(s@.take(index + 1), sep);
        proof {
            lemma_pieces_nonempty(s@.take(index as int), sep);
            assert(s@.take(index + 1).drop_last() =~= s@.take(index as int));
            assert(s@.take(index + 1).last() == chars@[index as int]);
        }
        if separates(chars[index]) {
            proof {
                reveal(Seq::filter);
                assert(after.drop_last() =~= before);
                assert(after.last() =~= Seq::empty());
            }
            if !current.as_str().is_empty() {
                parts.push(current);
                assert(parts.deep_view() =~= done.push(piece));
            }
            current = String::new();
        } else {
            current.push(chars[index]);
            assert(after.drop_last() =~= before.drop_last());
        }
        index += 1;
    }
    proof {
        reveal(Seq::filter);
        lemma_pieces_nonempty(s@, sep);
        assert(s@.take(index as int) =~= s@);
    }
    let ghost done = parts.deep_view();
    if !current.as_str().is_empty() {
        parts.push(current);
        assert(parts.deep_view() =~= done.push(current@));
    }
    parts
}

/// The position of the first occurrence of a character, the length if there is none.
pub open spec fn find(s: Seq<char>, c: char) -> int
    decreases s.len(),
{
    if s.len() == 0 || s[0] == c {
        0
    } else {
        1 + find(s.drop_first(), c)
    }
}

pub proof fn lemma_find(s: Seq<char>, c: char)
    ensures
        0 <= find(s, c) <= s.len(),
        find(s, c) < s.len() ==> s[find(s, c)] == c,
        forall|i: int| 0 <= i < find(s, c) ==> #[trigger] s[i] != c,
    decreases s.len(),
{
    if s.len() > 0 && s[0] != c {
        let t = s.drop_first();
        lemma_find(t, c);
        assert forall|i: int| 0 <= i < find(s, c) implies #[trigger] s[i] != c by {
            if i > 0 {
                assert(s[i] == t[i - 1]);
            }
        }
    }
}

/// The parts before and after the first occurrence of a character.
pub open spec fn split_first(s: Seq<char>, c: char) -> Option<(Seq<char>, Seq<char>)> {
    if find(s, c) < s.len() {
        Some((s.take(find(s, c)), s.skip(find(s, c) + 1)))
    } else {
        None
    }
}

pub fn split_once_text(s: &str, c: char) -> (r: Option<(String, String)>)
    ensures
        r.deep_view() == split_first(s@, c),
{
    let chars = chars_of(s);
    let mut head = String::new();
    let mut index: usize = 0;
    assert(s@.skip(0) =~= s@);
    assert(s@.take(0) =~= Seq::<char>::empty());
    while index < chars.len() && chars[index] != c
        invariant
            chars@ == s@,
            index <= chars@.len(),
            head@ == s@.take(index as int),
            find(s@, c) == index + find(s@.skip(index as int), c),
        decreases chars@.len() - index,
    {
        head.push(chars[index]);
        assert(s@.take(index + 1) =~= s@.take(index as int).push(s@[index as int]));
        assert(s@.skip(index as int).drop_first() =~= s@.skip(index + 1));
        index += 1;
    }
    if index == chars.len() {
        return None;
    }
    let mut tail = String::new();
    let mut next: usize = index + 1;
    assert(s@.subrange(index + 1, index + 1) =~= Seq::<char>::empty());
    while next < chars.len()
        invariant
            chars@ == s@,
            index + 1 <= next <= chars@.len(),
            tail@ == s@.subrange(index + 1, next as int),
        decreases chars@.len() - next,
    {
        tail.push(chars[next]);
        assert(s@.subrange(index + 1, next + 1) =~= s@.subrange(index + 1, next as int).push(
            s@[next as int],
        ));
        next += 1;
    }
    assert(tail@ =~= s@.skip(index + 1));
    Some((head, tail))
}

/// Whether a text starts with another.
pub open spec fn begins_with(s: Seq<char>, prefix: Seq<char>) -> bool {
    prefix.len() <= s.len() && s.take(prefix.len() as int) == prefix
}

pub fn starts_with(s: &str, prefix: &str) -> (r: bool)
    ensures
        r == begins_with(s@, prefix@),
{
    let whole = chars_of(s);
    let part = chars_of(prefix);
    if part.len() > whole.len() {
        return false;
    }
    let mut index: usize = 0;
    while index < part.len()
        invariant
            whole@ == s@,
            part@ == prefix@,
            part@.len() <= whole@.len(),
            index <= part@.len(),
            forall|i: int| 0 <= i < index ==> #[trigger] s@[i] == prefix@[i],
        decreases part@.len() - index,
    {
        if whole[index] != part[index] {
            assert(s@.take(prefix@.len() as int)[index as int] != prefix@[index as int]);
            return false;
        }
        index += 1;
    }
    assert(s@.take(prefix@.len() as int) =~= prefix@);
    true
}

/// Whether a text holds a character of the given kind.
pub open spec fn any_char(s: Seq<char>, pred: spec_fn(char) -> bool) -> bool {
    exists|i: int| 0 <= i < s.len() && pred(#[trigger] s[i])
}

pub fn has_whitespace(s: &str) -> (r: bool)
    ensures
        r == any_char(s@, |c: char| whitespace(c)),
{
    let ghost pred = |c: char| whitespace(c);
    let chars = chars_of(s);
    let mut index: usize = 0;
    while index < chars.len()
        invariant
            chars@ == s@,
            pred == (|c: char| whitespace(c)),
            index <= chars@.len(),
            forall|i: int| 0 <= i < index ==> !pred(#[trigger] s@[i]),
        decreases chars@.len() - index,
    {
        if is_whitespace(chars[index]) {
            assert(pred(s@[index as int]));
            return true;
        }
        index += 1;
    }
    false
}

/// Whether all characters are digits.
pub open spec fn all_numeric(s: Seq<char>) -> bool {
    forall|i: int| 0 <= i < s.len() ==> numeric(#[trigger] s[i])
}

pub fn is_all_numeric(chars: &Vec<char>) -> (r: bool)
    ensures
        r == all_numeric(chars@),
{
    let mut index: usize = 0;
    while index < chars.len()
        invariant
            index <= chars@.len(),
            forall|i: int| 0 <= i < index ==> numeric(#[trigger] chars@[i]),
        decreases chars@.len() - index,
    {
        if !is_numeric(chars[index]) {
            return false;
        }
        index += 1;
    }
    true
}

/// The value of a decimal digit.
pub open spec fn digit_value(c: char) -> int {
    c as u32 - 48
}

/// The number that digits stand for.
pub open spec fn digits_value(s: Seq<char>) -> int
    decreases s.len(),
{
    if s.len() == 0 {
        0
    } else {
        10 * digits_value(s.drop_last()) + digit_value(s.last())
    }
}

/// Texts with a separator between them.
pub open spec fn joined(texts: Seq<Seq<char>>, separator: Seq<char>) -> Seq<char>
    decreases texts.len(),
{
    if texts.len() == 0 {
        Seq::empty()
    } else if texts.len() == 1 {
        texts[0]
    } else {
        joined(texts.drop_last(), separator) + separator + texts.last()
    }
}

pub fn join(texts: &Vec<String>, separator: &str) -> (r: String)
    ensures
        r@ == joined(texts.deep_view(), separator@),
{
    let ghost all = texts.deep_view();
    let mut out = String::new();
    let mut index: usize = 0;
    assert(out@ =~= joined(all.take(0), separator@));
    while index < texts.len()
        invariant
            index <= texts@.len(),
            all == texts.deep_view(),
            out@ == joined(all.take(index as int), separator@),
        decreases texts@.len() - index,
    {
        assert(all.take(index + 1).drop_last() =~= all.take(index as int));
        assert(all.take(index + 1).last() == texts@[index as int]@);
        if index == 0 {
            out = texts[0].clone();
        } else {
            out.append(separator);
            out.append(texts[index].as_str());
        }
        index += 1;
    }
    assert(all.take(index as int) =~= all);
    out
}

/// Whether a text holds another at a position.
pub open spec fn holds_at(s: Seq<char>, part: Seq<char>, at: int) -> bool {
    0 <= at && at + part.len() <= s.len() && s.subrange(at, at + part.len()) == part
}

/// Whether a text holds another.
pub open spec fn holds(s: Seq<char>, part: Seq<char>) -> bool {
    exists|at: int| #[trigger] holds_at(s, part, at)
}

pub fn contains_part(s: &str, part: &str) -> (r: bool)
    ensures
        r == holds(s@, part@),
{
    let whole = chars_of(s);
    let wanted = chars_of(part);
    if wanted.len() > whole.len() {
        return false;
    }
    let mut at: usize = 0;
    while at <= whole.len() - wanted.len()
        invariant
            whole@ == s@,
            wanted@ == part@,
            wanted@.len() <= whole@.len(),
            at <= whole@.len() - wanted@.len() + 1,
            forall|i: int| 0 <= i < at ==> !#[trigger] holds_at(s@, part@, i),
        decreases whole@.len() - wanted@.len() + 1 - at,
    {
        let mut same: usize = 0;
        assert(whole@.len() == whole.len());
        while same < wanted.len() && whole[at + same] == wanted[same]
            invariant
                whole@ == s@,
                wanted@ == part@,
                at + wanted@.len() <= whole@.len() <= usize::MAX,
                same <= wanted@.len(),
                forall|i: int| at <= i < at + same ==> #[trigger] s@[i] == part@[i - at],
            decreases wanted@.len() - same,
        {
            same += 1;
        }
        if same == wanted.len() {
            assert(s@.subrange(at as int, at + part@.len()) =~= part@);
            assert(holds_at(s@, part@, at as int));
            return true;
        }
        assert(!holds_at(s@, part@, at as int)) by {
            assert(s@.subrange(at as int, at + part@.len())[same as int] != part@[same as int]);
        }
        at += 1;
        if at > whole.len() - wanted.len() {
            assert forall|i: int| !#[trigger] holds_at(s@, part@, i) by {}
            return false;
        }
    }
    false
}

/// A text without its last character.
pub open spec fn shortened(s: Seq<char>) -> Seq<char> {
    if s.len() == 0 {
        s
    } else {
        s.drop_last()
    }
}

pub fn without_last(s: &str) -> (r: String)
    ensures
        r@ == shortened(s@),
{
    let mut chars = chars_of(s);
    chars.pop();
    assert(chars@ =~= shortened(s@));
    text_of(&chars)
}

} // verus!
