//! Text as sequences of characters: splitting, trimming, searching, joining and number rendering.

use vstd::prelude::*;

verus! {

/// `String::push` of the standard library: the character is added behind the text.
pub assume_specification[ String::push ](text: &mut String, c: char)
    ensures
        final(text)@ == old(text)@.push(c),
;

/// The characters of a string, in order.
pub fn chars_of(text: &str) -> (chars: Vec<char>)
    ensures
        chars@ == text@,
{
    let mut chars: Vec<char> = Vec::new();
    for c in it: text.chars()
        invariant
            it.seq() == text@,
            chars@ == it.seq().take(it.index()),
    {
        chars.push(c);
    }
    assert(text@.take(text@.len() as int) == text@);
    chars
}

/// The text that the characters `from..to` make up.
pub fn text_of(chars: &Vec<char>, from: usize, to: usize) -> (text: String)
    requires
        from <= to <= chars.len(),
    ensures
        text@ == chars@.subrange(from as int, to as int),
{
    let mut text = String::new();
    let mut i: usize = from;
    while i < to
        invariant
            from <= i <= to <= chars.len(),
            text@ == chars@.subrange(from as int, i as int),
        decreases to - i,
    {
        text.push(chars[i]);
        i = i + 1;
        assert(chars@.subrange(from as int, i as int) == chars@.subrange(
            from as int,
            i - 1,
        ).push(chars@[i - 1]));
    }
    text
}

/// Whether a character has the Unicode property White_Space.
pub open spec fn white(c: char) -> bool {
    ||| '\u{9}' <= c <= '\u{d}'
    ||| c == ' '
    ||| c == '\u{85}'
    ||| c == '\u{a0}'
    ||| c == '\u{1680}'
    ||| '\u{2000}' <= c <= '\u{200a}'
    ||| c == '\u{2028}'
    ||| c == '\u{2029}'
    ||| c == '\u{202f}'
    ||| c == '\u{205f}'
    ||| c == '\u{3000}'
}

/// Decides the Unicode property White_Space.
pub fn is_white(c: char) -> (yes: bool)
    ensures
        yes == white(c),
{
    ('\u{9}' <= c && c <= '\u{d}') || c == ' ' || c == '\u{85}' || c == '\u{a0}' || c == '\u{1680}'
        || ('\u{2000}' <= c && c <= '\u{200a}') || c == '\u{2028}' || c == '\u{2029}' || c
        == '\u{202f}' || c == '\u{205f}' || c == '\u{3000}'
}

/// `s` without the white space that it starts with.
pub open spec fn trimmed_start(s: Seq<char>) -> Seq<char>
    decreases s.len(),
{
    if s.len() > 0 && white(s.first()) {
        trimmed_start(s.drop_first())
    } else {
        s
    }
}

/// `s` without the white space that it ends with.
pub open spec fn trimmed_end(s: Seq<char>) -> Seq<char>
    decreases s.len(),
{
    if s.len() > 0 && white(s.last()) {
        trimmed_end(s.drop_last())
    } else {
        s
    }
}

/// `s` without the white space at both of its ends.
pub open spec fn trimmed(s: Seq<char>) -> Seq<char> {
    trimmed_end(trimmed_start(s))
}

/// Removes white space from both ends.
pub fn trim(text: &str) -> (out: String)
    ensures
        out@ == trimmed(text@),
{
    let chars = chars_of(text);
    let mut from: usize = 0;
    assert(chars@.skip(0) == chars@);
    while from < chars.len() && is_white(chars[from])
        invariant
            from <= chars.len(),
            trimmed_start(chars@) == trimmed_start(chars@.skip(from as int)),
        decreases chars.len() - from,
    {
        from = from + 1;
        assert(chars@.skip(from - 1).drop_first() == chars@.skip(from as int));
    }
    let ghost kept = chars@.skip(from as int);
    assert(trimmed_start(chars@) == kept);
    let mut to: usize = chars.len();
    assert(chars@.subrange(from as int, to as int) == kept);
    while to > from && is_white(chars[to - 1])
        invariant
            from <= to <= chars.len(),
            trimmed_end(kept) == trimmed_end(chars@.subrange(from as int, to as int)),
        decreases to - from,
    {
        to = to - 1;
        assert(chars@.subrange(from as int, to + 1).drop_last() == chars@.subrange(
            from as int,
            to as int,
        ));
    }
    text_of(&chars, from, to)
}

/// White space at the start of a text is all that is taken from it there.
pub proof fn lemma_trimmed_start(s: Seq<char>)
    ensures
        trimmed_start(s).len() > 0 ==> !white(trimmed_start(s).first()),
        trimmed_start(s).len() > 0 ==> trimmed_start(s).last() == s.last(),
        trimmed_start(s).len() <= s.len(),
    decreases s.len(),
{
    if s.len() > 0 && white(s.first()) {
        lemma_trimmed_start(s.drop_first());
    }
}

/// White space at the end of a text is all that is taken from it there.
pub proof fn lemma_trimmed_end(s: Seq<char>)
    ensures
        trimmed_end(s).len() > 0 ==> !white(trimmed_end(s).last()),
        trimmed_end(s).len() > 0 ==> trimmed_end(s).first() == s.first(),
        trimmed_end(s).len() <= s.len(),
    decreases s.len(),
{
    if s.len() > 0 && white(s.last()) {
        lemma_trimmed_end(s.drop_last());
    }
}

/// A trimmed text has no white space at its ends, and stays as it is when it is trimmed again.
pub proof fn law_trimming_is_done_once(s: Seq<char>)
    ensures
        trimmed(s).len() > 0 ==> !white(trimmed(s).first()) && !white(trimmed(s).last()),
        trimmed(trimmed(s)) == trimmed(s),
{
    lemma_trimmed_start(s);
    lemma_trimmed_end(trimmed_start(s));
}

/// White space behind a text does not matter to what is left of it.
pub proof fn lemma_trimmed_push(s: Seq<char>, c: char)
    requires
        white(c),
    ensures
        trimmed(s.push(c)) == trimmed(s),
    decreases s.len(),
{
    if s.len() > 0 && white(s.first()) {
        assert(s.push(c).drop_first() == s.drop_first().push(c));
        lemma_trimmed_push(s.drop_first(), c);
    } else if s.len() == 0 {
        assert(s.push(c).drop_first() == s);
    } else {
        assert(s.push(c).drop_last() == s);
    }
}

/// Whether nothing but white space is in the text.
pub fn is_blank(text: &str) -> (yes: bool)
    ensures
        yes == (trimmed(text@).len() == 0),
{
    trim(text).as_str().is_empty()
}

/// Whether `part` occurs in `s` from position `at` on.
pub open spec fn occurs_at(s: Seq<char>, part: Seq<char>, at: int) -> bool {
    0 <= at && at + part.len() <= s.len() && s.subrange(at, at + part.len()) == part
}

/// Whether `part` occurs somewhere in `s`.
pub open spec fn occurs(s: Seq<char>, part: Seq<char>) -> bool {
    exists|at: int| occurs_at(s, part, at)
}

/// Whether `part` stands at position `at` of the characters.
fn matches_at(chars: &Vec<char>, part: &Vec<char>, at: usize) -> (yes: bool)
    requires
        at <= chars.len(),
    ensures
        yes == occurs_at(chars@, part@, at as int),
{
    if part.len() > chars.len() - at {
        return false;
    }
    let mut i: usize = 0;
    while i < part.len()
        invariant
            i <= part.len(),
            at + part.len() <= chars.len(),
            forall|k: int| 0 <= k < i ==> chars@[at + k] == part@[k],
        decreases part.len() - i,
    {
        if chars[at + i] != part[i] {
            assert(chars@.subrange(at as int, at + part.len())[i as int] != part@[i as int]);
            return false;
        }
        i = i + 1;
    }
    assert(chars@.subrange(at as int, at + part.len()) =~= part@);
    true
}

/// Whether the text starts with `part`.
pub fn starts_with(text: &str, part: &str) -> (yes: bool)
    ensures
        yes == part@.is_prefix_of(text@),
{
    let yes = matches_at(&chars_of(text), &chars_of(part), 0);
    assert(yes == occurs_at(text@, part@, 0));
    yes
}

/// Whether `part` occurs in the text.
pub fn contains(text: &str, part: &str) -> (yes: bool)
    ensures
        yes == occurs(text@, part@),
{
    let chars = chars_of(text);
    let wanted = chars_of(part);
    if wanted.len() > chars.len() {
        return false;
    }
    let last: usize = chars.len() - wanted.len();
    let mut at: usize = 0;
    loop
        invariant
            at <= last,
            last + wanted.len() == chars.len(),
            chars@ == text@,
            wanted@ == part@,
            forall|k: int| 0 <= k < at ==> !occurs_at(text@, part@, k),
        decreases last - at,
    {
        if matches_at(&chars, &wanted, at) {
            return true;
        }
        if at == last {
            return false;
        }
        at = at + 1;
    }
}

/// The position of the first `c` in `s`, or the length of `s` where there is none.
pub open spec fn position(s: Seq<char>, c: char) -> int
    decreases s.len(),
{
    if s.len() == 0 {
        0
    } else if s.first() == c {
        0
    } else {
        1 + position(s.drop_first(), c)
    }
}

/// The position of the first `c` is the first of all positions that hold `c`.
pub proof fn lemma_position(s: Seq<char>, c: char)
    ensures
        0 <= position(s, c) <= s.len(),
        position(s, c) < s.len() ==> s[position(s, c)] == c,
        forall|k: int| 0 <= k < position(s, c) ==> s[k] != c,
    decreases s.len(),
{
    if s.len() > 0 && s.first() != c {
        let rest = s.drop_first();
        lemma_position(rest, c);
        assert forall|k: int| 0 <= k < position(s, c) implies s[k] != c by {
            if k > 0 {
                assert(rest[k - 1] == s[k]);
            }
        }
    }
}

/// The first position is the only one with a `c` and none before it.
pub proof fn lemma_position_is(s: Seq<char>, c: char, at: int)
    requires
        0 <= at <= s.len(),
        at < s.len() ==> s[at] == c,
        forall|k: int| 0 <= k < at ==> s[k] != c,
    ensures
        position(s, c) == at,
{
    lemma_position(s, c);
}

/// A line without the carriage return that belongs to its line ending.
pub open spec fn without_return(line: Seq<char>) -> Seq<char> {
    if line.len() > 0 && line.last() == '\r' {
        line.drop_last()
    } else {
        line
    }
}

/// The lines of a text. A line ends with a line feed, or with a carriage return and a line feed;
/// the ending of the last line is optional.
pub open spec fn lines(s: Seq<char>) -> Seq<Seq<char>>
    decreases s.len(),
    via lines_decreases
{
    if s.len() == 0 {
        Seq::empty()
    } else if position(s, '\n') >= s.len() {
        seq![s]
    } else {
        seq![without_return(s.take(position(s, '\n')))] + lines(s.skip(position(s, '\n') + 1))
    }
}

#[via_fn]
proof fn lines_decreases(s: Seq<char>) {
    lemma_position(s, '\n');
}

/// The texts that a list of strings holds.
pub open spec fn texts(list: Seq<String>) -> Seq<Seq<char>> {
    list.map_values(|s: String| s@)
}

/// The lines of a text.
pub fn split_lines(text: &str) -> (list: Vec<String>)
    ensures
        texts(list@) == lines(text@),
{
    let chars = chars_of(text);
    let mut list: Vec<String> = Vec::new();
    let mut from: usize = 0;
    assert(chars@.skip(0) == chars@);
    assert(texts(list@) + lines(text@) == lines(text@));
    while from < chars.len()
        invariant
            from <= chars.len(),
            chars@ == text@,
            texts(list@) + lines(text@.skip(from as int)) == lines(text@),
        decreases chars.len() - from,
    {
        let ghost rest = text@.skip(from as int);
        let ghost before = texts(list@);
        let mut to: usize = from;
        while to < chars.len() && chars[to] != '\n'
            invariant
                from <= to <= chars.len(),
                forall|k: int| from <= k < to ==> chars@[k] != '\n',
            decreases chars.len() - to,
        {
            to = to + 1;
        }
        proof {
            assert forall|k: int| 0 <= k < to - from implies rest[k] != '\n' by {
                assert(rest[k] == chars@[from + k]);
            }
            lemma_position_is(rest, '\n', to - from);
            assert(rest.take(to - from) == chars@.subrange(from as int, to as int));
        }
        if to == chars.len() {
            list.push(text_of(&chars, from, to));
            assert(texts(list@) == before.push(rest));
            assert(text@.skip(to as int).len() == 0);
            assert(texts(list@) + lines(text@.skip(to as int)) == before + lines(rest));
            from = to;
        } else {
            let end: usize = if to > from && chars[to - 1] == '\r' {
                to - 1
            } else {
                to
            };
            list.push(text_of(&chars, from, end));
            assert(chars@.subrange(from as int, end as int) == without_return(
                rest.take(to - from),
            ));
            assert(texts(list@) == before.push(without_return(rest.take(to - from))));
            assert(rest.skip(to - from + 1) == text@.skip(to + 1));
            assert(texts(list@) + lines(text@.skip(to + 1)) == before + lines(rest));
            from = to + 1;
        }
    }
    assert(text@.skip(from as int).len() == 0);
    assert(texts(list@) + lines(text@.skip(from as int)) == texts(list@));
    list
}

/// The parts one behind the other, with `sep` between each two of them.
pub open spec fn joined(parts: Seq<Seq<char>>, sep: Seq<char>) -> Seq<char>
    decreases parts.len(),
{
    if parts.len() == 0 {
        Seq::empty()
    } else if parts.len() == 1 {
        parts[0]
    } else {
        joined(parts.drop_last(), sep) + sep + parts.last()
    }
}

/// Puts the parts `0..count` one behind the other, with `sep` between each two of them.
pub fn join(parts: &Vec<String>, count: usize, sep: &str) -> (out: String)
    requires
        count <= parts.len(),
    ensures
        out@ == joined(texts(parts@).take(count as int), sep@),
{
    let mut out = String::new();
    let mut i: usize = 0;
    assert(texts(parts@).take(0).len() == 0);
    while i < count
        invariant
            i <= count <= parts.len(),
            out@ == joined(texts(parts@).take(i as int), sep@),
        decreases count - i,
    {
        if i > 0 {
            out.append(sep);
        }
        out.append(parts[i].as_str());
        i = i + 1;
        proof {
            let now = texts(parts@).take(i as int);
            assert(now.drop_last() == texts(parts@).take(i - 1));
            assert(now.last() == parts@[i - 1]@);
        }
    }
    out
}

/// A line that is put behind a text that ends with a line feed becomes its last line.
pub proof fn lemma_line_behind(s: Seq<char>, line: Seq<char>)
    requires
        s.len() > 0,
        s.last() == '\n',
        line.len() > 0,
        !line.contains('\n'),
    ensures
        lines(s + line) == lines(s).push(line),
    decreases s.len(),
{
    let at = position(s, '\n');
    lemma_position(s, '\n');
    assert(at < s.len());
    assert forall|k: int| 0 <= k < at implies (s + line)[k] != '\n' by {
        assert((s + line)[k] == s[k]);
    }
    lemma_position_is(s + line, '\n', at);
    assert((s + line).take(at) == s.take(at));
    let rest = s.skip(at + 1);
    assert((s + line).skip(at + 1) == rest + line);
    if rest.len() == 0 {
        assert(rest + line == line);
        assert forall|k: int| 0 <= k < line.len() implies line[k] != '\n' by {
            assert(line.contains(line[k]));
        }
        lemma_position_is(line, '\n', line.len() as int);
        assert(lines(line) == seq![line]);
        assert(lines(rest) == Seq::<Seq<char>>::empty());
        assert(lines(s + line) == lines(s).push(line));
    } else {
        lemma_line_behind(rest, line);
        assert(lines(s + line) == lines(s).push(line));
    }
}

/// Parts joined with the first of them set apart.
pub proof fn lemma_joined_from_front(first: Seq<char>, rest: Seq<Seq<char>>, sep: Seq<char>)
    requires
        rest.len() > 0,
    ensures
        joined(seq![first] + rest, sep) == first + sep + joined(rest, sep),
    decreases rest.len(),
{
    let all = seq![first] + rest;
    assert(all.last() == rest.last());
    assert(all.drop_last() == seq![first] + rest.drop_last());
    if rest.len() == 1 {
        assert(all.drop_last() == seq![first]);
        assert(joined(seq![first], sep) == first);
        assert(joined(rest, sep) == rest[0]);
    } else {
        lemma_joined_from_front(first, rest.drop_last(), sep);
        assert(first + sep + joined(rest.drop_last(), sep) + sep + rest.last() == first + sep + (
        joined(rest.drop_last(), sep) + sep + rest.last()));
    }
    assert(joined(all, sep) == joined(all.drop_last(), sep) + sep + all.last());
}

/// A text without carriage returns that does not end with a line feed is its lines, joined by line
/// feeds.
pub proof fn law_lines_joined(s: Seq<char>)
    requires
        !s.contains('\r'),
        s.len() > 0 ==> s.last() != '\n',
    ensures
        joined(lines(s), "\n"@) == s,
    decreases s.len(),
{
    reveal_strlit("\n");
    let at = position(s, '\n');
    lemma_position(s, '\n');
    if s.len() > 0 && at < s.len() {
        let first = s.take(at);
        let rest = s.skip(at + 1);
        assert(at + 1 < s.len());
        assert forall|k: int| 0 <= k < at implies first[k] != '\r' by {
            assert(s.contains(s[k]));
        }
        assert forall|k: int| 0 <= k < rest.len() implies rest[k] != '\r' by {
            assert(s.contains(s[at + 1 + k]));
        }
        law_lines_joined(rest);
        assert(without_return(first) == first);
        assert(lines(rest).len() > 0);
        lemma_joined_from_front(first, lines(rest), "\n"@);
        assert(first + "\n"@ + rest == s);
    }
}

/// The decimal digit `d`.
pub open spec fn digit(d: nat) -> char {
    if d == 0 {
        '0'
    } else if d == 1 {
        '1'
    } else if d == 2 {
        '2'
    } else if d == 3 {
        '3'
    } else if d == 4 {
        '4'
    } else if d == 5 {
        '5'
    } else if d == 6 {
        '6'
    } else if d == 7 {
        '7'
    } else if d == 8 {
        '8'
    } else {
        '9'
    }
}

/// A natural number in decimal, without leading zeros.
pub open spec fn decimal(n: nat) -> Seq<char>
    decreases n,
{
    if n < 10 {
        seq![digit(n)]
    } else {
        decimal(n / 10).push(digit(n % 10))
    }
}

/// An integer in decimal, with a minus sign in front of a negative one.
pub open spec fn signed_decimal(n: int) -> Seq<char> {
    if n < 0 {
        seq!['-'] + decimal((-n) as nat)
    } else {
        decimal(n as nat)
    }
}

fn digit_of(d: u64) -> (c: char)
    requires
        d < 10,
    ensures
        c == digit(d as nat),
{
    match d {
        0 => '0',
        1 => '1',
        2 => '2',
        3 => '3',
        4 => '4',
        5 => '5',
        6 => '6',
        7 => '7',
        8 => '8',
        _ => '9',
    }
}

/// Renders a number in decimal.
pub fn render(n: u64) -> (out: String)
    ensures
        out@ == decimal(n as nat),
    decreases n,
{
    if n < 10 {
        let mut out = String::new();
        out.push(digit_of(n));
        assert(out@ == seq![digit(n as nat)]);
        out
    } else {
        let mut out = render(n / 10);
        out.push(digit_of(n % 10));
        out
    }
}

/// Renders a signed number in decimal.
pub fn render_signed(n: i64) -> (out: String)
    ensures
        out@ == signed_decimal(n as int),
{
    if n < 0 {
        let mut out = String::new();
        out.push('-');
        let size: u64 = if n == i64::MIN {
            0x8000_0000_0000_0000
        } else {
            (-n) as u64
        };
        out.append(render(size).as_str());
        assert(out@ == seq!['-'] + decimal((-n) as nat));
        out
    } else {
        render(n as u64)
    }
}

/// `count` times the character `c`.
pub open spec fn repeated(c: char, count: nat) -> Seq<char> {
    Seq::new(count, |i: int| c)
}

/// `s` with `fill` behind it, as far as it takes to be `width` characters long.
pub open spec fn padded_end(s: Seq<char>, width: nat, fill: char) -> Seq<char> {
    if s.len() < width {
        s + repeated(fill, (width - s.len()) as nat)
    } else {
        s
    }
}

/// `s` with `fill` in front of it, as far as it takes to be `width` characters long.
pub open spec fn padded_start(s: Seq<char>, width: nat, fill: char) -> Seq<char> {
    if s.len() < width {
        repeated(fill, (width - s.len()) as nat) + s
    } else {
        s
    }
}

/// Repeats a character.
pub fn repeat(c: char, count: usize) -> (out: String)
    ensures
        out@ == repeated(c, count as nat),
{
    let mut out = String::new();
    let mut i: usize = 0;
    while i < count
        invariant
            i <= count,
            out@ == repeated(c, i as nat),
        decreases count - i,
    {
        out.push(c);
        i = i + 1;
        assert(repeated(c, i as nat) == repeated(c, (i - 1) as nat).push(c));
    }
    out
}

/// Fills a text up behind it to a width.
pub fn pad_end(text: &str, width: usize, fill: char) -> (out: String)
    ensures
        out@ == padded_end(text@, width as nat, fill),
{
    let len: usize = text.unicode_len();
    let mut out = text.to_owned();
    if len < width {
        out.append(repeat(fill, width - len).as_str());
    }
    out
}

/// Fills a text up in front of it to a width.
pub fn pad_start(text: &str, width: usize, fill: char) -> (out: String)
    ensures
        out@ == padded_start(text@, width as nat, fill),
{
    let len: usize = text.unicode_len();
    if len < width {
        let mut out = repeat(fill, width - len);
        out.append(text);
        out
    } else {
        text.to_owned()
    }
}

/// The first `count` characters of `s`, or all of `s` where it has fewer.
pub open spec fn first_chars(s: Seq<char>, count: nat) -> Seq<char> {
    if s.len() <= count {
        s
    } else {
        s.take(count as int)
    }
}

/// Keeps at most `count` characters of a text.
pub fn take_chars(text: &str, count: usize) -> (out: String)
    ensures
        out@ == first_chars(text@, count as nat),
{
    let len: usize = text.unicode_len();
    if len <= count {
        text.to_owned()
    } else {
        text.substring_char(0, count).to_owned()
    }
}

// What holds of texts.

/// Whether a text is made of white space alone.
pub open spec fn all_white(s: Seq<char>) -> bool {
    forall|k: int| 0 <= k < s.len() ==> white(#[trigger] s[k])
}

/// Trimming takes white space off both ends and nothing else: what is left is one piece of the
/// text, with nothing but white space around it, and none at its ends.
pub proof fn law_trimming_takes_white_ends_only(s: Seq<char>) -> (ends: (int, int))
    ensures
        0 <= ends.0 <= ends.1 <= s.len(),
        trimmed(s) == s.subrange(ends.0, ends.1),
        all_white(s.take(ends.0)),
        all_white(s.skip(ends.1)),
        ends.0 < ends.1 ==> !white(s[ends.0]) && !white(s[ends.1 - 1]),
{
    let from = lemma_trimmed_start_at(s);
    let rest = s.skip(from);
    let len = lemma_trimmed_end_at(rest);
    let to = from + len;
    assert(rest.take(len) == s.subrange(from, to));
    assert(s.skip(to) == rest.skip(len));
    if from < to {
        assert(rest.first() == s[from]);
        assert(rest[len - 1] == s[to - 1]);
    }
    (from, to)
}

proof fn lemma_trimmed_start_at(s: Seq<char>) -> (from: int)
    ensures
        0 <= from <= s.len(),
        trimmed_start(s) == s.skip(from),
        all_white(s.take(from)),
        from < s.len() ==> !white(s[from]),
    decreases s.len(),
{
    if s.len() > 0 && white(s.first()) {
        let more = lemma_trimmed_start_at(s.drop_first());
        assert(s.skip(more + 1) == s.drop_first().skip(more));
        assert forall|k: int| 0 <= k < more + 1 implies white(#[trigger] s.take(more + 1)[k]) by {
            if k > 0 {
                assert(s.drop_first().take(more)[k - 1] == s[k]);
            }
        }
        if more + 1 < s.len() {
            assert(s.drop_first()[more] == s[more + 1]);
        }
        more + 1
    } else {
        assert(s.skip(0) == s);
        0
    }
}

proof fn lemma_trimmed_end_at(s: Seq<char>) -> (len: int)
    ensures
        0 <= len <= s.len(),
        trimmed_end(s) == s.take(len),
        all_white(s.skip(len)),
        len > 0 ==> !white(s[len - 1]),
    decreases s.len(),
{
    if s.len() > 0 && white(s.last()) {
        let rest = s.drop_last();
        let len = lemma_trimmed_end_at(rest);
        assert(s.take(len) == rest.take(len));
        assert forall|k: int| 0 <= k < s.len() - len implies white(#[trigger] s.skip(len)[k]) by {
            if k < rest.len() - len {
                assert(rest.skip(len)[k] == s[len + k]);
            } else {
                assert(s.skip(len)[k] == s.last());
            }
        }
        len
    } else {
        assert(s.take(s.len() as int) == s);
        s.len() as int
    }
}

/// White space around a text that has none at its ends is what trimming takes away.
pub proof fn law_trimming_undoes_white_space(before: Seq<char>, s: Seq<char>, behind: Seq<char>)
    requires
        all_white(before),
        all_white(behind),
        s.len() > 0 ==> !white(s.first()) && !white(s.last()),
    ensures
        trimmed(before + s + behind) == s,
    decreases before.len() + behind.len(),
{
    let all = before + s + behind;
    if behind.len() > 0 {
        let rest = behind.drop_last();
        assert(all == (before + s + rest).push(behind.last()));
        assert(white(behind[behind.len() - 1]));
        assert forall|k: int| 0 <= k < rest.len() implies white(#[trigger] rest[k]) by {
            assert(white(behind[k]));
        }
        lemma_trimmed_push(before + s + rest, behind.last());
        law_trimming_undoes_white_space(before, s, rest);
    } else if before.len() > 0 {
        let rest = before.drop_first();
        assert(white(before[0]));
        assert forall|k: int| 0 <= k < rest.len() implies white(#[trigger] rest[k]) by {
            assert(white(before[k + 1]));
        }
        assert(all.first() == before[0]);
        assert(all.drop_first() == rest + s + behind);
        law_trimming_undoes_white_space(rest, s, behind);
    } else {
        assert(all == s);
    }
}

/// A line feed ends a line, together with a carriage return before it, and the rest is cut on its
/// own. The last line needs no line feed.
pub proof fn law_lines_end_at_line_feeds(line: Seq<char>, rest: Seq<char>)
    requires
        !line.contains('\n'),
    ensures
        lines(line + seq!['\n'] + rest) == seq![
            if line.len() > 0 && line[line.len() - 1] == '\r' {
                line.take(line.len() - 1)
            } else {
                line
            },
        ] + lines(rest),
        line.len() > 0 ==> lines(line) == seq![line],
        lines(Seq::<char>::empty()) == Seq::<Seq<char>>::empty(),
{
    let all = line + seq!['\n'] + rest;
    let at = line.len() as int;
    assert forall|k: int| 0 <= k < at implies line[k] != '\n' by {
        assert(line.contains(line[k]));
    }
    assert forall|k: int| 0 <= k < at implies all[k] != '\n' by {
        assert(all[k] == line[k]);
    }
    assert(all[at] == '\n');
    lemma_position_is(all, '\n', at);
    lemma_position_is(line, '\n', at);
    assert(all.take(at) == line);
    assert(all.skip(at + 1) == rest);
    if line.len() > 0 {
        assert(line.drop_last() == line.take(at - 1));
    }
}

/// A part that is joined to others stands behind them and a separator. A part alone stands as it
/// is.
pub proof fn law_joining_puts_parts_in_a_row(
    parts: Seq<Seq<char>>,
    part: Seq<char>,
    sep: Seq<char>,
)
    ensures
        parts.len() > 0 ==> joined(parts.push(part), sep) == joined(parts, sep) + sep + part,
        joined(seq![part], sep) == part,
        joined(Seq::<Seq<char>>::empty(), sep) == Seq::<char>::empty(),
{
    assert(parts.push(part).drop_last() == parts);
}

/// A part occurs in a text where the text is something, the part, and something more.
pub proof fn law_what_occurs(s: Seq<char>, part: Seq<char>)
    ensures
        occurs(s, part) <==> exists|a: Seq<char>, b: Seq<char>| s == #[trigger] (a + part + b),
{
    if occurs(s, part) {
        let at = choose|at: int| occurs_at(s, part, at);
        let a = s.take(at);
        let b = s.skip(at + part.len());
        assert(s == a + part + b);
    }
    if exists|a: Seq<char>, b: Seq<char>| s == #[trigger] (a + part + b) {
        let (a, b) = choose|a: Seq<char>, b: Seq<char>| s == #[trigger] (a + part + b);
        lemma_occurs_between(a, part, b);
    }
}

/// A part occurs between what stands before and behind it.
pub proof fn lemma_occurs_between(a: Seq<char>, part: Seq<char>, b: Seq<char>)
    ensures
        occurs(a + part + b, part),
{
    assert((a + part + b).subrange(a.len() as int, (a.len() + part.len()) as int) == part);
    assert(occurs_at(a + part + b, part, a.len() as int));
}

/// What occurs in a part of a text occurs in the text.
pub proof fn lemma_occurs_within(a: Seq<char>, s: Seq<char>, b: Seq<char>, part: Seq<char>)
    requires
        occurs(s, part),
    ensures
        occurs(a + s + b, part),
{
    let at = choose|at: int| occurs_at(s, part, at);
    let all = a + s + b;
    assert(all.subrange(a.len() + at, a.len() + at + part.len()) == s.subrange(
        at,
        at + part.len(),
    ));
    assert(occurs_at(all, part, a.len() + at));
}

/// Every part that is joined occurs in the whole.
pub proof fn law_joined_parts_occur(parts: Seq<Seq<char>>, sep: Seq<char>, i: int)
    requires
        0 <= i < parts.len(),
    ensures
        occurs(joined(parts, sep), parts[i]),
    decreases parts.len(),
{
    let none = Seq::<char>::empty();
    if parts.len() == 1 {
        lemma_occurs_between(none, parts[0], none);
        assert(none + parts[0] + none == parts[0]);
    } else {
        let before = joined(parts.drop_last(), sep);
        if i == parts.len() - 1 {
            lemma_occurs_between(before + sep, parts.last(), none);
            assert(before + sep + parts.last() + none == joined(parts, sep));
        } else {
            law_joined_parts_occur(parts.drop_last(), sep, i);
            lemma_occurs_within(none, before, sep + parts.last(), parts[i]);
            assert(none + before + (sep + parts.last()) == joined(parts, sep));
        }
    }
}

/// A number in decimal ends with its last digit, behind the rest of the number. There are no
/// leading zeros, and a minus sign stands before a negative number.
pub proof fn law_decimals(n: nat)
    ensures
        n >= 10 ==> decimal(n).drop_last() == decimal(n / 10) && decimal(n).last() as int == '0' as int
            + n % 10,
        n < 10 ==> decimal(n).len() == 1 && decimal(n)[0] as int == '0' as int + n,
        n > 0 ==> decimal(n)[0] != '0',
        signed_decimal(n as int) == decimal(n),
        n > 0 ==> signed_decimal(-n) == seq!['-'] + decimal(n),
    decreases n,
{
    if n >= 10 {
        law_decimals(n / 10);
        assert(decimal(n).drop_last() == decimal(n / 10));
        assert(decimal(n)[0] == decimal(n / 10)[0]);
    }
}

/// A padded text is the text and what fills it up to the width. A text that is wide enough stays as
/// it is.
pub proof fn law_padding_keeps_the_text(s: Seq<char>, width: nat, fill: char, k: int)
    ensures
        padded_end(s, width, fill).len() == if s.len() < width {
            width
        } else {
            s.len()
        },
        padded_start(s, width, fill).len() == padded_end(s, width, fill).len(),
        padded_end(s, width, fill).take(s.len() as int) == s,
        padded_start(s, width, fill).skip(
            padded_start(s, width, fill).len() - s.len(),
        ) == s,
        s.len() <= k < width ==> padded_end(s, width, fill)[k] == fill,
        0 <= k < width - s.len() ==> padded_start(s, width, fill)[k] == fill,
{
    assert(padded_end(s, width, fill).take(s.len() as int) == s);
    assert(padded_start(s, width, fill).skip(padded_start(s, width, fill).len() - s.len()) == s);
}

/// The first characters of a text are a start of it, as long as it may be and as the text is.
pub proof fn law_first_chars(s: Seq<char>, count: nat)
    ensures
        first_chars(s, count).is_prefix_of(s),
        first_chars(s, count).len() == if s.len() < count {
            s.len()
        } else {
            count
        },
{
}

/// Whether `kept` lists, in rising order, the places below `n` that `keep` picks: all of them, and
/// no others.
pub open spec fn picks(kept: Seq<int>, n: int, keep: spec_fn(int) -> bool) -> bool {
    &&& forall|a: int| 0 <= a < kept.len() ==> 0 <= #[trigger] kept[a] < n && keep(kept[a])
    &&& forall|a: int, b: int| 0 <= a < b < kept.len() ==> #[trigger] kept[a] < #[trigger] kept[b]
    &&& forall|i: int| 0 <= i < n && #[trigger] keep(i) ==> kept.contains(i)
}

/// One place more is picked or not.
pub proof fn lemma_picks_more(
    kept: Seq<int>,
    n: int,
    before: spec_fn(int) -> bool,
    keep: spec_fn(int) -> bool,
)
    requires
        n >= 0,
        picks(kept, n, before),
        forall|i: int| 0 <= i < n ==> #[trigger] keep(i) == before(i),
    ensures
        picks(
            if keep(n) {
                kept.push(n)
            } else {
                kept
            },
            n + 1,
            keep,
        ),
{
    let more = if keep(n) {
        kept.push(n)
    } else {
        kept
    };
    assert forall|a: int| 0 <= a < more.len() implies 0 <= #[trigger] more[a] < n + 1 && keep(
        more[a],
    ) by {
        if a < kept.len() {
            assert(more[a] == kept[a]);
            assert(keep(kept[a]) == before(kept[a]));
        }
    }
    assert forall|i: int| 0 <= i < n + 1 && #[trigger] keep(i) implies more.contains(i) by {
        if i < n {
            assert(before(i));
            let a = kept.index_of(i);
            assert(more[a] == i);
        } else {
            assert(more[kept.len() as int] == n);
        }
    }
}

/// The texts of strings are those strings, in order.
pub proof fn law_texts_are_the_strings(list: Seq<String>, i: int)
    ensures
        texts(list).len() == list.len(),
        0 <= i < list.len() ==> texts(list)[i] == list[i]@,
{
}

} // verus!
