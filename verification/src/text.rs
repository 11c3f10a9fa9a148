//! Line-oriented text: how a file's text is cut into lines and how a list of
//! lines is written back.

use vstd::prelude::*;
use vstd::std_specs::iter::IteratorSpec;

verus! {

/// The character sequences of a list of strings.
pub open spec fn names(v: Seq<String>) -> Seq<Seq<char>> {
    v.map_values(|s: String| s@)
}

/// A line without the carriage return that may end it.
pub open spec fn strip_cr(line: Seq<char>) -> Seq<char> {
    if line.len() > 0 && line.last() == '\r' {
        line.drop_last()
    } else {
        line
    }
}

/// The lines of `text`, where `current` holds the characters of the line
/// that is being read. A line ends at a line feed; the carriage return
/// before that line feed is not part of the line. Text after the last line
/// feed is a line of its own unless it is empty.
pub open spec fn lines_from(text: Seq<char>, current: Seq<char>) -> Seq<Seq<char>>
    decreases text.len(),
{
    if text.len() == 0 {
        if current.len() > 0 {
            seq![current]
        } else {
            Seq::empty()
        }
    } else if text[0] == '\n' {
        seq![strip_cr(current)] + lines_from(text.drop_first(), Seq::empty())
    } else {
        lines_from(text.drop_first(), current.push(text[0]))
    }
}

/// The lines of `text`.
pub open spec fn lines_of(text: Seq<char>) -> Seq<Seq<char>> {
    lines_from(text, Seq::empty())
}

/// `String::push`: appends the character `c` to `text`.
#[verifier::external_body]
fn push_char(text: &mut String, c: char)
    ensures
        final(text)@ == old(text)@.push(c),
{
    text.push(c);
}

/// The characters of `chars` from the one at `from` up to the one at `to`,
/// as a string.
pub fn string_of(chars: &Vec<char>, from: usize, to: usize) -> (text: String)
    requires
        from <= to <= chars@.len(),
    ensures
        text@ == chars@.subrange(from as int, to as int),
{
    let mut text = String::new();
    let mut i: usize = from;
    proof {
        assert(chars@.subrange(from as int, from as int) =~= Seq::<char>::empty());
    }
    while i < to
        invariant
            from <= i <= to <= chars@.len(),
            text@ == chars@.subrange(from as int, i as int),
        decreases to - i,
    {
        push_char(&mut text, chars[i]);
        proof {
            assert(chars@.subrange(from as int, i + 1) == chars@.subrange(
                from as int,
                i as int,
            ).push(chars@[i as int]));
        }
        i += 1;
    }
    text
}

/// Cuts `text` into its lines.
pub fn split_lines(text: &str) -> (lines: Vec<String>)
    ensures
        names(lines@) == lines_of(text@),
{
    let chars = chars_of(text);
    let total: usize = chars.len();
    let mut lines: Vec<String> = Vec::new();
    let mut start: usize = 0;
    let mut pos: usize = 0;
    proof {
        assert(text@.subrange(0, text@.len() as int) == text@);
        assert(text@.subrange(0, 0) == Seq::<char>::empty());
        assert(names(lines@) == Seq::<Seq<char>>::empty());
        assert(names(lines@) + lines_of(text@) == lines_of(text@));
    }
    while pos < total
        invariant
            chars@ == text@,
            total == text@.len(),
            start <= pos <= total,
            lines_of(text@) == names(lines@) + lines_from(
                text@.subrange(pos as int, total as int),
                text@.subrange(start as int, pos as int),
            ),
        decreases total - pos,
    {
        let ghost rest = text@.subrange(pos as int, total as int);
        let ghost current = text@.subrange(start as int, pos as int);
        let c: char = chars[pos];
        proof {
            assert(rest[0] == c);
            assert(rest.drop_first() == text@.subrange(pos + 1, total as int));
        }
        if c == '\n' {
            let end: usize = if pos > start && chars[pos - 1] == '\r' {
                (pos - 1) as usize
            } else {
                pos
            };
            let line = string_of(&chars, start, end);
            proof {
                assert(line@ == strip_cr(current)) by {
                    if pos > start {
                        assert(current.last() == text@[pos - 1]);
                    }
                    if end < pos {
                        assert(current.drop_last() == text@.subrange(start as int, end as int));
                    }
                }
                assert(names(lines@.push(line)) == names(lines@).push(line@));
                assert(text@.subrange(pos + 1, pos + 1) == Seq::<char>::empty());
                assert(names(lines@) + (seq![line@] + lines_from(
                    rest.drop_first(),
                    Seq::empty(),
                )) == names(lines@).push(line@) + lines_from(rest.drop_first(), Seq::empty()));
            }
            lines.push(line);
            start = pos + 1;
        } else {
            proof {
                assert(current.push(c) == text@.subrange(start as int, pos + 1));
            }
        }
        pos = pos + 1;
    }
    if pos > start {
        let line = string_of(&chars, start, pos);
        proof {
            assert(names(lines@.push(line)) == names(lines@).push(line@));
            assert(names(lines@) + seq![line@] == names(lines@).push(line@));
        }
        lines.push(line);
    } else {
        proof {
            assert(names(lines@) + Seq::<Seq<char>>::empty() == names(lines@));
        }
    }
    lines
}

/// A copy of a list of names.
pub fn copy_names(list: &Vec<String>) -> (copy: Vec<String>)
    ensures
        names(copy@) == names(list@),
{
    let mut copy: Vec<String> = Vec::new();
    let mut i: usize = 0;
    while i < list.len()
        invariant
            i <= list.len(),
            names(copy@) == names(list@).subrange(0, i as int),
        decreases list.len() - i,
    {
        let item = list[i].clone();
        proof {
            assert(names(copy@.push(item)) == names(copy@).push(item@));
            assert(names(list@).subrange(0, i + 1) == names(list@).subrange(0, i as int).push(
                item@,
            ));
        }
        copy.push(item);
        i += 1;
    }
    proof {
        assert(names(list@).subrange(0, i as int) == names(list@));
    }
    copy
}

/// Whether two lists hold the same names in the same order.
pub fn same_names(a: &Vec<String>, b: &Vec<String>) -> (same: bool)
    ensures
        same == (names(a@) == names(b@)),
{
    if a.len() != b.len() {
        proof {
            assert(names(a@).len() != names(b@).len());
        }
        return false;
    }
    let mut i: usize = 0;
    while i < a.len()
        invariant
            i <= a.len(),
            a.len() == b.len(),
            forall|k: int| 0 <= k < i ==> names(a@)[k] == names(b@)[k],
        decreases a.len() - i,
    {
        if a[i] != b[i] {
            proof {
                assert(names(a@)[i as int] != names(b@)[i as int]);
            }
            return false;
        }
        i += 1;
    }
    proof {
        assert(names(a@) =~= names(b@));
    }
    true
}

/// The digit for a number below sixteen.
pub open spec fn digit(d: int) -> char {
    if d == 0 {
        '0'
    } else if d == 1 {
        '1'
    } else if d == 2 {
        '2'
    } else if d == 3 {
        '3'
    } else if d == 4 {
        '4'
    } else if d == 5 {
        '5'
    } else if d == 6 {
        '6'
    } else if d == 7 {
        '7'
    } else if d == 8 {
        '8'
    } else if d == 9 {
        '9'
    } else if d == 10 {
        'a'
    } else if d == 11 {
        'b'
    } else if d == 12 {
        'c'
    } else if d == 13 {
        'd'
    } else if d == 14 {
        'e'
    } else {
        'f'
    }
}

/// A number in decimal digits.
pub open spec fn decimal(n: nat) -> Seq<char>
    decreases n,
{
    if n < 10 {
        seq![digit(n as int)]
    } else {
        decimal(n / 10).push(digit((n % 10) as int))
    }
}

/// A byte in hexadecimal digits, without a leading zero.
pub open spec fn hex(b: u8) -> Seq<char> {
    if b < 16 {
        seq![digit(b as int)]
    } else {
        seq![digit(b as int / 16), digit(b as int % 16)]
    }
}

/// Bytes in hexadecimal digits, none with a leading zero.
pub open spec fn hex_of(bytes: Seq<u8>) -> Seq<char>
    decreases bytes.len(),
{
    if bytes.len() == 0 {
        Seq::empty()
    } else {
        hex_of(bytes.drop_last()) + hex(bytes.last())
    }
}

/// The digit for a number below sixteen, as text.
fn digit_text(d: u8) -> (text: &'static str)
    requires
        d < 16,
    ensures
        text@ == seq![digit(d as int)],
{
    proof {
        reveal_strlit("0");
        reveal_strlit("1");
        reveal_strlit("2");
        reveal_strlit("3");
        reveal_strlit("4");
        reveal_strlit("5");
        reveal_strlit("6");
        reveal_strlit("7");
        reveal_strlit("8");
        reveal_strlit("9");
        reveal_strlit("a");
        reveal_strlit("b");
        reveal_strlit("c");
        reveal_strlit("d");
        reveal_strlit("e");
        reveal_strlit("f");
    }
    let text = if d == 0 {
        "0"
    } else if d == 1 {
        "1"
    } else if d == 2 {
        "2"
    } else if d == 3 {
        "3"
    } else if d == 4 {
        "4"
    } else if d == 5 {
        "5"
    } else if d == 6 {
        "6"
    } else if d == 7 {
        "7"
    } else if d == 8 {
        "8"
    } else if d == 9 {
        "9"
    } else if d == 10 {
        "a"
    } else if d == 11 {
        "b"
    } else if d == 12 {
        "c"
    } else if d == 13 {
        "d"
    } else if d == 14 {
        "e"
    } else {
        "f"
    };
    assert(text@ =~= seq![digit(d as int)]);
    text
}

/// Writes a number in decimal digits.
pub fn to_decimal(n: u64) -> (text: String)
    ensures
        text@ == decimal(n as nat),
    decreases n,
{
    if n < 10 {
        let mut text = String::new();
        text.append(digit_text(n as u8));
        assert(text@ =~= decimal(n as nat));
        text
    } else {
        let mut text = to_decimal(n / 10);
        text.append(digit_text((n % 10) as u8));
        assert(text@ =~= decimal(n as nat));
        text
    }
}

/// Writes bytes in hexadecimal digits, none with a leading zero.
pub fn to_hex(bytes: &Vec<u8>) -> (text: String)
    ensures
        text@ == hex_of(bytes@),
{
    let mut text = String::new();
    let mut i: usize = 0;
    proof {
        assert(bytes@.subrange(0, 0) =~= Seq::<u8>::empty());
    }
    while i < bytes.len()
        invariant
            i <= bytes.len(),
            text@ == hex_of(bytes@.subrange(0, i as int)),
        decreases bytes.len() - i,
    {
        let b: u8 = bytes[i];
        let ghost so_far = text@;
        proof {
            let next = bytes@.subrange(0, i + 1);
            assert(next.drop_last() == bytes@.subrange(0, i as int));
            assert(next.last() == b);
        }
        if b >= 16 {
            text.append(digit_text(b / 16));
        }
        text.append(digit_text(b % 16));
        proof {
            assert(text@ =~= so_far + hex(b));
        }
        i += 1;
    }
    proof {
        assert(bytes@.subrange(0, i as int) == bytes@);
    }
    text
}

/// The characters of `text`.
pub fn chars_of(text: &str) -> (chars: Vec<char>)
    ensures
        chars@ == text@,
{
    let total: usize = text.unicode_len();
    let mut chars: Vec<char> = Vec::new();
    let mut it = text.chars();
    proof {
        assert(text@.subrange(0, text@.len() as int) == text@);
    }
    loop
        invariant
            total == text@.len(),
            chars@.len() <= total,
            it.remaining() == text@.subrange(chars@.len() as int, total as int),
            chars@ == text@.subrange(0, chars@.len() as int),
        ensures
            chars@.len() == total,
            chars@ == text@.subrange(0, chars@.len() as int),
        decreases total - chars@.len(),
    {
        let ghost rest = it.remaining();
        let ghost pos = chars@.len() as int;
        match it.next() {
            None => {
                break ;
            },
            Some(c) => {
                proof {
                    assert(rest.len() > 0);
                    assert(c == text@[pos]);
                    assert(rest.drop_first() == text@.subrange(pos + 1, total as int));
                    assert(text@.subrange(0, pos + 1) == text@.subrange(0, pos).push(c));
                }
                chars.push(c);
            },
        }
    }
    proof {
        assert(text@.subrange(0, text@.len() as int) == text@);
    }
    chars
}

/// `pattern` stands in `hay` at `at`.
pub open spec fn occurs_at(hay: Seq<char>, pattern: Seq<char>, at: int) -> bool {
    0 <= at && at + pattern.len() <= hay.len() && hay.subrange(at, at + pattern.len()) == pattern
}

/// The first place at `from` or behind it at which `pattern` stands in
/// `hay`.
pub open spec fn first_match(hay: Seq<char>, pattern: Seq<char>, from: int) -> Option<int>
    decreases hay.len() - from,
{
    if from < 0 || from + pattern.len() > hay.len() {
        None
    } else if occurs_at(hay, pattern, from) {
        Some(from)
    } else if from >= hay.len() {
        None
    } else {
        first_match(hay, pattern, from + 1)
    }
}

/// Whether `pattern` stands somewhere in `hay`.
pub open spec fn holds(hay: Seq<char>, pattern: Seq<char>) -> bool {
    first_match(hay, pattern, 0) is Some
}

/// Whether `pattern` stands in `hay` at `at`.
pub fn matches_at(hay: &Vec<char>, pattern: &Vec<char>, at: usize) -> (found: bool)
    ensures
        found == occurs_at(hay@, pattern@, at as int),
{
    if pattern.len() > hay.len() || at > hay.len() - pattern.len() {
        return false;
    }
    let mut k: usize = 0;
    while k < pattern.len()
        invariant
            k <= pattern.len(),
            at + pattern.len() <= hay.len(),
            forall|j: int| 0 <= j < k ==> hay@[at + j] == pattern@[j],
        decreases pattern.len() - k,
    {
        if hay[at + k] != pattern[k] {
            proof {
                if occurs_at(hay@, pattern@, at as int) {
                    assert(hay@.subrange(at as int, at + pattern@.len())[k as int] == pattern@[k as int]);
                }
            }
            return false;
        }
        k += 1;
    }
    proof {
        assert(hay@.subrange(at as int, at + pattern@.len()) =~= pattern@);
    }
    true
}

/// The first place at `from` or behind it at which `pattern` stands in
/// `hay`.
pub fn find_from(hay: &Vec<char>, pattern: &Vec<char>, from: usize) -> (found: Option<usize>)
    ensures
        match found {
            Some(at) => first_match(hay@, pattern@, from as int) == Some(at as int) && from <= at
                && at + pattern@.len() <= hay@.len(),
            None => first_match(hay@, pattern@, from as int) is None,
        },
{
    if pattern.len() > hay.len() {
        return None;
    }
    let last: usize = hay.len() - pattern.len();
    let mut at: usize = from;
    while at <= last
        invariant
            last == hay.len() - pattern.len(),
            from <= at,
            first_match(hay@, pattern@, from as int) == first_match(hay@, pattern@, at as int),
        decreases last + 1 - at,
    {
        if matches_at(hay, pattern, at) {
            return Some(at);
        }
        if at == last {
            proof {
                assert(first_match(hay@, pattern@, at + 1) is None);
            }
            return None;
        }
        at += 1;
    }
    None
}

/// Whether `hay` begins with `pattern`.
pub fn begins_with(hay: &Vec<char>, pattern: &str) -> (begins: bool)
    ensures
        begins == occurs_at(hay@, pattern@, 0),
{
    let pattern = chars_of(pattern);
    matches_at(hay, &pattern, 0)
}

/// Whether `pattern` stands somewhere in `hay`.
pub fn holds_text(hay: &Vec<char>, pattern: &str) -> (found: bool)
    ensures
        found == holds(hay@, pattern@),
{
    let pattern = chars_of(pattern);
    find_from(hay, &pattern, 0).is_some()
}

/// Whether `hay` holds the character `c`.
pub fn holds_char(hay: &Vec<char>, c: char) -> (found: bool)
    ensures
        found == hay@.contains(c),
{
    let mut i: usize = 0;
    while i < hay.len()
        invariant
            i <= hay.len(),
            forall|k: int| 0 <= k < i ==> hay@[k] != c,
        decreases hay.len() - i,
    {
        if hay[i] == c {
            return true;
        }
        i += 1;
    }
    false
}

/// A text has one part at least.
pub proof fn lemma_split_on_has_parts(text: Seq<char>, pattern: Seq<char>)
    ensures
        split_on(text, pattern).len() >= 1,
{
}

/// The parts of `text` between the places at which `pattern` stands. The
/// places are looked for from left to right, each behind the one before.
pub open spec fn split_on(text: Seq<char>, pattern: Seq<char>) -> Seq<Seq<char>>
    decreases text.len(),
{
    match first_match(text, pattern, 0) {
        Some(at) => if pattern.len() > 0 && 0 <= at && at + pattern.len() <= text.len() {
            seq![text.subrange(0, at)] + split_on(
                text.subrange(at + pattern.len(), text.len() as int),
                pattern,
            )
        } else {
            seq![text]
        },
        None => seq![text],
    }
}

/// What looking for a pattern in the rest of a text says of the text.
pub proof fn lemma_first_match_of_rest(hay: Seq<char>, pattern: Seq<char>, start: int, from: int)
    requires
        0 <= start <= from,
        start <= hay.len(),
    ensures
        first_match(hay.subrange(start, hay.len() as int), pattern, from - start) == match first_match(
            hay,
            pattern,
            from,
        ) {
            Some(at) => Some(at - start),
            None => None,
        },
    decreases hay.len() - from,
{
    let rest = hay.subrange(start, hay.len() as int);
    if from + pattern.len() <= hay.len() {
        assert(rest.subrange(from - start, from - start + pattern.len()) == hay.subrange(
            from,
            from + pattern.len(),
        ));
        if !occurs_at(hay, pattern, from) && from < hay.len() {
            lemma_first_match_of_rest(hay, pattern, start, from + 1);
        }
    }
}

/// Cuts `text` at the places at which `pattern` stands.
pub fn split_text(text: &str, pattern: &str) -> (parts: Vec<String>)
    requires
        pattern@.len() > 0,
    ensures
        names(parts@) == split_on(text@, pattern@),
{
    let hay = chars_of(text);
    let pat = chars_of(pattern);
    let mut parts: Vec<String> = Vec::new();
    let mut start: usize = 0;
    proof {
        assert(text@.subrange(0, text@.len() as int) == text@);
        assert(names(parts@) + split_on(text@, pattern@) == split_on(text@, pattern@));
    }
    loop
        invariant_except_break
            split_on(text@, pattern@) == names(parts@) + split_on(
                text@.subrange(start as int, text@.len() as int),
                pattern@,
            ),
        invariant
            hay@ == text@,
            pat@ == pattern@,
            pat@.len() > 0,
            start <= hay.len(),
        ensures
            names(parts@) == split_on(text@, pattern@),
        decreases hay.len() - start,
    {
        let ghost rest = text@.subrange(start as int, text@.len() as int);
        let ghost so_far = names(parts@);
        proof {
            lemma_first_match_of_rest(text@, pattern@, start as int, start as int);
        }
        match find_from(&hay, &pat, start) {
            Some(at) => {
                let piece = string_of(&hay, start, at);
                proof {
                    assert(rest.subrange(0, at - start) == text@.subrange(start as int, at as int));
                    assert(rest.subrange(at - start + pat@.len(), rest.len() as int)
                        == text@.subrange(at + pat@.len(), text@.len() as int));
                    assert(names(parts@.push(piece)) == so_far.push(piece@));
                    let tail = split_on(
                        text@.subrange(at + pat@.len(), text@.len() as int),
                        pattern@,
                    );
                    assert(so_far + (seq![piece@] + tail) == so_far.push(piece@) + tail);
                }
                parts.push(piece);
                start = at + pat.len();
            },
            None => {
                let piece = string_of(&hay, start, hay.len());
                proof {
                    assert(names(parts@.push(piece)) == so_far.push(piece@));
                    assert(so_far + seq![rest] == so_far.push(rest));
                }
                parts.push(piece);
                break ;
            },
        }
    }
    parts
}

/// The characters that count as white space.
pub open spec fn is_white(c: char) -> bool {
    let code = c as u32;
    ||| 0x09 <= code <= 0x0d
    ||| code == 0x20
    ||| code == 0x85
    ||| code == 0xa0
    ||| code == 0x1680
    ||| 0x2000 <= code <= 0x200a
    ||| code == 0x2028
    ||| code == 0x2029
    ||| code == 0x202f
    ||| code == 0x205f
    ||| code == 0x3000
}

/// The length of `text` without the white space at its end.
pub open spec fn trimmed_len(text: Seq<char>) -> int
    decreases text.len(),
{
    if text.len() == 0 {
        0
    } else if is_white(text.last()) {
        trimmed_len(text.drop_last())
    } else {
        text.len() as int
    }
}

/// The place of the first character of `text` that is no white space.
pub open spec fn leading_white(text: Seq<char>) -> int
    decreases text.len(),
{
    if text.len() == 0 {
        0
    } else if is_white(text[0]) {
        1 + leading_white(text.drop_first())
    } else {
        0
    }
}

/// `text` without the white space at its end.
pub open spec fn trim_end(text: Seq<char>) -> Seq<char> {
    text.subrange(0, trimmed_len(text))
}

/// `text` without the white space at its start and at its end.
pub open spec fn trim(text: Seq<char>) -> Seq<char> {
    let end = trim_end(text);
    end.subrange(leading_white(end), end.len() as int)
}

/// Whether `c` counts as white space.
pub fn white(c: char) -> (is: bool)
    ensures
        is == is_white(c),
{
    let code: u32 = c as u32;
    (0x09 <= code && code <= 0x0d) || code == 0x20 || code == 0x85 || code == 0xa0 || code
        == 0x1680 || (0x2000 <= code && code <= 0x200a) || code == 0x2028 || code == 0x2029
        || code == 0x202f || code == 0x205f || code == 0x3000
}

/// The length of `text` without the white space at its end.
pub fn trimmed_length(text: &Vec<char>, upto: usize) -> (end: usize)
    requires
        upto <= text@.len(),
    ensures
        end == trimmed_len(text@.subrange(0, upto as int)),
        end <= upto,
{
    let mut end: usize = upto;
    while end > 0 && white(text[end - 1])
        invariant
            end <= upto <= text@.len(),
            trimmed_len(text@.subrange(0, upto as int)) == trimmed_len(
                text@.subrange(0, end as int),
            ),
        decreases end,
    {
        proof {
            let now = text@.subrange(0, end as int);
            assert(now.last() == text@[end - 1]);
            assert(now.drop_last() == text@.subrange(0, end - 1));
        }
        end -= 1;
    }
    proof {
        let now = text@.subrange(0, end as int);
        if end > 0 {
            assert(now.last() == text@[end - 1]);
        }
    }
    end
}

/// The number of white space characters that `text` starts with, before
/// `upto`.
pub fn leading_length(text: &Vec<char>, from: usize, upto: usize) -> (start: usize)
    requires
        from <= upto <= text@.len(),
    ensures
        start == from + leading_white(text@.subrange(from as int, upto as int)),
        from <= start <= upto,
{
    let mut start: usize = from;
    while start < upto && white(text[start])
        invariant
            from <= start <= upto <= text@.len(),
            from + leading_white(text@.subrange(from as int, upto as int)) == start
                + leading_white(text@.subrange(start as int, upto as int)),
        decreases upto - start,
    {
        proof {
            let now = text@.subrange(start as int, upto as int);
            assert(now[0] == text@[start as int]);
            assert(now.drop_first() == text@.subrange(start + 1, upto as int));
        }
        start += 1;
    }
    proof {
        let now = text@.subrange(start as int, upto as int);
        if start < upto {
            assert(now[0] == text@[start as int]);
        }
    }
    start
}

/// Whether `text` begins with `prefix`.
pub fn starts_with(text: &str, prefix: &str) -> (begins: bool)
    ensures
        begins == prefix@.is_prefix_of(text@),
{
    let text_len: usize = text.unicode_len();
    let prefix_len: usize = prefix.unicode_len();
    if prefix_len > text_len {
        return false;
    }
    let mut of_text = text.chars();
    let mut of_prefix = prefix.chars();
    let mut pos: usize = 0;
    proof {
        assert(text@.subrange(0, text@.len() as int) == text@);
        assert(prefix@.subrange(0, prefix@.len() as int) == prefix@);
    }
    while pos < prefix_len
        invariant
            text_len == text@.len(),
            prefix_len == prefix@.len(),
            prefix_len <= text_len,
            pos <= prefix_len,
            of_text.remaining() == text@.subrange(pos as int, text_len as int),
            of_prefix.remaining() == prefix@.subrange(pos as int, prefix_len as int),
            forall|k: int| 0 <= k < pos ==> text@[k] == prefix@[k],
        decreases prefix_len - pos,
    {
        let ghost text_rest = of_text.remaining();
        let ghost prefix_rest = of_prefix.remaining();
        let a = of_text.next();
        let b = of_prefix.next();
        proof {
            assert(text_rest.len() > 0 && prefix_rest.len() > 0);
            assert(text_rest[0] == text@[pos as int]);
            assert(prefix_rest[0] == prefix@[pos as int]);
            assert(text_rest.drop_first() == text@.subrange(pos + 1, text_len as int));
            assert(prefix_rest.drop_first() == prefix@.subrange(pos + 1, prefix_len as int));
        }
        match (a, b) {
            (Some(x), Some(y)) => {
                if x != y {
                    proof {
                        if prefix@.is_prefix_of(text@) {
                            assert(text@.subrange(0, prefix@.len() as int)[pos as int]
                                == prefix@[pos as int]);
                        }
                    }
                    return false;
                }
            },
            _ => {
                assert(false);
            },
        }
        pos = pos + 1;
    }
    proof {
        assert(prefix@ =~= text@.subrange(0, prefix@.len() as int));
    }
    true
}

/// The first place at which `text` holds `c`.
pub fn find_char(text: &str, c: char) -> (found: Option<usize>)
    ensures
        found matches Some(i) ==> i < text@.len() && text@[i as int] == c && forall|k: int|
            0 <= k < i ==> text@[k] != c,
        found is None ==> !text@.contains(c),
{
    let total: usize = text.unicode_len();
    let mut it = text.chars();
    let mut pos: usize = 0;
    proof {
        assert(text@.subrange(0, text@.len() as int) == text@);
    }
    loop
        invariant
            total == text@.len(),
            pos <= total,
            it.remaining() == text@.subrange(pos as int, total as int),
            forall|k: int| 0 <= k < pos ==> text@[k] != c,
        ensures
            pos == total,
            forall|k: int| 0 <= k < pos ==> text@[k] != c,
        decreases total - pos,
    {
        let ghost rest = text@.subrange(pos as int, total as int);
        match it.next() {
            None => {
                break ;
            },
            Some(next) => {
                assert(rest.len() > 0);
                assert(next == text@[pos as int]);
                assert(rest.drop_first() == text@.subrange(pos + 1, total as int));
                if next == c {
                    return Some(pos);
                }
                pos = pos + 1;
            },
        }
    }
    None
}

} // verus!
