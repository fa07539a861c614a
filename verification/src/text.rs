//! Text handling shared by the other modules: lines, trimming, decimal numbers
//! and joining, all stated over sequences of characters.

use vstd::prelude::*;
use vstd::string::*;

verus! {

/// `String::push` adds the character at the end of the string.
pub assume_specification[ String::push ](s: &mut String, c: char)
    ensures
        final(s)@ == old(s)@.push(c),
;

/// The characters with the Unicode property White_Space.
pub open spec fn is_space(c: char) -> bool {
    let v = c as int;
    ||| 0x9 <= v <= 0xd
    ||| v == 0x20
    ||| v == 0x85
    ||| v == 0xa0
    ||| v == 0x1680
    ||| 0x2000 <= v <= 0x200a
    ||| v == 0x2028
    ||| v == 0x2029
    ||| v == 0x202f
    ||| v == 0x205f
    ||| v == 0x3000
}

/// Whether `c` is white space.
pub fn space(c: char) -> (yes: bool)
    ensures
        yes == is_space(c),
{
    let v: u32 = c as u32;
    (0x9 <= v && v <= 0xd) || v == 0x20 || v == 0x85 || v == 0xa0 || v == 0x1680 || (0x2000 <= v
        && v <= 0x200a) || v == 0x2028 || v == 0x2029 || v == 0x202f || v == 0x205f || v == 0x3000
}

/// `s` without the white space it starts with.
pub open spec fn trimmed_start(s: Seq<char>) -> Seq<char>
    decreases s.len(),
{
    if s.len() > 0 && is_space(s.first()) {
        trimmed_start(s.drop_first())
    } else {
        s
    }
}

/// `s` without the white space it ends with.
pub open spec fn trimmed_end(s: Seq<char>) -> Seq<char>
    decreases s.len(),
{
    if s.len() > 0 && is_space(s.last()) {
        trimmed_end(s.drop_last())
    } else {
        s
    }
}

/// `s` without the white space at either end.
pub open spec fn trimmed(s: Seq<char>) -> Seq<char> {
    trimmed_end(trimmed_start(s))
}

/// Where the first line of `s` ends: at its first line feed, or at the end.
pub open spec fn first_break(s: Seq<char>) -> nat
    decreases s.len(),
{
    if s.len() == 0 || s.first() == '\n' {
        0
    } else {
        1 + first_break(s.drop_first())
    }
}

/// A line that was ended by a line feed, without a carriage return before it.
pub open spec fn without_return(line: Seq<char>) -> Seq<char> {
    if line.len() > 0 && line.last() == '\r' {
        line.drop_last()
    } else {
        line
    }
}

/// The lines of `s`. A line ends with a line feed or with a carriage return and
/// a line feed, neither of which belongs to it; the last line needs no ending.
pub open spec fn lines_of(s: Seq<char>) -> Seq<Seq<char>>
    decreases s.len(),
{
    let end = first_break(s) as int;
    if s.len() == 0 {
        seq![]
    } else if end >= s.len() {
        seq![s]
    } else {
        seq![without_return(s.take(end))] + lines_of(s.skip(end + 1))
    }
}

/// The characters of each string.
pub open spec fn views(list: Seq<String>) -> Seq<Seq<char>> {
    list.map_values(|s: String| s@)
}

/// The parts of `list` with `sep` between each two of them.
pub open spec fn joined(list: Seq<Seq<char>>, sep: Seq<char>) -> Seq<char>
    decreases list.len(),
{
    if list.len() == 0 {
        seq![]
    } else if list.len() == 1 {
        list[0]
    } else {
        joined(list.drop_last(), sep) + sep + list.last()
    }
}

/// The digit of a number below ten.
pub open spec fn digit(n: nat) -> char {
    (n + 48) as char
}

/// `n` in decimal, without leading zeros.
pub open spec fn decimal_of(n: nat) -> Seq<char>
    decreases n,
{
    if n < 10 {
        seq![digit(n)]
    } else {
        decimal_of(n / 10).push(digit(n % 10))
    }
}

/// The characters of `s`.
pub fn chars(s: &str) -> (out: Vec<char>)
    ensures
        out@ == s@,
{
    let mut out: Vec<char> = Vec::new();
    for c in it: s.chars()
        invariant
            it.seq() == s@,
            out@ == s@.take(it.index() as int),
    {
        out.push(c);
    }
    out
}

/// The text between two positions.
pub fn slice(all: &Vec<char>, from: usize, to: usize) -> (out: String)
    requires
        from <= to <= all.len(),
    ensures
        out@ == all@.subrange(from as int, to as int),
{
    let mut out = String::new();
    let mut i: usize = from;
    while i < to
        invariant
            from <= i <= to <= all.len(),
            out@ == all@.subrange(from as int, i as int),
        decreases to - i,
    {
        out.push(all[i]);
        i += 1;
    }
    out
}

/// A copy of `s` without the white space at either end.
pub fn trim(s: &str) -> (out: String)
    ensures
        out@ == trimmed(s@),
{
    let all = chars(s);
    let mut from: usize = 0;
    assert(all@.skip(0) == all@);
    while from < all.len() && space(all[from])
        invariant
            from <= all.len(),
            trimmed_start(all@) == trimmed_start(all@.skip(from as int)),
        decreases all.len() - from,
    {
        assert(all@.skip(from as int).drop_first() == all@.skip(from + 1));
        from += 1;
    }
    let ghost body = all@.skip(from as int);
    let mut to: usize = all.len();
    while to > from && space(all[to - 1])
        invariant
            from <= to <= all.len(),
            body == all@.skip(from as int),
            trimmed_end(body) == trimmed_end(all@.subrange(from as int, to as int)),
        decreases to - from,
    {
        let ghost part = all@.subrange(from as int, to as int);
        assert(part.last() == all@[to - 1]);
        assert(part.drop_last() == all@.subrange(from as int, to - 1));
        to -= 1;
    }
    slice(&all, from, to)
}

/// The lines of `raw`.
pub fn lines(raw: &str) -> (out: Vec<String>)
    ensures
        views(out@) == lines_of(raw@),
{
    let all = chars(raw);
    let mut out: Vec<String> = Vec::new();
    let mut start: usize = 0;
    assert(all@.skip(0) == all@);
    while start < all.len()
        invariant
            start <= all.len(),
            lines_of(all@) == views(out@) + lines_of(all@.skip(start as int)),
        decreases all.len() - start,
    {
        let ghost rest = all@.skip(start as int);
        let mut end: usize = start;
        while end < all.len() && all[end] != '\n'
            invariant
                start <= end <= all.len(),
                rest == all@.skip(start as int),
                first_break(rest) == end - start + first_break(all@.skip(end as int)),
            decreases all.len() - end,
        {
            assert(all@.skip(end as int).drop_first() == all@.skip(end + 1));
            end += 1;
        }
        let ghost before = views(out@);
        if end == all.len() {
            out.push(slice(&all, start, end));
            assert(views(out@) == before.push(rest));
            assert(lines_of(all@.skip(end as int)) == Seq::<Seq<char>>::empty());
            start = end;
        } else {
            let mut stop: usize = end;
            if end > start && all[end - 1] == '\r' {
                stop = end - 1;
            }
            out.push(slice(&all, start, stop));
            assert(rest.skip(end - start + 1) == all@.skip(end + 1));
            assert(without_return(rest.take(end - start)) == all@.subrange(
                start as int,
                stop as int,
            ));
            assert(views(out@) == before.push(all@.subrange(start as int, stop as int)));
            assert(before.push(all@.subrange(start as int, stop as int)) + lines_of(
                all@.skip(end + 1),
            ) == before + lines_of(rest));
            start = end + 1;
        }
    }
    assert(views(out@) + lines_of(all@.skip(start as int)) == views(out@));
    out
}

/// `n` in decimal.
pub fn decimal(n: usize) -> (out: String)
    ensures
        out@ == decimal_of(n as nat),
    decreases n,
{
    let mut out = String::new();
    if n >= 10 {
        out = decimal(n / 10);
    }
    let d: u8 = (n % 10) as u8;
    out.push((d + 48) as char);
    assert(seq![digit(n as nat)] == Seq::<char>::empty().push(digit(n as nat)));
    out
}

/// The strings of `list` with `sep` between each two of them.
pub fn join(list: &Vec<String>, sep: &str) -> (out: String)
    ensures
        out@ == joined(views(list@), sep@),
{
    let mut out = String::new();
    let ghost parts = views(list@);
    let mut i: usize = 0;
    while i < list.len()
        invariant
            i <= list.len(),
            parts == views(list@),
            out@ == joined(parts.take(i as int), sep@),
        decreases list.len() - i,
    {
        if i > 0 {
            out.append(sep);
        }
        out.append(list[i].as_str());
        assert(parts.take(i + 1).drop_last() == parts.take(i as int));
        i += 1;
    }
    assert(parts.take(i as int) == parts);
    out
}

/// `line` can stand on a line of its own and be read back.
pub open spec fn is_line(line: Seq<char>) -> bool {
    &&& line.len() > 0
    &&& !line.contains('\n')
    &&& line.last() != '\r'
}

/// Each part followed by a line feed.
pub open spec fn on_lines(list: Seq<Seq<char>>) -> Seq<char>
    decreases list.len(),
{
    if list.len() == 0 {
        seq![]
    } else {
        on_lines(list.drop_last()) + list.last().push('\n')
    }
}

/// None of the first `n` characters is a line feed.
pub open spec fn breakless_up_to(s: Seq<char>, n: nat) -> bool
    decreases n,
{
    n == 0 || (s[n - 1] != '\n' && breakless_up_to(s, (n - 1) as nat))
}

/// Text none of whose characters is a line feed holds none.
pub proof fn breakless_has_no_break(s: Seq<char>)
    requires
        breakless_up_to(s, s.len()),
    ensures
        !s.contains('\n'),
{
    if s.contains('\n') {
        let i = choose|i: int| 0 <= i < s.len() && s[i] == '\n';
        breakless_at(s, s.len(), i);
    }
}

proof fn breakless_at(s: Seq<char>, n: nat, i: int)
    requires
        0 <= i < n,
        breakless_up_to(s, n),
    ensures
        s[i] != '\n',
    decreases n,
{
    if i < n - 1 {
        breakless_at(s, (n - 1) as nat, i);
    }
}

/// Texts without line feeds have none together.
pub proof fn concatenation_has_no_break(a: Seq<char>, b: Seq<char>)
    requires
        !a.contains('\n'),
        !b.contains('\n'),
    ensures
        !(a + b).contains('\n'),
{
    if (a + b).contains('\n') {
        let i = choose|i: int| 0 <= i < (a + b).len() && (a + b)[i] == '\n';
        if i < a.len() {
            assert(a[i] == '\n');
        } else {
            assert(b[i - a.len()] == '\n');
        }
    }
}

proof fn first_break_properties(s: Seq<char>)
    ensures
        first_break(s) <= s.len(),
        first_break(s) < s.len() ==> s[first_break(s) as int] == '\n',
        forall|i: int| 0 <= i < first_break(s) ==> #[trigger] s[i] != '\n',
    decreases s.len(),
{
    if s.len() > 0 && s.first() != '\n' {
        let rest = s.drop_first();
        first_break_properties(rest);
        assert forall|i: int| 0 <= i < first_break(s) implies #[trigger] s[i] != '\n' by {
            if i > 0 {
                assert(rest[i - 1] == s[i]);
            }
        }
        if first_break(s) < s.len() {
            assert(rest[first_break(rest) as int] == s[first_break(s) as int]);
        }
    }
}

proof fn first_break_is(s: Seq<char>, end: int)
    requires
        0 <= end <= s.len(),
        end < s.len() ==> s[end] == '\n',
        forall|i: int| 0 <= i < end ==> #[trigger] s[i] != '\n',
    ensures
        first_break(s) == end,
{
    first_break_properties(s);
    if first_break(s) < end {
        assert(s[first_break(s) as int] != '\n');
    }
    if first_break(s) > end {
        assert(s[end] != '\n');
    }
}

/// Text that ends with a line feed, or no text at all, can be followed by other
/// text: the lines of both are the lines of the one and then of the other.
pub proof fn lines_of_concatenation(a: Seq<char>, b: Seq<char>)
    requires
        a.len() > 0 ==> a.last() == '\n',
    ensures
        lines_of(a + b) == lines_of(a) + lines_of(b),
    decreases a.len(),
{
    if a.len() == 0 {
        assert(a + b == b);
        assert(lines_of(a) + lines_of(b) == lines_of(b));
    } else {
        first_break_properties(a);
        let end = first_break(a) as int;
        if end == a.len() {
            assert(a[a.len() - 1] != '\n');
        }
        assert forall|i: int| 0 <= i < end implies #[trigger] (a + b)[i] != '\n' by {
            assert((a + b)[i] == a[i]);
        }
        first_break_is(a + b, end);
        let rest = a.skip(end + 1);
        assert((a + b).skip(end + 1) == rest + b);
        assert((a + b).take(end) == a.take(end));
        if rest.len() > 0 {
            assert(rest.last() == a.last());
        }
        lines_of_concatenation(rest, b);
        let first = seq![without_return(a.take(end))];
        assert(first + (lines_of(rest) + lines_of(b)) == first + lines_of(rest) + lines_of(b));
    }
}

/// What is written on lines is read back from them.
pub proof fn lines_are_read_back(list: Seq<Seq<char>>)
    requires
        forall|i: int| 0 <= i < list.len() ==> is_line(#[trigger] list[i]),
    ensures
        lines_of(on_lines(list)) == list,
        on_lines(list).len() > 0 ==> on_lines(list).last() == '\n',
    decreases list.len(),
{
    if list.len() > 0 {
        let rest = list.drop_last();
        let line = list.last();
        assert forall|i: int| 0 <= i < rest.len() implies is_line(#[trigger] rest[i]) by {
            assert(rest[i] == list[i]);
        }
        lines_are_read_back(rest);
        let text = line.push('\n');
        lines_of_concatenation(on_lines(rest), text);
        assert(is_line(list[list.len() - 1]));
        assert forall|i: int| 0 <= i < line.len() implies #[trigger] text[i] != '\n' by {
            assert(text[i] == line[i]);
            assert(line.contains(line[i]));
        }
        first_break_is(text, line.len() as int);
        assert(text.take(line.len() as int) == line);
        assert(text.skip(line.len() as int + 1) == Seq::<char>::empty());
        assert(lines_of(text.skip(line.len() as int + 1)) == Seq::<Seq<char>>::empty());
        assert(lines_of(text) == seq![line]);
        assert(rest + seq![line] == list);
    } else {
        assert(lines_of(on_lines(list)) == list);
    }
}

/// No line holds a line feed.
pub proof fn lines_have_no_breaks(s: Seq<char>, i: int)
    requires
        0 <= i < lines_of(s).len(),
    ensures
        !lines_of(s)[i].contains('\n'),
    decreases s.len(),
{
    first_break_properties(s);
    let end = first_break(s) as int;
    if s.len() > 0 && end < s.len() {
        let rest = s.skip(end + 1);
        if i > 0 {
            lines_have_no_breaks(rest, i - 1);
            assert(lines_of(s)[i] == lines_of(rest)[i - 1]);
        } else {
            let line = lines_of(s)[0];
            assert forall|x: int| 0 <= x < line.len() implies #[trigger] line[x] != '\n' by {
                assert(line[x] == s[x]);
            }
        }
    }
}

/// Parts on lines of their own are the parts joined by line feeds, and one more
/// line feed.
pub proof fn on_lines_is_joined(list: Seq<Seq<char>>)
    requires
        list.len() > 0,
    ensures
        on_lines(list) == joined(list, "\n"@) + "\n"@,
    decreases list.len(),
{
    reveal_strlit("\n");
    assert("\n"@ == seq!['\n']);
    let rest = list.drop_last();
    let line = list.last();
    if list.len() > 1 {
        on_lines_is_joined(rest);
        assert(on_lines(list) == joined(list, "\n"@) + "\n"@);
    } else {
        assert(on_lines(rest) == Seq::<char>::empty());
        assert(on_lines(list) == line.push('\n'));
        assert(line.push('\n') == line + "\n"@);
    }
}

/// What is left after trimming neither starts nor ends with white space, and is a
/// part of the text.
pub proof fn trimmed_is_tight(s: Seq<char>)
    ensures
        trimmed(s).len() > 0 ==> !is_space(trimmed(s).first()) && !is_space(trimmed(s).last()),
        exists|from: int, to: int|
            0 <= from <= to <= s.len() && trimmed(s) == #[trigger] s.subrange(from, to),
{
    trimmed_start_is_suffix(s);
    let start = trimmed_start(s);
    trimmed_end_is_prefix(start);
    let from = choose|from: int| 0 <= from <= s.len() && start == s.skip(from);
    let to = choose|to: int| 0 <= to <= start.len() && trimmed_end(start) == start.take(to);
    assert(s.subrange(from, from + to) == trimmed(s));
    if trimmed(s).len() > 0 {
        assert(trimmed(s).first() == start.first());
    }
}

proof fn trimmed_start_is_suffix(s: Seq<char>)
    ensures
        trimmed_start(s).len() > 0 ==> !is_space(trimmed_start(s).first()),
        exists|from: int| 0 <= from <= s.len() && trimmed_start(s) == #[trigger] s.skip(from),
    decreases s.len(),
{
    if s.len() > 0 && is_space(s.first()) {
        let rest = s.drop_first();
        trimmed_start_is_suffix(rest);
        let from = choose|from: int| 0 <= from <= rest.len() && trimmed_start(rest) == rest.skip(
            from,
        );
        assert(s.skip(from + 1) == rest.skip(from));
    } else {
        assert(s.skip(0) == s);
    }
}

proof fn trimmed_end_is_prefix(s: Seq<char>)
    ensures
        trimmed_end(s).len() > 0 ==> !is_space(trimmed_end(s).last()),
        exists|to: int| 0 <= to <= s.len() && trimmed_end(s) == #[trigger] s.take(to),
    decreases s.len(),
{
    if s.len() > 0 && is_space(s.last()) {
        let rest = s.drop_last();
        trimmed_end_is_prefix(rest);
        let to = choose|to: int| 0 <= to <= rest.len() && trimmed_end(rest) == rest.take(to);
        assert(s.take(to) == rest.take(to));
    } else {
        assert(s.take(s.len() as int) == s);
    }
}

/// The characters that count as white space: the code points that have the
/// Unicode property, and no other.
pub proof fn white_space_is(c: char)
    ensures
        is_space(c) <==> seq![
            0x9int, 0xa, 0xb, 0xc, 0xd, 0x20, 0x85, 0xa0, 0x1680, 0x2000, 0x2001, 0x2002, 0x2003,
            0x2004, 0x2005, 0x2006, 0x2007, 0x2008, 0x2009, 0x200a, 0x2028, 0x2029, 0x202f, 0x205f,
            0x3000,
        ].contains(c as int),
{
    let all = seq![
        0x9int, 0xa, 0xb, 0xc, 0xd, 0x20, 0x85, 0xa0, 0x1680, 0x2000, 0x2001, 0x2002, 0x2003,
        0x2004, 0x2005, 0x2006, 0x2007, 0x2008, 0x2009, 0x200a, 0x2028, 0x2029, 0x202f, 0x205f,
        0x3000,
    ];
    let v = c as int;
    if is_space(c) {
        let i = if v <= 0xd {
            v - 9
        } else if v == 0x20 {
            5
        } else if v == 0x85 {
            6
        } else if v == 0xa0 {
            7
        } else if v == 0x1680 {
            8
        } else if v <= 0x200a {
            v - 0x2000 + 9
        } else if v == 0x2028 {
            20
        } else if v == 0x2029 {
            21
        } else if v == 0x202f {
            22
        } else if v == 0x205f {
            23
        } else {
            24
        };
        assert(all[i] == v);
    }
}

/// Trimming takes off the white space around a text and nothing else, however
/// much of it there is.
pub proof fn padding_is_trimmed(before: Seq<char>, body: Seq<char>, after: Seq<char>)
    requires
        forall|i: int| 0 <= i < before.len() ==> is_space(#[trigger] before[i]),
        forall|i: int| 0 <= i < after.len() ==> is_space(#[trigger] after[i]),
        body.len() > 0 ==> !is_space(body.first()) && !is_space(body.last()),
    ensures
        trimmed(before + body + after) == body,
{
    assert(before + body + after == before + (body + after));
    padding_before(before, body + after);
    if body.len() > 0 {
        assert((body + after).first() == body.first());
        padding_after(body, after);
    } else {
        let none = Seq::<char>::empty();
        assert(body + after == after + none);
        padding_before(after, none);
        assert(body == none);
    }
}

proof fn padding_before(before: Seq<char>, s: Seq<char>)
    requires
        forall|i: int| 0 <= i < before.len() ==> is_space(#[trigger] before[i]),
    ensures
        trimmed_start(before + s) == trimmed_start(s),
    decreases before.len(),
{
    if before.len() == 0 {
        assert(before + s == s);
    } else {
        let rest = before.drop_first();
        assert((before + s).first() == before[0]);
        assert((before + s).drop_first() == rest + s);
        assert forall|i: int| 0 <= i < rest.len() implies is_space(#[trigger] rest[i]) by {
            assert(rest[i] == before[i + 1]);
        }
        padding_before(rest, s);
    }
}

proof fn padding_after(s: Seq<char>, after: Seq<char>)
    requires
        forall|i: int| 0 <= i < after.len() ==> is_space(#[trigger] after[i]),
    ensures
        trimmed_end(s + after) == trimmed_end(s),
    decreases after.len(),
{
    if after.len() == 0 {
        assert(s + after == s);
    } else {
        let rest = after.drop_last();
        assert((s + after).last() == after[after.len() - 1]);
        assert((s + after).drop_last() == s + rest);
        assert forall|i: int| 0 <= i < rest.len() implies is_space(#[trigger] rest[i]) by {
            assert(rest[i] == after[i]);
        }
        padding_after(s, rest);
    }
}

/// Text without a line feed is one line, with or without a line feed after it; the
/// line feed does not belong to it, nor does a carriage return right before that.
/// No text has no lines.
pub proof fn a_line_ends_at_its_line_feed(line: Seq<char>)
    requires
        !line.contains('\n'),
    ensures
        lines_of(line.push('\n')) == seq![
            if line.len() > 0 && line.last() == '\r' {
                line.drop_last()
            } else {
                line
            },
        ],
        lines_of(line) == (if line.len() > 0 {
            seq![line]
        } else {
            Seq::<Seq<char>>::empty()
        }),
{
    let ended = line.push('\n');
    assert forall|i: int| 0 <= i < line.len() implies #[trigger] line[i] != '\n' by {
        assert(line.contains(line[i]));
    }
    assert forall|i: int| 0 <= i < line.len() implies #[trigger] ended[i] != '\n' by {
        assert(ended[i] == line[i]);
    }
    first_break_is(line, line.len() as int);
    first_break_is(ended, line.len() as int);
    assert(ended.take(line.len() as int) == line);
    assert(ended.skip(line.len() as int + 1) == Seq::<char>::empty());
    assert(lines_of(Seq::<char>::empty()) == Seq::<Seq<char>>::empty());
    assert(lines_of(ended) == seq![without_return(line)]);
}

/// Joining puts the separator between two parts and nowhere else: nothing is
/// joined to nothing, one part to itself, and two lists one after the other with
/// one separator between what each is joined to.
pub proof fn joining_separates_the_parts(a: Seq<Seq<char>>, b: Seq<Seq<char>>, sep: Seq<char>)
    ensures
        joined(Seq::<Seq<char>>::empty(), sep) == Seq::<char>::empty(),
        a.len() == 1 ==> joined(a, sep) == a[0],
        a.len() > 0 && b.len() > 0 ==> joined(a + b, sep) == joined(a, sep) + sep + joined(b, sep),
    decreases b.len(),
{
    if a.len() > 0 && b.len() > 0 {
        let rest = b.drop_last();
        assert((a + b).drop_last() == a + rest);
        assert((a + b).last() == b.last());
        if rest.len() == 0 {
            assert(a + rest == a);
        } else {
            joining_separates_the_parts(a, rest, sep);
            assert(joined(a, sep) + sep + joined(rest, sep) + sep + b.last() == joined(a, sep) + sep
                + (joined(rest, sep) + sep + b.last()));
        }
    }
}

/// Each line that is written is the line and a line feed, and lists of lines are
/// written one after the other.
pub proof fn lines_are_written_in_turn(a: Seq<Seq<char>>, b: Seq<Seq<char>>)
    ensures
        on_lines(Seq::<Seq<char>>::empty()) == Seq::<char>::empty(),
        a.len() == 1 ==> on_lines(a) == a[0].push('\n'),
        on_lines(a + b) == on_lines(a) + on_lines(b),
    decreases b.len(),
{
    if a.len() == 1 {
        assert(a.drop_last() == Seq::<Seq<char>>::empty());
        assert(on_lines(a.drop_last()) == Seq::<char>::empty());
        assert(on_lines(a) == a[0].push('\n'));
    }
    if b.len() == 0 {
        assert(a + b == a);
        assert(on_lines(a) + on_lines(b) == on_lines(a));
    } else {
        let rest = b.drop_last();
        assert((a + b).drop_last() == a + rest);
        assert((a + b).last() == b.last());
        lines_are_written_in_turn(a, rest);
        assert(on_lines(a) + on_lines(rest) + b.last().push('\n') == on_lines(a) + (on_lines(rest)
            + b.last().push('\n')));
    }
}

/// A number in decimal is digits only, with no zero to start with but for zero
/// itself, and its value is the number.
pub proof fn a_decimal_has_its_value(n: nat)
    ensures
        decimal_of(n).len() > 0,
        forall|i: int| 0 <= i < decimal_of(n).len() ==> '0' <= #[trigger] decimal_of(n)[i] <= '9',
        decimal_of(n).len() > 1 ==> decimal_of(n).first() != '0',
        decimal_of(n).fold_left(0int, |value: int, c: char| 10 * value + (c as int - '0' as int))
            == n,
    decreases n,
{
    let f = |value: int, c: char| 10 * value + (c as int - '0' as int);
    let all = decimal_of(n);
    if n < 10 {
        assert(all.drop_last() == Seq::<char>::empty());
        reveal_with_fuel(Seq::fold_left, 2);
        assert(all.fold_left(0int, f) == n);
    } else {
        a_decimal_has_its_value(n / 10);
        let rest = decimal_of(n / 10);
        assert(all.drop_last() == rest);
        assert(all.first() == rest.first());
        assert forall|i: int| 0 <= i < all.len() implies '0' <= #[trigger] all[i] <= '9' by {
            if i < rest.len() {
                assert(all[i] == rest[i]);
            }
        }
        if rest.len() == 1 {
            assert(rest.first() != '0') by {
                assert(n / 10 > 0);
                reveal_with_fuel(Seq::fold_left, 2);
                assert(rest.drop_last().fold_left(0int, f) == 0);
                assert(rest.fold_left(0int, f) == rest.first() as int - '0' as int);
            }
        }
        assert(all.fold_left(0int, f) == f(rest.fold_left(0int, f), all.last()));
    }
}

/// The characters of strings are those of each string, in turn.
pub proof fn views_are_of_each_string(list: Seq<String>)
    ensures
        views(list).len() == list.len(),
        forall|i: int| 0 <= i < list.len() ==> #[trigger] views(list)[i] == list[i]@,
{
}

} // verus!
