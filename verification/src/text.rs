//! Text as sequences of characters: lines, joining, and searching.
//!
//! A `&str` is viewed as the sequence of its characters. The functions here
//! work on `Vec<char>`, which can be indexed in constant time, and the
//! contracts speak of `Seq<char>`.

use vstd::prelude::*;

verus! {

/// `String::push` appends one character to the string and changes nothing
/// else, as the standard library documents it.
pub assume_specification[ String::push ](s: &mut String, c: char)
    ensures
        final(s)@ == old(s)@.push(c),
;

/// `pattern` stands in `text` at position `at`.
pub open spec fn occurs_at(text: Seq<char>, pattern: Seq<char>, at: int) -> bool {
    &&& 0 <= at
    &&& at + pattern.len() <= text.len()
    &&& text.subrange(at, at + pattern.len()) == pattern
}

/// `pattern` stands somewhere in `text`.
pub open spec fn occurs(text: Seq<char>, pattern: Seq<char>) -> bool {
    exists|at: int| occurs_at(text, pattern, at)
}

/// The number of characters from `from` up to the next line feed, or up to
/// the end of the text where no line feed follows.
pub open spec fn line_len(text: Seq<char>, from: int) -> nat
    decreases text.len() - from,
{
    if from < 0 || from >= text.len() || text[from] == '\n' {
        0
    } else {
        1 + line_len(text, from + 1)
    }
}

/// The line that starts at `from`, without its ending. A line ends with a
/// line feed, or with a carriage return and a line feed; the last line may
/// have no ending at all.
pub open spec fn line_at(text: Seq<char>, from: int) -> Seq<char> {
    let end = from + line_len(text, from);
    if end < text.len() && from < end && text[end - 1] == '\r' {
        text.subrange(from, end - 1)
    } else {
        text.subrange(from, end)
    }
}

/// The lines of `text` from position `from` on, where `from` is the start
/// of a line.
pub open spec fn lines_from(text: Seq<char>, from: int) -> Seq<Seq<char>>
    decreases text.len() - from,
{
    if from < 0 || from >= text.len() {
        Seq::empty()
    } else {
        let end = from + line_len(text, from);
        let rest = if end < text.len() {
            lines_from(text, end + 1)
        } else {
            Seq::empty()
        };
        seq![line_at(text, from)] + rest
    }
}

/// The lines of `text`. An empty text has no line; a line feed at the very
/// end starts no further line.
pub open spec fn lines(text: Seq<char>) -> Seq<Seq<char>> {
    lines_from(text, 0)
}

/// The parts one after the other, with a line feed between each two.
pub open spec fn join_lines(parts: Seq<Seq<char>>) -> Seq<char>
    decreases parts.len(),
{
    if parts.len() == 0 {
        Seq::empty()
    } else if parts.len() == 1 {
        parts[0]
    } else {
        join_lines(parts.drop_last()).push('\n') + parts.last()
    }
}

/// What each of the vectors holds.
pub open spec fn views(items: Seq<Vec<char>>) -> Seq<Seq<char>> {
    Seq::new(items.len(), |i: int| items[i]@)
}

/// From `from` on, a line runs to the next line feed or to the end of the
/// text, and holds no line feed itself.
pub proof fn lemma_line_len(text: Seq<char>, from: int)
    requires
        0 <= from <= text.len(),
    ensures
        from + line_len(text, from) <= text.len(),
        forall|k: int| from <= k < from + line_len(text, from) ==> text[k] != '\n',
        from + line_len(text, from) < text.len() ==> text[from + line_len(text, from)] == '\n',
    decreases text.len() - from,
{
    if from < text.len() && text[from] != '\n' {
        lemma_line_len(text, from + 1);
    }
}

/// Where part `k` begins in the joined parts: after the parts before it
/// and a line feed for each of them.
pub open spec fn part_start(parts: Seq<Seq<char>>, k: int) -> int
    decreases k,
{
    if k <= 0 {
        0
    } else {
        part_start(parts, k - 1) + parts[k - 1].len() + 1
    }
}

/// The text has no line feed in it.
pub open spec fn one_line(text: Seq<char>) -> bool {
    forall|i: int| 0 <= i < text.len() ==> text[i] != '\n'
}

/// The text has no line feed and no carriage return in it.
pub open spec fn plain(text: Seq<char>) -> bool {
    forall|i: int| 0 <= i < text.len() ==> text[i] != '\n' && text[i] != '\r'
}

proof fn lemma_part_start_front(parts: Seq<Seq<char>>, k: int)
    requires
        0 <= k < parts.len(),
    ensures
        part_start(parts.drop_last(), k) == part_start(parts, k),
    decreases k,
{
    if k > 0 {
        lemma_part_start_front(parts, k - 1);
        assert(parts.drop_last()[k - 1] == parts[k - 1]);
    }
}

/// The joined parts are as long as the parts together, and a line feed
/// between each two.
pub proof fn lemma_join_len(parts: Seq<Seq<char>>)
    requires
        parts.len() > 0,
    ensures
        join_lines(parts).len() + 1 == part_start(parts, parts.len() as int),
    decreases parts.len(),
{
    assert(part_start(parts, 0) == 0);
    if parts.len() > 1 {
        lemma_join_len(parts.drop_last());
        lemma_part_start_front(parts, parts.len() - 1);
    }
}

/// Each part stands in the joined parts as it is, where `part_start` says,
/// and after every part but the last stands a line feed.
pub proof fn lemma_part_in_join(parts: Seq<Seq<char>>, k: int)
    requires
        0 <= k < parts.len(),
    ensures
        occurs_at(join_lines(parts), parts[k], part_start(parts, k)),
        k + 1 < parts.len() ==> part_start(parts, k) + parts[k].len() < join_lines(parts).len()
            && join_lines(parts)[part_start(parts, k) + parts[k].len()] == '\n',
        k + 1 == parts.len() ==> part_start(parts, k) + parts[k].len() == join_lines(parts).len(),
    decreases parts.len(),
{
    let n = parts.len() as int;
    let start = part_start(parts, k);
    if n == 1 {
        assert(join_lines(parts).subrange(0, parts[0].len() as int) =~= parts[0]);
    } else {
        let front = parts.drop_last();
        let joined = join_lines(front);
        lemma_join_len(front);
        lemma_part_start_front(parts, n - 1);
        if k < n - 1 {
            lemma_part_in_join(front, k);
            lemma_part_start_front(parts, k);
            assert(front[k] == parts[k]);
            assert(join_lines(parts).subrange(start, start + parts[k].len()) =~= joined.subrange(
                start,
                start + parts[k].len(),
            ));
            if k + 1 < n - 1 {
                assert(join_lines(parts)[start + parts[k].len()] == joined[start + parts[k].len()]);
            }
        } else {
            assert(join_lines(parts).subrange(start, start + parts[k].len()) =~= parts[k]);
        }
    }
}

/// What stands in a part of a text stands in the text.
pub proof fn lemma_occurs_within(
    text: Seq<char>,
    part: Seq<char>,
    at: int,
    pattern: Seq<char>,
    within: int,
)
    requires
        occurs_at(text, part, at),
        occurs_at(part, pattern, within),
    ensures
        occurs_at(text, pattern, at + within),
{
    assert(text.subrange(at + within, at + within + pattern.len()) =~= text.subrange(
        at,
        at + part.len(),
    ).subrange(within, within + pattern.len()));
}

/// A pattern without a line feed that stands in the joined parts stands in
/// one of the parts, as far from the start of that part as it stands from
/// where the part begins: it cannot reach across the line feed between two.
pub proof fn lemma_occurs_in_part(parts: Seq<Seq<char>>, pattern: Seq<char>, at: int) -> (k: int)
    requires
        pattern.len() > 0,
        one_line(pattern),
        occurs_at(join_lines(parts), pattern, at),
    ensures
        0 <= k < parts.len(),
        occurs_at(parts[k], pattern, at - part_start(parts, k)),
    decreases parts.len(),
{
    let n = parts.len() as int;
    let m = pattern.len() as int;
    if n <= 1 {
        assert(part_start(parts, 0) == 0);
        assert(occurs_at(parts[0], pattern, at));
        0
    } else {
        let front = parts.drop_last();
        let joined = join_lines(front);
        let whole = join_lines(parts);
        let cut = joined.len() as int;
        lemma_join_len(front);
        lemma_part_start_front(parts, n - 1);
        if at + m <= cut {
            assert(joined.subrange(at, at + m) =~= whole.subrange(at, at + m));
            let k = lemma_occurs_in_part(front, pattern, at);
            lemma_part_start_front(parts, k);
            assert(front[k] == parts[k]);
            k
        } else if at > cut {
            assert(parts.last().subrange(at - cut - 1, at - cut - 1 + m) =~= whole.subrange(
                at,
                at + m,
            ));
            assert(occurs_at(parts[n - 1], pattern, at - cut - 1));
            n - 1
        } else {
            assert(whole.subrange(at, at + m)[cut - at] == whole[cut]);
            assert(pattern[cut - at] != '\n');
            0
        }
    }
}

/// A text that is not empty has a first line.
pub proof fn lemma_first_line(text: Seq<char>)
    requires
        text.len() > 0,
    ensures
        lines(text).len() > 0,
        lines(text)[0] == line_at(text, 0),
        one_line(lines(text)[0]),
        occurs_at(text, lines(text)[0], 0),
{
    lemma_line_len(text, 0);
    assert(text.subrange(0, line_at(text, 0).len() as int) =~= line_at(text, 0));
}

/// Where line `i` of the lines from `from` on begins.
pub open spec fn line_start(text: Seq<char>, from: int, i: int) -> int
    decreases i,
{
    if i <= 0 {
        from
    } else {
        line_start(text, from + line_len(text, from) + 1, i - 1)
    }
}

/// Each line of a text stands in the text as it is, where `line_start`
/// says.
pub proof fn lemma_line_in_text(text: Seq<char>, from: int, i: int) -> (at: int)
    requires
        0 <= from <= text.len(),
        0 <= i < lines_from(text, from).len(),
    ensures
        from <= at,
        at == line_start(text, from, i),
        occurs_at(text, lines_from(text, from)[i], at),
    decreases i,
{
    lemma_line_len(text, from);
    let end = from + line_len(text, from);
    if i == 0 {
        assert(text.subrange(from, from + line_at(text, from).len()) =~= line_at(text, from));
        from
    } else {
        lemma_line_in_text(text, end + 1, i - 1)
    }
}

/// The lines of a text stand one after the other: a later line begins
/// behind the end of an earlier one.
pub proof fn lemma_lines_apart(text: Seq<char>, from: int, i: int, j: int)
    requires
        0 <= from <= text.len(),
        0 <= i < j < lines_from(text, from).len(),
    ensures
        line_start(text, from, i) + lines_from(text, from)[i].len() < line_start(text, from, j),
    decreases i,
{
    lemma_line_len(text, from);
    let end = from + line_len(text, from);
    if i == 0 {
        lemma_line_in_text(text, end + 1, j - 1);
    } else {
        lemma_lines_apart(text, end + 1, i - 1, j - 1);
    }
}

/// A pattern without line feed and carriage return that stands in a text
/// stands in one of its lines.
pub proof fn lemma_pattern_in_line(
    text: Seq<char>,
    from: int,
    pattern: Seq<char>,
    at: int,
) -> (i: int)
    requires
        0 <= from <= at,
        pattern.len() > 0,
        plain(pattern),
        occurs_at(text, pattern, at),
    ensures
        0 <= i < lines_from(text, from).len(),
        occurs(lines_from(text, from)[i], pattern),
    decreases text.len() - from,
{
    lemma_line_len(text, from);
    let end = from + line_len(text, from);
    let m = pattern.len() as int;
    let found = text.subrange(at, at + m);
    if at < end {
        if at + m > end {
            assert(found[end - at] == text[end]);
            assert(pattern[end - at] != '\n');
        }
        let line = line_at(text, from);
        if end < text.len() && from < end && text[end - 1] == '\r' {
            if at + m > end - 1 {
                assert(found[end - 1 - at] == text[end - 1]);
                assert(pattern[end - 1 - at] != '\r');
            }
        }
        assert(line.subrange(at - from, at - from + m) =~= found);
        assert(occurs_at(line, pattern, at - from));
        0
    } else {
        assert(found[0] == text[at]);
        assert(pattern[0] != '\n');
        let i = lemma_pattern_in_line(text, end + 1, pattern, at);
        i + 1
    }
}

/// The lines from `from` on, each with a line feed before it: what joining
/// adds for them behind the parts that come first.
pub open spec fn rejoined(text: Seq<char>, from: int) -> Seq<char>
    decreases text.len() - from,
{
    if from < 0 || from >= text.len() {
        Seq::empty()
    } else {
        let end = from + line_len(text, from);
        let rest = if end < text.len() {
            rejoined(text, end + 1)
        } else {
            Seq::empty()
        };
        seq!['\n'] + line_at(text, from) + rest
    }
}

/// A pattern that can stand across lines and is found again when those
/// lines are split and joined: it begins with a line feed, does not end
/// with one, and holds no carriage return.
pub open spec fn spans_lines(pattern: Seq<char>) -> bool {
    &&& pattern.len() >= 2
    &&& pattern[0] == '\n'
    &&& pattern.last() != '\n'
    &&& forall|i: int| 0 <= i < pattern.len() ==> pattern[i] != '\r'
}

/// Joining the lines of a text behind other parts puts each of them behind
/// a line feed.
pub proof fn lemma_join_rejoined(head: Seq<Seq<char>>, text: Seq<char>, from: int)
    requires
        head.len() > 0,
        0 <= from,
    ensures
        join_lines(head + lines_from(text, from)) == join_lines(head) + rejoined(text, from),
    decreases text.len() - from,
{
    if from >= text.len() {
        assert(head + lines_from(text, from) =~= head);
        assert(join_lines(head) + rejoined(text, from) =~= join_lines(head));
    } else {
        lemma_line_len(text, from);
        let end = from + line_len(text, from);
        let line = line_at(text, from);
        let longer = head.push(line);
        assert(longer.drop_last() =~= head);
        assert(join_lines(longer) == join_lines(head).push('\n') + line);
        if end < text.len() {
            lemma_join_rejoined(longer, text, end + 1);
            assert(head + lines_from(text, from) =~= longer + lines_from(text, end + 1));
            assert(join_lines(head) + rejoined(text, from) =~= join_lines(longer) + rejoined(
                text,
                end + 1,
            ));
        } else {
            assert(head + lines_from(text, from) =~= longer);
            assert(join_lines(head) + rejoined(text, from) =~= join_lines(longer));
        }
    }
}

/// A pattern that spans lines and stands in a text from the line feed
/// before a line on, stands at the start of what that line and those behind
/// it are joined to.
pub proof fn lemma_rejoined_begins(text: Seq<char>, from: int, pattern: Seq<char>)
    requires
        1 <= from,
        spans_lines(pattern),
        occurs_at(text, pattern, from - 1),
    ensures
        occurs_at(rejoined(text, from), pattern, 0),
    decreases text.len() - from,
{
    let m = pattern.len() as int;
    let found = text.subrange(from - 1, from - 1 + m);
    assert forall|i: int| 0 <= i < m implies text[from - 1 + i] == pattern[i] by {
        assert(found[i] == text[from - 1 + i]);
    }
    lemma_line_len(text, from);
    let end = from + line_len(text, from);
    let line = line_at(text, from);
    let joined = rejoined(text, from);
    if from - 1 + m <= end {
        if end < text.len() && from < end && text[end - 1] == '\r' {
            if from - 1 + m == end {
                assert(pattern[m - 1] == text[end - 1]);
            }
        }
        assert(joined.subrange(0, m) =~= pattern);
    } else {
        assert(pattern[end - from + 1] == text[end]);
        if from < end {
            assert(pattern[end - from] == text[end - 1]);
        }
        assert(line =~= text.subrange(from, end));
        let rest = pattern.subrange(end - from + 1, m);
        assert(rest.last() == pattern.last());
        assert(text.subrange(end, end + rest.len()) =~= rest);
        lemma_rejoined_begins(text, end + 1, rest);
        let behind = rejoined(text, end + 1);
        assert(behind.subrange(0, rest.len() as int) == rest);
        assert forall|i: int| 0 <= i < m implies joined[i] == pattern[i] by {
            if i > end - from {
                assert(behind.subrange(0, rest.len() as int)[i - (end - from + 1)] == behind[i - (
                end - from + 1)]);
            }
        }
        assert(joined.subrange(0, m) =~= pattern);
    }
}

/// A pattern that spans lines and stands in a text, at the line feed before
/// the line at `from` or behind it, stands in what that line and those
/// behind it are joined to.
pub proof fn lemma_rejoined_keeps(text: Seq<char>, from: int, pattern: Seq<char>, at: int)
    requires
        1 <= from,
        from - 1 <= at,
        spans_lines(pattern),
        occurs_at(text, pattern, at),
    ensures
        occurs(rejoined(text, from), pattern),
    decreases text.len() - from,
{
    if at == from - 1 {
        lemma_rejoined_begins(text, from, pattern);
    } else {
        let m = pattern.len() as int;
        assert(text.subrange(at, at + m)[0] == text[at]);
        lemma_line_len(text, from);
        let end = from + line_len(text, from);
        lemma_rejoined_keeps(text, end + 1, pattern, at);
        let behind = rejoined(text, end + 1);
        let within = choose|within: int| occurs_at(behind, pattern, within);
        let joined = rejoined(text, from);
        let shift = 1 + line_at(text, from).len();
        assert(joined.subrange(shift + within, shift + within + m) =~= behind.subrange(
            within,
            within + m,
        ));
        assert(occurs_at(joined, pattern, shift + within));
    }
}

/// The characters of `s`, in order.
pub fn chars_of(s: &str) -> (v: Vec<char>)
    ensures
        v@ == s@,
{
    let mut v: Vec<char> = Vec::new();
    for c in it: s.chars()
        invariant
            it.seq() == s@,
            v@ == it.seq().take(it.index() as int),
    {
        v.push(c);
        assert(it.seq().take(it.index() + 1) == it.seq().take(it.index() as int).push(c));
    }
    assert(s@.take(s@.len() as int) == s@);
    v
}

/// A string of the characters of `v`, in order.
pub fn string_of(v: &Vec<char>) -> (s: String)
    ensures
        s@ == v@,
{
    let mut s = String::new();
    let mut i: usize = 0;
    while i < v.len()
        invariant
            i <= v.len(),
            s@ == v@.take(i as int),
        decreases v.len() - i,
    {
        s.push(v[i]);
        i = i + 1;
        assert(v@.take(i as int) == v@.take(i as int - 1).push(v@[i as int - 1]));
    }
    assert(v@.take(v.len() as int) == v@);
    s
}

/// Appends the characters of `src` from `from` up to `to` to `out`.
pub fn push_range(out: &mut Vec<char>, src: &Vec<char>, from: usize, to: usize)
    requires
        from <= to <= src.len(),
    ensures
        final(out)@ == old(out)@ + src@.subrange(from as int, to as int),
{
    let mut i: usize = from;
    while i < to
        invariant
            from <= i <= to <= src.len(),
            out@ == old(out)@ + src@.subrange(from as int, i as int),
        decreases to - i,
    {
        out.push(src[i]);
        i = i + 1;
    }
}

/// Whether `pattern` stands in `text` at position `at`.
pub fn matches_at(text: &Vec<char>, pattern: &Vec<char>, at: usize) -> (found: bool)
    requires
        at + pattern.len() <= text.len(),
    ensures
        found == occurs_at(text@, pattern@, at as int),
{
    let mut i: usize = 0;
    while i < pattern.len()
        invariant
            i <= pattern.len(),
            at + pattern.len() <= text.len(),
            forall|k: int| 0 <= k < i ==> text@[at + k] == pattern@[k],
        decreases pattern.len() - i,
    {
        if text[at + i] != pattern[i] {
            assert(text@.subrange(at as int, at + pattern.len())[i as int] != pattern@[i as int]);
            return false;
        }
        i = i + 1;
    }
    assert(text@.subrange(at as int, at + pattern.len()) =~= pattern@);
    true
}

/// Whether `pattern` stands somewhere in `text`. The empty pattern stands
/// in every text.
pub fn contains(text: &Vec<char>, pattern: &Vec<char>) -> (found: bool)
    ensures
        found == occurs(text@, pattern@),
{
    if pattern.len() > text.len() {
        return false;
    }
    let last: usize = text.len() - pattern.len();
    let mut at: usize = 0;
    loop
        invariant
            at <= last,
            last == text.len() - pattern.len(),
            forall|k: int| 0 <= k < at ==> !occurs_at(text@, pattern@, k),
        decreases last - at,
    {
        if matches_at(text, pattern, at) {
            return true;
        }
        if at == last {
            return false;
        }
        at = at + 1;
    }
}

/// The position of the first line feed at or after `from`, or the length of
/// the text where there is none.
pub fn line_end(text: &Vec<char>, from: usize) -> (end: usize)
    requires
        from <= text.len(),
    ensures
        end == from + line_len(text@, from as int),
        from <= end <= text.len(),
{
    let mut end: usize = from;
    while end < text.len() && text[end] != '\n'
        invariant
            from <= end <= text.len(),
            line_len(text@, from as int) == end - from + line_len(text@, end as int),
        decreases text.len() - end,
    {
        end = end + 1;
    }
    end
}

/// The lines of `text`, as `lines` defines them.
pub fn split_lines(text: &Vec<char>) -> (result: Vec<Vec<char>>)
    ensures
        views(result@) == lines(text@),
{
    let mut result: Vec<Vec<char>> = Vec::new();
    let mut start: usize = 0;
    while start < text.len()
        invariant
            start <= text.len(),
            lines(text@) == views(result@) + lines_from(text@, start as int),
        decreases text.len() - start,
    {
        let end = line_end(text, start);
        let stop = if end < text.len() && start < end && text[end - 1] == '\r' {
            end - 1
        } else {
            end
        };
        let mut line: Vec<char> = Vec::new();
        push_range(&mut line, text, start, stop);
        assert(line@ == line_at(text@, start as int));
        let ghost before = views(result@);
        result.push(line);
        assert(views(result@) == before + seq![line_at(text@, start as int)]);
        if end < text.len() {
            start = end + 1;
        } else {
            start = end;
        }
    }
    result
}

} // verus!
