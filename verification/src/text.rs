//! Characters and text: white space, lines, numbers and hexadecimal digits.

use vstd::prelude::*;

verus! {

/// The characters that Unicode gives the property `White_Space`.
pub open spec fn is_white_space(c: char) -> bool {
    let u = c as u32;
    ||| 0x09 <= u <= 0x0d
    ||| u == 0x20
    ||| u == 0x85
    ||| u == 0xa0
    ||| u == 0x1680
    ||| 0x2000 <= u <= 0x200a
    ||| u == 0x2028
    ||| u == 0x2029
    ||| u == 0x202f
    ||| u == 0x205f
    ||| u == 0x3000
}

/// `s` without the white space that it starts with.
pub open spec fn trim_start(s: Seq<char>) -> Seq<char>
    decreases s.len(),
{
    if s.len() > 0 && is_white_space(s.first()) {
        trim_start(s.drop_first())
    } else {
        s
    }
}

/// `s` without the white space that it ends with.
pub open spec fn trim_end(s: Seq<char>) -> Seq<char>
    decreases s.len(),
{
    if s.len() > 0 && is_white_space(s.last()) {
        trim_end(s.drop_last())
    } else {
        s
    }
}

/// `s` without the white space at its two ends.
pub open spec fn trimmed(s: Seq<char>) -> Seq<char> {
    trim_end(trim_start(s))
}

/// Nothing is left of `s` once it is trimmed.
pub open spec fn blank(s: Seq<char>) -> bool {
    trimmed(s).len() == 0
}

proof fn lemma_trim_start(s: Seq<char>)
    ensures
        trim_start(s).len() <= s.len(),
        trim_start(s) == s.skip(s.len() - trim_start(s).len()),
        trim_start(s).len() > 0 ==> !is_white_space(trim_start(s).first()),
        forall|i: int|
            0 <= i < s.len() - trim_start(s).len() ==> is_white_space(#[trigger] s[i]),
    decreases s.len(),
{
    if s.len() > 0 && is_white_space(s.first()) {
        let rest = s.drop_first();
        lemma_trim_start(rest);
        let n = s.len() - trim_start(s).len();
        assert(rest.skip(n - 1) =~= s.skip(n));
        assert forall|i: int| 0 <= i < n implies is_white_space(#[trigger] s[i]) by {
            if i > 0 {
                assert(rest[i - 1] == s[i]);
            }
        }
    } else {
        assert(s.skip(0) =~= s);
    }
}

proof fn lemma_trim_end(s: Seq<char>)
    ensures
        trim_end(s).len() <= s.len(),
        trim_end(s) == s.take(trim_end(s).len() as int),
        trim_end(s).len() > 0 ==> !is_white_space(trim_end(s).last()),
        forall|i: int| trim_end(s).len() <= i < s.len() ==> is_white_space(#[trigger] s[i]),
    decreases s.len(),
{
    if s.len() > 0 && is_white_space(s.last()) {
        let rest = s.drop_last();
        lemma_trim_end(rest);
        let n = trim_end(s).len() as int;
        assert(rest.take(n) =~= s.take(n));
        assert forall|i: int| n <= i < s.len() implies is_white_space(#[trigger] s[i]) by {
            if i < s.len() - 1 {
                assert(rest[i] == s[i]);
            }
        }
    } else {
        assert(s.take(s.len() as int) =~= s);
    }
}

/// A trimmed text is a contiguous part of the text, it neither starts nor ends
/// with white space, and everything cut off is white space.
pub proof fn law_trimmed(s: Seq<char>) -> (cut: (int, int))
    ensures
        0 <= cut.0 <= cut.1 <= s.len(),
        trimmed(s) == s.subrange(cut.0, cut.1),
        forall|i: int| 0 <= i < cut.0 ==> is_white_space(#[trigger] s[i]),
        forall|i: int| cut.1 <= i < s.len() ==> is_white_space(#[trigger] s[i]),
        trimmed(s).len() > 0 ==> !is_white_space(trimmed(s).first()),
        trimmed(s).len() > 0 ==> !is_white_space(trimmed(s).last()),
{
    let t = trim_start(s);
    lemma_trim_start(s);
    lemma_trim_end(t);
    let from = s.len() - t.len();
    let to = from + trim_end(t).len();
    assert(trimmed(s) =~= s.subrange(from, to));
    assert forall|i: int| to <= i < s.len() implies is_white_space(#[trigger] s[i]) by {
        assert(t[i - from] == s[i]);
    }
    (from, to)
}

/// There is a character in `s` that is not white space.
pub open spec fn has_text(s: Seq<char>) -> bool {
    exists|i: int| 0 <= i < s.len() && !is_white_space(#[trigger] s[i])
}

/// A text is blank exactly if every character of it is white space.
pub proof fn law_blank_iff_all_white_space(s: Seq<char>)
    ensures
        blank(s) <==> forall|i: int| 0 <= i < s.len() ==> is_white_space(#[trigger] s[i]),
        blank(s) <==> !has_text(s),
{
    let cut = law_trimmed(s);
    if forall|i: int| 0 <= i < s.len() ==> is_white_space(#[trigger] s[i]) {
        if trimmed(s).len() > 0 {
            assert(trimmed(s).first() == s[cut.0]);
        }
    }
    if blank(s) {
        assert(cut.0 == cut.1);
    }
}

/// Whether a text holds nothing but white space.
pub fn is_blank(s: &str) -> (res: bool)
    ensures
        res == blank(s@),
        res <==> forall|i: int| 0 <= i < s@.len() ==> is_white_space(#[trigger] s@[i]),
{
    proof {
        law_blank_iff_all_white_space(s@);
    }
    s.trim().is_empty()
}

/// The characters of a text, in order.
pub fn characters(s: &str) -> (res: Vec<char>)
    ensures
        res@ == s@,
{
    let mut res: Vec<char> = Vec::new();
    for c in iter: s.chars()
        invariant
            iter.seq() == s@,
            res@ == s@.take(iter.index()),
    {
        res.push(c);
        assert(s@.take(iter.index() + 1) =~= s@.take(iter.index()).push(s@[iter.index()]));
    }
    assert(s@.take(s@.len() as int) =~= s@);
    res
}

/// Joins two texts.
pub fn joined(head: &str, tail: &str) -> (res: String)
    ensures
        res@ == head@ + tail@,
{
    let mut res: String = head.to_owned();
    res.append(tail);
    res
}

/// How many characters come before the first line feed of `s`, or before its end.
pub open spec fn line_length(s: Seq<char>) -> nat
    decreases s.len(),
{
    if s.len() == 0 || s.first() == '\n' {
        0
    } else {
        1 + line_length(s.drop_first())
    }
}

/// `s` without the carriage return that it ends with, if it ends with one.
pub open spec fn without_carriage_return(s: Seq<char>) -> Seq<char> {
    if s.len() > 0 && s.last() == '\r' {
        s.drop_last()
    } else {
        s
    }
}

/// The lines of a text. A line ends at a line feed, which may follow a carriage
/// return; neither belongs to the line. The last line needs no ending.
pub open spec fn lines(s: Seq<char>) -> Seq<Seq<char>>
    decreases s.len(),
{
    let n = line_length(s) as int;
    if s.len() == 0 {
        Seq::empty()
    } else if n >= s.len() {
        seq![s]
    } else {
        seq![without_carriage_return(s.take(n))] + lines(s.skip(n + 1))
    }
}

/// The first of the lines that is not blank, trimmed.
pub open spec fn first_non_blank(lines: Seq<Seq<char>>) -> Option<Seq<char>>
    decreases lines.len(),
{
    if lines.len() == 0 {
        None
    } else if blank(lines.first()) {
        first_non_blank(lines.drop_first())
    } else {
        Some(trimmed(lines.first()))
    }
}

proof fn lemma_line_length(s: Seq<char>, n: int)
    requires
        0 <= n <= s.len(),
        forall|i: int| 0 <= i < n ==> #[trigger] s[i] != '\n',
        n < s.len() ==> s[n] == '\n',
    ensures
        line_length(s) == n,
    decreases n,
{
    if n > 0 {
        let rest = s.drop_first();
        assert forall|i: int| 0 <= i < n - 1 implies #[trigger] rest[i] != '\n' by {
            assert(s[i + 1] != '\n');
        }
        assert(s[0] != '\n');
        lemma_line_length(rest, n - 1);
    }
}

/// `line` stands in `s` at `from`. It is what the line that it stands in holds between
/// its first and its last character that is not white space, and all that comes before
/// it in `s` is white space.
pub open spec fn shows_at(s: Seq<char>, line: Seq<char>, from: int) -> bool {
    let to = from + line.len();
    &&& 0 <= from < to <= s.len()
    &&& line == s.subrange(from, to)
    &&& forall|i: int| 0 <= i < from ==> is_white_space(#[trigger] s[i])
    &&& !is_white_space(s[from])
    &&& !is_white_space(s[to - 1])
    &&& forall|i: int| from <= i < to ==> #[trigger] s[i] != '\n'
    &&& forall|i: int|
        to <= i < s.len() && !s.subrange(to, i).contains('\n') ==> is_white_space(#[trigger] s[i])
}

/// `line` is what `s` shows first; nothing is shown if `s` is all white space.
pub open spec fn shows_first(s: Seq<char>, line: Option<Seq<char>>) -> bool {
    match line {
        Some(line) => exists|from: int| #[trigger] shows_at(s, line, from),
        None => forall|i: int| 0 <= i < s.len() ==> is_white_space(#[trigger] s[i]),
    }
}

/// The first line of a text that is not blank, trimmed.
pub fn first_non_blank_line(text: &str) -> (res: Option<String>)
    ensures
        res matches Some(line) ==> first_non_blank(lines(text@)) == Some(line@),
        res is None ==> first_non_blank(lines(text@)) is None,
        res matches Some(line) ==> shows_first(text@, Some(line@)),
        res is None ==> shows_first(text@, None),
{
    let chars: Vec<char> = characters(text);
    let mut start: usize = 0;
    assert(text@.skip(0) =~= text@);
    while start < chars.len()
        invariant
            chars@ == text@,
            start <= chars.len(),
            first_non_blank(lines(text@)) == first_non_blank(lines(text@.skip(start as int))),
        decreases chars.len() - start,
    {
        let mut stop: usize = start;
        while stop < chars.len() && chars[stop] != '\n'
            invariant
                start <= stop <= chars.len(),
                forall|i: int| start <= i < stop ==> #[trigger] chars@[i] != '\n',
            decreases chars.len() - stop,
        {
            stop = stop + 1;
        }
        let ghost rest = text@.skip(start as int);
        proof {
            assert forall|i: int| 0 <= i < stop - start implies #[trigger] rest[i] != '\n' by {
                assert(chars@[start + i] != '\n');
            }
            lemma_line_length(rest, stop - start);
            assert(rest.take(stop - start) =~= text@.subrange(start as int, stop as int));
        }
        let mut end: usize = stop;
        if stop < chars.len() && stop > start && chars[stop - 1] == '\r' {
            end = stop - 1;
        }
        let line: &str = text.substring_char(start, end).trim();
        proof {
            let all = lines(rest);
            let raw = text@.subrange(start as int, end as int);
            assert(raw =~= all.first()) by {
                if stop >= chars.len() {
                    assert(rest =~= raw);
                }
            }
            if stop < chars.len() {
                assert(rest.skip(stop - start + 1) =~= text@.skip(stop + 1));
                assert(all.drop_first() =~= lines(text@.skip(stop + 1)));
            } else {
                assert(all.drop_first() =~= lines(text@.skip(text@.len() as int)));
            }
        }
        if !line.is_empty() {
            proof {
                let _ = law_first_text(text@);
            }
            return Some(line.to_owned());
        }
        start = if stop < chars.len() { stop + 1 } else { stop };
    }
    proof {
        let _ = law_first_text(text@);
    }
    None
}

/// The first line that is not blank is part of one line: it holds no line feed. It
/// is not empty, and it neither starts nor ends with white space.
pub proof fn law_first_non_blank_line(s: Seq<char>)
    ensures
        first_non_blank(lines(s)) matches Some(line) ==> {
            &&& line.len() > 0
            &&& !line.contains('\n')
            &&& !is_white_space(line.first())
            &&& !is_white_space(line.last())
        },
    decreases s.len(),
{
    let n = line_length(s) as int;
    if s.len() > 0 {
        lemma_line_holds_no_feed(s);
        let all = lines(s);
        let first = all.first();
        assert(!first.contains('\n')) by {
            if first.contains('\n') {
                let i = choose|i: int| 0 <= i < first.len() && first[i] == '\n';
                assert(s[i] == '\n');
            }
        }
        let cut = law_trimmed(first);
        assert(!trimmed(first).contains('\n')) by {
            if trimmed(first).contains('\n') {
                let i = choose|i: int| 0 <= i < trimmed(first).len() && trimmed(first)[i] == '\n';
                assert(first[cut.0 + i] == '\n');
            }
        }
        if n < s.len() {
            law_first_non_blank_line(s.skip(n + 1));
            assert(all.drop_first() =~= lines(s.skip(n + 1)));
        } else {
            assert(all.drop_first() =~= Seq::empty());
            assert(first_non_blank(all.drop_first()) is None);
        }
    }
}

/// Of the lines of a text the first one that is not all white space is given, and
/// nothing but white space is cut off at its two ends; none is given if all lines are
/// white space. `k` is the place of the line, and `cut` is where the two cuts are.
pub proof fn law_first_non_blank(lines: Seq<Seq<char>>) -> (found: (int, (int, int)))
    ensures
        ({
            let k = found.0;
            let cut = found.1;
            match first_non_blank(lines) {
                Some(line) => {
                    &&& 0 <= k < lines.len()
                    &&& forall|j: int| 0 <= j < k ==> !has_text(#[trigger] lines[j])
                    &&& 0 <= cut.0 < cut.1 <= lines[k].len()
                    &&& line == lines[k].subrange(cut.0, cut.1)
                    &&& forall|i: int| 0 <= i < cut.0 ==> is_white_space(#[trigger] lines[k][i])
                    &&& forall|i: int|
                        cut.1 <= i < lines[k].len() ==> is_white_space(#[trigger] lines[k][i])
                    &&& !is_white_space(line.first())
                    &&& !is_white_space(line.last())
                },
                None => forall|j: int| 0 <= j < lines.len() ==> !has_text(#[trigger] lines[j]),
            }
        }),
    decreases lines.len(),
{
    if lines.len() == 0 {
        (0, (0, 0))
    } else {
        let first = lines.first();
        law_blank_iff_all_white_space(first);
        let cut = law_trimmed(first);
        if blank(first) {
            let rest = lines.drop_first();
            let found = law_first_non_blank(rest);
            assert forall|j: int| 0 < j < lines.len() implies #[trigger] lines[j]
                == rest[j - 1] by {}
            (found.0 + 1, found.1)
        } else {
            (0, cut)
        }
    }
}

/// What is given of a text stands in it as it is given. Everything before it is white
/// space, and so is everything behind it up to the end of its line; it holds no line
/// feed, and neither starts nor ends with white space. Nothing is given exactly if the
/// text is all white space. The result is where it starts.
pub proof fn law_first_text(s: Seq<char>) -> (from: int)
    ensures
        match first_non_blank(lines(s)) {
            Some(line) => {
                let to = from + line.len();
                &&& 0 <= from < to <= s.len()
                &&& line == s.subrange(from, to)
                &&& forall|i: int| 0 <= i < from ==> is_white_space(#[trigger] s[i])
                &&& !is_white_space(s[from])
                &&& !is_white_space(s[to - 1])
                &&& forall|i: int| from <= i < to ==> #[trigger] s[i] != '\n'
                &&& forall|i: int|
                    to <= i < s.len() && !s.subrange(to, i).contains('\n') ==> is_white_space(
                        #[trigger] s[i],
                    )
            },
            None => forall|i: int| 0 <= i < s.len() ==> is_white_space(#[trigger] s[i]),
        },
        shows_first(s, first_non_blank(lines(s))),
{
    let from = lemma_shown(s);
    if let Some(line) = first_non_blank(lines(s)) {
        assert(shows_at(s, line, from));
    }
    from
}

proof fn lemma_shown(s: Seq<char>) -> (from: int)
    ensures
        match first_non_blank(lines(s)) {
            Some(line) => shows_at(s, line, from),
            None => forall|i: int| 0 <= i < s.len() ==> is_white_space(#[trigger] s[i]),
        },
    decreases s.len(),
{
    if s.len() == 0 {
        0
    } else {
        let n = line_length(s) as int;
        let all = lines(s);
        let first = all.first();
        lemma_first_line(s);
        law_blank_iff_all_white_space(first);
        if !blank(first) {
            lemma_shown_in_first_line(s)
        } else {
            assert forall|i: int| 0 <= i <= n && i < s.len() implies is_white_space(
                #[trigger] s[i],
            ) by {
                if i < first.len() {
                    assert(is_white_space(first[i]));
                }
            }
            if n < s.len() {
                let rest = s.skip(n + 1);
                let later = lemma_shown(rest);
                assert(all.drop_first() =~= lines(rest));
                match first_non_blank(lines(s)) {
                    Some(line) => {
                        lemma_shown_later(s, n, line, later);
                    },
                    None => {
                        assert forall|i: int| 0 <= i < s.len() implies is_white_space(
                            #[trigger] s[i],
                        ) by {
                            if i > n {
                                assert(is_white_space(rest[i - n - 1]));
                            }
                        }
                    },
                }
                n + 1 + later
            } else {
                assert(all.drop_first() =~= Seq::empty());
                assert(first_non_blank(all.drop_first()) is None);
                0
            }
        }
    }
}

/// The first line stands at the start of a text, and only white space is between it and
/// the line feed that ends it.
proof fn lemma_first_line(s: Seq<char>)
    requires
        s.len() > 0,
    ensures
        ({
            let first = lines(s).first();
            let n = line_length(s) as int;
            &&& lines(s).len() > 0
            &&& first.len() <= n <= s.len()
            &&& forall|i: int| 0 <= i < first.len() ==> #[trigger] first[i] == s[i]
            &&& forall|i: int| first.len() <= i < n ==> is_white_space(#[trigger] s[i])
            &&& forall|i: int| 0 <= i < n ==> #[trigger] s[i] != '\n'
            &&& n < s.len() ==> s[n] == '\n' && is_white_space(s[n])
        }),
{
    let n = line_length(s) as int;
    lemma_line_holds_no_feed(s);
    let first = lines(s).first();
    if n < s.len() {
        assert(first == without_carriage_return(s.take(n)));
        assert forall|i: int| first.len() <= i < n implies is_white_space(#[trigger] s[i]) by {
            assert(s[i] == s.take(n).last());
        }
    } else {
        assert(first == s);
    }
}

proof fn lemma_shown_in_first_line(s: Seq<char>) -> (from: int)
    requires
        s.len() > 0,
        !blank(lines(s).first()),
    ensures
        shows_at(s, trimmed(lines(s).first()), from),
{
    let first = lines(s).first();
    let n = line_length(s) as int;
    let line = trimmed(first);
    lemma_first_line(s);
    let cut = law_trimmed(first);
    let from = cut.0;
    let to = from + line.len();
    assert forall|i: int| 0 <= i < first.len() implies #[trigger] s[i] == first[i] by {}
    assert(line =~= s.subrange(from, to));
    assert(s[from] == line.first());
    assert(s[to - 1] == line.last());
    assert forall|i: int|
        to <= i < s.len() && !s.subrange(to, i).contains('\n') implies is_white_space(
        #[trigger] s[i],
    ) by {
        if i < first.len() {
            assert(is_white_space(first[i]));
        } else if i > n {
            assert(s.subrange(to, i)[n - to] == '\n');
        }
    }
    from
}

proof fn lemma_shown_later(s: Seq<char>, n: int, line: Seq<char>, later: int)
    requires
        0 <= n < s.len(),
        forall|i: int| 0 <= i <= n ==> is_white_space(#[trigger] s[i]),
        shows_at(s.skip(n + 1), line, later),
    ensures
        shows_at(s, line, n + 1 + later),
{
    let rest = s.skip(n + 1);
    let from = n + 1 + later;
    let to = from + line.len();
    assert forall|i: int| n < i < s.len() implies #[trigger] s[i] == rest[i - n - 1] by {}
    assert(line =~= s.subrange(from, to));
    assert forall|i: int|
        to <= i < s.len() && !s.subrange(to, i).contains('\n') implies is_white_space(
        #[trigger] s[i],
    ) by {
        assert(s.subrange(to, i) =~= rest.subrange(to - n - 1, i - n - 1));
        assert(is_white_space(rest[i - n - 1]));
    }
}

proof fn lemma_line_holds_no_feed(s: Seq<char>)
    ensures
        line_length(s) <= s.len(),
        forall|i: int| 0 <= i < line_length(s) ==> #[trigger] s[i] != '\n',
        line_length(s) < s.len() ==> s[line_length(s) as int] == '\n',
    decreases s.len(),
{
    if s.len() > 0 && s.first() != '\n' {
        let rest = s.drop_first();
        lemma_line_holds_no_feed(rest);
        assert forall|i: int| 0 <= i < line_length(s) implies #[trigger] s[i] != '\n' by {
            if i > 0 {
                assert(rest[i - 1] == s[i]);
            }
        }
        if line_length(s) < s.len() {
            assert(rest[line_length(rest) as int] == s[line_length(s) as int]);
        }
    }
}

/// The digit `d`, which is below ten.
pub open spec fn digit(d: nat) -> char {
    (0x30 + d) as char
}

/// `n` in decimal notation, without leading zeros.
pub open spec fn decimal(n: nat) -> Seq<char>
    decreases n,
{
    if n < 10 {
        seq![digit(n)]
    } else {
        decimal(n / 10).push(digit(n % 10))
    }
}

/// Writes a number in decimal notation.
pub fn decimal_text(n: u128) -> (res: String)
    ensures
        res@ == decimal(n as nat),
    decreases n,
{
    let last: u8 = (n % 10) as u8;
    let mut res: String = if n < 10 {
        String::new()
    } else {
        decimal_text(n / 10)
    };
    res.push((48u8 + last) as char);
    assert(res@ =~= decimal(n as nat));
    res
}

/// Decimal notation is made of the digits from 0 to 9 and has no leading zero. A number
/// below ten is one digit, and ten times a number and a digit is written as the number
/// and then the digit.
pub proof fn law_decimal(n: nat, d: nat)
    requires
        d < 10,
    ensures
        decimal(n).len() > 0,
        forall|i: int| 0 <= i < decimal(n).len() ==> '0' <= #[trigger] decimal(n)[i] <= '9',
        n > 0 ==> decimal(n).first() != '0',
        decimal(d) == seq![(48 + d) as char],
        n > 0 ==> decimal(10 * n + d) == decimal(n).push((48 + d) as char),
    decreases n,
{
    if n >= 10 {
        law_decimal(n / 10, n % 10);
        let head = decimal(n / 10);
        assert forall|i: int| 0 <= i < decimal(n).len() implies '0' <= #[trigger] decimal(n)[i]
            <= '9' by {
            if i < head.len() {
                assert(decimal(n)[i] == head[i]);
            }
        }
        assert(decimal(n).first() == head.first());
    }
    if n > 0 {
        assert((10 * n + d) / 10 == n);
        assert((10 * n + d) % 10 == d);
    }
}

/// The lower case hexadecimal digit `d`, which is below sixteen.
pub open spec fn hex_digit(d: nat) -> char {
    if d < 10 {
        digit(d)
    } else {
        (0x61 + d - 10) as char
    }
}

/// `bytes` in lower case hexadecimal notation, two digits for each byte.
pub open spec fn lower_hex(bytes: Seq<u8>) -> Seq<char> {
    Seq::new(
        2 * bytes.len(),
        |i: int|
            if i % 2 == 0 {
                hex_digit((bytes[i / 2] / 16) as nat)
            } else {
                hex_digit((bytes[i / 2] % 16) as nat)
            },
    )
}

/// A lower case hexadecimal digit.
pub open spec fn is_lower_hex(c: char) -> bool {
    '0' <= c <= '9' || 'a' <= c <= 'f'
}

/// The number below sixteen that a lower case hexadecimal digit stands for.
pub open spec fn hex_value(c: char) -> int {
    if '0' <= c <= '9' {
        c as u32 - '0' as u32
    } else {
        c as u32 - 'a' as u32 + 10
    }
}

/// The byte that the digits `2 * i` and `2 * i + 1` stand for.
pub open spec fn byte_at(digits: Seq<char>, i: int) -> int {
    16 * hex_value(digits[2 * i]) + hex_value(digits[2 * i + 1])
}

proof fn lemma_byte_at(bytes: Seq<u8>, i: int)
    requires
        0 <= i < bytes.len(),
    ensures
        byte_at(lower_hex(bytes), i) == bytes[i],
{
    let byte = bytes[i];
    assert((2 * i) / 2 == i && (2 * i + 1) / 2 == i);
    assert((2 * i) % 2 == 0 && (2 * i + 1) % 2 == 1);
    assert(lower_hex(bytes)[2 * i] == hex_digit((byte / 16) as nat));
    assert(lower_hex(bytes)[2 * i + 1] == hex_digit((byte % 16) as nat));
    assert(byte / 16 < 16 && byte % 16 < 16);
    assert(hex_value(hex_digit((byte / 16) as nat)) == byte / 16);
    assert(hex_value(hex_digit((byte % 16) as nat)) == byte % 16);
}

fn hex_character(d: u8) -> (res: char)
    requires
        d < 16,
    ensures
        res == hex_digit(d as nat),
{
    if d < 10 {
        (48u8 + d) as char
    } else {
        (87u8 + d) as char
    }
}

/// Writes bytes in lower case hexadecimal notation.
pub fn lower_hex_text(bytes: &[u8]) -> (res: String)
    ensures
        res@ == lower_hex(bytes@),
{
    let mut res: String = String::new();
    let mut i: usize = 0;
    assert(res@ =~= lower_hex(bytes@.take(0)));
    while i < bytes.len()
        invariant
            i <= bytes.len(),
            res@ == lower_hex(bytes@.take(i as int)),
        decreases bytes.len() - i,
    {
        let byte: u8 = bytes[i];
        res.push(hex_character(byte / 16));
        res.push(hex_character(byte % 16));
        i = i + 1;
        assert(res@ =~= lower_hex(bytes@.take(i as int)));
    }
    assert(bytes@.take(bytes@.len() as int) =~= bytes@);
    res
}

/// The two digits of a byte: those below ten are the characters from `0` on, and the others
/// are those from `a` on.
pub proof fn law_digits_of_a_byte(bytes: Seq<u8>, i: int)
    requires
        0 <= i < bytes.len(),
    ensures
        ({
            let high = bytes[i] / 16;
            let low = bytes[i] % 16;
            &&& lower_hex(bytes)[2 * i] as u32 == if high < 10 {
                48 + high
            } else {
                97 + (high - 10)
            }
            &&& lower_hex(bytes)[2 * i + 1] as u32 == if low < 10 {
                48 + low
            } else {
                97 + (low - 10)
            }
        }),
{
    assert((2 * i) / 2 == i && (2 * i + 1) / 2 == i);
    assert((2 * i) % 2 == 0 && (2 * i + 1) % 2 == 1);
    assert(lower_hex(bytes)[2 * i] == hex_digit((bytes[i] / 16) as nat));
    assert(lower_hex(bytes)[2 * i + 1] == hex_digit((bytes[i] % 16) as nat));
}

/// Hexadecimal notation takes two lower case digits for each byte, which stand for that
/// byte, the higher half first; and two sequences of bytes that are written alike are
/// the same.
pub proof fn law_lower_hex(a: Seq<u8>, b: Seq<u8>)
    ensures
        lower_hex(a).len() == 2 * a.len(),
        forall|i: int| 0 <= i < lower_hex(a).len() ==> is_lower_hex(#[trigger] lower_hex(a)[i]),
        forall|i: int| 0 <= i < a.len() ==> #[trigger] byte_at(lower_hex(a), i) == a[i],
        lower_hex(a) == lower_hex(b) ==> a == b,
{
    assert forall|i: int| 0 <= i < a.len() implies #[trigger] byte_at(lower_hex(a), i) == a[i] by {
        lemma_byte_at(a, i);
    }
    if lower_hex(a) == lower_hex(b) {
        assert(lower_hex(a).len() == 2 * a.len());
        assert(lower_hex(b).len() == 2 * b.len());
        assert forall|i: int| 0 <= i < a.len() implies a[i] == b[i] by {
            assert(lower_hex(a)[2 * i] == lower_hex(b)[2 * i]);
            assert(lower_hex(a)[2 * i + 1] == lower_hex(b)[2 * i + 1]);
        }
        assert(a =~= b);
    }
}

} // verus!
