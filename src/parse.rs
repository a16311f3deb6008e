use vstd::prelude::*;
use vstd::std_specs::iter::IteratorSpec;

use crate::event::Event;

verus! {

broadcast use vstd::string::axiom_spec_iter;

/// Why a trigger line of a log could not be read.
#[derive(Debug, Clone, Copy, PartialEq, Eq, Structural)]
pub enum ParseError {
    /// The line has fewer than three whitespace-separated fields.
    MissingField,
    /// The first field is not an integer that fits an `i64`.
    InvalidTimestamp,
    /// The third field is not an integer that fits an `i32`.
    InvalidTriggerCode,
}

/// The text that marks a line as a trigger record.
pub open spec fn marker() -> Seq<char> {
    seq!['F', 'I', 'F', 'F', ' ', 'T', 'r', 'i', 'g', 'g', 'e', 'r']
}

/// `pat` occurs in `line` at position `i`.
pub open spec fn occurs_at(line: Seq<char>, pat: Seq<char>, i: int) -> bool {
    0 <= i && i + pat.len() <= line.len() && line.subrange(i, i + pat.len()) == pat
}

/// `pat` occurs somewhere in `line`.
pub open spec fn occurs_in(line: Seq<char>, pat: Seq<char>) -> bool {
    exists|i: int| occurs_at(line, pat, i)
}

/// The characters with the Unicode White_Space property.
pub open spec fn is_white_space(c: char) -> bool {
    let u = c as u32;
    (0x09 <= u <= 0x0d) || u == 0x20 || u == 0x85 || u == 0xa0 || u == 0x1680 || (0x2000 <= u
        <= 0x200a) || u == 0x2028 || u == 0x2029 || u == 0x202f || u == 0x205f || u == 0x3000
}

fn white_space(c: char) -> (r: bool)
    ensures
        r == is_white_space(c),
{
    let u = c as u32;
    (0x09 <= u && u <= 0x0d) || u == 0x20 || u == 0x85 || u == 0xa0 || u == 0x1680 || (0x2000 <= u
        && u <= 0x200a) || u == 0x2028 || u == 0x2029 || u == 0x202f || u == 0x205f || u == 0x3000
}

fn chars_of(s: &str) -> (r: Vec<char>)
    ensures
        r@ == s@,
{
    let mut it = s.chars();
    let mut r: Vec<char> = Vec::new();
    loop
        invariant
            IteratorSpec::remaining(&it) == s@.skip(r@.len() as int),
            r@ == s@.take(r@.len() as int),
            r@.len() <= s@.len(),
        decreases s@.len() - r@.len(),
    {
        match it.next() {
            Some(c) => {
                r.push(c);
                assert(r@ =~= s@.take(r@.len() as int));
                assert(IteratorSpec::remaining(&it) =~= s@.skip(r@.len() as int));
            },
            None => {
                assert(r@ =~= s@);
                return r;
            },
        }
    }
}

fn contains_marker(line: &Vec<char>) -> (r: bool)
    ensures
        r == occurs_in(line@, marker()),
{
    let pat: Vec<char> = vec!['F', 'I', 'F', 'F', ' ', 'T', 'r', 'i', 'g', 'g', 'e', 'r'];
    assert(pat@ =~= marker());
    let n = line.len();
    let m = pat.len();
    if n < m {
        assert(forall|j: int| !occurs_at(line@, marker(), j));
        return false;
    }
    let mut i: usize = 0;
    while i <= n - m
        invariant
            n == line@.len(),
            m == pat@.len(),
            pat@ == marker(),
            m <= n,
            forall|j: int| 0 <= j < i ==> !occurs_at(line@, marker(), j),
        decreases n - m + 1 - i,
    {
        let mut k: usize = 0;
        while k < m && line[i + k] == pat[k]
            invariant
                i + m <= n,
                k <= m,
                n == line@.len(),
                m == pat@.len(),
                forall|q: int| 0 <= q < k ==> line@[i + q] == pat@[q],
            decreases m - k,
        {
            k = k + 1;
        }
        if k == m {
            assert(line@.subrange(i as int, i + m) =~= marker());
            assert(occurs_at(line@, marker(), i as int));
            return true;
        }
        assert(line@.subrange(i as int, i + m)[k as int] != marker()[k as int]);
        i = i + 1;
    }
    assert forall|j: int| !occurs_at(line@, marker(), j) by {
        if 0 <= j < i {
        }
    }
    false
}

/// The pieces of `s` between newline characters; there is always one more
/// piece than there are newlines.
pub open spec fn newline_pieces(s: Seq<char>) -> Seq<Seq<char>>
    decreases s.len(),
{
    if s.len() == 0 {
        seq![seq![]]
    } else {
        let earlier = newline_pieces(s.drop_last());
        if s.last() == '\n' {
            earlier.push(seq![])
        } else {
            earlier.update(earlier.len() - 1, earlier.last().push(s.last()))
        }
    }
}

/// The lines of a text: the newline pieces, without the empty piece that
/// follows a final newline (or that is all of an empty text).
pub open spec fn text_lines(s: Seq<char>) -> Seq<Seq<char>> {
    let p = newline_pieces(s);
    if p.last().len() == 0 {
        p.drop_last()
    } else {
        p
    }
}

/// The whitespace-separated fields finished so far, and the field still open.
pub open spec fn field_parts(line: Seq<char>) -> (Seq<Seq<char>>, Seq<char>)
    decreases line.len(),
{
    if line.len() == 0 {
        (seq![], seq![])
    } else {
        let (done, open) = field_parts(line.drop_last());
        let c = line.last();
        if is_white_space(c) {
            if open.len() > 0 {
                (done.push(open), seq![])
            } else {
                (done, seq![])
            }
        } else {
            (done, open.push(c))
        }
    }
}

/// The maximal runs of non-whitespace characters of a line, in order.
pub open spec fn fields(line: Seq<char>) -> Seq<Seq<char>> {
    let (done, open) = field_parts(line);
    if open.len() > 0 {
        done.push(open)
    } else {
        done
    }
}

/// The character sequences held by a vector of character vectors.
spec fn views(v: Seq<Vec<char>>) -> Seq<Seq<char>> {
    v.map_values(|x: Vec<char>| x@)
}

proof fn lemma_pieces_nonempty(s: Seq<char>)
    ensures
        newline_pieces(s).len() >= 1,
    decreases s.len(),
{
    if s.len() > 0 {
        lemma_pieces_nonempty(s.drop_last());
    }
}

fn split_lines(text: &Vec<char>) -> (r: Vec<Vec<char>>)
    ensures
        views(r@) == text_lines(text@),
{
    let mut done: Vec<Vec<char>> = Vec::new();
    let mut open: Vec<char> = Vec::new();
    let mut i: usize = 0;
    while i < text.len()
        invariant
            i <= text@.len(),
            newline_pieces(text@.take(i as int)) == views(done@).push(open@),
        decreases text@.len() - i,
    {
        let c = text[i];
        let ghost before = text@.take(i as int);
        assert(text@.take(i + 1).drop_last() =~= before);
        assert(text@.take(i + 1).last() == c);
        proof {
            lemma_pieces_nonempty(before);
        }
        if c == '\n' {
            done.push(open);
            open = Vec::new();
            assert(newline_pieces(text@.take(i + 1)) =~= views(done@).push(open@));
        } else {
            open.push(c);
            assert(newline_pieces(text@.take(i + 1)) =~= views(done@).push(open@));
        }
        i = i + 1;
    }
    assert(text@.take(i as int) =~= text@);
    if open.len() > 0 {
        done.push(open);
        assert(views(done@) =~= text_lines(text@));
    } else {
        assert(views(done@) =~= text_lines(text@));
    }
    done
}

fn split_fields(line: &Vec<char>) -> (r: Vec<Vec<char>>)
    ensures
        views(r@) == fields(line@),
{
    let mut done: Vec<Vec<char>> = Vec::new();
    let mut open: Vec<char> = Vec::new();
    let mut i: usize = 0;
    while i < line.len()
        invariant
            i <= line@.len(),
            field_parts(line@.take(i as int)) == (views(done@), open@),
        decreases line@.len() - i,
    {
        let c = line[i];
        assert(line@.take(i + 1).drop_last() =~= line@.take(i as int));
        assert(line@.take(i + 1).last() == c);
        let ghost finished = views(done@);
        let ghost current = open@;
        if white_space(c) {
            if open.len() > 0 {
                done.push(open);
                open = Vec::new();
                assert(views(done@) =~= finished.push(current));
            }
        } else {
            open.push(c);
        }
        assert(open@ =~= field_parts(line@.take(i + 1)).1);
        assert(views(done@) =~= field_parts(line@.take(i + 1)).0);
        i = i + 1;
    }
    assert(line@.take(i as int) =~= line@);
    if open.len() > 0 {
        done.push(open);
    }
    assert(views(done@) =~= fields(line@));
    done
}

/// An ASCII decimal digit.
pub open spec fn is_digit(c: char) -> bool {
    0x30 <= c as u32 <= 0x39
}

pub open spec fn digit_value(c: char) -> int {
    c as u32 - 0x30
}

/// The number written by a run of decimal digits.
pub open spec fn decimal_value(d: Seq<char>) -> int
    decreases d.len(),
{
    if d.len() == 0 {
        0
    } else {
        decimal_value(d.drop_last()) * 10 + digit_value(d.last())
    }
}

/// The value of a non-empty run of digits.
pub open spec fn unsigned_value(d: Seq<char>) -> Option<int> {
    if d.len() > 0 && forall|i: int| 0 <= i < d.len() ==> is_digit(#[trigger] d[i]) {
        Some(decimal_value(d))
    } else {
        None
    }
}

/// The integer a field writes: an optional `+` or `-` sign, then one or more digits.
pub open spec fn integer_value(field: Seq<char>) -> Option<int> {
    if field.len() > 0 && field[0] == '-' {
        match unsigned_value(field.drop_first()) {
            Some(v) => Some(-v),
            None => None,
        }
    } else if field.len() > 0 && field[0] == '+' {
        unsigned_value(field.drop_first())
    } else {
        unsigned_value(field)
    }
}

/// The integer a field writes, when it lies in `[lo, hi]`.
pub open spec fn integer_within(field: Seq<char>, lo: int, hi: int) -> Option<int> {
    match integer_value(field) {
        Some(v) => if lo <= v <= hi {
            Some(v)
        } else {
            None
        },
        None => None,
    }
}

/// Cap on the magnitude tracked while reading digits: past any `i64`.
const MAGNITUDE_CAP: u128 = 0x1_0000_0000_0000_0000;

fn integer_field(field: &Vec<char>, lo: i64, hi: i64) -> (r: Option<i64>)
    ensures
        match integer_within(field@, lo as int, hi as int) {
            Some(v) => r == Some(v as i64),
            None => r is None,
        },
{
    let n = field.len();
    if n == 0 {
        return None;
    }
    let negative = field[0] == '-';
    let start: usize = if field[0] == '-' || field[0] == '+' {
        1
    } else {
        0
    };
    let ghost digits = field@.subrange(start as int, n as int);
    assert(start == 1 ==> digits =~= field@.drop_first());
    assert(start == 0 ==> digits =~= field@);
    if start == n {
        return None;
    }
    let mut magnitude: u128 = 0;
    let mut i: usize = start;
    while i < n
        invariant
            start <= i <= n,
            n == field@.len(),
            digits == field@.subrange(start as int, n as int),
            start == 1 ==> digits == field@.drop_first(),
            start == 0 ==> digits == field@,
            start == 1 <==> (field@[0] == '-' || field@[0] == '+'),
            start <= 1,
            negative == (field@[0] == '-'),
            forall|q: int| 0 <= q < i - start ==> is_digit(#[trigger] digits[q]),
            magnitude == if decimal_value(digits.take(i - start)) < MAGNITUDE_CAP {
                decimal_value(digits.take(i - start))
            } else {
                MAGNITUDE_CAP as int
            },
        decreases n - i,
    {
        let c = field[i];
        assert(digits[i - start] == c);
        let u = c as u32;
        if !(0x30 <= u && u <= 0x39) {
            assert(!is_digit(digits[i - start]));
            assert(unsigned_value(digits) is None);
            assert(integer_within(field@, lo as int, hi as int) is None);
            return None;
        }
        assert(digits.take(i + 1 - start).drop_last() =~= digits.take(i - start));
        let d = (u - 0x30) as u128;
        let next = magnitude * 10 + d;
        magnitude = if next < MAGNITUDE_CAP {
            next
        } else {
            MAGNITUDE_CAP
        };
        i = i + 1;
    }
    assert(digits.take(n - start) =~= digits);
    if magnitude == MAGNITUDE_CAP {
        assert(integer_within(field@, lo as int, hi as int) is None);
        return None;
    }
    assert(unsigned_value(digits) == Some(magnitude as int));
    let value: i128 = if negative {
        -(magnitude as i128)
    } else {
        magnitude as i128
    };
    if value < lo as i128 || value > hi as i128 {
        return None;
    }
    Some(value as i64)
}

/// What one line contributes: nothing for a line without the marker, else the
/// event its first and third fields give, or why they do not give one.
pub open spec fn line_event(line: Seq<char>) -> Option<Result<Event, ParseError>> {
    if !occurs_in(line, marker()) {
        None
    } else {
        let f = fields(line);
        if f.len() < 3 {
            Some(Err(ParseError::MissingField))
        } else {
            match integer_within(f[0], i64::MIN as int, i64::MAX as int) {
                None => Some(Err(ParseError::InvalidTimestamp)),
                Some(time) => match integer_within(f[2], i32::MIN as int, i32::MAX as int) {
                    None => Some(Err(ParseError::InvalidTriggerCode)),
                    Some(code) => Some(
                        Ok(Event { time_microseconds: time as i64, trigger_code: code as i32 }),
                    ),
                },
            }
        }
    }
}

/// The events of a sequence of lines, in order, or the error of the first
/// marked line that cannot be read.
pub open spec fn events_of_lines(lines: Seq<Seq<char>>) -> Result<Seq<Event>, ParseError>
    decreases lines.len(),
{
    if lines.len() == 0 {
        Ok(seq![])
    } else {
        match events_of_lines(lines.drop_last()) {
            Err(e) => Err(e),
            Ok(events) => match line_event(lines.last()) {
                None => Ok(events),
                Some(Ok(e)) => Ok(events.push(e)),
                Some(Err(e)) => Err(e),
            },
        }
    }
}

/// The events of a log text.
pub open spec fn events_of_text(text: Seq<char>) -> Result<Seq<Event>, ParseError> {
    events_of_lines(text_lines(text))
}

proof fn lemma_error_persists(lines: Seq<Seq<char>>, k: int)
    requires
        0 <= k <= lines.len(),
        events_of_lines(lines.take(k)) is Err,
    ensures
        events_of_lines(lines) == events_of_lines(lines.take(k)),
    decreases lines.len() - k,
{
    if k < lines.len() {
        assert(lines.take(k + 1).drop_last() =~= lines.take(k));
        lemma_error_persists(lines, k + 1);
    } else {
        assert(lines.take(k) =~= lines);
    }
}

fn line_event_of(line: &Vec<char>) -> (r: Option<Result<Event, ParseError>>)
    ensures
        r == line_event(line@),
{
    if !contains_marker(line) {
        return None;
    }
    let f = split_fields(line);
    if f.len() < 3 {
        return Some(Err(ParseError::MissingField));
    }
    assert(f@[0]@ == fields(line@)[0] && f@[2]@ == fields(line@)[2]);
    match integer_field(&f[0], i64::MIN, i64::MAX) {
        None => Some(Err(ParseError::InvalidTimestamp)),
        Some(time) => match integer_field(&f[2], i32::MIN as i64, i32::MAX as i64) {
            None => Some(Err(ParseError::InvalidTriggerCode)),
            Some(code) => Some(Ok(Event { time_microseconds: time, trigger_code: code as i32 })),
        },
    }
}

/// Reads the trigger events of a log, in line order: each line that contains
/// `FIFF Trigger` gives one event, its first field the time in microseconds
/// and its third field the trigger code. Other lines are skipped. One marked
/// line that cannot be read fails the whole log.
pub fn parse_events(input: &str) -> (r: Result<Vec<Event>, ParseError>)
    ensures
        match r {
            Ok(events) => events_of_text(input@) == Ok::<Seq<Event>, ParseError>(events@),
            Err(e) => events_of_text(input@) == Err::<Seq<Event>, ParseError>(e),
        },
{
    let text = chars_of(input);
    let lines = split_lines(&text);
    let ghost ls = text_lines(input@);
    let mut events: Vec<Event> = Vec::new();
    let mut i: usize = 0;
    while i < lines.len()
        invariant
            i <= lines@.len(),
            views(lines@) == ls,
            ls == text_lines(input@),
            events_of_lines(ls.take(i as int)) == Ok::<Seq<Event>, ParseError>(events@),
        decreases lines@.len() - i,
    {
        assert(ls.take(i + 1).drop_last() =~= ls.take(i as int));
        assert(ls.take(i + 1).last() == lines@[i as int]@);
        match line_event_of(&lines[i]) {
            None => {},
            Some(Ok(e)) => {
                events.push(e);
            },
            Some(Err(e)) => {
                proof {
                    lemma_error_persists(ls, i + 1);
                }
                return Err(e);
            },
        }
        i = i + 1;
    }
    assert(ls.take(i as int) =~= ls);
    Ok(events)
}

} // verus!
