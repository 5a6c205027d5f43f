//! Durations, the order of the phases, and the countdown of one phase.

use vstd::prelude::*;
use vstd::string::StrSliceExecFns;

use crate::config::PauseGate;
use crate::text::all_digits;
use crate::text::digits_value;
use crate::text::first_index;
use crate::text::is_digit;
use crate::text::lemma_char_code;
use crate::text::lemma_digits_value_grows;
use crate::text::lemma_first_index;
use crate::text::lemma_first_index_is;
use crate::text::to_chars;

verus! {

/// Seconds in an hour.
pub const HOUR: u64 = 3600;

/// Seconds in a minute.
pub const MINUTE: u64 = 60;

/// Why a duration was refused.
#[derive(Debug, PartialEq, Eq)]
pub enum ParseError {
    /// The text in front of a unit is not an unsigned integer; it is given.
    Number(String),
    /// The duration does not fit in 64 bits.
    Overflow,
}

/// The mathematical value of a [`ParseError`].
pub enum ParseFailure {
    /// The text in front of a unit is not an unsigned integer; it is given.
    Number(Seq<char>),
    /// The duration does not fit in 64 bits.
    Overflow,
}

impl View for ParseError {
    type V = ParseFailure;

    open spec fn view(&self) -> ParseFailure {
        match self {
            ParseError::Number(text) => ParseFailure::Number(text@),
            ParseError::Overflow => ParseFailure::Overflow,
        }
    }
}

/// The number that `s` stands for: `s` is one or more digits, with or
/// without a `+` in front, and the number fits in 64 bits.
pub open spec fn unsigned(s: Seq<char>) -> Option<nat> {
    let digits = if s.len() > 0 && s[0] == '+' {
        s.drop_first()
    } else {
        s
    };
    if digits.len() > 0 && all_digits(digits) && digits_value(digits) <= u64::MAX {
        Some(digits_value(digits))
    } else {
        None
    }
}

/// The text in front of the first `unit` of `s`.
pub open spec fn before_unit(s: Seq<char>, unit: char) -> Seq<char> {
    s.take(first_index(s, unit))
}

/// The text between the first `unit` of `s` and the next one, or the end.
pub open spec fn after_unit(s: Seq<char>, unit: char) -> Seq<char> {
    let tail = s.skip(first_index(s, unit) + 1);
    tail.take(first_index(tail, unit))
}

/// The number in front of `unit` and the text that is left to read. A text
/// without `unit` counts 0 and is left whole.
pub open spec fn unit_value(s: Seq<char>, unit: char) -> Result<(nat, Seq<char>), ParseFailure> {
    if !s.contains(unit) {
        Ok((0, s))
    } else {
        match unsigned(before_unit(s, unit)) {
            Some(value) => Ok((value, after_unit(s, unit))),
            None => Err(ParseFailure::Number(before_unit(s, unit))),
        }
    }
}

/// The seconds that a duration such as `5h3m8s` stands for: hours, then
/// minutes, then seconds, each with its unit and each left out at will. What
/// follows the seconds is not read.
pub open spec fn seconds_of(raw: Seq<char>) -> Result<nat, ParseFailure> {
    match unit_value(raw, 'h') {
        Err(e) => Err(e),
        Ok((hours, rest)) => match unit_value(rest, 'm') {
            Err(e) => Err(e),
            Ok((minutes, rest)) => match unit_value(rest, 's') {
                Err(e) => Err(e),
                Ok((seconds, _)) => {
                    let total = hours * 3600 + minutes * 60 + seconds;
                    if total <= u64::MAX {
                        Ok(total)
                    } else {
                        Err(ParseFailure::Overflow)
                    }
                },
            },
        },
    }
}

/// Whether `c` is one of the three unit letters.
pub open spec fn is_unit(c: char) -> bool {
    c == 'h' || c == 'm' || c == 's'
}

/// A number with its unit behind it, and nothing where the unit is left out.
pub open spec fn part(number: Option<Seq<char>>, unit: char) -> Seq<char> {
    match number {
        Some(digits) => digits.push(unit),
        None => Seq::empty(),
    }
}

/// What a part counts: its number, and 0 where it is left out.
pub open spec fn part_value(number: Option<Seq<char>>) -> nat {
    match number {
        Some(digits) => unsigned(digits).unwrap(),
        None => 0,
    }
}

/// Whether a part is left out or holds an unsigned integer.
pub open spec fn part_is_number(number: Option<Seq<char>>) -> bool {
    number matches Some(digits) ==> unsigned(digits) is Some
}

/// The text up to the first `unit` where `cut` holds, and all of it otherwise.
pub open spec fn up_to(text: Seq<char>, unit: char, cut: bool) -> Seq<char> {
    if cut {
        text.take(first_index(text, unit))
    } else {
        text
    }
}

/// A text holds `c` exactly where one of its two halves does, and where the
/// first half does not, the first `c` is the first one of the second half.
proof fn lemma_first_index_after(x: Seq<char>, y: Seq<char>, c: char)
    ensures
        (x + y).contains(c) <==> x.contains(c) || y.contains(c),
        !x.contains(c) ==> first_index(x + y, c) == x.len() + first_index(y, c),
{
    let all = x + y;
    lemma_first_index(y, c);
    if x.contains(c) {
        let k = choose|k: int| 0 <= k < x.len() && x[k] == c;
        assert(all[k] == c);
    }
    if y.contains(c) {
        let k = choose|k: int| 0 <= k < y.len() && y[k] == c;
        assert(all[x.len() + k] == c);
    }
    if all.contains(c) {
        let k = choose|k: int| 0 <= k < all.len() && all[k] == c;
        if k < x.len() {
            assert(x[k] == c);
        } else {
            assert(y[k - x.len()] == c);
        }
    }
    if !x.contains(c) {
        let i = first_index(y, c);
        assert forall|j: int| 0 <= j < x.len() + i implies all[j] != c by {
            if j < x.len() {
                assert(x[j] == all[j]);
            } else {
                assert(y[j - x.len()] == all[j]);
            }
        }
        if i < y.len() {
            assert(all[x.len() + i] == y[i]);
        }
        lemma_first_index_is(all, c, x.len() + i);
    }
}

/// What stands before the first `c` holds no `c`, and nothing that the whole
/// text does not hold.
proof fn lemma_up_to(text: Seq<char>, unit: char, cut: bool, c: char)
    ensures
        !text.contains(c) ==> !up_to(text, unit, cut).contains(c),
{
    lemma_first_index(text, unit);
    let head = up_to(text, unit, cut);
    if head.contains(c) {
        let k = choose|k: int| 0 <= k < head.len() && head[k] == c;
        assert(text[k] == c);
    }
}

/// An unsigned integer holds no unit letter.
proof fn lemma_number_has_no_unit(digits: Seq<char>, c: char)
    requires
        unsigned(digits) is Some,
        is_unit(c),
    ensures
        !digits.contains(c),
{
    if digits.contains(c) {
        let k = choose|k: int| 0 <= k < digits.len() && digits[k] == c;
        if digits[0] == '+' {
            assert(k > 0);
            assert(is_digit(digits.drop_first()[k - 1]));
        } else {
            assert(is_digit(digits[k]));
        }
    }
}

/// A part holds no unit letter but its own.
proof fn lemma_part_has_no_other_unit(number: Option<Seq<char>>, unit: char, c: char)
    requires
        part_is_number(number),
        is_unit(c),
        c != unit,
    ensures
        !part(number, unit).contains(c),
{
    let p = part(number, unit);
    if p.contains(c) {
        let k = choose|k: int| 0 <= k < p.len() && p[k] == c;
        let digits = number->Some_0;
        lemma_number_has_no_unit(digits, c);
        assert(digits[k] == c);
    }
}

/// A part in front of a text is read as its number, and what is left to read
/// is the text up to the next unit of its kind; where the part is left out
/// and the text holds no such unit, 0 is read and the text is left whole.
proof fn lemma_unit_value(number: Option<Seq<char>>, unit: char, tail: Seq<char>)
    requires
        part_is_number(number),
        is_unit(unit),
        number is None ==> !tail.contains(unit),
    ensures
        unit_value(part(number, unit) + tail, unit) == Ok::<(nat, Seq<char>), ParseFailure>(
            (part_value(number), up_to(tail, unit, number is Some)),
        ),
{
    let all = part(number, unit) + tail;
    match number {
        Some(digits) => {
            lemma_number_has_no_unit(digits, unit);
            assert(all[digits.len() as int] == unit);
            assert forall|j: int| 0 <= j < digits.len() implies all[j] != unit by {
                assert(all[j] == digits[j]);
            }
            lemma_first_index_is(all, unit, digits.len() as int);
            lemma_first_index(all, unit);
            assert(before_unit(all, unit) =~= digits);
            assert(all.skip(digits.len() as int + 1) =~= tail);
        },
        None => {
            assert(all =~= tail);
        },
    }
}

/// A duration that is written as the grammar has it is read as it is meant:
/// a number of hours with `h`, then a number of minutes with `m`, then a
/// number of seconds with `s`, each left out at will, count
/// `3600 * hours + 60 * minutes + seconds`, whatever text follows, as long as
/// that text holds no unit that was left out.
pub proof fn lemma_seconds_of(
    hours: Option<Seq<char>>,
    minutes: Option<Seq<char>>,
    seconds: Option<Seq<char>>,
    rest: Seq<char>,
)
    requires
        part_is_number(hours),
        part_is_number(minutes),
        part_is_number(seconds),
        hours is None ==> !rest.contains('h'),
        minutes is None ==> !rest.contains('m'),
        seconds is None ==> !rest.contains('s'),
    ensures
        seconds_of(part(hours, 'h') + part(minutes, 'm') + part(seconds, 's') + rest) == ({
            let total = part_value(hours) * 3600 + part_value(minutes) * 60 + part_value(seconds);
            if total <= u64::MAX {
                Ok::<nat, ParseFailure>(total)
            } else {
                Err::<nat, ParseFailure>(ParseFailure::Overflow)
            }
        }),
{
    let a = part(hours, 'h');
    let b = part(minutes, 'm');
    let c = part(seconds, 's');
    let raw = a + b + c + rest;

    // the hours
    let tail_h = b + c + rest;
    assert(raw =~= a + tail_h);
    lemma_part_has_no_other_unit(minutes, 'm', 'h');
    lemma_part_has_no_other_unit(seconds, 's', 'h');
    lemma_first_index_after(b, c, 'h');
    lemma_first_index_after(b + c, rest, 'h');
    lemma_unit_value(hours, 'h', tail_h);
    let rest_h = up_to(rest, 'h', hours is Some);
    let left_h = up_to(tail_h, 'h', hours is Some);
    lemma_first_index(rest, 'h');
    assert(left_h =~= b + (c + rest_h));

    // the minutes
    let tail_m = c + rest_h;
    lemma_part_has_no_other_unit(seconds, 's', 'm');
    lemma_up_to(rest, 'h', hours is Some, 'm');
    lemma_first_index_after(c, rest_h, 'm');
    lemma_unit_value(minutes, 'm', tail_m);
    let rest_m = up_to(rest_h, 'm', minutes is Some);
    let left_m = up_to(tail_m, 'm', minutes is Some);
    lemma_first_index(rest_h, 'm');
    assert(left_m =~= c + rest_m);

    // the seconds
    lemma_up_to(rest, 'h', hours is Some, 's');
    lemma_up_to(rest_h, 'm', minutes is Some, 's');
    lemma_unit_value(seconds, 's', rest_m);
}

/// The index of the first `unit` in `chars[lo..hi]`, and `hi` where there is none.
fn find(chars: &Vec<char>, lo: usize, hi: usize, unit: char) -> (at: usize)
    requires
        lo <= hi <= chars.len(),
    ensures
        lo <= at <= hi,
        at - lo == first_index(chars@.subrange(lo as int, hi as int), unit),
        at < hi <==> chars@.subrange(lo as int, hi as int).contains(unit),
{
    let ghost part = chars@.subrange(lo as int, hi as int);
    let mut i = lo;
    while i < hi && chars[i] != unit
        invariant
            lo <= i <= hi <= chars.len(),
            part == chars@.subrange(lo as int, hi as int),
            forall|j: int| 0 <= j < i - lo ==> part[j] != unit,
        decreases hi - i,
    {
        i += 1;
    }
    proof {
        lemma_first_index_is(part, unit, i - lo);
        lemma_first_index(part, unit);
    }
    i
}

/// The number that `chars[lo..hi]` stands for, as [`unsigned`] says.
fn parse_unsigned(chars: &Vec<char>, lo: usize, hi: usize) -> (res: Option<u64>)
    requires
        lo <= hi <= chars.len(),
    ensures
        match res {
            Some(value) => unsigned(chars@.subrange(lo as int, hi as int)) == Some(value as nat),
            None => unsigned(chars@.subrange(lo as int, hi as int)) is None,
        },
{
    let ghost part = chars@.subrange(lo as int, hi as int);
    let start = if lo < hi && chars[lo] == '+' {
        lo + 1
    } else {
        lo
    };
    let ghost digits = chars@.subrange(start as int, hi as int);
    proof {
        if lo < hi {
            assert(part[0] == chars@[lo as int]);
        }
        if start == lo {
            assert(digits =~= part);
        } else {
            assert(digits =~= part.drop_first());
        }
    }
    if start == hi {
        return None;
    }
    let mut value: u64 = 0;
    let mut i = start;
    while i < hi
        invariant
            lo <= start <= i <= hi <= chars.len(),
            start < hi,
            part == chars@.subrange(lo as int, hi as int),
            digits == chars@.subrange(start as int, hi as int),
            digits == if part[0] == '+' {
                part.drop_first()
            } else {
                part
            },
            all_digits(digits.take(i - start)),
            value == digits_value(digits.take(i - start)),
        decreases hi - i,
    {
        let c = chars[i];
        let ghost head = digits.take(i - start);
        let ghost next = digits.take(i - start + 1);
        proof {
            lemma_char_code(c);
            assert(next.drop_last() =~= head);
            assert(next.last() == c);
            assert(digits[i - start] == c);
        }
        if c < '0' || c > '9' {
            assert(!is_digit(digits[i - start]));
            return None;
        }
        assert forall|j: int| 0 <= j < next.len() implies is_digit(#[trigger] next[j]) by {
            if j < head.len() {
                assert(head[j] == next[j]);
            }
        }
        let d = (c as u32 - '0' as u32) as u64;
        let grown = match value.checked_mul(10) {
            Some(tenfold) => tenfold.checked_add(d),
            None => None,
        };
        match grown {
            Some(grown) => {
                value = grown;
            },
            None => {
                proof {
                    assert(digits_value(next) > u64::MAX);
                    if all_digits(digits) {
                        lemma_digits_value_grows(digits, i - start + 1);
                    }
                }
                return None;
            },
        }
        i += 1;
    }
    assert(digits.take(hi - start) =~= digits);
    Some(value)
}

/// Reads the number in front of `unit` in `chars[lo..hi]`, as [`unit_value`]
/// says, and tells where the text that is left begins and ends.
fn with_unit(raw: &str, chars: &Vec<char>, lo: usize, hi: usize, unit: char) -> (res: Result<
    (u64, usize, usize),
    ParseError,
>)
    requires
        chars@ == raw@,
        lo <= hi <= chars.len(),
    ensures
        match (res, unit_value(chars@.subrange(lo as int, hi as int), unit)) {
            (Ok((value, from, to)), Ok((number, rest))) => value == number && lo <= from <= to
                <= hi && chars@.subrange(from as int, to as int) == rest,
            (Err(e), Err(f)) => e@ == f,
            _ => false,
        },
{
    let ghost part = chars@.subrange(lo as int, hi as int);
    let at = find(chars, lo, hi, unit);
    if at == hi {
        return Ok((0, lo, hi));
    }
    let next = find(chars, at + 1, hi, unit);
    proof {
        assert(before_unit(part, unit) =~= chars@.subrange(lo as int, at as int));
        assert(part.skip(at - lo + 1) =~= chars@.subrange(at + 1, hi as int));
        assert(after_unit(part, unit) =~= chars@.subrange(at + 1, next as int));
    }
    match parse_unsigned(chars, lo, at) {
        Some(value) => Ok((value, at + 1, next)),
        None => Err(ParseError::Number(raw.substring_char(lo, at).to_owned())),
    }
}

/// The seconds that the duration `raw` stands for, as [`seconds_of`] says:
/// `5h3m8s` is 18188 seconds, and the empty text is 0. It fails with
/// `Number` and the text in front of a unit where that text is no unsigned
/// integer, and with `Overflow` where the seconds do not fit in 64 bits.
pub fn parse_as_sec(raw: &str) -> (res: Result<u64, ParseError>)
    ensures
        match (res, seconds_of(raw@)) {
            (Ok(seconds), Ok(total)) => seconds == total,
            (Err(e), Err(f)) => e@ == f,
            _ => false,
        },
{
    let chars = to_chars(raw);
    let end = chars.len();
    assert(chars@.subrange(0, end as int) =~= raw@);
    let (hours, from, to) = match with_unit(raw, &chars, 0, end, 'h') {
        Ok(found) => found,
        Err(e) => {
            return Err(e);
        },
    };
    let (minutes, from, to) = match with_unit(raw, &chars, from, to, 'm') {
        Ok(found) => found,
        Err(e) => {
            return Err(e);
        },
    };
    let (seconds, _, _) = match with_unit(raw, &chars, from, to, 's') {
        Ok(found) => found,
        Err(e) => {
            return Err(e);
        },
    };
    let total: u128 = hours as u128 * HOUR as u128 + minutes as u128 * MINUTE as u128
        + seconds as u128;
    if total > u64::MAX as u128 {
        Err(ParseError::Overflow)
    } else {
        Ok(total as u64)
    }
}

/// The state of a timer as it may be kept between two runs of the program:
/// the seconds that are left and the lengths that the run was started with.
/// Nothing in this library reads or writes it.
#[derive(Debug, Clone, Copy, PartialEq, Eq)]
pub struct TimerState {
    /// The seconds that are left of the phase.
    pub sec: u64,
    /// The length of a session, in seconds.
    pub session_sec: u64,
    /// The length of a break, in seconds.
    pub break_sec: u64,
}

/// The two kinds of phase.
#[derive(Debug, Clone, Copy, PartialEq, Eq)]
pub enum TimerType {
    /// Time to work.
    Session,
    /// Time to rest.
    Break,
}

/// One session or one break.
#[derive(Debug, Clone, Copy, PartialEq, Eq)]
pub struct Phase {
    /// Whether it is a session or a break.
    pub kind: TimerType,
    /// How long it lasts, in seconds.
    pub seconds: u64,
    /// The repetition that it belongs to, counted from 0.
    pub ordinal: usize,
    /// The number of repetitions of the whole run.
    pub number: usize,
}

/// What the scheduler asks for next.
#[derive(Debug, Clone, Copy, PartialEq, Eq)]
pub enum Step {
    /// Count this phase down to 0, showing each second.
    Run(Phase),
    /// Give the notification that a phase of this kind has ended, without
    /// waiting for it.
    Notify(TimerType),
}

/// The four steps of repetition `ordinal`: the session and its
/// notification, then the break and its notification.
pub open spec fn cycle(session_sec: u64, break_sec: u64, number: usize, ordinal: usize) -> Seq<Step> {
    seq![
        Step::Run(Phase { kind: TimerType::Session, seconds: session_sec, ordinal, number }),
        Step::Notify(TimerType::Session),
        Step::Run(Phase { kind: TimerType::Break, seconds: break_sec, ordinal, number }),
        Step::Notify(TimerType::Break),
    ]
}

/// The steps of the first `cycles` repetitions, in order.
pub open spec fn schedule(session_sec: u64, break_sec: u64, number: usize, cycles: nat) -> Seq<Step>
    decreases cycles,
{
    if cycles == 0 {
        Seq::empty()
    } else {
        schedule(session_sec, break_sec, number, (cycles - 1) as nat) + cycle(
            session_sec,
            break_sec,
            number,
            (cycles - 1) as usize,
        )
    }
}

/// The steps of a whole run of `number` repetitions.
pub open spec fn plan(session_sec: u64, break_sec: u64, number: usize) -> Seq<Step> {
    schedule(session_sec, break_sec, number, number as nat)
}

/// The first `cycles` repetitions take four steps each, and step `j` of
/// repetition `i` is step `4 * i + j` of them all.
pub proof fn lemma_schedule(session_sec: u64, break_sec: u64, number: usize, cycles: nat)
    requires
        cycles <= usize::MAX,
    ensures
        schedule(session_sec, break_sec, number, cycles).len() == 4 * cycles,
        forall|i: int, j: int|
            0 <= i < cycles && 0 <= j < 4 ==> #[trigger] schedule(
                session_sec,
                break_sec,
                number,
                cycles,
            )[4 * i + j] == cycle(session_sec, break_sec, number, i as usize)[j],
    decreases cycles,
{
    if cycles > 0 {
        let before = schedule(session_sec, break_sec, number, (cycles - 1) as nat);
        let last = cycle(session_sec, break_sec, number, (cycles - 1) as usize);
        let all = schedule(session_sec, break_sec, number, cycles);
        lemma_schedule(session_sec, break_sec, number, (cycles - 1) as nat);
        assert forall|i: int, j: int| 0 <= i < cycles && 0 <= j < 4 implies #[trigger] all[4 * i
            + j] == cycle(session_sec, break_sec, number, i as usize)[j] by {
            if i < cycles - 1 {
                assert(all[4 * i + j] == before[4 * i + j]);
            } else {
                assert(all[4 * i + j] == last[j]);
            }
        }
    }
}

/// A run of `number` repetitions is `number` sessions and `number` breaks in
/// turn, the session first, and each phase is followed at once by the one
/// notification of its kind: step `4 * i` runs session `i`, step `4 * i + 1`
/// notifies its end, step `4 * i + 2` runs break `i`, and step `4 * i + 3`
/// notifies its end. After the last notification nothing follows.
pub proof fn lemma_plan(session_sec: u64, break_sec: u64, number: usize)
    ensures
        plan(session_sec, break_sec, number).len() == 4 * number,
        forall|i: int|
            0 <= i < number ==> {
                &&& #[trigger] plan(session_sec, break_sec, number)[4 * i] == Step::Run(
                    Phase {
                        kind: TimerType::Session,
                        seconds: session_sec,
                        ordinal: i as usize,
                        number,
                    },
                )
                &&& plan(session_sec, break_sec, number)[4 * i + 1] == Step::Notify(
                    TimerType::Session,
                )
                &&& plan(session_sec, break_sec, number)[4 * i + 2] == Step::Run(
                    Phase {
                        kind: TimerType::Break,
                        seconds: break_sec,
                        ordinal: i as usize,
                        number,
                    },
                )
                &&& plan(session_sec, break_sec, number)[4 * i + 3] == Step::Notify(
                    TimerType::Break,
                )
            },
{
    let all = plan(session_sec, break_sec, number);
    lemma_schedule(session_sec, break_sec, number, number as nat);
    assert forall|i: int| 0 <= i < number implies {
        &&& #[trigger] all[4 * i] == Step::Run(
            Phase { kind: TimerType::Session, seconds: session_sec, ordinal: i as usize, number },
        )
        &&& all[4 * i + 1] == Step::Notify(TimerType::Session)
        &&& all[4 * i + 2] == Step::Run(
            Phase { kind: TimerType::Break, seconds: break_sec, ordinal: i as usize, number },
        )
        &&& all[4 * i + 3] == Step::Notify(TimerType::Break)
    } by {
        let c = cycle(session_sec, break_sec, number, i as usize);
        assert(all[4 * i + 0] == c[0]);
        assert(all[4 * i + 1] == c[1]);
        assert(all[4 * i + 2] == c[2]);
        assert(all[4 * i + 3] == c[3]);
    }
}

/// What comes next within a repetition.
#[derive(Debug, Clone, Copy, PartialEq, Eq)]
enum Stage {
    SessionRun,
    SessionEnd,
    BreakRun,
    BreakEnd,
}

/// The mathematical value of a [`Timer`].
pub struct RunState {
    /// The length of a session, in seconds.
    pub session_sec: u64,
    /// The length of a break, in seconds.
    pub break_sec: u64,
    /// The number of repetitions.
    pub number: usize,
    /// How many steps of the plan have been handed out.
    pub position: nat,
    /// The length of the phase that was handed out last, and 0 before the first.
    pub current_sec: u64,
}

impl RunState {
    /// The steps of the whole run.
    pub open spec fn plan(self) -> Seq<Step> {
        plan(self.session_sec, self.break_sec, self.number)
    }

    /// The state after `step` was handed out.
    pub open spec fn after(self, step: Step) -> RunState {
        RunState {
            position: self.position + 1,
            current_sec: match step {
                Step::Run(phase) => phase.seconds,
                Step::Notify(_) => self.current_sec,
            },
            ..self
        }
    }
}

/// The scheduler of a run: `number` times a session and a break.
#[derive(Debug)]
pub struct Timer {
    session_sec: u64,
    break_sec: u64,
    number: usize,
    current: usize,
    current_sec: u64,
    stage: Stage,
}

impl View for Timer {
    type V = RunState;

    closed spec fn view(&self) -> RunState {
        RunState {
            session_sec: self.session_sec,
            break_sec: self.break_sec,
            number: self.number,
            position: if self.current >= self.number {
                4 * self.number as nat
            } else {
                (4 * self.current + match self.stage {
                    Stage::SessionRun => 0int,
                    Stage::SessionEnd => 1int,
                    Stage::BreakRun => 2int,
                    Stage::BreakEnd => 3int,
                }) as nat
            },
            current_sec: self.current_sec,
        }
    }
}

impl Timer {
    /// A run of `number` repetitions of a session of `session_sec` seconds
    /// and a break of `break_sec` seconds, before its first step.
    pub fn new(session_sec: u64, break_sec: u64, number: usize) -> (res: Self)
        ensures
            res@ == (RunState { session_sec, break_sec, number, position: 0, current_sec: 0 }),
    {
        Self { session_sec, break_sec, number, current: 0, current_sec: 0, stage: Stage::SessionRun }
    }

    /// Goes back to the beginning of the run.
    pub fn start(&mut self)
        ensures
            final(self)@ == (RunState { position: 0, current_sec: 0, ..old(self)@ }),
    {
        self.current = 0;
        self.current_sec = 0;
        self.stage = Stage::SessionRun;
    }

    /// Hands out the next step of the plan, and `None` once the last
    /// notification has been handed out.
    pub fn next_step(&mut self) -> (res: Option<Step>)
        ensures
            old(self)@.position < old(self)@.plan().len() ==> res == Some(
                old(self)@.plan()[old(self)@.position as int],
            ),
            old(self)@.position < old(self)@.plan().len() ==> final(self)@ == old(self)@.after(
                old(self)@.plan()[old(self)@.position as int],
            ),
            old(self)@.position >= old(self)@.plan().len() ==> res.is_none(),
            old(self)@.position >= old(self)@.plan().len() ==> final(self)@ == old(self)@,
    {
        proof {
            lemma_plan(self.session_sec, self.break_sec, self.number);
        }
        if self.current >= self.number {
            return None;
        }
        let ghost i = self.current as int;
        let ordinal = self.current;
        let number = self.number;
        let step = match self.stage {
            Stage::SessionRun => {
                self.stage = Stage::SessionEnd;
                self.current_sec = self.session_sec;
                Step::Run(
                    Phase { kind: TimerType::Session, seconds: self.session_sec, ordinal, number },
                )
            },
            Stage::SessionEnd => {
                self.stage = Stage::BreakRun;
                Step::Notify(TimerType::Session)
            },
            Stage::BreakRun => {
                self.stage = Stage::BreakEnd;
                self.current_sec = self.break_sec;
                Step::Run(
                    Phase { kind: TimerType::Break, seconds: self.break_sec, ordinal, number },
                )
            },
            Stage::BreakEnd => {
                self.stage = Stage::SessionRun;
                self.current = self.current + 1;
                Step::Notify(TimerType::Break)
            },
        };
        proof {
            let all = old(self)@.plan();
            assert(all[4 * i] == all[4 * i + 0]);
        }
        Some(step)
    }

    /// Whether every step of the plan has been handed out.
    pub fn is_done(&self) -> (done: bool)
        ensures
            done == (self@.position >= self@.plan().len()),
    {
        proof {
            lemma_plan(self.session_sec, self.break_sec, self.number);
        }
        self.current >= self.number
    }

    /// The length of a session, in seconds.
    pub fn session_sec(&self) -> (sec: u64)
        ensures
            sec == self@.session_sec,
    {
        self.session_sec
    }

    /// The length of a break, in seconds.
    pub fn break_sec(&self) -> (sec: u64)
        ensures
            sec == self@.break_sec,
    {
        self.break_sec
    }

    /// The number of repetitions.
    pub fn number(&self) -> (number: usize)
        ensures
            number == self@.number,
    {
        self.number
    }

    /// The length of the phase that was handed out last, and 0 before the first.
    pub fn current_sec(&self) -> (sec: u64)
        ensures
            sec == self@.current_sec,
    {
        self.current_sec
    }
}

/// The values that a countdown from `from` shows: `from - 1` down to 0.
pub open spec fn falling(from: u64) -> Seq<u64> {
    Seq::new(from as nat, |i: int| (from - 1 - i) as u64)
}

/// A countdown from `from` shows `from` values, each one less than the one
/// before it, from `from - 1` down to 0.
pub proof fn lemma_falling(from: u64)
    ensures
        falling(from).len() == from,
        forall|i: int| 0 <= i < from ==> #[trigger] falling(from)[i] == from - 1 - i,
        forall|i: int, j: int| 0 <= i < j < from ==> falling(from)[i] > falling(from)[j],
        from > 0 ==> falling(from).first() == from - 1 && falling(from).last() == 0,
{
}

/// What the consumer of a countdown does next.
#[derive(Debug, Clone, Copy, PartialEq, Eq)]
pub enum Move {
    /// Wait until the pause is over, then ask again.
    Hold,
    /// Show this value, then ask again.
    Show(u64),
    /// Wait for the next tick, then ask again.
    Wait,
    /// The countdown has been shown down to 0: the phase is over.
    Stop,
}

/// The mathematical value of a [`Countdown`].
pub struct Progress {
    /// The seconds that are left of the phase.
    pub remaining: u64,
    /// The value that the consumer was shown last; the length of the phase
    /// before it was shown any.
    pub seen: u64,
}

impl Progress {
    /// What the consumer is shown when it looks: the seconds that are left,
    /// where they are fewer than it has seen.
    pub open spec fn pending(self) -> Seq<u64> {
        if self.remaining < self.seen {
            seq![self.remaining]
        } else {
            Seq::empty()
        }
    }

    /// What the consumer does next. A pause holds it back before anything
    /// else; a countdown that it has seen at 0 is over; a value that it has
    /// not seen is shown; and otherwise it waits for the next tick.
    pub open spec fn next_move(self, paused: bool) -> Move {
        if paused {
            Move::Hold
        } else if self.seen == 0 {
            Move::Stop
        } else if self.remaining < self.seen {
            Move::Show(self.remaining)
        } else {
            Move::Wait
        }
    }
}

/// The countdown of one phase: the seconds that are left, which a tick
/// source takes down one by one, and what the consumer has seen of them.
#[derive(Debug)]
pub struct Countdown {
    remaining: u64,
    seen: u64,
}

impl View for Countdown {
    type V = Progress;

    closed spec fn view(&self) -> Progress {
        Progress { remaining: self.remaining, seen: self.seen }
    }
}

impl Countdown {
    #[verifier::type_invariant]
    spec fn inv(self) -> bool {
        self.remaining <= self.seen
    }

    /// A countdown of `duration` seconds, of which nothing has gone by.
    pub fn start(duration: u64) -> (res: Self)
        ensures
            res@ == (Progress { remaining: duration, seen: duration }),
    {
        Self { remaining: duration, seen: duration }
    }

    /// The seconds that are left.
    pub fn remaining(&self) -> (sec: u64)
        ensures
            sec == self@.remaining,
            sec <= self@.seen,
    {
        proof {
            use_type_invariant(self);
        }
        self.remaining
    }

    /// Whether the tick source has seconds left to take down.
    pub fn is_running(&self) -> (running: bool)
        ensures
            running == (self@.remaining > 0),
    {
        self.remaining > 0
    }

    /// Whether the consumer has seen the countdown reach 0.
    pub fn is_finished(&self) -> (finished: bool)
        ensures
            finished == (self@.seen == 0),
    {
        self.seen == 0
    }

    /// One tick of the source: takes the seconds that are left down by
    /// exactly one and gives the new value. At 0 nothing changes and nothing
    /// is given.
    pub fn tick(&mut self) -> (res: Option<u64>)
        ensures
            old(self)@.remaining > 0 ==> res == Some((old(self)@.remaining - 1) as u64),
            old(self)@.remaining > 0 ==> final(self)@ == (Progress {
                remaining: (old(self)@.remaining - 1) as u64,
                ..old(self)@
            }),
            old(self)@.remaining == 0 ==> res.is_none() && final(self)@ == old(self)@,
    {
        proof {
            use_type_invariant(&*self);
        }
        if self.remaining > 0 {
            self.remaining = self.remaining - 1;
            Some(self.remaining)
        } else {
            None
        }
    }

    /// Tells the consumer what to do next, as [`Progress::next_move`] says,
    /// and remembers the value that it is told to show. The pause holds the
    /// consumer back and leaves the seconds to the tick source.
    pub fn next_move(&mut self, gate: &PauseGate) -> (res: Move)
        ensures
            res == old(self)@.next_move(gate@),
            final(self)@.remaining == old(self)@.remaining,
            final(self)@.seen == (if res is Show {
                old(self)@.remaining
            } else {
                old(self)@.seen
            }),
    {
        proof {
            use_type_invariant(&*self);
        }
        if gate.is_paused() {
            Move::Hold
        } else if self.seen == 0 {
            Move::Stop
        } else if self.remaining < self.seen {
            self.seen = self.remaining;
            Move::Show(self.seen)
        } else {
            Move::Wait
        }
    }

    /// Runs the countdown to its end with nothing paused: the consumer is
    /// asked for its next move again and again, and the source ticks each
    /// time that the consumer waits for it. The result holds the values that
    /// the consumer was told to show, in order: for a countdown of `duration`
    /// seconds that has just started, the `duration` values from
    /// `duration - 1` down to 0.
    pub fn run_to_completion(&mut self) -> (shown: Vec<u64>)
        ensures
            shown@ == old(self)@.pending() + falling(old(self)@.remaining),
            final(self)@ == (Progress { remaining: 0, seen: 0 }),
    {
        proof {
            use_type_invariant(&*self);
        }
        let ghost all = self@.pending() + falling(self@.remaining);
        let gate = PauseGate::new();
        let mut shown: Vec<u64> = Vec::new();
        assert(shown@ + all =~= all);
        loop
            invariant_except_break
                !gate@,
                self@.remaining <= self@.seen,
                shown@ + self@.pending() + falling(self@.remaining) == all,
            ensures
                shown@ == all,
                self@ == (Progress { remaining: 0, seen: 0 }),
            decreases self@.remaining + self@.seen,
        {
            let ghost before = shown@;
            let ghost left = self@.remaining;
            match self.next_move(&gate) {
                Move::Show(value) => {
                    shown.push(value);
                    assert(shown@ + self@.pending() + falling(left) =~= before + seq![left]
                        + falling(left));
                },
                Move::Wait => {
                    self.tick();
                    assert(seq![(left - 1) as u64] + falling((left - 1) as u64) =~= falling(left));
                    assert(shown@ + self@.pending() + falling((left - 1) as u64) =~= before
                        + Seq::<u64>::empty() + falling(left));
                },
                Move::Stop => {
                    assert(shown@ + Seq::<u64>::empty() + falling(0) =~= shown@);
                    break ;
                },
                Move::Hold => {},
            }
        }
        shown
    }
}

} // verus!
