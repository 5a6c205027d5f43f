//! Characters, lines and decimal numbers: what the parsers and the renderer
//! share.

use vstd::prelude::*;
use vstd::string::StringExecFns;

verus! {

/// The index of the first `c` in `s`, and the length of `s` where it holds none.
pub open spec fn first_index(s: Seq<char>, c: char) -> int
    decreases s.len(),
{
    if s.len() == 0 {
        0
    } else if s[0] == c {
        0
    } else {
        1 + first_index(s.drop_first(), c)
    }
}

/// `first_index` is within `s`, points at `c` where `s` holds it, and nothing
/// before it is `c`.
pub proof fn lemma_first_index(s: Seq<char>, c: char)
    ensures
        0 <= first_index(s, c) <= s.len(),
        first_index(s, c) < s.len() <==> s.contains(c),
        first_index(s, c) < s.len() ==> s[first_index(s, c)] == c,
        forall|j: int| 0 <= j < first_index(s, c) ==> s[j] != c,
    decreases s.len(),
{
    if s.len() == 0 {
    } else if s[0] == c {
        assert(s.contains(c));
    } else {
        let rest = s.drop_first();
        lemma_first_index(rest, c);
        let i = first_index(rest, c);
        if i < rest.len() {
            assert(s[i + 1] == c);
            assert(s.contains(c));
        } else {
            if s.contains(c) {
                let k = choose|k: int| 0 <= k < s.len() && s[k] == c;
                assert(rest[k - 1] == c);
                assert(rest.contains(c));
            }
        }
        assert forall|j: int| 0 <= j < first_index(s, c) implies s[j] != c by {
            if j > 0 {
                assert(rest[j - 1] != c);
            }
        }
    }
}

/// An index that points at `c`, with no `c` before it, is the first index;
/// so is the length of `s` where `s` holds no `c`.
pub proof fn lemma_first_index_is(s: Seq<char>, c: char, i: int)
    requires
        0 <= i <= s.len(),
        i < s.len() ==> s[i] == c,
        forall|j: int| 0 <= j < i ==> s[j] != c,
    ensures
        first_index(s, c) == i,
{
    lemma_first_index(s, c);
    let f = first_index(s, c);
    if f < i {
        assert(s[f] == c);
    } else if f > i {
        assert(s[i] != c);
    }
}

/// The lines of `s`: the pieces between its line feeds, so that a text of
/// `n` line feeds has `n + 1` lines, empty ones included.
pub open spec fn split_lines(s: Seq<char>) -> Seq<Seq<char>>
    decreases s.len(),
{
    if s.len() == 0 {
        seq![Seq::empty()]
    } else {
        let before = split_lines(s.drop_last());
        if s.last() == '\n' {
            before.push(Seq::empty())
        } else {
            before.drop_last().push(before.last().push(s.last()))
        }
    }
}

/// The lines put together again, with a line feed between each two.
pub open spec fn join_lines(lines: Seq<Seq<char>>) -> Seq<char>
    decreases lines.len(),
{
    if lines.len() == 0 {
        Seq::empty()
    } else if lines.len() == 1 {
        lines[0]
    } else {
        join_lines(lines.drop_last()) + seq!['\n'] + lines.last()
    }
}

/// The number of line feeds in `s`.
pub open spec fn line_feeds(s: Seq<char>) -> nat
    decreases s.len(),
{
    if s.len() == 0 {
        0
    } else if s.last() == '\n' {
        line_feeds(s.drop_last()) + 1
    } else {
        line_feeds(s.drop_last())
    }
}

/// A text splits into one line more than it has line feeds; no line holds a
/// line feed; and the lines joined by line feeds are the text.
pub proof fn lemma_split_lines(s: Seq<char>)
    ensures
        split_lines(s).len() == line_feeds(s) + 1,
        forall|j: int| 0 <= j < split_lines(s).len() ==> !(#[trigger] split_lines(s)[j]).contains('\n'),
        join_lines(split_lines(s)) == s,
    decreases s.len(),
{
    let lines = split_lines(s);
    if s.len() == 0 {
        assert forall|j: int| 0 <= j < lines.len() implies !(#[trigger] lines[j]).contains(
            '\n',
        ) by {
            assert(lines[j] =~= Seq::<char>::empty());
        }
        assert(join_lines(lines) =~= s);
    } else {
        let head = s.drop_last();
        let before = split_lines(head);
        lemma_split_lines(head);
        assert(s =~= head.push(s.last()));
        if s.last() == '\n' {
            assert(lines.drop_last() =~= before);
            assert(join_lines(lines) =~= join_lines(before) + seq!['\n'] + lines.last());
            assert(join_lines(lines) =~= s);
            assert forall|j: int| 0 <= j < lines.len() implies !(#[trigger] lines[j]).contains(
                '\n',
            ) by {
                if j < before.len() {
                    assert(lines[j] == before[j]);
                }
            }
        } else {
            let last = before.last().push(s.last());
            assert(lines.last() == last);
            assert forall|j: int| 0 <= j < lines.len() implies !(#[trigger] lines[j]).contains(
                '\n',
            ) by {
                if j < before.len() - 1 {
                    assert(lines[j] == before[j]);
                } else {
                    if last.contains('\n') {
                        let k = choose|k: int| 0 <= k < last.len() && last[k] == '\n';
                        assert(before.last()[k] == '\n');
                        assert(before.last().contains('\n'));
                    }
                }
            }
            if before.len() == 1 {
                assert(join_lines(before) == before[0]);
                assert(join_lines(lines) =~= s);
            } else {
                assert(lines.drop_last() =~= before.drop_last());
                assert(join_lines(lines) =~= join_lines(before.drop_last()) + seq!['\n'] + last);
                assert(join_lines(before) =~= join_lines(before.drop_last()) + seq!['\n']
                    + before.last());
                assert(join_lines(lines) =~= s);
            }
        }
    }
}

/// Where line `j` ends, given where the lines start in a text of `n`
/// characters: before the line feed in front of the next line, or at the end.
pub open spec fn line_end(starts: Seq<usize>, j: int, n: int) -> int {
    if j + 1 < starts.len() {
        starts[j + 1] - 1
    } else {
        n
    }
}

/// Whether `starts` tells where each line of `s` begins.
pub open spec fn marks_lines(starts: Seq<usize>, s: Seq<char>) -> bool {
    &&& starts.len() == split_lines(s).len()
    &&& forall|j: int|
        0 <= j < starts.len() ==> 0 <= #[trigger] starts[j] <= line_end(starts, j, s.len() as int)
            <= s.len()
    &&& forall|j: int|
        0 <= j < starts.len() ==> #[trigger] split_lines(s)[j] == s.subrange(
            starts[j] as int,
            line_end(starts, j, s.len() as int),
        )
}

/// The characters of `s`.
pub fn to_chars(s: &str) -> (chars: Vec<char>)
    ensures
        chars@ == s@,
{
    let mut chars: Vec<char> = Vec::new();
    for c in it: s.chars()
        invariant
            chars@ == it.seq().take(it.index()),
            it.seq() == s@,
    {
        chars.push(c);
    }
    chars
}

/// Where each line of `chars` begins.
pub fn line_starts(chars: &Vec<char>) -> (starts: Vec<usize>)
    ensures
        marks_lines(starts@, chars@),
{
    let mut starts: Vec<usize> = Vec::new();
    starts.push(0);
    let mut i: usize = 0;
    assert(chars@.take(0) =~= Seq::<char>::empty());
    assert(split_lines(chars@.take(0))[0] =~= chars@.take(0).subrange(0, 0));
    while i < chars.len()
        invariant
            i <= chars.len(),
            marks_lines(starts@, chars@.take(i as int)),
        decreases chars.len() - i,
    {
        let ghost head = chars@.take(i as int);
        let ghost now = chars@.take(i + 1);
        let ghost before = split_lines(head);
        let ghost old_starts = starts@;
        proof {
            assert(now.drop_last() =~= head);
            assert(now.last() == chars@[i as int]);
        }
        if chars[i] == '\n' {
            starts.push(i + 1);
            proof {
                let lines = split_lines(now);
                assert(lines == before.push(Seq::empty()));
                assert forall|j: int| 0 <= j < starts@.len() implies 0 <= #[trigger] starts@[j]
                    <= line_end(starts@, j, now.len() as int) <= now.len() by {
                    if j + 1 < old_starts.len() {
                        assert(starts@[j] == old_starts[j]);
                        assert(line_end(starts@, j, now.len() as int) == line_end(
                            old_starts,
                            j,
                            head.len() as int,
                        ));
                    } else if j + 1 == old_starts.len() {
                        assert(starts@[j] == old_starts[j]);
                        assert(line_end(old_starts, j, head.len() as int) == i);
                    }
                }
                assert forall|j: int| 0 <= j < starts@.len() implies #[trigger] lines[j]
                    == now.subrange(starts@[j] as int, line_end(starts@, j, now.len() as int)) by {
                    if j < old_starts.len() {
                        assert(starts@[j] == old_starts[j]);
                        assert(lines[j] == before[j]);
                        assert(line_end(starts@, j, now.len() as int) == line_end(
                            old_starts,
                            j,
                            head.len() as int,
                        ));
                        assert(head.subrange(
                            old_starts[j] as int,
                            line_end(old_starts, j, head.len() as int),
                        ) =~= now.subrange(
                            starts@[j] as int,
                            line_end(starts@, j, now.len() as int),
                        ));
                    } else {
                        assert(lines[j] =~= now.subrange(i + 1, i + 1));
                    }
                }
            }
        } else {
            proof {
                let lines = split_lines(now);
                let last = before.len() - 1;
                assert(lines == before.drop_last().push(before.last().push(now.last())));
                assert forall|j: int| 0 <= j < starts@.len() implies 0 <= #[trigger] starts@[j]
                    <= line_end(starts@, j, now.len() as int) <= now.len() by {
                    if j < last {
                        assert(line_end(starts@, j, now.len() as int) == line_end(
                            starts@,
                            j,
                            head.len() as int,
                        ));
                    }
                }
                assert forall|j: int| 0 <= j < starts@.len() implies #[trigger] lines[j]
                    == now.subrange(starts@[j] as int, line_end(starts@, j, now.len() as int)) by {
                    if j < last {
                        assert(lines[j] == before[j]);
                        assert(head.subrange(
                            starts@[j] as int,
                            line_end(starts@, j, head.len() as int),
                        ) =~= now.subrange(
                            starts@[j] as int,
                            line_end(starts@, j, now.len() as int),
                        ));
                    } else {
                        assert(before[j] == head.subrange(starts@[j] as int, i as int));
                        assert(lines[j] =~= now.subrange(starts@[j] as int, i + 1));
                    }
                }
            }
        }
        i += 1;
    }
    assert(chars@.take(chars.len() as int) =~= chars@);
    starts
}

/// The code of a character is a number of 21 bits.
pub proof fn lemma_char_code(c: char)
    ensures
        0 <= c as int <= 0x10FFFF,
        c as u32 == c as int,
{
}

/// Whether `c` is one of the digits `0` to `9`.
pub open spec fn is_digit(c: char) -> bool {
    '0' <= c <= '9'
}

/// The number that a text of digits stands for, read in base ten.
pub open spec fn digits_value(s: Seq<char>) -> nat
    decreases s.len(),
{
    if s.len() == 0 {
        0
    } else {
        digits_value(s.drop_last()) * 10 + (s.last() as int - '0' as int) as nat
    }
}

/// Whether every character of `s` is a digit.
pub open spec fn all_digits(s: Seq<char>) -> bool {
    forall|i: int| 0 <= i < s.len() ==> is_digit(#[trigger] s[i])
}

/// The value of the first digits of a text is at most the value of the whole.
pub proof fn lemma_digits_value_grows(s: Seq<char>, k: int)
    requires
        0 <= k <= s.len(),
        all_digits(s),
    ensures
        digits_value(s.take(k)) <= digits_value(s),
    decreases s.len() - k,
{
    if k < s.len() {
        let next = s.take(k + 1);
        assert(next.drop_last() =~= s.take(k));
        assert(is_digit(s[k]));
        assert(next.last() == s[k]);
        lemma_digits_value_grows(s, k + 1);
    } else {
        assert(s.take(k) =~= s);
    }
}

/// The decimal digit of a number below ten.
pub open spec fn digit(d: nat) -> char {
    if d == 0 {
        '0'
    } else if d == 1 {
        '1'
    } else if d == 2 {
        '2'
    } else if d == 3 {
        '3'
    } else if d == 4 {
        '4'
    } else if d == 5 {
        '5'
    } else if d == 6 {
        '6'
    } else if d == 7 {
        '7'
    } else if d == 8 {
        '8'
    } else {
        '9'
    }
}

/// A number in decimal digits, without leading zeros.
pub open spec fn decimal(n: nat) -> Seq<char>
    decreases n,
{
    if n < 10 {
        seq![digit(n)]
    } else {
        decimal(n / 10).push(digit(n % 10))
    }
}

/// The digit of a number below ten, as a string.
fn digit_str(d: u64) -> (s: &'static str)
    requires
        d < 10,
    ensures
        s@ == seq![digit(d as nat)],
{
    proof {
        reveal_strlit("0");
        reveal_strlit("1");
        reveal_strlit("2");
        reveal_strlit("3");
        reveal_strlit("4");
        reveal_strlit("5");
        reveal_strlit("6");
        reveal_strlit("7");
        reveal_strlit("8");
        reveal_strlit("9");
    }
    let s = if d == 0 {
        "0"
    } else if d == 1 {
        "1"
    } else if d == 2 {
        "2"
    } else if d == 3 {
        "3"
    } else if d == 4 {
        "4"
    } else if d == 5 {
        "5"
    } else if d == 6 {
        "6"
    } else if d == 7 {
        "7"
    } else if d == 8 {
        "8"
    } else {
        "9"
    };
    assert(s@ =~= seq![digit(d as nat)]);
    s
}

/// `n` in decimal digits.
pub fn decimal_string(n: u64) -> (s: String)
    ensures
        s@ == decimal(n as nat),
    decreases n,
{
    if n < 10 {
        String::from_str(digit_str(n))
    } else {
        let mut s = decimal_string(n / 10);
        s.append(digit_str(n % 10));
        assert(s@ =~= decimal(n as nat));
        s
    }
}

/// A number in decimal digits is digits only, one at least, and read in
/// base ten it is the number again.
pub proof fn lemma_decimal(n: nat)
    ensures
        decimal(n).len() >= 1,
        all_digits(decimal(n)),
        digits_value(decimal(n)) == n,
        n > 0 ==> decimal(n)[0] != '0',
    decreases n,
{
    let s = decimal(n);
    if n < 10 {
        assert(s.drop_last() =~= Seq::<char>::empty());
        assert(digits_value(s.drop_last()) == 0);
    } else {
        let head = decimal(n / 10);
        lemma_decimal(n / 10);
        assert(s.drop_last() =~= head);
        assert(s.last() == digit(n % 10));
        assert forall|i: int| 0 <= i < s.len() implies is_digit(#[trigger] s[i]) by {
            if i < head.len() {
                assert(s[i] == head[i]);
            }
        }
        assert(s[0] == head[0]);
    }
}

/// Ten to the power of `k`.
pub open spec fn power_of_ten(k: nat) -> nat
    decreases k,
{
    if k == 0 {
        1
    } else {
        10 * power_of_ten((k - 1) as nat)
    }
}

/// A number below ten to the power of `k` has `k` digits at most.
pub proof fn lemma_decimal_len(n: nat, k: nat)
    requires
        k >= 1,
        n < power_of_ten(k),
    ensures
        decimal(n).len() <= k,
    decreases k,
{
    if n >= 10 {
        assert(power_of_ten(1) == 10) by {
            reveal_with_fuel(power_of_ten, 2);
        }
        assert(k >= 2);
        lemma_decimal_len(n / 10, (k - 1) as nat);
    }
}

/// A number of 64 bits has twenty digits at most.
pub proof fn lemma_decimal_u64(n: u64)
    ensures
        1 <= decimal(n as nat).len() <= 20,
{
    assert(power_of_ten(20) == 100_000_000_000_000_000_000nat) by {
        reveal_with_fuel(power_of_ten, 21);
    }
    lemma_decimal_len(n as nat, 20);
    lemma_decimal(n as nat);
}

} // verus!
