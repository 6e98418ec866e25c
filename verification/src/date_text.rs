//! A `Datetime` as text: `YYYY-MM-DD HH:MM:SS`.
//!
//! Writing puts zeros in front of each number up to the width shown. Reading
//! takes two parts with a space between them, the first of three fields with
//! `-` between them, the second of three fields with `:` between them; each
//! field is a number in digits, and together they must name a day of the
//! calendar and a second of it. What was written for a valid value is read
//! back as it was, which is proved at the end.

use crate::date::{Datetime, Moment};
use crate::text::chars_of;
use vstd::prelude::*;

verus! {

/// Why a text is not read as a `Datetime`.
#[derive(Debug, Clone, Copy, PartialEq, Eq, Structural)]
pub enum ParseError {
    /// The text is not two parts with one space between them.
    Layout,
    /// The first part is not three fields with `-` between them.
    Date,
    /// The second part is not three fields with `:` between them.
    Time,
    /// A field is not a number, or not one that its place in the calendar
    /// takes: a month from 1 to 12, a day of that month, an hour below 24, a
    /// minute or a second below 60.
    Number,
}

/// The character that writes the digit `d`.
pub open spec fn digit_char(d: nat) -> char {
    if d == 0 {
        '0'
    } else if d == 1 {
        '1'
    } else if d == 2 {
        '2'
    } else if d == 3 {
        '3'
    } else if d == 4 {
        '4'
    } else if d == 5 {
        '5'
    } else if d == 6 {
        '6'
    } else if d == 7 {
        '7'
    } else if d == 8 {
        '8'
    } else {
        '9'
    }
}

/// The decimal digits of `n`, without leading zeros.
pub open spec fn digits(n: nat) -> Seq<char>
    decreases n,
{
    if n < 10 {
        seq![digit_char(n)]
    } else {
        digits(n / 10).push(digit_char(n % 10))
    }
}

/// The decimal digits of `n`, with zeros in front up to `width` characters.
pub open spec fn padded(n: nat, width: nat) -> Seq<char> {
    let written = digits(n);
    if written.len() >= width {
        written
    } else {
        Seq::new((width - written.len()) as nat, |i: int| '0') + written
    }
}

/// Three fields with `between` between them.
pub open spec fn three_fields(a: Seq<char>, b: Seq<char>, c: Seq<char>, between: char) -> Seq<char> {
    a + seq![between] + b + seq![between] + c
}

impl Moment {
    /// The day of the moment written as `YYYY-MM-DD`.
    pub open spec fn date_text(self) -> Seq<char> {
        three_fields(
            padded(self.year as nat, 4),
            padded(self.month as nat, 2),
            padded(self.day as nat, 2),
            '-',
        )
    }

    /// The time of day of the moment written as `HH:MM:SS`.
    pub open spec fn time_text(self) -> Seq<char> {
        three_fields(
            padded(self.hour as nat, 2),
            padded(self.minute as nat, 2),
            padded(self.second as nat, 2),
            ':',
        )
    }

    /// The moment written as `YYYY-MM-DD HH:MM:SS`.
    pub open spec fn text(self) -> Seq<char> {
        self.date_text() + seq![' '] + self.time_text()
    }
}

/// Whether a character is a decimal digit.
pub open spec fn is_digit(c: char) -> bool {
    '0' <= c && c <= '9'
}

/// The value of a decimal digit.
pub open spec fn digit_value(c: char) -> int {
    c as int - '0' as int
}

/// The number that the digits of `s` from `from` up to `to` write.
pub open spec fn decimal_between(s: Seq<char>, from: int, to: int) -> nat
    decreases to - from,
{
    if to <= from {
        0
    } else {
        (decimal_between(s, from, to - 1) * 10 + digit_value(s[to - 1])) as nat
    }
}

/// The number that `s` writes from `from` up to `to`: digits, at least one,
/// with or without a `+` in front. `None` for anything else, and for a number
/// above `limit`.
pub open spec fn field(s: Seq<char>, from: int, to: int, limit: nat) -> Option<nat> {
    let start = if from < to && s[from] == '+' {
        from + 1
    } else {
        from
    };
    if start < to && (forall|i: int| start <= i < to ==> is_digit(#[trigger] s[i]))
        && decimal_between(s, start, to) <= limit {
        Some(decimal_between(s, start, to))
    } else {
        None
    }
}

/// The first position from `from` up to `to` at which `s` holds `c`.
pub open spec fn first_at(s: Seq<char>, c: char, from: int, to: int) -> Option<int>
    decreases to - from,
{
    if from >= to {
        None
    } else if s[from] == c {
        Some(from)
    } else {
        first_at(s, c, from + 1, to)
    }
}

/// The position of `c` in `s` between `from` and `to`, where it occurs there
/// once; else `None`.
pub open spec fn one_break(s: Seq<char>, c: char, from: int, to: int) -> Option<int> {
    match first_at(s, c, from, to) {
        Some(at) => if first_at(s, c, at + 1, to) is None {
            Some(at)
        } else {
            None
        },
        None => None,
    }
}

/// The two positions of `c` in `s` between `from` and `to`, where it occurs
/// there twice; else `None`.
pub open spec fn two_breaks(s: Seq<char>, c: char, from: int, to: int) -> Option<(int, int)> {
    match first_at(s, c, from, to) {
        Some(first) => match one_break(s, c, first + 1, to) {
            Some(second) => Some((first, second)),
            None => None,
        },
        None => None,
    }
}

/// The six numbers that a text holds: two parts with a space between them,
/// the first three fields with `-` between them, the second three fields with
/// `:` between them.
pub open spec fn fields(s: Seq<char>) -> Result<Moment, ParseError> {
    match one_break(s, ' ', 0, s.len() as int) {
        None => Err(ParseError::Layout),
        Some(space) => match two_breaks(s, '-', 0, space) {
            None => Err(ParseError::Date),
            Some((d1, d2)) => match (
                field(s, 0, d1, 65535),
                field(s, d1 + 1, d2, 255),
                field(s, d2 + 1, space, 255),
            ) {
                (Some(year), Some(month), Some(day)) => match two_breaks(
                    s,
                    ':',
                    space + 1,
                    s.len() as int,
                ) {
                    None => Err(ParseError::Time),
                    Some((t1, t2)) => match (
                        field(s, space + 1, t1, 255),
                        field(s, t1 + 1, t2, 255),
                        field(s, t2 + 1, s.len() as int, 255),
                    ) {
                        (Some(hour), Some(minute), Some(second)) => Ok(
                            Moment {
                                year: year as int,
                                month: month as int,
                                day: day as int,
                                hour: hour as int,
                                minute: minute as int,
                                second: second as int,
                            },
                        ),
                        _ => Err(ParseError::Number),
                    },
                },
                _ => Err(ParseError::Number),
            },
        },
    }
}

/// What a text is read as: its six numbers, where they name a day of the
/// calendar and a second of it.
pub open spec fn read(s: Seq<char>) -> Result<Moment, ParseError> {
    match fields(s) {
        Ok(moment) => if moment.valid() {
            Ok(moment)
        } else {
            Err(ParseError::Number)
        },
        Err(error) => Err(error),
    }
}

/// Digits that follow do not make a number smaller.
proof fn lemma_decimal_grows(s: Seq<char>, from: int, mid: int, to: int)
    requires
        from <= mid <= to,
        forall|i: int| mid <= i < to ==> is_digit(#[trigger] s[i]),
    ensures
        decimal_between(s, from, mid) <= decimal_between(s, from, to),
    decreases to - mid,
{
    if mid < to {
        lemma_decimal_grows(s, from, mid, to - 1);
        assert(is_digit(s[to - 1]));
    }
}

/// The text of one digit.
fn digit_text(d: u8) -> (text: &'static str)
    requires
        d < 10,
    ensures
        text@ == seq![digit_char(d as nat)],
{
    proof {
        reveal_strlit("0");
        reveal_strlit("1");
        reveal_strlit("2");
        reveal_strlit("3");
        reveal_strlit("4");
        reveal_strlit("5");
        reveal_strlit("6");
        reveal_strlit("7");
        reveal_strlit("8");
        reveal_strlit("9");
    }
    let text = if d == 0 {
        "0"
    } else if d == 1 {
        "1"
    } else if d == 2 {
        "2"
    } else if d == 3 {
        "3"
    } else if d == 4 {
        "4"
    } else if d == 5 {
        "5"
    } else if d == 6 {
        "6"
    } else if d == 7 {
        "7"
    } else if d == 8 {
        "8"
    } else {
        "9"
    };
    assert(text@ =~= seq![digit_char(d as nat)]);
    text
}

/// The digits of a number below 100,000, one by one.
proof fn lemma_digits(n: nat)
    requires
        n < 100_000,
    ensures
        n < 10 ==> digits(n) == seq![digit_char(n)],
        10 <= n < 100 ==> digits(n) == seq![digit_char(n / 10), digit_char(n % 10)],
        100 <= n < 1000 ==> digits(n) == seq![
            digit_char(n / 100),
            digit_char(n / 10 % 10),
            digit_char(n % 10),
        ],
        1000 <= n < 10_000 ==> digits(n) == seq![
            digit_char(n / 1000),
            digit_char(n / 100 % 10),
            digit_char(n / 10 % 10),
            digit_char(n % 10),
        ],
        10_000 <= n ==> digits(n) == seq![
            digit_char(n / 10_000),
            digit_char(n / 1000 % 10),
            digit_char(n / 100 % 10),
            digit_char(n / 10 % 10),
            digit_char(n % 10),
        ],
{
    reveal_with_fuel(digits, 6);
    if n < 10 {
    } else if n < 100 {
        assert(digits(n) =~= seq![digit_char(n / 10), digit_char(n % 10)]);
    } else if n < 1000 {
        assert(n / 10 / 10 == n / 100);
        assert(digits(n) =~= seq![
            digit_char(n / 100),
            digit_char(n / 10 % 10),
            digit_char(n % 10),
        ]);
    } else if n < 10_000 {
        assert(n / 10 / 10 == n / 100);
        assert(n / 10 / 10 / 10 == n / 1000);
        assert(digits(n) =~= seq![
            digit_char(n / 1000),
            digit_char(n / 100 % 10),
            digit_char(n / 10 % 10),
            digit_char(n % 10),
        ]);
    } else {
        assert(n / 10 / 10 == n / 100);
        assert(n / 10 / 10 / 10 == n / 1000);
        assert(n / 10 / 10 / 10 / 10 == n / 10_000);
        assert(digits(n) =~= seq![
            digit_char(n / 10_000),
            digit_char(n / 1000 % 10),
            digit_char(n / 100 % 10),
            digit_char(n / 10 % 10),
            digit_char(n % 10),
        ]);
    }
}

/// Appends `n` to `out`, with zeros in front up to `width` characters.
fn append_padded(out: &mut String, n: u16, width: u8)
    requires
        width == 2 || width == 4,
    ensures
        final(out)@ == old(out)@ + padded(n as nat, width as nat),
{
    proof {
        lemma_digits(n as nat);
    }
    let ghost before = out@;
    if n >= 10_000 {
        out.append(digit_text((n / 10_000) as u8));
    }
    if n >= 1000 || width >= 4 {
        out.append(digit_text((n / 1000 % 10) as u8));
    }
    if n >= 100 || width >= 4 {
        out.append(digit_text((n / 100 % 10) as u8));
    }
    out.append(digit_text((n / 10 % 10) as u8));
    out.append(digit_text((n % 10) as u8));
    assert(out@ =~= before + padded(n as nat, width as nat));
}

/// The first position from `from` up to `to` at which `chars` holds `c`.
fn find_char(chars: &Vec<char>, c: char, from: usize, to: usize) -> (found: Option<usize>)
    requires
        from <= to <= chars@.len(),
    ensures
        match found {
            Some(at) => first_at(chars@, c, from as int, to as int) == Some(at as int) && from
                <= at < to,
            None => first_at(chars@, c, from as int, to as int).is_none(),
        },
{
    let mut i: usize = from;
    while i < to
        invariant
            from <= i <= to <= chars@.len(),
            first_at(chars@, c, from as int, to as int) == first_at(chars@, c, i as int, to as int),
        decreases to - i,
    {
        if chars[i] == c {
            return Some(i);
        }
        i += 1;
    }
    None
}

/// The position of `c` between `from` and `to`, where it occurs there once.
fn find_one(chars: &Vec<char>, c: char, from: usize, to: usize) -> (found: Option<usize>)
    requires
        from <= to <= chars@.len(),
    ensures
        match found {
            Some(at) => one_break(chars@, c, from as int, to as int) == Some(at as int) && from
                <= at < to,
            None => one_break(chars@, c, from as int, to as int).is_none(),
        },
{
    match find_char(chars, c, from, to) {
        Some(at) => match find_char(chars, c, at + 1, to) {
            Some(_) => None,
            None => Some(at),
        },
        None => None,
    }
}

/// The two positions of `c` between `from` and `to`, where it occurs there
/// twice.
fn find_two(chars: &Vec<char>, c: char, from: usize, to: usize) -> (found: Option<(usize, usize)>)
    requires
        from <= to <= chars@.len(),
    ensures
        match found {
            Some((first, second)) => two_breaks(chars@, c, from as int, to as int) == Some(
                (first as int, second as int),
            ) && from <= first < second < to,
            None => two_breaks(chars@, c, from as int, to as int).is_none(),
        },
{
    match find_char(chars, c, from, to) {
        Some(first) => match find_one(chars, c, first + 1, to) {
            Some(second) => Some((first, second)),
            None => None,
        },
        None => None,
    }
}

/// The number that `chars` writes from `from` up to `to`, at most `limit`.
fn read_field(chars: &Vec<char>, from: usize, to: usize, limit: u16) -> (value: Option<u16>)
    requires
        from <= to <= chars@.len(),
    ensures
        match value {
            Some(v) => field(chars@, from as int, to as int, limit as nat) == Some(v as nat),
            None => field(chars@, from as int, to as int, limit as nat).is_none(),
        },
{
    let start: usize = if from < to && chars[from] == '+' {
        from + 1
    } else {
        from
    };
    if start >= to {
        return None;
    }
    let mut value: u32 = 0;
    let mut i: usize = start;
    while i < to
        invariant
            start <= i <= to <= chars@.len(),
            start < to,
            start == if from < to && chars@[from as int] == '+' {
                from + 1
            } else {
                from as int
            },
            value <= limit,
            value == decimal_between(chars@, start as int, i as int),
            forall|j: int| start <= j < i ==> is_digit(#[trigger] chars@[j]),
        decreases to - i,
    {
        let c = chars[i];
        if !('0' <= c && c <= '9') {
            return None;
        }
        value = value * 10 + (c as u32 - '0' as u32);
        if value > limit as u32 {
            proof {
                if forall|j: int| start <= j < to ==> is_digit(#[trigger] chars@[j]) {
                    lemma_decimal_grows(chars@, start as int, i + 1, to as int);
                }
            }
            return None;
        }
        i += 1;
    }
    Some(value as u16)
}

impl Datetime {
    /// Writes the value as `YYYY-MM-DD HH:MM:SS`, each number with zeros in
    /// front up to its width.
    pub fn to_string(&self) -> (text: String)
        ensures
            text@ == self@.text(),
    {
        proof {
            reveal_strlit("-");
            reveal_strlit(" ");
            reveal_strlit(":");
        }
        let mut text = String::new();
        append_padded(&mut text, self.year, 4);
        text.append("-");
        append_padded(&mut text, self.month as u16, 2);
        text.append("-");
        append_padded(&mut text, self.day as u16, 2);
        text.append(" ");
        append_padded(&mut text, self.hour as u16, 2);
        text.append(":");
        append_padded(&mut text, self.minute as u16, 2);
        text.append(":");
        append_padded(&mut text, self.second as u16, 2);
        assert(text@ =~= self@.text()) by {
            assert("-"@ =~= seq!['-']);
            assert(" "@ =~= seq![' ']);
            assert(":"@ =~= seq![':']);
        }
        text
    }

    /// Reads a value written as `YYYY-MM-DD HH:MM:SS`. A field may be
    /// shorter or longer than shown and may begin with `+`. The year goes up
    /// to 65535; the other fields must name a day of the calendar and a
    /// second of it, so a value that comes back is valid.
    pub fn from_str(s: &str) -> (result: Result<Datetime, ParseError>)
        ensures
            match read(s@) {
                Ok(moment) => result matches Ok(value) && value@ == moment && value@.valid(),
                Err(error) => result == Err::<Datetime, ParseError>(error),
            },
    {
        let chars = chars_of(s);
        let end = chars.len();
        let space = match find_one(&chars, ' ', 0, end) {
            Some(space) => space,
            None => {
                return Err(ParseError::Layout);
            },
        };
        let (d1, d2) = match find_two(&chars, '-', 0, space) {
            Some(found) => found,
            None => {
                return Err(ParseError::Date);
            },
        };
        let year = read_field(&chars, 0, d1, 65535);
        let month = read_field(&chars, d1 + 1, d2, 255);
        let day = read_field(&chars, d2 + 1, space, 255);
        let (year, month, day) = match (year, month, day) {
            (Some(year), Some(month), Some(day)) => (year, month, day),
            _ => {
                return Err(ParseError::Number);
            },
        };
        let (t1, t2) = match find_two(&chars, ':', space + 1, end) {
            Some(found) => found,
            None => {
                return Err(ParseError::Time);
            },
        };
        let hour = read_field(&chars, space + 1, t1, 255);
        let minute = read_field(&chars, t1 + 1, t2, 255);
        let second = read_field(&chars, t2 + 1, end, 255);
        let value = match (hour, minute, second) {
            (Some(hour), Some(minute), Some(second)) => Datetime {
                year,
                month: month as u8,
                day: day as u8,
                hour: hour as u8,
                minute: minute as u8,
                second: second as u8,
            },
            _ => {
                return Err(ParseError::Number);
            },
        };
        if value.is_valid() {
            Ok(value)
        } else {
            Err(ParseError::Number)
        }
    }
}

impl std::str::FromStr for Datetime {
    type Err = ParseError;

    /// Reads a value as `Datetime::from_str` does.
    fn from_str(s: &str) -> (result: Result<Datetime, ParseError>) {
        Datetime::from_str(s)
    }
}

/// Each digit is written by a digit character of that value.
proof fn lemma_digit_char(k: nat)
    requires
        k < 10,
    ensures
        is_digit(digit_char(k)),
        digit_value(digit_char(k)) == k,
{
}

/// The digits of a number are digits, at least one, and write that number.
pub proof fn lemma_digits_are_decimal(n: nat)
    ensures
        digits(n).len() >= 1,
        forall|i: int| 0 <= i < digits(n).len() ==> is_digit(#[trigger] digits(n)[i]),
        decimal_between(digits(n), 0, digits(n).len() as int) == n,
    decreases n,
{
    lemma_digit_char(n % 10);
    if n < 10 {
        assert(decimal_between(digits(n), 0, 0) == 0);
    } else {
        let front = digits(n / 10);
        lemma_digits_are_decimal(n / 10);
        lemma_decimal_prefix(digits(n), front, front.len() as int);
        assert(digits(n)[front.len() as int] == digit_char(n % 10));
        assert forall|i: int| 0 <= i < digits(n).len() implies is_digit(
            #[trigger] digits(n)[i],
        ) by {
            if i < front.len() {
                assert(digits(n)[i] == front[i]);
            }
        }
    }
}

/// Zeros in front of digits do not change the number that they write.
proof fn lemma_zeros_in_front(zeros: Seq<char>, written: Seq<char>, upto: int)
    requires
        forall|i: int| 0 <= i < zeros.len() ==> #[trigger] zeros[i] == '0',
        0 <= upto <= written.len(),
    ensures
        decimal_between(zeros + written, 0, zeros.len() + upto) == decimal_between(
            written,
            0,
            upto,
        ),
    decreases zeros.len() + upto,
{
    let all = zeros + written;
    if upto > 0 {
        lemma_zeros_in_front(zeros, written, upto - 1);
        assert(all[zeros.len() + upto - 1] == written[upto - 1]);
    } else if zeros.len() > 0 {
        lemma_zeros_in_front(zeros.drop_last(), zeros.subrange(zeros.len() - 1, zeros.len() as int) + written, 0);
        let shorter = zeros.drop_last();
        let rest = zeros.subrange(zeros.len() - 1, zeros.len() as int) + written;
        assert(shorter + rest =~= all);
        assert(all[zeros.len() - 1] == '0');
        assert(decimal_between(rest, 0, 0) == 0);
    }
}

/// A number that is written with zeros in front is written in digits, at
/// least one, and they write that number.
pub proof fn lemma_padded_is_decimal(n: nat, width: nat)
    ensures
        padded(n, width).len() >= 1,
        forall|i: int| 0 <= i < padded(n, width).len() ==> is_digit(#[trigger] padded(n, width)[i]),
        decimal_between(padded(n, width), 0, padded(n, width).len() as int) == n,
{
    lemma_digits_are_decimal(n);
    let written = digits(n);
    if written.len() < width {
        let zeros = Seq::new((width - written.len()) as nat, |i: int| '0');
        lemma_zeros_in_front(zeros, written, written.len() as int);
        assert forall|i: int| 0 <= i < padded(n, width).len() implies is_digit(
            #[trigger] padded(n, width)[i],
        ) by {
            if i >= zeros.len() {
                assert(padded(n, width)[i] == written[i - zeros.len()]);
            }
        }
    }
}

/// A stretch of a text that holds the same characters as another text
/// writes the same number.
pub proof fn lemma_decimal_of_part(s: Seq<char>, from: int, to: int, part: Seq<char>)
    requires
        0 <= from <= to <= s.len(),
        to - from == part.len(),
        forall|i: int| 0 <= i < part.len() ==> s[from + i] == #[trigger] part[i],
    ensures
        decimal_between(s, from, to) == decimal_between(part, 0, to - from),
    decreases to - from,
{
    if from < to {
        lemma_decimal_of_part(s, from, to - 1, part.drop_last());
        assert(part.drop_last().len() == to - 1 - from);
        lemma_decimal_prefix(part, part.drop_last(), to - 1 - from);
        assert(s[from + (to - 1 - from)] == part[to - 1 - from]);
    }
}

/// Two texts that agree on their first `n` characters write the same
/// number there.
pub proof fn lemma_decimal_prefix(s: Seq<char>, t: Seq<char>, n: int)
    requires
        0 <= n <= s.len(),
        n <= t.len(),
        forall|i: int| 0 <= i < n ==> s[i] == t[i],
    ensures
        decimal_between(s, 0, n) == decimal_between(t, 0, n),
    decreases n,
{
    if n > 0 {
        lemma_decimal_prefix(s, t, n - 1);
    }
}

/// A stretch of a text that holds a number written with zeros in front is a
/// field that holds that number.
pub proof fn lemma_field_of_padded(s: Seq<char>, from: int, n: nat, width: nat, limit: nat)
    requires
        n <= limit,
        0 <= from,
        from + padded(n, width).len() <= s.len(),
        forall|i: int| 0 <= i < padded(n, width).len() ==> s[from + i] == #[trigger] padded(
            n,
            width,
        )[i],
    ensures
        field(s, from, from + padded(n, width).len(), limit) == Some(n),
        forall|i: int|
            from <= i < from + padded(n, width).len() ==> is_digit(#[trigger] s[i]),
{
    let p = padded(n, width);
    let to = from + p.len();
    lemma_padded_is_decimal(n, width);
    lemma_decimal_of_part(s, from, to, p);
    assert forall|i: int| from <= i < to implies is_digit(#[trigger] s[i]) by {
        assert(s[from + (i - from)] == p[i - from]);
    }
    assert(is_digit(s[from]));
}

/// `first_at` finds a character at a position before which it does not
/// occur.
pub proof fn lemma_first_at_found(s: Seq<char>, c: char, from: int, at: int, to: int)
    requires
        from <= at < to,
        s[at] == c,
        forall|j: int| from <= j < at ==> #[trigger] s[j] != c,
    ensures
        first_at(s, c, from, to) == Some(at),
    decreases at - from,
{
    if from < at {
        lemma_first_at_found(s, c, from + 1, at, to);
    }
}

/// `first_at` finds nothing where the character does not occur.
pub proof fn lemma_first_at_absent(s: Seq<char>, c: char, from: int, to: int)
    requires
        forall|j: int| from <= j < to ==> #[trigger] s[j] != c,
    ensures
        first_at(s, c, from, to).is_none(),
    decreases to - from,
{
    if from < to {
        lemma_first_at_absent(s, c, from + 1, to);
    }
}

/// Where the characters of three fields stand in their text.
proof fn lemma_three_fields(a: Seq<char>, b: Seq<char>, c: Seq<char>, between: char)
    ensures
        three_fields(a, b, c, between).len() == a.len() + b.len() + c.len() + 2,
        three_fields(a, b, c, between)[a.len() as int] == between,
        three_fields(a, b, c, between)[(a.len() + 1 + b.len()) as int] == between,
        forall|i: int| 0 <= i < a.len() ==> three_fields(a, b, c, between)[i] == #[trigger] a[i],
        forall|i: int|
            0 <= i < b.len() ==> three_fields(a, b, c, between)[a.len() + 1 + i] == #[trigger] b[i],
        forall|i: int|
            0 <= i < c.len() ==> three_fields(a, b, c, between)[a.len() + b.len() + 2 + i]
                == #[trigger] c[i],
{
}

/// Three numbers in digits with a character between them that is no digit:
/// the fields of their text are the numbers, and the character stands in it
/// twice.
proof fn lemma_three_numbers(
    s: Seq<char>,
    from: int,
    to: int,
    x: nat,
    width: nat,
    y: nat,
    z: nat,
    between: char,
    limit: nat,
) -> (breaks: (int, int))
    requires
        !is_digit(between),
        x <= limit,
        y <= 255,
        z <= 255,
        0 <= from,
        to == from + three_fields(padded(x, width), padded(y, 2), padded(z, 2), between).len(),
        to <= s.len(),
        forall|i: int|
            0 <= i < to - from ==> s[from + i] == #[trigger] three_fields(
                padded(x, width),
                padded(y, 2),
                padded(z, 2),
                between,
            )[i],
    ensures
        from < breaks.0 < breaks.1 < to - 1,
        s[breaks.0] == between,
        s[breaks.1] == between,
        two_breaks(s, between, from, to) == Some(breaks),
        field(s, from, breaks.0, limit) == Some(x),
        field(s, breaks.0 + 1, breaks.1, 255) == Some(y),
        field(s, breaks.1 + 1, to, 255) == Some(z),
        forall|i: int| from <= i < to && i != breaks.0 && i != breaks.1 ==> is_digit(#[trigger] s[i]),
{
    let a = padded(x, width);
    let b = padded(y, 2);
    let c = padded(z, 2);
    let t = three_fields(a, b, c, between);
    lemma_three_fields(a, b, c, between);
    lemma_padded_is_decimal(x, width);
    lemma_padded_is_decimal(y, 2);
    lemma_padded_is_decimal(z, 2);
    let first = from + a.len();
    let second = first + 1 + b.len();
    assert(s[first] == between) by {
        assert(s[from + a.len()] == t[a.len() as int]);
    }
    assert(s[second] == between) by {
        assert(s[from + (a.len() + 1 + b.len())] == t[(a.len() + 1 + b.len()) as int]);
    }
    assert forall|i: int| 0 <= i < a.len() implies s[from + i] == #[trigger] a[i] by {
        assert(s[from + i] == t[i]);
    }
    assert forall|i: int| 0 <= i < b.len() implies s[first + 1 + i] == #[trigger] b[i] by {
        assert(s[from + (a.len() + 1 + i)] == t[a.len() + 1 + i]);
    }
    assert forall|i: int| 0 <= i < c.len() implies s[second + 1 + i] == #[trigger] c[i] by {
        assert(s[from + (a.len() + b.len() + 2 + i)] == t[a.len() + b.len() + 2 + i]);
    }
    lemma_field_of_padded(s, from, x, width, limit);
    lemma_field_of_padded(s, first + 1, y, 2, 255);
    lemma_field_of_padded(s, second + 1, z, 2, 255);
    lemma_first_at_found(s, between, from, first, to);
    lemma_first_at_found(s, between, first + 1, second, to);
    lemma_first_at_absent(s, between, second + 1, to);
    (first, second)
}

/// What is written for a valid value is read back as that value.
pub proof fn law_text_reads_back(value: Datetime)
    requires
        value@.valid(),
    ensures
        read(value@.text()) == Ok::<Moment, ParseError>(value@),
{
    let m = value@;
    let date = m.date_text();
    let time = m.time_text();
    let s = m.text();
    let space = date.len() as int;
    let end = s.len() as int;
    assert(end == space + 1 + time.len());
    assert(s[space] == ' ');
    assert(forall|i: int| 0 <= i < date.len() ==> s[0 + i] == #[trigger] date[i]);
    assert(forall|i: int| 0 <= i < time.len() ==> s[space + 1 + i] == #[trigger] time[i]);
    let days = lemma_three_numbers(
        s,
        0,
        space,
        m.year as nat,
        4,
        m.month as nat,
        m.day as nat,
        '-',
        65535,
    );
    let times = lemma_three_numbers(
        s,
        space + 1,
        end,
        m.hour as nat,
        2,
        m.minute as nat,
        m.second as nat,
        ':',
        255,
    );
    assert forall|j: int| 0 <= j < end && j != space implies #[trigger] s[j] != ' ' by {
        if j != days.0 && j != days.1 && j != times.0 && j != times.1 {
            assert(is_digit(s[j]));
        }
    }
    lemma_first_at_found(s, ' ', 0, space, end);
    lemma_first_at_absent(s, ' ', space + 1, end);
}

} // verus!
