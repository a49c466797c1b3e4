//! Reading and writing of small pieces of text.
use vstd::prelude::*;

verus! {

/// The decimal digit of a number below ten.
pub open spec fn digit_char(d: int) -> char {
    (48 + d) as char
}

/// The decimal digits of a number, without leading zeros.
pub open spec fn decimal(n: nat) -> Seq<char>
    decreases n,
{
    if n < 10 {
        seq![digit_char(n as int)]
    } else {
        decimal(n / 10) + seq![digit_char(n as int % 10)]
    }
}

/// `n` spaces.
pub open spec fn spaces(n: nat) -> Seq<char> {
    Seq::new(n, |i: int| ' ')
}

/// The text, filled up with spaces on the right to a width.
pub open spec fn padded(text: Seq<char>, width: nat) -> Seq<char> {
    if text.len() < width {
        text + spaces((width - text.len()) as nat)
    } else {
        text
    }
}

fn digit_text(d: u128) -> (t: &'static str)
    requires
        d < 10,
    ensures
        t@ == seq![digit_char(d as int)],
{
    proof {
        reveal_strlit("0");
        reveal_strlit("1");
        reveal_strlit("2");
        reveal_strlit("3");
        reveal_strlit("4");
        reveal_strlit("5");
        reveal_strlit("6");
        reveal_strlit("7");
        reveal_strlit("8");
        reveal_strlit("9");
    }
    let t: &'static str = if d == 0 {
        "0"
    } else if d == 1 {
        "1"
    } else if d == 2 {
        "2"
    } else if d == 3 {
        "3"
    } else if d == 4 {
        "4"
    } else if d == 5 {
        "5"
    } else if d == 6 {
        "6"
    } else if d == 7 {
        "7"
    } else if d == 8 {
        "8"
    } else {
        "9"
    };
    assert(t@ =~= seq![digit_char(d as int)]);
    t
}

/// Writes a number in decimal.
pub fn push_decimal(out: &mut String, n: u128)
    ensures
        final(out)@ == old(out)@ + decimal(n as nat),
    decreases n,
{
    if n < 10 {
        out.append(digit_text(n));
    } else {
        let ghost before = out@;
        push_decimal(out, n / 10);
        out.append(digit_text(n % 10));
        assert(before + decimal(n as nat / 10) + seq![digit_char(n as int % 10)] =~= before
            + decimal(n as nat));
    }
}

/// Writes a text, filled up with spaces on the right to a width.
pub fn push_padded(out: &mut String, text: &str, width: usize)
    ensures
        final(out)@ == old(out)@ + padded(text@, width as nat),
{
    let ghost before = out@;
    out.append(text);
    let mut len: usize = text.unicode_len();
    assert(out@ =~= before + text@ + spaces(0));
    while len < width
        invariant
            text@.len() <= len,
            text@.len() < width ==> len <= width,
            text@.len() >= width ==> len == text@.len(),
            out@ == before + text@ + spaces((len - text@.len()) as nat),
        decreases width - len,
    {
        proof {
            reveal_strlit(" ");
        }
        out.append(" ");
        assert(out@ =~= before + text@ + spaces((len + 1 - text@.len()) as nat));
        len = len + 1;
    }
    assert(out@ =~= before + padded(text@, width as nat));
}

/// Writes a number in decimal, filled up with spaces on the right to a width.
pub fn push_padded_decimal(out: &mut String, n: u128, width: usize)
    ensures
        final(out)@ == old(out)@ + padded(decimal(n as nat), width as nat),
{
    let mut digits: String = String::new();
    push_decimal(&mut digits, n);
    assert(digits@ =~= decimal(n as nat));
    push_padded(out, digits.as_str(), width);
}

/// The characters of a text.
pub fn chars_of(text: &str) -> (chars: Vec<char>)
    ensures
        chars@ == text@,
{
    let mut chars: Vec<char> = Vec::new();
    for c in it: text.chars()
        invariant
            it.seq() == text@,
            chars@ == text@.take(it.index() as int),
    {
        chars.push(c);
        assert(chars@ =~= text@.take(it.index() + 1));
    }
    assert(text@.take(text@.len() as int) =~= text@);
    chars
}

/// A decimal digit.
pub open spec fn is_digit(c: char) -> bool {
    '0' <= c && c <= '9'
}

/// The number that a run of digits stands for.
pub open spec fn digits_value(digits: Seq<char>) -> nat
    decreases digits.len(),
{
    if digits.len() == 0 {
        0
    } else {
        10 * digits_value(digits.drop_last()) + (digits.last() as int - 48) as nat
    }
}

/// The text without one leading plus sign.
pub open spec fn without_plus(text: Seq<char>) -> Seq<char> {
    if text.len() > 0 && text[0] == '+' {
        text.skip(1)
    } else {
        text
    }
}

/// The number up to `max` that a text stands for: one or more decimal digits,
/// with an optional plus sign before them.
pub open spec fn parsed(text: Seq<char>, max: nat) -> Option<nat> {
    let digits = without_plus(text);
    if digits.len() > 0 && (forall|i: int| 0 <= i < digits.len() ==> is_digit(#[trigger] digits[i]))
        && digits_value(digits) <= max {
        Some(digits_value(digits))
    } else {
        None
    }
}

proof fn lemma_digits_value_grows(digits: Seq<char>, n: int)
    requires
        0 <= n <= digits.len(),
    ensures
        digits_value(digits.take(n)) <= digits_value(digits),
    decreases digits.len() - n,
{
    if n < digits.len() {
        assert(digits.take(n + 1).drop_last() =~= digits.take(n));
        lemma_digits_value_grows(digits, n + 1);
    } else {
        assert(digits.take(n) =~= digits);
    }
}

/// Reads a number up to `max`.
pub fn parse_unsigned(text: &str, max: u64) -> (n: Option<u64>)
    ensures
        match n {
            Some(v) => parsed(text@, max as nat) == Some(v as nat),
            None => parsed(text@, max as nat) is None,
        },
        without_plus(text@) == if text@.len() > 0 && text@[0] == '+' {
            text@.skip(1)
        } else {
            text@
        },
        ({
            let digits = without_plus(text@);
            &&& n is Some <==> digits.len() > 0 && (forall|i: int|
                0 <= i < digits.len() ==> '0' <= #[trigger] digits[i] && digits[i] <= '9')
                && digits_value(digits) <= max
            &&& n matches Some(v) ==> v == digits_value(digits)
        }),
{
    let chars: Vec<char> = chars_of(text);
    let first: usize = if chars.len() > 0 && chars[0] == '+' {
        1
    } else {
        0
    };
    let ghost digits = without_plus(text@);
    assert(digits =~= chars@.skip(first as int));
    if chars.len() == first {
        return None;
    }
    let mut value: u64 = 0;
    let mut i: usize = first;
    assert(digits.take(0) =~= Seq::empty());
    while i < chars.len()
        invariant
            first <= i <= chars.len(),
            digits == chars@.skip(first as int),
            digits.len() > 0,
            digits == without_plus(text@),
            value <= max,
            forall|j: int| 0 <= j < i - first ==> is_digit(#[trigger] digits[j]),
            value == digits_value(digits.take(i - first)),
        decreases chars.len() - i,
    {
        let c: char = chars[i];
        assert(digits[i - first] == c);
        if c < '0' || c > '9' {
            return None;
        }
        let d: u64 = (c as u32 - 48) as u64;
        let next: u128 = 10 * (value as u128) + d as u128;
        proof {
            assert(digits.take(i + 1 - first).drop_last() =~= digits.take(i - first));
            lemma_digits_value_grows(digits, i + 1 - first);
        }
        if next > max as u128 {
            return None;
        }
        value = next as u64;
        i = i + 1;
    }
    assert(digits.take(digits.len() as int) =~= digits);
    Some(value)
}

/// No digits stand for 0, and a digit appended to others stands for itself, the
/// others for ten times their number.
pub proof fn lemma_digit_appended(digits: Seq<char>, c: char)
    ensures
        digits_value(Seq::empty()) == 0,
        '0' <= c && c <= '9' ==> digits_value(digits.push(c)) == 10 * digits_value(digits) + (
        c as int - '0' as int),
{
    assert(digits.push(c).drop_last() =~= digits);
}

/// The digit `i` places from the right counts the tens to the power of `i`, and
/// there are no digits to the left of the first that counts.
pub proof fn lemma_decimal_places(n: nat, i: nat)
    ensures
        decimal(n).len() > 0,
        i < decimal(n).len() ==> decimal(n)[decimal(n).len() - 1 - i] as int == '0' as int + (
        n as int / vstd::arithmetic::power::pow(10, i)) % 10,
        n < vstd::arithmetic::power::pow(10, decimal(n).len()),
        decimal(n).len() > 1 ==> vstd::arithmetic::power::pow(10, (decimal(n).len() - 1) as nat)
            <= n,
    decreases n,
{
    vstd::arithmetic::power::lemma_pow0(10);
    vstd::arithmetic::power::lemma_pow1(10);
    let len = decimal(n).len();
    if n < 10 {
        assert(len == 1);
        assert(n as int / 1 == n);
    } else {
        let front = decimal(n / 10);
        assert(len == front.len() + 1);
        let before: nat = if i > 0 {
            (i - 1) as nat
        } else {
            0
        };
        lemma_decimal_places(n / 10, before);
        vstd::arithmetic::power::lemma_pow_adds(10, 1, front.len());
        assert(vstd::arithmetic::power::pow(10, len) == 10 * vstd::arithmetic::power::pow(
            10,
            front.len(),
        ));
        if front.len() > 1 {
            vstd::arithmetic::power::lemma_pow_adds(10, 1, (front.len() - 1) as nat);
        }
        if i == 0 {
            assert(decimal(n)[len - 1] == digit_char(n as int % 10));
            assert(n as int / 1 == n);
        } else if i < len {
            let step = vstd::arithmetic::power::pow(10, before);
            assert(decimal(n)[len - 1 - i] == front[front.len() - 1 - before]);
            vstd::arithmetic::power::lemma_pow_positive(10, before);
            vstd::arithmetic::power::lemma_pow_adds(10, 1, before);
            assert(vstd::arithmetic::power::pow(10, i) == 10 * step);
            vstd::arithmetic::div_mod::lemma_div_denominator(n as int, 10, step);
        }
    }
}

/// A filled up text has at least the width, begins with the text and goes on
/// with spaces.
pub proof fn lemma_padded(text: Seq<char>, width: nat, i: int)
    ensures
        padded(text, width).len() == if text.len() < width {
            width
        } else {
            text.len()
        },
        0 <= i < text.len() ==> padded(text, width)[i] == text[i],
        text.len() <= i < width ==> padded(text, width)[i] == ' ',
{
}

/// A number written in decimal is read back as itself.
pub proof fn lemma_decimal_parses(n: nat, max: nat)
    requires
        n <= max,
    ensures
        parsed(decimal(n), max) == Some(n),
{
    lemma_decimal_digits(n);
}

proof fn lemma_decimal_digits(n: nat)
    ensures
        decimal(n).len() > 0,
        forall|i: int| 0 <= i < decimal(n).len() ==> is_digit(#[trigger] decimal(n)[i]),
        digits_value(decimal(n)) == n,
    decreases n,
{
    reveal_with_fuel(digits_value, 2);
    if n < 10 {
        assert(decimal(n).drop_last() =~= Seq::empty());
    } else {
        lemma_decimal_digits(n / 10);
        assert(decimal(n).drop_last() =~= decimal(n / 10));
    }
}

/// Whether a text begins with another.
pub fn starts_with(text: &str, prefix: &str) -> (found: bool)
    ensures
        found == prefix@.is_prefix_of(text@),
{
    let t: Vec<char> = chars_of(text);
    let p: Vec<char> = chars_of(prefix);
    occurs_at(&t, &p, 0)
}

/// `part` stands in `text` at position `at`.
pub open spec fn stands_at(text: Seq<char>, part: Seq<char>, at: int) -> bool {
    at + part.len() <= text.len() && text.subrange(at, at + part.len()) == part
}

fn occurs_at(text: &Vec<char>, part: &Vec<char>, at: usize) -> (found: bool)
    requires
        at <= text.len(),
    ensures
        found == stands_at(text@, part@, at as int),
{
    if part.len() > text.len() - at {
        return false;
    }
    let mut i: usize = 0;
    while i < part.len()
        invariant
            i <= part.len(),
            at + part.len() <= text.len(),
            forall|j: int| 0 <= j < i ==> #[trigger] part[j] == text[at + j],
        decreases part.len() - i,
    {
        if text[at + i] != part[i] {
            assert(text@.subrange(at as int, at + part.len())[i as int] == text[at + i]);
            return false;
        }
        i = i + 1;
    }
    assert(text@.subrange(at as int, at + part.len()) =~= part@);
    true
}

proof fn lemma_stands_between(text: Seq<char>, part: Seq<char>)
    ensures
        (exists|at: int| 0 <= at <= text.len() && #[trigger] stands_at(text, part, at)) <==> (
        exists|before: Seq<char>, after: Seq<char>| text == #[trigger] (before + part + after)),
{
    assert forall|before: Seq<char>, after: Seq<char>|
        text == #[trigger] (before + part + after) implies exists|at: int|
        0 <= at <= text.len() && #[trigger] stands_at(text, part, at) by {
        let at = before.len() as int;
        assert(text.subrange(at, at + part.len()) =~= part);
        assert(stands_at(text, part, at));
    }
    assert forall|at: int| 0 <= at <= text.len() && #[trigger] stands_at(text, part, at) implies
        exists|before: Seq<char>, after: Seq<char>| text == #[trigger] (before + part + after) by {
        let before = text.take(at);
        let after = text.skip(at + part.len());
        assert(text =~= before + part + after);
    }
}

/// Whether a text contains another.
pub fn contains(text: &str, part: &str) -> (found: bool)
    ensures
        found <==> exists|at: int| 0 <= at <= text@.len() && #[trigger] stands_at(text@, part@, at),
        found <==> exists|before: Seq<char>, after: Seq<char>|
            text@ == #[trigger] (before + part@ + after),
{
    proof {
        lemma_stands_between(text@, part@);
    }
    let t: Vec<char> = chars_of(text);
    let p: Vec<char> = chars_of(part);
    let mut at: usize = 0;
    while at < t.len()
        invariant
            at <= t.len(),
            t@ == text@,
            p@ == part@,
            forall|j: int| 0 <= j < at ==> !#[trigger] stands_at(text@, part@, j),
            (exists|k: int| 0 <= k <= text@.len() && #[trigger] stands_at(text@, part@, k)) <==> (
            exists|before: Seq<char>, after: Seq<char>|
                text@ == #[trigger] (before + part@ + after)),
        decreases t.len() - at,
    {
        if occurs_at(&t, &p, at) {
            return true;
        }
        at = at + 1;
    }
    occurs_at(&t, &p, at)
}

/// A letter from A to Z in lower case; any other character as it is.
pub open spec fn ascii_lower(c: char) -> char {
    if 'A' <= c && c <= 'Z' {
        (c as int + 32) as char
    } else {
        c
    }
}

fn lower_code(c: char) -> (n: u32)
    ensures
        n == ascii_lower(c) as u32,
{
    if 'A' <= c && c <= 'Z' {
        c as u32 + 32
    } else {
        c as u32
    }
}

/// Whether two texts are equal up to the case of the letters A to Z.
pub fn eq_ignore_ascii_case(a: &str, b: &str) -> (equal: bool)
    ensures
        equal <==> a@.map_values(|c: char| ascii_lower(c)) == b@.map_values(
            |c: char| ascii_lower(c),
        ),
        equal <==> a@.len() == b@.len() && forall|i: int|
            0 <= i < a@.len() ==> {
                ||| #[trigger] a@[i] == b@[i]
                ||| 'A' <= a@[i] && a@[i] <= 'Z' && b@[i] as int == a@[i] as int + 32
                ||| 'A' <= b@[i] && b@[i] <= 'Z' && a@[i] as int == b@[i] as int + 32
            },
{
    let x: Vec<char> = chars_of(a);
    let y: Vec<char> = chars_of(b);
    let ghost lx = a@.map_values(|c: char| ascii_lower(c));
    let ghost ly = b@.map_values(|c: char| ascii_lower(c));
    if x.len() != y.len() {
        assert(lx.len() != ly.len());
        return false;
    }
    let mut i: usize = 0;
    while i < x.len()
        invariant
            i <= x.len(),
            x.len() == y.len(),
            x@ == a@,
            y@ == b@,
            lx == a@.map_values(|c: char| ascii_lower(c)),
            ly == b@.map_values(|c: char| ascii_lower(c)),
            forall|j: int| 0 <= j < i ==> #[trigger] lx[j] == ly[j],
            forall|j: int|
                0 <= j < i ==> {
                    ||| #[trigger] a@[j] == b@[j]
                    ||| 'A' <= a@[j] && a@[j] <= 'Z' && b@[j] as int == a@[j] as int + 32
                    ||| 'A' <= b@[j] && b@[j] <= 'Z' && a@[j] as int == b@[j] as int + 32
                },
        decreases x.len() - i,
    {
        if lower_code(x[i]) != lower_code(y[i]) {
            assert(lx[i as int] != ly[i as int]);
            assert(a@[i as int] != b@[i as int]);
            return false;
        }
        assert(lx[i as int] == ly[i as int]);
        i = i + 1;
    }
    assert(lx =~= ly);
    true
}

/// The line without the carriage return at its end, if there is one.
pub open spec fn without_cr(line: Seq<char>) -> Seq<char> {
    if line.len() > 0 && line.last() == '\r' {
        line.drop_last()
    } else {
        line
    }
}

/// The position of the first line feed at or after `from`; the length where
/// there is none.
pub open spec fn line_end(text: Seq<char>, from: int) -> int
    decreases text.len() - from,
{
    if from >= text.len() || text[from] == '\n' {
        from
    } else {
        line_end(text, from + 1)
    }
}

/// The lines of a text from position `from` on. A line ends with a line feed,
/// or with a carriage return and a line feed, which do not belong to it; after
/// the last line they may be missing.
pub open spec fn lines_from(text: Seq<char>, from: int) -> Seq<Seq<char>>
    decreases text.len() - from,
{
    if from >= text.len() {
        Seq::empty()
    } else {
        let end = line_end(text, from);
        if end >= text.len() || end < from {
            seq![text.subrange(from, text.len() as int)]
        } else {
            seq![without_cr(text.subrange(from, end))] + lines_from(text, end + 1)
        }
    }
}

proof fn lemma_line_end(text: Seq<char>, from: int, end: int)
    requires
        0 <= from <= end <= text.len(),
        forall|i: int| from <= i < end ==> #[trigger] text[i] != '\n',
        end == text.len() || text[end] == '\n',
    ensures
        line_end(text, from) == end,
    decreases end - from,
{
    if from < end {
        lemma_line_end(text, from + 1, end);
    }
}

/// The lines of a text.
pub fn lines(text: &str) -> (out: Vec<String>)
    ensures
        out@.map_values(|l: String| l@) == lines_from(text@, 0),
{
    let chars: Vec<char> = chars_of(text);
    let mut out: Vec<String> = Vec::new();
    let mut from: usize = 0;
    assert(out@.map_values(|l: String| l@) + lines_from(text@, 0) =~= lines_from(text@, 0));
    while from < chars.len()
        invariant
            chars@ == text@,
            from <= chars.len(),
            out@.map_values(|l: String| l@) + lines_from(text@, from as int) == lines_from(
                text@,
                0,
            ),
        decreases chars.len() - from,
    {
        let ghost before = out@.map_values(|l: String| l@);
        let mut end: usize = from;
        while end < chars.len() && chars[end] != '\n'
            invariant
                chars@ == text@,
                from <= end <= chars.len(),
                forall|i: int| from <= i < end ==> #[trigger] text@[i] != '\n',
            decreases chars.len() - end,
        {
            end = end + 1;
        }
        proof {
            lemma_line_end(text@, from as int, end as int);
        }
        let stop: usize = if end < chars.len() && end > from && chars[end - 1] == '\r' {
            end - 1
        } else {
            end
        };
        let ghost line = text@.subrange(from as int, stop as int);
        proof {
            if end < chars.len() {
                assert(without_cr(text@.subrange(from as int, end as int)) =~= line);
            }
        }
        out.push(text.substring_char(from, stop).to_owned());
        assert(out@.map_values(|l: String| l@) =~= before.push(line));
        let next: usize = if end < chars.len() {
            end + 1
        } else {
            end
        };
        assert(before + lines_from(text@, from as int) =~= before.push(line) + lines_from(
            text@,
            next as int,
        ));
        from = next;
    }
    assert(out@.map_values(|l: String| l@) + lines_from(text@, from as int) =~= out@.map_values(
        |l: String| l@,
    ));
    out
}

/// The empty text has no lines.
pub proof fn lemma_no_lines()
    ensures
        lines_from(Seq::empty(), 0) == Seq::<Seq<char>>::empty(),
{
}

/// A text without a line feed is one line, unless it is empty.
pub proof fn lemma_one_line(line: Seq<char>)
    requires
        line.len() > 0,
        !line.contains('\n'),
    ensures
        lines_from(line, 0) == seq![line],
{
    assert forall|i: int| 0 <= i < line.len() implies #[trigger] line[i] != '\n' by {
        assert(line.contains(line[i]));
    }
    lemma_line_end(line, 0, line.len() as int);
    assert(line.subrange(0, line.len() as int) =~= line);
}

/// What stands before the first line feed is the first line, without the
/// carriage return at its end if there is one; the lines of what follows come
/// after it.
pub proof fn lemma_first_line(line: Seq<char>, rest: Seq<char>)
    requires
        !line.contains('\n'),
    ensures
        lines_from(line + seq!['\n'] + rest, 0) == seq![
            if line.len() > 0 && line.last() == '\r' {
                line.drop_last()
            } else {
                line
            },
        ] + lines_from(rest, 0),
{
    let text = line + seq!['\n'] + rest;
    let head = line + seq!['\n'];
    assert forall|i: int| 0 <= i < line.len() implies #[trigger] text[i] != '\n' by {
        assert(line.contains(line[i]));
    }
    assert(text[line.len() as int] == '\n');
    lemma_line_end(text, 0, line.len() as int);
    assert(text.subrange(0, line.len() as int) =~= line);
    lemma_lines_shifted(head, rest, 0);
}

proof fn lemma_line_end_shifted(head: Seq<char>, rest: Seq<char>, from: int)
    requires
        0 <= from,
    ensures
        line_end(head + rest, head.len() + from) == head.len() + line_end(rest, from),
        line_end(rest, from) >= from,
    decreases rest.len() - from,
{
    if from < rest.len() {
        assert((head + rest)[head.len() + from] == rest[from]);
        lemma_line_end_shifted(head, rest, from + 1);
    }
}

proof fn lemma_lines_shifted(head: Seq<char>, rest: Seq<char>, from: int)
    requires
        0 <= from,
    ensures
        lines_from(head + rest, head.len() + from) == lines_from(rest, from),
    decreases rest.len() - from,
{
    let text = head + rest;
    if from < rest.len() {
        lemma_line_end_shifted(head, rest, from);
        let end = line_end(rest, from);
        if end >= rest.len() {
            assert(text.subrange(head.len() + from, text.len() as int) =~= rest.subrange(
                from,
                rest.len() as int,
            ));
        } else {
            assert(text.subrange(head.len() + from, head.len() + end) =~= rest.subrange(from, end));
            lemma_lines_shifted(head, rest, end + 1);
        }
    }
}

} // verus!
