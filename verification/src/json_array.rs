//! Unwrapping of a JSON array into a stream of its elements.
//!
//! The reference file is one array. Its outer brackets are dropped and the
//! commas between its elements become spaces, so that a reader of
//! whitespace-separated values gets the elements one by one. Brackets, braces
//! and commas inside strings are text like any other. Bytes come in chunks, cut
//! anywhere.
use vstd::prelude::*;

verus! {

pub const OPEN_BRACKET: u8 = 0x5b;

pub const CLOSE_BRACKET: u8 = 0x5d;

pub const OPEN_BRACE: u8 = 0x7b;

pub const CLOSE_BRACE: u8 = 0x7d;

pub const COMMA: u8 = 0x2c;

pub const SPACE: u8 = 0x20;

pub const QUOTE: u8 = 0x22;

pub const BACKSLASH: u8 = 0x5c;

/// Where in the array the bytes so far have led.
#[derive(Clone, Copy, PartialEq, Eq, Structural, Debug)]
pub struct JsonArrayUnwrapper {
    /// The opening bracket has been read.
    pub started: bool,
    /// How many brackets and braces are open inside the array.
    pub depth: i32,
    /// The array or the input has ended.
    pub done: bool,
    /// A string has been opened and not yet closed.
    pub in_string: bool,
    /// Inside a string, the last byte was a backslash that escapes the next.
    pub escaped: bool,
}

/// The position in the array, with an unbounded depth.
#[verifier::ext_equal]
pub struct Position {
    pub started: bool,
    pub depth: int,
    pub done: bool,
    pub in_string: bool,
    pub escaped: bool,
}

/// The byte opens a nested array or object.
pub open spec fn opens(b: u8) -> bool {
    b == OPEN_BRACKET || b == OPEN_BRACE
}

/// The byte closes an array or object.
pub open spec fn closes(b: u8) -> bool {
    b == CLOSE_BRACKET || b == CLOSE_BRACE
}

/// Whether a string is open, and whether its next byte is escaped, after one
/// more byte. A quote opens a string and, unless it is escaped, closes it; a
/// backslash in a string escapes one byte.
pub open spec fn string_step(in_string: bool, escaped: bool, b: u8) -> (bool, bool) {
    if !in_string {
        (b == QUOTE, false)
    } else if escaped {
        (true, false)
    } else {
        (b != QUOTE, b == BACKSLASH)
    }
}

/// The position after one more byte.
pub open spec fn step(p: Position, b: u8) -> Position {
    if p.done {
        p
    } else if !p.started {
        Position { started: b == OPEN_BRACKET, ..p }
    } else if p.in_string || b == QUOTE {
        let (in_string, escaped) = string_step(p.in_string, p.escaped, b);
        Position { in_string, escaped, ..p }
    } else if opens(b) {
        Position { depth: p.depth + 1, ..p }
    } else if closes(b) && p.depth > 0 {
        Position { depth: p.depth - 1, ..p }
    } else if b == CLOSE_BRACKET {
        Position { done: true, ..p }
    } else {
        p
    }
}

/// What one byte is turned into: nothing outside the array and for its own
/// brackets, a space for a comma between elements, itself otherwise, and always
/// inside a string.
pub open spec fn emitted(p: Position, b: u8) -> Seq<u8> {
    if p.done || !p.started {
        Seq::empty()
    } else if p.in_string {
        seq![b]
    } else if b == CLOSE_BRACKET && p.depth <= 0 {
        Seq::empty()
    } else if b == COMMA && p.depth == 0 {
        seq![SPACE]
    } else {
        seq![b]
    }
}

/// The position after a run of bytes.
pub open spec fn position_after(p: Position, bytes: Seq<u8>) -> Position
    decreases bytes.len(),
{
    if bytes.len() == 0 {
        p
    } else {
        step(position_after(p, bytes.drop_last()), bytes.last())
    }
}

/// What a run of bytes is turned into.
pub open spec fn output(p: Position, bytes: Seq<u8>) -> Seq<u8>
    decreases bytes.len(),
{
    if bytes.len() == 0 {
        Seq::empty()
    } else {
        output(p, bytes.drop_last()) + emitted(
            position_after(p, bytes.drop_last()),
            bytes.last(),
        )
    }
}

/// The position before the first byte.
pub open spec fn start() -> Position {
    Position { started: false, depth: 0, done: false, in_string: false, escaped: false }
}

/// The position between two elements.
pub open spec fn between() -> Position {
    Position { started: true, depth: 0, done: false, in_string: false, escaped: false }
}

/// The nesting stays within the range of a depth counter, whatever part of the
/// bytes is read.
pub open spec fn nesting_fits(p: Position, bytes: Seq<u8>) -> bool {
    forall|i: int|
        0 <= i <= bytes.len() ==> (#[trigger] position_after(p, bytes.take(i))).depth <= i32::MAX
}

proof fn lemma_done_stays(p: Position, bytes: Seq<u8>, i: int)
    requires
        0 <= i <= bytes.len(),
        position_after(p, bytes.take(i)).done,
    ensures
        position_after(p, bytes) == position_after(p, bytes.take(i)),
        output(p, bytes) == output(p, bytes.take(i)),
    decreases bytes.len() - i,
{
    if i < bytes.len() {
        assert(bytes.take(i + 1).drop_last() =~= bytes.take(i));
        assert(output(p, bytes.take(i + 1)) =~= output(p, bytes.take(i)));
        lemma_done_stays(p, bytes, i + 1);
    } else {
        assert(bytes.take(i) =~= bytes);
    }
}

impl View for JsonArrayUnwrapper {
    type V = Position;

    open spec fn view(&self) -> Position {
        Position {
            started: self.started,
            depth: self.depth as int,
            done: self.done,
            in_string: self.in_string,
            escaped: self.escaped,
        }
    }
}

impl JsonArrayUnwrapper {
    /// An unwrapper that has read nothing yet.
    pub fn new() -> (u: JsonArrayUnwrapper)
        ensures
            u@ == start(),
            !u.started && u.depth == 0 && !u.done && !u.in_string && !u.escaped,
    {
        JsonArrayUnwrapper { started: false, depth: 0, done: false, in_string: false, escaped: false }
    }

    /// There is nothing to read: the array has ended, or there is no room for
    /// output.
    pub fn is_finished(&self, room: usize) -> (finished: bool)
        ensures
            finished <==> self@.done || room == 0,
    {
        self.done || room == 0
    }

    /// Rewrites the first `n` bytes of `buf` in place and returns how many are
    /// left of them.
    fn rewrite(&mut self, buf: &mut [u8], n: usize) -> (out: usize)
        requires
            n <= old(buf)@.len(),
            old(self)@.depth >= 0,
            !old(self)@.done,
            nesting_fits(old(self)@, old(buf)@.take(n as int)),
        ensures
            final(self)@ == position_after(old(self)@, old(buf)@.take(n as int)),
            final(self)@.depth >= 0,
            out <= n,
            final(buf)@.len() == old(buf)@.len(),
            final(buf)@.take(out as int) == output(old(self)@, old(buf)@.take(n as int)),
            final(buf)@.skip(n as int) == old(buf)@.skip(n as int),
    {
        let ghost first = self@;
        let ghost whole = buf@;
        let ghost chunk = buf@.take(n as int);
        let mut out: usize = 0;
        let mut i: usize = 0;
        assert(chunk.take(0) =~= Seq::empty());
        while i < n && !self.done
            invariant
                i <= n <= buf@.len(),
                buf@.len() == whole.len(),
                chunk == whole.take(n as int),
                out <= i,
                self.depth >= 0,
                nesting_fits(first, chunk),
                self@ == position_after(first, chunk.take(i as int)),
                buf@.take(out as int) == output(first, chunk.take(i as int)),
                forall|j: int| i <= j < whole.len() ==> #[trigger] buf@[j] == whole[j],
            decreases n - i,
        {
            let b: u8 = buf[i];
            let ghost before = self@;
            let ghost done_part = buf@.take(out as int);
            proof {
                assert(chunk.take(i + 1).drop_last() =~= chunk.take(i as int));
                assert(b == chunk[i as int]);
                assert(position_after(first, chunk.take(i + 1)).depth <= i32::MAX);
                assert(output(first, chunk.take(i + 1)) == done_part + emitted(before, b));
            }
            if !self.started {
                if b == OPEN_BRACKET {
                    self.started = true;
                }
            } else if self.in_string {
                if self.escaped {
                    self.escaped = false;
                } else if b == BACKSLASH {
                    self.escaped = true;
                } else if b == QUOTE {
                    self.in_string = false;
                }
                buf[out] = b;
                out = out + 1;
            } else if b == QUOTE {
                self.in_string = true;
                self.escaped = false;
                buf[out] = b;
                out = out + 1;
            } else if b == OPEN_BRACKET || b == OPEN_BRACE {
                self.depth = self.depth + 1;
                buf[out] = b;
                out = out + 1;
            } else if (b == CLOSE_BRACKET || b == CLOSE_BRACE) && self.depth > 0 {
                self.depth = self.depth - 1;
                buf[out] = b;
                out = out + 1;
            } else if b == CLOSE_BRACKET {
                self.done = true;
            } else if b == COMMA && self.depth == 0 {
                buf[out] = SPACE;
                out = out + 1;
            } else {
                buf[out] = b;
                out = out + 1;
            }
            assert(buf@.take(out as int) =~= done_part + emitted(before, b));
            i = i + 1;
        }
        proof {
            if i < n {
                lemma_done_stays(first, chunk, i as int);
            } else {
                assert(chunk.take(n as int) =~= chunk);
            }
            assert(buf@.skip(n as int) =~= whole.skip(n as int));
        }
        out
    }

    /// Takes in a chunk: `n` bytes just read into the front of `buf`, or the end
    /// of the input when `n` is 0. Returns how many bytes of output the front of
    /// `buf` now holds, or nothing if another chunk must be read first.
    pub fn absorb(&mut self, buf: &mut [u8], n: usize) -> (out: Option<usize>)
        requires
            n <= old(buf)@.len(),
            old(self)@.depth >= 0,
            !old(self)@.done,
            nesting_fits(old(self)@, old(buf)@.take(n as int)),
        ensures
            final(buf)@.len() == old(buf)@.len(),
            final(buf)@.skip(n as int) == old(buf)@.skip(n as int),
            final(self)@.depth >= 0,
            n == 0 ==> out == Some(0usize) && final(self)@ == (Position {
                done: true,
                ..old(self)@
            }),
            n > 0 ==> {
                let chunk = old(buf)@.take(n as int);
                &&& final(self)@ == position_after(old(self)@, chunk)
                &&& match out {
                    Some(k) => {
                        &&& k <= n
                        &&& final(buf)@.take(k as int) == output(old(self)@, chunk)
                        &&& k > 0 || final(self)@.done
                    },
                    None => output(old(self)@, chunk).len() == 0 && !final(self)@.done,
                }
            },
    {
        if n == 0 {
            self.done = true;
            return Some(0);
        }
        let out: usize = self.rewrite(buf, n);
        if out > 0 || self.done {
            Some(out)
        } else {
            None
        }
    }
}

/// Chunks may be cut anywhere: unwrapping them one after another gives what
/// unwrapping them together gives.
pub proof fn lemma_chunks_compose(p: Position, a: Seq<u8>, b: Seq<u8>)
    ensures
        position_after(p, a + b) == position_after(position_after(p, a), b),
        output(p, a + b) == output(p, a) + output(position_after(p, a), b),
    decreases b.len(),
{
    if b.len() == 0 {
        assert(a + b =~= a);
        assert(output(p, a) + output(position_after(p, a), b) =~= output(p, a));
    } else {
        assert((a + b).drop_last() =~= a + b.drop_last());
        lemma_chunks_compose(p, a, b.drop_last());
        assert(output(p, a + b) =~= output(p, a) + output(position_after(p, a), b));
    }
}

proof fn lemma_one_byte(p: Position, b: u8)
    ensures
        position_after(p, seq![b]) == step(p, b),
        output(p, seq![b]) == emitted(p, b),
{
    reveal_with_fuel(position_after, 2);
    reveal_with_fuel(output, 2);
    assert(seq![b].drop_last() =~= Seq::<u8>::empty());
    assert(output(p, seq![b]) =~= emitted(p, b));
}

/// Whether a string is open after the bytes, and whether its next byte is
/// escaped.
pub open spec fn string_after(bytes: Seq<u8>) -> (bool, bool)
    decreases bytes.len(),
{
    if bytes.len() == 0 {
        (false, false)
    } else {
        let (in_string, escaped) = string_after(bytes.drop_last());
        string_step(in_string, escaped, bytes.last())
    }
}

/// How many brackets and braces are open after the bytes; those inside strings
/// do not count.
pub open spec fn nesting(bytes: Seq<u8>) -> int
    decreases bytes.len(),
{
    if bytes.len() == 0 {
        0
    } else if string_after(bytes.drop_last()).0 {
        nesting(bytes.drop_last())
    } else if opens(bytes.last()) {
        nesting(bytes.drop_last()) + 1
    } else if closes(bytes.last()) {
        nesting(bytes.drop_last()) - 1
    } else {
        nesting(bytes.drop_last())
    }
}

/// The text of an element: strings are closed, and outside them brackets and
/// braces balance and every comma stands between some of them.
pub open spec fn is_element(bytes: Seq<u8>) -> bool {
    &&& nesting(bytes) == 0
    &&& !string_after(bytes).0
    &&& forall|i: int|
        0 <= i < bytes.len() ==> {
            &&& nesting(bytes.take(i)) >= 0
            &&& (closes(#[trigger] bytes[i]) || bytes[i] == COMMA) && !string_after(
                bytes.take(i),
            ).0 ==> nesting(bytes.take(i)) > 0
        }
}

/// The text of an element has been passed through so far.
spec fn passed(text: Seq<u8>) -> bool {
    let (in_string, escaped) = string_after(text);
    &&& in_string || !escaped
    &&& position_after(between(), text) == (Position {
        depth: nesting(text),
        in_string,
        escaped,
        ..between()
    })
    &&& output(between(), text) == text
}

proof fn lemma_passed_byte(text: Seq<u8>, b: u8)
    requires
        passed(text),
        nesting(text) >= 0,
        (closes(b) || b == COMMA) && !string_after(text).0 ==> nesting(text) > 0,
    ensures
        passed(text.push(b)),
        nesting(text.push(b)) >= 0,
{
    let more = text.push(b);
    assert(more.drop_last() =~= text);
    assert(more.last() == b);
    let p = position_after(between(), text);
    assert(position_after(between(), more) == step(p, b));
    assert(output(between(), more) == text + emitted(p, b));
    assert(emitted(p, b) =~= seq![b]);
    assert(text + seq![b] =~= more);
}

proof fn lemma_element_part(bytes: Seq<u8>, n: int)
    requires
        is_element(bytes),
        0 <= n <= bytes.len(),
    ensures
        passed(bytes.take(n)),
        nesting(bytes.take(n)) >= 0,
    decreases n,
{
    if n == 0 {
        assert(bytes.take(0) =~= Seq::empty());
        assert(output(between(), bytes.take(0)) =~= bytes.take(0));
    } else {
        lemma_element_part(bytes, n - 1);
        let b = bytes[n - 1];
        assert((closes(b) || b == COMMA) && !string_after(bytes.take(n - 1)).0 ==> nesting(
            bytes.take(n - 1),
        ) > 0);
        lemma_passed_byte(bytes.take(n - 1), b);
        assert(bytes.take(n) =~= bytes.take(n - 1).push(b));
    }
}

/// An element passes through unchanged: in particular the commas inside it
/// stay.
pub proof fn lemma_element_unchanged(element: Seq<u8>)
    requires
        is_element(element),
    ensures
        position_after(between(), element) == between(),
        output(between(), element) == element,
{
    lemma_element_part(element, element.len() as int);
    assert(element.take(element.len() as int) =~= element);
}

/// The elements with `separator` between them.
pub open spec fn joined(elements: Seq<Seq<u8>>, separator: u8) -> Seq<u8>
    decreases elements.len(),
{
    if elements.len() == 0 {
        Seq::empty()
    } else if elements.len() == 1 {
        elements[0]
    } else {
        joined(elements.drop_last(), separator) + seq![separator] + elements.last()
    }
}

proof fn lemma_joined(elements: Seq<Seq<u8>>)
    requires
        forall|i: int| 0 <= i < elements.len() ==> is_element(#[trigger] elements[i]),
    ensures
        position_after(between(), joined(elements, COMMA)) == between(),
        output(between(), joined(elements, COMMA)) == joined(elements, SPACE),
    decreases elements.len(),
{
    if elements.len() == 1 {
        lemma_element_unchanged(elements[0]);
    } else if elements.len() > 1 {
        let front = elements.drop_last();
        assert forall|i: int| 0 <= i < front.len() implies is_element(#[trigger] front[i]) by {
            assert(front[i] == elements[i]);
        }
        lemma_joined(front);
        let head = joined(front, COMMA);
        let comma = seq![COMMA];
        lemma_chunks_compose(between(), head, comma);
        lemma_one_byte(between(), COMMA);
        lemma_chunks_compose(between(), head + comma, elements.last());
        assert(is_element(elements[elements.len() - 1]));
        lemma_element_unchanged(elements.last());
    }
}

proof fn lemma_before_start(bytes: Seq<u8>)
    requires
        forall|i: int| 0 <= i < bytes.len() ==> #[trigger] bytes[i] != OPEN_BRACKET,
    ensures
        position_after(start(), bytes) == start(),
        output(start(), bytes) == Seq::<u8>::empty(),
    decreases bytes.len(),
{
    if bytes.len() > 0 {
        assert(bytes[bytes.len() - 1] != OPEN_BRACKET);
        lemma_before_start(bytes.drop_last());
        assert(output(start(), bytes) =~= Seq::<u8>::empty());
    }
}

/// An array of elements is turned into the elements with spaces between them.
/// What stands before its opening bracket and after its closing one is dropped.
pub proof fn lemma_array_unwrapped(prefix: Seq<u8>, elements: Seq<Seq<u8>>, tail: Seq<u8>)
    requires
        forall|i: int| 0 <= i < prefix.len() ==> #[trigger] prefix[i] != OPEN_BRACKET,
        forall|i: int| 0 <= i < elements.len() ==> is_element(#[trigger] elements[i]),
    ensures
        output(
            start(),
            prefix + seq![OPEN_BRACKET] + joined(elements, COMMA) + seq![CLOSE_BRACKET] + tail,
        ) == joined(elements, SPACE),
        position_after(
            start(),
            prefix + seq![OPEN_BRACKET] + joined(elements, COMMA) + seq![CLOSE_BRACKET] + tail,
        ).done,
{
    let open = seq![OPEN_BRACKET];
    let close = seq![CLOSE_BRACKET];
    let body = joined(elements, COMMA);
    lemma_before_start(prefix);
    lemma_chunks_compose(start(), prefix, open);
    lemma_one_byte(start(), OPEN_BRACKET);
    lemma_chunks_compose(start(), prefix + open, body);
    lemma_joined(elements);
    lemma_chunks_compose(start(), prefix + open + body, close);
    lemma_one_byte(between(), CLOSE_BRACKET);
    let all = prefix + open + body + close;
    assert(output(start(), all) =~= joined(elements, SPACE));
    assert((all + tail).take(all.len() as int) =~= all);
    lemma_done_stays(start(), all + tail, all.len() as int);
}

/// Inside the array and outside strings, every byte is taken for what it is:
/// `[` and `{` open, `]` and `}` close what is open, `"` begins a string. At the
/// top a comma becomes a space and `]` ends the array without a trace. Every
/// other byte changes nothing, and all these bytes stay.
pub proof fn lemma_bytes_outside_strings(p: Position, b: u8)
    requires
        p.started,
        !p.done,
        !p.in_string,
        p.depth >= 0,
    ensures
        b == 0x5b || b == 0x7b ==> step(p, b) == (Position { depth: p.depth + 1, ..p }) && emitted(
            p,
            b,
        ) == seq![b],
        (b == 0x5d || b == 0x7d) && p.depth > 0 ==> step(p, b) == (Position {
            depth: p.depth - 1,
            ..p
        }) && emitted(p, b) == seq![b],
        b == 0x5d && p.depth == 0 ==> step(p, b) == (Position { done: true, ..p }) && emitted(p, b)
            == Seq::<u8>::empty(),
        b == 0x7d && p.depth == 0 ==> step(p, b) == p && emitted(p, b) == seq![b],
        b == 0x22 ==> step(p, b) == (Position { in_string: true, escaped: false, ..p }) && emitted(
            p,
            b,
        ) == seq![b],
        b == 0x2c && p.depth == 0 ==> step(p, b) == p && emitted(p, b) == seq![0x20u8],
        b == 0x2c && p.depth > 0 ==> step(p, b) == p && emitted(p, b) == seq![b],
        b != 0x5b && b != 0x7b && b != 0x5d && b != 0x7d && b != 0x22 && b != 0x2c ==> step(p, b)
            == p && emitted(p, b) == seq![b],
{
}

/// Inside a string every byte stays. A backslash takes away the meaning of the
/// byte after it; a quote that kept its meaning ends the string.
pub proof fn lemma_bytes_inside_strings(p: Position, b: u8)
    requires
        p.started,
        !p.done,
        p.in_string,
    ensures
        emitted(p, b) == seq![b],
        p.escaped ==> step(p, b) == (Position { escaped: false, ..p }),
        !p.escaped && b == 0x5c ==> step(p, b) == (Position { escaped: true, ..p }),
        !p.escaped && b == 0x22 ==> step(p, b) == (Position { in_string: false, ..p }),
        !p.escaped && b != 0x5c && b != 0x22 ==> step(p, b) == p,
{
}

/// Before the array only its opening bracket counts, and after its end nothing:
/// no byte is let through there.
pub proof fn lemma_bytes_outside_array(p: Position, b: u8)
    requires
        p.done || !p.started,
    ensures
        emitted(p, b) == Seq::<u8>::empty(),
        p.done ==> step(p, b) == p,
        !p.done && b == 0x5b ==> step(p, b) == (Position { started: true, ..p }),
        !p.done && b != 0x5b ==> step(p, b) == p,
{
}

/// Bytes are taken one after another.
pub proof fn lemma_byte_after_bytes(p: Position, bytes: Seq<u8>, b: u8)
    ensures
        position_after(p, Seq::empty()) == p,
        output(p, Seq::empty()) == Seq::<u8>::empty(),
        position_after(p, bytes.push(b)) == step(position_after(p, bytes), b),
        output(p, bytes.push(b)) == output(p, bytes) + emitted(position_after(p, bytes), b),
{
    assert(bytes.push(b).drop_last() =~= bytes);
}

/// A string in the array passes through unchanged, whatever stands in it: its
/// bytes are plain, neither a quote nor a backslash, or pairs of a backslash and
/// any byte.
pub proof fn lemma_string_unchanged(p: Position, pieces: Seq<Seq<u8>>)
    requires
        p.started,
        !p.done,
        !p.in_string,
        !p.escaped,
        p.depth >= 0,
        forall|i: int|
            0 <= i < pieces.len() ==> {
                ||| (#[trigger] pieces[i]).len() == 1 && pieces[i][0] != 0x22 && pieces[i][0] != 0x5c
                ||| pieces[i].len() == 2 && pieces[i][0] == 0x5c
            },
    ensures
        position_after(p, seq![0x22u8] + pieces.flatten() + seq![0x22u8]) == p,
        output(p, seq![0x22u8] + pieces.flatten() + seq![0x22u8]) == seq![0x22u8] + pieces.flatten()
            + seq![0x22u8],
{
    let quote = seq![0x22u8];
    let inside = Position { in_string: true, ..p };
    lemma_one_byte(p, 0x22);
    lemma_one_byte(inside, 0x22);
    lemma_pieces_unchanged(inside, pieces);
    lemma_chunks_compose(p, quote, pieces.flatten());
    lemma_chunks_compose(p, quote + pieces.flatten(), quote);
    assert(output(p, quote + pieces.flatten() + quote) =~= quote + pieces.flatten() + quote);
}

proof fn lemma_pieces_unchanged(p: Position, pieces: Seq<Seq<u8>>)
    requires
        p.started,
        !p.done,
        p.in_string,
        !p.escaped,
        forall|i: int|
            0 <= i < pieces.len() ==> {
                ||| (#[trigger] pieces[i]).len() == 1 && pieces[i][0] != 0x22 && pieces[i][0] != 0x5c
                ||| pieces[i].len() == 2 && pieces[i][0] == 0x5c
            },
    ensures
        position_after(p, pieces.flatten()) == p,
        output(p, pieces.flatten()) == pieces.flatten(),
    decreases pieces.len(),
{
    if pieces.len() > 0 {
        let first = pieces[0];
        let rest = pieces.drop_first();
        assert forall|i: int| 0 <= i < rest.len() implies {
            ||| (#[trigger] rest[i]).len() == 1 && rest[i][0] != 0x22 && rest[i][0] != 0x5c
            ||| rest[i].len() == 2 && rest[i][0] == 0x5c
        } by {
            assert(rest[i] == pieces[i + 1]);
        }
        lemma_pieces_unchanged(p, rest);
        assert(pieces.flatten() == first + rest.flatten());
        lemma_one_byte(p, first[0]);
        if first.len() == 1 {
            assert(first =~= seq![first[0]]);
        } else {
            let escaped = Position { escaped: true, ..p };
            lemma_one_byte(escaped, first[1]);
            lemma_chunks_compose(p, seq![first[0]], seq![first[1]]);
            assert(first =~= seq![first[0]] + seq![first[1]]);
        }
        assert(output(p, first) =~= first);
        lemma_chunks_compose(p, first, rest.flatten());
    } else {
        assert(pieces.flatten() =~= Seq::empty());
    }
}

/// A nested array or object passes through unchanged where its content does.
pub proof fn lemma_nested_unchanged(p: Position, open: u8, content: Seq<u8>, close: u8)
    requires
        p.started,
        !p.done,
        !p.in_string,
        p.depth >= 0,
        open == 0x5b || open == 0x7b,
        close == 0x5d || close == 0x7d,
        position_after(Position { depth: p.depth + 1, ..p }, content) == (Position {
            depth: p.depth + 1,
            ..p
        }),
        output(Position { depth: p.depth + 1, ..p }, content) == content,
    ensures
        position_after(p, seq![open] + content + seq![close]) == p,
        output(p, seq![open] + content + seq![close]) == seq![open] + content + seq![close],
{
    let inside = Position { depth: p.depth + 1, ..p };
    lemma_one_byte(p, open);
    lemma_one_byte(inside, close);
    lemma_chunks_compose(p, seq![open], content);
    lemma_chunks_compose(p, seq![open] + content, seq![close]);
    assert(output(p, seq![open] + content + seq![close]) =~= seq![open] + content + seq![close]);
}

} // verus!
