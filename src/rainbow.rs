use vstd::prelude::*;
use crate::decimal::{decimal, push_decimal};
use crate::escape::{is_terminator, terminates, EscapeState, CSI_LEAD, ESC};
use crate::position::{next_position, Rainbow};
use crate::text::{chars_of, string_of};

verus! {

/// What the transcoder knows after a prefix of its input, apart from what it
/// has written.
pub struct Cursor {
    pub state: EscapeState,
    pub col: nat,
    pub row: nat,
    /// A foreign colour sequence is in force.
    pub suppressed: bool,
    /// The characters of the open parameterised sequence after `ESC [`.
    pub pending: Seq<char>,
    /// How many characters have been given a gradient colour.
    pub colored: nat,
}

pub open spec fn start() -> Cursor {
    Cursor {
        state: EscapeState::Plain,
        col: 0,
        row: 0,
        suppressed: false,
        pending: Seq::empty(),
        colored: 0,
    }
}

/// Whether `ch`, read at `c`, is written behind a gradient colour.
pub open spec fn paints(c: Cursor, ch: char) -> bool {
    c.state == EscapeState::Plain && !c.suppressed && ch != '\n'
}

/// Whether a foreign colour is in force after the finished sequence
/// `ESC [ body`: `0m` resets, any other body ending in `m` sets a colour.
pub open spec fn suppression_after(body: Seq<char>, before: bool) -> bool {
    if body == seq!['0', 'm'] {
        false
    } else if body.len() > 0 && body.last() == 'm' {
        true
    } else {
        before
    }
}

/// The cursor after reading `ch` at `c`.
pub open spec fn step(c: Cursor, ch: char) -> Cursor {
    match c.state {
        EscapeState::Plain => {
            let p = next_position(c.col, c.row, ch);
            Cursor {
                state: c.state.transition(ch),
                col: p.0,
                row: p.1,
                suppressed: c.suppressed,
                pending: c.pending,
                colored: if paints(c, ch) {
                    c.colored + 1
                } else {
                    c.colored
                },
            }
        },
        EscapeState::Esc => Cursor {
            state: c.state.transition(ch),
            col: c.col,
            row: c.row,
            suppressed: c.suppressed,
            pending: c.pending,
            colored: c.colored,
        },
        EscapeState::Csi => if is_terminator(ch) {
            Cursor {
                state: EscapeState::Plain,
                col: c.col,
                row: c.row,
                suppressed: suppression_after(c.pending.push(ch), c.suppressed),
                pending: Seq::empty(),
                colored: c.colored,
            }
        } else {
            Cursor {
                state: EscapeState::Csi,
                col: c.col,
                row: c.row,
                suppressed: c.suppressed,
                pending: c.pending.push(ch),
                colored: c.colored,
            }
        },
    }
}

/// The cursor after reading all of `input`.
pub open spec fn track(input: Seq<char>) -> Cursor
    decreases input.len(),
{
    if input.len() == 0 {
        start()
    } else {
        step(track(input.drop_last()), input.last())
    }
}

/// The positions of the characters of `input` that get a gradient colour, in order.
pub open spec fn spots(input: Seq<char>) -> Seq<(nat, nat)>
    decreases input.len(),
{
    if input.len() == 0 {
        Seq::empty()
    } else {
        let c = track(input.drop_last());
        if paints(c, input.last()) {
            spots(input.drop_last()).push((c.col, c.row))
        } else {
            spots(input.drop_last())
        }
    }
}

/// The true-colour foreground sequence `ESC [ 38;2;R;G;B m`.
pub open spec fn color_code(rgb: (u8, u8, u8)) -> Seq<char> {
    seq![ESC, CSI_LEAD, '3', '8', ';', '2', ';'] + decimal(rgb.0 as nat) + seq![';'] + decimal(
        rgb.1 as nat,
    ) + seq![';'] + decimal(rgb.2 as nat) + seq!['m']
}

/// The sequence `ESC [ 0 m` that resets all attributes.
pub open spec fn reset_code() -> Seq<char> {
    seq![ESC, CSI_LEAD, '0', 'm']
}

/// What is written for `ch` read at `c`; `colors` holds one colour for each
/// painted character, in order.
pub open spec fn piece(c: Cursor, ch: char, colors: Seq<(u8, u8, u8)>) -> Seq<char> {
    match c.state {
        EscapeState::Plain => if paints(c, ch) {
            color_code(colors[c.colored as int]).push(ch)
        } else {
            seq![ch]
        },
        EscapeState::Esc => seq![ESC, ch],
        EscapeState::Csi => if is_terminator(ch) {
            seq![ESC, CSI_LEAD] + c.pending.push(ch)
        } else {
            Seq::empty()
        },
    }
}

/// What is written while reading `input`, before the end.
pub open spec fn emitted(input: Seq<char>, colors: Seq<(u8, u8, u8)>) -> Seq<char>
    decreases input.len(),
{
    if input.len() == 0 {
        Seq::empty()
    } else {
        emitted(input.drop_last(), colors) + piece(track(input.drop_last()), input.last(), colors)
    }
}

/// A parameterised sequence still open at the end is written out as it came.
pub open spec fn leftover(c: Cursor) -> Seq<char> {
    if c.state == EscapeState::Csi {
        seq![ESC, CSI_LEAD] + c.pending
    } else {
        Seq::empty()
    }
}

/// The whole output for `input`.
pub open spec fn transcoded(input: Seq<char>, colors: Seq<(u8, u8, u8)>) -> Seq<char> {
    emitted(input, colors) + leftover(track(input)) + reset_code()
}

pub proof fn lemma_colored_counts_spots(input: Seq<char>)
    ensures
        track(input).colored == spots(input).len(),
    decreases input.len(),
{
    if input.len() > 0 {
        lemma_colored_counts_spots(input.drop_last());
    }
}

proof fn lemma_colored_grows(input: Seq<char>, k: int)
    requires
        0 <= k <= input.len(),
    ensures
        track(input.take(k)).colored <= track(input).colored,
    decreases input.len(),
{
    if k < input.len() {
        let rest = input.drop_last();
        assert(input.take(k) =~= rest.take(k));
        lemma_colored_grows(rest, k);
    } else {
        assert(input.take(k) =~= input);
    }
}

/// The transcoder's working state.
struct Scanner {
    state: EscapeState,
    pos: Rainbow,
    suppressed: bool,
    pending: Vec<char>,
    colored: usize,
}

impl Scanner {
    spec fn view(&self) -> Cursor {
        Cursor {
            state: self.state,
            col: self.pos.col as nat,
            row: self.pos.row as nat,
            suppressed: self.suppressed,
            pending: self.pending@,
            colored: self.colored as nat,
        }
    }

    fn new() -> (r: Scanner)
        ensures
            r.view() == start(),
    {
        Scanner {
            state: EscapeState::Plain,
            pos: Rainbow::new(),
            suppressed: false,
            pending: Vec::new(),
            colored: 0,
        }
    }

    fn paints(&self, ch: char) -> (r: bool)
        ensures
            r == paints(self.view(), ch),
    {
        self.state == EscapeState::Plain && !self.suppressed && ch != '\n'
    }

    /// Whether the open sequence, now finished, reads `0m`.
    fn pending_is_reset(&self) -> (r: bool)
        ensures
            r == (self.pending@ == seq!['0', 'm']),
    {
        let r = self.pending.len() == 2 && self.pending[0] == '0' && self.pending[1] == 'm';
        if r {
            assert(self.pending@ =~= seq!['0', 'm']);
        }
        r
    }

    fn step(&mut self, ch: char)
        requires
            old(self).pos.col < usize::MAX,
            old(self).pos.row < usize::MAX,
            old(self).colored < usize::MAX,
        ensures
            final(self).view() == step(old(self).view(), ch),
    {
        let next = self.state.advance(ch);
        match self.state {
            EscapeState::Plain => {
                if self.paints(ch) {
                    self.colored = self.colored + 1;
                }
                self.pos.advance(ch);
            },
            EscapeState::Esc => {},
            EscapeState::Csi => {
                self.pending.push(ch);
                if terminates(ch) {
                    if self.pending_is_reset() {
                        self.suppressed = false;
                    } else if ch == 'm' {
                        self.suppressed = true;
                    }
                    self.pending = Vec::new();
                }
            },
        }
        self.state = next;
        assert(self.view().pending =~= step(old(self).view(), ch).pending);
    }
}

/// Appends the true-colour foreground sequence for `rgb` to `out`.
fn push_color_code(out: &mut Vec<char>, rgb: (u8, u8, u8))
    ensures
        final(out)@ == old(out)@ + color_code(rgb),
{
    out.push(ESC);
    out.push(CSI_LEAD);
    out.push('3');
    out.push('8');
    out.push(';');
    out.push('2');
    out.push(';');
    push_decimal(out, rgb.0);
    out.push(';');
    push_decimal(out, rgb.1);
    out.push(';');
    push_decimal(out, rgb.2);
    out.push('m');
    assert(out@ =~= old(out)@ + color_code(rgb));
}

/// Appends `src` to `out`.
fn push_all(out: &mut Vec<char>, src: &Vec<char>)
    ensures
        final(out)@ == old(out)@ + src@,
{
    let mut i: usize = 0;
    while i < src.len()
        invariant
            i <= src@.len(),
            out@ == old(out)@ + src@.take(i as int),
        decreases src@.len() - i,
    {
        out.push(src[i]);
        i = i + 1;
        assert(out@ =~= old(out)@ + src@.take(i as int));
    }
    assert(src@.take(i as int) =~= src@);
}

/// The positions, as (column, row), of the characters of `input_string` that
/// get a gradient colour, in the order they are read.
pub fn color_positions(input_string: &str) -> (r: Vec<(usize, usize)>)
    ensures
        r@.len() == spots(input_string@).len(),
        forall|j: int|
            0 <= j < r@.len() ==> (#[trigger] r@[j].0 as nat, r@[j].1 as nat) == spots(
                input_string@,
            )[j],
{
    let chars = chars_of(input_string);
    let mut cur = Scanner::new();
    let mut out: Vec<(usize, usize)> = Vec::new();
    let mut i: usize = 0;
    while i < chars.len()
        invariant
            chars@ == input_string@,
            i <= chars@.len(),
            cur.view() == track(chars@.take(i as int)),
            cur.pos.col <= i,
            cur.pos.row <= i,
            cur.colored <= i,
            out@.len() == spots(chars@.take(i as int)).len(),
            forall|j: int|
                0 <= j < out@.len() ==> (#[trigger] out@[j].0 as nat, out@[j].1 as nat) == spots(
                    chars@.take(i as int),
                )[j],
        decreases chars@.len() - i,
    {
        let ch = chars[i];
        let ghost before = chars@.take(i as int);
        let ghost after = chars@.take(i + 1);
        assert(after.drop_last() =~= before);
        assert(after.last() == ch);
        if cur.paints(ch) {
            out.push((cur.pos.col, cur.pos.row));
        }
        cur.step(ch);
        i = i + 1;
    }
    assert(chars@.take(i as int) =~= chars@);
    out
}

/// Colours `input_string` with a gradient: every plain character but a line
/// break is written behind a true-colour sequence, the next colour of
/// `colors` (one for each of `color_positions(input_string)`, in order);
/// escape sequences pass through as they came; a reset sequence ends the
/// output.
pub fn rainbow(input_string: &str, colors: &Vec<(u8, u8, u8)>) -> (r: String)
    requires
        colors@.len() == spots(input_string@).len(),
    ensures
        r@ == transcoded(input_string@, colors@),
{
    let chars = chars_of(input_string);
    let mut cur = Scanner::new();
    let mut out: Vec<char> = Vec::new();
    let mut i: usize = 0;
    proof {
        lemma_colored_counts_spots(chars@);
    }
    while i < chars.len()
        invariant
            chars@ == input_string@,
            i <= chars@.len(),
            colors@.len() == track(chars@).colored,
            cur.view() == track(chars@.take(i as int)),
            cur.pos.col <= i,
            cur.pos.row <= i,
            cur.colored <= i,
            out@ == emitted(chars@.take(i as int), colors@),
        decreases chars@.len() - i,
    {
        let ch = chars[i];
        let ghost before = chars@.take(i as int);
        let ghost after = chars@.take(i + 1);
        assert(after.drop_last() =~= before);
        assert(after.last() == ch);
        proof {
            lemma_colored_grows(chars@, i + 1);
        }
        if cur.paints(ch) {
            push_color_code(&mut out, colors[cur.colored]);
            out.push(ch);
        } else if cur.state == EscapeState::Esc {
            out.push(ESC);
            out.push(ch);
        } else if cur.state == EscapeState::Csi {
            if terminates(ch) {
                out.push(ESC);
                out.push(CSI_LEAD);
                push_all(&mut out, &cur.pending);
                out.push(ch);
            }
        } else {
            out.push(ch);
        }
        assert(out@ =~= emitted(after, colors@));
        cur.step(ch);
        i = i + 1;
    }
    assert(chars@.take(i as int) =~= chars@);
    if cur.state == EscapeState::Csi {
        out.push(ESC);
        out.push(CSI_LEAD);
        push_all(&mut out, &cur.pending);
    }
    out.push(ESC);
    out.push(CSI_LEAD);
    out.push('0');
    out.push('m');
    assert(out@ =~= transcoded(chars@, colors@));
    string_of(&out)
}

/// Reading one more character moves the cursor by one step and writes its piece.
pub proof fn lemma_push(input: Seq<char>, ch: char, colors: Seq<(u8, u8, u8)>)
    ensures
        track(input.push(ch)) == step(track(input), ch),
        emitted(input.push(ch), colors) == emitted(input, colors) + piece(track(input), ch, colors),
{
    assert(input.push(ch).drop_last() =~= input);
}

/// Outside a parameterised sequence nothing is pending.
pub proof fn lemma_pending_only_in_sequence(input: Seq<char>)
    ensures
        track(input).state != EscapeState::Csi ==> track(input).pending.len() == 0,
    decreases input.len(),
{
    if input.len() > 0 {
        lemma_pending_only_in_sequence(input.drop_last());
    }
}

/// The output always ends with the reset sequence.
pub proof fn lemma_ends_with_reset(input: Seq<char>, colors: Seq<(u8, u8, u8)>)
    ensures
        transcoded(input, colors).len() >= reset_code().len(),
        transcoded(input, colors).subrange(
            transcoded(input, colors).len() - reset_code().len(),
            transcoded(input, colors).len() as int,
        ) == reset_code(),
{
    let t = transcoded(input, colors);
    let head = emitted(input, colors) + leftover(track(input));
    assert(t == head + reset_code());
    assert(t.subrange(head.len() as int, t.len() as int) =~= reset_code());
}

/// The empty input gives the reset sequence and nothing else.
pub proof fn lemma_empty_input(colors: Seq<(u8, u8, u8)>)
    ensures
        transcoded(Seq::empty(), colors) == reset_code(),
{
    assert(transcoded(Seq::empty(), colors) =~= reset_code());
}

proof fn lemma_chars_kept_so_far(input: Seq<char>, colors: Seq<(u8, u8, u8)>)
    ensures
        forall|i: int|
            0 <= i < input.len() ==> emitted(input, colors).contains(#[trigger] input[i])
                || track(input).pending.contains(input[i]),
    decreases input.len(),
{
    if input.len() > 0 {
        let rest = input.drop_last();
        let ch = input.last();
        lemma_chars_kept_so_far(rest, colors);
        lemma_push(rest, ch, colors);
        assert(input == rest.push(ch));
        let c = track(rest);
        let e = emitted(rest, colors);
        let p = piece(c, ch, colors);
        assert forall|i: int| 0 <= i < input.len() implies emitted(input, colors).contains(
            #[trigger] input[i],
        ) || track(input).pending.contains(input[i]) by {
            let x = input[i];
            assert(emitted(input, colors) == e + p);
            if i < rest.len() {
                assert(x == rest[i]);
                if e.contains(x) {
                    let j = choose|j: int| 0 <= j < e.len() && e[j] == x;
                    assert((e + p)[j] == x);
                } else {
                    let j = choose|j: int| 0 <= j < c.pending.len() && c.pending[j] == x;
                    if c.state == EscapeState::Csi {
                        if is_terminator(ch) {
                            let k = 2 + j;
                            assert(p[k] == x);
                            assert((e + p)[e.len() + k] == x);
                        } else {
                            assert(track(input).pending[j] == x);
                        }
                    } else {
                        lemma_pending_only_in_sequence(rest);
                    }
                }
            } else {
                assert(x == ch);
                if c.state == EscapeState::Plain {
                    assert(p[p.len() - 1] == x);
                    assert((e + p)[e.len() + p.len() - 1] == x);
                } else if c.state == EscapeState::Esc {
                    assert(p[1] == x);
                    assert((e + p)[e.len() + 1int] == x);
                } else if is_terminator(ch) {
                    assert(p[p.len() - 1] == x);
                    assert((e + p)[e.len() + p.len() - 1] == x);
                } else {
                    assert(track(input).pending[c.pending.len() as int] == x);
                }
            }
        }
    }
}

/// Every character of the input appears in the output.
pub proof fn lemma_every_char_kept(input: Seq<char>, colors: Seq<(u8, u8, u8)>)
    ensures
        forall|i: int|
            0 <= i < input.len() ==> transcoded(input, colors).contains(#[trigger] input[i]),
{
    lemma_chars_kept_so_far(input, colors);
    lemma_pending_only_in_sequence(input);
    let e = emitted(input, colors);
    let l = leftover(track(input));
    let t = transcoded(input, colors);
    assert(t == e + l + reset_code());
    assert forall|i: int| 0 <= i < input.len() implies t.contains(#[trigger] input[i]) by {
        let x = input[i];
        if e.contains(x) {
            let j = choose|j: int| 0 <= j < e.len() && e[j] == x;
            assert(t[j] == x);
        } else {
            let c = track(input);
            let j = choose|j: int| 0 <= j < c.pending.len() && c.pending[j] == x;
            assert(c.state == EscapeState::Csi);
            assert(l[2 + j] == x);
            assert(t[e.len() + 2 + j] == x);
        }
    }
}

/// A line break is never written behind a colour: in plain text it is written
/// alone, after a bare `ESC` it completes that escape, and inside a
/// parameterised sequence it is held back with the sequence.
pub proof fn lemma_line_break_uncolored(input: Seq<char>, colors: Seq<(u8, u8, u8)>)
    ensures
        track(input).state == EscapeState::Plain ==> emitted(input.push('\n'), colors) == emitted(
            input,
            colors,
        ).push('\n'),
        track(input).state == EscapeState::Esc ==> emitted(input.push('\n'), colors) == emitted(
            input,
            colors,
        ) + seq![ESC, '\n'],
        track(input).state == EscapeState::Csi ==> emitted(input.push('\n'), colors) == emitted(
            input,
            colors,
        ),
        track(input.push('\n')).colored == track(input).colored,
{
    lemma_push(input, '\n', colors);
    assert(emitted(input, colors) + seq!['\n'] =~= emitted(input, colors).push('\n'));
    assert(emitted(input, colors) + Seq::<char>::empty() =~= emitted(input, colors));
}

/// While a foreign colour is in force, plain text passes through as it came
/// and the foreign colour stays in force.
pub proof fn lemma_suppressed_text_verbatim(input: Seq<char>, ch: char, colors: Seq<(u8, u8, u8)>)
    requires
        track(input).state == EscapeState::Plain,
        track(input).suppressed,
    ensures
        emitted(input.push(ch), colors) == emitted(input, colors).push(ch),
        track(input.push(ch)).suppressed,
        track(input.push(ch)).colored == track(input).colored,
{
    lemma_push(input, ch, colors);
    assert(emitted(input, colors) + seq![ch] =~= emitted(input, colors).push(ch));
}

proof fn lemma_sequence_body_held(
    input: Seq<char>,
    body: Seq<char>,
    colors: Seq<(u8, u8, u8)>,
)
    requires
        track(input).state == EscapeState::Csi,
        forall|j: int| 0 <= j < body.len() ==> !is_terminator(#[trigger] body[j]),
    ensures
        track(input + body) == (Cursor { pending: track(input).pending + body, ..track(input) }),
        emitted(input + body, colors) == emitted(input, colors),
    decreases body.len(),
{
    if body.len() == 0 {
        assert(input + body =~= input);
        assert(track(input).pending + body =~= track(input).pending);
    } else {
        let b = body.drop_last();
        lemma_sequence_body_held(input, b, colors);
        assert(input + body =~= (input + b).push(body.last()));
        lemma_push(input + b, body.last(), colors);
        assert(track(input).pending + body =~= (track(input).pending + b).push(body.last()));
        assert(emitted(input, colors) + Seq::<char>::empty() =~= emitted(input, colors));
    }
}

/// A foreign control sequence `ESC [ body` read in plain text comes out
/// unchanged at the end of what is written for it (after the `ESC` and `ESC [`
/// that its first two characters give), and leaves a foreign colour in force
/// exactly when `body` ends in `m` and is not the reset `0m`.
pub proof fn lemma_foreign_sequence_kept(
    input: Seq<char>,
    body: Seq<char>,
    colors: Seq<(u8, u8, u8)>,
)
    requires
        track(input).state == EscapeState::Plain,
        body.len() > 0,
        is_terminator(body.last()),
        forall|j: int| 0 <= j < body.len() - 1 ==> !is_terminator(#[trigger] body[j]),
    ensures
        emitted(input + (seq![ESC, CSI_LEAD] + body), colors) == emitted(input, colors) + piece(
            track(input),
            ESC,
            colors,
        ) + seq![ESC, CSI_LEAD] + (seq![ESC, CSI_LEAD] + body),
        track(input + (seq![ESC, CSI_LEAD] + body)).state == EscapeState::Plain,
        track(input + (seq![ESC, CSI_LEAD] + body)).suppressed == suppression_after(
            body,
            track(input).suppressed,
        ),
        track(input + (seq![ESC, CSI_LEAD] + body)).colored == track(input.push(ESC)).colored,
{
    let q = seq![ESC, CSI_LEAD] + body;
    let s1 = input.push(ESC);
    let s2 = s1.push(CSI_LEAD);
    let b = body.drop_last();
    let last = body.last();
    lemma_push(input, ESC, colors);
    lemma_push(s1, CSI_LEAD, colors);
    lemma_pending_only_in_sequence(input);
    assert(track(s2).state == EscapeState::Csi);
    assert(track(s2).pending.len() == 0);
    assert forall|j: int| 0 <= j < b.len() implies !is_terminator(#[trigger] b[j]) by {
        assert(b[j] == body[j]);
    }
    lemma_sequence_body_held(s2, b, colors);
    assert(track(s2).pending + b =~= b);
    lemma_push(s2 + b, last, colors);
    assert(input + q =~= (s2 + b).push(last));
    assert(b.push(last) =~= body);
    assert(emitted(input + q, colors) =~= emitted(input, colors) + piece(track(input), ESC, colors)
        + seq![ESC, CSI_LEAD] + q);
}

} // verus!
