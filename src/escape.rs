use vstd::prelude::*;

verus! {

/// The escape character that introduces a terminal control sequence.
pub const ESC: char = '\x1b';

/// The character that, right after `ESC`, opens a control sequence introducer.
pub const CSI_LEAD: char = '[';

/// Whether `ch` ends a parameterised sequence: the range `'@'..='~'`.
pub open spec fn is_terminator(ch: char) -> bool {
    '@' <= ch && ch <= '~'
}

/// Where the classifier stands in the character stream.
#[derive(Debug, Clone, Copy, PartialEq, Eq, Structural)]
pub enum EscapeState {
    /// Plain text, outside any control sequence.
    Plain,
    /// An `ESC` was just read; the kind of sequence is not known yet.
    Esc,
    /// Inside `ESC [`, waiting for a terminator.
    Csi,
}

impl EscapeState {
    /// The transition table of the classifier.
    pub open spec fn transition(self, ch: char) -> EscapeState {
        match self {
            EscapeState::Plain => if ch == ESC {
                EscapeState::Esc
            } else {
                EscapeState::Plain
            },
            EscapeState::Esc => if ch == CSI_LEAD {
                EscapeState::Csi
            } else {
                EscapeState::Plain
            },
            EscapeState::Csi => if is_terminator(ch) {
                EscapeState::Plain
            } else {
                EscapeState::Csi
            },
        }
    }

    /// The state after reading `ch`.
    pub fn advance(self, ch: char) -> (r: EscapeState)
        ensures
            r == self.transition(ch),
    {
        match self {
            EscapeState::Plain => {
                if ch == ESC {
                    EscapeState::Esc
                } else {
                    EscapeState::Plain
                }
            },
            EscapeState::Esc => {
                if ch == CSI_LEAD {
                    EscapeState::Csi
                } else {
                    // a single-character escape ends at once
                    EscapeState::Plain
                }
            },
            EscapeState::Csi => {
                if terminates(ch) {
                    EscapeState::Plain
                } else {
                    EscapeState::Csi
                }
            },
        }
    }
}

/// Whether `ch` ends a parameterised sequence.
pub fn terminates(ch: char) -> (r: bool)
    ensures
        r == is_terminator(ch),
{
    '@' <= ch && ch <= '~'
}

/// Every character of the terminator range closes a parameterised sequence.
pub proof fn lemma_terminator_closes_sequence(ch: char)
    requires
        '@' <= ch && ch <= '~',
    ensures
        EscapeState::Csi.transition(ch) == EscapeState::Plain,
{
}

/// After `ESC`, the lead character `[` opens a parameterised sequence and any
/// other character ends the escape.
pub proof fn lemma_escape_start(ch: char)
    ensures
        ch == CSI_LEAD ==> EscapeState::Esc.transition(ch) == EscapeState::Csi,
        ch != CSI_LEAD ==> EscapeState::Esc.transition(ch) == EscapeState::Plain,
{
}

} // verus!
