//! Readiness of a long-running task.
//!
//! A task declared with `ready = "…"` is ready once a line of its output contains the
//! pattern. The signal goes out once, at the first such line; if the output ends
//! without one, it goes out then, so that nothing waits forever.
use vstd::prelude::*;

use crate::text::{contains_sub, contains_sub_exec, str_chars};

verus! {

/// Whether the ready signal has gone out, for the output lines seen so far.
pub struct ReadyState {
    pattern: String,
    signalled: bool,
}

pub struct ReadyView {
    pub pattern: Seq<char>,
    pub signalled: bool,
}

impl View for ReadyState {
    type V = ReadyView;

    closed spec fn view(&self) -> ReadyView {
        ReadyView { pattern: self.pattern@, signalled: self.signalled }
    }
}

/// Whether the line `line` sends the ready signal: the first line that contains the
/// pattern does.
pub open spec fn sends_on_line(r: ReadyView, line: Seq<char>) -> bool {
    !r.signalled && contains_sub(line, r.pattern)
}

/// The state after the line `line`.
pub open spec fn after_line(r: ReadyView, line: Seq<char>) -> ReadyView {
    ReadyView { pattern: r.pattern, signalled: r.signalled || sends_on_line(r, line) }
}

/// The state after the lines `lines`, in order.
pub open spec fn after_lines(r: ReadyView, lines: Seq<Seq<char>>) -> ReadyView
    decreases lines.len(),
{
    if lines.len() == 0 {
        r
    } else {
        after_line(after_lines(r, lines.drop_last()), lines.last())
    }
}

/// How many of the lines `lines` send the signal.
pub open spec fn count_sends(r: ReadyView, lines: Seq<Seq<char>>) -> nat
    decreases lines.len(),
{
    if lines.len() == 0 {
        0
    } else {
        count_sends(r, lines.drop_last()) + if sends_on_line(
            after_lines(r, lines.drop_last()),
            lines.last(),
        ) {
            1nat
        } else {
            0nat
        }
    }
}

impl ReadyState {
    /// The state before any output, waiting for a line that contains `pattern`.
    pub fn new(pattern: String) -> (r: Self)
        ensures
            r@ == (ReadyView { pattern: pattern@, signalled: false }),
    {
        ReadyState { pattern, signalled: false }
    }

    /// Reads one line of output; returns whether the ready signal must go out now.
    pub fn on_line(&mut self, line: &str) -> (send: bool)
        ensures
            send == sends_on_line(old(self)@, line@),
            final(self)@ == after_line(old(self)@, line@),
    {
        if self.signalled {
            return false;
        }
        let l = str_chars(line);
        let p = str_chars(self.pattern.as_str());
        if contains_sub_exec(&l, &p) {
            self.signalled = true;
            true
        } else {
            false
        }
    }

    /// The output ended; returns whether the ready signal must go out now, which it
    /// must when no line sent it.
    pub fn on_eof(&mut self) -> (send: bool)
        ensures
            send == !old(self)@.signalled,
            final(self)@ == (ReadyView { pattern: old(self)@.pattern, signalled: true }),
    {
        let send = !self.signalled;
        self.signalled = true;
        send
    }
}

/// Over any output, the ready signal goes out exactly once: at the first line that
/// contains the pattern when there is one, else when the output ends.
pub proof fn law_ready_signals_once(pattern: Seq<char>, lines: Seq<Seq<char>>)
    ensures
        ({
            let r0 = ReadyView { pattern, signalled: false };
            let fin = after_lines(r0, lines);
            &&& count_sends(r0, lines) + (if fin.signalled {
                0nat
            } else {
                1nat
            }) == 1
            &&& fin.signalled <==> exists|i: int|
                0 <= i < lines.len() && contains_sub(#[trigger] lines[i], pattern)
        }),
    decreases lines.len(),
{
    let r0 = ReadyView { pattern, signalled: false };
    if lines.len() > 0 {
        let prev = lines.drop_last();
        law_ready_signals_once(pattern, prev);
        lemma_pattern_kept(r0, prev);
        if exists|i: int| 0 <= i < prev.len() && contains_sub(#[trigger] prev[i], pattern) {
            let i = choose|i: int| 0 <= i < prev.len() && contains_sub(#[trigger] prev[i], pattern);
            assert(lines[i] == prev[i]);
        }
        if exists|i: int| 0 <= i < lines.len() && contains_sub(#[trigger] lines[i], pattern) {
            let i = choose|i: int| 0 <= i < lines.len() && contains_sub(#[trigger] lines[i], pattern);
            if i < lines.len() - 1 {
                assert(prev[i] == lines[i]);
            }
        }
    }
}

proof fn lemma_pattern_kept(r: ReadyView, lines: Seq<Seq<char>>)
    ensures
        after_lines(r, lines).pattern == r.pattern,
    decreases lines.len(),
{
    if lines.len() > 0 {
        lemma_pattern_kept(r, lines.drop_last());
    }
}

} // verus!
