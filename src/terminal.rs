//! The screen: a text buffer and a cursor, driven by the parser's output.

use vstd::prelude::*;
use crate::parser::{
    OutputParser, OutputView, ParserView, TerminalOutput, ESC, lemma_flush_wf, no_esc, outputs_view, run, text_has_no_esc,
};

verus! {

pub const NEWLINE: u8 = 0x0A;

pub const CARRIAGE_RETURN: u8 = 0x0D;

pub const TAB: u8 = 0x09;

/// How far a tab moves the cursor.
pub const TAB_WIDTH: usize = 4;

/// `a + k`, held at `usize::MAX`.
pub open spec fn sat_add(a: usize, k: nat) -> usize {
    if a + k > usize::MAX {
        usize::MAX
    } else {
        (a + k) as usize
    }
}

/// A zero-based cursor position: `x` is the column, `y` the row.
#[derive(Debug, Clone, Copy, PartialEq, Eq)]
pub struct CursorPos {
    pub x: usize,
    pub y: usize,
}

/// The cursor after writing byte `b` at `c`: a newline goes to the start of
/// the next row, a carriage return to the start of the row, a tab four
/// columns on and any other byte one column on.  Each byte counts as one
/// column, and the coordinates stop at `usize::MAX`.
pub open spec fn advance(c: CursorPos, b: u8) -> CursorPos {
    if b == NEWLINE {
        CursorPos { x: 0, y: sat_add(c.y, 1) }
    } else if b == CARRIAGE_RETURN {
        CursorPos { x: 0, y: c.y }
    } else if b == TAB {
        CursorPos { x: sat_add(c.x, TAB_WIDTH as nat), y: c.y }
    } else {
        CursorPos { x: sat_add(c.x, 1), y: c.y }
    }
}

/// The cursor after writing the bytes of `s` in order.
pub open spec fn advance_all(c: CursorPos, s: Seq<u8>) -> CursorPos
    decreases s.len(),
{
    if s.len() == 0 {
        c
    } else {
        advance(advance_all(c, s.drop_last()), s.last())
    }
}

/// The offset in `buf` at which row `y` starts: just after its `y`-th
/// newline, or the end of `buf` when it has fewer rows.
pub open spec fn row_start(buf: Seq<u8>, y: nat) -> nat
    decreases buf.len(),
{
    if y == 0 || buf.len() == 0 {
        0
    } else if buf[0] == NEWLINE {
        1 + row_start(buf.drop_first(), (y - 1) as nat)
    } else {
        1 + row_start(buf.drop_first(), y)
    }
}

/// The offset in `buf` of cursor `c`: the bytes of the rows above it, their
/// newlines included, and then its column.
pub open spec fn buffer_pos(c: CursorPos, buf: Seq<u8>) -> nat {
    row_start(buf, c.y as nat) + c.x as nat
}

impl CursorPos {
    pub fn new(x: usize, y: usize) -> (r: Self)
        ensures
            r == (CursorPos { x, y }),
    {
        CursorPos { x, y }
    }

    /// The offset of the cursor in `buffer`, held at `usize::MAX`.
    pub fn to_buffer_pos(&self, buffer: &[u8]) -> (r: usize)
        ensures
            r == if buffer_pos(*self, buffer@) > usize::MAX {
                usize::MAX as nat
            } else {
                buffer_pos(*self, buffer@)
            },
    {
        let ghost buf = buffer@;
        let n = buffer.len();
        let mut i: usize = 0;
        let mut rows: usize = 0;
        proof {
            assert(buf.skip(0) =~= buf);
        }
        while i < n && rows < self.y
            invariant
                buf == buffer@,
                n == buf.len(),
                i <= n,
                rows <= self.y,
                row_start(buf, self.y as nat) == i + row_start(buf.skip(i as int), (self.y - rows) as nat),
            decreases n - i,
        {
            proof {
                let rest = buf.skip(i as int);
                assert(rest.drop_first() =~= buf.skip(i + 1));
                assert(rest[0] == buf[i as int]);
            }
            if buffer[i] == NEWLINE {
                rows = rows + 1;
            }
            i = i + 1;
        }
        proof {
            if i == n {
                assert(buf.skip(i as int).len() == 0);
            }
        }
        let x = self.x;
        match i.checked_add(x) {
            Some(p) => p,
            None => usize::MAX,
        }
    }

    /// Moves the cursor past one written byte.
    pub fn advance(&mut self, byte: u8)
        ensures
            *final(self) == advance(*old(self), byte),
    {
        if byte == NEWLINE {
            self.x = 0;
            self.y = self.y.saturating_add(1);
        } else if byte == CARRIAGE_RETURN {
            self.x = 0;
        } else if byte == TAB {
            self.x = self.x.saturating_add(TAB_WIDTH);
        } else {
            self.x = self.x.saturating_add(1);
        }
    }

    /// Moves the cursor past each byte of `incoming`, in order.
    pub fn update(&mut self, incoming: &[u8])
        ensures
            *final(self) == advance_all(*old(self), incoming@),
    {
        let ghost c0 = *self;
        let mut k: usize = 0;
        proof {
            assert(incoming@.take(0) =~= Seq::<u8>::empty());
        }
        while k < incoming.len()
            invariant
                k <= incoming@.len(),
                *self == advance_all(c0, incoming@.take(k as int)),
            decreases incoming@.len() - k,
        {
            proof {
                assert(incoming@.take(k + 1).drop_last() =~= incoming@.take(k as int));
            }
            self.advance(incoming[k]);
            k = k + 1;
        }
        proof {
            assert(incoming@.take(k as int) =~= incoming@);
        }
    }
}


/// The number of newlines in `s`.
pub open spec fn count_newlines(s: Seq<u8>) -> nat
    decreases s.len(),
{
    if s.len() == 0 {
        0
    } else {
        count_newlines(s.drop_last()) + if s.last() == NEWLINE { 1nat } else { 0nat }
    }
}

/// The model of the screen: the text buffer, the cursor and the saved cursor.
pub struct ScreenView {
    pub buffer: Seq<u8>,
    pub cursor: CursorPos,
    pub saved: Option<CursorPos>,
}

impl ScreenView {
    pub open spec fn initial() -> ScreenView {
        ScreenView { buffer: Seq::empty(), cursor: CursorPos { x: 0, y: 0 }, saved: None }
    }

    /// Where a clear command cuts the buffer: the cursor's offset, or the
    /// end of the buffer when the cursor lies beyond it.
    pub open spec fn clear_offset(self) -> int {
        let p = buffer_pos(self.cursor, self.buffer);
        if p > self.buffer.len() {
            self.buffer.len() as int
        } else {
            p as int
        }
    }

    /// The screen after one parser output.  Text is written byte by byte,
    /// each byte moving the cursor; a cursor position is 1-based as received
    /// and a 0 counts as 1.
    pub open spec fn apply(self, o: OutputView) -> ScreenView {
        match o {
            OutputView::Text(t) => ScreenView { buffer: self.buffer + t, cursor: advance_all(self.cursor, t), ..self },
            OutputView::Ansi(_) => self,
            OutputView::SetCursorPos { x, y } => ScreenView {
                cursor: CursorPos { x: if x == 0 { 0 } else { (x - 1) as usize }, y: if y == 0 { 0 } else { (y - 1) as usize } },
                ..self
            },
            OutputView::ClearForwards => ScreenView { buffer: self.buffer.take(self.clear_offset()), ..self },
            OutputView::ClearBackwards => ScreenView { buffer: self.buffer.skip(self.clear_offset()), ..self },
            OutputView::ClearAll => ScreenView { buffer: Seq::empty(), cursor: CursorPos { x: 0, y: 0 }, ..self },
            OutputView::SaveCursorPos => ScreenView { saved: Some(self.cursor), ..self },
            OutputView::RestoreCursorPos => match self.saved {
                Some(c) => ScreenView { cursor: c, saved: None, ..self },
                None => self,
            },
        }
    }
}

/// The screen after the outputs of `os`, in order.
pub open spec fn apply_all(s: ScreenView, os: Seq<OutputView>) -> ScreenView
    decreases os.len(),
{
    if os.len() == 0 {
        s
    } else {
        apply_all(s, os.drop_last()).apply(os.last())
    }
}

/// The model of a terminal: its parser and its screen.
pub struct TerminalView {
    pub parser: ParserView,
    pub screen: ScreenView,
}

/// The screen state: the parser that reads the program's output, the text
/// buffer, the cursor and the saved cursor.
pub struct Terminal {
    parser: OutputParser,
    buffer: Vec<u8>,
    cursor: CursorPos,
    saved_cursor: Option<CursorPos>,
}

impl View for Terminal {
    type V = TerminalView;

    closed spec fn view(&self) -> TerminalView {
        TerminalView {
            parser: self.parser@,
            screen: ScreenView { buffer: self.buffer@, cursor: self.cursor, saved: self.saved_cursor },
        }
    }
}

impl Terminal {
    /// The parser's invariant holds, and the buffer holds no escape byte:
    /// escape sequences are consumed by the parser.
    pub closed spec fn wf(&self) -> bool {
        self.parser.wf() && no_esc(self.buffer@)
    }

    pub fn new() -> (r: Self)
        ensures
            r.wf(),
            r@ == (TerminalView { parser: ParserView::initial(), screen: ScreenView::initial() }),
    {
        Terminal { parser: OutputParser::new(), buffer: Vec::new(), cursor: CursorPos::new(0, 0), saved_cursor: None }
    }

    /// Writes `text`: for each byte, the cursor moves past it and the byte is
    /// appended to the buffer.
    fn write_text(&mut self, text: &[u8])
        ensures
            final(self).parser == old(self).parser,
            final(self).saved_cursor == old(self).saved_cursor,
            final(self).buffer@ == old(self).buffer@ + text@,
            final(self).cursor == advance_all(old(self).cursor, text@),
    {
        let mut k: usize = 0;
        proof {
            assert(text@.take(0) =~= Seq::<u8>::empty());
            assert(self.buffer@ + text@.take(0) =~= self.buffer@);
        }
        while k < text.len()
            invariant
                k <= text@.len(),
                self.parser == old(self).parser,
                self.saved_cursor == old(self).saved_cursor,
                self.buffer@ == old(self).buffer@ + text@.take(k as int),
                self.cursor == advance_all(old(self).cursor, text@.take(k as int)),
            decreases text@.len() - k,
        {
            proof {
                assert(text@.take(k + 1).drop_last() =~= text@.take(k as int));
                assert(old(self).buffer@ + text@.take(k + 1) =~= (old(self).buffer@ + text@.take(k as int)).push(text@[k as int]));
            }
            let byte = text[k];
            self.cursor.advance(byte);
            self.buffer.push(byte);
            k = k + 1;
        }
        proof {
            assert(text@.take(k as int) =~= text@);
        }
    }

    /// Applies one parser output to the screen.
    pub fn apply(&mut self, output: &TerminalOutput)
        requires
            old(self).wf(),
            output@ matches OutputView::Text(t) ==> no_esc(t),
        ensures
            final(self).wf(),
            no_esc(final(self)@.screen.buffer),
            final(self)@.parser == old(self)@.parser,
            final(self)@.screen == old(self)@.screen.apply(output@),
    {
        match output {
            TerminalOutput::Ansi(_) => {},
            TerminalOutput::Text(text) => {
                self.write_text(text.as_slice());
            },
            TerminalOutput::SetCursorPos { x, y } => {
                self.cursor.x = x.saturating_sub(1);
                self.cursor.y = y.saturating_sub(1);
            },
            TerminalOutput::ClearForwards => {
                let pos = self.clear_offset();
                self.buffer.truncate(pos);
            },
            TerminalOutput::ClearBackwards => {
                let pos = self.clear_offset();
                let rest = self.buffer.split_off(pos);
                self.buffer = rest;
            },
            TerminalOutput::ClearAll => {
                self.buffer.clear();
                self.cursor.x = 0;
                self.cursor.y = 0;
            },
            TerminalOutput::RestoreCursorPos => {
                match self.saved_cursor.take() {
                    Some(saved) => {
                        self.cursor = saved;
                    },
                    None => {},
                }
            },
            TerminalOutput::SaveCursorPos => {
                self.saved_cursor = Some(self.cursor);
            },
        }
        proof {
            assert(self@.screen =~= old(self)@.screen.apply(output@));
            let b = self.buffer@;
            let b0 = old(self).buffer@;
            assert forall|j: int| 0 <= j < b.len() implies #[trigger] b[j] != ESC by {
                if let OutputView::Text(t) = output@ {
                    if j < b0.len() {
                        assert(b[j] == b0[j]);
                    } else {
                        assert(b[j] == t[j - b0.len()]);
                    }
                } else if output@ is ClearBackwards {
                    assert(b[j] == b0[j + old(self)@.screen.clear_offset()]);
                } else if output@ is ClearForwards {
                    assert(b[j] == b0[j]);
                }
            }
        }
    }

    /// The cursor's offset in the buffer, at most the buffer's length.
    fn clear_offset(&self) -> (r: usize)
        ensures
            r == self@.screen.clear_offset(),
    {
        let pos = self.cursor.to_buffer_pos(self.buffer.as_slice());
        let n = self.buffer.len();
        if pos > n {
            n
        } else {
            pos
        }
    }
}

/// What a chunk of program output does to a terminal in state `t`: the parser
/// reads the chunk and the screen applies the outputs it completes, in order.
/// Text still pending at the end of the chunk waits for what follows.
pub open spec fn feed(t: TerminalView, bytes: Seq<u8>) -> TerminalView {
    TerminalView { parser: run(t.parser, bytes).0, screen: apply_all(t.screen, run(t.parser, bytes).1) }
}

/// The end of the stream: the pending text is handed out and written.
pub open spec fn finish(t: TerminalView) -> TerminalView {
    TerminalView { parser: t.parser.flush().0, screen: apply_all(t.screen, t.parser.flush().1) }
}

impl Terminal {
    /// The invariant includes that of the parser's model, and the buffer
    /// holds no escape byte.
    pub proof fn lemma_wf(&self)
        requires
            self.wf(),
        ensures
            self@.parser.wf(),
            no_esc(self@.screen.buffer),
    {
        self.parser.lemma_wf();
    }

    /// Takes in a chunk read from the program: parses it and applies the
    /// outputs that it completes to the screen.
    pub fn read(&mut self, bytes: &[u8])
        requires
            old(self).wf(),
        ensures
            final(self).wf(),
            final(self)@ == feed(old(self)@, bytes@),
            no_esc(final(self)@.screen.buffer),
    {
        let ghost s0 = self@.screen;
        let outputs = self.parser.parse(bytes);
        let ghost outs = outputs_view(outputs@);
        let mut i: usize = 0;
        proof {
            assert(outs.take(0) =~= Seq::<OutputView>::empty());
        }
        while i < outputs.len()
            invariant
                i <= outputs@.len(),
                outs == outputs_view(outputs@),
                text_has_no_esc(outs),
                self.wf(),
                self@.parser == run(old(self)@.parser, bytes@).0,
                outs == run(old(self)@.parser, bytes@).1,
                self@.screen == apply_all(s0, outs.take(i as int)),
            decreases outputs@.len() - i,
        {
            proof {
                assert(outs.take(i + 1).drop_last() =~= outs.take(i as int));
                assert(outs[i as int] == outputs@[i as int]@);
            }
            self.apply(&outputs[i]);
            i = i + 1;
        }
        proof {
            assert(outs.take(i as int) =~= outs);
            self.lemma_wf();
        }
    }

    /// Ends the stream: writes the text still pending, if any.
    pub fn flush(&mut self)
        requires
            old(self).wf(),
        ensures
            final(self).wf(),
            final(self)@ == finish(old(self)@),
            no_esc(final(self)@.screen.buffer),
    {
        let ghost p1 = self@.parser;
        let ghost s0 = self@.screen;
        proof {
            self.parser.lemma_wf();
            lemma_flush_wf(p1);
        }
        match self.parser.flush() {
            Some(rest) => {
                proof {
                    assert(p1.flush().1[0] == rest@);
                    assert(p1.flush().1.drop_last() =~= Seq::<OutputView>::empty());
                    assert(apply_all(s0, p1.flush().1.drop_last()) == s0);
                }
                self.apply(&rest);
            },
            None => {
                proof {
                    assert(apply_all(s0, p1.flush().1) == s0);
                }
            },
        }
        proof {
            self.lemma_wf();
        }
    }

    /// The text buffer.
    pub fn buffer(&self) -> (r: &[u8])
        ensures
            r@ == self@.screen.buffer,
    {
        self.buffer.as_slice()
    }

    pub fn cursor_pos(&self) -> (r: &CursorPos)
        ensures
            *r == self@.screen.cursor,
    {
        &self.cursor
    }

    /// Where a renderer draws the cursor, in cells, relative to the bottom
    /// left corner of the rendered buffer: the cursor's column, and its row
    /// minus the number of rows in the buffer.
    pub fn char_to_cursor_offset(&self) -> (r: (usize, i128))
        ensures
            r.0 == self@.screen.cursor.x,
            r.1 == self@.screen.cursor.y - (count_newlines(self@.screen.buffer) + 1),
    {
        let ghost buf = self.buffer@;
        let mut newlines: usize = 0;
        let mut i: usize = 0;
        proof {
            assert(buf.take(0) =~= Seq::<u8>::empty());
        }
        while i < self.buffer.len()
            invariant
                buf == self.buffer@,
                i <= buf.len(),
                newlines == count_newlines(buf.take(i as int)),
                newlines <= i,
            decreases buf.len() - i,
        {
            proof {
                assert(buf.take(i + 1).drop_last() =~= buf.take(i as int));
            }
            if self.buffer[i] == NEWLINE {
                newlines = newlines + 1;
            }
            i = i + 1;
        }
        proof {
            assert(buf.take(i as int) =~= buf);
        }
        (self.cursor.x, self.cursor.y as i128 - (newlines as i128 + 1))
    }
}

pub proof fn lemma_apply_all_concat(s: ScreenView, a: Seq<OutputView>, b: Seq<OutputView>)
    ensures
        apply_all(s, a + b) == apply_all(apply_all(s, a), b),
    decreases b.len(),
{
    if b.len() == 0 {
        assert(a + b =~= a);
    } else {
        lemma_apply_all_concat(s, a, b.drop_last());
        assert((a + b).drop_last() =~= a + b.drop_last());
        assert((a + b).last() == b.last());
    }
}

/// The output neither saves nor restores the cursor.
pub open spec fn keeps_saved_cursor(o: OutputView) -> bool {
    !(o is SaveCursorPos) && !(o is RestoreCursorPos)
}

proof fn lemma_saved_cursor_kept(s: ScreenView, moves: Seq<OutputView>)
    requires
        forall|i: int| 0 <= i < moves.len() ==> keeps_saved_cursor(#[trigger] moves[i]),
    ensures
        apply_all(s, moves).saved == s.saved,
    decreases moves.len(),
{
    if moves.len() > 0 {
        let init = moves.drop_last();
        assert forall|i: int| 0 <= i < init.len() implies keeps_saved_cursor(#[trigger] init[i]) by {
            assert(init[i] == moves[i]);
        }
        lemma_saved_cursor_kept(s, init);
        assert(keeps_saved_cursor(moves[moves.len() - 1]));
    }
}

/// Saving the cursor, moving it with any outputs that neither save nor
/// restore, and restoring it brings back the saved position and empties the
/// slot; a second restore then changes nothing.
pub proof fn lemma_save_restore(s: ScreenView, moves: Seq<OutputView>)
    requires
        forall|i: int| 0 <= i < moves.len() ==> keeps_saved_cursor(#[trigger] moves[i]),
    ensures
        apply_all(s, seq![OutputView::SaveCursorPos] + moves + seq![OutputView::RestoreCursorPos]).cursor == s.cursor,
        apply_all(s, seq![OutputView::SaveCursorPos] + moves + seq![OutputView::RestoreCursorPos]).saved is None,
        apply_all(s, seq![OutputView::SaveCursorPos] + moves + seq![OutputView::RestoreCursorPos]).apply(
            OutputView::RestoreCursorPos,
        ) == apply_all(s, seq![OutputView::SaveCursorPos] + moves + seq![OutputView::RestoreCursorPos]),
{
    let save = seq![OutputView::SaveCursorPos];
    let restore = seq![OutputView::RestoreCursorPos];
    lemma_apply_all_concat(s, save + moves, restore);
    lemma_apply_all_concat(s, save, moves);
    assert(save.drop_last() =~= Seq::<OutputView>::empty());
    assert(restore.drop_last() =~= Seq::<OutputView>::empty());
    assert(apply_all(s, save.drop_last()) == s);
    assert(save.last() == OutputView::SaveCursorPos);
    let s1 = apply_all(s, save);
    assert(s1 == s.apply(OutputView::SaveCursorPos));
    lemma_saved_cursor_kept(s1, moves);
    let s2 = apply_all(s1, moves);
    assert(apply_all(s2, restore.drop_last()) == s2);
    assert(restore.last() == OutputView::RestoreCursorPos);
    assert(apply_all(s2, restore) == s2.apply(OutputView::RestoreCursorPos));
}

/// What one non-blocking transfer on the pty reported.
#[derive(Debug, Clone, Copy, PartialEq, Eq)]
pub enum Transfer {
    /// This many bytes went through.
    Done(usize),
    /// Nothing could go through now; not an error.
    WouldBlock,
    /// The descriptor failed; the session is over.
    Failed,
}

/// A write to the pty is retried until every byte went through: the bytes
/// still to go after one attempt, or `None` when the write has failed.
pub fn write_progress(remaining: usize, transfer: Transfer) -> (r: Option<usize>)
    requires
        transfer matches Transfer::Done(n) ==> n <= remaining,
    ensures
        match transfer {
            Transfer::Done(n) => r == Some((remaining - n) as usize),
            Transfer::WouldBlock => r == Some(remaining),
            Transfer::Failed => r is None,
        },
{
    match transfer {
        Transfer::Done(n) => Some(remaining - n),
        Transfer::WouldBlock => Some(remaining),
        Transfer::Failed => None,
    }
}
} // verus!
