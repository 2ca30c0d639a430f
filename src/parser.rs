//! The incremental escape-sequence parser: it splits a byte stream into text
//! runs and CSI commands, and resumes across chunk boundaries.

use vstd::prelude::*;
use crate::span::{Bytes, Span};

verus! {

/// The escape byte that starts every control sequence.
pub const ESC: u8 = 0x1B;

/// `[`, which turns an escape into a Control Sequence Introducer.
pub const CSI: u8 = 0x5B;

pub const SEMICOLON: u8 = 0x3B;

/// The bytes that end a CSI sequence: `A`..=`H` (cursor motion), `J` and `K`
/// (erase), `S` and `T` (scroll), `f` (position), `m` (graphic rendition),
/// `s` and `u` (save and restore the cursor).
pub open spec fn is_terminator_byte(b: u8) -> bool {
    ||| 0x41 <= b <= 0x48
    ||| b == 0x4A
    ||| b == 0x4B
    ||| b == 0x53
    ||| b == 0x54
    ||| b == 0x66
    ||| b == 0x6D
    ||| b == 0x73
    ||| b == 0x75
}

pub open spec fn is_digit_byte(b: u8) -> bool {
    0x30 <= b <= 0x39
}

pub trait IsTerminator {
    fn is_csi_terminator(&self) -> bool;
}

impl IsTerminator for u8 {
    fn is_csi_terminator(&self) -> (r: bool)
        ensures
            r == is_terminator_byte(*self),
    {
        match *self {
            0x41..=0x48 => true,  // 'A'..='H': cursor position
            0x4A | 0x4B => true,  // 'J', 'K': erase display / line
            0x53 | 0x54 => true,  // 'S', 'T': scroll up / down
            0x66 => true,  // 'f': horizontal and vertical position
            0x6D => true,  // 'm': select graphic rendition
            0x73 | 0x75 => true,  // 's', 'u': save / restore cursor position
            _ => false,
        }
    }
}


/// The value of a run of decimal digits.
pub open spec fn decimal(d: Seq<u8>) -> nat
    decreases d.len(),
{
    if d.len() == 0 {
        0
    } else {
        decimal(d.drop_last()) * 10 + (d.last() - 0x30) as nat
    }
}

/// A finished CSI argument: unset when no digit was given, otherwise its
/// decimal value, held at `usize::MAX` when larger.
pub open spec fn arg_value(d: Seq<u8>) -> Option<usize> {
    if d.len() == 0 {
        None
    } else if decimal(d) > usize::MAX {
        Some(usize::MAX)
    } else {
        Some(decimal(d) as usize)
    }
}

/// `s` holds no escape byte.
pub open spec fn no_esc(s: Seq<u8>) -> bool {
    forall|j: int| 0 <= j < s.len() ==> #[trigger] s[j] != ESC
}

/// No text output among `os` holds an escape byte.
pub open spec fn text_has_no_esc(os: Seq<OutputView>) -> bool {
    forall|i: int| 0 <= i < os.len() ==> (#[trigger] os[i] matches OutputView::Text(t) ==> no_esc(t))
}

pub open spec fn all_digits(d: Seq<u8>) -> bool {
    forall|j: int| 0 <= j < d.len() ==> is_digit_byte(#[trigger] d[j])
}

/// What a CSI parser has seen so far.
pub enum CsiPhase {
    /// Collecting the digits of the current argument.
    Argument(Seq<u8>),
    /// The sequence ended with this terminator.
    Finished(u8),
}

/// The model of a CSI parser.
pub struct CsiView {
    pub phase: CsiPhase,
    /// The finished arguments, in the order received.
    pub args: Seq<Option<usize>>,
    /// Every byte pushed since the introducer, terminator included.
    pub raw: Seq<u8>,
    /// A byte that is neither a digit, `;` nor a terminator was seen.
    pub malformed: bool,
}

impl CsiView {
    pub open spec fn fresh() -> CsiView {
        CsiView { phase: CsiPhase::Argument(Seq::empty()), args: Seq::empty(), raw: Seq::empty(), malformed: false }
    }

    pub open spec fn wf(self) -> bool {
        match self.phase {
            CsiPhase::Argument(d) => all_digits(d),
            CsiPhase::Finished(_) => true,
        }
    }

    /// A step keeps the pending argument made of digits only.
    pub proof fn lemma_step_wf(self, b: u8)
        requires
            self.wf(),
        ensures
            self.step(b).wf(),
    {
        if let CsiPhase::Argument(d) = self.step(b).phase {
            if let CsiPhase::Argument(d0) = self.phase {
                assert forall|j: int| 0 <= j < d.len() implies is_digit_byte(#[trigger] d[j]) by {
                    if j < d0.len() {
                        assert(d[j] == d0[j]);
                    }
                }
            }
        }
    }

    /// One byte fed to a CSI parser that has not finished.
    pub open spec fn step(self, b: u8) -> CsiView {
        let raw = self.raw.push(b);
        match self.phase {
            CsiPhase::Argument(d) => if is_terminator_byte(b) {
                CsiView { phase: CsiPhase::Finished(b), args: self.args.push(arg_value(d)), raw, ..self }
            } else if b == SEMICOLON {
                CsiView { phase: CsiPhase::Argument(Seq::empty()), args: self.args.push(arg_value(d)), raw, ..self }
            } else if is_digit_byte(b) {
                CsiView { phase: CsiPhase::Argument(d.push(b)), raw, ..self }
            } else {
                CsiView { raw, malformed: true, ..self }
            },
            CsiPhase::Finished(_) => self,
        }
    }
}

#[derive(Debug, Clone, PartialEq, Eq)]
pub enum CsiState {
    /// The digits of the current argument.
    Argument(Span),
    Finished(u8),
}

/// Parses the bytes of one CSI command that follow `ESC [`.
#[derive(Debug, Clone, PartialEq, Eq)]
pub struct CsiParser {
    state: CsiState,
    args: Vec<Option<usize>>,
    raw: Span,
    malformed: bool,
}

/// The value of the digits in `digits`, saturated at `usize::MAX`.
fn accumulate(digits: &Span, chunk: &[u8]) -> (r: Option<usize>)
    requires
        digits.fits(chunk@),
        all_digits(digits.bytes_in(chunk@)),
    ensures
        r == arg_value(digits.bytes_in(chunk@)),
{
    let ghost d = digits.bytes_in(chunk@);
    let n = digits.len();
    if n == 0 {
        return None;
    }
    let mut v: usize = 0;
    let mut k: usize = 0;
    while k < n
        invariant
            digits.fits(chunk@),
            d == digits.bytes_in(chunk@),
            all_digits(d),
            n == d.len(),
            k <= n,
            v == if decimal(d.take(k as int)) > usize::MAX {
                usize::MAX as nat
            } else {
                decimal(d.take(k as int))
            },
        decreases n - k,
    {
        let b = digits.byte_at(chunk, k);
        assert(is_digit_byte(d[k as int]));
        let digit: usize = (b - 0x30) as usize;
        let ghost prev = decimal(d.take(k as int));
        assert(d.take(k + 1).drop_last() =~= d.take(k as int));
        assert(decimal(d.take(k + 1)) == prev * 10 + digit);
        v = match v.checked_mul(10) {
            Some(m) => match m.checked_add(digit) {
                Some(s) => s,
                None => usize::MAX,
            },
            None => usize::MAX,
        };
        k = k + 1;
    }
    assert(d.take(n as int) =~= d);
    Some(v)
}


/// One unit of parser output.
#[derive(Debug, Clone, PartialEq, Eq)]
pub enum TerminalOutput<'a> {
    /// An escape sequence that has no effect here, kept for diagnostics.
    Ansi(Bytes<'a>),
    /// A run of printable text.
    Text(Bytes<'a>),
    /// Move the cursor; both values are 1-based, as received
    /// (`x` is the column, `y` the row).
    SetCursorPos { x: usize, y: usize },
    ClearForwards,
    ClearBackwards,
    ClearAll,
    RestoreCursorPos,
    SaveCursorPos,
}

/// The model of a [`TerminalOutput`].
pub enum OutputView {
    Ansi(Seq<u8>),
    Text(Seq<u8>),
    SetCursorPos { x: usize, y: usize },
    ClearForwards,
    ClearBackwards,
    ClearAll,
    RestoreCursorPos,
    SaveCursorPos,
}

impl<'a> View for TerminalOutput<'a> {
    type V = OutputView;

    open spec fn view(&self) -> OutputView {
        match *self {
            TerminalOutput::Ansi(b) => OutputView::Ansi(b@),
            TerminalOutput::Text(b) => OutputView::Text(b@),
            TerminalOutput::SetCursorPos { x, y } => OutputView::SetCursorPos { x, y },
            TerminalOutput::ClearForwards => OutputView::ClearForwards,
            TerminalOutput::ClearBackwards => OutputView::ClearBackwards,
            TerminalOutput::ClearAll => OutputView::ClearAll,
            TerminalOutput::RestoreCursorPos => OutputView::RestoreCursorPos,
            TerminalOutput::SaveCursorPos => OutputView::SaveCursorPos,
        }
    }
}

/// The models of a sequence of outputs.
pub open spec fn outputs_view<'a>(v: Seq<TerminalOutput<'a>>) -> Seq<OutputView> {
    v.map_values(|o: TerminalOutput<'a>| o@)
}

/// Every text output is borrowed from the chunk, except the first output
/// when `carried` says that it may hold text carried in from an earlier chunk.
pub open spec fn text_borrowed<'a>(out: Seq<TerminalOutput<'a>>, carried: bool) -> bool {
    forall|k: int|
        0 <= k < out.len() && (k > 0 || !carried) ==> (#[trigger] out[k] matches TerminalOutput::Text(b) ==> b is Borrowed)
}

/// Argument `i`, or `default` when it was not given.
pub open spec fn arg_or(args: Seq<Option<usize>>, i: int, default: usize) -> usize {
    if 0 <= i < args.len() {
        match args[i] {
            Some(v) => v,
            None => default,
        }
    } else {
        default
    }
}

impl CsiView {
    /// The whole sequence as received, introducer included.
    pub open spec fn full_sequence(self) -> Seq<u8> {
        seq![ESC, CSI] + self.raw
    }

    /// The output for a finished CSI sequence: `H` moves the cursor (row
    /// first, then column, each 1 when unset), `J` clears (unset or 0
    /// forwards, 1 backwards, 2 all), `s` and `u` save and restore the cursor.
    /// Any other terminator, a `J` argument above 2, or a malformed sequence
    /// gives the raw sequence, introducer included.
    pub open spec fn output(self) -> OutputView {
        let full = self.full_sequence();
        let args = self.args;
        let t = match self.phase {
            CsiPhase::Finished(t) => t,
            CsiPhase::Argument(_) => 0,
        };
        if self.malformed {
            OutputView::Ansi(full)
        } else if t == 0x48 {
            OutputView::SetCursorPos { x: arg_or(args, 1, 1), y: arg_or(args, 0, 1) }
        } else if t == 0x4A {
            let mode = arg_or(args, 0, 0);
            if mode == 0 {
                OutputView::ClearForwards
            } else if mode == 1 {
                OutputView::ClearBackwards
            } else if mode == 2 {
                OutputView::ClearAll
            } else {
                OutputView::Ansi(full)
            }
        } else if t == 0x73 {
            OutputView::SaveCursorPos
        } else if t == 0x75 {
            OutputView::RestoreCursorPos
        } else {
            OutputView::Ansi(full)
        }
    }
}

/// Argument `i`, or `default` when it was not given.
fn arg_or_exec(args: &Vec<Option<usize>>, i: usize, default: usize) -> (r: usize)
    ensures
        r == arg_or(args@, i as int, default),
{
    if i < args.len() {
        match args[i] {
            Some(v) => v,
            None => default,
        }
    } else {
        default
    }
}

impl View for CsiParser {
    type V = CsiView;

    /// The model of a parser between chunks, when it holds no view.
    closed spec fn view(&self) -> CsiView {
        self.view_in(Seq::empty())
    }
}

impl CsiParser {
    /// All spans of the parser lie within `chunk`.
    pub closed spec fn fits(&self, chunk: Seq<u8>) -> bool {
        &&& self.raw.fits(chunk)
        &&& match self.state {
            CsiState::Argument(s) => s.fits(chunk),
            CsiState::Finished(_) => true,
        }
    }

    /// The parser holds no view into any chunk.
    pub closed spec fn is_detached(&self) -> bool {
        &&& self.raw.is_detached()
        &&& match self.state {
            CsiState::Argument(s) => s.is_detached(),
            CsiState::Finished(_) => true,
        }
    }

    /// The model of the parser, its views read against `chunk`.
    pub closed spec fn view_in(&self, chunk: Seq<u8>) -> CsiView {
        CsiView {
            phase: match self.state {
                CsiState::Argument(s) => CsiPhase::Argument(s.bytes_in(chunk)),
                CsiState::Finished(t) => CsiPhase::Finished(t),
            },
            args: self.args@,
            raw: self.raw.bytes_in(chunk),
            malformed: self.malformed,
        }
    }

    /// A detached parser reads the same against every chunk.
    pub proof fn lemma_detached(&self, chunk: Seq<u8>)
        requires
            self.is_detached(),
        ensures
            self.fits(chunk),
            self.view_in(chunk) == self@,
    {
    }

    pub fn new() -> (r: Self)
        ensures
            r.is_detached(),
            r@ == CsiView::fresh(),
    {
        CsiParser { state: CsiState::Argument(Span::empty()), args: Vec::new(), raw: Span::empty(), malformed: false }
    }

    /// Whether digits of an unfinished argument are pending, the bytes that
    /// would have to be kept when the chunk ends.
    pub fn has_incomplete_output(&self) -> (r: bool)
        ensures
            forall|chunk: Seq<u8>|
                #![trigger self.view_in(chunk)]
                self.fits(chunk) ==> (r <==> (self.view_in(chunk).phase matches CsiPhase::Argument(d) && d.len() > 0)),
    {
        match &self.state {
            CsiState::Argument(s) => s.len() > 0,
            CsiState::Finished(_) => false,
        }
    }

    /// Copies every view out of `chunk`, before the chunk goes away.
    pub fn take_incomplete(&mut self, chunk: &[u8])
        requires
            old(self).fits(chunk@),
        ensures
            final(self).is_detached(),
            final(self)@ == old(self).view_in(chunk@),
    {
        match &mut self.state {
            CsiState::Argument(s) => s.detach(chunk),
            CsiState::Finished(_) => {},
        }
        self.raw.detach(chunk);
    }

    /// The arguments' digits and the terminator, as the parser holds them.
    pub fn state(&self) -> (r: &CsiState)
        ensures
            *r matches CsiState::Finished(t) ==> self@.phase == CsiPhase::Finished(t),
            *r matches CsiState::Argument(_) ==> self@.phase is Argument,
    {
        &self.state
    }

    /// The digits of the argument in progress; none once finished.
    pub fn pending_digits(&self) -> (r: Vec<u8>)
        requires
            self.is_detached(),
        ensures
            self@.phase matches CsiPhase::Argument(d) ==> r@ == d,
            self@.phase is Finished ==> r@.len() == 0,
    {
        match &self.state {
            CsiState::Argument(s) => s.to_vec(&[]),
            CsiState::Finished(_) => Vec::new(),
        }
    }

    pub fn is_finished(&self) -> (r: bool)
        ensures
            r <==> self@.phase is Finished,
    {
        match self.state {
            CsiState::Argument(_) => false,
            CsiState::Finished(_) => true,
        }
    }

    /// The whole sequence as received, introducer included.
    fn full_sequence(&self, chunk: &[u8]) -> (r: Vec<u8>)
        requires
            self.fits(chunk@),
        ensures
            r@ == self.view_in(chunk@).full_sequence(),
    {
        let mut v: Vec<u8> = Vec::new();
        v.push(ESC);
        v.push(CSI);
        let mut rest = self.raw.to_vec(chunk);
        v.append(&mut rest);
        proof {
            assert(v@ =~= self.view_in(chunk@).full_sequence());
        }
        v
    }

    /// The output of a finished sequence.
    pub fn output<'a>(&self, chunk: &'a [u8]) -> (r: TerminalOutput<'a>)
        requires
            self.fits(chunk@),
            self.view_in(chunk@).phase is Finished,
        ensures
            r@ == self.view_in(chunk@).output(),
    {
        let t = match self.state {
            CsiState::Finished(t) => t,
            CsiState::Argument(_) => 0,
        };
        if self.malformed {
            TerminalOutput::Ansi(Bytes::Owned(self.full_sequence(chunk)))
        } else if t == 0x48 {
            TerminalOutput::SetCursorPos { x: arg_or_exec(&self.args, 1, 1), y: arg_or_exec(&self.args, 0, 1) }
        } else if t == 0x4A {
            let mode = arg_or_exec(&self.args, 0, 0);
            if mode == 0 {
                TerminalOutput::ClearForwards
            } else if mode == 1 {
                TerminalOutput::ClearBackwards
            } else if mode == 2 {
                TerminalOutput::ClearAll
            } else {
                TerminalOutput::Ansi(Bytes::Owned(self.full_sequence(chunk)))
            }
        } else if t == 0x73 {
            TerminalOutput::SaveCursorPos
        } else if t == 0x75 {
            TerminalOutput::RestoreCursorPos
        } else {
            TerminalOutput::Ansi(Bytes::Owned(self.full_sequence(chunk)))
        }
    }

    /// Feeds `chunk[i]` to a parser that has not finished.
    pub fn push(&mut self, chunk: &[u8], i: usize)
        requires
            old(self).fits(chunk@),
            old(self).view_in(chunk@).wf(),
            old(self).view_in(chunk@).phase is Argument,
            i < chunk@.len(),
        ensures
            final(self).fits(chunk@),
            final(self).view_in(chunk@).wf(),
            final(self).view_in(chunk@) == old(self).view_in(chunk@).step(chunk@[i as int]),
    {
        let byte = chunk[i];
        self.raw.push_byte(chunk, i);
        if byte.is_csi_terminator() {
            let arg = match &self.state {
                CsiState::Argument(s) => accumulate(s, chunk),
                CsiState::Finished(_) => None,
            };
            self.args.push(arg);
            self.state = CsiState::Finished(byte);
        } else if byte == SEMICOLON {
            let arg = match &self.state {
                CsiState::Argument(s) => accumulate(s, chunk),
                CsiState::Finished(_) => None,
            };
            self.args.push(arg);
            self.state = CsiState::Argument(Span::empty());
        } else if 0x30 <= byte && byte <= 0x39 {
            match &mut self.state {
                CsiState::Argument(s) => s.push_byte(chunk, i),
                CsiState::Finished(_) => {},
            }
        } else {
            // The digits around this byte are no longer contiguous: keep a copy.
            match &mut self.state {
                CsiState::Argument(s) => s.detach(chunk),
                CsiState::Finished(_) => {},
            }
            self.malformed = true;
        }
        proof {
            old(self).view_in(chunk@).lemma_step_wf(byte);
        }
    }
}


/// Where the output parser stands.
pub enum Phase {
    /// Accumulating plain text.
    Idle,
    /// Saw ESC, waiting for the next byte.
    Esc,
    /// Inside a CSI sequence.
    Csi(CsiView),
}

/// The model of an output parser: its phase and the text not yet handed out.
pub struct ParserView {
    pub phase: Phase,
    pub text: Seq<u8>,
}

impl ParserView {
    pub open spec fn initial() -> ParserView {
        ParserView { phase: Phase::Idle, text: Seq::empty() }
    }

    /// Text is pending only in the idle phase and holds no escape byte, and a
    /// CSI parser in progress has not finished and holds only digits.
    pub open spec fn wf(self) -> bool {
        &&& !(self.phase is Idle) ==> self.text.len() == 0
        &&& no_esc(self.text)
        &&& match self.phase {
            Phase::Csi(c) => c.wf() && c.phase is Argument,
            _ => true,
        }
    }

    /// One byte of input: the next state and the outputs it completes.
    ///
    /// In text, ESC hands out the pending text (when there is any) and starts
    /// an escape; any other byte joins the text.  After ESC, `[` starts a CSI
    /// sequence, another ESC abandons the first one, and any other byte ends a
    /// two-byte escape sequence, which has no effect here.  In a CSI sequence
    /// the byte goes to the CSI parser, and its output comes when it finishes.
    pub open spec fn step(self, b: u8) -> (ParserView, Seq<OutputView>) {
        match self.phase {
            Phase::Idle => if b == ESC {
                (
                    ParserView { phase: Phase::Esc, text: Seq::empty() },
                    if self.text.len() > 0 { seq![OutputView::Text(self.text)] } else { Seq::empty() },
                )
            } else {
                (ParserView { phase: Phase::Idle, text: self.text.push(b) }, Seq::empty())
            },
            Phase::Esc => if b == CSI {
                (ParserView { phase: Phase::Csi(CsiView::fresh()), text: Seq::empty() }, Seq::empty())
            } else if b == ESC {
                (ParserView { phase: Phase::Esc, text: Seq::empty() }, seq![OutputView::Ansi(seq![ESC])])
            } else {
                (ParserView { phase: Phase::Idle, text: Seq::empty() }, seq![OutputView::Ansi(seq![ESC, b])])
            },
            Phase::Csi(c) => {
                let c2 = c.step(b);
                if c2.phase is Finished {
                    (ParserView { phase: Phase::Idle, text: Seq::empty() }, seq![c2.output()])
                } else {
                    (ParserView { phase: Phase::Csi(c2), text: Seq::empty() }, Seq::empty())
                }
            },
        }
    }

    /// The end of the stream: pending text is handed out.
    pub open spec fn flush(self) -> (ParserView, Seq<OutputView>) {
        if self.phase is Idle && self.text.len() > 0 {
            (ParserView { phase: Phase::Idle, text: Seq::empty() }, seq![OutputView::Text(self.text)])
        } else {
            (self, Seq::empty())
        }
    }
}

/// The state after `s` and the outputs that it completes, byte by byte.
pub open spec fn run(p: ParserView, s: Seq<u8>) -> (ParserView, Seq<OutputView>)
    decreases s.len(),
{
    if s.len() == 0 {
        (p, Seq::empty())
    } else {
        let (q, out) = run(p, s.drop_last());
        let (r, more) = q.step(s.last());
        (r, out + more)
    }
}

pub proof fn lemma_step_wf(p: ParserView, b: u8)
    requires
        p.wf(),
    ensures
        p.step(b).0.wf(),
        text_has_no_esc(p.step(b).1),
{
    if let Phase::Csi(c) = p.phase {
        c.lemma_step_wf(b);
    }
    if p.phase is Idle && b != ESC {
        let t = p.text.push(b);
        assert forall|j: int| 0 <= j < t.len() implies #[trigger] t[j] != ESC by {
            if j < p.text.len() {
                assert(t[j] == p.text[j]);
            }
        }
    }
}

pub proof fn lemma_concat_no_esc(a: Seq<OutputView>, b: Seq<OutputView>)
    requires
        text_has_no_esc(a),
        text_has_no_esc(b),
    ensures
        text_has_no_esc(a + b),
{
    assert forall|i: int| 0 <= i < (a + b).len() implies (#[trigger] (a + b)[i] matches OutputView::Text(t) ==> no_esc(t)) by {
        if i < a.len() {
            assert((a + b)[i] == a[i]);
        } else {
            assert((a + b)[i] == b[i - a.len()]);
        }
    }
}

pub proof fn lemma_run_wf(p: ParserView, s: Seq<u8>)
    requires
        p.wf(),
    ensures
        run(p, s).0.wf(),
        text_has_no_esc(run(p, s).1),
    decreases s.len(),
{
    if s.len() > 0 {
        lemma_run_wf(p, s.drop_last());
        lemma_step_wf(run(p, s.drop_last()).0, s.last());
        lemma_concat_no_esc(run(p, s.drop_last()).1, run(p, s.drop_last()).0.step(s.last()).1);
    }
}

pub proof fn lemma_flush_wf(p: ParserView)
    requires
        p.wf(),
    ensures
        p.flush().0.wf(),
        text_has_no_esc(p.flush().1),
{
}

#[derive(Debug, Clone, PartialEq, Eq)]
pub enum AnsiBuilder {
    Empty,
    Esc,
    Csi(CsiParser),
}

/// Splits a byte stream into text runs and commands.  Call [`OutputParser::parse`]
/// with successive chunks of one stream; a sequence cut by the end of a chunk
/// is resumed with the next one.
pub struct OutputParser {
    state: AnsiBuilder,
    /// The pending text.  It is a view into the chunk being parsed for as long
    /// as it lies in one piece there, and is copied out when the chunk ends.
    partial: Span,
}

impl OutputParser {
    pub closed spec fn fits(&self, chunk: Seq<u8>) -> bool {
        &&& self.partial.fits(chunk)
        &&& match self.state {
            AnsiBuilder::Csi(c) => c.fits(chunk),
            _ => true,
        }
    }

    pub closed spec fn is_detached(&self) -> bool {
        &&& self.partial.is_detached()
        &&& match self.state {
            AnsiBuilder::Csi(c) => c.is_detached(),
            _ => true,
        }
    }

    pub closed spec fn view_in(&self, chunk: Seq<u8>) -> ParserView {
        ParserView {
            phase: match self.state {
                AnsiBuilder::Empty => Phase::Idle,
                AnsiBuilder::Esc => Phase::Esc,
                AnsiBuilder::Csi(c) => Phase::Csi(c.view_in(chunk)),
            },
            text: self.partial.bytes_in(chunk),
        }
    }
}

impl View for OutputParser {
    type V = ParserView;

    closed spec fn view(&self) -> ParserView {
        self.view_in(Seq::empty())
    }
}

impl OutputParser {
    /// The parser's invariant between calls: it holds no view into a chunk.
    pub closed spec fn wf(&self) -> bool {
        self.is_detached() && self@.wf()
    }

    /// The invariant between calls includes that of the model.
    pub proof fn lemma_wf(&self)
        requires
            self.wf(),
        ensures
            self@.wf(),
    {
    }

    proof fn lemma_detached(&self, chunk: Seq<u8>)
        requires
            self.is_detached(),
        ensures
            self.fits(chunk),
            self.view_in(chunk) == self@,
    {
    }

    pub fn new() -> (r: Self)
        ensures
            r.wf(),
            r@ == ParserView::initial(),
    {
        OutputParser { state: AnsiBuilder::Empty, partial: Span::empty() }
    }

    /// While a chunk is parsed, the pending text is either a view that ends
    /// just before `chunk[i]`, or text carried in from an earlier chunk, and
    /// then nothing has been handed out yet.
    spec fn partial_in_place(&self, i: int, handed_out: int, carried: bool) -> bool {
        &&& self.partial matches Span::View { start, len } ==> len == 0 || start + len == i
        &&& self.partial is Owned && self.partial.len_spec() > 0 ==> handed_out == 0 && carried
    }

    /// Appends `chunk[i]` to the pending span.
    fn partial_push(&mut self, chunk: &[u8], i: usize, Ghost(handed_out): Ghost<int>, Ghost(carried): Ghost<bool>)
        requires
            old(self).fits(chunk@),
            i < chunk@.len(),
            old(self).partial_in_place(i as int, handed_out, carried),
        ensures
            final(self).fits(chunk@),
            final(self).state == old(self).state,
            final(self).partial.bytes_in(chunk@) == old(self).partial.bytes_in(chunk@).push(chunk@[i as int]),
            final(self).partial_in_place(i + 1, handed_out, carried),
    {
        proof {
            assert(chunk@.len() == chunk.len());
        }
        self.partial.push_byte(chunk, i);
    }

    /// At the end of a chunk: copies out whatever still refers to it, so that
    /// the pending text and a sequence cut short survive until the next call.
    fn partial_take(&mut self, chunk: &[u8])
        requires
            old(self).fits(chunk@),
        ensures
            final(self).is_detached(),
            final(self)@ == old(self).view_in(chunk@),
    {
        self.partial.detach(chunk);
        match &mut self.state {
            AnsiBuilder::Csi(csi) => csi.take_incomplete(chunk),
            _ => {},
        }
    }

    /// Feeds `chunk[i]` and appends what it completes to `output`.
    fn parse_byte<'b>(
        &mut self,
        chunk: &'b [u8],
        i: usize,
        output: &mut Vec<TerminalOutput<'b>>,
        Ghost(carried): Ghost<bool>,
    )
        requires
            old(self).fits(chunk@),
            old(self).view_in(chunk@).wf(),
            i < chunk@.len(),
            old(self).partial_in_place(i as int, old(output)@.len() as int, carried),
            text_borrowed(old(output)@, carried),
        ensures
            final(self).partial_in_place(i + 1, final(output)@.len() as int, carried),
            text_borrowed(final(output)@, carried),
            final(self).fits(chunk@),
            final(self).view_in(chunk@) == old(self).view_in(chunk@).step(chunk@[i as int]).0,
            outputs_view(final(output)@) == outputs_view(old(output)@) + old(self).view_in(chunk@).step(chunk@[i as int]).1,
    {
        let ghost before = self.view_in(chunk@);
        let ghost out0 = output@;
        let byte = chunk[i];
        match &mut self.state {
            AnsiBuilder::Empty => {
                if byte == ESC {
                    let mut text = Span::empty();
                    std::mem::swap(&mut self.partial, &mut text);
                    if text.len() > 0 {
                        output.push(TerminalOutput::Text(text.into_bytes(chunk)));
                    }
                    self.state = AnsiBuilder::Esc;
                } else {
                    self.partial_push(chunk, i, Ghost(output@.len() as int), Ghost(carried));
                }
            },
            AnsiBuilder::Esc => {
                if byte == CSI {
                    let csi = CsiParser::new();
                    proof {
                        csi.lemma_detached(chunk@);
                    }
                    self.state = AnsiBuilder::Csi(csi);
                } else if byte == ESC {
                    let mut raw: Vec<u8> = Vec::new();
                    raw.push(ESC);
                    assert(raw@ =~= seq![ESC]);
                    output.push(TerminalOutput::Ansi(Bytes::Owned(raw)));
                } else {
                    let mut raw: Vec<u8> = Vec::new();
                    raw.push(ESC);
                    raw.push(byte);
                    assert(raw@ =~= seq![ESC, byte]);
                    output.push(TerminalOutput::Ansi(Bytes::Owned(raw)));
                    self.state = AnsiBuilder::Empty;
                }
            },
            AnsiBuilder::Csi(csi) => {
                csi.push(chunk, i);
                if csi.is_finished() {
                    let o = csi.output(chunk);
                    output.push(o);
                    self.state = AnsiBuilder::Empty;
                }
            },
        }
        proof {
            assert(outputs_view(output@) =~= outputs_view(out0) + before.step(byte).1);
            assert(self.view_in(chunk@).text =~= before.step(byte).0.text);
            assert forall|k: int| 0 <= k < output@.len() && (k > 0 || !carried) implies (
            #[trigger] output@[k] matches TerminalOutput::Text(b) ==> b is Borrowed) by {
                if k < out0.len() {
                    assert(output@[k] == out0[k]);
                }
            }
        }
    }
}


impl OutputParser {
    /// Parses one chunk of the stream and returns the outputs it completes,
    /// in order.  Text still pending at the end of the chunk is kept, to be
    /// joined with what follows; a sequence cut by the end of the chunk is
    /// resumed on the next call.  Text that lay in one piece in `bytes` is
    /// handed out borrowed from it.
    pub fn parse<'b>(&mut self, bytes: &'b [u8]) -> (output: Vec<TerminalOutput<'b>>)
        requires
            old(self).wf(),
        ensures
            final(self).wf(),
            final(self)@ == run(old(self)@, bytes@).0,
            outputs_view(output@) == run(old(self)@, bytes@).1,
            text_has_no_esc(outputs_view(output@)),
            text_borrowed(output@, old(self)@.text.len() > 0),
    {
        let ghost start = self@;
        let ghost carried = start.text.len() > 0;
        proof {
            self.lemma_detached(bytes@);
            assert(bytes@.take(0) =~= Seq::<u8>::empty());
            assert(outputs_view(Seq::<TerminalOutput<'b>>::empty()) =~= Seq::<OutputView>::empty());
        }
        let mut output: Vec<TerminalOutput<'b>> = Vec::new();
        let mut i: usize = 0;
        while i < bytes.len()
            invariant
                start.wf(),
                i <= bytes@.len(),
                self.fits(bytes@),
                self.view_in(bytes@) == run(start, bytes@.take(i as int)).0,
                outputs_view(output@) == run(start, bytes@.take(i as int)).1,
                carried == (start.text.len() > 0),
                self.partial_in_place(i as int, output@.len() as int, carried),
                text_borrowed(output@, carried),
            decreases bytes@.len() - i,
        {
            proof {
                lemma_run_wf(start, bytes@.take(i as int));
                assert(bytes@.take(i + 1).drop_last() =~= bytes@.take(i as int));
            }
            self.parse_byte(bytes, i, &mut output, Ghost(carried));
            proof {
                let prev = run(start, bytes@.take(i as int));
                assert(outputs_view(output@) =~= prev.1 + prev.0.step(bytes@[i as int]).1);
            }
            i = i + 1;
        }
        proof {
            assert(bytes@.take(i as int) =~= bytes@);
            lemma_run_wf(start, bytes@);
        }
        self.partial_take(bytes);
        output
    }

    /// Ends the stream: hands out the pending text, if any.
    pub fn flush(&mut self) -> (r: Option<TerminalOutput<'static>>)
        requires
            old(self).wf(),
        ensures
            final(self).wf(),
            final(self)@ == old(self)@.flush().0,
            match r {
                Some(o) => seq![o@] == old(self)@.flush().1,
                None => old(self)@.flush().1 == Seq::<OutputView>::empty(),
            },
    {
        match self.state {
            AnsiBuilder::Empty => {
                if self.partial.len() > 0 {
                    let mut text = Span::empty();
                    std::mem::swap(&mut self.partial, &mut text);
                    let owned = text.to_vec(&[]);
                    Some(TerminalOutput::Text(Bytes::Owned(owned)))
                } else {
                    None
                }
            },
            _ => None,
        }
    }

    /// The phase of the parser.
    pub fn state(&self) -> (r: &AnsiBuilder)
        requires
            self.wf(),
        ensures
            (*r is Empty) == (self@.phase is Idle),
            (*r is Esc) == (self@.phase is Esc),
            *r matches AnsiBuilder::Csi(c) ==> self@.phase == Phase::Csi(c@),
    {
        &self.state
    }

    /// The number of pending text bytes.
    pub fn partial_len(&self) -> (r: usize)
        requires
            self.wf(),
        ensures
            r == self@.text.len(),
    {
        self.partial.len()
    }
}

/// Splitting a stream in two changes nothing: parsing `a` and then `b` ends
/// in the same state, with the same outputs in the same order, as parsing
/// `a + b` at once.
pub proof fn lemma_split_invariance(p: ParserView, a: Seq<u8>, b: Seq<u8>)
    ensures
        run(p, a + b).0 == run(run(p, a).0, b).0,
        run(p, a + b).1 == run(p, a).1 + run(run(p, a).0, b).1,
    decreases b.len(),
{
    if b.len() == 0 {
        assert(a + b =~= a);
        assert(run(p, a).1 + Seq::<OutputView>::empty() =~= run(p, a).1);
    } else {
        lemma_split_invariance(p, a, b.drop_last());
        assert((a + b).drop_last() =~= a + b.drop_last());
        assert((a + b).last() == b.last());
        let q = run(p, a);
        let r = run(q.0, b.drop_last());
        let st = r.0.step(b.last());
        assert(q.1 + r.1 + st.1 =~= q.1 + (r.1 + st.1));
    }
}

/// Parsing an empty chunk changes nothing and hands out nothing; flushing
/// hands out text only when text is pending, and a second flush hands out
/// nothing.
pub proof fn lemma_empty_chunk_is_silent(p: ParserView)
    ensures
        run(p, Seq::empty()) == (p, Seq::<OutputView>::empty()),
        p.text.len() == 0 ==> p.flush() == (p, Seq::<OutputView>::empty()),
        p.flush().0.flush() == (p.flush().0, Seq::<OutputView>::empty()),
{
}

proof fn lemma_run_one(p: ParserView, b: u8)
    ensures
        run(p, seq![b]) == p.step(b),
{
    assert(seq![b].drop_last() =~= Seq::<u8>::empty());
    assert(run(p, seq![b].drop_last()) == (p, Seq::<OutputView>::empty()));
    assert(seq![b].last() == b);
    assert(Seq::<OutputView>::empty() + p.step(b).1 =~= p.step(b).1);
}

/// Bytes other than ESC, fed in the idle phase, only join the pending text:
/// no output comes until an escape or a flush.
pub proof fn lemma_text_accumulates(p: ParserView, s: Seq<u8>)
    requires
        p.phase is Idle,
        no_esc(s),
    ensures
        run(p, s) == (ParserView { phase: Phase::Idle, text: p.text + s }, Seq::<OutputView>::empty()),
    decreases s.len(),
{
    if s.len() == 0 {
        assert(p.text + s =~= p.text);
    } else {
        let init = s.drop_last();
        assert(no_esc(init)) by {
            assert forall|j: int| 0 <= j < init.len() implies #[trigger] init[j] != ESC by {
                assert(init[j] == s[j]);
            }
        }
        lemma_text_accumulates(p, init);
        assert(s.last() == s[s.len() - 1]);
        assert((p.text + init).push(s.last()) =~= p.text + s);
        assert(Seq::<OutputView>::empty() + Seq::<OutputView>::empty() =~= Seq::<OutputView>::empty());
    }
}

/// A byte that makes a CSI sequence malformed.
pub open spec fn is_invalid_csi_byte(b: u8) -> bool {
    !is_digit_byte(b) && b != SEMICOLON && !is_terminator_byte(b)
}

/// A CSI sequence: the introducer, the body and the terminator.
pub open spec fn csi_sequence(body: Seq<u8>, t: u8) -> Seq<u8> {
    seq![ESC, CSI] + body.push(t)
}

/// Inside a CSI sequence, bytes that are not terminators keep the parser
/// there, hand out nothing, and mark it malformed when one of them is invalid.
proof fn lemma_csi_body(c: CsiView, body: Seq<u8>)
    requires
        c.wf(),
        c.phase is Argument,
        forall|j: int| 0 <= j < body.len() ==> !is_terminator_byte(#[trigger] body[j]),
    ensures
        run(ParserView { phase: Phase::Csi(c), text: Seq::empty() }, body).1 == Seq::<OutputView>::empty(),
        run(ParserView { phase: Phase::Csi(c), text: Seq::empty() }, body).0.text == Seq::<u8>::empty(),
        run(ParserView { phase: Phase::Csi(c), text: Seq::empty() }, body).0.phase matches Phase::Csi(c2) && {
            &&& c2.wf()
            &&& c2.phase is Argument
            &&& c2.raw == c.raw + body
            &&& c2.malformed == (c.malformed || exists|j: int| 0 <= j < body.len() && is_invalid_csi_byte(#[trigger] body[j]))
        },
    decreases body.len(),
{
    let p = ParserView { phase: Phase::Csi(c), text: Seq::empty() };
    if body.len() == 0 {
        assert(c.raw + body =~= c.raw);
    } else {
        let init = body.drop_last();
        let b = body.last();
        assert forall|j: int| 0 <= j < init.len() implies !is_terminator_byte(#[trigger] init[j]) by {
            assert(init[j] == body[j]);
        }
        lemma_csi_body(c, init);
        let q = run(p, init).0;
        lemma_run_wf(p, init);
        assert(b == body[body.len() - 1]);
        if let Phase::Csi(c1) = q.phase {
            let c2 = c1.step(b);
            assert(c2.raw =~= c.raw + body);
            assert(Seq::<OutputView>::empty() + Seq::<OutputView>::empty() =~= Seq::<OutputView>::empty());
            let bad = exists|j: int| 0 <= j < body.len() && is_invalid_csi_byte(#[trigger] body[j]);
            let bad0 = exists|j: int| 0 <= j < init.len() && is_invalid_csi_byte(#[trigger] init[j]);
            if bad0 {
                let j = choose|j: int| 0 <= j < init.len() && is_invalid_csi_byte(#[trigger] init[j]);
                assert(init[j] == body[j]);
            }
            if is_invalid_csi_byte(b) {
                assert(is_invalid_csi_byte(body[body.len() - 1]));
            }
            if bad {
                let j = choose|j: int| 0 <= j < body.len() && is_invalid_csi_byte(#[trigger] body[j]);
                if j < init.len() {
                    assert(init[j] == body[j]);
                }
            }
            assert(c2.malformed == (c.malformed || bad));
        }
    }
}

/// A malformed CSI sequence neither stops the parser nor disturbs what
/// follows: it hands out the pending text and then the raw sequence, leaves
/// the parser as new, and the input after it parses as it would on its own.
pub proof fn lemma_malformed_csi_recovers(p: ParserView, body: Seq<u8>, t: u8, rest: Seq<u8>)
    requires
        p.wf(),
        p.phase is Idle,
        forall|j: int| 0 <= j < body.len() ==> !is_terminator_byte(#[trigger] body[j]),
        exists|j: int| 0 <= j < body.len() && is_invalid_csi_byte(#[trigger] body[j]),
        is_terminator_byte(t),
    ensures
        run(p, csi_sequence(body, t)).0 == ParserView::initial(),
        run(p, csi_sequence(body, t)).1 == p.flush().1 + seq![OutputView::Ansi(csi_sequence(body, t))],
        run(p, csi_sequence(body, t) + rest).0 == run(ParserView::initial(), rest).0,
        run(p, csi_sequence(body, t) + rest).1 == run(p, csi_sequence(body, t)).1 + run(ParserView::initial(), rest).1,
{
    let s = csi_sequence(body, t);
    let intro = seq![ESC, CSI];
    // The introducer.
    assert(intro =~= seq![ESC] + seq![CSI]);
    lemma_split_invariance(p, seq![ESC], seq![CSI]);
    lemma_run_one(p, ESC);
    let pe = p.step(ESC).0;
    lemma_run_one(pe, CSI);
    let pc = run(p, intro).0;
    assert(pc == ParserView { phase: Phase::Csi(CsiView::fresh()), text: Seq::empty() });
    assert(run(p, intro).1 =~= p.flush().1);
    // The body.
    assert(all_digits(Seq::<u8>::empty()));
    lemma_csi_body(CsiView::fresh(), body);
    lemma_split_invariance(p, intro, body);
    let pb = run(pc, body).0;
    // The terminator.
    lemma_run_one(pb, t);
    lemma_split_invariance(p, intro + body, seq![t]);
    assert((intro + body) + seq![t] =~= s);
    if let Phase::Csi(c2) = pb.phase {
        let c3 = c2.step(t);
        assert(Seq::<u8>::empty() + body =~= body);
        assert(c3.raw =~= body.push(t));
        assert(c3.full_sequence() =~= s);
    }
    assert(run(p, s).1 =~= p.flush().1 + seq![OutputView::Ansi(s)]);
    lemma_split_invariance(p, s, rest);
}

} // verus!
