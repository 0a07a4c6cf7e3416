//! The parser and emitter: recursive descent over the scanner's tokens that
//! emits the instructions of each construct as it recognises it.
use crate::matcher::is_ascii_digit;
use crate::tokenizer::{lemma_scan_shrinks, scan, SpecTError, SpecToken, TError, Token, TokenStream};
use vstd::prelude::*;
use vstd::string::*;

verus! {

/// What the parser was looking for when it met an unexpected token.
#[derive(Debug, Clone, Copy, PartialEq, Eq)]
pub enum Expected {
    NumberAfterVw,
    NumberAfterRe,
    NumberAfterStift,
    NumberAfterFarbe,
    NumberAfterWh,
    OpenBracket,
    CloseBracket,
    Statement,
}

/// A fatal compilation error. The first one met ends the compilation.
/// Lexical errors come back here too, as `Lexical`, on the same path as
/// parse errors, rather than aborting the process.
#[derive(Debug)]
pub enum CompileError<'a> {
    /// The scanner failed.
    Lexical(TError<'a>),
    /// A token other than the one the grammar requires, which is carried.
    Unexpected(Expected, Token<'a>),
    /// A repeat count too large for a machine word.
    CountTooLarge(&'a str),
}

/// The mathematical value of a compilation error.
pub enum SpecCompileError {
    Lexical(SpecTError),
    Unexpected(Expected, SpecToken),
    CountTooLarge(Seq<char>),
}

impl<'a> View for CompileError<'a> {
    type V = SpecCompileError;

    open spec fn view(&self) -> SpecCompileError {
        match *self {
            CompileError::Lexical(e) => SpecCompileError::Lexical(e@),
            CompileError::Unexpected(x, t) => SpecCompileError::Unexpected(x, t@),
            CompileError::CountTooLarge(n) => SpecCompileError::CountTooLarge(n@),
        }
    }
}

/// The parser's state: the lookahead token and the text not yet scanned.
pub struct ParseState {
    pub look: SpecToken,
    pub rest: Seq<char>,
}

/// Shrinks with every token taken.
pub open spec fn measure(st: ParseState) -> nat {
    2 * st.rest.len() + if st.look == SpecToken::End { 0nat } else { 1nat }
}

/// Replaces the lookahead with the next token.
pub open spec fn advance(st: ParseState) -> Result<ParseState, SpecCompileError> {
    match scan(st.rest) {
        Ok((t, rest)) => Ok(ParseState { look: t, rest }),
        Err(e) => Err(SpecCompileError::Lexical(e)),
    }
}

/// The state with the first token of `source` as lookahead.
pub open spec fn start(source: Seq<char>) -> Result<ParseState, SpecCompileError> {
    match scan(source) {
        Ok((t, rest)) => Ok(ParseState { look: t, rest }),
        Err(e) => Err(SpecCompileError::Lexical(e)),
    }
}

pub open spec fn is_command(t: SpecToken) -> bool {
    t is Vw || t is Re || t is Stift || t is Farbe
}

/// The instruction a simple command emits for the numeral `n`. The colour
/// setter alone has no `;` after its call.
pub open spec fn instruction(cmd: SpecToken, n: Seq<char>) -> Seq<char> {
    match cmd {
        SpecToken::Vw => "turtle.move("@ + n + ");\n"@,
        SpecToken::Re => "turtle.turnRight("@ + n + ");\n"@,
        SpecToken::Stift => "turtle.setStrokeWidth("@ + n + ");\n"@,
        _ => "turtle.setColor("@ + n + ")\n"@,
    }
}

pub open spec fn number_expected(cmd: SpecToken) -> Expected {
    match cmd {
        SpecToken::Vw => Expected::NumberAfterVw,
        SpecToken::Re => Expected::NumberAfterRe,
        SpecToken::Stift => Expected::NumberAfterStift,
        _ => Expected::NumberAfterFarbe,
    }
}

/// `s` written `n` times in a row.
pub open spec fn repeat(s: Seq<char>, n: nat) -> Seq<char>
    decreases n,
{
    if n == 0 {
        Seq::empty()
    } else {
        repeat(s, (n - 1) as nat) + s
    }
}

pub open spec fn digit_value(c: char) -> nat {
    if is_ascii_digit(c) {
        (c as u32 - '0' as u32) as nat
    } else {
        0
    }
}

/// The value of a decimal numeral.
pub open spec fn decimal_value(s: Seq<char>) -> nat
    decreases s.len(),
{
    if s.len() == 0 {
        0
    } else {
        decimal_value(s.drop_last()) * 10 + digit_value(s.last())
    }
}

/// A simple command (`VW`, `RE`, `STIFT`, `FARBE`) and its numeral.
pub open spec fn command(st: ParseState) -> Result<(Seq<char>, ParseState), SpecCompileError> {
    match advance(st) {
        Err(e) => Err(e),
        Ok(st1) => match st1.look {
            SpecToken::Number(n) => match advance(st1) {
                Err(e) => Err(e),
                Ok(st2) => Ok((instruction(st.look, n), st2)),
            },
            other => Err(SpecCompileError::Unexpected(number_expected(st.look), other)),
        },
    }
}

/// `WH n [ body ]`: the body's instructions written `n` times. The guard on
/// the measure always holds (see `lemma_advance_shrinks`).
pub open spec fn repeat_block(st: ParseState) -> Result<(Seq<char>, ParseState), SpecCompileError>
    decreases measure(st), 0nat,
{
    match advance(st) {
        Err(e) => Err(e),
        Ok(st1) => match st1.look {
            SpecToken::Number(n) => match advance(st1) {
                Err(e) => Err(e),
                Ok(st2) => match st2.look {
                    SpecToken::BOpen => match advance(st2) {
                        Err(e) => Err(e),
                        Ok(st3) => if measure(st3) < measure(st) {
                            match statements(st3) {
                                Err(e) => Err(e),
                                Ok((body, st4)) => match st4.look {
                                    SpecToken::BClose => match advance(st4) {
                                        Err(e) => Err(e),
                                        Ok(st5) => if decimal_value(n) <= usize::MAX {
                                            Ok((repeat(body, decimal_value(n)), st5))
                                        } else {
                                            Err(SpecCompileError::CountTooLarge(n))
                                        },
                                    },
                                    other => Err(SpecCompileError::Unexpected(Expected::CloseBracket, other)),
                                },
                            }
                        } else {
                            Err(SpecCompileError::Unexpected(Expected::Statement, st3.look))
                        },
                    },
                    other => Err(SpecCompileError::Unexpected(Expected::OpenBracket, other)),
                },
            },
            other => Err(SpecCompileError::Unexpected(Expected::NumberAfterWh, other)),
        },
    }
}

/// One statement; at the end of the input, none.
pub open spec fn statement(st: ParseState) -> Result<(Seq<char>, ParseState), SpecCompileError>
    decreases measure(st), 1nat,
{
    match st.look {
        SpecToken::End => Ok((Seq::empty(), st)),
        SpecToken::Wh => repeat_block(st),
        _ => if is_command(st.look) {
            command(st)
        } else {
            Err(SpecCompileError::Unexpected(Expected::Statement, st.look))
        },
    }
}

/// Statements up to the end of the input or a `]`, which is left in place.
/// The guard on the measure always holds (see `lemma_advance_shrinks`).
pub open spec fn statements(st: ParseState) -> Result<(Seq<char>, ParseState), SpecCompileError>
    decreases measure(st), 2nat,
{
    if st.look is End || st.look is BClose {
        Ok((Seq::empty(), st))
    } else {
        match statement(st) {
            Err(e) => Err(e),
            Ok((out, st2)) => if measure(st2) < measure(st) {
                match statements(st2) {
                    Err(e) => Err(e),
                    Ok((more, st3)) => Ok((out + more, st3)),
                }
            } else {
                Ok((out, st2))
            },
        }
    }
}

/// The page that wraps the instructions: a canvas and the turtle's interface.
pub const PAGE_HEAD: &'static str = r##"
<html>
<head>
</head>
<body>
<canvas id="canv"></canvas>
<script>
const canvas = document.querySelector("#canv");
const ctx = canvas.getContext("2d");
ctx.fillStyle = "black";
ctx.fillRect(0, 0, canvas.width, canvas.height);
ctx.fillStyle = "red";
ctx.fillRect(10, 20, 30, 40);

const turtle = {
    move(x) {},
    turnRight(x) {},
    setStrokeWidth(x) {},
    setColor(c) {},
};
"##;

pub const PAGE_TAIL: &'static str = r##"
</script>
</body>
</html>
        "##;

/// The whole page around the instructions `body`.
pub open spec fn page(body: Seq<char>) -> Seq<char> {
    PAGE_HEAD@ + body + PAGE_TAIL@
}

/// The top-level statement sequence, wrapped in the page.
pub open spec fn program(st: ParseState) -> Result<Seq<char>, SpecCompileError> {
    match statements(st) {
        Ok((out, _)) => Ok(page(out)),
        Err(e) => Err(e),
    }
}

/// What compiling `source` gives: the page, or the first error met.
pub open spec fn compiled(source: Seq<char>) -> Result<Seq<char>, SpecCompileError> {
    match start(source) {
        Ok(st) => program(st),
        Err(e) => Err(e),
    }
}

/// The mathematical value of a compilation result.
pub open spec fn result_view(r: Result<String, CompileError>) -> Result<Seq<char>, SpecCompileError> {
    match r {
        Ok(s) => Ok(s@),
        Err(e) => Err(e@),
    }
}

/// Taking a token other than the end shrinks the measure.
pub proof fn lemma_advance_shrinks(st: ParseState)
    requires
        st.look != SpecToken::End,
    ensures
        advance(st) matches Ok(st2) ==> measure(st2) < measure(st),
{
    lemma_scan_shrinks(st.rest);
}

/// The empty source compiles to the page with no instructions in it.
pub proof fn lemma_empty_source()
    ensures
        compiled(Seq::empty()) == Ok::<Seq<char>, SpecCompileError>(page(Seq::empty())),
{
}

/// Compiling the same source twice gives the same result, to the character:
/// whatever two calls of `compile_source` on one source return is equal.
pub proof fn lemma_deterministic(source: Seq<char>, r1: Result<Seq<char>, SpecCompileError>, r2: Result<Seq<char>, SpecCompileError>)
    requires
        r1 == compiled(source),
        r2 == compiled(source),
    ensures
        r1 == r2,
{
}

/// The value of a numeral's digits, where it fits in a machine word.
fn parse_count(n: &str) -> (r: Option<usize>)
    ensures
        decimal_value(n@) <= usize::MAX ==> r == Some(decimal_value(n@) as usize),
        decimal_value(n@) > usize::MAX ==> r is None,
{
    let len = n.unicode_len();
    let mut v: usize = 0;
    let mut i: usize = 0;
    while i < len
        invariant
            len == n@.len(),
            i <= len,
            v == decimal_value(n@.take(i as int)),
        decreases len - i,
    {
        let c = n.get_char(i);
        let d: usize = if '0' <= c && c <= '9' {
            (c as u32 - '0' as u32) as usize
        } else {
            0
        };
        assert(n@.take(i + 1).drop_last() =~= n@.take(i as int));
        proof {
            lemma_decimal_prefix(n@, i + 1);
        }
        match v.checked_mul(10) {
            Some(w) => match w.checked_add(d) {
                Some(x) => {
                    v = x;
                },
                None => {
                    return None;
                },
            },
            None => {
                return None;
            },
        }
        i = i + 1;
    }
    assert(n@.take(len as int) =~= n@);
    Some(v)
}

/// The value of a prefix of a numeral is no more than the numeral's.
proof fn lemma_decimal_prefix(s: Seq<char>, j: int)
    requires
        0 <= j <= s.len(),
    ensures
        decimal_value(s.take(j)) <= decimal_value(s),
    decreases s.len(),
{
    if j < s.len() {
        assert(s.drop_last().take(j) =~= s.take(j));
        lemma_decimal_prefix(s.drop_last(), j);
    } else {
        assert(s.take(j) =~= s);
    }
}

/// The instruction text of a simple command.
fn instruction_text(cmd: Token, n: &str) -> (r: String)
    requires
        is_command(cmd@),
    ensures
        r@ == instruction(cmd@, n@),
{
    let (head, tail) = match cmd {
        Token::Vw => ("turtle.move(", ");\n"),
        Token::Re => ("turtle.turnRight(", ");\n"),
        Token::Stift => ("turtle.setStrokeWidth(", ");\n"),
        _ => ("turtle.setColor(", ")\n"),
    };
    let mut s = String::from_str(head);
    s.append(n);
    s.append(tail);
    s
}

/// The compiler: the scanner and the one lookahead token taken from it.
pub struct Compiler<'a> {
    ts: TokenStream<'a>,
    curr_token: Token<'a>,
}

impl<'a> Compiler<'a> {
    /// The lookahead and the text not yet scanned.
    pub closed spec fn state(&self) -> ParseState {
        ParseState { look: self.curr_token@, rest: self.ts.remaining() }
    }

    /// The scanner has finished exactly when the lookahead is the end, and
    /// then no text is left.
    pub closed spec fn wf(&self) -> bool {
        &&& self.ts.finished() == (self.curr_token@ == SpecToken::End)
        &&& self.curr_token@ == SpecToken::End ==> self.ts.remaining().len() == 0
    }

    /// A compiler over `source` with its first token loaded, or the lexical
    /// error that token gives.
    pub fn init(source: &'a str) -> (r: Result<Self, CompileError<'a>>)
        ensures
            r is Ok <==> start(source@) is Ok,
            r is Ok ==> r->Ok_0.wf() && r->Ok_0.state() == start(source@)->Ok_0,
            r is Err ==> r->Err_0@ == start(source@)->Err_0,
    {
        let mut ts = TokenStream::from(source);
        proof {
            lemma_scan_shrinks(source@);
        }
        match ts.next().unwrap() {
            Ok(t) => Ok(Compiler { ts, curr_token: t }),
            Err(e) => Err(CompileError::Lexical(e)),
        }
    }

    /// Replaces the lookahead with the scanner's next token. At the end the
    /// scanner gives nothing more and the state stays as it is.
    fn next_token(&mut self) -> (r: Result<(), CompileError<'a>>)
        requires
            old(self).wf(),
        ensures
            r is Ok <==> advance(old(self).state()) is Ok,
            r is Ok ==> final(self).wf() && final(self).state() == advance(old(self).state())->Ok_0,
            r is Ok && old(self).state().look != SpecToken::End ==> measure(final(self).state())
                < measure(old(self).state()),
            old(self).state().look == SpecToken::End ==> r is Ok && final(self).state() == old(self).state(),
            r is Err ==> r->Err_0@ == advance(old(self).state())->Err_0,
    {
        proof {
            if self.state().look != SpecToken::End {
                lemma_advance_shrinks(self.state());
            }
            lemma_scan_shrinks(self.ts.remaining());
            assert(self.state().look == SpecToken::End ==> self.ts.remaining() =~= Seq::<char>::empty());
        }
        match self.ts.next() {
            Some(Ok(t)) => {
                self.curr_token = t;
                Ok(())
            },
            Some(Err(e)) => Err(CompileError::Lexical(e)),
            None => Ok(()),
        }
    }

    /// Compiles the whole input into the page, or returns the first error.
    pub fn compile(&mut self) -> (r: Result<String, CompileError<'a>>)
        requires
            old(self).wf(),
        ensures
            result_view(r) == program(old(self).state()),
    {
        self.program()
    }

    fn program(&mut self) -> (r: Result<String, CompileError<'a>>)
        requires
            old(self).wf(),
        ensures
            result_view(r) == program(old(self).state()),
    {
        let body = self.anweisungen()?;
        let mut page = String::from_str(PAGE_HEAD);
        page.append(body.as_str());
        page.append(PAGE_TAIL);
        Ok(page)
    }

    /// Statements up to the end of the input or a `]`.
    fn anweisungen(&mut self) -> (r: Result<String, CompileError<'a>>)
        requires
            old(self).wf(),
        ensures
            match statements(old(self).state()) {
                Ok((out, st)) => r is Ok && r->Ok_0@ == out && final(self).wf()
                    && final(self).state() == st && measure(st) <= measure(old(self).state()),
                Err(e) => r is Err && r->Err_0@ == e,
            },
        decreases measure(old(self).state()), 2nat,
    {
        match self.curr_token {
            Token::End | Token::BClose => Ok(String::new()),
            _ => {
                let first = self.anweisung()?;
                let more = self.anweisungen()?;
                let mut result = first;
                result.append(more.as_str());
                Ok(result)
            },
        }
    }

    /// One statement.
    fn anweisung(&mut self) -> (r: Result<String, CompileError<'a>>)
        requires
            old(self).wf(),
        ensures
            match statement(old(self).state()) {
                Ok((out, st)) => r is Ok && r->Ok_0@ == out && final(self).wf()
                    && final(self).state() == st
                    && (old(self).state().look != SpecToken::End ==> measure(st) < measure(old(self).state())),
                Err(e) => r is Err && r->Err_0@ == e,
            },
        decreases measure(old(self).state()), 1nat,
    {
        match self.curr_token {
            Token::Wh => self.repeat_block(),
            Token::End => Ok(String::new()),
            Token::Vw | Token::Re | Token::Stift | Token::Farbe => {
                let cmd = self.curr_token;
                self.next_token()?;
                match self.curr_token {
                    Token::Number(n) => {
                        self.next_token()?;
                        Ok(instruction_text(cmd, n))
                    },
                    other => {
                        let expected = match cmd {
                            Token::Vw => Expected::NumberAfterVw,
                            Token::Re => Expected::NumberAfterRe,
                            Token::Stift => Expected::NumberAfterStift,
                            _ => Expected::NumberAfterFarbe,
                        };
                        Err(CompileError::Unexpected(expected, other))
                    },
                }
            },
            other => Err(CompileError::Unexpected(Expected::Statement, other)),
        }
    }

    /// `WH n [ body ]`, with the lookahead on `WH`.
    fn repeat_block(&mut self) -> (r: Result<String, CompileError<'a>>)
        requires
            old(self).wf(),
            old(self).state().look == SpecToken::Wh,
        ensures
            match repeat_block(old(self).state()) {
                Ok((out, st)) => r is Ok && r->Ok_0@ == out && final(self).wf()
                    && final(self).state() == st && measure(st) < measure(old(self).state()),
                Err(e) => r is Err && r->Err_0@ == e,
            },
        decreases measure(old(self).state()), 0nat,
    {
        self.next_token()?;
        let n = match self.curr_token {
            Token::Number(n) => n,
            other => {
                return Err(CompileError::Unexpected(Expected::NumberAfterWh, other));
            },
        };
        self.next_token()?;
        match self.curr_token {
            Token::BOpen => {},
            other => {
                return Err(CompileError::Unexpected(Expected::OpenBracket, other));
            },
        }
        self.next_token()?;
        let body = self.anweisungen()?;
        match self.curr_token {
            Token::BClose => {},
            other => {
                return Err(CompileError::Unexpected(Expected::CloseBracket, other));
            },
        }
        self.next_token()?;
        let count = match parse_count(n) {
            Some(c) => c,
            None => {
                return Err(CompileError::CountTooLarge(n));
            },
        };
        let mut result = String::new();
        let mut i: usize = 0;
        while i < count
            invariant
                i <= count,
                result@ == repeat(body@, i as nat),
            decreases count - i,
        {
            result.append(body.as_str());
            i = i + 1;
        }
        Ok(result)
    }
}

/// Compiles `source` into the page, or returns the first error met.
pub fn compile_source(source: &str) -> (r: Result<String, CompileError>)
    ensures
        result_view(r) == compiled(source@),
{
    let mut c = Compiler::init(source)?;
    c.compile()
}

} // verus!
