//! The scanner: turns source text into tokens, one pull at a time.
use crate::matcher::{is_ascii_digit, lemma_numeral_prefix_bound, numeral_prefix_len, starts_with_leading_zero, Matchers};
use vstd::prelude::*;
use vstd::string::*;

verus! {

/// One lexical unit. A numeral keeps its digits as a view into the source.
#[derive(Debug, Clone, Copy)]
pub enum Token<'a> {
    Vw,
    Re,
    Wh,
    Stift,
    Farbe,
    BOpen,
    BClose,
    Number(&'a str),
    End,
}

/// The mathematical value of a token.
pub enum SpecToken {
    Vw,
    Re,
    Wh,
    Stift,
    Farbe,
    BOpen,
    BClose,
    Number(Seq<char>),
    End,
}

impl<'a> View for Token<'a> {
    type V = SpecToken;

    open spec fn view(&self) -> SpecToken {
        match *self {
            Token::Vw => SpecToken::Vw,
            Token::Re => SpecToken::Re,
            Token::Wh => SpecToken::Wh,
            Token::Stift => SpecToken::Stift,
            Token::Farbe => SpecToken::Farbe,
            Token::BOpen => SpecToken::BOpen,
            Token::BClose => SpecToken::BClose,
            Token::Number(n) => SpecToken::Number(n@),
            Token::End => SpecToken::End,
        }
    }
}

impl SpecToken {
    /// The textual form of a token, as shown in diagnostics.
    pub open spec fn text(self) -> Seq<char> {
        match self {
            SpecToken::Vw => "VW"@,
            SpecToken::Re => "RE"@,
            SpecToken::Wh => "WH"@,
            SpecToken::Stift => "STIFT"@,
            SpecToken::Farbe => "FARBE"@,
            SpecToken::BOpen => "["@,
            SpecToken::BClose => "]"@,
            SpecToken::Number(n) => n,
            SpecToken::End => "{EOF}"@,
        }
    }
}

impl<'a> Token<'a> {
    /// The textual form of the token: its keyword or bracket, the digits of a
    /// numeral, or `{EOF}` for the end of the input.
    pub fn str_value(&'a self) -> (r: &'a str)
        ensures
            r@ == self@.text(),
    {
        match self {
            Token::Vw => "VW",
            Token::Re => "RE",
            Token::Wh => "WH",
            Token::Stift => "STIFT",
            Token::Farbe => "FARBE",
            Token::BOpen => "[",
            Token::BClose => "]",
            Token::Number(n) => n,
            Token::End => "{EOF}",
        }
    }
}

/// A lexical error; each carries the text that was left unscanned.
#[derive(Debug)]
pub enum TError<'a> {
    LeadingZero(&'a str),
    SyntaxError(&'a str),
}

/// The mathematical value of a lexical error.
pub enum SpecTError {
    LeadingZero(Seq<char>),
    SyntaxError(Seq<char>),
}

impl<'a> View for TError<'a> {
    type V = SpecTError;

    open spec fn view(&self) -> SpecTError {
        match *self {
            TError::LeadingZero(s) => SpecTError::LeadingZero(s@),
            TError::SyntaxError(s) => SpecTError::SyntaxError(s@),
        }
    }
}

/// What one pull of the scanner gives: a token or a lexical error.
pub type Result<'a> = std::result::Result<Token<'a>, TError<'a>>;

/// A character with Unicode's White_Space property.
pub open spec fn is_white_space(c: char) -> bool {
    ||| ('\u{9}' <= c && c <= '\u{d}')
    ||| c == ' '
    ||| c == '\u{85}'
    ||| c == '\u{a0}'
    ||| c == '\u{1680}'
    ||| ('\u{2000}' <= c && c <= '\u{200a}')
    ||| c == '\u{2028}'
    ||| c == '\u{2029}'
    ||| c == '\u{202f}'
    ||| c == '\u{205f}'
    ||| c == '\u{3000}'
}

pub open spec fn trim_start_ws(s: Seq<char>) -> Seq<char>
    decreases s.len(),
{
    if s.len() > 0 && is_white_space(s[0]) {
        trim_start_ws(s.drop_first())
    } else {
        s
    }
}

pub open spec fn trim_end_ws(s: Seq<char>) -> Seq<char>
    decreases s.len(),
{
    if s.len() > 0 && is_white_space(s.last()) {
        trim_end_ws(s.drop_last())
    } else {
        s
    }
}

/// `s` without its leading and trailing white space.
pub open spec fn trim_ws(s: Seq<char>) -> Seq<char> {
    trim_end_ws(trim_start_ws(s))
}

/// Relies on str::trim: it removes the leading and trailing characters that
/// have the White_Space property and returns the slice between them.
#[verifier::external_body]
fn trim<'b>(s: &'b str) -> (r: &'b str)
    ensures
        r@ == trim_ws(s@),
{
    s.trim()
}

pub open spec fn has_prefix(s: Seq<char>, p: Seq<char>) -> bool {
    p.len() <= s.len() && s.subrange(0, p.len() as int) == p
}

/// What is left after the first `n` characters, with white space trimmed.
pub open spec fn after(s: Seq<char>, n: int) -> Seq<char> {
    trim_ws(s.skip(n))
}

/// One step of the scanner on the remaining text `s`: the token found and the
/// text left after it, or the lexical error. Keywords are tried longest first,
/// then brackets, then the leading-zero check, then numerals.
pub open spec fn scan(s: Seq<char>) -> std::result::Result<(SpecToken, Seq<char>), SpecTError> {
    if s.len() == 0 {
        Ok((SpecToken::End, s))
    } else if has_prefix(s, "STIFT"@) {
        Ok((SpecToken::Stift, after(s, "STIFT"@.len() as int)))
    } else if has_prefix(s, "FARBE"@) {
        Ok((SpecToken::Farbe, after(s, "FARBE"@.len() as int)))
    } else if has_prefix(s, "VW"@) {
        Ok((SpecToken::Vw, after(s, "VW"@.len() as int)))
    } else if has_prefix(s, "RE"@) {
        Ok((SpecToken::Re, after(s, "RE"@.len() as int)))
    } else if has_prefix(s, "WH"@) {
        Ok((SpecToken::Wh, after(s, "WH"@.len() as int)))
    } else if has_prefix(s, "["@) {
        Ok((SpecToken::BOpen, after(s, "["@.len() as int)))
    } else if has_prefix(s, "]"@) {
        Ok((SpecToken::BClose, after(s, "]"@.len() as int)))
    } else if starts_with_leading_zero(s) {
        Err(SpecTError::LeadingZero(s))
    } else if numeral_prefix_len(s) > 0 {
        let k = numeral_prefix_len(s) as int;
        Ok((SpecToken::Number(s.take(k)), after(s, k)))
    } else {
        Err(SpecTError::SyntaxError(s))
    }
}

pub proof fn lemma_trim_start_len(s: Seq<char>)
    ensures
        trim_start_ws(s).len() <= s.len(),
    decreases s.len(),
{
    if s.len() > 0 && is_white_space(s[0]) {
        lemma_trim_start_len(s.drop_first());
    }
}

pub proof fn lemma_trim_end_len(s: Seq<char>)
    ensures
        trim_end_ws(s).len() <= s.len(),
    decreases s.len(),
{
    if s.len() > 0 && is_white_space(s.last()) {
        lemma_trim_end_len(s.drop_last());
    }
}

/// Every token but the end consumes at least one character; the end leaves
/// the (empty) text as it is.
pub proof fn lemma_scan_shrinks(s: Seq<char>)
    ensures
        scan(s) matches Ok((t, rest)) ==> {
            ||| rest.len() < s.len()
            ||| (s.len() == 0 && t == SpecToken::End && rest == s)
        },
        scan(s) matches Ok((t, rest)) ==> (t == SpecToken::End ==> s.len() == 0 && rest.len() == 0),
{
    if s.len() > 0 {
        reveal_strlit("STIFT");
        reveal_strlit("FARBE");
        reveal_strlit("VW");
        reveal_strlit("RE");
        reveal_strlit("WH");
        reveal_strlit("[");
        reveal_strlit("]");
        lemma_numeral_prefix_bound(s);
        let k: int = if has_prefix(s, "STIFT"@) {
            5
        } else if has_prefix(s, "FARBE"@) {
            5
        } else if has_prefix(s, "VW"@) || has_prefix(s, "RE"@) || has_prefix(s, "WH"@) {
            2
        } else if has_prefix(s, "["@) || has_prefix(s, "]"@) {
            1
        } else {
            numeral_prefix_len(s) as int
        };
        if k > 0 {
            lemma_trim_start_len(s.skip(k));
            lemma_trim_end_len(trim_start_ws(s.skip(k)));
        }
    }
}

/// No keyword or bracket starts with `c`.
proof fn lemma_no_keyword(s: Seq<char>)
    requires
        s.len() > 0,
        s[0] != 'S' && s[0] != 'F' && s[0] != 'V' && s[0] != 'R' && s[0] != 'W',
        s[0] != '[' && s[0] != ']',
    ensures
        !has_prefix(s, "STIFT"@),
        !has_prefix(s, "FARBE"@),
        !has_prefix(s, "VW"@),
        !has_prefix(s, "RE"@),
        !has_prefix(s, "WH"@),
        !has_prefix(s, "["@),
        !has_prefix(s, "]"@),
{
    reveal_strlit("STIFT");
    reveal_strlit("FARBE");
    reveal_strlit("VW");
    reveal_strlit("RE");
    reveal_strlit("WH");
    reveal_strlit("[");
    reveal_strlit("]");
    assert(has_prefix(s, "STIFT"@) ==> s.subrange(0, 5)[0] == 'S');
    assert(has_prefix(s, "FARBE"@) ==> s.subrange(0, 5)[0] == 'F');
    assert(has_prefix(s, "VW"@) ==> s.subrange(0, 2)[0] == 'V');
    assert(has_prefix(s, "RE"@) ==> s.subrange(0, 2)[0] == 'R');
    assert(has_prefix(s, "WH"@) ==> s.subrange(0, 2)[0] == 'W');
    assert(has_prefix(s, "["@) ==> s.subrange(0, 1)[0] == '[');
    assert(has_prefix(s, "]"@) ==> s.subrange(0, 1)[0] == ']');
}

/// A `0` followed by another digit is always rejected as a leading zero,
/// whatever follows.
pub proof fn lemma_leading_zero_rejected(s: Seq<char>)
    requires
        s.len() >= 2,
        s[0] == '0',
        is_ascii_digit(s[1]),
    ensures
        scan(s) == Err::<(SpecToken, Seq<char>), SpecTError>(SpecTError::LeadingZero(s)),
{
    lemma_no_keyword(s);
}

/// A `0` that no digit follows is the numeral `0`.
pub proof fn lemma_zero_is_numeral(s: Seq<char>)
    requires
        s.len() >= 1,
        s[0] == '0',
        s.len() == 1 || !is_ascii_digit(s[1]),
    ensures
        scan(s) == Ok::<(SpecToken, Seq<char>), SpecTError>((SpecToken::Number(seq!['0']), after(s, 1))),
{
    lemma_no_keyword(s);
    assert(s.take(1) =~= seq!['0']);
}

/// The scanner. It owns the text not yet scanned and stops for good after the
/// end token or an error.
pub struct TokenStream<'a> {
    source: &'a str,
    done: bool,
    matchers: Matchers,
}

impl<'a> TokenStream<'a> {
    /// The text not yet scanned.
    pub closed spec fn remaining(&self) -> Seq<char> {
        self.source@
    }

    /// Whether the end token or an error has been handed out.
    pub closed spec fn finished(&self) -> bool {
        self.done
    }

    pub fn from(source: &'a str) -> (r: Self)
        ensures
            r.remaining() == source@,
            !r.finished(),
    {
        TokenStream { source, done: false, matchers: Matchers::new() }
    }

    /// Pulls the next token. Once finished, it returns `None` and changes
    /// nothing; otherwise it returns the step `scan` gives on the remaining
    /// text, keeps the text after the token, and finishes on the end token or
    /// an error.
    pub fn next(&mut self) -> (r: Option<Result<'a>>)
        ensures
            old(self).finished() ==> r is None && *final(self) == *old(self),
            !old(self).finished() ==> match scan(old(self).remaining()) {
                Ok((t, rest)) => {
                    &&& r matches Some(Ok(tok))
                    &&& r->Some_0->Ok_0@ == t
                    &&& final(self).remaining() == rest
                    &&& final(self).finished() == (t == SpecToken::End)
                },
                Err(e) => {
                    &&& r matches Some(Err(err))
                    &&& r->Some_0->Err_0@ == e
                    &&& final(self).finished()
                    &&& final(self).remaining() == old(self).remaining()
                },
            },
    {
        if self.done {
            return None;
        }
        let s = self.source;
        let len = s.unicode_len();
        if len == 0 {
            self.done = true;
            return Some(Ok(Token::End));
        }
        let kw = keyword_at(s);
        if let Some((tok, k)) = kw {
            self.source = trim(s.substring_char(k, len));
            return Some(Ok(tok));
        }
        if self.matchers.has_leading_zero(s) {
            self.done = true;
            return Some(Err(TError::LeadingZero(s)));
        }
        proof {
            lemma_numeral_prefix_bound(s@);
        }
        match self.matchers.numeral_len(s) {
            Some(k) => {
                self.source = trim(s.substring_char(k, len));
                Some(Ok(Token::Number(s.substring_char(0, k))))
            },
            None => {
                self.done = true;
                Some(Err(TError::SyntaxError(s)))
            },
        }
    }
}

/// Whether `s` begins with `p`.
fn starts_with(s: &str, p: &str) -> (r: bool)
    ensures
        r == has_prefix(s@, p@),
{
    let slen = s.unicode_len();
    let plen = p.unicode_len();
    if plen > slen {
        return false;
    }
    let mut i: usize = 0;
    while i < plen
        invariant
            plen == p@.len(),
            slen == s@.len(),
            plen <= slen,
            i <= plen,
            forall|j: int| 0 <= j < i ==> s@[j] == p@[j],
        decreases plen - i,
    {
        if s.get_char(i) != p.get_char(i) {
            assert(s@.subrange(0, plen as int)[i as int] != p@[i as int]);
            return false;
        }
        i = i + 1;
    }
    assert(s@.subrange(0, plen as int) =~= p@);
    true
}

/// The keyword or bracket at the start of `s`, with its length, in the order
/// `scan` tries them.
fn keyword_at<'b>(s: &str) -> (r: Option<(Token<'b>, usize)>)
    ensures
        match r {
            Some((t, k)) => {
                ||| (has_prefix(s@, "STIFT"@) && t@ == SpecToken::Stift && k == "STIFT"@.len())
                ||| (!has_prefix(s@, "STIFT"@) && has_prefix(s@, "FARBE"@) && t@ == SpecToken::Farbe && k == "FARBE"@.len())
                ||| (!has_prefix(s@, "STIFT"@) && !has_prefix(s@, "FARBE"@) && has_prefix(s@, "VW"@) && t@ == SpecToken::Vw && k == "VW"@.len())
                ||| (!has_prefix(s@, "STIFT"@) && !has_prefix(s@, "FARBE"@) && !has_prefix(s@, "VW"@) && has_prefix(s@, "RE"@) && t@ == SpecToken::Re && k == "RE"@.len())
                ||| (!has_prefix(s@, "STIFT"@) && !has_prefix(s@, "FARBE"@) && !has_prefix(s@, "VW"@) && !has_prefix(s@, "RE"@) && has_prefix(s@, "WH"@) && t@ == SpecToken::Wh && k == "WH"@.len())
                ||| (!has_prefix(s@, "STIFT"@) && !has_prefix(s@, "FARBE"@) && !has_prefix(s@, "VW"@) && !has_prefix(s@, "RE"@) && !has_prefix(s@, "WH"@) && has_prefix(s@, "["@) && t@ == SpecToken::BOpen && k == "["@.len())
                ||| (!has_prefix(s@, "STIFT"@) && !has_prefix(s@, "FARBE"@) && !has_prefix(s@, "VW"@) && !has_prefix(s@, "RE"@) && !has_prefix(s@, "WH"@) && !has_prefix(s@, "["@) && has_prefix(s@, "]"@) && t@ == SpecToken::BClose && k == "]"@.len())
            },
            None => {
                &&& !has_prefix(s@, "STIFT"@)
                &&& !has_prefix(s@, "FARBE"@)
                &&& !has_prefix(s@, "VW"@)
                &&& !has_prefix(s@, "RE"@)
                &&& !has_prefix(s@, "WH"@)
                &&& !has_prefix(s@, "["@)
                &&& !has_prefix(s@, "]"@)
            },
        },
{
    if starts_with(s, "STIFT") {
        return Some((Token::Stift, "STIFT".unicode_len()));
    }
    if starts_with(s, "FARBE") {
        return Some((Token::Farbe, "FARBE".unicode_len()));
    }
    if starts_with(s, "VW") {
        return Some((Token::Vw, "VW".unicode_len()));
    }
    if starts_with(s, "RE") {
        return Some((Token::Re, "RE".unicode_len()));
    }
    if starts_with(s, "WH") {
        return Some((Token::Wh, "WH".unicode_len()));
    }
    if starts_with(s, "[") {
        return Some((Token::BOpen, "[".unicode_len()));
    }
    if starts_with(s, "]") {
        return Some((Token::BClose, "]".unicode_len()));
    }
    None
}

} // verus!
