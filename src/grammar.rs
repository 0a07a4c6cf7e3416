//! Well-formed programs as trees, the source text that spells them, and the
//! law that such text compiles to the instructions of every leaf statement,
//! with each repeat block's instructions written out as often as it says.
use crate::compiler::{
    advance, compiled, decimal_value, instruction, is_command, lemma_advance_shrinks, measure,
    page, repeat, repeat_block, start, statement, statements, ParseState, SpecCompileError,
};
use crate::matcher::{digit_run, is_ascii_digit, numeral_prefix_len, starts_with_leading_zero};
use crate::tokenizer::{
    after, has_prefix, is_white_space, scan, trim_end_ws, trim_start_ws, trim_ws, SpecTError,
    SpecToken,
};
use vstd::prelude::*;

verus! {

/// A statement of a program.
pub enum Stmt {
    /// `VW`, `RE`, `STIFT` or `FARBE` with its numeral.
    Command(SpecToken, Seq<char>),
    /// `WH n [ body ]`.
    Repeat(Seq<char>, Box<Block>),
}

/// A sequence of statements.
pub enum Block {
    Empty,
    Then(Stmt, Box<Block>),
}

/// Digits without a leading zero, or a lone `0`.
pub open spec fn is_numeral(n: Seq<char>) -> bool {
    &&& n.len() > 0
    &&& forall|i: int| 0 <= i < n.len() ==> is_ascii_digit(#[trigger] n[i])
    &&& n[0] == '0' ==> n.len() == 1
}

pub open spec fn stmt_ok(s: Stmt) -> bool
    decreases s,
{
    match s {
        Stmt::Command(c, n) => is_command(c) && is_numeral(n),
        Stmt::Repeat(n, body) => is_numeral(n) && decimal_value(n) <= usize::MAX && block_ok(*body),
    }
}

pub open spec fn block_ok(b: Block) -> bool
    decreases b,
{
    match b {
        Block::Empty => true,
        Block::Then(s, rest) => stmt_ok(s) && block_ok(*rest),
    }
}

pub open spec fn stmt_tokens(s: Stmt) -> Seq<SpecToken>
    decreases s,
{
    match s {
        Stmt::Command(c, n) => seq![c, SpecToken::Number(n)],
        Stmt::Repeat(n, body) => seq![SpecToken::Wh, SpecToken::Number(n), SpecToken::BOpen]
            + block_tokens(*body) + seq![SpecToken::BClose],
    }
}

pub open spec fn block_tokens(b: Block) -> Seq<SpecToken>
    decreases b,
{
    match b {
        Block::Empty => Seq::empty(),
        Block::Then(s, rest) => stmt_tokens(s) + block_tokens(*rest),
    }
}

/// The instructions a statement stands for, repeat blocks unrolled.
pub open spec fn stmt_output(s: Stmt) -> Seq<char>
    decreases s,
{
    match s {
        Stmt::Command(c, n) => instruction(c, n),
        Stmt::Repeat(n, body) => repeat(block_output(*body), decimal_value(n)),
    }
}

pub open spec fn block_output(b: Block) -> Seq<char>
    decreases b,
{
    match b {
        Block::Empty => Seq::empty(),
        Block::Then(s, rest) => stmt_output(s) + block_output(*rest),
    }
}

/// Characters that all have the White_Space property.
pub open spec fn is_ws_run(w: Seq<char>) -> bool {
    forall|i: int| 0 <= i < w.len() ==> is_white_space(#[trigger] w[i])
}

/// The separators after each token: any white space, but at least one
/// character of it between two numerals, which would otherwise run together.
pub open spec fn seps_ok(ts: Seq<SpecToken>, seps: Seq<Seq<char>>) -> bool {
    &&& seps.len() == ts.len()
    &&& forall|i: int| 0 <= i < seps.len() ==> is_ws_run(#[trigger] seps[i])
    &&& forall|i: int|
        0 <= i < seps.len() - 1 && ts[i] is Number && ts[i + 1] is Number ==> (#[trigger] seps[i]).len() > 0
}

/// The tokens' texts, each but the last followed by its separator.
pub open spec fn spaced(ts: Seq<SpecToken>, seps: Seq<Seq<char>>) -> Seq<char>
    decreases ts.len(),
{
    if ts.len() == 0 {
        Seq::empty()
    } else if ts.len() == 1 {
        ts[0].text()
    } else {
        ts[0].text() + seps[0] + spaced(ts.drop_first(), seps.drop_first())
    }
}

/// A source text that spells the tokens: each token's text followed by its
/// separator. No tokens, no text.
pub open spec fn spelling(ts: Seq<SpecToken>, seps: Seq<Seq<char>>) -> Seq<char> {
    if ts.len() == 0 {
        Seq::empty()
    } else {
        spaced(ts, seps) + seps.last()
    }
}

/// A token that the scanner gives back for its own text.
pub open spec fn token_ok(t: SpecToken) -> bool {
    match t {
        SpecToken::End => false,
        SpecToken::Number(n) => is_numeral(n),
        _ => true,
    }
}

pub open spec fn tokens_ok(ts: Seq<SpecToken>) -> bool {
    forall|i: int| 0 <= i < ts.len() ==> token_ok(#[trigger] ts[i])
}

/// The parser's state with the `i`-th token of `ts` as lookahead.
pub open spec fn state_at(ts: Seq<SpecToken>, seps: Seq<Seq<char>>, i: int) -> ParseState {
    if i < ts.len() {
        ParseState { look: ts[i], rest: spaced(ts.skip(i + 1), seps.skip(i + 1)) }
    } else {
        ParseState { look: SpecToken::End, rest: Seq::empty() }
    }
}

proof fn lemma_tokens_ok_concat(a: Seq<SpecToken>, b: Seq<SpecToken>)
    requires
        tokens_ok(a),
        tokens_ok(b),
    ensures
        tokens_ok(a + b),
{
    assert forall|i: int| 0 <= i < (a + b).len() implies token_ok(#[trigger] (a + b)[i]) by {
        if i < a.len() {
            assert((a + b)[i] == a[i]);
        } else {
            assert((a + b)[i] == b[i - a.len()]);
        }
    }
}

proof fn lemma_stmt_tokens_ok(s: Stmt)
    requires
        stmt_ok(s),
    ensures
        tokens_ok(stmt_tokens(s)),
        stmt_tokens(s).len() >= 2,
        stmt_tokens(s)[0] is Wh || is_command(stmt_tokens(s)[0]),
    decreases s,
{
    match s {
        Stmt::Command(c, n) => {},
        Stmt::Repeat(n, body) => {
            lemma_block_tokens_ok(*body);
            let head = seq![SpecToken::Wh, SpecToken::Number(n), SpecToken::BOpen];
            assert(tokens_ok(head));
            assert(tokens_ok(seq![SpecToken::BClose]));
            lemma_tokens_ok_concat(head, block_tokens(*body));
            lemma_tokens_ok_concat(head + block_tokens(*body), seq![SpecToken::BClose]);
        },
    }
}

proof fn lemma_block_tokens_ok(b: Block)
    requires
        block_ok(b),
    ensures
        tokens_ok(block_tokens(b)),
    decreases b,
{
    match b {
        Block::Empty => {},
        Block::Then(s, rest) => {
            lemma_stmt_tokens_ok(s);
            lemma_block_tokens_ok(*rest);
            lemma_tokens_ok_concat(stmt_tokens(s), block_tokens(*rest));
        },
    }
}

proof fn lemma_reveal_texts()
    ensures
        "STIFT"@ == seq!['S', 'T', 'I', 'F', 'T'],
        "FARBE"@ == seq!['F', 'A', 'R', 'B', 'E'],
        "VW"@ == seq!['V', 'W'],
        "RE"@ == seq!['R', 'E'],
        "WH"@ == seq!['W', 'H'],
        "["@ == seq!['['],
        "]"@ == seq![']'],
{
    reveal_strlit("STIFT");
    reveal_strlit("FARBE");
    reveal_strlit("VW");
    reveal_strlit("RE");
    reveal_strlit("WH");
    reveal_strlit("[");
    reveal_strlit("]");
    assert("STIFT"@ =~= seq!['S', 'T', 'I', 'F', 'T']);
    assert("FARBE"@ =~= seq!['F', 'A', 'R', 'B', 'E']);
    assert("VW"@ =~= seq!['V', 'W']);
    assert("RE"@ =~= seq!['R', 'E']);
    assert("WH"@ =~= seq!['W', 'H']);
    assert("["@ =~= seq!['[']);
    assert("]"@ =~= seq![']']);
}

/// The text of a token is not empty and neither begins nor ends with white
/// space.
proof fn lemma_text_shape(t: SpecToken)
    requires
        token_ok(t),
    ensures
        t.text().len() > 0,
        !is_white_space(t.text()[0]),
        !is_white_space(t.text().last()),
        !(t is Number) ==> !is_ascii_digit(t.text()[0]),
{
    lemma_reveal_texts();
    if let SpecToken::Number(n) = t {
        assert(is_ascii_digit(n[0]));
        assert(is_ascii_digit(n[n.len() - 1]));
    }
}

proof fn lemma_skip_ok(ts: Seq<SpecToken>, seps: Seq<Seq<char>>, k: int)
    requires
        tokens_ok(ts),
        seps_ok(ts, seps),
        0 <= k <= ts.len(),
    ensures
        tokens_ok(ts.skip(k)),
        seps_ok(ts.skip(k), seps.skip(k)),
{
    let r = ts.skip(k);
    let q = seps.skip(k);
    assert forall|i: int| 0 <= i < r.len() implies token_ok(#[trigger] r[i]) by {
        assert(r[i] == ts[i + k]);
    }
    assert forall|i: int| 0 <= i < q.len() implies is_ws_run(#[trigger] q[i]) by {
        assert(q[i] == seps[i + k]);
    }
    assert forall|i: int| 0 <= i < q.len() - 1 && r[i] is Number && r[i + 1] is Number implies (#[trigger] q[i]).len() > 0 by {
        assert(q[i] == seps[i + k]);
        assert(r[i] == ts[i + k]);
        assert(r[i + 1] == ts[i + 1 + k]);
    }
}

proof fn lemma_spaced_shape(ts: Seq<SpecToken>, seps: Seq<Seq<char>>)
    requires
        ts.len() > 0,
        tokens_ok(ts),
        seps_ok(ts, seps),
    ensures
        spaced(ts, seps).len() > 0,
        spaced(ts, seps)[0] == ts[0].text()[0],
        !is_white_space(spaced(ts, seps)[0]),
        !is_white_space(spaced(ts, seps).last()),
    decreases ts.len(),
{
    lemma_text_shape(ts[0]);
    if ts.len() > 1 {
        lemma_skip_ok(ts, seps, 1);
        assert(ts.skip(1) =~= ts.drop_first());
        assert(seps.skip(1) =~= seps.drop_first());
        lemma_spaced_shape(ts.drop_first(), seps.drop_first());
    }
}

proof fn lemma_trim_start_run(w: Seq<char>, x: Seq<char>)
    requires
        is_ws_run(w),
    ensures
        trim_start_ws(w + x) == trim_start_ws(x),
    decreases w.len(),
{
    if w.len() == 0 {
        assert(w + x =~= x);
    } else {
        assert((w + x)[0] == w[0]);
        assert((w + x).drop_first() =~= w.drop_first() + x);
        assert(is_ws_run(w.drop_first())) by {
            assert forall|i: int| 0 <= i < w.drop_first().len() implies is_white_space(#[trigger] w.drop_first()[i]) by {
                assert(w.drop_first()[i] == w[i + 1]);
            }
        }
        lemma_trim_start_run(w.drop_first(), x);
    }
}

proof fn lemma_trim_end_run(x: Seq<char>, w: Seq<char>)
    requires
        is_ws_run(w),
    ensures
        trim_end_ws(x + w) == trim_end_ws(x),
    decreases w.len(),
{
    if w.len() == 0 {
        assert(x + w =~= x);
    } else {
        assert((x + w).last() == w.last());
        assert((x + w).drop_last() =~= x + w.drop_last());
        assert(is_ws_run(w.drop_last())) by {
            assert forall|i: int| 0 <= i < w.drop_last().len() implies is_white_space(#[trigger] w.drop_last()[i]) by {
                assert(w.drop_last()[i] == w[i]);
            }
        }
        lemma_trim_end_run(x, w.drop_last());
    }
}

/// White space around text that neither begins nor ends with it is trimmed
/// away, and only it.
proof fn lemma_trim_runs(w: Seq<char>, j: Seq<char>, w2: Seq<char>)
    requires
        is_ws_run(w),
        is_ws_run(w2),
        j.len() == 0 || (!is_white_space(j[0]) && !is_white_space(j.last())),
    ensures
        trim_ws(w + j + w2) == j,
{
    assert(w + j + w2 =~= w + (j + w2));
    lemma_trim_start_run(w, j + w2);
    if j.len() == 0 {
        assert(j + w2 =~= w2 + j);
        lemma_trim_start_run(w2, j);
        assert(trim_start_ws(j) == j);
    } else {
        assert((j + w2)[0] == j[0]);
        assert(trim_start_ws(j + w2) == j + w2);
    }
    lemma_trim_end_run(j, w2);
}

proof fn lemma_digit_run_of(n: Seq<char>, tail: Seq<char>, i: int)
    requires
        0 <= i <= n.len(),
        forall|k: int| 0 <= k < n.len() ==> is_ascii_digit(#[trigger] n[k]),
        tail.len() == 0 || !is_ascii_digit(tail[0]),
    ensures
        digit_run(n + tail, i) == n.len() - i,
    decreases n.len() - i,
{
    let s = n + tail;
    if i < n.len() {
        assert(s[i] == n[i]);
        lemma_digit_run_of(n, tail, i + 1);
    } else if tail.len() > 0 {
        assert(s[i] == tail[0]);
    }
}

/// Scanning text that starts with the text of an acceptable token `t`, then
/// `tail` (nothing, or anything but a digit after a numeral), gives `t`.
proof fn lemma_scan_token(t: SpecToken, tail: Seq<char>)
    requires
        token_ok(t),
        t is Number ==> tail.len() == 0 || !is_ascii_digit(tail[0]),
    ensures
        scan(t.text() + tail) == Ok::<(SpecToken, Seq<char>), SpecTError>((t, after(t.text() + tail, t.text().len() as int))),
{
    let x = t.text();
    let s = x + tail;
    lemma_reveal_texts();
    lemma_text_shape(t);
    assert(s[0] == x[0]);
    assert(forall|p: Seq<char>| p.len() > 0 && #[trigger] has_prefix(s, p) ==> s.subrange(0, p.len() as int)[0] == p[0]);
    assert(s.subrange(0, x.len() as int) =~= x);
    if let SpecToken::Number(n) = t {
        assert(is_ascii_digit(s[0]));
        if n.len() >= 2 {
            assert(n[0] != '0');
        } else if tail.len() > 0 {
            assert(s[1] == tail[0]);
        }
        assert(!starts_with_leading_zero(s));
        lemma_digit_run_of(n, tail, 0);
        assert(numeral_prefix_len(s) == n.len());
        assert(s.take(n.len() as int) =~= n);
    }
}

/// Scanning the spaced texts of acceptable tokens, with white space `w` after
/// them, gives the first token and leaves the spaced texts of the others.
proof fn lemma_scan_spaced(ts: Seq<SpecToken>, seps: Seq<Seq<char>>, w: Seq<char>)
    requires
        ts.len() > 0,
        tokens_ok(ts),
        seps_ok(ts, seps),
        is_ws_run(w),
    ensures
        scan(spaced(ts, seps) + w) == Ok::<(SpecToken, Seq<char>), SpecTError>(
            (ts[0], spaced(ts.drop_first(), seps.drop_first())),
        ),
{
    let x = ts[0].text();
    if ts.len() == 1 {
        lemma_scan_token(ts[0], w);
        assert((x + w).skip(x.len() as int) =~= w);
        lemma_trim_runs(w, Seq::empty(), Seq::empty());
        assert(w + Seq::<char>::empty() + Seq::<char>::empty() =~= w);
        assert(spaced(ts.drop_first(), seps.drop_first()) == Seq::<char>::empty());
    } else {
        let r = ts.drop_first();
        let q = seps.drop_first();
        lemma_skip_ok(ts, seps, 1);
        assert(ts.skip(1) =~= r);
        assert(seps.skip(1) =~= q);
        let j = spaced(r, q);
        let tail = seps[0] + j + w;
        assert(spaced(ts, seps) + w =~= x + tail);
        lemma_spaced_shape(r, q);
        lemma_text_shape(r[0]);
        if seps[0].len() > 0 {
            assert(tail[0] == seps[0][0]);
            assert(is_white_space(seps[0][0]));
        } else {
            assert(tail[0] == j[0]);
        }
        lemma_scan_token(ts[0], tail);
        assert((x + tail).skip(x.len() as int) =~= tail);
        lemma_spaced_shape(r, q);
        lemma_trim_runs(seps[0], j, w);
    }
}

/// Taking a token moves the state from one position of `ts` to the next.
proof fn lemma_advance_at(ts: Seq<SpecToken>, seps: Seq<Seq<char>>, i: int)
    requires
        tokens_ok(ts),
        seps_ok(ts, seps),
        0 <= i < ts.len(),
    ensures
        advance(state_at(ts, seps, i)) == Ok::<ParseState, SpecCompileError>(state_at(ts, seps, i + 1)),
        measure(state_at(ts, seps, i + 1)) < measure(state_at(ts, seps, i)),
{
    let r = ts.skip(i + 1);
    let q = seps.skip(i + 1);
    if i + 1 < ts.len() {
        lemma_skip_ok(ts, seps, i + 1);
        lemma_scan_spaced(r, q, Seq::empty());
        assert(spaced(r, q) + Seq::<char>::empty() =~= spaced(r, q));
        assert(r.drop_first() =~= ts.skip(i + 2));
        assert(q.drop_first() =~= seps.skip(i + 2));
    } else {
        assert(r =~= Seq::<SpecToken>::empty());
    }
    assert(token_ok(ts[i]));
    lemma_advance_shrinks(state_at(ts, seps, i));
}

proof fn lemma_measure_decreases(ts: Seq<SpecToken>, seps: Seq<Seq<char>>, i: int, j: int)
    requires
        tokens_ok(ts),
        seps_ok(ts, seps),
        0 <= i < j <= ts.len(),
    ensures
        measure(state_at(ts, seps, j)) < measure(state_at(ts, seps, i)),
    decreases j - i,
{
    lemma_advance_at(ts, seps, i);
    if i + 1 < j {
        lemma_measure_decreases(ts, seps, i + 1, j);
    }
}

proof fn lemma_start(ts: Seq<SpecToken>, seps: Seq<Seq<char>>)
    requires
        tokens_ok(ts),
        seps_ok(ts, seps),
    ensures
        start(spelling(ts, seps)) == Ok::<ParseState, SpecCompileError>(state_at(ts, seps, 0)),
{
    if ts.len() > 0 {
        lemma_scan_spaced(ts, seps, seps.last());
        assert(ts.drop_first() =~= ts.skip(1));
        assert(seps.drop_first() =~= seps.skip(1));
    }
}

proof fn lemma_parse_stmt(s: Stmt, ts: Seq<SpecToken>, seps: Seq<Seq<char>>, p: int)
    requires
        stmt_ok(s),
        tokens_ok(ts),
        seps_ok(ts, seps),
        0 <= p,
        p + stmt_tokens(s).len() <= ts.len(),
        ts.subrange(p, p + stmt_tokens(s).len()) == stmt_tokens(s),
    ensures
        statement(state_at(ts, seps, p)) == Ok::<(Seq<char>, ParseState), SpecCompileError>(
            (stmt_output(s), state_at(ts, seps, p + stmt_tokens(s).len())),
        ),
    decreases s, 1nat,
{
    let st = stmt_tokens(s);
    assert(ts[p] == st[0]) by {
        assert(ts.subrange(p, p + st.len())[0] == ts[p]);
    }
    assert(ts[p + 1] == st[1]) by {
        assert(ts.subrange(p, p + st.len())[1] == ts[p + 1]);
    }
    match s {
        Stmt::Command(c, n) => {
            lemma_advance_at(ts, seps, p);
            lemma_advance_at(ts, seps, p + 1);
        },
        Stmt::Repeat(n, body) => {
            lemma_parse_repeat(n, *body, ts, seps, p);
        },
    }
}

#[verifier::rlimit(40)]
proof fn lemma_parse_repeat(n: Seq<char>, body: Block, ts: Seq<SpecToken>, seps: Seq<Seq<char>>, p: int)
    requires
        stmt_ok(Stmt::Repeat(n, Box::new(body))),
        tokens_ok(ts),
        seps_ok(ts, seps),
        0 <= p,
        p + stmt_tokens(Stmt::Repeat(n, Box::new(body))).len() <= ts.len(),
        ts.subrange(p, p + stmt_tokens(Stmt::Repeat(n, Box::new(body))).len()) == stmt_tokens(
            Stmt::Repeat(n, Box::new(body)),
        ),
    ensures
        statement(state_at(ts, seps, p)) == Ok::<(Seq<char>, ParseState), SpecCompileError>(
            (repeat(block_output(body), decimal_value(n)), state_at(ts, seps, p + block_tokens(body).len() + 4)),
        ),
    decreases Stmt::Repeat(n, Box::new(body)), 0nat,
{
    let bt = block_tokens(body);
    let st = stmt_tokens(Stmt::Repeat(n, Box::new(body)));
    let sub = ts.subrange(p, p + st.len());
    assert(st =~= seq![SpecToken::Wh, SpecToken::Number(n), SpecToken::BOpen] + bt + seq![SpecToken::BClose]);
    assert(ts[p] == SpecToken::Wh) by {
        assert(sub[0] == ts[p]);
    }
    assert(ts[p + 1] == SpecToken::Number(n)) by {
        assert(sub[1] == ts[p + 1]);
    }
    assert(ts[p + 2] == SpecToken::BOpen) by {
        assert(sub[2] == ts[p + 2]);
    }
    assert(ts[p + 3 + bt.len()] == SpecToken::BClose) by {
        assert(sub[3 + bt.len() as int] == ts[p + 3 + bt.len()]);
    }
    assert(ts.subrange(p + 3, p + 3 + bt.len()) =~= bt) by {
        assert forall|k: int| 0 <= k < bt.len() implies ts.subrange(p + 3, p + 3 + bt.len())[k] == bt[k] by {
            assert(sub[3 + k] == st[3 + k]);
        }
    }
    let s0 = state_at(ts, seps, p);
    let s1 = state_at(ts, seps, p + 1);
    let s2 = state_at(ts, seps, p + 2);
    let s3 = state_at(ts, seps, p + 3);
    let s4 = state_at(ts, seps, p + 3 + bt.len());
    let s5 = state_at(ts, seps, p + 4 + bt.len());
    lemma_advance_at(ts, seps, p);
    lemma_advance_at(ts, seps, p + 1);
    lemma_advance_at(ts, seps, p + 2);
    lemma_measure_decreases(ts, seps, p, p + 3);
    lemma_parse_block(body, ts, seps, p + 3);
    lemma_advance_at(ts, seps, p + 3 + bt.len());
    assert(s1.look == SpecToken::Number(n));
    assert(s2.look == SpecToken::BOpen);
    assert(s4.look == SpecToken::BClose);
    assert(statements(s3) == Ok::<(Seq<char>, ParseState), SpecCompileError>((block_output(body), s4)));
    assert(repeat_block(s0) == Ok::<(Seq<char>, ParseState), SpecCompileError>(
        (repeat(block_output(body), decimal_value(n)), s5),
    ));
}

proof fn lemma_parse_block(b: Block, ts: Seq<SpecToken>, seps: Seq<Seq<char>>, p: int)
    requires
        block_ok(b),
        tokens_ok(ts),
        seps_ok(ts, seps),
        0 <= p,
        p + block_tokens(b).len() <= ts.len(),
        ts.subrange(p, p + block_tokens(b).len()) == block_tokens(b),
        p + block_tokens(b).len() == ts.len() || ts[p + block_tokens(b).len()] == SpecToken::BClose,
    ensures
        statements(state_at(ts, seps, p)) == Ok::<(Seq<char>, ParseState), SpecCompileError>(
            (block_output(b), state_at(ts, seps, p + block_tokens(b).len())),
        ),
    decreases b, 2nat,
{
    match b {
        Block::Empty => {},
        Block::Then(s, rest) => {
            let st = stmt_tokens(s);
            let rt = block_tokens(*rest);
            let all = block_tokens(b);
            assert(all == st + rt);
            lemma_stmt_tokens_ok(s);
            assert(ts[p] == all[0]) by {
                assert(ts.subrange(p, p + all.len())[0] == ts[p]);
            }
            assert(ts.subrange(p, p + st.len()) =~= st) by {
                assert forall|k: int| 0 <= k < st.len() implies ts.subrange(p, p + st.len())[k] == st[k] by {
                    assert(ts.subrange(p, p + all.len())[k] == all[k]);
                }
            }
            assert(ts.subrange(p + st.len(), p + all.len()) =~= rt) by {
                assert forall|k: int| 0 <= k < rt.len() implies ts.subrange(p + st.len(), p + all.len())[k] == rt[k] by {
                    assert(ts.subrange(p, p + all.len())[st.len() + k] == all[st.len() + k]);
                }
            }
            lemma_parse_stmt(s, ts, seps, p);
            lemma_measure_decreases(ts, seps, p, p + st.len());
            lemma_parse_block(*rest, ts, seps, p + st.len());
        },
    }
}

/// A well-formed program, spelt as its tokens with white space after each
/// (at least one character of it between two numerals), compiles: the page
/// holds exactly one instruction per leaf statement, in source order, each
/// repeat block's instructions written out as many times as its count says.
pub proof fn lemma_valid_program_compiles(b: Block, seps: Seq<Seq<char>>)
    requires
        block_ok(b),
        seps_ok(block_tokens(b), seps),
    ensures
        compiled(spelling(block_tokens(b), seps)) == Ok::<Seq<char>, SpecCompileError>(page(block_output(b))),
{
    let ts = block_tokens(b);
    lemma_block_tokens_ok(b);
    lemma_start(ts, seps);
    assert(ts.subrange(0, ts.len() as int) =~= ts);
    lemma_parse_block(b, ts, seps, 0);
}

/// The statements of `a` followed by those of `b`.
pub open spec fn append(a: Block, b: Block) -> Block
    decreases a,
{
    match a {
        Block::Empty => b,
        Block::Then(s, rest) => Block::Then(s, Box::new(append(*rest, b))),
    }
}

proof fn lemma_append(a: Block, b: Block)
    ensures
        block_ok(a) && block_ok(b) ==> block_ok(append(a, b)),
        block_tokens(append(a, b)) == block_tokens(a) + block_tokens(b),
        block_output(append(a, b)) == block_output(a) + block_output(b),
    decreases a,
{
    match a {
        Block::Empty => {
            assert(Seq::<SpecToken>::empty() + block_tokens(b) =~= block_tokens(b));
            assert(Seq::<char>::empty() + block_output(b) =~= block_output(b));
        },
        Block::Then(s, rest) => {
            lemma_append(*rest, b);
            assert(stmt_tokens(s) + (block_tokens(*rest) + block_tokens(b)) =~= (stmt_tokens(s)
                + block_tokens(*rest)) + block_tokens(b));
            assert(stmt_output(s) + (block_output(*rest) + block_output(b)) =~= (stmt_output(s)
                + block_output(*rest)) + block_output(b));
        },
    }
}

/// Two well-formed programs written one after the other compile to the first
/// one's instructions followed by the second one's, in one page.
pub proof fn lemma_programs_in_a_row(a: Block, b: Block, seps: Seq<Seq<char>>)
    requires
        block_ok(a),
        block_ok(b),
        seps_ok(block_tokens(a) + block_tokens(b), seps),
    ensures
        compiled(spelling(block_tokens(a) + block_tokens(b), seps)) == Ok::<Seq<char>, SpecCompileError>(
            page(block_output(a) + block_output(b)),
        ),
{
    lemma_append(a, b);
    lemma_valid_program_compiles(append(a, b), seps);
}

/// `WH n [ body ]` on its own, with a well-formed body and a count that fits a
/// machine word, compiles to the body's instructions written out `n` times.
pub proof fn lemma_repeat_unrolled(n: Seq<char>, body: Block, seps: Seq<Seq<char>>)
    requires
        stmt_ok(Stmt::Repeat(n, Box::new(body))),
        seps_ok(stmt_tokens(Stmt::Repeat(n, Box::new(body))), seps),
    ensures
        compiled(spelling(stmt_tokens(Stmt::Repeat(n, Box::new(body))), seps)) == Ok::<
            Seq<char>,
            SpecCompileError,
        >(page(repeat(block_output(body), decimal_value(n)))),
{
    let s = Stmt::Repeat(n, Box::new(body));
    let prog = Block::Then(s, Box::new(Block::Empty));
    assert(block_tokens(Block::Empty) == Seq::<SpecToken>::empty());
    assert(block_output(Block::Empty) == Seq::<char>::empty());
    assert(block_tokens(prog) == stmt_tokens(s) + block_tokens(Block::Empty));
    assert(block_output(prog) == stmt_output(s) + block_output(Block::Empty));
    assert(block_tokens(prog) =~= stmt_tokens(s));
    assert(block_output(prog) =~= stmt_output(s));
    assert(block_ok(Block::Empty));
    assert(block_ok(prog));
    lemma_valid_program_compiles(prog, seps);
}

} // verus!
