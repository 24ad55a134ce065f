//! The text edge list: one edge `src dst` per line, lines that begin with `#`
//! are comments. Tokens are split at ASCII white space; a number is an
//! optional `+` and decimal digits, below 2^32. Tokens past the second are
//! ignored.
use vstd::prelude::*;
use crate::graph_iterator::{Edge, GraphError};

verus! {

pub open spec fn is_space(b: u8) -> bool {
    b == 32 || (9 <= b && b <= 13)
}

pub open spec fn is_digit(b: u8) -> bool {
    48 <= b && b <= 57
}

/// The first position at or after `i` that holds no white space.
pub open spec fn skip_spaces(line: Seq<u8>, i: int) -> int
    decreases line.len() - i,
{
    if i >= line.len() || !is_space(line[i]) {
        i
    } else {
        skip_spaces(line, i + 1)
    }
}

/// The first position at or after `i` that holds white space, or the end.
pub open spec fn token_end(line: Seq<u8>, i: int) -> int
    decreases line.len() - i,
{
    if i >= line.len() || is_space(line[i]) {
        i
    } else {
        token_end(line, i + 1)
    }
}

/// The value of decimal digits.
pub open spec fn dec_value(ds: Seq<u8>) -> nat
    decreases ds.len(),
{
    if ds.len() == 0 {
        0
    } else {
        (dec_value(ds.drop_last()) * 10 + (ds.last() - 48)) as nat
    }
}

/// A token without its leading `+`, if it has one.
pub open spec fn unsigned_part(tok: Seq<u8>) -> Seq<u8> {
    if tok.len() > 0 && tok[0] == 43 {
        tok.drop_first()
    } else {
        tok
    }
}

/// The number a token spells, if it spells one below 2^32.
pub open spec fn parse_u32_spec(tok: Seq<u8>) -> Option<u32> {
    digits_u32(unsigned_part(tok))
}

/// The number that decimal digits `ds` spell, if they are digits and spell one below 2^32.
pub open spec fn digits_u32(ds: Seq<u8>) -> Option<u32> {
    if ds.len() > 0 && (forall|i: int| 0 <= i < ds.len() ==> is_digit(#[trigger] ds[i])) && dec_value(ds)
        < 0x1_0000_0000 {
        Some(dec_value(ds) as u32)
    } else {
        None
    }
}

/// What one line holds: `Some(None)` for a comment, `Some(Some(e))` for an
/// edge, `None` for a line that is neither.
pub open spec fn line_edge(line: Seq<u8>) -> Option<Option<Edge>> {
    if line.len() > 0 && line[0] == 35 {
        Some(None)
    } else {
        let s1 = skip_spaces(line, 0);
        let e1 = token_end(line, s1);
        let s2 = skip_spaces(line, e1);
        let e2 = token_end(line, s2);
        match (parse_u32_spec(line.subrange(s1, e1)), parse_u32_spec(line.subrange(s2, e2))) {
            (Some(a), Some(b)) => Some(Some((a, b))),
            _ => None,
        }
    }
}

proof fn lemma_skip_bound(line: Seq<u8>, i: int)
    requires
        0 <= i <= line.len(),
    ensures
        i <= skip_spaces(line, i) <= line.len(),
        i <= token_end(line, i) <= line.len(),
    decreases line.len() - i,
{
    if i < line.len() {
        lemma_skip_bound(line, i + 1);
    }
}

proof fn lemma_dec_prefix(ds: Seq<u8>, t: int)
    requires
        0 <= t <= ds.len(),
        forall|i: int| 0 <= i < ds.len() ==> is_digit(#[trigger] ds[i]),
    ensures
        dec_value(ds.take(t)) <= dec_value(ds),
    decreases ds.len(),
{
    if t < ds.len() {
        lemma_dec_prefix(ds.drop_last(), t);
        assert(ds.drop_last().take(t) =~= ds.take(t));
        assert(ds.last() >= 48);
    } else {
        assert(ds.take(t) =~= ds);
    }
}

fn skip_spaces_exec(line: &[u8], start: usize) -> (r: usize)
    requires
        start <= line@.len(),
    ensures
        r as int == skip_spaces(line@, start as int),
{
    let mut i = start;
    while i < line.len() && (line[i] == 32 || (9 <= line[i] && line[i] <= 13))
        invariant
            start <= i <= line@.len(),
            skip_spaces(line@, start as int) == skip_spaces(line@, i as int),
        decreases line@.len() - i,
    {
        i = i + 1;
    }
    i
}

fn token_end_exec(line: &[u8], start: usize) -> (r: usize)
    requires
        start <= line@.len(),
    ensures
        r as int == token_end(line@, start as int),
{
    let mut i = start;
    while i < line.len() && !(line[i] == 32 || (9 <= line[i] && line[i] <= 13))
        invariant
            start <= i <= line@.len(),
            token_end(line@, start as int) == token_end(line@, i as int),
        decreases line@.len() - i,
    {
        i = i + 1;
    }
    i
}

/// The number that `line[s..e]` spells, if it spells one below 2^32.
pub fn parse_u32_at(line: &[u8], s: usize, e: usize) -> (r: Option<u32>)
    requires
        s <= e <= line@.len(),
    ensures
        r == parse_u32_spec(line@.subrange(s as int, e as int)),
{
    let ghost tok = line@.subrange(s as int, e as int);
    let mut i = s;
    if i < e && line[i] == 43 {
        i = i + 1;
    }
    let ghost ds = unsigned_part(tok);
    proof {
        if tok.len() > 0 {
            assert(tok[0] == line@[s as int]);
        }
    }
    assert(ds =~= line@.subrange(i as int, e as int));
    if i == e {
        assert(parse_u32_spec(tok) is None);
        return None;
    }
    let start = i;
    let mut value: u32 = 0;
    while i < e
        invariant
            start <= i <= e <= line@.len(),
            ds =~= line@.subrange(start as int, e as int),
            tok == line@.subrange(s as int, e as int),
            ds == unsigned_part(tok),
            forall|k: int| 0 <= k < i - start ==> is_digit(#[trigger] ds[k]),
            value as nat == dec_value(ds.take(i - start)),
        decreases e - i,
    {
        let b = line[i];
        if !(48 <= b && b <= 57) {
            assert(!is_digit(ds[i - start]));
            return None;
        }
        let digit = (b - 48) as u32;
        proof {
            assert(ds.take(i - start + 1).drop_last() =~= ds.take(i - start));
            assert(ds.take(i - start + 1).last() == b);
            assert(dec_value(ds.take(i - start + 1)) == dec_value(ds.take(i - start)) * 10 + digit);
        }
        if value > (u32::MAX - digit) / 10 {
            proof {
                assert(value * 10 + digit > u32::MAX) by (nonlinear_arith)
                    requires
                        value > (u32::MAX - digit) / 10,
                        digit <= 9,
                ;
                assert(dec_value(ds.take(i - start + 1)) > u32::MAX);
                if forall|k: int| 0 <= k < ds.len() ==> is_digit(#[trigger] ds[k]) {
                    lemma_dec_prefix(ds, i - start + 1);
                    assert(dec_value(ds) >= 0x1_0000_0000);
                }
                assert(parse_u32_spec(tok) is None);
            }
            return None;
        }
        assert(value * 10 + digit <= u32::MAX) by (nonlinear_arith)
            requires
                value <= (u32::MAX - digit) / 10,
                digit <= 9,
        ;
        value = value * 10 + digit;
        i = i + 1;
    }
    assert(ds.take(i - start) =~= ds);
    Some(value)
}

/// What one line holds: `Ok(None)` for a comment, `Ok(Some(e))` for an edge.
pub fn parse_edge_line(line: &[u8]) -> (r: Result<Option<Edge>, GraphError>)
    ensures
        match line_edge(line@) {
            Some(o) => r == Ok::<Option<Edge>, GraphError>(o),
            None => r == Err::<Option<Edge>, GraphError>(GraphError::MalformedLine),
        },
{
    if line.len() > 0 && line[0] == 35 {
        return Ok(None);
    }
    proof {
        lemma_skip_bound(line@, 0);
    }
    let s1 = skip_spaces_exec(line, 0);
    proof {
        lemma_skip_bound(line@, s1 as int);
    }
    let e1 = token_end_exec(line, s1);
    proof {
        lemma_skip_bound(line@, e1 as int);
    }
    let s2 = skip_spaces_exec(line, e1);
    proof {
        lemma_skip_bound(line@, s2 as int);
    }
    let e2 = token_end_exec(line, s2);
    let a = parse_u32_at(line, s1, e1);
    let b = parse_u32_at(line, s2, e2);
    match (a, b) {
        (Some(x), Some(y)) => Ok(Some((x, y))),
        _ => Err(GraphError::MalformedLine),
    }
}

/// What a text parser knows between two bytes.
pub struct TextState {
    /// The bytes of the line read so far.
    pub line: Seq<u8>,
    /// Whether a line that is neither a comment nor an edge has ended.
    pub failed: bool,
}

/// One byte of text, and the edge it completes, if any.
pub open spec fn text_step(s: TextState, byte: u8) -> (TextState, Option<Edge>) {
    if s.failed {
        (s, None)
    } else if byte == 10 {
        match line_edge(s.line) {
            None => (TextState { failed: true, ..s }, None),
            Some(o) => (TextState { line: Seq::empty(), failed: false }, o),
        }
    } else {
        (TextState { line: s.line.push(byte), failed: false }, None)
    }
}

/// The text `bytes`, read from the start: the state after it and the edges of its whole lines.
pub open spec fn text_run(bytes: Seq<u8>) -> (TextState, Seq<Edge>)
    decreases bytes.len(),
{
    if bytes.len() == 0 {
        (TextState { line: Seq::empty(), failed: false }, Seq::empty())
    } else {
        let (s1, out) = text_run(bytes.drop_last());
        let (s2, e) = text_step(s1, bytes.last());
        match e {
            Some(v) => (s2, out.push(v)),
            None => (s2, out),
        }
    }
}

/// The edges of a whole text; `None` where a line is neither a comment nor an
/// edge. A last line without a line break counts when it is not empty.
pub open spec fn text_edges(bytes: Seq<u8>) -> Option<Seq<Edge>> {
    let (s, out) = text_run(bytes);
    if s.failed {
        None
    } else if s.line.len() == 0 {
        Some(out)
    } else {
        match line_edge(s.line) {
            None => None,
            Some(None) => Some(out),
            Some(Some(e)) => Some(out.push(e)),
        }
    }
}

/// An incremental parser of a text edge list: one byte at a time.
pub struct TextParser {
    line: Vec<u8>,
    failed: bool,
}

impl View for TextParser {
    type V = TextState;

    closed spec fn view(&self) -> TextState {
        TextState { line: self.line@, failed: self.failed }
    }
}

impl TextParser {
    pub fn new() -> (r: TextParser)
        ensures
            r@ == text_run(Seq::empty()).0,
    {
        TextParser { line: Vec::new(), failed: false }
    }

    /// Reads one byte; returns the edge it completes, if any.
    pub fn push(&mut self, byte: u8) -> (r: Option<Edge>)
        ensures
            (final(self)@, r) == text_step(old(self)@, byte),
    {
        if self.failed {
            return None;
        }
        if byte == 10 {
            let parsed = parse_edge_line(self.line.as_slice());
            match parsed {
                Err(_) => {
                    self.failed = true;
                    None
                },
                Ok(o) => {
                    self.line = Vec::new();
                    o
                },
            }
        } else {
            self.line.push(byte);
            None
        }
    }

    /// Whether a line that is neither a comment nor an edge has ended.
    pub fn has_failed(&self) -> (r: bool)
        ensures
            r == self@.failed,
    {
        self.failed
    }

    /// Ends the text: the edge on its last line, if that line has no line break.
    pub fn finish(&self) -> (r: Result<Option<Edge>, GraphError>)
        requires
            !self@.failed,
        ensures
            self@.line.len() == 0 ==> r == Ok::<Option<Edge>, GraphError>(None),
            self@.line.len() > 0 ==> match line_edge(self@.line) {
                Some(o) => r == Ok::<Option<Edge>, GraphError>(o),
                None => r == Err::<Option<Edge>, GraphError>(GraphError::MalformedLine),
            },
    {
        if self.line.len() == 0 {
            Ok(None)
        } else {
            parse_edge_line(self.line.as_slice())
        }
    }
}

} // verus!
