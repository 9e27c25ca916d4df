//! The DIMACS CNF format: lines starting with `c` are comments, a header
//! `p cnf <vars> <clauses>` comes first, then clauses as integers ended by
//! `0`, spread over lines at will.
use vstd::prelude::*;
use crate::literal::{Literal, MAX_LITERAL};
use crate::decimal::{dec, decimal};
use crate::variable_registry::VariableRegister;
use crate::clause::{Clause, tautology};
use crate::dfs::Instance;

verus! {

broadcast use {Literal::lemma_neg, Literal::lemma_of, Literal::lemma_of_parts};

#[derive(Debug, Clone, PartialEq, Eq)]
pub enum DimacsError {
    MalformedHeader,
    /// A clause the core does not take: empty, or holding a literal and its
    /// complement.
    InvalidLine(String),
    UnknownLineType(usize, usize),
    /// A token that is not an integer in range.
    ParseError,
}

/// The header's declared counts, which are advisory.
#[derive(Debug, Clone, Copy, PartialEq, Eq, Structural)]
pub struct DimacsHeader {
    pub var_count: u64,
    pub clause_count: u64,
}

pub open spec fn is_space(b: u8) -> bool {
    b == 32 || b == 9 || b == 10 || b == 12 || b == 13
}

/// The lexer's state after some prefix of the text.
pub struct Lex {
    pub words: Seq<Seq<u8>>,
    pub cur: Seq<u8>,
    pub line_start: bool,
    pub comment: bool,
}

pub open spec fn flush(words: Seq<Seq<u8>>, cur: Seq<u8>) -> Seq<Seq<u8>> {
    if cur.len() == 0 {
        words
    } else {
        words.push(cur)
    }
}

/// One byte of lexing: a line that starts with `c` is skipped to its end,
/// white space separates words.
pub open spec fn lex_step(st: Lex, b: u8) -> Lex {
    if b == 10 {
        Lex { words: flush(st.words, st.cur), cur: Seq::empty(), line_start: true, comment: false }
    } else if st.comment || (st.line_start && b == 99) {
        Lex { words: st.words, cur: st.cur, line_start: false, comment: true }
    } else if is_space(b) {
        Lex { words: flush(st.words, st.cur), cur: Seq::empty(), line_start: false, comment: false }
    } else {
        Lex { words: st.words, cur: st.cur.push(b), line_start: false, comment: false }
    }
}

/// Lexing `text` from state `st`.
pub open spec fn lex_from(st: Lex, text: Seq<u8>) -> Lex
    decreases text.len(),
{
    if text.len() == 0 {
        st
    } else {
        lex_step(lex_from(st, text.drop_last()), text.last())
    }
}

pub open spec fn lex_start() -> Lex {
    Lex { words: Seq::empty(), cur: Seq::empty(), line_start: true, comment: false }
}

pub open spec fn lex_prefix(text: Seq<u8>) -> Lex {
    lex_from(lex_start(), text)
}

/// The words of the text outside comment lines.
pub open spec fn words_of(text: Seq<u8>) -> Seq<Seq<u8>> {
    flush(lex_prefix(text).words, lex_prefix(text).cur)
}

pub open spec fn is_digit(b: u8) -> bool {
    48 <= b <= 57
}

/// The value of a string of decimal digits.
pub open spec fn digits_value(w: Seq<u8>) -> nat
    decreases w.len(),
{
    if w.len() == 0 {
        0
    } else {
        digits_value(w.drop_last()) * 10 + (w.last() - 48) as nat
    }
}

pub open spec fn all_digits(w: Seq<u8>) -> bool {
    w.len() > 0 && forall|i: int| 0 <= i < w.len() ==> is_digit(#[trigger] w[i])
}

/// The word as an unsigned 64-bit integer: an optional `+`, then digits.
pub open spec fn word_u64(w: Seq<u8>) -> Option<nat> {
    let d = if w.len() > 0 && w[0] == 43 { w.drop_first() } else { w };
    if all_digits(d) && digits_value(d) <= u64::MAX {
        Some(digits_value(d))
    } else {
        None
    }
}

/// The word as a signed 64-bit integer: an optional sign, then digits.
pub open spec fn word_i64(w: Seq<u8>) -> Option<int> {
    if w.len() > 0 && w[0] == 45 {
        let d = w.drop_first();
        if all_digits(d) && digits_value(d) <= 0x8000_0000_0000_0000 {
            Some(-(digits_value(d) as int))
        } else {
            None
        }
    } else {
        let d = if w.len() > 0 && w[0] == 43 { w.drop_first() } else { w };
        if all_digits(d) && digits_value(d) <= i64::MAX {
            Some(digits_value(d) as int)
        } else {
            None
        }
    }
}

/// What reading clause words yields: the clauses so far and the clause
/// being read, or what stopped the reading.
pub enum ClauseRead {
    Clauses(Seq<Seq<int>>, Seq<int>),
    NotInteger,
    EmptyClause,
    Tautology,
}

/// The clause holds a literal and its complement.
pub open spec fn int_tautology(c: Seq<int>) -> bool {
    exists|i: int, j: int| 0 <= i < c.len() && 0 <= j < c.len() && #[trigger] c[i] == -(#[trigger] c[j])
}

/// Reads clause words: integers, each `0` ending a clause. Integers after
/// the last `0` are dropped.
pub open spec fn read_clauses(ws: Seq<Seq<u8>>) -> ClauseRead
    decreases ws.len(),
{
    if ws.len() == 0 {
        ClauseRead::Clauses(Seq::empty(), Seq::empty())
    } else {
        match read_clauses(ws.drop_last()) {
            ClauseRead::Clauses(done, cur) => match word_i64(ws.last()) {
                None => ClauseRead::NotInteger,
                Some(k) => if k == 0 {
                    if cur.len() == 0 {
                        ClauseRead::EmptyClause
                    } else if int_tautology(cur) {
                        ClauseRead::Tautology
                    } else {
                        ClauseRead::Clauses(done.push(cur), Seq::empty())
                    }
                } else {
                    ClauseRead::Clauses(done, cur.push(k))
                },
            },
            other => other,
        }
    }
}

/// Why a text is not read.
pub enum ReadFault {
    /// `MalformedHeader`.
    Header,
    /// `ParseError`.
    NotInteger,
    /// `InvalidLine`: a `0` with no literal before it.
    EmptyClause,
    /// `InvalidLine`: a clause with a literal and its complement.
    Tautology,
}

/// The header of the word list: `Header` without the four words
/// `p cnf <vars> <clauses>`, `NotInteger` when a count is not a `u64`.
pub open spec fn header_of(ws: Seq<Seq<u8>>) -> Result<(nat, nat), ReadFault> {
    if ws.len() < 4 || ws[0] != seq![112u8] || ws[1] != seq![99u8, 110u8, 102u8] {
        Err(ReadFault::Header)
    } else if word_u64(ws[2]) is None || word_u64(ws[3]) is None {
        Err(ReadFault::NotInteger)
    } else {
        Ok((word_u64(ws[2]).unwrap(), word_u64(ws[3]).unwrap()))
    }
}

/// The header and the clauses, as integers, of a DIMACS text; errors as the
/// reader reports them, the first one in the text winning.
pub open spec fn dimacs_of(text: Seq<u8>) -> Result<(nat, nat, Seq<Seq<int>>), ReadFault> {
    let ws = words_of(text);
    match header_of(ws) {
        Err(e) => Err(e),
        Ok((v, c)) => match read_clauses(ws.subrange(4, ws.len() as int)) {
            ClauseRead::Clauses(done, _) => Ok((v, c, done)),
            ClauseRead::NotInteger => Err(ReadFault::NotInteger),
            ClauseRead::EmptyClause => Err(ReadFault::EmptyClause),
            ClauseRead::Tautology => Err(ReadFault::Tautology),
        },
    }
}

/// The error that reports a fault.
pub open spec fn reports(e: DimacsError, f: ReadFault) -> bool {
    match f {
        ReadFault::Header => e == DimacsError::MalformedHeader,
        ReadFault::NotInteger => e == DimacsError::ParseError,
        _ => e is InvalidLine,
    }
}

pub open spec fn words_view(ws: Seq<Vec<u8>>) -> Seq<Seq<u8>> {
    ws.map_values(|w: Vec<u8>| w@)
}

/// Splits the text into the words outside comment lines.
pub fn lex(text: &[u8]) -> (r: Vec<Vec<u8>>)
    ensures
        words_view(r@) == words_of(text@),
{
    let mut words: Vec<Vec<u8>> = Vec::new();
    let mut cur: Vec<u8> = Vec::new();
    let mut line_start = true;
    let mut comment = false;
    let mut i: usize = 0;
    assert(words_view(words@) =~= Seq::<Seq<u8>>::empty());
    assert(cur@ =~= Seq::<u8>::empty());
    assert(text@.subrange(0, 0) =~= Seq::<u8>::empty());
    while i < text.len()
        invariant
            i <= text@.len(),
            lex_prefix(text@.subrange(0, i as int)) == (Lex {
                words: words_view(words@),
                cur: cur@,
                line_start,
                comment,
            }),
        decreases text.len() - i,
    {
        let b = text[i];
        proof {
            let pre = text@.subrange(0, i + 1);
            assert(pre.drop_last() == text@.subrange(0, i as int));
            assert(pre.last() == b);
        }
        if b == 10 {
            if cur.len() > 0 {
                words.push(cur);
                assert(words_view(words@) =~= flush(lex_prefix(text@.subrange(0, i as int)).words, lex_prefix(text@.subrange(0, i as int)).cur));
            }
            cur = Vec::new();
            line_start = true;
            comment = false;
        } else if comment || (line_start && b == 99) {
            line_start = false;
            comment = true;
        } else if b == 32 || b == 9 || b == 12 || b == 13 {
            if cur.len() > 0 {
                words.push(cur);
                assert(words_view(words@) =~= flush(lex_prefix(text@.subrange(0, i as int)).words, lex_prefix(text@.subrange(0, i as int)).cur));
            }
            cur = Vec::new();
            line_start = false;
            comment = false;
        } else {
            cur.push(b);
            line_start = false;
            comment = false;
        }
        proof {
            assert(cur@ == lex_prefix(text@.subrange(0, i + 1)).cur);
            assert(words_view(words@) == lex_prefix(text@.subrange(0, i + 1)).words);
        }
        i = i + 1;
    }
    assert(text@.subrange(0, text@.len() as int) == text@);
    if cur.len() > 0 {
        words.push(cur);
        assert(words_view(words@) =~= words_of(text@));
    }
    words
}


proof fn lemma_digits_grow(w: Seq<u8>, k: int)
    requires
        0 <= k <= w.len(),
        forall|i: int| 0 <= i < w.len() ==> is_digit(#[trigger] w[i]),
    ensures
        digits_value(w) >= digits_value(w.subrange(0, k)),
    decreases w.len() - k,
{
    if k < w.len() {
        lemma_digits_grow(w, k + 1);
        let p = w.subrange(0, k + 1);
        assert(p.drop_last() == w.subrange(0, k));
        assert(digits_value(p) == digits_value(p.drop_last()) * 10 + (p.last() - 48) as nat);
    } else {
        assert(w.subrange(0, k) == w);
    }
}

/// The value of the digits `w[from..]`, when they are all digits and the
/// value is at most `limit`.
fn digits_u64(w: &Vec<u8>, from: usize, limit: u64) -> (r: Option<u64>)
    requires
        from <= w@.len(),
        limit >= 9,
    ensures
        ({
            let d = w@.subrange(from as int, w@.len() as int);
            &&& r matches Some(v) ==> all_digits(d) && digits_value(d) == v && v <= limit
            &&& r is None ==> !(all_digits(d) && digits_value(d) <= limit)
        }),
{
    let ghost d = w@.subrange(from as int, w@.len() as int);
    if from == w.len() {
        return None;
    }
    let mut val: u64 = 0;
    let mut i: usize = from;
    while i < w.len()
        invariant
            from <= i <= w@.len(),
            from < w@.len(),
            limit >= 9,
            d == w@.subrange(from as int, w@.len() as int),
            forall|k: int| from <= k < i ==> is_digit(#[trigger] w@[k]),
            val == digits_value(w@.subrange(from as int, i as int)),
            val <= limit,
        decreases w.len() - i,
    {
        let b = w[i];
        if b < 48 || b > 57 {
            proof {
                assert(!is_digit(d[i - from]));
            }
            return None;
        }
        let dg = (b - 48) as u64;
        let ghost pre = w@.subrange(from as int, i + 1);
        proof {
            assert(pre.drop_last() == w@.subrange(from as int, i as int));
            assert(pre.last() == b);
        }
        if val > (limit - dg) / 10 {
            proof {
                assert(val * 10 + dg > limit) by (nonlinear_arith)
                    requires
                        val > (limit - dg) / 10,
                        dg <= 9,
                        limit >= 9,
                ;
                if all_digits(d) {
                    assert(pre == d.subrange(0, i + 1 - from));
                    lemma_digits_grow(d, i + 1 - from);
                }
            }
            return None;
        }
        proof {
            assert(val * 10 + dg <= limit) by (nonlinear_arith)
                requires
                    val <= (limit - dg) / 10,
                    dg <= 9,
                    limit >= 9,
            ;
        }
        val = val * 10 + dg;
        i = i + 1;
    }
    assert(w@.subrange(from as int, i as int) == d);
    Some(val)
}

/// Reads a word as a `u64`, as `str::parse` does.
pub fn parse_u64_word(w: &Vec<u8>) -> (r: Option<u64>)
    ensures
        r matches Some(v) ==> word_u64(w@) == Some(v as nat),
        r is None <==> word_u64(w@) is None,
{
    let from: usize = if w.len() > 0 && w[0] == 43 { 1 } else { 0 };
    proof {
        if w@.len() > 0 && w@[0] == 43 {
            assert(w@.drop_first() == w@.subrange(1, w@.len() as int));
        } else {
            assert(w@ == w@.subrange(0, w@.len() as int));
        }
    }
    digits_u64(w, from, 0xffff_ffff_ffff_ffff)
}

/// Reads a word as an `i64`, as `str::parse` does.
pub fn parse_i64_word(w: &Vec<u8>) -> (r: Option<i64>)
    ensures
        r matches Some(v) ==> word_i64(w@) == Some(v as int),
        r is None <==> word_i64(w@) is None,
{
    if w.len() > 0 && w[0] == 45 {
        proof {
            assert(w@.drop_first() == w@.subrange(1, w@.len() as int));
        }
        match digits_u64(w, 1, 0x8000_0000_0000_0000) {
            Some(m) => {
                if m == 0x8000_0000_0000_0000 {
                    Some(-0x8000_0000_0000_0000i64)
                } else {
                    Some(-(m as i64))
                }
            },
            None => None,
        }
    } else {
        let from: usize = if w.len() > 0 && w[0] == 43 { 1 } else { 0 };
        proof {
            if w@.len() > 0 && w@[0] == 43 {
                assert(w@.drop_first() == w@.subrange(1, w@.len() as int));
            } else {
                assert(w@ == w@.subrange(0, w@.len() as int));
            }
        }
        match digits_u64(w, from, 0x7fff_ffff_ffff_ffff) {
            Some(m) => Some(m as i64),
            None => None,
        }
    }
}


/// Reads the header from the first four words.
pub fn parse_header(ws: &Vec<Vec<u8>>) -> (r: Result<DimacsHeader, ReadFault>)
    ensures
        match header_of(words_view(ws@)) {
            Err(f) => r == Err::<DimacsHeader, ReadFault>(f),
            Ok((v, c)) => r == Ok::<DimacsHeader, ReadFault>(DimacsHeader { var_count: v as u64, clause_count: c as u64 }),
        },
{
    let ghost wv = words_view(ws@);
    if ws.len() < 4 {
        return Err(ReadFault::Header);
    }
    proof {
        assert(wv[0] == ws@[0]@);
        assert(wv[1] == ws@[1]@);
        assert(wv[2] == ws@[2]@);
        assert(wv[3] == ws@[3]@);
    }
    let p_ok = ws[0].len() == 1 && ws[0][0] == 112;
    let cnf_ok = ws[1].len() == 3 && ws[1][0] == 99 && ws[1][1] == 110 && ws[1][2] == 102;
    proof {
        if p_ok {
            assert(ws@[0]@ =~= seq![112u8]);
        }
        if cnf_ok {
            assert(ws@[1]@ =~= seq![99u8, 110u8, 102u8]);
        }
        if ws@[0]@ == seq![112u8] {
            assert(ws@[0]@.len() == 1 && ws@[0]@[0] == 112);
        }
        if ws@[1]@ == seq![99u8, 110u8, 102u8] {
            assert(ws@[1]@[0] == 99 && ws@[1]@[1] == 110 && ws@[1]@[2] == 102);
        }
    }
    if !p_ok || !cnf_ok {
        return Err(ReadFault::Header);
    }
    let v = parse_u64_word(&ws[2]);
    let c = parse_u64_word(&ws[3]);
    match (v, c) {
        (Some(v), Some(c)) => Ok(DimacsHeader { var_count: v, clause_count: c }),
        _ => Err(ReadFault::NotInteger),
    }
}

/// The integers of clauses read so far.
pub open spec fn ints_view(cs: Seq<Vec<i64>>) -> Seq<Seq<int>> {
    cs.map_values(|c: Vec<i64>| c@.map_values(|k: i64| k as int))
}

proof fn lemma_read_stuck(ws: Seq<Seq<u8>>, k: int)
    requires
        0 <= k <= ws.len(),
        !(read_clauses(ws.subrange(0, k)) is Clauses),
    ensures
        read_clauses(ws) == read_clauses(ws.subrange(0, k)),
    decreases ws.len() - k,
{
    if k < ws.len() {
        let p = ws.subrange(0, k + 1);
        assert(p.drop_last() == ws.subrange(0, k));
        assert(read_clauses(p) == read_clauses(ws.subrange(0, k)));
        lemma_read_stuck(ws, k + 1);
    } else {
        assert(ws.subrange(0, k) == ws);
    }
}

/// Whether the clause holds an integer and its negation.
fn has_complement(c: &Vec<i64>) -> (r: bool)
    ensures
        r == int_tautology(c@.map_values(|k: i64| k as int)),
{
    let ghost ci = c@.map_values(|k: i64| k as int);
    let mut i: usize = 0;
    while i < c.len()
        invariant
            i <= c@.len(),
            ci == c@.map_values(|k: i64| k as int),
            forall|a: int, b: int| 0 <= a < i && 0 <= b < c@.len() ==> #[trigger] ci[a] != -(#[trigger] ci[b]),
        decreases c.len() - i,
    {
        let mut j: usize = 0;
        while j < c.len()
            invariant
                i < c@.len(),
                j <= c@.len(),
                ci == c@.map_values(|k: i64| k as int),
                forall|a: int, b: int| 0 <= a < i && 0 <= b < c@.len() ==> #[trigger] ci[a] != -(#[trigger] ci[b]),
                forall|b: int| 0 <= b < j ==> ci[i as int] != -(#[trigger] ci[b]),
            decreases c.len() - j,
        {
            if c[i] as i128 == -(c[j] as i128) {
                assert(ci[i as int] == -ci[j as int]);
                return true;
            }
            j = j + 1;
        }
        i = i + 1;
    }
    false
}

/// Reads the clause words that follow the header.
pub fn read_clause_words(ws: &Vec<Vec<u8>>) -> (r: Result<Vec<Vec<i64>>, ReadFault>)
    requires
        ws@.len() >= 4,
    ensures
        ({
            let body = words_view(ws@).subrange(4, ws@.len() as int);
            match read_clauses(body) {
                ClauseRead::Clauses(done, _) => r matches Ok(cs) && ints_view(cs@) == done,
                ClauseRead::NotInteger => r == Err::<Vec<Vec<i64>>, ReadFault>(ReadFault::NotInteger),
                ClauseRead::EmptyClause => r == Err::<Vec<Vec<i64>>, ReadFault>(ReadFault::EmptyClause),
                ClauseRead::Tautology => r == Err::<Vec<Vec<i64>>, ReadFault>(ReadFault::Tautology),
            }
        }),
{
    let ghost body = words_view(ws@).subrange(4, ws@.len() as int);
    let mut done: Vec<Vec<i64>> = Vec::new();
    let mut cur: Vec<i64> = Vec::new();
    let mut i: usize = 4;
    assert(body.subrange(0, 0) =~= Seq::<Seq<u8>>::empty());
    assert(ints_view(done@) =~= Seq::<Seq<int>>::empty());
    assert(cur@.map_values(|k: i64| k as int) =~= Seq::<int>::empty());
    while i < ws.len()
        invariant
            4 <= i <= ws@.len(),
            body == words_view(ws@).subrange(4, ws@.len() as int),
            read_clauses(body.subrange(0, i - 4)) == ClauseRead::Clauses(
                ints_view(done@),
                cur@.map_values(|k: i64| k as int),
            ),
        decreases ws.len() - i,
    {
        let ghost pre = body.subrange(0, i - 3);
        proof {
            assert(pre.drop_last() == body.subrange(0, i - 4));
            assert(pre.last() == ws@[i as int]@);
        }
        match parse_i64_word(&ws[i]) {
            None => {
                proof {
                    lemma_read_stuck(body, i - 3);
                }
                return Err(ReadFault::NotInteger);
            },
            Some(k) => {
                if k == 0 {
                    if cur.len() == 0 {
                        proof {
                            lemma_read_stuck(body, i - 3);
                        }
                        return Err(ReadFault::EmptyClause);
                    }
                    if has_complement(&cur) {
                        proof {
                            lemma_read_stuck(body, i - 3);
                        }
                        return Err(ReadFault::Tautology);
                    }
                    let ghost old_done = done@;
                    let ghost cv = cur@.map_values(|k: i64| k as int);
                    done.push(cur);
                    cur = Vec::new();
                    proof {
                        assert(ints_view(done@) =~= ints_view(old_done).push(cv));
                        assert(cur@.map_values(|k: i64| k as int) =~= Seq::<int>::empty());
                    }
                } else {
                    let ghost cv = cur@.map_values(|k: i64| k as int);
                    cur.push(k);
                    proof {
                        assert(cur@.map_values(|k: i64| k as int) =~= cv.push(k as int));
                    }
                }
            },
        }
        i = i + 1;
    }
    assert(body.subrange(0, i - 4) == body);
    Ok(done)
}


pub open spec fn abs(k: int) -> nat {
    if k < 0 {
        (-k) as nat
    } else {
        k as nat
    }
}

/// Literal `l` stands for the DIMACS integer `k`: its variable is named by
/// the digits of `|k|`, and it is positive exactly when `k` is.
pub open spec fn denotes(names: Seq<Seq<char>>, l: Literal, k: int) -> bool {
    l.vidx() < names.len() && names[l.vidx() as int] == dec(abs(k)) && l.pos() == (k > 0)
}

/// The clause has a literal for each integer, and each literal stands for
/// one of them.
pub open spec fn clause_denotes(names: Seq<Seq<char>>, c: Seq<Literal>, ks: Seq<int>) -> bool {
    &&& forall|i: int| 0 <= i < ks.len() ==> #[trigger] has_lit_for(names, c, ks[i])
    &&& forall|j: int| 0 <= j < c.len() ==> #[trigger] lit_from(names, c[j], ks)
}

/// Some literal of `c` stands for `k`.
pub open spec fn has_lit_for(names: Seq<Seq<char>>, c: Seq<Literal>, k: int) -> bool {
    exists|j: int| 0 <= j < c.len() && #[trigger] denotes(names, c[j], k)
}

/// `l` stands for one of the integers.
pub open spec fn lit_from(names: Seq<Seq<char>>, l: Literal, ks: Seq<int>) -> bool {
    exists|i: int| 0 <= i < ks.len() && #[trigger] denotes(names, l, ks[i])
}

/// The instance is the formula that the integer clauses describe.
pub open spec fn instance_of(inst: Instance, cs: Seq<Seq<int>>) -> bool {
    &&& inst.wf()
    &&& inst.formula().len() == cs.len()
    &&& forall|j: int| 0 <= j < cs.len() ==> clause_denotes(inst.variables@, #[trigger] inst.formula()[j], cs[j])
}

/// The number of integers over all clauses.
pub open spec fn total_len(cs: Seq<Seq<int>>) -> nat
    decreases cs.len(),
{
    if cs.len() == 0 {
        0
    } else {
        total_len(cs.drop_last()) + cs.last().len()
    }
}

/// Clauses that the reader accepts: not empty, without a complementary
/// pair, without `0`.
pub open spec fn good_clauses(cs: Seq<Seq<int>>) -> bool {
    forall|j: int|
        0 <= j < cs.len() ==> (#[trigger] cs[j]).len() > 0 && !int_tautology(cs[j]) && forall|i: int|
            0 <= i < cs[j].len() ==> cs[j][i] != 0
}

/// Every integer fits an `i64`.
pub open spec fn in_i64(cs: Seq<Seq<int>>) -> bool {
    forall|j: int, i: int| 0 <= j < cs.len() && 0 <= i < cs[j].len() ==> i64::MIN <= #[trigger] cs[j][i] <= i64::MAX
}

proof fn lemma_read_good(ws: Seq<Seq<u8>>)
    ensures
        read_clauses(ws) matches ClauseRead::Clauses(done, cur) ==> good_clauses(done) && forall|i: int|
            0 <= i < cur.len() ==> cur[i] != 0,
        read_clauses(ws) matches ClauseRead::Clauses(done, cur) ==> in_i64(done) && forall|i: int|
            0 <= i < cur.len() ==> i64::MIN <= #[trigger] cur[i] <= i64::MAX,
    decreases ws.len(),
{
    if ws.len() > 0 {
        lemma_read_good(ws.drop_last());
        if read_clauses(ws.drop_last()) is Clauses {
            let done = read_clauses(ws.drop_last())->Clauses_0;
            let cur = read_clauses(ws.drop_last())->Clauses_1;
            if let ClauseRead::Clauses(d2, c2) = read_clauses(ws) {
                assert forall|j: int| 0 <= j < d2.len() implies (#[trigger] d2[j]).len() > 0 && !int_tautology(d2[j]) && forall|i: int|
                    0 <= i < d2[j].len() ==> d2[j][i] != 0 by {
                    if j < done.len() {
                        assert(d2[j] == done[j]);
                    }
                }
                assert forall|i: int| 0 <= i < c2.len() implies c2[i] != 0 && i64::MIN <= #[trigger] c2[i] <= i64::MAX by {
                    if i < cur.len() && c2.len() > cur.len() {
                        assert(c2[i] == cur[i]);
                    }
                }
                assert forall|j: int, i: int| 0 <= j < d2.len() && 0 <= i < d2[j].len() implies i64::MIN <= #[trigger] d2[j][i] <= i64::MAX by {
                    if j < done.len() {
                        assert(d2[j] == done[j]);
                    }
                }
            }
        }
    }
}

proof fn lemma_total_prefix(cs: Seq<Seq<int>>, j: int)
    requires
        0 <= j <= cs.len(),
    ensures
        total_len(cs.subrange(0, j)) <= total_len(cs),
    decreases cs.len() - j,
{
    if j < cs.len() {
        lemma_total_prefix(cs, j + 1);
        let p = cs.subrange(0, j + 1);
        assert(p.drop_last() == cs.subrange(0, j));
    } else {
        assert(cs.subrange(0, j) == cs);
    }
}

/// `names` keeps every name of `old_names` at its index.
pub open spec fn extends(names: Seq<Seq<char>>, old_names: Seq<Seq<char>>) -> bool {
    old_names.len() <= names.len() && forall|v: int| 0 <= v < old_names.len() ==> #[trigger] names[v] == old_names[v]
}

proof fn lemma_denotes_ext(old_names: Seq<Seq<char>>, names: Seq<Seq<char>>, l: Literal, k: int)
    requires
        denotes(old_names, l, k),
        extends(names, old_names),
    ensures
        denotes(names, l, k),
{
    assert(names[l.vidx() as int] == old_names[l.vidx() as int]);
}

proof fn lemma_has_lit_ext(old_names: Seq<Seq<char>>, names: Seq<Seq<char>>, c: Seq<Literal>, k: int)
    requires
        has_lit_for(old_names, c, k),
        extends(names, old_names),
    ensures
        has_lit_for(names, c, k),
{
    let j = choose|j: int| 0 <= j < c.len() && #[trigger] denotes(old_names, c[j], k);
    lemma_denotes_ext(old_names, names, c[j], k);
}

proof fn lemma_lit_from_ext(old_names: Seq<Seq<char>>, names: Seq<Seq<char>>, l: Literal, ks: Seq<int>)
    requires
        lit_from(old_names, l, ks),
        extends(names, old_names),
    ensures
        lit_from(names, l, ks),
{
    let i = choose|i: int| 0 <= i < ks.len() && #[trigger] denotes(old_names, l, ks[i]);
    lemma_denotes_ext(old_names, names, l, ks[i]);
}

proof fn lemma_clause_denotes_ext(old_names: Seq<Seq<char>>, names: Seq<Seq<char>>, c: Seq<Literal>, ks: Seq<int>)
    requires
        clause_denotes(old_names, c, ks),
        extends(names, old_names),
    ensures
        clause_denotes(names, c, ks),
{
    assert forall|i: int| 0 <= i < ks.len() implies #[trigger] has_lit_for(names, c, ks[i]) by {
        assert(has_lit_for(old_names, c, ks[i]));
        lemma_has_lit_ext(old_names, names, c, ks[i]);
    }
    assert forall|j: int| 0 <= j < c.len() implies #[trigger] lit_from(names, c[j], ks) by {
        assert(lit_from(old_names, c[j], ks));
        lemma_lit_from_ext(old_names, names, c[j], ks);
    }
}

/// The names in order, each kept at its first occurrence only.
pub open spec fn first_seen(s: Seq<Seq<char>>) -> Seq<Seq<char>>
    decreases s.len(),
{
    if s.len() == 0 {
        s
    } else {
        let d = first_seen(s.drop_last());
        if d.contains(s.last()) {
            d
        } else {
            d.push(s.last())
        }
    }
}

/// The names of the variables of the integers, in order.
pub open spec fn ints_names(ks: Seq<int>) -> Seq<Seq<char>> {
    ks.map_values(|k: int| dec(abs(k)))
}

/// The names of the variables of all clauses, in order.
pub open spec fn all_names(cs: Seq<Seq<int>>) -> Seq<Seq<char>>
    decreases cs.len(),
{
    if cs.len() == 0 {
        Seq::empty()
    } else {
        all_names(cs.drop_last()) + ints_names(cs.last())
    }
}

/// Every registered variable is an original one, in order.
pub open spec fn all_original(vars: VariableRegister) -> bool {
    &&& vars.original_variables@.len() == vars.count()
    &&& forall|i: int| 0 <= i < vars.original_variables@.len() ==> #[trigger] vars.original_variables@[i] == i
}

/// The literals for one clause's integers, registering new names.
fn build_literals(
    vars: &mut VariableRegister,
    ks: &Vec<i64>,
    Ghost(budget): Ghost<nat>,
    Ghost(prior): Ghost<Seq<Seq<char>>>,
) -> (r: Option<Vec<Literal>>)
    requires
        old(vars).wf(),
        old(vars).count() + ks@.len() <= budget,
        old(vars)@ == first_seen(prior),
        all_original(*old(vars)),
    ensures
        r is Some ==> final(vars)@ == first_seen(prior + ints_names(ks@.map_values(|k: i64| k as int))),
        all_original(*final(vars)),
        final(vars).wf(),
        extends(final(vars)@, old(vars)@),
        final(vars).count() <= old(vars).count() + ks@.len(),
        r matches Some(lits) ==> lits@.len() == ks@.len() && forall|a: int|
            0 <= a < ks@.len() ==> denotes(final(vars)@, #[trigger] lits@[a], ks@[a] as int),
        budget + 1 < MAX_LITERAL ==> r is Some,
{
    let mut lits: Vec<Literal> = Vec::new();
    let mut i: usize = 0;
    let ghost kints = ks@.map_values(|k: i64| k as int);
    assert(prior + ints_names(kints.subrange(0, 0)) =~= prior);
    while i < ks.len()
        invariant
            i <= ks@.len(),
            kints == ks@.map_values(|k: i64| k as int),
            vars.wf(),
            old(vars).count() + ks@.len() <= budget,
            vars.count() <= old(vars).count() + i,
            extends(vars@, old(vars)@),
            lits@.len() == i,
            forall|a: int| 0 <= a < i ==> denotes(vars@, #[trigger] lits@[a], ks@[a] as int),
            vars@ == first_seen(prior + ints_names(ks@.map_values(|k: i64| k as int).subrange(0, i as int))),
            all_original(*vars),
        decreases ks.len() - i,
    {
        let k = ks[i];
        let name = decimal(magnitude(k));
        if vars.len() >= 0x7fff_ffff_ffff_fffe {
            return None;
        }
        let ghost old_names = vars@;
        let ghost old_orig = vars.original_variables@;
        let ghost old_count = vars.count();
        let var = vars.ensure_original(name.as_str());
        let l = Literal::new(var, k > 0);
        lits.push(l);
        proof {
            let p0 = prior + ints_names(kints.subrange(0, i as int));
            let p1 = prior + ints_names(kints.subrange(0, i + 1));
            assert(p1 =~= p0.push(name@));
            assert(p1.drop_last() == p0);
            assert(name@ == dec(abs(kints[i as int])));
            if !old_names.contains(name@) {
                assert(vars.original_variables@ == old_orig.push(old_count as u64));
                assert forall|j: int| 0 <= j < vars.original_variables@.len() implies #[trigger] vars.original_variables@[j] == j by {
                    if j < old_orig.len() {
                        assert(vars.original_variables@[j] == old_orig[j]);
                    }
                }
            }
            assert(vars@ == old_names || vars@ == old_names.push(name@));
            assert(extends(vars@, old_names));
            assert forall|x: int| 0 <= x < old(vars)@.len() implies #[trigger] vars@[x] == old(vars)@[x] by {
                assert(old_names[x] == old(vars)@[x]);
            }
            assert forall|a: int| 0 <= a < i + 1 implies denotes(vars@, #[trigger] lits@[a], ks@[a] as int) by {
                if a < i {
                    lemma_denotes_ext(old_names, vars@, lits@[a], ks@[a] as int);
                }
            }
        }
        i = i + 1;
    }
    assert(kints.subrange(0, i as int) == kints);
    Some(lits)
}

fn magnitude(k: i64) -> (r: u64)
    ensures
        r == abs(k as int),
{
    if k < 0 {
        if k == -0x8000_0000_0000_0000i64 {
            0x8000_0000_0000_0000u64
        } else {
            (-k) as u64
        }
    } else {
        k as u64
    }
}

/// The instance that integer clauses describe; variables are registered by
/// name in order of first appearance. `None` when the variables would
/// outgrow a literal.
pub fn build_instance(cs: &Vec<Vec<i64>>) -> (r: Option<Instance>)
    requires
        good_clauses(ints_view(cs@)),
    ensures
        r matches Some(inst) ==> instance_of(inst, ints_view(cs@)),
        r matches Some(inst) ==> inst.variables@ == first_seen(all_names(ints_view(cs@))) && all_original(
            inst.variables,
        ),
        total_len(ints_view(cs@)) + 1 < MAX_LITERAL ==> r is Some,
{
    let ghost cv = ints_view(cs@);
    let mut vars = VariableRegister::new();
    let mut clauses: Vec<Clause> = Vec::new();
    let mut j: usize = 0;
    assert(cv.subrange(0, 0) =~= Seq::<Seq<int>>::empty());
    assert(vars@ =~= Seq::<Seq<char>>::empty());
    while j < cs.len()
        invariant
            j <= cs@.len(),
            cv == ints_view(cs@),
            good_clauses(cv),
            vars.wf(),
            vars.count() <= total_len(cv.subrange(0, j as int)),
            clauses@.len() == j,
            forall|c: int| 0 <= c < j ==> (#[trigger] clauses@[c]).wf() && clauses@[c]@.len() > 0,
            forall|c: int, k: int| 0 <= c < j && 0 <= k < clauses@[c]@.len() ==> (#[trigger] clauses@[c]@[k]).vidx() < vars.count(),
            forall|c: int| 0 <= c < j ==> clause_denotes(vars@, #[trigger] clauses@[c]@, cv[c]),
            vars@ == first_seen(all_names(cv.subrange(0, j as int))),
            all_original(vars),
        decreases cs.len() - j,
    {
        let ghost kv = cv[j as int];
        let ghost names0 = vars@;
        proof {
            lemma_total_prefix(cv, j + 1);
            let pj = cv.subrange(0, j + 1);
            assert(pj.drop_last() == cv.subrange(0, j as int));
            assert(pj.last() == kv);
            assert(kv == cs@[j as int]@.map_values(|k: i64| k as int));
        }
        proof {
            let pj = cv.subrange(0, j + 1);
            assert(all_names(pj) == all_names(pj.drop_last()) + ints_names(pj.last()));
        }
        let lits = match build_literals(&mut vars, &cs[j], Ghost(total_len(cv)), Ghost(all_names(cv.subrange(0, j as int)))) {
            Some(l) => l,
            None => {
                return None;
            },
        };
        proof {
            assert forall|a: int| 0 <= a < kv.len() implies denotes(vars@, #[trigger] lits@[a], kv[a]) by {
                assert(kv[a] == cs@[j as int]@[a] as int);
            }
            assert forall|c: int| 0 <= c < j implies clause_denotes(vars@, #[trigger] clauses@[c]@, cv[c]) by {
                lemma_clause_denotes_ext(names0, vars@, clauses@[c]@, cv[c]);
            }
            assert(lits@.len() > 0);
            assert(!tautology(lits@)) by {
                if tautology(lits@) {
                    let (a, b) = choose|a: int, b: int|
                        0 <= a < lits@.len() && 0 <= b < lits@.len() && (#[trigger] lits@[a]).vidx() == (#[trigger] lits@[b]).vidx()
                            && lits@[a] != lits@[b];
                    assert(denotes(vars@, lits@[a], kv[a]));
                    assert(denotes(vars@, lits@[b], kv[b]));
                    crate::decimal::lemma_dec_injective(abs(kv[a]), abs(kv[b]));
                    assert(lits@[a].pos() != lits@[b].pos());
                    assert(kv[a] != 0 && kv[b] != 0);
                    assert(kv[a] == -kv[b]);
                }
            }
        }
        let clause = Clause::new_with_id(j, &lits);
        proof {
            let cc = clause@;
            assert forall|y: int| 0 <= y < kv.len() implies #[trigger] has_lit_for(vars@, cc, kv[y]) by {
                assert(lits@.contains(lits@[y]));
                let x = choose|x: int| 0 <= x < cc.len() && cc[x] == lits@[y];
                assert(denotes(vars@, cc[x], kv[y]));
            }
            assert forall|x: int| 0 <= x < cc.len() implies #[trigger] lit_from(vars@, cc[x], kv) by {
                assert(cc.contains(cc[x]));
                let y = choose|y: int| 0 <= y < lits@.len() && lits@[y] == cc[x];
                assert(denotes(vars@, cc[x], kv[y]));
            }
            assert forall|x: int| 0 <= x < cc.len() implies (#[trigger] cc[x]).vidx() < vars.count() by {
                assert(cc.contains(cc[x]));
                let y = choose|y: int| 0 <= y < lits@.len() && lits@[y] == cc[x];
                assert(denotes(vars@, lits@[y], kv[y]));
            }
            assert(cc.len() > 0) by {
                assert(lits@.contains(lits@[0]));
            }
        }
        let ghost before = clauses@;
        clauses.push(clause);
        proof {
            assert forall|c: int| 0 <= c < j + 1 implies clause_denotes(vars@, #[trigger] clauses@[c]@, cv[c]) by {
                if c < j {
                    assert(clauses@[c] == before[c]);
                }
            }
        }
        j = j + 1;
    }
    assert(cv.subrange(0, j as int) == cv);
    let inst = Instance::new_from_clauses(clauses, vars);
    proof {
        assert forall|c: int| 0 <= c < cv.len() implies clause_denotes(inst.variables@, #[trigger] inst.formula()[c], cv[c]) by {
            assert(inst.formula()[c] == inst.clauses@[c]@);
        }
    }
    Some(inst)
}

/// Reads the header and the clauses, as integers, of a DIMACS text.
pub fn read_dimacs(text: &[u8]) -> (r: Result<(DimacsHeader, Vec<Vec<i64>>), DimacsError>)
    ensures
        match dimacs_of(text@) {
            Err(f) => r matches Err(e) && reports(e, f),
            Ok((v, c, cs)) => r matches Ok((h, cl)) && h.var_count == v && h.clause_count == c && ints_view(cl@) == cs,
        },
{
    let ws = lex(text);
    match parse_header(&ws) {
        Err(f) => Err(fault_error(f)),
        Ok(header) => match read_clause_words(&ws) {
            Err(f) => Err(fault_error(f)),
            Ok(cs) => Ok((header, cs)),
        },
    }
}

/// Reads a DIMACS text into an instance. The errors, and the clauses of an
/// instance, are those that `dimacs_of` gives; variables are named by their
/// DIMACS numbers.
pub fn parse_text(text: &[u8]) -> (r: Result<Instance, DimacsError>)
    ensures
        match dimacs_of(text@) {
            Err(f) => r matches Err(e) && reports(e, f),
            Ok((_, _, cs)) => {
                &&& r matches Ok(inst) ==> instance_of(inst, cs)
                &&& r matches Ok(inst) ==> inst.variables@ == first_seen(all_names(cs)) && all_original(inst.variables)
                &&& r matches Err(e) ==> e is InvalidLine
                &&& total_len(cs) + 1 < MAX_LITERAL ==> r is Ok
            },
        },
{
    match read_dimacs(text) {
        Err(e) => Err(e),
        Ok((_header, cs)) => {
            proof {
                let ws = words_of(text@);
                lemma_read_good(ws.subrange(4, ws.len() as int));
            }
            match build_instance(&cs) {
                Some(inst) => Ok(inst),
                None => Err(DimacsError::InvalidLine("too many variables".to_owned())),
            }
        },
    }
}

/// The error that reports a fault.
pub fn fault_error(f: ReadFault) -> (r: DimacsError)
    ensures
        reports(r, f),
{
    match f {
        ReadFault::Header => DimacsError::MalformedHeader,
        ReadFault::NotInteger => DimacsError::ParseError,
        ReadFault::EmptyClause => DimacsError::InvalidLine("empty clause".to_owned()),
        ReadFault::Tautology => DimacsError::InvalidLine("clause holds a literal and its complement".to_owned()),
    }
}


/// The decimal digits of `n`, as bytes.
pub open spec fn dec_bytes(n: nat) -> Seq<u8>
    decreases n,
{
    if n < 10 {
        seq![(48 + n) as u8]
    } else {
        dec_bytes(n / 10).push((48 + n % 10) as u8)
    }
}

/// The integer `k` as a DIMACS word.
pub open spec fn int_word(k: int) -> Seq<u8> {
    if k < 0 {
        seq![45u8] + dec_bytes(abs(k))
    } else {
        dec_bytes(abs(k))
    }
}

/// The integers of a clause, each followed by a space.
pub open spec fn clause_body(c: Seq<int>) -> Seq<u8>
    decreases c.len(),
{
    if c.len() == 0 {
        Seq::empty()
    } else {
        clause_body(c.drop_last()) + int_word(c.last()) + seq![32u8]
    }
}

/// A clause as a DIMACS line: its integers, then `0`.
pub open spec fn clause_line(c: Seq<int>) -> Seq<u8> {
    clause_body(c) + seq![48u8, 10u8]
}

pub open spec fn clause_lines(cs: Seq<Seq<int>>) -> Seq<u8>
    decreases cs.len(),
{
    if cs.len() == 0 {
        Seq::empty()
    } else {
        clause_lines(cs.drop_last()) + clause_line(cs.last())
    }
}

/// A DIMACS text: the header line, then one line per clause.
pub open spec fn render(var_count: nat, cs: Seq<Seq<int>>) -> Seq<u8> {
    seq![112u8, 32u8, 99u8, 110u8, 102u8, 32u8] + dec_bytes(var_count) + seq![32u8] + dec_bytes(cs.len()) + seq![10u8]
        + clause_lines(cs)
}

fn push_dec_bytes(out: &mut Vec<u8>, n: u64)
    ensures
        final(out)@ == old(out)@ + dec_bytes(n as nat),
    decreases n,
{
    if n >= 10 {
        push_dec_bytes(out, n / 10);
    }
    out.push((48 + n % 10) as u8);
    proof {
        if n >= 10 {
            assert(old(out)@ + dec_bytes(n as nat) =~= old(out)@ + dec_bytes((n / 10) as nat) + seq![(48 + n % 10) as u8]);
        } else {
            assert(n % 10 == n);
            assert(old(out)@ + dec_bytes(n as nat) =~= old(out)@.push((48 + n % 10) as u8));
        }
    }
}

fn push_int_word(out: &mut Vec<u8>, k: i64)
    ensures
        final(out)@ == old(out)@ + int_word(k as int),
{
    if k < 0 {
        out.push(45);
    }
    let ghost mid = out@;
    push_dec_bytes(out, magnitude(k));
    proof {
        if k < 0 {
            assert(mid == old(out)@.push(45u8));
            assert(old(out)@ + int_word(k as int) =~= mid + dec_bytes(abs(k as int)));
        } else {
            assert(mid == old(out)@);
        }
    }
}

/// Writes a DIMACS text: a header with the given variable count and the
/// number of clauses, then each clause on a line of its own.
pub fn format_dimacs(var_count: u64, clauses: &Vec<Vec<i64>>) -> (r: Vec<u8>)
    ensures
        r@ == render(var_count as nat, ints_view(clauses@)),
{
    let ghost cv = ints_view(clauses@);
    let mut out: Vec<u8> = Vec::new();
    out.push(112);
    out.push(32);
    out.push(99);
    out.push(110);
    out.push(102);
    out.push(32);
    push_dec_bytes(&mut out, var_count);
    out.push(32);
    push_dec_bytes(&mut out, clauses.len() as u64);
    out.push(10);
    let ghost head = out@;
    assert(head =~= seq![112u8, 32u8, 99u8, 110u8, 102u8, 32u8] + dec_bytes(var_count as nat) + seq![32u8] + dec_bytes(cv.len()) + seq![10u8]);
    let mut j: usize = 0;
    assert(cv.subrange(0, 0) =~= Seq::<Seq<int>>::empty());
    assert(out@ =~= head + clause_lines(cv.subrange(0, 0)));
    while j < clauses.len()
        invariant
            j <= clauses@.len(),
            cv == ints_view(clauses@),
            out@ == head + clause_lines(cv.subrange(0, j as int)),
        decreases clauses.len() - j,
    {
        let c = &clauses[j];
        let ghost kv = cv[j as int];
        assert(kv == c@.map_values(|k: i64| k as int));
        let ghost before = out@;
        let mut i: usize = 0;
        assert(kv.subrange(0, 0) =~= Seq::<int>::empty());
        assert(out@ =~= before + clause_body(kv.subrange(0, 0)));
        while i < c.len()
            invariant
                i <= c@.len(),
                kv == c@.map_values(|k: i64| k as int),
                out@ == before + clause_body(kv.subrange(0, i as int)),
            decreases c.len() - i,
        {
            let ghost o0 = out@;
            push_int_word(&mut out, c[i]);
            out.push(32);
            proof {
                let p = kv.subrange(0, i + 1);
                assert(p.drop_last() == kv.subrange(0, i as int));
                assert(p.last() == c@[i as int] as int);
                assert(out@ =~= before + clause_body(p));
            }
            i = i + 1;
        }
        out.push(48);
        out.push(10);
        proof {
            assert(kv.subrange(0, i as int) == kv);
            let pj = cv.subrange(0, j + 1);
            assert(pj.drop_last() == cv.subrange(0, j as int));
            assert(pj.last() == kv);
            assert(out@ =~= head + clause_lines(pj));
        }
        j = j + 1;
    }
    assert(cv.subrange(0, j as int) == cv);
    out
}


proof fn lemma_lex_concat(st: Lex, a: Seq<u8>, b: Seq<u8>)
    ensures
        lex_from(st, a + b) == lex_from(lex_from(st, a), b),
    decreases b.len(),
{
    if b.len() == 0 {
        assert(a + b =~= a);
    } else {
        assert((a + b).drop_last() =~= a + b.drop_last());
        assert((a + b).last() == b.last());
        lemma_lex_concat(st, a, b.drop_last());
    }
}

/// A word the lexer keeps whole: not empty, no white space.
pub open spec fn plain_word(w: Seq<u8>) -> bool {
    &&& w.len() > 0
    &&& forall|i: int| 0 <= i < w.len() ==> !is_space(#[trigger] w[i])
}

proof fn lemma_lex_word(st: Lex, w: Seq<u8>)
    requires
        st.cur.len() == 0,
        !st.comment,
        plain_word(w),
        st.line_start ==> w[0] != 99,
    ensures
        lex_from(st, w) == (Lex { words: st.words, cur: w, line_start: false, comment: false }),
    decreases w.len(),
{
    if w.len() == 1 {
        assert(w.drop_last() =~= Seq::<u8>::empty());
        assert(lex_from(st, w.drop_last()) == st);
        assert(w.last() == w[0]);
        assert(!is_space(w[0]));
        assert(st.cur.push(w[0]) =~= w);
    } else {
        let d = w.drop_last();
        assert(d[0] == w[0]);
        assert forall|i: int| 0 <= i < d.len() implies !is_space(#[trigger] d[i]) by {
            assert(d[i] == w[i]);
        }
        lemma_lex_word(st, d);
        assert(!is_space(w[w.len() - 1]));
        assert(d.push(w.last()) =~= w);
    }
}

/// A word followed by a space or a line end.
proof fn lemma_lex_word_end(st: Lex, w: Seq<u8>, b: u8)
    requires
        st.cur.len() == 0,
        !st.comment,
        plain_word(w),
        st.line_start ==> w[0] != 99,
        b == 32 || b == 10,
    ensures
        lex_from(st, w.push(b)) == (Lex { words: st.words.push(w), cur: Seq::empty(), line_start: b == 10, comment: false }),
{
    lemma_lex_word(st, w);
    assert(w.push(b).drop_last() =~= w);
}

proof fn lemma_dec_bytes(n: nat)
    ensures
        plain_word(dec_bytes(n)),
        all_digits(dec_bytes(n)),
        digits_value(dec_bytes(n)) == n,
        dec_bytes(n)[0] != 45 && dec_bytes(n)[0] != 43 && dec_bytes(n)[0] != 99,
    decreases n,
{
    if n < 10 {
        let d = dec_bytes(n);
        assert(d.drop_last() =~= Seq::<u8>::empty());
        assert(d.last() == (48 + n) as u8);
        assert(digits_value(d) == digits_value(d.drop_last()) * 10 + (d.last() - 48) as nat);
    }
    if n >= 10 {
        lemma_dec_bytes(n / 10);
        let d = dec_bytes(n);
        assert(d.drop_last() == dec_bytes(n / 10));
        assert(d.last() == (48 + n % 10) as u8);
        assert(digits_value(d) == digits_value(dec_bytes(n / 10)) * 10 + n % 10);
        assert(d[0] == dec_bytes(n / 10)[0]);
        assert forall|i: int| 0 <= i < d.len() implies is_digit(#[trigger] d[i]) by {
            if i < d.len() - 1 {
                assert(d[i] == dec_bytes(n / 10)[i]);
            }
        }
    }
}

proof fn lemma_int_word(k: int)
    requires
        i64::MIN <= k <= i64::MAX,
    ensures
        plain_word(int_word(k)),
        word_i64(int_word(k)) == Some(k),
{
    lemma_dec_bytes(abs(k));
    let w = int_word(k);
    if k < 0 {
        assert(w.drop_first() =~= dec_bytes(abs(k)));
        assert forall|i: int| 0 <= i < w.len() implies !is_space(#[trigger] w[i]) by {
            if i > 0 {
                assert(w[i] == dec_bytes(abs(k))[i - 1]);
                assert(is_digit(dec_bytes(abs(k))[i - 1]));
            }
        }
    } else {
        assert forall|i: int| 0 <= i < w.len() implies !is_space(#[trigger] w[i]) by {
            assert(is_digit(w[i]));
        }
    }
}

/// The words of a clause line.
pub open spec fn int_words(c: Seq<int>) -> Seq<Seq<u8>> {
    c.map_values(|k: int| int_word(k))
}

pub open spec fn clause_words(c: Seq<int>) -> Seq<Seq<u8>> {
    int_words(c).push(seq![48u8])
}

pub open spec fn lines_words(cs: Seq<Seq<int>>) -> Seq<Seq<u8>>
    decreases cs.len(),
{
    if cs.len() == 0 {
        Seq::empty()
    } else {
        lines_words(cs.drop_last()) + clause_words(cs.last())
    }
}

proof fn lemma_lex_body(ws: Seq<Seq<u8>>, ls: bool, c: Seq<int>)
    requires
        forall|i: int| 0 <= i < c.len() ==> i64::MIN <= #[trigger] c[i] <= i64::MAX,
    ensures
        lex_from(Lex { words: ws, cur: Seq::empty(), line_start: ls, comment: false }, clause_body(c)) == (Lex {
            words: ws + int_words(c),
            cur: Seq::empty(),
            line_start: if c.len() == 0 { ls } else { false },
            comment: false,
        }),
    decreases c.len(),
{
    let st = Lex { words: ws, cur: Seq::empty(), line_start: ls, comment: false };
    if c.len() == 0 {
        assert(ws + int_words(c) =~= ws);
    } else {
        let d = c.drop_last();
        assert forall|i: int| 0 <= i < d.len() implies i64::MIN <= #[trigger] d[i] <= i64::MAX by {
            assert(d[i] == c[i]);
        }
        lemma_lex_body(ws, ls, d);
        let w = int_word(c.last());
        lemma_int_word(c.last());
        lemma_lex_concat(st, clause_body(d), w.push(32u8));
        assert(clause_body(c) =~= clause_body(d) + w.push(32u8));
        let mid = lex_from(st, clause_body(d));
        lemma_lex_word_end(mid, w, 32u8);
        assert((ws + int_words(d)).push(w) =~= ws + int_words(c));
    }
}

proof fn lemma_lex_line(ws: Seq<Seq<u8>>, c: Seq<int>)
    requires
        forall|i: int| 0 <= i < c.len() ==> i64::MIN <= #[trigger] c[i] <= i64::MAX,
    ensures
        lex_from(Lex { words: ws, cur: Seq::empty(), line_start: true, comment: false }, clause_line(c)) == (Lex {
            words: ws + clause_words(c),
            cur: Seq::empty(),
            line_start: true,
            comment: false,
        }),
{
    let st = Lex { words: ws, cur: Seq::empty(), line_start: true, comment: false };
    lemma_lex_body(ws, true, c);
    lemma_lex_concat(st, clause_body(c), seq![48u8, 10u8]);
    let mid = lex_from(st, clause_body(c));
    assert(seq![48u8, 10u8] =~= seq![48u8].push(10u8));
    assert(plain_word(seq![48u8]));
    lemma_lex_word_end(mid, seq![48u8], 10u8);
    assert((ws + int_words(c)).push(seq![48u8]) =~= ws + clause_words(c));
}

proof fn lemma_lex_lines(ws: Seq<Seq<u8>>, cs: Seq<Seq<int>>)
    requires
        in_i64(cs),
    ensures
        lex_from(Lex { words: ws, cur: Seq::empty(), line_start: true, comment: false }, clause_lines(cs)) == (Lex {
            words: ws + lines_words(cs),
            cur: Seq::empty(),
            line_start: true,
            comment: false,
        }),
    decreases cs.len(),
{
    let st = Lex { words: ws, cur: Seq::empty(), line_start: true, comment: false };
    if cs.len() == 0 {
        assert(ws + lines_words(cs) =~= ws);
    } else {
        let d = cs.drop_last();
        assert forall|j: int, i: int| 0 <= j < d.len() && 0 <= i < d[j].len() implies i64::MIN <= #[trigger] d[j][i] <= i64::MAX by {
            assert(d[j] == cs[j]);
        }
        lemma_lex_lines(ws, d);
        lemma_lex_concat(st, clause_lines(d), clause_line(cs.last()));
        assert forall|i: int| 0 <= i < cs.last().len() implies i64::MIN <= #[trigger] cs.last()[i] <= i64::MAX by {
            assert(cs.last()[i] == cs[cs.len() - 1][i]);
        }
        lemma_lex_line(ws + lines_words(d), cs.last());
        assert(ws + lines_words(d) + clause_words(cs.last()) =~= ws + lines_words(cs));
    }
}

proof fn lemma_read_ints(w: Seq<Seq<u8>>, done: Seq<Seq<int>>, c: Seq<int>)
    requires
        read_clauses(w) == ClauseRead::Clauses(done, Seq::empty()),
        forall|i: int| 0 <= i < c.len() ==> i64::MIN <= #[trigger] c[i] <= i64::MAX && c[i] != 0,
    ensures
        read_clauses(w + int_words(c)) == ClauseRead::Clauses(done, c),
    decreases c.len(),
{
    if c.len() == 0 {
        assert(w + int_words(c) =~= w);
        assert(c =~= Seq::<int>::empty());
    } else {
        let d = c.drop_last();
        assert forall|i: int| 0 <= i < d.len() implies i64::MIN <= #[trigger] d[i] <= i64::MAX && d[i] != 0 by {
            assert(d[i] == c[i]);
        }
        lemma_read_ints(w, done, d);
        let full = w + int_words(c);
        assert(full.drop_last() =~= w + int_words(d));
        assert(full.last() == int_word(c.last()));
        lemma_int_word(c.last());
        assert(d.push(c.last()) =~= c);
    }
}

proof fn lemma_read_lines(cs: Seq<Seq<int>>)
    requires
        good_clauses(cs),
        in_i64(cs),
    ensures
        read_clauses(lines_words(cs)) == ClauseRead::Clauses(cs, Seq::empty()),
    decreases cs.len(),
{
    if cs.len() == 0 {
        assert(cs =~= Seq::<Seq<int>>::empty());
    } else {
        let d = cs.drop_last();
        assert forall|j: int| 0 <= j < d.len() implies (#[trigger] d[j]).len() > 0 && !int_tautology(d[j]) && forall|i: int|
            0 <= i < d[j].len() ==> d[j][i] != 0 by {
            assert(d[j] == cs[j]);
        }
        assert forall|j: int, i: int| 0 <= j < d.len() && 0 <= i < d[j].len() implies i64::MIN <= #[trigger] d[j][i] <= i64::MAX by {
            assert(d[j] == cs[j]);
        }
        lemma_read_lines(d);
        let c = cs.last();
        assert(c == cs[cs.len() - 1]);
        assert forall|i: int| 0 <= i < c.len() implies i64::MIN <= #[trigger] c[i] <= i64::MAX && c[i] != 0 by {
            assert(c[i] == cs[cs.len() - 1][i]);
        }
        lemma_read_ints(lines_words(d), d, c);
        let full = lines_words(d) + clause_words(c);
        assert(full.drop_last() =~= lines_words(d) + int_words(c));
        assert(full.last() == seq![48u8]);
        assert(word_i64(seq![48u8]) == Some(0int)) by {
            let z = seq![48u8];
            assert(all_digits(z));
            assert(z.drop_last() =~= Seq::<u8>::empty());
            assert(digits_value(z) == digits_value(z.drop_last()) * 10 + (z.last() - 48) as nat);
            assert(digits_value(z) == 0);
        }
        assert(d.push(c) =~= cs);
    }
}

/// A printed text reads back as the header and clauses it was printed
/// from.
pub proof fn lemma_render_read(v: nat, cs: Seq<Seq<int>>)
    requires
        v <= u64::MAX,
        cs.len() <= u64::MAX,
        good_clauses(cs),
        in_i64(cs),
    ensures
        dimacs_of(render(v, cs)) == Ok::<(nat, nat, Seq<Seq<int>>), ReadFault>((v, cs.len(), cs)),
{
    let dv = dec_bytes(v);
    let dc = dec_bytes(cs.len());
    lemma_dec_bytes(v);
    lemma_dec_bytes(cs.len());
    let p = seq![112u8];
    let cnf = seq![99u8, 110u8, 102u8];
    assert(plain_word(p));
    assert(plain_word(cnf));
    let text = render(v, cs);
    assert(text =~= p.push(32u8) + cnf.push(32u8) + dv.push(32u8) + dc.push(10u8) + clause_lines(cs));
    let s0 = lex_start();
    lemma_lex_concat(s0, p.push(32u8), cnf.push(32u8));
    lemma_lex_word_end(s0, p, 32u8);
    let s1 = lex_from(s0, p.push(32u8));
    lemma_lex_word_end(s1, cnf, 32u8);
    let s2 = lex_from(s0, p.push(32u8) + cnf.push(32u8));
    lemma_lex_concat(s0, p.push(32u8) + cnf.push(32u8), dv.push(32u8));
    lemma_lex_word_end(s2, dv, 32u8);
    let s3 = lex_from(s0, p.push(32u8) + cnf.push(32u8) + dv.push(32u8));
    lemma_lex_concat(s0, p.push(32u8) + cnf.push(32u8) + dv.push(32u8), dc.push(10u8));
    lemma_lex_word_end(s3, dc, 10u8);
    let head = p.push(32u8) + cnf.push(32u8) + dv.push(32u8) + dc.push(10u8);
    let s4 = lex_from(s0, head);
    let hw = seq![p, cnf, dv, dc];
    assert(s4.words =~= hw);
    lemma_lex_concat(s0, head, clause_lines(cs));
    lemma_lex_lines(hw, cs);
    let ws = words_of(text);
    assert(ws =~= hw + lines_words(cs));
    assert(ws[0] == p && ws[1] == cnf && ws[2] == dv && ws[3] == dc);
    assert(word_u64(dv) == Some(v));
    assert(word_u64(dc) == Some(cs.len()));
    assert(ws.subrange(4, ws.len() as int) =~= lines_words(cs));
    lemma_read_lines(cs);
}

/// Reading a DIMACS text, printing what was read and reading the print
/// gives the same header variable count and the same clauses.
pub proof fn lemma_read_print_read(text: Seq<u8>)
    requires
        dimacs_of(text) is Ok,
    ensures
        ({
            let (v, c, cs) = dimacs_of(text)->Ok_0;
            cs.len() <= u64::MAX ==> dimacs_of(render(v, cs)) == Ok::<(nat, nat, Seq<Seq<int>>), ReadFault>((v, cs.len(), cs))
        }),
{
    let ws = words_of(text);
    let (v, c, cs) = dimacs_of(text)->Ok_0;
    lemma_read_good(ws.subrange(4, ws.len() as int));
    if cs.len() <= u64::MAX {
        lemma_render_read(v, cs);
    }
}

} // verus!
