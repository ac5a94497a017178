//! The record codec: one record per line of text.
//!
//! A live record is written as `{"key":K,"data":"D"}` and a tombstone as
//! `{"key":K,"data":"D","deleted":true}`, where `K` is the key in decimal and
//! `D` is the data with `"`, `\`, line feed and carriage return escaped, so that
//! an encoded record never holds a line feed. Decoding also reads the escapes
//! `\t`, `\b`, `\f` and `\/`; a line that holds a `\uXXXX` escape is not read,
//! and replay skips it.
use vstd::prelude::*;

use crate::text::{chars_of, push_char};

verus! {

/// A record as it stands in a store's log.
#[derive(Clone, Debug, PartialEq, Eq)]
pub struct Record {
    pub key: i32,
    pub data: String,
    pub tombstone: bool,
}

/// The mathematical content of a record.
pub struct RecordModel {
    pub key: i32,
    pub data: Seq<char>,
    pub tombstone: bool,
}

impl View for Record {
    type V = RecordModel;

    open spec fn view(&self) -> RecordModel {
        RecordModel { key: self.key, data: self.data@, tombstone: self.tombstone }
    }
}

/// Why a line could not be decoded.
#[derive(PartialEq, Eq, Structural, Clone, Copy, Debug)]
pub enum DecodeError {
    Malformed,
}

pub open spec fn is_digit(c: char) -> bool {
    '0' <= c && c <= '9'
}

pub open spec fn digit_value(c: char) -> nat {
    ((c as u32) - ('0' as u32)) as nat
}

pub open spec fn digit_char(d: nat) -> char {
    if d == 0 {
        '0'
    } else if d == 1 {
        '1'
    } else if d == 2 {
        '2'
    } else if d == 3 {
        '3'
    } else if d == 4 {
        '4'
    } else if d == 5 {
        '5'
    } else if d == 6 {
        '6'
    } else if d == 7 {
        '7'
    } else if d == 8 {
        '8'
    } else {
        '9'
    }
}

/// The decimal digits of `n`, most significant first, without leading zeros.
pub open spec fn decimal(n: nat) -> Seq<char>
    decreases n,
{
    if n < 10 {
        seq![digit_char(n)]
    } else {
        decimal(n / 10).push(digit_char(n % 10))
    }
}

/// The number that a string of decimal digits denotes.
pub open spec fn digits_value(s: Seq<char>) -> nat
    decreases s.len(),
{
    if s.len() == 0 {
        0
    } else {
        digits_value(s.drop_last()) * 10 + digit_value(s.last())
    }
}

pub open spec fn pow10(n: nat) -> nat
    decreases n,
{
    if n == 0 {
        1
    } else {
        10 * pow10((n - 1) as nat)
    }
}

/// A key as text: an optional minus sign, then its decimal digits.
pub open spec fn int_text(k: i32) -> Seq<char> {
    if k < 0 {
        seq!['-'] + decimal((-k) as nat)
    } else {
        decimal(k as nat)
    }
}

pub open spec fn escape_char(c: char) -> Seq<char> {
    if c == '"' {
        seq!['\\', '"']
    } else if c == '\\' {
        seq!['\\', '\\']
    } else if c == '\n' {
        seq!['\\', 'n']
    } else if c == '\r' {
        seq!['\\', 'r']
    } else {
        seq![c]
    }
}

/// The data of a record as it stands between the quotes of a line.
pub open spec fn escape(s: Seq<char>) -> Seq<char>
    decreases s.len(),
{
    if s.len() == 0 {
        Seq::empty()
    } else {
        escape_char(s[0]) + escape(s.drop_first())
    }
}

/// The letters that may follow a backslash. Encoding writes only the first
/// four; the others are read too, as JSON writes them.
pub open spec fn is_escape_letter(c: char) -> bool {
    c == '"' || c == '\\' || c == 'n' || c == 'r' || c == 't' || c == 'b' || c == 'f' || c == '/'
}

pub open spec fn unescape_letter(c: char) -> char {
    if c == 'n' {
        '\n'
    } else if c == 'r' {
        '\r'
    } else if c == 't' {
        '\t'
    } else if c == 'b' {
        '\u{8}'
    } else if c == 'f' {
        '\u{c}'
    } else {
        c
    }
}

pub open spec fn key_open() -> Seq<char> {
    seq!['{', '"', 'k', 'e', 'y', '"', ':']
}

pub open spec fn data_open() -> Seq<char> {
    seq![',', '"', 'd', 'a', 't', 'a', '"', ':', '"']
}

pub open spec fn live_close() -> Seq<char> {
    seq!['}']
}

pub open spec fn tomb_close() -> Seq<char> {
    seq![',', '"', 'd', 'e', 'l', 'e', 't', 'e', 'd', '"', ':', 't', 'r', 'u', 'e', '}']
}

/// The line (without its line feed) that encodes a record.
#[verifier::opaque]
pub open spec fn encode_line(r: RecordModel) -> Seq<char> {
    key_open() + int_text(r.key) + data_open() + escape(r.data) + seq!['"'] + (if r.tombstone {
        tomb_close()
    } else {
        live_close()
    })
}

pub open spec fn starts_at(line: Seq<char>, p: int, lit: Seq<char>) -> bool {
    0 <= p && p + lit.len() <= line.len() && line.subrange(p, p + lit.len()) == lit
}

/// The index of the first position at or after `i` that holds no digit.
pub open spec fn digits_end(line: Seq<char>, i: int) -> int
    decreases line.len() - i,
{
    if 0 <= i < line.len() && is_digit(line[i]) {
        digits_end(line, i + 1)
    } else {
        i
    }
}

/// The key written at `p`, and the position just after it.
pub open spec fn parse_int(line: Seq<char>, p: int) -> Option<(i32, int)> {
    let neg = 0 <= p < line.len() && line[p] == '-';
    let q = if neg {
        p + 1
    } else {
        p
    };
    let e = digits_end(line, q);
    let v = digits_value(line.subrange(q, e));
    if e <= q || e - q > 10 {
        None
    } else if neg {
        if v <= 2147483648 {
            Some(((-v) as i32, e))
        } else {
            None
        }
    } else {
        if v <= 2147483647 {
            Some((v as i32, e))
        } else {
            None
        }
    }
}

/// The text from `i` up to the next unescaped quote, unescaped, and the position
/// of that quote.
pub open spec fn unescape(line: Seq<char>, i: int) -> Option<(Seq<char>, int)>
    decreases line.len() - i,
{
    if i < 0 || i >= line.len() {
        None
    } else if line[i] == '"' {
        Some((Seq::empty(), i))
    } else if line[i] == '\\' {
        if i + 1 < line.len() && is_escape_letter(line[i + 1]) {
            match unescape(line, i + 2) {
                Some((t, e)) => Some((seq![unescape_letter(line[i + 1])] + t, e)),
                None => None,
            }
        } else {
            None
        }
    } else {
        match unescape(line, i + 1) {
            Some((t, e)) => Some((seq![line[i]] + t, e)),
            None => None,
        }
    }
}

/// What a line decodes to, if it is a well-formed record.
#[verifier::opaque]
pub open spec fn decode_line(line: Seq<char>) -> Option<RecordModel> {
    if !starts_at(line, 0, key_open()) {
        None
    } else {
        match parse_int(line, 7) {
            None => None,
            Some((k, p)) => {
                if !starts_at(line, p, data_open()) {
                    None
                } else {
                    match unescape(line, p + 9) {
                        None => None,
                        Some((d, q)) => {
                            let rest = line.subrange(q + 1, line.len() as int);
                            if rest == live_close() {
                                Some(RecordModel { key: k, data: d, tombstone: false })
                            } else if rest == tomb_close() {
                                Some(RecordModel { key: k, data: d, tombstone: true })
                            } else {
                                None
                            }
                        }
                    }
                }
            }
        }
    }
}


proof fn lemma_digit_char(d: nat)
    requires
        d < 10,
    ensures
        is_digit(digit_char(d)),
        digit_value(digit_char(d)) == d,
        digit_char(d) != '\n',
{
}

proof fn lemma_decimal(n: nat)
    ensures
        decimal(n).len() >= 1,
        forall|i: int| 0 <= i < decimal(n).len() ==> is_digit(#[trigger] decimal(n)[i]),
        digits_value(decimal(n)) == n,
    decreases n,
{
    if n < 10 {
        lemma_digit_char(n);
        assert(decimal(n).drop_last() =~= Seq::<char>::empty());
        assert(digits_value(decimal(n).drop_last()) == 0);
        assert(decimal(n).last() == digit_char(n));
    } else {
        lemma_decimal(n / 10);
        lemma_digit_char(n % 10);
        assert(decimal(n).drop_last() =~= decimal(n / 10));
        assert(decimal(n).last() == digit_char(n % 10));
        assert((n / 10) * 10 + n % 10 == n) by (nonlinear_arith);
    }
}

proof fn lemma_decimal_len(n: nat, k: nat)
    requires
        k >= 1,
        n < pow10(k),
    ensures
        decimal(n).len() <= k,
    decreases n,
{
    if n >= 10 {
        let k1 = (k - 1) as nat;
        if k1 == 0 {
            assert(pow10(k) == 10) by {
                reveal_with_fuel(pow10, 2);
            }
        } else {
            assert(n / 10 < pow10(k1)) by (nonlinear_arith)
                requires
                    n < 10 * pow10(k1),
            ;
            lemma_decimal_len(n / 10, k1);
        }
    }
}

proof fn lemma_digits_end(line: Seq<char>, i: int, j: int)
    requires
        0 <= i <= j <= line.len(),
        forall|t: int| i <= t < j ==> is_digit(#[trigger] line[t]),
        j == line.len() || !is_digit(line[j]),
    ensures
        digits_end(line, i) == j,
    decreases j - i,
{
    if i < j {
        lemma_digits_end(line, i + 1, j);
    }
}

proof fn lemma_escape_push(s: Seq<char>, c: char)
    ensures
        escape(s.push(c)) == escape(s) + escape_char(c),
    decreases s.len(),
{
    if s.len() == 0 {
        assert(s.push(c).drop_first() =~= Seq::<char>::empty());
        assert(s.push(c)[0] == c);
        assert(escape(s.push(c).drop_first()) == Seq::<char>::empty());
        assert(escape(s) == Seq::<char>::empty());
        assert(escape(s.push(c)) =~= escape(s) + escape_char(c));
    } else {
        assert(s.push(c).drop_first() =~= s.drop_first().push(c));
        lemma_escape_push(s.drop_first(), c);
        assert(s.push(c)[0] == s[0]);
        assert(escape(s.push(c)) == escape_char(s[0]) + escape(s.drop_first().push(c)));
        assert(escape(s) == escape_char(s[0]) + escape(s.drop_first()));
        let a = escape_char(s[0]);
        let b = escape(s.drop_first());
        let d = escape_char(c);
        assert(escape(s.drop_first().push(c)) == b + d);
        assert(a + (b + d) =~= (a + b) + d);
    }
}

proof fn lemma_escape_no_newline(s: Seq<char>)
    ensures
        forall|i: int| 0 <= i < escape(s).len() ==> #[trigger] escape(s)[i] != '\n',
    decreases s.len(),
{
    if s.len() > 0 {
        lemma_escape_no_newline(s.drop_first());
        let e = escape_char(s[0]);
        assert forall|i: int| 0 <= i < escape(s).len() implies #[trigger] escape(s)[i] != '\n' by {
            if i >= e.len() {
                assert(escape(s)[i] == escape(s.drop_first())[i - e.len()]);
            }
        }
    }
}

proof fn lemma_unescape(line: Seq<char>, i: int, s: Seq<char>)
    requires
        0 <= i,
        i + escape(s).len() < line.len(),
        line.subrange(i, i + escape(s).len()) == escape(s),
        line[i + escape(s).len()] == '"',
    ensures
        unescape(line, i) == Some((s, i + escape(s).len())),
    decreases s.len(),
{
    if s.len() == 0 {
        assert(s =~= Seq::<char>::empty());
    } else {
        let c = s[0];
        let e = escape_char(c);
        let rest = s.drop_first();
        assert(escape(s) == e + escape(rest));
        assert(line[i] == escape(s)[0]);
        assert forall|t: int| 0 <= t < e.len() implies line[i + t] == #[trigger] e[t] by {
            assert(line[i + t] == line.subrange(i, i + escape(s).len())[t]);
        }
        assert(line.subrange(i + e.len(), i + e.len() + escape(rest).len()) =~= escape(rest)) by {
            assert forall|t: int| 0 <= t < escape(rest).len() implies line.subrange(
                i + e.len(),
                i + e.len() + escape(rest).len(),
            )[t] == #[trigger] escape(rest)[t] by {
                assert(line[i + e.len() + t] == line.subrange(i, i + escape(s).len())[e.len() + t]);
            }
        }
        lemma_unescape(line, i + e.len(), rest);
        assert(seq![c] + rest =~= s);
    }
}

proof fn lemma_parse_int(line: Seq<char>, p: int, k: i32)
    requires
        0 <= p,
        p + int_text(k).len() < line.len(),
        line.subrange(p, p + int_text(k).len()) == int_text(k),
        line[p + int_text(k).len()] == ',',
    ensures
        parse_int(line, p) == Some((k, p + int_text(k).len())),
{
    let n: nat = if k < 0 {
        (-k) as nat
    } else {
        k as nat
    };
    let q = if k < 0 {
        p + 1
    } else {
        p
    };
    let e = q + decimal(n).len();
    lemma_decimal(n);
    assert(pow10(10) == 10000000000) by {
        reveal_with_fuel(pow10, 11);
    }
    lemma_decimal_len(n, 10);
    assert(line.subrange(q, e) =~= decimal(n)) by {
        assert forall|t: int| 0 <= t < decimal(n).len() implies line.subrange(q, e)[t]
            == #[trigger] decimal(n)[t] by {
            assert(line[q + t] == line.subrange(p, p + int_text(k).len())[q - p + t]);
        }
    }
    if k < 0 {
        assert(line[p] == line.subrange(p, p + int_text(k).len())[0]);
    } else {
        assert(line[p] == line.subrange(p, p + int_text(k).len())[0]);
        assert(line[p] != '-');
    }
    assert forall|t: int| q <= t < e implies is_digit(#[trigger] line[t]) by {
        assert(line[t] == line.subrange(q, e)[t - q]);
    }
    lemma_digits_end(line, q, e);
}

/// Decoding the line that encodes a record gives that record back.
pub proof fn lemma_round_trip(r: RecordModel)
    ensures
        decode_line(encode_line(r)) == Some(r),
{
    reveal(decode_line);
    reveal(encode_line);
    let line = encode_line(r);
    let t = int_text(r.key);
    let e = escape(r.data);
    let close = if r.tombstone {
        tomb_close()
    } else {
        live_close()
    };
    let p: int = 7 + t.len() as int;
    let q: int = p + 9 + e.len();
    assert(line.subrange(0, 7) =~= key_open());
    assert(line.subrange(7, p) =~= t);
    assert(line[p] == ',');
    lemma_parse_int(line, 7, r.key);
    assert(line.subrange(p, p + 9) =~= data_open());
    assert(line.subrange(p + 9, q) =~= e);
    assert(line[q] == '"');
    lemma_unescape(line, p + 9, r.data);
    assert(line.subrange(q + 1, line.len() as int) =~= close);
    if !r.tombstone {
        assert(close != tomb_close()) by {
            assert(close.len() != tomb_close().len());
        }
    }
}

/// An encoded record holds no line feed.
pub proof fn lemma_encode_no_newline(r: RecordModel)
    ensures
        forall|i: int| 0 <= i < encode_line(r).len() ==> #[trigger] encode_line(r)[i] != '\n',
{
    reveal(encode_line);
    let n: nat = if r.key < 0 {
        (-r.key) as nat
    } else {
        r.key as nat
    };
    lemma_decimal(n);
    lemma_escape_no_newline(r.data);
    let line = encode_line(r);
    let t = int_text(r.key);
    let e = escape(r.data);
    let p: int = 7 + t.len() as int;
    let q: int = p + 9 + e.len();
    assert forall|i: int| 0 <= i < line.len() implies #[trigger] line[i] != '\n' by {
        if i < 7 {
        } else if i < p {
            assert(line[i] == t[i - 7]);
            if r.key < 0 && i > 7 {
                assert(t[i - 7] == decimal(n)[i - 8]);
            }
        } else if i < p + 9 {
        } else if i < q {
            assert(line[i] == e[i - p - 9]);
        } else {
        }
    }
}


pub(crate) fn push_all(out: &mut Vec<char>, lit: &Vec<char>)
    ensures
        final(out)@ == old(out)@ + lit@,
{
    let mut i: usize = 0;
    while i < lit.len()
        invariant
            i <= lit.len(),
            out@ == old(out)@ + lit@.take(i as int),
        decreases lit.len() - i,
    {
        out.push(lit[i]);
        i = i + 1;
        assert(out@ =~= old(out)@ + lit@.take(i as int));
    }
    assert(lit@.take(i as int) =~= lit@);
}

fn key_open_chars() -> (r: Vec<char>)
    ensures
        r@ == key_open(),
{
    let r = vec!['{', '"', 'k', 'e', 'y', '"', ':'];
    assert(r@ =~= key_open());
    r
}

fn data_open_chars() -> (r: Vec<char>)
    ensures
        r@ == data_open(),
{
    let r = vec![',', '"', 'd', 'a', 't', 'a', '"', ':', '"'];
    assert(r@ =~= data_open());
    r
}

fn live_close_chars() -> (r: Vec<char>)
    ensures
        r@ == live_close(),
{
    let r = vec!['}'];
    assert(r@ =~= live_close());
    r
}

fn tomb_close_chars() -> (r: Vec<char>)
    ensures
        r@ == tomb_close(),
{
    let r = vec![',', '"', 'd', 'e', 'l', 'e', 't', 'e', 'd', '"', ':', 't', 'r', 'u', 'e', '}'];
    assert(r@ =~= tomb_close());
    r
}

fn digit_to_char(d: u32) -> (c: char)
    requires
        d < 10,
    ensures
        c == digit_char(d as nat),
{
    if d == 0 {
        '0'
    } else if d == 1 {
        '1'
    } else if d == 2 {
        '2'
    } else if d == 3 {
        '3'
    } else if d == 4 {
        '4'
    } else if d == 5 {
        '5'
    } else if d == 6 {
        '6'
    } else if d == 7 {
        '7'
    } else if d == 8 {
        '8'
    } else {
        '9'
    }
}

fn push_decimal(n: u32, out: &mut Vec<char>)
    ensures
        final(out)@ == old(out)@ + decimal(n as nat),
    decreases n,
{
    if n >= 10 {
        push_decimal(n / 10, out);
        out.push(digit_to_char(n % 10));
        assert(out@ =~= old(out)@ + decimal(n as nat));
    } else {
        out.push(digit_to_char(n));
        assert(out@ =~= old(out)@ + decimal(n as nat));
    }
}

fn push_escaped(data: &str, out: &mut Vec<char>)
    ensures
        final(out)@ == old(out)@ + escape(data@),
{
    let cs = chars_of(data);
    let mut i: usize = 0;
    while i < cs.len()
        invariant
            i <= cs.len(),
            cs@ == data@,
            out@ == old(out)@ + escape(cs@.take(i as int)),
        decreases cs.len() - i,
    {
        let c = cs[i];
        proof {
            lemma_escape_push(cs@.take(i as int), c);
            assert(cs@.take(i as int).push(c) =~= cs@.take(i + 1));
        }
        if c == '"' {
            out.push('\\');
            out.push('"');
        } else if c == '\\' {
            out.push('\\');
            out.push('\\');
        } else if c == '\n' {
            out.push('\\');
            out.push('n');
        } else if c == '\r' {
            out.push('\\');
            out.push('r');
        } else {
            out.push(c);
        }
        i = i + 1;
        assert(out@ =~= old(out)@ + escape(cs@.take(i as int)));
    }
    assert(cs@.take(i as int) =~= data@);
}

/// Encodes a record as a line of text, without the line feed.
pub fn encode(r: &Record) -> (line: Vec<char>)
    ensures
        line@ == encode_line(r@),
        forall|i: int| 0 <= i < line@.len() ==> #[trigger] line@[i] != '\n',
{
    let mut out: Vec<char> = Vec::new();
    push_all(&mut out, &key_open_chars());
    if r.key < 0 {
        out.push('-');
        let n: u32 = (0 - (r.key as i64)) as u32;
        push_decimal(n, &mut out);
    } else {
        push_decimal(r.key as u32, &mut out);
    }
    push_all(&mut out, &data_open_chars());
    push_escaped(r.data.as_str(), &mut out);
    out.push('"');
    if r.tombstone {
        push_all(&mut out, &tomb_close_chars());
    } else {
        push_all(&mut out, &live_close_chars());
    }
    proof {
        reveal(encode_line);
        assert(out@ =~= encode_line(r@));
        lemma_encode_no_newline(r@);
    }
    out
}


fn matches_at(line: &Vec<char>, p: usize, lit: &Vec<char>) -> (r: bool)
    ensures
        r == starts_at(line@, p as int, lit@),
{
    if p > line.len() || lit.len() > line.len() - p {
        return false;
    }
    let mut i: usize = 0;
    while i < lit.len()
        invariant
            i <= lit.len(),
            p + lit.len() <= line.len(),
            forall|t: int| 0 <= t < i ==> line@[p + t] == lit@[t],
        decreases lit.len() - i,
    {
        if line[p + i] != lit[i] {
            assert(line@.subrange(p as int, p + lit.len())[i as int] != lit@[i as int]);
            return false;
        }
        i = i + 1;
    }
    assert(line@.subrange(p as int, p + lit.len()) =~= lit@);
    true
}

fn is_digit_char(c: char) -> (r: bool)
    ensures
        r == is_digit(c),
{
    '0' <= c && c <= '9'
}

proof fn lemma_pow10_mono(a: nat, b: nat)
    requires
        a <= b,
    ensures
        pow10(a) <= pow10(b),
    decreases b,
{
    if a < b {
        lemma_pow10_mono(a, (b - 1) as nat);
    }
}

fn parse_key(line: &Vec<char>, p: usize) -> (r: Option<(i32, usize)>)
    requires
        p <= line.len(),
    ensures
        match r {
            Some((k, e)) => parse_int(line@, p as int) == Some((k, e as int)),
            None => parse_int(line@, p as int) is None,
        },
{
    let neg = p < line.len() && line[p] == '-';
    let q: usize = if neg {
        p + 1
    } else {
        p
    };
    let mut i: usize = q;
    let mut acc: u64 = 0;
    proof {
        assert(line@.subrange(q as int, q as int) =~= Seq::<char>::empty());
    }
    while i < line.len() && is_digit_char(line[i])
        invariant
            p <= line.len(),
            neg == (p < line.len() && line@[p as int] == '-'),
            q == (if neg { p + 1 } else { p as int }),
            q <= i <= line.len(),
            i - q <= 10,
            forall|t: int| q <= t < i ==> is_digit(#[trigger] line@[t]),
            digits_end(line@, q as int) == digits_end(line@, i as int),
            acc == digits_value(line@.subrange(q as int, i as int)),
            acc < pow10((i - q) as nat),
        decreases line.len() - i,
    {
        if i - q == 10 {
            proof {
                assert(digits_end(line@, i as int) == digits_end(line@, i + 1));
                assert(digits_end(line@, i + 1) >= i + 1) by {
                    lemma_digits_end_ge(line@, i + 1);
                }
                let ghost e = digits_end(line@, q as int);
                assert(e - q > 10);
                let ghost sneg = 0 <= p < line@.len() && line@[p as int] == '-';
                assert(sneg == neg);
                let ghost sq = if sneg { p + 1 } else { p as int };
                assert(sq == q);
                assert(parse_int(line@, p as int) is None);
            }
            return None;
        }
        let d = (line[i] as u32) - ('0' as u32);
        proof {
            lemma_pow10_mono((i - q) as nat, 9);
            assert(pow10(9) == 1000000000) by {
                reveal_with_fuel(pow10, 10);
            }
            assert(line@.subrange(q as int, i + 1).drop_last() =~= line@.subrange(q as int, i as int));
            assert(acc * 10 + d < 10 * pow10((i - q) as nat)) by (nonlinear_arith)
                requires
                    acc < pow10((i - q) as nat),
                    d < 10,
            ;
        }
        acc = acc * 10 + d as u64;
        i = i + 1;
    }
    proof {
        lemma_digits_end(line@, i as int, i as int);
    }
    if i == q {
        return None;
    }
    if neg {
        if acc <= 2147483648 {
            Some(((0 - (acc as i64)) as i32, i))
        } else {
            None
        }
    } else {
        if acc <= 2147483647 {
            Some((acc as i32, i))
        } else {
            None
        }
    }
}

proof fn lemma_digits_end_ge(line: Seq<char>, i: int)
    ensures
        digits_end(line, i) >= i,
    decreases line.len() - i,
{
    if 0 <= i < line.len() && is_digit(line[i]) {
        lemma_digits_end_ge(line, i + 1);
    }
}

proof fn lemma_unescape_end(line: Seq<char>, i: int)
    ensures
        unescape(line, i) matches Some((_, e)) ==> e < line.len(),
    decreases line.len() - i,
{
    if 0 <= i < line.len() && line[i] != '"' {
        lemma_unescape_end(line, i + 1);
        if i + 1 < line.len() {
            lemma_unescape_end(line, i + 2);
        }
    }
}

pub open spec fn prepend(out: Seq<char>, r: Option<(Seq<char>, int)>) -> Option<(Seq<char>, int)> {
    match r {
        Some((t, e)) => Some((out + t, e)),
        None => None,
    }
}

fn unescape_at(line: &Vec<char>, start: usize) -> (r: Option<(String, usize)>)
    ensures
        match r {
            Some((d, e)) => unescape(line@, start as int) == Some((d@, e as int)) && e < line@.len(),
            None => unescape(line@, start as int) is None,
        },
{
    let mut out = String::new();
    let mut i: usize = start;
    while i < line.len()
        invariant
            start <= i,
            unescape(line@, start as int) == prepend(out@, unescape(line@, i as int)),
        decreases line.len() - i,
    {
        let c = line[i];
        if c == '"' {
            assert(out@ + Seq::<char>::empty() =~= out@);
            proof {
                lemma_unescape_end(line@, start as int);
            }
            return Some((out, i));
        } else if c == '\\' {
            if i + 1 < line.len() {
                let x = line[i + 1];
                if x == '"' || x == '\\' || x == 'n' || x == 'r' || x == 't' || x == 'b' || x == 'f'
                    || x == '/' {
                    let u = if x == 'n' {
                        '\n'
                    } else if x == 'r' {
                        '\r'
                    } else if x == 't' {
                        '\t'
                    } else if x == 'b' {
                        '\u{8}'
                    } else if x == 'f' {
                        '\u{c}'
                    } else {
                        x
                    };
                    proof {
                        let ghost o = out@;
                        assert forall|t: Seq<char>| o + (seq![u] + t) =~= o.push(u) + t by {}
                    }
                    push_char(&mut out, u);
                    i = i + 2;
                } else {
                    return None;
                }
            } else {
                return None;
            }
        } else {
            proof {
                let ghost o = out@;
                assert forall|t: Seq<char>| o + (seq![c] + t) =~= o.push(c) + t by {}
            }
            push_char(&mut out, c);
            i = i + 1;
        }
    }
    None
}

/// Decodes one line (without its line feed) into a record.
pub fn decode(line: &Vec<char>) -> (r: Result<Record, DecodeError>)
    ensures
        match r {
            Ok(rec) => decode_line(line@) == Some(rec@),
            Err(_) => decode_line(line@) is None,
        },
{
    proof {
        reveal(decode_line);
    }
    if !matches_at(line, 0, &key_open_chars()) {
        return Err(DecodeError::Malformed);
    }
    let (key, p) = match parse_key(line, 7) {
        Some(kp) => kp,
        None => {
            return Err(DecodeError::Malformed);
        },
    };
    if !matches_at(line, p, &data_open_chars()) {
        return Err(DecodeError::Malformed);
    }
    let (data, q) = match unescape_at(line, p + 9) {
        Some(dq) => dq,
        None => {
            return Err(DecodeError::Malformed);
        },
    };
    let live = live_close_chars();
    let tomb = tomb_close_chars();
    if line.len() - (q + 1) == live.len() && matches_at(line, q + 1, &live) {
        proof {
            assert(line@.subrange(q + 1, line@.len() as int) =~= live_close());
        }
        Ok(Record { key, data, tombstone: false })
    } else if line.len() - (q + 1) == tomb.len() && matches_at(line, q + 1, &tomb) {
        proof {
            assert(line@.subrange(q + 1, line@.len() as int) =~= tomb_close());
            assert(live_close() != tomb_close()) by {
                assert(live_close().len() != tomb_close().len());
            }
        }
        Ok(Record { key, data, tombstone: true })
    } else {
        proof {
            let rest = line@.subrange(q + 1, line@.len() as int);
            if rest == live_close() {
                assert(line@.subrange(q + 1, q + 1 + live@.len()) =~= rest);
            }
            if rest == tomb_close() {
                assert(line@.subrange(q + 1, q + 1 + tomb@.len()) =~= rest);
            }
        }
        Err(DecodeError::Malformed)
    }
}

} // verus!
