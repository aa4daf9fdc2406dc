//! The payload codec.
//!
//! `encode` renders a record to a stable, human-inspectable textual payload:
//! an object with the record's field names, the entries as nested objects,
//! and string fields escaped so that the rendering is unambiguous.  A record
//! is representable exactly when its byte strings hold no control byte other
//! than newline, tab and carriage return; on any other byte `encode` reports
//! an `EncodeError` and the session policy decides what happens next.
//!
//! `decode` is the matching parser: it accepts exactly the payloads `encode`
//! produces, and the round-trip law `lemma_encode_decode` proves that
//! decoding an encoded record gives the record back.

use vstd::prelude::*;

use crate::record::{EntryModel, LogEntry, LogRecord, RecordModel};

verus! {

/// A record held a byte the textual payload format cannot represent.
#[derive(Debug, PartialEq, Eq, Structural)]
pub enum EncodeError {
    UnrepresentableByte,
}

/// A byte a string field may hold: printable range, newline, tab or
/// carriage return.
pub open spec fn byte_ok(b: u8) -> bool {
    b >= 32 || b == 10 || b == 9 || b == 13
}

pub open spec fn bytes_ok(s: Seq<u8>) -> bool {
    forall|i: int| 0 <= i < s.len() ==> byte_ok(s[i])
}

pub open spec fn entry_ok(e: EntryModel) -> bool {
    bytes_ok(e.path)
}

/// A record `encode` can represent.
pub open spec fn record_ok(m: RecordModel) -> bool {
    &&& bytes_ok(m.log_name)
    &&& bytes_ok(m.node_id)
    &&& forall|i: int| 0 <= i < m.entries.len() ==> entry_ok(#[trigger] m.entries[i])
}

/// The escaped form of one byte inside a quoted string: quote, backslash,
/// newline, tab and carriage return take a two-byte escape, everything else
/// stands for itself.
pub open spec fn esc(b: u8) -> Seq<u8> {
    if b == 34 {
        seq![92u8, 34u8]
    } else if b == 92 {
        seq![92u8, 92u8]
    } else if b == 10 {
        seq![92u8, 110u8]
    } else if b == 9 {
        seq![92u8, 116u8]
    } else if b == 13 {
        seq![92u8, 114u8]
    } else {
        seq![b]
    }
}

/// The escaped form of a whole string field.
pub open spec fn escape(s: Seq<u8>) -> Seq<u8>
    decreases s.len(),
{
    if s.len() == 0 {
        Seq::empty()
    } else {
        esc(s[0]) + escape(s.skip(1))
    }
}

pub proof fn lemma_escape_append(a: Seq<u8>, b: Seq<u8>)
    ensures
        escape(a + b) == escape(a) + escape(b),
    decreases a.len(),
{
    if a.len() == 0 {
        assert(a + b =~= b);
        assert(escape(a) + escape(b) =~= escape(b));
    } else {
        assert((a + b).skip(1) =~= a.skip(1) + b);
        lemma_escape_append(a.skip(1), b);
        assert(escape(a + b) =~= escape(a) + escape(b));
    }
}

pub proof fn lemma_escape_one(b: u8)
    ensures
        escape(seq![b]) == esc(b),
{
    assert(seq![b].skip(1) =~= Seq::<u8>::empty());
    assert(escape(Seq::<u8>::empty()) =~= Seq::<u8>::empty());
    assert(seq![b][0] == b);
    assert(escape(seq![b]) =~= esc(b) + escape(seq![b].skip(1)));
    assert(escape(seq![b]) =~= esc(b));
}

/// The decimal rendering of a number, most significant digit first.
pub open spec fn dec(n: nat) -> Seq<u8>
    decreases n,
{
    if n < 10 {
        seq![(48 + n) as u8]
    } else {
        dec(n / 10) + seq![(48 + n % 10) as u8]
    }
}

/// The literal that opens a payload and names the first field.
pub open spec fn lit_head() -> Seq<u8> {
    seq![123u8, 34u8, 108u8, 111u8, 103u8, 95u8, 110u8, 97u8, 109u8, 101u8, 34u8, 58u8, 34u8]
}

/// The literal between the log name and the node identity.
pub open spec fn lit_node() -> Seq<u8> {
    seq![34u8, 44u8, 34u8, 110u8, 111u8, 100u8, 101u8, 95u8, 105u8, 100u8, 34u8, 58u8, 34u8]
}

/// The literal between the node identity and the entry list.
pub open spec fn lit_entries() -> Seq<u8> {
    seq![34u8, 44u8, 34u8, 101u8, 110u8, 116u8, 114u8, 105u8, 101u8, 115u8, 34u8, 58u8, 91u8]
}

/// The literal that opens one entry and names its path field.
pub open spec fn lit_entry_head() -> Seq<u8> {
    seq![123u8, 34u8, 112u8, 97u8, 116u8, 104u8, 34u8, 58u8, 34u8]
}

/// The literal between an entry's path and its status code.
pub open spec fn lit_entry_mid() -> Seq<u8> {
    seq![34u8, 44u8, 34u8, 115u8, 116u8, 97u8, 116u8, 117u8, 115u8, 34u8, 58u8]
}

/// The literal that closes the entry list and the payload.
pub open spec fn lit_tail() -> Seq<u8> {
    seq![93u8, 125u8]
}

/// The rendering of one entry.
pub open spec fn encode_entry(e: EntryModel) -> Seq<u8> {
    lit_entry_head() + escape(e.path) + lit_entry_mid() + dec(e.status as nat) + seq![125u8]
}

/// The rendering of the entry list, comma separated.
pub open spec fn encode_entries(es: Seq<EntryModel>) -> Seq<u8>
    decreases es.len(),
{
    if es.len() == 0 {
        Seq::empty()
    } else if es.len() == 1 {
        encode_entry(es[0])
    } else {
        encode_entry(es[0]) + seq![44u8] + encode_entries(es.skip(1))
    }
}

/// The rendering of a whole record.
pub open spec fn encode_record(m: RecordModel) -> Seq<u8> {
    lit_head() + escape(m.log_name) + lit_node() + escape(m.node_id) + lit_entries()
        + encode_entries(m.entries) + lit_tail()
}

proof fn lemma_encode_entries_push(es: Seq<EntryModel>, e: EntryModel)
    requires
        es.len() >= 1,
    ensures
        encode_entries(es + seq![e]) == encode_entries(es) + seq![44u8] + encode_entry(e),
    decreases es.len(),
{
    if es.len() == 1 {
        let w = es + seq![e];
        assert(w.len() == 2);
        assert(w[0] == es[0]);
        assert(w.skip(1) =~= seq![e]);
        assert(encode_entries(seq![e]) == encode_entry(e));
        assert(encode_entries(w) =~= encode_entries(es) + seq![44u8] + encode_entry(e));
    } else {
        let w = es + seq![e];
        assert(w.len() >= 2);
        assert(w[0] == es[0]);
        assert(w.skip(1) =~= es.skip(1) + seq![e]);
        lemma_encode_entries_push(es.skip(1), e);
        assert(encode_entries(w) =~= encode_entries(es) + seq![44u8] + encode_entry(e));
    }
}

fn push_lit_head(out: &mut Vec<u8>)
    ensures
        final(out)@ == old(out)@ + lit_head(),
{
    out.push(123);
    out.push(34);
    out.push(108);
    out.push(111);
    out.push(103);
    out.push(95);
    out.push(110);
    out.push(97);
    out.push(109);
    out.push(101);
    out.push(34);
    out.push(58);
    out.push(34);
    proof {
        assert(out@ =~= old(out)@ + lit_head());
    }
}

fn push_lit_node(out: &mut Vec<u8>)
    ensures
        final(out)@ == old(out)@ + lit_node(),
{
    out.push(34);
    out.push(44);
    out.push(34);
    out.push(110);
    out.push(111);
    out.push(100);
    out.push(101);
    out.push(95);
    out.push(105);
    out.push(100);
    out.push(34);
    out.push(58);
    out.push(34);
    proof {
        assert(out@ =~= old(out)@ + lit_node());
    }
}

fn push_lit_entries(out: &mut Vec<u8>)
    ensures
        final(out)@ == old(out)@ + lit_entries(),
{
    out.push(34);
    out.push(44);
    out.push(34);
    out.push(101);
    out.push(110);
    out.push(116);
    out.push(114);
    out.push(105);
    out.push(101);
    out.push(115);
    out.push(34);
    out.push(58);
    out.push(91);
    proof {
        assert(out@ =~= old(out)@ + lit_entries());
    }
}

fn push_lit_entry_head(out: &mut Vec<u8>)
    ensures
        final(out)@ == old(out)@ + lit_entry_head(),
{
    out.push(123);
    out.push(34);
    out.push(112);
    out.push(97);
    out.push(116);
    out.push(104);
    out.push(34);
    out.push(58);
    out.push(34);
    proof {
        assert(out@ =~= old(out)@ + lit_entry_head());
    }
}

fn push_lit_entry_mid(out: &mut Vec<u8>)
    ensures
        final(out)@ == old(out)@ + lit_entry_mid(),
{
    out.push(34);
    out.push(44);
    out.push(34);
    out.push(115);
    out.push(116);
    out.push(97);
    out.push(116);
    out.push(117);
    out.push(115);
    out.push(34);
    out.push(58);
    proof {
        assert(out@ =~= old(out)@ + lit_entry_mid());
    }
}

fn escape_into(src: &Vec<u8>, out: &mut Vec<u8>)
    ensures
        final(out)@ == old(out)@ + escape(src@),
{
    let mut i: usize = 0;
    while i < src.len()
        invariant
            i <= src.len(),
            out@ == old(out)@ + escape(src@.take(i as int)),
        decreases src.len() - i,
    {
        let b = src[i];
        if b == 34 {
            out.push(92);
            out.push(34);
        } else if b == 92 {
            out.push(92);
            out.push(92);
        } else if b == 10 {
            out.push(92);
            out.push(110);
        } else if b == 9 {
            out.push(92);
            out.push(116);
        } else if b == 13 {
            out.push(92);
            out.push(114);
        } else {
            out.push(b);
        }
        proof {
            assert(src@.take(i as int + 1) =~= src@.take(i as int) + seq![src@[i as int]]);
            lemma_escape_append(src@.take(i as int), seq![src@[i as int]]);
            lemma_escape_one(src@[i as int]);
            assert(out@ =~= old(out)@ + escape(src@.take(i as int + 1)));
        }
        i = i + 1;
    }
    proof {
        assert(src@.take(src@.len() as int) =~= src@);
    }
}

fn push_dec(n: u64, out: &mut Vec<u8>)
    ensures
        final(out)@ == old(out)@ + dec(n as nat),
    decreases n,
{
    if n < 10 {
        out.push(48 + (n as u8));
        proof {
            assert(out@ =~= old(out)@ + dec(n as nat));
        }
    } else {
        push_dec(n / 10, out);
        out.push(48 + ((n % 10) as u8));
        proof {
            assert(out@ =~= old(out)@ + dec(n as nat));
        }
    }
}

/// Whether every byte of a string field is representable.
pub fn bytes_encodable(src: &Vec<u8>) -> (r: bool)
    ensures
        r == bytes_ok(src@),
{
    let mut i: usize = 0;
    while i < src.len()
        invariant
            i <= src.len(),
            forall|j: int| 0 <= j < i ==> byte_ok(#[trigger] src@[j]),
        decreases src.len() - i,
    {
        let b = src[i];
        if !(b >= 32 || b == 10 || b == 9 || b == 13) {
            proof {
                assert(!byte_ok(src@[i as int]));
            }
            return false;
        }
        i = i + 1;
    }
    true
}

fn push_entry(e: &LogEntry, out: &mut Vec<u8>)
    ensures
        final(out)@ == old(out)@ + encode_entry(e@),
{
    push_lit_entry_head(out);
    escape_into(&e.path, out);
    push_lit_entry_mid(out);
    push_dec(e.status, out);
    out.push(125);
    proof {
        assert(out@ =~= old(out)@ + encode_entry(e@));
    }
}

/// Render a record to its textual payload.
///
/// Succeeds exactly on representable records, and the payload is exactly
/// `encode_record` of the record's model.  The operation is pure: the result
/// depends on the record alone.
pub fn encode(r: &LogRecord) -> (res: Result<Vec<u8>, EncodeError>)
    ensures
        match res {
            Ok(p) => record_ok(r@) && p@ == encode_record(r@) && decode_record(p@) == Some(r@),
            Err(e) => !record_ok(r@) && e == EncodeError::UnrepresentableByte,
        },
{
    if !bytes_encodable(&r.log_name) {
        return Err(EncodeError::UnrepresentableByte);
    }
    if !bytes_encodable(&r.node_id) {
        return Err(EncodeError::UnrepresentableByte);
    }
    let mut i: usize = 0;
    while i < r.entries.len()
        invariant
            i <= r.entries.len(),
            forall|j: int| 0 <= j < i ==> entry_ok(#[trigger] r@.entries[j]),
        decreases r.entries.len() - i,
    {
        if !bytes_encodable(&r.entries[i].path) {
            proof {
                assert(r@.entries[i as int] == r.entries@[i as int]@);
                assert(!entry_ok(r@.entries[i as int]));
            }
            return Err(EncodeError::UnrepresentableByte);
        }
        proof {
            assert(r@.entries[i as int] == r.entries@[i as int]@);
        }
        i = i + 1;
    }
    proof {
        assert(record_ok(r@));
    }
    let ghost es = r@.entries;
    let mut out: Vec<u8> = Vec::new();
    push_lit_head(&mut out);
    escape_into(&r.log_name, &mut out);
    push_lit_node(&mut out);
    escape_into(&r.node_id, &mut out);
    push_lit_entries(&mut out);
    let ghost base = out@;
    let mut k: usize = 0;
    while k < r.entries.len()
        invariant
            k <= r.entries.len(),
            es == r@.entries,
            es.len() == r.entries.len(),
            forall|j: int| 0 <= j < es.len() ==> #[trigger] es[j] == r.entries@[j]@,
            out@ == base + encode_entries(es.take(k as int)),
        decreases r.entries.len() - k,
    {
        if k > 0 {
            out.push(44);
        }
        push_entry(&r.entries[k], &mut out);
        proof {
            assert(es.take(k as int + 1) =~= es.take(k as int) + seq![es[k as int]]);
            if k == 0 {
                assert(encode_entries(es.take(1)) == encode_entry(es[0]));
            } else {
                lemma_encode_entries_push(es.take(k as int), es[k as int]);
            }
            assert(out@ =~= base + encode_entries(es.take(k as int + 1)));
        }
        k = k + 1;
    }
    out.push(93);
    out.push(125);
    proof {
        assert(es.take(es.len() as int) =~= es);
        assert(out@ =~= encode_record(r@));
        lemma_encode_decode(r@);
    }
    Ok(out)
}

/// A payload is not a rendering `encode` could have produced.
#[derive(Debug, PartialEq, Eq, Structural)]
pub enum DecodeError {
    Malformed,
}

pub open spec fn is_digit(b: u8) -> bool {
    48 <= b && b <= 57
}

/// The byte an escape code stands for, if the code is one the encoder emits.
pub open spec fn unesc(b: u8) -> Option<u8> {
    if b == 34 {
        Some(34u8)
    } else if b == 92 {
        Some(92u8)
    } else if b == 110 {
        Some(10u8)
    } else if b == 116 {
        Some(9u8)
    } else if b == 114 {
        Some(13u8)
    } else {
        None
    }
}

/// Parse a quoted string's content up to and including the closing quote;
/// the result is the unescaped content and what follows the quote.
pub open spec fn parse_string_body(s: Seq<u8>) -> Option<(Seq<u8>, Seq<u8>)>
    decreases s.len(),
{
    if s.len() == 0 {
        None
    } else if s[0] == 34 {
        Some((Seq::empty(), s.skip(1)))
    } else if s[0] == 92 {
        if s.len() < 2 {
            None
        } else {
            match unesc(s[1]) {
                Some(c) => match parse_string_body(s.skip(2)) {
                    Some(p) => Some((seq![c] + p.0, p.1)),
                    None => None,
                },
                None => None,
            }
        }
    } else if byte_ok(s[0]) {
        match parse_string_body(s.skip(1)) {
            Some(p) => Some((seq![s[0]] + p.0, p.1)),
            None => None,
        }
    } else {
        None
    }
}

/// Consume an expected literal.
pub open spec fn spec_expect(s: Seq<u8>, lit: Seq<u8>) -> Option<Seq<u8>> {
    if lit.len() <= s.len() && s.take(lit.len() as int) == lit {
        Some(s.skip(lit.len() as int))
    } else {
        None
    }
}

/// Consume a run of digits, folding them onto an accumulator.
pub open spec fn parse_digits(s: Seq<u8>, acc: nat) -> (nat, Seq<u8>)
    decreases s.len(),
{
    if s.len() > 0 && is_digit(s[0]) {
        parse_digits(s.skip(1), acc * 10 + (s[0] - 48) as nat)
    } else {
        (acc, s)
    }
}

/// Parse a decimal number: at least one digit, greedily consumed.
pub open spec fn parse_nat(s: Seq<u8>) -> Option<(nat, Seq<u8>)> {
    if s.len() > 0 && is_digit(s[0]) {
        Some(parse_digits(s, 0))
    } else {
        None
    }
}

/// `lit_node` without its leading quote: what remains to match once the
/// string parser has consumed the closing quote.
pub open spec fn lit_node_rest() -> Seq<u8> {
    seq![44u8, 34u8, 110u8, 111u8, 100u8, 101u8, 95u8, 105u8, 100u8, 34u8, 58u8, 34u8]
}

/// `lit_entries` without its leading quote.
pub open spec fn lit_entries_rest() -> Seq<u8> {
    seq![44u8, 34u8, 101u8, 110u8, 116u8, 114u8, 105u8, 101u8, 115u8, 34u8, 58u8, 91u8]
}

/// `lit_entry_mid` without its leading quote.
pub open spec fn lit_entry_mid_rest() -> Seq<u8> {
    seq![44u8, 34u8, 115u8, 116u8, 97u8, 116u8, 117u8, 115u8, 34u8, 58u8]
}

/// Parse one entry object.
pub open spec fn parse_entry(s: Seq<u8>) -> Option<(EntryModel, Seq<u8>)> {
    match spec_expect(s, lit_entry_head()) {
        Some(s1) => match parse_string_body(s1) {
            Some(p1) => match spec_expect(p1.1, lit_entry_mid_rest()) {
                Some(s2) => match parse_nat(s2) {
                    Some(p2) => if p2.0 <= u64::MAX as nat {
                        match spec_expect(p2.1, seq![125u8]) {
                            Some(s3) => Some(
                                (EntryModel { path: p1.0, status: p2.0 as u64 }, s3),
                            ),
                            None => None,
                        }
                    } else {
                        None
                    },
                    None => None,
                },
                None => None,
            },
            None => None,
        },
        None => None,
    }
}

/// Parse the entry list after its opening bracket, up to and including the
/// closing bracket.
pub open spec fn parse_entries(s: Seq<u8>) -> Option<(Seq<EntryModel>, Seq<u8>)>
    decreases s.len(),
{
    if s.len() == 0 {
        None
    } else if s[0] == 93 {
        Some((Seq::empty(), s.skip(1)))
    } else {
        match parse_entry(s) {
            Some(p) => {
                let rest = p.1;
                if rest.len() == 0 {
                    None
                } else if rest[0] == 93 {
                    Some((seq![p.0], rest.skip(1)))
                } else if rest[0] == 44 && rest.skip(1).len() < s.len() {
                    match parse_entries(rest.skip(1)) {
                        Some(q) => Some((seq![p.0] + q.0, q.1)),
                        None => None,
                    }
                } else {
                    None
                }
            },
            None => None,
        }
    }
}

/// The matching parser for `encode_record`: accepts exactly the payloads the
/// encoder produces, with nothing after the closing brace.
pub open spec fn decode_record(s: Seq<u8>) -> Option<RecordModel> {
    match spec_expect(s, lit_head()) {
        Some(s1) => match parse_string_body(s1) {
            Some(p1) => match spec_expect(p1.1, lit_node_rest()) {
                Some(s2) => match parse_string_body(s2) {
                    Some(p2) => match spec_expect(p2.1, lit_entries_rest()) {
                        Some(s3) => match parse_entries(s3) {
                            Some(p3) => if p3.1 == seq![125u8] {
                                Some(
                                    RecordModel {
                                        log_name: p1.0,
                                        node_id: p2.0,
                                        entries: p3.0,
                                    },
                                )
                            } else {
                                None
                            },
                            None => None,
                        },
                        None => None,
                    },
                    None => None,
                },
                None => None,
            },
            None => None,
        },
        None => None,
    }
}

pub proof fn lemma_expect_prefix(lit: Seq<u8>, rest: Seq<u8>)
    ensures
        spec_expect(lit + rest, lit) == Some(rest),
{
    assert((lit + rest).take(lit.len() as int) =~= lit);
    assert((lit + rest).skip(lit.len() as int) =~= rest);
}

/// Unescaping inverts escaping: the string parser recovers exactly the
/// field bytes and leaves exactly what follows the closing quote.
pub proof fn lemma_parse_string_roundtrip(x: Seq<u8>, rest: Seq<u8>)
    requires
        bytes_ok(x),
    ensures
        parse_string_body(escape(x) + seq![34u8] + rest) == Some((x, rest)),
    decreases x.len(),
{
    let s = escape(x) + seq![34u8] + rest;
    if x.len() == 0 {
        assert(s =~= seq![34u8] + rest);
        assert(s[0] == 34);
        assert(s.skip(1) =~= rest);
    } else {
        let x0 = x[0];
        let xt = x.skip(1);
        assert(bytes_ok(xt));
        assert(escape(x) == esc(x0) + escape(xt));
        if x0 == 34 || x0 == 92 || x0 == 10 || x0 == 9 || x0 == 13 {
            assert(esc(x0).len() == 2);
            assert(s[0] == esc(x0)[0] && s[1] == esc(x0)[1]);
            assert(s[0] == 92);
            assert(unesc(s[1]) == Some(x0));
            assert(s.skip(2) =~= escape(xt) + seq![34u8] + rest);
            lemma_parse_string_roundtrip(xt, rest);
            assert(seq![x0] + xt =~= x);
        } else {
            assert(esc(x0) =~= seq![x0]);
            assert(s[0] == x0);
            assert(byte_ok(x0));
            assert(s.skip(1) =~= escape(xt) + seq![34u8] + rest);
            lemma_parse_string_roundtrip(xt, rest);
            assert(seq![x0] + xt =~= x);
        }
    }
}

pub open spec fn pow10(k: nat) -> nat
    decreases k,
{
    if k == 0 {
        1
    } else {
        10 * pow10((k - 1) as nat)
    }
}

proof fn lemma_dec_first_digit(n: nat)
    ensures
        dec(n).len() >= 1,
        is_digit(dec(n)[0]),
    decreases n,
{
    if n >= 10 {
        lemma_dec_first_digit(n / 10);
        assert(dec(n)[0] == dec(n / 10)[0]);
    }
}

proof fn lemma_parse_digits_dec(n: nat, rest: Seq<u8>, acc: nat)
    ensures
        parse_digits(dec(n) + rest, acc) == parse_digits(rest, acc * pow10(dec(n).len() as nat) + n),
    decreases n,
{
    if n < 10 {
        let s = dec(n) + rest;
        assert(s[0] == (48 + n) as u8);
        assert(is_digit(s[0]));
        assert((s[0] - 48) as nat == n);
        assert(s.skip(1) =~= rest);
        assert(pow10(1) == 10 * pow10(0));
        assert(parse_digits(s, acc) == parse_digits(rest, acc * 10 + n));
    } else {
        let d8 = (48 + n % 10) as u8;
        assert(dec(n) == dec(n / 10) + seq![d8]);
        assert(dec(n) + rest =~= dec(n / 10) + (seq![d8] + rest));
        lemma_parse_digits_dec(n / 10, seq![d8] + rest, acc);
        let lp = pow10(dec(n / 10).len() as nat);
        let a2 = acc * lp + n / 10;
        let s2 = seq![d8] + rest;
        assert(is_digit(s2[0]));
        assert((s2[0] - 48) as nat == n % 10);
        assert(s2.skip(1) =~= rest);
        assert(parse_digits(s2, a2) == parse_digits(rest, a2 * 10 + n % 10));
        assert(dec(n).len() == dec(n / 10).len() + 1);
        assert(pow10(dec(n).len() as nat) == 10 * lp);
        assert(a2 * 10 + n % 10 == acc * (10 * lp) + n) by (nonlinear_arith)
            requires
                a2 == acc * lp + n / 10,
                n >= 10,
        {
        }
    }
}

proof fn lemma_parse_nat_dec(n: nat, rest: Seq<u8>)
    requires
        rest.len() == 0 || !is_digit(rest[0]),
    ensures
        parse_nat(dec(n) + rest) == Some((n, rest)),
{
    let s = dec(n) + rest;
    lemma_dec_first_digit(n);
    assert(s[0] == dec(n)[0]);
    lemma_parse_digits_dec(n, rest, 0);
    assert(0 * pow10(dec(n).len() as nat) + n == n);
    assert(parse_digits(rest, n) == (n, rest));
}

proof fn lemma_entry_nonempty(e: EntryModel)
    ensures
        encode_entry(e).len() >= 1,
        encode_entry(e)[0] == 123u8,
{
    assert(encode_entry(e)[0] == lit_entry_head()[0]);
}

/// Entry parsing inverts entry encoding.
proof fn lemma_parse_entry_roundtrip(e: EntryModel, rest: Seq<u8>)
    requires
        entry_ok(e),
    ensures
        parse_entry(encode_entry(e) + rest) == Some((e, rest)),
{
    let s = encode_entry(e) + rest;
    let num = dec(e.status as nat);
    let r3 = num + (seq![125u8] + rest);
    let r2 = lit_entry_mid_rest() + r3;
    let r1 = escape(e.path) + seq![34u8] + r2;
    assert(lit_entry_mid() =~= seq![34u8] + lit_entry_mid_rest());
    assert(s =~= lit_entry_head() + r1);
    lemma_expect_prefix(lit_entry_head(), r1);
    lemma_parse_string_roundtrip(e.path, r2);
    lemma_expect_prefix(lit_entry_mid_rest(), r3);
    let r4 = seq![125u8] + rest;
    assert(r4.len() > 0 && !is_digit(r4[0]));
    lemma_parse_nat_dec(e.status as nat, r4);
    assert(e.status as nat <= u64::MAX as nat);
    assert(r4 =~= seq![125u8] + rest);
    lemma_expect_prefix(seq![125u8], rest);
    assert(EntryModel { path: e.path, status: e.status } == e);
}

/// Entry-list parsing inverts entry-list encoding.
proof fn lemma_parse_entries_roundtrip(es: Seq<EntryModel>, rest: Seq<u8>)
    requires
        forall|i: int| 0 <= i < es.len() ==> entry_ok(#[trigger] es[i]),
    ensures
        parse_entries(encode_entries(es) + seq![93u8] + rest) == Some((es, rest)),
    decreases es.len(),
{
    let s = encode_entries(es) + seq![93u8] + rest;
    if es.len() == 0 {
        assert(s =~= seq![93u8] + rest);
        assert(s[0] == 93);
        assert(s.skip(1) =~= rest);
        assert(Seq::<EntryModel>::empty() =~= es);
    } else if es.len() == 1 {
        let r0 = seq![93u8] + rest;
        assert(s =~= encode_entry(es[0]) + r0);
        lemma_entry_nonempty(es[0]);
        assert(s[0] == 123);
        lemma_parse_entry_roundtrip(es[0], r0);
        assert(r0[0] == 93);
        assert(r0.skip(1) =~= rest);
        assert(seq![es[0]] =~= es);
    } else {
        let tail = encode_entries(es.skip(1)) + seq![93u8] + rest;
        let r0 = seq![44u8] + tail;
        assert(s =~= encode_entry(es[0]) + r0);
        lemma_entry_nonempty(es[0]);
        assert(s[0] == 123);
        lemma_parse_entry_roundtrip(es[0], r0);
        assert(r0[0] == 44);
        assert(r0.skip(1) =~= tail);
        assert(tail.len() < s.len());
        assert(forall|i: int| 0 <= i < es.skip(1).len() ==> entry_ok(#[trigger] es.skip(1)[i]));
        lemma_parse_entries_roundtrip(es.skip(1), rest);
        assert(seq![es[0]] + es.skip(1) =~= es);
    }
}

/// The round-trip law: decoding an encoded record yields the record.
pub proof fn lemma_encode_decode(m: RecordModel)
    requires
        record_ok(m),
    ensures
        decode_record(encode_record(m)) == Some(m),
{
    let s = encode_record(m);
    let ents = encode_entries(m.entries) + seq![93u8] + seq![125u8];
    let r2 = lit_entries_rest() + ents;
    let nod = escape(m.node_id) + seq![34u8] + r2;
    let r1 = lit_node_rest() + nod;
    let nam = escape(m.log_name) + seq![34u8] + r1;
    assert(lit_node() =~= seq![34u8] + lit_node_rest());
    assert(lit_entries() =~= seq![34u8] + lit_entries_rest());
    assert(lit_tail() =~= seq![93u8] + seq![125u8]);
    assert(s =~= lit_head() + nam);
    lemma_expect_prefix(lit_head(), nam);
    lemma_parse_string_roundtrip(m.log_name, r1);
    lemma_expect_prefix(lit_node_rest(), nod);
    lemma_parse_string_roundtrip(m.node_id, r2);
    lemma_expect_prefix(lit_entries_rest(), ents);
    lemma_parse_entries_roundtrip(m.entries, seq![125u8]);
    assert(RecordModel { log_name: m.log_name, node_id: m.node_id, entries: m.entries } == m);
}

fn push_lit_node_rest(out: &mut Vec<u8>)
    ensures
        final(out)@ == old(out)@ + lit_node_rest(),
{
    out.push(44);
    out.push(34);
    out.push(110);
    out.push(111);
    out.push(100);
    out.push(101);
    out.push(95);
    out.push(105);
    out.push(100);
    out.push(34);
    out.push(58);
    out.push(34);
    proof {
        assert(out@ =~= old(out)@ + lit_node_rest());
    }
}

fn push_lit_entries_rest(out: &mut Vec<u8>)
    ensures
        final(out)@ == old(out)@ + lit_entries_rest(),
{
    out.push(44);
    out.push(34);
    out.push(101);
    out.push(110);
    out.push(116);
    out.push(114);
    out.push(105);
    out.push(101);
    out.push(115);
    out.push(34);
    out.push(58);
    out.push(91);
    proof {
        assert(out@ =~= old(out)@ + lit_entries_rest());
    }
}

fn push_lit_entry_mid_rest(out: &mut Vec<u8>)
    ensures
        final(out)@ == old(out)@ + lit_entry_mid_rest(),
{
    out.push(44);
    out.push(34);
    out.push(115);
    out.push(116);
    out.push(97);
    out.push(116);
    out.push(117);
    out.push(115);
    out.push(34);
    out.push(58);
    proof {
        assert(out@ =~= old(out)@ + lit_entry_mid_rest());
    }
}

/// Consume an expected literal at position `i`.
fn expect_lit(v: &Vec<u8>, i: usize, lit: &Vec<u8>) -> (r: Option<usize>)
    requires
        i <= v@.len(),
    ensures
        match r {
            Some(j) => {
                &&& j as int == i as int + lit@.len()
                &&& j <= v@.len()
                &&& spec_expect(v@.skip(i as int), lit@) == Some(v@.skip(j as int))
            },
            None => spec_expect(v@.skip(i as int), lit@) is None,
        },
{
    if v.len() - i < lit.len() {
        proof {
            assert(v@.skip(i as int).len() < lit@.len());
        }
        return None;
    }
    let n = v.len();
    let mut k: usize = 0;
    while k < lit.len()
        invariant
            k <= lit.len(),
            i <= n,
            n == v@.len(),
            lit@.len() <= n - i,
            forall|t: int| 0 <= t < k ==> v@[i + t] == lit@[t],
        decreases lit.len() - k,
    {
        if v[i + k] != lit[k] {
            proof {
                let s = v@.skip(i as int);
                assert(s.take(lit@.len() as int)[k as int] == v@[i + k]);
                assert(s.take(lit@.len() as int) != lit@);
            }
            return None;
        }
        k = k + 1;
    }
    proof {
        let s = v@.skip(i as int);
        assert(s.take(lit@.len() as int) =~= lit@);
        assert(s.skip(lit@.len() as int) =~= v@.skip(i as int + lit@.len()));
    }
    Some(i + lit.len())
}

/// Parse a quoted string's content at position `i`, through the closing
/// quote.
fn parse_string_at(v: &Vec<u8>, i: usize) -> (r: Option<(Vec<u8>, usize)>)
    requires
        i <= v@.len(),
    ensures
        match r {
            Some(p) => {
                &&& i <= p.1 <= v@.len()
                &&& parse_string_body(v@.skip(i as int)) == Some((p.0@, v@.skip(p.1 as int)))
            },
            None => parse_string_body(v@.skip(i as int)) is None,
        },
    decreases v@.len() - i,
{
    proof {
        if i < v@.len() {
            assert(v@.skip(i as int)[0] == v@[i as int]);
        }
    }
    if i >= v.len() {
        return None;
    }
    let b = v[i];
    if b == 34 {
        proof {
            assert(v@.skip(i as int).skip(1) =~= v@.skip(i as int + 1));
        }
        let content: Vec<u8> = Vec::new();
        proof {
            assert(content@ =~= Seq::<u8>::empty());
        }
        return Some((content, i + 1));
    }
    if b == 92 {
        if i + 1 >= v.len() {
            proof {
                assert(v@.skip(i as int).len() < 2);
            }
            return None;
        }
        let c = v[i + 1];
        proof {
            assert(v@.skip(i as int)[1] == v@[i as int + 1]);
        }
        let u: u8;
        if c == 34 {
            u = 34;
        } else if c == 92 {
            u = 92;
        } else if c == 110 {
            u = 10;
        } else if c == 116 {
            u = 9;
        } else if c == 114 {
            u = 13;
        } else {
            return None;
        }
        proof {
            assert(v@.skip(i as int).skip(2) =~= v@.skip(i as int + 2));
        }
        match parse_string_at(v, i + 2) {
            None => return None,
            Some((tail, j)) => {
                let mut content = tail;
                content.insert(0, u);
                proof {
                    assert(content@ =~= seq![u] + content@.skip(1));
                    assert(content@.skip(1) =~= content@.subrange(1, content@.len() as int));
                }
                return Some((content, j));
            },
        }
    }
    if b >= 32 || b == 10 || b == 9 || b == 13 {
        proof {
            assert(byte_ok(v@.skip(i as int)[0]));
            assert(v@.skip(i as int).skip(1) =~= v@.skip(i as int + 1));
        }
        match parse_string_at(v, i + 1) {
            None => None,
            Some((tail, j)) => {
                let mut content = tail;
                content.insert(0, b);
                proof {
                    assert(content@ =~= seq![b] + content@.skip(1));
                }
                Some((content, j))
            },
        }
    } else {
        proof {
            assert(!byte_ok(v@.skip(i as int)[0]));
        }
        None
    }
}

proof fn lemma_parse_digits_ge(s: Seq<u8>, acc: nat)
    ensures
        parse_digits(s, acc).0 >= acc,
    decreases s.len(),
{
    if s.len() > 0 && is_digit(s[0]) {
        lemma_parse_digits_ge(s.skip(1), acc * 10 + (s[0] - 48) as nat);
        assert(acc * 10 >= acc) by (nonlinear_arith);
    }
}

/// Parse a decimal number at position `i`.  Reports nothing when the digits
/// name a value beyond the machine range: the parsed payload is then not one
/// the encoder produced.
pub(crate) fn parse_number_at(v: &Vec<u8>, i: usize) -> (r: Option<(u64, usize)>)
    requires
        i <= v@.len(),
    ensures
        match r {
            Some(p) => {
                &&& i <= p.1 <= v@.len()
                &&& parse_nat(v@.skip(i as int)) == Some((p.0 as nat, v@.skip(p.1 as int)))
            },
            None => match parse_nat(v@.skip(i as int)) {
                Some(q) => q.0 > u64::MAX as nat,
                None => true,
            },
        },
{
    proof {
        if i < v@.len() {
            assert(v@.skip(i as int)[0] == v@[i as int]);
        }
    }
    if i >= v.len() {
        return None;
    }
    if !(48 <= v[i] && v[i] <= 57) {
        return None;
    }
    let mut acc: u64 = 0;
    let mut j: usize = i;
    while j < v.len() && 48 <= v[j] && v[j] <= 57
        invariant
            i <= j <= v@.len(),
            parse_digits(v@.skip(i as int), 0) == parse_digits(v@.skip(j as int), acc as nat),
        decreases v@.len() - j,
    {
        let d = v[j] - 48;
        proof {
            assert(v@.skip(j as int)[0] == v@[j as int]);
            assert(is_digit(v@.skip(j as int)[0]));
        }
        if acc > (u64::MAX - (d as u64)) / 10 {
            proof {
                let sj = v@.skip(j as int);
                assert(parse_digits(sj, acc as nat) == parse_digits(
                    sj.skip(1),
                    (acc as nat) * 10 + (sj[0] - 48) as nat,
                ));
                lemma_parse_digits_ge(sj.skip(1), (acc as nat) * 10 + (sj[0] - 48) as nat);
                assert((acc as nat) * 10 + (d as nat) > u64::MAX as nat) by (nonlinear_arith)
                    requires
                        acc > (u64::MAX - (d as u64)) / 10,
                        d <= 9,
                {
                }
            }
            return None;
        }
        proof {
            assert((acc as nat) * 10 + (d as nat) <= u64::MAX as nat) by (nonlinear_arith)
                requires
                    acc <= (u64::MAX - (d as u64)) / 10,
                    d <= 9,
            {
            }
            assert(v@.skip(j as int).skip(1) =~= v@.skip(j as int + 1));
        }
        acc = acc * 10 + (d as u64);
        j = j + 1;
    }
    proof {
        let sj = v@.skip(j as int);
        if sj.len() > 0 {
            assert(sj[0] == v@[j as int]);
        }
        assert(parse_digits(sj, acc as nat) == ((acc as nat), sj));
    }
    Some((acc, j))
}

/// Parse one entry object at position `i`.
fn parse_entry_at(v: &Vec<u8>, i: usize) -> (r: Option<(LogEntry, usize)>)
    requires
        i <= v@.len(),
    ensures
        match r {
            Some(p) => {
                &&& i < p.1 <= v@.len()
                &&& parse_entry(v@.skip(i as int)) == Some((p.0@, v@.skip(p.1 as int)))
            },
            None => parse_entry(v@.skip(i as int)) is None,
        },
{
    let mut head: Vec<u8> = Vec::new();
    push_lit_entry_head(&mut head);
    let j1 = match expect_lit(v, i, &head) {
        None => {
            return None;
        },
        Some(j) => j,
    };
    let (path, j2) = match parse_string_at(v, j1) {
        None => {
            return None;
        },
        Some(p) => p,
    };
    let mut mid: Vec<u8> = Vec::new();
    push_lit_entry_mid_rest(&mut mid);
    let j3 = match expect_lit(v, j2, &mid) {
        None => {
            return None;
        },
        Some(j) => j,
    };
    let (n, j4) = match parse_number_at(v, j3) {
        None => {
            return None;
        },
        Some(p) => p,
    };
    let mut close: Vec<u8> = Vec::new();
    close.push(125);
    proof {
        assert(close@ =~= seq![125u8]);
    }
    let j5 = match expect_lit(v, j4, &close) {
        None => {
            return None;
        },
        Some(j) => j,
    };
    let entry = LogEntry { path, status: n };
    proof {
        assert(entry@ == EntryModel { path: entry.path@, status: n });
    }
    Some((entry, j5))
}

/// Parse the entry list at position `i`, after the opening bracket.
fn parse_entries_at(v: &Vec<u8>, i: usize) -> (r: Option<(Vec<LogEntry>, usize)>)
    requires
        i <= v@.len(),
    ensures
        match r {
            Some(p) => {
                &&& i <= p.1 <= v@.len()
                &&& parse_entries(v@.skip(i as int)) == Some(
                    (p.0@.map_values(|e: LogEntry| e@), v@.skip(p.1 as int)),
                )
            },
            None => parse_entries(v@.skip(i as int)) is None,
        },
    decreases v@.len() - i,
{
    proof {
        if i < v@.len() {
            assert(v@.skip(i as int)[0] == v@[i as int]);
        }
    }
    if i >= v.len() {
        return None;
    }
    if v[i] == 93 {
        let es: Vec<LogEntry> = Vec::new();
        proof {
            assert(es@.map_values(|e: LogEntry| e@) =~= Seq::<EntryModel>::empty());
            assert(v@.skip(i as int).skip(1) =~= v@.skip(i as int + 1));
        }
        return Some((es, i + 1));
    }
    match parse_entry_at(v, i) {
        None => None,
        Some((e, j)) => {
            proof {
                if j < v@.len() {
                    assert(v@.skip(j as int)[0] == v@[j as int]);
                }
            }
            if j >= v.len() {
                return None;
            }
            if v[j] == 93 {
                let ghost em = e@;
                let mut es: Vec<LogEntry> = Vec::new();
                es.push(e);
                proof {
                    assert(es@.map_values(|x: LogEntry| x@) =~= seq![em]);
                    assert(v@.skip(j as int).skip(1) =~= v@.skip(j as int + 1));
                }
                return Some((es, j + 1));
            }
            if v[j] == 44 {
                proof {
                    assert(v@.skip(j as int).skip(1) =~= v@.skip(j as int + 1));
                    assert(v@.skip(j as int + 1).len() < v@.skip(i as int).len());
                }
                match parse_entries_at(v, j + 1) {
                    None => None,
                    Some((tail, j2)) => {
                        let ghost em = e@;
                        let ghost tm = tail@.map_values(|x: LogEntry| x@);
                        let mut es = tail;
                        es.insert(0, e);
                        proof {
                            let f = |x: LogEntry| x@;
                            assert(es@ =~= seq![e] + es@.skip(1));
                            assert forall|t: int| 0 <= t < es@.len() implies
                                es@.map_values(f)[t] == (seq![em] + tm)[t] by {
                                if t > 0 {
                                    assert(es@[t] == es@.skip(1)[t - 1]);
                                }
                            }
                            assert(es@.map_values(f) =~= seq![em] + tm);
                        }
                        Some((es, j2))
                    },
                }
            } else {
                None
            }
        },
    }
}

/// Parse a textual payload back to a record.
///
/// Accepts exactly the payloads `encode` produces: the result is `Ok` with
/// the decoded record when the payload is a well-formed rendering, and
/// `Err(DecodeError::Malformed)` otherwise.
pub fn decode(payload: &Vec<u8>) -> (res: Result<LogRecord, DecodeError>)
    ensures
        match res {
            Ok(r) => decode_record(payload@) == Some(r@),
            Err(e) => decode_record(payload@) is None && e == DecodeError::Malformed,
        },
{
    proof {
        assert(payload@.skip(0) =~= payload@);
    }
    let mut head: Vec<u8> = Vec::new();
    push_lit_head(&mut head);
    let j1 = match expect_lit(payload, 0, &head) {
        None => {
            return Err(DecodeError::Malformed);
        },
        Some(j) => j,
    };
    let (log_name, j2) = match parse_string_at(payload, j1) {
        None => {
            return Err(DecodeError::Malformed);
        },
        Some(p) => p,
    };
    let mut nod: Vec<u8> = Vec::new();
    push_lit_node_rest(&mut nod);
    let j3 = match expect_lit(payload, j2, &nod) {
        None => {
            return Err(DecodeError::Malformed);
        },
        Some(j) => j,
    };
    let (node_id, j4) = match parse_string_at(payload, j3) {
        None => {
            return Err(DecodeError::Malformed);
        },
        Some(p) => p,
    };
    let mut ent: Vec<u8> = Vec::new();
    push_lit_entries_rest(&mut ent);
    let j5 = match expect_lit(payload, j4, &ent) {
        None => {
            return Err(DecodeError::Malformed);
        },
        Some(j) => j,
    };
    let (entries, j6) = match parse_entries_at(payload, j5) {
        None => {
            return Err(DecodeError::Malformed);
        },
        Some(p) => p,
    };
    if j6 < payload.len() && payload[j6] == 125 && j6 + 1 == payload.len() {
        proof {
            assert(payload@.skip(j6 as int) =~= seq![125u8]);
        }
        let record = LogRecord { log_name, node_id, entries };
        return Ok(record);
    }
    proof {
        let s6 = payload@.skip(j6 as int);
        if j6 >= payload@.len() {
            assert(s6.len() == 0);
            assert(s6 != seq![125u8]);
        } else if payload@[j6 as int] != 125 {
            assert(s6[0] == payload@[j6 as int]);
            assert(s6 != seq![125u8]);
        } else {
            assert(s6.len() >= 2);
            assert(s6 != seq![125u8]);
        }
    }
    Err(DecodeError::Malformed)
}

} // verus!
