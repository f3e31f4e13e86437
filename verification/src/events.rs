//! Structured telemetry events and their snapshot codec.
//!
//! A collection of events is serialized as a canonical JSON document,
//! `[{"ts":<decimal>,"msg":"<lowercase hex of the message bytes>"},...]`,
//! and then block-compressed. Decoding validates the compressed block, the
//! document structure and the message encoding, and the two failure kinds
//! stay distinguishable.

use vstd::prelude::*;

use crate::codec::{compress_raw, decompress_raw, lz4_of, unlz4_of, MAX_PAYLOAD};
use crate::errors::CodecError;

verus! {

/// One structured telemetry event: a millisecond timestamp and a message.
#[derive(Debug, Clone, PartialEq)]
pub struct JsonEvent {
    pub ts: u64,
    pub msg: String,
}

/// The document-level model of one event: its timestamp and the UTF-8
/// bytes of its message.
pub open spec fn event_model(e: JsonEvent) -> (u64, Seq<u8>) {
    (e.ts, vstd::utf8::encode_utf8(e.msg@))
}

/// The document-level model of an event collection.
pub open spec fn events_model(es: Seq<JsonEvent>) -> Seq<(u64, Seq<u8>)> {
    es.map_values(|e: JsonEvent| event_model(e))
}

/// Every message byte sequence of the collection is valid UTF-8.
pub open spec fn all_utf8(ms: Seq<(u64, Seq<u8>)>) -> bool {
    forall|k: int| 0 <= k < ms.len() ==> #[trigger] vstd::utf8::valid_utf8(ms[k].1)
}

// ---------------------------------------------------------------------------
// The canonical document, byte by byte.
// ---------------------------------------------------------------------------

/// `b` is an ASCII decimal digit.
pub open spec fn is_digit(b: u8) -> bool {
    0x30 <= b <= 0x39
}

/// `b` is a lowercase ASCII hex digit.
pub open spec fn is_hex(b: u8) -> bool {
    (0x30 <= b <= 0x39) || (0x61 <= b <= 0x66)
}

/// Value of a lowercase hex digit byte.
pub open spec fn hex_val(b: u8) -> int {
    if b <= 0x39 {
        b - 0x30
    } else {
        b - 0x61 + 10
    }
}

/// The lowercase hex digit byte for `0 <= d < 16`.
pub open spec fn hex_digit(d: int) -> u8 {
    if d < 10 {
        (0x30 + d) as u8
    } else {
        (0x61 + (d - 10)) as u8
    }
}

/// `n` rendered as canonical decimal digits (no leading zeros).
pub open spec fn dec_of(n: nat) -> Seq<u8>
    decreases n,
{
    if n < 10 {
        seq![(0x30 + n) as u8]
    } else {
        dec_of(n / 10).push((0x30 + n % 10) as u8)
    }
}

/// Value of a run of decimal digit bytes.
pub open spec fn dec_val(s: Seq<u8>) -> nat
    decreases s.len(),
{
    if s.len() == 0 {
        0
    } else {
        (dec_val(s.drop_last()) * 10 + (s.last() - 0x30)) as nat
    }
}

/// `m` rendered as lowercase hex, two digits per byte.
pub open spec fn hex_of(m: Seq<u8>) -> Seq<u8>
    decreases m.len(),
{
    if m.len() == 0 {
        Seq::empty()
    } else {
        seq![hex_digit(m[0] as int / 16), hex_digit(m[0] as int % 16)] + hex_of(m.drop_first())
    }
}

/// The bytes `{"ts":`.
pub open spec fn ev_head() -> Seq<u8> {
    seq![0x7bu8, 0x22, 0x74, 0x73, 0x22, 0x3a]
}

/// The bytes `,"msg":"`.
pub open spec fn ev_mid() -> Seq<u8> {
    seq![0x2cu8, 0x22, 0x6d, 0x73, 0x67, 0x22, 0x3a, 0x22]
}

/// One event as document bytes: `{"ts":<dec>,"msg":"<hex>"}`.
pub open spec fn json_of_event(ev: (u64, Seq<u8>)) -> Seq<u8> {
    ev_head() + dec_of(ev.0 as nat) + ev_mid() + hex_of(ev.1) + seq![0x22u8, 0x7d]
}

/// The document after the first event: for each further event a comma and
/// the event, then the closing bracket.
pub open spec fn json_tail(es: Seq<(u64, Seq<u8>)>) -> Seq<u8>
    decreases es.len(),
{
    if es.len() == 0 {
        seq![0x5du8]
    } else {
        seq![0x2cu8] + json_of_event(es[0]) + json_tail(es.skip(1))
    }
}

/// The whole canonical document for an event collection.
pub open spec fn json_of(es: Seq<(u64, Seq<u8>)>) -> Seq<u8> {
    if es.len() == 0 {
        seq![0x5bu8, 0x5d]
    } else {
        seq![0x5bu8] + json_of_event(es[0]) + json_tail(es.skip(1))
    }
}

// ---------------------------------------------------------------------------
// The document parser, as a specification.
// ---------------------------------------------------------------------------

/// End of the run of decimal digits starting at `i`.
pub open spec fn digit_run_end(s: Seq<u8>, i: int) -> int
    decreases s.len() - i,
{
    if i < s.len() && is_digit(s[i]) {
        digit_run_end(s, i + 1)
    } else {
        i
    }
}

/// The literal `lit` occurs in `s` at position `i`.
pub open spec fn matches_at(s: Seq<u8>, i: int, lit: Seq<u8>) -> bool {
    0 <= i && i + lit.len() <= s.len() && s.subrange(i, i + lit.len()) == lit
}

/// Parse a canonical decimal `u64` at `i`: a nonempty digit run without a
/// leading zero whose value fits in 64 bits.
pub open spec fn parse_num(s: Seq<u8>, i: int) -> Option<(u64, int)> {
    let j = digit_run_end(s, i);
    if i < j && (s[i] != 0x30 || j == i + 1) && dec_val(s.subrange(i, j)) < 0x1_0000_0000_0000_0000
     {
        Some((dec_val(s.subrange(i, j)) as u64, j))
    } else {
        None
    }
}

/// Parse hex pairs starting at `i` up to a closing quote; yields the
/// decoded bytes and the position after the quote.
pub open spec fn parse_hexbody(s: Seq<u8>, i: int) -> Option<(Seq<u8>, int)>
    decreases s.len() - i,
{
    if i >= s.len() {
        None
    } else if s[i] == 0x22 {
        Some((Seq::empty(), i + 1))
    } else if i + 1 < s.len() && is_hex(s[i]) && is_hex(s[i + 1]) {
        match parse_hexbody(s, i + 2) {
            None => None,
            Some((m, j)) => Some(
                (seq![(hex_val(s[i]) * 16 + hex_val(s[i + 1])) as u8] + m, j),
            ),
        }
    } else {
        None
    }
}

/// Parse one event object at `i`; yields its model and the position after
/// the closing brace.
pub open spec fn parse_event(s: Seq<u8>, i: int) -> Option<((u64, Seq<u8>), int)> {
    if matches_at(s, i, ev_head()) {
        match parse_num(s, i + 6) {
            None => None,
            Some((ts, j)) => if matches_at(s, j, ev_mid()) {
                match parse_hexbody(s, j + 8) {
                    None => None,
                    Some((m, k)) => if k < s.len() && s[k] == 0x7d {
                        Some(((ts, m), k + 1))
                    } else {
                        None
                    },
                }
            } else {
                None
            },
        }
    } else {
        None
    }
}

/// Parse the remainder of the document after at least one event: either
/// the closing bracket ending the document, or a comma and a further event.
pub open spec fn parse_rest(s: Seq<u8>, i: int) -> Option<Seq<(u64, Seq<u8>)>>
    decreases s.len() - i,
{
    if i >= s.len() {
        None
    } else if s[i] == 0x5d {
        if i == s.len() - 1 {
            Some(Seq::empty())
        } else {
            None
        }
    } else if s[i] == 0x2c {
        match parse_event(s, i + 1) {
            None => None,
            Some((ev, j)) => if i + 1 < j && j <= s.len() {
                match parse_rest(s, j) {
                    None => None,
                    Some(rest) => Some(seq![ev] + rest),
                }
            } else {
                None
            },
        }
    } else {
        None
    }
}

/// Parse a whole canonical document; the exact specification of what the
/// executable decoder accepts and returns.
pub open spec fn parse_events_spec(s: Seq<u8>) -> Option<Seq<(u64, Seq<u8>)>> {
    if s.len() >= 2 && s[0] == 0x5b {
        if s[1] == 0x5d {
            if s.len() == 2 {
                Some(Seq::empty())
            } else {
                None
            }
        } else {
            match parse_event(s, 1) {
                None => None,
                Some((ev, j)) => if 1 < j && j <= s.len() {
                    match parse_rest(s, j) {
                        None => None,
                        Some(rest) => Some(seq![ev] + rest),
                    }
                } else {
                    None
                },
            }
        }
    } else {
        None
    }
}

// ---------------------------------------------------------------------------
// Round trip: the parser inverts the canonical encoding.
// ---------------------------------------------------------------------------

/// Properties of a digit run: it reaches a non-digit (or the end) and all
/// bytes before that are digits.
proof fn lemma_dre_props(s: Seq<u8>, i: int)
    requires
        0 <= i <= s.len(),
    ensures
        i <= digit_run_end(s, i) <= s.len(),
        forall|k: int| i <= k < digit_run_end(s, i) ==> is_digit(s[k]),
        digit_run_end(s, i) == s.len() || !is_digit(s[digit_run_end(s, i)]),
    decreases s.len() - i,
{
    if i < s.len() && is_digit(s[i]) {
        lemma_dre_props(s, i + 1);
    }
}

/// The canonical decimal rendering is made of digits, has no leading zero
/// unless the value is zero, and evaluates back to the value.
proof fn lemma_dec_of(n: nat)
    ensures
        dec_of(n).len() >= 1,
        forall|k: int| 0 <= k < dec_of(n).len() ==> is_digit(#[trigger] dec_of(n)[k]),
        dec_val(dec_of(n)) == n,
        n > 0 ==> dec_of(n)[0] != 0x30,
        n < 10 ==> dec_of(n).len() == 1,
    decreases n,
{
    if n < 10 {
        assert(dec_of(n).drop_last() =~= Seq::<u8>::empty());
        assert(dec_val(Seq::<u8>::empty()) == 0);
        assert(dec_of(n).last() == (0x30 + n) as u8);
        assert(dec_val(dec_of(n)) == n);
    } else {
        lemma_dec_of(n / 10);
        assert(dec_of(n).drop_last() =~= dec_of(n / 10));
        assert(dec_of(n)[0] == dec_of(n / 10)[0]);
        vstd::arithmetic::div_mod::lemma_fundamental_div_mod(n as int, 10);
        assert(dec_val(dec_of(n)) == (n / 10) * 10 + n % 10);
    }
}

/// A longer digit run never evaluates to less than a prefix of it.
proof fn lemma_dec_val_mono(s: Seq<u8>, i: int, j1: int, j2: int)
    requires
        0 <= i <= j1 <= j2 <= s.len(),
        forall|k: int| j1 <= k < j2 ==> is_digit(s[k]),
    ensures
        dec_val(s.subrange(i, j2)) >= dec_val(s.subrange(i, j1)),
    decreases j2 - j1,
{
    if j2 > j1 {
        lemma_dec_val_mono(s, i, j1, j2 - 1);
        assert(s.subrange(i, j2).drop_last() =~= s.subrange(i, j2 - 1));
        assert(s.subrange(i, j2).last() == s[j2 - 1]);
    }
}

/// A canonical number embedded before a non-digit parses to its value.
proof fn lemma_parse_num(s: Seq<u8>, i: int, n: u64)
    requires
        0 <= i,
        i + dec_of(n as nat).len() < s.len(),
        s.subrange(i, i + dec_of(n as nat).len() as int) == dec_of(n as nat),
        !is_digit(s[i + dec_of(n as nat).len()]),
    ensures
        parse_num(s, i) == Some((n, i + dec_of(n as nat).len() as int)),
{
    lemma_dec_of(n as nat);
    let d = dec_of(n as nat).len() as int;
    assert forall|k: int| i <= k < i + d implies is_digit(s[k]) by {
        assert(s.subrange(i, i + d)[k - i] == s[k]);
    }
    lemma_dre_props(s, i);
    let j = digit_run_end(s, i);
    if j < i + d {
        assert(is_digit(s[j]));
        assert(false);
    }
    if j > i + d {
        assert(is_digit(s[i + d]));
        assert(false);
    }
    assert(s.subrange(i, j) == dec_of(n as nat));
    if s[i] == 0x30 {
        assert(dec_of(n as nat)[0] == 0x30);
        assert(n == 0);
    }
}

/// The two hex digit bytes of a value are hex digits with that value.
proof fn lemma_hex_digit(d: int)
    requires
        0 <= d < 16,
    ensures
        is_hex(hex_digit(d)),
        hex_val(hex_digit(d)) == d,
{
}

/// Hex rendering is two bytes per input byte.
proof fn lemma_hex_len(m: Seq<u8>)
    ensures
        hex_of(m).len() == 2 * m.len(),
    decreases m.len(),
{
    if m.len() > 0 {
        lemma_hex_len(m.drop_first());
    }
}

/// Hex rendering distributes over concatenation.
proof fn lemma_hex_append(a: Seq<u8>, b: Seq<u8>)
    ensures
        hex_of(a + b) == hex_of(a) + hex_of(b),
    decreases a.len(),
{
    if a.len() == 0 {
        assert(a + b =~= b);
        assert(hex_of(a) + hex_of(b) =~= hex_of(b));
    } else {
        assert((a + b).drop_first() =~= a.drop_first() + b);
        lemma_hex_append(a.drop_first(), b);
        assert(hex_of(a + b) =~= hex_of(a) + hex_of(b));
    }
}

/// A hex-rendered byte string followed by a quote parses back exactly.
proof fn lemma_parse_hexbody(s: Seq<u8>, i: int, m: Seq<u8>)
    requires
        0 <= i,
        i + 2 * m.len() + 1 <= s.len(),
        s.subrange(i, i + 2 * m.len() as int) == hex_of(m),
        s[i + 2 * m.len()] == 0x22,
    ensures
        parse_hexbody(s, i) == Some((m, i + 2 * m.len() + 1)),
    decreases m.len(),
{
    lemma_hex_len(m);
    if m.len() == 0 {
        assert(s[i] == 0x22);
    } else {
        let hi = m[0] as int / 16;
        let lo = m[0] as int % 16;
        vstd::arithmetic::div_mod::lemma_fundamental_div_mod(m[0] as int, 16);
        vstd::arithmetic::div_mod::lemma_mod_bound(m[0] as int, 16);
        assert(0 <= lo < 16);
        assert(m[0] as int == 16 * hi + lo);
        assert(0 <= hi < 16);
        assert forall|k: int| 0 <= k < 2 * m.len() implies s[i + k] == hex_of(m)[k] by {
            assert(s.subrange(i, i + 2 * m.len() as int)[k] == s[i + k]);
        }
        assert(s[i + 0] == hex_of(m)[0]);
        assert(s[i + 1] == hex_of(m)[1]);
        assert(hex_of(m)[0] == hex_digit(hi));
        assert(hex_of(m)[1] == hex_digit(lo));
        lemma_hex_digit(hi);
        lemma_hex_digit(lo);
        lemma_hex_len(m.drop_first());
        assert(s.subrange(i + 2, i + 2 + 2 * (m.len() - 1) as int) =~= hex_of(m.drop_first()))
            by {
            assert forall|k: int|
                0 <= k < 2 * (m.len() - 1) implies s[i + 2 + k] == hex_of(m.drop_first())[k] by {
                assert(s[i + (k + 2)] == hex_of(m)[k + 2]);
                assert(hex_of(m)[k + 2] == hex_of(m.drop_first())[k]);
            }
        }
        lemma_parse_hexbody(s, i + 2, m.drop_first());
        assert((hex_val(s[i]) * 16 + hex_val(s[i + 1])) as u8 == m[0]);
        assert(seq![m[0]] + m.drop_first() =~= m);
    }
}

/// One canonically encoded event parses back exactly.
#[verifier::rlimit(50)]
proof fn lemma_parse_event(s: Seq<u8>, i: int, ev: (u64, Seq<u8>))
    requires
        0 <= i,
        i + json_of_event(ev).len() <= s.len(),
        s.subrange(i, i + json_of_event(ev).len() as int) == json_of_event(ev),
    ensures
        parse_event(s, i) == Some((ev, i + json_of_event(ev).len() as int)),
{
    let e = json_of_event(ev);
    lemma_dec_of(ev.0 as nat);
    lemma_hex_len(ev.1);
    let d = dec_of(ev.0 as nat).len() as int;
    let h = hex_of(ev.1).len() as int;
    let l = e.len() as int;
    assert(l == 6 + d + 8 + h + 2);
    assert forall|k: int| 0 <= k < l implies s[i + k] == e[k] by {
        assert(s.subrange(i, i + l)[k] == s[i + k]);
    }
    assert(s.subrange(i, i + 6) =~= ev_head()) by {
        assert forall|k: int| 0 <= k < 6 implies s.subrange(i, i + 6)[k] == ev_head()[k] by {
            assert(s[i + k] == e[k]);
            assert(e[k] == ev_head()[k]);
        }
    }
    assert(matches_at(s, i, ev_head()));
    assert(s.subrange(i + 6, i + 6 + d) =~= dec_of(ev.0 as nat)) by {
        assert forall|k: int|
            0 <= k < d implies s.subrange(i + 6, i + 6 + d)[k] == dec_of(ev.0 as nat)[k] by {
            assert(s.subrange(i + 6, i + 6 + d)[k] == s[i + (6 + k)]);
            assert(s[i + (6 + k)] == e[6 + k]);
            assert(e[6 + k] == dec_of(ev.0 as nat)[k]);
        }
    }
    assert(s[i + (6 + d)] == e[6 + d]);
    assert(e[6 + d] == ev_mid()[0]);
    assert(!is_digit(s[i + 6 + d]));
    lemma_parse_num(s, i + 6, ev.0);
    let j = i + 6 + d;
    assert(s.subrange(j, j + 8) =~= ev_mid()) by {
        assert forall|k: int| 0 <= k < 8 implies s.subrange(j, j + 8)[k] == ev_mid()[k] by {
            assert(s.subrange(j, j + 8)[k] == s[i + (6 + d + k)]);
            assert(s[i + (6 + d + k)] == e[6 + d + k]);
            assert(e[6 + d + k] == ev_mid()[k]);
        }
    }
    assert(matches_at(s, j, ev_mid()));
    assert(s.subrange(j + 8, j + 8 + h) =~= hex_of(ev.1)) by {
        assert forall|k: int|
            0 <= k < h implies s.subrange(j + 8, j + 8 + h)[k] == hex_of(ev.1)[k] by {
            assert(s.subrange(j + 8, j + 8 + h)[k] == s[i + (6 + d + 8 + k)]);
            assert(s[i + (6 + d + 8 + k)] == e[6 + d + 8 + k]);
            assert(e[6 + d + 8 + k] == hex_of(ev.1)[k]);
        }
    }
    assert(s[i + (6 + d + 8 + h)] == e[6 + d + 8 + h]);
    assert(e[6 + d + 8 + h] == 0x22);
    lemma_parse_hexbody(s, j + 8, ev.1);
    let k2 = j + 8 + h + 1;
    assert(s[i + (6 + d + 8 + h + 1)] == e[6 + d + 8 + h + 1]);
    assert(e[6 + d + 8 + h + 1] == 0x7d);
    assert(s[k2] == 0x7d);
    assert(parse_event(s, i) == Some((ev, k2 + 1)));
}

/// A canonically encoded document tail parses back exactly.
#[verifier::rlimit(50)]
proof fn lemma_parse_tail(s: Seq<u8>, i: int, es: Seq<(u64, Seq<u8>)>)
    requires
        0 <= i <= s.len(),
        s.subrange(i, s.len() as int) == json_tail(es),
    ensures
        parse_rest(s, i) == Some(es),
    decreases es.len(),
{
    let t = json_tail(es);
    assert(t.len() == s.len() - i);
    assert forall|k: int| 0 <= k < t.len() implies s[i + k] == t[k] by {
        assert(s.subrange(i, s.len() as int)[k] == s[i + k]);
    }
    if es.len() == 0 {
        assert(s[i + 0] == t[0]);
        assert(s[i] == 0x5d);
    } else {
        let e = json_of_event(es[0]);
        let l = e.len() as int;
        assert(s[i + 0] == t[0]);
        assert(t[0] == 0x2c);
        assert(s[i] == 0x2c);
        assert(s.subrange(i + 1, i + 1 + l) =~= e) by {
            assert forall|k: int| 0 <= k < l implies s.subrange(i + 1, i + 1 + l)[k] == e[k] by {
                assert(s.subrange(i + 1, i + 1 + l)[k] == s[i + (1 + k)]);
                assert(s[i + (1 + k)] == t[1 + k]);
                assert(t[1 + k] == e[k]);
            }
        }
        lemma_parse_event(s, i + 1, es[0]);
        let j = i + 1 + l;
        assert(s.subrange(j, s.len() as int) =~= json_tail(es.skip(1))) by {
            assert forall|k: int|
                0 <= k < s.len() - j implies s.subrange(j, s.len() as int)[k] == json_tail(
                es.skip(1),
            )[k] by {
                assert(s.subrange(j, s.len() as int)[k] == s[i + (1 + l + k)]);
                assert(s[i + (1 + l + k)] == t[1 + l + k]);
                assert(t[1 + l + k] == json_tail(es.skip(1))[k]);
            }
        }
        lemma_parse_tail(s, j, es.skip(1));
        assert(seq![es[0]] + es.skip(1) =~= es);
    }
}

/// Round trip of the document layer: parsing the canonical document of any
/// event collection recovers the collection exactly.
#[verifier::rlimit(50)]
pub proof fn lemma_parse_json_of(es: Seq<(u64, Seq<u8>)>)
    ensures
        parse_events_spec(json_of(es)) == Some(es),
{
    let s = json_of(es);
    if es.len() == 0 {
        assert(s.len() == 2 && s[0] == 0x5b && s[1] == 0x5d);
    } else {
        let e = json_of_event(es[0]);
        let l = e.len() as int;
        assert(s[0] == 0x5b);
        assert(s[1] == e[0]);
        assert(e[0] == ev_head()[0]);
        assert(s.subrange(1, 1 + l) =~= e) by {
            assert forall|k: int| 0 <= k < l implies s.subrange(1, 1 + l)[k] == e[k] by {
                assert(s.subrange(1, 1 + l)[k] == s[1 + k]);
                assert(s[1 + k] == e[k]);
            }
        }
        lemma_parse_event(s, 1, es[0]);
        assert(s.subrange(1 + l, s.len() as int) =~= json_tail(es.skip(1))) by {
            assert forall|k: int|
                0 <= k < s.len() - (1 + l) implies s.subrange(1 + l, s.len() as int)[k]
                == json_tail(es.skip(1))[k] by {
                assert(s.subrange(1 + l, s.len() as int)[k] == s[1 + l + k]);
                assert(s[1 + l + k] == json_tail(es.skip(1))[k]);
            }
        }
        lemma_parse_tail(s, 1 + l, es.skip(1));
        assert(seq![es[0]] + es.skip(1) =~= es);
    }
}

/// Round trip of the event codec: the canonical document of any event
/// collection parses back to exactly that collection's model, and every
/// message in it is valid UTF-8 -- so a decoder holding the contracts of
/// `parse_events` is owed success on it and returns the collection.
pub proof fn lemma_compressed_events_decode(es: Seq<JsonEvent>)
    ensures
        parse_events_spec(json_of(events_model(es))) == Some(events_model(es)),
        all_utf8(events_model(es)),
{
    broadcast use vstd::utf8::encode_utf8_valid_utf8;

    lemma_parse_json_of(events_model(es));
    assert forall|k: int|
        0 <= k < events_model(es).len() implies #[trigger] vstd::utf8::valid_utf8(
        events_model(es)[k].1,
    ) by {
        assert(events_model(es)[k].1 == vstd::utf8::encode_utf8(es[k].msg@));
    }
}

/// Event collections with the same document model agree in every timestamp
/// and every message.
pub proof fn lemma_model_injective(a: Seq<JsonEvent>, b: Seq<JsonEvent>)
    requires
        events_model(a) == events_model(b),
    ensures
        a.len() == b.len(),
        forall|k: int| 0 <= k < a.len() ==> a[k].ts == b[k].ts && a[k].msg@ == b[k].msg@,
{
    assert(events_model(a).len() == a.len());
    assert(events_model(b).len() == b.len());
    assert forall|k: int| 0 <= k < a.len() implies a[k].ts == b[k].ts && a[k].msg@ == b[k].msg@ by {
        assert(events_model(a)[k] == event_model(a[k]));
        assert(events_model(b)[k] == event_model(b[k]));
        assert(event_model(a[k]).0 == event_model(b[k]).0);
        assert(event_model(a[k]).1 == event_model(b[k]).1);
        vstd::utf8::encode_utf8_decode_utf8(a[k].msg@);
        vstd::utf8::encode_utf8_decode_utf8(b[k].msg@);
    }
}


// ---------------------------------------------------------------------------
// Executable encoder.
// ---------------------------------------------------------------------------

/// Appends the canonical decimal rendering of `n`.
fn push_dec(out: &mut Vec<u8>, n: u64)
    ensures
        final(out)@ == old(out)@ + dec_of(n as nat),
    decreases n,
{
    if n < 10 {
        out.push(0x30 + (n as u8));
        proof {
            assert(out@ =~= old(out)@ + dec_of(n as nat));
        }
    } else {
        push_dec(out, n / 10);
        out.push(0x30 + ((n % 10) as u8));
        proof {
            assert(out@ =~= old(out)@ + dec_of(n as nat));
        }
    }
}

/// Appends the lowercase hex rendering of `m`.
#[verifier::loop_isolation(false)]
fn push_hex(out: &mut Vec<u8>, m: &[u8])
    ensures
        final(out)@ == old(out)@ + hex_of(m@),
{
    let ghost base = out@;
    let mut i: usize = 0;
    while i < m.len()
        invariant
            i <= m@.len(),
            out@ == base + hex_of(m@.take(i as int)),
        decreases m@.len() - i,
    {
        let b = m[i];
        let hi = b / 16;
        let lo = b % 16;
        let c1 = if hi < 10 {
            0x30 + hi
        } else {
            0x61 + (hi - 10)
        };
        let c2 = if lo < 10 {
            0x30 + lo
        } else {
            0x61 + (lo - 10)
        };
        out.push(c1);
        out.push(c2);
        proof {
            let x = m@[i as int];
            assert(m@.take(i as int + 1) =~= m@.take(i as int) + seq![x]);
            lemma_hex_append(m@.take(i as int), seq![x]);
            assert(seq![x].drop_first() =~= Seq::<u8>::empty());
            assert(hex_of(Seq::<u8>::empty()) =~= Seq::<u8>::empty());
            assert(hex_of(seq![x]) =~= seq![hex_digit(x as int / 16), hex_digit(x as int % 16)]);
            assert(c1 == hex_digit(x as int / 16));
            assert(c2 == hex_digit(x as int % 16));
            assert(out@ =~= base + hex_of(m@.take(i as int + 1)));
        }
        i = i + 1;
    }
    proof {
        assert(m@.take(m@.len() as int) =~= m@);
    }
}

/// Appends the canonical document bytes of one event.
fn push_event(out: &mut Vec<u8>, e: &JsonEvent)
    ensures
        final(out)@ == old(out)@ + json_of_event(event_model(*e)),
{
    out.push(0x7b);
    out.push(0x22);
    out.push(0x74);
    out.push(0x73);
    out.push(0x22);
    out.push(0x3a);
    push_dec(out, e.ts);
    out.push(0x2c);
    out.push(0x22);
    out.push(0x6d);
    out.push(0x73);
    out.push(0x67);
    out.push(0x22);
    out.push(0x3a);
    out.push(0x22);
    push_hex(out, e.msg.as_str().as_bytes());
    out.push(0x22);
    out.push(0x7d);
    proof {
        assert(out@ =~= old(out)@ + json_of_event(event_model(*e)));
    }
}

/// The document bytes contributed by the events after the first: a comma
/// and the event bytes, for each.
spec fn items_of(es: Seq<(u64, Seq<u8>)>) -> Seq<u8>
    decreases es.len(),
{
    if es.len() == 0 {
        Seq::empty()
    } else {
        seq![0x2cu8] + json_of_event(es[0]) + items_of(es.skip(1))
    }
}

proof fn lemma_items_snoc(es: Seq<(u64, Seq<u8>)>, ev: (u64, Seq<u8>))
    ensures
        items_of(es.push(ev)) == items_of(es) + seq![0x2cu8] + json_of_event(ev),
    decreases es.len(),
{
    if es.len() == 0 {
        assert(es.push(ev).skip(1) =~= Seq::<(u64, Seq<u8>)>::empty());
        assert(es.push(ev)[0] == ev);
        assert(items_of(Seq::<(u64, Seq<u8>)>::empty()) =~= Seq::<u8>::empty());
        assert(items_of(es) =~= Seq::<u8>::empty());
        assert(items_of(es.push(ev)) =~= items_of(es) + seq![0x2cu8] + json_of_event(ev));
    } else {
        assert(es.push(ev).skip(1) =~= es.skip(1).push(ev));
        lemma_items_snoc(es.skip(1), ev);
        assert(items_of(es.push(ev)) =~= items_of(es) + seq![0x2cu8] + json_of_event(ev));
    }
}

proof fn lemma_tail_items(es: Seq<(u64, Seq<u8>)>)
    ensures
        json_tail(es) == items_of(es) + seq![0x5du8],
    decreases es.len(),
{
    if es.len() == 0 {
        assert(json_tail(es) =~= items_of(es) + seq![0x5du8]);
    } else {
        lemma_tail_items(es.skip(1));
        assert(json_tail(es) =~= items_of(es) + seq![0x5du8]);
    }
}

/// Serializes an event collection to its canonical document bytes.
#[verifier::loop_isolation(false)]
pub fn encode_events(events: &Vec<JsonEvent>) -> (r: Vec<u8>)
    ensures
        r@ == json_of(events_model(events@)),
{
    let ghost m = events_model(events@);
    let mut out: Vec<u8> = Vec::new();
    out.push(0x5b);
    if events.len() == 0 {
        out.push(0x5d);
        proof {
            assert(out@ =~= json_of(m));
        }
        return out;
    }
    push_event(&mut out, &events[0]);
    proof {
        assert(m[0] == event_model(events@[0]));
        assert(m.subrange(1, 1) =~= Seq::<(u64, Seq<u8>)>::empty());
        assert(out@ =~= seq![0x5bu8] + json_of_event(m[0]) + items_of(m.subrange(1, 1)));
    }
    let mut k: usize = 1;
    while k < events.len()
        invariant
            1 <= k <= events@.len(),
            out@ == seq![0x5bu8] + json_of_event(m[0]) + items_of(m.subrange(1, k as int)),
        decreases events@.len() - k,
    {
        out.push(0x2c);
        push_event(&mut out, &events[k]);
        proof {
            assert(m.subrange(1, k as int + 1) =~= m.subrange(1, k as int).push(m[k as int]));
            lemma_items_snoc(m.subrange(1, k as int), m[k as int]);
            assert(m[k as int] == event_model(events@[k as int]));
            assert(out@ =~= seq![0x5bu8] + json_of_event(m[0]) + items_of(
                m.subrange(1, k as int + 1),
            ));
        }
        k = k + 1;
    }
    out.push(0x5d);
    proof {
        lemma_tail_items(m.skip(1));
        assert(m.subrange(1, m.len() as int) =~= m.skip(1));
        assert(out@ =~= json_of(m));
    }
    out
}

/// Serializes the collection to its canonical document and compresses it.
///
/// Succeeds on every collection whose document the block format can carry;
/// the result decompresses back to exactly that document.
pub fn fastlog_compress_json(events: &Vec<JsonEvent>) -> (r: Result<Vec<u8>, CodecError>)
    ensures
        r matches Ok(c) ==> c@ == lz4_of(json_of(events_model(events@))) && unlz4_of(c@)
            == Some(json_of(events_model(events@))),
        r is Ok <==> json_of(events_model(events@)).len() <= MAX_PAYLOAD,
        r matches Err(e) ==> e == CodecError::FormatError,
{
    let doc = encode_events(events);
    compress_raw(doc.as_slice())
}

// ---------------------------------------------------------------------------
// Executable decoder.
// ---------------------------------------------------------------------------

/// Relies on `String::from_utf8`: it succeeds exactly on valid UTF-8 input,
/// and the returned string's characters encode back to the input bytes.
#[verifier::external_body]
fn string_from_utf8(b: Vec<u8>) -> (r: Option<String>)
    ensures
        r matches Some(t) ==> vstd::utf8::encode_utf8(t@) == b@,
        r is Some <==> vstd::utf8::valid_utf8(b@),
{
    String::from_utf8(b).ok()
}

/// Reads a canonical decimal `u64` at `i`, as `parse_num` specifies.
#[verifier::loop_isolation(false)]
fn parse_num_at(s: &[u8], i: usize) -> (r: Option<(u64, usize)>)
    requires
        i <= s@.len(),
    ensures
        r matches Some(p) ==> parse_num(s@, i as int) == Some((p.0, p.1 as int)) && i < p.1
            <= s@.len(),
        r is None ==> parse_num(s@, i as int) is None,
{
    proof {
        lemma_dre_props(s@, i as int);
    }
    if i >= s.len() || s[i] < 0x30 || s[i] > 0x39 {
        return None;
    }
    if s[i] == 0x30 {
        if i + 1 < s.len() && 0x30 <= s[i + 1] && s[i + 1] <= 0x39 {
            proof {
                assert(digit_run_end(s@, i as int) == digit_run_end(s@, i as int + 1));
                assert(digit_run_end(s@, i as int + 1) == digit_run_end(s@, i as int + 2));
                lemma_dre_props(s@, i as int + 2);
            }
            return None;
        }
        proof {
            lemma_dre_props(s@, i as int + 1);
            if digit_run_end(s@, i as int + 1) > i as int + 1 {
                assert(is_digit(s@[i as int + 1]));
                assert(false);
            }
            assert(digit_run_end(s@, i as int) == i + 1);
            assert(s@.subrange(i as int, i as int + 1) =~= seq![0x30u8]);
            assert(s@.subrange(i as int, i as int + 1).drop_last() =~= Seq::<u8>::empty());
            assert(dec_val(Seq::<u8>::empty()) == 0);
            assert(dec_val(s@.subrange(i as int, i as int + 1)) == 0);
        }
        return Some((0, i + 1));
    }
    let mut j: usize = i;
    let mut acc: u64 = 0;
    proof {
        assert(s@.subrange(i as int, i as int) =~= Seq::<u8>::empty());
    }
    while j < s.len() && s[j] >= 0x30 && s[j] <= 0x39
        invariant
            i <= j <= s@.len(),
            digit_run_end(s@, i as int) == digit_run_end(s@, j as int),
            acc == dec_val(s@.subrange(i as int, j as int)),
        decreases s@.len() - j,
    {
        let d = s[j] - 0x30;
        proof {
            assert(s@.subrange(i as int, j as int + 1).drop_last() =~= s@.subrange(
                i as int,
                j as int,
            ));
            assert(s@.subrange(i as int, j as int + 1).last() == s@[j as int]);
        }
        if acc > (u64::MAX - (d as u64)) / 10 {
            proof {
                vstd::arithmetic::div_mod::lemma_fundamental_div_mod(
                    (u64::MAX - (d as u64)) as int,
                    10,
                );
                vstd::arithmetic::div_mod::lemma_mod_bound((u64::MAX - (d as u64)) as int, 10);
                assert(dec_val(s@.subrange(i as int, j as int + 1)) > u64::MAX);
                assert(digit_run_end(s@, j as int) == digit_run_end(s@, j as int + 1));
                lemma_dre_props(s@, j as int + 1);
                lemma_dec_val_mono(s@, i as int, j as int + 1, digit_run_end(s@, i as int));
            }
            return None;
        }
        acc = acc * 10 + (d as u64);
        proof {
            assert(digit_run_end(s@, j as int) == digit_run_end(s@, j as int + 1));
        }
        j = j + 1;
    }
    proof {
        assert(digit_run_end(s@, j as int) == j);
        assert(j > i);
        assert(s@.subrange(i as int, j as int)[0] == s@[i as int]);
    }
    Some((acc, j))
}

/// Reads hex pairs up to a closing quote, as `parse_hexbody` specifies.
#[verifier::loop_isolation(false)]
fn parse_hex_at(s: &[u8], i: usize) -> (r: Option<(Vec<u8>, usize)>)
    requires
        i <= s@.len(),
    ensures
        r matches Some(p) ==> parse_hexbody(s@, i as int) == Some((p.0@, p.1 as int)) && i < p.1
            <= s@.len(),
        r is None ==> parse_hexbody(s@, i as int) is None,
{
    let mut out: Vec<u8> = Vec::new();
    let mut j: usize = i;
    while j < s.len()
        invariant
            i <= j <= s@.len(),
            (parse_hexbody(s@, i as int) is Some) == (parse_hexbody(s@, j as int) is Some),
            parse_hexbody(s@, j as int) matches Some(p) ==> parse_hexbody(s@, i as int) == Some(
                (out@ + p.0, p.1),
            ),
        decreases s@.len() - j,
    {
        let b = s[j];
        if b == 0x22 {
            proof {
                assert(parse_hexbody(s@, j as int) == Some((Seq::<u8>::empty(), j as int + 1)));
                assert(out@ + Seq::<u8>::empty() =~= out@);
            }
            return Some((out, j + 1));
        }
        if j + 1 >= s.len() {
            return None;
        }
        let b2 = s[j + 1];
        if !((0x30 <= b && b <= 0x39) || (0x61 <= b && b <= 0x66)) {
            return None;
        }
        if !((0x30 <= b2 && b2 <= 0x39) || (0x61 <= b2 && b2 <= 0x66)) {
            return None;
        }
        let v1 = if b <= 0x39 {
            b - 0x30
        } else {
            b - 0x61 + 10
        };
        let v2 = if b2 <= 0x39 {
            b2 - 0x30
        } else {
            b2 - 0x61 + 10
        };
        let ghost o0 = out@;
        out.push(v1 * 16 + v2);
        proof {
            assert(v1 * 16 + v2 == (hex_val(s@[j as int]) * 16 + hex_val(s@[j as int + 1])) as u8);
            match parse_hexbody(s@, j as int + 2) {
                Some(p) => {
                    assert(parse_hexbody(s@, j as int) == Some(
                        (seq![(hex_val(s@[j as int]) * 16 + hex_val(s@[j as int + 1])) as u8] + p.0, p.1),
                    ));
                    assert(o0 + (seq![(hex_val(s@[j as int]) * 16 + hex_val(s@[j as int + 1])) as u8]
                        + p.0) =~= out@ + p.0);
                },
                None => {
                    assert(parse_hexbody(s@, j as int) is None);
                },
            }
        }
        j = j + 2;
    }
    None
}

/// Reads one event object at `i`, as `parse_event` specifies.
fn parse_event_at(s: &[u8], i: usize) -> (r: Option<(u64, Vec<u8>, usize)>)
    requires
        i <= s@.len(),
    ensures
        r matches Some(p) ==> parse_event(s@, i as int) == Some(((p.0, p.1@), p.2 as int)) && i
            < p.2 <= s@.len(),
        r is None ==> parse_event(s@, i as int) is None,
{
    if s.len() - i < 6 {
        proof {
            assert(!matches_at(s@, i as int, ev_head()));
        }
        return None;
    }
    if !(s[i] == 0x7b && s[i + 1] == 0x22 && s[i + 2] == 0x74 && s[i + 3] == 0x73 && s[i + 4]
        == 0x22 && s[i + 5] == 0x3a) {
        proof {
            if matches_at(s@, i as int, ev_head()) {
                assert forall|k: int| 0 <= k < 6 implies s@[i + k] == ev_head()[k] by {
                    assert(s@.subrange(i as int, i as int + 6)[k] == s@[i + k]);
                }
                assert(s@[i as int + 0] == 0x7b);
                assert(s@[i as int + 1] == 0x22);
                assert(s@[i as int + 2] == 0x74);
                assert(s@[i as int + 3] == 0x73);
                assert(s@[i as int + 4] == 0x22);
                assert(s@[i as int + 5] == 0x3a);
            }
        }
        return None;
    }
    proof {
        assert(s@.subrange(i as int, i as int + 6) =~= ev_head());
        assert(matches_at(s@, i as int, ev_head()));
    }
    let num = parse_num_at(s, i + 6);
    let (ts, j) = match num {
        None => {
            return None;
        },
        Some(p) => p,
    };
    if s.len() - j < 8 {
        proof {
            assert(!matches_at(s@, j as int, ev_mid()));
        }
        return None;
    }
    if !(s[j] == 0x2c && s[j + 1] == 0x22 && s[j + 2] == 0x6d && s[j + 3] == 0x73 && s[j + 4]
        == 0x67 && s[j + 5] == 0x22 && s[j + 6] == 0x3a && s[j + 7] == 0x22) {
        proof {
            if matches_at(s@, j as int, ev_mid()) {
                assert forall|k: int| 0 <= k < 8 implies s@[j + k] == ev_mid()[k] by {
                    assert(s@.subrange(j as int, j as int + 8)[k] == s@[j + k]);
                }
                assert(s@[j as int + 0] == 0x2c);
                assert(s@[j as int + 1] == 0x22);
                assert(s@[j as int + 2] == 0x6d);
                assert(s@[j as int + 3] == 0x73);
                assert(s@[j as int + 4] == 0x67);
                assert(s@[j as int + 5] == 0x22);
                assert(s@[j as int + 6] == 0x3a);
                assert(s@[j as int + 7] == 0x22);
            }
        }
        return None;
    }
    proof {
        assert(s@.subrange(j as int, j as int + 8) =~= ev_mid());
        assert(matches_at(s@, j as int, ev_mid()));
    }
    let hx = parse_hex_at(s, j + 8);
    let (m, k2) = match hx {
        None => {
            return None;
        },
        Some(p) => p,
    };
    if k2 < s.len() && s[k2] == 0x7d {
        return Some((ts, m, k2 + 1));
    }
    None
}

/// Parses a canonical document into events, validating structure and
/// message encoding; returns `SchemaError` exactly when the document is
/// not well formed or a message is not valid UTF-8.
#[verifier::loop_isolation(false)]
pub fn parse_events(s: &[u8]) -> (r: Result<Vec<JsonEvent>, CodecError>)
    ensures
        r matches Ok(es) ==> parse_events_spec(s@) == Some(events_model(es@)),
        r is Ok <==> (parse_events_spec(s@) matches Some(ms) && all_utf8(ms)),
        r matches Err(e) ==> e == CodecError::SchemaError,
{
    broadcast use vstd::utf8::encode_utf8_valid_utf8;

    if s.len() < 2 || s[0] != 0x5b {
        return Err(CodecError::SchemaError);
    }
    if s[1] == 0x5d {
        if s.len() == 2 {
            let es: Vec<JsonEvent> = Vec::new();
            proof {
                assert(events_model(es@) =~= Seq::<(u64, Seq<u8>)>::empty());
            }
            return Ok(es);
        }
        return Err(CodecError::SchemaError);
    }
    let first = parse_event_at(s, 1);
    let (ts0, m0, j0) = match first {
        None => {
            return Err(CodecError::SchemaError);
        },
        Some(p) => p,
    };
    let ghost mm0: Seq<u8> = m0@;
    let conv0 = string_from_utf8(m0);
    let msg0 = match conv0 {
        Some(x) => x,
        None => {
            proof {
                match parse_rest(s@, j0 as int) {
                    Some(rest) => {
                        assert(parse_events_spec(s@) == Some(seq![(ts0, mm0)] + rest));
                        assert((seq![(ts0, mm0)] + rest)[0].1 == mm0);
                        assert(!all_utf8(seq![(ts0, mm0)] + rest));
                    },
                    None => {
                        assert(parse_events_spec(s@) is None);
                    },
                }
            }
            return Err(CodecError::SchemaError);
        },
    };
    let mut es: Vec<JsonEvent> = Vec::new();
    es.push(JsonEvent { ts: ts0, msg: msg0 });
    proof {
        assert(events_model(es@) =~= seq![(ts0, mm0)]);
    }
    let mut pos: usize = j0;
    while pos < s.len()
        invariant
            1 <= pos <= s@.len(),
            (parse_events_spec(s@) is Some) == (parse_rest(s@, pos as int) is Some),
            parse_rest(s@, pos as int) matches Some(rest) ==> parse_events_spec(s@) == Some(
                events_model(es@) + rest,
            ),
        decreases s@.len() - pos,
    {
        let b = s[pos];
        if b == 0x5d {
            if pos + 1 == s.len() {
                proof {
                    assert(parse_rest(s@, pos as int) == Some(Seq::<(u64, Seq<u8>)>::empty()));
                    assert(events_model(es@) + Seq::<(u64, Seq<u8>)>::empty() =~= events_model(
                        es@,
                    ));
                    assert(all_utf8(events_model(es@)));
                }
                return Ok(es);
            }
            return Err(CodecError::SchemaError);
        }
        if b != 0x2c {
            return Err(CodecError::SchemaError);
        }
        let nxt = parse_event_at(s, pos + 1);
        let (ts, m, j) = match nxt {
            None => {
                return Err(CodecError::SchemaError);
            },
            Some(p) => p,
        };
        let ghost mmk: Seq<u8> = m@;
        let conv = string_from_utf8(m);
        let msg = match conv {
            Some(x) => x,
            None => {
                proof {
                    match parse_rest(s@, j as int) {
                        Some(rest2) => {
                            assert(parse_rest(s@, pos as int) == Some(seq![(ts, mmk)] + rest2));
                            assert((events_model(es@) + (seq![(ts, mmk)] + rest2))[
                                es@.len() as int].1 == mmk);
                        },
                        None => {
                            assert(parse_rest(s@, pos as int) is None);
                        },
                    }
                }
                return Err(CodecError::SchemaError);
            },
        };
        let ghost es0 = es@;
        es.push(JsonEvent { ts, msg });
        proof {
            assert(events_model(es@) =~= events_model(es0).push((ts, mmk)));
            match parse_rest(s@, j as int) {
                Some(rest2) => {
                    assert(parse_rest(s@, pos as int) == Some(seq![(ts, mmk)] + rest2));
                    assert(events_model(es0) + (seq![(ts, mmk)] + rest2) =~= events_model(es@)
                        + rest2);
                },
                None => {
                    assert(parse_rest(s@, pos as int) is None);
                },
            }
        }
        pos = j;
    }
    Err(CodecError::SchemaError)
}

/// Decompresses a snapshot and parses the structured event document.
///
/// `FormatError` exactly when the block is malformed; `SchemaError` when
/// the block decompresses but its content is not a well-formed document of
/// UTF-8 events; never panics.
pub fn fastlog_decompress_json(data: &[u8]) -> (r: Result<Vec<JsonEvent>, CodecError>)
    ensures
        r matches Ok(es) ==> (unlz4_of(data@) matches Some(doc) && parse_events_spec(doc) == Some(
            events_model(es@),
        )),
        r is Ok <==> (unlz4_of(data@) matches Some(doc) && parse_events_spec(doc) matches Some(ms)
            && all_utf8(ms)),
        r matches Err(e) ==> (e == CodecError::FormatError <==> unlz4_of(data@) is None),
{
    let doc = match decompress_raw(data) {
        Ok(d) => d,
        Err(_) => {
            return Err(CodecError::FormatError);
        },
    };
    parse_events(doc.as_slice())
}

} // verus!
