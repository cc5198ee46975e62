//! The JSON wire shape of the pipeline, specified byte by byte.
//!
//! The query endpoint serves a snapshot as
//! `{"device_id":<str>,"ble":[<record>,...]}` and the forwarder posts a
//! single observation as `{"device_id":<str>,<record fields>}`, where a
//! record holds the fields `address`, `rssi`, `manufacture_id`, `name`
//! and `time`. The spec functions here define that shape exactly, over
//! the UTF-8 bytes of the emitted text; the encoder is verified to
//! produce it and the decoder (see [`crate::decoder`]) to accept exactly
//! it.

use vstd::prelude::*;

verus! {

use vstd::utf8::{encode_utf8, encode_scalar, valid_utf8, has_width_1_encoding, is_scalar};
use crate::observation::{BleInfo, BleInfoView};

/// The UTF-8 bytes of a piece of fixed text.
pub open spec fn lit(s: &str) -> Seq<u8> {
    encode_utf8(s@)
}

/// The hexadecimal digit byte (lower case) for a value below 16.
pub open spec fn hex_digit(n: u8) -> u8 {
    if n < 10 {
        (0x30 + n) as u8
    } else {
        (0x57 + n) as u8
    }
}

/// The JSON escape of one byte of UTF-8 text: quote and backslash get a
/// backslash escape, control bytes a `\u00..` escape, and every other
/// byte stands for itself.
pub open spec fn esc_byte(b: u8) -> Seq<u8> {
    if b == 0x22 {
        seq![0x5cu8, 0x22u8]
    } else if b == 0x5c {
        seq![0x5cu8, 0x5cu8]
    } else if b < 0x20 {
        seq![0x5cu8, 0x75u8, 0x30u8, 0x30u8, hex_digit(b / 16), hex_digit(b % 16)]
    } else {
        seq![b]
    }
}

/// The JSON escape of a whole byte sequence.
pub open spec fn esc(s: Seq<u8>) -> Seq<u8>
    decreases s.len(),
{
    if s.len() == 0 {
        seq![]
    } else {
        esc_byte(s[0]) + esc(s.drop_first())
    }
}

/// A JSON string token: the escaped bytes between quotes.
pub open spec fn str_tok(bs: Seq<u8>) -> Seq<u8> {
    seq![0x22u8] + esc(bs) + seq![0x22u8]
}

/// The canonical decimal digits of `n`: no sign, no leading zero.
pub open spec fn dec_digits(n: nat) -> Seq<u8>
    decreases n,
{
    if n < 10 {
        seq![(0x30 + n) as u8]
    } else {
        dec_digits(n / 10).push((0x30 + (n % 10)) as u8)
    }
}

/// A JSON integer token: canonical decimal, minus sign when negative.
pub open spec fn int_tok(i: int) -> Seq<u8> {
    if i < 0 {
        seq![0x2du8] + dec_digits((-i) as nat)
    } else {
        dec_digits(i as nat)
    }
}

/// Comma-separated decimal tokens for the bytes of a payload.
pub open spec fn bytes_items(bs: Seq<u8>) -> Seq<u8>
    decreases bs.len(),
{
    if bs.len() == 0 {
        seq![]
    } else if bs.len() == 1 {
        dec_digits(bs[0] as nat)
    } else {
        dec_digits(bs[0] as nat) + seq![0x2cu8] + bytes_items(bs.drop_first())
    }
}

/// A manufacturer payload: `null` when absent, else a JSON array of the
/// payload's bytes as decimal numbers.
pub open spec fn payload_tok(p: Option<Seq<u8>>) -> Seq<u8> {
    match p {
        Option::None => lit("null"),
        Option::Some(bs) => seq![0x5bu8] + bytes_items(bs) + seq![0x5du8],
    }
}

/// The five fields of one observation record, in the served order.
#[verifier::opaque]
pub open spec fn fields_tok(o: BleInfoView) -> Seq<u8> {
    lit("\"address\":") + str_tok(encode_utf8(o.address)) + lit(",\"rssi\":") + int_tok(o.rssi)
        + lit(",\"manufacture_id\":") + payload_tok(o.manufacture_id) + lit(",\"name\":")
        + str_tok(encode_utf8(o.name)) + lit(",\"time\":") + str_tok(encode_utf8(o.time))
}

/// One observation record as a JSON object.
pub open spec fn rec_tok(o: BleInfoView) -> Seq<u8> {
    seq![0x7bu8] + fields_tok(o) + seq![0x7du8]
}

/// Comma-separated records for the snapshot's `ble` array.
pub open spec fn recs_items(items: Seq<BleInfoView>) -> Seq<u8>
    decreases items.len(),
{
    if items.len() == 0 {
        seq![]
    } else if items.len() == 1 {
        rec_tok(items[0])
    } else {
        rec_tok(items[0]) + seq![0x2cu8] + recs_items(items.drop_first())
    }
}

/// The whole query-endpoint document for a snapshot.
pub open spec fn snapshot_tok(device_id: Seq<char>, items: Seq<BleInfoView>) -> Seq<u8> {
    lit("{\"device_id\":") + str_tok(encode_utf8(device_id)) + lit(",\"ble\":[") + recs_items(
        items,
    ) + lit("]}")
}

/// The forward-endpoint document for a single observation.
pub open spec fn forward_tok(device_id: Seq<char>, o: BleInfoView) -> Seq<u8> {
    lit("{\"device_id\":") + str_tok(encode_utf8(device_id)) + seq![0x2cu8] + fields_tok(o)
        + seq![0x7du8]
}

/// The mathematical values of a sequence of observations.
pub open spec fn views_of(s: Seq<BleInfo>) -> Seq<BleInfoView> {
    s.map_values(|o: BleInfo| o@)
}

// ------------------------------------------------------------------
// Facts about the escape and digit functions.
// ------------------------------------------------------------------

pub(crate) proof fn lemma_esc_concat(a: Seq<u8>, b: Seq<u8>)
    ensures
        esc(a + b) == esc(a) + esc(b),
    decreases a.len(),
{
    if a.len() == 0 {
        assert(a + b =~= b);
        assert(esc(a) + esc(b) =~= esc(b));
    } else {
        assert((a + b).drop_first() =~= a.drop_first() + b);
        lemma_esc_concat(a.drop_first(), b);
        assert(esc(a + b) =~= esc(a) + esc(b));
    }
}

pub(crate) proof fn lemma_esc_push(a: Seq<u8>, b: u8)
    ensures
        esc(a.push(b)) == esc(a) + esc_byte(b),
{
    let s1 = seq![b];
    assert(s1.len() == 1 && s1[0] == b);
    assert(s1.drop_first() =~= Seq::<u8>::empty());
    assert(esc(s1.drop_first()).len() == 0);
    assert(esc(s1) =~= esc_byte(b));
    assert(a.push(b) =~= a + s1);
    lemma_esc_concat(a, s1);
    assert(esc(a.push(b)) =~= esc(a) + esc_byte(b));
}

/// True when every byte is ASCII.
pub open spec fn ascii_only(s: Seq<u8>) -> bool {
    forall|i: int| 0 <= i < s.len() ==> s[i] < 0x80
}

/// A sequence of ASCII bytes is valid UTF-8.
proof fn lemma_ascii_valid(s: Seq<u8>)
    requires
        ascii_only(s),
    ensures
        valid_utf8(s),
    decreases s.len(),
{
    if s.len() > 0 {
        let b0 = s[0];
        assert(vstd::utf8::is_leading_byte_width_1(b0)) by (bit_vector)
            requires
                b0 < 0x80,
        ;
        assert(vstd::utf8::codepoint_width_1(b0) < 0x80) by (bit_vector);
        assert(vstd::utf8::length_of_first_scalar(s) == 1);
        assert(vstd::utf8::pop_first_scalar(s) =~= s.drop_first());
        lemma_ascii_valid(s.drop_first());
    }
}

proof fn lemma_dec_digits_ascii(n: nat)
    ensures
        forall|i: int| 0 <= i < dec_digits(n).len() ==> 0x30 <= #[trigger] dec_digits(n)[i] <= 0x39,
        dec_digits(n).len() >= 1,
    decreases n,
{
    if n >= 10 {
        lemma_dec_digits_ascii(n / 10);
    }
}

proof fn lemma_bytes_items_ascii(bs: Seq<u8>)
    ensures
        ascii_only(bytes_items(bs)),
    decreases bs.len(),
{
    if bs.len() == 0 {
    } else if bs.len() == 1 {
        lemma_dec_digits_ascii(bs[0] as nat);
    } else {
        lemma_dec_digits_ascii(bs[0] as nat);
        lemma_bytes_items_ascii(bs.drop_first());
    }
}

proof fn lemma_int_tok_ascii(i: int)
    ensures
        ascii_only(int_tok(i)),
{
    if i < 0 {
        lemma_dec_digits_ascii((-i) as nat);
    } else {
        lemma_dec_digits_ascii(i as nat);
    }
}

/// The bytes of a multi-byte UTF-8 scalar encoding are all outside the
/// ASCII range, hence untouched by the JSON escape.
proof fn lemma_scalar_bytes_high(c: u32)
    requires
        is_scalar(c),
        !has_width_1_encoding(c),
    ensures
        forall|i: int|
            0 <= i < encode_scalar(c).len() ==> #[trigger] encode_scalar(c)[i] >= 0x80,
{
    if vstd::utf8::has_width_2_encoding(c) {
        assert(vstd::utf8::leading_byte_width_2(c) >= 0x80) by (bit_vector);
        assert(vstd::utf8::last_continuation_byte(c) >= 0x80) by (bit_vector);
    } else if vstd::utf8::has_width_3_encoding(c) {
        assert(vstd::utf8::leading_byte_width_3(c) >= 0x80) by (bit_vector);
        assert(vstd::utf8::second_last_continuation_byte(c) >= 0x80) by (bit_vector);
        assert(vstd::utf8::last_continuation_byte(c) >= 0x80) by (bit_vector);
    } else {
        assert(vstd::utf8::leading_byte_width_4(c) >= 0x80) by (bit_vector);
        assert(vstd::utf8::third_last_continuation_byte(c) >= 0x80) by (bit_vector);
        assert(vstd::utf8::second_last_continuation_byte(c) >= 0x80) by (bit_vector);
        assert(vstd::utf8::last_continuation_byte(c) >= 0x80) by (bit_vector);
    }
}

/// The escape of a single byte.
proof fn lemma_esc_single(b: u8)
    ensures
        esc(seq![b]) == esc_byte(b),
{
    let s1 = seq![b];
    assert(s1.len() == 1 && s1[0] == b);
    assert(s1.drop_first() =~= Seq::<u8>::empty());
    assert(esc(s1.drop_first()).len() == 0);
    assert(esc(s1) =~= esc_byte(b));
}

/// The JSON escape of UTF-8 text is itself valid UTF-8.
proof fn lemma_esc_valid(s: Seq<char>)
    ensures
        valid_utf8(esc(encode_utf8(s))),
    decreases s.len(),
{
    if s.len() == 0 {
        assert(esc(encode_utf8(s)) =~= Seq::<u8>::empty());
        assert(ascii_only(esc(encode_utf8(s))));
        lemma_ascii_valid(esc(encode_utf8(s)));
    } else {
        let c = s[0];
        let u = c as u32;
        let rest = s.drop_first();
        vstd::utf8::char_is_scalar(c);
        lemma_esc_concat(encode_scalar(u), encode_utf8(rest));
        lemma_esc_valid(rest);
        if has_width_1_encoding(u) {
            assert(vstd::utf8::leading_byte_width_1(u) < 0x80) by (bit_vector);
            let b = vstd::utf8::leading_byte_width_1(u);
            assert(encode_scalar(u) =~= seq![b]);
            lemma_esc_single(b);
            assert(ascii_only(esc_byte(b)));
            lemma_ascii_valid(esc_byte(b));
            assert(valid_utf8(esc(encode_scalar(u))));
        } else {
            lemma_scalar_bytes_high(u);
            lemma_esc_all_high(encode_scalar(u));
            vstd::utf8::encode_utf8_valid_utf8(seq![c]);
            assert(seq![c][0] == c);
            assert(seq![c].drop_first() =~= Seq::<char>::empty());
            assert(encode_utf8(seq![c].drop_first()).len() == 0);
            assert(encode_scalar(u) =~= encode_utf8(seq![c]));
            assert(valid_utf8(esc(encode_scalar(u))));
        }
        vstd::utf8::valid_utf8_concat(esc(encode_scalar(u)), esc(encode_utf8(rest)));
        assert(encode_utf8(s) == encode_scalar(u) + encode_utf8(rest));
    }
}

/// Escaping leaves a sequence of non-ASCII bytes unchanged.
proof fn lemma_esc_all_high(s: Seq<u8>)
    requires
        forall|i: int| 0 <= i < s.len() ==> s[i] >= 0x80,
    ensures
        esc(s) == s,
    decreases s.len(),
{
    if s.len() > 0 {
        lemma_esc_all_high(s.drop_first());
        assert(esc_byte(s[0]) =~= seq![s[0]]);
        assert(esc(s) =~= s);
    }
}

/// Every string token over UTF-8 text is valid UTF-8.
proof fn lemma_str_tok_valid(s: Seq<char>)
    ensures
        valid_utf8(str_tok(encode_utf8(s))),
{
    lemma_esc_valid(s);
    lemma_ascii_valid(seq![0x22u8]);
    vstd::utf8::valid_utf8_concat(seq![0x22u8], esc(encode_utf8(s)));
    vstd::utf8::valid_utf8_concat(seq![0x22u8] + esc(encode_utf8(s)), seq![0x22u8]);
}

proof fn lemma_fields_tok_valid(o: BleInfoView)
    ensures
        valid_utf8(fields_tok(o)),
{
    reveal(fields_tok);
    let p1 = lit("\"address\":");
    let p2 = str_tok(encode_utf8(o.address));
    let p3 = lit(",\"rssi\":");
    let p4 = int_tok(o.rssi);
    let p5 = lit(",\"manufacture_id\":");
    let p6 = payload_tok(o.manufacture_id);
    let p7 = lit(",\"name\":");
    let p8 = str_tok(encode_utf8(o.name));
    let p9 = lit(",\"time\":");
    let p10 = str_tok(encode_utf8(o.time));
    vstd::utf8::encode_utf8_valid_utf8("\"address\":"@);
    vstd::utf8::encode_utf8_valid_utf8(",\"rssi\":"@);
    vstd::utf8::encode_utf8_valid_utf8(",\"manufacture_id\":"@);
    vstd::utf8::encode_utf8_valid_utf8(",\"name\":"@);
    vstd::utf8::encode_utf8_valid_utf8(",\"time\":"@);
    lemma_str_tok_valid(o.address);
    lemma_str_tok_valid(o.name);
    lemma_str_tok_valid(o.time);
    lemma_int_tok_ascii(o.rssi);
    lemma_ascii_valid(p4);
    lemma_payload_tok_valid(o.manufacture_id);
    vstd::utf8::valid_utf8_concat(p1, p2);
    vstd::utf8::valid_utf8_concat(p1 + p2, p3);
    vstd::utf8::valid_utf8_concat(p1 + p2 + p3, p4);
    vstd::utf8::valid_utf8_concat(p1 + p2 + p3 + p4, p5);
    vstd::utf8::valid_utf8_concat(p1 + p2 + p3 + p4 + p5, p6);
    vstd::utf8::valid_utf8_concat(p1 + p2 + p3 + p4 + p5 + p6, p7);
    vstd::utf8::valid_utf8_concat(p1 + p2 + p3 + p4 + p5 + p6 + p7, p8);
    vstd::utf8::valid_utf8_concat(p1 + p2 + p3 + p4 + p5 + p6 + p7 + p8, p9);
    vstd::utf8::valid_utf8_concat(p1 + p2 + p3 + p4 + p5 + p6 + p7 + p8 + p9, p10);
}

proof fn lemma_payload_tok_valid(p: Option<Seq<u8>>)
    ensures
        valid_utf8(payload_tok(p)),
{
    match p {
        Option::None => {
            vstd::utf8::encode_utf8_valid_utf8("null"@);
        },
        Option::Some(bs) => {
            lemma_bytes_items_ascii(bs);
            lemma_ascii_valid(bytes_items(bs));
            lemma_ascii_valid(seq![0x5bu8]);
            lemma_ascii_valid(seq![0x5du8]);
            vstd::utf8::valid_utf8_concat(seq![0x5bu8], bytes_items(bs));
            vstd::utf8::valid_utf8_concat(seq![0x5bu8] + bytes_items(bs), seq![0x5du8]);
        },
    }
}

proof fn lemma_rec_tok_valid(o: BleInfoView)
    ensures
        valid_utf8(rec_tok(o)),
{
    lemma_fields_tok_valid(o);
    lemma_ascii_valid(seq![0x7bu8]);
    lemma_ascii_valid(seq![0x7du8]);
    vstd::utf8::valid_utf8_concat(seq![0x7bu8], fields_tok(o));
    vstd::utf8::valid_utf8_concat(seq![0x7bu8] + fields_tok(o), seq![0x7du8]);
}

proof fn lemma_recs_items_valid(items: Seq<BleInfoView>)
    ensures
        valid_utf8(recs_items(items)),
    decreases items.len(),
{
    if items.len() == 0 {
        assert(ascii_only(recs_items(items)));
        lemma_ascii_valid(recs_items(items));
    } else if items.len() == 1 {
        lemma_rec_tok_valid(items[0]);
    } else {
        lemma_rec_tok_valid(items[0]);
        lemma_ascii_valid(seq![0x2cu8]);
        lemma_recs_items_valid(items.drop_first());
        vstd::utf8::valid_utf8_concat(rec_tok(items[0]), seq![0x2cu8]);
        vstd::utf8::valid_utf8_concat(
            rec_tok(items[0]) + seq![0x2cu8],
            recs_items(items.drop_first()),
        );
    }
}

/// The whole snapshot document is valid UTF-8.
proof fn lemma_snapshot_tok_valid(device_id: Seq<char>, items: Seq<BleInfoView>)
    ensures
        valid_utf8(snapshot_tok(device_id, items)),
{
    let p1 = lit("{\"device_id\":");
    let p2 = str_tok(encode_utf8(device_id));
    let p3 = lit(",\"ble\":[");
    let p4 = recs_items(items);
    let p5 = lit("]}");
    vstd::utf8::encode_utf8_valid_utf8("{\"device_id\":"@);
    vstd::utf8::encode_utf8_valid_utf8(",\"ble\":["@);
    vstd::utf8::encode_utf8_valid_utf8("]}"@);
    lemma_str_tok_valid(device_id);
    lemma_recs_items_valid(items);
    vstd::utf8::valid_utf8_concat(p1, p2);
    vstd::utf8::valid_utf8_concat(p1 + p2, p3);
    vstd::utf8::valid_utf8_concat(p1 + p2 + p3, p4);
    vstd::utf8::valid_utf8_concat(p1 + p2 + p3 + p4, p5);
}

/// The whole forward document is valid UTF-8.
proof fn lemma_forward_tok_valid(device_id: Seq<char>, o: BleInfoView)
    ensures
        valid_utf8(forward_tok(device_id, o)),
{
    let p1 = lit("{\"device_id\":");
    let p2 = str_tok(encode_utf8(device_id));
    let p3 = seq![0x2cu8];
    let p4 = fields_tok(o);
    let p5 = seq![0x7du8];
    vstd::utf8::encode_utf8_valid_utf8("{\"device_id\":"@);
    lemma_str_tok_valid(device_id);
    lemma_fields_tok_valid(o);
    lemma_ascii_valid(p3);
    lemma_ascii_valid(p5);
    vstd::utf8::valid_utf8_concat(p1, p2);
    vstd::utf8::valid_utf8_concat(p1 + p2, p3);
    vstd::utf8::valid_utf8_concat(p1 + p2 + p3, p4);
    vstd::utf8::valid_utf8_concat(p1 + p2 + p3 + p4, p5);
}

// ------------------------------------------------------------------
// The encoder.
// ------------------------------------------------------------------

/// Relies on `String::from_utf8`: `Ok` exactly on UTF-8 input, whose
/// character content it preserves.
#[verifier::external_body]
pub(crate) fn string_from_utf8(v: Vec<u8>) -> (r: Option<String>)
    ensures
        r matches Some(s) ==> encode_utf8(s@) == v@,
        valid_utf8(v@) ==> r is Some,
{
    match String::from_utf8(v) {
        Ok(s) => Some(s),
        Err(_) => None,
    }
}

fn push_lit(out: &mut Vec<u8>, s: &str)
    ensures
        final(out)@ == old(out)@ + lit(s),
{
    let bs = s.as_bytes();
    let ghost out0 = out@;
    let mut i: usize = 0;
    while i < bs.len()
        invariant
            i <= bs@.len(),
            out@ == out0 + bs@.subrange(0, i as int),
        decreases bs@.len() - i,
    {
        out.push(bs[i]);
        i = i + 1;
        assert(out@ =~= out0 + bs@.subrange(0, i as int));
    }
    assert(bs@.subrange(0, bs@.len() as int) =~= bs@);
}

fn hex_digit_of(n: u8) -> (r: u8)
    requires
        n < 16,
    ensures
        r == hex_digit(n),
{
    if n < 10 {
        0x30 + n
    } else {
        0x57 + n
    }
}

fn push_escaped(out: &mut Vec<u8>, s: &str)
    ensures
        final(out)@ == old(out)@ + esc(lit(s)),
{
    let bs = s.as_bytes();
    let ghost out0 = out@;
    let mut i: usize = 0;
    while i < bs.len()
        invariant
            i <= bs@.len(),
            out@ == out0 + esc(bs@.subrange(0, i as int)),
        decreases bs@.len() - i,
    {
        let b = bs[i];
        if b == 0x22 {
            out.push(0x5c);
            out.push(0x22);
        } else if b == 0x5c {
            out.push(0x5c);
            out.push(0x5c);
        } else if b < 0x20 {
            out.push(0x5c);
            out.push(0x75);
            out.push(0x30);
            out.push(0x30);
            out.push(hex_digit_of(b / 16));
            out.push(hex_digit_of(b % 16));
        } else {
            out.push(b);
        }
        proof {
            lemma_esc_push(bs@.subrange(0, i as int), b);
            assert(bs@.subrange(0, i as int).push(b) =~= bs@.subrange(0, i + 1));
            assert(out@ =~= out0 + esc(bs@.subrange(0, i + 1)));
        }
        i = i + 1;
    }
    assert(bs@.subrange(0, bs@.len() as int) =~= bs@);
}

fn push_str_tok(out: &mut Vec<u8>, s: &str)
    ensures
        final(out)@ == old(out)@ + str_tok(lit(s)),
{
    out.push(0x22);
    push_escaped(out, s);
    out.push(0x22);
    assert(out@ =~= old(out)@ + str_tok(lit(s)));
}

fn push_dec(out: &mut Vec<u8>, n: u32)
    ensures
        final(out)@ == old(out)@ + dec_digits(n as nat),
    decreases n,
{
    if n < 10 {
        out.push(0x30 + (n as u8));
        assert(out@ =~= old(out)@ + dec_digits(n as nat));
    } else {
        push_dec(out, n / 10);
        out.push(0x30 + ((n % 10) as u8));
        assert(out@ =~= old(out)@ + dec_digits(n as nat));
    }
}

fn push_int(out: &mut Vec<u8>, v: i32)
    ensures
        final(out)@ == old(out)@ + int_tok(v as int),
{
    if v < 0 {
        out.push(0x2d);
        let m: u32 = (-(v as i64)) as u32;
        assert(m as nat == (-(v as int)) as nat);
        push_dec(out, m);
        assert(out@ =~= old(out)@ + int_tok(v as int));
    } else {
        push_dec(out, v as u32);
        assert(out@ =~= old(out)@ + int_tok(v as int));
    }
}

pub(crate) proof fn lemma_bytes_items_snoc(s: Seq<u8>, x: u8)
    ensures
        bytes_items(s.push(x)) == if s.len() == 0 {
            dec_digits(x as nat)
        } else {
            bytes_items(s) + seq![0x2cu8] + dec_digits(x as nat)
        },
    decreases s.len(),
{
    let sx = s.push(x);
    if s.len() == 0 {
        assert(sx.len() == 1 && sx[0] == x);
        assert(bytes_items(sx) =~= dec_digits(x as nat));
    } else {
        assert(sx.len() >= 2);
        assert(sx[0] == s[0]);
        assert(sx.drop_first() =~= s.drop_first().push(x));
        lemma_bytes_items_snoc(s.drop_first(), x);
        if s.len() == 1 {
            assert(bytes_items(sx) =~= bytes_items(s) + seq![0x2cu8] + dec_digits(x as nat));
        } else {
            assert(bytes_items(sx) =~= bytes_items(s) + seq![0x2cu8] + dec_digits(x as nat));
        }
    }
}

fn push_payload(out: &mut Vec<u8>, p: &Option<Vec<u8>>)
    ensures
        final(out)@ == old(out)@ + payload_tok(crate::observation::payload_view(*p)),
{
    match p {
        Option::None => {
            push_lit(out, "null");
        },
        Option::Some(v) => {
            out.push(0x5b);
            let ghost mid0 = out@;
            let mut i: usize = 0;
            while i < v.len()
                invariant
                    i <= v@.len(),
                    out@ == mid0 + bytes_items(v@.subrange(0, i as int)),
                decreases v@.len() - i,
            {
                if i != 0 {
                    out.push(0x2c);
                }
                push_dec(out, v[i] as u32);
                proof {
                    lemma_bytes_items_snoc(v@.subrange(0, i as int), v@[i as int]);
                    assert(v@.subrange(0, i as int).push(v@[i as int]) =~= v@.subrange(
                        0,
                        i + 1,
                    ));
                    assert(out@ =~= mid0 + bytes_items(v@.subrange(0, i + 1)));
                }
                i = i + 1;
            }
            out.push(0x5d);
            proof {
                assert(v@.subrange(0, v@.len() as int) =~= v@);
                assert(out@ =~= old(out)@ + payload_tok(
                    crate::observation::payload_view(*p),
                ));
            }
        },
    }
}

fn push_fields(out: &mut Vec<u8>, o: &BleInfo)
    ensures
        final(out)@ == old(out)@ + fields_tok(o@),
{
    proof {
        reveal(fields_tok);
    }
    push_lit(out, "\"address\":");
    push_str_tok(out, o.address());
    push_lit(out, ",\"rssi\":");
    push_int(out, o.rssi());
    push_lit(out, ",\"manufacture_id\":");
    push_payload(out, o.manufacture_id());
    push_lit(out, ",\"name\":");
    push_str_tok(out, o.name());
    push_lit(out, ",\"time\":");
    push_str_tok(out, o.time());
    assert(out@ =~= old(out)@ + fields_tok(o@));
}

fn push_record(out: &mut Vec<u8>, o: &BleInfo)
    ensures
        final(out)@ == old(out)@ + rec_tok(o@),
{
    out.push(0x7b);
    push_fields(out, o);
    out.push(0x7d);
    assert(out@ =~= old(out)@ + rec_tok(o@));
}

pub(crate) proof fn lemma_recs_items_snoc(s: Seq<BleInfoView>, x: BleInfoView)
    ensures
        recs_items(s.push(x)) == if s.len() == 0 {
            rec_tok(x)
        } else {
            recs_items(s) + seq![0x2cu8] + rec_tok(x)
        },
    decreases s.len(),
{
    let sx = s.push(x);
    if s.len() == 0 {
        assert(sx.len() == 1 && sx[0] == x);
        assert(recs_items(sx) =~= rec_tok(x));
    } else {
        assert(sx.len() >= 2);
        assert(sx[0] == s[0]);
        assert(sx.drop_first() =~= s.drop_first().push(x));
        lemma_recs_items_snoc(s.drop_first(), x);
        assert(recs_items(sx) =~= recs_items(s) + seq![0x2cu8] + rec_tok(x));
    }
}

/// The query-endpoint document: the device identifier and the snapshot's
/// records, oldest first, in the exact wire shape.
pub fn snapshot_json(device_id: &str, items: &std::collections::VecDeque<BleInfo>) -> (r: String)
    ensures
        encode_utf8(r@) == snapshot_tok(device_id@, views_of(items@)),
{
    let mut out: Vec<u8> = Vec::new();
    push_lit(&mut out, "{\"device_id\":");
    push_str_tok(&mut out, device_id);
    push_lit(&mut out, ",\"ble\":[");
    let ghost mid0 = out@;
    let mut i: usize = 0;
    while i < items.len()
        invariant
            i <= items@.len(),
            out@ == mid0 + recs_items(views_of(items@.subrange(0, i as int))),
        decreases items@.len() - i,
    {
        if i != 0 {
            out.push(0x2c);
        }
        push_record(&mut out, &items[i]);
        proof {
            lemma_recs_items_snoc(views_of(items@.subrange(0, i as int)), items@[i as int]@);
            assert(views_of(items@.subrange(0, i as int)).push(items@[i as int]@)
                =~= views_of(items@.subrange(0, i + 1)));
            assert(out@ =~= mid0 + recs_items(views_of(items@.subrange(0, i + 1))));
        }
        i = i + 1;
    }
    push_lit(&mut out, "]}");
    proof {
        assert(items@.subrange(0, items@.len() as int) =~= items@);
        assert(out@ =~= snapshot_tok(device_id@, views_of(items@)));
        lemma_snapshot_tok_valid(device_id@, views_of(items@));
    }
    match string_from_utf8(out) {
        Option::Some(s) => s,
        Option::None => {
            proof {
                assert(false);
            }
            String::new()
        },
    }
}

/// The forward-endpoint document for one observation.
pub fn forward_json(device_id: &str, o: &BleInfo) -> (r: String)
    ensures
        encode_utf8(r@) == forward_tok(device_id@, o@),
{
    let mut out: Vec<u8> = Vec::new();
    push_lit(&mut out, "{\"device_id\":");
    push_str_tok(&mut out, device_id);
    out.push(0x2c);
    push_fields(&mut out, o);
    out.push(0x7d);
    proof {
        assert(out@ =~= forward_tok(device_id@, o@));
        lemma_forward_tok_valid(device_id@, o@);
    }
    match string_from_utf8(out) {
        Option::Some(s) => s,
        Option::None => {
            proof {
                assert(false);
            }
            String::new()
        },
    }
}

} // verus!
