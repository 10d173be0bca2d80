//! Percent-decoding of request paths.

use vstd::prelude::*;
use vstd::string::StringExecFns;
use vstd::utf8::{decode_utf8, valid_utf8};

verus! {

/// A request path whose percent-escapes are malformed, or whose escaped bytes
/// are not valid UTF-8.
#[derive(Debug, Clone, Copy, PartialEq, Eq, Structural)]
pub struct DecodeError;

/// True for `0-9`, `a-f` and `A-F`.
pub open spec fn is_hex_digit(c: char) -> bool {
    ('0' <= c && c <= '9') || ('a' <= c && c <= 'f') || ('A' <= c && c <= 'F')
}

/// The value of a hexadecimal digit.
pub open spec fn hex_value(c: char) -> nat {
    if '0' <= c && c <= '9' {
        (c as nat - '0' as nat) as nat
    } else if 'a' <= c && c <= 'f' {
        (c as nat - 'a' as nat + 10) as nat
    } else {
        (c as nat - 'A' as nat + 10) as nat
    }
}

/// The byte written as the escape `%hl`.
pub open spec fn escape_byte(h: char, l: char) -> u8 {
    (hex_value(h) * 16 + hex_value(l)) as u8
}

/// The text held by a run of escaped bytes, if they are valid UTF-8.
pub open spec fn flush_bytes(pending: Seq<u8>) -> Option<Seq<char>> {
    if valid_utf8(pending) {
        Some(decode_utf8(pending))
    } else {
        None
    }
}

/// `prefix` followed by the text in `rest`, if any.
pub open spec fn prepend(prefix: Seq<char>, rest: Option<Seq<char>>) -> Option<Seq<char>> {
    match rest {
        Some(r) => Some(prefix + r),
        None => None,
    }
}

proof fn lemma_prepend_empty(x: Option<Seq<char>>)
    ensures
        prepend(Seq::<char>::empty(), x) == x,
{
    if let Some(r) = x {
        assert(Seq::<char>::empty() + r =~= r);
    }
}

proof fn lemma_prepend_twice(a: Seq<char>, b: Seq<char>, x: Option<Seq<char>>)
    ensures
        prepend(a, prepend(b, x)) == prepend(a + b, x),
{
    if let Some(r) = x {
        assert(a + (b + r) =~= (a + b) + r);
    }
}

/// Decodes `t`, where the bytes in `pending` were escaped just before it and
/// are not yet turned into text.
pub open spec fn decode_after(t: Seq<char>, pending: Seq<u8>) -> Option<Seq<char>>
    decreases t.len(),
{
    if t.len() == 0 {
        flush_bytes(pending)
    } else if t[0] == '%' {
        if t.len() >= 3 && is_hex_digit(t[1]) && is_hex_digit(t[2]) {
            decode_after(t.subrange(3, t.len() as int), pending.push(escape_byte(t[1], t[2])))
        } else {
            None
        }
    } else {
        match flush_bytes(pending) {
            Some(done) => prepend(done.push(t[0]), decode_after(t.drop_first(), seq![])),
            None => None,
        }
    }
}

/// The percent-decoding of `t`: `None` when an escape is malformed or a run of
/// escaped bytes is not valid UTF-8.
pub open spec fn url_decoded(t: Seq<char>) -> Option<Seq<char>> {
    decode_after(t, seq![])
}

/// The characters of `text`, in order.
pub(crate) fn chars_of(text: &str) -> (r: Vec<char>)
    ensures
        r@ == text@,
{
    broadcast use vstd::string::axiom_spec_iter;

    let mut out: Vec<char> = Vec::new();
    for c in it: text.chars()
        invariant
            it.seq() == text@,
            out@ == text@.subrange(0, it.index() as int),
    {
        out.push(c);
    }
    assert(out@ =~= text@);
    out
}

/// The value of `c` as a hexadecimal digit.
pub fn hex_digit_value(c: char) -> (r: Option<u8>)
    ensures
        r is Some <==> is_hex_digit(c),
        r is Some ==> r->0 as nat == hex_value(c),
{
    if '0' <= c && c <= '9' {
        Some(((c as u32) - ('0' as u32)) as u8)
    } else if 'a' <= c && c <= 'f' {
        Some(((c as u32) - ('a' as u32) + 10) as u8)
    } else if 'A' <= c && c <= 'F' {
        Some(((c as u32) - ('A' as u32) + 10) as u8)
    } else {
        None
    }
}

/// Relies on `String::from_utf8`: it succeeds exactly on valid UTF-8 and then
/// holds the characters those bytes encode.
#[verifier::external_body]
fn string_from_utf8(bytes: Vec<u8>) -> (r: Option<String>)
    ensures
        r is Some <==> valid_utf8(bytes@),
        r is Some ==> r->0@ == decode_utf8(bytes@),
{
    String::from_utf8(bytes).ok()
}

/// Relies on `String::push`: appends one character.
#[verifier::external_body]
pub(crate) fn push_char(s: &mut String, c: char)
    ensures
        final(s)@ == old(s)@.push(c),
{
    s.push(c)
}

/// Appends the text of the escaped bytes in `pending` to `text` and empties
/// `pending`; fails when those bytes are not valid UTF-8.
pub fn append_frag(text: &mut String, pending: &mut Vec<u8>) -> (r: Result<(), DecodeError>)
    ensures
        r is Ok <==> flush_bytes(old(pending)@) is Some,
        r is Ok ==> final(text)@ == old(text)@ + flush_bytes(old(pending)@)->0,
        r is Ok ==> final(pending)@ == Seq::<u8>::empty(),
{
    if pending.len() == 0 {
        proof {
            assert(valid_utf8(pending@));
            assert(decode_utf8(pending@) =~= Seq::<char>::empty());
            assert(text@ + Seq::<char>::empty() =~= text@);
        }
        return Ok(());
    }
    let mut bytes: Vec<u8> = Vec::new();
    std::mem::swap(pending, &mut bytes);
    match string_from_utf8(bytes) {
        Some(s) => {
            text.append(s.as_str());
            Ok(())
        },
        None => Err(DecodeError),
    }
}

/// Percent-decodes a request path. Runs of consecutive escapes are gathered as
/// bytes and read as UTF-8 together, so a character may span several escapes.
pub fn url_decode(text: &str) -> (r: Result<String, DecodeError>)
    ensures
        r is Ok <==> url_decoded(text@) is Some,
        r is Ok ==> r->Ok_0@ == url_decoded(text@)->0,
{
    let t = chars_of(text);
    let mut output = String::new();
    let mut pending: Vec<u8> = Vec::new();
    let mut i: usize = 0;
    proof {
        lemma_prepend_empty(url_decoded(text@));
        assert(t@.subrange(0, t.len() as int) =~= text@);
    }
    while i < t.len()
        invariant
            t@ == text@,
            i <= t.len(),
            url_decoded(text@) == prepend(output@, decode_after(t@.subrange(i as int, t.len() as int), pending@)),
        decreases t.len() - i,
    {
        let ghost rest = t@.subrange(i as int, t.len() as int);
        let ch = t[i];
        if ch == '%' {
            if t.len() - i < 3 {
                return Err(DecodeError);
            }
            let hi = hex_digit_value(t[i + 1]);
            let lo = hex_digit_value(t[i + 2]);
            match (hi, lo) {
                (Some(h), Some(l)) => {
                    let b: u8 = h * 16 + l;
                    pending.push(b);
                    i = i + 3;
                    assert(rest.subrange(3, rest.len() as int) =~= t@.subrange(i as int, t.len() as int));
                },
                _ => {
                    return Err(DecodeError);
                },
            }
        } else {
            let ghost before = output@;
            match append_frag(&mut output, &mut pending) {
                Ok(()) => {},
                Err(e) => {
                    return Err(e);
                },
            }
            push_char(&mut output, ch);
            i = i + 1;
            proof {
                let done = output@.subrange(before.len() as int, output@.len() - 1);
                assert(output@ =~= before + done.push(ch));
                assert(rest.drop_first() =~= t@.subrange(i as int, t.len() as int));
                lemma_prepend_twice(before, done.push(ch), decode_after(rest.drop_first(), seq![]));
            }
        }
    }
    match append_frag(&mut output, &mut pending) {
        Ok(()) => {},
        Err(e) => {
            return Err(e);
        },
    }
    proof {
        assert(t@.subrange(i as int, t.len() as int) =~= Seq::<char>::empty());
    }
    Ok(output)
}

} // verus!

verus! {

/// The upper-case hexadecimal digit for `n < 16`.
pub open spec fn hex_char(n: nat) -> char {
    seq!['0', '1', '2', '3', '4', '5', '6', '7', '8', '9', 'A', 'B', 'C', 'D', 'E', 'F'][n as int]
}

/// Every byte of `bytes` written as a `%XY` escape.
pub open spec fn percent_escaped(bytes: Seq<u8>) -> Seq<char>
    decreases bytes.len(),
{
    if bytes.len() == 0 {
        seq![]
    } else {
        seq!['%', hex_char(bytes[0] as nat / 16), hex_char(bytes[0] as nat % 16)]
            + percent_escaped(bytes.drop_first())
    }
}

/// True when `t` holds no `%`.
pub open spec fn has_no_escape(t: Seq<char>) -> bool {
    forall|i: int| 0 <= i < t.len() ==> t[i] != '%'
}

proof fn lemma_hex_char(n: nat)
    requires
        n < 16,
    ensures
        is_hex_digit(hex_char(n)),
        hex_value(hex_char(n)) == n,
        hex_char(n) != '%',
{
    if n < 8 {
        if n < 4 {
            assert(n == 0 || n == 1 || n == 2 || n == 3);
        } else {
            assert(n == 4 || n == 5 || n == 6 || n == 7);
        }
    } else {
        if n < 12 {
            assert(n == 8 || n == 9 || n == 10 || n == 11);
        } else {
            assert(n == 12 || n == 13 || n == 14 || n == 15);
        }
    }
}

proof fn lemma_empty_flush()
    ensures
        flush_bytes(Seq::<u8>::empty()) == Some(Seq::<char>::empty()),
{
    assert(valid_utf8(Seq::<u8>::empty()));
    assert(decode_utf8(Seq::<u8>::empty()) =~= Seq::<char>::empty());
}

/// Text without escapes in front of `x` passes through unchanged.
proof fn lemma_plain_prefix(a: Seq<char>, x: Seq<char>)
    requires
        has_no_escape(a),
    ensures
        decode_after(a + x, seq![]) == prepend(a, decode_after(x, seq![])),
    decreases a.len(),
{
    if a.len() == 0 {
        assert(a + x =~= x);
        lemma_prepend_empty(decode_after(x, seq![]));
    } else {
        lemma_empty_flush();
        let rest = a.drop_first();
        assert((a + x).drop_first() =~= rest + x);
        assert((a + x)[0] == a[0]);
        lemma_plain_prefix(rest, x);
        lemma_prepend_twice(Seq::<char>::empty().push(a[0]), rest, decode_after(x, seq![]));
        assert(Seq::<char>::empty().push(a[0]) + rest =~= a);
    }
}

/// A run of escapes adds its bytes to those waiting to be read as UTF-8.
proof fn lemma_escape_run(bytes: Seq<u8>, b: Seq<char>, pending: Seq<u8>)
    ensures
        decode_after(percent_escaped(bytes) + b, pending) == decode_after(b, pending + bytes),
    decreases bytes.len(),
{
    if bytes.len() == 0 {
        assert(percent_escaped(bytes) + b =~= b);
        assert(pending + bytes =~= pending);
    } else {
        let x = bytes[0];
        let h = hex_char(x as nat / 16);
        let l = hex_char(x as nat % 16);
        lemma_hex_char(x as nat / 16);
        lemma_hex_char(x as nat % 16);
        let t = percent_escaped(bytes) + b;
        let tail = percent_escaped(bytes.drop_first()) + b;
        assert(t =~= seq!['%', h, l] + tail);
        assert(t[0] == '%' && t[1] == h && t[2] == l);
        assert(t.subrange(3, t.len() as int) =~= tail);
        assert(escape_byte(h, l) == x);
        lemma_escape_run(bytes.drop_first(), b, pending.push(x));
        assert(pending.push(x) + bytes.drop_first() =~= pending + bytes);
    }
}

/// Escaped bytes that are valid UTF-8, followed by text without escapes.
proof fn lemma_flush_then_plain(pending: Seq<u8>, b: Seq<char>)
    requires
        valid_utf8(pending),
        has_no_escape(b),
    ensures
        decode_after(b, pending) == Some(decode_utf8(pending) + b),
{
    let done = decode_utf8(pending);
    if b.len() == 0 {
        assert(done + b =~= done);
    } else {
        lemma_plain_prefix(b.drop_first(), seq![]);
        assert(b.drop_first() + Seq::<char>::empty() =~= b.drop_first());
        lemma_empty_flush();
        lemma_prepend_empty(Some(Seq::<char>::empty()));
        assert(b.drop_first() + Seq::<char>::empty() =~= b.drop_first());
        assert(done.push(b[0]) + b.drop_first() =~= done + b);
    }
}

/// A text with no `%` in it decodes to itself.
pub proof fn lemma_decode_plain_identity(t: Seq<char>)
    requires
        has_no_escape(t),
    ensures
        url_decoded(t) == Some(t),
{
    lemma_plain_prefix(t, seq![]);
    assert(t + Seq::<char>::empty() =~= t);
    lemma_empty_flush();
    assert(t + Seq::<char>::empty() =~= t);
}

/// Characters written as the escapes of their UTF-8 bytes, between two texts
/// with no `%`, decode to exactly those characters between the same texts.
pub proof fn lemma_decode_escaped_chars(a: Seq<char>, s: Seq<char>, b: Seq<char>)
    requires
        has_no_escape(a),
        has_no_escape(b),
    ensures
        url_decoded(a + percent_escaped(vstd::utf8::encode_utf8(s)) + b) == Some(a + s + b),
{
    broadcast use vstd::utf8::encode_utf8_valid_utf8, vstd::utf8::encode_utf8_decode_utf8;

    let bytes = vstd::utf8::encode_utf8(s);
    let e = percent_escaped(bytes);
    assert(a + e + b =~= a + (e + b));
    lemma_plain_prefix(a, e + b);
    lemma_escape_run(bytes, b, seq![]);
    assert(Seq::<u8>::empty() + bytes =~= bytes);
    lemma_flush_then_plain(bytes, b);
    assert(a + (s + b) =~= a + s + b);
}

/// A `%` that is not followed by two hexadecimal digits makes decoding fail,
/// whatever comes before it and whatever bytes are waiting.
proof fn lemma_bad_escape(t: Seq<char>, w: Seq<char>, pending: Seq<u8>)
    requires
        !(w.len() >= 2 && is_hex_digit(w[0]) && is_hex_digit(w[1])),
    ensures
        decode_after(t + seq!['%'] + w, pending) is None,
    decreases t.len(),
{
    let full = t + seq!['%'] + w;
    if t.len() == 0 {
        assert(full =~= seq!['%'] + w);
    } else if t[0] == '%' {
        if t.len() >= 3 {
            assert(full.subrange(3, full.len() as int) =~= t.subrange(3, t.len() as int) + seq!['%'] + w);
            if is_hex_digit(full[1]) && is_hex_digit(full[2]) {
                lemma_bad_escape(t.subrange(3, t.len() as int), w, pending.push(escape_byte(full[1], full[2])));
            }
        } else {
            assert(full[t.len() as int] == '%');
        }
    } else {
        assert(full.drop_first() =~= t.drop_first() + seq!['%'] + w);
        lemma_bad_escape(t.drop_first(), w, seq![]);
    }
}

/// Decoding fails when a `%` is not followed by two hexadecimal digits: at the
/// end of the text (`"%"`, `"%4"`) or before any other character (`"%zz"`).
pub proof fn lemma_decode_rejects_bad_escape(t: Seq<char>, w: Seq<char>)
    requires
        !(w.len() >= 2 && is_hex_digit(w[0]) && is_hex_digit(w[1])),
    ensures
        url_decoded(t + seq!['%'] + w) is None,
{
    lemma_bad_escape(t, w, seq![]);
}

} // verus!
