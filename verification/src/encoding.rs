//! Base64 (standard alphabet, padded), which the library uses for binary
//! files stored as text, for the compiler's package and PDF transfer, and for
//! data URLs.
use vstd::prelude::*;
use base64::Engine as _;

verus! {

/// The character of a six-bit value in the standard base64 alphabet.
pub open spec fn b64_char(v: nat) -> char {
    if v < 26 {
        ('A' as u32 + v) as char
    } else if v < 52 {
        ('a' as u32 + (v - 26)) as char
    } else if v < 62 {
        ('0' as u32 + (v - 52)) as char
    } else if v == 62 {
        '+'
    } else {
        '/'
    }
}

/// The standard base64 text of `b`, padded with `=` to a multiple of four
/// characters.
pub open spec fn base64_text(b: Seq<u8>) -> Seq<char>
    decreases b.len(),
{
    if b.len() == 0 {
        Seq::empty()
    } else if b.len() == 1 {
        seq![b64_char(b[0] as nat / 4), b64_char((b[0] as nat % 4) * 16), '=', '=']
    } else if b.len() == 2 {
        seq![
            b64_char(b[0] as nat / 4),
            b64_char((b[0] as nat % 4) * 16 + b[1] as nat / 16),
            b64_char((b[1] as nat % 16) * 4),
            '=',
        ]
    } else {
        seq![
            b64_char(b[0] as nat / 4),
            b64_char((b[0] as nat % 4) * 16 + b[1] as nat / 16),
            b64_char((b[1] as nat % 16) * 4 + b[2] as nat / 64),
            b64_char(b[2] as nat % 64),
        ] + base64_text(b.skip(3))
    }
}

/// `s` is the base64 text of some bytes.
pub open spec fn is_base64_text(s: Seq<char>) -> bool {
    exists|b: Seq<u8>| base64_text(b) == s
}

/// `Engine::encode` with `general_purpose::STANDARD`: the padded standard
/// base64 text of the bytes. The engine panics where the text's length does
/// not fit a `usize`; the precondition rules that out.
#[verifier::external_body]
pub(crate) fn base64_encode(bytes: &[u8]) -> (r: String)
    requires
        bytes.len() <= usize::MAX / 2,
    ensures
        r@ == base64_text(bytes@),
{
    base64::engine::general_purpose::STANDARD.encode(bytes)
}

/// The text of the error `Engine::decode` reports for a text it rejects
/// (the `Display` of its `DecodeError`, which depends on the text alone).
pub uninterp spec fn base64_error_text(text: Seq<char>) -> Seq<char>;

/// `Engine::decode` with `general_purpose::STANDARD`. That engine requires
/// canonical padding and rejects non-zero trailing bits, so it accepts exactly
/// the padded standard base64 texts, and gives back the bytes they encode; a
/// rejected text gives the error's text.
#[verifier::external_body]
pub(crate) fn base64_decode(text: &str) -> (r: Result<Vec<u8>, String>)
    ensures
        r is Ok <==> is_base64_text(text@),
        r matches Ok(b) ==> base64_text(b@) == text@,
        r matches Err(m) ==> m@ == base64_error_text(text@),
{
    match base64::engine::general_purpose::STANDARD.decode(text) {
        Ok(b) => Ok(b),
        Err(e) => Err(e.to_string()),
    }
}

proof fn lemma_b64_char(v: nat, w: nat)
    requires
        v < 64,
        w < 64,
    ensures
        b64_char(v) != '=',
        b64_char(v) == b64_char(w) ==> v == w,
{
    let cv = b64_char(v) as u32;
    let cw = b64_char(w) as u32;
    assert(cv == if v < 26 {
        65 + v as int
    } else if v < 52 {
        97 + (v - 26)
    } else if v < 62 {
        48 + (v - 52)
    } else if v == 62 {
        43
    } else {
        47
    });
    assert(cw == if w < 26 {
        65 + w as int
    } else if w < 52 {
        97 + (w - 26)
    } else if w < 62 {
        48 + (w - 52)
    } else if w == 62 {
        43
    } else {
        47
    });
}

proof fn lemma_bytes_from_groups(a0: u8, a1: u8, a2: u8, b0: u8, b1: u8, b2: u8)
    requires
        a0 as nat / 4 == b0 as nat / 4,
        (a0 as nat % 4) * 16 + a1 as nat / 16 == (b0 as nat % 4) * 16 + b1 as nat / 16,
        (a1 as nat % 16) * 4 + a2 as nat / 64 == (b1 as nat % 16) * 4 + b2 as nat / 64,
        a2 as nat % 64 == b2 as nat % 64,
    ensures
        a0 == b0 && a1 == b1 && a2 == b2,
{
    assert(a0 == b0 && a1 == b1 && a2 == b2) by (nonlinear_arith)
        requires
            a0 as nat / 4 == b0 as nat / 4,
            (a0 as nat % 4) * 16 + a1 as nat / 16 == (b0 as nat % 4) * 16 + b1 as nat / 16,
            (a1 as nat % 16) * 4 + a2 as nat / 64 == (b1 as nat % 16) * 4 + b2 as nat / 64,
            a2 as nat % 64 == b2 as nat % 64,
            a0 < 256,
            a1 < 256,
            a2 < 256,
            b0 < 256,
            b1 < 256,
            b2 < 256,
    ;
}

proof fn lemma_base64_len(b: Seq<u8>)
    ensures
        b.len() == 0 ==> base64_text(b).len() == 0,
        b.len() > 0 ==> base64_text(b).len() >= 4,
    decreases b.len(),
{
    if b.len() >= 3 {
        lemma_base64_len(b.skip(3));
    }
}

/// Equal base64 texts come from equal bytes.
pub proof fn lemma_base64_injective(a: Seq<u8>, b: Seq<u8>)
    requires
        base64_text(a) == base64_text(b),
    ensures
        a == b,
    decreases a.len(),
{
    let t = base64_text(a);
    lemma_base64_len(a);
    lemma_base64_len(b);
    if a.len() == 0 || b.len() == 0 {
        if a.len() == 0 && b.len() == 0 {
            assert(a =~= b);
        }
        return;
    }
    // The first group: bytes a[0], a[1], a[2] where present.
    let x0 = a[0] as nat / 4;
    let y0 = b[0] as nat / 4;
    lemma_b64_char(x0, y0);
    assert(t[0] == b64_char(x0));
    assert(base64_text(b)[0] == b64_char(y0));
    assert(x0 == y0);
    let x1 = (a[0] as nat % 4) * 16 + (if a.len() >= 2 { a[1] as nat / 16 } else { 0 });
    let y1 = (b[0] as nat % 4) * 16 + (if b.len() >= 2 { b[1] as nat / 16 } else { 0 });
    assert(x1 < 64 && y1 < 64) by (nonlinear_arith)
        requires
            x1 == (a[0] as nat % 4) * 16 + (if a.len() >= 2 { a[1] as nat / 16 } else { 0 }),
            y1 == (b[0] as nat % 4) * 16 + (if b.len() >= 2 { b[1] as nat / 16 } else { 0 }),
            a.len() >= 2 ==> a[1] < 256,
            b.len() >= 2 ==> b[1] < 256,
    ;
    lemma_b64_char(x1, y1);
    assert(t[1] == b64_char(x1));
    assert(base64_text(b)[1] == b64_char(y1));
    assert(x1 == y1);
    // Padding tells the lengths apart.
    if a.len() >= 2 {
        let x2 = (a[1] as nat % 16) * 4 + (if a.len() >= 3 { a[2] as nat / 64 } else { 0 });
        assert(x2 < 64) by (nonlinear_arith)
            requires
                x2 == (a[1] as nat % 16) * 4 + (if a.len() >= 3 { a[2] as nat / 64 } else { 0 }),
                a.len() >= 3 ==> a[2] < 256,
        ;
        lemma_b64_char(x2, x2);
        assert(t[2] == b64_char(x2));
    }
    if b.len() >= 2 {
        let y2 = (b[1] as nat % 16) * 4 + (if b.len() >= 3 { b[2] as nat / 64 } else { 0 });
        assert(y2 < 64) by (nonlinear_arith)
            requires
                y2 == (b[1] as nat % 16) * 4 + (if b.len() >= 3 { b[2] as nat / 64 } else { 0 }),
                b.len() >= 3 ==> b[2] < 256,
        ;
        lemma_b64_char(y2, y2);
        assert(t[2] == b64_char(y2));
    }
    if a.len() >= 3 {
        lemma_b64_char(a[2] as nat % 64, a[2] as nat % 64);
        assert(t[3] == b64_char(a[2] as nat % 64));
    }
    if b.len() >= 3 {
        lemma_b64_char(b[2] as nat % 64, b[2] as nat % 64);
        assert(t[3] == b64_char(b[2] as nat % 64));
    }
    if a.len() == 1 {
        assert(b.len() == 1);
        assert(a[0] == b[0]) by (nonlinear_arith)
            requires
                a[0] as nat / 4 == b[0] as nat / 4,
                (a[0] as nat % 4) * 16 == (b[0] as nat % 4) * 16,
        ;
        assert(a =~= b);
    } else if a.len() == 2 {
        assert(b.len() == 2);
        let x2 = (a[1] as nat % 16) * 4;
        let y2 = (b[1] as nat % 16) * 4;
        lemma_b64_char(x2, y2);
        lemma_bytes_from_groups(a[0], a[1], 0, b[0], b[1], 0);
        assert(a =~= b);
    } else {
        assert(b.len() >= 3);
        let x2 = (a[1] as nat % 16) * 4 + a[2] as nat / 64;
        let y2 = (b[1] as nat % 16) * 4 + b[2] as nat / 64;
        lemma_b64_char(x2, y2);
        lemma_b64_char(a[2] as nat % 64, b[2] as nat % 64);
        lemma_bytes_from_groups(a[0], a[1], a[2], b[0], b[1], b[2]);
        assert(base64_text(a.skip(3)) =~= t.skip(4));
        assert(base64_text(b.skip(3)) =~= t.skip(4));
        lemma_base64_injective(a.skip(3), b.skip(3));
        assert(a =~= a.take(3) + a.skip(3));
        assert(b =~= b.take(3) + b.skip(3));
        assert(a.take(3) =~= b.take(3));
    }
}

} // verus!
