//! Base64 (RFC 4648, standard alphabet, padded) and the PEM block that wraps
//! a DER certificate.

use base64::engine::general_purpose::STANDARD as BASE64_STANDARD;
use base64::Engine as _;
use vstd::prelude::*;
use vstd::string::StringSliceAdditionalSpecFns;

verus! {

/// The character of the standard base64 alphabet for a six-bit value.
pub open spec fn b64_char(k: int) -> u8 {
    if k < 26 {
        (65 + k) as u8
    } else if k < 52 {
        (97 + k - 26) as u8
    } else if k < 62 {
        (48 + k - 52) as u8
    } else if k == 62 {
        43u8
    } else {
        47u8
    }
}

/// The padding character `=`.
pub open spec fn b64_pad() -> u8 {
    61u8
}

/// The six-bit value of a base64 character; `=` and anything outside the
/// alphabet count as zero.
pub open spec fn b64_value(c: u8) -> int {
    if 65 <= c <= 90 {
        c - 65
    } else if 97 <= c <= 122 {
        c - 97 + 26
    } else if 48 <= c <= 57 {
        c - 48 + 52
    } else if c == 43 {
        62
    } else if c == 47 {
        63
    } else {
        0
    }
}

/// Byte `i` of `b`, or zero past its end.
pub open spec fn byte_or_zero(b: Seq<u8>, i: int) -> int {
    if i < b.len() {
        b[i] as int
    } else {
        0
    }
}

/// The four characters for the first group of up to three bytes of `b`,
/// read as a 24-bit number; a short group ends in `=` padding.
#[verifier::opaque]
pub open spec fn encode_group(b: Seq<u8>) -> Seq<u8> {
    let n = byte_or_zero(b, 0) * 65536 + byte_or_zero(b, 1) * 256 + byte_or_zero(b, 2);
    seq![
        b64_char((n / 262144) % 64),
        b64_char((n / 4096) % 64),
        if b.len() >= 2 { b64_char((n / 64) % 64) } else { b64_pad() },
        if b.len() >= 3 { b64_char(n % 64) } else { b64_pad() },
    ]
}

/// Standard padded base64 of `b`, group by group.
pub open spec fn base64_encode(b: Seq<u8>) -> Seq<u8>
    decreases b.len(),
{
    if b.len() == 0 {
        Seq::empty()
    } else if b.len() <= 3 {
        encode_group(b)
    } else {
        encode_group(b) + base64_encode(b.subrange(3, b.len() as int))
    }
}

/// The bytes of one group of four characters: three, or fewer where it
/// ends in `=`.
#[verifier::opaque]
pub open spec fn decode_group(q: Seq<u8>) -> Seq<u8> {
    let n = b64_value(q[0]) * 262144 + b64_value(q[1]) * 4096 + b64_value(q[2]) * 64
        + b64_value(q[3]);
    let b0 = (n / 65536) as u8;
    let b1 = ((n / 256) % 256) as u8;
    let b2 = (n % 256) as u8;
    if q[2] == b64_pad() {
        seq![b0]
    } else if q[3] == b64_pad() {
        seq![b0, b1]
    } else {
        seq![b0, b1, b2]
    }
}

/// Standard base64 decoding of padded text, group by group; a padded group
/// ends the text.
pub open spec fn base64_decode(s: Seq<u8>) -> Seq<u8>
    decreases s.len(),
{
    if s.len() < 4 {
        Seq::empty()
    } else if s[2] == b64_pad() || s[3] == b64_pad() {
        decode_group(s.take(4))
    } else {
        decode_group(s.take(4)) + base64_decode(s.skip(4))
    }
}

proof fn lemma_b64_char_value(k: int)
    requires
        0 <= k < 64,
    ensures
        b64_value(b64_char(k)) == k,
        b64_char(k) != b64_pad(),
{
}

proof fn lemma_group_bits(n: u32, b0: u32, b1: u32, b2: u32)
    by (bit_vector)
    requires
        b0 < 256,
        b1 < 256,
        b2 < 256,
        n == b0 * 65536u32 + b1 * 256u32 + b2,
    ensures
        ((n / 262144) % 64) * 262144 + ((n / 4096) % 64) * 4096 + ((n / 64) % 64) * 64 + n % 64
            == n,
        n / 65536 == b0,
        (n / 256) % 256 == b1,
        n % 256 == b2,
        b1 == 0 && b2 == 0 ==> (n / 64) % 64 == 0,
        b2 == 0 ==> n % 64 == 0,
{
}

proof fn lemma_group_arith(b0: int, b1: int, b2: int)
    requires
        0 <= b0 < 256,
        0 <= b1 < 256,
        0 <= b2 < 256,
    ensures
        ({
            let n = b0 * 65536 + b1 * 256 + b2;
            &&& ((n / 262144) % 64) * 262144 + ((n / 4096) % 64) * 4096 + ((n / 64) % 64) * 64 + n
                % 64 == n
            &&& n / 65536 == b0
            &&& (n / 256) % 256 == b1
            &&& n % 256 == b2
            &&& (b1 == 0 && b2 == 0 ==> (n / 64) % 64 == 0)
            &&& (b2 == 0 ==> n % 64 == 0)
        }),
{
    let n = b0 * 65536 + b1 * 256 + b2;
    lemma_group_bits(n as u32, b0 as u32, b1 as u32, b2 as u32);
}

proof fn lemma_group_round_trip(b: Seq<u8>)
    requires
        b.len() >= 1,
    ensures
        encode_group(b).len() == 4,
        b.len() >= 3 ==> encode_group(b)[2] != b64_pad() && encode_group(b)[3] != b64_pad(),
        b.len() == 2 ==> encode_group(b)[2] != b64_pad() && encode_group(b)[3] == b64_pad(),
        b.len() == 1 ==> encode_group(b)[2] == b64_pad(),
        decode_group(encode_group(b)) == b.take(if b.len() < 3 { b.len() as int } else { 3 }),
{
    reveal(encode_group);
    reveal(decode_group);
    let b0 = byte_or_zero(b, 0);
    let b1 = byte_or_zero(b, 1);
    let b2 = byte_or_zero(b, 2);
    lemma_group_arith(b0, b1, b2);
    let n = b0 * 65536 + b1 * 256 + b2;
    lemma_b64_char_value((n / 262144) % 64);
    lemma_b64_char_value((n / 4096) % 64);
    lemma_b64_char_value((n / 64) % 64);
    lemma_b64_char_value(n % 64);
    let q = encode_group(b);
    if b.len() >= 3 {
        assert(decode_group(q) =~= b.take(3));
    } else if b.len() == 2 {
        assert(decode_group(q) =~= b.take(2));
    } else {
        assert(decode_group(q) =~= b.take(1));
    }
}

/// Decoding the base64 text of any bytes gives those bytes back.
pub proof fn lemma_base64_round_trip(b: Seq<u8>)
    ensures
        base64_decode(base64_encode(b)) == b,
    decreases b.len(),
{
    if b.len() > 0 {
        lemma_group_round_trip(b);
        let s = base64_encode(b);
        let q = encode_group(b);
        if b.len() > 3 {
            let rest = b.subrange(3, b.len() as int);
            lemma_base64_round_trip(rest);
            assert(s.take(4) =~= q);
            assert(s.skip(4) =~= base64_encode(rest));
            assert(s[2] == q[2] && s[3] == q[3]);
            assert(base64_decode(s) == decode_group(q) + base64_decode(base64_encode(rest)));
            assert(b =~= b.take(3) + rest);
        } else {
            assert(s.take(4) =~= q);
            assert(s.skip(4) =~= Seq::<u8>::empty());
            assert(b.take(b.len() as int) =~= b);
            if b.len() == 3 {
                assert(base64_decode(s.skip(4)) =~= Seq::<u8>::empty());
                assert(base64_decode(s) =~= decode_group(q));
            }
        }
    }
}

/// Relies on base64's `Engine::encode` with the `STANDARD` engine: RFC 4648
/// base64 with the standard alphabet and `=` padding, on one line. The
/// engine panics where the encoded length overflows `usize`, which the
/// bound on the input rules out.
#[verifier::external_body]
fn encode_base64(der: &[u8]) -> (r: Vec<u8>)
    requires
        der@.len() <= usize::MAX / 2,
    ensures
        r@ == base64_encode(der@),
{
    BASE64_STANDARD.encode(der).into_bytes()
}

/// The bytes of ASCII text.
pub open spec fn ascii_bytes(t: Seq<char>) -> Seq<u8> {
    t.map_values(|c: char| c as u8)
}

/// The header line that opens a PEM certificate block.
pub open spec fn pem_header() -> Seq<u8> {
    ascii_bytes("-----BEGIN CERTIFICATE-----\n"@)
}

/// The newline that ends the base64 line, and the footer line with its own
/// newline.
pub open spec fn pem_footer() -> Seq<u8> {
    ascii_bytes("\n-----END CERTIFICATE-----\n"@)
}

/// The PEM block of a DER encoding: header line, the base64 text on one
/// line, footer line.
pub open spec fn pem_block(der: Seq<u8>) -> Seq<u8> {
    pem_header() + base64_encode(der) + pem_footer()
}

/// The DER encoding held by a PEM block: the base64 text between header and
/// footer, decoded.
pub open spec fn pem_contents(block: Seq<u8>) -> Seq<u8> {
    base64_decode(
        block.subrange(pem_header().len() as int, block.len() - pem_footer().len()),
    )
}

/// Appends the bytes of an ASCII literal to `out`.
fn push_ascii(out: &mut Vec<u8>, text: &str)
    requires
        text.is_ascii(),
    ensures
        final(out)@ == old(out)@ + ascii_bytes(text@),
{
    broadcast use vstd::string::is_ascii_spec_bytes;

    let bytes = text.as_bytes();
    let ghost start = out@;
    let mut i: usize = 0;
    while i < bytes.len()
        invariant
            bytes@ == text.spec_bytes(),
            text.spec_bytes() =~= ascii_bytes(text@),
            0 <= i <= bytes@.len(),
            out@ == start + ascii_bytes(text@).take(i as int),
        decreases bytes@.len() - i,
    {
        out.push(bytes[i]);
        i = i + 1;
        assert(out@ =~= start + ascii_bytes(text@).take(i as int));
    }
    assert(ascii_bytes(text@).take(i as int) =~= ascii_bytes(text@));
}

/// The PEM block of a DER encoding.
pub fn pem_encode(der: &[u8]) -> (r: Vec<u8>)
    requires
        der@.len() <= usize::MAX / 2,
    ensures
        r@ == pem_block(der@),
{
    let mut out: Vec<u8> = Vec::new();
    proof {
        reveal_strlit("-----BEGIN CERTIFICATE-----\n");
        reveal_strlit("\n-----END CERTIFICATE-----\n");
    }
    push_ascii(&mut out, "-----BEGIN CERTIFICATE-----\n");
    let mut text = encode_base64(der);
    out.append(&mut text);
    push_ascii(&mut out, "\n-----END CERTIFICATE-----\n");
    assert(out@ =~= pem_block(der@));
    out
}

/// The DER encoding can be read back from its PEM block: the text between
/// header and footer decodes to it exactly.
pub proof fn lemma_pem_round_trip(der: Seq<u8>)
    ensures
        pem_block(der).subrange(0, pem_header().len() as int) == pem_header(),
        pem_block(der).subrange(
            pem_block(der).len() - pem_footer().len(),
            pem_block(der).len() as int,
        ) == pem_footer(),
        pem_contents(pem_block(der)) == der,
{
    let b = pem_block(der);
    let h = pem_header();
    let f = pem_footer();
    let t = base64_encode(der);
    assert(b.subrange(0, h.len() as int) =~= h);
    assert(b.subrange(b.len() - f.len(), b.len() as int) =~= f);
    assert(b.subrange(h.len() as int, b.len() - f.len()) =~= t);
    lemma_base64_round_trip(der);
}

} // verus!
