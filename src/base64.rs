//! Standard base64 (alphabet `A-Z a-z 0-9 + /`, `=` padding).
use vstd::prelude::*;

verus! {

/// The character of the alphabet that stands for the 6-bit value `v`.
pub open spec fn sym(v: int) -> char {
    if v < 26 {
        (65 + v) as char
    } else if v < 52 {
        (97 + v - 26) as char
    } else if v < 62 {
        (48 + v - 52) as char
    } else if v == 62 {
        '+'
    } else {
        '/'
    }
}

/// A character of the 64-symbol alphabet.
pub open spec fn is_sym(c: char) -> bool {
    ('A' <= c && c <= 'Z') || ('a' <= c && c <= 'z') || ('0' <= c && c <= '9') || c == '+'
        || c == '/'
}

/// A character that may occur in encoded text: a symbol or the pad `=`.
pub open spec fn is_encoded_char(c: char) -> bool {
    is_sym(c) || c == '='
}

/// The 6-bit value of an alphabet character (0 for any other character).
pub open spec fn sym_value(c: char) -> int {
    if 'A' <= c && c <= 'Z' {
        c as int - 65
    } else if 'a' <= c && c <= 'z' {
        c as int - 97 + 26
    } else if '0' <= c && c <= '9' {
        c as int - 48 + 52
    } else if c == '+' {
        62
    } else if c == '/' {
        63
    } else {
        0
    }
}

/// The 24-bit value of a group of one to three bytes, absent bytes read as zero.
pub open spec fn group_value(g: Seq<u8>) -> int {
    let b1: int = if g.len() > 1 { g[1] as int } else { 0 };
    let b2: int = if g.len() > 2 { g[2] as int } else { 0 };
    g[0] as int * 65536 + b1 * 256 + b2
}

/// The four characters for a group of one to three bytes: the 6-bit slices at
/// bits 18-23, 12-17, 6-11 and 0-5, with `=` where no input byte reaches.
pub open spec fn encode_group(g: Seq<u8>) -> Seq<char> {
    let n = group_value(g);
    seq![
        sym(n / 262144),
        sym((n / 4096) % 64),
        if g.len() > 1 { sym((n / 64) % 64) } else { '=' },
        if g.len() > 2 { sym(n % 64) } else { '=' },
    ]
}

/// Base64 text of a byte sequence, taken three bytes at a time.
pub open spec fn encode(b: Seq<u8>) -> Seq<char>
    decreases b.len(),
{
    if b.len() == 0 {
        Seq::empty()
    } else if b.len() <= 3 {
        encode_group(b)
    } else {
        encode_group(b.take(3)) + encode(b.skip(3))
    }
}

/// Length of the encoding of `n` bytes: four characters per started group of three.
pub open spec fn encoded_len(n: nat) -> nat {
    4 * ((n + 2) / 3)
}

/// Number of `=` characters that end the encoding of `n` bytes.
pub open spec fn pad_len(n: nat) -> nat {
    ((3 - n % 3) % 3) as nat
}

/// The bytes that four characters of base64 text stand for.
pub open spec fn decode_group(q: Seq<char>) -> Seq<u8> {
    let n = sym_value(q[0]) * 262144 + sym_value(q[1]) * 4096 + sym_value(q[2]) * 64
        + sym_value(q[3]);
    if q[2] == '=' {
        seq![(n / 65536) as u8]
    } else if q[3] == '=' {
        seq![(n / 65536) as u8, ((n / 256) % 256) as u8]
    } else {
        seq![(n / 65536) as u8, ((n / 256) % 256) as u8, (n % 256) as u8]
    }
}

/// Standard base64 decoding, four characters at a time.
pub open spec fn decode(s: Seq<char>) -> Seq<u8>
    decreases s.len(),
{
    if s.len() < 4 {
        Seq::empty()
    } else {
        decode_group(s.take(4)) + decode(s.skip(4))
    }
}

proof fn lemma_sym(v: int)
    requires
        0 <= v < 64,
    ensures
        is_sym(sym(v)),
        sym(v) != '=',
        sym_value(sym(v)) == v,
{
}

/// The four 6-bit slices of a 24-bit value put back together give the value.
proof fn lemma_slices(n: int)
    requires
        0 <= n < 16777216,
    ensures
        (n / 262144) * 262144 + ((n / 4096) % 64) * 4096 + ((n / 64) % 64) * 64 + n % 64 == n,
{
    let a = n / 262144;
    let r = n % 262144;
    let c = r / 4096;
    let d = (r % 4096) / 64;
    let e = (r % 4096) % 64;
    assert(n == a * 262144 + c * 4096 + d * 64 + e);
    assert(n / 4096 == a * 64 + c);
    assert((n / 4096) % 64 == c);
    assert(n / 64 == a * 4096 + c * 64 + d);
    assert((n / 64) % 64 == d);
    assert(n % 64 == e);
}

/// The three bytes of a 24-bit value are read back by division and remainder.
proof fn lemma_bytes(b0: int, b1: int, b2: int)
    requires
        0 <= b0 < 256,
        0 <= b1 < 256,
        0 <= b2 < 256,
    ensures
        (b0 * 65536 + b1 * 256 + b2) / 65536 == b0,
        ((b0 * 65536 + b1 * 256 + b2) / 256) % 256 == b1,
        (b0 * 65536 + b1 * 256 + b2) % 256 == b2,
{
}

proof fn lemma_encode_group(g: Seq<u8>)
    requires
        1 <= g.len() <= 3,
    ensures
        encode_group(g).len() == 4,
        forall|i: int| 0 <= i < 4 - pad_len(g.len()) ==> is_sym(#[trigger] encode_group(g)[i]),
        forall|i: int| 4 - pad_len(g.len()) <= i < 4 ==> #[trigger] encode_group(g)[i] == '=',
        decode_group(encode_group(g)) == g,
{
    let n = group_value(g);
    let b1: int = if g.len() > 1 { g[1] as int } else { 0 };
    let b2: int = if g.len() > 2 { g[2] as int } else { 0 };
    lemma_bytes(g[0] as int, b1, b2);
    lemma_slices(n);
    lemma_sym(n / 262144);
    lemma_sym((n / 4096) % 64);
    lemma_sym((n / 64) % 64);
    lemma_sym(n % 64);
    let q = encode_group(g);
    let m = sym_value(q[0]) * 262144 + sym_value(q[1]) * 4096 + sym_value(q[2]) * 64
        + sym_value(q[3]);
    if g.len() == 1 {
        assert(n % 4096 == 0);
        assert(m == n);
        assert(decode_group(q) =~= g);
    } else if g.len() == 2 {
        assert(n % 64 == 0);
        assert(m == n);
        assert(decode_group(q) =~= g);
    } else {
        assert(m == n);
        assert(decode_group(q) =~= g);
    }
}

/// Taking off the first group: the encoding is that group's four characters
/// followed by the encoding of the rest.
proof fn lemma_encode_unfold(b: Seq<u8>, k: int)
    requires
        b.len() > 0,
        k == if b.len() < 3 { b.len() as int } else { 3 },
    ensures
        encode(b) == encode_group(b.take(k)) + encode(b.skip(k)),
{
    if b.len() <= 3 {
        assert(b.take(k) =~= b);
        assert(b.skip(k) =~= Seq::<u8>::empty());
        assert(encode(b.skip(k)) =~= Seq::<char>::empty());
        assert(encode(b) =~= encode_group(b.take(k)) + encode(b.skip(k)));
    }
}

proof fn lemma_len_step(n: nat)
    requires
        n > 3,
    ensures
        encoded_len(n) == 4 + encoded_len((n - 3) as nat),
        pad_len(n) == pad_len((n - 3) as nat),
        pad_len(n) <= 2,
{
}

/// Length, alphabet and padding of an encoding, by induction over the groups.
proof fn lemma_encode_shape(b: Seq<u8>)
    ensures
        encode(b).len() == encoded_len(b.len()),
        forall|i: int|
            0 <= i < encode(b).len() - pad_len(b.len()) ==> is_sym(#[trigger] encode(b)[i]),
        forall|i: int|
            encode(b).len() - pad_len(b.len()) <= i < encode(b).len() ==> #[trigger] encode(b)[i]
                == '=',
    decreases b.len(),
{
    if b.len() == 0 {
    } else if b.len() <= 3 {
        lemma_encode_group(b);
    } else {
        let g = b.take(3);
        let rest = b.skip(3);
        lemma_encode_group(g);
        lemma_encode_shape(rest);
        let e = encode(b);
        let eg = encode_group(g);
        let er = encode(rest);
        assert(e == eg + er);
        lemma_len_step(b.len());
        assert forall|i: int| 0 <= i < e.len() - pad_len(b.len()) implies is_sym(#[trigger] e[i]) by {
            if i < 4 {
                assert(e[i] == eg[i]);
            } else {
                assert(e[i] == er[i - 4]);
            }
        }
        assert forall|i: int| e.len() - pad_len(b.len()) <= i < e.len() implies #[trigger] e[i] == '=' by {
            assert(e[i] == er[i - 4]);
        }
    }
}

/// The encoding of `n` bytes has `4 * ceil(n / 3)` characters.
pub proof fn lemma_encode_len(b: Seq<u8>)
    ensures
        encode(b).len() == encoded_len(b.len()),
        encode(b).len() % 4 == 0,
        b.len() == 0 <==> encode(b).len() == 0,
{
    lemma_encode_shape(b);
}

/// Every character of an encoding is an alphabet symbol or `=`.
pub proof fn lemma_encode_charset(b: Seq<u8>)
    ensures
        forall|i: int| 0 <= i < encode(b).len() ==> is_encoded_char(#[trigger] encode(b)[i]),
{
    lemma_encode_shape(b);
}

/// An encoding ends in zero, one or two `=` characters (two for one byte left
/// over in the last group, one for two bytes), and holds no `=` before them.
pub proof fn lemma_encode_padding(b: Seq<u8>)
    ensures
        pad_len(b.len()) <= 2,
        b.len() % 3 == 0 ==> pad_len(b.len()) == 0,
        b.len() % 3 == 1 ==> pad_len(b.len()) == 2,
        b.len() % 3 == 2 ==> pad_len(b.len()) == 1,
        pad_len(b.len()) <= encode(b).len(),
        forall|i: int|
            0 <= i < encode(b).len() - pad_len(b.len()) ==> #[trigger] encode(b)[i] != '=',
        forall|i: int|
            encode(b).len() - pad_len(b.len()) <= i < encode(b).len() ==> #[trigger] encode(b)[i]
                == '=',
{
    lemma_encode_shape(b);
}

/// Decoding an encoding gives back the bytes it was made from.
pub proof fn lemma_decode_encode(b: Seq<u8>)
    ensures
        decode(encode(b)) == b,
    decreases b.len(),
{
    if b.len() == 0 {
        assert(decode(encode(b)) =~= b);
    } else {
        let k: int = if b.len() < 3 { b.len() as int } else { 3 };
        lemma_encode_unfold(b, k);
        lemma_encode_group(b.take(k));
        lemma_decode_encode(b.skip(k));
        let eg = encode_group(b.take(k));
        let er = encode(b.skip(k));
        let e = eg + er;
        assert(e.take(4) =~= eg);
        assert(e.skip(4) =~= er);
        assert(decode(e) == b.take(k) + b.skip(k));
        assert(b.take(k) + b.skip(k) =~= b);
    }
}

/// The alphabet character for a 6-bit value.
fn symbol(v: u32) -> (c: char)
    requires
        v < 64,
    ensures
        c == sym(v as int),
{
    let v = v as u8;
    if v < 26 {
        (65u8 + v) as char
    } else if v < 52 {
        (97u8 + (v - 26)) as char
    } else if v < 62 {
        (48u8 + (v - 52)) as char
    } else if v == 62 {
        '+'
    } else {
        '/'
    }
}

/// Relies on String::push: the character is appended at the end.
#[verifier::external_body]
fn push_char(s: &mut String, c: char)
    ensures
        final(s)@ == old(s)@.push(c),
{
    s.push(c);
}

/// Encodes bytes as standard base64 text: `4 * ceil(n / 3)` characters for
/// `n` bytes, with `=` padding; the empty input gives the empty string.
pub fn base64_encode(data: &[u8]) -> (r: String)
    ensures
        r@ == encode(data@),
        r@.len() == encoded_len(data@.len()),
{
    let mut result = String::new();
    let mut i: usize = 0;
    proof {
        assert(data@.skip(0) =~= data@);
        assert(result@ + encode(data@) =~= encode(data@));
    }
    while i < data.len()
        invariant
            i <= data@.len(),
            result@ + encode(data@.skip(i as int)) == encode(data@),
        decreases data@.len() - i,
    {
        let rest = data.len() - i;
        let len: usize = if rest < 3 { rest } else { 3 };
        let b0 = data[i] as u32;
        let b1: u32 = if len > 1 { data[i + 1] as u32 } else { 0 };
        let b2: u32 = if len > 2 { data[i + 2] as u32 } else { 0 };
        let n: u32 = b0 * 65536 + b1 * 256 + b2;
        let ghost tail = data@.skip(i as int);
        proof {
            lemma_encode_unfold(tail, len as int);
            assert(tail.skip(len as int) =~= data@.skip(i + len));
            assert(group_value(tail.take(len as int)) == n);
        }
        let ghost before = result@;
        push_char(&mut result, symbol(n / 262144));
        push_char(&mut result, symbol((n / 4096) % 64));
        if len > 1 {
            push_char(&mut result, symbol((n / 64) % 64));
        } else {
            push_char(&mut result, '=');
        }
        if len > 2 {
            push_char(&mut result, symbol(n % 64));
        } else {
            push_char(&mut result, '=');
        }
        proof {
            assert(result@ =~= before + encode_group(tail.take(len as int)));
        }
        i = i + len;
    }
    proof {
        assert(data@.skip(i as int) =~= Seq::<u8>::empty());
        assert(result@ =~= result@ + encode(data@.skip(i as int)));
        lemma_encode_len(data@);
    }
    result
}

} // verus!
