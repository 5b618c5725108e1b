//! Lump names: raw 8-byte directory fields decoded as UTF-8 with the
//! trailing NUL padding stripped.

use vstd::prelude::*;
use vstd::utf8::*;

verus! {

/// `bytes` with every trailing zero byte removed.
pub open spec fn trim_zero_bytes(bytes: Seq<u8>) -> Seq<u8>
    decreases bytes.len(),
{
    if bytes.len() > 0 && bytes.last() == 0u8 {
        trim_zero_bytes(bytes.drop_last())
    } else {
        bytes
    }
}

/// `chars` with every trailing NUL character removed.
pub open spec fn trim_nul_chars(chars: Seq<char>) -> Seq<char>
    decreases chars.len(),
{
    if chars.len() > 0 && chars.last() == '\0' {
        trim_nul_chars(chars.drop_last())
    } else {
        chars
    }
}

/// The name a directory record with raw name field `raw` carries: its
/// UTF-8 decoding, stripped of trailing NUL padding.
pub open spec fn lump_name(raw: Seq<u8>) -> Seq<char> {
    trim_nul_chars(decode_utf8(raw))
}

/// Relies on `String::from_utf8`: it returns `Ok` exactly when the input
/// is a valid UTF-8 encoding, and the returned string then consists of
/// the characters that encoding spells, with nothing added or dropped.
#[verifier::external_body]
fn string_from_utf8(bytes: Vec<u8>) -> (r: Option<String>)
    ensures
        r is Some <==> valid_utf8(bytes@),
        r matches Some(s) ==> s@ == decode_utf8(bytes@),
{
    String::from_utf8(bytes).ok()
}

/// The trimmed part of a byte sequence is a prefix, and everything
/// behind it is zero.
pub proof fn lemma_trim_zero_bytes_shape(bytes: Seq<u8>)
    ensures
        trim_zero_bytes(bytes).len() <= bytes.len(),
        trim_zero_bytes(bytes) == bytes.subrange(0, trim_zero_bytes(bytes).len() as int),
        forall|j: int| trim_zero_bytes(bytes).len() <= j < bytes.len() ==> bytes[j] == 0u8,
    decreases bytes.len(),
{
    if bytes.len() > 0 && bytes.last() == 0u8 {
        lemma_trim_zero_bytes_shape(bytes.drop_last());
        assert(trim_zero_bytes(bytes) == bytes.subrange(0, trim_zero_bytes(bytes).len() as int))
            by {
            assert(bytes.drop_last().subrange(0, trim_zero_bytes(bytes).len() as int)
                =~= bytes.subrange(0, trim_zero_bytes(bytes).len() as int));
        }
        assert forall|j: int|
            trim_zero_bytes(bytes).len() <= j < bytes.len() implies bytes[j] == 0u8 by {
            if j < bytes.len() - 1 {
                assert(bytes.drop_last()[j] == bytes[j]);
            } else {
                assert(bytes[j] == bytes.last());
            }
        }
    } else {
        assert(bytes.subrange(0, bytes.len() as int) =~= bytes);
    }
}

/// A single zero byte is a valid UTF-8 encoding, of the single NUL
/// character.
proof fn lemma_zero_byte_utf8()
    ensures
        valid_utf8(seq![0u8]),
        decode_utf8(seq![0u8]) =~= seq!['\0'],
{
    reveal_with_fuel(valid_utf8, 2);
    reveal_with_fuel(decode_utf8, 2);
    assert(leading_bits_width_1(0u8) == 0u32) by (bit_vector);
    assert(pop_first_scalar(seq![0u8]) =~= Seq::<u8>::empty());
    assert(decode_first_scalar(seq![0u8]) == 0u32);
    assert(0u32 as char == '\0');
    assert(decode_utf8(pop_first_scalar(seq![0u8])) =~= Seq::<char>::empty());
}

/// Encoding distributes over concatenation of character sequences.
pub proof fn lemma_encode_utf8_concat(a: Seq<char>, b: Seq<char>)
    ensures
        encode_utf8(a + b) == encode_utf8(a) + encode_utf8(b),
    decreases a.len(),
{
    if a.len() == 0 {
        assert(a + b =~= b);
        assert(encode_utf8(a) + encode_utf8(b) =~= encode_utf8(b));
    } else {
        assert((a + b).drop_first() =~= a.drop_first() + b);
        lemma_encode_utf8_concat(a.drop_first(), b);
        assert(encode_scalar((a + b)[0] as u32) + (encode_utf8(a.drop_first()) + encode_utf8(b))
            =~= (encode_scalar(a[0] as u32) + encode_utf8(a.drop_first())) + encode_utf8(b));
    }
}

/// A valid encoding that does not end in a zero byte decodes to a
/// non-empty character sequence that does not end in NUL.
proof fn lemma_decode_last_not_nul(bytes: Seq<u8>)
    requires
        valid_utf8(bytes),
        bytes.len() > 0,
        bytes.last() != 0u8,
    ensures
        decode_utf8(bytes).len() > 0,
        decode_utf8(bytes).last() != '\0',
{
    decode_utf8_encode_utf8(bytes);
    let chars = decode_utf8(bytes);
    if chars.len() == 0 {
        assert(encode_utf8(chars) =~= Seq::<u8>::empty());
        assert(false);
    }
    if chars.last() == '\0' {
        let u = chars.drop_last();
        assert(chars =~= u + seq!['\0']);
        lemma_encode_utf8_concat(u, seq!['\0']);
        assert(encode_utf8(seq!['\0']) =~= seq![0u8]) by {
            reveal_with_fuel(encode_utf8, 2);
            assert('\0' as u32 == 0u32);
            assert((seq!['\0']).drop_first() =~= Seq::<char>::empty());
            assert(leading_byte_width_1(0u32) == 0u8) by (bit_vector);
            assert(encode_scalar(0u32) =~= seq![0u8]);
        }
        assert(bytes == encode_utf8(u) + seq![0u8]);
        assert(bytes.last() == 0u8);
        assert(false);
    }
}

/// Appending a zero byte to a valid encoding keeps it valid and appends
/// a NUL character to its decoding.
proof fn lemma_push_zero_byte(bytes: Seq<u8>)
    requires
        valid_utf8(bytes),
    ensures
        valid_utf8(bytes.push(0u8)),
        decode_utf8(bytes.push(0u8)) == decode_utf8(bytes).push('\0'),
{
    lemma_zero_byte_utf8();
    valid_utf8_concat(bytes, seq![0u8]);
    assert(bytes.push(0u8) =~= bytes + seq![0u8]);
    let whole = bytes.push(0u8);
    assert(valid_utf8(whole));
    let n = bytes.len() as int;
    if n == 0 {
        assert(whole =~= seq![0u8]);
        assert(decode_utf8(bytes) =~= Seq::<char>::empty());
        assert(decode_utf8(bytes).push('\0') =~= seq!['\0']);
    } else {
        assert(whole[n] == 0u8);
        assert(!is_continuation_byte(whole[n]));
        is_char_boundary_iff_not_is_continuation_byte(whole, n);
        decode_utf8_split(whole, n);
        assert(whole.subrange(0, n) =~= bytes);
        assert(whole.subrange(n, whole.len() as int) =~= seq![0u8]);
        assert(decode_utf8(whole) =~= decode_utf8(bytes) + seq!['\0']);
        assert(decode_utf8(bytes) + seq!['\0'] =~= decode_utf8(bytes).push('\0'));
    }
}

/// Stripping the trailing zero bytes does not change whether a name
/// field is valid UTF-8, and decoding the stripped bytes equals
/// decoding the whole field and then stripping the trailing NUL
/// characters.
pub proof fn lemma_trim_zero_bytes_utf8(bytes: Seq<u8>)
    ensures
        valid_utf8(bytes) <==> valid_utf8(trim_zero_bytes(bytes)),
        valid_utf8(bytes) ==> decode_utf8(trim_zero_bytes(bytes)) == lump_name(bytes),
    decreases bytes.len(),
{
    if bytes.len() > 0 && bytes.last() == 0u8 {
        let b2 = bytes.drop_last();
        let n = b2.len() as int;
        lemma_trim_zero_bytes_utf8(b2);
        assert(trim_zero_bytes(bytes) == trim_zero_bytes(b2));
        assert(bytes =~= b2.push(0u8));
        if valid_utf8(b2) {
            lemma_push_zero_byte(b2);
        }
        if valid_utf8(bytes) {
            // validity passes down to the shorter sequence
            if n == 0 {
                assert(b2 =~= Seq::<u8>::empty());
            } else {
                assert(!is_continuation_byte(bytes[n]));
                is_char_boundary_iff_not_is_continuation_byte(bytes, n);
                valid_utf8_split(bytes, n);
                assert(bytes.subrange(0, n) =~= b2);
            }
            assert(valid_utf8(b2));
            let d2 = decode_utf8(b2);
            assert(decode_utf8(bytes) == d2.push('\0'));
            assert(d2.push('\0').last() == '\0');
            assert(d2.push('\0').drop_last() =~= d2);
            assert(trim_nul_chars(decode_utf8(bytes)) == trim_nul_chars(d2));
        }
    } else {
        assert(trim_zero_bytes(bytes) == bytes);
        if valid_utf8(bytes) {
            if bytes.len() == 0 {
                assert(decode_utf8(bytes) =~= Seq::<char>::empty());
                assert(trim_nul_chars(decode_utf8(bytes)) == decode_utf8(bytes));
            } else {
                lemma_decode_last_not_nul(bytes);
                assert(trim_nul_chars(decode_utf8(bytes)) == decode_utf8(bytes));
            }
        }
    }
}

/// Decode a raw name field: accept it exactly when it is valid UTF-8,
/// and strip the trailing NUL padding.
pub fn decode_name(raw: &[u8]) -> (r: Option<String>)
    ensures
        r is Some <==> valid_utf8(raw@),
        r matches Some(s) ==> s@ == lump_name(raw@),
{
    let n = raw.len();
    let mut t: usize = n;
    proof {
        assert(raw@.subrange(0, n as int) =~= raw@);
    }
    while t > 0 && raw[t - 1] == 0u8
        invariant
            t <= n,
            n == raw@.len(),
            trim_zero_bytes(raw@) == trim_zero_bytes(raw@.subrange(0, t as int)),
        decreases t,
    {
        proof {
            let s = raw@.subrange(0, t as int);
            assert(s.last() == 0u8);
            assert(s.drop_last() =~= raw@.subrange(0, t as int - 1));
        }
        t = t - 1;
    }
    proof {
        let s = raw@.subrange(0, t as int);
        if t == 0 {
            assert(s =~= Seq::<u8>::empty());
        }
        assert(trim_zero_bytes(s) == s);
        assert(trim_zero_bytes(raw@) == raw@.subrange(0, t as int));
        lemma_trim_zero_bytes_utf8(raw@);
    }
    let trimmed = vstd::slice::slice_to_vec(vstd::slice::slice_subrange(raw, 0, t));
    string_from_utf8(trimmed)
}

} // verus!
