//! Bridging lemmas between character sequences and their UTF-8 byte
//! encoding, and the one trusted conversion from bytes back to `String`.
//!
//! All keys the engine writes are built as byte vectors from string pieces;
//! the specifications speak about the underlying character sequences through
//! `encode_utf8`.

use vstd::prelude::*;
use vstd::utf8::*;

verus! {

/// `encode_utf8` distributes over concatenation.
pub proof fn lemma_encode_utf8_concat(a: Seq<char>, b: Seq<char>)
    ensures
        encode_utf8(a + b) == encode_utf8(a) + encode_utf8(b),
    decreases a.len(),
{
    if a.len() == 0 {
        assert(a + b =~= b);
        assert(encode_utf8(a) + encode_utf8(b) =~= encode_utf8(b));
    } else {
        assert((a + b).drop_first() =~= a.drop_first() + b);
        assert((a + b)[0] == a[0]);
        lemma_encode_utf8_concat(a.drop_first(), b);
        assert(encode_utf8(a + b) =~= encode_utf8(a) + encode_utf8(b));
    }
}

/// The encoding of a single ASCII character is that character's byte.
pub proof fn lemma_encode_ascii_char(c: char)
    requires
        (c as u32) < 0x80,
    ensures
        encode_utf8(seq![c]) == seq![c as u8],
{
    char_is_scalar(c);
    let u = c as u32;
    assert(has_width_1_encoding(u));
    assert(leading_byte_width_1(u) == u as u8) by (bit_vector)
        requires
            u < 0x80,
    ;
    char_u32_cast(c, u);
    assert(c as u8 == u as u8);
    assert(seq![c].drop_first() =~= Seq::<char>::empty());
    assert(encode_utf8(Seq::<char>::empty()) =~= Seq::<u8>::empty());
    assert(encode_utf8(seq![c]) =~= encode_scalar(u) + encode_utf8(seq![c].drop_first()));
    assert(encode_scalar(u) =~= seq![leading_byte_width_1(u)]);
    assert(encode_utf8(seq![c]) =~= seq![c as u8]);
}

/// Every byte of the encoding of a non-ASCII scalar is at least 0x80.
proof fn lemma_encode_scalar_high(u: u32, i: int)
    requires
        is_scalar(u),
        !has_width_1_encoding(u),
        0 <= i < encode_scalar(u).len(),
    ensures
        encode_scalar(u)[i] >= 0x80,
{
    assert(leading_byte_width_2(u) >= 0x80) by (bit_vector);
    assert(leading_byte_width_3(u) >= 0x80) by (bit_vector);
    assert(leading_byte_width_4(u) >= 0x80) by (bit_vector);
    assert(last_continuation_byte(u) >= 0x80) by (bit_vector);
    assert(second_last_continuation_byte(u) >= 0x80) by (bit_vector);
    assert(third_last_continuation_byte(u) >= 0x80) by (bit_vector);
}

/// An ASCII byte occurs in the encoding of a character sequence exactly when
/// the corresponding character occurs in the sequence.
pub proof fn lemma_ascii_byte_occurs(s: Seq<char>, b: u8)
    requires
        b < 0x80,
    ensures
        encode_utf8(s).contains(b) <==> (exists|i: int| 0 <= i < s.len() && (s[i] as u32) == b as u32),
    decreases s.len(),
{
    if s.len() == 0 {
    } else {
        let c = s[0];
        char_is_scalar(c);
        let u = c as u32;
        let head = encode_scalar(u);
        let tail = encode_utf8(s.drop_first());
        assert(encode_utf8(s) == head + tail);
        lemma_ascii_byte_occurs(s.drop_first(), b);
        // whether the head contains the ascii byte
        if has_width_1_encoding(u) {
            assert(leading_byte_width_1(u) == u as u8) by (bit_vector)
                requires
                    u < 0x80,
            ;
            assert(head =~= seq![u as u8]);
            assert(head.contains(b) <==> u == b as u32) by {
                if u == b as u32 {
                    assert(head[0] == b);
                }
                if head.contains(b) {
                    assert(u as u8 == b);
                    assert(u == b as u32) by (bit_vector)
                        requires
                            u < 0x80,
                            u as u8 == b,
                            b < 0x80,
                    ;
                }
            }
        } else {
            assert(!head.contains(b)) by {
                if head.contains(b) {
                    let j = choose|j: int| 0 <= j < head.len() && head[j] == b;
                    lemma_encode_scalar_high(u, j);
                }
            }
            assert(u != b as u32) by (bit_vector)
                requires
                    !(u < 0x80),
                    b < 0x80,
            ;
        }
        // combine: contains over the concatenation
        assert forall|i: int| 0 <= i < s.len() && (s[i] as u32) == b as u32 implies encode_utf8(
            s,
        ).contains(b) by {
            if i == 0 {
                assert(head.contains(b));
                let j = choose|j: int| 0 <= j < head.len() && head[j] == b;
                assert((head + tail)[j] == b);
            } else {
                assert((s.drop_first()[i - 1] as u32) == b as u32);
                assert(tail.contains(b));
                let j = choose|j: int| 0 <= j < tail.len() && tail[j] == b;
                assert((head + tail)[head.len() + j] == b);
            }
        }
        if encode_utf8(s).contains(b) {
            let j = choose|j: int| 0 <= j < encode_utf8(s).len() && encode_utf8(s)[j] == b;
            if j < head.len() {
                assert(head.contains(b));
            } else {
                assert(tail[j - head.len()] == b);
                assert(tail.contains(b));
            }
        }
    }
}

/// The UTF-8 encoding is injective.
pub proof fn lemma_encode_utf8_injective(a: Seq<char>, b: Seq<char>)
    requires
        encode_utf8(a) == encode_utf8(b),
    ensures
        a == b,
{
    broadcast use encode_utf8_decode_utf8;

    assert(decode_utf8(encode_utf8(a)) == a);
    assert(decode_utf8(encode_utf8(b)) == b);
}

/// A byte-level prefix of two UTF-8 encodings is exactly a character-level
/// prefix of the underlying sequences.
pub proof fn lemma_encode_utf8_prefix(p: Seq<char>, k: Seq<char>)
    ensures
        encode_utf8(p).is_prefix_of(encode_utf8(k)) <==> p.is_prefix_of(k),
    decreases p.len(),
{
    broadcast use vstd::seq_lib::group_seq_lib_default;

    if p.is_prefix_of(k) {
        let rest = k.subrange(p.len() as int, k.len() as int);
        assert(k =~= p + rest);
        lemma_encode_utf8_concat(p, rest);
        assert(encode_utf8(p).is_prefix_of(encode_utf8(k)));
    }
    if encode_utf8(p).is_prefix_of(encode_utf8(k)) {
        if p.len() == 0 {
            assert(p.is_prefix_of(k));
        } else {
            let pb = encode_utf8(p);
            let kb = encode_utf8(k);
            assert(pb.len() > 0) by {
                char_is_scalar(p[0]);
            }
            assert(k.len() > 0) by {
                if k.len() == 0 {
                    assert(kb.len() == 0);
                }
            }
            encode_utf8_first_scalar(p);
            encode_utf8_first_scalar(k);
            // the first scalar is read from a shared prefix of bytes
            assert(pb[0] == kb[0]);
            let lp = length_of_first_scalar(pb);
            let lk = length_of_first_scalar(kb);
            assert(lp == lk && decode_first_scalar(pb) == decode_first_scalar(kb)) by {
                assert(forall|i: int| 0 <= i < pb.len() ==> pb[i] == kb[i]);
            }
            char_u32_cast(p[0], decode_first_scalar(pb));
            char_u32_cast(k[0], decode_first_scalar(kb));
            assert(p[0] == k[0]);
            assert(pop_first_scalar(pb) =~= encode_utf8(p.drop_first()));
            assert(pop_first_scalar(kb) =~= encode_utf8(k.drop_first()));
            assert(encode_utf8(p.drop_first()).is_prefix_of(encode_utf8(k.drop_first()))) by {
                assert(pop_first_scalar(pb) =~= pb.subrange(lp, pb.len() as int));
                assert(pop_first_scalar(kb) =~= kb.subrange(lk, kb.len() as int));
                assert(forall|i: int|
                    0 <= i < pb.len() - lp ==> pb.subrange(lp, pb.len() as int)[i] == kb.subrange(
                        lk,
                        kb.len() as int,
                    )[i]);
            }
            lemma_encode_utf8_prefix(p.drop_first(), k.drop_first());
            assert(p.drop_first().is_prefix_of(k.drop_first()));
            assert(p =~= seq![p[0]] + p.drop_first());
            assert(p.is_prefix_of(k)) by {
                assert(forall|i: int| 0 <= i < p.len() ==> p[i] == k[i]) by {
                    assert(forall|i: int|
                        1 <= i < p.len() ==> p[i] == p.drop_first()[i - 1] && p.drop_first()[i - 1]
                            == k.drop_first()[i - 1] && k.drop_first()[i - 1] == k[i]);
                }
                assert(p =~= k.subrange(0, p.len() as int));
            }
        }
    }
}

/// Two strings are equal exactly when their byte encodings are equal.
pub proof fn lemma_bytes_eq_chars_eq(a: Seq<char>, b: Seq<char>)
    ensures
        (encode_utf8(a) == encode_utf8(b)) <==> (a == b),
{
    if encode_utf8(a) == encode_utf8(b) {
        lemma_encode_utf8_injective(a, b);
    }
}

/// Relies on `String::from_utf8`: on bytes that are a valid UTF-8 encoding
/// it returns `Ok` of the string whose encoding is exactly those bytes.
#[verifier::external_body]
pub fn string_from_utf8_bytes(v: Vec<u8>) -> (r: String)
    requires
        valid_utf8(v@),
    ensures
        encode_utf8(r@) == v@,
{
    String::from_utf8(v).unwrap_or_default()
}

/// Relies on `String::from_utf8`: it succeeds exactly on bytes that are a
/// valid UTF-8 encoding, and the returned string's bytes are the input.
#[verifier::external_body]
pub fn string_from_utf8_checked(v: Vec<u8>) -> (r: Result<String, ()>)
    ensures
        match r {
            Ok(s) => valid_utf8(v@) && encode_utf8(s@) == v@,
            Err(()) => !valid_utf8(v@),
        },
{
    String::from_utf8(v).map_err(|_| ())
}

/// Compare two byte slices for equality.
pub fn slice_eq(a: &[u8], b: &[u8]) -> (r: bool)
    ensures
        r == (a@ == b@),
{
    if a.len() != b.len() {
        proof {
            assert(a@ != b@);
        }
        return false;
    }
    let mut i: usize = 0;
    while i < a.len()
        invariant
            0 <= i <= a.len(),
            a@.len() == b@.len(),
            forall|j: int| 0 <= j < i ==> a@[j] == b@[j],
        decreases a.len() - i,
    {
        if a[i] != b[i] {
            return false;
        }
        i = i + 1;
    }
    proof {
        assert(a@ =~= b@);
    }
    true
}

/// Compare two strings for equality, by their byte encodings.
pub fn str_eq(a: &str, b: &str) -> (r: bool)
    ensures
        r == (a@ == b@),
{
    let r = slice_eq(a.as_bytes(), b.as_bytes());
    proof {
        lemma_bytes_eq_chars_eq(a@, b@);
    }
    r
}

} // verus!
