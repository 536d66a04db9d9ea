//! The payload codec's building blocks: little-endian 64-bit fields and
//! length-prefixed string blocks. Records are stored as a compact
//! length-prefixed binary form built from these; the codec is not
//! user-visible, but it round-trips every record exactly.

use vstd::prelude::*;
use vstd::utf8::*;

use crate::keys::push_str_bytes;
use crate::prelude::StorefulError;
use crate::text::string_from_utf8_checked;

verus! {

/// A 64-bit value as eight little-endian bytes.
pub open spec fn le8(x: u64) -> Seq<u8> {
    seq![
        x as u8,
        (x >> 8) as u8,
        (x >> 16) as u8,
        (x >> 24) as u8,
        (x >> 32) as u8,
        (x >> 40) as u8,
        (x >> 48) as u8,
        (x >> 56) as u8,
    ]
}

/// The value of eight little-endian bytes.
pub open spec fn le8_val(s: Seq<u8>) -> u64
    recommends
        s.len() == 8,
{
    (s[0] as u64) | (s[1] as u64) << 8 | (s[2] as u64) << 16 | (s[3] as u64) << 24 | (
    s[4] as u64) << 32 | (s[5] as u64) << 40 | (s[6] as u64) << 48 | (s[7] as u64) << 56
}

/// Reading the eight bytes of a value back yields the value.
pub proof fn lemma_le8_val(x: u64)
    ensures
        le8_val(le8(x)) == x,
{
    let s = le8(x);
    let b0 = x as u8;
    let b1 = (x >> 8) as u8;
    let b2 = (x >> 16) as u8;
    let b3 = (x >> 24) as u8;
    let b4 = (x >> 32) as u8;
    let b5 = (x >> 40) as u8;
    let b6 = (x >> 48) as u8;
    let b7 = (x >> 56) as u8;
    assert((b0 as u64) | (b1 as u64) << 8 | (b2 as u64) << 16 | (b3 as u64) << 24 | (b4 as u64)
        << 32 | (b5 as u64) << 40 | (b6 as u64) << 48 | (b7 as u64) << 56 == x) by (bit_vector)
        requires
            b0 == x as u8 && b1 == (x >> 8) as u8 && b2 == (x >> 16) as u8 && b3 == (x >> 24) as u8
                && b4 == (x >> 32) as u8 && b5 == (x >> 40) as u8 && b6 == (x >> 48) as u8 && b7 == (
            x >> 56) as u8,
    ;
}

/// Append a 64-bit field.
pub fn push_u64(out: &mut Vec<u8>, x: u64)
    ensures
        final(out)@ == old(out)@ + le8(x),
{
    out.push(#[verifier::truncate] (x as u8));
    out.push(#[verifier::truncate] ((x >> 8) as u8));
    out.push(#[verifier::truncate] ((x >> 16) as u8));
    out.push(#[verifier::truncate] ((x >> 24) as u8));
    out.push(#[verifier::truncate] ((x >> 32) as u8));
    out.push(#[verifier::truncate] ((x >> 40) as u8));
    out.push(#[verifier::truncate] ((x >> 48) as u8));
    out.push(#[verifier::truncate] ((x >> 56) as u8));
    proof {
        assert(final(out)@ =~= old(out)@ + le8(x));
    }
}

/// The 64-bit field at `pos`.
pub open spec fn read_u64_at(b: Seq<u8>, pos: int) -> u64
    recommends
        0 <= pos,
        pos + 8 <= b.len(),
{
    le8_val(b.subrange(pos, pos + 8))
}

/// Read the 64-bit field at `pos`.
pub fn get_u64(b: &[u8], pos: usize) -> (r: u64)
    requires
        pos + 8 <= b@.len(),
    ensures
        r == read_u64_at(b@, pos as int),
{
    let r = (b[pos] as u64) | (b[pos + 1] as u64) << 8 | (b[pos + 2] as u64) << 16 | (b[pos
        + 3] as u64) << 24 | (b[pos + 4] as u64) << 32 | (b[pos + 5] as u64) << 40 | (b[pos
        + 6] as u64) << 48 | (b[pos + 7] as u64) << 56;
    proof {
        let s = b@.subrange(pos as int, pos as int + 8);
        assert(s[0] == b@[pos as int] && s[1] == b@[pos as int + 1] && s[2] == b@[pos as int + 2]
            && s[3] == b@[pos as int + 3] && s[4] == b@[pos as int + 4] && s[5] == b@[pos as int
            + 5] && s[6] == b@[pos as int + 6] && s[7] == b@[pos as int + 7]);
    }
    r
}

/// A string as a length-prefixed block: the byte length of its UTF-8
/// encoding, then the bytes.
pub open spec fn str_block(s: Seq<char>) -> Seq<u8> {
    le8(encode_utf8(s).len() as u64) + encode_utf8(s)
}

/// Append a string block.
pub fn push_str_block(out: &mut Vec<u8>, s: &str)
    ensures
        final(out)@ == old(out)@ + str_block(s@),
        encode_utf8(s@).len() <= u64::MAX,
{
    let n = s.as_bytes().len();
    push_u64(out, n as u64);
    push_str_bytes(out, s);
    proof {
        assert(encode_utf8(s@).len() == n as int);
        assert(final(out)@ =~= old(out)@ + str_block(s@));
    }
}

/// The string block at `pos`: the decoded string and the position after it,
/// or nothing when the block is truncated or not valid UTF-8.
pub open spec fn take_str(b: Seq<u8>, pos: int) -> Option<(Seq<char>, int)> {
    if pos < 0 || pos + 8 > b.len() {
        None
    } else {
        let n = read_u64_at(b, pos) as int;
        if pos + 8 + n > b.len() {
            None
        } else {
            let bytes = b.subrange(pos + 8, pos + 8 + n);
            if valid_utf8(bytes) {
                Some((decode_utf8(bytes), pos + 8 + n))
            } else {
                None
            }
        }
    }
}

/// A string block placed at `pos` inside a larger buffer reads back as the
/// string it encodes.
pub proof fn lemma_take_str(b: Seq<u8>, pos: int, s: Seq<char>)
    requires
        0 <= pos,
        pos + 8 + encode_utf8(s).len() <= b.len(),
        encode_utf8(s).len() <= u64::MAX,
        b.subrange(pos, pos + 8 + encode_utf8(s).len() as int) == str_block(s),
    ensures
        take_str(b, pos) == Some((s, pos + 8 + encode_utf8(s).len())),
{
    broadcast use encode_utf8_valid_utf8, encode_utf8_decode_utf8;

    let e = encode_utf8(s);
    let n = e.len() as int;
    let blk = b.subrange(pos, pos + 8 + n);
    assert(b.subrange(pos, pos + 8) =~= blk.subrange(0, 8));
    assert(blk.subrange(0, 8) =~= le8(e.len() as u64));
    lemma_le8_val(e.len() as u64);
    assert(read_u64_at(b, pos) == e.len() as u64);
    assert(b.subrange(pos + 8, pos + 8 + n) =~= blk.subrange(8, 8 + n));
    assert(blk.subrange(8, 8 + n) =~= e);
    assert(valid_utf8(e));
    assert(decode_utf8(e) == s);
}

/// Read the string block at `pos`.
pub fn read_str_block(b: &[u8], pos: usize) -> (r: Result<(String, usize), StorefulError>)
    ensures
        match r {
            Ok(sp) => take_str(b@, pos as int) == Some((sp.0@, sp.1 as int)) && pos + 8 <= sp.1
                <= b@.len(),
            Err(e) => take_str(b@, pos as int) is None && e == StorefulError::Codec,
        },
{
    if pos > b.len() || b.len() - pos < 8 {
        return Err(StorefulError::Codec);
    }
    let n64 = get_u64(b, pos);
    if n64 > (b.len() - pos - 8) as u64 {
        return Err(StorefulError::Codec);
    }
    let n = n64 as usize;
    let blen: usize = b.len();
    let mut bytes: Vec<u8> = Vec::new();
    let mut i: usize = 0;
    while i < n
        invariant
            0 <= i <= n,
            pos + 8 + n <= b@.len(),
            b@.len() == blen as int,
            bytes@ =~= b@.subrange(pos as int + 8, pos as int + 8 + i as int),
        decreases n - i,
    {
        bytes.push(b[pos + 8 + i]);
        proof {
            assert(bytes@ =~= b@.subrange(pos as int + 8, pos as int + 8 + i as int + 1));
        }
        i = i + 1;
    }
    let ghost sub = b@.subrange(pos as int + 8, pos as int + 8 + n as int);
    match string_from_utf8_checked(bytes) {
        Ok(s) => {
            proof {
                broadcast use encode_utf8_decode_utf8;

                assert(valid_utf8(sub));
                vstd::utf8::decode_utf8_encode_utf8(sub);
                crate::text::lemma_encode_utf8_injective(s@, decode_utf8(sub));
            }
            Ok((s, pos + 8 + n))
        },
        Err(()) => {
            proof {
                assert(!valid_utf8(sub));
            }
            Err(StorefulError::Codec)
        },
    }
}

} // verus!
