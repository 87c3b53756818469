use vstd::prelude::*;
use vstd::utf8::{decode_utf8, encode_utf8, valid_utf8};

use crate::data::CodecError;

verus! {

/// The position of the first zero byte of `b` at or after `pos`, or `-1`
/// when no zero byte follows.
pub open spec fn find_nul(b: Seq<u8>, pos: int) -> int
    decreases b.len() - pos,
{
    if pos < 0 || pos >= b.len() {
        -1
    } else if b[pos] == 0 {
        pos
    } else {
        find_nul(b, pos + 1)
    }
}

/// [`find_nul`] finds `q` when the bytes from `pos` up to `q` are non-zero
/// and the byte at `q` is zero.
pub proof fn lemma_find_nul_at(b: Seq<u8>, pos: int, q: int)
    requires
        0 <= pos <= q < b.len(),
        forall|k: int| pos <= k < q ==> b[k] != 0,
        b[q] == 0,
    ensures
        find_nul(b, pos) == q,
    decreases q - pos,
{
    if pos < q {
        lemma_find_nul_at(b, pos + 1, q);
    }
}

/// Relies on `String::from_utf8`: it returns `Ok` exactly when the bytes
/// are valid UTF-8, and the returned string consists of those very bytes.
#[verifier::external_body]
fn string_from_utf8(bytes: Vec<u8>) -> (r: Option<String>)
    ensures
        r is Some <==> valid_utf8(bytes@),
        (r matches Some(s) ==> encode_utf8(s@) == bytes@),
{
    String::from_utf8(bytes).ok()
}

/// Read the zero-terminated byte sequence that starts at `pos` and decode
/// it as UTF-8. Fails with [`CodecError::OutOfBounds`] when no terminator
/// follows within `data`, and with [`CodecError::InvalidStringEncoding`]
/// when the bytes before the terminator are not valid UTF-8.
pub fn read_cstring(data: &Vec<u8>, pos: usize) -> (r: Result<String, CodecError>)
    ensures
        ({
            let e = find_nul(data@, pos as int);
            match r {
                Ok(s) => e >= 0 && valid_utf8(data@.subrange(pos as int, e)) && s@ == decode_utf8(
                    data@.subrange(pos as int, e),
                ) && encode_utf8(s@) == data@.subrange(pos as int, e),
                Err(err) => (e < 0 && err == CodecError::OutOfBounds) || (e >= 0 && !valid_utf8(
                    data@.subrange(pos as int, e),
                ) && err == CodecError::InvalidStringEncoding),
            }
        }),
{
    let n = data.len();
    let mut i = pos;
    let mut bytes: Vec<u8> = Vec::new();
    if pos >= n {
        return Err(CodecError::OutOfBounds);
    }
    loop
        invariant
            pos <= i <= n,
            n == data@.len(),
            forall|k: int| pos <= k < i ==> data@[k] != 0,
            bytes@ == data@.subrange(pos as int, i as int),
            find_nul(data@, pos as int) == find_nul(data@, i as int),
        decreases n - i,
    {
        if i == n {
            return Err(CodecError::OutOfBounds);
        }
        let byte = data[i];
        if byte == 0 {
            proof {
                assert(find_nul(data@, i as int) == i);
            }
            return match string_from_utf8(bytes) {
                Some(s) => {
                    proof {
                        vstd::utf8::encode_utf8_decode_utf8(s@);
                    }
                    Ok(s)
                },
                None => Err(CodecError::InvalidStringEncoding),
            };
        }
        bytes.push(byte);
        i = i + 1;
        proof {
            assert(bytes@ =~= data@.subrange(pos as int, i as int));
        }
    }
}

} // verus!
