//! The binary encoding of batches.
//!
//! A stored batch is a format tag of four bytes, then the encoding of the
//! lower bound, the upper bound and the tuples of the batch.  The encoding
//! after the tag is that of the bincode crate.  Bytes that are read back are
//! not trusted: what they decode to is a batch only if it is a valid one.

use vstd::prelude::*;
use crate::error::IoError;
use crate::time::Antichain;
use crate::trace::ord::{valid_parts, OrdBatch};
use crate::trace::BatchReader;

verus! {

/// A tuple of a stored batch: key, value, time and weight.
pub type Row = (((u64, u64), u32), i64);

/// A stored batch: keys and values are 64-bit numbers, times are 32-bit
/// numbers and weights are 64-bit integers.
pub type StoredBatch = OrdBatch<u64, u64, u32, i64>;

/// The format tag: the number one as four bytes, the lowest byte first.
pub open spec fn tag_bytes() -> Seq<u8> {
    seq![1u8, 0u8, 0u8, 0u8]
}

/// What `bincode::encode_to_vec` gives for a lower bound, an upper bound and
/// tuples under the standard configuration: the bytes, or nothing where it
/// fails.
pub uninterp spec fn encoded_parts(lower: Seq<u32>, upper: Seq<u32>, rows: Seq<Row>) -> Option<
    Seq<u8>,
>;

/// What `bincode::decode_from_slice` gives for bytes under the standard
/// configuration with a limit of `0x4000_0000` bytes: a lower bound, an upper
/// bound, tuples and the number of bytes read, or nothing where it fails.
pub uninterp spec fn decoded_parts(bytes: Seq<u8>) -> Option<
    (Seq<u32>, Seq<u32>, Seq<Row>, usize),
>;

/// Calls `bincode::encode_to_vec` on the triple of the lower bound, the
/// upper bound and the tuples, with `bincode::config::standard()`.  The
/// contract only names the result: the bytes that bincode gives for these
/// values, or nothing where bincode reports an error.
#[verifier::external_body]
fn encode_parts(lower: &Vec<u32>, upper: &Vec<u32>, rows: &Vec<Row>) -> (r: Option<Vec<u8>>)
    ensures
        r matches Some(bytes) ==> encoded_parts(lower@, upper@, rows@) == Some(bytes@),
        r is None ==> encoded_parts(lower@, upper@, rows@) is None,
{
    match bincode::encode_to_vec((lower, upper, rows), bincode::config::standard()) {
        Ok(bytes) => Some(bytes),
        Err(_) => None,
    }
}

/// Calls `bincode::decode_from_slice` for a triple of a lower bound, an
/// upper bound and tuples, with `bincode::config::standard()` and a limit of
/// `0x4000_0000` bytes on what it allocates.  The contract only names the
/// result: what bincode decodes from these bytes and how many bytes it read,
/// or nothing where bincode reports an error.
#[verifier::external_body]
fn decode_parts(bytes: &Vec<u8>) -> (r: Option<(Vec<u32>, Vec<u32>, Vec<Row>, usize)>)
    ensures
        r matches Some(p) ==> decoded_parts(bytes@) == Some((p.0@, p.1@, p.2@, p.3)),
        r is None ==> decoded_parts(bytes@) is None,
{
    let config = bincode::config::standard().with_limit::<0x4000_0000>();
    match bincode::decode_from_slice::<(Vec<u32>, Vec<u32>, Vec<Row>), _>(bytes.as_slice(), config) {
        Ok(((lower, upper, rows), used)) => Some((lower, upper, rows, used)),
        Err(_) => None,
    }
}

/// Copies the elements of an antichain.
fn antichain_elements(a: &Antichain<u32>) -> (r: Vec<u32>)
    ensures
        r@ == a@,
{
    let mut r: Vec<u32> = Vec::new();
    let mut i: usize = 0;
    while i < a.len()
        invariant
            i <= a@.len(),
            r@ == a@.take(i as int),
        decreases a@.len() - i,
    {
        r.push(*a.get(i));
        proof {
            assert(r@ =~= a@.take(i + 1));
        }
        i = i + 1;
    }
    proof {
        assert(a@.take(a@.len() as int) =~= a@);
    }
    r
}

/// Puts the format tag before the encoding of the parts of a batch; nothing
/// where there is no encoding.
pub fn frame(payload: Option<Vec<u8>>) -> (r: Option<Vec<u8>>)
    ensures
        payload is None ==> r is None,
        payload matches Some(p) ==> (r matches Some(v) && v@ == tag_bytes() + p@),
{
    match payload {
        None => None,
        Some(p) => {
            let mut v: Vec<u8> = Vec::new();
            v.push(1u8);
            v.push(0u8);
            v.push(0u8);
            v.push(0u8);
            let mut i: usize = 0;
            while i < p.len()
                invariant
                    i <= p.len(),
                    v@ == tag_bytes() + p@.take(i as int),
                decreases p.len() - i,
            {
                v.push(p[i]);
                proof {
                    assert(v@ =~= tag_bytes() + p@.take(i + 1));
                }
                i = i + 1;
            }
            proof {
                assert(p@.take(p.len() as int) =~= p@);
            }
            Some(v)
        },
    }
}

/// Encodes a batch: the format tag, then the encoding of its bounds and
/// tuples; nothing where these have no encoding.
pub fn encode_batch(batch: &StoredBatch) -> (r: Option<Vec<u8>>)
    requires
        batch.wf(),
    ensures
        encoded_parts(batch.lower_spec()@, batch.upper_spec()@, batch.tuples()) is None ==> r is None,
        encoded_parts(batch.lower_spec()@, batch.upper_spec()@, batch.tuples()) matches Some(p)
            ==> (r matches Some(v) && v@ == tag_bytes() + p),
{
    let lower = antichain_elements(batch.lower());
    let upper = antichain_elements(batch.upper());
    let mut rows: Vec<Row> = Vec::new();
    let mut i: usize = 0;
    let n = batch.len();
    while i < n
        invariant
            batch.wf(),
            n == batch.tuples().len(),
            i <= n,
            rows@ == batch.tuples().take(i as int),
        decreases n - i,
    {
        rows.push(*batch.get(i));
        proof {
            assert(rows@ =~= batch.tuples().take(i + 1));
        }
        i = i + 1;
    }
    proof {
        assert(batch.tuples().take(n as int) =~= batch.tuples());
    }
    frame(encode_parts(&lower, &upper, &rows))
}

/// Makes a batch of what was decoded from `payload_len` bytes: the batch of
/// the parts, where the decoding read all the bytes and the parts make a
/// valid batch.
pub fn batch_from_decoded(
    decoded: Option<(Vec<u32>, Vec<u32>, Vec<Row>, usize)>,
    payload_len: usize,
) -> (r: Result<StoredBatch, IoError>)
    ensures
        r matches Err(e) ==> e == IoError::Corrupt,
        r is Ok <==> (decoded matches Some(p) && p.3 == payload_len && valid_parts(
            p.2@,
            p.0@,
            p.1@,
        )),
        r matches Ok(b) ==> (decoded matches Some(p) && b.wf() && b.tuples() == p.2@
            && b.lower_spec()@ == p.0@ && b.upper_spec()@ == p.1@),
{
    match decoded {
        None => Err(IoError::Corrupt),
        Some(p) => {
            if p.3 != payload_len {
                return Err(IoError::Corrupt);
            }
            match OrdBatch::from_parts(p.2, p.0, p.1) {
                Some(b) => Ok(b),
                None => Err(IoError::Corrupt),
            }
        },
    }
}

/// Decodes a batch.
///
/// Bytes that are shorter than the format tag give `ShortRead`; another tag
/// than that of this library gives `UnknownFormat`; bytes after the tag that
/// do not decode, that decode with bytes left over, or that decode to parts
/// that make no valid batch, give `Corrupt`.
pub fn decode_batch(bytes: &Vec<u8>) -> (r: Result<StoredBatch, IoError>)
    ensures
        bytes@.len() < 4 ==> (r matches Err(e) && e == IoError::ShortRead),
        bytes@.len() >= 4 && bytes@.take(4) != tag_bytes() ==> (r matches Err(e) && e
            == IoError::UnknownFormat),
        bytes@.len() >= 4 && bytes@.take(4) == tag_bytes() ==> {
            &&& r matches Err(e) ==> e == IoError::Corrupt
            &&& r is Ok <==> (decoded_parts(bytes@.skip(4)) matches Some(p) && p.3 == bytes@.len()
                - 4 && valid_parts(p.2, p.0, p.1))
            &&& r matches Ok(b) ==> (decoded_parts(bytes@.skip(4)) matches Some(p) && b.wf()
                && b.tuples() == p.2 && b.lower_spec()@ == p.0 && b.upper_spec()@ == p.1)
        },
{
    if bytes.len() < 4 {
        return Err(IoError::ShortRead);
    }
    if bytes[0] != 1u8 || bytes[1] != 0u8 || bytes[2] != 0u8 || bytes[3] != 0u8 {
        proof {
            if bytes@.take(4) == tag_bytes() {
                assert(bytes@.take(4)[0] == 1u8);
                assert(bytes@.take(4)[1] == 0u8);
                assert(bytes@.take(4)[2] == 0u8);
                assert(bytes@.take(4)[3] == 0u8);
            }
        }
        return Err(IoError::UnknownFormat);
    }
    proof {
        assert(bytes@.take(4) =~= tag_bytes());
    }
    let mut payload: Vec<u8> = Vec::new();
    let mut i: usize = 4;
    while i < bytes.len()
        invariant
            4 <= i <= bytes.len(),
            payload@ == bytes@.skip(4).take(i - 4),
        decreases bytes.len() - i,
    {
        payload.push(bytes[i]);
        proof {
            assert(payload@ =~= bytes@.skip(4).take(i - 4 + 1));
        }
        i = i + 1;
    }
    proof {
        assert(bytes@.skip(4).take(bytes@.len() - 4) =~= bytes@.skip(4));
    }
    batch_from_decoded(decode_parts(&payload), payload.len())
}

} // verus!
