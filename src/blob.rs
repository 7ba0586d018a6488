//! The payload of a blob of an `osm.pbf` file: stored raw or zlib-compressed.
use vstd::prelude::*;
use crate::compile::Error;

verus! {

/// What `flate2`'s zlib decoder reads out of `data` to its end, or nothing
/// where `data` is no valid zlib stream.
pub uninterp spec fn inflated(data: Seq<u8>) -> Option<Seq<u8>>;

/// Relies on `flate2::read::ZlibDecoder` read to its end: the decompressed
/// bytes of a zlib stream.
#[verifier::external_body]
fn inflate(data: &[u8]) -> (r: Option<Vec<u8>>)
    ensures
        r is Some == inflated(data@) is Some,
        r is Some ==> r->Some_0@ == inflated(data@)->Some_0,
{
    let mut out = Vec::new();
    std::io::Read::read_to_end(&mut flate2::read::ZlibDecoder::new(data), &mut out).ok()?;
    Some(out)
}

/// The payload of a blob: its raw bytes where it has them, else its zlib
/// data inflated, else nothing.
pub open spec fn payload(raw: Option<Seq<u8>>, zlib_data: Option<Seq<u8>>) -> Result<Seq<u8>, Error> {
    match raw {
        Some(r) => Ok(r),
        None => match zlib_data {
            Some(z) => match inflated(z) {
                Some(d) => Ok(d),
                None => Err(Error::InvalidBlock),
            },
            None => Err(Error::UnknownCompression),
        },
    }
}

pub open spec fn opt_view(v: Option<Vec<u8>>) -> Option<Seq<u8>> {
    match v { Some(x) => Some(x@), None => None }
}

/// The payload of a blob, checked against its declared raw size where it
/// declares one. Fails on a blob with neither raw nor zlib data, on a zlib
/// stream that does not inflate, and on a size that differs.
pub fn blob_data(raw: Option<Vec<u8>>, raw_size: Option<i32>, zlib_data: Option<Vec<u8>>) -> (r: Result<Vec<u8>, Error>)
    ensures
        match payload(opt_view(raw), opt_view(zlib_data)) {
            Err(e) => r == Err::<Vec<u8>, Error>(e),
            Ok(d) => match raw_size {
                Some(s) if s as int != d.len() => r == Err::<Vec<u8>, Error>(Error::BlobSize),
                _ => r is Ok && r->Ok_0@ == d,
            },
        },
{
    let data = match raw {
        Some(r) => r,
        None => match zlib_data {
            Some(z) => match inflate(z.as_slice()) {
                Some(d) => d,
                None => {
                    return Err(Error::InvalidBlock);
                },
            },
            None => {
                return Err(Error::UnknownCompression);
            },
        },
    };
    match raw_size {
        Some(s) => {
            if s < 0 || s as usize != data.len() {
                return Err(Error::BlobSize);
            }
        },
        None => {},
    }
    Ok(data)
}

} // verus!
