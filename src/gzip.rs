//! The gzip codec of libflate, behind two trusted wrappers.
use vstd::prelude::*;

verus! {

#[verifier::external_type_specification]
#[verifier::external_body]
pub struct ExIoError(std::io::Error);

/// The gzip stream that the encoder below makes of `b`.
pub uninterp spec fn gzipped(b: Seq<u8>) -> Seq<u8>;

/// What the gzip decoder makes of `b`: `None` where it reports an error.
pub uninterp spec fn gunzipped(b: Seq<u8>) -> Option<Seq<u8>>;

/// Relies on libflate's `gzip::Encoder` (with a header whose modification
/// time is fixed at zero, so that the stream depends on `b` alone) and on
/// its `gzip::Decoder` reading such a stream back to `b`.
#[verifier::external_body]
pub(crate) fn gzip(b: &[u8]) -> (r: Result<Vec<u8>, std::io::Error>)
    ensures
        r is Ok ==> r->Ok_0@ == gzipped(b@) && gunzipped(r->Ok_0@) == Some(b@),
{
    let header = libflate::gzip::HeaderBuilder::new().modification_time(0).finish();
    let options = libflate::gzip::EncodeOptions::new().header(header);
    let mut encoder = libflate::gzip::Encoder::with_options(Vec::new(), options)?;
    std::io::Write::write_all(&mut encoder, b)?;
    encoder.finish().into_result()
}

/// Relies on libflate's `gzip::Decoder`, read to the end: its output, or
/// its error, depends on `b` alone.
#[verifier::external_body]
pub(crate) fn gunzip(b: &[u8]) -> (r: Result<Vec<u8>, std::io::Error>)
    ensures
        match r {
            Ok(v) => gunzipped(b@) == Some(v@),
            Err(_) => gunzipped(b@) is None,
        },
{
    let mut decoder = libflate::gzip::Decoder::new(b)?;
    let mut out = Vec::new();
    std::io::Read::read_to_end(&mut decoder, &mut out)?;
    Ok(out)
}

} // verus!
