//! The external collaborators: the decompression codec, the delimited-record
//! decoder and the CSV line writer. Each call computes a function of its byte
//! arguments alone; the names below stand for those results, and everything
//! the library proves about a file's aggregation is relative to them.
use vstd::prelude::*;

verus! {

/// What decompressing a gzip byte stream yields, or `None` when the stream is
/// corrupt or truncated.
pub uninterp spec fn gunzip_of(data: Seq<u8>) -> Option<Seq<u8>>;

/// How decoded text splits into space-delimited, header-less records: one
/// element per record, in order; a record the decoder rejects is `None`, an
/// accepted one is its sequence of fields.
pub uninterp spec fn records_of(text: Seq<u8>) -> Seq<Option<Seq<Seq<u8>>>>;

/// The one CSV-encoded line (comma-delimited, quoted as needed, terminated by
/// a newline) that serializes the given fields.
pub uninterp spec fn csv_line_of(fields: Seq<Seq<u8>>) -> Seq<u8>;

/// Relies on flate2's `read::GzDecoder`: decompressing an in-memory buffer
/// depends on its bytes alone; any read error reports a corrupt stream.
#[verifier::external_body]
pub(crate) fn gunzip(data: &Vec<u8>) -> (r: Option<Vec<u8>>)
    ensures
        r.deep_view() == gunzip_of(data@),
{
    let mut decoder = flate2::read::GzDecoder::new(data.as_slice());
    let mut out: Vec<u8> = Vec::new();
    match std::io::Read::read_to_end(&mut decoder, &mut out) {
        Ok(_) => Some(out),
        Err(_) => None,
    }
}

/// Relies on the csv crate's `Reader` (space delimiter, no headers): parsing
/// an in-memory buffer into records depends on its bytes alone; a record the
/// reader rejects comes back as an error and is handed on as `None`.
#[verifier::external_body]
pub(crate) fn csv_records(text: &Vec<u8>) -> (r: Vec<Option<Vec<Vec<u8>>>>)
    ensures
        r.deep_view() == records_of(text@),
{
    let rdr = csv::ReaderBuilder::new().has_headers(false).delimiter(b' ').from_reader(
        text.as_slice(),
    );
    let mut out: Vec<Option<Vec<Vec<u8>>>> = Vec::new();
    for rec in rdr.into_records() {
        out.push(rec.ok().map(|fields| fields.iter().map(|f| f.as_bytes().to_vec()).collect()));
    }
    out
}

/// Relies on the csv crate's `Writer` over an in-memory buffer: the encoded
/// line depends on the fields alone, and writing into a `Vec` cannot fail.
#[verifier::external_body]
pub(crate) fn csv_line(fields: &Vec<Vec<u8>>) -> (r: Vec<u8>)
    ensures
        r@ == csv_line_of(fields.deep_view()),
{
    let mut w = csv::WriterBuilder::new().from_writer(Vec::new());
    if w.write_record(fields).is_err() {
        return Vec::new();
    }
    match w.into_inner() {
        Ok(buf) => buf,
        Err(_) => Vec::new(),
    }
}

} // verus!
