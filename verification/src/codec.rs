//! Trusted bindings to the image codec and the archive container.
//!
//! Every item here wraps calls into the `png` or `zip` crate; the contracts
//! name the results, which depend on the arguments alone, and state only
//! what those crates' sources show.

use std::io::Write;

use vstd::prelude::*;

use crate::atlas::AtlasError;

verus! {

/// What the png decoder yields for a byte stream that is a well-formed
/// 8-bit RGBA PNG: width, height and the packed pixel rows; `None` for any
/// other stream. The decode depends on the input bytes alone.
pub uninterp spec fn png_decoded(bytes: Seq<u8>) -> Option<(u32, u32, Seq<u8>)>;

/// What the png encoder emits for an RGBA8 buffer of the given dimensions,
/// `None` where the encoder refuses them (a zero dimension). Depends on the
/// arguments alone.
pub uninterp spec fn png_encoded(width: u32, height: u32, pixels: Seq<u8>) -> Option<Seq<u8>>;

/// The archive bytes holding two named entries, written with stored
/// compression, a fixed timestamp and a fixed host system, so that the
/// output depends on the entry names and contents alone.
pub uninterp spec fn zip_archive(
    name1: Seq<char>,
    data1: Seq<u8>,
    name2: Seq<char>,
    data2: Seq<u8>,
) -> Option<Seq<u8>>;

/// Relies on png::Decoder and png::Reader (read_info, next_frame): the
/// decode is a function of the input bytes, and for 8-bit RGBA output the
/// buffer size is width * height * 4 (four one-byte samples per pixel).
/// Streams whose output is not 8-bit RGBA are rejected here.
#[verifier::external_body]
pub(crate) fn decode_rgba8(bytes: &Vec<u8>) -> (r: Result<(u32, u32, Vec<u8>), AtlasError>)
    ensures
        r matches Ok(t) ==> png_decoded(bytes@) == Some((t.0, t.1, t.2@)),
        r matches Ok(t) ==> t.2@.len() == t.0 * t.1 * 4,
        r is Err <==> png_decoded(bytes@) is None,
        r matches Err(e) ==> e == AtlasError::Decode,
{
    let decoder = png::Decoder::new(std::io::Cursor::new(bytes.as_slice()));
    let mut reader = match decoder.read_info() { Ok(r) => r, Err(_) => return Err(AtlasError::Decode) };
    match reader.output_color_type() {
        (png::ColorType::Rgba, png::BitDepth::Eight) => {},
        _ => return Err(AtlasError::Decode),
    }
    let size = match reader.output_buffer_size() { Some(s) => s, None => return Err(AtlasError::Decode) };
    let mut buf = vec![0u8; size];
    if reader.next_frame(&mut buf).is_err() { return Err(AtlasError::Decode); }
    Ok((reader.info().width, reader.info().height, buf))
}

/// Relies on png::Encoder (write_header, write_image_data, finish) with
/// RGBA color and 8-bit depth: the emitted stream is a function of the
/// dimensions, the pixels and these fixed settings.
#[verifier::external_body]
pub(crate) fn encode_rgba8(width: u32, height: u32, pixels: &Vec<u8>) -> (r: Result<Vec<u8>, AtlasError>)
    requires
        pixels@.len() == width * height * 4,
    ensures
        r matches Ok(b) ==> png_encoded(width, height, pixels@) == Some(b@),
        r is Err <==> png_encoded(width, height, pixels@) is None,
        r matches Err(e) ==> e == AtlasError::Archive,
{
    let mut out: Vec<u8> = Vec::new();
    let mut encoder = png::Encoder::new(std::io::Cursor::new(&mut out), width, height);
    encoder.set_color(png::ColorType::Rgba);
    encoder.set_depth(png::BitDepth::Eight);
    let mut writer = match encoder.write_header() { Ok(w) => w, Err(_) => return Err(AtlasError::Archive) };
    if writer.write_image_data(pixels.as_slice()).is_err() { return Err(AtlasError::Archive); }
    if writer.finish().is_err() { return Err(AtlasError::Archive); }
    Ok(out)
}

/// Relies on zip::ZipWriter (start_file, write_all, finish) over an
/// in-memory buffer. Compression is stored, the timestamp and host system
/// are fixed, so the archive bytes depend on names and contents alone.
#[verifier::external_body]
pub(crate) fn zip_two_entries(name1: &str, data1: &Vec<u8>, name2: &str, data2: &Vec<u8>) -> (r: Result<
    Vec<u8>,
    AtlasError,
>)
    ensures
        r matches Ok(b) ==> zip_archive(name1@, data1@, name2@, data2@) == Some(b@),
        r is Err <==> zip_archive(name1@, data1@, name2@, data2@) is None,
        r matches Err(e) ==> e == AtlasError::Archive,
{
    let opts = zip::write::SimpleFileOptions::default().last_modified_time(
        zip::DateTime::default(),
    ).system(zip::System::Unix);
    let mut zw = zip::ZipWriter::new(std::io::Cursor::new(Vec::new()));
    if zw.start_file(name1, opts).is_err() { return Err(AtlasError::Archive); }
    if zw.write_all(data1.as_slice()).is_err() { return Err(AtlasError::Archive); }
    if zw.start_file(name2, opts).is_err() { return Err(AtlasError::Archive); }
    if zw.write_all(data2.as_slice()).is_err() { return Err(AtlasError::Archive); }
    match zw.finish() { Ok(c) => Ok(c.into_inner()), Err(_) => Err(AtlasError::Archive) }
}

} // verus!
