//! Scanning a PNG byte stream for ancillary chunks, and decoding it whole.
use vstd::prelude::*;

use crate::chunk::{
    ascii_bytes, data_at, is_upper, lemma_record_round_trip, name_check, record_bytes,
    record_check, record_end, text_check, type_at, ByteReader, Chunk, ChunkType, Error,
};
use crate::encode::records_bytes;

verus! {

#[verifier::external_type_specification]
#[verifier::external_body]
pub struct ExDynamicImage(image::DynamicImage);

#[verifier::external_type_specification]
#[verifier::external_body]
pub struct ExImageError(image::ImageError);

/// Errors of reading a PNG stream.
#[derive(Debug)]
pub enum DecodingError {
    /// The stream ended inside its leading signature.
    Truncated,
    /// Bytes 1 to 3 of the signature are not "PNG".
    NotPng,
    /// The pixel data could not be decoded.
    Image(image::ImageError),
    /// A chunk record is malformed or corrupt.
    Chunk(Error),
    /// No ancillary chunk has the requested name.
    ChunkNotFound,
}

/// The names of the pixel-data and end-of-stream records, where a scan stops.
pub open spec fn is_stop_name(t: Seq<u8>) -> bool {
    t == seq![73u8, 68u8, 65u8, 84u8] || t == seq![73u8, 69u8, 78u8, 68u8]
}

/// The (name, payload) pairs of the ancillary records from `p` on, up to the first pixel-data
/// or end-of-stream record, or the error of the first malformed record.
pub open spec fn scan_from(s: Seq<u8>, p: int) -> Result<Seq<(Seq<u8>, Seq<u8>)>, Error>
    decreases s.len() - p,
{
    if record_check(s, p) is Err {
        Err(record_check(s, p)->Err_0)
    } else if is_stop_name(type_at(s, p)) {
        Ok(seq![])
    } else if s.len() - record_end(s, p) < 0 || record_end(s, p) <= p {
        Ok(seq![])
    } else {
        match scan_from(s, record_end(s, p)) {
            Err(e) => Err(e),
            Ok(rest) => if is_upper(type_at(s, p)[0]) {
                Ok(rest)
            } else {
                Ok(seq![(type_at(s, p), data_at(s, p))] + rest)
            },
        }
    }
}

/// What a scan of the whole stream `s` gives.
pub open spec fn scan_result(s: Seq<u8>) -> Result<Seq<(Seq<u8>, Seq<u8>)>, DecodingError> {
    if s.len() < 8 {
        Err(DecodingError::Truncated)
    } else if s.subrange(1, 4) != seq![80u8, 78u8, 71u8] {
        Err(DecodingError::NotPng)
    } else {
        match scan_from(s, 8) {
            Ok(v) => Ok(v),
            Err(e) => Err(DecodingError::Chunk(e)),
        }
    }
}

/// The (name, payload) pairs of a list of chunks.
pub open spec fn chunks_view(v: Seq<Chunk>) -> Seq<(Seq<u8>, Seq<u8>)> {
    v.map_values(|c: Chunk| (c.chunk_type@, c.data@))
}

/// The payload of the first pair named `t`.
pub open spec fn first_match(v: Seq<(Seq<u8>, Seq<u8>)>, t: Seq<u8>) -> Option<Seq<u8>>
    decreases v.len(),
{
    if v.len() == 0 {
        None
    } else if v[0].0 == t {
        Some(v[0].1)
    } else {
        first_match(v.drop_first(), t)
    }
}

/// `r` with `prefix` put before its pairs, if it holds any.
pub open spec fn prepend_ok(
    prefix: Seq<(Seq<u8>, Seq<u8>)>,
    r: Result<Seq<(Seq<u8>, Seq<u8>)>, Error>,
) -> Result<Seq<(Seq<u8>, Seq<u8>)>, Error> {
    match r {
        Ok(v) => Ok(prefix + v),
        Err(e) => Err(e),
    }
}

/// Whether the image decoder, with its default limits, accepts these bytes as a PNG image.
pub uninterp spec fn png_decodes(b: Seq<u8>) -> bool;

/// Relies on `image::load_from_memory_with_format` with the PNG format: decodes the pixels,
/// succeeding or failing on the bytes alone.
#[verifier::external_body]
fn decode_png(bytes: &[u8]) -> (r: Result<image::DynamicImage, image::ImageError>)
    ensures
        r is Ok <==> png_decodes(bytes@),
{
    image::load_from_memory_with_format(bytes, image::ImageFormat::Png)
}

fn is_stop(t: &ChunkType) -> (r: bool)
    ensures
        r == is_stop_name(t@),
{
    let b = t.to_ascii();
    let r = b[0] == 73 && ((b[1] == 68 && b[2] == 65 && b[3] == 84) || (b[1] == 69 && b[2] == 78
        && b[3] == 68));
    proof {
        if r {
            assert(is_stop_name(t@)) by {
                if b[1] == 68 {
                    assert(t@ =~= seq![73u8, 68u8, 65u8, 84u8]);
                } else {
                    assert(t@ =~= seq![73u8, 69u8, 78u8, 68u8]);
                }
            }
        } else if t@ == seq![73u8, 68u8, 65u8, 84u8] || t@ == seq![73u8, 69u8, 78u8, 68u8] {
            assert(b@[0] == t@[0] && b@[1] == t@[1] && b@[2] == t@[2] && b@[3] == t@[3]);
        }
    }
    r
}

/// PNG decoding, including ancillary chunks.
pub struct Decoder {
    pub reader: ByteReader,
}

impl Decoder {
    pub fn from_reader(reader: ByteReader) -> (r: Self)
        ensures
            r.reader == reader,
    {
        Decoder { reader }
    }

    /// Decode the non-critical chunks only, up to the pixel data or the end of the stream.
    pub fn decode_ancillary_chunks(&mut self) -> (r: Result<Vec<Chunk>, DecodingError>)
        ensures
            final(self).reader.bytes@ == old(self).reader.bytes@,
            match r {
                Ok(v) => scan_result(old(self).reader.bytes@) == Ok::<
                    Seq<(Seq<u8>, Seq<u8>)>,
                    DecodingError,
                >(chunks_view(v@)),
                Err(e) => scan_result(old(self).reader.bytes@) == Err::<
                    Seq<(Seq<u8>, Seq<u8>)>,
                    DecodingError,
                >(e),
            },
    {
        let ghost s = self.reader.bytes@;
        self.reader.pos = 0;
        if self.reader.bytes.len() < 8 {
            return Err(DecodingError::Truncated);
        }
        if !(self.reader.bytes[1] == 80 && self.reader.bytes[2] == 78 && self.reader.bytes[3]
            == 71) {
            proof {
                if s.subrange(1, 4) == seq![80u8, 78u8, 71u8] {
                    assert(s.subrange(1, 4)[0] == s[1]);
                    assert(s.subrange(1, 4)[1] == s[2]);
                    assert(s.subrange(1, 4)[2] == s[3]);
                }
            }
            return Err(DecodingError::NotPng);
        }
        assert(s.subrange(1, 4) =~= seq![80u8, 78u8, 71u8]);
        self.reader.pos = 8;
        let mut chunks: Vec<Chunk> = Vec::new();
        loop
            invariant_except_break
                self.reader.pos <= s.len(),
                scan_from(s, 8) == prepend_ok(
                    chunks_view(chunks@),
                    scan_from(s, self.reader.pos as int),
                ),
            invariant
                self.reader.bytes@ == s,
                s == old(self).reader.bytes@,
                scan_result(s) == match scan_from(s, 8) {
                    Ok(v) => Ok(v),
                    Err(e) => Err(DecodingError::Chunk(e)),
                },
            ensures
                scan_from(s, 8) == Ok::<Seq<(Seq<u8>, Seq<u8>)>, Error>(chunks_view(chunks@)),
            decreases s.len() - self.reader.pos,
        {
            let ghost p = self.reader.pos as int;
            let c = match Chunk::from_reader(&mut self.reader) {
                Ok(c) => c,
                Err(e) => {
                    return Err(DecodingError::Chunk(e));
                },
            };
            if is_stop(&c.chunk_type) {
                assert(chunks_view(chunks@) + seq![] =~= chunks_view(chunks@));
                break;
            }
            let ghost before = chunks_view(chunks@);
            let ghost item = (c.chunk_type@, c.data@);
            let critical = c.chunk_type.is_critical();
            if !critical {
                chunks.push(c);
            }
            proof {
                let end = self.reader.pos as int;
                assert(end == record_end(s, p));
                if !critical {
                    assert(chunks_view(chunks@) =~= before + seq![item]);
                }
                match scan_from(s, end) {
                    Ok(rest) => {
                        assert(before + (seq![item] + rest) =~= before + seq![item] + rest);
                    },
                    Err(_) => {},
                }
            }
        }
        Ok(chunks)
    }

    /// Decode image and ancillary chunks.
    pub fn decode_all(&mut self) -> (r: Result<(image::DynamicImage, Vec<Chunk>), DecodingError>)
        ensures
            final(self).reader.bytes@ == old(self).reader.bytes@,
            scan_result(old(self).reader.bytes@) is Ok && png_decodes(old(self).reader.bytes@)
                ==> r is Ok,
            match r {
                Ok((_, v)) => scan_result(old(self).reader.bytes@) == Ok::<
                    Seq<(Seq<u8>, Seq<u8>)>,
                    DecodingError,
                >(chunks_view(v@)) && png_decodes(old(self).reader.bytes@),
                Err(e) => scan_result(old(self).reader.bytes@) == Err::<
                    Seq<(Seq<u8>, Seq<u8>)>,
                    DecodingError,
                >(e) || (scan_result(old(self).reader.bytes@) is Ok && !png_decodes(
                    old(self).reader.bytes@,
                ) && e is Image),
            },
    {
        let chunks = self.decode_ancillary_chunks()?;
        self.reader.pos = 0;
        match decode_png(self.reader.bytes.as_slice()) {
            Ok(image) => Ok((image, chunks)),
            Err(e) => Err(DecodingError::Image(e)),
        }
    }

    /// The payload of the first ancillary chunk named `name`.
    pub fn read_chunk(&mut self, name: &str) -> (r: Result<Vec<u8>, DecodingError>)
        ensures
            final(self).reader.bytes@ == old(self).reader.bytes@,
            match scan_result(old(self).reader.bytes@) {
                Err(e) => r matches Err(f) && f == e,
                Ok(v) => match text_check(name@) {
                    Err(e) => r matches Err(f) && f == DecodingError::Chunk(e),
                    Ok(_) => match first_match(v, ascii_bytes(name@)) {
                        Some(d) => r matches Ok(data) && data@ == d,
                        None => r matches Err(f) && f == DecodingError::ChunkNotFound,
                    },
                },
            },
    {
        let chunks = self.decode_ancillary_chunks()?;
        let chunk_type = match ChunkType::from_ascii(name) {
            Ok(t) => t,
            Err(e) => return Err(DecodingError::Chunk(e)),
        };
        let ghost v = chunks_view(chunks@);
        let ghost s = self.reader.bytes@;
        assert(v.subrange(0, v.len() as int) =~= v);
        let mut i: usize = 0;
        while i < chunks.len()
            invariant
                0 <= i <= chunks@.len(),
                self.reader.bytes@ == s,
                s == old(self).reader.bytes@,
                scan_result(s) == Ok::<Seq<(Seq<u8>, Seq<u8>)>, DecodingError>(v),
                text_check(name@) is Ok,
                chunk_type@ == ascii_bytes(name@),
                v == chunks_view(chunks@),
                first_match(v, chunk_type@) == first_match(v.subrange(i as int, v.len() as int), chunk_type@),
            decreases chunks@.len() - i,
        {
            let ghost rest = v.subrange(i as int, v.len() as int);
            if chunks[i].chunk_type.same_name(&chunk_type) {
                return Ok(vstd::slice::slice_to_vec(chunks[i].data.as_slice()));
            }
            assert(rest.drop_first() =~= v.subrange(i + 1, v.len() as int));
            i = i + 1;
        }
        assert(v.subrange(i as int, v.len() as int).len() == 0);
        Err(DecodingError::ChunkNotFound)
    }
}

/// The ancillary (name, payload) pairs of `recs`, in order, up to its first pixel-data or
/// end-of-stream record.
pub open spec fn ancillary_of(recs: Seq<(Seq<u8>, Seq<u8>)>) -> Seq<(Seq<u8>, Seq<u8>)>
    decreases recs.len(),
{
    if recs.len() == 0 || is_stop_name(recs[0].0) {
        seq![]
    } else if is_upper(recs[0].0[0]) {
        ancillary_of(recs.drop_first())
    } else {
        seq![recs[0]] + ancillary_of(recs.drop_first())
    }
}

/// Every pair has a valid name and a payload whose length fits in 32 bits.
pub open spec fn valid_records(recs: Seq<(Seq<u8>, Seq<u8>)>) -> bool {
    forall|i: int|
        0 <= i < recs.len() ==> name_check(#[trigger] recs[i].0) is Ok && recs[i].1.len()
            <= u32::MAX
}

proof fn lemma_records_bytes_first(recs: Seq<(Seq<u8>, Seq<u8>)>)
    requires
        recs.len() > 0,
    ensures
        records_bytes(recs) == record_bytes(recs[0].0, recs[0].1) + records_bytes(
            recs.drop_first(),
        ),
    decreases recs.len(),
{
    if recs.len() == 1 {
        assert(recs.drop_last().len() == 0);
        assert(recs.drop_first().len() == 0);
        assert(records_bytes(recs.drop_last()) == Seq::<u8>::empty());
        assert(records_bytes(recs.drop_first()) == Seq::<u8>::empty());
        assert(recs.last() == recs[0]);
        assert(records_bytes(recs) =~= record_bytes(recs[0].0, recs[0].1) + records_bytes(
            recs.drop_first(),
        ));
    } else {
        let dl = recs.drop_last();
        let rest = recs.drop_first();
        let f = record_bytes(recs[0].0, recs[0].1);
        let l = record_bytes(recs.last().0, recs.last().1);
        lemma_records_bytes_first(dl);
        assert(dl.drop_first() =~= rest.drop_last());
        assert(rest.last() == recs.last());
        assert(dl[0] == recs[0]);
        assert(records_bytes(recs) == records_bytes(dl) + l);
        assert(records_bytes(dl) == f + records_bytes(rest.drop_last()));
        assert(records_bytes(rest) == records_bytes(rest.drop_last()) + l);
        assert(records_bytes(recs) =~= f + records_bytes(rest));
    }
}

proof fn lemma_scan_first(pre: Seq<u8>, recs: Seq<(Seq<u8>, Seq<u8>)>, post: Seq<u8>)
    requires
        valid_records(recs),
        recs.len() > 0,
    ensures
        ({
            let s = pre + records_bytes(recs) + post;
            let p = pre.len() as int;
            let pre2 = pre + record_bytes(recs[0].0, recs[0].1);
            &&& record_check(s, p) is Ok
            &&& type_at(s, p) == recs[0].0
            &&& data_at(s, p) == recs[0].1
            &&& record_end(s, p) == pre2.len()
            &&& s == pre2 + records_bytes(recs.drop_first()) + post
        }),
{
    let first = recs[0];
    let rb = record_bytes(first.0, first.1);
    let r = records_bytes(recs.drop_first());
    lemma_records_bytes_first(recs);
    assert(name_check(recs[0].0) is Ok);
    lemma_add_assoc(pre, rb, r);
    lemma_add_assoc(pre + rb, r, post);
    lemma_record_round_trip(pre, first.0, first.1, r + post);
}

proof fn lemma_add_assoc(a: Seq<u8>, b: Seq<u8>, c: Seq<u8>)
    ensures
        a + (b + c) == (a + b) + c,
{
    assert(a + (b + c) =~= (a + b) + c);
}

proof fn lemma_scan_step(s: Seq<u8>, p: int)
    requires
        record_check(s, p) is Ok,
        !is_stop_name(type_at(s, p)),
    ensures
        scan_from(s, p) == match scan_from(s, record_end(s, p)) {
            Err(e) => Err(e),
            Ok(rest) => if is_upper(type_at(s, p)[0]) {
                Ok(rest)
            } else {
                Ok(seq![(type_at(s, p), data_at(s, p))] + rest)
            },
        },
{
}

proof fn lemma_rest_valid(recs: Seq<(Seq<u8>, Seq<u8>)>)
    requires
        valid_records(recs),
        recs.len() > 0,
    ensures
        valid_records(recs.drop_first()),
{
    let rest = recs.drop_first();
    assert forall|i: int| 0 <= i < rest.len() implies name_check(#[trigger] rest[i].0) is Ok
        && rest[i].1.len() <= u32::MAX by {
        assert(rest[i] == recs[i + 1]);
    }
}

proof fn lemma_scan_records(
    pre: Seq<u8>,
    recs: Seq<(Seq<u8>, Seq<u8>)>,
    post: Seq<u8>,
)
    requires
        valid_records(recs),
        recs.len() > 0,
        is_stop_name(recs.last().0),
    ensures
        scan_from(pre + records_bytes(recs) + post, pre.len() as int) == Ok::<
            Seq<(Seq<u8>, Seq<u8>)>,
            Error,
        >(ancillary_of(recs)),
    decreases recs.len(),
{
    let s = pre + records_bytes(recs) + post;
    let p = pre.len() as int;
    lemma_scan_first(pre, recs, post);
    if !is_stop_name(recs[0].0) {
        let rest = recs.drop_first();
        let pre2 = pre + record_bytes(recs[0].0, recs[0].1);
        assert(rest.len() > 0 && rest.last() == recs.last());
        lemma_rest_valid(recs);
        lemma_scan_records(pre2, rest, post);
        lemma_scan_step(s, p);
    }
}

/// A stream made of the signature and a list of valid records that ends with a pixel-data or
/// end-of-stream record scans to exactly the ancillary records before the first such one, in
/// their order, whatever follows.
pub proof fn lemma_scan_finds_ancillary(
    sig: Seq<u8>,
    recs: Seq<(Seq<u8>, Seq<u8>)>,
    post: Seq<u8>,
)
    requires
        sig.len() == 8,
        sig.subrange(1, 4) == seq![80u8, 78u8, 71u8],
        valid_records(recs),
        recs.len() > 0,
        is_stop_name(recs.last().0),
    ensures
        scan_result(sig + records_bytes(recs) + post) == Ok::<
            Seq<(Seq<u8>, Seq<u8>)>,
            DecodingError,
        >(ancillary_of(recs)),
{
    let s = sig + records_bytes(recs) + post;
    lemma_scan_records(sig, recs, post);
    assert(s.subrange(1, 4) =~= sig.subrange(1, 4));
}

/// A stream whose bytes 1 to 3 are not "PNG" is refused as such.
pub proof fn lemma_not_png(s: Seq<u8>)
    requires
        s.len() >= 8,
        s.subrange(1, 4) != seq![80u8, 78u8, 71u8],
    ensures
        scan_result(s) matches Err(DecodingError::NotPng),
{
}

} // verus!
