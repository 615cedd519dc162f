//! Chunk type names and the on-disk chunk record codec.
use vstd::prelude::*;
use vstd::utf8::is_ascii_chars;

verus! {

/// Errors of chunk names and chunk records.
#[derive(Debug, PartialEq, Eq, Clone, Copy, Structural)]
pub enum Error {
    /// The chunk type name holds a non-ASCII character.
    TypeAscii,
    /// The chunk type name is not four characters long.
    TypeLength,
    /// The payload is longer than `u32::MAX` bytes.
    DataLength,
    /// The third letter of the chunk type name is not uppercase.
    ThirdCase,
    /// The stored checksum differs from the computed one.
    Checksum,
    /// The input ended before the record did.
    Decoding,
}

pub open spec fn is_upper(b: u8) -> bool {
    65 <= b <= 90
}

pub open spec fn is_lower(b: u8) -> bool {
    97 <= b <= 122
}

pub open spec fn all_ascii(b: Seq<u8>) -> bool {
    forall|i: int| 0 <= i < b.len() ==> b[i] < 128
}

/// The outcome of validating the bytes of a chunk type name.
pub open spec fn name_check(b: Seq<u8>) -> Result<(), Error> {
    if !all_ascii(b) {
        Err(Error::TypeAscii)
    } else if b.len() != 4 {
        Err(Error::TypeLength)
    } else if !is_upper(b[2]) {
        Err(Error::ThirdCase)
    } else {
        Ok(())
    }
}

/// The bytes of an ASCII text, one per character.
pub open spec fn ascii_bytes(s: Seq<char>) -> Seq<u8> {
    Seq::new(s.len(), |i: int| s[i] as u8)
}

/// The outcome of validating a chunk type name given as text.
pub open spec fn text_check(s: Seq<char>) -> Result<(), Error> {
    if !is_ascii_chars(s) {
        Err(Error::TypeAscii)
    } else {
        name_check(ascii_bytes(s))
    }
}

/// Chunk type/name: four ASCII letters whose case carries the chunk's properties.
///
/// The first letter is lowercase if the chunk is non-critical, the second lowercase if the
/// chunk specification is not public, the third always uppercase, and the fourth lowercase if
/// the chunk is safe to copy even when critical chunks have been modified.
///
/// For a custom private ancillary chunk, use a name of the form `llU{l/U}`, where l (resp. U)
/// denotes a lowercase (resp. uppercase) letter.
#[derive(Debug, PartialEq, Eq, Clone, Copy)]
pub struct ChunkType([u8; 4]);

impl View for ChunkType {
    type V = Seq<u8>;

    closed spec fn view(&self) -> Seq<u8> {
        self.0@
    }
}

impl ChunkType {
    #[verifier::type_invariant]
    spec fn valid(self) -> bool {
        name_check(self.0@) is Ok
    }

    /// The name bytes pass the checks of `from_ascii`.
    pub open spec fn wf(&self) -> bool {
        name_check(self@) is Ok
    }

    pub fn is_critical(&self) -> (r: bool)
        ensures
            r == is_upper(self@[0]),
    {
        let b = self.0[0];
        65 <= b && b <= 90
    }

    pub fn is_public(&self) -> (r: bool)
        ensures
            r == is_upper(self@[1]),
    {
        let b = self.0[1];
        65 <= b && b <= 90
    }

    pub fn is_safe_to_copy(&self) -> (r: bool)
        ensures
            r == is_lower(self@[3]),
    {
        let b = self.0[3];
        97 <= b && b <= 122
    }

    /// The four name bytes, as given.
    pub fn to_ascii(&self) -> (r: [u8; 4])
        ensures
            r@ == self@,
            self.wf(),
    {
        proof {
            use_type_invariant(self);
        }
        self.0
    }

    /// Byte-exact comparison of two names.
    pub fn same_name(&self, other: &ChunkType) -> (r: bool)
        ensures
            r == (self@ == other@),
    {
        let r = self.0[0] == other.0[0] && self.0[1] == other.0[1] && self.0[2] == other.0[2]
            && self.0[3] == other.0[3];
        proof {
            if r {
                assert(self@ =~= other@);
            }
        }
        r
    }

    /// Validates a name given as bytes.
    pub fn from_bytes(name: &[u8]) -> (r: Result<Self, Error>)
        ensures
            match r {
                Ok(t) => name_check(name@) is Ok && t@ == name@,
                Err(e) => name_check(name@) == Err::<(), Error>(e),
            },
    {
        let mut i: usize = 0;
        while i < name.len()
            invariant
                0 <= i <= name@.len(),
                forall|j: int| 0 <= j < i ==> name@[j] < 128,
            decreases name@.len() - i,
        {
            if name[i] >= 128 {
                return Err(Error::TypeAscii);
            }
            i = i + 1;
        }
        if name.len() != 4 {
            return Err(Error::TypeLength);
        }
        if !(65 <= name[2] && name[2] <= 90) {
            return Err(Error::ThirdCase);
        }
        let t = ChunkType([name[0], name[1], name[2], name[3]]);
        assert(t@ =~= name@);
        Ok(t)
    }

    /// Validates a name given as text.
    pub fn from_ascii(name: &str) -> (r: Result<Self, Error>)
        ensures
            match r {
                Ok(t) => text_check(name@) is Ok && t@ == ascii_bytes(name@),
                Err(e) => text_check(name@) == Err::<(), Error>(e),
            },
    {
        broadcast use vstd::string::is_ascii_spec_bytes;

        if !name.is_ascii() {
            return Err(Error::TypeAscii);
        }
        let bytes = name.as_bytes();
        assert(bytes@ =~= ascii_bytes(name@));
        ChunkType::from_bytes(bytes)
    }
}

/// The big-endian value of four bytes.
pub open spec fn be32(b0: u8, b1: u8, b2: u8, b3: u8) -> u32 {
    ((b0 as u32) << 24u32) | ((b1 as u32) << 16u32) | ((b2 as u32) << 8u32) | (b3 as u32)
}

/// The big-endian value of the four bytes of `s` from `p` on.
pub open spec fn u32_at(s: Seq<u8>, p: int) -> u32 {
    be32(s[p], s[p + 1], s[p + 2], s[p + 3])
}

/// The four big-endian bytes of `x`.
pub open spec fn be_bytes(x: u32) -> Seq<u8> {
    seq![(x >> 24u32) as u8, (x >> 16u32) as u8, (x >> 8u32) as u8, x as u8]
}

/// The CRC-32 (the zlib / ISO-3309 polynomial) of a byte sequence.
pub uninterp spec fn crc32_of(b: Seq<u8>) -> u32;

/// Relies on `crc32fast::hash`: the CRC-32 of the bytes, which depends on them alone.
#[verifier::external_body]
fn crc32(bytes: &[u8]) -> (r: u32)
    ensures
        r == crc32_of(bytes@),
{
    crc32fast::hash(bytes)
}

/// The payload length stored in the record at `p`.
pub open spec fn length_at(s: Seq<u8>, p: int) -> int {
    u32_at(s, p) as int
}

/// The type name bytes of the record at `p`.
pub open spec fn type_at(s: Seq<u8>, p: int) -> Seq<u8> {
    s.subrange(p + 4, p + 8)
}

/// The payload of the record at `p`.
pub open spec fn data_at(s: Seq<u8>, p: int) -> Seq<u8> {
    s.subrange(p + 8, p + 8 + length_at(s, p))
}

/// Where the record at `p` ends.
pub open spec fn record_end(s: Seq<u8>, p: int) -> int {
    p + 12 + length_at(s, p)
}

/// The outcome of parsing the record that starts at `p`: a short input, a bad name or a
/// checksum that does not match, checked in the order in which the record is read.
pub open spec fn record_check(s: Seq<u8>, p: int) -> Result<(), Error> {
    if s.len() - p < 8 {
        Err(Error::Decoding)
    } else if name_check(type_at(s, p)) is Err {
        name_check(type_at(s, p))
    } else if s.len() - p - 8 < length_at(s, p) + 4 {
        Err(Error::Decoding)
    } else if u32_at(s, p + 8 + length_at(s, p)) != crc32_of(
        s.subrange(p + 4, p + 8 + length_at(s, p)),
    ) {
        Err(Error::Checksum)
    } else {
        Ok(())
    }
}

/// The on-disk form of a record: length, type name, payload and checksum.
pub open spec fn record_bytes(t: Seq<u8>, d: Seq<u8>) -> Seq<u8> {
    be_bytes(d.len() as u32) + t + d + be_bytes(crc32_of(t + d))
}

pub(crate) fn read_u32(s: &[u8], p: usize) -> (r: u32)
    requires
        p + 4 <= s@.len(),
    ensures
        r == u32_at(s@, p as int),
{
    ((s[p] as u32) << 24u32) | ((s[p + 1] as u32) << 16u32) | ((s[p + 2] as u32) << 8u32) | (
    s[p + 3] as u32)
}

fn push_u32(out: &mut Vec<u8>, x: u32)
    ensures
        final(out)@ == old(out)@ + be_bytes(x),
{
    out.push((x >> 24u32) as u8);
    out.push((x >> 16u32) as u8);
    out.push((x >> 8u32) as u8);
    out.push(x as u8);
    assert(final(out)@ =~= old(out)@ + be_bytes(x));
}

/// A byte source with a read position.
pub struct ByteReader {
    pub bytes: Vec<u8>,
    pub pos: usize,
}

impl ByteReader {
    pub fn new(bytes: Vec<u8>) -> (r: Self)
        ensures
            r.bytes@ == bytes@,
            r.pos == 0,
    {
        ByteReader { bytes, pos: 0 }
    }
}

/// PNG chunk: a type name and a payload whose length fits in 32 bits.
#[derive(Debug, PartialEq, Eq, Clone)]
pub struct Chunk {
    pub chunk_type: ChunkType,
    pub data: Vec<u8>,
}

impl Chunk {
    /// The payload's length fits in the record's 32-bit length field.
    pub open spec fn wf(&self) -> bool {
        self.data@.len() <= u32::MAX
    }

    /// The payload length, as stored in the record.
    pub fn length(&self) -> (r: u32)
        requires
            self.wf(),
        ensures
            r as int == self.data@.len(),
    {
        self.data.len() as u32
    }

    /// Create a new custom chunk with the attached data, whose length must not exceed u32::MAX.
    pub fn new(chunk_type: ChunkType, data: Vec<u8>) -> (r: Result<Self, Error>)
        ensures
            data@.len() <= u32::MAX <==> r is Ok,
            r matches Ok(c) ==> c.chunk_type == chunk_type && c.data@ == data@ && c.wf(),
            r matches Err(e) ==> e == Error::DataLength,
    {
        if data.len() as u64 > 0xffff_ffffu64 {
            return Err(Error::DataLength);
        }
        Ok(Chunk { chunk_type, data })
    }

    /// Parses one record at the reader's position and moves past it.
    pub fn from_reader(reader: &mut ByteReader) -> (r: Result<Self, Error>)
        ensures
            final(reader).bytes@ == old(reader).bytes@,
            match r {
                Ok(c) => {
                    &&& record_check(old(reader).bytes@, old(reader).pos as int) is Ok
                    &&& c.wf()
                    &&& c.chunk_type@ == type_at(old(reader).bytes@, old(reader).pos as int)
                    &&& c.data@ == data_at(old(reader).bytes@, old(reader).pos as int)
                    &&& final(reader).pos == record_end(old(reader).bytes@, old(reader).pos as int)
                },
                Err(e) => record_check(old(reader).bytes@, old(reader).pos as int) == Err::<
                    (),
                    Error,
                >(e),
            },
    {
        let p = reader.pos;
        let n = reader.bytes.len();
        if p > n || n - p < 8 {
            return Err(Error::Decoding);
        }
        let length = read_u32(reader.bytes.as_slice(), p);
        let name = vstd::slice::slice_subrange(reader.bytes.as_slice(), p + 4, p + 8);
        let chunk_type = match ChunkType::from_bytes(name) {
            Ok(t) => t,
            Err(e) => return Err(e),
        };
        if ((n - p - 8) as u64) < (length as u64) + 4 {
            return Err(Error::Decoding);
        }
        let end = p + 8 + length as usize;
        let crc = read_u32(reader.bytes.as_slice(), end);
        let covered = vstd::slice::slice_subrange(reader.bytes.as_slice(), p + 4, end);
        if crc != crc32(covered) {
            return Err(Error::Checksum);
        }
        let data = vstd::slice::slice_to_vec(
            vstd::slice::slice_subrange(reader.bytes.as_slice(), p + 8, end),
        );
        reader.pos = end + 4;
        Ok(Chunk { chunk_type, data })
    }

    /// Appends the record's on-disk form to `out`.
    pub fn write_to(&self, out: &mut Vec<u8>)
        requires
            self.wf(),
            old(out)@.len() + self.data@.len() + 12 <= usize::MAX,
        ensures
            final(out)@ == old(out)@ + record_bytes(self.chunk_type@, self.data@),
    {
        let length = self.length();
        push_u32(out, length);
        let start = out.len();
        let name = self.chunk_type.to_ascii();
        let mut i: usize = 0;
        while i < 4
            invariant
                0 <= i <= 4,
                name@ == self.chunk_type@,
                out@ == old(out)@ + be_bytes(length) + name@.subrange(0, i as int),
            decreases 4 - i,
        {
            out.push(name[i]);
            i = i + 1;
            assert(out@ =~= old(out)@ + be_bytes(length) + name@.subrange(0, i as int));
        }
        let mut j: usize = 0;
        while j < self.data.len()
            invariant
                0 <= j <= self.data@.len(),
                out@ == old(out)@ + be_bytes(length) + name@ + self.data@.subrange(0, j as int),
                old(out)@.len() + self.data@.len() + 12 <= usize::MAX,
            decreases self.data@.len() - j,
        {
            out.push(self.data[j]);
            j = j + 1;
            assert(out@ =~= old(out)@ + be_bytes(length) + name@ + self.data@.subrange(
                0,
                j as int,
            ));
        }
        let covered = vstd::slice::slice_subrange(out.as_slice(), start, out.len());
        assert(covered@ =~= self.chunk_type@ + self.data@);
        let crc = crc32(covered);
        push_u32(out, crc);
        assert(length == self.data@.len() as u32);
        assert(final(out)@ =~= old(out)@ + record_bytes(self.chunk_type@, self.data@));
    }
}

/// Every four-character ASCII name whose third character is an uppercase letter is accepted,
/// and the name bytes it gives are the characters' codes, so the name reads back as given.
pub proof fn lemma_name_round_trip(s: Seq<char>)
    requires
        is_ascii_chars(s),
        s.len() == 4,
        'A' <= s[2] <= 'Z',
    ensures
        text_check(s) == Ok::<(), Error>(()),
        forall|i: int| 0 <= i < 4 ==> ascii_bytes(s)[i] as int == s[i] as int,
{
    assert forall|i: int| 0 <= i < 4 implies ascii_bytes(s)[i] as int == s[i] as int by {
        assert('\0' <= s[i] <= '\u{7f}');
    }
    assert(all_ascii(ascii_bytes(s)));
}

proof fn lemma_be32_of_be_bytes(x: u32)
    ensures
        be32((x >> 24u32) as u8, (x >> 16u32) as u8, (x >> 8u32) as u8, x as u8) == x,
{
    assert(((((x >> 24u32) as u8) as u32) << 24u32) | ((((x >> 16u32) as u8) as u32) << 16u32)
        | ((((x >> 8u32) as u8) as u32) << 8u32) | (((x as u8) as u32)) == x) by (bit_vector);
}

proof fn lemma_be32_injective(a0: u8, a1: u8, a2: u8, a3: u8, b0: u8, b1: u8, b2: u8, b3: u8)
    requires
        be32(a0, a1, a2, a3) == be32(b0, b1, b2, b3),
    ensures
        a0 == b0 && a1 == b1 && a2 == b2 && a3 == b3,
{
    assert(((a0 as u32) << 24u32) | ((a1 as u32) << 16u32) | ((a2 as u32) << 8u32) | (a3 as u32)
        == ((b0 as u32) << 24u32) | ((b1 as u32) << 16u32) | ((b2 as u32) << 8u32) | (b3 as u32)
        ==> a0 == b0 && a1 == b1 && a2 == b2 && a3 == b3) by (bit_vector);
}

/// A record written out by itself, inside any stream, parses back to the same name and
/// payload, and ends where its bytes end.
pub proof fn lemma_record_round_trip(pre: Seq<u8>, t: Seq<u8>, d: Seq<u8>, post: Seq<u8>)
    requires
        name_check(t) is Ok,
        d.len() <= u32::MAX,
    ensures
        ({
            let s = pre + record_bytes(t, d) + post;
            let p = pre.len() as int;
            &&& record_check(s, p) is Ok
            &&& type_at(s, p) == t
            &&& data_at(s, p) == d
            &&& record_end(s, p) == p + record_bytes(t, d).len()
        }),
{
    let r = record_bytes(t, d);
    let s = pre + r + post;
    let p = pre.len() as int;
    let l = d.len() as u32;
    let c = crc32_of(t + d);
    assert(r.len() == 12 + d.len());
    assert(s.subrange(p, p + r.len()) =~= r);
    assert(r.subrange(0, 4) =~= be_bytes(l));
    assert(s[p] == r[0] && s[p + 1] == r[1] && s[p + 2] == r[2] && s[p + 3] == r[3]);
    lemma_be32_of_be_bytes(l);
    assert(u32_at(s, p) == l);
    assert(type_at(s, p) =~= t);
    assert(data_at(s, p) =~= d);
    assert(s.subrange(p + 4, p + 8 + d.len()) =~= t + d);
    let n = d.len() as int;
    let q = p + 8 + n;
    assert(r.subrange(8 + n, 12 + n) =~= be_bytes(c));
    assert(s[q] == r[8 + n] && s[q + 1] == r[9 + n] && s[q + 2] == r[10 + n] && s[q + 3] == r[11
        + n]);
    lemma_be32_of_be_bytes(c);
    assert(u32_at(s, q) == c);
}

proof fn lemma_stored_checksum_differs(s: Seq<u8>, f: Seq<u8>, q: int)
    requires
        record_check(s, 0) is Ok,
        q == 8 + length_at(s, 0),
        s.len() == f.len(),
        s.len() == q + 4,
        forall|i: int| 0 <= i < q ==> f[i] == s[i],
        u32_at(f, q) != u32_at(s, q),
    ensures
        record_check(f, 0) == Err::<(), Error>(Error::Checksum),
{
    assert(u32_at(f, 0) == u32_at(s, 0));
    assert(type_at(f, 0) =~= type_at(s, 0));
    assert(f.subrange(4, q) =~= s.subrange(4, q));
}

proof fn lemma_flip_changes(v: u8, b: u8)
    requires
        b < 8,
    ensures
        (v ^ (1u8 << b)) != v,
{
    assert((v ^ (1u8 << b)) != v) by (bit_vector)
        requires
            b < 8,
    ;
}

proof fn lemma_record_alone(t: Seq<u8>, d: Seq<u8>)
    requires
        name_check(t) is Ok,
        d.len() <= u32::MAX,
    ensures
        record_check(record_bytes(t, d), 0) is Ok,
        length_at(record_bytes(t, d), 0) == d.len(),
        record_bytes(t, d).len() == d.len() + 12,
{
    lemma_record_round_trip(seq![], t, d, seq![]);
    assert(seq![] + record_bytes(t, d) + seq![] =~= record_bytes(t, d));
}

proof fn lemma_checksum_byte_change(t: Seq<u8>, d: Seq<u8>, k: int, w: u8)
    requires
        name_check(t) is Ok,
        d.len() <= u32::MAX,
        d.len() + 8 <= k < d.len() + 12,
        w != record_bytes(t, d)[k],
    ensures
        record_check(record_bytes(t, d).update(k, w), 0) == Err::<(), Error>(Error::Checksum),
{
    let s = record_bytes(t, d);
    let f = s.update(k, w);
    lemma_record_alone(t, d);
    let q = 8 + d.len() as int;
    assert(forall|i: int| 0 <= i < q ==> f[i] == s[i]);
    if u32_at(f, q) == u32_at(s, q) {
        lemma_be32_injective(f[q], f[q + 1], f[q + 2], f[q + 3], s[q], s[q + 1], s[q + 2], s[q + 3]);
        assert(f[k] == s[k]);
    }
    lemma_stored_checksum_differs(s, f, q);
}

/// Flipping one bit of a record's stored checksum makes it fail with `Error::Checksum`.
pub proof fn lemma_checksum_bit_flip(t: Seq<u8>, d: Seq<u8>, k: int, b: u8)
    requires
        name_check(t) is Ok,
        d.len() <= u32::MAX,
        record_bytes(t, d).len() - 4 <= k < record_bytes(t, d).len(),
        b < 8,
    ensures
        ({
            let s = record_bytes(t, d);
            record_check(s.update(k, s[k] ^ (1u8 << b)), 0) == Err::<(), Error>(Error::Checksum)
        }),
{
    let s = record_bytes(t, d);
    assert(s.len() == d.len() + 12);
    lemma_flip_changes(s[k], b);
    lemma_checksum_byte_change(t, d, k, s[k] ^ (1u8 << b));
}

} // verus!
