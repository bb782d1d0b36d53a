//! The archive codec: the record layout, the encoder from a file's name,
//! content bytes and modification time to its record, and the decoder from a
//! byte buffer back to the ordered list of archived files.
//!
//! A record is laid out as a 100-byte name field (the name's UTF-8 bytes,
//! right-padded with null bytes), an 8-byte lowercase hex size field, an
//! 8-byte lowercase hex modification-timestamp field, and then exactly
//! `size` bytes of UTF-8 content. Records are concatenated with no delimiter.
use vstd::prelude::*;
use vstd::slice::slice_index_get;
use vstd::slice::slice_subrange;
use vstd::utf8::decode_utf8;
use vstd::utf8::encode_utf8;
use vstd::utf8::encode_utf8_decode_utf8;
use vstd::utf8::encode_utf8_valid_utf8;
use vstd::utf8::valid_utf8;
use vstd::utf8::valid_utf8_concat;

use crate::hex::hex8;
use crate::hex::lemma_hex8_ascii;
use crate::hex::lemma_hex8_round_trip;
use crate::hex::parse_hex8;
use crate::hex::parse_hex_field;
use crate::hex::push_hex8;
use crate::text::lemma_ascii_valid_utf8;
use crate::text::lemma_encode_utf8_concat;
use crate::text::lemma_strip_zeros_all_zero;
use crate::text::lemma_strip_zeros_concat;
use crate::text::lemma_strip_zeros_id;
use crate::text::lemma_strip_zeros_valid_utf8;
use crate::text::strip_zeros;

verus! {

/// Everything that can go wrong while encoding a file or decoding a buffer.
#[derive(Debug, Clone, Copy, PartialEq, Eq, Structural)]
pub enum ArchiveError {
    /// Content bytes (of a file to encode, or of a record being decoded) are
    /// not valid UTF-8.
    ContentsNotUtf8,
    /// A name to encode is longer than the 100-byte name field.
    NameTooLong,
    /// A name to encode contains a null byte, which the padding could not be
    /// told apart from.
    NameContainsNull,
    /// Content to encode is longer than the 32-bit size field can state.
    ContentsTooLarge,
    /// A decoded name field is not valid UTF-8.
    NameNotUtf8,
    /// A decoded size field is not eight hex digits.
    SizeNotHex,
    /// A decoded timestamp field is not eight hex digits.
    TimestampNotHex,
    /// The buffer ends before the record it declares does.
    Truncated,
}

impl ArchiveError {
    /// A human-readable description of the error.
    pub fn message(&self) -> &'static str {
        match self {
            ArchiveError::ContentsNotUtf8 => "file contents are not valid UTF-8 text",
            ArchiveError::NameTooLong => "file name cannot be longer than 100 bytes",
            ArchiveError::NameContainsNull => "file name cannot contain a null byte",
            ArchiveError::ContentsTooLarge => "file contents do not fit a 32-bit size",
            ArchiveError::NameNotUtf8 => "archived name field is not valid UTF-8",
            ArchiveError::SizeNotHex => "archived size field is not valid hexadecimal",
            ArchiveError::TimestampNotHex => "archived timestamp field is not valid hexadecimal",
            ArchiveError::Truncated => "archive ends before the record it declares does",
        }
    }
}

/// The mathematical model of one archived file: its logical (unpadded) name,
/// declared size, modification timestamp, and text content.
#[verifier::ext_equal]
pub struct FileView {
    pub name: Seq<char>,
    pub size: u32,
    pub modification_timestamp: u32,
    pub contents: Seq<char>,
}

impl FileView {
    /// A file that the record layout can hold: the name's UTF-8 form fits the
    /// name field and contains no null byte (so padding can be stripped back
    /// off), and the size field states exactly the content's byte length.
    pub open spec fn wf(self) -> bool {
        &&& encode_utf8(self.name).len() <= 100
        &&& forall|i: int|
            0 <= i < encode_utf8(self.name).len() ==> #[trigger] encode_utf8(self.name)[i] != 0
        &&& encode_utf8(self.contents).len() == self.size
    }
}

/// One archived file, decoded from an archive or pending encoding into one.
#[derive(Debug, Clone)]
pub struct ArchivedFile {
    /// The logical file name, without padding.
    pub name: String,
    /// The byte length of `contents`.
    pub size: u32,
    /// Seconds since the Unix epoch, truncated to 32 bits.
    pub modification_timestamp: u32,
    /// The file's text content.
    pub contents: String,
}

impl View for ArchivedFile {
    type V = FileView;

    open spec fn view(&self) -> FileView {
        FileView {
            name: self.name@,
            size: self.size,
            modification_timestamp: self.modification_timestamp,
            contents: self.contents@,
        }
    }
}

/// The padded 100-byte name field of a record: the name's UTF-8 bytes,
/// right-padded with null bytes.
pub open spec fn name_field(name: Seq<char>) -> Seq<u8>
    recommends
        encode_utf8(name).len() <= 100,
{
    encode_utf8(name) + Seq::new((100 - encode_utf8(name).len()) as nat, |i: int| 0u8)
}

/// The encoded byte form of one archived file, per the record layout.
pub open spec fn record_bytes(f: FileView) -> Seq<u8>
    recommends
        f.wf(),
{
    name_field(f.name) + hex8(f.size) + hex8(f.modification_timestamp) + encode_utf8(f.contents)
}

/// The serialized archive: the records of the files in order, concatenated
/// with no delimiter.
pub open spec fn archive_bytes(files: Seq<FileView>) -> Seq<u8>
    decreases files.len(),
{
    if files.len() == 0 {
        seq![]
    } else {
        record_bytes(files[0]) + archive_bytes(files.drop_first())
    }
}

/// Law: serializing one more file appends exactly that file's record.
pub proof fn lemma_archive_bytes_snoc(files: Seq<FileView>, f: FileView)
    ensures
        archive_bytes(files.push(f)) == archive_bytes(files) + record_bytes(f),
    decreases files.len(),
{
    if files.len() == 0 {
        assert(files.push(f).drop_first() =~= Seq::<FileView>::empty());
        assert(archive_bytes(files.push(f)) =~= record_bytes(f) + archive_bytes(
            Seq::<FileView>::empty(),
        ));
        assert(record_bytes(f) + Seq::<u8>::empty() =~= record_bytes(f));
        assert(Seq::<u8>::empty() + record_bytes(f) =~= record_bytes(f));
    } else {
        assert(files.push(f).drop_first() =~= files.drop_first().push(f));
        assert(files.push(f)[0] == files[0]);
        lemma_archive_bytes_snoc(files.drop_first(), f);
        assert(record_bytes(files[0]) + (archive_bytes(files.drop_first()) + record_bytes(f)) =~= (
        record_bytes(files[0]) + archive_bytes(files.drop_first())) + record_bytes(f));
    }
}

/// Relies on core::str::from_utf8: it returns `Ok` exactly when the bytes are
/// valid UTF-8, and the string slice it returns then holds those very bytes.
#[verifier::external_body]
fn bytes_to_string(v: &[u8]) -> (r: Option<String>)
    ensures
        r is Some <==> valid_utf8(v@),
        r is Some ==> encode_utf8(r.unwrap()@) == v@,
{
    match core::str::from_utf8(v) {
        Ok(s) => Some(s.to_owned()),
        Err(_) => None,
    }
}

impl ArchivedFile {
    /// Encodes this archived file into its record: the padded name field, the
    /// two hex header fields, and the raw content.
    pub fn write(&self) -> (r: String)
        requires
            self@.wf(),
        ensures
            encode_utf8(r@) == record_bytes(self@),
    {
        let mut buf: Vec<u8> = self.name.as_str().as_bytes_vec();
        proof {
            assert(buf@ == encode_utf8(self.name@));
        }
        while buf.len() < 100
            invariant
                encode_utf8(self.name@).len() <= buf@.len() <= 100,
                buf@ == encode_utf8(self.name@) + Seq::new(
                    (buf@.len() - encode_utf8(self.name@).len()) as nat,
                    |i: int| 0u8,
                ),
            decreases 100 - buf.len(),
        {
            buf.push(0);
            proof {
                assert(buf@ =~= encode_utf8(self.name@) + Seq::new(
                    (buf@.len() - encode_utf8(self.name@).len()) as nat,
                    |i: int| 0u8,
                ));
            }
        }
        proof {
            assert(buf@ =~= name_field(self.name@));
        }
        push_hex8(&mut buf, self.size);
        push_hex8(&mut buf, self.modification_timestamp);
        let mut cb: Vec<u8> = self.contents.as_str().as_bytes_vec();
        buf.append(&mut cb);
        proof {
            assert(buf@ =~= record_bytes(self@));
            lemma_record_bytes_valid_utf8(self@);
        }
        match bytes_to_string(buf.as_slice()) {
            Some(s) => s,
            None => vstd::pervasive::unreached(),
        }
    }

    /// Encodes one file from its plain inputs: the name, the raw content
    /// bytes, and the modification time in seconds since the Unix epoch
    /// (truncated to 32 bits; times past 2106 wrap). Rejects content that is
    /// not valid UTF-8, a name over 100 bytes or holding a null byte, and
    /// content longer than the size field can state.
    pub fn new(name: String, contents: Vec<u8>, modification_timestamp: u64) -> (r: Result<
        ArchivedFile,
        ArchiveError,
    >)
        ensures
            match r {
                Ok(f) => encode_file(name@, contents@, modification_timestamp)
                    == Ok::<FileView, ArchiveError>(f@) && f@.wf(),
                Err(e) => encode_file(name@, contents@, modification_timestamp)
                    == Err::<FileView, ArchiveError>(e),
            },
    {
        let text = match bytes_to_string(contents.as_slice()) {
            Some(t) => t,
            None => {
                return Err(ArchiveError::ContentsNotUtf8);
            },
        };
        let nb: &[u8] = name.as_str().as_bytes();
        if nb.len() > 100 {
            return Err(ArchiveError::NameTooLong);
        }
        let mut j: usize = 0;
        while j < nb.len()
            invariant
                j <= nb@.len(),
                nb@ == encode_utf8(name@),
                nb@.len() <= 100,
                valid_utf8(contents@),
                forall|i: int| 0 <= i < j ==> nb@[i] != 0,
            decreases nb@.len() - j,
        {
            if *slice_index_get(nb, j) == 0 {
                proof {
                    assert(encode_utf8(name@)[j as int] == 0);
                }
                return Err(ArchiveError::NameContainsNull);
            }
            j += 1;
        }
        if contents.len() > (u32::MAX as usize) {
            return Err(ArchiveError::ContentsTooLarge);
        }
        let size: u32 = contents.len() as u32;
        proof {
            encode_utf8_decode_utf8(text@);
        }
        let f = ArchivedFile {
            name,
            size,
            modification_timestamp: #[verifier::truncate] (modification_timestamp as u32),
            contents: text,
        };
        Ok(f)
    }

    /// Decodes every record in `data`, appending the files to `archive` in
    /// stream order and consuming the buffer. On success the buffer is left
    /// empty; on any error nothing is appended and the buffer is unchanged —
    /// decoding is all-or-nothing.
    pub fn from_archive(data: &mut Vec<u8>, archive: &mut Vec<ArchivedFile>) -> (r: Result<
        (),
        ArchiveError,
    >)
        ensures
            match r {
                Ok(_) => {
                    &&& final(archive)@.len() >= old(archive)@.len()
                    &&& final(archive)@.take(old(archive)@.len() as int) == old(archive)@
                    &&& decode_archive(old(data)@) == Ok::<Seq<FileView>, ArchiveError>(
                        final(archive)@.skip(old(archive)@.len() as int).map_values(
                            |f: ArchivedFile| f@,
                        ),
                    )
                    &&& final(data)@ == Seq::<u8>::empty()
                },
                Err(e) => {
                    &&& decode_archive(old(data)@) == Err::<Seq<FileView>, ArchiveError>(e)
                    &&& final(archive)@ == old(archive)@
                    &&& final(data)@ == old(data)@
                },
            },
    {
        let mut decoded: Vec<ArchivedFile> = Vec::new();
        let mut off: usize = 0;
        let n = data.len();
        proof {
            assert(data@.subrange(0, n as int) =~= data@);
            let m0 = decoded@.map_values(|f: ArchivedFile| f@);
            assert(m0 =~= Seq::<FileView>::empty());
            if decode_archive(data@) is Ok {
                assert(m0 + decode_archive(data@)->Ok_0 =~= decode_archive(data@)->Ok_0);
            }
        }
        while off < n
            invariant
                off <= n,
                n == data@.len(),
                data@ == old(data)@,
                archive@ == old(archive)@,
                ({
                    match decode_archive(data@.subrange(off as int, n as int)) {
                        Ok(rest) => decode_archive(data@) == Ok::<Seq<FileView>, ArchiveError>(
                            decoded@.map_values(|f: ArchivedFile| f@) + rest,
                        ),
                        Err(e) => decode_archive(data@) == Err::<Seq<FileView>, ArchiveError>(e),
                    }
                }),
            decreases n - off,
        {
            let ghost cur = data@.subrange(off as int, n as int);
            match decode_record(data, off) {
                Ok((f, used)) => {
                    proof {
                        assert(cur.len() > 0);
                        assert(cur.subrange(used as int, cur.len() as int) =~= data@.subrange(
                            off as int + used as int,
                            n as int,
                        ));
                        let m = decoded@.map_values(|g: ArchivedFile| g@);
                        assert(decoded@.push(f).map_values(|g: ArchivedFile| g@) =~= m.push(f@));
                        let next = decode_archive(data@.subrange(off as int + used as int, n as int));
                        if next is Ok {
                            assert(decode_archive(cur) == Ok::<Seq<FileView>, ArchiveError>(
                                seq![f@] + next->Ok_0,
                            ));
                            assert(m + (seq![f@] + next->Ok_0) =~= m.push(f@) + next->Ok_0);
                        }
                    }
                    decoded.push(f);
                    off = off + used;
                },
                Err(e) => {
                    proof {
                        assert(cur.len() > 0);
                        assert(decode_archive(cur) == Err::<Seq<FileView>, ArchiveError>(e));
                    }
                    return Err(e);
                },
            }
        }
        proof {
            assert(data@.subrange(n as int, n as int) =~= Seq::<u8>::empty());
            let m = decoded@.map_values(|f: ArchivedFile| f@);
            assert(m + Seq::<FileView>::empty() =~= m);
        }
        data.clear();
        let ghost decoded_before = decoded@;
        archive.append(&mut decoded);
        proof {
            assert(archive@.skip(old(archive)@.len() as int) =~= decoded_before);
            assert(archive@.take(old(archive)@.len() as int) =~= old(archive)@);
        }
        Ok(())
    }
}

/// Law: the encoded form of a well-formed file is itself valid UTF-8 (so a
/// whole archive can be handled as text).
pub proof fn lemma_record_bytes_valid_utf8(f: FileView)
    requires
        f.wf(),
    ensures
        valid_utf8(record_bytes(f)),
{
    let nb = encode_utf8(f.name);
    let pad = Seq::new((100 - nb.len()) as nat, |i: int| 0u8);
    encode_utf8_valid_utf8(f.name);
    lemma_ascii_valid_utf8(pad);
    valid_utf8_concat(nb, pad);
    lemma_hex8_ascii(f.size);
    lemma_ascii_valid_utf8(hex8(f.size));
    valid_utf8_concat(nb + pad, hex8(f.size));
    lemma_hex8_ascii(f.modification_timestamp);
    lemma_ascii_valid_utf8(hex8(f.modification_timestamp));
    valid_utf8_concat((nb + pad) + hex8(f.size), hex8(f.modification_timestamp));
    encode_utf8_valid_utf8(f.contents);
    valid_utf8_concat(
        ((nb + pad) + hex8(f.size)) + hex8(f.modification_timestamp),
        encode_utf8(f.contents),
    );
}

/// What encoding a file from its plain inputs yields: the encoder's checks,
/// in order, and the archived file's model on success.
pub open spec fn encode_file(
    name: Seq<char>,
    contents: Seq<u8>,
    modification_timestamp: u64,
) -> Result<FileView, ArchiveError> {
    if !valid_utf8(contents) {
        Err(ArchiveError::ContentsNotUtf8)
    } else if encode_utf8(name).len() > 100 {
        Err(ArchiveError::NameTooLong)
    } else if exists|i: int| 0 <= i < encode_utf8(name).len() && #[trigger] encode_utf8(name)[i]
        == 0 {
        Err(ArchiveError::NameContainsNull)
    } else if contents.len() > u32::MAX {
        Err(ArchiveError::ContentsTooLarge)
    } else {
        Ok(
            FileView {
                name: name,
                size: contents.len() as u32,
                modification_timestamp: modification_timestamp as u32,
                contents: decode_utf8(contents),
            },
        )
    }
}

/// What decoding the first record of a non-empty buffer yields: the record's
/// model and the count of bytes it occupied, or the first error found, with
/// the checks in the decoder's order.
pub open spec fn decode_first(bytes: Seq<u8>) -> Result<(FileView, int), ArchiveError>
    recommends
        bytes.len() > 0,
{
    if bytes.len() < 116 {
        Err(ArchiveError::Truncated)
    } else {
        let field = bytes.subrange(0, 100);
        if !valid_utf8(field) {
            Err(ArchiveError::NameNotUtf8)
        } else {
            match parse_hex8(bytes.subrange(100, 108)) {
                Option::None => Err(ArchiveError::SizeNotHex),
                Option::Some(size) => match parse_hex8(bytes.subrange(108, 116)) {
                    Option::None => Err(ArchiveError::TimestampNotHex),
                    Option::Some(ts) => if bytes.len() < 116 + size {
                        Err(ArchiveError::Truncated)
                    } else {
                        let cb = bytes.subrange(116, 116 + size as int);
                        if !valid_utf8(cb) {
                            Err(ArchiveError::ContentsNotUtf8)
                        } else {
                            Ok(
                                (
                                    FileView {
                                        name: decode_utf8(strip_zeros(field)),
                                        size: size,
                                        modification_timestamp: ts,
                                        contents: decode_utf8(cb),
                                    },
                                    116 + size as int,
                                ),
                            )
                        }
                    },
                },
            }
        }
    }
}

/// What decoding a whole buffer yields: the files of its records in stream
/// order, or the first error. The empty buffer is the empty archive.
pub open spec fn decode_archive(bytes: Seq<u8>) -> Result<Seq<FileView>, ArchiveError>
    decreases bytes.len(),
{
    if bytes.len() == 0 {
        Ok(seq![])
    } else {
        match decode_first(bytes) {
            Err(e) => Err(e),
            Ok((f, n)) => match decode_archive(bytes.subrange(n, bytes.len() as int)) {
                Err(e) => Err(e),
                Ok(rest) => Ok(seq![f] + rest),
            },
        }
    }
}

/// Decodes the record that starts at `off` in `data`, returning the file and
/// the count of bytes the record occupied.
fn decode_record(data: &Vec<u8>, off: usize) -> (r: Result<(ArchivedFile, usize), ArchiveError>)
    requires
        off < data@.len(),
    ensures
        ({
            let rest = data@.subrange(off as int, data@.len() as int);
            match r {
                Ok((f, n)) => decode_first(rest) == Ok::<(FileView, int), ArchiveError>(
                    (f@, n as int),
                ) && off + n <= data@.len() && 116 <= n,
                Err(e) => decode_first(rest) == Err::<(FileView, int), ArchiveError>(e),
            }
        }),
{
    let ghost rest = data@.subrange(off as int, data@.len() as int);
    let n = data.len();
    if n - off < 116 {
        return Err(ArchiveError::Truncated);
    }
    let field: &[u8] = slice_subrange(data.as_slice(), off, off + 100);
    proof {
        assert(field@ =~= rest.subrange(0, 100));
    }
    match bytes_to_string(field) {
        Some(_) => (),
        None => {
            return Err(ArchiveError::NameNotUtf8);
        },
    };
    let mut stripped: Vec<u8> = Vec::new();
    let mut j: usize = 0;
    while j < 100
        invariant
            j <= 100,
            field@.len() == 100,
            stripped@ == strip_zeros(field@.take(j as int)),
        decreases 100 - j,
    {
        let b = *slice_index_get(field, j);
        proof {
            assert(field@.take(j as int + 1) =~= field@.take(j as int) + seq![field@[j as int]]);
            lemma_strip_zeros_concat(field@.take(j as int), seq![field@[j as int]]);
            assert(seq![field@[j as int]].drop_first() =~= Seq::<u8>::empty());
            assert(strip_zeros(Seq::<u8>::empty()) =~= Seq::<u8>::empty());
            if b != 0 {
                assert(strip_zeros(seq![field@[j as int]]) =~= seq![field@[j as int]]);
            } else {
                assert(strip_zeros(seq![field@[j as int]]) =~= Seq::<u8>::empty());
            }
            assert(stripped@ + strip_zeros(seq![field@[j as int]]) =~= strip_zeros(
                field@.take(j as int + 1),
            ));
        }
        if b != 0 {
            stripped.push(b);
        }
        j += 1;
    }
    proof {
        assert(field@.take(100) =~= field@);
        lemma_strip_zeros_valid_utf8(field@);
    }
    let name = match bytes_to_string(stripped.as_slice()) {
        Some(s) => s,
        None => vstd::pervasive::unreached(),
    };
    proof {
        encode_utf8_decode_utf8(name@);
    }
    let size = match parse_hex_field(data, off + 100) {
        Some(v) => v,
        None => {
            proof {
                assert(rest.subrange(100, 108) =~= data@.subrange(
                    off as int + 100,
                    off as int + 108,
                ));
            }
            return Err(ArchiveError::SizeNotHex);
        },
    };
    proof {
        assert(rest.subrange(100, 108) =~= data@.subrange(off as int + 100, off as int + 108));
    }
    let ts = match parse_hex_field(data, off + 108) {
        Some(v) => v,
        None => {
            proof {
                assert(rest.subrange(108, 116) =~= data@.subrange(
                    off as int + 108,
                    off as int + 116,
                ));
            }
            return Err(ArchiveError::TimestampNotHex);
        },
    };
    proof {
        assert(rest.subrange(108, 116) =~= data@.subrange(off as int + 108, off as int + 116));
    }
    let avail: usize = n - off - 116;
    if (size as usize) > avail {
        return Err(ArchiveError::Truncated);
    }
    let cb: &[u8] = slice_subrange(data.as_slice(), off + 116, off + 116 + (size as usize));
    proof {
        assert(cb@ =~= rest.subrange(116, 116 + size as int));
    }
    let contents = match bytes_to_string(cb) {
        Some(s) => s,
        None => {
            return Err(ArchiveError::ContentsNotUtf8);
        },
    };
    proof {
        encode_utf8_decode_utf8(contents@);
    }
    let f = ArchivedFile { name, size, modification_timestamp: ts, contents };
    Ok((f, 116 + (size as usize)))
}

/// Serializes a list of already-encoded archived files into one archive,
/// first file first, with no separators.
pub fn write_archive(files: Vec<ArchivedFile>) -> (r: String)
    requires
        forall|i: int| 0 <= i < files@.len() ==> (#[trigger] files@[i])@.wf(),
    ensures
        encode_utf8(r@) == archive_bytes(files@.map_values(|f: ArchivedFile| f@)),
{
    let ghost views = files@.map_values(|f: ArchivedFile| f@);
    let mut out = String::new();
    let mut k: usize = 0;
    while k < files.len()
        invariant
            k <= files@.len(),
            forall|i: int| 0 <= i < files@.len() ==> (#[trigger] files@[i])@.wf(),
            views == files@.map_values(|f: ArchivedFile| f@),
            encode_utf8(out@) == archive_bytes(views.take(k as int)),
        decreases files@.len() - k,
    {
        let rec = files[k].write();
        proof {
            lemma_encode_utf8_concat(out@, rec@);
            lemma_archive_bytes_snoc(views.take(k as int), views[k as int]);
            assert(views.take(k as int).push(views[k as int]) =~= views.take(k as int + 1));
        }
        out.append(rec.as_str());
        k += 1;
    }
    proof {
        assert(views.take(views.len() as int) =~= views);
    }
    out
}

/// Law: one well-formed encoded record, followed by anything, decodes to that
/// very file, consuming exactly the record's bytes.
pub proof fn lemma_decode_first_record(f: FileView, tail: Seq<u8>)
    requires
        f.wf(),
    ensures
        decode_first(record_bytes(f) + tail) == Ok::<(FileView, int), ArchiveError>(
            (f, 116 + f.size as int),
        ),
{
    let nb = encode_utf8(f.name);
    let pad = Seq::new((100 - nb.len()) as nat, |i: int| 0u8);
    let h1 = hex8(f.size);
    let h2 = hex8(f.modification_timestamp);
    let cb = encode_utf8(f.contents);
    let bytes = record_bytes(f) + tail;
    assert(bytes.len() == 116 + f.size + tail.len());
    let field = bytes.subrange(0, 100);
    assert(field =~= nb + pad);
    encode_utf8_valid_utf8(f.name);
    lemma_ascii_valid_utf8(pad);
    valid_utf8_concat(nb, pad);
    lemma_strip_zeros_concat(nb, pad);
    lemma_strip_zeros_id(nb);
    lemma_strip_zeros_all_zero(pad);
    assert(strip_zeros(field) =~= nb);
    encode_utf8_decode_utf8(f.name);
    assert(bytes.subrange(100, 108) =~= h1);
    assert(bytes.subrange(108, 116) =~= h2);
    lemma_hex8_round_trip(f.size);
    lemma_hex8_round_trip(f.modification_timestamp);
    assert(bytes.subrange(116, 116 + f.size as int) =~= cb);
    encode_utf8_valid_utf8(f.contents);
    encode_utf8_decode_utf8(f.contents);
}

/// Law (round trip): decoding the serialized form of any well-formed list of
/// files yields exactly those files — same names, sizes, timestamps and
/// contents — in the same order.
#[verifier::rlimit(100)]
pub proof fn lemma_archive_round_trip(files: Seq<FileView>)
    requires
        forall|i: int| 0 <= i < files.len() ==> (#[trigger] files[i]).wf(),
    ensures
        decode_archive(archive_bytes(files)) == Ok::<Seq<FileView>, ArchiveError>(files),
    decreases files.len(),
{
    if files.len() == 0 {
        assert(archive_bytes(files) =~= Seq::<u8>::empty());
        assert(files =~= Seq::<FileView>::empty());
        assert(decode_archive(archive_bytes(files)) == Ok::<Seq<FileView>, ArchiveError>(
            seq![],
        ));
        assert(seq![] =~= files);
    } else {
        let f = files[0];
        let rest = files.drop_first();
        let rb_tail = archive_bytes(rest);
        let bytes = archive_bytes(files);
        assert(bytes == record_bytes(f) + rb_tail);
        lemma_decode_first_record(f, rb_tail);
        assert(decode_first(bytes) == Ok::<(FileView, int), ArchiveError>(
            (f, 116 + f.size as int),
        ));
        assert(record_bytes(f).len() == 116 + f.size);
        assert(bytes.len() >= 116 + f.size);
        assert(bytes.subrange(116 + f.size as int, bytes.len() as int) =~= rb_tail);
        lemma_archive_round_trip(rest);
        assert(decode_archive(bytes.subrange(116 + f.size as int, bytes.len() as int))
            == Ok::<Seq<FileView>, ArchiveError>(rest));
        assert(seq![f] + rest =~= files);
        assert(decode_archive(bytes) == Ok::<Seq<FileView>, ArchiveError>(seq![f] + rest)) by {
            reveal_with_fuel(decode_archive, 2);
        }
    }
}

/// Law (size consistency): the size field of a well-formed encoded record
/// reads back as exactly the content's byte length, and exactly that many
/// content bytes follow the 116-byte header.
pub proof fn lemma_size_consistency(f: FileView)
    requires
        f.wf(),
    ensures
        parse_hex8(record_bytes(f).subrange(100, 108)) == Some(f.size),
        record_bytes(f).len() == 116 + f.size,
        record_bytes(f).subrange(116, record_bytes(f).len() as int) == encode_utf8(f.contents),
{
    assert(record_bytes(f).subrange(100, 108) =~= hex8(f.size));
    lemma_hex8_round_trip(f.size);
    assert(record_bytes(f).subrange(116, record_bytes(f).len() as int) =~= encode_utf8(
        f.contents,
    ));
}

/// Law (truncated buffer): a buffer that ends before the record it declares
/// does — too short for a header, or with fewer content bytes than its size
/// field states — decodes to a truncation error, never to a short record.
pub proof fn lemma_truncated_decode(bytes: Seq<u8>)
    requires
        bytes.len() > 0,
        bytes.len() >= 116 ==> valid_utf8(bytes.subrange(0, 100)) && parse_hex8(
            bytes.subrange(100, 108),
        ) is Some && parse_hex8(bytes.subrange(108, 116)) is Some && bytes.len() < 116 + parse_hex8(
            bytes.subrange(100, 108),
        ).unwrap(),
    ensures
        decode_archive(bytes) == Err::<Seq<FileView>, ArchiveError>(ArchiveError::Truncated),
{
}

/// Law (multi-record stream): the concatenation of two well-formed encoded
/// records decodes to a two-element sequence in the original order, each
/// element matching its source exactly.
pub proof fn lemma_two_record_stream(a: FileView, b: FileView)
    requires
        a.wf(),
        b.wf(),
    ensures
        decode_archive(record_bytes(a) + record_bytes(b)) == Ok::<Seq<FileView>, ArchiveError>(
            seq![a, b],
        ),
{
    lemma_archive_round_trip(seq![a, b]);
    assert(seq![a, b].drop_first() =~= seq![b]);
    assert(seq![a, b][0] == a);
    assert(seq![b].drop_first() =~= Seq::<FileView>::empty());
    assert(seq![b][0] == b);
    assert(archive_bytes(Seq::<FileView>::empty()) =~= Seq::<u8>::empty());
    assert(archive_bytes(seq![b]) == record_bytes(b) + archive_bytes(Seq::<FileView>::empty()));
    assert(record_bytes(b) + Seq::<u8>::empty() =~= record_bytes(b));
    assert(archive_bytes(seq![a, b]) == record_bytes(a) + archive_bytes(seq![b]));
}

} // verus!
