//! Reading an archive: the header parser and the extractor, over a source
//! of bytes that is consumed from the front.

use crate::classify::{classify, depicts_root};
use crate::extract::{extract, plan_tree, Extraction};
use crate::json::{decode_object, decoded_object};
use crate::layout::{
    assembled, blob_of, find_blob, find_header, has_header, has_padding, header_bytes,
    lemma_assembled_splits,
};
use crate::text::utf8_text;
use crate::tree::MetadataTree;
use vstd::prelude::*;
use vstd::slice::slice_subrange;
use vstd::utf8::{
    decode_utf8, encode_utf8, encode_utf8_decode_utf8, encode_utf8_valid_utf8, valid_utf8,
};

verus! {

/// Why the header of an archive could not be read.
#[derive(Debug)]
pub enum HeaderError {
    /// The source ends before the header does.
    Io,
    /// The header text is not valid UTF-8.
    Decode,
    /// The header text is not a JSON object.
    Format(serde_json::Error),
}

/// Whether `r` is what reading the header of the archive `input` gives.
///
/// The checks are made in the order in which the archive is read: the text
/// is decoded before the filler behind it is asked for.
pub open spec fn reads_header(input: Seq<u8>, r: Result<MetadataTree, HeaderError>) -> bool {
    if !has_header(input) {
        r matches Err(HeaderError::Io)
    } else if !valid_utf8(header_bytes(input)) {
        r matches Err(HeaderError::Decode)
    } else {
        match decoded_object(decode_utf8(header_bytes(input))) {
            None => r matches Err(HeaderError::Format(_)),
            Some(o) => if !has_padding(input) {
                r matches Err(HeaderError::Io)
            } else {
                r matches Ok(tree) && depicts_root(tree@, o)
            },
        }
    }
}

/// An archive that is put together from a header text and a data blob is
/// read back: reading its header gives the tree that the JSON decoder makes
/// of the text, or the decoder's refusal, and leaves the data blob.
pub proof fn lemma_assembled_is_read_back(
    framing: Seq<u8>,
    text: Seq<char>,
    filler: Seq<u8>,
    blob: Seq<u8>,
    r: Result<MetadataTree, HeaderError>,
)
    requires
        framing.len() == 12,
        encode_utf8(text).len() <= u32::MAX,
        filler.len() == 3,
        reads_header(assembled(framing, encode_utf8(text), filler, blob), r),
    ensures
        match decoded_object(text) {
            Some(o) => r is Ok && depicts_root(r->Ok_0@, o),
            None => r matches Err(HeaderError::Format(_)),
        },
        blob_of(assembled(framing, encode_utf8(text), filler, blob)) == blob,
{
    lemma_assembled_splits(framing, encode_utf8(text), filler, blob);
    encode_utf8_valid_utf8(text);
    encode_utf8_decode_utf8(text);
}

/// Reads the header of an archive. Returns the metadata tree and the index
/// at which the data blob starts.
pub fn read_header(input: &[u8]) -> (r: Result<(MetadataTree, usize), HeaderError>)
    ensures
        reads_header(
            input@,
            match r {
                Ok(read) => Ok(read.0),
                Err(e) => Err(e),
            },
        ),
        !has_header(input@) ==> r matches Err(HeaderError::Io),
        r matches Ok(read) ==> read.1 <= input@.len() && input@.skip(read.1 as int) == blob_of(
            input@,
        ),
{
    let span = match find_header(input) {
        None => { return Err(HeaderError::Io); },
        Some(span) => span,
    };
    let text = match utf8_text(slice_subrange(input, span.start, span.end)) {
        None => { return Err(HeaderError::Decode); },
        Some(text) => text,
    };
    let object = match decode_object(text) {
        Err(e) => { return Err(HeaderError::Format(e)); },
        Ok(object) => object,
    };
    let start = match find_blob(input) {
        None => { return Err(HeaderError::Io); },
        Some(start) => start,
    };
    Ok((classify(&object), start))
}

/// A source of bytes held in memory. Reading consumes it from the front.
pub struct ArchiveSource {
    bytes: Vec<u8>,
    pos: usize,
}

impl ArchiveSource {
    #[verifier::type_invariant]
    spec fn within(self) -> bool {
        self.pos <= self.bytes@.len()
    }

    /// A source that yields `bytes`.
    pub fn new(bytes: Vec<u8>) -> (source: ArchiveSource)
        ensures
            source.unread() == bytes@,
    {
        ArchiveSource { bytes, pos: 0 }
    }

    /// The bytes that have not been read yet.
    pub fn remaining(&self) -> (rest: &[u8])
        ensures
            rest@ == self.unread(),
    {
        proof {
            use_type_invariant(self);
        }
        slice_subrange(self.bytes.as_slice(), self.pos, self.bytes.len())
    }
}

/// Dealing with packed archives.
pub trait Asar {
    /// The bytes that have not been read yet.
    spec fn unread(&self) -> Seq<u8>;

    /// Reads the header of the archive and leaves the source at the start
    /// of the data blob. Where the header cannot be read, nothing is
    /// consumed. A source that ends before the header does, whatever length
    /// the header announces, gives [`HeaderError::Io`].
    fn get_headers(&mut self) -> (r: Result<MetadataTree, HeaderError>)
        ensures
            reads_header(old(self).unread(), r),
            !has_header(old(self).unread()) ==> r matches Err(HeaderError::Io),
            r is Ok ==> final(self).unread() == blob_of(old(self).unread()),
            r is Err ==> final(self).unread() == old(self).unread(),
    ;

    /// Plans the extraction of `headers` to the directory `base_path`. The
    /// data blob is `data` or, where `data` is absent, all that is left of
    /// the source, which is thereby consumed.
    fn unpack_files(&mut self, headers: &MetadataTree, base_path: &str, data: Option<&[u8]>) -> (r:
        Extraction)
        ensures
            r@ == plan_tree(
                headers@,
                base_path@,
                match data {
                    Some(blob) => blob@,
                    None => old(self).unread(),
                },
            ),
            final(self).unread() == match data {
                Some(_) => old(self).unread(),
                None => Seq::<u8>::empty(),
            },
    ;
}

impl Asar for ArchiveSource {
    closed spec fn unread(&self) -> Seq<u8> {
        self.bytes@.skip(self.pos as int)
    }

    fn get_headers(&mut self) -> (r: Result<MetadataTree, HeaderError>) {
        proof {
            use_type_invariant(&*self);
        }
        let input = slice_subrange(self.bytes.as_slice(), self.pos, self.bytes.len());
        match read_header(input) {
            Ok(read) => {
                self.pos = self.pos + read.1;
                Ok(read.0)
            },
            Err(e) => Err(e),
        }
    }

    fn unpack_files(&mut self, headers: &MetadataTree, base_path: &str, data: Option<&[u8]>) -> (r:
        Extraction) {
        proof {
            use_type_invariant(&*self);
        }
        match data {
            Some(blob) => extract(headers, base_path, blob),
            None => {
                let start = self.pos;
                self.pos = self.bytes.len();
                extract(
                    headers,
                    base_path,
                    slice_subrange(self.bytes.as_slice(), start, self.bytes.len()),
                )
            },
        }
    }
}

} // verus!
