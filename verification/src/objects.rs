//! Reading the objects that make up the content-addressable database:
//! the store path of an object, zlib decompression of a loose object, and
//! the `<type> SP <decimal-size> NUL` header decoder.

use vstd::prelude::*;

use crate::text::{
    all_digit_bytes, dec_value_bytes, find_byte, find_byte_from, is_full_hex,
    parse_u64_byte_range,
};

verus! {

/// An object name: the 40-character lower-hex SHA-1 of the object being
/// referenced.  Constructed either by resolving a revision or by reading
/// a reference.
#[derive(Debug, PartialEq, Eq, Clone)]
pub struct Name(pub String);

impl Name {
    /// Well-formed: exactly 40 lower-case hexadecimal characters.
    pub open spec fn valid(&self) -> bool {
        is_full_hex(self.0@)
    }
}

#[derive(Debug, PartialEq, Eq, Structural, Clone, Copy)]
pub enum Type {
    Blob,
    Tree,
    Commit,
}

#[derive(Debug, PartialEq, Eq, Structural, Clone, Copy)]
pub struct Header {
    pub object_type: Type,
    pub content_length: u64,
}

#[derive(Debug)]
pub enum Error {
    IOError(String),
    InvalidFile(String),
}

impl Error {
    /// A human-readable description of the failure.
    pub fn message(&self) -> (r: String)
        ensures
            r@ == match self {
                Error::IOError(d) => d@,
                Error::InvalidFile(d) => d@,
            },
    {
        match self {
            Error::IOError(d) => d.clone(),
            Error::InvalidFile(d) => d.clone(),
        }
    }
}

/// The path of a loose object below the repository root:
/// `.git/objects/<first-2-hex>/<last-38-hex>`.
pub open spec fn object_path_spec(n: Seq<char>) -> Seq<char> {
    ".git/objects/"@ + n.take(2) + "/"@ + n.skip(2)
}

/// Map an object name to the path of its loose object, relative to the
/// repository root.  No filesystem check happens at this layer.
pub fn object_path(name: &Name) -> (r: String)
    requires
        name.valid(),
    ensures
        r@ == object_path_spec(name.0@),
{
    let s = name.0.as_str();
    let dir = s.substring_char(0, 2);
    let file = s.substring_char(2, 40);
    let mut p = String::from_str(".git/objects/");
    p.append(dir);
    p.append("/");
    p.append(file);
    p
}

/// What zlib decompression yields for a compressed stream, or nothing
/// when the stream is not well-formed zlib data.  The result is a
/// function of the bytes alone.
pub uninterp spec fn inflate_of(data: Seq<u8>) -> Option<Seq<u8>>;

/// Relies on flate2's `ZlibDecoder`: decompression succeeds or fails
/// depending only on the input bytes.
#[verifier::external_body]
fn inflate(data: &Vec<u8>) -> (r: Option<Vec<u8>>)
    ensures
        match r {
            Some(v) => inflate_of(data@) == Some(v@),
            None => inflate_of(data@) is None,
        },
{
    let mut decoder = flate2::read::ZlibDecoder::new(data.as_slice());
    let mut out = Vec::new();
    match std::io::Read::read_to_end(&mut decoder, &mut out) {
        Ok(_) => Some(out),
        Err(_) => None,
    }
}

/// The bytes that spell each object type name in a header.
pub open spec fn blob_type_bytes() -> Seq<u8> {
    seq![0x62u8, 0x6cu8, 0x6fu8, 0x62u8]
}

pub open spec fn tree_type_bytes() -> Seq<u8> {
    seq![0x74u8, 0x72u8, 0x65u8, 0x65u8]
}

pub open spec fn commit_type_bytes() -> Seq<u8> {
    seq![0x63u8, 0x6fu8, 0x6du8, 0x6du8, 0x69u8, 0x74u8]
}

/// The object type spelled by `s`, if any.
pub open spec fn type_of_bytes(s: Seq<u8>) -> Option<Type> {
    if s == blob_type_bytes() {
        Some(Type::Blob)
    } else if s == tree_type_bytes() {
        Some(Type::Tree)
    } else if s == commit_type_bytes() {
        Some(Type::Commit)
    } else {
        None
    }
}

/// The header at the front of a decompressed object: ASCII type name up
/// to (but not including) a space, then an ASCII unsigned decimal size up
/// to (but not including) a NUL.  Yields the header and the offset of the
/// first payload byte.
pub open spec fn parse_header_spec(bytes: Seq<u8>) -> Option<(Header, int)> {
    let sp = find_byte(bytes, 0x20);
    if sp < 0 {
        None
    } else {
        match type_of_bytes(bytes.take(sp)) {
            None => None,
            Some(t) => {
                let rest = bytes.skip(sp + 1);
                let nul = find_byte(rest, 0x00);
                if nul < 0 {
                    None
                } else {
                    let szb = rest.take(nul);
                    if szb.len() > 0 && all_digit_bytes(szb) && dec_value_bytes(szb) <= u64::MAX
                        as int {
                        Some(
                            (
                                Header {
                                    object_type: t,
                                    content_length: dec_value_bytes(szb) as u64,
                                },
                                sp + 1 + nul + 1,
                            ),
                        )
                    } else {
                        None
                    }
                }
            },
        }
    }
}

/// Decode the header of a decompressed object; on success also return the
/// offset of the first payload byte.
pub fn parse_header(data: &Vec<u8>) -> (r: Result<(Header, usize), Error>)
    ensures
        match r {
            Ok(p) => parse_header_spec(data@) == Some((p.0, p.1 as int)) && p.1 <= data@.len(),
            Err(e) => parse_header_spec(data@) is None && e is InvalidFile,
        },
{
    proof {
        assert(data@.skip(0) =~= data@);
    }
    let sp = match find_byte_from(data, 0, 0x20) {
        Some(k) => k,
        None => {
            return Err(Error::InvalidFile(String::from_str("no space after object type")));
        },
    };
    let object_type: Type;
    if sp == 4 && data[0] == 0x62 && data[1] == 0x6c && data[2] == 0x6f && data[3] == 0x62 {
        proof {
            assert(data@.take(4) =~= blob_type_bytes());
        }
        object_type = Type::Blob;
    } else if sp == 4 && data[0] == 0x74 && data[1] == 0x72 && data[2] == 0x65 && data[3]
        == 0x65 {
        proof {
            assert(data@.take(4) =~= tree_type_bytes());
            assert(data@.take(4) != blob_type_bytes());
        }
        object_type = Type::Tree;
    } else if sp == 6 && data[0] == 0x63 && data[1] == 0x6f && data[2] == 0x6d && data[3] == 0x6d
        && data[4] == 0x69 && data[5] == 0x74 {
        proof {
            assert(data@.take(6) =~= commit_type_bytes());
            assert(data@.take(6) != blob_type_bytes());
            assert(data@.take(6) != tree_type_bytes());
        }
        object_type = Type::Commit;
    } else {
        proof {
            let t = data@.take(sp as int);
            assert(t.len() == sp);
            if t == blob_type_bytes() {
                assert(t[0] == 0x62 && t[1] == 0x6c && t[2] == 0x6f && t[3] == 0x62);
            }
            if t == tree_type_bytes() {
                assert(t[0] == 0x74 && t[1] == 0x72 && t[2] == 0x65 && t[3] == 0x65);
            }
            if t == commit_type_bytes() {
                assert(t[0] == 0x63 && t[1] == 0x6f && t[2] == 0x6d && t[3] == 0x6d && t[4]
                    == 0x69 && t[5] == 0x74);
            }
        }
        return Err(Error::InvalidFile(String::from_str("invalid type")));
    }
    let nul = match find_byte_from(data, sp + 1, 0x00) {
        Some(k) => k,
        None => {
            return Err(Error::InvalidFile(String::from_str("no delimiter after object size")));
        },
    };
    proof {
        let rest = data@.skip(sp + 1);
        assert(rest.take(nul - (sp + 1)) =~= data@.subrange(sp + 1, nul as int));
    }
    let dlen = data.len();
    proof {
        assert(nul < dlen);
    }
    let size = match parse_u64_byte_range(data, sp + 1, nul) {
        Some(v) => v,
        None => {
            return Err(Error::InvalidFile(String::from_str("invalid size")));
        },
    };
    Ok((Header { object_type, content_length: size }, nul + 1))
}

/// The decompressed payload of a loose object: everything after the
/// header delimiter.
pub open spec fn payload_of(data: Seq<u8>) -> Option<Seq<u8>> {
    match inflate_of(data) {
        None => None,
        Some(raw) => match parse_header_spec(raw) {
            None => None,
            Some(p) => Some(raw.skip(p.1)),
        },
    }
}

/// The header of a compressed loose object, provided the declared size
/// agrees with the payload the stream actually produces.
pub open spec fn header_of(data: Seq<u8>) -> Option<Header> {
    match inflate_of(data) {
        None => None,
        Some(raw) => match parse_header_spec(raw) {
            None => None,
            Some(p) => if p.0.content_length as int == raw.len() - p.1 {
                Some(p.0)
            } else {
                None
            },
        },
    }
}

/// Decompress a loose object and decode its header.  On success the
/// declared content length equals the number of payload bytes the
/// decompressed stream produces after the header delimiter.
pub fn read_header(data: &Vec<u8>) -> (r: Result<Header, Error>)
    ensures
        match r {
            Ok(h) => header_of(data@) == Some(h) && (payload_of(data@) matches Some(p)
                && h.content_length == p.len()),
            Err(e) => header_of(data@) is None && e is InvalidFile,
        },
{
    let raw = match inflate(data) {
        Some(v) => v,
        None => {
            return Err(Error::InvalidFile(String::from_str("unable to decompress object")));
        },
    };
    let (header, off) = match parse_header(&raw) {
        Ok(p) => p,
        Err(e) => {
            return Err(e);
        },
    };
    if header.content_length != (raw.len() - off) as u64 {
        return Err(Error::InvalidFile(String::from_str("object size does not match header")));
    }
    Ok(header)
}

/// A typed object.  Blob and tree payloads are not parsed in this core:
/// the variants exist as header-only tags, and reading one of them as an
/// object is an error.
#[derive(Debug)]
pub enum Object {
    Blob,
    Tree,
    Commit(crate::commits::Commit),
}

/// The commit a compressed loose object holds: its header must declare a
/// commit whose length agrees with the stream, and the payload must
/// decode as a commit record.
pub open spec fn commit_of(data: Seq<u8>) -> Option<crate::commits::CommitV> {
    match header_of(data) {
        None => None,
        Some(h) => if h.object_type != Type::Commit {
            None
        } else {
            match payload_of(data) {
                None => None,
                Some(p) => match crate::commits::parse_commit_spec(
                    p,
                    crate::commits::empty_builder(),
                ) {
                    crate::commits::CommitParse::Parsed(cv) => Some(cv),
                    _ => None,
                },
            }
        },
    }
}

/// Decompress a loose object, decode its header and, for a commit,
/// decode the typed record under the given name.  Any other object type,
/// and any decode failure, is an invalid-file error.
pub fn read_object(name: &Name, data: &Vec<u8>) -> (r: Result<Object, Error>)
    ensures
        match r {
            Ok(o) => (commit_of(data@) matches Some(cv) && (o matches Object::Commit(c)
                && c.matches(name.0@, cv) && c.name.0@ == name.0@ && crate::text::is_full_hex(
                c.tree.0@,
            ) && (c.parent matches Some(p) ==> crate::text::is_full_hex(p.0@))
                && c.author.date.valid() && c.committer.date.valid())),
            Err(e) => commit_of(data@) is None && e is InvalidFile,
        },
{
    let raw = match inflate(data) {
        Some(v) => v,
        None => {
            return Err(Error::InvalidFile(String::from_str("unable to decompress object")));
        },
    };
    let (header, off) = match parse_header(&raw) {
        Ok(p) => p,
        Err(e) => {
            return Err(e);
        },
    };
    if header.content_length != (raw.len() - off) as u64 {
        return Err(Error::InvalidFile(String::from_str("object size does not match header")));
    }
    match header.object_type {
        Type::Commit => {
            let payload = crate::text::subvec(&raw, off, raw.len());
            proof {
                assert(payload@ =~= raw@.skip(off as int));
            }
            match crate::commits::parse_commit(&payload, name) {
                Ok(c) => Ok(Object::Commit(c)),
                Err(e) => Err(Error::InvalidFile(e.message())),
            }
        },
        _ => Err(Error::InvalidFile(String::from_str("unhandled object type"))),
    }
}

/// The tree and parent names of a decoded commit are full 40-hex
/// identifiers.
pub proof fn lemma_commit_of_fields_hex(data: Seq<u8>)
    ensures
        commit_of(data) matches Some(cv) ==> crate::text::is_full_hex(cv.tree) && (
        cv.parent matches Some(p) ==> crate::text::is_full_hex(p)),
{
    match payload_of(data) {
        Some(p) => {
            crate::commits::lemma_parse_fields_hex(p, crate::commits::empty_builder());
        },
        None => {},
    }
}

} // verus!
