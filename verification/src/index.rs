//! Reading the index file, which lists the files tracked by the
//! database: a `DIRC` magic, a version, a declared entry count, and the
//! versioned binary entry layout with its alignment padding.  Extensions
//! and the trailing checksum are deliberately ignored.

use vstd::prelude::*;

use crate::text::{all_hex, bytes_to_string, find_byte, find_byte_from, hex_of, hex_string, subvec};
use vstd::utf8::{valid_utf8, decode_utf8};

verus! {

#[derive(Debug, PartialEq, Eq)]
pub enum Error {
    InvalidIndex(String),
    InvalidEntry(String),
}

impl Error {
    /// A human-readable description of the failure.
    pub fn message(&self) -> (r: String)
        ensures
            r@ == match self {
                Error::InvalidIndex(d) => d@,
                Error::InvalidEntry(d) => d@,
            },
    {
        match self {
            Error::InvalidIndex(d) => d.clone(),
            Error::InvalidEntry(d) => d.clone(),
        }
    }
}

/// One tracked file: the 40-hex content name and the path recorded in
/// the file.
#[derive(Debug, PartialEq, Eq, Clone)]
pub struct Entry {
    pub sha1: String,
    pub path: String,
}

/// The decoded index: its version and its entries, in file order.
#[derive(Debug, PartialEq, Eq, Clone)]
pub struct Index {
    pub version: u32,
    pub entries: Vec<Entry>,
}

/// One entry, in model form.
pub struct EntryV {
    pub sha1: Seq<char>,
    pub path: Seq<char>,
}

/// The big-endian 32-bit number at `at`.
pub open spec fn be32(b: Seq<u8>, at: int) -> int {
    b[at] * 0x1000000 + b[at + 1] * 0x10000 + b[at + 2] * 0x100 + b[at + 3]
}

/// One on-disk entry at `start`: 40 metadata bytes (read and
/// discarded), 20 SHA-1 bytes, 2 flag bytes, 2 more from version 3 on,
/// the path up to and including its NUL, and, below version 4, NUL
/// padding to a multiple of 8 bytes from the entry's start.  Yields the
/// entry and the offset just past it.
pub open spec fn entry_spec(version: int, bytes: Seq<u8>, start: int) -> Option<(EntryV, int)> {
    let fixed: int = if version >= 3 {
        64
    } else {
        62
    };
    if start + fixed > bytes.len() {
        None
    } else {
        let rest = bytes.skip(start + fixed);
        let nul = find_byte(rest, 0x00);
        if nul < 0 {
            None
        } else {
            let path_b = rest.take(nul);
            let consumed = fixed + nul + 1;
            let padding: int = if version >= 4 {
                0
            } else {
                (8 - (consumed % 8)) % 8
            };
            if start + consumed + padding > bytes.len() {
                None
            } else if !valid_utf8(path_b) {
                None
            } else {
                Some(
                    (
                        EntryV {
                            sha1: hex_of(bytes.subrange(start + 40, start + 60)),
                            path: decode_utf8(path_b),
                        },
                        start + consumed + padding,
                    ),
                )
            }
        }
    }
}

/// `n` consecutive entries starting at `start`.
pub open spec fn entries_spec(version: int, bytes: Seq<u8>, start: int, n: int) -> Option<
    Seq<EntryV>,
>
    decreases n,
{
    if n <= 0 {
        Some(Seq::<EntryV>::empty())
    } else {
        match entry_spec(version, bytes, start) {
            None => None,
            Some(p) => match entries_spec(version, bytes, p.1, n - 1) {
                None => None,
                Some(rest) => Some(seq![p.0] + rest),
            },
        }
    }
}

/// Exactly as many entries come out as were asked for.
pub proof fn lemma_entries_spec_len(version: int, bytes: Seq<u8>, start: int, n: int)
    ensures
        entries_spec(version, bytes, start, n) matches Some(es) ==> es.len() == if n <= 0 {
            0
        } else {
            n
        },
    decreases n,
{
    if n > 0 {
        match entry_spec(version, bytes, start) {
            Some(p) => {
                lemma_entries_spec_len(version, bytes, p.1, n - 1);
            },
            None => {},
        }
    }
}

/// For layouts below version 4, each entry ends on a multiple of eight
/// bytes from its own start.
pub proof fn lemma_entry_alignment(version: int, bytes: Seq<u8>, start: int)
    requires
        2 <= version < 4,
    ensures
        entry_spec(version, bytes, start) matches Some(p) ==> (p.1 - start) % 8 == 0,
{
}

/// How an index file decodes: its version and entries, or a failure at
/// the header or in an entry.
pub enum IndexParse {
    Parsed(int, Seq<EntryV>),
    BadIndex,
    BadEntry,
}

/// Decode the whole file: the magic `DIRC`, a version in {2, 3, 4}, the
/// declared entry count, then that many entries.  Whatever follows the
/// entries (extensions, the checksum trailer) is ignored.
pub open spec fn index_spec(bytes: Seq<u8>) -> IndexParse {
    if bytes.len() < 12 {
        IndexParse::BadIndex
    } else if !(bytes[0] == 0x44 && bytes[1] == 0x49 && bytes[2] == 0x52 && bytes[3] == 0x43) {
        IndexParse::BadIndex
    } else {
        let version = be32(bytes, 4);
        if !(version == 2 || version == 3 || version == 4) {
            IndexParse::BadIndex
        } else {
            match entries_spec(version, bytes, 12, be32(bytes, 8)) {
                None => IndexParse::BadEntry,
                Some(es) => IndexParse::Parsed(version, es),
            }
        }
    }
}

/// The model of a decoded entry list.
pub open spec fn entries_view(es: Seq<Entry>) -> Seq<EntryV> {
    Seq::new(es.len(), |i: int| EntryV { sha1: es[i].sha1@, path: es[i].path@ })
}

impl Entry {
    /// Decode one entry at `pos`, returning it with the offset just
    /// past its padding.
    fn read(version: u32, data: &Vec<u8>, pos: usize) -> (r: Result<(Entry, usize), Error>)
        requires
            pos <= data@.len(),
            2 <= version <= 4,
        ensures
            match r {
                Ok(p) => entry_spec(version as int, data@, pos as int) == Some(
                    (EntryV { sha1: p.0.sha1@, path: p.0.path@ }, p.1 as int),
                ) && pos < p.1 <= data@.len() && p.0.sha1@.len() == 40 && all_hex(p.0.sha1@),
                Err(e) => entry_spec(version as int, data@, pos as int) is None && e
                    is InvalidEntry,
            },
    {
        let fixed: usize = if version >= 3 {
            64
        } else {
            62
        };
        let dlen = data.len();
        if dlen - pos < fixed {
            return Err(Error::InvalidEntry(String::from_str("unable to read entry: prefix")));
        }
        let sha1 = hex_string(data, pos + 40, pos + 60);
        proof {
            crate::text::lemma_hex_of_hex(data@.subrange(pos + 40, pos + 60));
        }
        let nul = match find_byte_from(data, pos + fixed, 0x00) {
            Some(k) => k,
            None => {
                return Err(
                    Error::InvalidEntry(String::from_str("unable to read entry: path name")),
                );
            },
        };
        // Bytes consumed so far, relative to the entry's start.
        let consumed = nul + 1 - pos;
        let padding: usize = if version >= 4 {
            0
        } else {
            (8 - (consumed % 8)) % 8
        };
        if dlen - (nul + 1) < padding {
            return Err(
                Error::InvalidEntry(String::from_str("unable to read entry: path name padding")),
            );
        }
        let path_bytes = subvec(data, pos + fixed, nul);
        proof {
            assert(path_bytes@ =~= data@.skip(pos + fixed).take(nul - (pos + fixed)));
        }
        let path = match bytes_to_string(path_bytes) {
            Some(p) => p,
            None => {
                return Err(
                    Error::InvalidEntry(
                        String::from_str("unable to read entry: path name from UTF8"),
                    ),
                );
            },
        };
        Ok((Entry { sha1, path }, nul + 1 + padding))
    }
}

impl Index {
    /// Decode an index file.  On success the number of entries equals
    /// the count the header declares, and every entry's content name is
    /// exactly 40 lower-case hexadecimal characters.
    pub fn read(data: &Vec<u8>) -> (r: Result<Index, Error>)
        ensures
            match r {
                Ok(ix) => (index_spec(data@) matches IndexParse::Parsed(v, es) && ix.version as int
                    == v && entries_view(ix.entries@) == es) && ix.entries@.len() == be32(data@, 8)
                    && (forall|i: int|
                    0 <= i < ix.entries@.len() ==> (#[trigger] ix.entries@[i]).sha1@.len() == 40
                        && all_hex(ix.entries@[i].sha1@)),
                Err(e) => match e {
                    Error::InvalidIndex(_) => index_spec(data@) is BadIndex,
                    Error::InvalidEntry(_) => index_spec(data@) is BadEntry,
                },
            },
    {
        let dlen = data.len();
        if dlen < 12 {
            return Err(Error::InvalidIndex(String::from_str("unable to read header")));
        }
        if !(data[0] == 0x44 && data[1] == 0x49 && data[2] == 0x52 && data[3] == 0x43) {
            return Err(Error::InvalidIndex(String::from_str("invalid header")));
        }
        let version: u32 = (data[4] as u32) * 0x1000000 + (data[5] as u32) * 0x10000 + (data[6]
            as u32) * 0x100 + (data[7] as u32);
        if !(version == 2 || version == 3 || version == 4) {
            return Err(Error::InvalidIndex(String::from_str("unsupported version")));
        }
        let count: u32 = (data[8] as u32) * 0x1000000 + (data[9] as u32) * 0x10000 + (data[10]
            as u32) * 0x100 + (data[11] as u32);
        let ghost full = entries_spec(version as int, data@, 12, count as int);
        let mut entries: Vec<Entry> = Vec::new();
        let mut pos: usize = 12;
        let mut i: u32 = 0;
        while i < count
            invariant
                i <= count,
                12 <= pos <= data@.len(),
                dlen == data@.len(),
                2 <= version <= 4,
                data@.len() >= 12,
                data@[0] == 0x44 && data@[1] == 0x49 && data@[2] == 0x52 && data@[3] == 0x43,
                be32(data@, 4) == version as int,
                be32(data@, 8) == count as int,
                full == entries_spec(version as int, data@, 12, count as int),
                entries@.len() == i as int,
                (match entries_spec(version as int, data@, pos as int, count - i) {
                    Some(rest) => full == Some(entries_view(entries@) + rest),
                    None => full is None,
                }),
                forall|j: int|
                    0 <= j < entries@.len() ==> (#[trigger] entries@[j]).sha1@.len() == 40
                        && all_hex(entries@[j].sha1@),
            decreases count - i,
        {
            let ghost rem = count - i;
            match Entry::read(version, data, pos) {
                Ok((e, np)) => {
                    proof {
                        let ev = EntryV { sha1: e.sha1@, path: e.path@ };
                        match entries_spec(version as int, data@, np as int, rem - 1) {
                            Some(rest2) => {
                                assert(entries_view(entries@.push(e)) =~= entries_view(entries@)
                                    + seq![ev]);
                                assert(entries_view(entries@) + (seq![ev] + rest2) =~= (
                                entries_view(entries@) + seq![ev]) + rest2);
                            },
                            None => {},
                        }
                    }
                    entries.push(e);
                    pos = np;
                },
                Err(e) => {
                    return Err(e);
                },
            }
            i = i + 1;
        }
        proof {
            assert(entries_view(entries@) + Seq::<EntryV>::empty() =~= entries_view(entries@));
            lemma_entries_spec_len(version as int, data@, 12, count as int);
        }
        Ok(Index { version, entries })
    }
}

/// The working-tree files that are not among the index's paths, in walk
/// order.
pub fn untracked_files(known: &Vec<String>, walked: &Vec<String>) -> (r: Vec<String>)
    ensures
        r.deep_view() == walked.deep_view().filter(
            |p: Seq<char>| !known.deep_view().contains(p),
        ),
{
    let ghost pred = |p: Seq<char>| !known.deep_view().contains(p);
    let mut out: Vec<String> = Vec::new();
    let wlen = walked.len();
    for i in 0..wlen
        invariant
            wlen == walked@.len(),
            pred == (|p: Seq<char>| !known.deep_view().contains(p)),
            out.deep_view() == walked.deep_view().take(i as int).filter(pred),
    {
        let mut found = false;
        let tlen = known.len();
        for j in 0..tlen
            invariant
                i < wlen,
                wlen == walked@.len(),
                tlen == known@.len(),
                found ==> known.deep_view().contains(walked.deep_view()[i as int]),
                !found ==> forall|k: int|
                    0 <= k < j ==> known.deep_view()[k] != walked.deep_view()[i as int],
        {
            if crate::text::str_eq(known[j].as_str(), walked[i].as_str()) {
                proof {
                    assert(known.deep_view()[j as int] == walked.deep_view()[i as int]);
                }
                found = true;
            }
        }
        let ghost wv = walked.deep_view();
        let ghost prefix = wv.take(i as int);
        if !found {
            out.push(String::from_str(walked[i].as_str()));
        }
        proof {
            reveal(Seq::filter);
            assert(wv.take(i + 1).drop_last() =~= prefix);
            assert(wv.take(i + 1).last() == wv[i as int]);
            if !found {
                assert(pred(wv[i as int]));
                assert(out.deep_view() =~= prefix.filter(pred).push(wv[i as int]));
            } else {
                assert(!pred(wv[i as int]));
            }
            assert(out.deep_view() =~= wv.take(i + 1).filter(pred));
        }
    }
    proof {
        assert(walked.deep_view().take(wlen as int) =~= walked.deep_view());
    }
    out
}

} // verus!
