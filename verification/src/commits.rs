//! Reading commit objects: the timestamp-with-offset model, the builder
//! that accumulates commit fields, and the line-oriented commit decoder.

use vstd::prelude::*;

use crate::objects::Name;
use crate::text::{
    find_byte_from,
    all_digits, all_hex, dec_value, is_digit_char, is_full_hex, check_all_hex, check_digit_char,
    parse_u64_digits, starts_with, trim_spec,
};
use vstd::utf8::{valid_utf8, decode_utf8};

verus! {

#[derive(Debug)]
pub enum Error {
    InvalidCommit(String),
    MissingField(String),
}

impl Error {
    /// A human-readable description of the failure.
    pub fn message(&self) -> (r: String)
        ensures
            r@ == match self {
                Error::InvalidCommit(d) => d@,
                Error::MissingField(f) => f@,
            },
    {
        match self {
            Error::InvalidCommit(d) => d.clone(),
            Error::MissingField(f) => f.clone(),
        }
    }
}

/// A UTC instant paired with the fixed timezone offset it was written
/// with: seconds since the Unix epoch, and the offset east of UTC in
/// seconds.
#[derive(Debug, PartialEq, Eq, Structural, Clone, Copy)]
pub struct CommitDateTime {
    pub epoch_seconds: i64,
    pub offset_seconds: i32,
}

/// Whether a count of seconds since the Unix epoch falls in the range
/// that the date library can represent (roughly 262,000 years either
/// side of the common era).
pub uninterp spec fn timestamp_in_range(secs: int) -> bool;

/// Relies on chrono's `DateTime::from_timestamp`: whether a second count
/// is representable depends on the count alone.
#[verifier::external_body]
fn check_timestamp_in_range(secs: i64) -> (r: bool)
    ensures
        r == timestamp_in_range(secs as int),
{
    chrono::DateTime::from_timestamp(secs, 0).is_some()
}

/// Relies on chrono's `FixedOffset::east_opt`: it accepts exactly the
/// offsets strictly between -86400 and 86400 seconds.
#[verifier::external_body]
fn check_offset_in_range(secs: i32) -> (r: bool)
    ensures
        r == (-86400 < secs as int && (secs as int) < 86400),
{
    chrono::FixedOffset::east_opt(secs).is_some()
}

impl CommitDateTime {
    /// Well-formed: both parts are in the ranges the date library accepts.
    pub open spec fn valid(&self) -> bool {
        timestamp_in_range(self.epoch_seconds as int) && -86400 < (self.offset_seconds as int)
            && (self.offset_seconds as int) < 86400
    }
}

/// The shape of the timestamp part of a date string: an optional minus
/// sign, then at least one decimal digit.
pub open spec fn ts_shape(t: Seq<char>) -> bool {
    if t.len() > 0 && t[0] == '-' {
        t.len() >= 2 && all_digits(t.skip(1))
    } else {
        t.len() >= 1 && all_digits(t)
    }
}

/// The signed value of a timestamp string.
pub open spec fn ts_value(t: Seq<char>) -> int {
    if t.len() > 0 && t[0] == '-' {
        -dec_value(t.skip(1))
    } else {
        dec_value(t)
    }
}

/// The shape `<timestamp> <+|-HHMM>`: a signed decimal timestamp, one
/// space, a sign, and four digits.
pub open spec fn date_shape(s: Seq<char>) -> bool {
    let n = s.len() as int;
    n >= 7 && (s[n - 5] == '+' || s[n - 5] == '-') && all_digits(s.subrange(n - 4, n)) && s[n - 6]
        == ' ' && ts_shape(s.subrange(0, n - 6))
}

/// The instant-with-offset denoted by a date string, when it is well
/// shaped and both parts are representable.  The offset `±HHMM` denotes
/// `(±1)·(HH·3600 + MM·60)` seconds.
pub open spec fn date_spec(s: Seq<char>) -> Option<CommitDateTime> {
    if !date_shape(s) {
        None
    } else {
        let n = s.len() as int;
        let ts = ts_value(s.subrange(0, n - 6));
        let sign: int = if s[n - 5] == '-' {
            -1
        } else {
            1
        };
        let off = sign * (dec_value(s.subrange(n - 4, n - 2)) * 3600 + dec_value(
            s.subrange(n - 2, n),
        ) * 60);
        if i64::MIN <= ts <= i64::MAX && timestamp_in_range(ts) && -86400 < off < 86400 {
            Some(CommitDateTime { epoch_seconds: ts as i64, offset_seconds: off as i32 })
        } else {
            None
        }
    }
}

/// The value of a two-digit string.
proof fn lemma_dec_value_pair(s: Seq<char>)
    requires
        s.len() == 2,
    ensures
        dec_value(s) == (s[0] as u32 - '0' as u32) * 10 + (s[1] as u32 - '0' as u32),
{
    let d1 = s.drop_last();
    let d0 = d1.drop_last();
    assert(d0.len() == 0);
    assert(dec_value(d0) == 0);
    assert(dec_value(d1) == dec_value(d0) * 10 + (d1.last() as u32 - '0' as u32));
    assert(d1.last() == s[0]);
    assert(dec_value(s) == dec_value(d1) * 10 + (s.last() as u32 - '0' as u32));
}

/// Parse `<epoch-seconds> <+|-HHMM>` into an instant with offset.
/// Rejects malformed shapes, out-of-range timestamps and out-of-range
/// offsets.
pub fn parse_commit_date(date_str: &str) -> (r: Result<CommitDateTime, Error>)
    ensures
        match r {
            Ok(d) => date_spec(date_str@) == Some(d),
            Err(e) => date_spec(date_str@) is None && e is InvalidCommit,
        },
{
    let ghost s = date_str@;
    let n = date_str.unicode_len();
    if n < 7 {
        return Err(Error::InvalidCommit(String::from_str("invalid date")));
    }
    let sign_char = date_str.get_char(n - 5);
    if !(sign_char == '+' || sign_char == '-') {
        return Err(Error::InvalidCommit(String::from_str("invalid date")));
    }
    let mut all4 = true;
    let mut k: usize = n - 4;
    while k < n
        invariant
            s == date_str@,
            n == s.len(),
            n >= 7,
            n - 4 <= k <= n,
            all4 ==> forall|j: int| n - 4 <= j < k ==> is_digit_char(#[trigger] s[j]),
            !all4 ==> !all_digits(s.subrange(n - 4, n as int)),
        decreases n - k,
    {
        if !check_digit_char(date_str.get_char(k)) {
            proof {
                assert(s.subrange(n - 4, n as int)[k - (n - 4)] == s[k as int]);
            }
            all4 = false;
        }
        k = k + 1;
    }
    if !all4 {
        return Err(Error::InvalidCommit(String::from_str("invalid date")));
    }
    proof {
        assert forall|j: int| 0 <= j < 4 implies is_digit_char(
            #[trigger] s.subrange(n - 4, n as int)[j],
        ) by {
            assert(s.subrange(n - 4, n as int)[j] == s[n - 4 + j]);
        }
    }
    if date_str.get_char(n - 6) != ' ' {
        return Err(Error::InvalidCommit(String::from_str("invalid date")));
    }
    // The timestamp part, with an optional leading minus sign.
    let ghost tpart = s.subrange(0, n - 6);
    let negative = date_str.get_char(0) == '-';
    let digits_from: usize = if negative {
        1
    } else {
        0
    };
    let digits = date_str.substring_char(digits_from, n - 6);
    proof {
        assert(digits@ =~= tpart.skip(digits_from as int));
        if !negative {
            assert(tpart.skip(0) =~= tpart);
        }
    }
    let value = match parse_u64_digits(digits) {
        Some(v) => v,
        None => {
            proof {
                if date_shape(s) {
                    crate::text::lemma_dec_value_nonneg(tpart.skip(digits_from as int));
                }
            }
            return Err(Error::InvalidCommit(String::from_str("invalid timestamp")));
        },
    };
    let ts: i64;
    if negative {
        if value <= 0x7fff_ffff_ffff_ffff {
            ts = -(value as i64);
        } else if value == 0x8000_0000_0000_0000 {
            ts = i64::MIN;
        } else {
            return Err(Error::InvalidCommit(String::from_str("invalid timestamp")));
        }
    } else {
        if value <= 0x7fff_ffff_ffff_ffff {
            ts = value as i64;
        } else {
            return Err(Error::InvalidCommit(String::from_str("invalid timestamp")));
        }
    }
    if !check_timestamp_in_range(ts) {
        return Err(Error::InvalidCommit(String::from_str("invalid timestamp")));
    }
    // The offset: sign, two hour digits, two minute digits.
    proof {
        assert(is_digit_char(s[n - 4]));
        assert(is_digit_char(s[n - 3]));
        assert(is_digit_char(s[n - 2]));
        assert(is_digit_char(s[n - 1]));
    }
    let h1 = date_str.get_char(n - 4) as u32 - 0x30;
    let h2 = date_str.get_char(n - 3) as u32 - 0x30;
    let m1 = date_str.get_char(n - 2) as u32 - 0x30;
    let m2 = date_str.get_char(n - 1) as u32 - 0x30;
    let hours = (h1 * 10 + h2) as i32;
    let minutes = (m1 * 10 + m2) as i32;
    let magnitude = hours * 3600 + minutes * 60;
    let off: i32 = if sign_char == '-' {
        -magnitude
    } else {
        magnitude
    };
    proof {
        let hsub = s.subrange(n - 4, n - 2);
        let msub = s.subrange(n - 2, n as int);
        lemma_dec_value_pair(hsub);
        lemma_dec_value_pair(msub);
        assert(hsub[0] == s[n - 4] && hsub[1] == s[n - 3]);
        assert(msub[0] == s[n - 2] && msub[1] == s[n - 1]);
        assert(hours as int == dec_value(hsub));
        assert(minutes as int == dec_value(msub));
        assert(ts_shape(tpart));
        assert(date_shape(s));
        assert(ts as int == ts_value(tpart));
        assert(s[n - 5] == sign_char);
        assert(magnitude as int == dec_value(hsub) * 3600 + dec_value(msub) * 60);
        let hv = dec_value(hsub);
        let mv = dec_value(msub);
        if sign_char == '-' {
            assert(off as int == -(magnitude as int));
            assert(off as int == -1 * (hv * 3600 + mv * 60)) by (nonlinear_arith)
                requires
                    off as int == -(magnitude as int),
                    magnitude as int == hv * 3600 + mv * 60,
            ;
        } else {
            assert(off as int == 1 * (hv * 3600 + mv * 60)) by (nonlinear_arith)
                requires
                    off as int == magnitude as int,
                    magnitude as int == hv * 3600 + mv * 60,
            ;
        }
    }
    if !check_offset_in_range(off) {
        return Err(Error::InvalidCommit(String::from_str("invalid timezone")));
    }
    Ok(CommitDateTime { epoch_seconds: ts, offset_seconds: off })
}

/// The user recorded on an author or committer line.
#[derive(Debug, PartialEq, Eq, Clone)]
pub struct CommitUser {
    pub name: String,
    pub date: CommitDateTime,
}

/// A fully decoded commit.  `name` is the identifier the commit was
/// fetched under; `parent` is absent for root commits (for merge commits
/// only the first parent line is captured).
#[derive(Debug, PartialEq, Eq, Clone)]
pub struct Commit {
    pub name: Name,
    pub tree: Name,
    pub parent: Option<Name>,
    pub author: CommitUser,
    pub committer: CommitUser,
    pub message: String,
}

/// The fields of a decoded commit, in model form.
pub struct CommitV {
    pub tree: Seq<char>,
    pub parent: Option<Seq<char>>,
    pub author_name: Seq<char>,
    pub author_date: CommitDateTime,
    pub committer_name: Seq<char>,
    pub committer_date: CommitDateTime,
    pub message: Seq<char>,
}

impl Commit {
    /// Does this record carry exactly the decoded fields `cv`, under the
    /// object name `n`?
    pub open spec fn matches(self, n: Seq<char>, cv: CommitV) -> bool {
        &&& self.name.0@ == n
    &&& self.tree.0@ == cv.tree
    &&& match (self.parent, cv.parent) {
            (Some(p), Some(q)) => p.0@ == q,
            (None, None) => true,
            _ => false,
        }
    &&& self.author.name@ == cv.author_name
    &&& self.author.date == cv.author_date
    &&& self.committer.name@ == cv.committer_name
    &&& self.committer.date == cv.committer_date
    &&& self.message@ == cv.message
    }
}

/// The accumulating state of the commit decoder, in model form.
pub struct BuilderV {
    pub tree: Option<Seq<char>>,
    pub parent: Option<Seq<char>>,
    pub author: Option<(Seq<char>, CommitDateTime)>,
    pub committer: Option<(Seq<char>, CommitDateTime)>,
}

pub open spec fn empty_builder() -> BuilderV {
    BuilderV { tree: None, parent: None, author: None, committer: None }
}

/// One header line of a commit, classified.
pub enum CommitLine {
    TreeLine(Seq<char>),
    ParentLine(Seq<char>),
    AuthorLine(Seq<char>, Seq<char>),
    CommitterLine(Seq<char>, Seq<char>),
    Bad,
}

/// How a commit payload decodes: a full record, a malformed line or
/// date, or a missing mandatory field (named).
pub enum CommitParse {
    Parsed(CommitV),
    Malformed,
    Missing(Seq<char>),
}

/// The least index `t` such that every character of `s[t..j]` is a
/// decimal digit: the start of the maximal digit run ending at `j`.
pub open spec fn digit_run_start(s: Seq<char>, j: int) -> int
    decreases j,
{
    if j <= 0 {
        0
    } else if is_digit_char(s[j - 1]) {
        digit_run_start(s, j - 1)
    } else {
        j
    }
}

pub proof fn lemma_digit_run_start(s: Seq<char>, j: int)
    requires
        0 <= j <= s.len(),
    ensures
        0 <= digit_run_start(s, j) <= j,
        forall|i: int| digit_run_start(s, j) <= i < j ==> is_digit_char(#[trigger] s[i]),
        digit_run_start(s, j) > 0 ==> !is_digit_char(s[digit_run_start(s, j) - 1]),
    decreases j,
{
    if j > 0 && is_digit_char(s[j - 1]) {
        lemma_digit_run_start(s, j - 1);
    }
}

/// Split the part of an author or committer line after its tag into the
/// user name and the date string.  The date is the maximal optionally
/// signed digit run before the trailing ` <+|->HHMM`; the name is what
/// precedes the space in front of it and must be non-empty.
pub open spec fn user_line_parts(rest: Seq<char>) -> Option<(Seq<char>, Seq<char>)> {
    let n = rest.len() as int;
    if n < 9 {
        None
    } else if !((rest[n - 5] == '+' || rest[n - 5] == '-') && all_digits(rest.subrange(n - 4, n))
        && rest[n - 6] == ' ') {
        None
    } else {
        let j = n - 6;
        let t = digit_run_start(rest, j);
        if t >= j {
            None
        } else if t >= 3 && rest[t - 1] == '-' && rest[t - 2] == ' ' {
            Some((rest.subrange(0, t - 2), rest.subrange(t - 1, n)))
        } else if t >= 2 && rest[t - 1] == ' ' {
            Some((rest.subrange(0, t - 1), rest.subrange(t, n)))
        } else {
            None
        }
    }
}

/// Classify one header line: `tree <40-hex>`, `parent <40-hex>`,
/// `author <name> <date>` or `committer <name> <date>`; anything else is
/// malformed.
pub open spec fn classify_line(line: Seq<char>) -> CommitLine {
    if line.len() == 45 && line.take(5) == "tree "@ && all_hex(line.skip(5)) {
        CommitLine::TreeLine(line.skip(5))
    } else if line.len() == 47 && line.take(7) == "parent "@ && all_hex(line.skip(7)) {
        CommitLine::ParentLine(line.skip(7))
    } else if line.len() >= 7 && line.take(7) == "author "@ {
        match user_line_parts(line.skip(7)) {
            Some(p) => CommitLine::AuthorLine(p.0, p.1),
            None => CommitLine::Bad,
        }
    } else if line.len() >= 10 && line.take(10) == "committer "@ {
        match user_line_parts(line.skip(10)) {
            Some(p) => CommitLine::CommitterLine(p.0, p.1),
            None => CommitLine::Bad,
        }
    } else {
        CommitLine::Bad
    }
}

/// Conclude the decode at the blank line (or at end of input): the
/// remaining bytes are the message, with a mandatory-field check in the
/// order tree, committer, author.
pub open spec fn finish_spec(b: BuilderV, msg_bytes: Seq<u8>) -> CommitParse {
    if !valid_utf8(msg_bytes) {
        CommitParse::Malformed
    } else {
        match (b.tree, b.author, b.committer) {
            (None, _, _) => CommitParse::Missing("tree"@),
            (Some(t), _, None) => CommitParse::Missing("committer"@),
            (Some(t), None, Some(c)) => CommitParse::Missing("author"@),
            (Some(t), Some(a), Some(c)) => CommitParse::Parsed(
                CommitV {
                    tree: t,
                    parent: b.parent,
                    author_name: a.0,
                    author_date: a.1,
                    committer_name: c.0,
                    committer_date: c.1,
                    message: trim_spec(decode_utf8(msg_bytes)),
                },
            ),
        }
    }
}

/// Decode a commit payload, line by line: header lines accumulate into
/// the builder state until a blank (or whitespace-only) line or the end
/// of input; the rest is the message.  A `parent` line is captured only
/// the first time; repeated `tree`, `author` and `committer` lines
/// overwrite.
pub open spec fn parse_commit_spec(bytes: Seq<u8>, b: BuilderV) -> CommitParse
    decreases bytes.len(),
{
    if bytes.len() == 0 {
        finish_spec(b, Seq::<u8>::empty())
    } else {
        let nl = crate::text::find_byte(bytes, 0x0a);
        let has_nl = 0 <= nl && nl < bytes.len();
        let k = if has_nl {
            nl
        } else {
            bytes.len() as int
        };
        let line_b = bytes.take(k);
        let rest = if has_nl {
            bytes.skip(nl + 1)
        } else {
            Seq::<u8>::empty()
        };
        if !valid_utf8(line_b) {
            CommitParse::Malformed
        } else {
            let line = decode_utf8(line_b);
            if trim_spec(line).len() == 0 {
                finish_spec(b, rest)
            } else {
                match classify_line(line) {
                    CommitLine::TreeLine(h) => parse_commit_spec(
                        rest,
                        BuilderV { tree: Some(h), ..b },
                    ),
                    CommitLine::ParentLine(h) => parse_commit_spec(
                        rest,
                        BuilderV {
                            parent: if b.parent is Some {
                                b.parent
                            } else {
                                Some(h)
                            },
                            ..b
                        },
                    ),
                    CommitLine::AuthorLine(nm, ds) => match date_spec(ds) {
                        None => CommitParse::Malformed,
                        Some(d) => parse_commit_spec(rest, BuilderV { author: Some((nm, d)), ..b }),
                    },
                    CommitLine::CommitterLine(nm, ds) => match date_spec(ds) {
                        None => CommitParse::Malformed,
                        Some(d) => parse_commit_spec(
                            rest,
                            BuilderV { committer: Some((nm, d)), ..b },
                        ),
                    },
                    CommitLine::Bad => CommitParse::Malformed,
                }
            }
        }
    }
}

/// Accumulates commit fields before validation.  `build` checks the
/// mandatory fields and names the first missing one.
pub struct CommitBuilder {
    pub name: Name,
    pub tree: Option<Name>,
    pub parent: Option<Name>,
    pub author: Option<CommitUser>,
    pub committer: Option<CommitUser>,
    pub message: Option<String>,
}

impl CommitBuilder {
    pub fn new(name: &Name) -> (r: CommitBuilder)
        ensures
            r.name.0@ == name.0@,
            r.tree is None,
            r.parent is None,
            r.author is None,
            r.committer is None,
            r.message is None,
    {
        CommitBuilder {
            name: Name(String::from_str(name.0.as_str())),
            tree: None,
            parent: None,
            author: None,
            committer: None,
            message: None,
        }
    }

    pub fn tree(&mut self, tree: String)
        ensures
            *final(self) == (CommitBuilder { tree: Some(Name(tree)), ..*old(self) }),
    {
        self.tree = Some(Name(tree));
    }

    pub fn parent(&mut self, parent: String)
        ensures
            *final(self) == (CommitBuilder { parent: Some(Name(parent)), ..*old(self) }),
    {
        self.parent = Some(Name(parent));
    }

    pub fn author(&mut self, name: String, date: CommitDateTime)
        ensures
            *final(self) == (CommitBuilder {
                author: Some(CommitUser { name, date }),
                ..*old(self)
            }),
    {
        self.author = Some(CommitUser { name, date });
    }

    pub fn committer(&mut self, name: String, date: CommitDateTime)
        ensures
            *final(self) == (CommitBuilder {
                committer: Some(CommitUser { name, date }),
                ..*old(self)
            }),
    {
        self.committer = Some(CommitUser { name, date });
    }

    pub fn message(&mut self, message: String)
        ensures
            *final(self) == (CommitBuilder { message: Some(message), ..*old(self) }),
    {
        self.message = Some(message);
    }

    /// Validate that the mandatory fields are present, in the order
    /// tree, committer, author, message, and assemble the record.
    pub fn build(self) -> (r: Result<Commit, Error>)
        ensures
            match r {
                Ok(c) => match (self.tree, self.author, self.committer, self.message) {
                    (Some(t), Some(a), Some(cm), Some(m)) => c == Commit {
                        name: self.name,
                        tree: t,
                        parent: self.parent,
                        author: a,
                        committer: cm,
                        message: m,
                    },
                    _ => false,
                },
                Err(e) => match e {
                    Error::MissingField(f) => {
                        ||| self.tree is None && f@ == "tree"@
                        ||| self.tree is Some && self.committer is None && f@ == "committer"@
                        ||| self.tree is Some && self.committer is Some && self.author is None
                            && f@ == "author"@
                        ||| self.tree is Some && self.committer is Some && self.author is Some
                            && self.message is None && f@ == "message"@
                    },
                    _ => false,
                },
            },
    {
        if self.tree.is_none() {
            Err(Error::MissingField(String::from_str("tree")))
        } else if self.committer.is_none() {
            Err(Error::MissingField(String::from_str("committer")))
        } else if self.author.is_none() {
            Err(Error::MissingField(String::from_str("author")))
        } else if self.message.is_none() {
            Err(Error::MissingField(String::from_str("message")))
        } else {
            match (self.tree, self.author, self.committer, self.message) {
                (Some(t), Some(a), Some(cm), Some(m)) => Ok(
                    Commit {
                        name: self.name,
                        tree: t,
                        parent: self.parent,
                        author: a,
                        committer: cm,
                        message: m,
                    },
                ),
                _ => Err(Error::MissingField(String::from_str("tree"))),
            }
        }
    }
}

/// The tag characters that open each header line, with their first
/// characters, which make the four patterns mutually exclusive.
proof fn lemma_tag_chars()
    ensures
        "tree "@.len() == 5 && "tree "@[0] == 't',
        "parent "@.len() == 7 && "parent "@[0] == 'p',
        "author "@.len() == 7 && "author "@[0] == 'a',
        "committer "@.len() == 10 && "committer "@[0] == 'c',
{
    reveal_strlit("tree ");
    reveal_strlit("parent ");
    reveal_strlit("author ");
    reveal_strlit("committer ");
}

/// Split a user line body into name and date, as `user_line_parts`
/// describes.
fn split_user_line(rest: &str) -> (r: Option<(String, String)>)
    ensures
        match r {
            Some(p) => user_line_parts(rest@) == Some((p.0@, p.1@)),
            None => user_line_parts(rest@) is None,
        },
{
    let ghost sv = rest@;
    let n = rest.unicode_len();
    if n < 9 {
        return None;
    }
    let sc = rest.get_char(n - 5);
    if !(sc == '+' || sc == '-') {
        return None;
    }
    let mut all4 = true;
    let mut k: usize = n - 4;
    while k < n
        invariant
            sv == rest@,
            n == sv.len(),
            n >= 9,
            n - 4 <= k <= n,
            all4 ==> forall|j: int| n - 4 <= j < k ==> is_digit_char(#[trigger] sv[j]),
            !all4 ==> !all_digits(sv.subrange(n - 4, n as int)),
        decreases n - k,
    {
        if !check_digit_char(rest.get_char(k)) {
            proof {
                assert(sv.subrange(n - 4, n as int)[k - (n - 4)] == sv[k as int]);
            }
            all4 = false;
        }
        k = k + 1;
    }
    if !all4 {
        return None;
    }
    proof {
        assert forall|j: int| 0 <= j < 4 implies is_digit_char(
            #[trigger] sv.subrange(n - 4, n as int)[j],
        ) by {
            assert(sv.subrange(n - 4, n as int)[j] == sv[n - 4 + j]);
        }
    }
    if rest.get_char(n - 6) != ' ' {
        return None;
    }
    // The maximal digit run ending just before the trailing ` <sign>HHMM`.
    let j = n - 6;
    let mut t: usize = j;
    while t > 0 && check_digit_char(rest.get_char(t - 1))
        invariant
            sv == rest@,
            n == sv.len(),
            n >= 9,
            j == n - 6,
            t <= j,
            forall|i: int| t <= i < j ==> is_digit_char(#[trigger] sv[i]),
        decreases t,
    {
        t = t - 1;
    }
    proof {
        lemma_digit_run_start(sv, j as int);
        let ts = digit_run_start(sv, j as int);
        if t < ts {
            assert(is_digit_char(sv[ts - 1]));
        }
        if t > ts {
            assert(is_digit_char(sv[t - 1]));
        }
        assert(t == ts);
    }
    if t == j {
        return None;
    }
    if t >= 3 && rest.get_char(t - 1) == '-' && rest.get_char(t - 2) == ' ' {
        let nm = rest.substring_char(0, t - 2).to_owned();
        let ds = rest.substring_char(t - 1, n).to_owned();
        return Some((nm, ds));
    }
    if t >= 2 && rest.get_char(t - 1) == ' ' {
        let nm = rest.substring_char(0, t - 1).to_owned();
        let ds = rest.substring_char(t, n).to_owned();
        return Some((nm, ds));
    }
    None
}

/// One header line, classified, carrying its decoded pieces.
enum LineKind {
    TreeK(String),
    ParentK(String),
    AuthorK(String, String),
    CommitterK(String, String),
    BadK,
}

/// Classify one header line, as `classify_line` describes.
fn classify_line_exec(line: &str) -> (r: LineKind)
    ensures
        match r {
            LineKind::TreeK(h) => classify_line(line@) == CommitLine::TreeLine(h@) && is_full_hex(
                h@,
            ),
            LineKind::ParentK(h) => classify_line(line@) == CommitLine::ParentLine(h@)
                && is_full_hex(h@),
            LineKind::AuthorK(nm, ds) => classify_line(line@) == CommitLine::AuthorLine(nm@, ds@),
            LineKind::CommitterK(nm, ds) => classify_line(line@) == CommitLine::CommitterLine(
                nm@,
                ds@,
            ),
            LineKind::BadK => classify_line(line@) is Bad,
        },
{
    proof {
        lemma_tag_chars();
    }
    let n = line.unicode_len();
    if starts_with(line, "tree ") {
        proof {
            assert(line@.take(5) =~= line@.subrange(0, 5));
            assert(line@[0] == 't') by {
                assert(line@.take(5)[0] == line@[0]);
            }
            rule_out_not_tree(line@);
        }
        if n == 45 {
            let hex = line.substring_char(5, 45);
            if check_all_hex(hex) {
                proof {
                    assert(hex@ =~= line@.skip(5));
                }
                return LineKind::TreeK(hex.to_owned());
            }
            proof {
                assert(hex@ =~= line@.skip(5));
            }
        }
        return LineKind::BadK;
    }
    if starts_with(line, "parent ") {
        proof {
            assert(line@[0] == 'p') by {
                assert(line@.take(7)[0] == line@[0]);
            }
            rule_out_not_parent(line@);
        }
        if n == 47 {
            let hex = line.substring_char(7, 47);
            if check_all_hex(hex) {
                proof {
                    assert(hex@ =~= line@.skip(7));
                }
                return LineKind::ParentK(hex.to_owned());
            }
            proof {
                assert(hex@ =~= line@.skip(7));
            }
        }
        return LineKind::BadK;
    }
    if starts_with(line, "author ") {
        proof {
            assert(line@[0] == 'a') by {
                assert(line@.take(7)[0] == line@[0]);
            }
            rule_out_not_author(line@);
        }
        let body = line.substring_char(7, n);
        proof {
            assert(body@ =~= line@.skip(7));
        }
        match split_user_line(body) {
            Some(p) => {
                return LineKind::AuthorK(p.0, p.1);
            },
            None => {
                return LineKind::BadK;
            },
        }
    }
    if starts_with(line, "committer ") {
        proof {
            assert(line@[0] == 'c') by {
                assert(line@.take(10)[0] == line@[0]);
            }
            rule_out_not_committer(line@);
        }
        let body = line.substring_char(10, n);
        proof {
            assert(body@ =~= line@.skip(10));
        }
        match split_user_line(body) {
            Some(p) => {
                return LineKind::CommitterK(p.0, p.1);
            },
            None => {
                return LineKind::BadK;
            },
        }
    }
    proof {
        if line@.len() >= 5 && line@.take(5) == "tree "@ {
            assert("tree "@.is_prefix_of(line@));
        }
        if line@.len() >= 7 && line@.take(7) == "parent "@ {
            assert("parent "@.is_prefix_of(line@));
        }
        if line@.len() >= 7 && line@.take(7) == "author "@ {
            assert("author "@.is_prefix_of(line@));
        }
        if line@.len() >= 10 && line@.take(10) == "committer "@ {
            assert("committer "@.is_prefix_of(line@));
        }
    }
    LineKind::BadK
}

/// A line that starts with `tree ` matches no other tag.
proof fn rule_out_not_tree(line: Seq<char>)
    requires
        line.len() >= 5,
        line[0] == 't',
    ensures
        !(line.len() == 47 && line.take(7) == "parent "@ && all_hex(line.skip(7))),
        !(line.len() >= 7 && line.take(7) == "author "@),
        !(line.len() >= 10 && line.take(10) == "committer "@),
{
    lemma_tag_chars();
    if line.len() >= 7 && line.take(7) == "parent "@ {
        assert(line.take(7)[0] == line[0]);
    }
    if line.len() >= 7 && line.take(7) == "author "@ {
        assert(line.take(7)[0] == line[0]);
    }
    if line.len() >= 10 && line.take(10) == "committer "@ {
        assert(line.take(10)[0] == line[0]);
    }
}

/// A line that starts with `parent ` matches no other tag.
proof fn rule_out_not_parent(line: Seq<char>)
    requires
        line.len() >= 7,
        line[0] == 'p',
    ensures
        !(line.len() == 45 && line.take(5) == "tree "@ && all_hex(line.skip(5))),
        !(line.len() >= 7 && line.take(7) == "author "@),
        !(line.len() >= 10 && line.take(10) == "committer "@),
{
    lemma_tag_chars();
    if line.len() >= 5 && line.take(5) == "tree "@ {
        assert(line.take(5)[0] == line[0]);
    }
    if line.len() >= 7 && line.take(7) == "author "@ {
        assert(line.take(7)[0] == line[0]);
    }
    if line.len() >= 10 && line.take(10) == "committer "@ {
        assert(line.take(10)[0] == line[0]);
    }
}

/// A line that starts with `author ` matches no other tag.
proof fn rule_out_not_author(line: Seq<char>)
    requires
        line.len() >= 7,
        line[0] == 'a',
    ensures
        !(line.len() == 45 && line.take(5) == "tree "@ && all_hex(line.skip(5))),
        !(line.len() == 47 && line.take(7) == "parent "@ && all_hex(line.skip(7))),
        !(line.len() >= 10 && line.take(10) == "committer "@),
{
    lemma_tag_chars();
    if line.len() >= 5 && line.take(5) == "tree "@ {
        assert(line.take(5)[0] == line[0]);
    }
    if line.len() >= 7 && line.take(7) == "parent "@ {
        assert(line.take(7)[0] == line[0]);
    }
    if line.len() >= 10 && line.take(10) == "committer "@ {
        assert(line.take(10)[0] == line[0]);
    }
}

/// A line that starts with `committer ` matches no other tag.
proof fn rule_out_not_committer(line: Seq<char>)
    requires
        line.len() >= 10,
        line[0] == 'c',
    ensures
        !(line.len() == 45 && line.take(5) == "tree "@ && all_hex(line.skip(5))),
        !(line.len() == 47 && line.take(7) == "parent "@ && all_hex(line.skip(7))),
        !(line.len() >= 7 && line.take(7) == "author "@),
{
    lemma_tag_chars();
    if line.len() >= 5 && line.take(5) == "tree "@ {
        assert(line.take(5)[0] == line[0]);
    }
    if line.len() >= 7 && line.take(7) == "parent "@ {
        assert(line.take(7)[0] == line[0]);
    }
    if line.len() >= 7 && line.take(7) == "author "@ {
        assert(line.take(7)[0] == line[0]);
    }
}

/// The model of the builder's accumulated state.
pub open spec fn builder_view(b: CommitBuilder) -> BuilderV {
    BuilderV {
        tree: match b.tree {
            Some(t) => Some(t.0@),
            None => None,
        },
        parent: match b.parent {
            Some(p) => Some(p.0@),
            None => None,
        },
        author: match b.author {
            Some(u) => Some((u.name@, u.date)),
            None => None,
        },
        committer: match b.committer {
            Some(u) => Some((u.name@, u.date)),
            None => None,
        },
    }
}

/// Decode a commit payload under the object name it was fetched by.
/// On success the record carries that name, a 40-hex tree (and parent,
/// when present), and representable dates.
pub fn parse_commit(data: &Vec<u8>, name: &Name) -> (r: Result<Commit, Error>)
    ensures
        match r {
            Ok(c) => (parse_commit_spec(data@, empty_builder()) matches CommitParse::Parsed(cv)
                && c.matches(name.0@, cv)) && c.name.0@ == name.0@ && is_full_hex(c.tree.0@) && (
            c.parent matches Some(p) ==> is_full_hex(p.0@)) && c.author.date.valid()
                && c.committer.date.valid(),
            Err(e) => match e {
                Error::InvalidCommit(_) => parse_commit_spec(data@, empty_builder()) is Malformed,
                Error::MissingField(f) => (parse_commit_spec(data@, empty_builder())
                    matches CommitParse::Missing(fs) && f@ == fs),
            },
        },
{
    let dlen = data.len();
    let mut builder = CommitBuilder::new(name);
    let mut pos: usize = 0;
    let mut msg_start: usize = 0;
    proof {
        assert(data@.skip(0) =~= data@);
        assert(builder_view(builder) == empty_builder());
    }
    loop
        invariant
            pos <= dlen,
            dlen == data@.len(),
            builder.name.0@ == name.0@,
            builder.message is None,
            (builder.tree matches Some(t) ==> is_full_hex(t.0@)),
            (builder.parent matches Some(p) ==> is_full_hex(p.0@)),
            (builder.author matches Some(u) ==> u.date.valid()),
            (builder.committer matches Some(u) ==> u.date.valid()),
            parse_commit_spec(data@, empty_builder()) == parse_commit_spec(
                data@.skip(pos as int),
                builder_view(builder),
            ),
        ensures
            msg_start <= dlen,
            dlen == data@.len(),
            builder.name.0@ == name.0@,
            builder.message is None,
            (builder.tree matches Some(t) ==> is_full_hex(t.0@)),
            (builder.parent matches Some(p) ==> is_full_hex(p.0@)),
            (builder.author matches Some(u) ==> u.date.valid()),
            (builder.committer matches Some(u) ==> u.date.valid()),
            parse_commit_spec(data@, empty_builder()) == finish_spec(
                builder_view(builder),
                data@.skip(msg_start as int),
            ),
        decreases dlen - pos,
    {
        if pos == dlen {
            proof {
                assert(data@.skip(pos as int) =~= Seq::<u8>::empty());
            }
            msg_start = dlen;
            break;
        }
        let ghost tail = data@.skip(pos as int);
        let (k, next) = match find_byte_from(data, pos, 0x0a) {
            Some(nl) => (nl, nl + 1),
            None => (dlen, dlen),
        };
        let line_bytes = crate::text::subvec(data, pos, k);
        proof {
            assert(tail.take(k - pos) =~= data@.subrange(pos as int, k as int));
            if k < dlen {
                assert(tail.skip(k + 1 - pos) =~= data@.skip(next as int));
            } else {
                assert(data@.skip(next as int) =~= Seq::<u8>::empty());
            }
        }
        let line = match crate::text::bytes_to_string(line_bytes) {
            Some(l) => l,
            None => {
                return Err(Error::InvalidCommit(String::from_str("unable to read commit line")));
            },
        };
        let trimmed = crate::text::trim(line.as_str());
        if trimmed.as_str().unicode_len() == 0 {
            msg_start = next;
            break;
        }
        let ghost bv_before = builder_view(builder);
        match classify_line_exec(line.as_str()) {
            LineKind::TreeK(h) => {
                builder.tree(h);
            },
            LineKind::ParentK(h) => {
                if builder.parent.is_none() {
                    builder.parent(h);
                }
            },
            LineKind::AuthorK(nm, ds) => {
                let d = match parse_commit_date(ds.as_str()) {
                    Ok(d) => d,
                    Err(e) => {
                        return Err(e);
                    },
                };
                builder.author(nm, d);
            },
            LineKind::CommitterK(nm, ds) => {
                let d = match parse_commit_date(ds.as_str()) {
                    Ok(d) => d,
                    Err(e) => {
                        return Err(e);
                    },
                };
                builder.committer(nm, d);
            },
            LineKind::BadK => {
                return Err(
                    Error::InvalidCommit(String::from_str("unexpected line in commit object")),
                );
            },
        }
        proof {
            assert(parse_commit_spec(tail, bv_before) == parse_commit_spec(
                data@.skip(next as int),
                builder_view(builder),
            ));
        }
        pos = next;
    }
    let msg_bytes = crate::text::subvec(data, msg_start, dlen);
    proof {
        assert(msg_bytes@ =~= data@.skip(msg_start as int));
    }
    let msg = match crate::text::bytes_to_string(msg_bytes) {
        Some(m) => m,
        None => {
            return Err(Error::InvalidCommit(String::from_str("unable to read commit message")));
        },
    };
    builder.message(crate::text::trim(msg.as_str()));
    builder.build()
}

/// Decoded tree and parent names are full 40-hex identifiers, as the
/// line grammar only admits such names.
pub proof fn lemma_parse_fields_hex(bytes: Seq<u8>, b: BuilderV)
    requires
        (b.tree matches Some(t) ==> is_full_hex(t)),
        (b.parent matches Some(p) ==> is_full_hex(p)),
    ensures
        parse_commit_spec(bytes, b) matches CommitParse::Parsed(cv) ==> is_full_hex(cv.tree) && (
        cv.parent matches Some(p) ==> is_full_hex(p)),
    decreases bytes.len(),
{
    if bytes.len() > 0 {
        let nl = crate::text::find_byte(bytes, 0x0a);
        let has_nl = 0 <= nl && nl < bytes.len();
        let k = if has_nl {
            nl
        } else {
            bytes.len() as int
        };
        let line_b = bytes.take(k);
        let rest = if has_nl {
            bytes.skip(nl + 1)
        } else {
            Seq::<u8>::empty()
        };
        if valid_utf8(line_b) {
            let line = decode_utf8(line_b);
            if trim_spec(line).len() != 0 {
                match classify_line(line) {
                    CommitLine::TreeLine(h) => {
                        lemma_parse_fields_hex(rest, BuilderV { tree: Some(h), ..b });
                    },
                    CommitLine::ParentLine(h) => {
                        lemma_parse_fields_hex(
                            rest,
                            BuilderV {
                                parent: if b.parent is Some {
                                    b.parent
                                } else {
                                    Some(h)
                                },
                                ..b
                            },
                        );
                    },
                    CommitLine::AuthorLine(nm, ds) => {
                        match date_spec(ds) {
                            Some(d) => {
                                lemma_parse_fields_hex(rest, BuilderV { author: Some((nm, d)), ..b });
                            },
                            None => {},
                        }
                    },
                    CommitLine::CommitterLine(nm, ds) => {
                        match date_spec(ds) {
                            Some(d) => {
                                lemma_parse_fields_hex(
                                    rest,
                                    BuilderV { committer: Some((nm, d)), ..b },
                                );
                            },
                            None => {},
                        }
                    },
                    CommitLine::Bad => {},
                }
            }
        }
    }
}

/// Whether any header line before the blank line is a parent line.
pub open spec fn has_parent_line(bytes: Seq<u8>) -> bool
    decreases bytes.len(),
{
    if bytes.len() == 0 {
        false
    } else {
        let nl = crate::text::find_byte(bytes, 0x0a);
        let has_nl = 0 <= nl && nl < bytes.len();
        let k = if has_nl {
            nl
        } else {
            bytes.len() as int
        };
        let line_b = bytes.take(k);
        let rest = if has_nl {
            bytes.skip(nl + 1)
        } else {
            Seq::<u8>::empty()
        };
        if !valid_utf8(line_b) {
            false
        } else {
            let line = decode_utf8(line_b);
            if trim_spec(line).len() == 0 {
                false
            } else {
                (classify_line(line) is ParentLine) || has_parent_line(rest)
            }
        }
    }
}

/// A payload without a parent line decodes to a commit whose parent is
/// absent.
pub proof fn lemma_no_parent_line_absent(bytes: Seq<u8>, b: BuilderV)
    requires
        b.parent is None,
        !has_parent_line(bytes),
    ensures
        parse_commit_spec(bytes, b) matches CommitParse::Parsed(cv) ==> cv.parent is None,
    decreases bytes.len(),
{
    if bytes.len() > 0 {
        let nl = crate::text::find_byte(bytes, 0x0a);
        let has_nl = 0 <= nl && nl < bytes.len();
        let k = if has_nl {
            nl
        } else {
            bytes.len() as int
        };
        let line_b = bytes.take(k);
        let rest = if has_nl {
            bytes.skip(nl + 1)
        } else {
            Seq::<u8>::empty()
        };
        if valid_utf8(line_b) {
            let line = decode_utf8(line_b);
            if trim_spec(line).len() != 0 {
                match classify_line(line) {
                    CommitLine::TreeLine(h) => {
                        lemma_no_parent_line_absent(rest, BuilderV { tree: Some(h), ..b });
                    },
                    CommitLine::ParentLine(h) => {},
                    CommitLine::AuthorLine(nm, ds) => {
                        match date_spec(ds) {
                            Some(d) => {
                                lemma_no_parent_line_absent(
                                    rest,
                                    BuilderV { author: Some((nm, d)), ..b },
                                );
                            },
                            None => {},
                        }
                    },
                    CommitLine::CommitterLine(nm, ds) => {
                        match date_spec(ds) {
                            Some(d) => {
                                lemma_no_parent_line_absent(
                                    rest,
                                    BuilderV { committer: Some((nm, d)), ..b },
                                );
                            },
                            None => {},
                        }
                    },
                    CommitLine::Bad => {},
                }
            }
        }
    }
}

/// A message body of a single newline yields an empty message.
pub proof fn lemma_newline_message_empty(b: BuilderV)
    ensures
        finish_spec(b, seq![0x0au8]) matches CommitParse::Parsed(cv) ==> cv.message
            == Seq::<char>::empty(),
{
    let msg = seq![0x0au8];
    crate::text::lemma_ascii_decode(msg);
    let chars = crate::text::ascii_chars_of(msg);
    assert(chars.len() == 1 && chars[0] == '\n');
    assert(crate::text::is_space_char(chars[0]));
    assert(crate::text::trim_front(chars.drop_first()) =~= Seq::<char>::empty());
    assert(crate::text::trim_front(chars) =~= Seq::<char>::empty());
    assert(trim_spec(chars) =~= Seq::<char>::empty());
}

} // verus!
