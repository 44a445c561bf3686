//! Resolving revision expressions to canonical object names: `HEAD`,
//! full and abbreviated hashes, branch names, and the `^` and `~N`
//! parent suffixes, in the order the grammar lists them.
//!
//! The resolver itself never touches the filesystem.  It is a state
//! machine: `start` classifies the expression, and each state either
//! asks its driver for one lookup (a file's contents, a directory
//! listing, or a raw object) or is finished.  `advance` consumes the
//! reply and moves to the next state.

use vstd::prelude::*;

use crate::objects::Name;
use crate::text::{all_digits, dec_value, is_full_hex, is_partial_hex, trim_spec};

verus! {

/// Every resolution failure: malformed syntax, a missing file, no
/// matching abbreviated object, an ambiguous abbreviation, or a missing
/// parent.
#[derive(Debug, PartialEq, Eq, Structural, Clone, Copy)]
pub enum Error {
    InvalidRevision,
}

impl Error {
    /// A human-readable description of the failure.
    pub fn message(&self) -> (r: String)
        ensures
            r@ == "invalid revision"@,
    {
        String::from_str("invalid revision")
    }
}

/// The index of the last `~` in `s`, or -1 when there is none.
pub open spec fn last_tilde(s: Seq<char>) -> int
    decreases s.len(),
{
    if s.len() == 0 {
        -1
    } else if s.last() == '~' {
        s.len() - 1
    } else {
        last_tilde(s.drop_last())
    }
}

pub proof fn lemma_last_tilde(s: Seq<char>)
    ensures
        last_tilde(s) >= -1,
        last_tilde(s) == -1 ==> forall|j: int| 0 <= j < s.len() ==> s[j] != '~',
        last_tilde(s) >= 0 ==> 0 <= last_tilde(s) < s.len() && s[last_tilde(s)] == '~'
            && forall|j: int| last_tilde(s) < j < s.len() ==> s[j] != '~',
    decreases s.len(),
{
    if s.len() > 0 && s.last() != '~' {
        let t = s.drop_last();
        lemma_last_tilde(t);
        if last_tilde(t) == -1 {
            assert forall|j: int| 0 <= j < s.len() implies s[j] != '~' by {
                if j < s.len() - 1 {
                    assert(s[j] == t[j]);
                }
            }
        } else {
            let k = last_tilde(t);
            assert(s[k] == t[k]);
            assert forall|j: int| k < j < s.len() implies s[j] != '~' by {
                if j < s.len() - 1 {
                    assert(s[j] == t[j]);
                }
            }
        }
    }
}

/// Does `s` match `<child>~<digits>`: a non-empty child before the last
/// `~`, and at least one character after it, all decimal digits.
pub open spec fn ancestor_match(s: Seq<char>) -> bool {
    let k = last_tilde(s);
    k >= 1 && k + 1 < s.len() && all_digits(s.skip(k + 1))
}

/// Peel `^` and `~N` suffixes from the right: the base expression and
/// the total number of parent steps.  `None` when a `~` count does not
/// fit in an unsigned 64-bit number.
pub open spec fn rev_parse(s: Seq<char>) -> Option<(Seq<char>, int)>
    decreases s.len(),
{
    if s.len() > 0 && s.last() == '^' {
        match rev_parse(s.drop_last()) {
            Some(p) => Some((p.0, p.1 + 1)),
            None => None,
        }
    } else if ancestor_match(s) {
        let k = last_tilde(s);
        let num = dec_value(s.skip(k + 1));
        if num > u64::MAX as int {
            None
        } else {
            match rev_parse(s.take(k)) {
                Some(p) => Some((p.0, p.1 + num)),
                None => None,
            }
        }
    } else {
        Some((s, 0))
    }
}

/// The number of peeled parent steps is never negative.
pub proof fn lemma_rev_parse_nonneg(s: Seq<char>)
    ensures
        rev_parse(s) matches Some(p) ==> p.1 >= 0,
    decreases s.len(),
{
    if s.len() > 0 && s.last() == '^' {
        lemma_rev_parse_nonneg(s.drop_last());
    } else if ancestor_match(s) {
        let k = last_tilde(s);
        lemma_last_tilde(s);
        crate::text::lemma_dec_value_nonneg(s.skip(k + 1));
        lemma_rev_parse_nonneg(s.take(k));
    }
}

/// The symbolic-reference form of `.git/HEAD`: `ref: ` and then the rest
/// of the first line (which must be non-empty), with only whitespace
/// after that line.
pub open spec fn symbolic_ref_of(c: Seq<char>) -> Option<Seq<char>> {
    crate::text::tail_line_of(c, "ref: "@)
}

/// The resolver's state, in model form.
pub enum PhaseV {
    /// Awaiting the contents of `.git/HEAD`.
    Head,
    /// Awaiting the contents of the reference file at `path`.
    RefFile { path: Seq<char> },
    /// Awaiting the listing of `.git/objects/<dir>`, to match `rest`.
    Objects { dir: Seq<char>, rest: Seq<char> },
    /// Awaiting the raw loose object `of`, to take its first parent.
    Parent { of: Seq<char> },
    Done { name: Seq<char> },
    Failed,
}

pub struct ResolverV {
    /// Parent steps still to walk once a name is in hand.
    pub steps: int,
    pub phase: PhaseV,
}

pub open spec fn failed_state() -> ResolverV {
    ResolverV { steps: 0, phase: PhaseV::Failed }
}

/// With a resolved name in hand: done when no parent steps remain, else
/// fetch the object to take its parent.
pub open spec fn proceed_with(steps: int, name: Seq<char>) -> ResolverV {
    if steps <= 0 {
        ResolverV { steps: 0, phase: PhaseV::Done { name } }
    } else {
        ResolverV { steps, phase: PhaseV::Parent { of: name } }
    }
}

/// Classify a revision expression: peel the parent suffixes, then take
/// the base as `HEAD`, a full hash (used verbatim, no lookup), an
/// abbreviated hash (resolved in the object store), or a branch name.
pub open spec fn start_spec(rev: Seq<char>) -> ResolverV {
    match rev_parse(rev) {
        None => failed_state(),
        Some(p) => {
            let base = p.0;
            let steps = p.1;
            if base == "HEAD"@ {
                ResolverV { steps, phase: PhaseV::Head }
            } else if is_full_hex(base) {
                proceed_with(steps, base)
            } else if is_partial_hex(base) {
                ResolverV {
                    steps,
                    phase: PhaseV::Objects { dir: base.take(2), rest: base.skip(2) },
                }
            } else {
                ResolverV {
                    steps,
                    phase: PhaseV::RefFile { path: ".git/refs/heads/"@ + base },
                }
            }
        },
    }
}

/// One step of resolution.  A reply that does not fit the awaited
/// lookup, a missing file or directory, unreadable contents, a
/// non-unique abbreviation and a missing parent all fail; `Done` and
/// `Failed` absorb every reply.
pub open spec fn advance_spec(v: ResolverV, reply: ReplyV) -> ResolverV {
    match v.phase {
        PhaseV::Head => match reply {
            ReplyV::Text(Some(c)) => match symbolic_ref_of(c) {
                Some(rf) => ResolverV {
                    steps: v.steps,
                    phase: PhaseV::RefFile { path: ".git/"@ + rf },
                },
                None => {
                    let t = trim_spec(c);
                    if is_full_hex(t) {
                        proceed_with(v.steps, t)
                    } else {
                        failed_state()
                    }
                },
            },
            _ => failed_state(),
        },
        PhaseV::RefFile { .. } => match reply {
            ReplyV::Text(Some(c)) => {
                let t = trim_spec(c);
                if is_full_hex(t) {
                    proceed_with(v.steps, t)
                } else {
                    failed_state()
                }
            },
            _ => failed_state(),
        },
        PhaseV::Objects { dir, rest } => match reply {
            ReplyV::Listing(Some(es)) => {
                let ms = es.filter(|e: Seq<char>| rest.is_prefix_of(e));
                if ms.len() == 1 {
                    let cand = dir + ms[0];
                    if is_full_hex(cand) {
                        proceed_with(v.steps, cand)
                    } else {
                        failed_state()
                    }
                } else {
                    failed_state()
                }
            },
            _ => failed_state(),
        },
        PhaseV::Parent { of } => match reply {
            ReplyV::Data(Some(d)) => match crate::objects::commit_of(d) {
                Some(cv) => match cv.parent {
                    Some(p) => proceed_with(v.steps - 1, p),
                    None => failed_state(),
                },
                None => failed_state(),
            },
            _ => failed_state(),
        },
        PhaseV::Done { .. } => v,
        PhaseV::Failed => v,
    }
}

/// A reply from the driver: the contents of a file, the names in a
/// directory, or the raw bytes of a loose object; `None` when the
/// lookup failed.
pub enum Reply {
    Text(Option<String>),
    Listing(Option<Vec<String>>),
    Data(Option<Vec<u8>>),
}

pub enum ReplyV {
    Text(Option<Seq<char>>),
    Listing(Option<Seq<Seq<char>>>),
    Data(Option<Seq<u8>>),
}

impl View for Reply {
    type V = ReplyV;

    open spec fn view(&self) -> ReplyV {
        match self {
            Reply::Text(o) => ReplyV::Text(
                match o {
                    Some(s) => Some(s@),
                    None => None,
                },
            ),
            Reply::Listing(o) => ReplyV::Listing(
                match o {
                    Some(v) => Some(v.deep_view()),
                    None => None,
                },
            ),
            Reply::Data(o) => ReplyV::Data(
                match o {
                    Some(v) => Some(v@),
                    None => None,
                },
            ),
        }
    }
}

/// What the resolver asks its driver for.
pub enum Lookup {
    File(String),
    Dir(String),
    Object(Name),
}

/// The resolver's answer after `start` or one `advance`: one more
/// lookup to perform, the resolved name, or failure.
pub enum Status {
    Need(Lookup),
    Resolved(Name),
    Invalid,
}

/// The resolver's state.
pub enum Phase {
    Head,
    RefFile { path: String },
    Objects { dir: String, rest: String },
    Parent { of: Name },
    Done { name: Name },
    Failed,
}

/// A revision resolution in progress.  The driver performs each lookup
/// the resolver asks for and feeds the reply back in.
pub struct Resolver {
    pub steps: u128,
    pub phase: Phase,
}

impl View for Resolver {
    type V = ResolverV;

    open spec fn view(&self) -> ResolverV {
        ResolverV {
            steps: self.steps as int,
            phase: match self.phase {
                Phase::Head => PhaseV::Head,
                Phase::RefFile { path } => PhaseV::RefFile { path: path@ },
                Phase::Objects { dir, rest } => PhaseV::Objects { dir: dir@, rest: rest@ },
                Phase::Parent { of } => PhaseV::Parent { of: of.0@ },
                Phase::Done { name } => PhaseV::Done { name: name.0@ },
                Phase::Failed => PhaseV::Failed,
            },
        }
    }
}

/// The status a driver sees, against the state it reports on.
pub open spec fn status_matches(v: ResolverV, st: Status) -> bool {
    match (v.phase, st) {
        (PhaseV::Head, Status::Need(Lookup::File(p))) => p@ == ".git/HEAD"@,
        (PhaseV::RefFile { path }, Status::Need(Lookup::File(p))) => p@ == path,
        (PhaseV::Objects { dir, rest }, Status::Need(Lookup::Dir(p))) => p@ == ".git/objects/"@
            + dir,
        (PhaseV::Parent { of }, Status::Need(Lookup::Object(nm))) => nm.0@ == of,
        (PhaseV::Done { name }, Status::Resolved(nm)) => nm.0@ == name,
        (PhaseV::Failed, Status::Invalid) => true,
        _ => false,
    }
}

fn failed_exec() -> (r: Resolver)
    ensures
        r@ == failed_state(),
{
    Resolver { steps: 0, phase: Phase::Failed }
}

fn proceed_exec(steps: u128, name: Name) -> (r: Resolver)
    ensures
        r@ == proceed_with(steps as int, name.0@),
{
    if steps == 0 {
        Resolver { steps: 0, phase: Phase::Done { name } }
    } else {
        Resolver { steps, phase: Phase::Parent { of: name } }
    }
}

/// Recognize the `ref: <path>` form of `.git/HEAD`.
fn parse_symbolic_ref(c: &str) -> (r: Option<String>)
    ensures
        match r {
            Some(rf) => symbolic_ref_of(c@) == Some(rf@),
            None => symbolic_ref_of(c@) is None,
        },
{
    crate::text::tail_line(c, "ref: ")
}

impl Resolver {
    /// The lookup this state awaits, the resolved name, or the outcome.
    pub fn status(&self) -> (st: Status)
        ensures
            status_matches(self@, st),
    {
        match &self.phase {
            Phase::Head => Status::Need(Lookup::File(String::from_str(".git/HEAD"))),
            Phase::RefFile { path } => Status::Need(
                Lookup::File(String::from_str(path.as_str())),
            ),
            Phase::Objects { dir, rest: _ } => {
                let mut p = String::from_str(".git/objects/");
                p.append(dir.as_str());
                Status::Need(Lookup::Dir(p))
            },
            Phase::Parent { of } => Status::Need(
                Lookup::Object(Name(String::from_str(of.0.as_str()))),
            ),
            Phase::Done { name } => Status::Resolved(Name(String::from_str(name.0.as_str()))),
            Phase::Failed => Status::Invalid,
        }
    }
}

impl Resolver {
    /// Begin resolving a revision expression.  A full 40-hex expression
    /// with no parent suffixes resolves immediately, without any lookup.
    pub fn start(rev: &str) -> (r: (Resolver, Status))
        ensures
            r.0@ == start_spec(rev@),
            status_matches(r.0@, r.1),
    {
        let n = rev.unicode_len();
        let mut m: usize = n;
        let mut steps: u128 = 0;
        let mut bad = false;
        proof {
            assert(rev@.take(n as int) =~= rev@);
        }
        loop
            invariant_except_break
                m <= n,
                n == rev@.len(),
                !bad,
                steps as int <= (n - m) * (u64::MAX as int),
                (match rev_parse(rev@.take(m as int)) {
                    Some(p) => rev_parse(rev@) == Some((p.0, p.1 + steps as int)),
                    None => rev_parse(rev@) is None,
                }),
            ensures
                m <= n,
                n == rev@.len(),
                bad ==> rev_parse(rev@) is None,
                !bad ==> rev_parse(rev@) == Some((rev@.take(m as int), steps as int)),
            decreases m,
        {
            let ghost cur = rev@.take(m as int);
            if m == 0 {
                proof {
                    if !bad {
                        lemma_last_tilde(cur);
                    }
                }
                break;
            }
            let last = rev.get_char(m - 1);
            if last == '^' {
                proof {
                    assert(cur.last() == rev@[m - 1]);
                    assert(cur.drop_last() =~= rev@.take(m - 1));
                    assert(steps as int + 1 <= (n - (m - 1)) * (u64::MAX as int)) by (nonlinear_arith)
                        requires
                            steps as int <= (n - m) * (u64::MAX as int),
                            m >= 1,
                            n >= m,
                    ;
                }
                steps = steps + 1;
                m = m - 1;
                continue;
            }
            // Find the last `~` in the base.
            let mut lt: usize = 0;
            let mut found = false;
            let mut j: usize = 0;
            while j < m
                invariant
                    j <= m <= n,
                    n == rev@.len(),
                    found ==> lt < j && rev@[lt as int] == '~' && (forall|i: int|
                        lt < i < j ==> rev@[i] != '~'),
                    !found ==> forall|i: int| 0 <= i < j ==> rev@[i] != '~',
                decreases m - j,
            {
                if rev.get_char(j) == '~' {
                    lt = j;
                    found = true;
                }
                j = j + 1;
            }
            proof {
                lemma_last_tilde(cur);
                let k = last_tilde(cur);
                if found {
                    assert(cur[lt as int] == rev@[lt as int]);
                    assert forall|i: int| lt < i < m implies cur[i] != '~' by {
                        assert(cur[i] == rev@[i]);
                    }
                    if k > lt {
                        assert(cur[k] == '~');
                    }
                    if k < lt {
                        assert(cur[lt as int] != '~');
                    }
                    assert(k == lt);
                } else {
                    assert forall|i: int| 0 <= i < m implies cur[i] != '~' by {
                        assert(cur[i] == rev@[i]);
                    }
                    if k >= 0 {
                        assert(cur[k] != '~');
                    }
                    assert(k == -1);
                }
            }
            if !found || lt == 0 || lt + 1 >= m {
                break;
            }
            let digits = rev.substring_char(lt + 1, m);
            proof {
                assert(digits@ =~= cur.skip(lt + 1));
            }
            if !crate::text::check_all_digits(digits) {
                break;
            }
            match crate::text::parse_u64_digits(digits) {
                Some(v) => {
                    proof {
                        assert(ancestor_match(cur));
                        assert(cur.take(lt as int) =~= rev@.take(lt as int));
                        assert(steps as int + v as int <= (n - lt) * (u64::MAX as int))
                            by (nonlinear_arith)
                            requires
                                steps as int <= (n - m) * (u64::MAX as int),
                                v as int <= u64::MAX as int,
                                0 <= lt,
                                lt + 1 < m,
                                n >= m,
                        ;
                        assert((n - lt) * (u64::MAX as int) <= (u64::MAX as int) * (u64::MAX
                            as int)) by (nonlinear_arith)
                            requires
                                0 <= n - lt <= u64::MAX as int,
                        ;
                    }
                    steps = steps + (v as u128);
                    m = lt;
                },
                None => {
                    proof {
                        assert(ancestor_match(cur));
                        crate::text::lemma_dec_value_nonneg(cur.skip(lt + 1));
                    }
                    bad = true;
                    break;
                },
            }
        }
        if bad {
            let r = failed_exec();
            let st = r.status();
            return (r, st);
        }
        proof {
            assert(rev@.take(n as int) =~= rev@);
        }
        let base = rev.substring_char(0, m);
        proof {
            assert(base@ =~= rev@.take(m as int));
        }
        let resolver: Resolver;
        if crate::text::str_eq(base, "HEAD") {
            resolver = Resolver { steps, phase: Phase::Head };
        } else if m == 40 && crate::text::check_all_hex(base) {
            resolver = proceed_exec(steps, Name(base.to_owned()));
        } else if m >= 4 && m <= 39 && crate::text::check_all_hex(base) {
            let dir = base.substring_char(0, 2).to_owned();
            let rest = base.substring_char(2, m).to_owned();
            proof {
                assert(dir@ =~= base@.take(2));
                assert(rest@ =~= base@.skip(2));
            }
            resolver = Resolver { steps, phase: Phase::Objects { dir, rest } };
        } else {
            let mut path = String::from_str(".git/refs/heads/");
            path.append(base);
            resolver = Resolver { steps, phase: Phase::RefFile { path } };
        }
        let st = resolver.status();
        (resolver, st)
    }
}

impl Resolver {
    /// Consume the reply to the awaited lookup and move one step.
    pub fn advance(self, reply: Reply) -> (r: (Resolver, Status))
        ensures
            r.0@ == advance_spec(self@, reply@),
            status_matches(r.0@, r.1),
    {
        let Resolver { steps, phase } = self;
        let next: Resolver = match (phase, reply) {
            (Phase::Head, Reply::Text(Some(c))) => {
                match parse_symbolic_ref(c.as_str()) {
                    Some(rf) => {
                        let mut path = String::from_str(".git/");
                        path.append(rf.as_str());
                        Resolver { steps, phase: Phase::RefFile { path } }
                    },
                    None => {
                        let t = crate::text::trim(c.as_str());
                        if t.as_str().unicode_len() == 40 && crate::text::check_all_hex(
                            t.as_str(),
                        ) {
                            proceed_exec(steps, Name(t))
                        } else {
                            failed_exec()
                        }
                    },
                }
            },
            (Phase::Head, _) => failed_exec(),
            (Phase::RefFile { .. }, Reply::Text(Some(c))) => {
                let t = crate::text::trim(c.as_str());
                if t.as_str().unicode_len() == 40 && crate::text::check_all_hex(t.as_str()) {
                    proceed_exec(steps, Name(t))
                } else {
                    failed_exec()
                }
            },
            (Phase::RefFile { .. }, _) => failed_exec(),
            (Phase::Objects { dir, rest }, Reply::Listing(Some(es))) => {
                let ghost esv = es.deep_view();
                let ghost pred = |e: Seq<char>| rest@.is_prefix_of(e);
                let elen = es.len();
                let mut count: usize = 0;
                let mut first_idx: usize = 0;
                for j in 0..elen
                    invariant
                        elen == es@.len(),
                        esv == es.deep_view(),
                        pred == (|e: Seq<char>| rest@.is_prefix_of(e)),
                        count as int == esv.take(j as int).filter(pred).len(),
                        count > 0 ==> first_idx < j && esv.take(j as int).filter(pred)[0]
                            == esv[first_idx as int],
                {
                    let ghost prefix = esv.take(j as int);
                    let is_match = crate::text::starts_with(es[j].as_str(), rest.as_str());
                    proof {
                        reveal(Seq::filter);
                        assert(esv[j as int] == es@[j as int]@);
                        assert(esv.take(j + 1).drop_last() =~= prefix);
                        assert(esv.take(j + 1).last() == esv[j as int]);
                        assert(pred(esv[j as int]) == is_match);
                        if is_match {
                            assert(esv.take(j + 1).filter(pred) == prefix.filter(pred).push(
                                esv[j as int],
                            ));
                        } else {
                            assert(esv.take(j + 1).filter(pred) == prefix.filter(pred));
                        }
                    }
                    if is_match {
                        if count == 0 {
                            first_idx = j;
                        }
                        count = count + 1;
                    }
                }
                proof {
                    assert(esv.take(elen as int) =~= esv);
                }
                if count == 1 {
                    let mut cand = String::from_str(dir.as_str());
                    cand.append(es[first_idx].as_str());
                    if cand.as_str().unicode_len() == 40 && crate::text::check_all_hex(
                        cand.as_str(),
                    ) {
                        proceed_exec(steps, Name(cand))
                    } else {
                        failed_exec()
                    }
                } else {
                    failed_exec()
                }
            },
            (Phase::Objects { .. }, _) => failed_exec(),
            (Phase::Parent { of }, Reply::Data(Some(d))) => {
                match crate::objects::read_object(&of, &d) {
                    Ok(obj) => match obj {
                        crate::objects::Object::Commit(c) => match c.parent {
                            Some(p) => {
                                let ns: u128 = if steps > 0 {
                                    steps - 1
                                } else {
                                    0
                                };
                                proceed_exec(ns, p)
                            },
                            None => failed_exec(),
                        },
                        _ => {
                            proof {
                                assert(false);
                            }
                            failed_exec()
                        },
                    },
                    Err(_) => failed_exec(),
                }
            },
            (Phase::Parent { .. }, _) => failed_exec(),
            (Phase::Done { name }, _) => Resolver { steps, phase: Phase::Done { name } },
            (Phase::Failed, _) => Resolver { steps, phase: Phase::Failed },
        };
        let st = next.status();
        (next, st)
    }
}

/// A revision that is already a full 40-hex name resolves to itself at
/// once, without touching the filesystem: no lookup is requested.
pub proof fn lemma_full_hex_resolves_immediately(s: Seq<char>)
    requires
        is_full_hex(s),
    ensures
        start_spec(s) == (ResolverV { steps: 0, phase: PhaseV::Done { name: s } }),
{
    lemma_last_tilde(s);
    if last_tilde(s) >= 0 {
        assert(crate::text::is_hex_char(s[last_tilde(s)]));
    }
    assert(crate::text::is_hex_char(s[39]));
    assert(s.last() != '^');
    assert(rev_parse(s) == Some((s, 0int)));
    reveal_strlit("HEAD");
    assert(s != "HEAD"@);
}

/// Every name the resolver finishes with is a full 40-hex identifier.
pub open spec fn done_name_hex(v: ResolverV) -> bool {
    v.phase matches PhaseV::Done { name } ==> is_full_hex(name)
}

pub proof fn lemma_start_done_hex(rev: Seq<char>)
    ensures
        done_name_hex(start_spec(rev)),
{
}

pub proof fn lemma_advance_done_hex(v: ResolverV, reply: ReplyV)
    requires
        done_name_hex(v),
    ensures
        done_name_hex(advance_spec(v, reply)),
{
    match v.phase {
        PhaseV::Parent { of } => match reply {
            ReplyV::Data(Some(d)) => {
                crate::objects::lemma_commit_of_fields_hex(d);
            },
            _ => {},
        },
        _ => {},
    }
}

/// Feeding a resolved name back into the resolver yields the same name:
/// with `lemma_start_done_hex` and `lemma_advance_done_hex`, any name a
/// resolution finishes with is full hex, and by
/// `lemma_full_hex_resolves_immediately` it then resolves to itself with
/// no lookups at all.
pub proof fn lemma_resolution_idempotent(v: ResolverV)
    requires
        done_name_hex(v),
        v.phase matches PhaseV::Done { name },
    ensures
        (v.phase matches PhaseV::Done { name } ==> start_spec(name) == (ResolverV {
            steps: 0,
            phase: PhaseV::Done { name },
        })),
{
    match v.phase {
        PhaseV::Done { name } => {
            lemma_full_hex_resolves_immediately(name);
        },
        _ => {},
    }
}

/// Appending `^` to a revision peels exactly one more parent step.
pub proof fn lemma_caret_adds_step(s: Seq<char>)
    ensures
        rev_parse(s.push('^')) == (match rev_parse(s) {
            Some(p) => Some((p.0, p.1 + 1)),
            None => None::<(Seq<char>, int)>,
        }),
{
    let w = s.push('^');
    assert(w.drop_last() =~= s);
    assert(w.last() == '^');
}

/// Appending `~` and a digit string `d` peels `dec_value(d)` more parent
/// steps (provided the count is in range).
pub proof fn lemma_tilde_adds_steps(s: Seq<char>, d: Seq<char>)
    requires
        s.len() >= 1,
        d.len() >= 1,
        all_digits(d),
        dec_value(d) <= u64::MAX as int,
    ensures
        rev_parse(s + seq!['~'] + d) == (match rev_parse(s) {
            Some(p) => Some((p.0, p.1 + dec_value(d))),
            None => None::<(Seq<char>, int)>,
        }),
{
    let w = s + seq!['~'] + d;
    let k = s.len() as int;
    assert(w.len() == s.len() + 1 + d.len());
    assert(w[k] == '~');
    assert(w.last() == d.last());
    assert(crate::text::is_digit_char(d.last()));
    assert(w.last() != '^');
    lemma_last_tilde(w);
    let lt = last_tilde(w);
    assert(lt != -1);
    if lt > k {
        assert(w[lt] == d[lt - k - 1]);
        assert(crate::text::is_digit_char(w[lt]));
    }
    if 0 <= lt < k {
        assert(w[k] != '~');
    }
    assert(lt == k);
    assert(w.skip(k + 1) =~= d);
    assert(ancestor_match(w));
    assert(w.take(k) =~= s);
}

/// An abbreviation of four hex characters is looked up in the object
/// store; three hex characters are not treated as an abbreviation and
/// fall through to a branch lookup.
pub proof fn lemma_abbreviation_length(s: Seq<char>)
    requires
        crate::text::all_hex(s),
        s.len() == 3 || s.len() == 4,
    ensures
        s.len() == 4 ==> (start_spec(s).phase matches PhaseV::Objects { .. }),
        s.len() == 3 ==> (start_spec(s).phase matches PhaseV::RefFile { .. }),
{
    lemma_last_tilde(s);
    if last_tilde(s) >= 0 {
        assert(crate::text::is_hex_char(s[last_tilde(s)]));
    }
    assert(crate::text::is_hex_char(s[s.len() - 1]));
    assert(s.last() != '^');
    assert(rev_parse(s) == Some((s, 0int)));
    reveal_strlit("HEAD");
    if s == "HEAD"@ {
        assert(crate::text::is_hex_char(s[0]));
    }
}

/// The resolver run as a whole: fold one `advance` per reply.
pub open spec fn run_spec(v: ResolverV, rs: Seq<ReplyV>) -> ResolverV
    decreases rs.len(),
{
    if rs.len() == 0 {
        v
    } else {
        run_spec(advance_spec(v, rs[0]), rs.drop_first())
    }
}

/// Step counts stay sensible: never negative, and at least one while an
/// object is being fetched for a parent walk.
pub open spec fn steps_wf(v: ResolverV) -> bool {
    v.steps >= 0 && (v.phase matches PhaseV::Parent { .. } ==> v.steps >= 1)
}

pub proof fn lemma_start_steps_wf(rev: Seq<char>)
    ensures
        steps_wf(start_spec(rev)),
{
    lemma_rev_parse_nonneg(rev);
}

pub proof fn lemma_advance_steps_wf(v: ResolverV, r: ReplyV)
    requires
        steps_wf(v),
    ensures
        steps_wf(advance_spec(v, r)),
{
}

/// `w` is `v` with `k` more parent steps still to walk: the same state
/// while in progress, and when `v` is done, `w` still has `k` hops to
/// make from the resolved name.
pub open spec fn more_steps(v: ResolverV, w: ResolverV, k: int) -> bool {
    match v.phase {
        PhaseV::Done { name } => w == proceed_with(k, name),
        PhaseV::Failed => w == failed_state(),
        _ => w.phase == v.phase && w.steps == v.steps + k,
    }
}

/// Appending `^` starts the resolver with one more parent step.
pub proof fn lemma_start_caret(s: Seq<char>)
    ensures
        more_steps(start_spec(s), start_spec(s.push('^')), 1),
{
    lemma_caret_adds_step(s);
    lemma_rev_parse_nonneg(s);
}

/// Appending `~` and digits `d` starts the resolver with `dec_value(d)`
/// more parent steps.
pub proof fn lemma_start_tilde(s: Seq<char>, d: Seq<char>)
    requires
        s.len() >= 1,
        d.len() >= 1,
        all_digits(d),
        dec_value(d) <= u64::MAX as int,
    ensures
        more_steps(start_spec(s), start_spec(s + seq!['~'] + d), dec_value(d)),
{
    lemma_tilde_adds_steps(s, d);
    lemma_rev_parse_nonneg(s);
    crate::text::lemma_dec_value_nonneg(d);
}

/// One reply preserves the `k`-more-steps relation, while the plain
/// resolver has not finished.
pub proof fn lemma_advance_more_steps(v: ResolverV, w: ResolverV, k: int, r: ReplyV)
    requires
        more_steps(v, w, k),
        steps_wf(v),
        k >= 0,
        !(v.phase matches PhaseV::Done { .. }),
    ensures
        more_steps(advance_spec(v, r), advance_spec(w, r), k),
{
}

/// A whole run preserves the `k`-more-steps relation, provided the
/// plain resolver does not finish before its replies run out (a driver
/// stops asking once it is done).
pub proof fn lemma_run_more_steps(v: ResolverV, w: ResolverV, k: int, rs: Seq<ReplyV>)
    requires
        more_steps(v, w, k),
        steps_wf(v),
        k >= 0,
        forall|j: int|
            0 <= j < rs.len() ==> !((#[trigger] run_spec(v, rs.take(j))).phase
                matches PhaseV::Done { .. }),
    ensures
        more_steps(run_spec(v, rs), run_spec(w, rs), k),
        steps_wf(run_spec(v, rs)),
    decreases rs.len(),
{
    if rs.len() > 0 {
        assert(run_spec(v, rs.take(0)) == v) by {
            assert(rs.take(0).len() == 0);
        }
        let v1 = advance_spec(v, rs[0]);
        let w1 = advance_spec(w, rs[0]);
        lemma_advance_more_steps(v, w, k, rs[0]);
        lemma_advance_steps_wf(v, rs[0]);
        let rest = rs.drop_first();
        assert forall|j: int| 0 <= j < rest.len() implies !((#[trigger] run_spec(
            v1,
            rest.take(j),
        )).phase matches PhaseV::Done { .. }) by {
            assert(rs.take(j + 1)[0] == rs[0]);
            assert(rs.take(j + 1).drop_first() =~= rest.take(j));
            assert(run_spec(v, rs.take(j + 1)) == run_spec(v1, rest.take(j)));
        }
        lemma_run_more_steps(v1, w1, k, rest);
    }
}

/// The parent walk itself: while steps remain, a reply carrying a
/// commit with a parent moves one hop down the first-parent chain, and
/// the final hop resolves to that parent.
pub proof fn lemma_parent_walk_step(steps: int, n: Seq<char>, d: Seq<u8>)
    requires
        steps >= 1,
    ensures
        match crate::objects::commit_of(d) {
            Some(cv) => match cv.parent {
                Some(p) => advance_spec(proceed_with(steps, n), ReplyV::Data(Some(d)))
                    == proceed_with(steps - 1, p),
                None => advance_spec(proceed_with(steps, n), ReplyV::Data(Some(d)))
                    == failed_state(),
            },
            None => advance_spec(proceed_with(steps, n), ReplyV::Data(Some(d))) == failed_state(),
        },
{
    let v = proceed_with(steps, n);
    assert(v.phase == (PhaseV::Parent { of: n }));
    assert(v.steps == steps);
}

/// Resolving `s^` is resolving `s` and then taking the first parent of
/// the commit it names: when a run of replies takes `s` to `n`, the
/// same replies leave `s^` fetching the object `n`, and a commit reply
/// with a parent finishes at that parent.
pub proof fn lemma_caret_resolves_parent(s: Seq<char>, rs: Seq<ReplyV>, n: Seq<char>, d: Seq<u8>)
    requires
        run_spec(start_spec(s), rs) == (ResolverV { steps: 0, phase: PhaseV::Done { name: n } }),
        forall|j: int|
            0 <= j < rs.len() ==> !((#[trigger] run_spec(start_spec(s), rs.take(j))).phase
                matches PhaseV::Done { .. }),
    ensures
        run_spec(start_spec(s.push('^')), rs) == proceed_with(1, n),
        match crate::objects::commit_of(d) {
            Some(cv) => match cv.parent {
                Some(p) => advance_spec(
                    run_spec(start_spec(s.push('^')), rs),
                    ReplyV::Data(Some(d)),
                ) == (ResolverV { steps: 0, phase: PhaseV::Done { name: p } }),
                None => true,
            },
            None => true,
        },
{
    lemma_start_caret(s);
    lemma_start_steps_wf(s);
    lemma_run_more_steps(start_spec(s), start_spec(s.push('^')), 1, rs);
    lemma_parent_walk_step(1, n, d);
}

/// Resolving `s~N` is resolving `s` and then walking `N` first
/// parents: the same replies leave `s~N` with `N` hops pending from the
/// name `s` resolves to.
pub proof fn lemma_tilde_resolves_ancestor(s: Seq<char>, d: Seq<char>, rs: Seq<ReplyV>, n: Seq<
    char,
>)
    requires
        s.len() >= 1,
        d.len() >= 1,
        all_digits(d),
        dec_value(d) <= u64::MAX as int,
        run_spec(start_spec(s), rs) == (ResolverV { steps: 0, phase: PhaseV::Done { name: n } }),
        forall|j: int|
            0 <= j < rs.len() ==> !((#[trigger] run_spec(start_spec(s), rs.take(j))).phase
                matches PhaseV::Done { .. }),
    ensures
        run_spec(start_spec(s + seq!['~'] + d), rs) == proceed_with(dec_value(d), n),
{
    lemma_start_tilde(s, d);
    lemma_start_steps_wf(s);
    crate::text::lemma_dec_value_nonneg(d);
    lemma_run_more_steps(start_spec(s), start_spec(s + seq!['~'] + d), dec_value(d), rs);
}

} // verus!
