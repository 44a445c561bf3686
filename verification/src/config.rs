//! A model of the configuration files: a character-level parser for the
//! section / key / value syntax, accumulated into a map from dotted
//! names to values.  The map is kept as a list of pairs sorted by key,
//! so listing it is already in stable order.

use vstd::prelude::*;

use crate::text::{lex_lt, push_char, str_eq, str_lt, trim};

verus! {

#[derive(Debug)]
pub enum Error {
    IOError(String),
    InvalidFile(String),
}

impl Error {
    /// A human-readable description of the failure.
    pub fn message(&self) -> (r: String)
        ensures
            r@ == match self {
                Error::IOError(d) => d@,
                Error::InvalidFile(d) => d@,
            },
    {
        match self {
            Error::IOError(d) => d.clone(),
            Error::InvalidFile(d) => d.clone(),
        }
    }
}

/// Keys strictly increase from one pair to the next, so they are
/// unique and the list is sorted.
pub open spec fn sorted_keys(m: Seq<(String, String)>) -> bool {
    forall|i: int| 0 <= i < m.len() - 1 ==> lex_lt(#[trigger] m[i].0@, m[i + 1].0@)
}

/// The value stored under a key, scanning from the front.
pub open spec fn spec_get(m: Seq<(String, String)>, k: Seq<char>) -> Option<Seq<char>>
    decreases m.len(),
{
    if m.len() == 0 {
        None
    } else if m[0].0@ == k {
        Some(m[0].1@)
    } else {
        spec_get(m.drop_first(), k)
    }
}

proof fn lemma_spec_get_skip(m: Seq<(String, String)>, k: Seq<char>, p: int)
    requires
        0 <= p <= m.len(),
        forall|i: int| 0 <= i < p ==> (#[trigger] m[i]).0@ != k,
    ensures
        spec_get(m, k) == spec_get(m.skip(p), k),
    decreases p,
{
    if p > 0 {
        assert(m[0].0@ != k);
        lemma_spec_get_skip(m.drop_first(), k, p - 1);
        assert(m.drop_first().skip(p - 1) =~= m.skip(p));
        assert forall|i: int| 0 <= i < p - 1 implies (#[trigger] m.drop_first()[i]).0@ != k by {
            assert(m.drop_first()[i] == m[i + 1]);
        }
    } else {
        assert(m.skip(0) =~= m);
    }
}

proof fn lemma_spec_get_at(m: Seq<(String, String)>, k: Seq<char>, p: int)
    requires
        0 <= p < m.len(),
        m[p].0@ == k,
        forall|i: int| 0 <= i < p ==> (#[trigger] m[i]).0@ != k,
    ensures
        spec_get(m, k) == Some(m[p].1@),
{
    lemma_spec_get_skip(m, k, p);
    assert(m.skip(p)[0] == m[p]);
}

proof fn lemma_spec_get_insert(m: Seq<(String, String)>, p: int, pair: (String, String), k2: Seq<
    char,
>)
    requires
        0 <= p <= m.len(),
        pair.0@ != k2,
    ensures
        spec_get(m.insert(p, pair), k2) == spec_get(m, k2),
    decreases p,
{
    let w = m.insert(p, pair);
    if p == 0 {
        assert(w[0] == pair);
        assert(w.drop_first() =~= m);
    } else {
        assert(w[0] == m[0]);
        lemma_spec_get_insert(m.drop_first(), p - 1, pair, k2);
        assert(w.drop_first() =~= m.drop_first().insert(p - 1, pair));
    }
}

proof fn lemma_spec_get_update(m: Seq<(String, String)>, p: int, pair: (String, String), k2: Seq<
    char,
>)
    requires
        0 <= p < m.len(),
        m[p].0@ == pair.0@,
        pair.0@ != k2,
    ensures
        spec_get(m.update(p, pair), k2) == spec_get(m, k2),
    decreases p,
{
    let w = m.update(p, pair);
    if p == 0 {
        assert(w[0] == pair);
        assert(w.drop_first() =~= m.drop_first());
    } else {
        assert(w[0] == m[0]);
        lemma_spec_get_update(m.drop_first(), p - 1, pair, k2);
        assert(w.drop_first() =~= m.drop_first().update(p - 1, pair));
    }
}

/// The configuration for a process: a map-like structure indexed by
/// dotted names, kept sorted by key.
#[derive(Debug)]
pub struct Config {
    pub map: Vec<(String, String)>,
}

impl Config {
    pub fn new() -> (r: Config)
        ensures
            r.map@.len() == 0,
            sorted_keys(r.map@),
    {
        Config { map: Vec::new() }
    }

    /// Set `k` to `v`, replacing any earlier value under the same key
    /// and keeping the map sorted.
    fn insert(&mut self, k: String, v: String)
        requires
            sorted_keys(old(self).map@),
        ensures
            sorted_keys(final(self).map@),
            spec_get(final(self).map@, k@) == Some(v@),
            forall|k2: Seq<char>|
                k2 != k@ ==> spec_get(final(self).map@, k2) == spec_get(old(self).map@, k2),
    {
        let ghost m = self.map@;
        let len = self.map.len();
        let mut p: usize = 0;
        while p < len && str_lt(self.map[p].0.as_str(), k.as_str())
            invariant
                m == self.map@,
                len == m.len(),
                p <= len,
                forall|i: int| 0 <= i < p ==> lex_lt((#[trigger] m[i]).0@, k@),
            decreases len - p,
        {
            p = p + 1;
        }
        proof {
            assert forall|i: int| 0 <= i < p implies (#[trigger] m[i]).0@ != k@ by {
                crate::text::lemma_lex_lt_irrefl(k@);
                if m[i].0@ == k@ {
                    assert(lex_lt(k@, k@));
                }
            }
        }
        if p < len && str_eq(self.map[p].0.as_str(), k.as_str()) {
            let ghost pair = (k, v);
            self.map.remove(p);
            self.map.insert(p, (k, v));
            proof {
                assert(self.map@ =~= m.update(p as int, pair));
                let w = self.map@;
                assert forall|i: int| 0 <= i < w.len() - 1 implies lex_lt(
                    (#[trigger] w[i]).0@,
                    w[i + 1].0@,
                ) by {
                    assert(w[i].0@ == m[i].0@);
                    assert(w[i + 1].0@ == m[i + 1].0@);
                }
                lemma_spec_get_at(w, k@, p as int);
                assert forall|k2: Seq<char>| k2 != k@ implies spec_get(w, k2) == spec_get(
                    m,
                    k2,
                ) by {
                    lemma_spec_get_update(m, p as int, pair, k2);
                }
            }
        } else {
            let ghost pair = (k, v);
            proof {
                if p < len {
                    crate::text::lemma_lex_lt_total(m[p as int].0@, k@);
                }
            }
            self.map.insert(p, (k, v));
            proof {
                let w = self.map@;
                assert(w =~= m.insert(p as int, pair));
                assert forall|i: int| 0 <= i < w.len() - 1 implies lex_lt(
                    (#[trigger] w[i]).0@,
                    w[i + 1].0@,
                ) by {
                    if i < p - 1 || (i < p && p < w.len() - 1 && i + 1 < p) {
                        assert(w[i] == m[i]);
                        assert(w[i + 1] == m[i + 1]);
                    }
                    if i + 1 < p {
                        assert(w[i] == m[i]);
                        assert(w[i + 1] == m[i + 1]);
                    }
                    if i + 1 == p {
                        assert(w[i] == m[i]);
                        assert(w[i + 1] == pair);
                    }
                    if i == p {
                        assert(w[i] == pair);
                        assert(w[i + 1] == m[i]);
                    }
                    if i > p {
                        assert(w[i] == m[i - 1]);
                        assert(w[i + 1] == m[i]);
                    }
                }
                lemma_spec_get_at(w, k@, p as int);
                assert forall|k2: Seq<char>| k2 != k@ implies spec_get(w, k2) == spec_get(
                    m,
                    k2,
                ) by {
                    lemma_spec_get_insert(m, p as int, pair, k2);
                }
            }
        }
    }

    /// Every configured name and value, sorted by name.
    pub fn all(&self) -> (r: Vec<(String, String)>)
        requires
            sorted_keys(self.map@),
        ensures
            r@.len() == self.map@.len(),
            forall|i: int|
                0 <= i < r@.len() ==> (#[trigger] r@[i]).0@ == self.map@[i].0@ && r@[i].1@
                    == self.map@[i].1@,
            sorted_keys(r@),
    {
        let mut out: Vec<(String, String)> = Vec::new();
        let len = self.map.len();
        for i in 0..len
            invariant
                len == self.map@.len(),
                out@.len() == i,
                forall|j: int|
                    0 <= j < i ==> (#[trigger] out@[j]).0@ == self.map@[j].0@ && out@[j].1@
                        == self.map@[j].1@,
        {
            let k = String::from_str(self.map[i].0.as_str());
            let v = String::from_str(self.map[i].1.as_str());
            out.push((k, v));
        }
        proof {
            assert forall|i: int| 0 <= i < out@.len() - 1 implies lex_lt(
                (#[trigger] out@[i]).0@,
                out@[i + 1].0@,
            ) by {
                assert(lex_lt(self.map@[i].0@, self.map@[i + 1].0@));
            }
        }
        out
    }
}

/// The dotted name of a key under the open sections: each section name
/// followed by a dot, then the key.
pub open spec fn dotted(sections: Seq<String>, key: Seq<char>) -> Seq<char>
    decreases sections.len(),
{
    if sections.len() == 0 {
        key
    } else {
        sections[0]@ + seq!['.'] + dotted(sections.drop_first(), key)
    }
}

/// A character-level parser for the configuration syntax.  It walks the
/// input once, collecting `section.key = value` pairs into a sorted map;
/// malformed text is skipped rather than rejected.
pub struct Parser {
    pub chars: Vec<char>,
    pub pos: usize,
    pub current_section_names: Vec<String>,
    pub map: Config,
}

impl Parser {
    /// Well-formed: the cursor is inside the input and the map is
    /// sorted.
    pub open spec fn wf(self) -> bool {
        self.pos <= self.chars@.len() && sorted_keys(self.map.map@)
    }

    pub fn new(contents: &str) -> (r: Parser)
        ensures
            r.wf(),
            r.chars@ == contents@,
            r.pos == 0,
    {
        let n = contents.unicode_len();
        let mut chars: Vec<char> = Vec::new();
        for i in 0..n
            invariant
                n == contents@.len(),
                chars@ == contents@.take(i as int),
        {
            chars.push(contents.get_char(i));
            proof {
                assert(contents@.take(i + 1) =~= contents@.take(i as int).push(
                    contents@[i as int],
                ));
            }
        }
        proof {
            assert(contents@.take(n as int) =~= contents@);
        }
        Parser { chars, pos: 0, current_section_names: Vec::new(), map: Config::new() }
    }

    /// The dotted name of `key_name` under the open sections.
    pub fn variable_name_for_current_section(&self, key_name: &String) -> (r: String)
        ensures
            r@ == dotted(self.current_section_names@, key_name@),
    {
        let ghost secs = self.current_section_names@;
        let mut name = String::new();
        let slen = self.current_section_names.len();
        proof {
            assert(secs.skip(0) =~= secs);
            assert(name@ + dotted(secs, key_name@) =~= dotted(secs, key_name@));
        }
        for i in 0..slen
            invariant
                slen == secs.len(),
                secs == self.current_section_names@,
                dotted(secs, key_name@) == name@ + dotted(secs.skip(i as int), key_name@),
        {
            name.append(self.current_section_names[i].as_str());
            name.append(".");
            proof {
                reveal_strlit(".");
                let tail = secs.skip(i as int);
                assert(tail[0] == secs[i as int]);
                assert(tail.drop_first() =~= secs.skip(i + 1));
                assert("."@ =~= seq!['.']);
                assert(dotted(tail, key_name@) == tail[0]@ + seq!['.'] + dotted(
                    secs.skip(i + 1),
                    key_name@,
                ));
                assert((dotted(secs, key_name@)) =~= name@ + dotted(secs.skip(i + 1), key_name@));
            }
        }
        proof {
            assert(secs.skip(slen as int) =~= Seq::<String>::empty());
        }
        name.append(key_name.as_str());
        proof {
            assert(name@ =~= dotted(secs, key_name@));
        }
        name
    }

    /// Skip the rest of a comment line, through its newline or to the
    /// end of the input.
    pub fn parse_comment(&mut self) -> (r: Result<(), Error>)
        requires
            old(self).wf(),
        ensures
            final(self).wf(),
            r is Ok,
            final(self).pos >= old(self).pos,
            old(self).pos < old(self).chars@.len() ==> final(self).pos > old(self).pos,
            final(self).chars == old(self).chars,
            final(self).current_section_names == old(self).current_section_names,
            final(self).map == old(self).map,
    {
        let n = self.chars.len();
        let ghost entry = self.pos;
        loop
            invariant_except_break
                self.wf(),
                n == self.chars@.len(),
                entry <= self.pos,
                self.chars == old(self).chars,
                self.current_section_names == old(self).current_section_names,
                self.map == old(self).map,
            ensures
                self.wf(),
                entry <= self.pos,
                entry < n ==> entry < self.pos,
                self.chars == old(self).chars,
                self.current_section_names == old(self).current_section_names,
                self.map == old(self).map,
            decreases n - self.pos,
        {
            if self.pos >= n {
                break;
            }
            let c = self.chars[self.pos];
            self.pos = self.pos + 1;
            if c == '\n' {
                break;
            }
        }
        Ok(())
    }

    /// Read the value after an `=`, through the end of the line, a
    /// comment, a new section or the end of the input, and record the
    /// trimmed value under the dotted key.
    pub fn parse_key_value_pair(&mut self, key_name: String) -> (r: Result<(), Error>)
        requires
            old(self).wf(),
        ensures
            final(self).wf(),
            r is Ok,
            final(self).pos >= old(self).pos,
            final(self).chars == old(self).chars,
    {
        let n = self.chars.len();
        let ghost entry = self.pos;
        let mut value = String::new();
        loop
            invariant_except_break
                self.wf(),
                n == self.chars@.len(),
                entry <= self.pos,
                self.chars == old(self).chars,
            ensures
                self.wf(),
                entry <= self.pos,
                self.chars == old(self).chars,
            decreases n - self.pos,
        {
            if self.pos >= n {
                break;
            }
            let c = self.chars[self.pos];
            if c == '#' {
                let r = self.parse_comment();
                match r {
                    Ok(()) => {},
                    Err(e) => {
                        return Err(e);
                    },
                }
                break;
            }
            if c == '\n' {
                self.pos = self.pos + 1;
                break;
            }
            if c == '[' {
                break;
            }
            push_char(&mut value, c);
            self.pos = self.pos + 1;
        }
        let full_key_name = self.variable_name_for_current_section(&key_name);
        let trimmed = trim(value.as_str());
        self.map.insert(full_key_name, trimmed);
        Ok(())
    }

    /// Read one variable: a key, optionally `= value`; a bare key is
    /// recorded as `true`.
    pub fn parse_single_variable(&mut self) -> (r: Result<(), Error>)
        requires
            old(self).wf(),
            old(self).pos < old(self).chars@.len(),
            old(self).chars@[old(self).pos as int] != '[',
        ensures
            final(self).wf(),
            r is Ok,
            final(self).pos > old(self).pos,
            final(self).chars == old(self).chars,
    {
        let n = self.chars.len();
        let ghost entry = self.pos;
        let mut key_name = String::new();
        loop
            invariant_except_break
                self.wf(),
                n == self.chars@.len(),
                entry <= self.pos,
                self.pos == entry ==> self.pos < n && self.chars@[self.pos as int] != '[',
                self.chars == old(self).chars,
            ensures
                self.wf(),
                entry < self.pos,
                self.chars == old(self).chars,
            decreases n - self.pos,
        {
            if self.pos >= n {
                break;
            }
            let c = self.chars[self.pos];
            if c == '#' {
                let r = self.parse_comment();
                match r {
                    Ok(()) => {},
                    Err(e) => {
                        return Err(e);
                    },
                }
                break;
            }
            if c == ' ' || c == '\t' {
                self.pos = self.pos + 1;
                continue;
            }
            if c == '\n' {
                self.pos = self.pos + 1;
                break;
            }
            if c == '=' {
                self.pos = self.pos + 1;
                let r = self.parse_key_value_pair(key_name);
                match r {
                    Ok(()) => {},
                    Err(e) => {
                        return Err(e);
                    },
                }
                key_name = String::new();
                break;
            }
            if c == '[' {
                break;
            }
            push_char(&mut key_name, c);
            self.pos = self.pos + 1;
        }
        if !key_name.as_str().is_empty() {
            let full_key_name = self.variable_name_for_current_section(&key_name);
            self.map.insert(full_key_name, String::from_str("true"));
        }
        Ok(())
    }

    /// Read the variables of a section, until a new section opens or
    /// the input ends.
    pub fn parse_variables(&mut self) -> (r: Result<(), Error>)
        requires
            old(self).wf(),
        ensures
            final(self).wf(),
            r is Ok,
            final(self).pos >= old(self).pos,
            final(self).chars == old(self).chars,
    {
        let n = self.chars.len();
        let ghost entry = self.pos;
        loop
            invariant_except_break
                self.wf(),
                n == self.chars@.len(),
                entry <= self.pos,
                self.chars == old(self).chars,
            ensures
                self.wf(),
                entry <= self.pos,
                self.chars == old(self).chars,
            decreases n - self.pos,
        {
            if self.pos >= n {
                break;
            }
            let c = self.chars[self.pos];
            if c == '#' {
                let r = self.parse_comment();
                match r {
                    Ok(()) => {},
                    Err(e) => {
                        return Err(e);
                    },
                }
            } else if c == ' ' || c == '\t' {
                self.pos = self.pos + 1;
            } else if c == '[' {
                break;
            } else {
                let r = self.parse_single_variable();
                match r {
                    Ok(()) => {},
                    Err(e) => {
                        return Err(e);
                    },
                }
            }
        }
        Ok(())
    }

    /// Read a section header and then its variables.
    pub fn parse_section(&mut self) -> (r: Result<(), Error>)
        requires
            old(self).wf(),
            old(self).pos < old(self).chars@.len(),
        ensures
            final(self).wf(),
            r is Ok,
            final(self).pos > old(self).pos,
            final(self).chars == old(self).chars,
    {
        let n = self.chars.len();
        let mut section_name = String::new();
        self.pos = self.pos + 1;
        let ghost entry = self.pos;
        loop
            invariant
                self.wf(),
                n == self.chars@.len(),
                entry == old(self).pos + 1,
                entry <= self.pos,
                self.chars == old(self).chars,
            decreases n - self.pos,
        {
            if self.pos >= n {
                self.current_section_names.push(section_name);
                let r = self.parse_variables();
                match r {
                    Ok(()) => {},
                    Err(e) => {
                        return Err(e);
                    },
                }
                self.current_section_names.pop();
                return Ok(());
            }
            let c = self.chars[self.pos];
            if c == ']' {
                self.pos = self.pos + 1;
                self.current_section_names.push(section_name);
                let r = self.parse_variables();
                match r {
                    Ok(()) => {},
                    Err(e) => {
                        return Err(e);
                    },
                }
                self.current_section_names.pop();
                return Ok(());
            }
            push_char(&mut section_name, c);
            self.pos = self.pos + 1;
        }
    }

    /// Walk the whole input, reading comments and sections.
    pub fn parse(&mut self) -> (r: Result<(), Error>)
        requires
            old(self).wf(),
        ensures
            final(self).wf(),
            r is Ok,
    {
        let n = self.chars.len();
        loop
            invariant_except_break
                self.wf(),
                n == self.chars@.len(),
            ensures
                self.wf(),
            decreases n - self.pos,
        {
            if self.pos >= n {
                break;
            }
            let c = self.chars[self.pos];
            if c == ' ' || c == '\t' {
                self.pos = self.pos + 1;
            } else if c == '#' {
                let r = self.parse_comment();
                match r {
                    Ok(()) => {},
                    Err(e) => {
                        return Err(e);
                    },
                }
            } else if c == '[' {
                let r = self.parse_section();
                match r {
                    Ok(()) => {},
                    Err(e) => {
                        return Err(e);
                    },
                }
            } else {
                self.pos = self.pos + 1;
            }
        }
        Ok(())
    }
}

impl Config {
    /// Parse `contents` and fold every pair it defines into this
    /// configuration, later values replacing earlier ones.
    pub fn add_from_string(&mut self, contents: String) -> (r: Result<(), Error>)
        requires
            sorted_keys(old(self).map@),
        ensures
            sorted_keys(final(self).map@),
            r is Ok,
    {
        let mut parser = Parser::new(contents.as_str());
        let pr = parser.parse();
        match pr {
            Ok(()) => {},
            Err(e) => {
                return Err(e);
            },
        }
        let plen = parser.map.map.len();
        for i in 0..plen
            invariant
                plen == parser.map.map@.len(),
                sorted_keys(self.map@),
        {
            let k = String::from_str(parser.map.map[i].0.as_str());
            let v = String::from_str(parser.map.map[i].1.as_str());
            self.insert(k, v);
        }
        Ok(())
    }
}

} // verus!
