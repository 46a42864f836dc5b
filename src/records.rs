//! The hostname-to-address table and its line-oriented text format.
use vstd::prelude::*;
use crate::ipv4::{Ipv4Addr, parse_ipv4_spec};
use crate::text::{
    chars_of, ends_with, first_index_of, index_of_char, lemma_first_index_of, slice_ends_with,
    slice_eq, split_on, string_from_chars, sub_chars,
};

verus! {

/// A table from hostname to IPv4 address; each hostname appears once.
pub struct RecordsDB {
    entries: Vec<(String, Ipv4Addr)>,
    map: Ghost<Map<Seq<char>, Ipv4Addr>>,
}

impl View for RecordsDB {
    type V = Map<Seq<char>, Ipv4Addr>;

    closed spec fn view(&self) -> Map<Seq<char>, Ipv4Addr> {
        self.map@
    }
}

impl RecordsDB {
    /// Keys are unique and the entries make up the table.
    pub closed spec fn wf(&self) -> bool {
        &&& forall|i: int, j: int|
            0 <= i < j < self.entries@.len() ==> (#[trigger] self.entries@[i]).0@
                != (#[trigger] self.entries@[j]).0@
        &&& forall|i: int|
            0 <= i < self.entries@.len() ==> self.map@.contains_key(
                (#[trigger] self.entries@[i]).0@,
            ) && self.map@[self.entries@[i].0@] == self.entries@[i].1
        &&& forall|k: Seq<char>|
            #[trigger] self.map@.contains_key(k) ==> exists|i: int|
                0 <= i < self.entries@.len() && (#[trigger] self.entries@[i]).0@ == k
    }

    /// An empty table.
    pub fn new() -> (r: RecordsDB)
        ensures
            r.wf(),
            r@ == Map::<Seq<char>, Ipv4Addr>::empty(),
    {
        RecordsDB { entries: Vec::new(), map: Ghost(Map::empty()) }
    }

    /// The entries, each key once; together they make up the table.
    pub fn entries(&self) -> (r: &Vec<(String, Ipv4Addr)>)
        requires
            self.wf(),
        ensures
            forall|i: int|
                0 <= i < r@.len() ==> self@.contains_key((#[trigger] r@[i]).0@) && self@[r@[i].0@]
                    == r@[i].1,
            forall|k: Seq<char>|
                #[trigger] self@.contains_key(k) ==> exists|i: int|
                    0 <= i < r@.len() && (#[trigger] r@[i]).0@ == k,
    {
        &self.entries
    }

    /// Whether the table has no entries.
    pub fn is_empty(&self) -> (r: bool)
        requires
            self.wf(),
        ensures
            r == (self@.dom() == Set::<Seq<char>>::empty()),
    {
        proof {
            if self.entries@.len() > 0 {
                assert(self@.dom().contains(self.entries@[0].0@));
            } else {
                assert(self@.dom() =~= Set::<Seq<char>>::empty());
            }
        }
        self.entries.len() == 0
    }

    fn index_of(&self, key: &[char]) -> (r: Option<usize>)
        requires
            self.wf(),
        ensures
            match r {
                Some(i) => i < self.entries@.len() && self.entries@[i as int].0@ == key@,
                None => !self@.contains_key(key@),
            },
    {
        let mut i: usize = 0;
        while i < self.entries.len()
            invariant
                i <= self.entries@.len(),
                forall|j: int| 0 <= j < i ==> (#[trigger] self.entries@[j]).0@ != key@,
            decreases self.entries@.len() - i,
        {
            let k = chars_of(self.entries[i].0.as_str());
            if slice_eq(k.as_slice(), key) {
                return Some(i);
            }
            i += 1;
        }
        None
    }

    /// The address stored for `key`, if any.
    pub fn get(&self, key: &str) -> (r: Option<Ipv4Addr>)
        requires
            self.wf(),
        ensures
            r == (if self@.contains_key(key@) {
                Some(self@[key@])
            } else {
                None
            }),
    {
        let k = chars_of(key);
        match self.index_of(k.as_slice()) {
            Some(i) => Some(self.entries[i].1),
            None => None,
        }
    }

    /// Whether `key` is stored.
    pub fn contains_key(&self, key: &str) -> (r: bool)
        requires
            self.wf(),
        ensures
            r == self@.contains_key(key@),
    {
        self.get(key).is_some()
    }

    /// Stores `addr` under `key`, replacing what was there.
    pub fn insert(&mut self, key: String, addr: Ipv4Addr)
        requires
            old(self).wf(),
        ensures
            final(self).wf(),
            final(self)@ == old(self)@.insert(key@, addr),
    {
        let k = chars_of(key.as_str());
        let found = self.index_of(k.as_slice());
        let ghost old_entries = self.entries@;
        let ghost new_map = self.map@.insert(key@, addr);
        match found {
            Some(i) => {
                self.entries.set(i, (key, addr));
            },
            None => {
                self.entries.push((key, addr));
            },
        }
        self.map = Ghost(new_map);
        proof {
            assert forall|i: int|
                0 <= i < self.entries@.len() implies self.map@.contains_key(
                (#[trigger] self.entries@[i]).0@,
            ) && self.map@[self.entries@[i].0@] == self.entries@[i].1 by {
                if i < old_entries.len() && self.entries@[i] == old_entries[i] {
                    assert(old_entries[i].0@ != key@ || found is Some);
                }
            }
            assert forall|kk: Seq<char>| #[trigger] self.map@.contains_key(kk) implies exists|i: int|
                0 <= i < self.entries@.len() && (#[trigger] self.entries@[i]).0@ == kk by {
                if kk == key@ {
                    match found {
                        Some(i) => assert(self.entries@[i as int].0@ == kk),
                        None => assert(self.entries@[old_entries.len() as int].0@ == kk),
                    }
                } else {
                    let i = choose|i: int| 0 <= i < old_entries.len() && (#[trigger] old_entries[i]).0@ == kk;
                    assert(self.entries@[i].0@ == kk);
                }
            }
        }
    }

    /// Adds every entry of `other`; where both hold a key, `other`'s address wins.
    pub fn extend(&mut self, other: RecordsDB)
        requires
            old(self).wf(),
            other.wf(),
        ensures
            final(self).wf(),
            final(self)@ == old(self)@.union_prefer_right(other@),
    {
        let es = other.entries();
        let mut i: usize = 0;
        while i < es.len()
            invariant
                i <= es@.len(),
                self.wf(),
                forall|j: int|
                    0 <= j < es@.len() ==> other@.contains_key((#[trigger] es@[j]).0@) && other@[es@[j].0@]
                        == es@[j].1,
                forall|k: Seq<char>|
                    #[trigger] other@.contains_key(k) ==> exists|j: int|
                        0 <= j < es@.len() && (#[trigger] es@[j]).0@ == k,
                self@ == old(self)@.union_prefer_right(
                    other@.restrict(Set::new(|k: Seq<char>| exists|j: int| 0 <= j < i && (#[trigger] es@[j]).0@ == k)),
                ),
            decreases es@.len() - i,
        {
            let ghost before = self@;
            let (k, a) = &es[i];
            self.insert(k.clone(), *a);
            i += 1;
            proof {
                let s1 = Set::new(|k: Seq<char>| exists|j: int| 0 <= j < i - 1 && (#[trigger] es@[j]).0@ == k);
                let s2 = Set::new(|k: Seq<char>| exists|j: int| 0 <= j < i && (#[trigger] es@[j]).0@ == k);
                assert(s2 =~= s1.insert(es@[i - 1].0@)) by {
                    assert forall|kk: Seq<char>| s2.contains(kk) implies s1.insert(es@[i - 1].0@).contains(kk) by {
                        let j = choose|j: int| 0 <= j < i && (#[trigger] es@[j]).0@ == kk;
                        if j < i - 1 {
                            assert(s1.contains(kk));
                        }
                    }
                    assert forall|kk: Seq<char>| s1.insert(es@[i - 1].0@).contains(kk) implies s2.contains(kk) by {
                        if kk != es@[i - 1].0@ {
                            let j = choose|j: int| 0 <= j < i - 1 && (#[trigger] es@[j]).0@ == kk;
                            assert(es@[j].0@ == kk);
                        } else {
                            assert(es@[i - 1].0@ == kk);
                        }
                    }
                }
                assert(self@ =~= old(self)@.union_prefer_right(other@.restrict(s2)));
            }
        }
        proof {
            let s = Set::new(|k: Seq<char>| exists|j: int| 0 <= j < es@.len() && (#[trigger] es@[j]).0@ == k);
            assert(other@.restrict(s) =~= other@);
        }
    }
}

/// A failure to read a records file's text.
#[derive(Debug, Clone, PartialEq, Eq)]
pub enum RecordsError {
    /// A line that is not `hostname:address`; it holds the line.
    InvalidLine(String),
    /// A hostname that appears twice; it holds the hostname.
    DuplicateHostname(String),
}

/// What a records text yields: a table, or the first failure.
pub enum LoadOutcome {
    Loaded(Map<Seq<char>, Ipv4Addr>),
    InvalidLine(Seq<char>),
    DuplicateHostname(Seq<char>),
}

pub open spec fn strip_cr(l: Seq<char>) -> Seq<char> {
    if l.len() > 0 && l.last() == '\r' {
        l.drop_last()
    } else {
        l
    }
}

/// The lines of `s`: split at `\n`, a `\r` before the `\n` dropped, and no
/// empty last line after a final `\n`.
pub open spec fn lines_spec(s: Seq<char>) -> Seq<Seq<char>> {
    let parts = split_on(s, '\n');
    let ended = parts.take(parts.len() - 1).map_values(|l: Seq<char>| strip_cr(l));
    if parts.last().len() == 0 {
        ended
    } else {
        ended.push(parts.last())
    }
}

/// A line `name:address`: the name is what precedes the first `:`.
pub open spec fn parse_line_spec(line: Seq<char>) -> Option<(Seq<char>, Ipv4Addr)> {
    let i = first_index_of(line, ':');
    if i >= line.len() {
        None
    } else {
        match parse_ipv4_spec(line.subrange(i + 1, line.len() as int)) {
            Some(ip) => Some((line.take(i), ip)),
            None => None,
        }
    }
}

/// A blank line or a comment.
pub open spec fn is_skipped_line(line: Seq<char>) -> bool {
    line.len() == 0 || line[0] == '#'
}

/// The hostname a line names, if it is a record line that parses.
pub open spec fn line_name(line: Seq<char>) -> Option<Seq<char>> {
    if is_skipped_line(line) {
        None
    } else {
        match parse_line_spec(line) {
            Some((name, _)) => Some(name),
            None => None,
        }
    }
}

/// Every hostname the lines name, kept or left out.
pub open spec fn seen_names(lines: Seq<Seq<char>>) -> Set<Seq<char>>
    decreases lines.len(),
{
    if lines.len() == 0 {
        Set::empty()
    } else {
        let prev = seen_names(lines.drop_last());
        match line_name(lines.last()) {
            Some(n) => prev.insert(n),
            None => prev,
        }
    }
}

/// One line's effect on the table built so far, given every hostname named
/// before it: a name named before is a duplicate, whether or not it was
/// kept; a name that lacks the suffix is left out.
pub open spec fn load_step(
    m: Map<Seq<char>, Ipv4Addr>,
    seen: Set<Seq<char>>,
    line: Seq<char>,
    tld: Seq<char>,
) -> LoadOutcome {
    if is_skipped_line(line) {
        LoadOutcome::Loaded(m)
    } else {
        match parse_line_spec(line) {
            None => LoadOutcome::InvalidLine(line),
            Some((name, ip)) => if seen.contains(name) {
                LoadOutcome::DuplicateHostname(name)
            } else if !ends_with(name, tld) {
                LoadOutcome::Loaded(m)
            } else {
                LoadOutcome::Loaded(m.insert(name, ip))
            },
        }
    }
}

/// The lines taken in order from an empty table; the first failure stops.
pub open spec fn load_lines(lines: Seq<Seq<char>>, tld: Seq<char>) -> LoadOutcome
    decreases lines.len(),
{
    if lines.len() == 0 {
        LoadOutcome::Loaded(Map::empty())
    } else {
        match load_lines(lines.drop_last(), tld) {
            LoadOutcome::Loaded(m) => load_step(m, seen_names(lines.drop_last()), lines.last(), tld),
            failed => failed,
        }
    }
}

/// The hostname a line names when it is left out for lacking the suffix.
pub open spec fn dropped_by_line(line: Seq<char>, tld: Seq<char>) -> Option<Seq<char>> {
    if is_skipped_line(line) {
        None
    } else {
        match parse_line_spec(line) {
            Some((name, _)) => if ends_with(name, tld) {
                None
            } else {
                Some(name)
            },
            None => None,
        }
    }
}

/// The hostnames left out for lacking the suffix, in line order.
pub open spec fn dropped_names(lines: Seq<Seq<char>>, tld: Seq<char>) -> Seq<Seq<char>>
    decreases lines.len(),
{
    if lines.len() == 0 {
        Seq::empty()
    } else {
        let prev = dropped_names(lines.drop_last(), tld);
        match dropped_by_line(lines.last(), tld) {
            Some(n) => prev.push(n),
            None => prev,
        }
    }
}

/// What the records text `s` yields for suffix `tld`.
pub open spec fn load_spec(s: Seq<char>, tld: Seq<char>) -> LoadOutcome {
    load_lines(lines_spec(s), tld)
}

/// Whether `r` is what `o` says.
pub open spec fn outcome_matches(r: Result<RecordsDB, RecordsError>, o: LoadOutcome) -> bool {
    match (r, o) {
        (Ok(db), LoadOutcome::Loaded(m)) => db@ == m,
        (Err(RecordsError::InvalidLine(l)), LoadOutcome::InvalidLine(l2)) => l@ == l2,
        (Err(RecordsError::DuplicateHostname(n)), LoadOutcome::DuplicateHostname(n2)) => n@ == n2,
        _ => false,
    }
}


/// Splits a line `name:address` at its first `:`.
pub fn parse_line(line: &str) -> (r: Result<(String, Ipv4Addr), RecordsError>)
    ensures
        match parse_line_spec(line@) {
            Some((name, ip)) => r matches Ok((n, a)) && n@ == name && a == ip,
            None => r matches Err(RecordsError::InvalidLine(l)) && l@ == line@,
        },
{
    let cs = chars_of(line);
    match parse_line_chars(cs.as_slice()) {
        Some(v) => Ok(v),
        None => Err(RecordsError::InvalidLine(string_from_chars(cs.as_slice()))),
    }
}

fn parse_line_chars(cs: &[char]) -> (r: Option<(String, Ipv4Addr)>)
    ensures
        match parse_line_spec(cs@) {
            Some((name, ip)) => r matches Some((n, a)) && n@ == name && a == ip,
            None => r is None,
        },
{
    let i = index_of_char(cs, ':');
    proof {
        lemma_first_index_of(cs@, ':');
    }
    if i >= cs.len() {
        return None;
    }
    let rest = sub_chars(cs, i + 1, cs.len());
    match Ipv4Addr::parse_chars(rest.as_slice()) {
        Some(ip) => {
            let name = sub_chars(cs, 0, i);
            assert(name@ =~= cs@.take(i as int));
            Some((string_from_chars(name.as_slice()), ip))
        },
        None => None,
    }
}

/// The hostnames held in `v`.
pub open spec fn names_of(v: Seq<String>) -> Set<Seq<char>> {
    Set::new(|k: Seq<char>| exists|i: int| 0 <= i < v.len() && (#[trigger] v[i])@ == k)
}

fn name_listed(seen: &Vec<String>, name: &[char]) -> (r: bool)
    ensures
        r == names_of(seen@).contains(name@),
{
    let mut i: usize = 0;
    while i < seen.len()
        invariant
            i <= seen@.len(),
            forall|j: int| 0 <= j < i ==> (#[trigger] seen@[j])@ != name@,
        decreases seen@.len() - i,
    {
        let k = chars_of(seen[i].as_str());
        if slice_eq(k.as_slice(), name) {
            return true;
        }
        i += 1;
    }
    false
}

/// Applies one line to `db`; on success, names the hostname it left out
/// for lacking the suffix, if any.
fn load_line(db: &mut RecordsDB, seen: &mut Vec<String>, line: &[char], tld: &[char]) -> (r: Result<
    Option<String>,
    RecordsError,
>)
    requires
        old(db).wf(),
    ensures
        final(db).wf(),
        match load_step(old(db)@, names_of(old(seen)@), line@, tld@) {
            LoadOutcome::Loaded(m) => r matches Ok(d) && final(db)@ == m && match dropped_by_line(
                line@,
                tld@,
            ) {
                Some(n) => d matches Some(s) && s@ == n,
                None => d is None,
            } && names_of(final(seen)@) == match line_name(line@) {
                Some(n) => names_of(old(seen)@).insert(n),
                None => names_of(old(seen)@),
            },
            LoadOutcome::InvalidLine(l) => r matches Err(RecordsError::InvalidLine(e)) && e@ == l,
            LoadOutcome::DuplicateHostname(n) => r matches Err(RecordsError::DuplicateHostname(e))
                && e@ == n,
        },
{
    if line.len() == 0 || line[0] == '#' {
        return Ok(None);
    }
    match parse_line_chars(line) {
        None => Err(RecordsError::InvalidLine(string_from_chars(line))),
        Some((name, ip)) => {
            let ncs = chars_of(name.as_str());
            if name_listed(seen, ncs.as_slice()) {
                return Err(RecordsError::DuplicateHostname(name));
            }
            let ghost before = seen@;
            seen.push(name.clone());
            proof {
                assert forall|k: Seq<char>| names_of(seen@).contains(k) <==> names_of(before).insert(ncs@).contains(k) by {
                    if names_of(seen@).contains(k) {
                        let i = choose|i: int| 0 <= i < seen@.len() && (#[trigger] seen@[i])@ == k;
                        if i < before.len() {
                            assert(before[i] == seen@[i]);
                        }
                    }
                    if names_of(before).contains(k) {
                        let i = choose|i: int| 0 <= i < before.len() && (#[trigger] before[i])@ == k;
                        assert(seen@[i] == before[i]);
                    }
                    if k == ncs@ {
                        assert(seen@[before.len() as int]@ == k);
                    }
                }
                assert(names_of(seen@) =~= names_of(before).insert(ncs@));
            }
            if !slice_ends_with(ncs.as_slice(), tld) {
                return Ok(Some(name));
            }
            db.insert(name, ip);
            Ok(None)
        },
    }
}

/// Reads a records text: one `hostname:address` per line, blank lines and
/// lines that start with `#` skipped. Hostnames that do not end with `tld`
/// are left out; a hostname named twice (kept or not), or a line that does
/// not parse, fails.
pub fn parse_records(contents: &str, tld: &str) -> (r: Result<RecordsDB, RecordsError>)
    ensures
        outcome_matches(r, load_spec(contents@, tld@)),
        r matches Ok(db) ==> db.wf(),
{
    load_records(contents, tld).0
}

/// As [`parse_records`], and on success also the hostnames that were left
/// out for lacking the suffix, in line order, for the caller to report.
pub fn load_records(contents: &str, tld: &str) -> (r: (Result<RecordsDB, RecordsError>, Vec<String>))
    ensures
        outcome_matches(r.0, load_spec(contents@, tld@)),
        r.0 matches Ok(db) ==> db.wf(),
        r.0 is Ok ==> r.1@.map_values(|n: String| n@) == dropped_names(lines_spec(contents@), tld@),
{
    let cs = chars_of(contents);
    let tcs = chars_of(tld);
    let ghost sq = cs@;
    let ghost t = tcs@;
    let mut db = RecordsDB::new();
    let mut err: Option<RecordsError> = None;
    let mut dropped: Vec<String> = Vec::new();
    let mut seen: Vec<String> = Vec::new();
    let mut cur: Vec<char> = Vec::new();
    let mut i: usize = 0;
    proof {
        assert(sq.take(0) =~= Seq::<char>::empty());
        let p = split_on(sq.take(0), '\n');
        assert(p.take(p.len() - 1).map_values(|l: Seq<char>| strip_cr(l)) =~= Seq::<Seq<char>>::empty());
        assert(names_of(seen@) =~= Set::<Seq<char>>::empty());
    }
    while i < cs.len()
        invariant
            sq == cs@,
            t == tcs@,
            t == tld@,
            sq == contents@,
            i <= sq.len(),
            db.wf(),
            ({
                let p = split_on(sq.take(i as int), '\n');
                let done = p.take(p.len() - 1).map_values(|l: Seq<char>| strip_cr(l));
                &&& p.len() >= 1
                &&& cur@ == p.last()
                &&& match err {
                    None => load_lines(done, t) == LoadOutcome::Loaded(db@)
                        && dropped@.map_values(|n: String| n@) == dropped_names(done, t)
                        && names_of(seen@) == seen_names(done),
                    Some(e) => outcome_matches(Err(e), load_lines(done, t)),
                }
            }),
        decreases sq.len() - i,
    {
        let c = cs[i];
        let ghost p = split_on(sq.take(i as int), '\n');
        let ghost done = p.take(p.len() - 1).map_values(|l: Seq<char>| strip_cr(l));
        proof {
            assert(sq.take(i + 1).drop_last() =~= sq.take(i as int));
            assert(sq.take(i + 1).last() == c);
        }
        if c == '\n' {
            if cur.len() > 0 && cur[cur.len() - 1] == '\r' {
                cur.pop();
            }
            let ghost line = strip_cr(p.last());
            assert(cur@ =~= line);
            proof {
                let np = split_on(sq.take(i + 1), '\n');
                assert(np == p.push(Seq::<char>::empty()));
                let ndone = np.take(np.len() - 1).map_values(|l: Seq<char>| strip_cr(l));
                assert(ndone =~= done.push(line));
                assert(ndone.drop_last() =~= done);
            }
            if err.is_none() {
                match load_line(&mut db, &mut seen, cur.as_slice(), tcs.as_slice()) {
                    Ok(d) => {
                        push_dropped(&mut dropped, d);
                    },
                    Err(e) => {
                        err = Some(e);
                    },
                }
            }
            cur = Vec::new();
        } else {
            cur.push(c);
            proof {
                let np = split_on(sq.take(i + 1), '\n');
                assert(np == p.update(p.len() - 1, p.last().push(c)));
                let ndone = np.take(np.len() - 1).map_values(|l: Seq<char>| strip_cr(l));
                assert(ndone =~= done);
            }
        }
        i += 1;
    }
    proof {
        assert(sq.take(i as int) =~= sq);
    }
    let ghost p = split_on(sq, '\n');
    let ghost done = p.take(p.len() - 1).map_values(|l: Seq<char>| strip_cr(l));
    if cur.len() > 0 && err.is_none() {
        proof {
            assert(lines_spec(sq) == done.push(p.last()));
            assert(done.push(p.last()).drop_last() =~= done);
        }
        match load_line(&mut db, &mut seen, cur.as_slice(), tcs.as_slice()) {
            Ok(d) => {
                push_dropped(&mut dropped, d);
            },
            Err(e) => {
                err = Some(e);
            },
        }
    } else if cur.len() > 0 {
        proof {
            assert(lines_spec(sq) == done.push(p.last()));
            assert(done.push(p.last()).drop_last() =~= done);
        }
    } else {
        assert(lines_spec(sq) == done);
    }
    match err {
        Some(e) => (Err(e), dropped),
        None => (Ok(db), dropped),
    }
}

fn push_dropped(dropped: &mut Vec<String>, d: Option<String>)
    ensures
        final(dropped)@.map_values(|n: String| n@) == match d {
            Some(n) => old(dropped)@.map_values(|n: String| n@).push(n@),
            None => old(dropped)@.map_values(|n: String| n@),
        },
{
    match d {
        Some(n) => {
            dropped.push(n);
            assert(dropped@.map_values(|n: String| n@) =~= old(dropped)@.map_values(|n: String| n@).push(dropped@.last()@));
        },
        None => {},
    }
}

} // verus!
