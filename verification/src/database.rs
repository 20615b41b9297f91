//! The script database: an insertion-ordered collection of named shell
//! commands with unique names, built by pairing up the literals the scanner
//! collects, and the errors that pairing can surface.

use vstd::prelude::*;

use crate::scan::buf_views;
use crate::scan::lemma_buf_views_len;
use crate::scan::literals_of;
use crate::scan::scan_literals;
use crate::text::str_eq;
use crate::text::trim;
use crate::text::trim_spec;

verus! {

/// A shell command to run for some script name.
#[derive(Debug, Clone)]
pub struct Script {
    pub command: String,
}

impl View for Script {
    type V = Seq<char>;

    open spec fn view(&self) -> Seq<char> {
        self.command@
    }
}

impl Script {
    pub fn new(command: &str) -> (s: Script)
        ensures
            s@ == command@,
    {
        Script { command: command.to_owned() }
    }
}

/// Why an insertion into the database was refused.
#[derive(Debug, PartialEq, Eq)]
pub enum AddError {
    /// The database already holds a script under this name.
    DuplicateName,
}

/// Why extraction from a source text failed. Each variant carries the 1-based
/// line number of the name literal it concerns and the name of the source
/// file, for diagnostics that point at the offending line.
#[derive(Debug, PartialEq, Eq)]
pub enum ParseError {
    /// A name literal inside the target block has no following command
    /// literal before the block's end.
    NoCommand(usize, String),
    /// The database refused the pair, because its name collides with an
    /// entry inserted earlier.
    DuplicateEntry(usize, String),
}

/// The mapping a sequence of (name, script) entries denotes; a later entry
/// with the same name would win, but well-formed databases have no such pair.
pub open spec fn map_of(s: Seq<(String, Script)>) -> Map<Seq<char>, Seq<char>>
    decreases s.len(),
{
    if s.len() == 0 {
        Map::empty()
    } else {
        map_of(s.drop_last()).insert(s.last().0@, s.last().1@)
    }
}

pub proof fn lemma_map_of_contains(s: Seq<(String, Script)>, k: Seq<char>)
    ensures
        map_of(s).contains_key(k) <==> exists|i: int| 0 <= i < s.len() && (#[trigger] s[i].0)@ == k,
    decreases s.len(),
{
    if s.len() > 0 {
        lemma_map_of_contains(s.drop_last(), k);
        if map_of(s).contains_key(k) {
            if s.last().0@ == k {
                assert(s[s.len() - 1].0@ == k);
            } else {
                let i = choose|i: int| 0 <= i < s.len() - 1 && (#[trigger] s.drop_last()[i].0)@ == k;
                assert(s[i].0@ == k);
            }
        }
        if exists|i: int| 0 <= i < s.len() && (#[trigger] s[i].0)@ == k {
            let i = choose|i: int| 0 <= i < s.len() && (#[trigger] s[i].0)@ == k;
            if i < s.len() - 1 {
                assert(s.drop_last()[i].0@ == k);
            }
        }
    }
}

/// Pairwise-distinct names: the database's well-formedness condition.
pub open spec fn unique_names(s: Seq<(String, Script)>) -> bool {
    forall|i: int, j: int|
        0 <= i < j < s.len() ==> (#[trigger] s[i].0)@ != (#[trigger] s[j].0)@
}

pub proof fn lemma_map_of_index(s: Seq<(String, Script)>, i: int)
    requires
        unique_names(s),
        0 <= i < s.len(),
    ensures
        map_of(s).contains_key(s[i].0@),
        map_of(s)[s[i].0@] == s[i].1@,
    decreases s.len(),
{
    if i == s.len() - 1 {
    } else {
        assert(s.drop_last()[i] == s[i]);
        lemma_map_of_index(s.drop_last(), i);
        assert(s[i].0@ != s[s.len() - 1].0@);
    }
}

pub proof fn lemma_map_of_dom(s: Seq<(String, Script)>)
    requires
        unique_names(s),
    ensures
        map_of(s).dom().finite(),
        map_of(s).dom().len() == s.len(),
    decreases s.len(),
{
    if s.len() == 0 {
        assert(map_of(s).dom() =~= Set::<Seq<char>>::empty());
    } else {
        lemma_map_of_dom(s.drop_last());
        lemma_map_of_contains(s.drop_last(), s.last().0@);
        assert(forall|i: int|
            0 <= i < s.len() - 1 ==> (#[trigger] s.drop_last()[i].0)@ == s[i].0@);
        assert(!map_of(s.drop_last()).contains_key(s.last().0@));
        vstd::set::axiom_set_insert_len(map_of(s.drop_last()).dom(), s.last().0@);
        assert(map_of(s).dom() =~= map_of(s.drop_last()).dom().insert(s.last().0@));
    }
}

/// What pairing the collected literals up yields: the finished mapping, or
/// the first failure, with the line of the name literal it concerns.
pub enum Extraction {
    Done { map: Map<Seq<char>, Seq<char>> },
    MissingCommand { line: nat },
    Duplicate { line: nat },
}

/// Consumes the literal buffer two entries at a time, trimming each name and
/// command and inserting the pair into the accumulated mapping. An odd
/// trailing name has no command; a name already in the mapping is a
/// duplicate. The first failure wins.
pub open spec fn pair_up_from(
    bufs: Seq<(Seq<char>, nat)>,
    acc: Map<Seq<char>, Seq<char>>,
) -> Extraction
    decreases bufs.len(),
{
    if bufs.len() == 0 {
        Extraction::Done { map: acc }
    } else if bufs.len() == 1 {
        Extraction::MissingCommand { line: bufs[0].1 }
    } else if acc.contains_key(trim_spec(bufs[0].0)) {
        Extraction::Duplicate { line: bufs[0].1 }
    } else {
        pair_up_from(
            bufs.subrange(2, bufs.len() as int),
            acc.insert(trim_spec(bufs[0].0), trim_spec(bufs[1].0)),
        )
    }
}

/// Pairing up a literal buffer, starting from the empty mapping.
pub open spec fn pair_up(bufs: Seq<(Seq<char>, nat)>) -> Extraction {
    pair_up_from(bufs, Map::empty())
}

/// What extracting the block of `text` keyed by `key` yields: scan, then
/// pair up.
pub open spec fn extraction(text: Seq<char>, key: Seq<char>) -> Extraction {
    pair_up(literals_of(text, key))
}

/// A database of scripts keyed by unique names.
#[derive(Debug, Clone)]
pub struct Database {
    entries: Vec<(String, Script)>,
}

impl View for Database {
    type V = Map<Seq<char>, Seq<char>>;

    closed spec fn view(&self) -> Map<Seq<char>, Seq<char>> {
        map_of(self.entries@)
    }
}

impl Database {
    /// No two entries share a name.
    pub closed spec fn wf(&self) -> bool {
        unique_names(self.entries@)
    }

    /// The empty database.
    pub fn new() -> (db: Database)
        ensures
            db.wf(),
            db@ == Map::<Seq<char>, Seq<char>>::empty(),
            db@.dom() =~= Set::<Seq<char>>::empty(),
    {
        let db = Database { entries: Vec::new() };
        proof {
            assert(db@.dom() =~= Set::<Seq<char>>::empty());
        }
        db
    }

    /// Whether a script is stored under `name`.
    pub fn contains_name(&self, name: &str) -> (r: bool)
        ensures
            r == self@.contains_key(name@),
    {
        let n = self.entries.len();
        let mut i: usize = 0;
        while i < n
            invariant
                0 <= i <= n,
                n == self.entries@.len(),
                forall|j: int| 0 <= j < i ==> (#[trigger] self.entries@[j].0)@ != name@,
            decreases n - i,
        {
            if str_eq(self.entries[i].0.as_str(), name) {
                proof {
                    lemma_map_of_contains(self.entries@, name@);
                }
                return true;
            }
            i = i + 1;
        }
        proof {
            lemma_map_of_contains(self.entries@, name@);
        }
        false
    }

    /// Inserts a script under `name`; refuses a name the database already
    /// holds and leaves the database unchanged in that case.
    pub fn add(&mut self, name: &str, script: Script) -> (r: Result<(), AddError>)
        requires
            old(self).wf(),
        ensures
            final(self).wf(),
            old(self)@.contains_key(name@) ==> r == Result::<(), AddError>::Err(
                AddError::DuplicateName,
            ) && final(self)@ == old(self)@,
            !old(self)@.contains_key(name@) ==> r == Result::<(), AddError>::Ok(())
                && final(self)@ == old(self)@.insert(name@, script@),
    {
        if self.contains_name(name) {
            return Err(AddError::DuplicateName);
        }
        proof {
            lemma_map_of_contains(self.entries@, name@);
        }
        let ghost pre = self.entries@;
        self.entries.push((name.to_owned(), script));
        proof {
            assert(self.entries@.drop_last() =~= pre);
            assert forall|i: int, j: int| 0 <= i < j < self.entries@.len() implies (
            #[trigger] self.entries@[i].0)@ != (#[trigger] self.entries@[j].0)@ by {
                if j == self.entries@.len() - 1 {
                    assert(pre[i] == self.entries@[i]);
                } else {
                    assert(pre[i] == self.entries@[i]);
                    assert(pre[j] == self.entries@[j]);
                }
            }
        }
        Ok(())
    }

    /// Looks a script up by name.
    pub fn get(&self, name: &str) -> (r: Option<&Script>)
        requires
            self.wf(),
        ensures
            match r {
                Some(s) => self@.contains_key(name@) && s@ == self@[name@],
                None => !self@.contains_key(name@),
            },
    {
        let n = self.entries.len();
        let mut i: usize = 0;
        while i < n
            invariant
                0 <= i <= n,
                n == self.entries@.len(),
                self.wf(),
                forall|j: int| 0 <= j < i ==> (#[trigger] self.entries@[j].0)@ != name@,
            decreases n - i,
        {
            if str_eq(self.entries[i].0.as_str(), name) {
                proof {
                    lemma_map_of_index(self.entries@, i as int);
                }
                return Some(&self.entries[i].1);
            }
            i = i + 1;
        }
        proof {
            lemma_map_of_contains(self.entries@, name@);
        }
        None
    }

    /// Extracts every name/command pair from the block of `source` keyed by
    /// `key`, reporting failures against `file_name`. The result is exactly
    /// what `extraction` says for the source text.
    pub fn extract(source: &str, key: &str, file_name: &str) -> (r: Result<Database, ParseError>)
        requires
            source@.len() < usize::MAX,
        ensures
            (match extraction(source@, key@) {
                Extraction::Done { map } => r matches Ok(db) && db@ == map && db.wf(),
                Extraction::MissingCommand { line } => r matches Err(
                    ParseError::NoCommand(l, f),
                ) && l == line && f@ == file_name@,
                Extraction::Duplicate { line } => r matches Err(
                    ParseError::DuplicateEntry(l, f),
                ) && l == line && f@ == file_name@,
            }),
    {
        let bufs = scan_literals(source, key);
        let ghost views = buf_views(bufs@);
        proof {
            lemma_buf_views_len(bufs@);
        }
        let mut db = Database::new();
        let n = bufs.len();
        let mut i: usize = 0;
        proof {
            assert(views.skip(0) =~= views);
        }
        while i < n
            invariant
                0 <= i <= n,
                i % 2 == 0,
                n == bufs@.len(),
                views == buf_views(bufs@),
                views == literals_of(source@, key@),
                views.len() == n,
                forall|k: int| 0 <= k < n ==> #[trigger] views[k] == (bufs@[k].0@, bufs@[k].1 as nat),
                db.wf(),
                db@.dom().finite(),
                pair_up(views) == pair_up_from(views.skip(i as int), db@),
            decreases n - i,
        {
            let name = trim(bufs[i].0.as_str());
            let name_line = bufs[i].1;
            if i + 1 >= n {
                proof {
                    assert(views.skip(i as int).len() == 1);
                    assert(views.skip(i as int)[0] == views[i as int]);
                }
                return Err(ParseError::NoCommand(name_line, file_name.to_owned()));
            }
            let command = trim(bufs[i + 1].0.as_str());
            let ghost pre = db@;
            match db.add(name, Script::new(command)) {
                Ok(()) => {},
                Err(_) => {
                    proof {
                        assert(views.skip(i as int)[0] == views[i as int]);
                    }
                    return Err(ParseError::DuplicateEntry(name_line, file_name.to_owned()));
                },
            }
            proof {
                assert(views.skip(i as int)[0] == views[i as int]);
                assert(views.skip(i as int)[1] == views[i + 1]);
                assert(views.skip(i as int).subrange(2, views.skip(i as int).len() as int)
                    =~= views.skip(i + 2));
                assert(pair_up_from(views.skip(i as int), pre) == pair_up_from(
                    views.skip(i + 2),
                    db@,
                ));
            }
            i = i + 2;
        }
        proof {
            assert(views.skip(n as int).len() == 0);
        }
        Ok(db)
    }

    /// Extracts the `tasks` block of a `deno.json` text.
    pub fn from_deno_json(deno_json: &str) -> (r: Result<Database, ParseError>)
        requires
            deno_json@.len() < usize::MAX,
        ensures
            (match extraction(deno_json@, "tasks"@) {
                Extraction::Done { map } => r matches Ok(db) && db@ == map && db.wf(),
                Extraction::MissingCommand { line } => r matches Err(
                    ParseError::NoCommand(l, f),
                ) && l == line && f@ == "deno.json"@,
                Extraction::Duplicate { line } => r matches Err(
                    ParseError::DuplicateEntry(l, f),
                ) && l == line && f@ == "deno.json"@,
            }),
    {
        Database::extract(deno_json, "tasks", "deno.json")
    }

    /// Extracts the `scripts` block of a `package.json` text.
    pub fn from_package_json(package_json: &str) -> (r: Result<Database, ParseError>)
        requires
            package_json@.len() < usize::MAX,
        ensures
            (match extraction(package_json@, "scripts"@) {
                Extraction::Done { map } => r matches Ok(db) && db@ == map && db.wf(),
                Extraction::MissingCommand { line } => r matches Err(
                    ParseError::NoCommand(l, f),
                ) && l == line && f@ == "package.json"@,
                Extraction::Duplicate { line } => r matches Err(
                    ParseError::DuplicateEntry(l, f),
                ) && l == line && f@ == "package.json"@,
            }),
    {
        Database::extract(package_json, "scripts", "package.json")
    }

    /// The number of stored scripts.
    pub fn len(&self) -> (r: usize)
        requires
            self.wf(),
        ensures
            r == self@.dom().len(),
            self@.dom().finite(),
    {
        proof {
            lemma_map_of_dom(self.entries@);
        }
        self.entries.len()
    }
}

} // verus!
