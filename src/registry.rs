//! The registry: a mapping from tracked path to the entry recorded for it,
//! with upsert, directory ingest and the listing used for persistence.

use vstd::prelude::*;

use crate::digest::{digest_hex, digest_of};

verus! {

/// The last computed classification of a tracked path.
#[derive(Clone, Copy, Debug, PartialEq, Eq, Structural)]
pub enum Status {
    Clean,
    Modified,
    Missing,
    New,
}

/// A point in time as seconds and nanoseconds since the Unix epoch (UTC).
#[derive(Clone, Copy, Debug, PartialEq, Eq, Structural)]
pub struct Timestamp {
    pub secs: i64,
    pub nanos: u32,
}

/// One tracked file.
#[derive(Clone, Debug)]
pub struct FileEntry {
    pub path: String,
    pub hash: String,
    pub last_seen: Timestamp,
    pub status: Status,
}

/// What the registry records for a path: digest text, time, status.
pub type EntryModel = (Seq<char>, Timestamp, Status);

impl FileEntry {
    /// What the registry records for this entry's path.
    pub open spec fn model(self) -> EntryModel {
        (self.hash@, self.last_seen, self.status)
    }
}

/// No two entries share a path.
pub open spec fn paths_unique(s: Seq<FileEntry>) -> bool {
    forall|i: int, j: int| 0 <= i < s.len() && 0 <= j < s.len() && i != j ==> s[i].path@ != s[j].path@
}

/// The mapping that a sequence of entries stands for, each keyed by its path.
pub open spec fn model_of(s: Seq<FileEntry>) -> Map<Seq<char>, EntryModel>
    decreases s.len(),
{
    if s.len() == 0 {
        Map::empty()
    } else {
        model_of(s.drop_last()).insert(s.last().path@, s.last().model())
    }
}

/// A path is a key exactly when some entry has it.
pub proof fn lemma_model_dom(s: Seq<FileEntry>, k: Seq<char>)
    ensures
        model_of(s).contains_key(k) <==> exists|i: int| 0 <= i < s.len() && s[i].path@ == k,
    decreases s.len(),
{
    if s.len() > 0 {
        lemma_model_dom(s.drop_last(), k);
        if model_of(s.drop_last()).contains_key(k) {
            let i = choose|i: int| 0 <= i < s.len() - 1 && s.drop_last()[i].path@ == k;
            assert(s[i].path@ == k);
        }
        if exists|i: int| 0 <= i < s.len() && s[i].path@ == k {
            let i = choose|i: int| 0 <= i < s.len() && s[i].path@ == k;
            if i < s.len() - 1 {
                assert(s.drop_last()[i].path@ == k);
            }
        }
    }
}

/// With unique paths, the mapping is finite and has one key per entry.
pub proof fn lemma_model_len(s: Seq<FileEntry>)
    requires
        paths_unique(s),
    ensures
        model_of(s).dom().finite(),
        model_of(s).len() == s.len(),
    decreases s.len(),
{
    if s.len() > 0 {
        let p = s.drop_last();
        assert(paths_unique(p));
        lemma_model_len(p);
        lemma_model_dom(p, s.last().path@);
        if model_of(p).contains_key(s.last().path@) {
            let i = choose|i: int| 0 <= i < p.len() && p[i].path@ == s.last().path@;
            assert(s[i].path@ == s[s.len() - 1].path@);
        }
    }
}

/// With unique paths, each entry is what the mapping holds for its path.
pub proof fn lemma_model_value(s: Seq<FileEntry>, i: int)
    requires
        paths_unique(s),
        0 <= i < s.len(),
    ensures
        model_of(s).contains_key(s[i].path@),
        model_of(s)[s[i].path@] == s[i].model(),
    decreases s.len(),
{
    if i < s.len() - 1 {
        assert(paths_unique(s.drop_last()));
        assert(s.drop_last()[i] == s[i]);
        lemma_model_value(s.drop_last(), i);
    }
}

/// Replacing the entry at a position by one with the same path replaces
/// that key's value and nothing else.
pub proof fn lemma_model_update(s: Seq<FileEntry>, i: int, e: FileEntry)
    requires
        paths_unique(s),
        0 <= i < s.len(),
        s[i].path@ == e.path@,
    ensures
        paths_unique(s.update(i, e)),
        model_of(s.update(i, e)) == model_of(s).insert(e.path@, e.model()),
    decreases s.len(),
{
    let t = s.update(i, e);
    assert(t.drop_last().len() == s.drop_last().len());
    if i == s.len() - 1 {
        assert(t.drop_last() =~= s.drop_last());
        assert(model_of(t) =~= model_of(s).insert(e.path@, e.model()));
    } else {
        assert(paths_unique(s.drop_last()));
        assert(t.drop_last() =~= s.drop_last().update(i, e));
        lemma_model_update(s.drop_last(), i, e);
        assert(s.last().path@ != e.path@);
        assert(model_of(t) =~= model_of(s).insert(e.path@, e.model()));
    }
}

/// Appending an entry with a new path adds that key and nothing else.
pub proof fn lemma_model_push(s: Seq<FileEntry>, e: FileEntry)
    requires
        paths_unique(s),
        forall|i: int| 0 <= i < s.len() ==> s[i].path@ != e.path@,
    ensures
        paths_unique(s.push(e)),
        model_of(s.push(e)) == model_of(s).insert(e.path@, e.model()),
{
    assert(s.push(e).drop_last() =~= s);
}

/// A tracked-path registry. Entries are kept in a vector whose paths are unique.
pub struct Registry {
    pub entries: Vec<FileEntry>,
}

impl View for Registry {
    type V = Map<Seq<char>, EntryModel>;

    open spec fn view(&self) -> Map<Seq<char>, EntryModel> {
        model_of(self.entries@)
    }
}

fn copy_entry(e: &FileEntry) -> (r: FileEntry)
    ensures
        r == *e,
{
    FileEntry { path: e.path.clone(), hash: e.hash.clone(), last_seen: e.last_seen, status: e.status }
}

impl Default for Registry {
    fn default() -> (r: Self)
        ensures
            r.wf(),
            r@ == Map::<Seq<char>, EntryModel>::empty(),
    {
        Registry::new()
    }
}

impl Registry {
    /// Every key is the path of exactly one entry.
    pub open spec fn wf(&self) -> bool {
        paths_unique(self.entries@)
    }

    /// An empty registry.
    pub fn new() -> (r: Self)
        ensures
            r.wf(),
            r.entries@.len() == 0,
            r@ == Map::<Seq<char>, EntryModel>::empty(),
    {
        Registry { entries: Vec::new() }
    }

    /// The number of tracked paths.
    pub fn len(&self) -> (r: usize)
        requires
            self.wf(),
        ensures
            r == self.entries@.len(),
            r == self@.len(),
    {
        proof {
            lemma_model_len(self.entries@);
        }
        self.entries.len()
    }

    /// The position of the entry for `path`, if it is tracked.
    pub fn position(&self, path: &String) -> (r: Option<usize>)
        ensures
            match r {
                Some(i) => i < self.entries@.len() && self.entries@[i as int].path@ == path@,
                None => !self@.contains_key(path@),
            },
    {
        let mut i: usize = 0;
        while i < self.entries.len()
            invariant
                i <= self.entries@.len(),
                forall|j: int| 0 <= j < i ==> self.entries@[j].path@ != path@,
            decreases self.entries@.len() - i,
        {
            if self.entries[i].path == *path {
                return Some(i);
            }
            i = i + 1;
        }
        proof {
            lemma_model_dom(self.entries@, path@);
        }
        None
    }

    /// The entry recorded for `path`.
    pub fn get(&self, path: &String) -> (r: Option<&FileEntry>)
        requires
            self.wf(),
        ensures
            match r {
                Some(e) => self@.contains_key(path@) && e.path@ == path@ && e.model() == self@[path@],
                None => !self@.contains_key(path@),
            },
    {
        match self.position(path) {
            Some(i) => {
                proof {
                    lemma_model_value(self.entries@, i as int);
                }
                Some(&self.entries[i])
            },
            None => None,
        }
    }

    fn add_single(&mut self, path: &String, content: &Vec<u8>, now: Timestamp)
        requires
            old(self).wf(),
        ensures
            final(self).wf(),
            final(self)@ == old(self)@.insert(path@, (digest_of(content@), now, Status::Clean)),
    {
        let hash = digest_hex(content.as_slice());
        self.upsert(path.clone(), hash, now);
    }

    /// Ingests what was found at a root path, every new entry stamped `now`:
    /// a readable file is upserted, every readable file under a directory is
    /// upserted and unreadable ones there are passed over; an unreadable file
    /// root or a root that is neither file nor directory is an error.
    pub fn add_scanned(&mut self, root: &RootScan, now: Timestamp) -> (r: Result<(), AddError>)
        requires
            old(self).wf(),
        ensures
            final(self).wf(),
            match add_outcome(old(self)@, *root, now) {
                Ok(m) => r is Ok && final(self)@ == m,
                Err(e) => r == Err::<(), AddError>(e) && final(self)@ == old(self)@,
            },
    {
        match root {
            RootScan::File(f) => match &f.content {
                Some(c) => {
                    self.add_single(&f.path, c, now);
                    Ok(())
                },
                None => Err(AddError::Unreadable),
            },
            RootScan::Directory(files) => {
                let ghost start = self@;
                let mut i: usize = 0;
                while i < files.len()
                    invariant
                        self.wf(),
                        i <= files@.len(),
                        self@ == add_files(start, files@.subrange(0, i as int), now),
                    decreases files@.len() - i,
                {
                    let f = &files[i];
                    assert(files@.subrange(0, i + 1).drop_last() =~= files@.subrange(0, i as int));
                    match &f.content {
                        Some(c) => self.add_single(&f.path, c, now),
                        None => {},
                    }
                    i = i + 1;
                }
                assert(files@.subrange(0, files@.len() as int) =~= files@);
                Ok(())
            },
            RootScan::Neither => Err(AddError::NotFileOrDirectory),
        }
    }

    /// Ingests what was found at a root path, every new entry stamped with one
    /// reading of the current time.
    pub fn add_path(&mut self, root: &RootScan) -> (r: Result<(), AddError>)
        requires
            old(self).wf(),
        ensures
            final(self).wf(),
            exists|t: Timestamp|
                match #[trigger] add_outcome(old(self)@, *root, t) {
                    Ok(m) => r is Ok && final(self)@ == m,
                    Err(e) => r == Err::<(), AddError>(e) && final(self)@ == old(self)@,
                },
    {
        let now = current_time();
        let r = self.add_scanned(root, now);
        assert(match add_outcome(old(self)@, *root, now) {
            Ok(m) => r is Ok && self@ == m,
            Err(e) => r == Err::<(), AddError>(e) && self@ == old(self)@,
        });
        r
    }

    /// Each entry listed with its key, as persisted.
    pub fn to_entries(&self) -> (r: Vec<(String, FileEntry)>)
        ensures
            r@.len() == self.entries@.len(),
            forall|i: int| 0 <= i < r@.len() ==> (#[trigger] r@[i]).0@ == self.entries@[i].path@ && r@[i].1 == self.entries@[i],
    {
        let mut r: Vec<(String, FileEntry)> = Vec::new();
        let mut i: usize = 0;
        while i < self.entries.len()
            invariant
                i <= self.entries@.len(),
                r@.len() == i,
                forall|j: int| 0 <= j < i ==> (#[trigger] r@[j]).0@ == self.entries@[j].path@ && r@[j].1 == self.entries@[j],
            decreases self.entries@.len() - i,
        {
            let e = copy_entry(&self.entries[i]);
            r.push((e.path.clone(), e));
            i = i + 1;
        }
        r
    }

    /// Reads a persisted listing back. Every key must be its entry's path, and
    /// no path may be listed twice.
    pub fn from_entries(pairs: &Vec<(String, FileEntry)>) -> (r: Result<Registry, LoadError>)
        ensures
            r is Ok <==> keys_match(pairs@) && paths_unique(listed_entries(pairs@)),
            match r {
                Ok(reg) => reg.wf() && reg.entries@ == listed_entries(pairs@),
                Err(LoadError::KeyMismatch) => !keys_match(pairs@),
                Err(LoadError::DuplicatePath) => keys_match(pairs@) && !paths_unique(listed_entries(pairs@)),
            },
    {
        let ghost listed = listed_entries(pairs@);
        let mut i: usize = 0;
        while i < pairs.len()
            invariant
                i <= pairs@.len(),
                forall|j: int| 0 <= j < i ==> (#[trigger] pairs@[j]).0@ == pairs@[j].1.path@,
            decreases pairs@.len() - i,
        {
            if pairs[i].0 != pairs[i].1.path {
                return Err(LoadError::KeyMismatch);
            }
            i = i + 1;
        }
        let mut reg = Registry::new();
        i = 0;
        assert(listed.subrange(0, 0) =~= Seq::<FileEntry>::empty());
        while i < pairs.len()
            invariant
                i <= pairs@.len(),
                keys_match(pairs@),
                listed == listed_entries(pairs@),
                reg.wf(),
                reg.entries@ == listed.subrange(0, i as int),
            decreases pairs@.len() - i,
        {
            let pos = reg.position(&pairs[i].1.path);
            if let Some(j) = pos {
                assert(reg.entries@[j as int] == listed[j as int]);
                assert(listed[i as int] == pairs@[i as int].1);
                assert(listed[j as int].path@ == listed[i as int].path@);
                assert(!paths_unique(listed));
                return Err(LoadError::DuplicatePath);
            }
            let e = copy_entry(&pairs[i].1);
            proof {
                lemma_model_dom(reg.entries@, e.path@);
                assert(listed.subrange(0, i + 1) =~= listed.subrange(0, i as int).push(e));
            }
            reg.entries.push(e);
            i = i + 1;
        }
        assert(listed.subrange(0, pairs@.len() as int) =~= listed);
        Ok(reg)
    }

    /// Inserts or fully replaces the entry for `path`: the digest and time given,
    /// status Clean.
    pub fn upsert(&mut self, path: String, hash: String, now: Timestamp)
        requires
            old(self).wf(),
        ensures
            final(self).wf(),
            final(self)@ == old(self)@.insert(path@, (hash@, now, Status::Clean)),
    {
        let found = self.position(&path);
        let entry = FileEntry { path, hash, last_seen: now, status: Status::Clean };
        match found {
            Some(i) => {
                proof {
                    lemma_model_update(self.entries@, i as int, entry);
                }
                self.entries.set(i, entry);
            },
            None => {
                proof {
                    lemma_model_dom(self.entries@, entry.path@);
                    lemma_model_push(self.entries@, entry);
                }
                self.entries.push(entry);
            },
        }
    }
}

/// A file found on disk, with its content, or `None` where it could not be read.
pub struct ScannedFile {
    pub path: String,
    pub content: Option<Vec<u8>>,
}

/// What stands at a root path handed to `add_path`.
pub enum RootScan {
    /// A regular file.
    File(ScannedFile),
    /// A directory, with every regular file beneath it.
    Directory(Vec<ScannedFile>),
    /// Nothing, or something that is neither a regular file nor a directory.
    Neither,
}

/// Why a root could not be ingested.
#[derive(Clone, Copy, Debug, PartialEq, Eq, Structural)]
pub enum AddError {
    NotFileOrDirectory,
    Unreadable,
}

/// The registry after upserting each readable file of `files`, in order.
pub open spec fn add_files(m: Map<Seq<char>, EntryModel>, files: Seq<ScannedFile>, now: Timestamp) -> Map<Seq<char>, EntryModel>
    decreases files.len(),
{
    if files.len() == 0 {
        m
    } else {
        let prev = add_files(m, files.drop_last(), now);
        match files.last().content {
            Some(c) => prev.insert(files.last().path@, (digest_of(c@), now, Status::Clean)),
            None => prev,
        }
    }
}

/// The registry after ingesting `root`, or the error that ingesting it gives.
pub open spec fn add_outcome(m: Map<Seq<char>, EntryModel>, root: RootScan, now: Timestamp) -> Result<Map<Seq<char>, EntryModel>, AddError> {
    match root {
        RootScan::File(f) => match f.content {
            Some(c) => Ok(m.insert(f.path@, (digest_of(c@), now, Status::Clean))),
            None => Err(AddError::Unreadable),
        },
        RootScan::Directory(files) => Ok(add_files(m, files@, now)),
        RootScan::Neither => Err(AddError::NotFileOrDirectory),
    }
}

/// Relies on `chrono::Utc::now`: the current time, read as seconds and
/// nanoseconds since the epoch.
#[verifier::external_body]
fn current_time() -> (r: Timestamp)
{
    let t = chrono::Utc::now();
    Timestamp { secs: t.timestamp(), nanos: t.timestamp_subsec_nanos() }
}

/// Why a persisted listing could not be read back as a registry.
#[derive(Clone, Copy, Debug, PartialEq, Eq, Structural)]
pub enum LoadError {
    /// A key differs from the path of its entry.
    KeyMismatch,
    /// Two entries share a path.
    DuplicatePath,
}

/// Every key of a listing is the path of its entry.
pub open spec fn keys_match(pairs: Seq<(String, FileEntry)>) -> bool {
    forall|i: int| 0 <= i < pairs.len() ==> (#[trigger] pairs[i]).0@ == pairs[i].1.path@
}

/// The entries of a listing, in order.
pub open spec fn listed_entries(pairs: Seq<(String, FileEntry)>) -> Seq<FileEntry> {
    pairs.map_values(|p: (String, FileEntry)| p.1)
}

/// Listing a well-formed registry and reading the listing back gives the same
/// registry: the listing is accepted and holds the same keys and entries.
pub proof fn lemma_listing_round_trip(entries: Seq<FileEntry>, pairs: Seq<(String, FileEntry)>)
    requires
        paths_unique(entries),
        pairs.len() == entries.len(),
        forall|i: int| 0 <= i < pairs.len() ==> (#[trigger] pairs[i]).0@ == entries[i].path@ && pairs[i].1 == entries[i],
    ensures
        keys_match(pairs),
        paths_unique(listed_entries(pairs)),
        listed_entries(pairs) == entries,
        model_of(listed_entries(pairs)) == model_of(entries),
{
    assert(listed_entries(pairs) =~= entries);
}

/// Adding the same unchanged file twice leaves the keys as one addition left
/// them, with one entry for its path whose digest is that of its content and
/// whose status is Clean after either addition.
pub proof fn lemma_add_twice(m: Map<Seq<char>, EntryModel>, f: ScannedFile, t1: Timestamp, t2: Timestamp)
    requires
        f.content is Some,
    ensures
        add_outcome(m, RootScan::File(f), t1) is Ok,
        add_outcome(add_outcome(m, RootScan::File(f), t1)->Ok_0, RootScan::File(f), t2) is Ok,
        ({
            let once = add_outcome(m, RootScan::File(f), t1)->Ok_0;
            let twice = add_outcome(once, RootScan::File(f), t2)->Ok_0;
            &&& twice.dom() == once.dom()
            &&& once.contains_key(f.path@)
            &&& once[f.path@].0 == digest_of(f.content->Some_0@)
            &&& twice[f.path@].0 == once[f.path@].0
            &&& once[f.path@].2 == Status::Clean
            &&& twice[f.path@].2 == Status::Clean
        }),
{
    let once = add_outcome(m, RootScan::File(f), t1)->Ok_0;
    let twice = add_outcome(once, RootScan::File(f), t2)->Ok_0;
    assert(twice.dom() =~= once.dom());
}

/// Adding a directory with no regular files beneath it succeeds and leaves the
/// registry as it was.
pub proof fn lemma_add_empty_directory(m: Map<Seq<char>, EntryModel>, files: Vec<ScannedFile>, t: Timestamp)
    requires
        files@.len() == 0,
    ensures
        add_outcome(m, RootScan::Directory(files), t) == Ok::<Map<Seq<char>, EntryModel>, AddError>(m),
{
}

} // verus!
