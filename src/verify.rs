//! The verification engine: classifies each tracked path against what is on
//! disk now, tallies the outcomes, and lists files on disk that are not tracked.

use vstd::prelude::*;
use vstd::string::StringExecFns;

use crate::digest::{digest_hex, digest_of, normalized, same_digest};
use crate::registry::{lemma_model_dom, paths_unique, EntryModel, FileEntry, Registry, Status};

verus! {

/// What is found now at a tracked path.
pub enum Observation {
    /// Nothing exists at the path.
    Absent,
    /// Something exists there but could not be read.
    Unreadable,
    /// The file's current content.
    Readable(Vec<u8>),
}

/// The classification of one tracked path in one verification pass.
#[derive(Clone, Copy, Debug, PartialEq, Eq, Structural)]
pub enum Outcome {
    Clean,
    Modified,
    Missing,
    Unreadable,
}

/// Counts of one verification pass. `total` counts every classified entry;
/// unreadable entries are counted apart and in none of the other fields.
pub struct VerifyResult {
    pub total: usize,
    pub modified: usize,
    pub missing: usize,
    pub clean: usize,
    pub unreadable: usize,
}

/// How a tracked path with recorded digest `stored` is classified.
pub open spec fn outcome_of(stored: Seq<char>, obs: Observation) -> Outcome {
    match obs {
        Observation::Absent => Outcome::Missing,
        Observation::Unreadable => Outcome::Unreadable,
        Observation::Readable(c) => if normalized(digest_of(c@)) == normalized(stored) {
            Outcome::Clean
        } else {
            Outcome::Modified
        },
    }
}

/// The status an entry holds after a pass: an unreadable entry keeps its old one.
pub open spec fn status_after(old: Status, o: Outcome) -> Status {
    match o {
        Outcome::Clean => Status::Clean,
        Outcome::Modified => Status::Modified,
        Outcome::Missing => Status::Missing,
        Outcome::Unreadable => old,
    }
}

/// The outcome of each entry, position by position.
pub open spec fn outcomes(entries: Seq<FileEntry>, obs: Seq<Observation>) -> Seq<Outcome> {
    Seq::new(entries.len(), |i: int| outcome_of(entries[i].hash@, obs[i]))
}

/// How many times `o` occurs in `s`.
pub open spec fn count_of(s: Seq<Outcome>, o: Outcome) -> nat
    decreases s.len(),
{
    if s.len() == 0 {
        0
    } else {
        count_of(s.drop_last(), o) + if s.last() == o { 1nat } else { 0nat }
    }
}

impl VerifyResult {
    /// The counts are those of the outcomes `os`.
    pub open spec fn tallies(&self, os: Seq<Outcome>) -> bool {
        &&& self.clean == count_of(os, Outcome::Clean)
        &&& self.modified == count_of(os, Outcome::Modified)
        &&& self.missing == count_of(os, Outcome::Missing)
        &&& self.unreadable == count_of(os, Outcome::Unreadable)
        &&& self.total == self.clean + self.modified + self.missing
    }
}

/// Every outcome is one of the four kinds, so the four counts add up to the
/// number of entries.
pub proof fn lemma_counts_cover(s: Seq<Outcome>)
    ensures
        count_of(s, Outcome::Clean) + count_of(s, Outcome::Modified) + count_of(s, Outcome::Missing)
            + count_of(s, Outcome::Unreadable) == s.len(),
    decreases s.len(),
{
    if s.len() > 0 {
        lemma_counts_cover(s.drop_last());
    }
}

/// After a pass each entry holds exactly one classification, and the entries
/// classified number the entries less the unreadable ones.
pub proof fn lemma_verification_complete(entries: Seq<FileEntry>, obs: Seq<Observation>, r: VerifyResult)
    requires
        obs.len() == entries.len(),
        r.tallies(outcomes(entries, obs)),
    ensures
        forall|i: int| 0 <= i < entries.len() ==> {
            let o = #[trigger] outcomes(entries, obs)[i];
            (o == Outcome::Clean) as int + (o == Outcome::Modified) as int + (o == Outcome::Missing) as int
                + (o == Outcome::Unreadable) as int == 1
        },
        r.total == entries.len() - r.unreadable,
{
    lemma_counts_cover(outcomes(entries, obs));
}

/// The entries after a pass: same paths, digests and times, statuses updated.
pub open spec fn entries_after(before: Seq<FileEntry>, after: Seq<FileEntry>, obs: Seq<Observation>) -> bool {
    &&& after.len() == before.len()
    &&& forall|i: int| 0 <= i < before.len() ==> {
        &&& (#[trigger] after[i]).path == before[i].path
        &&& after[i].hash == before[i].hash
        &&& after[i].last_seen == before[i].last_seen
        &&& after[i].status == status_after(before[i].status, outcome_of(before[i].hash@, obs[i]))
    }
}

proof fn lemma_count_step(s: Seq<Outcome>, i: int, o: Outcome)
    requires
        0 <= i < s.len(),
    ensures
        count_of(s.subrange(0, i + 1), o) == count_of(s.subrange(0, i), o) + if s[i] == o { 1nat } else { 0nat },
{
    assert(s.subrange(0, i + 1).drop_last() =~= s.subrange(0, i));
}

/// Classifies every entry against `observed`, where `observed[i]` is what is
/// found now at the path of entry `i`, and records each status in place.
pub fn verify_registry(registry: &mut Registry, observed: &Vec<Observation>) -> (r: VerifyResult)
    requires
        old(registry).wf(),
        observed@.len() == old(registry).entries@.len(),
    ensures
        final(registry).wf(),
        entries_after(old(registry).entries@, final(registry).entries@, observed@),
        final(registry)@.dom() == old(registry)@.dom(),
        r.tallies(outcomes(old(registry).entries@, observed@)),
        r.total + r.unreadable == old(registry).entries@.len(),
{
    let ghost before = registry.entries@;
    let ghost os = outcomes(before, observed@);
    let mut r = VerifyResult { total: 0, modified: 0, missing: 0, clean: 0, unreadable: 0 };
    let n = registry.entries.len();
    let mut i: usize = 0;
    while i < n
        invariant
            n == before.len(),
            observed@.len() == n,
            os == outcomes(before, observed@),
            i <= n,
            registry.entries@.len() == n,
            forall|j: int| 0 <= j < n ==> {
                &&& (#[trigger] registry.entries@[j]).path == before[j].path
                &&& registry.entries@[j].hash == before[j].hash
                &&& registry.entries@[j].last_seen == before[j].last_seen
            },
            forall|j: int| 0 <= j < i ==> (#[trigger] registry.entries@[j]).status == status_after(before[j].status, os[j]),
            forall|j: int| i <= j < n ==> (#[trigger] registry.entries@[j]).status == before[j].status,
            r.tallies(os.subrange(0, i as int)),
            r.total + r.unreadable == i,
        decreases n - i,
    {
        proof {
            lemma_count_step(os, i as int, Outcome::Clean);
            lemma_count_step(os, i as int, Outcome::Modified);
            lemma_count_step(os, i as int, Outcome::Missing);
            lemma_count_step(os, i as int, Outcome::Unreadable);
        }
        match &observed[i] {
            Observation::Absent => {
                registry.entries[i].status = Status::Missing;
                r.missing = r.missing + 1;
                r.total = r.total + 1;
            },
            Observation::Unreadable => {
                r.unreadable = r.unreadable + 1;
            },
            Observation::Readable(c) => {
                let current = digest_hex(c.as_slice());
                if same_digest(&current, &registry.entries[i].hash) {
                    registry.entries[i].status = Status::Clean;
                    r.clean = r.clean + 1;
                } else {
                    registry.entries[i].status = Status::Modified;
                    r.modified = r.modified + 1;
                }
                r.total = r.total + 1;
            },
        }
        i = i + 1;
    }
    assert(os.subrange(0, n as int) =~= os);
    proof {
        assert(paths_unique(registry.entries@));
        assert forall|k: Seq<char>| #[trigger] registry@.dom().contains(k) == old(registry)@.dom().contains(k) by {
            lemma_model_dom(registry.entries@, k);
            lemma_model_dom(before, k);
            if registry@.dom().contains(k) {
                let j = choose|j: int| 0 <= j < n && registry.entries@[j].path@ == k;
                assert(before[j].path@ == k);
            }
            if old(registry)@.dom().contains(k) {
                let j = choose|j: int| 0 <= j < n && before[j].path@ == k;
                assert(registry.entries@[j].path@ == k);
            }
        }
        assert(registry@.dom() =~= old(registry)@.dom());
    }
    r
}

/// The paths of `found` that are not keys of `m`, in their order.
pub open spec fn untracked(m: Map<Seq<char>, EntryModel>, found: Seq<String>) -> Seq<Seq<char>>
    decreases found.len(),
{
    if found.len() == 0 {
        Seq::empty()
    } else {
        let prev = untracked(m, found.drop_last());
        if m.contains_key(found.last()@) {
            prev
        } else {
            prev.push(found.last()@)
        }
    }
}

/// The files found on disk that the registry does not track, to be reported as
/// new. The registry is only read.
pub fn find_new_files(registry: &Registry, found: &Vec<String>) -> (r: Vec<String>)
    ensures
        r@.map_values(|s: String| s@) == untracked(registry@, found@),
{
    let mut r: Vec<String> = Vec::new();
    let mut i: usize = 0;
    while i < found.len()
        invariant
            i <= found@.len(),
            r@.map_values(|s: String| s@) == untracked(registry@, found@.subrange(0, i as int)),
        decreases found@.len() - i,
    {
        assert(found@.subrange(0, i + 1).drop_last() =~= found@.subrange(0, i as int));
        let pos = registry.position(&found[i]);
        if let Some(j) = pos {
            proof {
                lemma_model_dom(registry.entries@, found@[i as int]@);
                assert(registry.entries@[j as int].path@ == found@[i as int]@);
            }
        } else {
            let ghost prev = r@;
            r.push(found[i].clone());
            assert(r@.map_values(|s: String| s@) =~= prev.map_values(|s: String| s@).push(found@[i as int]@));
        }
        i = i + 1;
    }
    assert(found@.subrange(0, found@.len() as int) =~= found@);
    r
}

/// Decimal digits of a natural number, most significant first.
pub open spec fn decimal_text(n: nat) -> Seq<char>
    decreases n,
{
    if n < 10 {
        seq![decimal_digit(n)]
    } else {
        decimal_text(n / 10) + seq![decimal_digit(n % 10)]
    }
}

pub open spec fn decimal_digit(d: nat) -> char {
    if d == 0 { '0' } else if d == 1 { '1' } else if d == 2 { '2' } else if d == 3 { '3' }
    else if d == 4 { '4' } else if d == 5 { '5' } else if d == 6 { '6' } else if d == 7 { '7' }
    else if d == 8 { '8' } else { '9' }
}

/// Relies on `usize`'s `Display` through `ToString::to_string`: plain decimal
/// digits without sign, padding or separators.
#[verifier::external_body]
fn decimal(n: usize) -> (r: String)
    ensures
        r@ == decimal_text(n as nat),
{
    n.to_string()
}

/// The summary of a pass: one line of totals, then one line per category.
pub open spec fn report_text(total: nat, clean: nat, modified: nat, missing: nat, unreadable: nat) -> Seq<char> {
    "Verified "@ + decimal_text(total) + " entries:\n  Clean: "@ + decimal_text(clean) + "\n  Modified: "@
        + decimal_text(modified) + "\n  Missing: "@ + decimal_text(missing) + "\n  Unreadable: "@
        + decimal_text(unreadable)
}

/// The summary that a pass with outcomes `os` reports.
pub open spec fn report_of(os: Seq<Outcome>) -> Seq<char> {
    report_text(
        count_of(os, Outcome::Clean) + count_of(os, Outcome::Modified) + count_of(os, Outcome::Missing),
        count_of(os, Outcome::Clean),
        count_of(os, Outcome::Modified),
        count_of(os, Outcome::Missing),
        count_of(os, Outcome::Unreadable),
    )
}

/// The human-readable summary of a pass.
pub fn summary_text(result: &VerifyResult) -> (r: String)
    ensures
        r@ == report_text(
            result.total as nat,
            result.clean as nat,
            result.modified as nat,
            result.missing as nat,
            result.unreadable as nat,
        ),
{
    let mut s = String::from_str("Verified ");
    s.append(decimal(result.total).as_str());
    s.append(" entries:\n  Clean: ");
    s.append(decimal(result.clean).as_str());
    s.append("\n  Modified: ");
    s.append(decimal(result.modified).as_str());
    s.append("\n  Missing: ");
    s.append(decimal(result.missing).as_str());
    s.append("\n  Unreadable: ");
    s.append(decimal(result.unreadable).as_str());
    s
}

/// The verify command on a loaded registry: classifies every entry against
/// `observed`, records the statuses, and returns the summary to show.
pub fn cmd_verify(registry: &mut Registry, observed: &Vec<Observation>) -> (r: String)
    requires
        old(registry).wf(),
        observed@.len() == old(registry).entries@.len(),
    ensures
        final(registry).wf(),
        entries_after(old(registry).entries@, final(registry).entries@, observed@),
        final(registry)@.dom() == old(registry)@.dom(),
        r@ == report_of(outcomes(old(registry).entries@, observed@)),
{
    let result = verify_registry(registry, observed);
    summary_text(&result)
}

} // verus!
