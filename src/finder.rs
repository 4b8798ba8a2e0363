use std::collections::HashMap;
use vstd::prelude::*;
use crate::count::{count_true, lemma_count_full, lemma_count_le_len, lemma_count_push_false, lemma_count_set};
use crate::digest::crc64_of;
use crate::filter::{admits, ext_view, filter_admits, filter_view};
use crate::keeper::{is_keeper, keeper_index, paths_view};

verus! {

broadcast use vstd::std_specs::hash::group_hash_axioms;

/// The stages of one engine's life, in the only order it goes through them.
#[derive(Clone, Copy, Debug, PartialEq, Eq, Structural)]
pub enum Phase {
    Created,
    Scanning,
    Hashing,
    Indexed,
    Deleting,
    Done,
}

/// Misuse of the engine: an operation called out of sequence or on a wrong index.
#[derive(Clone, Copy, Debug, PartialEq, Eq, Structural)]
pub enum FinderError {
    /// The operation does not belong to the current phase.
    OutOfSequence,
    /// No candidate has this index.
    UnknownCandidate,
    /// A result for this candidate was recorded before.
    AlreadyHashed,
    /// Some candidate has no recorded result yet.
    HashingIncomplete,
    /// Some group has not been resolved yet.
    DeletionIncomplete,
}

/// The position of a phase in the pipeline's order.
pub open spec fn rank(p: Phase) -> int {
    match p {
        Phase::Created => 0,
        Phase::Scanning => 1,
        Phase::Hashing => 2,
        Phase::Indexed => 3,
        Phase::Deleting => 4,
        Phase::Done => 5,
    }
}

/// The candidates that share one digest, in the order their results arrived.
struct Bucket {
    digest: u64,
    members: Vec<usize>,
}

/// A copy of a list of indices.
fn copy_indices(v: &Vec<usize>) -> (r: Vec<usize>)
    ensures
        r@ == v@,
{
    let mut r: Vec<usize> = Vec::new();
    let mut i: usize = 0;
    while i < v.len()
        invariant
            0 <= i <= v@.len(),
            r@ == v@.subrange(0, i as int),
        decreases v@.len() - i,
    {
        r.push(v[i]);
        i = i + 1;
        assert(r@ =~= v@.subrange(0, i as int));
    }
    assert(r@ =~= v@);
    r
}

/// The duplicate-finding engine: it admits candidate paths from a walk of the tree,
/// takes one hashing outcome per candidate, groups candidates by equal digest, and
/// then hands out, group by group, the members to remove.
///
/// The walk, the reading of files and the removal of files are done by the caller,
/// which reports each result back; the engine decides everything else.
pub struct DuplicateFinder {
    search_path: String,
    file_formats: Option<Vec<String>>,
    phase: Phase,
    candidates: Vec<String>,
    extensions: Ghost<Seq<Option<Seq<char>>>>,
    hashed: Vec<bool>,
    digests: Vec<Option<u64>>,
    processed: usize,
    buckets: Vec<Bucket>,
    bucket_of: HashMap<u64, usize>,
    groups: Vec<Vec<usize>>,
    resolved: usize,
}

impl DuplicateFinder {
    pub closed spec fn phase(&self) -> Phase {
        self.phase
    }

    /// The root of the tree to search.
    pub closed spec fn root(&self) -> Seq<char> {
        self.search_path@
    }

    /// The extension filter; `None` admits every entry that is not a directory.
    pub closed spec fn filter(&self) -> Option<Seq<Seq<char>>> {
        filter_view(self.file_formats)
    }

    /// The admitted candidate paths, in the order of admission.
    pub closed spec fn candidates(&self) -> Seq<Seq<char>> {
        paths_view(self.candidates@)
    }

    /// The extension each candidate was admitted with.
    pub closed spec fn extensions(&self) -> Seq<Option<Seq<char>>> {
        self.extensions@
    }

    /// Which candidates have a recorded hashing outcome.
    pub closed spec fn hashed(&self) -> Seq<bool> {
        self.hashed@
    }

    /// The recorded digest of each candidate; `None` where hashing failed or has
    /// not been recorded.
    pub closed spec fn digests(&self) -> Seq<Option<u64>> {
        self.digests@
    }

    /// The number of recorded hashing outcomes.
    pub closed spec fn processed(&self) -> nat {
        self.processed as nat
    }

    /// The duplicate groups, as lists of candidate indices.
    pub closed spec fn groups(&self) -> Seq<Seq<usize>> {
        self.groups@.map_values(|g: Vec<usize>| g@)
    }

    /// The number of groups resolved for deletion.
    pub closed spec fn resolved(&self) -> nat {
        self.resolved as nat
    }

    /// The paths of group `g`.
    pub open spec fn group_paths(&self, g: int) -> Seq<Seq<char>> {
        self.groups()[g].map_values(|m: usize| self.candidates()[m as int])
    }

    /// The digest that the members of group `g` share.
    pub open spec fn group_digest(&self, g: int) -> Option<u64> {
        self.digests()[self.groups()[g][0] as int]
    }

    closed spec fn buckets_wf(&self) -> bool {
        let n = self.candidates@.len();
        &&& forall|b: int| 0 <= b < self.buckets@.len() ==> {
            let bk = #[trigger] self.buckets@[b];
            &&& bk.members@.len() > 0
            &&& bk.members@.no_duplicates()
            &&& forall|k: int| 0 <= k < bk.members@.len() ==> {
                &&& #[trigger] bk.members@[k] < n
                &&& self.digests@[bk.members@[k] as int] == Some(bk.digest)
            }
        }
        &&& forall|b1: int, b2: int|
            0 <= b1 < self.buckets@.len() && 0 <= b2 < self.buckets@.len() && b1 != b2
                ==> #[trigger] self.buckets@[b1].digest != #[trigger] self.buckets@[b2].digest
        &&& forall|d: u64| #[trigger] self.bucket_of@.contains_key(d) ==> {
            &&& self.bucket_of@[d] < self.buckets@.len()
            &&& self.buckets@[self.bucket_of@[d] as int].digest == d
        }
        &&& forall|b: int| 0 <= b < self.buckets@.len()
            ==> self.bucket_of@.contains_key(#[trigger] self.buckets@[b].digest)
        &&& forall|i: int| 0 <= i < n && (#[trigger] self.digests@[i]) is Some ==> exists|b: int|
            0 <= b < self.buckets@.len() && (#[trigger] self.buckets@[b]).digest == self.digests@[i]->Some_0
                && self.buckets@[b].members@.contains(i as usize)
    }

    /// What the duplicate groups satisfy once they are formed.
    pub open spec fn groups_wf(&self) -> bool {
        let n = self.candidates().len();
        let gs = self.groups();
        &&& forall|g: int| 0 <= g < gs.len() ==> {
            &&& (#[trigger] gs[g]).len() >= 2
            &&& gs[g].no_duplicates()
            &&& self.group_digest(g) is Some
            &&& forall|k: int| 0 <= k < gs[g].len() ==> {
                &&& #[trigger] gs[g][k] < n
                &&& self.digests()[gs[g][k] as int] == self.group_digest(g)
            }
        }
        &&& forall|g1: int, g2: int|
            0 <= g1 < gs.len() && 0 <= g2 < gs.len() && g1 != g2
                ==> #[trigger] self.group_digest(g1) != #[trigger] self.group_digest(g2)
        &&& forall|i: int, j: int|
            0 <= i < n && 0 <= j < n && i != j && (#[trigger] self.digests()[i]) is Some
                && self.digests()[i] == #[trigger] self.digests()[j]
                ==> exists|g: int| 0 <= g < gs.len() && (#[trigger] gs[g]).contains(i as usize)
                    && gs[g].contains(j as usize)
    }

    /// The engine's invariant.
    pub closed spec fn wf(&self) -> bool {
        let n = self.candidates@.len();
        &&& self.hashed@.len() == n
        &&& self.digests@.len() == n
        &&& self.extensions@.len() == n
        &&& forall|i: int| 0 <= i < n ==> admits(self.filter(), #[trigger] self.extensions@[i])
        &&& forall|i: int| 0 <= i < n && !(#[trigger] self.hashed@[i]) ==> self.digests@[i] is None
        &&& self.processed == count_true(self.hashed@)
        &&& self.buckets_wf()
        &&& (self.phase == Phase::Created ==> n == 0)
        &&& (rank(self.phase) >= 3 ==> forall|i: int| 0 <= i < n ==> #[trigger] self.hashed@[i])
        &&& (rank(self.phase) >= 3 ==> self.groups_wf())
        &&& (rank(self.phase) < 3 ==> self.groups@.len() == 0)
        &&& self.resolved <= self.groups@.len()
        &&& (rank(self.phase) < 4 ==> self.resolved == 0)
        &&& (self.phase == Phase::Done ==> self.resolved == self.groups@.len())
    }

    /// A new engine for the tree at `search_path`, with an optional filter of
    /// lower-case extensions.
    pub fn new(search_path: String, file_formats: Option<Vec<String>>) -> (r: DuplicateFinder)
        ensures
            r.wf(),
            r.phase() == Phase::Created,
            r.root() == search_path@,
            r.filter() == filter_view(file_formats),
            r.candidates().len() == 0,
            r.extensions().len() == 0,
            r.hashed().len() == 0,
            r.digests().len() == 0,
            r.processed() == 0,
            r.groups().len() == 0,
            r.resolved() == 0,
    {
        let r = DuplicateFinder {
            search_path,
            file_formats,
            phase: Phase::Created,
            candidates: Vec::new(),
            extensions: Ghost(Seq::empty()),
            hashed: Vec::new(),
            digests: Vec::new(),
            processed: 0,
            buckets: Vec::new(),
            bucket_of: HashMap::new(),
            groups: Vec::new(),
            resolved: 0,
        };
        assert(r.groups() =~= Seq::empty());
        r
    }
    /// Starts discovery. Discovery runs once per engine: a second start is refused.
    pub fn begin_scan(&mut self) -> (r: Result<(), FinderError>)
        requires
            old(self).wf(),
        ensures
            final(self).wf(),
            old(self).phase() == Phase::Created ==> r is Ok && final(self).phase() == Phase::Scanning,
            old(self).phase() != Phase::Created ==> r == Err::<(), FinderError>(FinderError::OutOfSequence)
                && final(self).phase() == old(self).phase(),
            final(self).candidates() == old(self).candidates(),
            final(self).extensions() == old(self).extensions(),
            final(self).hashed() == old(self).hashed(),
            final(self).digests() == old(self).digests(),
            final(self).processed() == old(self).processed(),
            final(self).groups() == old(self).groups(),
            final(self).resolved() == old(self).resolved(),
            final(self).filter() == old(self).filter(),
            final(self).root() == old(self).root(),
    {
        if self.phase != Phase::Created {
            return Err(FinderError::OutOfSequence);
        }
        self.phase = Phase::Scanning;
        Ok(())
    }

    /// Whether an entry with this extension passes the engine's filter.
    pub fn is_media_file(&self, extension: Option<&str>) -> (r: bool)
        ensures
            r == admits(self.filter(), ext_view(extension)),
    {
        filter_admits(&self.file_formats, extension)
    }

    /// Reports one entry of the walk. It becomes a candidate, and counts as found,
    /// exactly when it is not a directory and its extension passes the filter; the
    /// result says whether it did.
    pub fn add_entry(&mut self, path: String, is_dir: bool, extension: Option<&str>) -> (r: Result<bool, FinderError>)
        requires
            old(self).wf(),
        ensures
            final(self).wf(),
            final(self).phase() == old(self).phase(),
            final(self).filter() == old(self).filter(),
            final(self).root() == old(self).root(),
            final(self).processed() == old(self).processed(),
            final(self).groups() == old(self).groups(),
            final(self).resolved() == old(self).resolved(),
            old(self).phase() != Phase::Scanning ==> r == Err::<bool, FinderError>(FinderError::OutOfSequence)
                && final(self).candidates() == old(self).candidates()
                && final(self).extensions() == old(self).extensions()
                && final(self).hashed() == old(self).hashed()
                && final(self).digests() == old(self).digests(),
            old(self).phase() == Phase::Scanning ==> {
                let admitted = !is_dir && admits(old(self).filter(), ext_view(extension));
                &&& r == Ok::<bool, FinderError>(admitted)
                &&& admitted ==> final(self).candidates() == old(self).candidates().push(path@)
                    && final(self).extensions() == old(self).extensions().push(ext_view(extension))
                    && final(self).digests() == old(self).digests().push(None)
                    && final(self).hashed() == old(self).hashed().push(false)
                &&& !admitted ==> final(self).candidates() == old(self).candidates()
                    && final(self).extensions() == old(self).extensions()
                    && final(self).digests() == old(self).digests()
                    && final(self).hashed() == old(self).hashed()
            },
    {
        if self.phase != Phase::Scanning {
            return Err(FinderError::OutOfSequence);
        }
        if is_dir || !self.is_media_file(extension) {
            return Ok(false);
        }
        proof {
            lemma_count_push_false(self.hashed@);
        }
        let ghost path_view = path@;
        self.candidates.push(path);
        self.extensions = Ghost(self.extensions@.push(ext_view(extension)));
        self.hashed.push(false);
        self.digests.push(None);
        assert(self.candidates() =~= old(self).candidates().push(path_view));
        Ok(true)
    }

    /// Ends the walk: the tree has been enumerated and hashing may begin.
    pub fn finish_scan(&mut self) -> (r: Result<(), FinderError>)
        requires
            old(self).wf(),
        ensures
            final(self).wf(),
            final(self).candidates() == old(self).candidates(),
            final(self).extensions() == old(self).extensions(),
            final(self).hashed() == old(self).hashed(),
            final(self).digests() == old(self).digests(),
            final(self).processed() == old(self).processed(),
            final(self).groups() == old(self).groups(),
            final(self).resolved() == old(self).resolved(),
            final(self).filter() == old(self).filter(),
            final(self).root() == old(self).root(),
            old(self).phase() == Phase::Scanning ==> r is Ok && final(self).phase() == Phase::Hashing,
            old(self).phase() != Phase::Scanning ==> r == Err::<(), FinderError>(FinderError::OutOfSequence)
                && final(self).phase() == old(self).phase(),
    {
        if self.phase != Phase::Scanning {
            return Err(FinderError::OutOfSequence);
        }
        self.phase = Phase::Hashing;
        Ok(())
    }
    /// Records the hashing outcome of candidate `index`: its digest, or `None`
    /// where the file could not be read. Each candidate counts as processed once,
    /// whatever its outcome; a failed one joins no group.
    pub fn record_hash(&mut self, index: usize, digest: Option<u64>) -> (r: Result<(), FinderError>)
        requires
            old(self).wf(),
        ensures
            final(self).groups() == old(self).groups(),
            final(self).resolved() == old(self).resolved(),
            final(self).wf(),
            final(self).phase() == old(self).phase(),
            final(self).candidates() == old(self).candidates(),
            final(self).extensions() == old(self).extensions(),
            final(self).filter() == old(self).filter(),
            final(self).root() == old(self).root(),
            old(self).phase() != Phase::Hashing ==> r == Err::<(), FinderError>(FinderError::OutOfSequence),
            old(self).phase() == Phase::Hashing && index >= old(self).candidates().len()
                ==> r == Err::<(), FinderError>(FinderError::UnknownCandidate),
            old(self).phase() == Phase::Hashing && index < old(self).candidates().len()
                && old(self).hashed()[index as int]
                ==> r == Err::<(), FinderError>(FinderError::AlreadyHashed),
            r is Err ==> final(self).hashed() == old(self).hashed() && final(self).digests()
                == old(self).digests() && final(self).processed() == old(self).processed(),
            old(self).phase() == Phase::Hashing && index < old(self).candidates().len()
                && !old(self).hashed()[index as int] ==> {
                &&& r is Ok
                &&& final(self).hashed() == old(self).hashed().update(index as int, true)
                &&& final(self).digests() == old(self).digests().update(index as int, digest)
                &&& final(self).processed() == old(self).processed() + 1
            },
    {
        if self.phase != Phase::Hashing {
            return Err(FinderError::OutOfSequence);
        }
        if index >= self.candidates.len() {
            return Err(FinderError::UnknownCandidate);
        }
        if self.hashed[index] {
            return Err(FinderError::AlreadyHashed);
        }
        proof {
            lemma_count_set(self.hashed@, index as int);
            lemma_count_le_len(self.hashed@.update(index as int, true));
        }
        self.hashed.set(index, true);
        self.processed = self.processed + 1;
        if let Some(d) = digest {
            let ghost old_buckets = self.buckets@;
            let ghost old_digests = self.digests@;
            assert forall|b: int, k: int|
                0 <= b < old_buckets.len() && 0 <= k < old_buckets[b].members@.len()
                implies #[trigger] old_buckets[b].members@[k] != index by {
                let bk = old_buckets[b];
                assert(old_digests[bk.members@[k] as int] == Some(bk.digest));
            }
            self.digests.set(index, Some(d));
            let found: Option<usize> = match self.bucket_of.get(&d) {
                Some(pos) => Some(*pos),
                None => None,
            };
            let b: usize = match found {
                Some(pos) => pos,
                None => self.buckets.len(),
            };
            assert(b < old_buckets.len() ==> old_buckets[b as int].digest == d);
            assert(b == old_buckets.len() ==> forall|c: int| 0 <= c < old_buckets.len()
                ==> (#[trigger] old_buckets[c]).digest != d);
            if b < self.buckets.len() {
                let ghost len = old_buckets[b as int].members@.len();
                self.buckets[b].members.push(index);
                assert(self.buckets@[b as int].members@[len as int] == index);
            } else {
                let mut members: Vec<usize> = Vec::new();
                members.push(index);
                self.buckets.push(Bucket { digest: d, members });
                self.bucket_of.insert(d, b);
                assert(self.buckets@[b as int].members@[0] == index);
            }
            assert forall|i: int| 0 <= i < self.candidates@.len() && (#[trigger] self.digests@[i]) is Some
                implies exists|c: int| 0 <= c < self.buckets@.len() && (#[trigger] self.buckets@[c]).digest
                    == self.digests@[i]->Some_0 && self.buckets@[c].members@.contains(i as usize) by {
                if i == index {
                    assert(self.buckets@[b as int].digest == d);
                } else {
                    let c = choose|c: int| 0 <= c < old_buckets.len() && (#[trigger] old_buckets[c]).digest
                        == old_digests[i]->Some_0 && old_buckets[c].members@.contains(i as usize);
                    let k = choose|k: int| 0 <= k < old_buckets[c].members@.len()
                        && old_buckets[c].members@[k] == i as usize;
                    assert(self.buckets@[c].members@[k] == i as usize);
                }
            }
        }
        Ok(())
    }
    /// Ends the hash phase once every candidate has an outcome, and forms the
    /// duplicate groups: one per digest that two or more candidates share.
    pub fn finish_hashing(&mut self) -> (r: Result<(), FinderError>)
        requires
            old(self).wf(),
        ensures
            final(self).resolved() == old(self).resolved(),
            final(self).wf(),
            final(self).candidates() == old(self).candidates(),
            final(self).extensions() == old(self).extensions(),
            final(self).hashed() == old(self).hashed(),
            final(self).digests() == old(self).digests(),
            final(self).processed() == old(self).processed(),
            final(self).filter() == old(self).filter(),
            final(self).root() == old(self).root(),
            old(self).phase() != Phase::Hashing ==> r == Err::<(), FinderError>(FinderError::OutOfSequence)
                && final(self).phase() == old(self).phase(),
            old(self).phase() == Phase::Hashing && old(self).processed() < old(self).candidates().len()
                ==> r == Err::<(), FinderError>(FinderError::HashingIncomplete)
                && final(self).phase() == old(self).phase(),
            old(self).phase() == Phase::Hashing && old(self).processed() == old(self).candidates().len()
                ==> r is Ok && final(self).phase() == Phase::Indexed,
            r is Ok ==> final(self).groups_wf() && forall|i: int|
                0 <= i < final(self).candidates().len() ==> #[trigger] final(self).hashed()[i],
            r is Err ==> final(self).groups() == old(self).groups(),
    {
        if self.phase != Phase::Hashing {
            return Err(FinderError::OutOfSequence);
        }
        proof {
            lemma_count_le_len(self.hashed@);
        }
        if self.processed < self.candidates.len() {
            return Err(FinderError::HashingIncomplete);
        }
        proof {
            lemma_count_full(self.hashed@);
        }
        let n = self.candidates.len();
        let mut groups: Vec<Vec<usize>> = Vec::new();
        let ghost mut origin: Seq<int> = Seq::empty();
        let mut b: usize = 0;
        while b < self.buckets.len()
            invariant
                self.wf(),
                self.phase == Phase::Hashing,
                self.candidates@.len() == n,
                0 <= b <= self.buckets@.len(),
                origin.len() == groups@.len(),
                forall|g1: int, g2: int| 0 <= g1 < g2 < origin.len() ==> #[trigger] origin[g1] < #[trigger] origin[g2],
                forall|g: int| 0 <= g < origin.len() ==> {
                    &&& 0 <= #[trigger] origin[g] < b
                    &&& groups@[g]@ == self.buckets@[origin[g]].members@
                    &&& self.buckets@[origin[g]].members@.len() >= 2
                },
                forall|c: int| 0 <= c < b && (#[trigger] self.buckets@[c]).members@.len() >= 2
                    ==> exists|g: int| 0 <= g < origin.len() && origin[g] == c,
            decreases self.buckets@.len() - b,
        {
            let ghost prev = origin;
            if self.buckets[b].members.len() >= 2 {
                let copy = copy_indices(&self.buckets[b].members);
                groups.push(copy);
                proof {
                    origin = origin.push(b as int);
                    assert(origin[origin.len() - 1] == b as int);
                }
            }
            proof {
                assert forall|c: int| 0 <= c < b + 1 && (#[trigger] self.buckets@[c]).members@.len() >= 2
                    implies exists|g: int| 0 <= g < origin.len() && origin[g] == c by {
                    if c == b as int {
                        assert(origin[origin.len() - 1] == c);
                    } else {
                        let g = choose|g: int| 0 <= g < prev.len() && prev[g] == c;
                        assert(origin[g] == c);
                    }
                }
            }
            b = b + 1;
        }
        self.groups = groups;
        self.phase = Phase::Indexed;
        proof {
            let gs = self.groups();
            assert forall|g: int| 0 <= g < gs.len() implies {
                &&& (#[trigger] gs[g]).len() >= 2
                &&& gs[g].no_duplicates()
                &&& self.group_digest(g) is Some
                &&& forall|k: int| 0 <= k < gs[g].len() ==> {
                    &&& #[trigger] gs[g][k] < n
                    &&& self.digests()[gs[g][k] as int] == self.group_digest(g)
                }
            } by {
                let bk = self.buckets@[origin[g]];
                assert(gs[g] == bk.members@);
                assert(self.digests()[bk.members@[0] as int] == Some(bk.digest));
            }
            assert forall|g1: int, g2: int|
                0 <= g1 < gs.len() && 0 <= g2 < gs.len() && g1 != g2
                implies #[trigger] self.group_digest(g1) != #[trigger] self.group_digest(g2) by {
                let b1 = self.buckets@[origin[g1]];
                let b2 = self.buckets@[origin[g2]];
                assert(gs[g1] == b1.members@);
                assert(gs[g2] == b2.members@);
                assert(self.digests()[b1.members@[0] as int] == Some(b1.digest));
                assert(self.digests()[b2.members@[0] as int] == Some(b2.digest));
                assert(origin[g1] != origin[g2]);
            }
            assert forall|i: int, j: int|
                0 <= i < n && 0 <= j < n && i != j && (#[trigger] self.digests()[i]) is Some
                    && self.digests()[i] == #[trigger] self.digests()[j]
                implies exists|g: int| 0 <= g < gs.len() && (#[trigger] gs[g]).contains(i as usize)
                    && gs[g].contains(j as usize) by {
                let ci = choose|c: int| 0 <= c < self.buckets@.len() && (#[trigger] self.buckets@[c]).digest
                    == self.digests@[i]->Some_0 && self.buckets@[c].members@.contains(i as usize);
                let cj = choose|c: int| 0 <= c < self.buckets@.len() && (#[trigger] self.buckets@[c]).digest
                    == self.digests@[j]->Some_0 && self.buckets@[c].members@.contains(j as usize);
                assert(ci == cj);
                let m = self.buckets@[ci].members@;
                let ki = choose|k: int| 0 <= k < m.len() && m[k] == i as usize;
                let kj = choose|k: int| 0 <= k < m.len() && m[k] == j as usize;
                assert(ki != kj);
                let g = choose|g: int| 0 <= g < origin.len() && origin[g] == ci;
                assert(gs[g] == m);
            }
        }
        Ok(())
    }
    /// The members of group `g` to remove: all but the keeper, which is the
    /// member with the shortest path in bytes, the first such in the group's order.
    pub fn group_removals(&self, g: usize) -> (r: Vec<String>)
        requires
            self.wf(),
            rank(self.phase()) >= 3,
            g < self.groups().len(),
        ensures
            exists|k: int| is_keeper(self.group_paths(g as int), k)
                && paths_view(r@) == self.group_paths(g as int).remove(k),
    {
        proof {
            assert(self.groups_wf());
        }
        let ghost gp = self.group_paths(g as int);
        let group = &self.groups[g];
        assert(group@ == self.groups()[g as int]);
        let mut paths: Vec<String> = Vec::new();
        let mut i: usize = 0;
        while i < group.len()
            invariant
                self.wf(),
                rank(self.phase()) >= 3,
                g < self.groups().len(),
                group@ == self.groups()[g as int],
                gp == self.group_paths(g as int),
                0 <= i <= group@.len(),
                paths_view(paths@) == gp.subrange(0, i as int),
            decreases group@.len() - i,
        {
            let m = group[i];
            assert(self.groups()[g as int][i as int] == m);
            assert(m < self.candidates@.len());
            let ghost prev = paths@;
            let c = self.candidates[m].clone();
            assert(gp[i as int] == c@);
            paths.push(c);
            assert(paths_view(paths@) =~= paths_view(prev).push(c@));
            i = i + 1;
            assert(paths_view(paths@) =~= gp.subrange(0, i as int));
        }
        assert(paths_view(paths@) =~= gp);
        let k = keeper_index(&paths);
        let mut removals: Vec<String> = Vec::new();
        let mut j: usize = 0;
        while j < paths.len()
            invariant
                paths_view(paths@) == gp,
                0 <= k < gp.len(),
                0 <= j <= gp.len(),
                paths_view(removals@) == if j <= k {
                    gp.subrange(0, j as int)
                } else {
                    gp.subrange(0, k as int) + gp.subrange(k + 1, j as int)
                },
            decreases gp.len() - j,
        {
            let ghost prev = removals@;
            if j != k {
                let c = paths[j].clone();
                assert(c@ == gp[j as int]);
                removals.push(c);
                assert(paths_view(removals@) =~= paths_view(prev).push(c@));
            }
            j = j + 1;
            assert(paths_view(removals@) =~= if j <= k {
                gp.subrange(0, j as int)
            } else {
                gp.subrange(0, k as int) + gp.subrange(k + 1, j as int)
            });
        }
        assert(paths_view(removals@) =~= gp.remove(k as int));
        removals
    }

    /// Starts deletion, which only follows a completed discovery.
    pub fn begin_deletion(&mut self) -> (r: Result<(), FinderError>)
        requires
            old(self).wf(),
        ensures
            final(self).extensions() == old(self).extensions(),
            final(self).hashed() == old(self).hashed(),
            final(self).processed() == old(self).processed(),
            final(self).filter() == old(self).filter(),
            final(self).root() == old(self).root(),
            final(self).wf(),
            final(self).candidates() == old(self).candidates(),
            final(self).digests() == old(self).digests(),
            final(self).groups() == old(self).groups(),
            final(self).resolved() == old(self).resolved(),
            old(self).phase() == Phase::Indexed ==> r is Ok && final(self).phase() == Phase::Deleting,
            old(self).phase() != Phase::Indexed ==> r == Err::<(), FinderError>(FinderError::OutOfSequence)
                && final(self).phase() == old(self).phase(),
    {
        if self.phase != Phase::Indexed {
            return Err(FinderError::OutOfSequence);
        }
        self.phase = Phase::Deleting;
        Ok(())
    }

    /// The members to remove from the next unresolved group, in the order the
    /// groups were formed; `None` when deletion is not under way or every group
    /// is resolved.
    pub fn next_removals(&self) -> (r: Option<Vec<String>>)
        requires
            self.wf(),
        ensures
            (self.phase() == Phase::Deleting && self.resolved() < self.groups().len()) == r is Some,
            r is Some ==> exists|k: int| is_keeper(self.group_paths(self.resolved() as int), k)
                && paths_view(r->Some_0@) == self.group_paths(self.resolved() as int).remove(k),
    {
        if self.phase != Phase::Deleting || self.resolved >= self.groups.len() {
            return None;
        }
        Some(self.group_removals(self.resolved))
    }

    /// Counts the next group as resolved, once per group, whatever became of the
    /// removal of its members.
    pub fn mark_group_resolved(&mut self) -> (r: Result<(), FinderError>)
        requires
            old(self).wf(),
        ensures
            final(self).extensions() == old(self).extensions(),
            final(self).hashed() == old(self).hashed(),
            final(self).digests() == old(self).digests(),
            final(self).processed() == old(self).processed(),
            final(self).filter() == old(self).filter(),
            final(self).root() == old(self).root(),
            final(self).wf(),
            final(self).phase() == old(self).phase(),
            final(self).candidates() == old(self).candidates(),
            final(self).groups() == old(self).groups(),
            old(self).phase() == Phase::Deleting && old(self).resolved() < old(self).groups().len()
                ==> r is Ok && final(self).resolved() == old(self).resolved() + 1,
            !(old(self).phase() == Phase::Deleting && old(self).resolved() < old(self).groups().len())
                ==> r == Err::<(), FinderError>(FinderError::OutOfSequence)
                && final(self).resolved() == old(self).resolved(),
    {
        if self.phase != Phase::Deleting || self.resolved >= self.groups.len() {
            return Err(FinderError::OutOfSequence);
        }
        self.resolved = self.resolved + 1;
        Ok(())
    }

    /// Ends deletion once every group is resolved; the resolved count then equals
    /// the number of groups.
    pub fn finish_deletion(&mut self) -> (r: Result<(), FinderError>)
        requires
            old(self).wf(),
        ensures
            final(self).extensions() == old(self).extensions(),
            final(self).hashed() == old(self).hashed(),
            final(self).digests() == old(self).digests(),
            final(self).processed() == old(self).processed(),
            final(self).filter() == old(self).filter(),
            final(self).root() == old(self).root(),
            final(self).wf(),
            final(self).candidates() == old(self).candidates(),
            final(self).groups() == old(self).groups(),
            final(self).resolved() == old(self).resolved(),
            old(self).phase() != Phase::Deleting ==> r == Err::<(), FinderError>(FinderError::OutOfSequence)
                && final(self).phase() == old(self).phase(),
            old(self).phase() == Phase::Deleting && old(self).resolved() < old(self).groups().len()
                ==> r == Err::<(), FinderError>(FinderError::DeletionIncomplete)
                && final(self).phase() == old(self).phase(),
            old(self).phase() == Phase::Deleting && old(self).resolved() == old(self).groups().len()
                ==> r is Ok && final(self).phase() == Phase::Done,
            final(self).phase() == Phase::Done ==> final(self).resolved() == final(self).groups().len(),
    {
        if self.phase != Phase::Deleting {
            return Err(FinderError::OutOfSequence);
        }
        if self.resolved < self.groups.len() {
            return Err(FinderError::DeletionIncomplete);
        }
        self.phase = Phase::Done;
        Ok(())
    }
    /// The root of the tree to search.
    pub fn get_search_path(&self) -> (r: String)
        ensures
            r@ == self.root(),
    {
        self.search_path.clone()
    }

    /// The number of candidates found so far.
    pub fn get_file_count(&self) -> (r: usize)
        requires
            self.wf(),
        ensures
            r == self.candidates().len(),
    {
        self.candidates.len()
    }

    /// The path of candidate `index`.
    pub fn candidate_path(&self, index: usize) -> (r: String)
        requires
            index < self.candidates().len(),
        ensures
            r@ == self.candidates()[index as int],
    {
        self.candidates[index].clone()
    }

    /// The number of candidates whose hashing outcome has been recorded.
    pub fn get_processed_count(&self) -> (r: usize)
        ensures
            r == self.processed(),
    {
        self.processed
    }

    /// The number of groups resolved for deletion.
    pub fn get_deleted_count(&self) -> (r: usize)
        ensures
            r == self.resolved(),
    {
        self.resolved
    }

    /// The current phase.
    pub fn get_phase(&self) -> (r: Phase)
        ensures
            r == self.phase(),
    {
        self.phase
    }

    /// Whether the walk of the tree is complete.
    pub fn get_has_found_files(&self) -> (r: bool)
        ensures
            r == (rank(self.phase()) >= 2),
    {
        match self.phase {
            Phase::Created | Phase::Scanning => false,
            _ => true,
        }
    }

    /// Whether every candidate has been hashed.
    pub fn get_has_processed_files(&self) -> (r: bool)
        ensures
            r == (rank(self.phase()) >= 3),
    {
        match self.phase {
            Phase::Created | Phase::Scanning | Phase::Hashing => false,
            _ => true,
        }
    }

    /// Whether discovery is complete and the groups are final.
    pub fn get_has_finished(&self) -> (r: bool)
        ensures
            r == (rank(self.phase()) >= 3),
    {
        self.get_has_processed_files()
    }

    /// The duplicate groups as lists of paths; empty before they are formed.
    pub fn get_duplicates(&self) -> (r: Vec<Vec<String>>)
        requires
            self.wf(),
        ensures
            r@.len() == self.groups().len(),
            forall|g: int| 0 <= g < r@.len() ==> paths_view((#[trigger] r@[g])@) == self.group_paths(g),
    {
        proof {
            if rank(self.phase) >= 3 {
                assert(self.groups_wf());
            }
        }
        let mut r: Vec<Vec<String>> = Vec::new();
        let mut g: usize = 0;
        while g < self.groups.len()
            invariant
                self.wf(),
                0 <= g <= self.groups@.len(),
                r@.len() == g,
                forall|h: int| 0 <= h < g ==> paths_view((#[trigger] r@[h])@) == self.group_paths(h),
            decreases self.groups@.len() - g,
        {
            let group = &self.groups[g];
            assert(group@ == self.groups()[g as int]);
            let ghost gp = self.group_paths(g as int);
            let mut paths: Vec<String> = Vec::new();
            let mut i: usize = 0;
            while i < group.len()
                invariant
                    self.wf(),
                    g < self.groups@.len(),
                    group@ == self.groups()[g as int],
                    gp == self.group_paths(g as int),
                    0 <= i <= group@.len(),
                    paths_view(paths@) == gp.subrange(0, i as int),
                decreases group@.len() - i,
            {
                let m = group[i];
                proof {
                    if rank(self.phase) >= 3 {
                        assert(self.groups_wf());
                        assert(self.groups()[g as int][i as int] == m);
                    }
                }
                assert(m < self.candidates@.len());
                let ghost prev = paths@;
                let c = self.candidates[m].clone();
                assert(gp[i as int] == c@);
                paths.push(c);
                assert(paths_view(paths@) =~= paths_view(prev).push(c@));
                i = i + 1;
            }
            assert(paths_view(paths@) =~= gp);
            r.push(paths);
            g = g + 1;
        }
        r
    }
}




/// What the engine's invariant tells a caller: one digest, extension and flag per
/// candidate, a processed count that never exceeds the candidates, no resolved
/// group before deletion starts, and every group resolved once it is done.
pub proof fn lemma_engine_shape(f: &DuplicateFinder)
    requires
        f.wf(),
    ensures
        f.hashed().len() == f.candidates().len(),
        f.digests().len() == f.candidates().len(),
        f.extensions().len() == f.candidates().len(),
        f.processed() == count_true(f.hashed()),
        f.processed() <= f.candidates().len(),
        forall|i: int| 0 <= i < f.candidates().len() && !(#[trigger] f.hashed()[i]) ==> f.digests()[i] is None,
        f.resolved() <= f.groups().len(),
        rank(f.phase()) < 3 ==> f.groups().len() == 0,
        rank(f.phase()) < 4 ==> f.resolved() == 0,
        f.phase() == Phase::Done ==> f.resolved() == f.groups().len(),
        f.phase() == Phase::Created ==> f.candidates().len() == 0,
        rank(f.phase()) >= 3 ==> f.groups_wf() && forall|i: int|
            0 <= i < f.candidates().len() ==> #[trigger] f.hashed()[i],
{
    lemma_count_le_len(f.hashed());
}

/// Files whose contents are byte for byte the same, and whose digests were
/// recorded, stand together in exactly one duplicate group once the groups are
/// formed.
pub proof fn lemma_identical_content_one_group(f: &DuplicateFinder, i: usize, j: usize, content: Seq<u8>)
    requires
        f.wf(),
        rank(f.phase()) >= 3,
        i < f.candidates().len(),
        j < f.candidates().len(),
        i != j,
        f.digests()[i as int] == Some(crc64_of(content)),
        f.digests()[j as int] == Some(crc64_of(content)),
    ensures
        exists|g: int| 0 <= g < f.groups().len() && (#[trigger] f.groups()[g]).contains(i)
            && f.groups()[g].contains(j),
        forall|g1: int, g2: int|
            0 <= g1 < f.groups().len() && 0 <= g2 < f.groups().len()
                && (#[trigger] f.groups()[g1]).contains(i)
                && (#[trigger] f.groups()[g2]).contains(i) ==> g1 == g2,
{
    assert(f.groups_wf());
    assert(f.digests()[i as int] == f.digests()[j as int]);
    assert forall|g1: int, g2: int|
        0 <= g1 < f.groups().len() && 0 <= g2 < f.groups().len()
            && (#[trigger] f.groups()[g1]).contains(i)
            && (#[trigger] f.groups()[g2]).contains(i) implies g1 == g2 by {
        lemma_member_digest(f, g1, i);
        lemma_member_digest(f, g2, i);
    }
}

/// A member of a group carries the group's digest.
proof fn lemma_member_digest(f: &DuplicateFinder, g: int, i: usize)
    requires
        f.wf(),
        rank(f.phase()) >= 3,
        0 <= g < f.groups().len(),
        f.groups()[g].contains(i),
    ensures
        i < f.candidates().len(),
        f.digests()[i as int] == f.group_digest(g),
        f.group_digest(g) is Some,
{
    assert(f.groups_wf());
    let k = choose|k: int| 0 <= k < f.groups()[g].len() && f.groups()[g][k] == i;
    assert(f.groups()[g][k] < f.candidates().len());
}

/// Two candidates share a group only when both were hashed to the same digest:
/// candidates with different digests, or without one, never share a group.
pub proof fn lemma_different_digests_never_grouped(f: &DuplicateFinder, i: usize, j: usize)
    requires
        f.wf(),
        rank(f.phase()) >= 3,
        f.digests()[i as int] is None || f.digests()[i as int] != f.digests()[j as int],
    ensures
        forall|g: int| 0 <= g < f.groups().len() ==> !((#[trigger] f.groups()[g]).contains(i)
            && f.groups()[g].contains(j)),
{
    assert forall|g: int| 0 <= g < f.groups().len() implies !((#[trigger] f.groups()[g]).contains(i)
        && f.groups()[g].contains(j)) by {
        if f.groups()[g].contains(i) && f.groups()[g].contains(j) {
            lemma_member_digest(f, g, i);
            lemma_member_digest(f, g, j);
        }
    }
}

/// Every duplicate group has at least two members, and none twice.
pub proof fn lemma_groups_have_two_members(f: &DuplicateFinder)
    requires
        f.wf(),
    ensures
        forall|g: int| 0 <= g < f.groups().len() ==> (#[trigger] f.groups()[g]).len() >= 2
            && f.groups()[g].no_duplicates(),
{
    if rank(f.phase()) >= 3 {
        assert(f.groups_wf());
    }
}

/// Every candidate, and so every member of a group, was admitted by the filter:
/// an entry whose extension the filter does not name is never found, hashed or
/// grouped.
pub proof fn lemma_only_admitted_candidates(f: &DuplicateFinder)
    requires
        f.wf(),
    ensures
        forall|i: int| 0 <= i < f.candidates().len() ==> admits(f.filter(), #[trigger] f.extensions()[i]),
        forall|g: int, k: int| 0 <= g < f.groups().len() && 0 <= k < f.groups()[g].len()
            ==> (#[trigger] f.groups()[g][k]) < f.candidates().len()
            && admits(f.filter(), f.extensions()[f.groups()[g][k] as int]),
{
    if rank(f.phase()) >= 3 {
        assert(f.groups_wf());
    }
}

/// Once deletion is done, the resolved count equals the number of duplicate
/// groups, each of two members or more, whatever the removals of files did.
pub proof fn lemma_resolved_count_after_deletion(f: &DuplicateFinder)
    requires
        f.wf(),
        f.phase() == Phase::Done,
    ensures
        f.resolved() == f.groups().len(),
        forall|g: int| 0 <= g < f.groups().len() ==> (#[trigger] f.groups()[g]).len() >= 2,
{
    lemma_groups_have_two_members(f);
}

} // verus!
