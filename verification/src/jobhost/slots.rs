//! The slot book: the live jobs of a host by root id, the index from a root
//! cause to the job it started, and the index from an outstanding child
//! request to the job that issued it.

use crate::envelope::id::EnvelopeId;
use crate::job::{lemma_job_parts, Hooks, Job};
use crate::keyed::Keyed;
use crate::text::debug_str;
use crate::Error;
use vstd::prelude::*;

verus! {

/// A job together with its hooks.
pub struct Slot {
    pub job: Job,
    pub hooks: Hooks,
}

/// A slot as the book sees it: the job, and which hooks it has.
pub struct SlotView {
    pub job: Job,
    pub begins: bool,
    pub stages: bool,
    pub finishes: bool,
}

impl View for Slot {
    type V = SlotView;

    open spec fn view(&self) -> SlotView {
        SlotView {
            job: self.job,
            begins: self.hooks.on_begin is Some,
            stages: self.hooks.on_stage_result is Some,
            finishes: self.hooks.on_finished is Some,
        }
    }
}

/// Whether `j` is a root job: its root envelope is its own cause.
pub open spec fn is_root_job(j: Job) -> bool {
    j.root_env().header.id@ == j.root_env().header.cause@
}

/// Whether a live root job already stands for `cause`.
pub open spec fn cause_occupied(jobs: Map<Seq<char>, Job>, cause: Seq<char>) -> bool {
    exists|k: Seq<char>|
        #![trigger jobs[k]]
        jobs.contains_key(k) && is_root_job(jobs[k]) && jobs[k].root_env().header.cause@ == cause
}

/// The ids `ks[..n]`, as a set.
pub open spec fn prefix_keys(ks: Seq<EnvelopeId>, n: int) -> Set<Seq<char>> {
    Set::new(|k: Seq<char>| exists|j: int| 0 <= j < n && #[trigger] ks[j]@ == k)
}

/// The entries of `m` that map to `key`.
pub open spec fn pointing_to(m: Map<Seq<char>, Seq<char>>, key: Seq<char>) -> Set<Seq<char>> {
    Set::new(|c: Seq<char>| m.contains_key(c) && m[c] == key)
}

/// Every id in `ks` mapped to `key`.
pub open spec fn all_to(ks: Set<Seq<char>>, key: Seq<char>) -> Map<Seq<char>, Seq<char>> {
    Map::new(|c: Seq<char>| ks.contains(c), |c: Seq<char>| key)
}

/// The message of a duplicated key or cause.
pub open spec fn id_debug(id: Seq<char>) -> Seq<char> {
    "EnvelopeId("@ + debug_str(id) + ")"@
}

/// Where a result for `cause` goes when no child index names its job: the
/// job the cause started, else the job keyed by the cause itself.
pub open spec fn active_key_spec(
    jobs: Map<Seq<char>, Job>,
    causes: Map<Seq<char>, Seq<char>>,
    cause: Seq<char>,
) -> Option<Seq<char>> {
    if causes.contains_key(cause) {
        Some(causes[cause])
    } else if jobs.contains_key(cause) {
        Some(cause)
    } else {
        None
    }
}

/// The key of the job a result for request `rid` with cause `cause` goes
/// to: the job that issued the request, else the job for the cause.
pub open spec fn route_key(b: SlotBook, rid: Seq<char>, cause: Seq<char>) -> Option<Seq<char>> {
    if b.children().contains_key(rid) {
        Some(b.children()[rid])
    } else {
        active_key_spec(b.jobs(), b.causes(), cause)
    }
}

proof fn lemma_prefix_step(ks: Seq<EnvelopeId>, i: int)
    requires
        0 <= i < ks.len(),
    ensures
        prefix_keys(ks, i + 1) == prefix_keys(ks, i).insert(ks[i]@),
{
    assert forall|k: Seq<char>| prefix_keys(ks, i + 1).contains(k) implies prefix_keys(ks, i).insert(ks[i]@).contains(k) by {
        let j = choose|j: int| 0 <= j < i + 1 && #[trigger] ks[j]@ == k;
        if j < i {
            assert(prefix_keys(ks, i).contains(k));
        }
    }
    assert forall|k: Seq<char>| prefix_keys(ks, i).insert(ks[i]@).contains(k) implies prefix_keys(ks, i + 1).contains(k) by {
        if k == ks[i]@ {
            assert(ks[i]@ == k);
        } else {
            let j = choose|j: int| 0 <= j < i && #[trigger] ks[j]@ == k;
            assert(ks[j]@ == k);
        }
    }
    assert(prefix_keys(ks, i + 1) =~= prefix_keys(ks, i).insert(ks[i]@));
}

/// `b1` is `b0` after putting back job `j`: a finished job leaves the book
/// (with its child entries); a live one is stored under its root id, its
/// outstanding requests indexed as its children, and a root job becomes the
/// job of its cause if none is.
pub open spec fn placed(b0: SlotBook, b1: SlotBook, j: Job) -> bool {
    let key = j.root_env().header.id@;
    let cause = j.root_env().header.cause@;
    if j.is_done() {
        &&& b1.jobs() == b0.jobs()
        &&& b1.causes() == b0.causes()
        &&& b1.children() == b0.children().remove_keys(pointing_to(b0.children(), key))
    } else {
        &&& b1.jobs() == b0.jobs().insert(key, j)
        &&& b1.causes() == if is_root_job(j) && !b0.causes().contains_key(cause) {
            b0.causes().insert(cause, key)
        } else {
            b0.causes()
        }
        &&& b1.children() == b0.children().union_prefer_right(all_to(j.pending().dom(), key))
    }
}

/// The live jobs after putting back job `j`.
pub open spec fn jobs_after_place(jobs: Map<Seq<char>, Job>, j: Job) -> Map<Seq<char>, Job> {
    if j.is_done() {
        jobs
    } else {
        jobs.insert(j.root_env().header.id@, j)
    }
}

/// Each live job is stored under its root id, and the cause index points
/// only at live root jobs, each under its own cause.
pub open spec fn indexed(b: SlotBook) -> bool {
    &&& forall|k: Seq<char>| #[trigger] b.jobs().contains_key(k) ==> b.jobs()[k].root_env().header.id@ == k
    &&& forall|c: Seq<char>|
        #[trigger] b.causes().contains_key(c) ==> {
            let k = b.causes()[c];
            &&& b.jobs().contains_key(k)
            &&& is_root_job(b.jobs()[k])
            &&& b.jobs()[k].root_env().header.cause@ == c
        }
}

/// After a root job is adopted into a consistent book, a result for its
/// cause finds it, and the book stays consistent.
pub proof fn law_adopted_root_found(b0: SlotBook, b1: SlotBook, j: Job)
    requires
        indexed(b0),
        is_root_job(j),
        !b0.jobs().contains_key(j.root_env().header.id@),
        !cause_occupied(b0.jobs(), j.root_env().header.cause@),
        b1.jobs() == b0.jobs().insert(j.root_env().header.id@, j),
        b1.causes() == b0.causes().insert(j.root_env().header.cause@, j.root_env().header.id@),
    ensures
        indexed(b1),
        active_key_spec(b1.jobs(), b1.causes(), j.root_env().header.cause@) == Some(j.root_env().header.id@),
        b1.jobs()[j.root_env().header.id@] == j,
{
    let key = j.root_env().header.id@;
    let cause = j.root_env().header.cause@;
    assert forall|c: Seq<char>| #[trigger] b1.causes().contains_key(c) implies {
        let k = b1.causes()[c];
        &&& b1.jobs().contains_key(k)
        &&& is_root_job(b1.jobs()[k])
        &&& b1.jobs()[k].root_env().header.cause@ == c
    } by {
        if c != cause {
            let k = b0.causes()[c];
            assert(b0.jobs().contains_key(k));
            assert(k != key);
        }
    }
}

/// The live jobs of a host and their indexes.
pub struct SlotBook {
    by_id: Keyed<Slot>,
    cause_index: Keyed<EnvelopeId>,
    child_index: Keyed<EnvelopeId>,
}

impl SlotBook {
    /// The live slots by root id.
    pub closed spec fn slots(&self) -> Map<Seq<char>, SlotView> {
        self.by_id@
    }

    /// The live jobs by root id.
    pub closed spec fn jobs(&self) -> Map<Seq<char>, Job> {
        self.by_id@.map_values(|s: SlotView| s.job)
    }

    /// The ids of the live jobs, oldest first.
    pub closed spec fn key_order(&self) -> Seq<Seq<char>> {
        self.by_id.order()
    }

    /// Root cause to the key of the job it started.
    pub closed spec fn causes(&self) -> Map<Seq<char>, Seq<char>> {
        self.cause_index@
    }

    /// Child request id to the key of the job that issued it.
    pub closed spec fn children(&self) -> Map<Seq<char>, Seq<char>> {
        self.child_index@
    }

    /// No key held twice in any of the three stores.
    pub closed spec fn wf(&self) -> bool {
        &&& self.by_id.wf()
        &&& self.cause_index.wf()
        &&& self.child_index.wf()
    }

    /// The keys held are those of the map.
    pub proof fn lemma_key_order(&self)
        ensures
            forall|k: Seq<char>| self.jobs().contains_key(k) <==> self.key_order().contains(k),
    {
        self.by_id.lemma_order_dom();
    }

    /// An empty book.
    pub fn new() -> (b: SlotBook)
        ensures
            b.jobs() == Map::<Seq<char>, Job>::empty(),
            b.causes() == Map::<Seq<char>, Seq<char>>::empty(),
            b.children() == Map::<Seq<char>, Seq<char>>::empty(),
            b.wf(),
            indexed(b),
    {
        SlotBook { by_id: Keyed::new(), cause_index: Keyed::new(), child_index: Keyed::new() }
    }

    /// Whether a live root job already stands for `cause`.
    fn cause_taken(&self, cause: &EnvelopeId) -> (r: bool)
        ensures
            self.wf() ==> r == cause_occupied(self.jobs(), cause@),
    {
        let n = self.by_id.len();
        let mut i: usize = 0;
        while i < n
            invariant
                n == self.by_id.order().len(),
                i <= n,
                self.wf() ==> forall|j: int|
                    #![trigger self.by_id.order()[j]]
                    0 <= j < i ==> !(is_root_job(self.jobs()[self.by_id.order()[j]])
                        && self.jobs()[self.by_id.order()[j]].root_env().header.cause@ == cause@),
            decreases n - i,
        {
            let (k, slot) = self.by_id.entry_at(i);
            proof {
                lemma_job_parts(slot.job);
            }
            let h = &slot.job.root.header;
            if h.id.same(&h.cause) && h.cause.same(cause) {
                proof {
                    if self.wf() {
                        assert(self.jobs()[k@] == slot.job);
                        assert(self.jobs().contains_key(k@) && is_root_job(self.jobs()[k@])
                            && self.jobs()[k@].root_env().header.cause@ == cause@);
                    }
                }
                return true;
            }
            i = i + 1;
        }
        proof {
            if self.wf() {
                self.by_id.lemma_order_dom();
                if cause_occupied(self.jobs(), cause@) {
                    let k = choose|k: Seq<char>|
                        #![trigger self.jobs()[k]]
                        self.jobs().contains_key(k) && is_root_job(self.jobs()[k])
                            && self.jobs()[k].root_env().header.cause@ == cause@;
                    assert(self.by_id.order().contains(k));
                    let j = choose|j: int| 0 <= j < self.by_id.order().len() && self.by_id.order()[j] == k;
                    assert(self.by_id.order()[j] == k);
                }
            }
        }
        false
    }

    /// Takes in a fresh job. Fails when a job with the same root id is live,
    /// or when a root job is live for the same cause.
    pub fn adopt(&mut self, slot: Slot) -> (r: Result<(), Error>)
        ensures
            ({
                let j = slot.job;
                let key = j.root_env().header.id@;
                let cause = j.root_env().header.cause@;
                if old(self).jobs().contains_key(key) {
                    (r matches Err(Error::State(m)) && m@ == "duplicate job key: "@ + id_debug(key))
                        && final(self).jobs() == old(self).jobs() && final(self).causes() == old(self).causes()
                } else if is_root_job(j) && old(self).wf() && cause_occupied(old(self).jobs(), cause) {
                    (r matches Err(Error::State(m)) && m@ == "duplicate job cause: "@ + id_debug(cause))
                        && final(self).jobs() == old(self).jobs() && final(self).causes() == old(self).causes()
                } else if is_root_job(j) && !old(self).wf() && r is Err {
                    final(self).jobs() == old(self).jobs() && final(self).causes() == old(self).causes()
                } else {
                    &&& r is Ok
                    &&& final(self).jobs() == old(self).jobs().insert(key, j)
                    &&& final(self).causes() == if is_root_job(j) {
                        old(self).causes().insert(cause, key)
                    } else {
                        old(self).causes()
                    }
                }
            }),
            final(self).children() == old(self).children(),
            old(self).wf() ==> final(self).wf(),
            indexed(*old(self)) && old(self).wf() ==> indexed(*final(self)),
            r is Ok ==> final(self).slots() == old(self).slots().insert(slot.job.root_env().header.id@, slot@),
            r is Err ==> final(self).slots() == old(self).slots(),
    {
        proof {
            lemma_job_parts(slot.job);
        }
        let key = slot.job.root.header.id.clone();
        if self.by_id.contains(&key) {
            let q = crate::text::debug_quote(key.0.as_str());
            let m1 = crate::text::concat2("duplicate job key: EnvelopeId(", q.as_str());
            let m2 = crate::text::concat2(m1.as_str(), ")");
            proof {
                reveal_strlit("duplicate job key: EnvelopeId(");
                reveal_strlit("duplicate job key: ");
                reveal_strlit("EnvelopeId(");
                assert(m2@ =~= "duplicate job key: "@ + id_debug(key@));
            }
            return Err(Error::State(m2));
        }
        let id = slot.job.root.header.id.clone();
        let cause = slot.job.root.header.cause.clone();
        if id.same(&cause) {
            if self.cause_taken(&cause) {
                let q = crate::text::debug_quote(cause.0.as_str());
                let m1 = crate::text::concat2("duplicate job cause: EnvelopeId(", q.as_str());
                let m2 = crate::text::concat2(m1.as_str(), ")");
                proof {
                    reveal_strlit("duplicate job cause: EnvelopeId(");
                    reveal_strlit("duplicate job cause: ");
                    reveal_strlit("EnvelopeId(");
                    assert(m2@ =~= "duplicate job cause: "@ + id_debug(cause@));
                }
                return Err(Error::State(m2));
            }
            self.cause_index.insert(cause, key);
        }
        let k2 = slot.job.root.header.id.clone();
        let ghost j = slot.job;
        let ghost sv = slot@;
        let ghost before = self.by_id@;
        self.by_id.insert(k2, slot);
        proof {
            assert(self.jobs() =~= old(self).jobs().insert(j.root_env().header.id@, j));
            if indexed(*old(self)) && old(self).wf() {
                let kk = j.root_env().header.id@;
                let cc = j.root_env().header.cause@;
                assert forall|c: Seq<char>| #[trigger] self.causes().contains_key(c) implies {
                    let k = self.causes()[c];
                    &&& self.jobs().contains_key(k)
                    &&& is_root_job(self.jobs()[k])
                    &&& self.jobs()[k].root_env().header.cause@ == c
                } by {
                    if !(is_root_job(j) && c == cc) {
                        let k = old(self).causes()[c];
                        assert(old(self).jobs().contains_key(k));
                        assert(k != kk);
                    }
                }
            }
        }
        Ok(())
    }

    /// Takes the job keyed `key` out of the book; a root job also leaves the
    /// cause index.
    pub fn take(&mut self, key: &EnvelopeId) -> (r: Option<Slot>)
        ensures
            final(self).jobs() == old(self).jobs().remove(key@),
            final(self).children() == old(self).children(),
            match r {
                Some(s) => {
                    let cause = s.job.root_env().header.cause@;
                    &&& old(self).jobs().contains_key(key@)
                    &&& s@ == old(self).slots()[key@]
                    &&& s.job == old(self).jobs()[key@]
                    &&& final(self).causes() == if old(self).causes().contains_key(cause) && old(
                        self,
                    ).causes()[cause] == key@ {
                        old(self).causes().remove(cause)
                    } else {
                        old(self).causes()
                    }
                },
                None => !old(self).jobs().contains_key(key@) && final(self).causes() == old(self).causes(),
            },
            old(self).wf() ==> final(self).wf(),
            indexed(*old(self)) ==> indexed(*final(self)),
            final(self).slots() == old(self).slots().remove(key@),
    {
        let slot = match self.by_id.remove(key) {
            None => {
                assert(self.jobs() =~= old(self).jobs().remove(key@));
                return None;
            },
            Some(s) => s,
        };
        assert(self.jobs() =~= old(self).jobs().remove(key@));
        proof {
            lemma_job_parts(slot.job);
        }
        let hdr_cause = slot.job.root.header.cause.clone();
        let hit = match self.cause_index.get(&hdr_cause) {
            Some(k) => k.same(key),
            None => false,
        };
        if hit {
            let _ = self.cause_index.remove(&hdr_cause);
        }
        proof {
            if indexed(*old(self)) {
                assert forall|c: Seq<char>| #[trigger] self.causes().contains_key(c) implies {
                    let k = self.causes()[c];
                    &&& self.jobs().contains_key(k)
                    &&& is_root_job(self.jobs()[k])
                    &&& self.jobs()[k].root_env().header.cause@ == c
                } by {
                    let k = old(self).causes()[c];
                    assert(old(self).jobs().contains_key(k));
                    if k == key@ {
                        assert(old(self).jobs()[k].root_env().header.cause@ == c);
                        assert(c == hdr_cause@);
                    }
                }
            }
        }
        Some(slot)
    }

    /// Notes that child request `child` belongs to the job keyed `key`.
    pub fn index_child(&mut self, child: &EnvelopeId, key: &EnvelopeId)
        ensures
            final(self).children() == old(self).children().insert(child@, key@),
            final(self).jobs() == old(self).jobs(),
            final(self).slots() == old(self).slots(),
            final(self).causes() == old(self).causes(),
            old(self).wf() ==> final(self).wf(),
    {
        self.child_index.insert(child.clone(), key.clone());
    }

    /// The key of the job that issued child request `child`.
    pub fn child_key(&self, child: &EnvelopeId) -> (r: Option<&EnvelopeId>)
        ensures
            match r {
                Some(k) => self.children().contains_key(child@) && k@ == self.children()[child@],
                None => !self.children().contains_key(child@),
            },
    {
        self.child_index.get(child)
    }

    /// Drops every child entry of the job keyed `key`.
    fn remove_child_entries(&mut self, key: &EnvelopeId)
        ensures
            final(self).children() == old(self).children().remove_keys(pointing_to(old(self).children(), key@)),
            final(self).jobs() == old(self).jobs(),
            final(self).slots() == old(self).slots(),
            final(self).causes() == old(self).causes(),
            old(self).wf() ==> final(self).wf(),
    {
        let ks = self.child_index.keys();
        let ghost c0 = self.child_index@;
        let mut i: usize = 0;
        assert(c0.remove_keys(pointing_to(c0, key@).intersect(prefix_keys(ks@, 0))) =~= c0);
        while i < ks.len()
            invariant
                i <= ks@.len(),
                c0 == old(self).child_index@,
                ks@.len() == old(self).child_index.order().len(),
                forall|j: int| 0 <= j < ks@.len() ==> (#[trigger] ks@[j])@ == old(self).child_index.order()[j],
                self.child_index@ == c0.remove_keys(pointing_to(c0, key@).intersect(prefix_keys(ks@, i as int))),
                self.by_id == old(self).by_id,
                self.cause_index == old(self).cause_index,
                old(self).wf() ==> self.wf(),
            decreases ks@.len() - i,
        {
            let drop = match self.child_index.get(&ks[i]) {
                Some(v) => v.same(key),
                None => false,
            };
            let ghost before = self.child_index@;
            if drop {
                let _ = self.child_index.remove(&ks[i]);
            }
            proof {
                lemma_prefix_step(ks@, i as int);
                let k = ks@[i as int]@;
                let s_i = pointing_to(c0, key@).intersect(prefix_keys(ks@, i as int));
                let s_n = pointing_to(c0, key@).intersect(prefix_keys(ks@, i + 1));
                if s_i.contains(k) {
                    assert(s_n =~= s_i);
                } else if drop {
                    assert(s_n =~= s_i.insert(k));
                } else {
                    assert(s_n =~= s_i);
                }
                assert(self.child_index@ =~= c0.remove_keys(s_n));
            }
            i = i + 1;
        }
        proof {
            old(self).child_index.lemma_order_dom();
            assert(pointing_to(c0, key@).intersect(prefix_keys(ks@, ks@.len() as int)) =~= pointing_to(c0, key@)) by {
                assert forall|c: Seq<char>| pointing_to(c0, key@).contains(c) implies prefix_keys(ks@, ks@.len() as int).contains(c) by {
                    assert(old(self).child_index.order().contains(c));
                    let j = choose|j: int| 0 <= j < old(self).child_index.order().len() && old(self).child_index.order()[j] == c;
                    assert(ks@[j]@ == c);
                }
            }
        }
    }

    /// Puts a job back after it ran: a finished job leaves the book (with
    /// its child entries); a live one is stored under its root id, its
    /// outstanding requests indexed as its children, and a root job becomes
    /// the job of its cause if none is.
    pub fn place(&mut self, slot: Slot)
        ensures
            placed(*old(self), *final(self), slot.job),
            old(self).wf() ==> final(self).wf(),
            indexed(*old(self)) && !old(self).jobs().contains_key(slot.job.root_env().header.id@) ==> indexed(
                *final(self),
            ),
            final(self).slots() == if slot.job.is_done() {
                old(self).slots()
            } else {
                old(self).slots().insert(slot.job.root_env().header.id@, slot@)
            },
    {
        proof {
            lemma_job_parts(slot.job);
        }
        if slot.job.finished {
            let key = slot.job.root.header.id.clone();
            self.remove_child_entries(&key);
            return;
        }
        let key = slot.job.root.header.id.clone();
        let ks = slot.job.inflight.keys();
        let ghost c0 = self.child_index@;
        let mut i: usize = 0;
        assert(c0.union_prefer_right(all_to(prefix_keys(ks@, 0), key@)) =~= c0);
        while i < ks.len()
            invariant
                i <= ks@.len(),
                c0 == old(self).child_index@,
                ks@.len() == slot.job.inflight.order().len(),
                forall|j: int| 0 <= j < ks@.len() ==> (#[trigger] ks@[j])@ == slot.job.inflight.order()[j],
                self.child_index@ == c0.union_prefer_right(all_to(prefix_keys(ks@, i as int), key@)),
                self.by_id == old(self).by_id,
                self.cause_index == old(self).cause_index,
                old(self).wf() ==> self.wf(),
            decreases ks@.len() - i,
        {
            self.child_index.insert(ks[i].clone(), key.clone());
            proof {
                lemma_prefix_step(ks@, i as int);
                assert(self.child_index@ =~= c0.union_prefer_right(all_to(prefix_keys(ks@, i + 1), key@)));
            }
            i = i + 1;
        }
        proof {
            slot.job.inflight.lemma_order_dom();
            assert(prefix_keys(ks@, ks@.len() as int) =~= slot.job.pending().dom()) by {
                assert forall|c: Seq<char>| slot.job.pending().dom().contains(c) implies prefix_keys(ks@, ks@.len() as int).contains(c) by {
                    assert(slot.job.inflight.order().contains(c));
                    let j = choose|j: int| 0 <= j < slot.job.inflight.order().len() && slot.job.inflight.order()[j] == c;
                    assert(ks@[j]@ == c);
                }
                assert forall|c: Seq<char>| prefix_keys(ks@, ks@.len() as int).contains(c) implies slot.job.pending().dom().contains(c) by {
                    let j = choose|j: int| 0 <= j < ks@.len() && #[trigger] ks@[j]@ == c;
                    assert(slot.job.inflight.order()[j] == c);
                    assert(slot.job.inflight.order().contains(c));
                }
            }
        }
        let id = slot.job.root.header.id.clone();
        let cause = slot.job.root.header.cause.clone();
        if id.same(&cause) && !self.cause_index.contains(&cause) {
            self.cause_index.insert(cause, id);
        }
        let ghost j = slot.job;
        self.by_id.insert(key, slot);
        proof {
            assert(self.jobs() =~= old(self).jobs().insert(j.root_env().header.id@, j));
            if indexed(*old(self)) && !old(self).jobs().contains_key(j.root_env().header.id@) {
                let kk = j.root_env().header.id@;
                assert forall|c: Seq<char>| #[trigger] self.causes().contains_key(c) implies {
                    let k = self.causes()[c];
                    &&& self.jobs().contains_key(k)
                    &&& is_root_job(self.jobs()[k])
                    &&& self.jobs()[k].root_env().header.cause@ == c
                } by {
                    if old(self).causes().contains_key(c) {
                        let k = old(self).causes()[c];
                        assert(old(self).jobs().contains_key(k));
                        assert(k != kk);
                    }
                }
            }
        }
    }

    /// The key of the job a result for `cause` goes to (see `active_key_spec`).
    pub fn active_key<'a>(&'a self, cause: &'a EnvelopeId) -> (r: Option<&'a EnvelopeId>)
        ensures
            match r {
                Some(k) => active_key_spec(self.jobs(), self.causes(), cause@) == Some(k@),
                None => active_key_spec(self.jobs(), self.causes(), cause@) is None,
            },
    {
        if let Some(key) = self.cause_index.get(cause) {
            return Some(key);
        }
        if self.by_id.contains(cause) {
            return Some(cause);
        }
        None
    }

    /// The live job a result for `cause` goes to, if any.
    pub fn active_job(&self, cause: &EnvelopeId) -> (r: Option<&Job>)
        ensures
            match r {
                Some(j) => active_key_spec(self.jobs(), self.causes(), cause@) matches Some(k)
                    && self.jobs().contains_key(k) && *j == self.jobs()[k],
                None => !(active_key_spec(self.jobs(), self.causes(), cause@) matches Some(k)
                    && self.jobs().contains_key(k)),
            },
    {
        match self.active_key(cause) {
            None => None,
            Some(k) => match self.by_id.get(k) {
                None => None,
                Some(slot) => Some(&slot.job),
            },
        }
    }

    /// The keys of the live jobs, oldest first.
    pub fn active_keys(&self) -> (r: Vec<EnvelopeId>)
        ensures
            r@.len() == self.key_order().len(),
            forall|i: int| 0 <= i < r@.len() ==> (#[trigger] r@[i])@ == self.key_order()[i],
    {
        self.by_id.keys()
    }

    /// The key of the job a result belongs to: the job that issued request
    /// `request_id`, else the job for `cause`.
    pub fn parent_key(&self, request_id: &EnvelopeId, cause: &EnvelopeId) -> (r: Option<EnvelopeId>)
        ensures
            match r {
                Some(k) => if self.children().contains_key(request_id@) {
                    k@ == self.children()[request_id@]
                } else {
                    active_key_spec(self.jobs(), self.causes(), cause@) == Some(k@)
                },
                None => !self.children().contains_key(request_id@) && active_key_spec(
                    self.jobs(),
                    self.causes(),
                    cause@,
                ) is None,
            },
    {
        if let Some(k) = self.child_key(request_id) {
            return Some(k.clone());
        }
        match self.active_key(cause) {
            Some(k) => Some(k.clone()),
            None => None,
        }
    }
}

} // verus!
