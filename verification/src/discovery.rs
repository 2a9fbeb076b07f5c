use vstd::prelude::*;
use crate::bytes_util::bytes_eq;
use crate::distance::{
    distance, lemma_distance_bound, lemma_distance_zero_iff_equal, valid_id, xor_distance,
};
use crate::identity::{merge_spec, wf_record, MergeDecision, PeerRecord};

verus! {

/// Entries one distance bucket can hold; the least recently seen entry is
/// evicted first when a bucket overflows.
pub const BUCKET_SIZE: usize = 16;

/// Number of distance buckets: one per possible XOR distance 1..=256, plus
/// the always-empty slot 0 (a node keeps no entry about itself).
pub const BUCKET_COUNT: usize = 257;

/// First position in a bucket holding the given identifier, or -1.
pub open spec fn idx_of_id(b: Seq<PeerRecord>, id: Seq<u8>) -> int
    decreases b.len(),
{
    if b.len() == 0 {
        -1
    } else if b[0].node_id@ == id {
        0
    } else if idx_of_id(b.drop_first(), id) == -1 {
        -1
    } else {
        idx_of_id(b.drop_first(), id) + 1
    }
}

/// If the identifier occurs, `idx_of_id` names a real position holding it;
/// if it does not, `idx_of_id` is -1.
pub proof fn lemma_idx_of_id(b: Seq<PeerRecord>, id: Seq<u8>)
    ensures
        idx_of_id(b, id) == -1 ==> forall|j: int| 0 <= j < b.len() ==> b[j].node_id@ != id,
        idx_of_id(b, id) != -1 ==> 0 <= idx_of_id(b, id) < b.len() && b[idx_of_id(b, id)].node_id@
            == id,
    decreases b.len(),
{
    if b.len() > 0 {
        lemma_idx_of_id(b.drop_first(), id);
        if b[0].node_id@ != id && idx_of_id(b, id) == -1 {
            assert forall|j: int| 0 <= j < b.len() implies b[j].node_id@ != id by {
                if j > 0 {
                    assert(b.drop_first()[j - 1] == b[j]);
                }
            }
        }
    }
}

/// Whether some record in the list carries the identifier.
pub open spec fn has_id(rs: Seq<PeerRecord>, q: Seq<u8>) -> bool {
    exists|i: int| 0 <= i < rs.len() && rs[i].node_id@ == q
}

/// The routing table of the discovery subsystem: known signed peer records,
/// grouped by the XOR distance of their identity from the local one.
pub struct RoutingTable {
    pub local_id: Vec<u8>,
    pub buckets: Vec<Vec<PeerRecord>>,
}

/// Outcome of offering a record to the table.
#[derive(Debug, Clone, Copy, PartialEq, Eq)]
pub enum InsertOutcome {
    /// The record speaks about the local node; nothing is stored.
    SelfId,
    /// A previously unknown identity entered a bucket with room.
    Added,
    /// A previously unknown identity entered a full bucket; the least
    /// recently seen entry left it.
    AddedEvicted,
    /// A newer record replaced the stored one for the same identity.
    Updated,
    /// The identity is known and the record is not newer; nothing changed.
    Ignored,
}

impl RoutingTable {
    /// Every entry sits in the bucket named by its distance from the local
    /// id, buckets are bounded, identities are unique, and nothing is ever
    /// stored about the local node itself.
    pub open spec fn wf(self) -> bool {
        &&& valid_id(self.local_id@)
        &&& self.buckets@.len() == BUCKET_COUNT
        &&& self.buckets@[0]@.len() == 0
        &&& forall|d: int, j: int|
            0 <= d < BUCKET_COUNT && 0 <= j < self.buckets@[d]@.len() ==> wf_record(
                #[trigger] self.buckets@[d]@[j],
            ) && xor_distance(self.local_id@, self.buckets@[d]@[j].node_id@) == d
        &&& forall|d: int|
            0 <= d < BUCKET_COUNT ==> (#[trigger] self.buckets@[d]@.len()) <= BUCKET_SIZE
        &&& forall|d: int, j1: int, j2: int|
            #![trigger self.buckets@[d]@[j1], self.buckets@[d]@[j2]]
            0 <= d < BUCKET_COUNT && 0 <= j1 < j2 < self.buckets@[d]@.len()
                ==> self.buckets@[d]@[j1].node_id@ != self.buckets@[d]@[j2].node_id@
    }

    /// Bucket an identifier belongs to.
    pub open spec fn bucket_of(self, id: Seq<u8>) -> int {
        xor_distance(self.local_id@, id) as int
    }

    /// Whether the table holds a record for the identifier.
    pub open spec fn contains_id(self, id: Seq<u8>) -> bool {
        idx_of_id(self.buckets@[self.bucket_of(id)]@, id) >= 0
    }

    /// The record stored for a known identifier.
    pub open spec fn record_of(self, id: Seq<u8>) -> PeerRecord {
        self.buckets@[self.bucket_of(id)]@[idx_of_id(self.buckets@[self.bucket_of(id)]@, id)]
    }

    /// Entries in buckets below `d`.
    pub open spec fn count_upto(self, d: int) -> nat
        decreases d,
    {
        if d <= 0 {
            0
        } else {
            self.count_upto(d - 1) + self.buckets@[d - 1]@.len()
        }
    }

    /// Number of records the table holds.
    pub open spec fn count(self) -> nat {
        self.count_upto(BUCKET_COUNT as int)
    }

    /// An empty table around the local identity.
    pub fn new(local_id: Vec<u8>) -> (r: RoutingTable)
        requires
            valid_id(local_id@),
        ensures
            r.wf(),
            r.local_id@ == local_id@,
            r.count() == 0,
            forall|id: Seq<u8>| !r.contains_id(id),
    {
        let mut buckets: Vec<Vec<PeerRecord>> = Vec::new();
        let mut i: usize = 0;
        while i < BUCKET_COUNT
            invariant
                i <= BUCKET_COUNT,
                buckets@.len() == i,
                forall|d: int| 0 <= d < i ==> (#[trigger] buckets@[d])@.len() == 0,
            decreases BUCKET_COUNT - i,
        {
            buckets.push(Vec::new());
            i += 1;
        }
        let r = RoutingTable { local_id, buckets };
        proof {
            r.lemma_count_zero(BUCKET_COUNT as int);
            assert forall|id: Seq<u8>| !r.contains_id(id) by {
                lemma_distance_bound(r.local_id@, id);
                lemma_idx_of_id(r.buckets@[r.bucket_of(id)]@, id);
            }
        }
        r
    }

    proof fn lemma_count_zero(self, d: int)
        requires
            forall|b: int| 0 <= b < self.buckets@.len() ==> (#[trigger] self.buckets@[b])@.len()
                == 0,
            d <= self.buckets@.len(),
        ensures
            self.count_upto(d) == 0,
        decreases d,
    {
        if d > 0 {
            self.lemma_count_zero(d - 1);
        }
    }

    /// Entries in buckets below `d` never exceed `d` buckets' worth.
    proof fn lemma_count_bound(self, d: int)
        requires
            self.wf(),
            0 <= d <= BUCKET_COUNT,
        ensures
            self.count_upto(d) <= d * BUCKET_SIZE,
        decreases d,
    {
        if d > 0 {
            self.lemma_count_bound(d - 1);
            assert((d - 1) * BUCKET_SIZE + BUCKET_SIZE == d * BUCKET_SIZE) by (nonlinear_arith);
        }
    }

    /// Number of records known to the table.
    pub fn known_count(&self) -> (r: usize)
        requires
            self.wf(),
        ensures
            r == self.count(),
    {
        let mut total: usize = 0;
        let mut d: usize = 0;
        while d < BUCKET_COUNT
            invariant
                self.wf(),
                d <= BUCKET_COUNT,
                total == self.count_upto(d as int),
                total <= d * BUCKET_SIZE,
            decreases BUCKET_COUNT - d,
        {
            proof {
                self.lemma_count_bound(d as int);
                assert((d as int) * BUCKET_SIZE + BUCKET_SIZE <= 257 * BUCKET_SIZE)
                    by (nonlinear_arith)
                    requires
                        d < 257,
                ;
            }
            total = total + self.buckets[d].len();
            d += 1;
        }
        total
    }

    /// Offers a record to the table. A record about the local node is
    /// refused; a record for a known identity is merged by sequence number
    /// (and, when newer, moved to the most recently seen position); a record
    /// for a new identity enters its distance bucket, evicting the least
    /// recently seen entry if the bucket is full. Exactly one bucket — the
    /// one named by the record's distance — can change.
    pub fn insert(&mut self, rec: PeerRecord) -> (r: InsertOutcome)
        requires
            old(self).wf(),
            wf_record(rec),
        ensures
            final(self).wf(),
            final(self).local_id@ == old(self).local_id@,
            r is SelfId <==> rec.node_id@ == old(self).local_id@,
            r is SelfId ==> *final(self) == *old(self),
            !(r is SelfId) ==> {
                let d = old(self).bucket_of(rec.node_id@);
                let b = old(self).buckets@[d]@;
                let j = idx_of_id(b, rec.node_id@);
                &&& (r is Updated <==> j >= 0 && rec.seq_no > b[j].seq_no)
                &&& (r is Ignored <==> j >= 0 && rec.seq_no <= b[j].seq_no)
                &&& (r is Added <==> j == -1 && b.len() < BUCKET_SIZE)
                &&& (r is AddedEvicted <==> j == -1 && b.len() >= BUCKET_SIZE)
                &&& forall|d2: int|
                    0 <= d2 < BUCKET_COUNT && d2 != d ==> final(self).buckets@[d2]
                        == old(self).buckets@[d2]
                &&& (r is Updated ==> final(self).buckets@[d]@ =~= b.remove(j).push(rec))
                &&& (r is Ignored ==> *final(self) == *old(self))
                &&& (r is Added ==> final(self).buckets@[d]@ =~= b.push(rec))
                &&& (r is AddedEvicted ==> final(self).buckets@[d]@ =~= b.drop_first().push(rec))
                &&& final(self).contains_id(rec.node_id@)
                &&& (!(r is Ignored) ==> final(self).record_of(rec.node_id@) == rec)
                &&& forall|q: Seq<u8>|
                    q != rec.node_id@ ==> ((#[trigger] final(self).contains_id(q)) ==> old(
                        self,
                    ).contains_id(q))
            },
    {
        let d16 = distance(&self.local_id, &rec.node_id);
        proof {
            lemma_distance_zero_iff_equal(self.local_id@, rec.node_id@);
            lemma_distance_bound(self.local_id@, rec.node_id@);
        }
        if d16 == 0 {
            return InsertOutcome::SelfId;
        }
        let d = d16 as usize;
        let ghost old_bucket = self.buckets@[d as int]@;
        let mut j: usize = 0;
        let mut found: bool = false;
        while j < self.buckets[d].len() && !found
            invariant
                self.wf(),
                0 < d < BUCKET_COUNT,
                j <= self.buckets@[d as int]@.len(),
                old_bucket == self.buckets@[d as int]@,
                !found ==> forall|i: int| 0 <= i < j ==> old_bucket[i].node_id@ != rec.node_id@,
                found ==> j < old_bucket.len() && old_bucket[j as int].node_id@ == rec.node_id@
                    && (forall|i: int| 0 <= i < j ==> old_bucket[i].node_id@ != rec.node_id@),
            decreases old_bucket.len() - j, (if found { 0int } else { 1int }),
    {
            if bytes_eq(&self.buckets[d][j].node_id, &rec.node_id) {
                found = true;
            } else {
                j += 1;
            }
        }
        proof {
            lemma_idx_of_id(old_bucket, rec.node_id@);
        }
        if found {
            proof {
                lemma_idx_first(old_bucket, rec.node_id@, j as int);
            }
            if rec.seq_no > self.buckets[d][j].seq_no {
                let ghost grec = rec;
                let b = &mut self.buckets[d];
                b.remove(j);
                b.push(rec);
                proof {
                    lemma_unique_after_remove_push(old_bucket, j as int, grec);
                    let nb = self.buckets@[d as int]@;
                    assert(nb =~= old_bucket.remove(j as int).push(grec));
                    lemma_idx_first(nb, grec.node_id@, nb.len() - 1);
                    assert forall|q: Seq<u8>|
                        q != grec.node_id@ && #[trigger] self.contains_id(q) implies old(
                        self,
                    ).contains_id(q) by {
                        lemma_distance_bound(self.local_id@, q);
                        if self.bucket_of(q) == d as int {
                            lemma_no_new_ids(old_bucket, nb, grec, j as int, q);
                        }
                    }
                }
                return InsertOutcome::Updated;
            } else {
                proof {
                    lemma_idx_first(old_bucket, rec.node_id@, j as int);
                }
                return InsertOutcome::Ignored;
            }
        }
        if self.buckets[d].len() < BUCKET_SIZE {
            let ghost grec = rec;
            let b = &mut self.buckets[d];
            b.push(rec);
            proof {
                let nb = self.buckets@[d as int]@;
                assert(nb =~= old_bucket.push(grec));
                lemma_idx_first(nb, grec.node_id@, nb.len() - 1);
                assert forall|q: Seq<u8>|
                    q != grec.node_id@ && #[trigger] self.contains_id(q) implies old(
                    self,
                ).contains_id(q) by {
                    lemma_distance_bound(self.local_id@, q);
                    if self.bucket_of(q) == d as int {
                        lemma_no_new_ids(old_bucket, nb, grec, 0, q);
                    }
                }
            }
            return InsertOutcome::Added;
        }
        let ghost grec = rec;
        let b = &mut self.buckets[d];
        b.remove(0);
        b.push(rec);
        proof {
            assert(old_bucket.remove(0) =~= old_bucket.drop_first());
            let nb = self.buckets@[d as int]@;
            assert(nb =~= old_bucket.drop_first().push(grec));
            assert(forall|jj: int|
                0 <= jj < old_bucket.drop_first().len()
                    ==> (#[trigger] old_bucket.drop_first()[jj]) == old_bucket[jj + 1]);
            lemma_idx_first(nb, grec.node_id@, nb.len() - 1);
            assert forall|q: Seq<u8>|
                q != grec.node_id@ && #[trigger] self.contains_id(q) implies old(
                self,
            ).contains_id(q) by {
                lemma_distance_bound(self.local_id@, q);
                if self.bucket_of(q) == d as int {
                    lemma_no_new_ids(old_bucket, nb, grec, 0, q);
                }
            }
        }
        return InsertOutcome::AddedEvicted;
    }

    /// All records the table knows, as copies, bucket by bucket, nearest
    /// bucket first: position `count_upto(d) + j` holds the record of bucket
    /// `d` at position `j`, so the result lists exactly the table's records,
    /// with pairwise distinct identifiers.
    #[verifier::loop_isolation(false)]
    pub fn all_records(&self) -> (r: Vec<PeerRecord>)
        requires
            self.wf(),
        ensures
            r@.len() == self.count(),
            forall|i: int|
                0 <= i < r@.len() ==> wf_record(#[trigger] r@[i]) && r@[i].node_id@
                    != self.local_id@,
            forall|i: int|
                0 <= i < r@.len() ==> self.contains_id((#[trigger] r@[i]).node_id@)
                    && crate::identity::rec_like(r@[i], self.record_of(r@[i].node_id@)),
            forall|i: int, j: int|
                #![trigger r@[i], r@[j]]
                0 <= i < j < r@.len() ==> r@[i].node_id@ != r@[j].node_id@,
            forall|d: int, j: int|
                0 <= d < BUCKET_COUNT && 0 <= j < self.buckets@[d]@.len() ==> has_id(
                    r@,
                    (#[trigger] self.buckets@[d]@[j]).node_id@,
                ),
    {
        let mut out: Vec<PeerRecord> = Vec::new();
        let mut d: usize = 0;
        while d < BUCKET_COUNT
            invariant
                d <= BUCKET_COUNT,
                out@.len() == self.count_upto(d as int),
                forall|d2: int, j: int|
                    0 <= d2 < d && 0 <= j < self.buckets@[d2]@.len()
                        ==> crate::identity::rec_like(
                        #[trigger] out@[self.count_upto(d2) + j],
                        self.buckets@[d2]@[j],
                    ),
                forall|i: int|
                    0 <= i < out@.len() ==> xor_distance(
                        self.local_id@,
                        (#[trigger] out@[i]).node_id@,
                    ) < d,
            decreases BUCKET_COUNT - d,
        {
            proof {
                self.lemma_count_bound(d as int);
                assert((d as int) * BUCKET_SIZE + BUCKET_SIZE <= 257 * BUCKET_SIZE)
                    by (nonlinear_arith)
                    requires
                        d < 257,
                ;
            }
            let mut j: usize = 0;
            while j < self.buckets[d].len()
                invariant
                    d < BUCKET_COUNT,
                    j <= self.buckets@[d as int]@.len(),
                    out@.len() == self.count_upto(d as int) + j,
                    out@.len() <= (d as int) * BUCKET_SIZE + j,
                    forall|d2: int, jj: int|
                        0 <= d2 < d && 0 <= jj < self.buckets@[d2]@.len()
                            ==> crate::identity::rec_like(
                            #[trigger] out@[self.count_upto(d2) + jj],
                            self.buckets@[d2]@[jj],
                        ),
                    forall|jj: int|
                        0 <= jj < j ==> crate::identity::rec_like(
                            #[trigger] out@[self.count_upto(d as int) + jj],
                            self.buckets@[d as int]@[jj],
                        ),
                    forall|i: int|
                        0 <= i < self.count_upto(d as int) ==> xor_distance(
                            self.local_id@,
                            (#[trigger] out@[i]).node_id@,
                        ) < d,
                    forall|i: int|
                        self.count_upto(d as int) <= i < out@.len() ==> xor_distance(
                            self.local_id@,
                            (#[trigger] out@[i]).node_id@,
                        ) == d,
                decreases self.buckets@[d as int]@.len() - j,
            {
                let rec = crate::identity::copy_record(&self.buckets[d][j]);
                proof {
                    lemma_distance_zero_iff_equal(
                        self.local_id@,
                        self.buckets@[d as int]@[j as int].node_id@,
                    );
                }
                let ghost pre_out = out@;
                out.push(rec);
                proof {
                    assert forall|d2: int, jj: int|
                        0 <= d2 < d && 0 <= jj < self.buckets@[d2]@.len()
                            implies crate::identity::rec_like(
                        #[trigger] out@[self.count_upto(d2) + jj],
                        self.buckets@[d2]@[jj],
                    ) by {
                        self.lemma_count_monotone(d2 + 1, d as int);
                        let idx = self.count_upto(d2) + jj;
                        assert(idx < pre_out.len());
                        assert(out@[idx as int] == pre_out[idx as int]);
                        assert(crate::identity::rec_like(
                            pre_out[idx as int],
                            self.buckets@[d2]@[jj],
                        ));
                    }
                    assert forall|jj: int|
                        0 <= jj < j + 1 implies crate::identity::rec_like(
                        #[trigger] out@[self.count_upto(d as int) + jj],
                        self.buckets@[d as int]@[jj],
                    ) by {
                        if jj < j {
                            let idx = self.count_upto(d as int) + jj;
                            assert(out@[idx as int] == pre_out[idx as int]);
                            assert(crate::identity::rec_like(
                                pre_out[idx as int],
                                self.buckets@[d as int]@[jj],
                            ));
                        }
                    }
                }
                j += 1;
            }
            proof {
                assert forall|d2: int, jj: int|
                    0 <= d2 < d + 1 && 0 <= jj < self.buckets@[d2]@.len()
                        implies crate::identity::rec_like(
                    #[trigger] out@[self.count_upto(d2) + jj],
                    self.buckets@[d2]@[jj],
                ) by {
                    if d2 == d as int {
                        assert(crate::identity::rec_like(
                            out@[self.count_upto(d as int) + jj],
                            self.buckets@[d as int]@[jj],
                        ));
                    }
                }
            }
            d += 1;
        }
        proof {
            assert forall|i: int|
                0 <= i < out@.len() implies self.contains_id((#[trigger] out@[i]).node_id@)
                && crate::identity::rec_like(out@[i], self.record_of(out@[i].node_id@))
                && wf_record(out@[i]) && out@[i].node_id@ != self.local_id@ by {
                let (d2, j2) = self.lemma_count_decompose(BUCKET_COUNT as int, i);
                let e = self.buckets@[d2]@[j2];
                assert(crate::identity::rec_like(out@[i], e));
                self.lemma_entry_is_stored(d2, j2);
                lemma_distance_zero_iff_equal(self.local_id@, e.node_id@);
            }
            assert forall|i: int, j: int|
                #![trigger out@[i], out@[j]]
                0 <= i < j < out@.len() implies out@[i].node_id@ != out@[j].node_id@ by {
                let (di, ji) = self.lemma_count_decompose(BUCKET_COUNT as int, i);
                let (dj, jj) = self.lemma_count_decompose(BUCKET_COUNT as int, j);
                assert(crate::identity::rec_like(out@[i], self.buckets@[di]@[ji]));
                assert(crate::identity::rec_like(out@[j], self.buckets@[dj]@[jj]));
                if di == dj {
                    if ji != jj {
                        assert(self.buckets@[di]@[ji].node_id@ != self.buckets@[dj]@[jj].node_id@);
                    } else {
                        assert(i == j);
                    }
                } else {
                    assert(xor_distance(self.local_id@, self.buckets@[di]@[ji].node_id@) == di);
                    assert(xor_distance(self.local_id@, self.buckets@[dj]@[jj].node_id@) == dj);
                }
            }
            assert forall|d2: int, j2: int|
                0 <= d2 < BUCKET_COUNT && 0 <= j2 < self.buckets@[d2]@.len() implies has_id(
                out@,
                (#[trigger] self.buckets@[d2]@[j2]).node_id@,
            ) by {
                self.lemma_count_in_range(d2, j2);
                let i = self.count_upto(d2) + j2;
                assert(crate::identity::rec_like(out@[i], self.buckets@[d2]@[j2]));
                assert(0 <= i < out@.len() && out@[i].node_id@
                    == self.buckets@[d2]@[j2].node_id@);
            }
        }
        out
    }

    /// `count_upto` only grows with the bucket index.
    proof fn lemma_count_monotone(self, d1: int, d2: int)
        requires
            0 <= d1 <= d2,
        ensures
            self.count_upto(d1) <= self.count_upto(d2),
        decreases d2 - d1,
    {
        if d1 < d2 {
            self.lemma_count_monotone(d1, d2 - 1);
        }
    }

    /// A bucket position names a position of the flattened listing.
    pub proof fn lemma_count_in_range(self, d: int, j: int)
        requires
            0 <= d < BUCKET_COUNT,
            0 <= j < self.buckets@[d]@.len(),
            self.buckets@.len() == BUCKET_COUNT,
        ensures
            0 <= self.count_upto(d) + j < self.count(),
    {
        assert(self.count_upto(d + 1) == self.count_upto(d) + self.buckets@[d]@.len());
        self.lemma_count_monotone(d + 1, BUCKET_COUNT as int);
    }

    /// Every position of the flattened listing decomposes into a bucket and
    /// a position in it; the pair is handed back.
    proof fn lemma_count_decompose(self, cap: int, i: int) -> (r: (int, int))
        requires
            self.buckets@.len() == BUCKET_COUNT,
            0 <= cap <= BUCKET_COUNT,
            0 <= i < self.count_upto(cap),
        ensures
            0 <= r.0 < cap,
            0 <= r.1 < self.buckets@[r.0]@.len(),
            i == self.count_upto(r.0) + r.1,
        decreases cap,
    {
        if i < self.count_upto(cap - 1) {
            self.lemma_count_decompose(cap - 1, i)
        } else {
            (cap - 1, i - self.count_upto(cap - 1))
        }
    }

    /// A bucket entry of a well-formed table is the record the table stores
    /// for its identifier.
    proof fn lemma_entry_is_stored(self, d: int, j: int)
        requires
            self.wf(),
            0 <= d < BUCKET_COUNT,
            0 <= j < self.buckets@[d]@.len(),
        ensures
            self.contains_id(self.buckets@[d]@[j].node_id@),
            self.record_of(self.buckets@[d]@[j].node_id@) == self.buckets@[d]@[j],
    {
        let e = self.buckets@[d]@[j];
        let id = e.node_id@;
        assert(self.bucket_of(id) == d);
        assert(forall|j2: int| 0 <= j2 < j ==> self.buckets@[d]@[j2].node_id@ != id);
        lemma_idx_first(self.buckets@[d]@, id, j);
    }
}

pub proof fn lemma_idx_first(b: Seq<PeerRecord>, id: Seq<u8>, i: int)
    requires
        0 <= i < b.len(),
        b[i].node_id@ == id,
        forall|j: int| 0 <= j < i ==> b[j].node_id@ != id,
    ensures
        idx_of_id(b, id) == i,
    decreases i,
{
    if i > 0 {
        assert(forall|j: int| 0 <= j < b.drop_first().len() ==> b.drop_first()[j] == b[j + 1]);
        lemma_idx_first(b.drop_first(), id, i - 1);
    }
}

proof fn lemma_unique_after_remove_push(b: Seq<PeerRecord>, j: int, rec: PeerRecord)
    requires
        0 <= j < b.len(),
        b[j].node_id@ == rec.node_id@,
        forall|j1: int, j2: int|
            #![trigger b[j1], b[j2]]
            0 <= j1 < j2 < b.len() ==> b[j1].node_id@ != b[j2].node_id@,
    ensures
        forall|i: int|
            0 <= i < b.remove(j).len() ==> (#[trigger] b.remove(j)[i]).node_id@ != rec.node_id@,
{
    assert forall|i: int| 0 <= i < b.remove(j).len() implies (#[trigger] b.remove(
        j,
    )[i]).node_id@ != rec.node_id@ by {
        if i < j {
            assert(b.remove(j)[i] == b[i]);
        } else {
            assert(b.remove(j)[i] == b[i + 1]);
        }
    }
}

/// How many records a node hands back when answering one lookup query.
pub const LOOKUP_ANSWER_SIZE: usize = 16;

impl RoutingTable {
    /// Up to `k` known records, nearest to the target first: the result is
    /// sorted by XOR distance to the target, its entries are the table's own
    /// records with pairwise distinct identifiers, every known identifier
    /// left out is at least as far from the target as every chosen one, and
    /// when the table holds at least `k` records exactly `k` come back.
    #[verifier::loop_isolation(false)]
    pub fn closest_records(&self, target: &Vec<u8>, k: usize) -> (r: Vec<PeerRecord>)
        requires
            self.wf(),
            valid_id(target@),
        ensures
            r@.len() == if k <= self.count() {
                k as int
            } else {
                self.count() as int
            },
            forall|i: int|
                0 <= i < r@.len() ==> wf_record(#[trigger] r@[i]) && r@[i].node_id@
                    != self.local_id@,
            forall|i: int|
                0 <= i < r@.len() ==> self.contains_id((#[trigger] r@[i]).node_id@)
                    && crate::identity::rec_like(r@[i], self.record_of(r@[i].node_id@)),
            forall|i: int, j: int|
                #![trigger r@[i], r@[j]]
                0 <= i < j < r@.len() ==> r@[i].node_id@ != r@[j].node_id@,
            forall|i: int, j: int|
                0 <= i < j < r@.len() ==> xor_distance(target@, (#[trigger] r@[i]).node_id@)
                    <= xor_distance(target@, (#[trigger] r@[j]).node_id@),
            forall|q: Seq<u8>, i: int|
                #![trigger has_id(r@, q), r@[i]]
                self.contains_id(q) && !has_id(r@, q) && 0 <= i < r@.len() ==> xor_distance(
                    target@,
                    r@[i].node_id@,
                ) <= xor_distance(target@, q),
            lookup_answer(*self, target@, k as int, r@),
    {
        let mut cands = self.all_records();
        let ghost all0 = cands@;
        let mut out: Vec<PeerRecord> = Vec::new();
        while out.len() < k && cands.len() > 0
            invariant
                out@.len() + cands@.len() == self.count(),
                out@.len() <= k,
                forall|i: int|
                    0 <= i < cands@.len() ==> wf_record(#[trigger] cands@[i])
                        && cands@[i].node_id@ != self.local_id@ && self.contains_id(
                        cands@[i].node_id@,
                    ) && crate::identity::rec_like(cands@[i], self.record_of(cands@[i].node_id@)),
                forall|i: int|
                    0 <= i < out@.len() ==> wf_record(#[trigger] out@[i]) && out@[i].node_id@
                        != self.local_id@ && self.contains_id(out@[i].node_id@)
                        && crate::identity::rec_like(out@[i], self.record_of(out@[i].node_id@)),
                forall|i: int, j: int|
                    #![trigger cands@[i], cands@[j]]
                    0 <= i < j < cands@.len() ==> cands@[i].node_id@ != cands@[j].node_id@,
                forall|i: int, j: int|
                    #![trigger out@[i], out@[j]]
                    0 <= i < j < out@.len() ==> out@[i].node_id@ != out@[j].node_id@,
                forall|i: int, j: int|
                    #![trigger out@[i], cands@[j]]
                    0 <= i < out@.len() && 0 <= j < cands@.len() ==> out@[i].node_id@
                        != cands@[j].node_id@,
                forall|q: Seq<u8>|
                    #[trigger] has_id(all0, q) ==> has_id(out@, q) || has_id(cands@, q),
                forall|i: int, j: int|
                    0 <= i < j < out@.len() ==> xor_distance(
                        target@,
                        (#[trigger] out@[i]).node_id@,
                    ) <= xor_distance(target@, (#[trigger] out@[j]).node_id@),
                forall|i: int, j: int|
                    0 <= i < out@.len() && 0 <= j < cands@.len() ==> xor_distance(
                        target@,
                        (#[trigger] out@[i]).node_id@,
                    ) <= xor_distance(target@, (#[trigger] cands@[j]).node_id@),
            decreases cands@.len(),
        {
            let ghost pre_cands = cands@;
            let ghost pre_out = out@;
            let mut m: usize = 0;
            let mut idx: usize = 1;
            while idx < cands.len()
                invariant
                    m < idx <= cands@.len() || (m == 0 && idx <= cands@.len()),
                    m < cands@.len(),
                    cands@.len() > 0,
                    forall|j: int|
                        0 <= j < idx ==> xor_distance(
                            target@,
                            cands@[m as int].node_id@,
                        ) <= xor_distance(target@, (#[trigger] cands@[j]).node_id@),
                decreases cands@.len() - idx,
            {
                if distance(target, &cands[idx].node_id) < distance(target, &cands[m].node_id) {
                    m = idx;
                }
                idx += 1;
            }
            let rec = cands.swap_remove(m);
            proof {
                assert(forall|j: int|
                    0 <= j < cands@.len() ==> (#[trigger] cands@[j]) == (if j == m as int {
                        pre_cands.last()
                    } else {
                        pre_cands[j]
                    }));
            }
            out.push(rec);
            proof {
                assert(out@.last() == pre_cands[m as int]);
                // whatever was reachable before is reachable still
                assert forall|q: Seq<u8>| #[trigger] has_id(all0, q) implies has_id(out@, q)
                    || has_id(cands@, q) by {
                    if has_id(pre_out, q) {
                        let w = choose|w: int| 0 <= w < pre_out.len() && pre_out[w].node_id@ == q;
                        assert(out@[w].node_id@ == q);
                        assert(has_id(out@, q));
                    } else {
                        assert(has_id(pre_cands, q));
                        let w = choose|w: int|
                            0 <= w < pre_cands.len() && pre_cands[w].node_id@ == q;
                        if w == m as int {
                            assert(out@[out@.len() - 1].node_id@ == q);
                            assert(has_id(out@, q));
                        } else if w == pre_cands.len() - 1 {
                            if m as int == pre_cands.len() - 1 {
                                assert(out@[out@.len() - 1].node_id@ == q);
                                assert(has_id(out@, q));
                            } else {
                                assert(cands@[m as int].node_id@ == q);
                                assert(has_id(cands@, q));
                            }
                        } else {
                            assert(cands@[w].node_id@ == q);
                            assert(has_id(cands@, q));
                        }
                    }
                }
            }
        }
        proof {
            assert forall|q: Seq<u8>, i: int|
                #![trigger has_id(out@, q), out@[i]]
                self.contains_id(q) && !has_id(out@, q) && 0 <= i < out@.len()
                    implies xor_distance(target@, out@[i].node_id@) <= xor_distance(
                target@,
                q,
            ) by {
                let d = self.bucket_of(q);
                lemma_distance_bound(self.local_id@, q);
                lemma_idx_of_id(self.buckets@[d]@, q);
                let w = idx_of_id(self.buckets@[d]@, q);
                assert(self.buckets@[d]@[w].node_id@ == q);
                assert(has_id(all0, q));
                assert(has_id(cands@, q));
                let c = choose|c: int| 0 <= c < cands@.len() && cands@[c].node_id@ == q;
                assert(xor_distance(target@, out@[i].node_id@) <= xor_distance(
                    target@,
                    cands@[c].node_id@,
                ));
            }
        }
        out
    }
}

/// What a node's answer to one lookup query holds: at most `k` of the
/// table's own records — exactly `min(k, count)` of them — with pairwise
/// distinct identifiers, sorted nearest-to-the-target first, and no known
/// identifier left out is closer than a chosen one.
pub open spec fn lookup_answer(t: RoutingTable, target: Seq<u8>, k: int, rs: Seq<PeerRecord>) -> bool {
    &&& rs.len() == if k <= t.count() {
        k
    } else {
        t.count() as int
    }
    &&& forall|i: int|
        0 <= i < rs.len() ==> wf_record(#[trigger] rs[i]) && rs[i].node_id@ != t.local_id@
    &&& forall|i: int|
        0 <= i < rs.len() ==> t.contains_id((#[trigger] rs[i]).node_id@)
            && crate::identity::rec_like(rs[i], t.record_of(rs[i].node_id@))
    &&& forall|i: int, j: int|
        #![trigger rs[i], rs[j]]
        0 <= i < j < rs.len() ==> rs[i].node_id@ != rs[j].node_id@
    &&& forall|i: int, j: int|
        0 <= i < j < rs.len() ==> xor_distance(target, (#[trigger] rs[i]).node_id@)
            <= xor_distance(target, (#[trigger] rs[j]).node_id@)
    &&& forall|q: Seq<u8>, i: int|
        #![trigger has_id(rs, q), rs[i]]
        t.contains_id(q) && !has_id(rs, q) && 0 <= i < rs.len() ==> xor_distance(
            target,
            rs[i].node_id@,
        ) <= xor_distance(target, q)
}

/// The three bucket reshapes of an insertion introduce no identifier other
/// than the inserted record's own.
proof fn lemma_no_new_ids(b: Seq<PeerRecord>, nb: Seq<PeerRecord>, rec: PeerRecord, j: int, q: Seq<u8>)
    requires
        q != rec.node_id@,
        nb == b.push(rec) || (0 <= j < b.len() && nb == b.remove(j).push(rec)) || (b.len() > 0
            && nb == b.drop_first().push(rec)),
        idx_of_id(nb, q) >= 0,
    ensures
        idx_of_id(b, q) >= 0,
{
    lemma_idx_of_id(nb, q);
    let w = idx_of_id(nb, q);
    assert(nb[w].node_id@ == q);
    lemma_idx_of_id(b, q);
    if idx_of_id(b, q) == -1 {
        if nb == b.push(rec) {
            if w < b.len() {
                assert(nb[w] == b[w]);
            } else {
                assert(nb[w] == rec);
            }
        } else if 0 <= j < b.len() && nb == b.remove(j).push(rec) {
            if w < b.len() - 1 {
                if w < j {
                    assert(nb[w] == b[w]);
                } else {
                    assert(nb[w] == b.remove(j)[w]);
                    assert(b.remove(j)[w] == b[w + 1]);
                }
            } else {
                assert(nb[w] == rec);
            }
        } else {
            if w < b.len() - 1 {
                assert(nb[w] == b.drop_first()[w]);
                assert(b.drop_first()[w] == b[w + 1]);
            } else {
                assert(nb[w] == rec);
            }
        }
        assert(false);
    }
}

/// A record for a previously unknown identity is in the table right after
/// the insertion that reported it new.
pub proof fn lemma_insert_new_contains(pre: RoutingTable, post: RoutingTable, rec: PeerRecord)
    requires
        pre.wf(),
        wf_record(rec),
        rec.node_id@ != pre.local_id@,
        post.local_id@ == pre.local_id@,
        idx_of_id(pre.buckets@[pre.bucket_of(rec.node_id@)]@, rec.node_id@) == -1,
        post.buckets@[pre.bucket_of(rec.node_id@)]@ == pre.buckets@[pre.bucket_of(
            rec.node_id@,
        )]@.push(rec) || (post.buckets@[pre.bucket_of(rec.node_id@)]@ == pre.buckets@[
            pre.bucket_of(rec.node_id@)
        ]@.drop_first().push(rec) && pre.buckets@[pre.bucket_of(rec.node_id@)]@.len() > 0),
    ensures
        post.contains_id(rec.node_id@),
{
    let id = rec.node_id@;
    let d = pre.bucket_of(id);
    let b = pre.buckets@[d]@;
    lemma_idx_of_id(b, id);
    let nb = post.buckets@[d]@;
    if nb == b.push(rec) {
        lemma_idx_first(nb, id, b.len() as int);
    } else {
        let dropped = b.drop_first();
        assert(forall|j: int| 0 <= j < dropped.len() ==> (#[trigger] dropped[j]) == b[j + 1]);
        assert(nb[dropped.len() as int] == rec);
        assert forall|j: int| 0 <= j < dropped.len() implies nb[j].node_id@ != id by {
            assert(nb[j] == dropped[j]);
            assert(dropped[j] == b[j + 1]);
        }
        lemma_idx_first(nb, id, dropped.len() as int);
    }
}

} // verus!
