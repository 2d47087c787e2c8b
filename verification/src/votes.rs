//! The voting family: a vote per (candidate, voter) pair, stored under a
//! monotonic id, with the read-only queries derived from a full scan.
use crate::codec::enc_str;
use crate::codec::enc_u64;
use crate::codec::lemma_enc_u64;
use crate::codec::put_str;
use crate::codec::put_u64;
use crate::codec::str_fits;
use crate::codec::take_str;
use crate::codec::take_u64;
use crate::storage::Region;
use crate::store::has_id;
use crate::store::lemma_find_after_put_fresh;
use crate::store::id_index;
use crate::store::spec_find;
use crate::store::spec_put;
use crate::store::view_wf;
use crate::store::Record;
use crate::store::Store;
use crate::store::StoreView;
use vstd::multiset::Multiset;
use vstd::prelude::*;

verus! {

/// A single vote: one candidate chosen by one voter, at one time.
#[derive(Debug)]
pub struct Vote {
    pub id: u64,
    pub candidate: String,
    pub voter: String,
    pub timestamp: u64,
}

/// What a vote holds, at the specification level.
pub ghost struct VoteV {
    pub id: u64,
    pub candidate: Seq<char>,
    pub voter: Seq<char>,
    pub timestamp: u64,
}

impl View for Vote {
    type V = VoteV;

    open spec fn view(&self) -> VoteV {
        VoteV {
            id: self.id,
            candidate: self.candidate@,
            voter: self.voter@,
            timestamp: self.timestamp,
        }
    }
}

impl Clone for Vote {
    fn clone(&self) -> (r: Self)
        ensures
            r@ == self@,
    {
        Vote {
            id: self.id,
            candidate: self.candidate.clone(),
            voter: self.voter.clone(),
            timestamp: self.timestamp,
        }
    }
}

/// The fields of a vote's encoding, read off the whole.
proof fn lemma_vote_enc_parts(b: Seq<u8>, m: VoteV)
    requires
        <Vote as Record>::spec_valid(m),
        b == <Vote as Record>::spec_enc(m),
    ensures
        b.len() == 16 + enc_str(m.candidate).len() + enc_str(m.voter).len(),
        b.subrange(0, 8) == enc_u64(m.id),
        b.subrange(8, 8 + enc_str(m.candidate).len() as int) == enc_str(m.candidate),
        b.subrange(
            8 + enc_str(m.candidate).len() as int,
            8 + enc_str(m.candidate).len() as int + enc_str(m.voter).len() as int,
        ) == enc_str(m.voter),
        b.subrange(b.len() - 8, b.len() as int) == enc_u64(m.timestamp),
{
    lemma_enc_u64(m.id);
    lemma_enc_u64(m.timestamp);
    let l1 = enc_str(m.candidate).len() as int;
    let l2 = enc_str(m.voter).len() as int;
    assert(b.subrange(0, 8) =~= enc_u64(m.id));
    assert(b.subrange(8, 8 + l1) =~= enc_str(m.candidate));
    assert(b.subrange(8 + l1, 8 + l1 + l2) =~= enc_str(m.voter));
    assert(b.subrange(8 + l1 + l2, 16 + l1 + l2) =~= enc_u64(m.timestamp));
}

impl Record for Vote {
    open spec fn spec_id(v: VoteV) -> u64 {
        v.id
    }

    open spec fn pre_valid(v: VoteV) -> bool {
        true
    }

    open spec fn spec_valid(v: VoteV) -> bool {
        str_fits(v.candidate) && str_fits(v.voter)
    }

    open spec fn spec_enc(v: VoteV) -> Seq<u8> {
        enc_u64(v.id) + enc_str(v.candidate) + enc_str(v.voter) + enc_u64(v.timestamp)
    }

    proof fn valid_implies_pre(v: VoteV) {
    }

    fn rec_id(&self) -> u64 {
        self.id
    }

    fn encode(&self) -> (r: Vec<u8>) {
        let mut out: Vec<u8> = Vec::new();
        put_u64(&mut out, self.id);
        put_str(&mut out, self.candidate.as_str());
        put_str(&mut out, self.voter.as_str());
        put_u64(&mut out, self.timestamp);
        proof {
            assert(out@ =~= Self::spec_enc(self@));
        }
        out
    }

    fn decode(bytes: &Vec<u8>) -> (r: Option<Self>) {
        let r1 = take_u64(bytes, 0);
        if r1.is_none() {
            proof {
                assert forall|m: VoteV| Self::spec_valid(m) implies bytes@
                    != #[trigger] Self::spec_enc(m) by {
                    if Self::spec_valid(m) && bytes@ == Self::spec_enc(m) {
                        lemma_vote_enc_parts(bytes@, m);
                    }
                }
            }
            return None;
        }
        let (id, p1) = r1.unwrap();
        let r2 = take_str(bytes, p1);
        if r2.is_none() {
            proof {
                assert forall|m: VoteV| Self::spec_valid(m) implies bytes@
                    != #[trigger] Self::spec_enc(m) by {
                    if Self::spec_valid(m) && bytes@ == Self::spec_enc(m) {
                        lemma_vote_enc_parts(bytes@, m);
                    }
                }
            }
            return None;
        }
        let (candidate, p2) = r2.unwrap();
        let r3 = take_str(bytes, p2);
        if r3.is_none() {
            proof {
                assert forall|m: VoteV| Self::spec_valid(m) implies bytes@
                    != #[trigger] Self::spec_enc(m) by {
                    if Self::spec_valid(m) && bytes@ == Self::spec_enc(m) {
                        lemma_vote_enc_parts(bytes@, m);
                        assert(bytes@.subrange(0, 8) == enc_u64(id));
                        assert(p2 == 8 + enc_str(m.candidate).len());
                    }
                }
            }
            return None;
        }
        let (voter, p3) = r3.unwrap();
        let r4 = take_u64(bytes, p3);
        if r4.is_none() {
            proof {
                assert forall|m: VoteV| Self::spec_valid(m) implies bytes@
                    != #[trigger] Self::spec_enc(m) by {
                    if Self::spec_valid(m) && bytes@ == Self::spec_enc(m) {
                        lemma_vote_enc_parts(bytes@, m);
                        assert(p2 == 8 + enc_str(m.candidate).len());
                        assert(p3 == p2 + enc_str(m.voter).len());
                    }
                }
            }
            return None;
        }
        let (timestamp, p4) = r4.unwrap();
        if p4 != bytes.len() {
            proof {
                assert forall|m: VoteV| Self::spec_valid(m) implies bytes@
                    != #[trigger] Self::spec_enc(m) by {
                    if Self::spec_valid(m) && bytes@ == Self::spec_enc(m) {
                        lemma_vote_enc_parts(bytes@, m);
                        assert(p2 == 8 + enc_str(m.candidate).len());
                        assert(p3 == p2 + enc_str(m.voter).len());
                    }
                }
            }
            return None;
        }
        let v = Vote { id, candidate, voter, timestamp };
        proof {
            assert(bytes@ =~= bytes@.subrange(0, 8) + bytes@.subrange(8, p2 as int)
                + bytes@.subrange(p2 as int, p3 as int) + bytes@.subrange(
                p3 as int,
                p4 as int,
            ));
            assert(bytes@ == Self::spec_enc(v@));
            assert forall|m: VoteV|
                Self::spec_valid(m) && bytes@ == #[trigger] Self::spec_enc(m) implies v@ == m by {
                lemma_vote_enc_parts(bytes@, m);
                assert(enc_u64(m.id) == bytes@.subrange(0, 8));
                lemma_enc_u64(m.id);
                assert(candidate@ == m.candidate);
                assert(p2 == 8 + enc_str(m.candidate).len());
                assert(voter@ == m.voter);
                assert(p3 == p2 + enc_str(m.voter).len());
                assert(enc_u64(m.timestamp) == bytes@.subrange(p3 as int, p4 as int));
                lemma_enc_u64(m.timestamp);
            }
        }
        Some(v)
    }
}

/// Why a voting operation failed.
#[derive(Debug, PartialEq, Eq, Structural)]
pub enum VoteError {
    /// An aggregate query needs at least one vote and the store is empty.
    InsertFailed,
    /// The referenced id holds no vote.
    VoteNotFoundError,
    /// The (candidate, voter) pair has voted already.
    DuplicateVote,
}

/// Some vote in the sequence pairs this candidate with this voter.
pub open spec fn has_vote_pair(s: Seq<VoteV>, c: Seq<char>, v: Seq<char>) -> bool {
    exists|i: int| 0 <= i < s.len() && (#[trigger] s[i]).candidate == c && s[i].voter == v
}

/// Some vote other than the one under `id` pairs this candidate with this
/// voter.
pub open spec fn has_other_vote_pair(s: Seq<VoteV>, id: u64, c: Seq<char>, v: Seq<char>) -> bool {
    exists|i: int|
        0 <= i < s.len() && (#[trigger] s[i]).id != id && s[i].candidate == c && s[i].voter == v
}

/// The vote store: records plus counter in two durable regions.
pub struct VoteStore {
    store: Store<Vote>,
}

impl View for VoteStore {
    type V = StoreView<VoteV>;

    closed spec fn view(&self) -> StoreView<VoteV> {
        self.store@
    }
}

impl VoteStore {
    /// The inner store mirrors its durable map.
    pub closed spec fn wf(self) -> bool {
        self.store.wf()
    }

    /// A well-formed store has a well-formed model.
    pub proof fn wf_view(&self)
        requires
            self.wf(),
        ensures
            view_wf::<Vote>(self@),
    {
        self.store.wf_view();
    }

    /// Opens the vote store in two durable regions; nothing is returned when
    /// the regions hold corrupt state.
    pub fn open(counter_region: Region, map_region: Region) -> (r: Option<VoteStore>)
        ensures
            r matches Some(s) ==> s.wf(),
    {
        match Store::<Vote>::open(counter_region, map_region) {
            Some(store) => Some(VoteStore { store }),
            None => None,
        }
    }

    /// Stores a vote under its id, which must have been issued by the
    /// counter: the helper behind adding and updating.
    pub fn insert(&mut self, vote: &Vote)
        requires
            old(self).wf(),
            1 <= vote@.id <= old(self)@.next,
            has_id::<Vote>(old(self)@.records, vote@.id) || (forall|i: int|
                0 <= i < old(self)@.records.len() ==> (#[trigger] old(self)@.records[i]).id
                    < vote@.id),
        ensures
            final(self).wf(),
            final(self)@.next == old(self)@.next,
            final(self)@.records == spec_put::<Vote>(old(self)@.records, vote@),
    {
        proof {
            assert forall|i: int|
                0 <= i < self@.records.len() && !has_id::<Vote>(self@.records, vote@.id) implies
                Vote::spec_id(#[trigger] self@.records[i]) < Vote::spec_id(vote@) by {}
        }
        self.store.insert(vote);
    }

    /// Adds a vote for the candidate by the voter, stamped with the given
    /// time, under a fresh id.  Refused when the pair has voted already; the
    /// store is then unchanged.
    pub fn add_vote(&mut self, candidate: String, voter: String, now: u64) -> (r: Result<
        Vote,
        VoteError,
    >)
        requires
            old(self).wf(),
            old(self)@.next < u64::MAX,
        ensures
            final(self).wf(),
            has_vote_pair(old(self)@.records, candidate@, voter@) ==> r == Result::<
                Vote,
                VoteError,
            >::Err(VoteError::DuplicateVote) && final(self)@ == old(self)@,
            !has_vote_pair(old(self)@.records, candidate@, voter@) ==> (r matches Ok(v) && v@ == (
            VoteV {
                id: (old(self)@.next + 1) as u64,
                candidate: candidate@,
                voter: voter@,
                timestamp: now,
            }) && final(self)@.next == old(self)@.next + 1 && final(self)@.records == old(
                self,
            )@.records.push(v@)),
    {
        if self.find_pair(&candidate, &voter) {
            return Err(VoteError::DuplicateVote);
        }
        let id = self.store.fresh_id();
        let vote = Vote { id, candidate, voter, timestamp: now };
        proof {
            old(self).store.wf_view();
            assert forall|i: int| 0 <= i < self@.records.len() implies Vote::spec_id(
                #[trigger] self@.records[i],
            ) < Vote::spec_id(vote@) by {
                assert(1 <= old(self)@.records[i].id <= old(self)@.next);
            }
        }
        self.store.insert(&vote);
        proof {
            lemma_find_after_put_fresh::<Vote>(old(self)@.records, vote@);
        }
        Ok(vote)
    }

    /// Whether some stored vote pairs this candidate with this voter.
    fn find_pair(&self, candidate: &String, voter: &String) -> (r: bool)
        requires
            self.wf(),
        ensures
            r == has_vote_pair(self@.records, candidate@, voter@),
    {
        let all = self.store.records();
        let mut i: usize = 0;
        while i < all.len()
            invariant
                self.wf(),
                all@.len() == self@.records.len(),
                forall|j: int| 0 <= j < all@.len() ==> #[trigger] all@[j]@ == self@.records[j],
                i <= all@.len(),
                forall|j: int|
                    0 <= j < i ==> !((#[trigger] self@.records[j]).candidate == candidate@
                        && self@.records[j].voter == voter@),
            decreases all@.len() - i,
        {
            proof {
                assert(all@[i as int]@ == self@.records[i as int]);
            }
            if all[i].candidate.eq(candidate) && all[i].voter.eq(voter) {
                proof {
                    assert(self@.records[i as int].candidate == candidate@);
                }
                return true;
            }
            i = i + 1;
        }
        false
    }

    /// Rewrites the vote under the id with the given candidate, voter and
    /// time, preserving the id.  Fails without mutation when the id is
    /// absent, or when another vote already pairs the candidate with the
    /// voter.
    pub fn update_vote(&mut self, id: u64, candidate: String, voter: String, now: u64) -> (r:
        Result<Vote, VoteError>)
        requires
            old(self).wf(),
        ensures
            final(self).wf(),
            final(self)@.next == old(self)@.next,
            !has_id::<Vote>(old(self)@.records, id) ==> r == Result::<Vote, VoteError>::Err(
                VoteError::VoteNotFoundError,
            ) && final(self)@ == old(self)@,
            has_id::<Vote>(old(self)@.records, id) && has_other_vote_pair(
                old(self)@.records,
                id,
                candidate@,
                voter@,
            ) ==> r == Result::<Vote, VoteError>::Err(VoteError::DuplicateVote) && final(self)@
                == old(self)@,
            has_id::<Vote>(old(self)@.records, id) && !has_other_vote_pair(
                old(self)@.records,
                id,
                candidate@,
                voter@,
            ) ==> (r matches Ok(v) && v@ == (VoteV {
                id,
                candidate: candidate@,
                voter: voter@,
                timestamp: now,
            }) && final(self)@.records == old(self)@.records.update(
                id_index::<Vote>(old(self)@.records, id),
                v@,
            )),
    {
        let existing = self.store.get(id);
        if existing.is_none() {
            proof {
                if has_id::<Vote>(self@.records, id) {
                    let i = id_index::<Vote>(self@.records, id);
                }
            }
            return Err(VoteError::VoteNotFoundError);
        }
        if self.find_other_pair(id, &candidate, &voter) {
            return Err(VoteError::DuplicateVote);
        }
        let vote = Vote { id, candidate, voter, timestamp: now };
        proof {
            self.store.wf_view();
            assert(has_id::<Vote>(self@.records, id));
        }
        self.store.insert(&vote);
        Ok(vote)
    }

    /// Whether a vote under an id other than the given one pairs this
    /// candidate with this voter.
    fn find_other_pair(&self, id: u64, candidate: &String, voter: &String) -> (r: bool)
        requires
            self.wf(),
        ensures
            r == has_other_vote_pair(self@.records, id, candidate@, voter@),
    {
        let all = self.store.records();
        let mut i: usize = 0;
        while i < all.len()
            invariant
                self.wf(),
                all@.len() == self@.records.len(),
                forall|j: int| 0 <= j < all@.len() ==> #[trigger] all@[j]@ == self@.records[j],
                i <= all@.len(),
                forall|j: int|
                    0 <= j < i ==> !((#[trigger] self@.records[j]).id != id
                        && self@.records[j].candidate == candidate@ && self@.records[j].voter
                        == voter@),
            decreases all@.len() - i,
        {
            proof {
                assert(all@[i as int]@ == self@.records[i as int]);
            }
            if all[i].id != id && all[i].candidate.eq(candidate) && all[i].voter.eq(voter) {
                proof {
                    assert(self@.records[i as int].candidate == candidate@);
                }
                return true;
            }
            i = i + 1;
        }
        false
    }

    /// Removes and returns the vote under the id; fails without mutation
    /// when the id is absent.
    pub fn delete_vote(&mut self, id: u64) -> (r: Result<Vote, VoteError>)
        requires
            old(self).wf(),
        ensures
            final(self).wf(),
            final(self)@.next == old(self)@.next,
            !has_id::<Vote>(old(self)@.records, id) ==> r == Result::<Vote, VoteError>::Err(
                VoteError::VoteNotFoundError,
            ) && final(self)@ == old(self)@,
            has_id::<Vote>(old(self)@.records, id) ==> (r matches Ok(v) && spec_find::<Vote>(
                old(self)@.records,
                id,
            ) == Some(v@) && final(self)@.records == old(self)@.records.remove(
                id_index::<Vote>(old(self)@.records, id),
            )),
    {
        match self.store.remove(id) {
            Some(v) => Ok(v),
            None => Err(VoteError::VoteNotFoundError),
        }
    }

    /// Removes every vote; ids are not reused afterwards, since the counter
    /// keeps its value.
    pub fn clear_votes(&mut self) -> (r: Result<(), VoteError>)
        requires
            old(self).wf(),
        ensures
            final(self).wf(),
            final(self)@.next == old(self)@.next,
            final(self)@.records.len() == 0,
            r is Ok,
    {
        self.store.clear();
        Ok(())
    }

    /// The last issued vote id: the counter's value.  A caller checks it is
    /// below the largest 64-bit value before adding a vote.
    pub fn last_issued(&self) -> (r: u64)
        requires
            self.wf(),
        ensures
            r == self@.next,
    {
        self.store.last_id()
    }

    /// The number of votes held.
    pub fn total_votes(&self) -> (r: Result<u64, VoteError>)
        requires
            self.wf(),
        ensures
            r matches Ok(n) && n == self@.records.len(),
    {
        Ok(self.store.count())
    }

    /// Every vote, in store order: ascending id, which is creation order.
    pub fn get_votes(&self) -> (r: Result<Vec<Vote>, VoteError>)
        requires
            self.wf(),
        ensures
            r matches Ok(l) && vote_views(l@) == self@.records,
    {
        let all = self.store.records();
        proof {
            assert(vote_views(all@) =~= self@.records);
        }
        Ok(all)
    }
}

/// The votes' specification-level values, in order.
pub open spec fn vote_views(s: Seq<Vote>) -> Seq<VoteV> {
    s.map_values(|v: Vote| v@)
}

/// The strings' specification-level values, in order.
pub open spec fn string_views(s: Seq<String>) -> Seq<Seq<char>> {
    s.map_values(|x: String| x@)
}

/// Votes for the candidate.
pub open spec fn by_candidate(c: Seq<char>) -> spec_fn(VoteV) -> bool {
    |v: VoteV| v.candidate == c
}

/// Votes by the voter.
pub open spec fn by_voter(c: Seq<char>) -> spec_fn(VoteV) -> bool {
    |v: VoteV| v.voter == c
}

/// Votes whose timestamp lies in the inclusive range.
pub open spec fn in_time_range(lo: u64, hi: u64) -> spec_fn(VoteV) -> bool {
    |v: VoteV| lo <= v.timestamp <= hi
}

/// How many votes the candidate holds.
pub open spec fn candidate_count(s: Seq<VoteV>, c: Seq<char>) -> nat {
    s.filter(by_candidate(c)).len()
}

/// The distinct candidates, each at its first appearance.
pub open spec fn distinct_candidates(s: Seq<VoteV>) -> Seq<Seq<char>>
    decreases s.len(),
{
    if s.len() == 0 {
        Seq::empty()
    } else {
        let rest = distinct_candidates(s.drop_last());
        if rest.contains(s.last().candidate) {
            rest
        } else {
            rest.push(s.last().candidate)
        }
    }
}

/// Of the candidates seen so far, the one a strictly better-counted later
/// candidate displaces: with `max` true the highest count wins, else the
/// lowest, and the earlier candidate keeps ties.
pub open spec fn best_candidate(s: Seq<VoteV>, dc: Seq<Seq<char>>, n: int, max: bool) -> Seq<char>
    decreases n,
{
    if n <= 1 {
        dc[0]
    } else {
        let prev = best_candidate(s, dc, n - 1, max);
        let better = if max {
            candidate_count(s, dc[n - 1]) > candidate_count(s, prev)
        } else {
            candidate_count(s, dc[n - 1]) < candidate_count(s, prev)
        };
        if better {
            dc[n - 1]
        } else {
            prev
        }
    }
}

/// Later votes carry a later timestamp, ties in ascending id order.
pub open spec fn sorted_by_time(s: Seq<VoteV>) -> bool {
    forall|i: int, j: int|
        0 <= i < j < s.len() ==> (#[trigger] s[i]).timestamp < (#[trigger] s[j]).timestamp || (
        s[i].timestamp == s[j].timestamp && s[i].id <= s[j].id)
}

/// Filtering one more element keeps the filter of the prefix and appends the
/// element exactly when it matches.
proof fn lemma_filter_push<A>(s: Seq<A>, pred: spec_fn(A) -> bool, x: A)
    ensures
        s.push(x).filter(pred) == if pred(x) {
            s.filter(pred).push(x)
        } else {
            s.filter(pred)
        },
{
    reveal(Seq::filter);
    assert(s.push(x).drop_last() =~= s);
    assert(s.push(x).last() == x);
}

/// A filter that matches nothing yields the empty sequence: in particular a
/// time range whose bounds cross.
pub proof fn lemma_filter_none<A>(s: Seq<A>, pred: spec_fn(A) -> bool)
    requires
        forall|i: int| 0 <= i < s.len() ==> !pred(#[trigger] s[i]),
    ensures
        s.filter(pred).len() == 0,
    decreases s.len(),
{
    reveal(Seq::filter);
    if s.len() > 0 {
        assert(forall|i: int|
            0 <= i < s.drop_last().len() ==> !pred(#[trigger] s.drop_last()[i]));
        lemma_filter_none(s.drop_last(), pred);
    }
}

/// A time range with crossed bounds holds no vote: `range_by(lo, hi)` with
/// `lo > hi` always yields the empty sequence, never an error.
pub proof fn lemma_crossed_range_empty(s: Seq<VoteV>, lo: u64, hi: u64)
    requires
        lo > hi,
    ensures
        s.filter(in_time_range(lo, hi)).len() == 0,
{
    lemma_filter_none(s, in_time_range(lo, hi));
}

/// Which votes a scan keeps.
enum VoteFilter {
    ByCandidate(String),
    ByVoter(String),
    InTimeRange(u64, u64),
}

/// The predicate a selector stands for.
spec fn selected(f: VoteFilter) -> spec_fn(VoteV) -> bool {
    match f {
        VoteFilter::ByCandidate(c) => by_candidate(c@),
        VoteFilter::ByVoter(v) => by_voter(v@),
        VoteFilter::InTimeRange(lo, hi) => in_time_range(lo, hi),
    }
}

impl VoteStore {
    /// The stored votes the selector keeps, in store order.
    fn filtered(&self, sel: &VoteFilter) -> (r: Vec<Vote>)
        requires
            self.wf(),
        ensures
            vote_views(r@) == self@.records.filter(selected(*sel)),
    {
        let ghost pred = selected(*sel);
        let all = self.store.records();
        let ghost recs = self@.records;
        let mut out: Vec<Vote> = Vec::new();
        let mut i: usize = 0;
        proof {
            reveal(Seq::filter);
            assert(recs.take(0) =~= Seq::empty());
            assert(vote_views(out@) =~= recs.take(0).filter(pred));
        }
        while i < all.len()
            invariant
                self.wf(),
                pred == selected(*sel),
                recs == self@.records,
                all@.len() == recs.len(),
                forall|j: int| 0 <= j < all@.len() ==> #[trigger] all@[j]@ == recs[j],
                i <= all@.len(),
                vote_views(out@) == recs.take(i as int).filter(pred),
            decreases all@.len() - i,
        {
            proof {
                assert(all@[i as int]@ == recs[i as int]);
            }
            let ghost pre = out@;
            let matched: bool = match sel {
                VoteFilter::ByCandidate(c) => all[i].candidate.eq(c),
                VoteFilter::ByVoter(v) => all[i].voter.eq(v),
                VoteFilter::InTimeRange(lo, hi) => *lo <= all[i].timestamp && all[i].timestamp
                    <= *hi,
            };
            if matched {
                out.push(all[i].clone());
            }
            proof {
                assert(matched == pred(recs[i as int]));
                lemma_filter_push(recs.take(i as int), pred, recs[i as int]);
                assert(recs.take(i as int + 1) =~= recs.take(i as int).push(recs[i as int]));
                if matched {
                    assert(vote_views(out@) =~= vote_views(pre).push(recs[i as int]));
                }
                assert(vote_views(out@) =~= recs.take(i as int + 1).filter(pred));
            }
            i = i + 1;
        }
        proof {
            assert(recs.take(recs.len() as int) =~= recs);
        }
        out
    }

    /// The votes for the candidate, in store order.
    pub fn get_votes_by_candidate(&self, candidate: String) -> (r: Result<Vec<Vote>, VoteError>)
        requires
            self.wf(),
        ensures
            r matches Ok(l) && vote_views(l@) == self@.records.filter(by_candidate(candidate@)),
    {
        Ok(self.filtered(&VoteFilter::ByCandidate(candidate)))
    }

    /// The votes by the voter, in store order.
    pub fn get_votes_by_voter(&self, voter: String) -> (r: Result<Vec<Vote>, VoteError>)
        requires
            self.wf(),
        ensures
            r matches Ok(l) && vote_views(l@) == self@.records.filter(by_voter(voter@)),
    {
        Ok(self.filtered(&VoteFilter::ByVoter(voter)))
    }

    /// The votes whose timestamp lies in the inclusive range, in store
    /// order; crossed bounds yield the empty sequence, never an error.
    pub fn get_votes_in_time_range(&self, start_time: u64, end_time: u64) -> (r: Result<
        Vec<Vote>,
        VoteError,
    >)
        requires
            self.wf(),
        ensures
            r matches Ok(l) && vote_views(l@) == self@.records.filter(
                in_time_range(start_time, end_time),
            ),
            start_time > end_time ==> (r matches Ok(l) && l@.len() == 0),
    {
        let out = self.filtered(&VoteFilter::InTimeRange(start_time, end_time));
        proof {
            if start_time > end_time {
                lemma_crossed_range_empty(self@.records, start_time, end_time);
            }
        }
        Ok(out)
    }

    /// The latest timestamp any vote carries, zero when the store is empty.
    pub fn get_latest_vote_timestamp(&self) -> (r: Result<u64, VoteError>)
        requires
            self.wf(),
        ensures
            r matches Ok(t) && (forall|i: int|
                0 <= i < self@.records.len() ==> (#[trigger] self@.records[i]).timestamp <= t) && (
            self@.records.len() == 0 ==> t == 0) && (self@.records.len() > 0 ==> exists|i: int|
                0 <= i < self@.records.len() && (#[trigger] self@.records[i]).timestamp == t),
    {
        let all = self.store.records();
        let ghost recs = self@.records;
        let mut t: u64 = 0;
        let mut i: usize = 0;
        while i < all.len()
            invariant
                self.wf(),
                recs == self@.records,
                all@.len() == recs.len(),
                forall|j: int| 0 <= j < all@.len() ==> #[trigger] all@[j]@ == recs[j],
                i <= all@.len(),
                forall|j: int| 0 <= j < i ==> (#[trigger] recs[j]).timestamp <= t,
                t == 0 || exists|j: int| 0 <= j < i && (#[trigger] recs[j]).timestamp == t,
            decreases all@.len() - i,
        {
            proof {
                assert(all@[i as int]@ == recs[i as int]);
            }
            if all[i].timestamp > t {
                t = all[i].timestamp;
                proof {
                    assert((recs[i as int]).timestamp == t);
                }
            }
            i = i + 1;
        }
        proof {
            if recs.len() > 0 && t == 0 {
                assert((recs[0]).timestamp <= 0);
            }
        }
        Ok(t)
    }

    /// Whether the vector holds the string.
    fn contains_str(v: &Vec<String>, s: &String) -> (r: bool)
        ensures
            r == string_views(v@).contains(s@),
    {
        let mut i: usize = 0;
        while i < v.len()
            invariant
                i <= v@.len(),
                forall|j: int| 0 <= j < i ==> #[trigger] string_views(v@)[j] != s@,
            decreases v@.len() - i,
        {
            if v[i].eq(s) {
                proof {
                    assert(string_views(v@)[i as int] == s@);
                }
                return true;
            }
            i = i + 1;
        }
        false
    }

    /// The distinct candidates, each at its first appearance, in store
    /// order.
    fn candidates_vec(&self) -> (r: Vec<String>)
        requires
            self.wf(),
        ensures
            string_views(r@) == distinct_candidates(self@.records),
    {
        let all = self.store.records();
        let ghost recs = self@.records;
        let mut out: Vec<String> = Vec::new();
        let mut i: usize = 0;
        proof {
            assert(recs.take(0) =~= Seq::empty());
            assert(string_views(out@) =~= distinct_candidates(recs.take(0)));
        }
        while i < all.len()
            invariant
                self.wf(),
                recs == self@.records,
                all@.len() == recs.len(),
                forall|j: int| 0 <= j < all@.len() ==> #[trigger] all@[j]@ == recs[j],
                i <= all@.len(),
                string_views(out@) == distinct_candidates(recs.take(i as int)),
            decreases all@.len() - i,
        {
            proof {
                assert(all@[i as int]@ == recs[i as int]);
                assert(recs.take(i as int + 1).drop_last() =~= recs.take(i as int));
                assert(recs.take(i as int + 1).last() == recs[i as int]);
            }
            let ghost pre = out@;
            if !Self::contains_str(&out, &all[i].candidate) {
                out.push(all[i].candidate.clone());
                proof {
                    assert(string_views(out@) =~= string_views(pre).push(
                        recs[i as int].candidate,
                    ));
                }
            }
            i = i + 1;
        }
        proof {
            assert(recs.take(recs.len() as int) =~= recs);
        }
        out
    }

    /// The list of candidates, without repeats, each at its first
    /// appearance in store order.
    pub fn get_candidates(&self) -> (r: Result<Vec<String>, VoteError>)
        requires
            self.wf(),
        ensures
            r matches Ok(l) && string_views(l@) == distinct_candidates(self@.records),
    {
        Ok(self.candidates_vec())
    }

    /// How many votes the candidate holds.
    fn count_for(&self, c: &String) -> (r: u64)
        requires
            self.wf(),
        ensures
            r == candidate_count(self@.records, c@),
    {
        let all = self.store.records();
        let ghost recs = self@.records;
        let ghost pred = by_candidate(c@);
        let mut cnt: u64 = 0;
        let mut i: usize = 0;
        proof {
            reveal(Seq::filter);
            assert(recs.take(0) =~= Seq::empty());
        }
        while i < all.len()
            invariant
                self.wf(),
                recs == self@.records,
                pred == by_candidate(c@),
                all@.len() == recs.len(),
                forall|j: int| 0 <= j < all@.len() ==> #[trigger] all@[j]@ == recs[j],
                i <= all@.len(),
                cnt == recs.take(i as int).filter(pred).len(),
            decreases all@.len() - i,
        {
            proof {
                assert(all@[i as int]@ == recs[i as int]);
                lemma_filter_push(recs.take(i as int), pred, recs[i as int]);
                assert(recs.take(i as int + 1) =~= recs.take(i as int).push(recs[i as int]));
                recs.take(i as int).lemma_filter_len(pred);
            }
            if all[i].candidate.eq(c) {
                cnt = cnt + 1;
            }
            i = i + 1;
        }
        proof {
            assert(recs.take(recs.len() as int) =~= recs);
        }
        cnt
    }

    /// The number of votes each candidate holds, one pair per candidate, in
    /// first-appearance order.
    pub fn get_all_candidate_votes(&self) -> (r: Result<Vec<(String, u64)>, VoteError>)
        requires
            self.wf(),
        ensures
            r matches Ok(l) && l@.len() == distinct_candidates(self@.records).len() && (forall|
                k: int,
            |
                0 <= k < l@.len() ==> (#[trigger] l@[k]).0@ == distinct_candidates(
                    self@.records,
                )[k] && l@[k].1 == candidate_count(
                    self@.records,
                    distinct_candidates(self@.records)[k],
                )),
    {
        let cands = self.candidates_vec();
        let ghost dc = distinct_candidates(self@.records);
        let mut out: Vec<(String, u64)> = Vec::new();
        let mut k: usize = 0;
        while k < cands.len()
            invariant
                self.wf(),
                dc == distinct_candidates(self@.records),
                string_views(cands@) == dc,
                k <= cands@.len(),
                out@.len() == k,
                forall|j: int|
                    0 <= j < k ==> (#[trigger] out@[j]).0@ == dc[j] && out@[j].1
                        == candidate_count(self@.records, dc[j]),
            decreases cands@.len() - k,
        {
            proof {
                assert(string_views(cands@)[k as int] == dc[k as int]);
            }
            let n = self.count_for(&cands[k]);
            out.push((cands[k].clone(), n));
            k = k + 1;
        }
        Ok(out)
    }

    /// The candidate with the most votes; of equally counted candidates the
    /// one seen first wins.  Fails when the store is empty.
    pub fn get_most_voted_candidate(&self) -> (r: Result<String, VoteError>)
        requires
            self.wf(),
        ensures
            self@.records.len() == 0 ==> r == Result::<String, VoteError>::Err(
                VoteError::InsertFailed,
            ),
            self@.records.len() > 0 ==> (r matches Ok(c) && c@ == best_candidate(
                self@.records,
                distinct_candidates(self@.records),
                distinct_candidates(self@.records).len() as int,
                true,
            )),
    {
        self.extreme_candidate(true)
    }

    /// The candidate with the fewest votes; of equally counted candidates
    /// the one seen first wins.  Fails when the store is empty.
    pub fn get_least_voted_candidate(&self) -> (r: Result<String, VoteError>)
        requires
            self.wf(),
        ensures
            self@.records.len() == 0 ==> r == Result::<String, VoteError>::Err(
                VoteError::InsertFailed,
            ),
            self@.records.len() > 0 ==> (r matches Ok(c) && c@ == best_candidate(
                self@.records,
                distinct_candidates(self@.records),
                distinct_candidates(self@.records).len() as int,
                false,
            )),
    {
        self.extreme_candidate(false)
    }

    /// The candidate whose count is extreme, earliest seen first.
    fn extreme_candidate(&self, max: bool) -> (r: Result<String, VoteError>)
        requires
            self.wf(),
        ensures
            self@.records.len() == 0 ==> r == Result::<String, VoteError>::Err(
                VoteError::InsertFailed,
            ),
            self@.records.len() > 0 ==> (r matches Ok(c) && c@ == best_candidate(
                self@.records,
                distinct_candidates(self@.records),
                distinct_candidates(self@.records).len() as int,
                max,
            )),
    {
        let ghost recs = self@.records;
        let ghost dc = distinct_candidates(recs);
        let cands = self.candidates_vec();
        if cands.len() == 0 {
            proof {
                if recs.len() > 0 {
                    assert(dc.len() > 0);
                }
            }
            return Err(VoteError::InsertFailed);
        }
        proof {
            if recs.len() == 0 {
                assert(dc =~= Seq::<Seq<char>>::empty());
                assert(string_views(cands@).len() == cands@.len());
                assert(false);
            }
        }
        let mut best: String = cands[0].clone();
        let mut bestn: u64 = self.count_for(&best);
        let mut k: usize = 1;
        proof {
            assert(string_views(cands@)[0] == dc[0]);
            assert(best@ == best_candidate(recs, dc, 1, max));
        }
        while k < cands.len()
            invariant
                self.wf(),
                recs == self@.records,
                dc == distinct_candidates(recs),
                string_views(cands@) == dc,
                cands@.len() >= 1,
                1 <= k <= cands@.len(),
                best@ == best_candidate(recs, dc, k as int, max),
                bestn == candidate_count(recs, best@),
            decreases cands@.len() - k,
        {
            proof {
                assert(string_views(cands@)[k as int] == dc[k as int]);
            }
            let n = self.count_for(&cands[k]);
            let better: bool = if max {
                n > bestn
            } else {
                n < bestn
            };
            if better {
                best = cands[k].clone();
                bestn = n;
            }
            k = k + 1;
        }
        Ok(best)
    }

    /// The votes ordered by timestamp, earliest first; votes of one
    /// timestamp keep their store order, ascending id.
    pub fn get_votes_sorted_by_timestamp(&self) -> (r: Result<Vec<Vote>, VoteError>)
        requires
            self.wf(),
        ensures
            r matches Ok(l) && vote_views(l@).to_multiset() == self@.records.to_multiset()
                && sorted_by_time(vote_views(l@)),
    {
        broadcast use vstd::seq_lib::group_to_multiset_ensures;

        let all = self.store.records();
        let ghost recs = self@.records;
        let mut out: Vec<Vote> = Vec::new();
        let mut i: usize = 0;
        proof {
            assert(recs.take(0) =~= Seq::<VoteV>::empty());
            assert(vote_views(out@) =~= Seq::<VoteV>::empty());
            assert(vote_views(out@).to_multiset() =~= recs.take(0).to_multiset());
        }
        while i < all.len()
            invariant
                self.wf(),
                recs == self@.records,
                all@.len() == recs.len(),
                forall|j: int| 0 <= j < all@.len() ==> #[trigger] all@[j]@ == recs[j],
                i <= all@.len(),
                vote_views(out@).to_multiset() == recs.take(i as int).to_multiset(),
                sorted_by_time(vote_views(out@)),
            decreases all@.len() - i,
        {
            proof {
                assert(all@[i as int]@ == recs[i as int]);
            }
            let v = all[i].clone();
            let mut p: usize = out.len();
            while p > 0 && sorts_after(&out[p - 1], &v)
                invariant
                    p <= out@.len(),
                    forall|q: int|
                        p <= q < out@.len() ==> vote_time_gt(#[trigger] out@[q]@, v@),
                decreases p,
            {
                p = p - 1;
            }
            let ghost pre = out@;
            let ghost vsnap = v;
            out.insert(p, v);
            i = i + 1;
            proof {
                let vv = recs[i as int - 1];
                assert(vsnap@ == vv);
                assert(out@ == pre.insert(p as int, vsnap));
                lemma_views_insert(pre, p as int, vsnap);
                lemma_to_multiset_insert(vote_views(pre), p as int, vv);
                assert(recs.take(i as int) =~= recs.take(i as int - 1).push(vv));
                recs.take(i as int - 1).to_multiset_ensures();
                assert(recs.take(i as int - 1).push(vv).to_multiset() =~= recs.take(
                    i as int - 1,
                ).to_multiset().insert(vv));
                assert(recs.take(i as int).to_multiset() =~= recs.take(
                    i as int - 1,
                ).to_multiset().insert(recs[i as int - 1]));
                assert(vote_views(out@).to_multiset() =~= recs.take(i as int).to_multiset());
                assert forall|a: int, b: int|
                    0 <= a < b < vote_views(out@).len() implies (#[trigger] vote_views(
                    out@,
                )[a]).timestamp < (#[trigger] vote_views(out@)[b]).timestamp || (vote_views(
                    out@,
                )[a].timestamp == vote_views(out@)[b].timestamp && vote_views(out@)[a].id
                    <= vote_views(out@)[b].id) by {
                    let w = vote_views(out@);
                    let vv = recs[i as int - 1];
                    if b == p {
                        if a < p {
                            assert(w[a] == vote_views(pre)[a]);
                            assert(!vote_time_gt(vote_views(pre)[p as int - 1], vv));
                            if a < p - 1 {
                                assert(vote_time_le(
                                    vote_views(pre)[a],
                                    vote_views(pre)[p as int - 1],
                                ));
                            }
                        }
                    } else if a == p {
                        assert(w[b] == vote_views(pre)[b - 1]);
                        assert(vote_time_gt(vote_views(pre)[b - 1], vv));
                    } else if a < p && b > p {
                        assert(w[a] == vote_views(pre)[a]);
                        assert(w[b] == vote_views(pre)[b - 1]);
                        assert(vote_time_le(vote_views(pre)[a], vote_views(pre)[b - 1]));
                    } else if b < p {
                        assert(w[a] == vote_views(pre)[a]);
                        assert(w[b] == vote_views(pre)[b]);
                    } else {
                        assert(w[a] == vote_views(pre)[a - 1]);
                        assert(w[b] == vote_views(pre)[b - 1]);
                    }
                }
            }
        }
        proof {
            assert(recs.take(recs.len() as int) =~= recs);
        }
        Ok(out)
    }
}

/// The first vote sorts strictly after the second: a later timestamp, or
/// the same timestamp and a later id.
pub open spec fn vote_time_gt(a: VoteV, b: VoteV) -> bool {
    a.timestamp > b.timestamp || (a.timestamp == b.timestamp && a.id > b.id)
}

/// The first vote sorts no later than the second.
pub open spec fn vote_time_le(a: VoteV, b: VoteV) -> bool {
    a.timestamp < b.timestamp || (a.timestamp == b.timestamp && a.id <= b.id)
}

/// Whether `a` sorts strictly after `b`.
fn sorts_after(a: &Vote, b: &Vote) -> (r: bool)
    ensures
        r == vote_time_gt(a@, b@),
{
    a.timestamp > b.timestamp || (a.timestamp == b.timestamp && a.id > b.id)
}

/// Mapping to views commutes with inserting an element.
proof fn lemma_views_insert(s: Seq<Vote>, p: int, x: Vote)
    requires
        0 <= p <= s.len(),
    ensures
        vote_views(s.insert(p, x)) == vote_views(s).insert(p, x@),
{
    assert(vote_views(s.insert(p, x)) =~= vote_views(s).insert(p, x@));
}

/// An update preserves the record's id and identity: looking the id up
/// afterwards finds a vote that kept the id, carries exactly the given
/// fields, and — the host clock never running backwards, so the new stamp
/// is no older than the stored one — a modification timestamp at least the
/// previous one.
pub proof fn lemma_update_preserves_identity(
    s: Seq<VoteV>,
    id: u64,
    c: Seq<char>,
    v: Seq<char>,
    now: u64,
)
    requires
        forall|i: int, j: int| 0 <= i < j < s.len() ==> (#[trigger] s[i]).id < (#[trigger] s[j]).id,
        has_id::<Vote>(s, id),
        now >= s[id_index::<Vote>(s, id)].timestamp,
    ensures
        ({
            let nv = VoteV { id, candidate: c, voter: v, timestamp: now };
            let s2 = s.update(id_index::<Vote>(s, id), nv);
            spec_find::<Vote>(s2, id) == Some(nv) && nv.id == id && nv.timestamp >= s[
                id_index::<Vote>(s, id)].timestamp
        }),
{
    let i = id_index::<Vote>(s, id);
    assert(0 <= i < s.len() && s[i].id == id);
    let nv = VoteV { id, candidate: c, voter: v, timestamp: now };
    let s2 = s.update(i, nv);
    assert(s2[i].id == id);
    assert(has_id::<Vote>(s2, id));
    let j = id_index::<Vote>(s2, id);
    assert(0 <= j < s2.len() && s2[j].id == id);
    if j != i {
        assert(s2[j] == s[j]);
        assert(s[i].id != s[j].id);
    }
}

/// Inserting anywhere adds one occurrence to the multiset.
proof fn lemma_to_multiset_insert(s: Seq<VoteV>, p: int, x: VoteV)
    requires
        0 <= p <= s.len(),
    ensures
        s.insert(p, x).to_multiset() == s.to_multiset().insert(x),
{
    broadcast use vstd::seq_lib::group_to_multiset_ensures;

    let t = s.insert(p, x);
    assert(t =~= s.take(p) + (seq![x] + s.skip(p)));
    vstd::seq_lib::lemma_multiset_commutative(s.take(p), seq![x] + s.skip(p));
    vstd::seq_lib::lemma_multiset_commutative(seq![x], s.skip(p));
    assert(s =~= s.take(p) + s.skip(p));
    vstd::seq_lib::lemma_multiset_commutative(s.take(p), s.skip(p));
    assert(seq![x] =~= Seq::<VoteV>::empty().push(x));
    assert(seq![x].to_multiset() =~= Multiset::<VoteV>::empty().insert(x));
    assert(t.to_multiset() =~= s.to_multiset().insert(x));
}

} // verus!
