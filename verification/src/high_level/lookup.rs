//! The decisions of an iterative lookup of the peers closest to a key.
//!
//! Each peer comes with its distance to the searched key, which the caller
//! computes. A first step contacts up to `parallelism` peers at a time,
//! closest first, while responses bring peers at least as close as the
//! closest one found; a second step then contacts up to `num_results` peers
//! at a time. The lookup ends when `num_results` peers answered, or when no
//! peer is left to contact.

use vstd::prelude::*;
use crate::addresses::{same_bytes, byte_views};
use crate::record::{copy_bytes, copy_byte_list};
use crate::protocol::KadPeer;

verus! {

/// Peers with their distances, as values.
pub open spec fn entries(s: Seq<(Vec<u8>, u32)>) -> Seq<(Seq<u8>, u32)> {
    s.map_values(|e: (Vec<u8>, u32)| (e.0@, e.1))
}

/// The ids of peers with distances.
pub open spec fn ids_of(s: Seq<(Seq<u8>, u32)>) -> Seq<Seq<u8>> {
    s.map_values(|e: (Seq<u8>, u32)| e.0)
}

/// The peers are ordered by increasing distance.
pub open spec fn sorted_by_distance(s: Seq<(Seq<u8>, u32)>) -> bool {
    forall|i: int, j: int| 0 <= i <= j < s.len() ==> #[trigger] s[i].1 <= #[trigger] s[j].1
}

/// Some peer of `s` has id `id`.
pub open spec fn has_id(s: Seq<(Seq<u8>, u32)>, id: Seq<u8>) -> bool {
    exists|i: int| 0 <= i < s.len() && #[trigger] s[i].0 == id
}

/// `p` is the first position of `s` whose peer is not closer than `d`.
pub open spec fn is_insert_pos(s: Seq<(Seq<u8>, u32)>, d: u32, p: int) -> bool {
    &&& 0 <= p <= s.len()
    &&& forall|j: int| 0 <= j < p ==> #[trigger] s[j].1 < d
    &&& p < s.len() ==> s[p].1 >= d
}

/// The first position of `s` whose peer is not closer than `d` (the
/// length of `s` if there is none).
pub open spec fn insert_pos(s: Seq<(Seq<u8>, u32)>, d: u32) -> int {
    choose|p: int| is_insert_pos(s, d, p)
}

/// The results after `x` answered: `x` goes before the first result not
/// closer than it, unless that result is `x` itself; the farthest result
/// leaves when there are already `n`. Past the last result, `x` is added
/// only while there are fewer than `n`.
pub open spec fn result_after(res: Seq<(Seq<u8>, u32)>, x: (Seq<u8>, u32), n: nat) -> Seq<(Seq<u8>, u32)> {
    let p = insert_pos(res, x.1);
    if p < res.len() {
        if res[p].0 == x.0 {
            res
        } else if res.len() >= n {
            res.drop_last().insert(p, x)
        } else {
            res.insert(p, x)
        }
    } else if res.len() < n {
        res.push(x)
    } else {
        res
    }
}

/// The peers to contact after `x` was reported: `x` goes before the first
/// one not closer than it, unless that one is `x` itself.
pub open spec fn pending_after(pend: Seq<(Seq<u8>, u32)>, x: (Seq<u8>, u32)) -> Seq<(Seq<u8>, u32)> {
    let p = insert_pos(pend, x.1);
    if p < pend.len() {
        if pend[p].0 == x.0 {
            pend
        } else {
            pend.insert(p, x)
        }
    } else {
        pend.push(x)
    }
}

/// The peers to contact after the peers `c` were reported in turn, those
/// among the results `res` left out.
pub open spec fn pending_fold(pend: Seq<(Seq<u8>, u32)>, res: Seq<(Seq<u8>, u32)>, c: Seq<(Seq<u8>, u32)>) -> Seq<(Seq<u8>, u32)>
    decreases c.len(),
{
    if c.len() == 0 {
        pend
    } else {
        let before = pending_fold(pend, res, c.drop_last());
        if has_id(res, c.last().0) {
            before
        } else {
            pending_after(before, c.last())
        }
    }
}

/// A peer that is not contacted again: a result, a peer being contacted,
/// or one that failed.
pub open spec fn excluded(res: Seq<(Seq<u8>, u32)>, cur: Seq<(Seq<u8>, u32)>, failed: Set<Seq<u8>>, id: Seq<u8>) -> bool {
    has_id(res, id) || has_id(cur, id) || failed.contains(id)
}

/// The peers picked from the front of `pend`, up to `want` of them, the
/// excluded ones being dropped; and what is left of `pend`.
pub open spec fn pick(
    pend: Seq<(Seq<u8>, u32)>,
    want: nat,
    res: Seq<(Seq<u8>, u32)>,
    cur: Seq<(Seq<u8>, u32)>,
    failed: Set<Seq<u8>>,
) -> (Seq<(Seq<u8>, u32)>, Seq<(Seq<u8>, u32)>)
    decreases pend.len(),
{
    if want == 0 || pend.len() == 0 {
        (Seq::empty(), pend)
    } else if excluded(res, cur, failed, pend[0].0) {
        pick(pend.drop_first(), want, res, cur, failed)
    } else {
        let r = pick(pend.drop_first(), (want - 1) as nat, res, cur, failed);
        (seq![pend[0]] + r.0, r.1)
    }
}

/// `a - b`, or zero.
pub open spec fn saturating_sub(a: nat, b: nat) -> nat {
    if a >= b { (a - b) as nat } else { 0 }
}

/// The stages of a lookup.
#[derive(Copy, Clone, Debug, PartialEq, Eq, Structural)]
pub enum Stage {
    /// Looking for the closest peer, `parallelism` requests at a time.
    FirstStep,
    /// Contacting the closest peers to fill the results, `num_results`
    /// requests at a time.
    SecondStep,
    /// The results are complete and are given out next.
    FinishingNextIter,
    /// The results were given out.
    Finished,
}

/// What the lookup does next.
#[derive(Debug)]
pub enum Round {
    /// Gives out the results, ordered by distance.
    Finished(Vec<Vec<u8>>),
    /// Nothing more: the lookup is over.
    Ended,
    /// Sends a request to each of these peers.
    Contact(Vec<Vec<u8>>),
    /// No peer is being contacted and none is left to contact: the results
    /// are given out next.
    NoPeerLeft,
}

/// What the lookup reports of a response.
#[derive(Debug)]
pub enum KadQueryEvent<TOut> {
    /// The addresses that the responding peer gave for each peer it
    /// reported.
    NewKnownMultiaddrs(Vec<(Vec<u8>, Vec<Vec<u8>>)>),
    /// The lookup is over, with its result.
    Finished(TOut),
}

/// The state of a lookup.
pub struct QueryState {
    stage: Stage,
    parallelism: usize,
    num_results: usize,
    result: Vec<(Vec<u8>, u32)>,
    current_attempts: Vec<(Vec<u8>, u32)>,
    pending_nodes: Vec<(Vec<u8>, u32)>,
    failed_to_contact: Vec<Vec<u8>>,
}

/// What a lookup holds.
pub struct QueryStateView {
    pub stage: Stage,
    pub parallelism: nat,
    pub num_results: nat,
    /// The peers that answered, closest first, at most `num_results`.
    pub result: Seq<(Seq<u8>, u32)>,
    /// The peers being contacted.
    pub current: Seq<(Seq<u8>, u32)>,
    /// The peers to contact, closest first.
    pub pending: Seq<(Seq<u8>, u32)>,
    /// The peers that could not be contacted.
    pub failed: Set<Seq<u8>>,
}

impl View for QueryState {
    type V = QueryStateView;

    closed spec fn view(&self) -> QueryStateView {
        QueryStateView {
            stage: self.stage,
            parallelism: self.parallelism as nat,
            num_results: self.num_results as nat,
            result: entries(self.result@),
            current: entries(self.current_attempts@),
            pending: entries(self.pending_nodes@),
            failed: byte_views(self.failed_to_contact@).to_set(),
        }
    }
}

/// The position of the first peer of `v` not closer than `d`.
fn find_insert_pos(v: &Vec<(Vec<u8>, u32)>, d: u32) -> (p: usize)
    ensures
        p == insert_pos(entries(v@), d),
        is_insert_pos(entries(v@), d, p as int),
{
    let mut i: usize = 0;
    while i < v.len() && v[i].1 < d
        invariant
            i <= v@.len(),
            forall|j: int| 0 <= j < i ==> #[trigger] entries(v@)[j].1 < d,
        decreases v@.len() - i,
    {
        i += 1;
    }
    proof {
        lemma_insert_pos_unique(entries(v@), d, i as int);
    }
    i
}

/// The first position not closer than `d` is unique.
proof fn lemma_insert_pos_unique(s: Seq<(Seq<u8>, u32)>, d: u32, p: int)
    requires
        is_insert_pos(s, d, p),
    ensures
        insert_pos(s, d) == p,
{
    let q = insert_pos(s, d);
    assert(is_insert_pos(s, d, q));
    if q < p {
        assert(s[q].1 < d);
    } else if p < q {
        assert(s[p].1 < d);
    }
}

/// Whether some peer of `v` has id `id`.
fn contains_id(v: &Vec<(Vec<u8>, u32)>, id: &Vec<u8>) -> (r: bool)
    ensures
        r == has_id(entries(v@), id@),
{
    let mut i: usize = 0;
    while i < v.len()
        invariant
            i <= v@.len(),
            forall|j: int| 0 <= j < i ==> #[trigger] entries(v@)[j].0 != id@,
        decreases v@.len() - i,
    {
        if same_bytes(&v[i].0, id) {
            assert(entries(v@)[i as int].0 == id@);
            return true;
        }
        i += 1;
    }
    false
}

/// Whether `v` holds `id`.
fn contains_bytes(v: &Vec<Vec<u8>>, id: &Vec<u8>) -> (r: bool)
    ensures
        r == byte_views(v@).to_set().contains(id@),
{
    let mut i: usize = 0;
    while i < v.len()
        invariant
            i <= v@.len(),
            forall|j: int| 0 <= j < i ==> #[trigger] byte_views(v@)[j] != id@,
        decreases v@.len() - i,
    {
        if same_bytes(&v[i], id) {
            assert(byte_views(v@)[i as int] == id@);
            assert(byte_views(v@).contains(id@));
            return true;
        }
        i += 1;
    }
    false
}

/// A copy of the ids of peers.
fn copy_ids(v: &Vec<(Vec<u8>, u32)>) -> (r: Vec<Vec<u8>>)
    ensures
        byte_views(r@) == ids_of(entries(v@)),
{
    let mut r: Vec<Vec<u8>> = Vec::new();
    let mut i: usize = 0;
    while i < v.len()
        invariant
            i <= v@.len(),
            r@.len() == i,
            forall|j: int| 0 <= j < i ==> (#[trigger] r@[j])@ == v@[j].0@,
        decreases v@.len() - i,
    {
        r.push(copy_bytes(&v[i].0));
        i += 1;
    }
    assert(byte_views(r@) =~= ids_of(entries(v@)));
    r
}

/// Inserting a peer at its position keeps the order.
proof fn lemma_insert_sorted(s: Seq<(Seq<u8>, u32)>, x: (Seq<u8>, u32), p: int)
    requires
        sorted_by_distance(s),
        is_insert_pos(s, x.1, p),
    ensures
        sorted_by_distance(s.insert(p, x)),
{
    let t = s.insert(p, x);
    assert forall|i: int, j: int| 0 <= i <= j < t.len() implies #[trigger] t[i].1 <= #[trigger] t[j].1 by {
        if i < p {
            assert(t[i] == s[i]);
            if j < p {
                assert(t[j] == s[j]);
            } else if j > p {
                assert(t[j] == s[j - 1]);
            }
        } else if i == p {
            if j > p {
                assert(t[j] == s[j - 1]);
                assert(s[p].1 <= s[j - 1].1);
            }
        } else {
            assert(t[i] == s[i - 1]);
            assert(t[j] == s[j - 1]);
        }
    }
}

/// The order of the peers to contact survives the reports of `c`.
proof fn lemma_pending_fold_sorted(pend: Seq<(Seq<u8>, u32)>, res: Seq<(Seq<u8>, u32)>, c: Seq<(Seq<u8>, u32)>)
    requires
        sorted_by_distance(pend),
    ensures
        sorted_by_distance(pending_fold(pend, res, c)),
    decreases c.len(),
{
    if c.len() > 0 {
        lemma_pending_fold_sorted(pend, res, c.drop_last());
        let before = pending_fold(pend, res, c.drop_last());
        let x = c.last();
        let p = insert_pos(before, x.1);
        lemma_insert_pos_exists(before, x.1);
        if p < before.len() {
            lemma_insert_sorted(before, x, p);
        } else {
            lemma_insert_sorted(before, x, p);
            assert(before.insert(p, x) =~= before.push(x));
        }
    }
}

/// Some position is the first not closer than `d`.
proof fn lemma_insert_pos_exists(s: Seq<(Seq<u8>, u32)>, d: u32)
    ensures
        is_insert_pos(s, d, insert_pos(s, d)),
    decreases s.len(),
{
    if s.len() == 0 {
        assert(is_insert_pos(s, d, 0));
    } else if s[0].1 >= d {
        assert(is_insert_pos(s, d, 0));
    } else {
        let t = s.drop_first();
        lemma_insert_pos_exists(t, d);
        let q = insert_pos(t, d);
        assert forall|j: int| 0 <= j < q + 1 implies #[trigger] s[j].1 < d by {
            if j > 0 {
                assert(s[j] == t[j - 1]);
            }
        }
        if q + 1 < s.len() {
            assert(s[q + 1] == t[q]);
        }
        assert(is_insert_pos(s, d, q + 1));
    }
}

/// What is left after a pick is what follows its first `k` peers, and
/// the picked peers are at most `want`.
proof fn lemma_pick_suffix(
    pend: Seq<(Seq<u8>, u32)>,
    want: nat,
    res: Seq<(Seq<u8>, u32)>,
    cur: Seq<(Seq<u8>, u32)>,
    failed: Set<Seq<u8>>,
)
    ensures
        exists|k: int| 0 <= k <= pend.len() && #[trigger] pick(pend, want, res, cur, failed).1 == pend.subrange(k, pend.len() as int),
        pick(pend, want, res, cur, failed).0.len() <= want,
    decreases pend.len(),
{
    if want == 0 || pend.len() == 0 {
        assert(pend.subrange(0, pend.len() as int) =~= pend);
    } else {
        let w = if excluded(res, cur, failed, pend[0].0) { want } else { (want - 1) as nat };
        lemma_pick_suffix(pend.drop_first(), w, res, cur, failed);
        let t = pend.drop_first();
        let k = choose|k: int| 0 <= k <= t.len() && #[trigger] pick(t, w, res, cur, failed).1 == t.subrange(k, t.len() as int);
        assert(t.subrange(k, t.len() as int) =~= pend.subrange(k + 1, pend.len() as int));
    }
}

/// A suffix of an ordered list is ordered.
proof fn lemma_suffix_sorted(s: Seq<(Seq<u8>, u32)>, k: int)
    requires
        sorted_by_distance(s),
        0 <= k <= s.len(),
    ensures
        sorted_by_distance(s.subrange(k, s.len() as int)),
{
    let t = s.subrange(k, s.len() as int);
    assert forall|i: int, j: int| 0 <= i <= j < t.len() implies #[trigger] t[i].1 <= #[trigger] t[j].1 by {
        assert(t[i] == s[i + k] && t[j] == s[j + k]);
    }
}


/// Reported peers with their distances, as values.
pub open spec fn reported(c: Seq<(KadPeer, u32)>) -> Seq<(Seq<u8>, u32)> {
    c.map_values(|e: (KadPeer, u32)| (e.0.node_id@, e.1))
}

/// Some reported peer is at least as close as the closest result.
pub open spec fn closer_found(c: Seq<(Seq<u8>, u32)>, res: Seq<(Seq<u8>, u32)>) -> bool {
    exists|j: int| 0 <= j < c.len() && #[trigger] c[j].1 <= res[0].1
}

/// The stage after a response, given the results and the peers being
/// contacted after it, and whether a reported peer was at least as close
/// as the closest result.
pub open spec fn stage_after(stage: Stage, res: Seq<(Seq<u8>, u32)>, cur: Seq<(Seq<u8>, u32)>, n: nat, closer: bool) -> Stage {
    if res.len() >= n || (stage != Stage::FirstStep && cur.len() == 0) {
        Stage::FinishingNextIter
    } else if !closer {
        Stage::SecondStep
    } else {
        stage
    }
}

/// A round never picks a peer that answered, that is being contacted, or
/// that failed, and picks no more than it wants.
pub proof fn lemma_pick_excludes(
    pend: Seq<(Seq<u8>, u32)>,
    want: nat,
    res: Seq<(Seq<u8>, u32)>,
    cur: Seq<(Seq<u8>, u32)>,
    failed: Set<Seq<u8>>,
)
    ensures
        pick(pend, want, res, cur, failed).0.len() <= want,
        forall|i: int| 0 <= i < pick(pend, want, res, cur, failed).0.len() ==>
            !excluded(res, cur, failed, (#[trigger] pick(pend, want, res, cur, failed).0[i]).0),
    decreases pend.len(),
{
    if want == 0 || pend.len() == 0 {
    } else if excluded(res, cur, failed, pend[0].0) {
        lemma_pick_excludes(pend.drop_first(), want, res, cur, failed);
    } else {
        lemma_pick_excludes(pend.drop_first(), (want - 1) as nat, res, cur, failed);
        let r = pick(pend.drop_first(), (want - 1) as nat, res, cur, failed);
        let t = seq![pend[0]] + r.0;
        assert forall|i: int| 0 <= i < t.len() implies !excluded(res, cur, failed, (#[trigger] t[i]).0) by {
            if i > 0 {
                assert(t[i] == r.0[i - 1]);
            }
        }
    }
}

/// The results after an answer stay ordered, non-empty and at most `n`.
proof fn lemma_result_after(res: Seq<(Seq<u8>, u32)>, x: (Seq<u8>, u32), n: nat)
    requires
        sorted_by_distance(res),
        res.len() <= n,
        n >= 1,
    ensures
        sorted_by_distance(result_after(res, x, n)),
        1 <= result_after(res, x, n).len() <= n,
{
    let p = insert_pos(res, x.1);
    lemma_insert_pos_exists(res, x.1);
    if p < res.len() {
        if res[p].0 == x.0 {
        } else if res.len() >= n {
            let d = res.drop_last();
            assert(is_insert_pos(d, x.1, p)) by {
                assert forall|j: int| 0 <= j < p implies #[trigger] d[j].1 < x.1 by {
                    assert(d[j] == res[j]);
                }
                if p < d.len() {
                    assert(d[p] == res[p]);
                }
            }
            assert(sorted_by_distance(d)) by {
                assert forall|i: int, j: int| 0 <= i <= j < d.len() implies #[trigger] d[i].1 <= #[trigger] d[j].1 by {
                    assert(d[i] == res[i] && d[j] == res[j]);
                }
            }
            lemma_insert_sorted(d, x, p);
        } else {
            lemma_insert_sorted(res, x, p);
        }
    } else if res.len() < n {
        lemma_insert_sorted(res, x, p);
        assert(res.insert(p, x) =~= res.push(x));
    }
}

impl QueryState {
    /// The results are ordered and at most `num_results`; the peers to
    /// contact are ordered.
    pub closed spec fn wf(&self) -> bool {
        &&& self.num_results >= 1
        &&& sorted_by_distance(entries(self.result@))
        &&& entries(self.result@).len() <= self.num_results
        &&& sorted_by_distance(entries(self.pending_nodes@))
    }

    /// The results are ordered by distance and never more than
    /// `num_results`; the peers to contact are ordered by distance.
    pub proof fn lemma_wf(q: &Self)
        requires
            q.wf(),
        ensures
            q@.num_results >= 1,
            sorted_by_distance(q@.result),
            q@.result.len() <= q@.num_results,
            sorted_by_distance(q@.pending),
    {
    }

    /// A lookup that starts from the known peers `closest`, ordered by
    /// distance.
    pub fn new(closest: Vec<(Vec<u8>, u32)>, parallelism: usize, num_results: usize) -> (r: Self)
        requires
            sorted_by_distance(entries(closest@)),
            num_results >= 1,
        ensures
            r.wf(),
            r@ == (QueryStateView {
                stage: Stage::FirstStep,
                parallelism: parallelism as nat,
                num_results: num_results as nat,
                result: Seq::empty(),
                current: Seq::empty(),
                pending: entries(closest@),
                failed: Set::empty(),
            }),
    {
        let r = QueryState {
            stage: Stage::FirstStep,
            parallelism,
            num_results,
            result: Vec::new(),
            current_attempts: Vec::new(),
            pending_nodes: closest,
            failed_to_contact: Vec::new(),
        };
        proof {
            assert(entries(r.result@) =~= Seq::empty());
            assert(entries(r.current_attempts@) =~= Seq::empty());
            assert(byte_views(r.failed_to_contact@).to_set() =~= Set::empty());
        }
        r
    }

    /// Decides the next round: give out the results once complete, end
    /// after that, or pick the next peers to contact, closest first, up to
    /// `parallelism` (first step) or `num_results` (second step) requests
    /// at a time; with none being contacted after that, the results are
    /// complete.
    pub fn start_round(&mut self) -> (r: Round)
        requires
            old(self).wf(),
        ensures
            final(self).wf(),
            final(self)@.parallelism == old(self)@.parallelism,
            final(self)@.num_results == old(self)@.num_results,
            final(self)@.failed == old(self)@.failed,
            match old(self)@.stage {
                Stage::FinishingNextIter => {
                    &&& r matches Round::Finished(ids) && byte_views(ids@) == ids_of(old(self)@.result)
                    &&& final(self)@ == (QueryStateView { stage: Stage::Finished, result: Seq::empty(), ..old(self)@ })
                },
                Stage::Finished => r is Ended && final(self)@ == old(self)@,
                _ => {
                    let want = if old(self)@.stage == Stage::FirstStep {
                        saturating_sub(old(self)@.parallelism, old(self)@.current.len())
                    } else {
                        saturating_sub(old(self)@.num_results, old(self)@.current.len())
                    };
                    let picked = pick(old(self)@.pending, want, old(self)@.result, old(self)@.current, old(self)@.failed);
                    &&& final(self)@.result == old(self)@.result
                    &&& final(self)@.pending == picked.1
                    &&& final(self)@.current == old(self)@.current + picked.0
                    &&& if final(self)@.current.len() == 0 {
                        r is NoPeerLeft && final(self)@.stage == Stage::FinishingNextIter
                    } else {
                        r matches Round::Contact(ids) && byte_views(ids@) == ids_of(picked.0)
                            && final(self)@.stage == old(self)@.stage
                    }
                },
            },
    {
        match self.stage {
            Stage::FinishingNextIter => {
                let ids = copy_ids(&self.result);
                self.result = Vec::new();
                self.stage = Stage::Finished;
                proof {
                    assert(entries(self.result@) =~= Seq::empty());
                }
                return Round::Finished(ids);
            },
            Stage::Finished => {
                return Round::Ended;
            },
            _ => {},
        }
        let wanted: usize = if self.stage == Stage::FirstStep {
            self.parallelism.saturating_sub(self.current_attempts.len())
        } else {
            self.num_results.saturating_sub(self.current_attempts.len())
        };
        let ghost res = entries(self.result@);
        let ghost cur = entries(self.current_attempts@);
        let ghost failed = byte_views(self.failed_to_contact@).to_set();
        let ghost orig = entries(self.pending_nodes@);
        let mut picked: Vec<(Vec<u8>, u32)> = Vec::new();
        while picked.len() < wanted && self.pending_nodes.len() > 0
            invariant
                self.wf(),
                entries(self.result@) == res,
                entries(self.current_attempts@) == cur,
                byte_views(self.failed_to_contact@).to_set() == failed,
                picked@.len() <= wanted,
                pick(orig, wanted as nat, res, cur, failed) == ({
                    let rest = pick(entries(self.pending_nodes@), (wanted - picked@.len()) as nat, res, cur, failed);
                    (entries(picked@) + rest.0, rest.1)
                }),
                self.parallelism == old(self).parallelism,
                self.num_results == old(self).num_results,
                self.stage == old(self).stage,
            decreases self.pending_nodes@.len(),
        {
            let ghost before = entries(self.pending_nodes@);
            let peer = self.pending_nodes.remove(0);
            proof {
                assert(entries(self.pending_nodes@) =~= before.drop_first());
                lemma_suffix_sorted(before, 1);
                assert(before.subrange(1, before.len() as int) =~= before.drop_first());
            }
            if contains_id(&self.result, &peer.0) {
                continue;
            }
            if contains_id(&self.current_attempts, &peer.0) {
                continue;
            }
            if contains_bytes(&self.failed_to_contact, &peer.0) {
                continue;
            }
            let ghost e = (peer.0@, peer.1);
            picked.push(peer);
            proof {
                assert(entries(picked@) =~= entries(picked@.drop_last()).push(e));
                let rest = pick(entries(self.pending_nodes@), (wanted - picked@.len()) as nat, res, cur, failed);
                assert(seq![e] + rest.0 =~= seq![e].add(rest.0));
                assert(entries(picked@.drop_last()) + (seq![e] + rest.0) =~= entries(picked@) + rest.0);
            }
        }
        proof {
            let rest = pick(entries(self.pending_nodes@), (wanted - picked@.len()) as nat, res, cur, failed);
            assert(rest.0 =~= Seq::empty());
            assert(entries(picked@) + rest.0 =~= entries(picked@));
            lemma_pick_suffix(orig, wanted as nat, res, cur, failed);
        }
        let to_contact = copy_ids(&picked);
        let ghost pk = picked@;
        self.current_attempts.append(&mut picked);
        proof {
            assert(entries(self.current_attempts@) =~= cur + entries(pk));
        }
        if self.current_attempts.len() == 0 {
            self.stage = Stage::FinishingNextIter;
            Round::NoPeerLeft
        } else {
            Round::Contact(to_contact)
        }
    }
    /// Records that contacting the peer at `idx` of those being contacted
    /// failed: it is not contacted again.
    pub fn on_failure(&mut self, idx: usize)
        requires
            old(self).wf(),
            idx < old(self)@.current.len(),
        ensures
            final(self).wf(),
            final(self)@ == (QueryStateView {
                current: old(self)@.current.remove(idx as int),
                failed: old(self)@.failed.insert(old(self)@.current[idx as int].0),
                ..old(self)@
            }),
    {
        let ghost cur = self.current_attempts@;
        let remote = self.current_attempts.remove(idx);
        let ghost fv = self.failed_to_contact@;
        self.failed_to_contact.push(remote.0);
        proof {
            assert(entries(self.current_attempts@) =~= entries(cur).remove(idx as int));
            assert(byte_views(self.failed_to_contact@) =~= byte_views(fv).push(cur[idx as int].0@));
            byte_views(fv).lemma_push_to_set_commute(cur[idx as int].0@);
        }
    }

    /// Records the response of the peer at `idx` of those being contacted,
    /// which reported `closer_peers` (each with its distance): the peer
    /// joins the results, the reported peers that are not results join the
    /// peers to contact, and the stage moves on. Reports, for each reported
    /// peer, the addresses given for it.
    pub fn on_response(&mut self, idx: usize, closer_peers: Vec<(KadPeer, u32)>) -> (r: KadQueryEvent<Vec<Vec<u8>>>)
        requires
            old(self).wf(),
            idx < old(self)@.current.len(),
        ensures
            final(self).wf(),
            ({
                let res = result_after(old(self)@.result, old(self)@.current[idx as int], old(self)@.num_results);
                let cur = old(self)@.current.remove(idx as int);
                let c = reported(closer_peers@);
                &&& final(self)@.result == res
                &&& final(self)@.current == cur
                &&& final(self)@.pending == pending_fold(old(self)@.pending, res, c)
                &&& final(self)@.stage == stage_after(old(self)@.stage, res, cur, old(self)@.num_results, closer_found(c, res))
                &&& final(self)@.failed == old(self)@.failed
                &&& final(self)@.parallelism == old(self)@.parallelism
                &&& final(self)@.num_results == old(self)@.num_results
            }),
            r matches KadQueryEvent::NewKnownMultiaddrs(known) && known@.len() == closer_peers@.len()
                && forall|j: int| 0 <= j < known@.len() ==> {
                    &&& (#[trigger] known@[j]).0@ == closer_peers@[j].0.node_id@
                    &&& byte_views(known@[j].1@) == byte_views(closer_peers@[j].0.multiaddrs@)
                },
    {
        let ghost cur0 = self.current_attempts@;
        let ghost res0 = entries(self.result@);
        let remote = self.current_attempts.remove(idx);
        proof {
            assert(entries(self.current_attempts@) =~= entries(cur0).remove(idx as int));
            assert(entries(cur0)[idx as int] == (remote.0@, remote.1));
            lemma_result_after(res0, (remote.0@, remote.1), self.num_results as nat);
        }
        let n = self.num_results;
        let pos = find_insert_pos(&self.result, remote.1);
        if pos < self.result.len() {
            if !same_bytes(&self.result[pos].0, &remote.0) {
                if self.result.len() >= n {
                    let ghost rv = self.result@;
                    self.result.pop();
                    proof {
                        assert(entries(self.result@) =~= entries(rv).drop_last());
                    }
                }
                let ghost rv = self.result@;
                self.result.insert(pos, remote);
                proof {
                    assert(entries(self.result@) =~= entries(rv).insert(pos as int, (remote.0@, remote.1)));
                }
            }
        } else if self.result.len() < n {
            let ghost rv = self.result@;
            self.result.push(remote);
            proof {
                assert(entries(self.result@) =~= entries(rv).push((remote.0@, remote.1)));
            }
        }
        let ghost res = entries(self.result@);
        assert(res == result_after(res0, entries(cur0)[idx as int], n as nat));
        let ghost c = reported(closer_peers@);
        let ghost pend0 = entries(self.pending_nodes@);
        let mut updated = false;
        let mut known: Vec<(Vec<u8>, Vec<Vec<u8>>)> = Vec::new();
        let mut i: usize = 0;
        while i < closer_peers.len()
            invariant
                i <= closer_peers@.len(),
                c == reported(closer_peers@),
                entries(self.result@) == res,
                res.len() >= 1,
                self.wf(),
                entries(self.pending_nodes@) == pending_fold(pend0, res, c.take(i as int)),
                updated == closer_found(c.take(i as int), res),
                known@.len() == i,
                forall|j: int| 0 <= j < i ==> {
                    &&& (#[trigger] known@[j]).0@ == closer_peers@[j].0.node_id@
                    &&& byte_views(known@[j].1@) == byte_views(closer_peers@[j].0.multiaddrs@)
                },
                self.current_attempts@ == old(self).current_attempts@.remove(idx as int),
                self.failed_to_contact@ == old(self).failed_to_contact@,
                self.parallelism == old(self).parallelism,
                self.num_results == old(self).num_results,
                self.stage == old(self).stage,
            decreases closer_peers@.len() - i,
        {
            let peer = &closer_peers[i].0;
            let d = closer_peers[i].1;
            assert(c[i as int] == (peer.node_id@, d));
            known.push((copy_bytes(&peer.node_id), copy_byte_list(&peer.multiaddrs)));
            proof {
                assert(c.take(i + 1).drop_last() =~= c.take(i as int));
                assert(c.take(i + 1).last() == c[i as int]);
            }
            assert(entries(self.result@)[0] == res[0]);
            let ghost was = updated;
            if d <= self.result[0].1 {
                updated = true;
            }
            proof {
                let t0 = c.take(i as int);
                let t1 = c.take(i + 1);
                assert(t1[i as int] == c[i as int]);
                assert forall|j: int| 0 <= j < i implies t1[j] == t0[j] by {}
                if d <= res[0].1 {
                    assert(t1[i as int].1 <= res[0].1);
                }
                if was {
                    let j = choose|j: int| 0 <= j < t0.len() && #[trigger] t0[j].1 <= res[0].1;
                    assert(t1[j] == t0[j]);
                    assert(t1[j].1 <= res[0].1);
                }
                if closer_found(t1, res) {
                    let j = choose|j: int| 0 <= j < t1.len() && #[trigger] t1[j].1 <= res[0].1;
                    if j < i {
                        assert(t1[j] == t0[j]);
                        assert(t0[j].1 <= res[0].1);
                    }
                }
            }
            if !contains_id(&self.result, &peer.node_id) {
                let ghost pv = self.pending_nodes@;
                proof {
                    lemma_insert_pos_exists(entries(pv), d);
                }
                let p = find_insert_pos(&self.pending_nodes, d);
                if p < self.pending_nodes.len() {
                    if !same_bytes(&self.pending_nodes[p].0, &peer.node_id) {
                        self.pending_nodes.insert(p, (copy_bytes(&peer.node_id), d));
                        proof {
                            assert(entries(self.pending_nodes@) =~= entries(pv).insert(p as int, (peer.node_id@, d)));
                            lemma_insert_sorted(entries(pv), (peer.node_id@, d), p as int);
                        }
                    }
                } else {
                    self.pending_nodes.push((copy_bytes(&peer.node_id), d));
                    proof {
                        assert(entries(self.pending_nodes@) =~= entries(pv).push((peer.node_id@, d)));
                        lemma_insert_sorted(entries(pv), (peer.node_id@, d), p as int);
                        assert(entries(pv).insert(p as int, (peer.node_id@, d)) =~= entries(pv).push((peer.node_id@, d)));
                    }
                }
            }
            i += 1;
        }
        proof {
            assert(c.take(closer_peers@.len() as int) =~= c);
        }
        if self.result.len() >= n || (self.stage != Stage::FirstStep && self.current_attempts.len() == 0) {
            self.stage = Stage::FinishingNextIter;
        } else if !updated {
            self.stage = Stage::SecondStep;
        }
        KadQueryEvent::NewKnownMultiaddrs(known)
    }
}

} // verus!
