//! Which peer serves which chunk, and in what order: rarest first, so that what
//! only one peer holds is copied while that peer is still there.
use crate::chunks::{covers, Coverage};
use vstd::prelude::*;

verus! {

pub open spec fn coverages(holders: Seq<Coverage>) -> Seq<Seq<bool>> {
    Seq::new(holders.len(), |i: int| holders[i]@)
}

/// How many of the first `n` holders have a position.
pub open spec fn holders_upto(holders: Seq<Seq<bool>>, position: usize, n: nat) -> nat
    decreases n,
{
    if n == 0 {
        0
    } else {
        holders_upto(holders, position, (n - 1) as nat) + (if covers(
            holders[n - 1],
            position as int,
        ) {
            1nat
        } else {
            0nat
        })
    }
}

/// How many holders have a position.
pub open spec fn rarity(holders: Seq<Seq<bool>>, position: usize) -> nat {
    holders_upto(holders, position, holders.len())
}

/// `x` put behind every position that is no commoner.
pub open spec fn ranked_in(holders: Seq<Seq<bool>>, s: Seq<usize>, x: usize) -> Seq<usize>
    decreases s.len(),
{
    if s.len() == 0 {
        seq![x]
    } else if rarity(holders, s.last()) <= rarity(holders, x) {
        s.push(x)
    } else {
        ranked_in(holders, s.drop_last(), x).push(s.last())
    }
}

/// The wanted positions, rarest first, and among equally rare ones in the order
/// they are wanted.
pub open spec fn ranked(holders: Seq<Seq<bool>>, missing: Seq<usize>) -> Seq<usize>
    decreases missing.len(),
{
    if missing.len() == 0 {
        Seq::empty()
    } else {
        ranked_in(holders, ranked(holders, missing.drop_last()), missing.last())
    }
}

/// The least loaded of the first `n` holders of a position, the lower one of two
/// with the same load.
pub open spec fn pick_upto(
    holders: Seq<Seq<bool>>,
    queues: Seq<Seq<usize>>,
    position: usize,
    n: nat,
) -> Option<int>
    decreases n,
{
    if n == 0 {
        None
    } else {
        let before = pick_upto(holders, queues, position, (n - 1) as nat);
        if !covers(holders[n - 1], position as int) {
            before
        } else {
            match before {
                Some(p) => if queues[n - 1].len() < queues[p].len() {
                    Some(n - 1)
                } else {
                    before
                },
                None => Some(n - 1),
            }
        }
    }
}

pub open spec fn pick(holders: Seq<Seq<bool>>, queues: Seq<Seq<usize>>, position: usize) -> Option<
    int,
> {
    pick_upto(holders, queues, position, holders.len())
}

/// One position handed to the least loaded of its holders, if it has any.
pub open spec fn hand_out(
    holders: Seq<Seq<bool>>,
    queues: Seq<Seq<usize>>,
    position: usize,
) -> Seq<Seq<usize>> {
    match pick(holders, queues, position) {
        Some(p) => queues.update(p, queues[p].push(position)),
        None => queues,
    }
}

/// The queue of every holder, once all positions were handed out.
pub open spec fn handed_out(holders: Seq<Seq<bool>>, positions: Seq<usize>) -> Seq<Seq<usize>>
    decreases positions.len(),
{
    if positions.len() == 0 {
        Seq::new(holders.len(), |i: int| Seq::empty())
    } else {
        hand_out(holders, handed_out(holders, positions.drop_last()), positions.last())
    }
}

/// The wanted positions that nobody holds, in the order they are wanted.
pub open spec fn nobody_holds(holders: Seq<Seq<bool>>, missing: Seq<usize>) -> Seq<usize> {
    missing.filter(|position: usize| rarity(holders, position) == 0)
}

/// One peer's share of the work.
#[derive(Debug, Clone, PartialEq, Eq)]
pub struct PeerPlan {
    /// Index into the holders the plan was made for.
    pub peer: usize,
    /// Chunk positions, rarest first.
    pub positions: Vec<usize>,
}

/// What the peers can and cannot cover.
#[derive(Debug, Clone, PartialEq, Eq)]
pub struct Plan {
    /// The peers that were given work, in order.
    pub peers: Vec<PeerPlan>,
    /// Positions no peer holds, in the order they were wanted.
    pub unheld: Vec<usize>,
}

/// The queues that are not empty, each with its peer, from the first `n`.
pub open spec fn busy(queues: Seq<Seq<usize>>, n: nat) -> Seq<(usize, Seq<usize>)>
    decreases n,
{
    if n == 0 {
        Seq::empty()
    } else {
        let before = busy(queues, (n - 1) as nat);
        if queues[n - 1].len() == 0 {
            before
        } else {
            before.push(((n - 1) as usize, queues[n - 1]))
        }
    }
}

pub open spec fn plan_views(s: Seq<PeerPlan>) -> Seq<(usize, Seq<usize>)> {
    Seq::new(s.len(), |i: int| (s[i].peer, s[i].positions@))
}

proof fn lemma_ranked_in_at(holders: Seq<Seq<bool>>, s: Seq<usize>, x: usize, k: int)
    requires
        0 <= k <= s.len(),
        k > 0 ==> rarity(holders, s[k - 1]) <= rarity(holders, x),
        forall|i: int| k <= i < s.len() ==> rarity(holders, #[trigger] s[i]) > rarity(holders, x),
    ensures
        ranked_in(holders, s, x) == s.insert(k, x),
    decreases s.len(),
{
    if k < s.len() {
        let front = s.drop_last();
        assert(rarity(holders, s[s.len() - 1]) > rarity(holders, x));
        lemma_ranked_in_at(holders, front, x, k);
        assert(front.insert(k, x).push(s.last()) =~= s.insert(k, x));
    } else {
        assert(s.push(x) =~= s.insert(s.len() as int, x));
        if s.len() == 0 {
            assert(seq![x] =~= s.insert(0, x));
        }
    }
}

fn count_holders(holders: &[Coverage], position: usize) -> (n: usize)
    ensures
        n == rarity(coverages(holders@), position),
{
    let ghost all = coverages(holders@);
    let mut n: usize = 0;
    let mut i: usize = 0;
    while i < holders.len()
        invariant
            0 <= i <= holders@.len(),
            all == coverages(holders@),
            n == holders_upto(all, position, i as nat),
            n <= i,
        decreases holders@.len() - i,
    {
        if holders[i].contains(position) {
            n += 1;
        }
        i += 1;
    }
    n
}

fn choose_holder(holders: &[Coverage], queues: &Vec<Vec<usize>>, position: usize) -> (peer: Option<
    usize,
>)
    requires
        queues@.len() == holders@.len(),
    ensures
        match pick(coverages(holders@), crate::swarm::queue_views(queues@), position) {
            Some(p) => peer is Some && peer->Some_0 == p && 0 <= p < holders@.len(),
            None => peer is None,
        },
{
    let ghost all = coverages(holders@);
    let ghost qs = queue_views(queues@);
    let mut best: Option<usize> = None;
    let mut i: usize = 0;
    while i < holders.len()
        invariant
            0 <= i <= holders@.len(),
            queues@.len() == holders@.len(),
            all == coverages(holders@),
            qs == queue_views(queues@),
            match pick_upto(all, qs, position, i as nat) {
                Some(p) => best is Some && best->Some_0 == p && 0 <= p < i,
                None => best is None,
            },
        decreases holders@.len() - i,
    {
        if holders[i].contains(position) {
            match best {
                Some(p) => {
                    if queues[i].len() < queues[p].len() {
                        best = Some(i);
                    }
                },
                None => {
                    best = Some(i);
                },
            }
        }
        i += 1;
    }
    best
}

pub open spec fn queue_views(s: Seq<Vec<usize>>) -> Seq<Seq<usize>> {
    Seq::new(s.len(), |i: int| s[i]@)
}

fn rank(missing: &[usize], holders: &[Coverage]) -> (out: Vec<usize>)
    ensures
        out@ == ranked(coverages(holders@), missing@),
{
    let ghost all = coverages(holders@);
    let mut out: Vec<usize> = Vec::new();
    let mut counts: Vec<usize> = Vec::new();
    let mut i: usize = 0;
    while i < missing.len()
        invariant
            0 <= i <= missing@.len(),
            all == coverages(holders@),
            out@ == ranked(all, missing@.take(i as int)),
            counts@.len() == out@.len(),
            forall|k: int| 0 <= k < out@.len() ==> #[trigger] counts@[k] == rarity(all, out@[k]),
        decreases missing@.len() - i,
    {
        let x: usize = missing[i];
        let n: usize = count_holders(holders, x);
        let mut k: usize = out.len();
        while k > 0 && counts[k - 1] > n
            invariant
                0 <= k <= out@.len(),
                counts@.len() == out@.len(),
                n == rarity(all, x),
                forall|j: int|
                    0 <= j < out@.len() ==> #[trigger] counts@[j] == rarity(all, out@[j]),
                forall|j: int| k <= j < out@.len() ==> rarity(all, #[trigger] out@[j]) > n,
            decreases k,
        {
            assert(counts@[k - 1] == rarity(all, out@[k - 1]));
            k -= 1;
        }
        proof {
            if k > 0 {
                assert(counts@[k - 1] == rarity(all, out@[k - 1]));
            }
            lemma_ranked_in_at(all, out@, x, k as int);
            assert(missing@.take(i as int + 1).drop_last() =~= missing@.take(i as int));
        }
        let ghost out_before = out@;
        let ghost counts_before = counts@;
        out.insert(k, x);
        counts.insert(k, n);
        assert forall|j: int| 0 <= j < out@.len() implies #[trigger] counts@[j] == rarity(
            all,
            out@[j],
        ) by {
            if j < k {
                assert(counts_before[j] == rarity(all, out_before[j]));
            } else if j > k {
                assert(counts_before[j - 1] == rarity(all, out_before[j - 1]));
            }
        }
        i += 1;
    }
    assert(missing@.take(i as int) =~= missing@);
    out
}

fn unheld_positions(missing: &[usize], holders: &[Coverage]) -> (out: Vec<usize>)
    ensures
        out@ == nobody_holds(coverages(holders@), missing@),
{
    let ghost all = coverages(holders@);
    let mut out: Vec<usize> = Vec::new();
    let mut i: usize = 0;
    proof {
        reveal(Seq::filter);
    }
    while i < missing.len()
        invariant
            0 <= i <= missing@.len(),
            all == coverages(holders@),
            out@ == nobody_holds(all, missing@.take(i as int)),
        decreases missing@.len() - i,
    {
        proof {
            reveal(Seq::filter);
            assert(missing@.take(i as int + 1).drop_last() =~= missing@.take(i as int));
        }
        if count_holders(holders, missing[i]) == 0 {
            out.push(missing[i]);
        }
        i += 1;
    }
    assert(missing@.take(i as int) =~= missing@);
    out
}

/// Assigns the missing positions to the peers that hold them, rarest first, each
/// to the least loaded of its holders. What nobody holds is reported.
pub fn plan(missing: &[usize], holders: &[Coverage]) -> (out: Plan)
    ensures
        plan_views(out.peers@) == busy(
            handed_out(coverages(holders@), ranked(coverages(holders@), missing@)),
            holders@.len(),
        ),
        out.unheld@ == nobody_holds(coverages(holders@), missing@),
{
    let ghost all = coverages(holders@);
    let order = rank(missing, holders);
    let mut queues: Vec<Vec<usize>> = Vec::new();
    let mut filled: usize = 0;
    while filled < holders.len()
        invariant
            0 <= filled <= holders@.len(),
            queues@.len() == filled,
            forall|k: int| 0 <= k < filled ==> (#[trigger] queues@[k])@ == Seq::<usize>::empty(),
        decreases holders@.len() - filled,
    {
        queues.push(Vec::new());
        filled += 1;
    }
    assert(queue_views(queues@) =~= handed_out(all, order@.take(0)));
    let mut i: usize = 0;
    while i < order.len()
        invariant
            0 <= i <= order@.len(),
            all == coverages(holders@),
            queues@.len() == holders@.len(),
            queue_views(queues@) == handed_out(all, order@.take(i as int)),
        decreases order@.len() - i,
    {
        let position: usize = order[i];
        let ghost before = queue_views(queues@);
        assert(order@.take(i as int + 1).drop_last() =~= order@.take(i as int));
        match choose_holder(holders, &queues, position) {
            Some(p) => {
                queues[p].push(position);
                assert(queue_views(queues@) =~= before.update(p as int, before[p as int].push(
                    position,
                )));
            },
            None => {},
        }
        i += 1;
    }
    assert(order@.take(i as int) =~= order@);
    let ghost qs = queue_views(queues@);
    let mut peers: Vec<PeerPlan> = Vec::new();
    assert(plan_views(peers@) =~= Seq::empty());
    let mut p: usize = 0;
    while p < queues.len()
        invariant
            0 <= p <= queues@.len(),
            queues@.len() == holders@.len(),
            qs == queue_views(queues@),
            plan_views(peers@) == busy(qs, p as nat),
        decreases queues@.len() - p,
    {
        if queues[p].len() > 0 {
            let ghost before = plan_views(peers@);
            let positions = vstd::slice::slice_to_vec(queues[p].as_slice());
            peers.push(PeerPlan { peer: p, positions });
            assert(plan_views(peers@) =~= before.push((p, qs[p as int])));
        }
        p += 1;
    }
    let unheld = unheld_positions(missing, holders);
    Plan { peers, unheld }
}

/// How often a position occurs.
pub open spec fn times(s: Seq<usize>, x: usize) -> nat
    decreases s.len(),
{
    if s.len() == 0 {
        0
    } else {
        times(s.drop_last(), x) + (if s.last() == x {
            1nat
        } else {
            0nat
        })
    }
}

/// How often a position occurs in the first `n` queues.
pub open spec fn times_queued(queues: Seq<Seq<usize>>, x: usize, n: nat) -> nat
    decreases n,
{
    if n == 0 {
        0
    } else {
        times_queued(queues, x, (n - 1) as nat) + times(queues[n - 1], x)
    }
}

proof fn lemma_times_push(s: Seq<usize>, y: usize, x: usize)
    ensures
        times(s.push(y), x) == times(s, x) + (if y == x {
            1nat
        } else {
            0nat
        }),
{
    assert(s.push(y).drop_last() =~= s);
}

proof fn lemma_times_ranked(holders: Seq<Seq<bool>>, missing: Seq<usize>, x: usize)
    ensures
        times(ranked(holders, missing), x) == times(missing, x),
    decreases missing.len(),
{
    if missing.len() > 0 {
        let front = missing.drop_last();
        lemma_times_ranked(holders, front, x);
        lemma_times_ranked_in(holders, ranked(holders, front), missing.last(), x);
    }
}

proof fn lemma_times_ranked_in(holders: Seq<Seq<bool>>, s: Seq<usize>, y: usize, x: usize)
    ensures
        times(ranked_in(holders, s, y), x) == times(s, x) + (if y == x {
            1nat
        } else {
            0nat
        }),
    decreases s.len(),
{
    if s.len() == 0 {
        assert(ranked_in(holders, s, y) =~= Seq::empty().push(y));
        lemma_times_push(Seq::empty(), y, x);
    } else if rarity(holders, s.last()) <= rarity(holders, y) {
        lemma_times_push(s, y, x);
    } else {
        lemma_times_ranked_in(holders, s.drop_last(), y, x);
        lemma_times_push(ranked_in(holders, s.drop_last(), y), s.last(), x);
    }
}

proof fn lemma_times_unheld(holders: Seq<Seq<bool>>, missing: Seq<usize>, x: usize)
    ensures
        times(nobody_holds(holders, missing), x) == (if rarity(holders, x) > 0 {
            0
        } else {
            times(missing, x)
        }),
    decreases missing.len(),
{
    reveal(Seq::filter);
    if missing.len() > 0 {
        let front = missing.drop_last();
        lemma_times_unheld(holders, front, x);
        lemma_times_push(nobody_holds(holders, front), missing.last(), x);
    }
}

proof fn lemma_pick(holders: Seq<Seq<bool>>, queues: Seq<Seq<usize>>, position: usize, n: nat)
    ensures
        match pick_upto(holders, queues, position, n) {
            Some(p) => {
                &&& 0 <= p < n
                &&& covers(holders[p], position as int)
                &&& holders_upto(holders, position, n) > 0
                &&& forall|q: int|
                    0 <= q < n && covers(#[trigger] holders[q], position as int)
                        ==> queues[p].len() <= queues[q].len()
            },
            None => holders_upto(holders, position, n) == 0 && forall|q: int|
                0 <= q < n ==> !covers(#[trigger] holders[q], position as int),
        },
    decreases n,
{
    if n > 0 {
        lemma_pick(holders, queues, position, (n - 1) as nat);
    }
}

proof fn lemma_times_queued_update(
    queues: Seq<Seq<usize>>,
    p: int,
    y: usize,
    x: usize,
    n: nat,
)
    requires
        0 <= p < queues.len(),
        n <= queues.len(),
    ensures
        times_queued(queues.update(p, queues[p].push(y)), x, n) == times_queued(queues, x, n) + (
        if p < n && y == x {
            1nat
        } else {
            0nat
        }),
    decreases n,
{
    if n > 0 {
        lemma_times_queued_update(queues, p, y, x, (n - 1) as nat);
        lemma_times_push(queues[p], y, x);
    }
}

proof fn lemma_times_queued_empty(holders: Seq<Seq<bool>>, x: usize, n: nat)
    requires
        n <= holders.len(),
    ensures
        times_queued(Seq::new(holders.len(), |i: int| Seq::<usize>::empty()), x, n) == 0,
    decreases n,
{
    if n > 0 {
        lemma_times_queued_empty(holders, x, (n - 1) as nat);
    }
}

proof fn lemma_handed_out(holders: Seq<Seq<bool>>, positions: Seq<usize>, x: usize)
    ensures
        handed_out(holders, positions).len() == holders.len(),
        times_queued(handed_out(holders, positions), x, holders.len()) == (if rarity(
            holders,
            x,
        ) > 0 {
            times(positions, x)
        } else {
            0
        }),
    decreases positions.len(),
{
    if positions.len() == 0 {
        lemma_times_queued_empty(holders, x, holders.len());
    } else {
        let front = positions.drop_last();
        lemma_handed_out(holders, front, x);
        let before = handed_out(holders, front);
        let y = positions.last();
        lemma_pick(holders, before, y, holders.len());
        match pick(holders, before, y) {
            Some(p) => {
                lemma_times_queued_update(before, p, y, x, holders.len());
            },
            None => {},
        }
    }
}

/// Nothing is dropped and nothing is asked for twice: a position that somebody
/// holds is queued as often as it was wanted, and one that nobody holds is
/// reported as often as it was wanted.
pub proof fn law_plan_covers_what_is_missing(
    holders: Seq<Seq<bool>>,
    missing: Seq<usize>,
    x: usize,
)
    ensures
        rarity(holders, x) > 0 ==> {
            &&& times_queued(
                handed_out(holders, ranked(holders, missing)),
                x,
                holders.len(),
            ) == times(missing, x)
            &&& times(nobody_holds(holders, missing), x) == 0
        },
        rarity(holders, x) == 0 ==> {
            &&& times_queued(
                handed_out(holders, ranked(holders, missing)),
                x,
                holders.len(),
            ) == 0
            &&& times(nobody_holds(holders, missing), x) == times(
                missing,
                x,
            )
        },
{
    let order = ranked(holders, missing);
    lemma_times_ranked(holders, missing, x);
    lemma_handed_out(holders, order, x);
    lemma_times_unheld(holders, missing, x);
}

/// Whether positions come rarest first.
pub open spec fn rarest_first(holders: Seq<Seq<bool>>, s: Seq<usize>) -> bool {
    forall|i: int, j: int|
        0 <= i <= j < s.len() ==> rarity(holders, #[trigger] s[i]) <= rarity(
            holders,
            #[trigger] s[j],
        )
}

proof fn lemma_ranked_in_rarest(holders: Seq<Seq<bool>>, s: Seq<usize>, x: usize)
    requires
        rarest_first(holders, s),
    ensures
        rarest_first(holders, ranked_in(holders, s, x)),
        ranked_in(holders, s, x).len() > 0,
        rarity(holders, ranked_in(holders, s, x).last()) == (if s.len() > 0 && rarity(
            holders,
            s.last(),
        ) > rarity(holders, x) {
            rarity(holders, s.last())
        } else {
            rarity(holders, x)
        }),
    decreases s.len(),
{
    if s.len() > 0 && rarity(holders, s.last()) > rarity(holders, x) {
        let front = s.drop_last();
        assert(rarest_first(holders, front));
        lemma_ranked_in_rarest(holders, front, x);
        let mid = ranked_in(holders, front, x);
        let r = ranked_in(holders, s, x);
        if front.len() > 0 {
            assert(rarity(holders, s[s.len() - 2]) <= rarity(holders, s[s.len() - 1]));
        }
        assert forall|i: int, j: int| 0 <= i <= j < r.len() implies rarity(
            holders,
            #[trigger] r[i],
        ) <= rarity(holders, #[trigger] r[j]) by {
            if j == mid.len() && i < mid.len() {
                assert(rarity(holders, mid[i]) <= rarity(holders, mid[mid.len() - 1]));
            }
        }
    } else {
        let r = ranked_in(holders, s, x);
        assert forall|i: int, j: int| 0 <= i <= j < r.len() implies rarity(
            holders,
            #[trigger] r[i],
        ) <= rarity(holders, #[trigger] r[j]) by {
            if s.len() > 0 && j == s.len() && i < s.len() {
                assert(rarity(holders, s[i]) <= rarity(holders, s[s.len() - 1]));
            }
        }
    }
}

proof fn lemma_ranked_rarest(holders: Seq<Seq<bool>>, missing: Seq<usize>)
    ensures
        rarest_first(holders, ranked(holders, missing)),
    decreases missing.len(),
{
    if missing.len() > 0 {
        lemma_ranked_rarest(holders, missing.drop_last());
        lemma_ranked_in_rarest(holders, ranked(holders, missing.drop_last()), missing.last());
    }
}

/// Every peer is asked only for what it holds, and for the rarest of it first.
pub proof fn law_queues_are_held_and_rarest_first(
    holders: Seq<Seq<bool>>,
    missing: Seq<usize>,
    p: int,
)
    requires
        0 <= p < holders.len(),
    ensures
        rarest_first(holders, handed_out(holders, ranked(holders, missing))[p]),
        forall|k: int|
            0 <= k < handed_out(holders, ranked(holders, missing))[p].len() ==> covers(
                holders[p],
                #[trigger] handed_out(holders, ranked(holders, missing))[p][k] as int,
            ),
{
    lemma_ranked_rarest(holders, missing);
    lemma_queue(holders, ranked(holders, missing), p);
}

proof fn lemma_queue(holders: Seq<Seq<bool>>, positions: Seq<usize>, p: int)
    requires
        0 <= p < holders.len(),
        rarest_first(holders, positions),
    ensures
        handed_out(holders, positions).len() == holders.len(),
        rarest_first(holders, handed_out(holders, positions)[p]),
        forall|k: int|
            0 <= k < handed_out(holders, positions)[p].len() ==> covers(
                holders[p],
                #[trigger] handed_out(holders, positions)[p][k] as int,
            ) && rarity(holders, handed_out(holders, positions)[p][k]) <= rarity(
                holders,
                positions.last(),
            ),
    decreases positions.len(),
{
    if positions.len() > 0 {
        let front = positions.drop_last();
        assert(rarest_first(holders, front));
        lemma_queue(holders, front, p);
        let before = handed_out(holders, front);
        let y = positions.last();
        lemma_pick(holders, before, y, holders.len());
        let q = before[p];
        let after = handed_out(holders, positions)[p];
        if front.len() > 0 {
            assert(rarity(holders, positions[positions.len() - 2]) <= rarity(
                holders,
                positions[positions.len() - 1],
            ));
        }
        assert forall|k: int| 0 <= k < q.len() implies rarity(holders, #[trigger] q[k]) <= rarity(
            holders,
            y,
        ) by {
            assert(rarity(holders, q[k]) <= rarity(holders, front.last()));
        }
        assert forall|k: int| 0 <= k < after.len() implies covers(
            holders[p],
            #[trigger] after[k] as int,
        ) && rarity(holders, after[k]) <= rarity(holders, y) by {
            if k < q.len() {
                assert(after[k] == q[k]);
            }
        }
        assert forall|i: int, j: int| 0 <= i <= j < after.len() implies rarity(
            holders,
            #[trigger] after[i],
        ) <= rarity(holders, #[trigger] after[j]) by {
            if j < q.len() {
                assert(rarity(holders, q[i]) <= rarity(holders, q[j]));
            } else if i < q.len() {
                assert(rarity(holders, q[i]) <= rarity(holders, y));
            }
        }
    }
}

/// How many holders have a chunk.
pub open spec fn copies(holders: Seq<Seq<bool>>, x: usize) -> nat {
    holders.filter(|held: Seq<bool>| x < held.len() && held[x as int]).len()
}

/// Whether one wanted chunk is to be asked for before another: it has fewer
/// copies, or as many and is wanted earlier.
pub open spec fn sooner(
    holders: Seq<Seq<bool>>,
    missing: Seq<usize>,
    x: usize,
    y: usize,
) -> bool {
    exists|a: int, b: int|
        {
            &&& 0 <= a < missing.len()
            &&& 0 <= b < missing.len()
            &&& #[trigger] missing[a] == x
            &&& #[trigger] missing[b] == y
            &&& (copies(holders, x) < copies(holders, y) || (copies(holders, x) == copies(
                holders,
                y,
            ) && a < b))
        }
}

/// All the chunks of a plan's peers, one queue behind the other.
pub open spec fn queued(peers: Seq<(usize, Seq<usize>)>) -> Seq<usize> {
    peers.map_values(|peer: (usize, Seq<usize>)| peer.1).flatten()
}

proof fn lemma_copies(holders: Seq<Seq<bool>>, x: usize)
    ensures
        rarity(holders, x) == copies(holders, x),
        rarity(holders, x) == 0 <==> forall|p: int|
            0 <= p < holders.len() ==> !(x < (#[trigger] holders[p]).len()
                && holders[p][x as int]),
{
    lemma_copies_upto(holders, x, holders.len());
    assert(holders.take(holders.len() as int) =~= holders);
}

proof fn lemma_copies_upto(holders: Seq<Seq<bool>>, x: usize, n: nat)
    requires
        n <= holders.len(),
    ensures
        holders_upto(holders, x, n) == copies(holders.take(n as int), x),
        holders_upto(holders, x, n) == 0 <==> forall|p: int|
            0 <= p < n ==> !(x < (#[trigger] holders[p]).len() && holders[p][x as int]),
    decreases n,
{
    reveal(Seq::filter);
    if n > 0 {
        lemma_copies_upto(holders, x, (n - 1) as nat);
        assert(holders.take(n as int).drop_last() =~= holders.take(n - 1));
        assert(holders.take(n as int).last() == holders[n - 1]);
        if covers(holders[n - 1], x as int) {
            assert(x < holders[n - 1].len() && holders[n - 1][x as int]);
        }
    }
}

proof fn lemma_times(s: Seq<usize>, x: usize)
    ensures
        times(s, x) == s.to_multiset().count(x),
    decreases s.len(),
{
    broadcast use vstd::seq_lib::group_to_multiset_ensures;

    if s.len() > 0 {
        lemma_times(s.drop_last(), x);
        assert(s =~= s.drop_last().push(s.last()));
    } else {
        assert(s =~= Seq::empty());
    }
}

proof fn lemma_queued_times(queues: Seq<Seq<usize>>, x: usize, n: nat)
    requires
        n <= queues.len(),
    ensures
        times(queued(busy(queues, n)), x) == times_queued(queues, x, n),
    decreases n,
{
    let pick = |peer: (usize, Seq<usize>)| peer.1;
    if n == 0 {
        assert(busy(queues, 0).map_values(pick) =~= Seq::empty());
    } else {
        lemma_queued_times(queues, x, (n - 1) as nat);
        let before = busy(queues, (n - 1) as nat);
        let q = queues[n - 1];
        if q.len() > 0 {
            let entry = ((n - 1) as usize, q);
            assert(busy(queues, n).map_values(pick) =~= before.map_values(pick).push(q));
            before.map_values(pick).lemma_flatten_push(q);
            lemma_times_concat(queued(before), q, x);
        }
    }
}

proof fn lemma_times_concat(a: Seq<usize>, b: Seq<usize>, x: usize)
    ensures
        times(a + b, x) == times(a, x) + times(b, x),
    decreases b.len(),
{
    if b.len() == 0 {
        assert(a + b =~= a);
    } else {
        lemma_times_concat(a, b.drop_last(), x);
        assert((a + b).drop_last() =~= a + b.drop_last());
    }
}

/// No chunk is lost and none is asked for twice: the queues of the plan's peers
/// and what it reports as held by nobody are together exactly what is missing,
/// each chunk as often as it is missing.
pub proof fn law_a_plan_is_what_is_missing(holders: Seq<Seq<bool>>, missing: Seq<usize>)
    requires
        holders.len() <= usize::MAX,
    ensures
        (queued(busy(handed_out(holders, ranked(holders, missing)), holders.len()))
            + nobody_holds(holders, missing)).to_multiset() == missing.to_multiset(),
{
    let queues = handed_out(holders, ranked(holders, missing));
    let asked = queued(busy(queues, holders.len()));
    let unheld = nobody_holds(holders, missing);
    assert forall|x: usize| (asked + unheld).to_multiset().count(x)
        == missing.to_multiset().count(x) by {
        law_plan_covers_what_is_missing(holders, missing, x);
        lemma_handed_out(holders, ranked(holders, missing), x);
        lemma_queued_times(queues, x, holders.len());
        lemma_times_concat(asked, unheld, x);
        lemma_times(asked + unheld, x);
        lemma_times(missing, x);
    }
    assert((asked + unheld).to_multiset() =~= missing.to_multiset());
}

/// What a plan reports is what no holder has, in the order it is wanted.
pub proof fn law_unheld_is_what_no_holder_has(holders: Seq<Seq<bool>>, missing: Seq<usize>)
    ensures
        nobody_holds(holders, missing) == missing.filter(
            |x: usize|
                forall|p: int|
                    0 <= p < holders.len() ==> !(x < (#[trigger] holders[p]).len()
                        && holders[p][x as int]),
        ),
{
    let ours = |x: usize| rarity(holders, x) == 0;
    let theirs = |x: usize|
        forall|p: int|
            0 <= p < holders.len() ==> !(x < (#[trigger] holders[p]).len()
                && holders[p][x as int]);
    assert forall|x: usize| #[trigger] ours(x) == theirs(x) by {
        lemma_copies(holders, x);
    }
    assert(ours =~= theirs);
}

proof fn lemma_busy(queues: Seq<Seq<usize>>, n: nat)
    requires
        n <= queues.len() <= usize::MAX,
    ensures
        forall|i: int|
            0 <= i < busy(queues, n).len() ==> {
                let (p, q) = #[trigger] busy(queues, n)[i];
                p < n && q == queues[p as int] && q.len() > 0
            },
        forall|i: int, j: int|
            0 <= i < j < busy(queues, n).len() ==> (#[trigger] busy(queues, n)[i]).0 < (
            #[trigger] busy(queues, n)[j]).0,
        forall|p: int|
            0 <= p < n && (#[trigger] queues[p]).len() > 0 ==> exists|i: int|
                0 <= i < busy(queues, n).len() && (#[trigger] busy(queues, n)[i]).0 == p,
    decreases n,
{
    if n > 0 {
        lemma_busy(queues, (n - 1) as nat);
        let before = busy(queues, (n - 1) as nat);
        let after = busy(queues, n);
        assert forall|p: int| 0 <= p < n && (#[trigger] queues[p]).len() > 0 implies exists|i: int|
            0 <= i < after.len() && (#[trigger] after[i]).0 == p by {
            if p < n - 1 {
                let i = choose|i: int| 0 <= i < before.len() && (#[trigger] before[i]).0 == p;
                assert(after[i].0 == p);
            } else {
                assert(after[before.len() as int].0 == p);
            }
        }
    }
}

/// Every peer of a plan is one of the holders, has something to do, is listed
/// once and in order, and is asked only for chunks it holds.
pub proof fn law_peers_are_asked_for_what_they_hold(
    holders: Seq<Seq<bool>>,
    missing: Seq<usize>,
    i: int,
    k: int,
)
    requires
        holders.len() <= usize::MAX,
        0 <= i < busy(handed_out(holders, ranked(holders, missing)), holders.len()).len(),
    ensures
        ({
            let peers = busy(handed_out(holders, ranked(holders, missing)), holders.len());
            let (p, q) = peers[i];
            &&& p < holders.len()
            &&& q.len() > 0
            &&& i > 0 ==> peers[i - 1].0 < p
            &&& 0 <= k < q.len() ==> q[k] < holders[p as int].len()
                && holders[p as int][q[k] as int]
        }),
{
    let queues = handed_out(holders, ranked(holders, missing));
    lemma_handed_out(holders, ranked(holders, missing), 0);
    lemma_busy(queues, holders.len());
    let peers = busy(queues, holders.len());
    let (p, q) = peers[i];
    law_queues_are_held_and_rarest_first(holders, missing, p as int);
    if i > 0 {
        assert(peers[i - 1].0 < peers[i].0);
    }
    if 0 <= k < q.len() {
        assert(covers(holders[p as int], queues[p as int][k] as int));
    }
}

proof fn lemma_ranked_in_place(holders: Seq<Seq<bool>>, s: Seq<usize>, x: usize) -> (k: int)
    requires
        rarest_first(holders, s),
    ensures
        0 <= k <= s.len(),
        ranked_in(holders, s, x) == s.insert(k, x),
        forall|i: int| 0 <= i < k ==> rarity(holders, #[trigger] s[i]) <= rarity(holders, x),
        forall|i: int| k <= i < s.len() ==> rarity(holders, #[trigger] s[i]) > rarity(holders, x),
    decreases s.len(),
{
    if s.len() == 0 {
        assert(seq![x] =~= s.insert(0, x));
        0
    } else if rarity(holders, s.last()) <= rarity(holders, x) {
        assert(s.push(x) =~= s.insert(s.len() as int, x));
        assert forall|i: int| 0 <= i < s.len() implies rarity(holders, #[trigger] s[i]) <= rarity(
            holders,
            x,
        ) by {
            assert(rarity(holders, s[i]) <= rarity(holders, s[s.len() - 1]));
        }
        s.len() as int
    } else {
        let front = s.drop_last();
        assert(rarest_first(holders, front));
        let k = lemma_ranked_in_place(holders, front, x);
        assert(front.insert(k, x).push(s.last()) =~= s.insert(k, x));
        assert forall|i: int| 0 <= i < k implies rarity(holders, #[trigger] s[i]) <= rarity(
            holders,
            x,
        ) by {
            assert(s[i] == front[i]);
        }
        assert forall|i: int| k <= i < s.len() implies rarity(holders, #[trigger] s[i]) > rarity(
            holders,
            x,
        ) by {
            if i < front.len() {
                assert(s[i] == front[i]);
            }
        }
        k
    }
}

proof fn lemma_ranked_order(holders: Seq<Seq<bool>>, missing: Seq<usize>)
    ensures
        forall|i: int, j: int|
            0 <= i < j < ranked(holders, missing).len() ==> sooner(
                holders,
                missing,
                #[trigger] ranked(holders, missing)[i],
                #[trigger] ranked(holders, missing)[j],
            ),
        forall|i: int|
            0 <= i < ranked(holders, missing).len() ==> missing.contains(
                #[trigger] ranked(holders, missing)[i],
            ),
    decreases missing.len(),
{
    if missing.len() > 0 {
        let front = missing.drop_last();
        let x = missing.last();
        let s = ranked(holders, front);
        let r = ranked(holders, missing);
        lemma_ranked_order(holders, front);
        lemma_ranked_rarest(holders, front);
        let k = lemma_ranked_in_place(holders, s, x);
        let n = missing.len() - 1;
        assert(missing[n] == x);
        assert forall|i: int| 0 <= i < r.len() implies missing.contains(#[trigger] r[i]) by {
            if i != k {
                let l = if i < k {
                    i
                } else {
                    i - 1
                };
                assert(r[i] == s[l]);
                let a = choose|a: int| 0 <= a < front.len() && front[a] == s[l];
                assert(missing[a] == r[i]);
            } else {
                assert(r[k] == x);
            }
        }
        assert forall|i: int, j: int| 0 <= i < j < r.len() implies sooner(
            holders,
            missing,
            #[trigger] r[i],
            #[trigger] r[j],
        ) by {
            let li = if i < k {
                i
            } else {
                i - 1
            };
            let lj = if j < k {
                j
            } else {
                j - 1
            };
            lemma_copies(holders, r[i]);
            lemma_copies(holders, r[j]);
            if i == k {
                assert(r[j] == s[lj]);
                let b = choose|b: int| 0 <= b < front.len() && front[b] == s[lj];
                assert(missing[b] == r[j] && missing[n] == r[i]);
            } else if j == k {
                assert(r[i] == s[li]);
                let a = choose|a: int| 0 <= a < front.len() && front[a] == s[li];
                assert(missing[a] == r[i] && missing[n] == r[j]);
            } else {
                assert(r[i] == s[li] && r[j] == s[lj]);
                assert(sooner(holders, front, s[li], s[lj]));
                let (a, b) = choose|a: int, b: int|
                    {
                        &&& 0 <= a < front.len()
                        &&& 0 <= b < front.len()
                        &&& #[trigger] front[a] == s[li]
                        &&& #[trigger] front[b] == s[lj]
                        &&& (copies(holders, s[li]) < copies(holders, s[lj]) || (copies(
                            holders,
                            s[li],
                        ) == copies(holders, s[lj]) && a < b))
                    };
                assert(missing[a] == r[i] && missing[b] == r[j]);
            }
        }
    }
}

proof fn lemma_pick_lowest(
    holders: Seq<Seq<bool>>,
    queues: Seq<Seq<usize>>,
    position: usize,
    n: nat,
)
    ensures
        pick_upto(holders, queues, position, n) matches Some(p) ==> forall|q: int|
            0 <= q < p && covers(#[trigger] holders[q], position as int) ==> queues[p].len()
                < queues[q].len(),
    decreases n,
{
    if n > 0 {
        lemma_pick_lowest(holders, queues, position, (n - 1) as nat);
        lemma_pick(holders, queues, position, (n - 1) as nat);
        lemma_pick(holders, queues, position, n);
    }
}

/// What holds of a chunk at place `k` of the queue of peer `p`, and another peer
/// `q` that has the chunk too: when the chunk was handed out, `q` had at least as
/// much to do, and more where it comes first.
spec fn fairly_placed(
    holders: Seq<Seq<bool>>,
    missing: Seq<usize>,
    queues: Seq<Seq<usize>>,
    p: int,
    k: int,
    q: int,
) -> bool {
    let x = queues[p][k];
    covers(holders[q], x as int) && q != p ==> {
        &&& k > 0 ==> queues[q].len() >= k && sooner(holders, missing, queues[q][k - 1], x)
        &&& q < p ==> queues[q].len() > k && sooner(holders, missing, queues[q][k], x)
    }
}

proof fn lemma_fair(holders: Seq<Seq<bool>>, missing: Seq<usize>, positions: Seq<usize>)
    requires
        forall|i: int, j: int|
            0 <= i < j < positions.len() ==> sooner(
                holders,
                missing,
                #[trigger] positions[i],
                #[trigger] positions[j],
            ),
    ensures
        handed_out(holders, positions).len() == holders.len(),
        forall|p: int, k: int|
            0 <= p < holders.len() && 0 <= k < handed_out(holders, positions)[p].len()
                ==> positions.contains(#[trigger] handed_out(holders, positions)[p][k]),
        forall|p: int, j: int, k: int|
            0 <= p < holders.len() && 0 <= j < k < handed_out(holders, positions)[p].len()
                ==> sooner(
                holders,
                missing,
                #[trigger] handed_out(holders, positions)[p][j],
                #[trigger] handed_out(holders, positions)[p][k],
            ),
        forall|p: int, k: int, q: int|
            0 <= p < holders.len() && 0 <= q < holders.len() && 0 <= k < handed_out(
                holders,
                positions,
            )[p].len() ==> #[trigger] fairly_placed(
                holders,
                missing,
                handed_out(holders, positions),
                p,
                k,
                q,
            ),
    decreases positions.len(),
{
    if positions.len() > 0 {
        let front = positions.drop_last();
        let y = positions.last();
        let n = positions.len() - 1;
        assert forall|i: int, j: int| 0 <= i < j < front.len() implies sooner(
            holders,
            missing,
            #[trigger] front[i],
            #[trigger] front[j],
        ) by {
            assert(sooner(holders, missing, positions[i], positions[j]));
        }
        lemma_fair(holders, missing, front);
        let before = handed_out(holders, front);
        let after = handed_out(holders, positions);
        lemma_pick(holders, before, y, holders.len());
        lemma_pick_lowest(holders, before, y, holders.len());
        assert forall|p: int, k: int|
            0 <= p < holders.len() && 0 <= k < before[p].len() implies sooner(
            holders,
            missing,
            #[trigger] before[p][k],
            y,
        ) && positions.contains(before[p][k]) by {
            assert(front.contains(before[p][k]));
            let i = choose|i: int| 0 <= i < front.len() && front[i] == before[p][k];
            assert(sooner(holders, missing, positions[i], positions[n]));
            assert(positions[i] == before[p][k]);
        }
        assert(positions[n] == y);
        assert forall|p: int, k: int|
            0 <= p < holders.len() && 0 <= k < after[p].len() implies positions.contains(
            #[trigger] after[p][k],
        ) by {
            if k < before[p].len() {
                assert(after[p][k] == before[p][k]);
            } else {
                assert(after[p][k] == y);
            }
        }
        assert forall|p: int, j: int, k: int|
            0 <= p < holders.len() && 0 <= j < k < after[p].len() implies sooner(
            holders,
            missing,
            #[trigger] after[p][j],
            #[trigger] after[p][k],
        ) by {
            assert(after[p][j] == before[p][j]);
            if k < before[p].len() {
                assert(after[p][k] == before[p][k]);
            } else {
                assert(after[p][k] == y);
            }
        }
        assert forall|p: int, k: int, q: int|
            0 <= p < holders.len() && 0 <= q < holders.len() && 0 <= k
                < after[p].len() implies #[trigger] fairly_placed(
            holders,
            missing,
            after,
            p,
            k,
            q,
        ) by {
            if k < before[p].len() {
                assert(fairly_placed(holders, missing, before, p, k, q));
                assert(after[p][k] == before[p][k]);
                if covers(holders[q], before[p][k] as int) && q != p {
                    if k > 0 {
                        assert(after[q][k - 1] == before[q][k - 1]);
                    }
                    if q < p {
                        assert(after[q][k] == before[q][k]);
                    }
                }
            } else {
                assert(pick(holders, before, y) == Some(p));
                assert(after[p][k] == y);
                if covers(holders[q], y as int) && q != p {
                    assert(before[p].len() <= before[q].len());
                    assert(after[q] == before[q]);
                    if k > 0 {
                        assert(sooner(holders, missing, before[q][k - 1], y));
                    }
                    if q < p {
                        assert(before[p].len() < before[q].len());
                        assert(sooner(holders, missing, before[q][k], y));
                    }
                }
            }
        }
    }
}

/// Every peer is asked for its rarest chunks first, and for equally rare ones in
/// the order they are wanted.
pub proof fn law_queues_go_by_rarity_and_wish(
    holders: Seq<Seq<bool>>,
    missing: Seq<usize>,
    i: int,
    j: int,
    k: int,
)
    requires
        holders.len() <= usize::MAX,
        0 <= i < busy(handed_out(holders, ranked(holders, missing)), holders.len()).len(),
        0 <= j < k < busy(
            handed_out(holders, ranked(holders, missing)),
            holders.len(),
        )[i].1.len(),
    ensures
        ({
            let peers = busy(handed_out(holders, ranked(holders, missing)), holders.len());
            sooner(holders, missing, peers[i].1[j], peers[i].1[k])
        }),
{
    let queues = handed_out(holders, ranked(holders, missing));
    lemma_ranked_order(holders, missing);
    lemma_fair(holders, missing, ranked(holders, missing));
    lemma_busy(queues, holders.len());
    let (p, q) = busy(queues, holders.len())[i];
    assert(sooner(holders, missing, queues[p as int][j], queues[p as int][k]));
}

/// The work is spread: a chunk goes to the least loaded of its holders, the lower
/// one of two. So where peer `p` has a chunk behind `k` others, every other peer
/// `q` that has the chunk was given `k` chunks that come sooner, and one more
/// where it is the lower one.
pub proof fn law_chunks_go_to_the_least_loaded_holder(
    holders: Seq<Seq<bool>>,
    missing: Seq<usize>,
    i: int,
    k: int,
    q: usize,
)
    requires
        holders.len() <= usize::MAX,
        0 <= i < busy(handed_out(holders, ranked(holders, missing)), holders.len()).len(),
        0 <= k < busy(handed_out(holders, ranked(holders, missing)), holders.len())[i].1.len(),
        q < holders.len(),
    ensures
        ({
            let peers = busy(handed_out(holders, ranked(holders, missing)), holders.len());
            let (p, queue) = peers[i];
            let x = queue[k];
            let need = if q < p {
                k
            } else {
                k - 1
            };
            x < holders[q as int].len() && holders[q as int][x as int] && q != p && need >= 0
                ==> exists|j: int|
                0 <= j < peers.len() && (#[trigger] peers[j]).0 == q && peers[j].1.len() > need
                    && sooner(holders, missing, peers[j].1[need], x)
        }),
{
    let queues = handed_out(holders, ranked(holders, missing));
    lemma_ranked_order(holders, missing);
    lemma_fair(holders, missing, ranked(holders, missing));
    lemma_busy(queues, holders.len());
    let peers = busy(queues, holders.len());
    let (p, queue) = peers[i];
    let x = queue[k];
    let need = if q < p {
        k
    } else {
        k - 1
    };
    assert(fairly_placed(holders, missing, queues, p as int, k, q as int));
    if x < holders[q as int].len() && holders[q as int][x as int] && q != p && need >= 0 {
        assert(covers(holders[q as int], x as int));
        assert(queues[q as int].len() > need);
        let j = choose|j: int| 0 <= j < peers.len() && (#[trigger] peers[j]).0 == q;
        assert(peers[j].1 == queues[q as int]);
    }
}

} // verus!
