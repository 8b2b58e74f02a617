//! The optional edge merger: re-stitches two collinear edges from distinct
//! source ways at a node that was the terminus of exactly two ways and of
//! nothing else, until no such junction is left.

use crate::models::{Edge, Node};
use crate::reader::Reader;
use std::collections::HashMap;
use vstd::prelude::*;

verus! {

broadcast use vstd::std_specs::hash::group_hash_axioms;

/// One node of the merger's adjacency table: a junction candidate and the
/// positions of the edges incident to it, in scan order, an edge counted
/// twice when it starts and ends there.
struct Incidence {
    node: i64,
    hits: Vec<usize>,
}

/// The incidence slots of node `n` in an edge list: for each edge in order,
/// its position once if its source is `n`, and once more if its target is.
#[verifier::opaque]
pub open spec fn slots(es: Seq<Edge>, n: i64) -> Seq<int>
    decreases es.len(),
{
    if es.len() == 0 {
        Seq::empty()
    } else {
        slots(es.drop_last(), n) + (if es.last().source == n {
            seq![es.len() - 1]
        } else {
            Seq::empty()
        }) + (if es.last().target == n {
            seq![es.len() - 1]
        } else {
            Seq::empty()
        })
    }
}

/// Scanning one more edge appends its position to the slots of its source
/// and of its target, and to no other node's.
proof fn lemma_slots_push(es: Seq<Edge>, e: Edge)
    ensures
        forall|n: i64| #[trigger]
            slots(es.push(e), n) == slots(es, n) + (if e.source == n {
                seq![es.len() as int]
            } else {
                Seq::empty()
            }) + (if e.target == n {
                seq![es.len() as int]
            } else {
                Seq::empty()
            }),
{
    reveal(slots);
    assert(es.push(e).drop_last() =~= es);
    assert(es.push(e).last() == e);
}

/// Every slot is the position of an edge incident to the node, and every
/// incident edge's position appears among the slots.
proof fn lemma_slots_props(es: Seq<Edge>, n: i64)
    ensures
        forall|p: int|
            0 <= p < slots(es, n).len() ==> 0 <= #[trigger] slots(es, n)[p] < es.len() && (es[slots(
                es,
                n,
            )[p]].source == n || es[slots(es, n)[p]].target == n),
        forall|t: int|
            0 <= t < es.len() && ((#[trigger] es[t]).source == n || es[t].target == n) ==> slots(
                es,
                n,
            ).contains(t),
    decreases es.len(),
{
    reveal(slots);
    if es.len() > 0 {
        let prefix = es.drop_last();
        lemma_slots_props(prefix, n);
        assert forall|t: int|
            0 <= t < es.len() && ((#[trigger] es[t]).source == n || es[t].target == n) implies slots(
            es,
            n,
        ).contains(t) by {
            if t < es.len() - 1 {
                assert(prefix[t] == es[t]);
                assert(slots(prefix, n).contains(t));
                let p = choose|p: int|
                    0 <= p < slots(prefix, n).len() && #[trigger] slots(prefix, n)[p] == t;
                assert(slots(es, n)[p] == t);
            } else {
                if es.last().source == n {
                    let p = slots(prefix, n).len() as int;
                    assert(slots(es, n)[p] == t);
                } else {
                    let p = slots(es, n).len() - 1;
                    assert(slots(es, n)[p] == t);
                }
            }
        }
    }
}

/// An executable hit list records exactly this slot sequence.
spec fn hits_match(hits: Seq<usize>, s: Seq<int>) -> bool {
    &&& hits.len() == s.len()
    &&& forall|p: int| 0 <= p < hits.len() ==> #[trigger] hits[p] as int == s[p]
}

/// The adjacency table is indexed soundly: the index maps exactly the
/// candidate nodes, each to its position.
spec fn inc_wf(cands: Seq<Incidence>, idx: Map<i64, usize>) -> bool {
    &&& forall|c: int|
        0 <= c < cands.len() ==> idx.contains_key((#[trigger] cands[c]).node)
            && idx[cands[c].node] == c
    &&& forall|n: i64|
        #[trigger] idx.contains_key(n) ==> idx[n] < cands.len() && cands[idx[n] as int].node == n
}

/// A merge is possible at node `n`: it is the terminus of exactly two
/// distinct ways (four uses), exactly two edge slots are incident, and the
/// two edges agree on properties and retained tags without being the same
/// edge.
pub open spec fn mergeable_at(es: Seq<Edge>, m: Map<i64, Node>, n: i64) -> bool {
    &&& m.contains_key(n)
    &&& m[n].uses == 4
    &&& slots(es, n).len() == 2
    &&& es[slots(es, n)[0]].properties == es[slots(es, n)[1]].properties
    &&& crate::models::tag_sets_match(es[slots(es, n)[0]].tags@, es[slots(es, n)[1]].tags@)
    &&& es[slots(es, n)[0]].id@ != es[slots(es, n)[1]].id@
}

/// No node of the table admits a merge: one more merger pass would return
/// the edge list unchanged.
pub open spec fn merge_stable(es: Seq<Edge>, m: Map<i64, Node>) -> bool {
    forall|n: i64| !#[trigger] mergeable_at(es, m, n)
}

/// One merge event of a pass: the positions of the two input edges that
/// were combined, and the junction node they met at.
pub struct MergeEvent {
    pub left: int,
    pub right: int,
    pub junction: i64,
}

/// One merger pass combined exactly these pairs: every event merges two
/// distinct input edges meeting at a mergeable junction whose only
/// incidence slots they are; the merged edges open the result in event
/// order, followed by the unconsumed inputs in input order; an input is
/// consumed exactly when some event uses it, and no two events share an
/// edge; and every mergeable junction was acted on — merged itself, or one
/// of its two edges consumed by another event of the pass.
pub open spec fn pass_merges(
    input: Seq<Edge>,
    m: Map<i64, Node>,
    result: Seq<Edge>,
    pairs: Seq<MergeEvent>,
    consumed: Seq<bool>,
) -> bool {
    &&& consumed.len() == input.len()
    &&& 2 * pairs.len() <= input.len()
    &&& result.len() == pairs.len() + (input.len() - 2 * pairs.len())
    &&& forall|p: int|
        0 <= p < pairs.len() ==> {
            let ev = #[trigger] pairs[p];
            &&& 0 <= ev.left < input.len()
            &&& 0 <= ev.right < input.len()
            &&& ev.left != ev.right
            &&& consumed[ev.left]
            &&& consumed[ev.right]
            &&& mergeable_at(input, m, ev.junction)
            &&& slots(input, ev.junction) == seq![ev.left, ev.right]
            &&& crate::models::Edge::merged_of(
                result[p],
                input[ev.left],
                input[ev.right],
                ev.junction,
            )
        }
    &&& forall|p1: int, p2: int|
        #![trigger pairs[p1], pairs[p2]]
        0 <= p1 < p2 < pairs.len() ==> pairs[p1].left != pairs[p2].left && pairs[p1].left
            != pairs[p2].right && pairs[p1].right != pairs[p2].left && pairs[p1].right
            != pairs[p2].right
    &&& forall|t: int|
        0 <= t < input.len() ==> ((#[trigger] consumed[t]) <==> exists|p: int|
            0 <= p < pairs.len() && ((#[trigger] pairs[p]).left == t || pairs[p].right == t))
    &&& result.skip(pairs.len() as int) == kept_prefix(input, consumed, input.len() as int)
    &&& forall|n: i64|
        #[trigger] mergeable_at(input, m, n) ==> exists|p: int|
            0 <= p < pairs.len() && ((#[trigger] pairs[p]).junction == n || pairs[p].left
                == slots(input, n)[0] || pairs[p].left == slots(input, n)[1] || pairs[p].right
                == slots(input, n)[0] || pairs[p].right == slots(input, n)[1])
}

/// One full merger pass from `input` under node table `m0` to `result`
/// under `m1`: some event list as in [`pass_merges`] explains the result,
/// the pass is productive exactly when it holds an event, and the node
/// table keeps every entry, the usage count zeroed exactly at the merged
/// junctions.
pub open spec fn pass_rel(
    input: Seq<Edge>,
    m0: Map<i64, Node>,
    result: Seq<Edge>,
    m1: Map<i64, Node>,
    productive: bool,
) -> bool {
    exists|pairs: Seq<MergeEvent>, consumed: Seq<bool>|
        {
            &&& #[trigger] pass_merges(input, m0, result, pairs, consumed)
            &&& (productive <==> pairs.len() > 0)
            &&& m1.dom() =~= m0.dom()
            &&& forall|k: i64|
                #[trigger] m0.contains_key(k) ==> {
                    let prev = m0[k];
                    let cur = m1[k];
                    &&& cur.id == prev.id
                    &&& cur.coord == prev.coord
                    &&& cur.uses as int == (if exists|p: int|
                        0 <= p < pairs.len() && (#[trigger] pairs[p]).junction == k {
                        0int
                    } else {
                        prev.uses as int
                    })
                }
        }
}

/// The merger's whole run in `steps` productive passes: each pass combines
/// a nonempty event list and shrinks the edge list, and one final
/// unproductive pass confirms the result stable.
pub open spec fn merger_run(
    input: Seq<Edge>,
    m0: Map<i64, Node>,
    result: Seq<Edge>,
    m1: Map<i64, Node>,
    steps: nat,
) -> bool
    decreases steps,
{
    if steps == 0 {
        &&& pass_rel(input, m0, input, m0, false)
        &&& result == input
        &&& m1 == m0
    } else {
        exists|mid: Seq<Edge>, mmid: Map<i64, Node>|
            {
                &&& #[trigger] pass_rel(input, m0, mid, mmid, true)
                &&& mid.len() < input.len()
                &&& merger_run(mid, mmid, result, m1, (steps - 1) as nat)
            }
    }
}

/// How many of the first `upto` flags are set.
pub open spec fn count_true(flags: Seq<bool>, upto: int) -> int
    decreases upto,
{
    if upto <= 0 {
        0
    } else {
        count_true(flags, upto - 1) + (if flags[upto - 1] {
            1int
        } else {
            0int
        })
    }
}

/// Setting one clear flag raises the count of every window past it by one.
proof fn lemma_count_true_set(flags: Seq<bool>, i: int, upto: int)
    requires
        0 <= i < flags.len(),
        !flags[i],
        upto <= flags.len(),
    ensures
        count_true(flags.update(i, true), upto) == count_true(flags, upto) + (if i < upto {
            1int
        } else {
            0int
        }),
    decreases upto,
{
    if upto > 0 {
        lemma_count_true_set(flags, i, upto - 1);
    }
}

/// The count never exceeds the window.
proof fn lemma_count_true_bound(flags: Seq<bool>, upto: int)
    requires
        0 <= upto <= flags.len(),
    ensures
        count_true(flags, upto) <= upto,
        count_true(flags, upto) >= 0,
    decreases upto,
{
    if upto > 0 {
        lemma_count_true_bound(flags, upto - 1);
    }
}

/// The edges of the first `upto` positions whose flag is clear, in order.
pub open spec fn kept_prefix(es: Seq<Edge>, flags: Seq<bool>, upto: int) -> Seq<Edge>
    decreases upto,
{
    if upto <= 0 {
        Seq::empty()
    } else {
        kept_prefix(es, flags, upto - 1) + (if flags[upto - 1] {
            Seq::empty()
        } else {
            seq![es[upto - 1]]
        })
    }
}

/// Keeping the unflagged edges keeps exactly the uncounted ones.
proof fn lemma_kept_prefix_len(es: Seq<Edge>, flags: Seq<bool>, upto: int)
    requires
        0 <= upto <= es.len(),
        flags.len() == es.len(),
    ensures
        kept_prefix(es, flags, upto).len() == upto - count_true(flags, upto),
        forall|p: int|
            0 <= p < kept_prefix(es, flags, upto).len() ==> exists|t: int|
                0 <= t < upto && !flags[t] && #[trigger] kept_prefix(es, flags, upto)[p] == es[t],
    decreases upto,
{
    if upto > 0 {
        lemma_kept_prefix_len(es, flags, upto - 1);
        assert forall|p: int| 0 <= p < kept_prefix(es, flags, upto).len() implies exists|t: int|
            0 <= t < upto && !flags[t] && #[trigger] kept_prefix(es, flags, upto)[p] == es[t] by {
            if p < kept_prefix(es, flags, upto - 1).len() {
                let t = choose|t: int|
                    0 <= t < upto - 1 && !flags[t] && #[trigger] kept_prefix(es, flags, upto - 1)[p]
                        == es[t];
                assert(0 <= t < upto && !flags[t] && kept_prefix(es, flags, upto)[p] == es[t]);
            } else {
                assert(!flags[upto - 1] && kept_prefix(es, flags, upto)[p] == es[upto - 1]);
            }
        }
    }
}

/// When no flag is set, keeping the unflagged edges keeps all of them.
proof fn lemma_kept_prefix_all(es: Seq<Edge>, flags: Seq<bool>, upto: int)
    requires
        0 <= upto <= es.len(),
        flags.len() == es.len(),
        forall|t: int| 0 <= t < flags.len() ==> !#[trigger] flags[t],
    ensures
        kept_prefix(es, flags, upto) == es.subrange(0, upto),
    decreases upto,
{
    if upto > 0 {
        lemma_kept_prefix_all(es, flags, upto - 1);
        assert(kept_prefix(es, flags, upto) =~= es.subrange(0, upto));
    } else {
        assert(kept_prefix(es, flags, upto) =~= es.subrange(0, upto));
    }
}


/// With no flag set the count is zero.
proof fn lemma_count_true_zero(flags: Seq<bool>, upto: int)
    requires
        upto <= flags.len(),
        forall|t: int| 0 <= t < flags.len() ==> !#[trigger] flags[t],
    ensures
        count_true(flags, upto) == 0,
    decreases upto,
{
    if upto > 0 {
        lemma_count_true_zero(flags, upto - 1);
    }
}

/// An empty edge list leaves every node without incidence slots.
proof fn lemma_slots_empty(es: Seq<Edge>)
    requires
        es.len() == 0,
    ensures
        forall|n: i64| (#[trigger] slots(es, n)).len() == 0,
{
    reveal(slots);
}

/// Recording one more merge event keeps the pass bookkeeping consistent:
/// the consumed flags still mark exactly the event components, the node
/// table still zeroes exactly the merged junctions, earlier events are
/// untouched, and junctions already covered stay covered.
#[verifier::rlimit(100)]
proof fn lemma_event_push(
    edges0: Seq<Edge>,
    map0: Map<i64, Node>,
    cands: Seq<Incidence>,
    ci: int,
    pairs0: Seq<MergeEvent>,
    ev: MergeEvent,
    flags0: Seq<bool>,
    flags2: Seq<bool>,
    m_prev: Map<i64, Node>,
    m_new: Map<i64, Node>,
)
    requires
        0 <= ev.left < flags0.len(),
        0 <= ev.right < flags0.len(),
        ev.left != ev.right,
        !flags0[ev.left],
        !flags0[ev.right],
        flags2 == flags0.update(ev.left, true).update(ev.right, true),
        forall|t: int|
            0 <= t < flags0.len() ==> ((#[trigger] flags0[t]) <==> exists|p: int|
                0 <= p < pairs0.len() && ((#[trigger] pairs0[p]).left == t || pairs0[p].right
                    == t)),
        forall|k: i64|
            #[trigger] m_prev.contains_key(k) ==> m_new.contains_key(k) && (k != ev.junction
                ==> m_new[k] == m_prev[k]) && (k == ev.junction ==> m_new[k].uses == 0),
        forall|k: i64|
            #[trigger] m_prev.contains_key(k) ==> m_prev[k].uses as int == (if exists|p: int|
                0 <= p < pairs0.len() && (#[trigger] pairs0[p]).junction == k {
                0int
            } else {
                map0[k].uses as int
            }),
        forall|c2: int|
            0 <= c2 < ci ==> (mergeable_at(edges0, map0, (#[trigger] cands[c2]).node)
                ==> exists|p: int|
                0 <= p < pairs0.len() && ((#[trigger] pairs0[p]).junction == cands[c2].node
                    || pairs0[p].left == slots(edges0, cands[c2].node)[0] || pairs0[p].left
                    == slots(edges0, cands[c2].node)[1] || pairs0[p].right == slots(
                    edges0,
                    cands[c2].node,
                )[0] || pairs0[p].right == slots(edges0, cands[c2].node)[1])),
    ensures
        forall|p: int| 0 <= p < pairs0.len() ==> #[trigger] pairs0.push(ev)[p] == pairs0[p],
        forall|t: int|
            0 <= t < flags2.len() ==> ((#[trigger] flags2[t]) <==> exists|p: int|
                0 <= p < pairs0.push(ev).len() && ((#[trigger] pairs0.push(ev)[p]).left == t
                    || pairs0.push(ev)[p].right == t)),
        forall|k: i64|
            #[trigger] m_prev.contains_key(k) ==> m_new[k].uses as int == (if exists|p: int|
                0 <= p < pairs0.push(ev).len() && (#[trigger] pairs0.push(ev)[p]).junction == k {
                0int
            } else {
                map0[k].uses as int
            }),
        forall|c2: int|
            0 <= c2 < ci ==> (mergeable_at(edges0, map0, (#[trigger] cands[c2]).node)
                ==> exists|p: int|
                0 <= p < pairs0.push(ev).len() && ((#[trigger] pairs0.push(ev)[p]).junction
                    == cands[c2].node || pairs0.push(ev)[p].left == slots(
                    edges0,
                    cands[c2].node,
                )[0] || pairs0.push(ev)[p].left == slots(edges0, cands[c2].node)[1] || pairs0.push(
                    ev,
                )[p].right == slots(edges0, cands[c2].node)[0] || pairs0.push(ev)[p].right
                    == slots(edges0, cands[c2].node)[1])),
{
    let pairs = pairs0.push(ev);
    assert forall|t: int| 0 <= t < flags2.len() implies ((#[trigger] flags2[t]) <==> exists|p: int|
        0 <= p < pairs.len() && ((#[trigger] pairs[p]).left == t || pairs[p].right == t)) by {
        if t == ev.left || t == ev.right {
            assert(pairs[pairs.len() - 1] == ev);
        } else {
            if flags0[t] {
                let p0 = choose|p0: int|
                    0 <= p0 < pairs0.len() && ((#[trigger] pairs0[p0]).left == t
                        || pairs0[p0].right == t);
                assert(pairs[p0] == pairs0[p0]);
            } else {
                if exists|p: int|
                    0 <= p < pairs.len() && ((#[trigger] pairs[p]).left == t || pairs[p].right
                        == t) {
                    let p0 = choose|p0: int|
                        0 <= p0 < pairs.len() && ((#[trigger] pairs[p0]).left == t
                            || pairs[p0].right == t);
                    if p0 < pairs0.len() {
                        assert(pairs0[p0] == pairs[p0]);
                        assert(flags0[t]);
                    }
                    assert(false);
                }
            }
        }
    }
    assert forall|k: i64| #[trigger] m_prev.contains_key(k) implies m_new[k].uses as int == (
    if exists|p: int| 0 <= p < pairs.len() && (#[trigger] pairs[p]).junction == k {
        0int
    } else {
        map0[k].uses as int
    }) by {
        if k == ev.junction {
            assert(pairs[pairs.len() - 1] == ev);
        } else {
            if exists|p: int| 0 <= p < pairs0.len() && (#[trigger] pairs0[p]).junction == k {
                let p0 = choose|p0: int|
                    0 <= p0 < pairs0.len() && (#[trigger] pairs0[p0]).junction == k;
                assert(pairs[p0] == pairs0[p0]);
                assert(pairs[p0].junction == k);
            } else {
                if exists|p: int| 0 <= p < pairs.len() && (#[trigger] pairs[p]).junction == k {
                    let p0 = choose|p0: int|
                        0 <= p0 < pairs.len() && (#[trigger] pairs[p0]).junction == k;
                    if p0 < pairs0.len() {
                        assert(pairs0[p0] == pairs[p0]);
                    }
                    assert(false);
                }
            }
        }
    }
    assert forall|c2: int|
        0 <= c2 < ci implies (mergeable_at(edges0, map0, (#[trigger] cands[c2]).node)
        ==> exists|p: int|
        0 <= p < pairs.len() && ((#[trigger] pairs[p]).junction == cands[c2].node || pairs[p].left
            == slots(edges0, cands[c2].node)[0] || pairs[p].left == slots(
            edges0,
            cands[c2].node,
        )[1] || pairs[p].right == slots(edges0, cands[c2].node)[0] || pairs[p].right == slots(
            edges0,
            cands[c2].node,
        )[1])) by {
        if mergeable_at(edges0, map0, cands[c2].node) {
            let p0 = choose|p0: int|
                0 <= p0 < pairs0.len() && ((#[trigger] pairs0[p0]).junction == cands[c2].node
                    || pairs0[p0].left == slots(edges0, cands[c2].node)[0] || pairs0[p0].left
                    == slots(edges0, cands[c2].node)[1] || pairs0[p0].right == slots(
                    edges0,
                    cands[c2].node,
                )[0] || pairs0[p0].right == slots(edges0, cands[c2].node)[1]);
            assert(pairs[p0] == pairs0[p0]);
        }
    }
}

impl Reader {
    /// Notes one endpoint of the edge at position `k` in the adjacency
    /// table, when the endpoint is a four-use junction candidate.
    fn record_incidence(
        &self,
        cands: &mut Vec<Incidence>,
        idx: &mut HashMap<i64, usize>,
        n: i64,
        k: usize,
    )
        requires
            self.wf(),
            self.node_map().contains_key(n),
            inc_wf(old(cands)@, old(idx)@),
        ensures
            inc_wf(final(cands)@, final(idx)@),
            self.node_map()[n].uses != 4 ==> final(cands)@ == old(cands)@ && final(idx)@ == old(
                idx,
            )@,
            self.node_map()[n].uses == 4 && old(idx)@.contains_key(n) ==> {
                let c = old(idx)@[n] as int;
                &&& final(idx)@ == old(idx)@
                &&& final(cands)@.len() == old(cands)@.len()
                &&& forall|c2: int|
                    0 <= c2 < final(cands)@.len() && c2 != c ==> final(cands)@[c2] == old(
                        cands,
                    )@[c2]
                &&& final(cands)@[c].node == n
                &&& final(cands)@[c].hits@ == old(cands)@[c].hits@.push(k)
            },
            self.node_map()[n].uses == 4 && !old(idx)@.contains_key(n) ==> {
                &&& final(idx)@ == old(idx)@.insert(n, old(cands)@.len() as usize)
                &&& final(cands)@.len() == old(cands)@.len() + 1
                &&& forall|c2: int|
                    0 <= c2 < old(cands)@.len() ==> final(cands)@[c2] == old(cands)@[c2]
                &&& final(cands)@[old(cands)@.len() as int].node == n
                &&& final(cands)@[old(cands)@.len() as int].hits@ == seq![k]
            },
    {
        let node = self.node_at(n);
        if node.uses == 4 {
            match idx.get(&n) {
                Some(c) => {
                    let ci = *c;
                    cands[ci].hits.push(k);
                },
                None => {
                    let c = cands.len();
                    let mut hits: Vec<usize> = Vec::new();
                    hits.push(k);
                    cands.push(Incidence { node: n, hits });
                    idx.insert(n, c);
                    proof {
                        assert forall|c2: int| 0 <= c2 < cands@.len() implies idx@.contains_key(
                            (#[trigger] cands@[c2]).node,
                        ) && idx@[cands@[c2].node] == c2 by {
                            if c2 < c {
                                assert(cands@[c2] == old(cands)@[c2]);
                            }
                        }
                    }
                },
            }
        }
    }

    /// One merger pass: gathers the edges incident to each four-use node,
    /// merges the pairs that agree on properties and retained tags, zeroes
    /// the junction's usage count, and returns the new edge list together
    /// with whether anything was merged.  An unproductive pass returns its
    /// input unchanged, and only then the input was stable.
    #[verifier::rlimit(100)]
    fn merge_pass(&mut self, edges: Vec<Edge>) -> (res: (Vec<Edge>, bool))
        requires
            old(self).wf(),
            forall|k: int| 0 <= k < edges@.len() ==> (#[trigger] edges@[k]).wf(),
            forall|k: int|
                0 <= k < edges@.len() ==> old(self).node_map().contains_key(
                    (#[trigger] edges@[k]).source,
                ) && old(self).node_map().contains_key(edges@[k].target),
        ensures
            final(self).wf(),
            final(self).way_seq() == old(self).way_seq(),
            final(self).keep_set() == old(self).keep_set(),
            final(self).forbidden_seq() == old(self).forbidden_seq(),
            final(self).required_seq() == old(self).required_seq(),
            final(self).read_keys() == old(self).read_keys(),
            final(self).merge_enabled() == old(self).merge_enabled(),
            final(self).node_map().dom() =~= old(self).node_map().dom(),
            final(self).node_seq().len() == old(self).node_seq().len(),
            forall|k: i64|
                #[trigger] old(self).node_map().contains_key(k) ==> {
                    let prev = old(self).node_map()[k];
                    let cur = final(self).node_map()[k];
                    &&& cur.id == prev.id
                    &&& cur.coord == prev.coord
                    &&& (cur.uses == prev.uses || (cur.uses == 0 && prev.uses == 4))
                },
            forall|t: int|
                0 <= t < old(self).node_seq().len() ==> {
                    let prev = old(self).node_seq()[t];
                    let cur = #[trigger] final(self).node_seq()[t];
                    &&& cur.id == prev.id
                    &&& cur.coord == prev.coord
                    &&& (cur.uses == prev.uses || (cur.uses == 0 && prev.uses == 4))
                },
            forall|j: int| 0 <= j < res.0@.len() ==> (#[trigger] res.0@[j]).wf(),
            forall|j: int|
                0 <= j < res.0@.len() ==> final(self).node_map().contains_key(
                    (#[trigger] res.0@[j]).source,
                ) && final(self).node_map().contains_key(res.0@[j].target),
            !res.1 ==> res.0@ == edges@ && final(self).node_map() == old(self).node_map()
                && final(self).node_seq() == old(self).node_seq(),
            !res.1 ==> merge_stable(edges@, old(self).node_map()),
            merge_stable(edges@, old(self).node_map()) ==> !res.1,
            res.1 ==> res.0@.len() < edges@.len(),
            res.0@.len() <= edges@.len(),
            pass_rel(edges@, old(self).node_map(), res.0@, final(self).node_map(), res.1),
    {
        let ghost map0 = old(self).node_map();
        let ghost edges0 = edges@;
        let en = edges.len();
        let mut cands: Vec<Incidence> = Vec::new();
        let mut cand_index: HashMap<i64, usize> = HashMap::new();
        proof {
            lemma_slots_empty(edges@.subrange(0, 0));
        }
        let mut k: usize = 0;
        while k < en
            invariant
                self.wf(),
                *self == *old(self),
                map0 == old(self).node_map(),
                en == edges@.len(),
                edges@ == edges0,
                k <= en,
                forall|k2: int| 0 <= k2 < en ==> (#[trigger] edges@[k2]).wf(),
                forall|k2: int|
                    0 <= k2 < en ==> map0.contains_key((#[trigger] edges@[k2]).source)
                        && map0.contains_key(edges@[k2].target),
                inc_wf(cands@, cand_index@),
                forall|c: int|
                    0 <= c < cands@.len() ==> map0.contains_key((#[trigger] cands@[c]).node)
                        && map0[cands@[c].node].uses == 4,
                forall|c: int|
                    0 <= c < cands@.len() ==> hits_match(
                        (#[trigger] cands@[c]).hits@,
                        slots(edges@.subrange(0, k as int), cands@[c].node),
                    ),
                forall|n: i64|
                    map0.contains_key(n) && map0[n].uses == 4 && !(
                    #[trigger] cand_index@.contains_key(n)) ==> slots(
                        edges@.subrange(0, k as int),
                        n,
                    ).len() == 0,
            decreases en - k,
        {
            let e_src = edges[k].source;
            let e_tgt = edges[k].target;
            let ghost cands0 = cands@;
            let ghost idx0 = cand_index@;
            self.record_incidence(&mut cands, &mut cand_index, e_src, k);
            let ghost cands1 = cands@;
            let ghost idx1 = cand_index@;
            self.record_incidence(&mut cands, &mut cand_index, e_tgt, k);
            proof {
                assert(edges@.subrange(0, k as int + 1) =~= edges@.subrange(0, k as int).push(
                    edges@[k as int],
                ));
                lemma_slots_push(edges@.subrange(0, k as int), edges@[k as int]);
                assert forall|c: int| 0 <= c < cands@.len() implies hits_match(
                    (#[trigger] cands@[c]).hits@,
                    slots(edges@.subrange(0, k as int + 1), cands@[c].node),
                ) by {
                    let n = cands@[c].node;
                    assert(slots(edges@.subrange(0, k as int + 1), n) == slots(
                        edges@.subrange(0, k as int),
                        n,
                    ) + (if e_src == n {
                        seq![k as int]
                    } else {
                        Seq::empty()
                    }) + (if e_tgt == n {
                        seq![k as int]
                    } else {
                        Seq::empty()
                    }));
                }
                assert forall|n: i64|
                    map0.contains_key(n) && map0[n].uses == 4 && !(
                    #[trigger] cand_index@.contains_key(n)) implies slots(
                    edges@.subrange(0, k as int + 1),
                    n,
                ).len() == 0 by {
                    assert(n != e_src && n != e_tgt);
                    assert(!idx0.contains_key(n));
                }
            }
            k = k + 1;
        }
        proof {
            assert(edges@.subrange(0, en as int) =~= edges@);
        }
        // Pair up and merge.
        let cn = cands.len();
        let mut result: Vec<Edge> = Vec::new();
        let mut merged: Vec<bool> = Vec::new();
        let mut z: usize = 0;
        while z < en
            invariant
                z <= en,
                merged@.len() == z,
                forall|t: int| 0 <= t < z ==> !#[trigger] merged@[t],
            decreases en - z,
        {
            merged.push(false);
            z = z + 1;
        }
        proof {
            lemma_count_true_zero(merged@, en as int);
        }
        let ghost mut pairs: Seq<MergeEvent> = Seq::empty();
        let ghost seq0 = old(self).node_seq();
        let mut any: bool = false;
        let mut ci: usize = 0;
        while ci < cn
            invariant
                self.wf(),
                old(self).wf(),
                cn == cands@.len(),
                ci <= cn,
                en == edges@.len(),
                edges@ == edges0,
                map0 == old(self).node_map(),
                self.ways@ == old(self).ways@,
                self.nodes_to_keep@ == old(self).nodes_to_keep@,
                self.forbidden_tags@ == old(self).forbidden_tags@,
                self.required_tags@ == old(self).required_tags@,
                self.tags_to_read@ == old(self).tags_to_read@,
                self.should_merge_ways == old(self).should_merge_ways,
                self.node_map().dom() =~= map0.dom(),
                self.node_seq().len() == old(self).node_seq().len(),
                seq0 == old(self).node_seq(),
                forall|k2: i64|
                    #[trigger] map0.contains_key(k2) ==> {
                        let prev = map0[k2];
                        let cur = self.node_map()[k2];
                        &&& cur.id == prev.id
                        &&& cur.coord == prev.coord
                        &&& cur.uses as int == (if exists|p: int|
                            0 <= p < pairs.len() && (#[trigger] pairs[p]).junction == k2 {
                            0int
                        } else {
                            prev.uses as int
                        })
                    },
                forall|t: int|
                    0 <= t < seq0.len() ==> {
                        let prev = seq0[t];
                        let cur = #[trigger] self.node_seq()[t];
                        &&& cur.id == prev.id
                        &&& cur.coord == prev.coord
                        &&& (cur.uses == prev.uses || (cur.uses == 0 && prev.uses == 4))
                    },
                pairs.len() == result@.len(),
                forall|p: int|
                    0 <= p < pairs.len() ==> {
                        let ev = #[trigger] pairs[p];
                        &&& 0 <= ev.left < en
                        &&& 0 <= ev.right < en
                        &&& ev.left != ev.right
                        &&& merged@[ev.left]
                        &&& merged@[ev.right]
                        &&& mergeable_at(edges0, map0, ev.junction)
                        &&& slots(edges0, ev.junction) == seq![ev.left, ev.right]
                        &&& crate::models::Edge::merged_of(
                            result@[p],
                            edges0[ev.left],
                            edges0[ev.right],
                            ev.junction,
                        )
                    },
                forall|p1: int, p2: int|
                    #![trigger pairs[p1], pairs[p2]]
                    0 <= p1 < p2 < pairs.len() ==> pairs[p1].left != pairs[p2].left
                        && pairs[p1].left != pairs[p2].right && pairs[p1].right != pairs[p2].left
                        && pairs[p1].right != pairs[p2].right,
                forall|t: int|
                    0 <= t < en ==> ((#[trigger] merged@[t]) <==> exists|p: int|
                        0 <= p < pairs.len() && ((#[trigger] pairs[p]).left == t || pairs[p].right
                            == t)),
                forall|c2: int|
                    0 <= c2 < ci ==> (mergeable_at(
                        edges0,
                        map0,
                        (#[trigger] cands@[c2]).node,
                    ) ==> exists|p: int|
                        0 <= p < pairs.len() && ((#[trigger] pairs[p]).junction == cands@[c2].node
                            || pairs[p].left == slots(edges0, cands@[c2].node)[0] || pairs[p].left
                            == slots(edges0, cands@[c2].node)[1] || pairs[p].right == slots(
                            edges0,
                            cands@[c2].node,
                        )[0] || pairs[p].right == slots(edges0, cands@[c2].node)[1])),
                forall|k2: int| 0 <= k2 < en ==> (#[trigger] edges@[k2]).wf(),
                forall|k2: int|
                    0 <= k2 < en ==> map0.contains_key((#[trigger] edges@[k2]).source)
                        && map0.contains_key(edges@[k2].target),
                inc_wf(cands@, cand_index@),
                forall|c: int|
                    0 <= c < cands@.len() ==> map0.contains_key((#[trigger] cands@[c]).node)
                        && map0[cands@[c].node].uses == 4,
                forall|c: int|
                    0 <= c < cands@.len() ==> hits_match(
                        (#[trigger] cands@[c]).hits@,
                        slots(edges@, cands@[c].node),
                    ),
                forall|n: i64|
                    map0.contains_key(n) && map0[n].uses == 4 && !(
                    #[trigger] cand_index@.contains_key(n)) ==> slots(edges@, n).len() == 0,
                merged@.len() == en,
                count_true(merged@, en as int) == 2 * result@.len(),
                any <==> result@.len() > 0,
                !any ==> self.node_map() == map0 && self.node_seq() == old(self).node_seq(),
                !any ==> forall|t: int| 0 <= t < en ==> !(#[trigger] merged@[t]),
                any ==> !merge_stable(edges@, map0),
                forall|j: int| 0 <= j < result@.len() ==> (#[trigger] result@[j]).wf(),
                forall|j: int|
                    0 <= j < result@.len() ==> map0.contains_key((#[trigger] result@[j]).source)
                        && map0.contains_key(result@[j].target),
                !any ==> forall|c2: int|
                    0 <= c2 < ci ==> !mergeable_at(edges@, map0, (#[trigger] cands@[c2]).node),
            decreases cn - ci,
        {
            let ghost cand_node = cands@[ci as int].node;
            let hit_count = cands[ci].hits.len();
            if hit_count == 2 {
                let i = cands[ci].hits[0];
                let j = cands[ci].hits[1];
                let target_node = cands[ci].node;
                proof {
                    lemma_slots_props(edges@, target_node);
                    assert(slots(edges@, target_node)[0] == i as int);
                    assert(slots(edges@, target_node)[1] == j as int);
                }
                let can = !merged[i] && !merged[j] && edges[i].properties == edges[j].properties
                    && crate::models::tags_set_eq(&edges[i].tags, &edges[j].tags) && !crate::text::str_eq(
                    edges[i].id.as_str(),
                    edges[j].id.as_str(),
                );
                if can {
                    proof {
                        assert(i != j);
                        assert(mergeable_at(edges@, map0, target_node));
                        assert(slots(edges0, target_node) =~= seq![i as int, j as int]);
                    }
                    let merged_edge = Edge::merge(&edges[i], &edges[j], target_node);
                    result.push(merged_edge);
                    let ghost flags0 = merged@;
                    merged[i] = true;
                    let ghost flags1 = merged@;
                    merged[j] = true;
                    proof {
                        lemma_count_true_set(flags0, i as int, en as int);
                        assert(flags1 == flags0.update(i as int, true));
                        lemma_count_true_set(flags1, j as int, en as int);
                        assert(merged@ == flags1.update(j as int, true));
                    }
                    let ghost m_prev = self.node_map();
                    self.nodes.clear_uses(target_node);
                    proof {
                        old(self).lemma_nodes_agree();
                        assert forall|t: int| 0 <= t < seq0.len() implies {
                            let prev = seq0[t];
                            let cur = #[trigger] self.node_seq()[t];
                            &&& cur.id == prev.id
                            &&& cur.coord == prev.coord
                            &&& (cur.uses == prev.uses || (cur.uses == 0 && prev.uses == 4))
                        } by {
                            if seq0[t].id == target_node {
                                assert(map0[target_node] == seq0[t]);
                            }
                        }
                        let ghost pairs0 = pairs;
                        let ev = MergeEvent {
                            left: i as int,
                            right: j as int,
                            junction: target_node,
                        };
                        pairs = pairs.push(ev);
                        lemma_event_push(
                            edges0,
                            map0,
                            cands@,
                            ci as int,
                            pairs0,
                            ev,
                            flags0,
                            merged@,
                            m_prev,
                            self.node_map(),
                        );
                        assert(pairs[pairs.len() - 1] == ev);
                        assert(crate::models::Edge::merged_of(
                            result@[pairs0.len() as int],
                            edges0[i as int],
                            edges0[j as int],
                            target_node,
                        ));
                    }
                    any = true;
                } else {
                    proof {
                        if mergeable_at(edges0, map0, cand_node) {
                            // The two slot edges agree on properties, tags
                            // and identifiers, so the skip can only come
                            // from an edge already consumed this pass.
                            assert(slots(edges0, cand_node)[0] == i as int);
                            assert(slots(edges0, cand_node)[1] == j as int);
                            assert(merged@[i as int] || merged@[j as int]);
                            if merged@[i as int] {
                                let p0 = choose|p0: int|
                                    0 <= p0 < pairs.len() && ((#[trigger] pairs[p0]).left
                                        == i as int || pairs[p0].right == i as int);
                                assert(pairs[p0].left == slots(edges0, cand_node)[0]
                                    || pairs[p0].right == slots(edges0, cand_node)[0]);
                            } else {
                                let p0 = choose|p0: int|
                                    0 <= p0 < pairs.len() && ((#[trigger] pairs[p0]).left
                                        == j as int || pairs[p0].right == j as int);
                                assert(pairs[p0].left == slots(edges0, cand_node)[1]
                                    || pairs[p0].right == slots(edges0, cand_node)[1]);
                            }
                        }
                    }
                }
            } else {
                proof {
                    if mergeable_at(edges0, map0, cand_node) {
                        assert(slots(edges0, cand_node).len() == 2);
                        assert(cands@[ci as int].hits@.len() == 2);
                        assert(false);
                    }
                }
            }
            proof {
                if !any {
                    assert forall|c2: int| 0 <= c2 < ci + 1 implies !mergeable_at(
                        edges@,
                        map0,
                        (#[trigger] cands@[c2]).node,
                    ) by {
                        if c2 == ci {
                            let n = cands@[c2].node;
                            if mergeable_at(edges@, map0, n) {
                                assert(slots(edges@, n).len() == 2);
                                assert(cands@[c2].hits@.len() == 2);
                                assert(false);
                            }
                        }
                    }
                }
            }
            ci = ci + 1;
        }
        // Rebuild the edge list: merged results first, then the survivors
        // in input order.
        let ghost flags = merged@;
        let ghost base = result@;
        let mut pool = edges;
        let mut rev: Vec<Edge> = Vec::new();
        while pool.len() > 0
            invariant
                pool@ == edges0.subrange(0, pool@.len() as int),
                rev@.len() + pool@.len() == en,
                en == edges0.len(),
                forall|p: int| 0 <= p < rev@.len() ==> #[trigger] rev@[p] == edges0[en - 1 - p],
            decreases pool@.len(),
        {
            match pool.pop() {
                Some(e) => {
                    rev.push(e);
                },
                None => {
                    proof {
                        assert(false);
                    }
                },
            }
        }
        let mut t: usize = 0;
        while t < en
            invariant
                t <= en,
                en == edges0.len(),
                merged@ == flags,
                flags.len() == en,
                rev@.len() == en - t,
                forall|p: int| 0 <= p < rev@.len() ==> #[trigger] rev@[p] == edges0[en - 1 - p],
                result@ == base + kept_prefix(edges0, flags, t as int),
            decreases en - t,
        {
            match rev.pop() {
                Some(e) => {
                    proof {
                        assert(e == edges0[t as int]);
                    }
                    if !merged[t] {
                        result.push(e);
                    }
                },
                None => {
                    proof {
                        assert(false);
                    }
                },
            }
            proof {
                assert(result@ =~= base + kept_prefix(edges0, flags, t as int + 1));
            }
            t = t + 1;
        }
        proof {
            lemma_kept_prefix_len(edges0, flags, en as int);
            lemma_count_true_bound(flags, en as int);
            if !any {
                lemma_kept_prefix_all(edges0, flags, en as int);
                assert(result@ =~= edges0);
                assert forall|n: i64| !#[trigger] mergeable_at(edges0, map0, n) by {
                    if mergeable_at(edges0, map0, n) {
                        if cand_index@.contains_key(n) {
                            let c2 = cand_index@[n] as int;
                            assert(cands@[c2].node == n);
                            assert(!mergeable_at(edges0, map0, cands@[c2].node));
                        } else {
                            assert(slots(edges0, n).len() == 0);
                        }
                        assert(false);
                    }
                }
            }
            // Event-list assembly: the pass is fully described by the ghost
            // events and the consumed flags.
            assert(base.len() == pairs.len());
            assert(result@.skip(pairs.len() as int) =~= kept_prefix(edges0, flags, en as int));
            assert forall|p: int| 0 <= p < pairs.len() implies {
                let ev = #[trigger] pairs[p];
                &&& 0 <= ev.left < en
                &&& 0 <= ev.right < en
                &&& ev.left != ev.right
                &&& flags[ev.left]
                &&& flags[ev.right]
                &&& mergeable_at(edges0, map0, ev.junction)
                &&& slots(edges0, ev.junction) == seq![ev.left, ev.right]
                &&& crate::models::Edge::merged_of(
                    result@[p],
                    edges0[ev.left],
                    edges0[ev.right],
                    ev.junction,
                )
            } by {
                assert(result@[p] == base[p]);
            }
            assert forall|n: i64| #[trigger] mergeable_at(edges0, map0, n) implies exists|p: int|
                0 <= p < pairs.len() && ((#[trigger] pairs[p]).junction == n || pairs[p].left
                    == slots(edges0, n)[0] || pairs[p].left == slots(edges0, n)[1]
                    || pairs[p].right == slots(edges0, n)[0] || pairs[p].right == slots(
                    edges0,
                    n,
                )[1]) by {
                if cand_index@.contains_key(n) {
                    let c2 = cand_index@[n] as int;
                    assert(cands@[c2].node == n);
                    assert(mergeable_at(edges0, map0, cands@[c2].node));
                } else {
                    assert(slots(edges0, n).len() == 0);
                    assert(false);
                }
            }
            assert(pass_merges(edges0, map0, result@, pairs, flags));
            assert(any <==> pairs.len() > 0);
            assert(pass_rel(edges0, map0, result@, self.node_map(), any)) by {
                assert(pass_merges(edges0, map0, result@, pairs, flags));
                assert(self.node_map().dom() =~= map0.dom());
            }
            // Every zeroed junction carried four uses.
            assert forall|k2: i64| #[trigger] map0.contains_key(k2) implies {
                let prev = map0[k2];
                let cur = self.node_map()[k2];
                cur.uses == prev.uses || (cur.uses == 0 && prev.uses == 4)
            } by {
                if exists|p: int| 0 <= p < pairs.len() && (#[trigger] pairs[p]).junction == k2 {
                    let p0 = choose|p0: int|
                        0 <= p0 < pairs.len() && (#[trigger] pairs[p0]).junction == k2;
                    assert(mergeable_at(edges0, map0, k2));
                }
            }
            assert forall|j: int| 0 <= j < result@.len() implies (#[trigger] result@[j]).wf()
                && map0.contains_key(result@[j].source) && map0.contains_key(
                result@[j].target,
            ) by {
                if j >= base.len() {
                    let p = j - base.len();
                    let t2 = choose|t2: int|
                        0 <= t2 < en && !flags[t2] && #[trigger] kept_prefix(
                            edges0,
                            flags,
                            en as int,
                        )[p] == edges0[t2];
                    assert(result@[j] == edges0[t2]);
                }
            }
        }
        (result, any)
    }

    /// Runs merger passes until one merges nothing; the result admits no
    /// further merge.
    fn merge_until_stable(&mut self, edges: Vec<Edge>) -> (r: Vec<Edge>)
        requires
            old(self).wf(),
            forall|k: int| 0 <= k < edges@.len() ==> (#[trigger] edges@[k]).wf(),
            forall|k: int|
                0 <= k < edges@.len() ==> old(self).node_map().contains_key(
                    (#[trigger] edges@[k]).source,
                ) && old(self).node_map().contains_key(edges@[k].target),
        ensures
            final(self).wf(),
            final(self).way_seq() == old(self).way_seq(),
            final(self).keep_set() == old(self).keep_set(),
            final(self).forbidden_seq() == old(self).forbidden_seq(),
            final(self).required_seq() == old(self).required_seq(),
            final(self).read_keys() == old(self).read_keys(),
            final(self).merge_enabled() == old(self).merge_enabled(),
            final(self).node_map().dom() =~= old(self).node_map().dom(),
            final(self).node_seq().len() == old(self).node_seq().len(),
            forall|k: i64|
                #[trigger] old(self).node_map().contains_key(k) ==> {
                    let prev = old(self).node_map()[k];
                    let cur = final(self).node_map()[k];
                    &&& cur.id == prev.id
                    &&& cur.coord == prev.coord
                    &&& (cur.uses == prev.uses || (cur.uses == 0 && prev.uses == 4))
                },
            forall|t: int|
                0 <= t < old(self).node_seq().len() ==> {
                    let prev = old(self).node_seq()[t];
                    let cur = #[trigger] final(self).node_seq()[t];
                    &&& cur.id == prev.id
                    &&& cur.coord == prev.coord
                    &&& (cur.uses == prev.uses || (cur.uses == 0 && prev.uses == 4))
                },
            r@.len() <= edges@.len(),
            exists|steps: nat|
                #[trigger] merger_run(
                    edges@,
                    old(self).node_map(),
                    r@,
                    final(self).node_map(),
                    steps,
                ),
            forall|j: int| 0 <= j < r@.len() ==> (#[trigger] r@[j]).wf(),
            forall|j: int|
                0 <= j < r@.len() ==> final(self).node_map().contains_key(
                    (#[trigger] r@[j]).source,
                ) && final(self).node_map().contains_key(r@[j].target),
            merge_stable(r@, final(self).node_map()),
            merge_stable(edges@, old(self).node_map()) ==> r@ == edges@ && final(self).node_map()
                == old(self).node_map() && final(self).node_seq() == old(self).node_seq(),
        decreases edges@.len(),
    {
        let ghost input = edges@;
        let ghost m0 = old(self).node_map();
        let pair = self.merge_pass(edges);
        let ghost mid = pair.0@;
        let ghost mmid = self.node_map();
        if pair.1 {
            let r = self.merge_until_stable(pair.0);
            proof {
                let s2 = choose|s2: nat| #[trigger]
                    merger_run(mid, mmid, r@, self.node_map(), s2);
                assert(merger_run(input, m0, r@, self.node_map(), s2 + 1)) by {
                    assert(pass_rel(input, m0, mid, mmid, true));
                    assert(merger_run(mid, mmid, r@, self.node_map(), (s2 + 1 - 1) as nat));
                }
            }
            r
        } else {
            proof {
                assert(merger_run(input, m0, pair.0@, self.node_map(), 0)) by {
                    assert(pass_rel(input, m0, pair.0@, self.node_map(), false));
                    assert(pair.0@ == input);
                    assert(self.node_map() == m0);
                }
            }
            pair.0
        }
    }

    /// Re-stitches edges split apart only because they came from different
    /// ways: passes run until none merges anything.  The result is stable
    /// (no further merge is possible), and a stable input comes back
    /// unchanged, so running the merger on its own output changes nothing.
    pub fn do_merge_edges(&mut self, edges: Vec<Edge>) -> (r: Vec<Edge>)
        requires
            old(self).wf(),
            forall|k: int| 0 <= k < edges@.len() ==> (#[trigger] edges@[k]).wf(),
            forall|k: int|
                0 <= k < edges@.len() ==> old(self).node_map().contains_key(
                    (#[trigger] edges@[k]).source,
                ) && old(self).node_map().contains_key(edges@[k].target),
        ensures
            final(self).wf(),
            final(self).way_seq() == old(self).way_seq(),
            final(self).keep_set() == old(self).keep_set(),
            final(self).forbidden_seq() == old(self).forbidden_seq(),
            final(self).required_seq() == old(self).required_seq(),
            final(self).read_keys() == old(self).read_keys(),
            final(self).merge_enabled() == old(self).merge_enabled(),
            final(self).node_map().dom() =~= old(self).node_map().dom(),
            final(self).node_seq().len() == old(self).node_seq().len(),
            forall|k: i64|
                #[trigger] old(self).node_map().contains_key(k) ==> {
                    let prev = old(self).node_map()[k];
                    let cur = final(self).node_map()[k];
                    &&& cur.id == prev.id
                    &&& cur.coord == prev.coord
                    &&& (cur.uses == prev.uses || (cur.uses == 0 && prev.uses == 4))
                },
            forall|t: int|
                0 <= t < old(self).node_seq().len() ==> {
                    let prev = old(self).node_seq()[t];
                    let cur = #[trigger] final(self).node_seq()[t];
                    &&& cur.id == prev.id
                    &&& cur.coord == prev.coord
                    &&& (cur.uses == prev.uses || (cur.uses == 0 && prev.uses == 4))
                },
            r@.len() <= edges@.len(),
            exists|steps: nat|
                #[trigger] merger_run(
                    edges@,
                    old(self).node_map(),
                    r@,
                    final(self).node_map(),
                    steps,
                ),
            forall|j: int| 0 <= j < r@.len() ==> (#[trigger] r@[j]).wf(),
            forall|j: int|
                0 <= j < r@.len() ==> final(self).node_map().contains_key(
                    (#[trigger] r@[j]).source,
                ) && final(self).node_map().contains_key(r@[j].target),
            merge_stable(r@, final(self).node_map()),
            merge_stable(edges@, old(self).node_map()) ==> r@ == edges@ && final(self).node_map()
                == old(self).node_map() && final(self).node_seq() == old(self).node_seq(),
    {
        self.merge_until_stable(edges)
    }

}

} // verus!
