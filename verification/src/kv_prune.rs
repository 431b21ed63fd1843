//! Search pruning by attention: which graph nodes are worth expanding, and at which
//! precision.
use crate::order;
use crate::order::{highest, is_less};
use vstd::prelude::*;

verus! {

/// Importance of each token, the bits of an `f32` each.
pub struct AttentionScores {
    pub scores: Vec<u32>,
    pub seq_len: usize,
}

/// Prunes graph nodes by attention: the threshold above which a node is measured at full
/// precision, the bits of an `f32`, and the width of the beam.
pub struct KvSearchPruner {
    pub precision_threshold: u32,
    pub beam_width: usize,
}

/// Every node of the list that lies within the sequence has a score.
pub open spec fn scored(nodes: Seq<usize>, a: AttentionScores) -> bool {
    forall|i: int|
        0 <= i < nodes.len() && (#[trigger] nodes[i]) < a.seq_len ==> nodes[i] < a.scores@.len()
}

/// The candidates that lie within the sequence.
pub open spec fn within(candidates: Seq<usize>, seq_len: usize) -> Seq<usize> {
    candidates.filter(|c: usize| c < seq_len)
}

pub open spec fn scores_of(nodes: Seq<usize>, scores: Seq<u32>) -> Seq<u32> {
    Seq::new(nodes.len(), |i: int| scores[nodes[i] as int])
}

/// `r` is the `width` nodes among `nodes` with the highest scores, highest first.
pub open spec fn most_attended(
    nodes: Seq<usize>,
    scores: Seq<u32>,
    width: nat,
    r: Seq<usize>,
) -> bool {
    exists|p: Seq<usize>| #[trigger]
        order::first_places(order::high_keys(scores_of(nodes, scores)), width, p) && r == Seq::new(
            p.len(),
            |i: int| nodes[p[i] as int],
        )
}

/// Whether a node lies in the sequence and scores above a floor.
pub open spec fn attended(node: usize, a: AttentionScores, floor: u32) -> bool {
    node < a.seq_len && order::less(floor, a.scores@[node as int])
}

impl KvSearchPruner {
    pub fn new(precision_threshold: u32, beam_width: usize) -> (r: Self)
        ensures
            r.precision_threshold == precision_threshold,
            r.beam_width == beam_width,
    {
        KvSearchPruner { precision_threshold, beam_width }
    }

    /// Keeps the candidates with the highest attention, as many as the beam is wide.
    pub fn prune_candidates(&self, candidates: &Vec<usize>, attention: &AttentionScores) -> (r: Vec<
        usize,
    >)
        requires
            scored(candidates@, *attention),
        ensures
            most_attended(
                within(candidates@, attention.seq_len),
                attention.scores@,
                self.beam_width as nat,
                r@,
            ),
    {
        let ghost pred = |c: usize| c < attention.seq_len;
        let mut nodes: Vec<usize> = Vec::new();
        let mut scores: Vec<u32> = Vec::new();
        let mut i: usize = 0;
        proof {
            reveal(Seq::filter);
            assert(candidates@.take(0).filter(pred) =~= Seq::<usize>::empty());
            assert(scores@ =~= scores_of(nodes@, attention.scores@));
        }
        while i < candidates.len()
            invariant
                i <= candidates@.len(),
                scored(candidates@, *attention),
                pred == (|c: usize| c < attention.seq_len),
                nodes@ == candidates@.take(i as int).filter(pred),
                scores@ == scores_of(nodes@, attention.scores@),
            decreases candidates@.len() - i,
        {
            let c: usize = candidates[i];
            proof {
                assert(candidates@.take(i + 1) =~= candidates@.take(i as int).push(c));
                candidates@.take(i as int).lemma_filter_push(c, pred);
            }
            if c < attention.seq_len {
                nodes.push(c);
                scores.push(attention.scores[c]);
                proof {
                    assert(scores@ =~= scores_of(nodes@, attention.scores@));
                }
            }
            i = i + 1;
        }
        proof {
            assert(candidates@.take(i as int) =~= candidates@);
        }
        let p = highest(&scores, self.beam_width);
        proof {
            order::law_first_places_are_best(
                order::high_keys(scores@),
                self.beam_width as nat,
                p@,
            );
        }
        let mut out: Vec<usize> = Vec::new();
        let mut j: usize = 0;
        while j < p.len()
            invariant
                j <= p@.len(),
                forall|x: int| 0 <= x < p@.len() ==> (#[trigger] p@[x]) < nodes@.len(),
                out@ == Seq::new(j as nat, |x: int| nodes@[p@[x] as int]),
            decreases p@.len() - j,
        {
            out.push(nodes[p[j]]);
            j = j + 1;
            proof {
                assert(out@ =~= Seq::new(j as nat, |x: int| nodes@[p@[x] as int]));
            }
        }
        out
    }

    /// The precision at which a node is measured: full above the threshold.
    pub fn node_precision(&self, node: usize, attention: &AttentionScores) -> (r: &'static str)
        requires
            node < attention.seq_len ==> node < attention.scores@.len(),
        ensures
            r@ == (if attended(node, *attention, self.precision_threshold) {
                "FP32"@
            } else {
                "INT8"@
            }),
    {
        if node < attention.seq_len && is_less(self.precision_threshold, attention.scores[node]) {
            "FP32"
        } else {
            "INT8"
        }
    }

    /// The frontier nodes worth expanding: those that score above `floor`, half the
    /// precision threshold.
    pub fn selective_expand(
        &self,
        frontier: &Vec<usize>,
        attention: &AttentionScores,
        floor: u32,
    ) -> (r: Vec<usize>)
        requires
            scored(frontier@, *attention),
        ensures
            r@ == frontier@.filter(|c: usize| attended(c, *attention, floor)),
    {
        let ghost pred = |c: usize| attended(c, *attention, floor);
        let mut out: Vec<usize> = Vec::new();
        let mut i: usize = 0;
        proof {
            reveal(Seq::filter);
            assert(frontier@.take(0).filter(pred) =~= Seq::<usize>::empty());
        }
        while i < frontier.len()
            invariant
                i <= frontier@.len(),
                scored(frontier@, *attention),
                pred == (|c: usize| attended(c, *attention, floor)),
                out@ == frontier@.take(i as int).filter(pred),
            decreases frontier@.len() - i,
        {
            let c: usize = frontier[i];
            proof {
                assert(frontier@.take(i + 1) =~= frontier@.take(i as int).push(c));
                frontier@.take(i as int).lemma_filter_push(c, pred);
            }
            if c < attention.seq_len && is_less(floor, attention.scores[c]) {
                out.push(c);
            }
            i = i + 1;
        }
        proof {
            assert(frontier@.take(i as int) =~= frontier@);
        }
        out
    }
}

/// The beam holds candidates of the sequence only, the most attended first, and a candidate of the
/// sequence that is left out is attended no more than any of them; it is left out only where the
/// beam is full.
pub proof fn law_beam_holds_the_most_attended(
    candidates: Seq<usize>,
    seq_len: usize,
    scores: Seq<u32>,
    width: nat,
    r: Seq<usize>,
    x: int,
)
    requires
        most_attended(within(candidates, seq_len), scores, width, r),
        candidates.len() <= usize::MAX,
        0 <= x < candidates.len(),
        candidates[x] < seq_len,
    ensures
        r.len() <= width,
        forall|i: int|
            0 <= i < r.len() ==> (#[trigger] r[i]) < seq_len && candidates.contains(r[i]),
        forall|i: int, j: int|
            0 <= i < j < r.len() ==> order::float_key(scores[(#[trigger] r[i]) as int])
                >= order::float_key(scores[(#[trigger] r[j]) as int]),
        !r.contains(candidates[x]) ==> r.len() == width && forall|i: int|
            0 <= i < r.len() ==> order::float_key(scores[(#[trigger] r[i]) as int])
                >= order::float_key(scores[candidates[x] as int]),
{
    broadcast use vstd::seq_lib::group_filter_ensures;

    let f = |c: usize| c < seq_len;
    let nodes = within(candidates, seq_len);
    assert(nodes == candidates.filter(f));
    candidates.lemma_filter_len(f);
    let sub = scores_of(nodes, scores);
    let p = choose|p: Seq<usize>| #[trigger]
        order::first_places(order::high_keys(scores_of(nodes, scores)), width, p) && r == Seq::new(
            p.len(),
            |i: int| nodes[p[i] as int],
        );
    order::law_highest_are_highest(sub, width, p);
    assert forall|i: int| 0 <= i < r.len() implies (#[trigger] r[i]) < seq_len
        && candidates.contains(r[i]) && scores[r[i] as int] == sub[p[i] as int] by {
        assert(p[i] < nodes.len());
        let node = nodes[p[i] as int];
        assert(r[i] == node);
        candidates.lemma_filter_pred(f, p[i] as int);
        assert(f(node));
        assert(nodes.contains(node));
        candidates.lemma_filter_contains_rev(f, node);
        assert(sub[p[i] as int] == scores[node as int]);
    }
    if !r.contains(candidates[x]) {
        assert(f(candidates[x]));
        assert(nodes.contains(candidates[x]));
        let y = choose|y: int| 0 <= y < nodes.len() && nodes[y] == candidates[x];
        if p.contains(y as usize) {
            let i = choose|i: int| 0 <= i < p.len() && p[i] == y as usize;
            assert(r[i] == candidates[x]);
        }
        assert(sub[y] == scores[candidates[x] as int]);
        if p.len() < width {
            crate::truth::lemma_full_list_holds_all(p, sub.len(), y as usize);
        }
    }
}

/// A node beyond the sequence is never attended, and one that is attended stays so above a lower
/// floor.
pub proof fn law_floors_let_more_through(
    node: usize,
    a: AttentionScores,
    floor: u32,
    lower: u32,
)
    requires
        !order::is_nan(lower),
        order::float_key(lower) <= order::float_key(floor),
    ensures
        node >= a.seq_len ==> !attended(node, a, floor),
        attended(node, a, floor) ==> attended(node, a, lower),
        attended(node, a, floor) ==> order::float_key(floor) < order::float_key(
            a.scores@[node as int],
        ),
{
}

} // verus!
