use vstd::prelude::*;
use vstd::multiset::Multiset;
use vstd::seq_lib::group_to_multiset_ensures;
use vstd::seq_lib::to_multiset_insert;
use crate::experiment::Experiment;

verus! {

/// Measurement order: an absent cost compares below every present cost, and
/// present costs compare numerically.  The absent-first rule decides which
/// experiment a ranking picks as worst: one whose build failed never is.
pub open spec fn cost_le(a: Option<u64>, b: Option<u64>) -> bool {
    match (a, b) {
        (Option::None, _) => true,
        (Option::Some(_), Option::None) => false,
        (Option::Some(x), Option::Some(y)) => x <= y,
    }
}

fn cost_le_exec(a: Option<u64>, b: Option<u64>) -> (r: bool)
    ensures
        r == cost_le(a, b),
{
    match (a, b) {
        (None, _) => true,
        (Some(_), None) => false,
        (Some(x), Some(y)) => x <= y,
    }
}

/// The experiments stand in ascending measurement order.
pub open spec fn sorted_by_cost(s: Seq<Experiment>) -> bool {
    forall|i: int, j: int| 0 <= i < j < s.len() ==> #[trigger] cost_le(
        s[i].measured_cost,
        s[j].measured_cost,
    )
}

/// Ranking order: in a sorted result set, every experiment with an absent
/// cost stands before every experiment with a present cost, and present
/// costs stand in non-decreasing numeric order.
pub proof fn lemma_ranking_order(s: Seq<Experiment>, i: int, j: int)
    requires
        sorted_by_cost(s),
        0 <= i < j < s.len(),
    ensures
        s[j].measured_cost is None ==> s[i].measured_cost is None,
        s[i].measured_cost is Some && s[j].measured_cost is Some ==> s[i].measured_cost->0
            <= s[j].measured_cost->0,
{
    assert(cost_le(s[i].measured_cost, s[j].measured_cost));
}

/// Sort the completed experiments ascending by measured cost, an absent cost
/// ordering before every present one.  The result holds exactly the given
/// experiments.
pub fn sort_experiments(v: Vec<Experiment>) -> (r: Vec<Experiment>)
    ensures
        sorted_by_cost(r@),
        r@.to_multiset() == v@.to_multiset(),
        r@.len() == v@.len(),
{
    broadcast use group_to_multiset_ensures, to_multiset_insert;

    let ghost orig = v@;
    let mut rest = v;
    let mut r: Vec<Experiment> = Vec::new();
    while rest.len() > 0
        invariant
            sorted_by_cost(r@),
            r@.to_multiset().add(rest@.to_multiset()) == orig.to_multiset(),
            r@.len() + rest@.len() == orig.len(),
        decreases rest@.len(),
    {
        let ghost rest_pre = rest@;
        let e = rest.pop().unwrap();
        proof {
            assert(e == rest_pre[rest_pre.len() - 1]);
            assert(rest_pre.contains(e));
            vstd::seq_lib::to_multiset_contains(rest_pre, e);
            vstd::seq_lib::to_multiset_remove(rest_pre, rest_pre.len() - 1);
            assert(rest_pre.remove(rest_pre.len() - 1) =~= rest@);
            assert(rest@.to_multiset() == rest_pre.to_multiset().remove(e));
            assert(rest_pre.to_multiset() =~= rest@.to_multiset().insert(e));
        }
        let mut j: usize = 0;
        while j < r.len() && cost_le_exec(r[j].measured_cost, e.measured_cost)
            invariant
                j <= r@.len(),
                forall|k: int| 0 <= k < j ==> #[trigger] cost_le(
                    r@[k].measured_cost,
                    e.measured_cost,
                ),
            decreases r@.len() - j,
        {
            j = j + 1;
        }
        let ghost r_pre = r@;
        let ghost jj: int = j as int;
        r.insert(j, e);
        proof {
            assert(sorted_by_cost(r_pre));
            assert(r@ == r_pre.insert(jj, e));
            vstd::seq_lib::to_multiset_insert(r_pre, jj, e);
            assert(r@.to_multiset() == r_pre.to_multiset().insert(e));
            assert(r@.to_multiset().add(rest@.to_multiset()) =~= orig.to_multiset());
            if jj < r_pre.len() {
                // The scan stopped short of the end, so `e` comes before the
                // element it stopped at, and before all that follow it.
                assert(!cost_le(r_pre[jj].measured_cost, e.measured_cost));
                assert(cost_le(e.measured_cost, r_pre[jj].measured_cost));
                assert forall|k: int| jj <= k < r_pre.len() implies #[trigger] cost_le(
                    e.measured_cost,
                    r_pre[k].measured_cost,
                ) by {
                    if k > jj {
                        assert(cost_le(r_pre[jj].measured_cost, r_pre[k].measured_cost));
                    }
                }
            }
            assert forall|x: int, y: int| 0 <= x < y < r@.len() implies #[trigger] cost_le(
                r@[x].measured_cost,
                r@[y].measured_cost,
            ) by {
                assert(forall|k: int| 0 <= k < jj ==> r@[k] == #[trigger] r_pre[k]);
                assert(r@[jj] == e);
                assert(forall|k: int| jj < k < r@.len() ==> r@[k] == #[trigger] r_pre[k - 1]);
                if x < jj && y < jj {
                    assert(cost_le(r_pre[x].measured_cost, r_pre[y].measured_cost));
                } else if x < jj && y > jj {
                    assert(cost_le(r_pre[x].measured_cost, r_pre[y - 1].measured_cost));
                } else if x > jj && y > jj {
                    assert(cost_le(r_pre[x - 1].measured_cost, r_pre[y - 1].measured_cost));
                }
            }
        }
    }
    proof {
        assert(rest@.to_multiset() =~= Multiset::<Experiment>::empty());
        assert(r@.to_multiset() =~= orig.to_multiset());
    }
    r
}

/// The costliest experiment of a sorted result set: its last entry, which no
/// other entry's measurement exceeds.
pub fn worst_experiment(v: &Vec<Experiment>) -> (r: &Experiment)
    requires
        v@.len() > 0,
        sorted_by_cost(v@),
    ensures
        *r == v@.last(),
        forall|k: int| 0 <= k < v@.len() ==> #[trigger] cost_le(
            v@[k].measured_cost,
            r.measured_cost,
        ),
{
    let r = &v[v.len() - 1];
    proof {
        assert forall|k: int| 0 <= k < v@.len() implies #[trigger] cost_le(
            v@[k].measured_cost,
            r.measured_cost,
        ) by {
            if k < v@.len() - 1 {
                assert(cost_le(v@[k].measured_cost, v@[v@.len() - 1].measured_cost));
            }
        }
    }
    r
}

} // verus!
