use vstd::prelude::*;
use crate::experiment::Experiment;
use crate::ranking::cost_le;
use crate::ranking::sorted_by_cost;

verus! {

/// The costs the report keeps: those of the experiments whose measurement is
/// present, in the order the experiments stand.
pub open spec fn present_costs(s: Seq<Experiment>) -> Seq<u64>
    decreases s.len(),
{
    if s.len() == 0 {
        seq![]
    } else {
        present_costs(s.drop_last()) + (match s.last().measured_cost {
            Option::Some(c) => seq![c],
            Option::None => seq![],
        })
    }
}

/// Select for the report the cost of every experiment whose measurement is
/// present, in the order given; experiments whose build failed are omitted
/// here, and only here.
pub fn report_costs(v: &Vec<Experiment>) -> (r: Vec<u64>)
    ensures
        r@ == present_costs(v@),
{
    let mut r: Vec<u64> = Vec::new();
    let mut i: usize = 0;
    assert(v@.take(0) =~= Seq::<Experiment>::empty());
    while i < v.len()
        invariant
            i <= v@.len(),
            r@ == present_costs(v@.take(i as int)),
        decreases v@.len() - i,
    {
        proof {
            let pre = v@.take(i + 1);
            assert(pre.drop_last() =~= v@.take(i as int));
            assert(pre.last() == v@[i as int]);
        }
        match v[i].measured_cost {
            Some(c) => {
                r.push(c);
            },
            None => {},
        }
        assert(r@ =~= present_costs(v@.take(i + 1)));
        i = i + 1;
    }
    assert(v@.take(v@.len() as int) =~= v@);
    r
}

/// The report's lines keep the ranking's order: selecting the present costs
/// of a sorted result set yields a non-decreasing sequence.
pub proof fn lemma_report_keeps_order(s: Seq<Experiment>)
    requires
        sorted_by_cost(s),
    ensures
        forall|i: int, j: int| 0 <= i < j < present_costs(s).len() ==> present_costs(s)[i]
            <= present_costs(s)[j],
    decreases s.len(),
{
    if s.len() > 0 {
        let pre = s.drop_last();
        assert(forall|k: int| 0 <= k < pre.len() ==> pre[k] == #[trigger] s[k]);
        assert(sorted_by_cost(pre)) by {
            assert forall|x: int, y: int| 0 <= x < y < pre.len() implies #[trigger] cost_le(
                pre[x].measured_cost,
                pre[y].measured_cost,
            ) by {
                assert(cost_le(s[x].measured_cost, s[y].measured_cost));
            }
        }
        lemma_report_keeps_order(pre);
        assert(forall|k: int| 0 <= k < pre.len() ==> #[trigger] cost_le(
            pre[k].measured_cost,
            s.last().measured_cost,
        ));
        lemma_present_costs_bounded(pre, s.last().measured_cost);
        let pc = present_costs(s);
        let pcp = present_costs(pre);
        assert forall|i: int, j: int| 0 <= i < j < pc.len() implies pc[i] <= pc[j] by {
            assert(forall|k: int| 0 <= k < pcp.len() ==> pc[k] == #[trigger] pcp[k]);
            match s.last().measured_cost {
                Option::Some(c) => {
                    assert(pc.len() == pcp.len() + 1);
                    if j == pc.len() - 1 {
                        assert(pc[j] == c);
                        assert(cost_le(Some(pcp[i]), s.last().measured_cost));
                        assert(pcp[i] <= c);
                    }
                },
                Option::None => {
                    assert(pc =~= pcp);
                },
            }
        }
    }
}

/// Every present cost of `s` compares below `b` when every measurement of
/// `s` does.
proof fn lemma_present_costs_bounded(s: Seq<Experiment>, b: Option<u64>)
    requires
        forall|k: int| 0 <= k < s.len() ==> #[trigger] cost_le(s[k].measured_cost, b),
    ensures
        forall|i: int| 0 <= i < present_costs(s).len() ==> #[trigger] cost_le(
            Some(present_costs(s)[i]),
            b,
        ),
    decreases s.len(),
{
    if s.len() > 0 {
        let pre = s.drop_last();
        assert(forall|k: int| 0 <= k < pre.len() ==> pre[k] == #[trigger] s[k]);
        assert(forall|k: int| 0 <= k < pre.len() ==> #[trigger] cost_le(pre[k].measured_cost, b));
        lemma_present_costs_bounded(pre, b);
        assert(cost_le(s[s.len() - 1].measured_cost, b));
        let pc = present_costs(s);
        let pcp = present_costs(pre);
        assert(forall|k: int| 0 <= k < pcp.len() ==> pc[k] == #[trigger] pcp[k]);
        assert forall|i: int| 0 <= i < pc.len() implies #[trigger] cost_le(Some(pc[i]), b) by {
            match s.last().measured_cost {
                Option::Some(c) => {
                    assert(pc.len() == pcp.len() + 1);
                    if i == pc.len() - 1 {
                        assert(pc[i] == c);
                    } else {
                        assert(pc[i] == pcp[i]);
                        assert(cost_le(Some(pcp[i]), b));
                    }
                },
                Option::None => {
                    assert(pc =~= pcp);
                    assert(pc[i] == pcp[i]);
                    assert(cost_le(Some(pcp[i]), b));
                },
            }
        }
    }
}

} // verus!
