//! The distribution over states from which the entropy of each step is taken.
//!
//! A walk is in one state. What it has produced so far is uncertain, and the
//! measure of that is the distribution over all the states in which a walk can
//! be after the same number of steps. The estimator keeps this distribution as
//! a quantized table over states and moves it on by one step at a time: the
//! share of each state flows along the transitions out of it, in proportion to
//! the widths of their intervals, and the share of a state without a way out
//! flows back to the start state, where a walk that is wrapped to restart goes
//! on. The widths of the intervals of the new distribution are what the
//! entropy of the step is computed from.

use crate::bigram::{
    find_state, is_model, outgoing, state_text, text, BigramModel, BigramState, DistView, ModelView,
    StateView, TableView,
};
use crate::table::{
    from_aggregate, increasing, is_table, lemma_mass_add, lemma_mass_insert, lemma_mass_update,
    lemma_quantize_is_table, lemma_relabel_is_table, lemma_rename_quantize, lemma_rename_weights,
    lemma_span, mass, quantize, relabel, rename, span, weighted, width, QuantizedTable, SAMPLE_MAX,
};
use crate::tally::{
    credit, keys, lemma_position_bounds, lemma_tally_mass, lemma_tally_push, position, tally,
};
use vstd::prelude::*;

verus! {

/// The number of points of the sample space: the weight with which a state
/// without a way out hands its share back to the start state.
pub const SAMPLE_POINTS: u64 = 256;

/// The first `n` weighted successors along the transitions of `table`, for a
/// state that holds `share`: the state after each token, weighted with
/// the share times the width of the token's interval.
pub open spec fn spread(table: TableView, share: int, n: int) -> Seq<(StateView, nat)> {
    Seq::new(n as nat, |j: int| (Some(table[j].1), (share * width(table, j)) as nat))
}

/// The weighted successors of `state` when it holds `share`: along each
/// transition out of it, or the start state with the whole share times 256 if
/// there is no way out.
pub open spec fn flow(model: ModelView, state: StateView, share: int) -> Seq<(StateView, nat)> {
    match outgoing(model, state) {
        Some(table) => spread(table, share, table.len() as int),
        None => seq![(None, (share * 256) as nat)],
    }
}

/// The weighted successors of the first `n` states of the distribution `dist`,
/// in the order of the distribution.
pub open spec fn flows(model: ModelView, dist: DistView, n: int) -> Seq<(StateView, nat)>
    decreases n,
{
    if n <= 0 {
        Seq::empty()
    } else {
        flows(model, dist, n - 1) + flow(model, dist[n - 1].1, width(dist, n - 1))
    }
}

/// The distribution one step after `dist`: the table of the weights that flow
/// into each state.
pub open spec fn advance(model: ModelView, dist: DistView) -> DistView {
    quantize(tally(flows(model, dist, dist.len() as int)))
}

/// The distribution in which a walk begins: the start state for certain.
pub open spec fn initial() -> DistView {
    seq![(SAMPLE_MAX, None)]
}

/// The view of a list of states with their weights.
pub open spec fn sums_view(list: Seq<(BigramState, u64)>) -> Seq<(StateView, nat)> {
    rename(weighted(list), state_text())
}

/// The view of a distribution that is held as a table of states.
pub open spec fn dist_view(states: Seq<(u8, BigramState)>) -> DistView {
    relabel(states, state_text())
}

/// Adds `weight` to the sum of `state`.
fn add_weight(list: &mut Vec<(BigramState, u64)>, state: BigramState, weight: u64)
    requires
        mass(sums_view(old(list)@)) + weight <= u64::MAX,
    ensures
        sums_view(final(list)@) == credit(sums_view(old(list)@), state@, weight as nat),
{
    let ghost before = sums_view(list@);
    let i = find_state(list, &state);
    proof {
        assert(keys(list@).map_values(state_text()) =~= keys(before));
        lemma_position_bounds(keys(before), state@);
    }
    if i < list.len() {
        proof {
            lemma_mass_update(before, i as int, (state@, 0nat));
            assert(keys(before)[i as int] == state@);
        }
        list[i].1 += weight;
        proof {
            assert(sums_view(list@) =~= before.update(
                i as int,
                (state@, before[i as int].1 + weight as nat),
            ));
        }
    } else {
        list.push((state, weight));
        proof {
            assert(sums_view(list@) =~= before.push((state@, weight as nat)));
        }
    }
}

/// The distribution one step after `states`.
///
/// The share of each state, the width of its interval, flows on: along each
/// transition out of the state with the share times the width of the
/// transition's interval, or, where there is no way out, back to the start
/// state with the share times 256. What flows into a state is added up, in the
/// order in which the states are reached, and the sums become the new table.
pub fn advance_states(model: &BigramModel, states: &QuantizedTable<BigramState>) -> (next:
    QuantizedTable<BigramState>)
    ensures
        dist_view(next@) == advance(model@, dist_view(states@)),
        is_table(dist_view(next@)),
        next@.len() > 0 <==> states@.len() > 0,
        next@.len() > 0 ==> span(dist_view(next@), next@.len() as int) == 255,
{
    let ghost model_seq = model@;
    let ghost dist = dist_view(states@);
    let n = states.len();
    proof {
        use_type_invariant(model);
        use_type_invariant(states);
        lemma_relabel_is_table(states@, state_text());
        if n > 0 {
            lemma_advance(model_seq, dist);
        }
    }
    let mut nexts: Vec<(BigramState, u64)> = Vec::new();
    let mut i: usize = 0;
    proof {
        assert(sums_view(nexts@) =~= tally(flows(model_seq, dist, 0)));
    }
    while i < n
        invariant
            i <= n,
            n == states@.len(),
            model_seq == model@,
            dist == dist_view(states@),
            is_model(model_seq),
            is_table(dist),
            is_table(states@),
            sums_view(nexts@) == tally(flows(model_seq, dist, i as int)),
        decreases n - i,
    {
        let share = states.width(i) as u64;
        let state = states.outcome(i);
        let ghost done = flows(model_seq, dist, i as int);
        let ghost out = flow(model_seq, dist[i as int].1, width(dist, i as int));
        proof {
            assert(width(dist, i as int) == width(states@, i as int));
            assert(dist[i as int].1 == state@);
            lemma_flows_mass(model_seq, dist, i as int);
            lemma_flows_mass(model_seq, dist, i as int + 1);
            lemma_span(dist, i as int);
            lemma_tally_mass(done);
            lemma_mass_add(done, out);
        }
        match model.outgoing(state) {
            Some(transition) => {
                let m = transition.0.len();
                let ghost table = transition@;
                let mut j: usize = 0;
                proof {
                    lemma_relabel_is_table(transition.0@, text());
                    assert(done + spread(table, share as int, 0) =~= done);
                }
                while j < m
                    invariant
                        j <= m,
                        m == table.len(),
                        table == transition@,
                        is_table(table),
                        is_table(transition.0@),
                        0 <= share <= 255,
                        out == spread(table, share as int, m as int),
                        mass(done) + mass(out) <= 255 * 256,
                        sums_view(nexts@) == tally(done + spread(table, share as int, j as int)),
                    decreases m - j,
                {
                    let reach = transition.0.width(j) as u64;
                    let token = transition.0.outcome(j).clone();
                    let ghost part = spread(table, share as int, j as int);
                    let ghost item = (Some(table[j as int].1), (share * reach) as nat);
                    proof {
                        assert(width(table, j as int) == width(transition.0@, j as int));
                        lemma_span(table, j as int);
                        assert(0 <= share * reach <= 255 * 255) by (nonlinear_arith)
                            requires
                                0 <= share <= 255,
                                0 <= reach <= 255,
                        ;
                        assert(spread(table, share as int, j as int + 1) =~= part.push(item));
                        assert(done + part.push(item) =~= (done + part).push(item));
                        lemma_tally_push(done + part, item.0, item.1);
                        lemma_tally_mass(done + part);
                        lemma_mass_add(done, part);
                        lemma_spread_mass(table, share as int, j as int);
                        lemma_spread_mass(table, share as int, j as int + 1);
                        lemma_spread_mass(table, share as int, m as int);
                        lemma_span(table, m as int);
                        lemma_span(table, j as int + 1);
                        if j + 1 < m {
                            assert(table[j as int].0 < table[m as int - 1].0);
                        }
                        assert(share * span(table, j as int + 1) <= share * span(table, m as int))
                            by (nonlinear_arith)
                            requires
                                0 <= share,
                                span(table, j as int + 1) <= span(table, m as int),
                        ;
                        lemma_mass_insert(part, part.len() as int, item);
                        assert(part.insert(part.len() as int, item) =~= part.push(item));
                    }
                    add_weight(&mut nexts, BigramState::after(token), share * reach);
                    j += 1;
                }
            },
            None => {
                proof {
                    let item = (StateView::None, (share * 256) as nat);
                    assert(out =~= seq![item]);
                    assert(done + out =~= done.push(item));
                    lemma_tally_push(done, item.0, item.1);
                    lemma_flow_mass(model_seq, dist[i as int].1, width(dist, i as int));
                }
                add_weight(&mut nexts, BigramState::start(), share * SAMPLE_POINTS);
            },
        }
        i += 1;
    }
    proof {
        lemma_rename_weights(weighted(nexts@), state_text(), 0);
        lemma_rename_quantize(weighted(nexts@), state_text());
        if n == 0 {
            assert(tally(flows(model_seq, dist, 0)) =~= Seq::empty());
            assert(nexts@.len() == sums_view(nexts@).len());
        }
    }
    let next = from_aggregate(nexts);
    proof {
        lemma_relabel_is_table(next@, state_text());
        lemma_span(dist_view(next@), next@.len() as int);
    }
    next
}

/// The distribution over the states of a walk, kept in step with it.
pub struct BigramEntropyEstimator<'a> {
    model: &'a BigramModel,
    states: QuantizedTable<BigramState>,
}

impl<'a> BigramEntropyEstimator<'a> {
    #[verifier::type_invariant]
    spec fn valid(&self) -> bool {
        self.states@.len() > 0
    }

    /// The content of the model over which the distribution moves.
    pub closed spec fn model(&self) -> ModelView {
        self.model@
    }

    /// The distribution: the entries `(key, state)` of its table.
    pub closed spec fn states(&self) -> DistView {
        dist_view(self.states@)
    }

    /// The estimator before the first step: the walk is in the start state.
    pub fn new(model: &'a BigramModel) -> (estimator: Self)
        ensures
            estimator.model() == model@,
            estimator.states() == initial(),
    {
        let states = QuantizedTable::certain(BigramState::start());
        proof {
            assert(dist_view(states@) =~= initial());
        }
        BigramEntropyEstimator { model, states }
    }

    /// Moves the distribution on by one step and gives the widths of the
    /// intervals of the new distribution, in key order. There is at least one
    /// interval, and the widths add up to 255.
    pub fn next(&mut self) -> (widths: Vec<u8>)
        ensures
            final(self).model() == old(self).model(),
            final(self).states() == advance(old(self).model(), old(self).states()),
            is_table(final(self).states()),
            widths@.len() == final(self).states().len() > 0,
            forall|i: int| 0 <= i < widths@.len() ==> widths@[i] == width(final(self).states(), i),
            span(final(self).states(), widths@.len() as int) == 255,
    {
        proof {
            use_type_invariant(&*self);
        }
        self.states = advance_states(self.model, &self.states);
        let widths = self.states.widths();
        proof {
            assert forall|k: int| 0 <= k < widths@.len() implies widths@[k] == width(
                self.states(),
                k,
            ) by {
                assert(width(self.states(), k) == width(self.states@, k));
            }
        }
        widths
    }
}

/// Along the first `n` transitions of a table flows the share times the span
/// of their intervals.
pub proof fn lemma_spread_mass(table: TableView, share: int, n: int)
    requires
        increasing(table),
        0 <= n <= table.len(),
        0 <= share,
    ensures
        mass(spread(table, share, n)) == share * span(table, n),
    decreases n,
{
    if n > 0 {
        lemma_spread_mass(table, share, n - 1);
        lemma_span(table, n);
        assert(spread(table, share, n).drop_last() =~= spread(table, share, n - 1));
        assert(share * span(table, n) == share * span(table, n - 1) + share * width(
            table,
            n - 1,
        )) by (nonlinear_arith)
            requires
                span(table, n) == span(table, n - 1) + width(table, n - 1),
        ;
        assert(0 <= share * width(table, n - 1)) by (nonlinear_arith)
            requires
                0 <= share,
                0 <= width(table, n - 1),
        ;
    } else {
        assert(share * 0 == 0) by (nonlinear_arith);
    }
}

/// Out of a state flows 255 or 256 times its share: all of it goes on, along
/// the transitions or back to the start.
pub proof fn lemma_flow_mass(model: ModelView, state: StateView, share: int)
    requires
        is_model(model),
        0 <= share,
    ensures
        share * 255 <= mass(flow(model, state, share)) <= share * 256,
{
    match outgoing(model, state) {
        Some(table) => {
            lemma_position_bounds(keys(model), state);
            let i = position(keys(model), state);
            assert(table == model[i].1);
            lemma_spread_mass(table, share, table.len() as int);
            lemma_span(table, table.len() as int);
        },
        None => {
            let only = seq![(StateView::None, (share * 256) as nat)];
            assert(only.drop_last() =~= Seq::empty());
            assert(mass(only.drop_last()) == 0);
            assert(mass(only) == share * 256);
        },
    }
}

/// Out of the first `n` states of a distribution flows between 255 and 256
/// times what they hold.
pub proof fn lemma_flows_mass(model: ModelView, dist: DistView, n: int)
    requires
        is_model(model),
        increasing(dist),
        0 <= n <= dist.len(),
    ensures
        span(dist, n) * 255 <= mass(flows(model, dist, n)) <= span(dist, n) * 256,
        0 <= span(dist, n) <= 255,
    decreases n,
{
    lemma_span(dist, n);
    if n > 0 {
        lemma_flows_mass(model, dist, n - 1);
        lemma_flow_mass(model, dist[n - 1].1, width(dist, n - 1));
        lemma_mass_add(flows(model, dist, n - 1), flow(model, dist[n - 1].1, width(dist, n - 1)));
    }
}

/// A distribution stays a distribution: one step after a non-empty table
/// stands a non-empty table again.
pub proof fn lemma_advance(model: ModelView, dist: DistView)
    requires
        is_model(model),
        is_table(dist),
        dist.len() > 0,
    ensures
        is_table(advance(model, dist)),
        advance(model, dist).len() > 0,
        255 * 255 <= mass(tally(flows(model, dist, dist.len() as int))) <= 255 * 256,
{
    let all = flows(model, dist, dist.len() as int);
    lemma_flows_mass(model, dist, dist.len() as int);
    lemma_span(dist, dist.len() as int);
    lemma_tally_mass(all);
    if tally(all).len() == 0 {
        assert(mass(tally(all)) == 0);
    }
    lemma_quantize_is_table(tally(all));
}

} // verus!
