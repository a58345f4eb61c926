//! Tabular Markov decision processes solved by policy iteration.
//!
//! A [`models::SystemState`] is built from a list of transition links; an
//! [`Agent`] holds a policy and a value table over it, evaluates the policy by
//! synchronous sweeps and improves it greedily. All numbers are fixed point
//! (see [`fixed`]).
use vstd::prelude::*;

pub mod fixed;
pub mod helper;
pub mod models;

use crate::fixed::{add_spec, clamp, fx_add, fx_dist, fx_mul, lemma_mul_unit, mul_spec, SCALE};
use crate::helper::{
    at_or_zero, best_index, first_max, first_max_index, gather, gathered, index_of, label_less,
    lemma_best_index, lemma_first_max, prefers,
    lemma_max_change_same, match_mul_sum, max_change, max_distance, weighted_sum,
};
use crate::models::{
    dests_of, edge_key, expected_reward, ids_of, labels_of, lemma_edge_map_entries,
    lemma_ids_distinct, lemma_sink_state, link_map, prob_to, state_built, uniform_prob, Edge,
    ModelState, StateLink, SystemState,
};

verus! {

/// The policy row of state `i`; empty where the policy has none.
pub open spec fn row(pol: Seq<Seq<i64>>, i: int) -> Seq<i64> {
    if 0 <= i < pol.len() {
        pol[i]
    } else {
        Seq::empty()
    }
}

/// Expected immediate reward of a state under the policy row `p`.
pub open spec fn static_reward(p: Seq<i64>, st: ModelState) -> i64 {
    weighted_sum(p, st.expected_rewards())
}

/// Probability of reaching each destination of a state (by destination
/// index) under the policy row `p`.
pub open spec fn policy_transitions(p: Seq<i64>, st: ModelState) -> Seq<i64> {
    Seq::new(st.inbound_dests().len(), |j: int| weighted_sum(p, st.inbound_probs()[j]))
}

/// The value of state `x` in the table `v` laid out along `ids`; zero for an
/// id that is not a state.
pub open spec fn value_of(ids: Seq<i64>, v: Seq<i64>, x: i64) -> i64 {
    if ids.contains(x) {
        at_or_zero(v, ids.index_of(x))
    } else {
        0
    }
}

/// The values of a state's destinations, by destination index.
pub open spec fn dest_values(ids: Seq<i64>, st: ModelState, v: Seq<i64>) -> Seq<i64> {
    Seq::new(st.inbound_dests().len(), |j: int| value_of(ids, v, st.inbound_dests()[j]))
}

/// One Bellman expectation update of a state under the policy row `p`.
pub open spec fn backup(gamma: i64, p: Seq<i64>, st: ModelState, ids: Seq<i64>, v: Seq<i64>) -> i64 {
    add_spec(
        static_reward(p, st),
        mul_spec(gamma, weighted_sum(policy_transitions(p, st), dest_values(ids, st, v))),
    )
}

/// One synchronous sweep: every state updated from the same table `v`.
pub open spec fn sweep(
    gamma: i64,
    pol: Seq<Seq<i64>>,
    sts: Seq<ModelState>,
    ids: Seq<i64>,
    v: Seq<i64>,
) -> Seq<i64> {
    Seq::new(sts.len(), |i: int| backup(gamma, row(pol, i), sts[i], ids, v))
}

/// Policy evaluation from the table `v`: sweeps until one changes the table
/// by less than `eps`, or `n` sweeps have run.
pub open spec fn evaluation(
    gamma: i64,
    eps: i64,
    pol: Seq<Seq<i64>>,
    sts: Seq<ModelState>,
    ids: Seq<i64>,
    v: Seq<i64>,
    n: nat,
) -> Seq<i64>
    decreases n,
{
    if n == 0 {
        v
    } else {
        let w = sweep(gamma, pol, sts, ids, v);
        if max_change(w, v) < eps {
            w
        } else {
            evaluation(gamma, eps, pol, sts, ids, w, (n - 1) as nat)
        }
    }
}

/// The uniform random policy over the states `sts`.
pub open spec fn uniform_policy(sts: Seq<ModelState>) -> Seq<Seq<i64>> {
    Seq::new(
        sts.len(),
        |i: int| Seq::new(sts[i].labels().len(), |a: int| uniform_prob(sts[i].labels().len())),
    )
}

/// Probability of reaching each destination of a state (by destination
/// index) by action `a`.
pub open spec fn column(st: ModelState, a: int) -> Seq<i64> {
    Seq::new(st.inbound_dests().len(), |j: int| st.inbound_probs()[j][a])
}

/// The value of each action of a state: its expected reward plus the
/// discounted value of where it leads.
pub open spec fn action_values(gamma: i64, st: ModelState, ids: Seq<i64>, v: Seq<i64>) -> Seq<
    i64,
> {
    Seq::new(
        st.labels().len(),
        |a: int|
            add_spec(
                st.expected_rewards()[a],
                mul_spec(gamma, weighted_sum(column(st, a), dest_values(ids, st, v))),
            ),
    )
}

/// The greedy action of a state: the action of largest value, the one whose
/// label comes first on ties; none for a state without actions.
pub open spec fn best_action(gamma: i64, st: ModelState, ids: Seq<i64>, v: Seq<i64>) -> Option<int> {
    if st.labels().len() == 0 {
        None
    } else {
        Some(best_index(action_values(gamma, st, ids, v), st.labels()))
    }
}

/// The deterministic policy row over `k` actions that takes action `a`.
pub open spec fn one_hot(k: nat, a: Option<int>) -> Seq<i64> {
    Seq::new(
        k,
        |b: int|
            if a == Some(b) {
                SCALE
            } else {
                0
            },
    )
}

/// The greedy deterministic policy for the value table `v`.
pub open spec fn greedy_policy(
    gamma: i64,
    sts: Seq<ModelState>,
    ids: Seq<i64>,
    v: Seq<i64>,
) -> Seq<Seq<i64>> {
    Seq::new(sts.len(), |i: int| one_hot(sts[i].labels().len(), best_action(gamma, sts[i], ids, v)))
}

/// Up to `n` rounds of greedy improvement, each followed by an evaluation of
/// at most `EVAL_SWEEPS` sweeps; stops after a round that changes no value by
/// `eps` or more.
pub open spec fn improve_rounds(
    gamma: i64,
    eps: i64,
    sts: Seq<ModelState>,
    ids: Seq<i64>,
    pol: Seq<Seq<i64>>,
    v: Seq<i64>,
    n: nat,
) -> (Seq<Seq<i64>>, Seq<i64>)
    decreases n,
{
    if n == 0 {
        (pol, v)
    } else {
        let greedy = greedy_policy(gamma, sts, ids, v);
        let next_values = evaluation(gamma, eps, greedy, sts, ids, v, EVAL_SWEEPS as nat);
        if max_change(next_values, v) < eps {
            (greedy, next_values)
        } else {
            improve_rounds(gamma, eps, sts, ids, greedy, next_values, (n - 1) as nat)
        }
    }
}

/// Sweep cap of the evaluation that follows each improvement round.
pub const EVAL_SWEEPS: u32 = 100;

/// The agent: a built system model, a policy (state index, then action index,
/// to probability) and a value table (by state index).
pub struct Agent {
    system_state: SystemState,
    policy: Vec<Vec<i64>>,
    policy_evaluation: Vec<i64>,
}

impl Agent {
    pub closed spec fn system(&self) -> SystemState {
        self.system_state
    }

    pub closed spec fn policy_view(&self) -> Seq<Seq<i64>> {
        self.policy@.map_values(|r: Vec<i64>| r@)
    }

    pub closed spec fn values(&self) -> Seq<i64> {
        self.policy_evaluation@
    }

    /// The per-state models of the agent's system.
    pub open spec fn states(&self) -> Seq<ModelState> {
        self.system().state_seq()
    }

    /// The state ids of the agent's system, by state index.
    pub open spec fn ids(&self) -> Seq<i64> {
        ids_of(self.system().links())
    }

    pub open spec fn wf(&self) -> bool {
        &&& self.system().built()
        &&& self.values().len() == self.states().len()
    }

    /// The action the policy favours in state `id` (the first of largest
    /// probability) and its probability; none for an unknown id, an empty
    /// policy row, or a row longer than the state's action list.
    pub open spec fn policy_choice(&self, id: i64) -> Option<(Seq<char>, i64)> {
        if !self.ids().contains(id) {
            None
        } else {
            let i = self.ids().index_of(id);
            let p = row(self.policy_view(), i);
            if p.len() == 0 {
                None
            } else {
                let a = first_max(p);
                if a < self.states()[i].labels().len() {
                    Some((self.states()[i].labels()[a], p[a]))
                } else {
                    None
                }
            }
        }
    }

    /// An agent with the uniform random policy and a value table of zeros.
    pub fn init_random(system_state: SystemState) -> (r: Agent)
        requires
            system_state.built(),
        ensures
            r.wf(),
            r.system() == system_state,
            r.policy_view() == uniform_policy(system_state.state_seq()),
            r.values() == Seq::new(system_state.state_seq().len(), |i: int| 0i64),
    {
        let ghost sts = system_state.state_seq();
        let mut policy: Vec<Vec<i64>> = Vec::new();
        let mut values: Vec<i64> = Vec::new();
        let n: usize = system_state.get_all_states().len();
        let mut i: usize = 0;
        while i < n
            invariant
                n == sts.len(),
                sts == system_state.state_seq(),
                i <= n,
                policy@.len() == i,
                values@.len() == i,
                forall|j: int| 0 <= j < i ==> #[trigger] values@[j] == 0,
                forall|j: int|
                    0 <= j < i ==> (#[trigger] policy@[j])@ == uniform_policy(sts)[j],
            decreases n - i,
        {
            let p = system_state.get_all_states()[i].get_random_policy();
            proof {
                assert(p@ =~= uniform_policy(sts)[i as int]);
            }
            policy.push(p);
            values.push(0);
            i = i + 1;
        }
        let r = Agent { system_state, policy, policy_evaluation: values };
        proof {
            assert(r.policy_view() =~= uniform_policy(sts));
            assert(r.values() =~= Seq::new(sts.len(), |i: int| 0i64));
        }
        r
    }

    /// The index of each destination of `st` in `ids`, or `ids.len()` for a
    /// destination that is not a state.
    fn dest_keys(st: &ModelState, ids: &Vec<i64>) -> (r: Vec<usize>)
        requires
            ids@.no_duplicates(),
        ensures
            r@.len() == st.inbound_dests().len(),
            forall|v: Seq<i64>|
                v.len() == ids@.len() ==> #[trigger] gathered(r@, v) == dest_values(ids@, *st, v),
    {
        let dests = st.get_eval_dests();
        let mut r: Vec<usize> = Vec::new();
        let mut j: usize = 0;
        while j < dests.len()
            invariant
                ids@.no_duplicates(),
                dests@ == st.inbound_dests(),
                j <= dests@.len(),
                r@.len() == j,
                forall|k: int|
                    0 <= k < j ==> (ids@.contains(dests@[k]) ==> #[trigger] r@[k] as int
                        == ids@.index_of(dests@[k])) && (!ids@.contains(dests@[k]) ==> r@[k]
                        == ids@.len()),
            decreases dests@.len() - j,
        {
            match index_of(ids, dests[j]) {
                Some(i) => {
                    proof {
                        assert(ids@.contains(dests@[j as int]));
                        let c = ids@.index_of(dests@[j as int]);
                        assert(0 <= c < ids@.len() && ids@[c] == dests@[j as int]);
                        assert(c == i as int);
                    }
                    r.push(i);
                },
                None => {
                    r.push(ids.len());
                },
            }
            j = j + 1;
        }
        proof {
            assert forall|v: Seq<i64>| v.len() == ids@.len() implies #[trigger] gathered(r@, v)
                == dest_values(ids@, *st, v) by {
                assert forall|k: int| 0 <= k < r@.len() implies gathered(r@, v)[k] == dest_values(
                    ids@,
                    *st,
                    v,
                )[k] by {
                    if ids@.contains(dests@[k]) {
                        let c = ids@.index_of(dests@[k]);
                        assert(0 <= c < ids@.len() && ids@[c] == dests@[k]);
                    }
                }
                assert(gathered(r@, v) =~= dest_values(ids@, *st, v));
            }
        }
        r
    }

    /// Evaluates the current policy: synchronous sweeps of the Bellman
    /// expectation update with discount `gamma`, until a sweep changes no value
    /// by `epsilon` or more, or `n_iter` sweeps have run. The result replaces
    /// the value table.
    pub fn evaluate_policy(&mut self, gamma: i64, epsilon: i64, n_iter: u32)
        requires
            old(self).wf(),
        ensures
            final(self).wf(),
            final(self).system() == old(self).system(),
            final(self).policy_view() == old(self).policy_view(),
            final(self).values() == evaluation(
                gamma,
                epsilon,
                old(self).policy_view(),
                old(self).states(),
                old(self).ids(),
                old(self).values(),
                n_iter as nat,
            ),
    {
        let ghost pol = self.policy_view();
        let ghost sts = self.states();
        let ghost gids = self.ids();
        let ghost v0 = self.values();
        proof {
            lemma_ids_distinct(self.system().links());
        }
        let ids = self.system_state.state_ids();
        let states = self.system_state.get_all_states();
        let n: usize = states.len();
        let empty: Vec<i64> = Vec::new();
        let mut statics: Vec<i64> = Vec::new();
        let mut trans: Vec<Vec<i64>> = Vec::new();
        let mut keys: Vec<Vec<usize>> = Vec::new();
        let mut i: usize = 0;
        while i < n
            invariant
                n == sts.len(),
                states@ == sts,
                ids@ == gids,
                gids.no_duplicates(),
                pol == self.policy_view(),
                pol.len() == self.policy@.len(),
                empty@.len() == 0,
                self.system().built(),
                sts == self.system().state_seq(),
                gids == ids_of(self.system().links()),
                i <= n,
                statics@.len() == i,
                trans@.len() == i,
                keys@.len() == i,
                forall|k: int|
                    0 <= k < i ==> #[trigger] statics@[k] == static_reward(row(pol, k), sts[k]),
                forall|k: int|
                    0 <= k < i ==> (#[trigger] trans@[k])@ == policy_transitions(
                        row(pol, k),
                        sts[k],
                    ),
                forall|k: int|
                    0 <= k < i ==> (#[trigger] keys@[k])@.len() == sts[k].inbound_dests().len(),
                forall|k: int, v: Seq<i64>|
                    0 <= k < i && v.len() == gids.len() ==> #[trigger] gathered(keys@[k]@, v)
                        == dest_values(gids, sts[k], v),
            decreases n - i,
        {
            let st = &states[i];
            let p: &Vec<i64> = if i < self.policy.len() {
                &self.policy[i]
            } else {
                &empty
            };
            proof {
                if i < self.policy@.len() {
                    assert(p@ == pol[i as int]);
                } else {
                    assert(p@ =~= Seq::<i64>::empty());
                }
                assert(p@ == row(pol, i as int));
            }
            statics.push(match_mul_sum(p, st.get_eval_rewards()));
            let probs = st.get_eval_probs();
            let mut t: Vec<i64> = Vec::new();
            let mut j: usize = 0;
            while j < probs.len()
                invariant
                    probs@.len() == st.inbound_probs().len(),
                    forall|q: int| 0 <= q < probs@.len() ==> (#[trigger] probs@[q])@ == st.inbound_probs()[q],
                    j <= probs@.len(),
                    t@.len() == j,
                    forall|q: int| 0 <= q < j ==> #[trigger] t@[q] == weighted_sum(p@, st.inbound_probs()[q]),
                decreases probs@.len() - j,
            {
                t.push(match_mul_sum(p, &probs[j]));
                j = j + 1;
            }
            proof {
                assert(st.caches_ok()) by {
                    assert(state_built(sts[i as int], self.system().links(), gids[i as int]));
                }
                assert(t@ =~= policy_transitions(row(pol, i as int), sts[i as int]));
            }
            trans.push(t);
            keys.push(Self::dest_keys(st, &ids));
            i = i + 1;
        }
        let mut count: u32 = 0;
        let mut done: bool = false;
        while count < n_iter && !done
            invariant
                n == sts.len(),
                ids@ == gids,
                statics@.len() == n,
                trans@.len() == n,
                keys@.len() == n,
                forall|k: int|
                    0 <= k < n ==> #[trigger] statics@[k] == static_reward(row(pol, k), sts[k]),
                forall|k: int|
                    0 <= k < n ==> (#[trigger] trans@[k])@ == policy_transitions(
                        row(pol, k),
                        sts[k],
                    ),
                forall|k: int, v: Seq<i64>|
                    0 <= k < n && v.len() == gids.len() ==> #[trigger] gathered(keys@[k]@, v)
                        == dest_values(gids, sts[k], v),
                gids.len() == n,
                self.system() == old(self).system(),
                self.policy_view() == pol,
                self.values().len() == n,
                count <= n_iter,
                done ==> self.values() == evaluation(gamma, epsilon, pol, sts, gids, v0, n_iter as nat),
                !done ==> evaluation(gamma, epsilon, pol, sts, gids, v0, n_iter as nat)
                    == evaluation(gamma, epsilon, pol, sts, gids, self.values(), (n_iter - count) as nat),
            decreases n_iter - count,
        {
            let ghost cur = self.values();
            let mut next: Vec<i64> = Vec::new();
            let mut delta: i64 = 0;
            let mut i: usize = 0;
            while i < n
                invariant
                    n == sts.len(),
                    statics@.len() == n,
                    trans@.len() == n,
                    keys@.len() == n,
                    forall|k: int|
                        0 <= k < n ==> #[trigger] statics@[k] == static_reward(row(pol, k), sts[k]),
                    forall|k: int|
                        0 <= k < n ==> (#[trigger] trans@[k])@ == policy_transitions(
                            row(pol, k),
                            sts[k],
                        ),
                    forall|k: int, v: Seq<i64>|
                        0 <= k < n && v.len() == gids.len() ==> #[trigger] gathered(keys@[k]@, v)
                            == dest_values(gids, sts[k], v),
                    gids.len() == n,
                    self.values() == cur,
                    cur.len() == n,
                    i <= n,
                    next@ == sweep(gamma, pol, sts, gids, cur).take(i as int),
                    delta == clamp(max_change(next@, cur)),
                decreases n - i,
            {
                let vals = gather(&keys[i], &self.policy_evaluation);
                let fut: i64 = match_mul_sum(&trans[i], &vals);
                let x: i64 = fx_add(statics[i], fx_mul(gamma, fut));
                let d: i64 = fx_dist(x, self.policy_evaluation[i]);
                proof {
                    assert(x == sweep(gamma, pol, sts, gids, cur)[i as int]);
                    let nx = next@.push(x);
                    assert(nx.drop_last() =~= next@);
                    assert(nx.last() == x);
                    assert(at_or_zero(cur, nx.len() - 1) == cur[i as int]);
                }
                if d > delta {
                    delta = d;
                }
                next.push(x);
                i = i + 1;
                proof {
                    assert(next@ =~= sweep(gamma, pol, sts, gids, cur).take(i as int));
                }
            }
            proof {
                assert(next@ =~= sweep(gamma, pol, sts, gids, cur));
            }
            self.policy_evaluation = next;
            count = count + 1;
            if delta < epsilon {
                done = true;
            }
        }
    }

    fn best_action_among(&self, st: &ModelState, ids: &Vec<i64>, gamma: i64) -> (r: Option<usize>)
        requires
            self.wf(),
            st.wf(),
            st.caches_ok(),
            ids@ == self.ids(),
        ensures
            match r {
                None => best_action(gamma, *st, self.ids(), self.values()) == None::<int>,
                Some(a) => best_action(gamma, *st, self.ids(), self.values()) == Some(a as int),
            },
    {
        proof {
            lemma_ids_distinct(self.system().links());
        }
        let rewards = st.get_eval_rewards();
        let k: usize = rewards.len();
        if k == 0 {
            return None;
        }
        let probs = st.get_eval_probs();
        let keys = Self::dest_keys(st, ids);
        let vals = gather(&keys, &self.policy_evaluation);
        let ghost av = action_values(gamma, *st, self.ids(), self.values());
        let mut q: Vec<i64> = Vec::new();
        let mut a: usize = 0;
        while a < k
            invariant
                k == st.labels().len(),
                rewards@ == st.expected_rewards(),
                st.caches_ok(),
                probs@.len() == st.inbound_probs().len(),
                forall|j: int| 0 <= j < probs@.len() ==> (#[trigger] probs@[j])@ == st.inbound_probs()[j],
                vals@ == dest_values(self.ids(), *st, self.values()),
                av == action_values(gamma, *st, self.ids(), self.values()),
                a <= k,
                q@ == av.take(a as int),
            decreases k - a,
        {
            let mut col: Vec<i64> = Vec::new();
            let mut j: usize = 0;
            while j < probs.len()
                invariant
                    k == st.labels().len(),
                    st.caches_ok(),
                    a < k,
                    probs@.len() == st.inbound_probs().len(),
                    forall|q: int| 0 <= q < probs@.len() ==> (#[trigger] probs@[q])@ == st.inbound_probs()[q],
                    j <= probs@.len(),
                    col@ == column(*st, a as int).take(j as int),
                decreases probs@.len() - j,
            {
                proof {
                    assert(probs@[j as int]@.len() == k);
                }
                col.push(probs[j][a]);
                j = j + 1;
                proof {
                    assert(col@ =~= column(*st, a as int).take(j as int));
                }
            }
            proof {
                assert(col@ =~= column(*st, a as int));
            }
            let fut: i64 = match_mul_sum(&col, &vals);
            q.push(fx_add(rewards[a], fx_mul(gamma, fut)));
            a = a + 1;
            proof {
                assert(q@ =~= av.take(a as int));
            }
        }
        proof {
            assert(q@ =~= av);
        }
        let labels = st.get_actions();
        let ghost lv = st.labels();
        let mut b: usize = 0;
        let mut i: usize = 1;
        while i < k
            invariant
                k == q@.len(),
                k == lv.len(),
                labels@.len() == k,
                forall|j: int| 0 <= j < k ==> (#[trigger] labels@[j])@ == lv[j],
                1 <= i <= k,
                b < i,
                b as int == best_index(q@.take(i as int), lv),
            decreases k - i,
        {
            proof {
                assert(labels@.map_values(|s: String| s@)[i as int] == lv[i as int]);
                assert(labels@.map_values(|s: String| s@)[b as int] == lv[b as int]);
                let t = q@.take(i as int + 1);
                assert(t.drop_last() =~= q@.take(i as int));
                assert(t[i as int] == q@[i as int] && t[b as int] == q@[b as int]);
            }
            if q[i] > q[b] || (q[i] == q[b] && label_less(&labels[i], &labels[b])) {
                b = i;
            }
            i = i + 1;
        }
        proof {
            assert(q@.take(k as int) =~= q@);
        }
        Some(b)
    }

    /// The greedy action of `state` under the current value table and
    /// discount `gamma`: the action maximising expected reward plus discounted
    /// value of its destinations, the one whose label comes first on ties;
    /// none for a state without actions.
    pub fn calc_best_action(&self, state: &ModelState, gamma: i64) -> (r: Option<usize>)
        requires
            self.wf(),
            state.wf(),
            state.caches_ok(),
        ensures
            match r {
                None => best_action(gamma, *state, self.ids(), self.values()) == None::<int>,
                Some(a) => best_action(gamma, *state, self.ids(), self.values()) == Some(a as int),
            },
            r is None <==> state.labels().len() == 0,
            r matches Some(a) ==> {
                let q = action_values(gamma, *state, self.ids(), self.values());
                &&& a < q.len()
                &&& forall|b: int|
                    0 <= b < q.len() && b != a ==> #[trigger] prefers(q, state.labels(), a as int, b)
            },
    {
        let ids = self.system_state.state_ids();
        let r = self.best_action_among(state, &ids, gamma);
        proof {
            if state.labels().len() > 0 {
                lemma_best_index(action_values(gamma, *state, self.ids(), self.values()), state.labels());
            }
        }
        r
    }

    /// The deterministic policy row of `state` that takes `best_action`
    /// (probability `SCALE`) and no other action; all zeros for `None`.
    pub fn calc_best_policy(&self, state: &ModelState, best_action: Option<usize>) -> (r: Vec<i64>)
        requires
            state.caches_ok(),
        ensures
            r@ == one_hot(
                state.labels().len(),
                match best_action {
                    Some(a) => Some(a as int),
                    None => None,
                },
            ),
    {
        let ghost target = match best_action {
            Some(a) => Some(a as int),
            None => None::<int>,
        };
        let k: usize = state.get_eval_rewards().len();
        let mut r: Vec<i64> = Vec::new();
        let mut b: usize = 0;
        while b < k
            invariant
                k == state.labels().len(),
                b <= k,
                target == match best_action {
                    Some(a) => Some(a as int),
                    None => None::<int>,
                },
                r@ == one_hot(k as nat, target).take(b as int),
            decreases k - b,
        {
            let hit: bool = match best_action {
                Some(a) => a == b,
                None => false,
            };
            r.push(if hit { SCALE } else { 0 });
            b = b + 1;
            proof {
                assert(r@ =~= one_hot(k as nat, target).take(b as int));
            }
        }
        proof {
            assert(r@ =~= one_hot(k as nat, target));
        }
        r
    }

    /// Policy iteration: evaluates the current policy (at most `eval_iters`
    /// sweeps), then repeats up to `policy_iters` times: make the policy
    /// greedy for the current values, evaluate it (at most `EVAL_SWEEPS`
    /// sweeps), and stop once no value moved by `epsilon` or more.
    pub fn deterministic_policy_improvement(
        &mut self,
        gamma: i64,
        epsilon: i64,
        policy_iters: u32,
        eval_iters: u32,
    )
        requires
            old(self).wf(),
        ensures
            final(self).wf(),
            final(self).system() == old(self).system(),
            (final(self).policy_view(), final(self).values()) == improve_rounds(
                gamma,
                epsilon,
                old(self).states(),
                old(self).ids(),
                old(self).policy_view(),
                evaluation(
                    gamma,
                    epsilon,
                    old(self).policy_view(),
                    old(self).states(),
                    old(self).ids(),
                    old(self).values(),
                    eval_iters as nat,
                ),
                policy_iters as nat,
            ),
    {
        let ghost sts = self.states();
        let ghost gids = self.ids();
        self.evaluate_policy(gamma, epsilon, eval_iters);
        let ghost goal = improve_rounds(
            gamma,
            epsilon,
            sts,
            gids,
            self.policy_view(),
            self.values(),
            policy_iters as nat,
        );
        let ids = self.system_state.state_ids();
        let n: usize = self.system_state.get_all_states().len();
        let mut count: u32 = 0;
        let mut done: bool = false;
        while count < policy_iters && !done
            invariant
                self.wf(),
                self.system() == old(self).system(),
                sts == self.states(),
                gids == self.ids(),
                ids@ == gids,
                n == sts.len(),
                count <= policy_iters,
                done ==> (self.policy_view(), self.values()) == goal,
                !done ==> goal == improve_rounds(
                    gamma,
                    epsilon,
                    sts,
                    gids,
                    self.policy_view(),
                    self.values(),
                    (policy_iters - count) as nat,
                ),
            decreases policy_iters - count,
        {
            let ghost v = self.values();
            let mut next: Vec<Vec<i64>> = Vec::new();
            let mut i: usize = 0;
            while i < n
                invariant
                    self.wf(),
                    sts == self.states(),
                    gids == self.ids(),
                    ids@ == gids,
                    n == sts.len(),
                    v == self.values(),
                    i <= n,
                    next@.len() == i,
                    forall|k: int|
                        0 <= k < i ==> (#[trigger] next@[k])@ == greedy_policy(gamma, sts, gids, v)[k],
                decreases n - i,
            {
                let st = &self.system_state.get_all_states()[i];
                proof {
                    assert(state_built(sts[i as int], self.system().links(), gids[i as int]));
                }
                let best = self.best_action_among(st, &ids, gamma);
                let p = self.calc_best_policy(st, best);
                next.push(p);
                i = i + 1;
            }
            let old_eval = self.policy_evaluation.clone();
            proof {
                assert(old_eval@ =~= v);
            }
            self.policy = next;
            proof {
                assert(self.policy_view() =~= greedy_policy(gamma, sts, gids, v));
            }
            self.evaluate_policy(gamma, epsilon, EVAL_SWEEPS);
            let diff: i64 = max_distance(&self.policy_evaluation, &old_eval);
            count = count + 1;
            if diff < epsilon {
                done = true;
            }
        }
    }

    /// Replaces the policy (state index, then action index, to probability).
    pub fn set_polity(&mut self, policy: Vec<Vec<i64>>)
        requires
            old(self).wf(),
        ensures
            final(self).wf(),
            final(self).system() == old(self).system(),
            final(self).values() == old(self).values(),
            final(self).policy_view() == policy@.map_values(|r: Vec<i64>| r@),
    {
        self.policy = policy;
    }

    /// The policy: state index, then action index, to probability.
    pub fn get_policy(&self) -> (r: &Vec<Vec<i64>>)
        ensures
            r@.map_values(|r: Vec<i64>| r@) == self.policy_view(),
    {
        &self.policy
    }

    /// The value table, by state index.
    pub fn get_evaluation(&self) -> (r: &Vec<i64>)
        ensures
            r@ == self.values(),
    {
        &self.policy_evaluation
    }

    pub fn get_system_state(&self) -> (r: &SystemState)
        ensures
            *r == self.system(),
    {
        &self.system_state
    }

    /// The action the policy favours in state `state_id`, with its
    /// probability; the first such action on ties; none for an unknown state
    /// or a state whose policy row is empty.
    pub fn get_best_action(&self, state_id: i64) -> (r: Option<(&String, i64)>)
        requires
            self.wf(),
        ensures
            match r {
                None => self.policy_choice(state_id) == None::<(Seq<char>, i64)>,
                Some((l, p)) => self.policy_choice(state_id) == Some((l@, p)),
            },
    {
        proof {
            lemma_ids_distinct(self.system().links());
        }
        let ids = self.system_state.state_ids();
        let i: usize = match index_of(&ids, state_id) {
            Some(i) => i,
            None => {
                return None;
            },
        };
        proof {
            let c = self.ids().index_of(state_id);
            assert(self.ids().contains(state_id));
            assert(0 <= c < self.ids().len() && self.ids()[c] == state_id);
            assert(c == i as int);
        }
        if i >= self.policy.len() {
            return None;
        }
        let p: &Vec<i64> = &self.policy[i];
        proof {
            assert(p@ == row(self.policy_view(), i as int));
        }
        if p.len() == 0 {
            return None;
        }
        let a: usize = first_max_index(p);
        let st = &self.system_state.get_all_states()[i];
        proof {
            assert(state_built(self.states()[i as int], self.system().links(), self.ids()[i as int]));
        }
        if a >= st.get_eval_rewards().len() {
            return None;
        }
        Some((st.action_label(a), p[a]))
    }
}

/// No-action states: a state that no link leaves has no actions, so the
/// uniform and the greedy policy give it an empty row, it has no greedy
/// action, and no policy names an action for it.
pub proof fn lemma_no_action_states(agent: Agent, i: int, gamma: i64)
    requires
        agent.wf(),
        0 <= i < agent.states().len(),
        forall|k: int|
            0 <= k < agent.system().links().len() ==> (#[trigger] agent.system().links()[k]).0
                != agent.ids()[i],
    ensures
        agent.states()[i].labels().len() == 0,
        uniform_policy(agent.states())[i] == Seq::<i64>::empty(),
        greedy_policy(gamma, agent.states(), agent.ids(), agent.values())[i] == Seq::<i64>::empty(),
        best_action(gamma, agent.states()[i], agent.ids(), agent.values()) == None::<int>,
        agent.policy_choice(agent.ids()[i]) == None::<(Seq<char>, i64)>,
{
    let links = agent.system().links();
    let ids = agent.ids();
    assert(state_built(agent.states()[i], links, ids[i]));
    lemma_sink_state(links, ids[i]);
    lemma_ids_distinct(links);
    assert(uniform_policy(agent.states())[i] =~= Seq::<i64>::empty());
    assert(greedy_policy(gamma, agent.states(), ids, agent.values())[i] =~= Seq::<i64>::empty());
    assert(ids.contains(ids[i]));
    let c = ids.index_of(ids[i]);
    assert(c == i);
    if row(agent.policy_view(), i).len() > 0 {
        lemma_first_max(row(agent.policy_view(), i));
    }
}

/// Evaluation at a fixed point: once the value table is an exact fixed point
/// of the sweep, evaluating again with a positive tolerance leaves it
/// unchanged, whatever the sweep cap.
pub proof fn lemma_evaluation_at_fixed_point(
    gamma: i64,
    eps: i64,
    pol: Seq<Seq<i64>>,
    sts: Seq<ModelState>,
    ids: Seq<i64>,
    v: Seq<i64>,
    n: nat,
)
    requires
        eps > 0,
        sweep(gamma, pol, sts, ids, v) == v,
    ensures
        evaluation(gamma, eps, pol, sts, ids, v, n) == v,
{
    if n > 0 {
        lemma_max_change_same(v, v);
    }
}

/// Single action, single reward: in the model of one link from state 0 to
/// state 1 with probability one and reward `r`, evaluating the uniform policy
/// without discount, from a table of zeros, with a positive tolerance and at
/// least one sweep, gives state 0 the value `r` and state 1 the value 0.
pub proof fn lemma_single_action_value(sys: SystemState, r: i64, eps: i64, n: nat)
    requires
        sys.built(),
        sys.links().len() == 1,
        sys.links()[0].0 == 0,
        sys.links()[0].1 == 1,
        sys.links()[0].3 == SCALE,
        sys.links()[0].4 == r,
        eps > 0,
        n >= 1,
    ensures
        ids_of(sys.links()) == seq![0i64, 1i64],
        evaluation(
            SCALE,
            eps,
            uniform_policy(sys.state_seq()),
            sys.state_seq(),
            ids_of(sys.links()),
            seq![0i64, 0i64],
            n,
        ) == seq![r, 0i64],
{
    let links = sys.links();
    let l = links[0];
    let none = Seq::<StateLink>::empty();
    assert(links.drop_last() =~= none);
    assert(links.last() == l);
    let ids = ids_of(links);
    assert(!Seq::<i64>::empty().contains(0i64));
    assert(!seq![0i64].contains(1i64)) by {
        if seq![0i64].contains(1i64) {
            let i = choose|i: int| 0 <= i < 1 && seq![0i64][i] == 1i64;
        }
    }
    assert(ids_of(none) == Seq::<i64>::empty());
    assert(ids_of(links.drop_last()) == Seq::<i64>::empty());
    assert(Seq::<i64>::empty().push(0i64) =~= seq![0i64]);
    assert(ids == seq![0i64].push(1i64));
    assert(ids =~= seq![0i64, 1i64]);
    assert(ids.no_duplicates()) by {
        lemma_ids_distinct(links);
    }
    let sts = sys.state_seq();
    assert(sts.len() == 2);
    let s0 = sts[0];
    let s1 = sts[1];
    assert(state_built(s0, links, 0));
    assert(state_built(s1, links, 1));

    // State 0: one action with one edge.
    assert(labels_of(links.drop_last(), 0) == Seq::<Seq<char>>::empty());
    assert(!Seq::<Seq<char>>::empty().contains(l.2@));
    assert(labels_of(links, 0) =~= seq![l.2@]);
    let key = (l.2@, 1i64);
    assert(link_map(links.drop_last(), 0) == Map::<(Seq<char>, i64), (i64, i64)>::empty());
    assert(link_map(links.drop_last(), 1) == Map::<(Seq<char>, i64), (i64, i64)>::empty());
    assert(link_map(links, 0) == Map::<(Seq<char>, i64), (i64, i64)>::empty().insert(key, (SCALE, r)));
    let ed = s0.edge_list();
    lemma_edge_map_entries(s0.labels(), ed);
    assert(s0.outcomes().dom() =~= Set::<(Seq<char>, i64)>::empty().insert(key));
    assert(ed.len() == 1);
    assert(s0.outcomes().contains_key(edge_key(s0.labels(), ed[0])));
    assert(edge_key(s0.labels(), ed[0]) == key);
    assert(ed[0].action == 0);
    assert(ed[0] == Edge { action: 0, dest: 1, prob: SCALE, reward: r });
    assert(ed.drop_last() =~= Seq::<Edge>::empty());
    lemma_mul_unit(r);
    lemma_mul_unit(SCALE);
    lemma_mul_unit(0);
    assert(ed.last() == ed[0]);
    assert(expected_reward(ed.drop_last(), 0) == 0);
    assert(mul_spec(ed.last().prob, ed.last().reward) == r);
    assert(add_spec(0, r) == r);
    assert(expected_reward(ed, 0) == r);
    assert(s0.expected_rewards()[0] == r);
    assert(dests_of(ed.drop_last()) == Seq::<i64>::empty());
    assert(!Seq::<i64>::empty().contains(1i64));
    assert(dests_of(ed) =~= seq![1i64]);
    assert(prob_to(ed, 0, 1) == SCALE);
    assert(s0.inbound_probs()[0][0] == SCALE);

    // State 1: no actions.
    assert(labels_of(links.drop_last(), 1) == Seq::<Seq<char>>::empty());
    assert(labels_of(links, 1) =~= Seq::<Seq<char>>::empty());
    assert(link_map(links, 1) == Map::<(Seq<char>, i64), (i64, i64)>::empty());
    lemma_edge_map_entries(s1.labels(), s1.edge_list());
    assert(s1.outcomes().dom() =~= Set::<(Seq<char>, i64)>::empty());
    assert(s1.edge_list().len() == 0);
    assert(s1.edge_list() =~= Seq::<Edge>::empty());
    assert(s1.inbound_dests() =~= Seq::<i64>::empty());

    // The uniform policy and one sweep.
    let pol = uniform_policy(sts);
    assert(row(pol, 0) =~= seq![SCALE]);
    assert(row(pol, 1) =~= Seq::<i64>::empty());
    assert(ids.contains(1i64) && ids.index_of(1i64) == 1) by {
        assert(ids[1] == 1i64);
        let c = ids.index_of(1i64);
        assert(0 <= c < 2 && ids[c] == 1i64);
    }
    assert forall|v: Seq<i64>| v.len() == 2 && v[1] == 0 implies #[trigger] sweep(
        SCALE,
        pol,
        sts,
        ids,
        v,
    ) == seq![r, 0i64] by {
        let p0 = row(pol, 0);
        assert(p0.drop_last() =~= Seq::<i64>::empty());
        assert(p0.len() == 1 && p0.last() == SCALE);
        assert(weighted_sum(p0.drop_last(), s0.expected_rewards()) == 0);
        assert(s0.expected_rewards().len() == 1);
        assert(at_or_zero(s0.expected_rewards(), 0) == r);
        assert(static_reward(p0, s0) == r);
        let pt = policy_transitions(p0, s0);
        assert(s0.inbound_dests().len() == 1);
        assert(s0.inbound_probs()[0].len() == 1);
        assert(weighted_sum(p0.drop_last(), s0.inbound_probs()[0]) == 0);
        assert(at_or_zero(s0.inbound_probs()[0], 0) == SCALE);
        assert(pt[0] == SCALE);
        assert(pt.drop_last() =~= Seq::<i64>::empty());
        let dv = dest_values(ids, s0, v);
        assert(dv[0] == 0);
        assert(pt.len() == 1 && pt.last() == SCALE);
        assert(weighted_sum(pt.drop_last(), dv) == 0);
        assert(at_or_zero(dv, 0) == 0);
        assert(mul_spec(SCALE, 0) == 0);
        assert(add_spec(0, 0) == 0);
        assert(weighted_sum(pt, dv) == 0);
        assert(backup(SCALE, p0, s0, ids, v) == r);
        let p1 = row(pol, 1);
        assert(policy_transitions(p1, s1) =~= Seq::<i64>::empty());
        assert(backup(SCALE, p1, s1, ids, v) == 0);
        assert(sweep(SCALE, pol, sts, ids, v) =~= seq![r, 0i64]);
    }
    let w = seq![r, 0i64];
    let v0 = seq![0i64, 0i64];
    assert(sweep(SCALE, pol, sts, ids, v0) == w);
    assert(sweep(SCALE, pol, sts, ids, w) == w);
    lemma_max_change_same(w, w);
    assert(evaluation(SCALE, eps, pol, sts, ids, w, (n - 1) as nat) == w) by {
        if n > 1 {
            assert(max_change(w, w) < eps);
        }
    }
    assert(evaluation(SCALE, eps, pol, sts, ids, v0, n) == w);
}

} // verus!
