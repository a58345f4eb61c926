//! Per-state models and the system model built from transition links.
use vstd::prelude::*;

use crate::fixed::{add_spec, fx_add, fx_mul, mul_spec, SCALE};
use crate::helper::index_of;

verus! {

/// One stochastic outcome, `(from, to, action, probability, reward)`: taking
/// the action in state `from` leads to state `to` with the given probability
/// and reward, both in fixed point.
#[derive(Debug, PartialEq)]
pub struct StateLink(pub i64, pub i64, pub String, pub i64, pub i64);

/// One outcome of an action of a state: the action's index in the state's
/// action list, the destination state, its probability and its reward.
#[derive(Clone, Copy, Debug, PartialEq, Eq)]
pub struct Edge {
    pub action: usize,
    pub dest: i64,
    pub prob: i64,
    pub reward: i64,
}

/// The key of an edge: its action label and its destination.
pub open spec fn edge_key(labels: Seq<Seq<char>>, e: Edge) -> (Seq<char>, i64) {
    (labels[e.action as int], e.dest)
}

/// The outcome table of an edge list: `(label, destination)` to
/// `(probability, reward)`.
pub open spec fn edge_map(labels: Seq<Seq<char>>, edges: Seq<Edge>) -> Map<
    (Seq<char>, i64),
    (i64, i64),
>
    decreases edges.len(),
{
    if edges.len() == 0 {
        Map::empty()
    } else {
        edge_map(labels, edges.drop_last()).insert(
            edge_key(labels, edges.last()),
            (edges.last().prob, edges.last().reward),
        )
    }
}

/// Labels are distinct, every edge names a known action, and no two edges
/// share an action and a destination.
pub open spec fn edges_wf(labels: Seq<Seq<char>>, edges: Seq<Edge>) -> bool {
    &&& forall|i: int, j: int| 0 <= i < j < labels.len() ==> labels[i] != labels[j]
    &&& forall|k: int| 0 <= k < edges.len() ==> (#[trigger] edges[k]).action < labels.len()
    &&& forall|i: int, j: int|
        0 <= i < j < edges.len() ==> !(edges[i].action == edges[j].action && edges[i].dest
            == edges[j].dest)
}

/// Expected immediate reward of action `a`: the sum of probability times
/// reward over its edges, in edge order.
pub open spec fn expected_reward(edges: Seq<Edge>, a: int) -> i64
    decreases edges.len(),
{
    if edges.len() == 0 {
        0
    } else if edges.last().action == a {
        add_spec(
            expected_reward(edges.drop_last(), a),
            mul_spec(edges.last().prob, edges.last().reward),
        )
    } else {
        expected_reward(edges.drop_last(), a)
    }
}

/// The destinations of an edge list, each once, in order of first appearance.
pub open spec fn dests_of(edges: Seq<Edge>) -> Seq<i64>
    decreases edges.len(),
{
    if edges.len() == 0 {
        Seq::empty()
    } else {
        let d = dests_of(edges.drop_last());
        if d.contains(edges.last().dest) {
            d
        } else {
            d.push(edges.last().dest)
        }
    }
}

/// Probability that action `a` leads to `dest`, zero where it has no such edge.
pub open spec fn prob_to(edges: Seq<Edge>, a: int, dest: i64) -> i64
    decreases edges.len(),
{
    if edges.len() == 0 {
        0
    } else if edges.last().action == a && edges.last().dest == dest {
        edges.last().prob
    } else {
        prob_to(edges.drop_last(), a, dest)
    }
}

/// Uniform probability over `k` actions, in fixed point.
pub open spec fn uniform_prob(k: nat) -> i64 {
    if k == 0 {
        0
    } else {
        (SCALE as int / k as int) as i64
    }
}

proof fn lemma_edges_wf_drop_last(labels: Seq<Seq<char>>, s: Seq<Edge>)
    requires
        edges_wf(labels, s),
        s.len() > 0,
    ensures
        edges_wf(labels, s.drop_last()),
{
    let t = s.drop_last();
    assert forall|k: int| 0 <= k < t.len() implies (#[trigger] t[k]).action < labels.len() by {
        assert(t[k] == s[k]);
    }
    assert forall|i: int, j: int| 0 <= i < j < t.len() implies !(t[i].action == t[j].action
        && t[i].dest == t[j].dest) by {
        assert(t[i] == s[i] && t[j] == s[j]);
    }
}

proof fn lemma_edge_map_update(labels: Seq<Seq<char>>, s: Seq<Edge>, k: int, e: Edge)
    requires
        edges_wf(labels, s),
        0 <= k < s.len(),
        e.action == s[k].action,
        e.dest == s[k].dest,
    ensures
        edge_map(labels, s.update(k, e)) == edge_map(labels, s).insert(
            edge_key(labels, e),
            (e.prob, e.reward),
        ),
    decreases s.len(),
{
    let n = s.len() - 1;
    let u = s.update(k, e);
    if k == n {
        assert(u.drop_last() =~= s.drop_last());
        assert(edge_map(labels, u) =~= edge_map(labels, s).insert(
            edge_key(labels, e),
            (e.prob, e.reward),
        ));
    } else {
        assert(u.drop_last() =~= s.drop_last().update(k, e));
        lemma_edges_wf_drop_last(labels, s);
        lemma_edge_map_update(labels, s.drop_last(), k, e);
        assert(s[k].action < labels.len() && s[n].action < labels.len());
        assert(!(s[k].action == s[n].action && s[k].dest == s[n].dest));
        assert(edge_key(labels, s[n]) != edge_key(labels, e));
        assert(u.last() == s.last());
        assert(edge_map(labels, u) =~= edge_map(labels, s).insert(
            edge_key(labels, e),
            (e.prob, e.reward),
        ));
    }
}

proof fn lemma_edge_map_labels_extend(labels: Seq<Seq<char>>, x: Seq<char>, s: Seq<Edge>)
    requires
        forall|k: int| 0 <= k < s.len() ==> (#[trigger] s[k]).action < labels.len(),
    ensures
        edge_map(labels.push(x), s) == edge_map(labels, s),
    decreases s.len(),
{
    if s.len() > 0 {
        let t = s.drop_last();
        assert forall|k: int| 0 <= k < t.len() implies (#[trigger] t[k]).action < labels.len() by {
            assert(t[k] == s[k]);
        }
        lemma_edge_map_labels_extend(labels, x, t);
        assert(s.last() == s[s.len() - 1]);
        assert(edge_key(labels.push(x), s.last()) == edge_key(labels, s.last()));
    }
}

/// The `(destination, probability)` outcomes of action `a`, in edge order.
pub open spec fn action_probs(edges: Seq<Edge>, a: int) -> Seq<(i64, i64)>
    decreases edges.len(),
{
    if edges.len() == 0 {
        Seq::empty()
    } else {
        let r = action_probs(edges.drop_last(), a);
        if edges.last().action == a {
            r.push((edges.last().dest, edges.last().prob))
        } else {
            r
        }
    }
}

/// The `(destination, reward)` outcomes of action `a`, in edge order.
pub open spec fn action_rewards(edges: Seq<Edge>, a: int) -> Seq<(i64, i64)>
    decreases edges.len(),
{
    if edges.len() == 0 {
        Seq::empty()
    } else {
        let r = action_rewards(edges.drop_last(), a);
        if edges.last().action == a {
            r.push((edges.last().dest, edges.last().reward))
        } else {
            r
        }
    }
}

/// With distinct keys, the outcome table has one entry per edge, each edge's
/// key maps to its values, and every key comes from an edge.
pub proof fn lemma_edge_map_entries(labels: Seq<Seq<char>>, s: Seq<Edge>)
    requires
        edges_wf(labels, s),
    ensures
        edge_map(labels, s).dom().finite(),
        edge_map(labels, s).dom().len() == s.len(),
        forall|k: int|
            0 <= k < s.len() ==> #[trigger] edge_map(labels, s).contains_key(edge_key(labels, s[k]))
                && edge_map(labels, s)[edge_key(labels, s[k])] == (s[k].prob, s[k].reward),
        forall|key: (Seq<char>, i64)|
            #[trigger] edge_map(labels, s).contains_key(key) ==> exists|k: int|
                0 <= k < s.len() && edge_key(labels, s[k]) == key,
    decreases s.len(),
{
    if s.len() > 0 {
        let t = s.drop_last();
        let n = s.len() - 1;
        lemma_edges_wf_drop_last(labels, s);
        lemma_edge_map_entries(labels, t);
        let m = edge_map(labels, t);
        assert(s.last() == s[n]);
        assert(!m.contains_key(edge_key(labels, s[n]))) by {
            if m.contains_key(edge_key(labels, s[n])) {
                let k = choose|k: int| 0 <= k < t.len() && edge_key(labels, t[k]) == edge_key(labels, s[n]);
                assert(t[k] == s[k]);
                assert(s[k].action < labels.len() && s[n].action < labels.len());
                if s[k].action != s[n].action {
                    assert(labels[s[k].action as int] != labels[s[n].action as int]);
                }
            }
        }
        assert forall|k: int| 0 <= k < s.len() implies #[trigger] edge_map(labels, s).contains_key(
            edge_key(labels, s[k]),
        ) && edge_map(labels, s)[edge_key(labels, s[k])] == (s[k].prob, s[k].reward) by {
            if k < n {
                assert(t[k] == s[k]);
                assert(m.contains_key(edge_key(labels, t[k])));
                assert(edge_key(labels, s[k]) != edge_key(labels, s[n]));
            }
        }
        assert forall|key: (Seq<char>, i64)| #[trigger] edge_map(labels, s).contains_key(key) implies exists|k: int|
            0 <= k < s.len() && edge_key(labels, s[k]) == key by {
            if m.contains_key(key) {
                let k = choose|k: int| 0 <= k < t.len() && edge_key(labels, t[k]) == key;
                assert(t[k] == s[k]);
            }
        }
    }
}

/// Some edge of `edges` leads from action `a` to `dest`.
pub open spec fn has_edge(edges: Seq<Edge>, a: int, dest: i64) -> bool {
    exists|k: int| 0 <= k < edges.len() && edges[k].action == a && edges[k].dest == dest
}

/// `edges` with `e` in place of the edge of the same action and destination,
/// or with `e` appended where there is none.
pub open spec fn put_edge(edges: Seq<Edge>, e: Edge) -> Seq<Edge> {
    if has_edge(edges, e.action as int, e.dest) {
        let k = choose|k: int|
            0 <= k < edges.len() && edges[k].action == e.action && edges[k].dest == e.dest;
        edges.update(k, e)
    } else {
        edges.push(e)
    }
}

/// The model of one state: its actions, their outcomes, and the tables derived
/// from them for evaluation.
#[derive(Debug, PartialEq)]
pub struct ModelState {
    state_id: i64,
    actions: Vec<String>,
    edges: Vec<Edge>,
    state_reward: i64,
    eval_action_rewards: Vec<i64>,
    eval_dests: Vec<i64>,
    eval_transition_probs: Vec<Vec<i64>>,
}

impl ModelState {
    /// The state's id.
    pub closed spec fn model_id(&self) -> i64 {
        self.state_id
    }

    /// The state's action labels, in order of first insertion.
    pub closed spec fn labels(&self) -> Seq<Seq<char>> {
        self.actions@.map_values(|s: String| s@)
    }

    /// The state's edges.
    pub closed spec fn edge_list(&self) -> Seq<Edge> {
        self.edges@
    }

    /// The reward attached to the state itself.
    pub closed spec fn base_reward(&self) -> i64 {
        self.state_reward
    }

    /// Cached expected reward per action index.
    pub closed spec fn expected_rewards(&self) -> Seq<i64> {
        self.eval_action_rewards@
    }

    /// Cached destinations, each once.
    pub closed spec fn inbound_dests(&self) -> Seq<i64> {
        self.eval_dests@
    }

    /// Cached probabilities by destination index, then by action index.
    pub closed spec fn inbound_probs(&self) -> Seq<Seq<i64>> {
        self.eval_transition_probs@.map_values(|r: Vec<i64>| r@)
    }

    pub open spec fn wf(&self) -> bool {
        edges_wf(self.labels(), self.edge_list())
    }

    /// The outcome table: `(action label, destination)` to
    /// `(probability, reward)`.
    pub open spec fn outcomes(&self) -> Map<(Seq<char>, i64), (i64, i64)> {
        edge_map(self.labels(), self.edge_list())
    }

    /// The expected-reward cache is up to date with the edges.
    pub open spec fn rewards_cached(&self) -> bool {
        &&& self.expected_rewards().len() == self.labels().len()
        &&& forall|a: int|
            0 <= a < self.labels().len() ==> #[trigger] self.expected_rewards()[a]
                == expected_reward(self.edge_list(), a)
    }

    /// The transposed transition cache is up to date with the edges: for every
    /// destination, the probability of reaching it by each known action.
    pub open spec fn transitions_cached(&self) -> bool {
        &&& self.inbound_dests() == dests_of(self.edge_list())
        &&& self.inbound_probs().len() == self.inbound_dests().len()
        &&& forall|j: int|
            0 <= j < self.inbound_dests().len() ==> (#[trigger] self.inbound_probs()[j]).len()
                == self.labels().len()
        &&& forall|j: int, a: int|
            0 <= j < self.inbound_dests().len() && 0 <= a < self.labels().len()
                ==> #[trigger] self.inbound_probs()[j][a] == prob_to(
                self.edge_list(),
                a,
                self.inbound_dests()[j],
            )
    }

    /// Two states agree on every part of their model.
    pub open spec fn same_model(&self, o: &ModelState) -> bool {
        &&& self.model_id() == o.model_id()
        &&& self.labels() == o.labels()
        &&& self.edge_list() == o.edge_list()
        &&& self.base_reward() == o.base_reward()
        &&& self.expected_rewards() == o.expected_rewards()
        &&& self.inbound_dests() == o.inbound_dests()
        &&& self.inbound_probs() == o.inbound_probs()
    }

    pub open spec fn caches_ok(&self) -> bool {
        self.rewards_cached() && self.transitions_cached()
    }

    /// A state with no actions and no outcomes.
    pub fn new(id: i64) -> (r: ModelState)
        ensures
            r.model_id() == id,
            r.labels().len() == 0,
            r.edge_list().len() == 0,
            r.base_reward() == 0,
            r.wf(),
            r.caches_ok(),
    {
        let r = ModelState {
            state_id: id,
            actions: Vec::new(),
            edges: Vec::new(),
            state_reward: 0,
            eval_action_rewards: Vec::new(),
            eval_dests: Vec::new(),
            eval_transition_probs: Vec::new(),
        };
        proof {
            assert(r.labels() =~= Seq::<Seq<char>>::empty());
            assert(r.inbound_probs() =~= Seq::<Seq<i64>>::empty());
        }
        r
    }

    fn action_index(&self, action: &String) -> (r: Option<usize>)
        ensures
            match r {
                Some(i) => i < self.labels().len() && self.labels()[i as int] == action@,
                None => !self.labels().contains(action@),
            },
    {
        let mut i: usize = 0;
        while i < self.actions.len()
            invariant
                i <= self.actions@.len(),
                self.labels().len() == self.actions@.len(),
                forall|j: int| 0 <= j < i ==> self.labels()[j] != action@,
            decreases self.actions@.len() - i,
        {
            if self.actions[i] == *action {
                return Some(i);
            }
            i = i + 1;
        }
        None
    }

    fn edge_index(&self, a: usize, dest: i64) -> (r: Option<usize>)
        ensures
            match r {
                Some(k) => k < self.edge_list().len() && self.edge_list()[k as int].action == a
                    && self.edge_list()[k as int].dest == dest,
                None => forall|k: int|
                    0 <= k < self.edge_list().len() ==> !(self.edge_list()[k].action == a
                        && self.edge_list()[k].dest == dest),
            },
    {
        let mut k: usize = 0;
        while k < self.edges.len()
            invariant
                k <= self.edges@.len(),
                forall|j: int|
                    0 <= j < k ==> !(self.edges@[j].action == a && self.edges@[j].dest == dest),
            decreases self.edges@.len() - k,
        {
            if self.edges[k].action == a && self.edges[k].dest == dest {
                return Some(k);
            }
            k = k + 1;
        }
        None
    }

    /// Records that `action` leads to `new_state` with probability `prob` and
    /// reward `reward`, replacing an earlier outcome of the same action and
    /// destination. The derived tables are left as they were.
    pub fn insert_link(&mut self, new_state: i64, action: &String, prob: i64, reward: i64)
        requires
            old(self).wf(),
        ensures
            final(self).wf(),
            final(self).model_id() == old(self).model_id(),
            final(self).base_reward() == old(self).base_reward(),
            final(self).labels() == (if old(self).labels().contains(action@) {
                old(self).labels()
            } else {
                old(self).labels().push(action@)
            }),
            final(self).outcomes() == old(self).outcomes().insert(
                (action@, new_state),
                (prob, reward),
            ),
            final(self).labels().contains(action@),
            final(self).edge_list() == put_edge(
                old(self).edge_list(),
                (Edge {
                    action: final(self).labels().index_of(action@) as usize,
                    dest: new_state,
                    prob,
                    reward,
                }),
            ),
            final(self).expected_rewards() == old(self).expected_rewards(),
            final(self).inbound_dests() == old(self).inbound_dests(),
            final(self).inbound_probs() == old(self).inbound_probs(),
    {
        let a: usize = match self.action_index(action) {
            Some(i) => i,
            None => {
                proof {
                    lemma_edge_map_labels_extend(self.labels(), action@, self.edges@);
                }
                let ghost old_labels = self.labels();
                self.actions.push(action.clone());
                proof {
                    assert(self.labels() =~= old_labels.push(action@));
                }
                self.actions.len() - 1
            },
        };
        let ghost labels = self.labels();
        let ghost before = self.edges@;
        assert(edges_wf(labels, before));
        proof {
            assert(labels.contains(action@)) by {
                assert(labels[a as int] == action@);
            }
            let c = labels.index_of(action@);
            assert(0 <= c < labels.len() && labels[c] == action@);
            if c != a as int {
                if c < a as int {
                    assert(labels[c] != labels[a as int]);
                } else {
                    assert(labels[a as int] != labels[c]);
                }
            }
        }
        let e = Edge { action: a, dest: new_state, prob, reward };
        match self.edge_index(a, new_state) {
            Some(k) => {
                proof {
                    lemma_edge_map_update(labels, before, k as int, e);
                    assert(has_edge(before, a as int, new_state));
                    let c = choose|c: int|
                        0 <= c < before.len() && before[c].action == a && before[c].dest == new_state;
                    if c != k as int {
                        if c < k as int {
                            assert(!(before[c].action == before[k as int].action && before[c].dest
                                == before[k as int].dest));
                        } else {
                            assert(!(before[k as int].action == before[c].action && before[k as int].dest
                                == before[c].dest));
                        }
                    }
                }
                self.edges.set(k, e);
                proof {
                    assert(self.edges@ == before.update(k as int, e));
                }
            },
            None => {
                proof {
                    assert(!has_edge(before, a as int, new_state));
                }
                self.edges.push(e);
                proof {
                    assert(self.edges@.drop_last() =~= before);
                }
            },
        }
    }

    /// Recomputes the expected reward of every action from its outcomes.
    pub fn calc_eval_rewards(&mut self)
        requires
            old(self).wf(),
        ensures
            final(self).rewards_cached(),
            final(self).wf(),
            final(self).model_id() == old(self).model_id(),
            final(self).base_reward() == old(self).base_reward(),
            final(self).labels() == old(self).labels(),
            final(self).edge_list() == old(self).edge_list(),
            final(self).inbound_dests() == old(self).inbound_dests(),
            final(self).inbound_probs() == old(self).inbound_probs(),
    {
        let n: usize = self.actions.len();
        let mut acc: Vec<i64> = Vec::new();
        while acc.len() < n
            invariant
                acc@.len() <= n,
                forall|a: int| 0 <= a < acc@.len() ==> #[trigger] acc@[a] == 0,
            decreases n - acc@.len(),
        {
            acc.push(0);
        }
        let mut k: usize = 0;
        while k < self.edges.len()
            invariant
                n == self.labels().len(),
                edges_wf(self.labels(), self.edges@),
                k <= self.edges@.len(),
                acc@.len() == n,
                forall|a: int|
                    0 <= a < n ==> #[trigger] acc@[a] == expected_reward(
                        self.edges@.take(k as int),
                        a,
                    ),
            decreases self.edges@.len() - k,
        {
            let e: Edge = self.edges[k];
            proof {
                assert(self.edges@[k as int].action < n);
                assert(self.edges@.take(k as int + 1).drop_last() =~= self.edges@.take(k as int));
            }
            let cur: i64 = acc[e.action];
            acc.set(e.action, fx_add(cur, fx_mul(e.prob, e.reward)));
            k = k + 1;
        }
        proof {
            assert(self.edges@.take(self.edges@.len() as int) =~= self.edges@);
        }
        self.eval_action_rewards = acc;
    }

    /// Recomputes, for every destination, the probability of reaching it by
    /// each known action (zero where the action has no such outcome).
    pub fn calc_eval_transition(&mut self)
        requires
            old(self).wf(),
        ensures
            final(self).transitions_cached(),
            final(self).wf(),
            final(self).model_id() == old(self).model_id(),
            final(self).base_reward() == old(self).base_reward(),
            final(self).labels() == old(self).labels(),
            final(self).edge_list() == old(self).edge_list(),
            final(self).expected_rewards() == old(self).expected_rewards(),
    {
        let n: usize = self.actions.len();
        let mut dests: Vec<i64> = Vec::new();
        let mut k: usize = 0;
        while k < self.edges.len()
            invariant
                k <= self.edges@.len(),
                dests@ == dests_of(self.edges@.take(k as int)),
            decreases self.edges@.len() - k,
        {
            let d: i64 = self.edges[k].dest;
            proof {
                assert(self.edges@.take(k as int + 1).drop_last() =~= self.edges@.take(k as int));
            }
            let mut j: usize = 0;
            let mut seen: bool = false;
            while j < dests.len()
                invariant
                    j <= dests@.len(),
                    seen == dests@.take(j as int).contains(d),
                decreases dests@.len() - j,
            {
                proof {
                    assert(dests@.take(j as int + 1) =~= dests@.take(j as int).push(dests@[j as int]));
                }
                if dests[j] == d {
                    seen = true;
                    proof {
                        assert(dests@.take(j as int + 1)[j as int] == d);
                    }
                } else {
                    proof {
                        let t = dests@.take(j as int + 1);
                        if t.contains(d) {
                            let i = choose|i: int| 0 <= i < t.len() && t[i] == d;
                            assert(dests@.take(j as int)[i] == d);
                        }
                    }
                }
                j = j + 1;
            }
            proof {
                assert(dests@.take(dests@.len() as int) =~= dests@);
            }
            if !seen {
                dests.push(d);
            }
            k = k + 1;
        }
        proof {
            assert(self.edges@.take(self.edges@.len() as int) =~= self.edges@);
        }
        let mut probs: Vec<Vec<i64>> = Vec::new();
        while probs.len() < dests.len()
            invariant
                n == self.labels().len(),
                edges_wf(self.labels(), self.edges@),
                probs@.len() <= dests@.len(),
                forall|j: int| 0 <= j < probs@.len() ==> (#[trigger] probs@[j])@.len() == n,
                forall|j: int, a: int|
                    0 <= j < probs@.len() && 0 <= a < n ==> #[trigger] probs@[j]@[a] == prob_to(
                        self.edges@,
                        a,
                        dests@[j],
                    ),
            decreases dests@.len() - probs@.len(),
        {
            let d: i64 = dests[probs.len()];
            let mut row: Vec<i64> = Vec::new();
            while row.len() < n
                invariant
                    row@.len() <= n,
                    forall|a: int| 0 <= a < row@.len() ==> #[trigger] row@[a] == 0,
                decreases n - row@.len(),
            {
                row.push(0);
            }
            let mut k: usize = 0;
            while k < self.edges.len()
                invariant
                    n == self.labels().len(),
                    edges_wf(self.labels(), self.edges@),
                    k <= self.edges@.len(),
                    row@.len() == n,
                    forall|a: int|
                        0 <= a < n ==> #[trigger] row@[a] == prob_to(
                            self.edges@.take(k as int),
                            a,
                            d,
                        ),
                decreases self.edges@.len() - k,
            {
                let e: Edge = self.edges[k];
                proof {
                    assert(self.edges@[k as int].action < n);
                    assert(self.edges@.take(k as int + 1).drop_last() =~= self.edges@.take(
                        k as int,
                    ));
                }
                if e.dest == d {
                    row.set(e.action, e.prob);
                }
                k = k + 1;
            }
            proof {
                assert(self.edges@.take(self.edges@.len() as int) =~= self.edges@);
            }
            probs.push(row);
        }
        self.eval_dests = dests;
        self.eval_transition_probs = probs;
        proof {
            assert(self.inbound_probs().len() == probs@.len());
            assert forall|j: int| 0 <= j < self.inbound_dests().len() implies (
            #[trigger] self.inbound_probs()[j]).len() == self.labels().len() by {
                assert(self.inbound_probs()[j] == probs@[j]@);
            }
            assert forall|j: int, a: int|
                0 <= j < self.inbound_dests().len() && 0 <= a < self.labels().len()
                    implies #[trigger] self.inbound_probs()[j][a] == prob_to(
                    self.edge_list(),
                    a,
                    self.inbound_dests()[j],
                ) by {
                assert(self.inbound_probs()[j] == probs@[j]@);
            }
        }
    }

    pub fn get_id(&self) -> (r: i64)
        ensures
            r == self.model_id(),
    {
        self.state_id
    }

    /// Expected reward of each action, by action index.
    pub fn get_eval_rewards(&self) -> (r: &Vec<i64>)
        ensures
            r@ == self.expected_rewards(),
    {
        &self.eval_action_rewards
    }

    /// The destinations of the state's outcomes, each once.
    pub fn get_eval_dests(&self) -> (r: &Vec<i64>)
        ensures
            r@ == self.inbound_dests(),
    {
        &self.eval_dests
    }

    /// Probability of reaching each destination (by its index in
    /// `get_eval_dests`) by each action (by action index).
    pub fn get_eval_probs(&self) -> (r: &Vec<Vec<i64>>)
        ensures
            r@.len() == self.inbound_probs().len(),
            forall|j: int| 0 <= j < r@.len() ==> (#[trigger] r@[j])@ == self.inbound_probs()[j],
    {
        &self.eval_transition_probs
    }

    /// The label of the action with index `a`.
    pub fn action_label(&self, a: usize) -> (r: &String)
        requires
            a < self.labels().len(),
        ensures
            r@ == self.labels()[a as int],
    {
        &self.actions[a]
    }

    pub fn set_reward(&mut self, new_reward: i64)
        ensures
            final(self).base_reward() == new_reward,
            final(self).model_id() == old(self).model_id(),
            final(self).labels() == old(self).labels(),
            final(self).edge_list() == old(self).edge_list(),
            final(self).expected_rewards() == old(self).expected_rewards(),
            final(self).inbound_dests() == old(self).inbound_dests(),
            final(self).inbound_probs() == old(self).inbound_probs(),
    {
        self.state_reward = new_reward;
    }

    pub fn get_reward(&self) -> (r: i64)
        ensures
            r == self.base_reward(),
    {
        self.state_reward
    }

    /// The action labels; an edge's `action` indexes this list.
    pub fn get_actions(&self) -> (r: &Vec<String>)
        ensures
            r@.map_values(|s: String| s@) == self.labels(),
    {
        &self.actions
    }

    /// All outcomes of all actions, each with its probability and reward.
    pub fn get_all_probs(&self) -> (r: &Vec<Edge>)
        ensures
            r@ == self.edge_list(),
    {
        &self.edges
    }

    fn action_outcomes(&self, action: &String, rewards: bool) -> (r: Option<Vec<(i64, i64)>>)
        ensures
            match r {
                None => !self.labels().contains(action@),
                Some(v) => exists|a: int|
                    0 <= a < self.labels().len() && self.labels()[a] == action@ && v@ == (if rewards {
                        action_rewards(self.edge_list(), a)
                    } else {
                        action_probs(self.edge_list(), a)
                    }),
            },
    {
        let a: usize = match self.action_index(action) {
            Some(a) => a,
            None => {
                return None;
            },
        };
        let mut v: Vec<(i64, i64)> = Vec::new();
        let mut k: usize = 0;
        while k < self.edges.len()
            invariant
                k <= self.edges@.len(),
                v@ == (if rewards {
                    action_rewards(self.edges@.take(k as int), a as int)
                } else {
                    action_probs(self.edges@.take(k as int), a as int)
                }),
            decreases self.edges@.len() - k,
        {
            let e: Edge = self.edges[k];
            proof {
                assert(self.edges@.take(k as int + 1).drop_last() =~= self.edges@.take(k as int));
            }
            if e.action == a {
                if rewards {
                    v.push((e.dest, e.reward));
                } else {
                    v.push((e.dest, e.prob));
                }
            }
            k = k + 1;
        }
        proof {
            assert(self.edges@.take(self.edges@.len() as int) =~= self.edges@);
        }
        Some(v)
    }

    /// The `(destination, reward)` outcomes of every action, by action index.
    pub fn get_all_action_rewards(&self) -> (r: Vec<Vec<(i64, i64)>>)
        ensures
            r@.len() == self.labels().len(),
            forall|a: int|
                0 <= a < r@.len() ==> (#[trigger] r@[a])@ == action_rewards(self.edge_list(), a),
    {
        let n: usize = self.actions.len();
        let mut r: Vec<Vec<(i64, i64)>> = Vec::new();
        while r.len() < n
            invariant
                n == self.labels().len(),
                r@.len() <= n,
                forall|a: int|
                    0 <= a < r@.len() ==> (#[trigger] r@[a])@ == action_rewards(self.edges@, a),
            decreases n - r@.len(),
        {
            let a: usize = r.len();
            let mut v: Vec<(i64, i64)> = Vec::new();
            let mut k: usize = 0;
            while k < self.edges.len()
                invariant
                    k <= self.edges@.len(),
                    v@ == action_rewards(self.edges@.take(k as int), a as int),
                decreases self.edges@.len() - k,
            {
                let e: Edge = self.edges[k];
                proof {
                    assert(self.edges@.take(k as int + 1).drop_last() =~= self.edges@.take(k as int));
                }
                if e.action == a {
                    v.push((e.dest, e.reward));
                }
                k = k + 1;
            }
            proof {
                assert(self.edges@.take(self.edges@.len() as int) =~= self.edges@);
            }
            r.push(v);
        }
        r
    }

    /// The `(destination, probability)` outcomes of `action`, in insertion
    /// order; none for an unknown action.
    pub fn get_probs(&self, action: &String) -> (r: Option<Vec<(i64, i64)>>)
        requires
            self.wf(),
        ensures
            match r {
                None => !self.labels().contains(action@),
                Some(v) => self.labels().contains(action@) && v@ == action_probs(
                    self.edge_list(),
                    self.labels().index_of(action@),
                ),
            },
    {
        let r = self.action_outcomes(action, false);
        proof {
            self.lemma_label_index(action@);
        }
        r
    }

    /// The `(destination, reward)` outcomes of `action`, in insertion order;
    /// none for an unknown action.
    pub fn get_action_reward(&self, action: &String) -> (r: Option<Vec<(i64, i64)>>)
        requires
            self.wf(),
        ensures
            match r {
                None => !self.labels().contains(action@),
                Some(v) => self.labels().contains(action@) && v@ == action_rewards(
                    self.edge_list(),
                    self.labels().index_of(action@),
                ),
            },
    {
        let r = self.action_outcomes(action, true);
        proof {
            self.lemma_label_index(action@);
        }
        r
    }

    proof fn lemma_label_index(&self, x: Seq<char>)
        requires
            self.wf(),
        ensures
            forall|a: int|
                0 <= a < self.labels().len() && self.labels()[a] == x ==> self.labels().contains(x)
                    && self.labels().index_of(x) == a,
    {
        assert forall|a: int| 0 <= a < self.labels().len() && self.labels()[a] == x implies self.labels().contains(x)
            && self.labels().index_of(x) == a by {
            let c = self.labels().index_of(x);
            assert(0 <= c < self.labels().len() && self.labels()[c] == x);
            if c < a {
                assert(self.labels()[c] != self.labels()[a]);
            } else if a < c {
                assert(self.labels()[a] != self.labels()[c]);
            }
        }
    }

    /// The uniform policy over the state's actions: `SCALE / k` on each of its
    /// `k` actions, empty for a state without actions.
    pub fn get_random_policy(&self) -> (r: Vec<i64>)
        ensures
            r@.len() == self.labels().len(),
            forall|a: int|
                0 <= a < r@.len() ==> #[trigger] r@[a] == uniform_prob(self.labels().len()),
    {
        let k: usize = self.actions.len();
        let mut r: Vec<i64> = Vec::new();
        if k == 0 {
            return r;
        }
        let p: i64 = (SCALE as u64 / k as u64) as i64;
        while r.len() < k
            invariant
                k == self.labels().len(),
                k > 0,
                r@.len() <= k,
                p == uniform_prob(k as nat),
                forall|a: int| 0 <= a < r@.len() ==> #[trigger] r@[a] == p,
            decreases k - r@.len(),
        {
            r.push(p);
        }
        r
    }
}

/// The state ids of a link list, each once, in order of first appearance
/// (the source of a link before its destination).
pub open spec fn ids_of(links: Seq<StateLink>) -> Seq<i64>
    decreases links.len(),
{
    if links.len() == 0 {
        Seq::empty()
    } else {
        let r = ids_of(links.drop_last());
        let l = links.last();
        let r1 = if r.contains(l.0) {
            r
        } else {
            r.push(l.0)
        };
        if r1.contains(l.1) {
            r1
        } else {
            r1.push(l.1)
        }
    }
}

/// The action labels of state `id` in a link list, each once, in order of
/// first appearance.
pub open spec fn labels_of(links: Seq<StateLink>, id: i64) -> Seq<Seq<char>>
    decreases links.len(),
{
    if links.len() == 0 {
        Seq::empty()
    } else {
        let r = labels_of(links.drop_last(), id);
        let l = links.last();
        if l.0 == id && !r.contains(l.2@) {
            r.push(l.2@)
        } else {
            r
        }
    }
}

/// The outcome table of state `id` in a link list: a later link with the same
/// action and destination replaces an earlier one.
pub open spec fn link_map(links: Seq<StateLink>, id: i64) -> Map<(Seq<char>, i64), (i64, i64)>
    decreases links.len(),
{
    if links.len() == 0 {
        Map::empty()
    } else {
        let r = link_map(links.drop_last(), id);
        let l = links.last();
        if l.0 == id {
            r.insert((l.2@, l.1), (l.3, l.4))
        } else {
            r
        }
    }
}

proof fn lemma_push_distinct(s: Seq<i64>, x: i64)
    requires
        s.no_duplicates(),
        !s.contains(x),
    ensures
        s.push(x).no_duplicates(),
{
    let t = s.push(x);
    assert forall|i: int, j: int| 0 <= i < t.len() && 0 <= j < t.len() && i != j implies t[i]
        != t[j] by {
        if i == s.len() as int {
            assert(t[j] == s[j]);
        } else if j == s.len() as int {
            assert(t[i] == s[i]);
        } else {
            assert(t[i] == s[i] && t[j] == s[j]);
        }
    }
}

/// No state id occurs twice among the states of a link list.
pub proof fn lemma_ids_distinct(links: Seq<StateLink>)
    ensures
        ids_of(links).no_duplicates(),
    decreases links.len(),
{
    if links.len() > 0 {
        lemma_ids_distinct(links.drop_last());
        let r = ids_of(links.drop_last());
        let l = links.last();
        let r1 = if r.contains(l.0) {
            r
        } else {
            r.push(l.0)
        };
        if !r.contains(l.0) {
            lemma_push_distinct(r, l.0);
        }
        if !r1.contains(l.1) {
            lemma_push_distinct(r1, l.1);
        }
    }
}

/// The edges of state `id` in a link list: one per action and destination,
/// in order of first appearance, with the values of the last such link.
pub open spec fn edges_of(links: Seq<StateLink>, id: i64) -> Seq<Edge>
    decreases links.len(),
{
    if links.len() == 0 {
        Seq::empty()
    } else {
        let r = edges_of(links.drop_last(), id);
        let l = links.last();
        if l.0 == id {
            put_edge(
                r,
                Edge {
                    action: labels_of(links, id).index_of(l.2@) as usize,
                    dest: l.1,
                    prob: l.3,
                    reward: l.4,
                },
            )
        } else {
            r
        }
    }
}

/// `st` is the built model of state `id` under `links`.
pub open spec fn state_built(st: ModelState, links: Seq<StateLink>, id: i64) -> bool {
    &&& st.model_id() == id
    &&& st.base_reward() == 0
    &&& st.edge_list() == edges_of(links, id)
    &&& st.wf()
    &&& st.caches_ok()
    &&& st.labels() == labels_of(links, id)
    &&& st.outcomes() == link_map(links, id)
}

/// A built state is determined by the links and its id: two built models of
/// the same state agree on every part.
pub proof fn lemma_state_built_unique(a: ModelState, b: ModelState, links: Seq<StateLink>, id: i64)
    requires
        state_built(a, links, id),
        state_built(b, links, id),
    ensures
        a.same_model(&b),
{
    assert(a.expected_rewards() =~= b.expected_rewards());
    assert forall|j: int| 0 <= j < a.inbound_probs().len() implies a.inbound_probs()[j]
        == b.inbound_probs()[j] by {
        assert(a.inbound_probs()[j] =~= b.inbound_probs()[j]);
    }
    assert(a.inbound_probs() =~= b.inbound_probs());
}

/// The system model: every state reached by the transition links, with its
/// per-state model.
#[derive(Debug, PartialEq)]
pub struct SystemState {
    states: Vec<ModelState>,
    transitions: Vec<StateLink>,
}

impl SystemState {
    /// The links the model is built from.
    pub closed spec fn links(&self) -> Seq<StateLink> {
        self.transitions@
    }

    /// The per-state models, in the order of `ids_of(self.links())`.
    pub closed spec fn state_seq(&self) -> Seq<ModelState> {
        self.states@
    }

    /// Every state of the links has its built model, in order.
    pub open spec fn built(&self) -> bool {
        &&& self.state_seq().len() == ids_of(self.links()).len()
        &&& forall|i: int|
            0 <= i < self.state_seq().len() ==> state_built(
                #[trigger] self.state_seq()[i],
                self.links(),
                ids_of(self.links())[i],
            )
    }

    /// The per-state models, in order of first appearance of their ids.
    pub fn get_all_states(&self) -> (r: &Vec<ModelState>)
        ensures
            r@ == self.state_seq(),
    {
        &self.states
    }

    /// The state ids, in the order of `get_all_states`.
    pub fn state_ids(&self) -> (r: Vec<i64>)
        requires
            self.built(),
        ensures
            r@ == ids_of(self.links()),
    {
        let mut r: Vec<i64> = Vec::new();
        let mut i: usize = 0;
        while i < self.states.len()
            invariant
                self.built(),
                i <= self.states@.len(),
                r@ == ids_of(self.links()).take(i as int),
            decreases self.states@.len() - i,
        {
            proof {
                assert(state_built(self.state_seq()[i as int], self.links(), ids_of(self.links())[i as int]));
            }
            r.push(self.states[i].get_id());
            i = i + 1;
            proof {
                assert(r@ =~= ids_of(self.links()).take(i as int));
            }
        }
        proof {
            assert(r@ =~= ids_of(self.links()));
        }
        r
    }

    /// The model of state `id`; none for an id that is no state.
    pub fn get_state(&self, id: &i64) -> (r: Option<&ModelState>)
        requires
            self.built(),
        ensures
            match r {
                None => !ids_of(self.links()).contains(*id),
                Some(s) => ids_of(self.links()).contains(*id) && *s == self.state_seq()[ids_of(
                    self.links(),
                ).index_of(*id)] && state_built(*s, self.links(), *id),
            },
    {
        proof {
            lemma_ids_distinct(self.links());
        }
        let mut i: usize = 0;
        while i < self.states.len()
            invariant
                self.built(),
                ids_of(self.links()).no_duplicates(),
                i <= self.states@.len(),
                forall|j: int| 0 <= j < i ==> ids_of(self.links())[j] != *id,
            decreases self.states@.len() - i,
        {
            proof {
                assert(state_built(self.state_seq()[i as int], self.links(), ids_of(self.links())[i as int]));
            }
            if self.states[i].get_id() == *id {
                proof {
                    let ids = ids_of(self.links());
                    assert(ids[i as int] == *id);
                    assert(ids.contains(*id));
                    let c = ids.index_of(*id);
                    assert(ids.no_duplicates());
                    assert(0 <= c < ids.len() && ids[c] == *id);
                    assert(c == i as int);
                }
                return Some(&self.states[i]);
            }
            i = i + 1;
        }
        None
    }

    /// Builds the model of `links`.
    pub fn create_and_build(links: Vec<StateLink>) -> (r: SystemState)
        ensures
            r.links() == links@,
            r.built(),
    {
        let mut system_state = SystemState {
            states: Vec::new(),
            transitions: links,
        };
        system_state.build();
        system_state
    }

    /// (Re)builds every per-state model from the links.
    pub fn build(&mut self)
        ensures
            final(self).links() == old(self).links(),
            final(self).built(),
            old(self).built() ==> final(self).state_seq().len() == old(self).state_seq().len()
                && forall|i: int|
                0 <= i < final(self).state_seq().len() ==> (#[trigger] final(self).state_seq()[i]).same_model(
                    &old(self).state_seq()[i],
                ),
    {
        let ghost before = self.state_seq();
        let ghost links = self.transitions@;
        let mut ids: Vec<i64> = Vec::new();
        let mut k: usize = 0;
        while k < self.transitions.len()
            invariant
                links == self.transitions@,
                k <= links.len(),
                ids@ == ids_of(links.take(k as int)),
            decreases links.len() - k,
        {
            let from: i64 = self.transitions[k].0;
            let to: i64 = self.transitions[k].1;
            proof {
                assert(links.take(k as int + 1).drop_last() =~= links.take(k as int));
            }
            if index_of(&ids, from).is_none() {
                ids.push(from);
            }
            if index_of(&ids, to).is_none() {
                ids.push(to);
            }
            k = k + 1;
        }
        proof {
            assert(links.take(links.len() as int) =~= links);
        }
        let mut states: Vec<ModelState> = Vec::new();
        let mut i: usize = 0;
        while i < ids.len()
            invariant
                links == self.transitions@,
                ids@ == ids_of(links),
                i <= ids@.len(),
                states@.len() == i,
                forall|j: int|
                    0 <= j < i ==> state_built(#[trigger] states@[j], links, ids@[j]),
            decreases ids@.len() - i,
        {
            let id: i64 = ids[i];
            let mut st = ModelState::new(id);
            proof {
                assert(st.outcomes() =~= link_map(links.take(0), id));
                assert(st.labels() =~= labels_of(links.take(0), id));
                assert(st.edge_list() =~= edges_of(links.take(0), id));
            }
            let mut k: usize = 0;
            while k < self.transitions.len()
                invariant
                    links == self.transitions@,
                    k <= links.len(),
                    st.wf(),
                    st.model_id() == id,
                    st.base_reward() == 0,
                    st.edge_list() == edges_of(links.take(k as int), id),
                    st.labels() == labels_of(links.take(k as int), id),
                    st.outcomes() == link_map(links.take(k as int), id),
                decreases links.len() - k,
            {
                proof {
                    assert(links.take(k as int + 1).drop_last() =~= links.take(k as int));
                }
                let l = &self.transitions[k];
                if l.0 == id {
                    st.insert_link(l.1, &l.2, l.3, l.4);
                }
                k = k + 1;
            }
            proof {
                assert(links.take(links.len() as int) =~= links);
            }
            st.calc_eval_rewards();
            st.calc_eval_transition();
            states.push(st);
            i = i + 1;
        }
        self.states = states;
        proof {
            if old(self).built() {
                assert forall|i: int| 0 <= i < self.state_seq().len() implies (
                #[trigger] self.state_seq()[i]).same_model(&before[i]) by {
                    lemma_state_built_unique(self.state_seq()[i], before[i], links, ids@[i]);
                }
            }
        }
    }
}

proof fn lemma_ids_cover(links: Seq<StateLink>)
    ensures
        forall|k: int|
            0 <= k < links.len() ==> ids_of(links).contains((#[trigger] links[k]).0)
                && ids_of(links).contains(links[k].1),
        forall|x: i64|
            #[trigger] ids_of(links).contains(x) ==> exists|k: int|
                0 <= k < links.len() && (links[k].0 == x || links[k].1 == x),
    decreases links.len(),
{
    if links.len() > 0 {
        let t = links.drop_last();
        lemma_ids_cover(t);
        let r = ids_of(t);
        let l = links.last();
        let r1 = if r.contains(l.0) {
            r
        } else {
            r.push(l.0)
        };
        let r2 = ids_of(links);
        assert forall|x: i64| r.contains(x) implies r2.contains(x) by {
            let i = choose|i: int| 0 <= i < r.len() && r[i] == x;
            assert(r1[i] == x);
            assert(r2[i] == x);
        }
        assert(r1.contains(l.0)) by {
            if !r.contains(l.0) {
                assert(r1[r.len() as int] == l.0);
            }
        }
        assert(r2.contains(l.0)) by {
            let i = choose|i: int| 0 <= i < r1.len() && r1[i] == l.0;
            assert(r2[i] == l.0);
        }
        assert(r2.contains(l.1)) by {
            if !r1.contains(l.1) {
                assert(r2[r1.len() as int] == l.1);
            }
        }
        assert forall|k: int| 0 <= k < links.len() implies r2.contains((#[trigger] links[k]).0)
            && r2.contains(links[k].1) by {
            if k < t.len() {
                assert(t[k] == links[k]);
                assert(r.contains(t[k].0) && r.contains(t[k].1));
            }
        }
        assert forall|x: i64| #[trigger] r2.contains(x) implies exists|k: int|
            0 <= k < links.len() && (links[k].0 == x || links[k].1 == x) by {
            if r.contains(x) {
                let k = choose|k: int| 0 <= k < t.len() && (t[k].0 == x || t[k].1 == x);
                assert(links[k] == t[k]);
            } else {
                let i = choose|i: int| 0 <= i < r2.len() && r2[i] == x;
                assert(links[links.len() - 1] == l);
                if r1.contains(x) {
                    let i1 = choose|i1: int| 0 <= i1 < r1.len() && r1[i1] == x;
                    if i1 < r.len() {
                        assert(r[i1] == x);
                    }
                    assert(x == l.0);
                } else {
                    assert(x == l.1);
                }
            }
        }
    }
}

proof fn lemma_link_map_keys(links: Seq<StateLink>, id: i64)
    ensures
        forall|label: Seq<char>, dest: i64|
            #[trigger] link_map(links, id).contains_key((label, dest)) <==> exists|k: int|
                0 <= k < links.len() && links[k].0 == id && links[k].2@ == label && links[k].1
                    == dest,
    decreases links.len(),
{
    if links.len() > 0 {
        let t = links.drop_last();
        lemma_link_map_keys(t, id);
        let l = links.last();
        assert(links[links.len() - 1] == l);
        assert forall|label: Seq<char>, dest: i64|
            #[trigger] link_map(links, id).contains_key((label, dest)) <==> exists|k: int|
                0 <= k < links.len() && links[k].0 == id && links[k].2@ == label && links[k].1
                    == dest by {
            if link_map(t, id).contains_key((label, dest)) {
                let k = choose|k: int|
                    0 <= k < t.len() && t[k].0 == id && t[k].2@ == label && t[k].1 == dest;
                assert(links[k] == t[k]);
            }
            if exists|k: int|
                0 <= k < links.len() && links[k].0 == id && links[k].2@ == label && links[k].1
                    == dest {
                let k = choose|k: int|
                    0 <= k < links.len() && links[k].0 == id && links[k].2@ == label
                        && links[k].1 == dest;
                if k < t.len() {
                    assert(t[k] == links[k]);
                }
            }
        }
    }
}

/// Graph build: every source and destination of a link is a state of the
/// built model, every state comes from a link, and the outcome table of each
/// state holds exactly the `(action, destination)` pairs of the links that
/// leave it.
pub proof fn lemma_build_correct(sys: SystemState)
    requires
        sys.built(),
    ensures
        forall|k: int|
            0 <= k < sys.links().len() ==> (exists|i: int|
                0 <= i < sys.state_seq().len() && sys.state_seq()[i].model_id() == (
                #[trigger] sys.links()[k]).0) && (exists|i: int|
                0 <= i < sys.state_seq().len() && sys.state_seq()[i].model_id()
                    == sys.links()[k].1),
        forall|i: int|
            0 <= i < sys.state_seq().len() ==> exists|k: int|
                0 <= k < sys.links().len() && (sys.links()[k].0 == (
                #[trigger] sys.state_seq()[i]).model_id() || sys.links()[k].1
                    == sys.state_seq()[i].model_id()),
        forall|i: int, label: Seq<char>, dest: i64|
            0 <= i < sys.state_seq().len() ==> (#[trigger] sys.state_seq()[i].outcomes().contains_key(
                (label, dest),
            ) <==> exists|k: int|
                0 <= k < sys.links().len() && sys.links()[k].0 == sys.state_seq()[i].model_id()
                    && sys.links()[k].2@ == label && sys.links()[k].1 == dest),
{
    let links = sys.links();
    let ids = ids_of(links);
    let sts = sys.state_seq();
    lemma_ids_cover(links);
    assert forall|k: int| 0 <= k < links.len() implies (exists|i: int|
        0 <= i < sts.len() && sts[i].model_id() == (#[trigger] links[k]).0) && (exists|i: int|
        0 <= i < sts.len() && sts[i].model_id() == links[k].1) by {
        assert(ids.contains(links[k].0));
        let i = choose|i: int| 0 <= i < ids.len() && ids[i] == links[k].0;
        assert(state_built(sts[i], links, ids[i]));
        assert(ids.contains(links[k].1));
        let j = choose|j: int| 0 <= j < ids.len() && ids[j] == links[k].1;
        assert(state_built(sts[j], links, ids[j]));
    }
    assert forall|i: int| 0 <= i < sts.len() implies exists|k: int|
        0 <= k < links.len() && (links[k].0 == (#[trigger] sts[i]).model_id() || links[k].1
            == sts[i].model_id()) by {
        assert(state_built(sts[i], links, ids[i]));
        assert(ids.contains(ids[i]));
    }
    assert forall|i: int, label: Seq<char>, dest: i64| 0 <= i < sts.len() implies (
    #[trigger] sts[i].outcomes().contains_key((label, dest)) <==> exists|k: int|
        0 <= k < links.len() && links[k].0 == sts[i].model_id() && links[k].2@ == label
            && links[k].1 == dest) by {
        assert(state_built(sts[i], links, ids[i]));
        lemma_link_map_keys(links, ids[i]);
        assert(link_map(links, ids[i]).contains_key((label, dest)) <==> exists|k: int|
            0 <= k < links.len() && links[k].0 == ids[i] && links[k].2@ == label && links[k].1
                == dest);
    }
}

/// A state that no link leaves has no actions and an empty outcome table.
pub proof fn lemma_sink_state(links: Seq<StateLink>, id: i64)
    requires
        forall|k: int| 0 <= k < links.len() ==> (#[trigger] links[k]).0 != id,
    ensures
        labels_of(links, id).len() == 0,
        link_map(links, id) == Map::<(Seq<char>, i64), (i64, i64)>::empty(),
    decreases links.len(),
{
    if links.len() > 0 {
        let t = links.drop_last();
        assert forall|k: int| 0 <= k < t.len() implies (#[trigger] t[k]).0 != id by {
            assert(t[k] == links[k]);
        }
        lemma_sink_state(t, id);
        assert(links[links.len() - 1] == links.last());
    }
}

/// Build is deterministic: two systems built from the same links hold the same
/// states, in the same order, agreeing on every part of their models.
pub proof fn lemma_build_deterministic(a: SystemState, b: SystemState)
    requires
        a.built(),
        b.built(),
        a.links() == b.links(),
    ensures
        a.state_seq().len() == b.state_seq().len(),
        forall|i: int|
            0 <= i < a.state_seq().len() ==> (#[trigger] a.state_seq()[i]).same_model(
                &b.state_seq()[i],
            ),
{
    assert forall|i: int| 0 <= i < a.state_seq().len() implies (#[trigger] a.state_seq()[i]).same_model(
        &b.state_seq()[i],
    ) by {
        lemma_state_built_unique(a.state_seq()[i], b.state_seq()[i], a.links(), ids_of(a.links())[i]);
    }
}

/// No two links share source, action and destination.
pub open spec fn links_distinct(links: Seq<StateLink>) -> bool {
    forall|i: int, j: int|
        0 <= i < links.len() && 0 <= j < links.len() && i != j ==> !(links[i].0 == links[j].0
            && links[i].2@ == links[j].2@ && links[i].1 == links[j].1)
}

proof fn lemma_link_map_value(links: Seq<StateLink>, id: i64, k: int)
    requires
        links_distinct(links),
        0 <= k < links.len(),
        links[k].0 == id,
    ensures
        link_map(links, id).contains_key((links[k].2@, links[k].1)),
        link_map(links, id)[(links[k].2@, links[k].1)] == (links[k].3, links[k].4),
    decreases links.len(),
{
    let t = links.drop_last();
    let n = links.len() - 1;
    assert(links.last() == links[n]);
    if k < n {
        assert(links_distinct(t)) by {
            assert forall|i: int, j: int|
                0 <= i < t.len() && 0 <= j < t.len() && i != j implies !(t[i].0 == t[j].0
                && t[i].2@ == t[j].2@ && t[i].1 == t[j].1) by {
                assert(t[i] == links[i] && t[j] == links[j]);
            }
        }
        assert(t[k] == links[k]);
        lemma_link_map_value(t, id, k);
        assert(!(links[n].0 == links[k].0 && links[n].2@ == links[k].2@ && links[n].1
            == links[k].1));
    }
}

/// Link order does not matter: two lists that hold the same links, none
/// repeating a source, action and destination, have the same states and give
/// every state the same outcome table.
pub proof fn lemma_build_order_independent(la: Seq<StateLink>, lb: Seq<StateLink>, id: i64)
    requires
        links_distinct(la),
        links_distinct(lb),
        forall|l: StateLink| la.contains(l) <==> lb.contains(l),
    ensures
        ids_of(la).contains(id) <==> ids_of(lb).contains(id),
        link_map(la, id) == link_map(lb, id),
{
    lemma_ids_cover(la);
    lemma_ids_cover(lb);
    if ids_of(la).contains(id) {
        let k = choose|k: int| 0 <= k < la.len() && (la[k].0 == id || la[k].1 == id);
        assert(la.contains(la[k]));
        assert(lb.contains(la[k]));
        let m = choose|m: int| 0 <= m < lb.len() && lb[m] == la[k];
        assert(ids_of(lb).contains(lb[m].0) && ids_of(lb).contains(lb[m].1));
    }
    if ids_of(lb).contains(id) {
        let k = choose|k: int| 0 <= k < lb.len() && (lb[k].0 == id || lb[k].1 == id);
        assert(lb.contains(lb[k]));
        assert(la.contains(lb[k]));
        let m = choose|m: int| 0 <= m < la.len() && la[m] == lb[k];
        assert(ids_of(la).contains(la[m].0) && ids_of(la).contains(la[m].1));
    }
    lemma_link_map_keys(la, id);
    lemma_link_map_keys(lb, id);
    let ma = link_map(la, id);
    let mb = link_map(lb, id);
    assert forall|key: (Seq<char>, i64)|
        #[trigger] ma.dom().contains(key) == mb.dom().contains(key) && (ma.contains_key(key)
            ==> ma[key] == mb[key]) by {
        if ma.contains_key(key) {
            assert(ma.contains_key((key.0, key.1)));
            let k = choose|k: int|
                0 <= k < la.len() && la[k].0 == id && la[k].2@ == key.0 && la[k].1 == key.1;
            assert(la.contains(la[k]));
            assert(lb.contains(la[k]));
            let m = choose|m: int| 0 <= m < lb.len() && lb[m] == la[k];
            lemma_link_map_value(la, id, k);
            lemma_link_map_value(lb, id, m);
            assert(key == (la[k].2@, la[k].1));
        }
        if mb.contains_key(key) {
            assert(mb.contains_key((key.0, key.1)));
            let k = choose|k: int|
                0 <= k < lb.len() && lb[k].0 == id && lb[k].2@ == key.0 && lb[k].1 == key.1;
            assert(lb.contains(lb[k]));
            assert(la.contains(lb[k]));
            let m = choose|m: int| 0 <= m < la.len() && la[m] == lb[k];
            assert(ma.contains_key((la[m].2@, la[m].1)));
            assert(key == (la[m].2@, la[m].1));
        }
    }
    assert(ma.dom() =~= mb.dom());
    assert(ma =~= mb);
}

} // verus!
