//! The Q-learning engine: the update rule on the value table, training as a
//! deterministic function of the sampled transitions, and the stochastic
//! sampling of those transitions.
use vstd::prelude::*;
use vstd::arithmetic::div_mod::{
    lemma_div_is_ordered, lemma_div_multiples_vanish, lemma_div_pos_is_pos,
};

use crate::matrix::{mat_view, mat_wf, mat_zero, row_wf};
use crate::random::RandomSource;
use crate::{DENOM, MAX_REWARD, Q_BOUND};

verus! {

/// Training parameters: discount factor `gamma_num / DENOM`, learning rate
/// `alpha_num / DENOM`, and the number of training episodes.
pub struct Config {
    pub gamma_num: i64,
    pub alpha_num: i64,
    pub episodes: usize,
}

impl Config {
    /// The discount factor is below one and the learning rate at most one.
    pub open spec fn wf(self) -> bool {
        &&& 0 <= self.gamma_num < DENOM
        &&& 0 <= self.alpha_num <= DENOM
    }

    /// The configuration of the reference instance: discount factor 0.75,
    /// learning rate 0.9, one thousand episodes.
    pub fn reference() -> (c: Config)
        ensures
            c.wf(),
            c.gamma_num == 750,
            c.alpha_num == 900,
            c.episodes == 1000,
    {
        Config { gamma_num: 750, alpha_num: 900, episodes: 1000 }
    }
}

/// Largest value of a row, under a linear scan.
pub open spec fn row_max(row: Seq<int>) -> int
    decreases row.len(),
{
    if row.len() <= 1 {
        row[0]
    } else {
        let m = row_max(row.drop_last());
        if row.last() > m {
            row.last()
        } else {
            m
        }
    }
}

/// The maximum of a nonempty row is one of its entries and no entry
/// exceeds it.
pub proof fn lemma_row_max_props(row: Seq<int>)
    requires
        row.len() >= 1,
    ensures
        forall|j: int| 0 <= j < row.len() ==> #[trigger] row[j] <= row_max(row),
        exists|j: int| 0 <= j < row.len() && #[trigger] row[j] == row_max(row),
    decreases row.len(),
{
    if row.len() == 1 {
        assert(row_max(row) == row[0]);
        assert(forall|j: int| 0 <= j < row.len() ==> #[trigger] row[j] <= row_max(row));
    } else {
        let head = row.drop_last();
        lemma_row_max_props(head);
        assert(forall|j: int| 0 <= j < row.len() - 1 ==> #[trigger] row[j] == head[j]);
        assert(row[row.len() - 1] == row.last());
        let m = row_max(head);
        if row.last() > m {
            assert(row_max(row) == row.last());
            assert(forall|j: int| 0 <= j < row.len() ==> #[trigger] row[j] <= row_max(row));
        } else {
            assert(row_max(row) == m);
            let j = choose|j: int| 0 <= j < head.len() && #[trigger] head[j] == m;
            assert(row[j] == row_max(row));
            assert(forall|j: int| 0 <= j < row.len() ==> #[trigger] row[j] <= row_max(row));
        }
    }
}

/// The temporal-difference target of one update: the transition's reward
/// plus the discounted best value reachable from the next state, in
/// fixed-point units.
pub open spec fn step_target(
    q: Seq<Seq<int>>,
    rewards: Seq<Seq<int>>,
    s: int,
    a: int,
    gamma: int,
) -> int {
    rewards[s][a] * DENOM + (gamma * row_max(q[a])) / (DENOM as int)
}

/// Move `from` a fraction `alpha / DENOM` of the way toward `target`,
/// rounding the step toward zero.
pub open spec fn stepped_value(alpha: int, from: int, target: int) -> int {
    if target >= from {
        from + (alpha * (target - from)) / (DENOM as int)
    } else {
        from - (alpha * (from - target)) / (DENOM as int)
    }
}

/// One Q-learning update: the table after learning from the single
/// transition `s -> a`.
pub open spec fn q_step(
    q: Seq<Seq<int>>,
    rewards: Seq<Seq<int>>,
    s: int,
    a: int,
    gamma: int,
    alpha: int,
) -> Seq<Seq<int>> {
    q.update(s, q[s].update(a, stepped_value(alpha, q[s][a], step_target(q, rewards, s, a, gamma))))
}

/// The pair names a transition of the matrix: a state and a playable
/// action out of it.
pub open spec fn valid_draw(rewards: Seq<Seq<int>>, d: (usize, usize)) -> bool {
    &&& (d.0 as int) < rewards.len()
    &&& (d.1 as int) < rewards.len()
    &&& rewards[d.0 as int][d.1 as int] > 0
}

/// Every pair of the sequence is a playable transition.
pub open spec fn valid_draws(rewards: Seq<Seq<int>>, ds: Seq<(usize, usize)>) -> bool {
    forall|k: int| 0 <= k < ds.len() ==> valid_draw(rewards, #[trigger] ds[k])
}

/// The table that results from folding the updates of all drawn
/// transitions, in order, over the starting table `q`.
pub open spec fn train_from(
    q: Seq<Seq<int>>,
    rewards: Seq<Seq<int>>,
    gamma: int,
    alpha: int,
    draws: Seq<(usize, usize)>,
) -> Seq<Seq<int>>
    decreases draws.len(),
{
    if draws.len() == 0 {
        q
    } else {
        train_from(
            q_step(q, rewards, draws[0].0 as int, draws[0].1 as int, gamma, alpha),
            rewards,
            gamma,
            alpha,
            draws.drop_first(),
        )
    }
}

/// The all-zero table of side `n`.
pub open spec fn zero_table(n: nat) -> Seq<Seq<int>> {
    Seq::new(n, |i: int| Seq::new(n, |j: int| 0int))
}

/// The table trained from zero by the drawn transitions: training is a
/// function of the reward matrix, the parameters and the draws alone.
pub open spec fn spec_train(
    rewards: Seq<Seq<int>>,
    gamma: int,
    alpha: int,
    draws: Seq<(usize, usize)>,
) -> Seq<Seq<int>> {
    train_from(zero_table(rewards.len()), rewards, gamma, alpha, draws)
}

/// Training is deterministic: two tables trained with the same reward
/// matrix, the same parameters and the same drawn transitions are
/// identical, entry for entry.
pub proof fn lemma_training_deterministic(
    rewards: Seq<Seq<int>>,
    gamma: int,
    alpha: int,
    draws: Seq<(usize, usize)>,
    q1: Seq<Seq<int>>,
    q2: Seq<Seq<int>>,
)
    requires
        q1 == spec_train(rewards, gamma, alpha, draws),
        q2 == spec_train(rewards, gamma, alpha, draws),
    ensures
        q1 == q2,
{
}

/// One update keeps the table square and its entries within `[0, Q_BOUND]`.
pub proof fn lemma_q_step_wf(
    q: Seq<Seq<int>>,
    rewards: Seq<Seq<int>>,
    s: int,
    a: int,
    gamma: int,
    alpha: int,
)
    requires
        mat_wf(q, q.len(), Q_BOUND as int),
        mat_wf(rewards, q.len(), MAX_REWARD as int),
        0 <= s < q.len(),
        0 <= a < q.len(),
        0 <= gamma < DENOM,
        0 <= alpha <= DENOM,
        q.len() >= 1,
    ensures
        mat_wf(q_step(q, rewards, s, a, gamma, alpha), q.len(), Q_BOUND as int),
{
    lemma_row_max_props(q[a]);
    let target = step_target(q, rewards, s, a, gamma);
    lemma_q_step_bounds(q, rewards, s, a, gamma);
    let from = q[s][a];
    let stepped = stepped_value(alpha, from, target);
    assert(0 <= stepped <= Q_BOUND) by {
        if target >= from {
            let td = target - from;
            assert(0 <= alpha * td <= DENOM * td) by (nonlinear_arith)
                requires
                    0 <= alpha <= DENOM,
                    td >= 0,
            ;
            lemma_div_pos_is_pos(alpha * td, DENOM as int);
            lemma_div_is_ordered(alpha * td, DENOM * td, DENOM as int);
            lemma_div_multiples_vanish(td, DENOM as int);
        } else {
            let td = from - target;
            assert(0 <= alpha * td <= DENOM * td) by (nonlinear_arith)
                requires
                    0 <= alpha <= DENOM,
                    td >= 0,
            ;
            lemma_div_pos_is_pos(alpha * td, DENOM as int);
            lemma_div_is_ordered(alpha * td, DENOM * td, DENOM as int);
            lemma_div_multiples_vanish(td, DENOM as int);
        }
    }
    let q2 = q_step(q, rewards, s, a, gamma, alpha);
    assert(forall|i: int| 0 <= i < q.len() ==> row_wf(#[trigger] q2[i], q.len(), Q_BOUND as int))
        by {
        assert(row_wf(q2[s], q.len(), Q_BOUND as int)) by {
            assert(forall|j: int|
                0 <= j < q.len() && j != a ==> #[trigger] q2[s][j] == q[s][j]);
            assert(q2[s][a] == stepped);
        }
    }
}

/// Folding one more draw onto the end of the sequence applies one more
/// update to the folded table.
pub proof fn lemma_train_from_snoc(
    q: Seq<Seq<int>>,
    rewards: Seq<Seq<int>>,
    gamma: int,
    alpha: int,
    draws: Seq<(usize, usize)>,
    d: (usize, usize),
)
    ensures
        train_from(q, rewards, gamma, alpha, draws.push(d)) == q_step(
            train_from(q, rewards, gamma, alpha, draws),
            rewards,
            d.0 as int,
            d.1 as int,
            gamma,
            alpha,
        ),
    decreases draws.len(),
{
    let stepped = q_step(q, rewards, draws.push(d)[0].0 as int, draws.push(d)[0].1 as int, gamma, alpha);
    assert(train_from(q, rewards, gamma, alpha, draws.push(d)) == train_from(
        stepped,
        rewards,
        gamma,
        alpha,
        draws.push(d).drop_first(),
    ));
    if draws.len() == 0 {
        assert(draws.push(d)[0] == d);
        assert(draws.push(d).drop_first() =~= Seq::<(usize, usize)>::empty());
        assert(train_from(stepped, rewards, gamma, alpha, Seq::<(usize, usize)>::empty())
            == stepped);
    } else {
        assert(draws.push(d)[0] == draws[0]);
        assert(draws.push(d).drop_first() =~= draws.drop_first().push(d));
        lemma_train_from_snoc(
            q_step(q, rewards, draws[0].0 as int, draws[0].1 as int, gamma, alpha),
            rewards,
            gamma,
            alpha,
            draws.drop_first(),
            d,
        );
    }
}

/// The learned value table: square, with every entry in `[0, Q_BOUND]`.
pub struct QTable {
    rows: Vec<Vec<i64>>,
}

impl View for QTable {
    type V = Seq<Seq<int>>;

    closed spec fn view(&self) -> Seq<Seq<int>> {
        mat_view(self.rows)
    }
}

impl QTable {
    /// The table is square and every entry lies in `[0, Q_BOUND]`.
    pub open spec fn wf(self) -> bool {
        mat_wf(self@, self@.len(), Q_BOUND as int)
    }

    /// Side length of the table.
    pub fn size(&self) -> (n: usize)
        ensures
            n == self@.len(),
    {
        self.rows.len()
    }

    /// Read one value of the table.
    pub fn value(&self, s: usize, a: usize) -> (r: i64)
        requires
            s < self@.len(),
            a < self@[s as int].len(),
        ensures
            r == self@[s as int][a as int],
    {
        self.rows[s][a]
    }

    /// Wrap a matrix as a table, if it is square and in bounds.
    pub fn from_rows(rows: Vec<Vec<i64>>) -> (r: Option<QTable>)
        ensures
            match r {
                Some(q) => q.wf() && q@ == mat_view(rows),
                None => !mat_wf(mat_view(rows), mat_view(rows).len(), Q_BOUND as int),
            },
    {
        let n = rows.len();
        let mut i: usize = 0;
        while i < n
            invariant
                i <= n,
                n == mat_view(rows).len(),
                forall|k: int| 0 <= k < i ==> row_wf(#[trigger] mat_view(rows)[k], n as nat, Q_BOUND as int),
            decreases n - i,
        {
            if rows[i].len() != n {
                proof {
                    assert(mat_view(rows)[i as int].len() != n);
                    assert(!row_wf(mat_view(rows)[i as int], n as nat, Q_BOUND as int));
                }
                return None;
            }
            let mut j: usize = 0;
            while j < n
                invariant
                    j <= n,
                    i < n,
                    n == mat_view(rows).len(),
                    mat_view(rows)[i as int].len() == n,
                    forall|k: int| 0 <= k < j ==> 0 <= #[trigger] mat_view(rows)[i as int][k] <= Q_BOUND,
                decreases n - j,
            {
                let v = rows[i][j];
                if v < 0 || v > Q_BOUND {
                    proof {
                        assert(mat_view(rows)[i as int][j as int] == v as int);
                        assert(!row_wf(mat_view(rows)[i as int], n as nat, Q_BOUND as int));
                    }
                    return None;
                }
                j = j + 1;
            }
            i = i + 1;
        }
        Some(QTable { rows })
    }
}

/// Some action out of `s` carries a positive reward.
pub open spec fn state_playable(m: Seq<Seq<int>>, s: int) -> bool {
    exists|j: usize| (j as int) < m.len() && m[s][j as int] > 0
}

/// The playable actions out of `s`: every state reachable by a positive
/// reward. The result lists exactly those actions.
fn playable_actions(rewards: &Vec<Vec<i64>>, s: usize) -> (acts: Vec<usize>)
    requires
        mat_wf(mat_view(*rewards), mat_view(*rewards).len(), MAX_REWARD as int),
        s < mat_view(*rewards).len(),
    ensures
        forall|k: int| 0 <= k < acts@.len() ==> valid_draw(
            mat_view(*rewards),
            (s, #[trigger] acts@[k]),
        ),
        forall|j: usize| (j as int) < mat_view(*rewards).len()
            && mat_view(*rewards)[s as int][j as int] > 0 ==> acts@.contains(j),
{
    let n = rewards.len();
    let mut acts: Vec<usize> = Vec::new();
    let mut j: usize = 0;
    while j < n
        invariant
            j <= n,
            n == mat_view(*rewards).len(),
            s < n,
            mat_wf(mat_view(*rewards), n as nat, MAX_REWARD as int),
            forall|k: int| 0 <= k < acts@.len() ==> valid_draw(
                mat_view(*rewards),
                (s, #[trigger] acts@[k]),
            ),
            forall|j2: usize| j2 < j && mat_view(*rewards)[s as int][j2 as int] > 0
                ==> acts@.contains(j2),
        decreases n - j,
    {
        let ghost acts0 = acts@;
        if crate::matrix::mat_get(rewards, s, j) > 0 {
            acts.push(j);
        }
        proof {
            assert forall|j2: usize|
                j2 < j + 1 && mat_view(*rewards)[s as int][j2 as int] > 0 implies acts@.contains(
                j2,
            ) by {
                if j2 < j {
                    assert(acts0.contains(j2));
                    let k = choose|k: int| 0 <= k < acts0.len() && acts0[k] == j2;
                    assert(acts@[k] == j2);
                } else {
                    assert(acts@[acts@.len() - 1] == j);
                }
            }
        }
        j = j + 1;
    }
    acts
}

/// The states that have at least one playable action. The result is empty
/// only if no state has one.
fn playable_states(rewards: &Vec<Vec<i64>>) -> (sts: Vec<usize>)
    requires
        mat_wf(mat_view(*rewards), mat_view(*rewards).len(), MAX_REWARD as int),
    ensures
        forall|k: int| 0 <= k < sts@.len() ==> #[trigger] sts@[k] < mat_view(*rewards).len()
            && state_playable(mat_view(*rewards), sts@[k] as int),
        (exists|i: int| 0 <= i < mat_view(*rewards).len() && state_playable(
            mat_view(*rewards),
            i,
        )) ==> sts@.len() > 0,
{
    let n = rewards.len();
    let ghost rv = mat_view(*rewards);
    let mut sts: Vec<usize> = Vec::new();
    let mut i: usize = 0;
    while i < n
        invariant
            i <= n,
            n == rv.len(),
            rv == mat_view(*rewards),
            mat_wf(rv, n as nat, MAX_REWARD as int),
            forall|k: int| 0 <= k < sts@.len() ==> #[trigger] sts@[k] < n
                && state_playable(rv, sts@[k] as int),
            forall|i2: int| 0 <= i2 < i && #[trigger] state_playable(rv, i2) ==> sts@.len() > 0,
        decreases n - i,
    {
        let ghost sts0 = sts@;
        let acts = playable_actions(rewards, i);
        if acts.len() > 0 {
            proof {
                assert(valid_draw(rv, (i, acts@[0])));
                assert(rv[i as int][acts@[0] as int] > 0);
                assert(state_playable(rv, i as int));
            }
            sts.push(i);
            proof {
                assert(sts@[sts@.len() - 1] == i);
                assert(forall|k: int| 0 <= k < sts0.len() ==> sts@[k] == #[trigger] sts0[k]);
            }
        } else {
            proof {
                if state_playable(rv, i as int) {
                    let j = choose|j: usize| (j as int) < rv.len() && rv[i as int][j as int] > 0;
                    assert(acts@.contains(j));
                    assert(false);
                }
            }
        }
        i = i + 1;
    }
    sts
}

/// Sample up to `episodes` playable transitions: each episode draws a
/// state uniformly among those with a playable action, then an action
/// uniformly among that state's playable ones. Drawing only among states
/// with a move is how a sampled dead-end state is re-sampled: no episode
/// is lost to one, and no episode can fail. Only when no transition of
/// the matrix is playable at all is no draw made.
fn sample_draws(
    rewards: &Vec<Vec<i64>>,
    episodes: usize,
    src: &mut RandomSource,
) -> (draws: Vec<(usize, usize)>)
    requires
        mat_wf(mat_view(*rewards), mat_view(*rewards).len(), MAX_REWARD as int),
    ensures
        valid_draws(mat_view(*rewards), draws@),
        draws@.len() <= episodes,
        (exists|i: int| 0 <= i < mat_view(*rewards).len() && state_playable(
            mat_view(*rewards),
            i,
        )) ==> draws@.len() == episodes,
{
    let ghost rv = mat_view(*rewards);
    let sts = playable_states(rewards);
    let mut draws: Vec<(usize, usize)> = Vec::new();
    if sts.len() == 0 {
        return draws;
    }
    let mut e: usize = 0;
    while e < episodes
        invariant
            e <= episodes,
            sts@.len() >= 1,
            rv == mat_view(*rewards),
            mat_wf(rv, rv.len(), MAX_REWARD as int),
            forall|k: int| 0 <= k < sts@.len() ==> #[trigger] sts@[k] < rv.len()
                && state_playable(rv, sts@[k] as int),
            valid_draws(rv, draws@),
            draws@.len() == e,
        decreases episodes - e,
    {
        let s = sts[src.next_below(sts.len())];
        let acts = playable_actions(rewards, s);
        proof {
            assert(state_playable(rv, s as int));
            let j = choose|j: usize| (j as int) < rv.len() && rv[s as int][j as int] > 0;
            assert(acts@.contains(j));
        }
        let a = src.pick_from(&acts);
        let ghost draws0 = draws@;
        proof {
            let k = choose|k: int| 0 <= k < acts@.len() && acts@[k] == a;
            assert(valid_draw(rv, (s, a)));
        }
        draws.push((s, a));
        proof {
            assert(draws@[draws@.len() - 1] == (s, a));
            assert(forall|k: int| 0 <= k < draws0.len() ==> draws@[k] == #[trigger] draws0[k]);
            assert(forall|k: int| 0 <= k < draws@.len() ==> valid_draw(rv, #[trigger] draws@[k]));
        }
        e = e + 1;
    }
    draws
}

/// Train a fresh table from the drawn transitions: the result is exactly
/// the fold of the Q-learning update over the draws, starting from zero.
pub fn train_from_draws(
    rewards: &Vec<Vec<i64>>,
    cfg: &Config,
    draws: &Vec<(usize, usize)>,
) -> (q: QTable)
    requires
        mat_wf(mat_view(*rewards), mat_view(*rewards).len(), MAX_REWARD as int),
        cfg.wf(),
        valid_draws(mat_view(*rewards), draws@),
    ensures
        q.wf(),
        q@.len() == mat_view(*rewards).len(),
        q@ == spec_train(mat_view(*rewards), cfg.gamma_num as int, cfg.alpha_num as int, draws@),
{
    let n = rewards.len();
    let ghost rv = mat_view(*rewards);
    let ghost gamma = cfg.gamma_num as int;
    let ghost alpha = cfg.alpha_num as int;
    let mut q: Vec<Vec<i64>> = mat_zero(n);
    proof {
        assert(q@.len() == n);
        assert(mat_view(q) =~~= zero_table(n as nat));
        assert(train_from(zero_table(n as nat), rv, gamma, alpha, draws@.take(0)) == zero_table(
            n as nat,
        ));
    }
    let mut e: usize = 0;
    while e < draws.len()
        invariant
            e <= draws@.len(),
            n == rv.len(),
            rv == mat_view(*rewards),
            mat_wf(rv, n as nat, MAX_REWARD as int),
            0 <= gamma < DENOM,
            0 <= alpha <= DENOM,
            gamma == cfg.gamma_num as int,
            alpha == cfg.alpha_num as int,
            valid_draws(rv, draws@),
            mat_wf(mat_view(q), n as nat, Q_BOUND as int),
            mat_view(q) == train_from(zero_table(n as nat), rv, gamma, alpha, draws@.take(e as int)),
        decreases draws@.len() - e,
    {
        let (s, a) = draws[e];
        proof {
            assert(valid_draw(rv, draws@[e as int]));
        }
        apply_step(&mut q, rewards, s, a, cfg);
        proof {
            assert(draws@.take(e as int).push(draws@[e as int]) =~= draws@.take(e + 1));
            lemma_train_from_snoc(
                zero_table(n as nat),
                rv,
                gamma,
                alpha,
                draws@.take(e as int),
                draws@[e as int],
            );
        }
        e = e + 1;
    }
    proof {
        assert(draws@.take(draws@.len() as int) =~= draws@);
    }
    let q_out = QTable { rows: q };
    q_out
}

/// Apply one Q-learning update to the table in place.
fn apply_step(q: &mut Vec<Vec<i64>>, rewards: &Vec<Vec<i64>>, s: usize, a: usize, cfg: &Config)
    requires
        mat_wf(mat_view(*old(q)), mat_view(*old(q)).len(), Q_BOUND as int),
        mat_wf(mat_view(*rewards), mat_view(*old(q)).len(), MAX_REWARD as int),
        (s as int) < mat_view(*old(q)).len(),
        (a as int) < mat_view(*old(q)).len(),
        cfg.wf(),
    ensures
        mat_view(*final(q)) == q_step(
            mat_view(*old(q)),
            mat_view(*rewards),
            s as int,
            a as int,
            cfg.gamma_num as int,
            cfg.alpha_num as int,
        ),
        mat_wf(mat_view(*final(q)), mat_view(*old(q)).len(), Q_BOUND as int),
{
    let ghost qv = mat_view(*q);
    let ghost rv = mat_view(*rewards);
    let ghost gamma = cfg.gamma_num as int;
    let ghost alpha = cfg.alpha_num as int;
    proof {
        lemma_q_step_wf(qv, rv, s as int, a as int, gamma, alpha);
        lemma_row_max_props(qv[a as int]);
    }
    let n = q.len();
    // Largest value of row `a` under a linear scan.
    let mut best: i64 = q[a][0];
    let ghost arow = qv[a as int];
    proof {
        assert(best == arow.take(1).last());
        assert(arow.take(1).len() == 1);
        assert(row_max(arow.take(1)) == arow.take(1)[0]);
    }
    let mut j: usize = 1;
    while j < n
        invariant
            1 <= j <= n,
            n == qv.len(),
            qv == mat_view(*q),
            arow == qv[a as int],
            (a as int) < n,
            mat_wf(qv, n as nat, Q_BOUND as int),
            best == row_max(arow.take(j as int)),
            0 <= best <= Q_BOUND,
        decreases n - j,
    {
        proof {
            assert(arow.take(j + 1).drop_last() =~= arow.take(j as int));
            assert(arow.take(j + 1).last() == arow[j as int]);
            lemma_row_max_props(arow.take(j as int));
        }
        let v = q[a][j];
        if v > best {
            best = v;
        }
        j = j + 1;
    }
    proof {
        assert(arow.take(n as int) =~= arow);
    }
    // The fixed-point update toward the temporal-difference target.
    let reward = crate::matrix::mat_get(rewards, s, a);
    let ghost tgt = step_target(qv, rv, s as int, a as int, gamma);
    proof {
        lemma_q_step_bounds(qv, rv, s as int, a as int, gamma);
        assert(0 <= gamma * (best as int) <= (DENOM - 1) * Q_BOUND) by (nonlinear_arith)
            requires
                0 <= gamma <= DENOM - 1,
                0 <= best <= Q_BOUND,
        ;
        assert(0 <= (reward as int) * (DENOM as int) <= MAX_REWARD * DENOM) by (nonlinear_arith)
            requires
                0 <= reward <= MAX_REWARD,
        ;
    }
    let target: i64 = reward * DENOM + (cfg.gamma_num * best) / DENOM;
    proof {
        lemma_div_pos_is_pos(gamma * (best as int), DENOM as int);
        lemma_div_is_ordered(gamma * (best as int), (DENOM - 1) * Q_BOUND, DENOM as int);
        assert(target == tgt);
        assert(0 <= target <= Q_BOUND);
    }
    let from: i64 = q[s][a];
    let stepped: i64;
    if target >= from {
        let td = target - from;
        proof {
            assert(0 <= alpha * (td as int) <= DENOM * (td as int)) by (nonlinear_arith)
                requires
                    0 <= alpha <= DENOM,
                    td >= 0,
            ;
            lemma_div_pos_is_pos(alpha * (td as int), DENOM as int);
            lemma_div_is_ordered(alpha * (td as int), DENOM * (td as int), DENOM as int);
            lemma_div_multiples_vanish(td as int, DENOM as int);
        }
        stepped = from + (cfg.alpha_num * td) / DENOM;
    } else {
        let td = from - target;
        proof {
            assert(0 <= alpha * (td as int) <= DENOM * (td as int)) by (nonlinear_arith)
                requires
                    0 <= alpha <= DENOM,
                    td >= 0,
            ;
            lemma_div_pos_is_pos(alpha * (td as int), DENOM as int);
            lemma_div_is_ordered(alpha * (td as int), DENOM * (td as int), DENOM as int);
            lemma_div_multiples_vanish(td as int, DENOM as int);
        }
        stepped = from - (cfg.alpha_num * td) / DENOM;
    }
    proof {
        assert(stepped == stepped_value(alpha, from as int, tgt));
    }
    crate::matrix::mat_set(q, s, a, stepped);
}

/// Both the target and the stepped value of one update stay in
/// `[0, Q_BOUND]` on a well-formed table.
proof fn lemma_q_step_bounds(
    q: Seq<Seq<int>>,
    rewards: Seq<Seq<int>>,
    s: int,
    a: int,
    gamma: int,
)
    requires
        mat_wf(q, q.len(), Q_BOUND as int),
        mat_wf(rewards, q.len(), MAX_REWARD as int),
        0 <= s < q.len(),
        0 <= a < q.len(),
        0 <= gamma < DENOM,
    ensures
        0 <= step_target(q, rewards, s, a, gamma) <= Q_BOUND,
{
    let mq = row_max(q[a]);
    lemma_row_max_props(q[a]);
    assert(gamma * mq >= 0) by (nonlinear_arith)
        requires
            gamma >= 0,
            mq >= 0,
    ;
    lemma_div_pos_is_pos(gamma * mq, DENOM as int);
    assert(rewards[s][a] * DENOM >= 0) by (nonlinear_arith)
        requires
            rewards[s][a] >= 0,
    ;
    assert(gamma * mq <= (DENOM - 1) * Q_BOUND) by (nonlinear_arith)
        requires
            0 <= gamma <= DENOM - 1,
            0 <= mq <= Q_BOUND,
    ;
    lemma_div_is_ordered(gamma * mq, (DENOM - 1) * Q_BOUND, DENOM as int);
    assert(((DENOM - 1) * Q_BOUND) / (DENOM as int) == (DENOM - 1) * MAX_REWARD * DENOM) by {
        assert((DENOM - 1) * Q_BOUND == (DENOM as int) * ((DENOM - 1) * MAX_REWARD * DENOM))
            by (nonlinear_arith);
        lemma_div_multiples_vanish((DENOM - 1) * MAX_REWARD * DENOM, DENOM as int);
    }
    assert(rewards[s][a] * DENOM <= MAX_REWARD * DENOM) by (nonlinear_arith)
        requires
            rewards[s][a] <= MAX_REWARD,
    ;
    assert(MAX_REWARD * DENOM + (DENOM - 1) * MAX_REWARD * DENOM == Q_BOUND) by (nonlinear_arith);
}

/// Train a fresh table with randomness from `src`: whatever transitions
/// the source draws, the result is the deterministic fold of the update
/// over some sequence of playable transitions, at most one per episode.
pub fn train(rewards: &Vec<Vec<i64>>, cfg: &Config, src: &mut RandomSource) -> (q: QTable)
    requires
        mat_wf(mat_view(*rewards), mat_view(*rewards).len(), MAX_REWARD as int),
        cfg.wf(),
    ensures
        q.wf(),
        q@.len() == mat_view(*rewards).len(),
        exists|draws: Seq<(usize, usize)>|
            {
                &&& valid_draws(mat_view(*rewards), draws)
                &&& draws.len() <= cfg.episodes
                &&& ((exists|i: int| 0 <= i < mat_view(*rewards).len() && state_playable(
                    mat_view(*rewards),
                    i,
                )) ==> draws.len() == cfg.episodes)
                &&& q@ == spec_train(
                    mat_view(*rewards),
                    cfg.gamma_num as int,
                    cfg.alpha_num as int,
                    draws,
                )
            },
{
    let draws = sample_draws(rewards, cfg.episodes, src);
    let q = train_from_draws(rewards, cfg, &draws);
    proof {
        let ghost ds = draws@;
        assert({
            &&& valid_draws(mat_view(*rewards), ds)
            &&& ds.len() <= cfg.episodes
            &&& ((exists|i: int| 0 <= i < mat_view(*rewards).len() && state_playable(
                mat_view(*rewards),
                i,
            )) ==> ds.len() == cfg.episodes)
            &&& q@ == spec_train(mat_view(*rewards), cfg.gamma_num as int, cfg.alpha_num as int, ds)
        });
    }
    q
}

} // verus!
