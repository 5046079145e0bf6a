//! The route composer: name lookup, one training run per goal, greedy
//! extraction, and the stitching of two runs through a waypoint.
use vstd::prelude::*;
use vstd::string::StringExecFns;

use crate::extract::{extract_route, spec_walk};
use crate::learn::{spec_train, state_playable, train, valid_draws, Config};
use crate::matrix::{mat_view, mat_wf};
use crate::model::{goal_matrix, known_name, Environment};
use crate::random::RandomSource;
use crate::{RouteError, MAX_REWARD};

verus! {

/// The visited states read back as location names.
pub open spec fn names_of_states(names: Seq<Seq<char>>, path: Seq<usize>) -> Seq<Seq<char>> {
    path.map_values(|s: usize| names[s as int])
}

/// The outcome of one whole query pipeline, given the drawn transitions:
/// train a table against the goal-augmented matrix, then walk it
/// greedily from `start` to `end` with one step allowed per location.
pub open spec fn spec_route_states(
    names: Seq<Seq<char>>,
    rewards: Seq<Seq<int>>,
    gamma: int,
    alpha: int,
    draws: Seq<(usize, usize)>,
    start: usize,
    end: usize,
) -> Option<Seq<usize>> {
    spec_walk(
        spec_train(goal_matrix(rewards, end as int), gamma, alpha, draws),
        start,
        end,
        names.len(),
    )
}

/// `r` is what one query from `start` to `end` returns when the training
/// episodes drew exactly `draws`: the locations that the greedy walk of
/// the trained table visits, or a stall error when that walk gives up.
pub open spec fn route_follows_draws(
    env: Environment,
    cfg: Config,
    r: Result<Vec<String>, RouteError>,
    start: Seq<char>,
    end: Seq<char>,
    s: usize,
    e: usize,
    draws: Seq<(usize, usize)>,
) -> bool {
    &&& s < env.n() && env.names_view()[s as int] == start
    &&& e < env.n() && env.names_view()[e as int] == end
    &&& valid_draws(goal_matrix(env.rewards_view(), e as int), draws)
    &&& draws.len() == cfg.episodes
    &&& (match spec_route_states(
        env.names_view(),
        env.rewards_view(),
        cfg.gamma_num as int,
        cfg.alpha_num as int,
        draws,
        s,
        e,
    ) {
        Some(states) => r matches Ok(p) && p.deep_view() == names_of_states(
            env.names_view(),
            states,
        ),
        None => r matches Err(err) && err == RouteError::RouteExtractionStalled,
    })
}

/// `r` is what one waypoint query returns when the two independent
/// trainings drew exactly `d1` and `d2`: the first leg's locations with
/// the second leg's appended after its duplicated waypoint, or a stall
/// error when either leg's walk gives up.
pub open spec fn best_route_follows_draws(
    env: Environment,
    cfg: Config,
    r: Result<Vec<String>, RouteError>,
    start: Seq<char>,
    via: Seq<char>,
    end: Seq<char>,
    a: usize,
    b: usize,
    c: usize,
    d1: Seq<(usize, usize)>,
    d2: Seq<(usize, usize)>,
) -> bool {
    &&& a < env.n() && env.names_view()[a as int] == start
    &&& b < env.n() && env.names_view()[b as int] == via
    &&& c < env.n() && env.names_view()[c as int] == end
    &&& valid_draws(goal_matrix(env.rewards_view(), b as int), d1)
    &&& d1.len() == cfg.episodes
    &&& valid_draws(goal_matrix(env.rewards_view(), c as int), d2)
    &&& d2.len() == cfg.episodes
    &&& (match (
        spec_route_states(
            env.names_view(),
            env.rewards_view(),
            cfg.gamma_num as int,
            cfg.alpha_num as int,
            d1,
            a,
            b,
        ),
        spec_route_states(
            env.names_view(),
            env.rewards_view(),
            cfg.gamma_num as int,
            cfg.alpha_num as int,
            d2,
            b,
            c,
        ),
    ) {
        (Some(p1), Some(p2)) => r matches Ok(p) && p.deep_view() == names_of_states(
            env.names_view(),
            p1,
        ) + names_of_states(env.names_view(), p2).drop_first(),
        _ => r matches Err(err) && err == RouteError::RouteExtractionStalled,
    })
}

/// A waypoint query equals its two one-leg queries stitched together:
/// whenever the three-point query and the two two-point queries are run
/// on the same drawn transitions and both legs succeed, the three-point
/// route is the first leg concatenated with the second leg minus the
/// duplicated waypoint entry at the join.
pub proof fn lemma_best_route_is_composition(
    env: Environment,
    cfg: Config,
    r1: Result<Vec<String>, RouteError>,
    r2: Result<Vec<String>, RouteError>,
    rb: Result<Vec<String>, RouteError>,
    start: Seq<char>,
    via: Seq<char>,
    end: Seq<char>,
    a: usize,
    b: usize,
    c: usize,
    d1: Seq<(usize, usize)>,
    d2: Seq<(usize, usize)>,
)
    requires
        route_follows_draws(env, cfg, r1, start, via, a, b, d1),
        route_follows_draws(env, cfg, r2, via, end, b, c, d2),
        best_route_follows_draws(env, cfg, rb, start, via, end, a, b, c, d1, d2),
        r1 matches Ok(_),
        r2 matches Ok(_),
    ensures
        rb matches Ok(p) && p.deep_view() == r1->Ok_0.deep_view() + r2->Ok_0.deep_view().drop_first(),
{
}

/// Read the visited states back as names.
fn states_to_names(env: &Environment, states: &Vec<usize>) -> (r: Vec<String>)
    requires
        env.wf(),
        forall|k: int| 0 <= k < states@.len() ==> #[trigger] states@[k] < env.n(),
    ensures
        r.deep_view() == names_of_states(env.names_view(), states@),
        r@.len() == states@.len(),
{
    let mut r: Vec<String> = Vec::new();
    let mut k: usize = 0;
    while k < states.len()
        invariant
            k <= states@.len(),
            env.wf(),
            forall|k2: int| 0 <= k2 < states@.len() ==> #[trigger] states@[k2] < env.n(),
            r@.len() == k,
            forall|k2: int| 0 <= k2 < k ==> #[trigger] r.deep_view()[k2] == env.names_view()[states@[k2] as int],
        decreases states@.len() - k,
    {
        let name = env.name_of(states[k]);
        let ghost r0 = r;
        r.push(name);
        proof {
            assert(forall|k2: int| 0 <= k2 < k ==> #[trigger] r.deep_view()[k2] == r0.deep_view()[k2]);
            assert(r.deep_view()[k as int] == name@);
        }
        k = k + 1;
    }
    proof {
        assert(r.deep_view() =~= names_of_states(env.names_view(), states@));
    }
    r
}

/// The learned route between two named locations.
///
/// An unknown name is rejected before any training runs, and the error
/// names it; with both names known, a fresh table is trained against the
/// goal-augmented matrix with randomness from `src`, and the result is
/// exactly the greedy walk of that table: the visited locations on
/// success, a stall error if the walk does not reach the goal within one
/// step per location. Asking for a route from a location to itself
/// yields that single location.
pub fn route(
    env: &Environment,
    cfg: &Config,
    src: &mut RandomSource,
    start: &str,
    end: &str,
) -> (r: Result<Vec<String>, RouteError>)
    requires
        env.wf(),
        cfg.wf(),
    ensures
        !known_name(env.names_view(), start@) ==> (r matches Err(RouteError::UnknownLocation(nm))
            && nm@ == start@),
        known_name(env.names_view(), start@) && !known_name(env.names_view(), end@) ==> (r matches
            Err(RouteError::UnknownLocation(nm)) && nm@ == end@),
        known_name(env.names_view(), start@) && known_name(env.names_view(), end@) ==> exists|
            s: usize,
            e: usize,
            draws: Seq<(usize, usize)>,
        | route_follows_draws(*env, *cfg, r, start@, end@, s, e, draws),
        r matches Ok(p) ==> {
            &&& p@.len() >= 1
            &&& p@.len() <= env.n() + 1
            &&& p.deep_view()[0] == start@
            &&& p.deep_view().last() == end@
        },
        known_name(env.names_view(), start@) && start@ == end@ ==> (r matches Ok(p)
            && p.deep_view() =~= seq![start@]),
{
    let s = match env.state_of(start) {
        Some(s) => s,
        None => {
            return Err(RouteError::UnknownLocation(String::from_str(start)));
        },
    };
    let e = match env.state_of(end) {
        Some(e) => e,
        None => {
            return Err(RouteError::UnknownLocation(String::from_str(end)));
        },
    };
    let n = env.len();
    let goal = env.rewards_for_goal(e);
    let ghost gv = mat_view(goal);
    proof {
        assert(mat_wf(gv, gv.len(), MAX_REWARD as int));
    }
    let q = train(&goal, cfg, src);
    proof {
        assert(gv[e as int][e as int] > 0);
        assert(state_playable(gv, e as int));
    }
    let ghost ds = choose|ds: Seq<(usize, usize)>|
        {
            &&& valid_draws(gv, ds)
            &&& ds.len() == cfg.episodes
            &&& q@ == spec_train(gv, cfg.gamma_num as int, cfg.alpha_num as int, ds)
        };
    match extract_route(&q, s, e, n) {
        Ok(states) => {
            proof {
                crate::extract::lemma_walk_props(q@, s, e, n as nat);
                if start@ == end@ {
                    if s != e {
                        if s < e {
                            assert(env.names_view()[s as int] != env.names_view()[e as int]);
                        } else {
                            assert(env.names_view()[e as int] != env.names_view()[s as int]);
                        }
                        assert(false);
                    }
                    assert(spec_walk(q@, s, e, n as nat) == Some(seq![s]));
                    assert(states@ =~= seq![s]);
                }
            }
            let named = states_to_names(env, &states);
            let res: Result<Vec<String>, RouteError> = Ok(named);
            proof {
                assert(named.deep_view()[0] == env.names_view()[states@[0] as int]);
                assert(named.deep_view().last() == env.names_view()[states@.last() as int]);
                if start@ == end@ {
                    assert(named.deep_view() =~= seq![start@]);
                }
                assert(route_follows_draws(*env, *cfg, res, start@, end@, s, e, ds));
            }
            res
        },
        Err(err) => {
            let res: Result<Vec<String>, RouteError> = Err(err);
            proof {
                assert(err == RouteError::RouteExtractionStalled);
                assert(route_follows_draws(*env, *cfg, res, start@, end@, s, e, ds));
            }
            res
        },
    }
}

/// The learned route from `start` to `end` through the waypoint `via`:
/// the two legs are trained and extracted independently, and the second
/// leg is appended without repeating the waypoint it starts with.
///
/// All three names are checked before any training runs; the first
/// unknown one, in the order start, via, end, is named in the error.
pub fn best_route(
    env: &Environment,
    cfg: &Config,
    src: &mut RandomSource,
    start: &str,
    via: &str,
    end: &str,
) -> (r: Result<Vec<String>, RouteError>)
    requires
        env.wf(),
        cfg.wf(),
    ensures
        !known_name(env.names_view(), start@) ==> (r matches Err(RouteError::UnknownLocation(nm))
            && nm@ == start@),
        known_name(env.names_view(), start@) && !known_name(env.names_view(), via@) ==> (r matches
            Err(RouteError::UnknownLocation(nm)) && nm@ == via@),
        known_name(env.names_view(), start@) && known_name(env.names_view(), via@) && !known_name(
            env.names_view(),
            end@,
        ) ==> (r matches Err(RouteError::UnknownLocation(nm)) && nm@ == end@),
        known_name(env.names_view(), start@) && known_name(env.names_view(), via@) && known_name(
            env.names_view(),
            end@,
        ) ==> exists|
            a: usize,
            b: usize,
            c: usize,
            d1: Seq<(usize, usize)>,
            d2: Seq<(usize, usize)>,
        | best_route_follows_draws(*env, *cfg, r, start@, via@, end@, a, b, c, d1, d2),
        r matches Ok(p) ==> {
            &&& p@.len() >= 1
            &&& p.deep_view()[0] == start@
            &&& p.deep_view().last() == end@
        },
{
    // Fail fast: every name is looked up before any training runs.
    if env.state_of(start).is_none() {
        return Err(RouteError::UnknownLocation(String::from_str(start)));
    }
    if env.state_of(via).is_none() {
        return Err(RouteError::UnknownLocation(String::from_str(via)));
    }
    let e_probe = env.state_of(end);
    let c0 = match e_probe {
        Some(c0) => c0,
        None => {
            return Err(RouteError::UnknownLocation(String::from_str(end)));
        },
    };
    let first_res = route(env, cfg, src, start, via);
    let first = match first_res {
        Ok(p) => p,
        Err(err) => {
            let res: Result<Vec<String>, RouteError> = Err(err);
            proof {
                let (s0, e0, ds0): (usize, usize, Seq<(usize, usize)>) = choose|
                    s0: usize,
                    e0: usize,
                    ds0: Seq<(usize, usize)>,
                | route_follows_draws(*env, *cfg, first_res, start@, via@, s0, e0, ds0);
                let filler = Seq::new(cfg.episodes as nat, |i: int| (c0, c0));
                let gv2 = goal_matrix(env.rewards_view(), c0 as int);
                assert(gv2[c0 as int][c0 as int] == crate::GOAL_BONUS as int);
                assert(forall|k: int| 0 <= k < filler.len() ==> #[trigger] filler[k] == (c0, c0));
                assert(valid_draws(gv2, filler));
                assert(best_route_follows_draws(
                    *env,
                    *cfg,
                    res,
                    start@,
                    via@,
                    end@,
                    s0,
                    e0,
                    c0,
                    ds0,
                    filler,
                ));
            }
            return res;
        },
    };
    let second_res = route(env, cfg, src, via, end);
    let ghost first_wit: (usize, usize, Seq<(usize, usize)>) = choose|
        s0: usize,
        e0: usize,
        ds0: Seq<(usize, usize)>,
    | route_follows_draws(*env, *cfg, first_res, start@, via@, s0, e0, ds0);
    let ghost second_wit: (usize, usize, Seq<(usize, usize)>) = choose|
        s1: usize,
        e1: usize,
        ds1: Seq<(usize, usize)>,
    | route_follows_draws(*env, *cfg, second_res, via@, end@, s1, e1, ds1);
    proof {
        // The waypoint's state is the same in both legs: names are
        // distinct, and both witnesses name `via`.
        let e0 = first_wit.1;
        let s1 = second_wit.0;
        if e0 != s1 {
            if e0 < s1 {
                assert(env.names_view()[e0 as int] != env.names_view()[s1 as int]);
            } else {
                assert(env.names_view()[s1 as int] != env.names_view()[e0 as int]);
            }
            assert(false);
        }
    }
    let second = match second_res {
        Ok(p) => p,
        Err(err) => {
            let res: Result<Vec<String>, RouteError> = Err(err);
            proof {
                assert(best_route_follows_draws(
                    *env,
                    *cfg,
                    res,
                    start@,
                    via@,
                    end@,
                    first_wit.0,
                    first_wit.1,
                    second_wit.1,
                    first_wit.2,
                    second_wit.2,
                ));
            }
            return res;
        },
    };
    let mut out = first;
    let ghost out0 = out.deep_view();
    let mut k: usize = 1;
    while k < second.len()
        invariant
            1 <= k <= second@.len(),
            second@.len() >= 1,
            out.deep_view() =~= out0 + second.deep_view().subrange(1, k as int),
        decreases second@.len() - k,
    {
        let ghost outk = out.deep_view();
        let name = second[k].clone();
        out.push(name);
        proof {
            assert(out.deep_view() =~= outk.push(second.deep_view()[k as int]));
            assert(out.deep_view() =~= out0 + second.deep_view().subrange(1, k + 1));
        }
        k = k + 1;
    }
    let res: Result<Vec<String>, RouteError> = Ok(out);
    proof {
        let p = res->Ok_0;
        assert(second.deep_view().subrange(1, second.deep_view().len() as int)
            =~= second.deep_view().drop_first());
        assert(p.deep_view() =~= out0 + second.deep_view().drop_first());
        if second.deep_view().len() > 1 {
            assert(p.deep_view().last() == second.deep_view().last());
        } else {
            assert(p.deep_view() =~= out0);
            assert(second.deep_view()[0] == second.deep_view().last());
        }
        assert(best_route_follows_draws(
            *env,
            *cfg,
            res,
            start@,
            via@,
            end@,
            first_wit.0,
            first_wit.1,
            second_wit.1,
            first_wit.2,
            second_wit.2,
        ));
    }
    res
}

} // verus!
