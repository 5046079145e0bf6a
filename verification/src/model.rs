//! The environment model: the fixed set of named locations, their state
//! indices, the base reward matrix, and the goal-augmented matrix that a
//! single query trains against.
use std::collections::HashMap;
use vstd::prelude::*;
use vstd::string::StringExecFns;

use crate::matrix::{mat_view, mat_wf, row_wf};
use crate::{GOAL_BONUS, MAX_REWARD};

verus! {

broadcast use vstd::std_specs::hash::group_hash_axioms;

/// No two locations share a name.
pub open spec fn names_distinct(names: Seq<Seq<char>>) -> bool {
    forall|i: int, j: int| 0 <= i < j < names.len() ==> names[i] != names[j]
}

/// The data of a well-formed environment: at least one location, distinct
/// names, and a square reward matrix of matching side whose entries lie
/// in `[0, MAX_REWARD]`.
pub open spec fn env_data_wf(names: Seq<Seq<char>>, rewards: Seq<Seq<int>>) -> bool {
    &&& names.len() >= 1
    &&& names_distinct(names)
    &&& mat_wf(rewards, names.len(), MAX_REWARD as int)
}

/// The name is one of the environment's locations.
pub open spec fn known_name(names: Seq<Seq<char>>, name: Seq<char>) -> bool {
    exists|i: int| 0 <= i < names.len() && names[i] == name
}

/// The base matrix with the goal's self-transition boosted: the one entry
/// `[goal][goal]` becomes `GOAL_BONUS` and every other entry is kept.
pub open spec fn goal_matrix(m: Seq<Seq<int>>, goal: int) -> Seq<Seq<int>> {
    m.update(goal, m[goal].update(goal, GOAL_BONUS as int))
}

/// The fixed environment of one query: location names, their state
/// indices (a name's position), and the base reward matrix.
pub struct Environment {
    names: Vec<String>,
    rewards: Vec<Vec<i64>>,
}

impl Environment {
    /// The location names, as the mapping from state index to name.
    pub closed spec fn names_view(self) -> Seq<Seq<char>> {
        self.names.deep_view()
    }

    /// The base reward matrix.
    pub closed spec fn rewards_view(self) -> Seq<Seq<int>> {
        mat_view(self.rewards)
    }

    /// Number of locations.
    pub open spec fn n(self) -> nat {
        self.names_view().len()
    }

    /// The environment's names are distinct and its matrix well-formed.
    pub open spec fn wf(self) -> bool {
        env_data_wf(self.names_view(), self.rewards_view())
    }

    /// Number of locations.
    pub fn len(&self) -> (n: usize)
        ensures
            n == self.n(),
    {
        self.names.len()
    }

    /// One entry of the base reward matrix.
    pub fn reward(&self, i: usize, j: usize) -> (r: i64)
        requires
            self.wf(),
            i < self.n(),
            j < self.n(),
        ensures
            r == self.rewards_view()[i as int][j as int],
    {
        crate::matrix::mat_get(&self.rewards, i, j)
    }

    /// The name of a state.
    pub fn name_of(&self, s: usize) -> (r: String)
        requires
            s < self.n(),
        ensures
            r@ == self.names_view()[s as int],
    {
        self.names[s].clone()
    }

    /// The fixed mapping from state index to location name, as a list:
    /// state `s` is the location `locations()[s]`.
    pub fn locations(&self) -> (r: Vec<String>)
        ensures
            r.deep_view() == self.names_view(),
    {
        let n = self.names.len();
        let mut r: Vec<String> = Vec::new();
        let mut i: usize = 0;
        while i < n
            invariant
                i <= n,
                n == self.names@.len(),
                r@.len() == i,
                forall|k: int| 0 <= k < i ==> #[trigger] r.deep_view()[k] == self.names_view()[k],
            decreases n - i,
        {
            let name = self.names[i].clone();
            let ghost r0 = r;
            r.push(name);
            proof {
                assert(forall|k: int| 0 <= k < i ==> #[trigger] r.deep_view()[k]
                    == r0.deep_view()[k]);
                assert(r.deep_view()[i as int] == self.names@[i as int]@);
            }
            i = i + 1;
        }
        proof {
            assert(r.deep_view() =~= self.names_view());
        }
        r
    }

    /// Build an environment after checking it is well formed: at least
    /// one location, no duplicate name, and a square matrix of side
    /// `names.len()` whose entries lie in `[0, MAX_REWARD]`. Returns
    /// `None` exactly when one of those checks fails.
    pub fn new(names: Vec<String>, rewards: Vec<Vec<i64>>) -> (r: Option<Environment>)
        ensures
            match r {
                Some(env) => {
                    &&& env.wf()
                    &&& env.names_view() == names.deep_view()
                    &&& env.rewards_view() == mat_view(rewards)
                },
                None => !env_data_wf(names.deep_view(), mat_view(rewards)),
            },
    {
        let n = names.len();
        proof {
            assert(names.deep_view().len() == n);
        }
        if n == 0 {
            return None;
        }
        // Distinct names.
        let mut i: usize = 0;
        while i < n
            invariant
                i <= n,
                n == names.deep_view().len(),
                n == names@.len(),
                forall|a: int, b: int| 0 <= a < b < i ==> names.deep_view()[a]
                    != names.deep_view()[b],
            decreases n - i,
        {
            let mut j: usize = 0;
            while j < i
                invariant
                    j <= i < n,
                    n == names.deep_view().len(),
                    n == names@.len(),
                    forall|b: int| 0 <= b < j ==> names.deep_view()[b] != names.deep_view()[i as int],
                decreases i - j,
            {
                if names[j] == names[i] {
                    proof {
                        assert(names.deep_view()[j as int] == names.deep_view()[i as int]);
                        assert(!names_distinct(names.deep_view()));
                    }
                    return None;
                }
                proof {
                    assert(names.deep_view()[j as int] == names@[j as int]@);
                    assert(names.deep_view()[i as int] == names@[i as int]@);
                }
                j = j + 1;
            }
            i = i + 1;
        }
        // Square matrix with entries in bounds.
        if rewards.len() != n {
            return None;
        }
        let mut i: usize = 0;
        while i < n
            invariant
                i <= n,
                n == names.deep_view().len(),
                n == mat_view(rewards).len(),
                forall|k: int| 0 <= k < i ==> row_wf(
                    #[trigger] mat_view(rewards)[k],
                    n as nat,
                    MAX_REWARD as int,
                ),
            decreases n - i,
        {
            if rewards[i].len() != n {
                proof {
                    assert(!row_wf(mat_view(rewards)[i as int], n as nat, MAX_REWARD as int));
                }
                return None;
            }
            let mut j: usize = 0;
            while j < n
                invariant
                    j <= n,
                    i < n,
                    n == names.deep_view().len(),
                    n == mat_view(rewards).len(),
                    mat_view(rewards)[i as int].len() == n,
                    forall|k: int| 0 <= k < j ==> 0 <= #[trigger] mat_view(rewards)[i as int][k]
                        <= MAX_REWARD,
                decreases n - j,
            {
                let v = rewards[i][j];
                if v < 0 || v > MAX_REWARD {
                    proof {
                        assert(mat_view(rewards)[i as int][j as int] == v as int);
                        assert(!row_wf(mat_view(rewards)[i as int], n as nat, MAX_REWARD as int));
                    }
                    return None;
                }
                j = j + 1;
            }
            i = i + 1;
        }
        Some(Environment { names, rewards })
    }

    /// The state index of a name: the position where it first occurs.
    /// `None` exactly when the name is not a location of the environment.
    pub fn state_of(&self, name: &str) -> (r: Option<usize>)
        requires
            self.wf(),
        ensures
            match r {
                Some(s) => {
                    &&& s < self.n()
                    &&& self.names_view()[s as int] == name@
                },
                None => !known_name(self.names_view(), name@),
            },
    {
        let want: String = String::from_str(name);
        let n = self.names.len();
        let mut i: usize = 0;
        while i < n
            invariant
                i <= n,
                n == self.names_view().len(),
                n == self.names@.len(),
                want@ == name@,
                self.names_view() == self.names.deep_view(),
                forall|k: int| 0 <= k < i ==> self.names_view()[k] != name@,
            decreases n - i,
        {
            if self.names[i] == want {
                proof {
                    assert(self.names_view()[i as int] == self.names@[i as int]@);
                }
                return Some(i);
            }
            proof {
                assert(self.names_view()[i as int] == self.names@[i as int]@);
            }
            i = i + 1;
        }
        None
    }

    /// The goal-augmented reward matrix: a fresh copy of the base matrix
    /// in which exactly the one entry `[goal][goal]` is altered, to
    /// `GOAL_BONUS`.
    pub fn rewards_for_goal(&self, goal: usize) -> (m: Vec<Vec<i64>>)
        requires
            self.wf(),
            goal < self.n(),
        ensures
            mat_view(m) == goal_matrix(self.rewards_view(), goal as int),
            mat_wf(mat_view(m), self.n(), MAX_REWARD as int),
            mat_view(m)[goal as int][goal as int] == GOAL_BONUS as int,
            forall|i: int, j: int| 0 <= i < self.n() && 0 <= j < self.n()
                && !(i == goal && j == goal) ==> mat_view(m)[i][j] == self.rewards_view()[i][j],
    {
        let n = self.names.len();
        let ghost rv = self.rewards_view();
        let mut m: Vec<Vec<i64>> = Vec::new();
        let mut i: usize = 0;
        while i < n
            invariant
                i <= n,
                n == self.n(),
                rv == self.rewards_view(),
                mat_wf(rv, n as nat, MAX_REWARD as int),
                goal < n,
                m@.len() == i,
                forall|k: int| 0 <= k < i ==> #[trigger] mat_view(m)[k] =~= goal_matrix(rv, goal as int)[k],
            decreases n - i,
        {
            let mut row: Vec<i64> = Vec::new();
            let mut j: usize = 0;
            while j < n
                invariant
                    j <= n,
                    i < n,
                    n == self.n(),
                    rv == self.rewards_view(),
                    mat_wf(rv, n as nat, MAX_REWARD as int),
                    goal < n,
                    row@.len() == j,
                    forall|k: int| 0 <= k < j ==> #[trigger] row@[k] as int == (if i == goal && k
                        == goal {
                        GOAL_BONUS as int
                    } else {
                        rv[i as int][k]
                    }),
                decreases n - j,
            {
                if i == goal && j == goal {
                    row.push(GOAL_BONUS);
                } else {
                    row.push(crate::matrix::mat_get(&self.rewards, i, j));
                }
                j = j + 1;
            }
            let ghost m0 = m;
            m.push(row);
            proof {
                assert(forall|k: int| 0 <= k < i ==> #[trigger] mat_view(m)[k] == mat_view(m0)[k]);
                assert(mat_view(m)[i as int] =~= goal_matrix(rv, goal as int)[i as int]);
            }
            i = i + 1;
        }
        proof {
            assert(mat_view(m) =~~= goal_matrix(rv, goal as int));
            assert(mat_wf(mat_view(m), n as nat, MAX_REWARD as int));
        }
        m
    }
}

/// The names of the reference warehouse's twelve locations, in state
/// order.
pub open spec fn reference_names() -> Seq<Seq<char>> {
    seq!["A"@, "B"@, "C"@, "D"@, "E"@, "F"@, "G"@, "H"@, "I"@, "J"@, "K"@, "L"@]
}

/// The directed half of the reference warehouse's aisles, listed once.
pub open spec fn ref_pair(i: int, j: int) -> bool {
    ||| (i == 0 && j == 1)
    ||| (i == 1 && j == 2)
    ||| (i == 1 && j == 5)
    ||| (i == 2 && j == 6)
    ||| (i == 3 && j == 7)
    ||| (i == 4 && j == 8)
    ||| (i == 5 && j == 9)
    ||| (i == 6 && j == 7)
    ||| (i == 7 && j == 11)
    ||| (i == 8 && j == 9)
    ||| (i == 9 && j == 10)
    ||| (i == 10 && j == 11)
}

/// The reference warehouse's aisles: symmetric, unit reward.
pub open spec fn ref_edge(i: int, j: int) -> bool {
    ref_pair(i, j) || ref_pair(j, i)
}

/// One entry of the reference base reward matrix: one where an aisle
/// joins the two locations, zero where none does.
pub open spec fn ref_reward(i: int, j: int) -> int {
    if ref_edge(i, j) {
        1
    } else {
        0
    }
}

/// Whether an aisle joins locations `i` and `j` of the reference
/// warehouse.
fn ref_edge_exec(i: usize, j: usize) -> (b: bool)
    ensures
        b == ref_edge(i as int, j as int),
{
    let fwd = (i == 0 && j == 1) || (i == 1 && j == 2) || (i == 1 && j == 5) || (i == 2 && j == 6)
        || (i == 3 && j == 7) || (i == 4 && j == 8) || (i == 5 && j == 9) || (i == 6 && j == 7)
        || (i == 7 && j == 11) || (i == 8 && j == 9) || (i == 9 && j == 10) || (i == 10 && j
        == 11);
    let bwd = (j == 0 && i == 1) || (j == 1 && i == 2) || (j == 1 && i == 5) || (j == 2 && i == 6)
        || (j == 3 && i == 7) || (j == 4 && i == 8) || (j == 5 && i == 9) || (j == 6 && i == 7)
        || (j == 7 && i == 11) || (j == 8 && i == 9) || (j == 9 && i == 10) || (j == 10 && i
        == 11);
    fwd || bwd
}

impl Environment {
    /// The reference warehouse: twelve locations `"A"` through `"L"`,
    /// joined by unit-reward aisles as [`ref_edge`] lays them out.
    pub fn reference() -> (env: Environment)
        ensures
            env.wf(),
            env.n() == 12,
            env.names_view() == reference_names(),
            forall|i: int, j: int| 0 <= i < 12 && 0 <= j < 12 ==> env.rewards_view()[i][j]
                == ref_reward(i, j),
    {
        let mut names: Vec<String> = Vec::new();
        names.push(String::from_str("A"));
        names.push(String::from_str("B"));
        names.push(String::from_str("C"));
        names.push(String::from_str("D"));
        names.push(String::from_str("E"));
        names.push(String::from_str("F"));
        names.push(String::from_str("G"));
        names.push(String::from_str("H"));
        names.push(String::from_str("I"));
        names.push(String::from_str("J"));
        names.push(String::from_str("K"));
        names.push(String::from_str("L"));
        proof {
            assert(names.deep_view() =~= reference_names());
            reveal_strlit("A");
            reveal_strlit("B");
            reveal_strlit("C");
            reveal_strlit("D");
            reveal_strlit("E");
            reveal_strlit("F");
            reveal_strlit("G");
            reveal_strlit("H");
            reveal_strlit("I");
            reveal_strlit("J");
            reveal_strlit("K");
            reveal_strlit("L");
            assert(names_distinct(reference_names())) by {
                assert forall|i: int, j: int|
                    0 <= i < j < reference_names().len() implies reference_names()[i]
                    != reference_names()[j] by {
                    assert(reference_names()[i][0] != reference_names()[j][0]);
                }
            }
        }
        let mut rewards: Vec<Vec<i64>> = Vec::new();
        let mut i: usize = 0;
        while i < 12
            invariant
                i <= 12,
                rewards@.len() == i,
                forall|k: int| 0 <= k < i ==> row_wf(#[trigger] mat_view(rewards)[k], 12, MAX_REWARD as int),
                forall|k: int, j: int| 0 <= k < i && 0 <= j < 12 ==> mat_view(rewards)[k][j]
                    == ref_reward(k, j),
            decreases 12 - i,
        {
            let mut row: Vec<i64> = Vec::new();
            let mut j: usize = 0;
            while j < 12
                invariant
                    j <= 12,
                    i < 12,
                    row@.len() == j,
                    forall|k: int| 0 <= k < j ==> #[trigger] row@[k] as int == ref_reward(
                        i as int,
                        k,
                    ),
                decreases 12 - j,
            {
                if ref_edge_exec(i, j) {
                    row.push(1);
                } else {
                    row.push(0);
                }
                j = j + 1;
            }
            let ghost rewards0 = rewards;
            rewards.push(row);
            proof {
                assert(forall|k: int| 0 <= k < i ==> #[trigger] mat_view(rewards)[k] == mat_view(
                    rewards0,
                )[k]);
                assert(forall|j: int| 0 <= j < 12 ==> #[trigger] mat_view(rewards)[i as int][j]
                    == ref_reward(i as int, j));
                assert(row_wf(mat_view(rewards)[i as int], 12, MAX_REWARD as int));
            }
            i = i + 1;
        }
        let env = Environment { names, rewards };
        proof {
            assert(env.names_view() == reference_names());
            assert(mat_wf(env.rewards_view(), 12, MAX_REWARD as int));
        }
        env
    }
}

/// The mapping from each state index of the reference warehouse back to
/// its location name, as the original presents it.
pub fn state_to_location() -> (m: HashMap<usize, &'static str>)
    ensures
        forall|s: usize| s < 12 ==> m@.contains_key(s) && (#[trigger] m@[s])@
            == reference_names()[s as int],
        forall|s: usize| #[trigger] m@.contains_key(s) ==> s < 12,
{
    let mut m: HashMap<usize, &'static str> = HashMap::new();
    m.insert(0, "A");
    m.insert(1, "B");
    m.insert(2, "C");
    m.insert(3, "D");
    m.insert(4, "E");
    m.insert(5, "F");
    m.insert(6, "G");
    m.insert(7, "H");
    m.insert(8, "I");
    m.insert(9, "J");
    m.insert(10, "K");
    m.insert(11, "L");
    m
}

} // verus!
