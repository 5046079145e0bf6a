//! Greedy route extraction: a deterministic walk over a trained table that
//! always advances to the highest-valued next state, breaking ties toward
//! the lowest index, under a step bound.
use vstd::prelude::*;

use crate::learn::QTable;
use crate::RouteError;

verus! {

/// Index of the largest value of `row[i..]`, ties broken toward the
/// lowest index.
pub open spec fn argmax_from(row: Seq<int>, i: int) -> int
    recommends
        0 <= i < row.len(),
    decreases row.len() - i,
{
    if i + 1 >= row.len() {
        i
    } else {
        let rest = argmax_from(row, i + 1);
        if row[rest] > row[i] {
            rest
        } else {
            i
        }
    }
}

/// Index of the first occurrence of the row's largest value: the action a
/// linear scan with strict-greater replacement settles on.
pub open spec fn spec_argmax(row: Seq<int>) -> int {
    argmax_from(row, 0)
}

/// The suffix argmax is in range, attains the maximum of the suffix, and
/// every strictly earlier entry of the suffix is strictly below it.
pub proof fn lemma_argmax_from_props(row: Seq<int>, i: int)
    requires
        0 <= i < row.len(),
    ensures
        i <= argmax_from(row, i) < row.len(),
        forall|j: int| i <= j < row.len() ==> #[trigger] row[j] <= row[argmax_from(row, i)],
        forall|j: int| i <= j < argmax_from(row, i) ==> #[trigger] row[j] < row[argmax_from(row, i)],
    decreases row.len() - i,
{
    if i + 1 < row.len() {
        lemma_argmax_from_props(row, i + 1);
    }
}

/// The argmax is the unique in-range index that attains the maximum and
/// strictly exceeds every earlier entry.
pub proof fn lemma_argmax_unique(row: Seq<int>, b: int)
    requires
        0 <= b < row.len(),
        forall|j: int| 0 <= j < row.len() ==> #[trigger] row[j] <= row[b],
        forall|j: int| 0 <= j < b ==> #[trigger] row[j] < row[b],
    ensures
        b == spec_argmax(row),
{
    lemma_argmax_from_props(row, 0);
    let a = spec_argmax(row);
    if b < a {
        assert(row[b] < row[a]);
        assert(row[a] <= row[b]);
    } else if a < b {
        assert(row[a] < row[b]);
        assert(row[b] <= row[a]);
    }
}

/// Prepend a prefix to a walk's outcome, if it reached the goal.
pub open spec fn opt_prepend(prefix: Seq<usize>, rest: Option<Seq<usize>>) -> Option<Seq<usize>> {
    match rest {
        Some(s) => Some(prefix + s),
        None => None,
    }
}

/// The greedy walk: starting at `cur`, repeatedly advance to the
/// first-best action of the current row until the goal is reached, or
/// give up once `fuel` moves have been spent. `Some` holds the visited
/// states, goal included; `None` means the walk stalled.
pub open spec fn spec_walk(q: Seq<Seq<int>>, cur: usize, end: usize, fuel: nat) -> Option<
    Seq<usize>,
>
    decreases fuel,
{
    if cur == end {
        Some(seq![cur])
    } else if fuel == 0 {
        None
    } else {
        let nxt = spec_argmax(q[cur as int]) as usize;
        opt_prepend(seq![cur], spec_walk(q, nxt, end, (fuel - 1) as nat))
    }
}

/// What a successful walk looks like: it starts at `cur`, ends at the
/// goal, visits at most `fuel + 1` states, and each move is the greedy
/// choice out of the state before it.
pub proof fn lemma_walk_props(q: Seq<Seq<int>>, cur: usize, end: usize, fuel: nat)
    requires
        spec_walk(q, cur, end, fuel) is Some,
    ensures
        ({
            let path = spec_walk(q, cur, end, fuel)->Some_0;
            &&& path.len() >= 1
            &&& path.len() <= fuel + 1
            &&& path[0] == cur
            &&& path.last() == end
            &&& forall|k: int| 0 <= k < path.len() - 1 ==> #[trigger] path[k + 1]
                == spec_argmax(q[path[k] as int]) as usize
            &&& forall|k: int| 0 <= k < path.len() - 1 ==> #[trigger] path[k] != end
        }),
    decreases fuel,
{
    let path = spec_walk(q, cur, end, fuel)->Some_0;
    if cur == end {
        assert(path =~= seq![cur]);
    } else {
        let nxt = spec_argmax(q[cur as int]) as usize;
        lemma_walk_props(q, nxt, end, (fuel - 1) as nat);
        let rest = spec_walk(q, nxt, end, (fuel - 1) as nat)->Some_0;
        assert(path =~= seq![cur] + rest);
        assert(path[0] == cur);
        assert(forall|k: int| 1 <= k < path.len() ==> path[k] == #[trigger] rest[k - 1]);
        assert(path[1] == rest[0]);
        assert(path.last() == rest.last());
        assert forall|k: int| 0 <= k < path.len() - 1 implies #[trigger] path[k + 1]
            == spec_argmax(q[path[k] as int]) as usize by {
            if k == 0 {
                assert(path[1] == nxt);
            } else {
                assert(rest[k - 1 + 1] == spec_argmax(q[rest[k - 1] as int]) as usize);
            }
        }
        assert forall|k: int| 0 <= k < path.len() - 1 implies #[trigger] path[k] != end by {
            if k > 0 {
                assert(rest[k - 1] != end);
            }
        }
    }
}

/// Extraction is deterministic: the same table, start, goal and step
/// bound give the same outcome, route for route.
pub proof fn lemma_extraction_deterministic(
    q: Seq<Seq<int>>,
    start: usize,
    end: usize,
    fuel: nat,
    r1: Option<Seq<usize>>,
    r2: Option<Seq<usize>>,
)
    requires
        r1 == spec_walk(q, start, end, fuel),
        r2 == spec_walk(q, start, end, fuel),
    ensures
        r1 == r2,
{
}

/// The first-best action of row `s` of the table.
fn argmax_row(q: &QTable, s: usize) -> (a: usize)
    requires
        q.wf(),
        s < q@.len(),
        q@.len() >= 1,
    ensures
        a as int == spec_argmax(q@[s as int]),
        a < q@.len(),
{
    let n = q.size();
    let mut best: usize = 0;
    let mut best_val: i64 = q.value(s, 0);
    let mut j: usize = 1;
    while j < n
        invariant
            1 <= j <= n,
            n == q@.len(),
            s < n,
            q.wf(),
            best < j,
            best_val == q@[s as int][best as int],
            forall|k: int| 0 <= k < j ==> #[trigger] q@[s as int][k] <= q@[s as int][best as int],
            forall|k: int| 0 <= k < best ==> #[trigger] q@[s as int][k] < q@[s as int][best as int],
        decreases n - j,
    {
        let v = q.value(s, j);
        if v > best_val {
            best = j;
            best_val = v;
        }
        j = j + 1;
    }
    proof {
        lemma_argmax_unique(q@[s as int], best as int);
    }
    best
}

/// Walk the trained table greedily from `start` until `end`, giving up
/// after `max_steps` moves. The result is exactly the walk that
/// [`spec_walk`] describes: the visited states on success, and a stall
/// error if and only if the walk does not reach the goal in bound.
pub fn extract_route(q: &QTable, start: usize, end: usize, max_steps: usize) -> (r: Result<
    Vec<usize>,
    RouteError,
>)
    requires
        q.wf(),
        q@.len() >= 1,
        start < q@.len(),
        end < q@.len(),
    ensures
        match r {
            Ok(path) => {
                &&& spec_walk(q@, start, end, max_steps as nat) == Some(path@)
                &&& forall|k: int| 0 <= k < path@.len() ==> #[trigger] path@[k] < q@.len()
            },
            Err(e) => {
                &&& e == RouteError::RouteExtractionStalled
                &&& spec_walk(q@, start, end, max_steps as nat) is None
            },
        },
{
    let mut cur: usize = start;
    let mut path: Vec<usize> = Vec::new();
    while cur != end && path.len() < max_steps
        invariant
            q.wf(),
            q@.len() >= 1,
            start < q@.len(),
            end < q@.len(),
            cur < q@.len(),
            path@.len() <= max_steps,
            forall|k: int| 0 <= k < path@.len() ==> #[trigger] path@[k] < q@.len(),
            spec_walk(q@, start, end, max_steps as nat) == opt_prepend(
                path@,
                spec_walk(q@, cur, end, (max_steps - path@.len()) as nat),
            ),
        decreases max_steps - path@.len(),
    {
        let ghost fuel = (max_steps - path@.len()) as nat;
        let ghost path0 = path@;
        let ghost cur0 = cur;
        let nxt = argmax_row(q, cur);
        path.push(cur);
        cur = nxt;
        proof {
            assert(path@ =~= path0.push(cur0));
            assert(spec_walk(q@, cur0, end, fuel) == opt_prepend(
                seq![cur0],
                spec_walk(q@, nxt, end, (fuel - 1) as nat),
            ));
            match spec_walk(q@, nxt, end, (fuel - 1) as nat) {
                Some(rest) => {
                    assert(path0 + (seq![cur0] + rest) =~= path0.push(cur0) + rest);
                },
                None => {},
            }
        }
    }
    if cur == end {
        proof {
            let fuel = (max_steps - path@.len()) as nat;
            assert(spec_walk(q@, cur, end, fuel) == Some(seq![cur]));
        }
        let ghost path0 = path@;
        path.push(cur);
        proof {
            assert(path@ =~= path0 + seq![cur]);
        }
        Ok(path)
    } else {
        proof {
            assert(path@.len() == max_steps);
            assert(spec_walk(q@, cur, end, 0nat) is None);
        }
        Err(RouteError::RouteExtractionStalled)
    }
}

} // verus!
