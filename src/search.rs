//! Cheapest-walk search: Dijkstra with tentative records and finalized flags.
//!
//! Each round finalizes the recorded, not yet finalized station of least
//! tentative cost (the first such station by index on ties) and relaxes its
//! outgoing edges; a record is replaced only by a strictly cheaper candidate,
//! so among equal-cost routes the first one discovered wins.
use vstd::prelude::*;
use crate::graph::{cost, is_cheapest, is_simple, is_walk, reachable, visits, Edge, MetroMap};

verus! {

/// Upper bound of a single edge's cost.
pub const MAX_EDGE_COST: u64 = 4294967295;

/// The number of `false` entries.
pub open spec fn count_false(s: Seq<bool>) -> nat
    decreases s.len(),
{
    if s.len() == 0 {
        0
    } else {
        count_false(s.drop_last()) + if s.last() { 0nat } else { 1nat }
    }
}

proof fn lemma_count_false_push(s: Seq<bool>, b: bool)
    ensures
        count_false(s.push(b)) == count_false(s) + if b { 0nat } else { 1nat },
{
    assert(s.push(b).drop_last() =~= s);
}

proof fn lemma_count_false_set(s: Seq<bool>, i: int)
    requires
        0 <= i < s.len(),
        !s[i],
    ensures
        count_false(s.update(i, true)) + 1 == count_false(s),
    decreases s.len(),
{
    if i == s.len() - 1 {
        assert(s.update(i, true).drop_last() =~= s.drop_last());
    } else {
        assert(s.update(i, true).drop_last() =~= s.drop_last().update(i, true));
        lemma_count_false_set(s.drop_last(), i);
    }
}

/// Costs of edges are never negative, so neither is a total.
pub proof fn lemma_cost_nonneg(p: Seq<Edge>)
    ensures
        cost(p) >= 0,
    decreases p.len(),
{
    if p.len() > 0 {
        lemma_cost_nonneg(p.drop_first());
    }
}

/// Every edge of a relaxed station `w` leads to a recorded station whose
/// tentative cost is at most `w`'s plus the edge's.
spec fn relaxed_upto(adj: Seq<Seq<Edge>>, seen: Seq<bool>, dist: Seq<u64>, w: int, k: int) -> bool {
    forall|j: int|
        0 <= j < k ==> {
            &&& seen[adj[w][j].to as int]
            &&& dist[adj[w][j].to as int] <= dist[w] + adj[w][j].cost
        }
}

/// A walk from a finalized station `w` (reached at cost `c0` or more) to a
/// station that is not finalized crosses some edge out of the finalized set,
/// so it costs at least the least tentative cost `mval` outside that set.
proof fn lemma_cut(
    adj: Seq<Seq<Edge>>,
    fin: Seq<bool>,
    seen: Seq<bool>,
    dist: Seq<u64>,
    w: int,
    q: Seq<Edge>,
    v: int,
    c0: int,
    mval: int,
)
    requires
        fin.len() == adj.len(),
        seen.len() == adj.len(),
        dist.len() == adj.len(),
        forall|a: int, k: int| 0 <= a < adj.len() && 0 <= k < adj[a].len() ==> adj[a][k].to < adj.len(),
        0 <= w < adj.len(),
        fin[w],
        dist[w] <= c0,
        is_walk(adj, w, q, v),
        !fin[v],
        forall|a: int| 0 <= a < adj.len() && fin[a] ==> relaxed_upto(adj, seen, dist, a, adj[a].len() as int),
        forall|y: int| 0 <= y < adj.len() && seen[y] && !fin[y] ==> mval <= dist[y],
    ensures
        mval <= c0 + cost(q),
    decreases q.len(),
{
    let e = q[0];
    let k = choose|k: int| 0 <= k < adj[w].len() && adj[w][k] == e;
    assert(relaxed_upto(adj, seen, dist, w, adj[w].len() as int));
    let x = e.to as int;
    assert(seen[x] && dist[x] <= dist[w] + e.cost);
    lemma_cost_nonneg(q.drop_first());
    if fin[x] {
        lemma_cut(adj, fin, seen, dist, x, q.drop_first(), v, c0 + e.cost, mval);
    }
}

/// The first recorded, not yet finalized station of least tentative cost.
fn select_min(dist: &Vec<u64>, seen: &Vec<bool>, fin: &Vec<bool>) -> (r: Option<usize>)
    requires
        dist.len() == seen.len(),
        fin.len() == seen.len(),
    ensures
        r matches Some(i) ==> {
            &&& i < seen.len()
            &&& seen@[i as int]
            &&& !fin@[i as int]
            &&& forall|y: int| 0 <= y < seen.len() && seen@[y] && !fin@[y] ==> dist@[i as int] <= dist@[y]
        },
        r is None ==> forall|y: int| 0 <= y < seen.len() ==> !(seen@[y] && !fin@[y]),
{
    let mut best: Option<usize> = None;
    let mut i: usize = 0;
    while i < seen.len()
        invariant
            i <= seen.len(),
            dist.len() == seen.len(),
            fin.len() == seen.len(),
            best matches Some(b) ==> {
                &&& b < i
                &&& seen@[b as int]
                &&& !fin@[b as int]
                &&& forall|y: int| 0 <= y < i && seen@[y] && !fin@[y] ==> dist@[b as int] <= dist@[y]
            },
            best is None ==> forall|y: int| 0 <= y < i ==> !(seen@[y] && !fin@[y]),
        decreases seen.len() - i,
    {
        if seen[i] && !fin[i] {
            match best {
                Some(b) => {
                    if dist[i] < dist[b] {
                        best = Some(i);
                    }
                },
                None => {
                    best = Some(i);
                },
            }
        }
        i += 1;
    }
    best
}

/// The search state: per station, its tentative cost, whether it has a record,
/// whether the record is final, and the predecessor and edge it was reached by.
struct Records {
    dist: Vec<u64>,
    seen: Vec<bool>,
    fin: Vec<bool>,
    pred: Vec<usize>,
    last_edge: Vec<Edge>,
}

impl Records {
    /// Records for a search from `s` among `n` stations: only `s`, final, at cost 0.
    fn start(n: usize, s: usize, Ghost(adj): Ghost<Seq<Seq<Edge>>>) -> (r: Records)
        requires
            s < n,
            adj.len() == n,
        ensures
            r.base(adj, s as int, Seq::new(n as nat, |y: int| 0), 1),
            r.bounded(n as int, 0),
    {
        let mut r = Records { dist: Vec::new(), seen: Vec::new(), fin: Vec::new(), pred: Vec::new(), last_edge: Vec::new() };
        let filler = Edge { to: 0, cost: 0, line: 0, direction: 0 };
        let mut i: usize = 0;
        while i < n
            invariant
                i <= n,
                r.dist.len() == i,
                r.seen.len() == i,
                r.fin.len() == i,
                r.pred.len() == i,
                r.last_edge.len() == i,
                forall|y: int| 0 <= y < i ==> !r.seen@[y] && !r.fin@[y] && r.dist@[y] == 0,
                count_false(r.fin@) == i,
            decreases n - i,
        {
            proof { lemma_count_false_push(r.fin@, false); }
            r.dist.push(0);
            r.seen.push(false);
            r.fin.push(false);
            r.pred.push(0);
            r.last_edge.push(filler);
            i += 1;
        }
        r.seen.set(s, true);
        proof { lemma_count_false_set(r.fin@, s as int); }
        r.fin.set(s, true);
        r
    }

    /// What holds of the records throughout a search from `s`, where `count`
    /// stations are final and `rank` gives the order in which they became so.
    spec fn base(&self, adj: Seq<Seq<Edge>>, s: int, rank: Seq<int>, count: int) -> bool {
        let n = adj.len();
        &&& self.dist.len() == n
        &&& self.seen.len() == n
        &&& self.fin.len() == n
        &&& self.pred.len() == n
        &&& self.last_edge.len() == n
        &&& rank.len() == n
        &&& 0 <= s < n
        &&& self.seen@[s]
        &&& self.fin@[s]
        &&& self.dist@[s] == 0
        &&& 1 <= count
        &&& count + count_false(self.fin@) == n
        &&& forall|y: int| 0 <= y < n && self.fin@[y] ==> self.seen@[y] && 0 <= rank[y] < count
        &&& forall|y: int|
            0 <= y < n && self.seen@[y] && y != s ==> {
                &&& self.pred@[y] < n
                &&& self.fin@[self.pred@[y] as int]
                &&& adj[self.pred@[y] as int].contains(self.last_edge@[y])
                &&& self.last_edge@[y].to == y
                &&& self.dist@[y] == self.dist@[self.pred@[y] as int] + self.last_edge@[y].cost
                &&& rank[self.pred@[y] as int] < count
            }
        &&& forall|y: int| 0 <= y < n && self.fin@[y] && y != s ==> rank[self.pred@[y] as int] < rank[y]
    }

    /// Final costs never exceed the cost of a record that is not final.
    spec fn ordered(&self, n: int) -> bool {
        forall|a: int, b: int|
            0 <= a < n && 0 <= b < n && self.fin@[a] && self.seen@[b] && !self.fin@[b] ==> self.dist@[a]
                <= self.dist@[b]
    }

    /// Every tentative cost is at most `bound`.
    spec fn bounded(&self, n: int, bound: int) -> bool {
        forall|y: int| 0 <= y < n && self.seen@[y] ==> self.dist@[y] <= bound
    }

    /// Makes the recorded station `v` final; `v` has the least tentative cost
    /// among the records that are not final, and becomes the last in `rank`.
    fn settle(&mut self, Ghost(adj): Ghost<Seq<Seq<Edge>>>, s: usize, v: usize, Ghost(rank): Ghost<Seq<int>>, Ghost(count): Ghost<int>)
        requires
            old(self).base(adj, s as int, rank, count),
            v < adj.len(),
            old(self).seen@[v as int],
            !old(self).fin@[v as int],
            forall|y: int|
                0 <= y < adj.len() && old(self).seen@[y] && !old(self).fin@[y] ==> old(self).dist@[v as int]
                    <= old(self).dist@[y],
            old(self).bounded(adj.len() as int, count * MAX_EDGE_COST),
            old(self).ordered(adj.len() as int),
            forall|a: int|
                0 <= a < adj.len() && old(self).fin@[a] ==> relaxed_upto(adj, old(self).seen@, old(self).dist@, a, adj[a].len() as int),
        ensures
            final(self).base(adj, s as int, rank.update(v as int, count), count + 1),
            final(self).fin@ == old(self).fin@.update(v as int, true),
            final(self).dist@ == old(self).dist@,
            final(self).seen@ == old(self).seen@,
            final(self).pred@ == old(self).pred@,
            final(self).last_edge@ == old(self).last_edge@,
            count_false(final(self).fin@) < count_false(old(self).fin@),
            final(self).bounded(adj.len() as int, count * MAX_EDGE_COST),
            forall|a: int| 0 <= a < adj.len() && final(self).fin@[a] ==> final(self).dist@[a] <= final(self).dist@[v as int],
            final(self).ordered(adj.len() as int),
            forall|a: int|
                0 <= a < adj.len() && final(self).fin@[a] && a != v ==> relaxed_upto(adj, final(self).seen@, final(self).dist@, a, adj[a].len() as int),
    {
        proof {
            lemma_count_false_set(self.fin@, v as int);
        }
        self.fin.set(v, true);
    }

    /// Relaxes every outgoing edge of the station `u` that has just become final.
    #[verifier::spinoff_prover]
    fn relax(&mut self, map: &MetroMap, s: usize, u: usize, Ghost(rank): Ghost<Seq<int>>, Ghost(count): Ghost<int>)
        requires
            map.wf(),
            old(self).base(map.adj(), s as int, rank, count),
            u < map.adj().len(),
            old(self).fin@[u as int],
            count <= u32::MAX,
            old(self).bounded(map.adj().len() as int, (count - 1) * MAX_EDGE_COST),
            forall|a: int| 0 <= a < map.adj().len() && old(self).fin@[a] ==> old(self).dist@[a] <= old(self).dist@[u as int],
            old(self).ordered(map.adj().len() as int),
            forall|a: int|
                0 <= a < map.adj().len() && old(self).fin@[a] && a != u ==> relaxed_upto(
                    map.adj(),
                    old(self).seen@,
                    old(self).dist@,
                    a,
                    map.adj()[a].len() as int,
                ),
        ensures
            final(self).base(map.adj(), s as int, rank, count),
            final(self).fin@ == old(self).fin@,
            final(self).bounded(map.adj().len() as int, count * MAX_EDGE_COST),
            final(self).ordered(map.adj().len() as int),
            forall|a: int| 0 <= a < map.adj().len() && final(self).fin@[a] ==> final(self).dist@[a] == old(self).dist@[a],
            forall|a: int|
                0 <= a < map.adj().len() && final(self).fin@[a] ==> relaxed_upto(
                    map.adj(),
                    final(self).seen@,
                    final(self).dist@,
                    a,
                    map.adj()[a].len() as int,
                ),
    {
        let ghost adj = map.adj();
        let ghost n = adj.len() as int;
        let row = map.edges(u);
        let du = self.dist[u];
        proof {
            assert((count - 1) * MAX_EDGE_COST + MAX_EDGE_COST <= u32::MAX as int * MAX_EDGE_COST) by (nonlinear_arith)
                requires count <= u32::MAX;
        }
        let mut k: usize = 0;
        while k < row.len()
            invariant
                map.wf(),
                adj == map.adj(),
                n == adj.len(),
                row@ == adj[u as int],
                k <= row.len(),
                u < n,
                self.base(adj, s as int, rank, count),
                self.fin@ == old(self).fin@,
                self.fin@[u as int],
                du == self.dist@[u as int],
                du <= (count - 1) * MAX_EDGE_COST,
                (count - 1) * MAX_EDGE_COST + MAX_EDGE_COST <= u32::MAX as int * MAX_EDGE_COST,
                self.bounded(n, count * MAX_EDGE_COST),
                forall|a: int| 0 <= a < n && self.fin@[a] ==> self.dist@[a] <= du,
                forall|a: int| 0 <= a < n && self.fin@[a] ==> self.dist@[a] == old(self).dist@[a],
                self.ordered(n),
                forall|a: int|
                    0 <= a < n && self.fin@[a] && a != u ==> relaxed_upto(adj, self.seen@, self.dist@, a, adj[a].len() as int),
                relaxed_upto(adj, self.seen@, self.dist@, u as int, k as int),
            decreases row.len() - k,
        {
            let e = row[k];
            let x = e.to;
            let cand: u64 = du + e.cost as u64;
            let ghost before_seen = self.seen@;
            let ghost before_dist = self.dist@;
            if !self.fin[x] && (!self.seen[x] || cand < self.dist[x]) {
                self.dist.set(x, cand);
                self.seen.set(x, true);
                self.pred.set(x, u);
                self.last_edge.set(x, e);
                proof {
                    assert(x != u);
                    assert(adj[u as int][k as int] == e);
                    assert(adj[u as int].contains(e));
                    let nd = self.dist@;
                    assert forall|y: int| 0 <= y < n && self.seen@[y] && y != s implies {
                        &&& self.pred@[y] < n
                        &&& self.fin@[self.pred@[y] as int]
                        &&& adj[self.pred@[y] as int].contains(self.last_edge@[y])
                        &&& self.last_edge@[y].to == y
                        &&& nd[y] == nd[self.pred@[y] as int] + self.last_edge@[y].cost
                        &&& rank[self.pred@[y] as int] < count
                    } by {
                        if y != x {
                            assert(before_seen[y]);
                            assert(self.pred@[y] != x);
                        }
                    }
                }
            }
            proof {
                assert forall|a: int| 0 <= a < n && self.fin@[a] && a != u implies relaxed_upto(adj, self.seen@, self.dist@, a, adj[a].len() as int) by {
                    assert(relaxed_upto(adj, before_seen, before_dist, a, adj[a].len() as int));
                    assert forall|j: int| 0 <= j < adj[a].len() implies {
                        &&& self.seen@[adj[a][j].to as int]
                        &&& self.dist@[adj[a][j].to as int] <= self.dist@[a] + adj[a][j].cost
                    } by {
                        assert(before_seen[adj[a][j].to as int]);
                    }
                }
                assert(relaxed_upto(adj, before_seen, before_dist, u as int, k as int));
                assert forall|j: int| 0 <= j < k + 1 implies {
                    &&& self.seen@[adj[u as int][j].to as int]
                    &&& self.dist@[adj[u as int][j].to as int] <= self.dist@[u as int] + adj[u as int][j].cost
                } by {
                    if j < k {
                        assert(before_seen[adj[u as int][j].to as int]);
                    }
                }
            }
            k += 1;
        }
    }
}

impl MetroMap {
    /// Follows the recorded predecessors back from `d` to `s`, giving the
    /// recorded walk from `s` to `d` in order.
    #[verifier::spinoff_prover]
    fn trace(
        &self,
        dist: &Vec<u64>,
        fin: &Vec<bool>,
        pred: &Vec<usize>,
        last_edge: &Vec<Edge>,
        s: usize,
        d: usize,
        rank: Ghost<Seq<int>>,
    ) -> (r: Vec<Edge>)
        requires
            self.wf(),
            s < self.names().len(),
            d < self.names().len(),
            dist.len() == self.names().len(),
            fin.len() == self.names().len(),
            pred.len() == self.names().len(),
            last_edge.len() == self.names().len(),
            rank@.len() == self.names().len(),
            fin@[d as int],
            dist@[s as int] == 0,
            forall|y: int| 0 <= y < self.names().len() && fin@[y] ==> rank@[y] >= 0,
            forall|y: int|
                0 <= y < self.names().len() && fin@[y] && y != s ==> {
                    &&& pred@[y] < self.names().len()
                    &&& fin@[pred@[y] as int]
                    &&& self.adj()[pred@[y] as int].contains(last_edge@[y])
                    &&& last_edge@[y].to == y
                    &&& dist@[y] == dist@[pred@[y] as int] + last_edge@[y].cost
                    &&& rank@[pred@[y] as int] < rank@[y]
                },
        ensures
            is_walk(self.adj(), s as int, r@, d as int),
            is_simple(s as int, r@),
            cost(r@) == dist@[d as int],
    {
        let ghost adj = self.adj();
        let ghost mut acc: Seq<Edge> = Seq::empty();
        let mut back: Vec<Edge> = Vec::new();
        let mut cur = d;
        while cur != s
            invariant
                self.wf(),
                cur < self.names().len(),
                pred.len() == self.names().len(),
                last_edge.len() == self.names().len(),
                fin.len() == self.names().len(),
                dist.len() == self.names().len(),
                rank@.len() == self.names().len(),
                adj == self.adj(),
                forall|y: int| 0 <= y < self.names().len() && fin@[y] ==> rank@[y] >= 0,
                forall|y: int|
                    0 <= y < self.names().len() && fin@[y] && y != s ==> {
                        &&& pred@[y] < self.names().len()
                        &&& fin@[pred@[y] as int]
                        &&& adj[pred@[y] as int].contains(last_edge@[y])
                        &&& last_edge@[y].to == y
                        &&& dist@[y] == dist@[pred@[y] as int] + last_edge@[y].cost
                        &&& rank@[pred@[y] as int] < rank@[y]
                    },
                fin@[cur as int],
                forall|i: int, j: int|
                    0 <= i < j < visits(cur as int, acc).len() ==> rank@[visits(cur as int, acc)[i]] < rank@[visits(
                        cur as int,
                        acc,
                    )[j]],
                forall|i: int|
                    0 <= i < visits(cur as int, acc).len() ==> 0 <= visits(cur as int, acc)[i] < self.names().len()
                        && fin@[visits(cur as int, acc)[i]],
                is_walk(adj, cur as int, acc, d as int),
                cost(acc) + dist@[cur as int] == dist@[d as int],
                back@.len() == acc.len(),
                forall|i: int| 0 <= i < acc.len() ==> back@[i] == acc[acc.len() - 1 - i],
            decreases rank@[cur as int],
        {
            let e = last_edge[cur];
            let p = pred[cur];
            proof {
                let acc2 = seq![e] + acc;
                assert(acc2.drop_first() =~= acc);
                assert(acc2[0] == e);
                assert(visits(p as int, acc2) =~= seq![p as int] + visits(cur as int, acc));
                assert(visits(cur as int, acc)[0] == cur as int);
                acc = acc2;
            }
            back.push(e);
            cur = p;
        }
        assert(is_simple(s as int, acc)) by {
            reveal(is_simple);
            assert forall|i: int, j: int| 0 <= i < j < visits(s as int, acc).len() implies visits(s as int, acc)[i]
                != visits(s as int, acc)[j] by {
                assert(rank@[visits(s as int, acc)[i]] < rank@[visits(s as int, acc)[j]]);
            }
        }
        let mut out: Vec<Edge> = Vec::new();
        let mut j: usize = back.len();
        while j > 0
            invariant
                j <= back.len(),
                back@.len() == acc.len(),
                forall|i: int| 0 <= i < acc.len() ==> back@[i] == acc[acc.len() - 1 - i],
                out@ =~= acc.subrange(0, back.len() - j),
            decreases j,
        {
            out.push(back[j - 1]);
            j -= 1;
        }
        assert(out@ =~= acc);
        out
    }

    /// A cheapest walk from station `s` to station `d` that passes no station
    /// twice, or `None` where no walk leads there. From a station to itself
    /// the walk is empty. Among equal-cost walks the one recorded first is
    /// kept: a record is only replaced by a strictly cheaper candidate, edges
    /// are relaxed in insertion order, and ties in selection go to the lower
    /// station index.
    pub fn route(&self, s: usize, d: usize) -> (r: Option<Vec<Edge>>)
        requires
            self.wf(),
            s < self.names().len(),
            d < self.names().len(),
        ensures
            r is None <==> !reachable(self.adj(), s as int, d as int),
            r matches Some(p) ==> is_cheapest(self.adj(), s as int, p@, d as int),
            r matches Some(p) ==> cost(p@) <= u64::MAX,
            r matches Some(p) ==> is_simple(s as int, p@),
            s == d ==> (r matches Some(p) && p@.len() == 0),
    {
        let ghost adj = self.adj();
        if s == d {
            let p: Vec<Edge> = Vec::new();
            proof {
                reveal(is_simple);
                assert(is_walk(adj, s as int, p@, d as int));
                assert forall|q: Seq<Edge>| is_walk(adj, s as int, q, d as int) implies cost(p@) <= cost(q) by {
                    lemma_cost_nonneg(q);
                }
            }
            return Some(p);
        }
        let mut rec = Records::start(self.station_count(), s, Ghost(adj));
        let ghost mut rank: Seq<int> = Seq::new(adj.len(), |y: int| 0);
        let ghost mut count: int = 1;
        let mut u = s;
        loop
            invariant
                self.wf(),
                adj == self.adj(),
                s != d,
                d < adj.len(),
                u < adj.len(),
                rec.base(adj, s as int, rank, count),
                rec.fin@[u as int],
                !rec.fin@[d as int],
                rec.bounded(adj.len() as int, (count - 1) * MAX_EDGE_COST),
                forall|a: int| 0 <= a < adj.len() && rec.fin@[a] ==> rec.dist@[a] <= rec.dist@[u as int],
                rec.ordered(adj.len() as int),
                forall|a: int|
                    0 <= a < adj.len() && rec.fin@[a] && a != u ==> relaxed_upto(adj, rec.seen@, rec.dist@, a, adj[a].len() as int),
            decreases count_false(rec.fin@),
        {
            rec.relax(self, s, u, Ghost(rank), Ghost(count));
            match select_min(&rec.dist, &rec.seen, &rec.fin) {
                None => {
                    proof {
                        assert forall|q: Seq<Edge>| !is_walk(adj, s as int, q, d as int) by {
                            if is_walk(adj, s as int, q, d as int) {
                                lemma_cut(adj, rec.fin@, rec.seen@, rec.dist@, s as int, q, d as int, 0, cost(q) + 1);
                            }
                        }
                    }
                    return None;
                },
                Some(v) => {
                    proof {
                        if v == d {
                            assert forall|q: Seq<Edge>| is_walk(adj, s as int, q, d as int) implies rec.dist@[d as int] <= cost(q) by {
                                lemma_cut(adj, rec.fin@, rec.seen@, rec.dist@, s as int, q, d as int, 0, rec.dist@[d as int] as int);
                            }
                        }
                    }
                    rec.settle(Ghost(adj), s, v, Ghost(rank), Ghost(count));
                    proof {
                        rank = rank.update(v as int, count);
                        count = count + 1;
                    }
                    if v == d {
                        let p = self.trace(&rec.dist, &rec.fin, &rec.pred, &rec.last_edge, s, d, Ghost(rank));
                        return Some(p);
                    }
                    u = v;
                },
            }
        }
    }
}

} // verus!
