//! Queries by station name, and the grouping of a walk into per-line segments.
use vstd::prelude::*;
use crate::graph::{
    cost, index_of, is_cheapest, is_simple, is_walk, lemma_index_of, reachable, views, Edge, MetroMap,
};

verus! {

/// A maximal run of consecutive edges on one line: its line, the terminus
/// that names its direction, the stations it passes (the first is where it
/// starts), and the total cost of its edges.
pub struct PathSegment {
    pub line: String,
    pub direction: String,
    pub stations: Vec<String>,
    pub len: u64,
}

/// A route: its segments in order and its total cost.
pub struct Path {
    pub segments: Vec<PathSegment>,
    pub len: u64,
}

/// The maximal runs of consecutive edges of `p` that share a line, in order.
pub open spec fn runs(p: Seq<Edge>) -> Seq<Seq<Edge>>
    decreases p.len(),
{
    if p.len() == 0 {
        Seq::empty()
    } else {
        let g = runs(p.drop_last());
        if g.len() > 0 && g.last().last().line == p.last().line {
            g.update(g.len() - 1, g.last().push(p.last()))
        } else {
            g.push(seq![p.last()])
        }
    }
}

/// The station where run `j` of `rs` starts, for runs that start at `s`.
pub open spec fn run_start(s: int, rs: Seq<Seq<Edge>>, j: int) -> int {
    if j == 0 { s } else { rs[j - 1].last().to as int }
}

/// The sum of the segments' costs.
pub open spec fn sum_lens(segs: Seq<PathSegment>) -> int
    decreases segs.len(),
{
    if segs.len() == 0 { 0 } else { sum_lens(segs.drop_last()) + segs.last().len }
}

proof fn lemma_cost_push(q: Seq<Edge>, e: Edge)
    ensures
        cost(q.push(e)) == cost(q) + e.cost,
    decreases q.len(),
{
    if q.len() > 0 {
        assert(q.push(e).drop_first() =~= q.drop_first().push(e));
        assert(q.push(e)[0] == q[0]);
        lemma_cost_push(q.drop_first(), e);
        assert(cost(q.push(e)) == q[0].cost + cost(q.drop_first().push(e)));
    } else {
        assert(q.push(e).drop_first() =~= Seq::<Edge>::empty());
        assert(cost(Seq::<Edge>::empty()) == 0);
        assert(cost(q) == 0);
    }
}

proof fn lemma_cost_prefix(p: Seq<Edge>, i: int)
    requires
        0 <= i <= p.len(),
    ensures
        cost(p.take(i)) <= cost(p),
    decreases p.len() - i,
{
    if i < p.len() {
        lemma_cost_prefix(p, i + 1);
        assert(p.take(i + 1) =~= p.take(i).push(p[i]));
        lemma_cost_push(p.take(i), p[i]);
    } else {
        assert(p.take(i) =~= p);
    }
}

/// Every run is non-empty and keeps to one line, and two neighbouring runs are
/// on different lines; the last run ends with the last edge.
pub proof fn lemma_runs_shape(p: Seq<Edge>)
    ensures
        forall|j: int| 0 <= j < runs(p).len() ==> runs(p)[j].len() > 0,
        forall|j: int, t: int|
            0 <= j < runs(p).len() && 0 <= t < runs(p)[j].len() ==> #[trigger] runs(p)[j][t].line == runs(p)[j][0].line,
        forall|j: int| 0 < j < runs(p).len() ==> #[trigger] runs(p)[j][0].line != runs(p)[j - 1][0].line,
        p.len() > 0 ==> runs(p).len() > 0 && runs(p).last().last() == p.last(),
    decreases p.len(),
{
    if p.len() > 0 {
        let g = runs(p.drop_last());
        lemma_runs_shape(p.drop_last());
        let x = p.last();
        if g.len() > 0 && g.last().last().line == x.line {
            let r = runs(p);
            let m = g.len() - 1;
            assert(r[m] == g[m].push(x));
            assert forall|j: int, t: int| 0 <= j < r.len() && 0 <= t < r[j].len() implies #[trigger] r[j][t].line
                == r[j][0].line by {
                if j == m && t == r[j].len() - 1 {
                    assert(g[m][g[m].len() - 1].line == g[m][0].line);
                } else if j == m {
                    assert(r[j][t] == g[m][t]);
                }
            }
        } else {
            let r = runs(p);
            assert(r =~= g.push(seq![x]));
            assert forall|j: int, t: int| 0 <= j < r.len() && 0 <= t < r[j].len() implies #[trigger] r[j][t].line
                == r[j][0].line by {
                if j < g.len() {
                    assert(r[j] == g[j]);
                }
            }
        }
    }
}

/// A cheapest walk that passes no station twice costs the least among the
/// walks that pass no station twice: the minimum over simple paths.
pub proof fn lemma_cheapest_simple(adj: Seq<Seq<Edge>>, s: int, p: Seq<Edge>, d: int)
    requires
        is_cheapest(adj, s, p, d),
        is_simple(s, p),
    ensures
        forall|q: Seq<Edge>| is_walk(adj, s, q, d) && is_simple(s, q) ==> cost(p) <= cost(q),
{
}

/// The first edge of each run is an edge of the walk.
proof fn lemma_run_edge_in(p: Seq<Edge>, j: int, t: int)
    requires
        0 <= j < runs(p).len(),
        0 <= t < runs(p)[j].len(),
    ensures
        p.contains(runs(p)[j][t]),
    decreases p.len(),
{
    let g = runs(p.drop_last());
    if p.len() > 0 {
        if g.len() > 0 && g.last().last().line == p.last().line {
            if j == g.len() - 1 && t == g[j].len() {
                assert(p[p.len() - 1] == p.last());
            } else {
                lemma_run_edge_in(p.drop_last(), j, t);
                let k = choose|k: int| 0 <= k < p.drop_last().len() && p.drop_last()[k] == g[j][t];
                assert(p[k] == p.drop_last()[k]);
            }
        } else {
            if j == g.len() {
                assert(p[p.len() - 1] == p.last());
            } else {
                lemma_run_edge_in(p.drop_last(), j, t);
                let k = choose|k: int| 0 <= k < p.drop_last().len() && p.drop_last()[k] == g[j][t];
                assert(p[k] == p.drop_last()[k]);
            }
        }
    }
}

impl MetroMap {
    /// The stations named by `run`, preceded by its starting station `from`.
    pub open spec fn run_stations(&self, from: int, run: Seq<Edge>) -> Seq<Seq<char>> {
        seq![self.names()[from]] + run.map_values(|e: Edge| self.names()[e.to as int])
    }

    /// `seg` describes `run`, which starts at station `from`.
    pub open spec fn describes_run(&self, seg: PathSegment, run: Seq<Edge>, from: int) -> bool {
        &&& seg.line@ == self.line_names()[run[0].line as int]
        &&& seg.direction@ == self.names()[run[0].direction as int]
        &&& views(seg.stations@) == self.run_stations(from, run)
        &&& seg.len == cost(run)
    }

    /// `path` describes walk `p` from station `s`: one segment per run of
    /// `p`, in order, and the walk's total cost.
    pub open spec fn describes(&self, path: Path, s: int, p: Seq<Edge>) -> bool {
        &&& path.len == cost(p)
        &&& path.len == sum_lens(path.segments@)
        &&& path.segments@.len() == runs(p).len()
        &&& forall|j: int|
            0 <= j < runs(p).len() ==> self.describes_run(path.segments@[j], runs(p)[j], run_start(s, runs(p), j))
    }

    /// Groups walk `p`, which starts at station `start`, into one segment per
    /// maximal run of edges on one line, and totals its cost.
    #[verifier::rlimit(100)]
    #[verifier::spinoff_prover]
    pub fn build_segments(&self, start: usize, p: &Vec<Edge>) -> (r: Path)
        requires
            self.wf(),
            start < self.names().len(),
            cost(p@) <= u64::MAX,
            forall|i: int|
                0 <= i < p@.len() ==> {
                    &&& p@[i].to < self.names().len()
                    &&& p@[i].direction < self.names().len()
                    &&& p@[i].line < self.line_names().len()
                },
        ensures
            self.describes(r, start as int, p@),
    {
        let mut segs: Vec<PathSegment> = Vec::new();
        let mut cur_line: usize = 0;
        let mut cur_dir: usize = 0;
        let mut cur_st: Vec<String> = Vec::new();
        let mut cur_len: u64 = 0;
        let mut total: u64 = 0;
        let mut at: usize = start;
        let ghost s = start as int;
        let mut i: usize = 0;
        assert(p@.take(0) =~= Seq::<Edge>::empty());
        while i < p.len()
            invariant
                self.wf(),
                start < self.names().len(),
                cost(p@) <= u64::MAX,
                forall|k: int|
                    0 <= k < p@.len() ==> {
                        &&& p@[k].to < self.names().len()
                        &&& p@[k].direction < self.names().len()
                        &&& p@[k].line < self.line_names().len()
                    },
                i <= p.len(),
                s == start as int,
                at < self.names().len(),
                total == cost(p@.take(i as int)),
                cur_len <= total,
                i == 0 ==> segs@.len() == 0 && total == 0 && at == start,
                i > 0 ==> cur_line < self.line_names().len() && cur_dir < self.names().len(),
                i > 0 ==> {
                    let rs = runs(p@.take(i as int));
                    &&& rs.len() == segs@.len() + 1
                    &&& at == p@[i - 1].to
                    &&& rs.last().last() == p@[i - 1]
                    &&& cur_line == rs.last()[0].line
                    &&& cur_dir == rs.last()[0].direction
                    &&& views(cur_st@) == self.run_stations(run_start(s, rs, segs@.len() as int), rs.last())
                    &&& cur_len == cost(rs.last())
                    &&& sum_lens(segs@) + cur_len == total
                    &&& forall|j: int|
                        0 <= j < segs@.len() ==> self.describes_run(segs@[j], rs[j], run_start(s, rs, j))
                },
            decreases p.len() - i,
        {
            let e = p[i];
            let ghost pre = p@.take(i as int);
            let ghost rs = runs(pre);
            proof {
                assert(p@.take(i + 1) =~= pre.push(e));
                assert(pre.push(e).drop_last() =~= pre);
                lemma_cost_push(pre, e);
                lemma_cost_prefix(p@, i + 1);
                lemma_runs_shape(pre);
                lemma_runs_shape(pre.push(e));
            }
            let to_name = self.station_name(e.to).clone();
            let ghost old_st = cur_st@;
            let ghost old_segs = segs@;
            if i > 0 && e.line == cur_line {
                cur_st.push(to_name);
                cur_len = cur_len + e.cost as u64;
                proof {
                    let rs2 = runs(p@.take(i + 1));
                    let m = rs.len() - 1;
                    assert(rs.last()[rs.last().len() - 1].line == rs.last()[0].line);
                    assert(rs2 == rs.update(m, rs[m].push(e)));
                    lemma_cost_push(rs[m], e);
                    assert(rs[m].push(e).map_values(|x: Edge| self.names()[x.to as int]) =~= rs[m].map_values(
                        |x: Edge| self.names()[x.to as int],
                    ).push(self.names()[e.to as int]));
                    assert(self.run_stations(run_start(s, rs2, m), rs2.last()) =~= self.run_stations(
                        run_start(s, rs, m),
                        rs.last(),
                    ).push(self.names()[e.to as int]));
                    assert(views(cur_st@) =~= views(old_st).push(self.names()[e.to as int]));
                    assert forall|j: int| 0 <= j < segs@.len() implies self.describes_run(segs@[j], rs2[j], run_start(s, rs2, j)) by {
                        assert(rs2[j] == rs[j]);
                        if j > 0 {
                            assert(rs2[j - 1] == rs[j - 1]);
                        }
                    }
                }
            } else {
                if i > 0 {
                    let seg = PathSegment {
                        line: self.line_name(cur_line).clone(),
                        direction: self.station_name(cur_dir).clone(),
                        stations: cur_st,
                        len: cur_len,
                    };
                    segs.push(seg);
                }
                let mut st: Vec<String> = Vec::new();
                st.push(self.station_name(at).clone());
                st.push(to_name);
                cur_st = st;
                cur_line = e.line;
                cur_dir = e.direction;
                cur_len = e.cost as u64;
                proof {
                    let rs2 = runs(p@.take(i + 1));
                    assert(rs2 =~= rs.push(seq![e]));
                    assert(seq![e].drop_first() =~= Seq::<Edge>::empty());
                    assert(cost(Seq::<Edge>::empty()) == 0);
                    assert(cost(seq![e]) == e.cost + cost(seq![e].drop_first()));
                    assert(seq![e].map_values(|x: Edge| self.names()[x.to as int]) =~= seq![self.names()[e.to as int]]);
                    if i > 0 {
                        assert(segs@.len() == rs.len());
                        assert(rs2[rs.len() - 1] == rs.last());
                        assert(rs.last().last() == p@[i - 1]);
                        assert(at == p@[i - 1].to);
                        let lst = rs2[rs.len() - 1];
                        assert(lst.last() == p@[i - 1]);
                        assert(lst.last().to == at);
                        assert(run_start(s, rs2, rs.len() as int) == lst.last().to as int);
                        assert(segs@.len() as int == rs.len() as int);
                        assert(run_start(s, rs2, segs@.len() as int) == at as int);
                    } else {
                        assert(at == start);
                        assert(segs@.len() == 0);
                        assert(run_start(s, rs2, segs@.len() as int) == at as int);
                    }
                    assert(views(cur_st@) =~= self.run_stations(run_start(s, rs2, segs@.len() as int), rs2.last()));
                    assert forall|j: int| 0 <= j < segs@.len() implies self.describes_run(segs@[j], rs2[j], run_start(s, rs2, j)) by {
                        assert(rs2[j] == rs[j]);
                        if j > 0 {
                            assert(rs2[j - 1] == rs[j - 1]);
                        }
                        if j < old_segs.len() {
                            assert(segs@[j] == old_segs[j]);
                        }
                    }
                    if i > 0 {
                        assert(segs@.drop_last() =~= old_segs);
                        assert(sum_lens(segs@) == sum_lens(old_segs) + segs@.last().len);
                    }
                }
            }
            total = total + e.cost as u64;
            at = e.to;
            i += 1;
        }
        let ghost old_segs = segs@;
        if i > 0 {
            let seg = PathSegment {
                line: self.line_name(cur_line).clone(),
                direction: self.station_name(cur_dir).clone(),
                stations: cur_st,
                len: cur_len,
            };
            segs.push(seg);
            proof {
                assert(segs@.drop_last() =~= old_segs);
                let rs = runs(p@.take(i as int));
                assert forall|j: int| 0 <= j < segs@.len() implies self.describes_run(segs@[j], rs[j], run_start(s, rs, j)) by {
                    if j < old_segs.len() {
                        assert(segs@[j] == old_segs[j]);
                    }
                }
            }
        }
        proof {
            assert(p@.take(p@.len() as int) =~= p@);
        }
        Path { segments: segs, len: total }
    }

    /// Every edge of a walk is an edge of the graph, so it names stations and
    /// a line that exist.
    pub proof fn lemma_walk_edges(&self, s: int, p: Seq<Edge>, d: int)
        requires
            self.wf(),
            is_walk(self.adj(), s, p, d),
        ensures
            forall|i: int|
                0 <= i < p.len() ==> {
                    &&& p[i].to < self.names().len()
                    &&& p[i].direction < self.names().len()
                    &&& p[i].line < self.line_names().len()
                },
        decreases p.len(),
    {
        if p.len() > 0 {
            self.lemma_walk_edges(p[0].to as int, p.drop_first(), d);
            let k = choose|k: int| 0 <= k < self.adj()[s].len() && self.adj()[s][k] == p[0];
            assert forall|i: int| 0 < i < p.len() implies p[i] == p.drop_first()[i - 1] by {}
        }
    }

    /// Two neighbouring segments of a route are on different lines.
    pub proof fn lemma_segments_change_line(&self, path: Path, s: int, p: Seq<Edge>, d: int)
        requires
            self.wf(),
            is_walk(self.adj(), s, p, d),
            self.describes(path, s, p),
        ensures
            forall|j: int|
                0 < j < path.segments@.len() ==> #[trigger] path.segments@[j].line@ != path.segments@[j - 1].line@,
    {
        self.lemma_walk_edges(s, p, d);
        lemma_runs_shape(p);
        assert forall|j: int| 0 < j < path.segments@.len() implies #[trigger] path.segments@[j].line@
            != path.segments@[j - 1].line@ by {
            let rs = runs(p);
            assert(self.describes_run(path.segments@[j], rs[j], run_start(s, rs, j)));
            assert(self.describes_run(path.segments@[j - 1], rs[j - 1], run_start(s, rs, j - 1)));
            assert(rs[j][0].line != rs[j - 1][0].line);
            lemma_run_edge_in(p, j, 0);
            lemma_run_edge_in(p, j - 1, 0);
        }
    }

    /// The cheapest walk between two stations given by name, or `None` where
    /// either station is unknown or no walk connects them. From a known
    /// station to itself the walk is empty.
    pub fn find_path_raw(&self, start: &str, dest: &str) -> (r: Option<Vec<Edge>>)
        requires
            self.wf(),
        ensures
            r is None <==> !self.connects(start@, dest@),
            r matches Some(p) ==> is_cheapest(
                self.adj(),
                index_of(self.names(), start@),
                p@,
                index_of(self.names(), dest@),
            ),
            r matches Some(p) ==> is_simple(index_of(self.names(), start@), p@),
            start@ == dest@ && self.knows(start@) ==> (r matches Some(p) && p@.len() == 0),
    {
        let s = match self.lookup(start) {
            Some(s) => s,
            None => return None,
        };
        let d = match self.lookup(dest) {
            Some(d) => d,
            None => return None,
        };
        proof {
            lemma_index_of(self.names(), s as int);
            lemma_index_of(self.names(), d as int);
        }
        self.route(s, d)
    }

    /// The cheapest route between two stations given by name, grouped into
    /// per-line segments, or `None` where either station is unknown or no
    /// walk connects them. From a known station to itself the route has no
    /// segments and costs nothing.
    #[verifier::spinoff_prover]
    pub fn find_path(&self, start: &str, dest: &str) -> (r: Option<Path>)
        requires
            self.wf(),
        ensures
            r is None <==> !self.connects(start@, dest@),
            r matches Some(path) ==> self.is_cheapest_route(path, start@, dest@),
            r matches Some(path) ==> forall|j: int|
                0 < j < path.segments@.len() ==> #[trigger] path.segments@[j].line@ != path.segments@[j - 1].line@,
            start@ == dest@ && self.knows(start@) ==> (r matches Some(path) && path.segments@.len() == 0
                && path.len == 0),
    {
        let s = match self.lookup(start) {
            Some(s) => s,
            None => return None,
        };
        let d = match self.lookup(dest) {
            Some(d) => d,
            None => return None,
        };
        proof {
            lemma_index_of(self.names(), s as int);
            lemma_index_of(self.names(), d as int);
        }
        match self.route(s, d) {
            None => None,
            Some(p) => {
                proof {
                    self.lemma_walk_edges(s as int, p@, d as int);
                }
                let path = self.build_segments(s, &p);
                proof {
                    self.lemma_segments_change_line(path, s as int, p@, d as int);
                    assert(index_of(self.names(), start@) == s as int);
                    assert(index_of(self.names(), dest@) == d as int);
                    assert(self.describes(path, index_of(self.names(), start@), p@));
                    assert(is_cheapest(self.adj(), index_of(self.names(), start@), p@, index_of(self.names(), dest@)));
                    assert(is_simple(index_of(self.names(), start@), p@));
                    assert(self.is_cheapest_route(path, start@, dest@));
                    if s == d {
                        assert(runs(p@) =~= Seq::<Seq<Edge>>::empty());
                    }
                }
                Some(path)
            },
        }
    }

    /// `path` describes a cheapest walk from the station named `a` to the
    /// station named `b` that passes no station twice.
    pub open spec fn is_cheapest_route(&self, path: Path, a: Seq<char>, b: Seq<char>) -> bool {
        exists|p: Seq<Edge>|
            {
                &&& is_cheapest(self.adj(), index_of(self.names(), a), p, index_of(self.names(), b))
                &&& is_simple(index_of(self.names(), a), p)
                &&& #[trigger] self.describes(path, index_of(self.names(), a), p)
            }
    }

    /// Both stations are known and some walk leads from the first to the second.
    pub open spec fn connects(&self, a: Seq<char>, b: Seq<char>) -> bool {
        &&& self.knows(a)
        &&& self.knows(b)
        &&& reachable(self.adj(), index_of(self.names(), a), index_of(self.names(), b))
    }
}

} // verus!
