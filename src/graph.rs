//! The transit graph: interned station and line names, outgoing edges per
//! station, and the per-line station listing.
use vstd::prelude::*;
use indexmap::IndexMap;
use crate::lines::{
    has_key, keys_unique, lemma_has_key_after, line_table, new_line_table, push_member, with_member, with_members,
};

verus! {

/// An outgoing edge between interned stations: the station reached, its cost,
/// the line it runs on and the terminus station that names its direction.
#[derive(Clone, Copy, PartialEq, Eq)]
pub struct Edge {
    pub to: usize,
    pub cost: u32,
    pub line: usize,
    pub direction: usize,
}

/// An outgoing edge given by names, as it is added to the graph.
pub struct Link {
    pub next: String,
    pub cost: u32,
    pub line: String,
    pub direction: String,
}

/// The character sequences of a list of strings.
pub open spec fn views(v: Seq<String>) -> Seq<Seq<char>> {
    v.map_values(|s: String| s@)
}

/// No name occurs twice.
pub open spec fn distinct(s: Seq<Seq<char>>) -> bool {
    forall|i: int, j: int| 0 <= i < s.len() && 0 <= j < s.len() && i != j ==> s[i] != s[j]
}

/// The position of `k` in `s` (meaningful when `s` holds it).
pub open spec fn index_of(s: Seq<Seq<char>>, k: Seq<char>) -> int {
    choose|i: int| 0 <= i < s.len() && s[i] == k
}

/// `s` with `k` appended unless it is already there.
pub open spec fn interned(s: Seq<Seq<char>>, k: Seq<char>) -> Seq<Seq<char>> {
    if s.contains(k) { s } else { s.push(k) }
}

/// `p` is a walk from station `s` to station `d`: each edge leaves the station
/// that the previous one reached (the first leaves `s`), and the last reaches `d`.
pub open spec fn is_walk(adj: Seq<Seq<Edge>>, s: int, p: Seq<Edge>, d: int) -> bool
    decreases p.len(),
{
    if p.len() == 0 {
        s == d
    } else {
        &&& 0 <= s < adj.len()
        &&& adj[s].contains(p[0])
        &&& is_walk(adj, p[0].to as int, p.drop_first(), d)
    }
}

/// The total cost of a sequence of edges.
pub open spec fn cost(p: Seq<Edge>) -> int
    decreases p.len(),
{
    if p.len() == 0 {
        0
    } else {
        p[0].cost + cost(p.drop_first())
    }
}

/// The stations that a walk from `s` passes, in order, `s` first.
pub open spec fn visits(s: int, p: Seq<Edge>) -> Seq<int> {
    seq![s] + p.map_values(|e: Edge| e.to as int)
}

/// A walk from `s` passes no station twice.
#[verifier::opaque]
pub open spec fn is_simple(s: int, p: Seq<Edge>) -> bool {
    forall|i: int, j: int| 0 <= i < j < visits(s, p).len() ==> visits(s, p)[i] != visits(s, p)[j]
}

/// Some walk leads from `s` to `d`.
pub open spec fn reachable(adj: Seq<Seq<Edge>>, s: int, d: int) -> bool {
    exists|p: Seq<Edge>| is_walk(adj, s, p, d)
}

/// `p` is a walk from `s` to `d` and no walk between them costs less.
pub open spec fn is_cheapest(adj: Seq<Seq<Edge>>, s: int, p: Seq<Edge>, d: int) -> bool {
    &&& is_walk(adj, s, p, d)
    &&& forall|q: Seq<Edge>| is_walk(adj, s, q, d) ==> cost(p) <= cost(q)
}

/// A link given by names, as a value.
pub struct LinkView {
    pub next: Seq<char>,
    pub cost: u32,
    pub line: Seq<char>,
    pub direction: Seq<char>,
}

impl View for Link {
    type V = LinkView;

    open spec fn view(&self) -> LinkView {
        LinkView { next: self.next@, cost: self.cost, line: self.line@, direction: self.direction@ }
    }
}

/// The graph part of a map as values: station names, which stations have an
/// adjacency entry of their own, the edges of each station, and line names.
pub struct GraphModel {
    pub names: Seq<Seq<char>>,
    pub keyed: Seq<bool>,
    pub adj: Seq<Seq<Edge>>,
    pub line_names: Seq<Seq<char>>,
}

/// `m` after adding `link` to the adjacency list of `station`: new names are
/// interned at the end, `station` gets an entry of its own, and its list gets
/// the interned edge appended.
#[verifier::opaque]
pub open spec fn after_link(m: GraphModel, station: Seq<char>, link: LinkView) -> GraphModel {
    let names = interned(interned(interned(m.names, station), link.next), link.direction);
    let line_names = interned(m.line_names, link.line);
    let s = index_of(names, station);
    let e = Edge {
        to: index_of(names, link.next) as usize,
        cost: link.cost,
        line: index_of(line_names, link.line) as usize,
        direction: index_of(names, link.direction) as usize,
    };
    GraphModel {
        names,
        keyed: Seq::new(names.len(), |i: int| i == s || (i < m.names.len() && m.keyed[i])),
        adj: Seq::new(names.len(), |i: int| if i == s { row(m.adj, i).push(e) } else { row(m.adj, i) }),
        line_names,
    }
}

/// `m` after adding each `(station, link)` pair of `links`, in order.
pub open spec fn after_links(m: GraphModel, links: Seq<(Seq<char>, LinkView)>) -> GraphModel
    decreases links.len(),
{
    if links.len() == 0 {
        m
    } else {
        after_link(after_links(m, links.drop_last()), links.last().0, links.last().1)
    }
}

/// The links of the first `k` hops of a line, in order: for hop `i`, the link
/// from `stations[i]` to `stations[i + 1]` named after the last station, then
/// the link back, named after the first station; both cost `costs[i]`.
pub open spec fn hop_links(name: Seq<char>, stations: Seq<Seq<char>>, costs: Seq<u32>, k: nat) -> Seq<
    (Seq<char>, LinkView),
>
    decreases k,
{
    if k == 0 {
        Seq::empty()
    } else {
        let i = k - 1;
        hop_links(name, stations, costs, (k - 1) as nat).push(
            (stations[i], LinkView { next: stations[i + 1], cost: costs[i], line: name, direction: stations.last() }),
        ).push((stations[i + 1], LinkView { next: stations[i], cost: costs[i], line: name, direction: stations[0] }))
    }
}

/// The links that a line with these stations and hop costs contributes.
pub open spec fn line_links(name: Seq<char>, stations: Seq<Seq<char>>, costs: Seq<u32>) -> Seq<
    (Seq<char>, LinkView),
> {
    hop_links(name, stations, costs, costs.len())
}

pub struct MetroMap {
    line_stations: IndexMap<String, Vec<String>>,
    names: Vec<String>,
    keyed: Vec<bool>,
    adj: Vec<Vec<Edge>>,
    lines: Vec<String>,
}

impl MetroMap {
    /// Station names; a station's index is its position here.
    pub closed spec fn names(&self) -> Seq<Seq<char>> {
        views(self.names@)
    }

    /// Whether each station has an adjacency entry of its own, that is, was
    /// added as the origin of an edge. Only such stations can be queried.
    pub closed spec fn keyed(&self) -> Seq<bool> {
        self.keyed@
    }

    /// Outgoing edges of each station, in insertion order.
    pub closed spec fn adj(&self) -> Seq<Seq<Edge>> {
        self.adj@.map_values(|v: Vec<Edge>| v@)
    }

    /// Line names; a line's index is its position here.
    pub closed spec fn line_names(&self) -> Seq<Seq<char>> {
        views(self.lines@)
    }

    /// The per-line station listing.
    pub closed spec fn line_view(&self) -> Seq<(Seq<char>, Seq<Seq<char>>)> {
        line_table(self.line_stations)
    }

    /// The interned edge that stands for `link`.
    pub open spec fn edge_of(&self, link: LinkView) -> Edge {
        Edge {
            to: index_of(self.names(), link.next) as usize,
            cost: link.cost,
            line: index_of(self.line_names(), link.line) as usize,
            direction: index_of(self.names(), link.direction) as usize,
        }
    }

    /// The link, by names, that edge `e` stands for.
    pub open spec fn link_of(&self, e: Edge) -> LinkView {
        LinkView {
            next: self.names()[e.to as int],
            cost: e.cost,
            line: self.line_names()[e.line as int],
            direction: self.names()[e.direction as int],
        }
    }

    /// The graph part of the map as values.
    pub open spec fn model(&self) -> GraphModel {
        GraphModel { names: self.names(), keyed: self.keyed(), adj: self.adj(), line_names: self.line_names() }
    }

    /// The station named `k` has an adjacency entry.
    pub open spec fn knows(&self, k: Seq<char>) -> bool {
        self.names().contains(k) && self.keyed()[index_of(self.names(), k)]
    }

    pub open spec fn wf(&self) -> bool {
        let n = self.names().len();
        &&& self.keyed().len() == n
        &&& self.adj().len() == n
        &&& n <= u32::MAX
        &&& distinct(self.names())
        &&& distinct(self.line_names())
        &&& keys_unique(self.line_view())
        &&& forall|v: int, k: int|
            0 <= v < n && 0 <= k < self.adj()[v].len() ==> {
                &&& self.adj()[v][k].to < n
                &&& self.adj()[v][k].direction < n
                &&& self.adj()[v][k].line < self.line_names().len()
            }
    }

    /// An empty graph with an empty line listing.
    pub fn new() -> (r: MetroMap)
        ensures
            r.wf(),
            r.names() == Seq::<Seq<char>>::empty(),
            r.line_names() == Seq::<Seq<char>>::empty(),
            r.line_view() == Seq::<(Seq<char>, Seq<Seq<char>>)>::empty(),
    {
        let r = MetroMap {
            line_stations: new_line_table(),
            names: Vec::new(),
            keyed: Vec::new(),
            adj: Vec::new(),
            lines: Vec::new(),
        };
        assert(r.names() =~= Seq::<Seq<char>>::empty());
        assert(r.line_names() =~= Seq::<Seq<char>>::empty());
        r
    }

    /// Records `station` as a member of `line` in the listing: appended to the
    /// line's list, the line entering the listing last if it is new.
    pub fn add_station(&mut self, station: String, line: String)
        requires
            old(self).wf(),
        ensures
            final(self).wf(),
            final(self).line_view() == with_member(old(self).line_view(), line@, station@),
            final(self).names() == old(self).names(),
            final(self).keyed() == old(self).keyed(),
            final(self).adj() == old(self).adj(),
            final(self).line_names() == old(self).line_names(),
    {
        push_member(&mut self.line_stations, line, station);
    }

    /// The per-line station listing.
    pub fn line_stations(&self) -> (r: &IndexMap<String, Vec<String>>)
        ensures
            line_table(*r) == self.line_view(),
    {
        &self.line_stations
    }

    /// The number of interned stations.
    pub fn station_count(&self) -> (r: usize)
        requires
            self.wf(),
        ensures
            r == self.names().len(),
    {
        self.names.len()
    }

    /// The number of interned line names.
    pub fn line_count(&self) -> (r: usize)
        requires
            self.wf(),
        ensures
            r == self.line_names().len(),
    {
        self.lines.len()
    }

    /// The name of station `v`.
    pub fn station_name(&self, v: usize) -> (r: &String)
        requires
            self.wf(),
            v < self.names().len(),
        ensures
            r@ == self.names()[v as int],
    {
        &self.names[v]
    }

    /// The name of line `l`.
    pub fn line_name(&self, l: usize) -> (r: &String)
        requires
            self.wf(),
            l < self.line_names().len(),
        ensures
            r@ == self.line_names()[l as int],
    {
        &self.lines[l]
    }

    /// The outgoing edges of station `v`.
    pub fn edges(&self, v: usize) -> (r: &Vec<Edge>)
        requires
            self.wf(),
            v < self.names().len(),
        ensures
            r@ == self.adj()[v as int],
    {
        &self.adj[v]
    }

    /// Whether station `v` has an adjacency entry.
    pub fn is_keyed(&self, v: usize) -> (r: bool)
        requires
            self.wf(),
            v < self.names().len(),
        ensures
            r == self.keyed()[v as int],
    {
        self.keyed[v]
    }

    /// The index of the station named `name`, if it has an adjacency entry.
    pub fn lookup(&self, name: &str) -> (r: Option<usize>)
        requires
            self.wf(),
        ensures
            r is Some <==> self.knows(name@),
            r matches Some(v) ==> v < self.names().len() && self.names()[v as int] == name@,
    {
        let key = name.to_owned();
        match find_name(&self.names, &key) {
            Some(i) => {
                proof { lemma_index_of(self.names(), i as int); }
                if self.keyed[i] { Some(i) } else { None }
            },
            None => None,
        }
    }

    /// Adds an outgoing edge to `station`'s adjacency list, creating the list
    /// if absent. Names not seen before are interned at the end of their table;
    /// `station` becomes queryable.
    #[verifier::spinoff_prover]
    pub fn add_link(&mut self, station: String, link: Link)
        requires
            old(self).wf(),
            old(self).names().len() + 3 <= u32::MAX,
            old(self).line_names().len() + 1 < usize::MAX,
        ensures
            final(self).wf(),
            final(self).names() == interned(
                interned(interned(old(self).names(), station@), link.next@),
                link.direction@,
            ),
            final(self).line_names() == interned(old(self).line_names(), link.line@),
            final(self).line_view() == old(self).line_view(),
            final(self).model() == after_link(old(self).model(), station@, link@),
            final(self).knows(station@),
            forall|k: Seq<char>| old(self).knows(k) ==> #[trigger] final(self).knows(k),
            forall|i: int|
                0 <= i < final(self).names().len() ==> final(self).keyed()[i] == (i == index_of(
                    final(self).names(),
                    station@,
                ) || (i < old(self).names().len() && old(self).keyed()[i])),
            forall|i: int|
                0 <= i < final(self).names().len() ==> final(self).adj()[i] == (if i == index_of(
                    final(self).names(),
                    station@,
                ) {
                    row(old(self).adj(), i).push(final(self).edge_of(link@))
                } else {
                    row(old(self).adj(), i)
                }),
    {
        let ghost n0 = self.names();
        let ghost adj0 = self.adj();
        let s = self.intern(station);
        let ghost n1 = self.names();
        let t = self.intern(link.next);
        let ghost n2 = self.names();
        let d = self.intern(link.direction);
        let l = self.intern_line(link.line);
        let ghost n3 = self.names();
        proof {
            lemma_index_of(n1, s as int);
            lemma_index_of(n3, s as int);
            lemma_index_of(n2, t as int);
            lemma_index_of(n3, t as int);
            assert(n3[s as int] == n1[s as int]);
            assert(n3[t as int] == n2[t as int]);
            lemma_index_of(n3, d as int);
            lemma_index_of(self.line_names(), l as int);
        }
        let e = Edge { to: t, cost: link.cost, line: l, direction: d };
        let ghost adj3 = self.adj();
        let ghost k3 = self.keyed();
        self.keyed.set(s, true);
        self.adj[s].push(e);
        proof {
            assert(self.names() == n3);
            assert(e == self.edge_of(link@));
            assert forall|i: int| 0 <= i < self.names().len() implies self.keyed()[i] == (i == s
                || (i < n0.len() && old(self).keyed()[i])) by {
                if i != s {
                    assert(self.keyed()[i] == k3[i]);
                }
            }
            lemma_index_of(n3, s as int);
            assert(self.keyed()[s as int]);
            assert forall|k: Seq<char>| old(self).knows(k) implies #[trigger] self.knows(k) by {
                let j = index_of(n0, k);
                assert(n3[j] == n0[j]);
                lemma_index_of(n3, j);
                assert(self.keyed()[j]);
            }
            assert forall|i: int| 0 <= i < self.names().len() implies self.adj()[i] == (if i == s {
                row(adj0, i).push(e)
            } else {
                row(adj0, i)
            }) by {
                if i < adj0.len() {
                    assert(adj3[i] == adj0[i]);
                } else {
                    assert(adj3[i] == Seq::<Edge>::empty());
                }
            }
            reveal(after_link);
            let m = after_link(old(self).model(), station@, link@);
            assert(self.keyed() =~= m.keyed);
            assert(self.adj() =~= m.adj);
        }
    }

    /// Adds a line given as its stations in order and the cost of each hop
    /// between neighbours: every station is recorded as a member of the line,
    /// and each hop becomes two edges, the forward one named after the last
    /// station and the backward one after the first.
    #[verifier::spinoff_prover]
    pub fn add_line(&mut self, name: &String, stations: &Vec<String>, costs: &Vec<u32>)
        requires
            old(self).wf(),
            stations.len() == costs.len() + 1,
            old(self).names().len() + 6 * costs.len() + 3 <= u32::MAX,
            old(self).line_names().len() + 2 * costs.len() + 1 < usize::MAX,
        ensures
            final(self).wf(),
            has_key(final(self).line_view(), name@),
            final(self).line_view() == with_members(old(self).line_view(), name@, views(stations@)),
            final(self).model() == after_links(old(self).model(), line_links(name@, views(stations@), costs@)),
            costs.len() > 0 ==> forall|i: int|
                0 <= i < stations.len() ==> final(self).knows(#[trigger] stations@[i]@),
    {
        let first = stations[0].clone();
        let last = stations[stations.len() - 1].clone();
        self.add_station(first.clone(), name.clone());
        proof {
            lemma_has_key_after(old(self).line_view(), name@, first@);
            let v1 = views(stations@).take(1);
            assert(v1.drop_last() =~= Seq::<Seq<char>>::empty());
            assert(v1.last() == first@);
            assert(with_members(old(self).line_view(), name@, v1.drop_last()) == old(self).line_view());
            assert(with_members(old(self).line_view(), name@, v1) == with_member(old(self).line_view(), name@, first@));
        }
        let mut i: usize = 0;
        while i < costs.len()
            invariant
                self.wf(),
                stations.len() == costs.len() + 1,
                i <= costs.len(),
                self.names().len() + 6 * (costs.len() - i) + 3 <= u32::MAX,
                self.line_names().len() + 2 * (costs.len() - i) + 1 < usize::MAX,
                has_key(self.line_view(), name@),
                self.line_view() == with_members(old(self).line_view(), name@, views(stations@).take(i + 1)),
                self.model() == after_links(old(self).model(), hop_links(name@, views(stations@), costs@, i as nat)),
                first@ == views(stations@)[0],
                last@ == views(stations@).last(),
                forall|j: int| 0 <= j < i ==> self.knows(#[trigger] stations@[j]@),
                i > 0 ==> self.knows(stations@[i as int]@),
            decreases costs.len() - i,
        {
            let fst = stations[i].clone();
            let snd = stations[i + 1].clone();
            let ghost before = self.line_view();
            let ghost mb = self.model();
            self.add_station(snd.clone(), name.clone());
            proof {
                lemma_has_key_after(before, name@, snd@);
                let vs = views(stations@).take(i + 2);
                assert(vs.drop_last() =~= views(stations@).take(i + 1));
                assert(vs.last() == snd@);
            }
            let ghost m0 = self.model();
            let fwd = Link { next: snd.clone(), cost: costs[i], line: name.clone(), direction: last.clone() };
            let ghost fwd_v = fwd@;
            self.add_link(fst.clone(), fwd);
            let ghost m1 = self.model();
            let bwd = Link { next: fst.clone(), cost: costs[i], line: name.clone(), direction: first.clone() };
            let ghost bwd_v = bwd@;
            self.add_link(snd.clone(), bwd);
            proof {
                let vs = views(stations@);
                let h = hop_links(name@, vs, costs@, i as nat);
                let h2 = hop_links(name@, vs, costs@, (i + 1) as nat);
                assert(fwd_v == LinkView { next: vs[i as int + 1], cost: costs@[i as int], line: name@, direction: vs.last() });
                assert(bwd_v == LinkView { next: vs[i as int], cost: costs@[i as int], line: name@, direction: vs[0] });
                assert(h2 == h.push((vs[i as int], fwd_v)).push((vs[i as int + 1], bwd_v)));
                assert(h2.drop_last() =~= h.push((vs[i as int], fwd_v)));
                assert(h2.drop_last().drop_last() =~= h);
                assert(m0 == mb);
                assert(fst@ == vs[i as int]);
                assert(snd@ == vs[i as int + 1]);
                assert(m1 == after_link(m0, vs[i as int], fwd_v));
                assert(self.model() == after_link(m1, vs[i as int + 1], bwd_v));
                let m0x = after_links(old(self).model(), h);
                assert(after_links(old(self).model(), h2.drop_last()) == after_link(m0x, vs[i as int], fwd_v));
                assert(after_links(old(self).model(), h2) == after_link(
                    after_links(old(self).model(), h2.drop_last()),
                    vs[i as int + 1],
                    bwd_v,
                ));
            }
            i += 1;
        }
        assert(views(stations@).take(i + 1) =~= views(stations@));
        assert(i == costs@.len());
        assert(costs.len() > 0 ==> forall|j: int|
            0 <= j < stations.len() ==> self.knows(#[trigger] stations@[j]@)) by {
            if costs.len() > 0 {
                assert forall|j: int| 0 <= j < stations.len() implies self.knows(#[trigger] stations@[j]@) by {
                    if j == costs.len() {
                        assert(self.knows(stations@[i as int]@));
                    }
                }
            }
        }
    }

    fn intern(&mut self, name: String) -> (r: usize)
        requires
            old(self).wf(),
            old(self).names().len() < u32::MAX,
        ensures
            final(self).wf(),
            final(self).names() == interned(old(self).names(), name@),
            r == index_of(final(self).names(), name@),
            r < final(self).names().len(),
            final(self).names()[r as int] == name@,
            final(self).keyed() == (if old(self).names().contains(name@) { old(self).keyed() } else { old(self).keyed().push(false) }),
            final(self).adj() == (if old(self).names().contains(name@) { old(self).adj() } else { old(self).adj().push(Seq::empty()) }),
            final(self).line_names() == old(self).line_names(),
            final(self).line_view() == old(self).line_view(),
    {
        match find_name(&self.names, &name) {
            Some(i) => {
                proof { lemma_index_of(self.names(), i as int); }
                i
            },
            None => {
                let ghost old_adj = self.adj();
                let i = self.names.len();
                self.names.push(name);
                self.keyed.push(false);
                self.adj.push(Vec::new());
                assert(self.names() =~= old(self).names().push(name@));
                assert(self.adj() =~= old_adj.push(Seq::empty()));
                proof { lemma_index_of(self.names(), i as int); }
                i
            },
        }
    }

    fn intern_line(&mut self, name: String) -> (r: usize)
        requires
            old(self).wf(),
            old(self).line_names().len() < usize::MAX,
        ensures
            final(self).wf(),
            final(self).line_names() == interned(old(self).line_names(), name@),
            r == index_of(final(self).line_names(), name@),
            r < final(self).line_names().len(),
            final(self).line_names()[r as int] == name@,
            final(self).names() == old(self).names(),
            final(self).keyed() == old(self).keyed(),
            final(self).adj() == old(self).adj(),
            final(self).line_view() == old(self).line_view(),
    {
        match find_name(&self.lines, &name) {
            Some(i) => {
                proof { lemma_index_of(self.line_names(), i as int); }
                i
            },
            None => {
                let i = self.lines.len();
                self.lines.push(name);
                assert(self.line_names() =~= old(self).line_names().push(name@));
                proof { lemma_index_of(self.line_names(), i as int); }
                i
            },
        }
    }
}

/// The edges of station `i`, or none where the station does not exist yet.
pub open spec fn row(adj: Seq<Seq<Edge>>, i: int) -> Seq<Edge> {
    if 0 <= i < adj.len() { adj[i] } else { Seq::empty() }
}

/// The position of `key` in `names`, if it is there.
fn find_name(names: &Vec<String>, key: &String) -> (r: Option<usize>)
    ensures
        r matches Some(i) ==> i < names.len() && names@[i as int]@ == key@,
        r is None ==> !views(names@).contains(key@),
{
    let mut i: usize = 0;
    while i < names.len()
        invariant
            i <= names.len(),
            forall|j: int| 0 <= j < i ==> names@[j]@ != key@,
        decreases names.len() - i,
    {
        if names[i].eq(key) {
            return Some(i);
        }
        i += 1;
    }
    proof {
        if views(names@).contains(key@) {
            let j = choose|j: int| 0 <= j < views(names@).len() && views(names@)[j] == key@;
            assert(names@[j]@ == key@);
        }
    }
    None
}

/// In a list without repeats, `index_of` finds each entry at its position.
pub proof fn lemma_index_of(s: Seq<Seq<char>>, i: int)
    requires
        distinct(s),
        0 <= i < s.len(),
    ensures
        index_of(s, s[i]) == i,
        s.contains(s[i]),
{
    assert(s[i] == s[i]);
}

} // verus!
