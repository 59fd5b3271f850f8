//! The commit range resolver: a commit graph (each commit id with its
//! parent ids) and the ancestry-exclusion computation that yields the set
//! of commits reachable from a tip reference but not from a base reference.

use vstd::prelude::*;
use vstd::seq_lib::*;
use vstd::set_lib::*;
use crate::errors::GlanceError;

verus! {

pub ghost struct NodeModel {
    pub oid: Seq<char>,
    pub parents: Seq<Seq<char>>,
}

/// One commit of the graph: its id and the ids of its parents.
pub struct CommitNode {
    pub oid: String,
    pub parents: Vec<String>,
}

pub open spec fn ids_of(v: Seq<String>) -> Seq<Seq<char>> {
    Seq::new(v.len(), |i: int| v[i]@)
}

impl View for CommitNode {
    type V = NodeModel;

    open spec fn view(&self) -> NodeModel {
        NodeModel { oid: self.oid@, parents: ids_of(self.parents@) }
    }
}

pub open spec fn graph_map_of(s: Seq<NodeModel>) -> Map<Seq<char>, Seq<Seq<char>>>
    decreases s.len(),
{
    if s.len() == 0 {
        Map::empty()
    } else {
        graph_map_of(s.drop_last()).insert(s.last().oid, s.last().parents)
    }
}

pub open spec fn node_keys_unique(s: Seq<NodeModel>) -> bool {
    forall|i: int, j: int| 0 <= i < j < s.len() ==> s[i].oid != s[j].oid
}

proof fn lemma_graph_map_contains(s: Seq<NodeModel>, k: Seq<char>)
    ensures
        graph_map_of(s).contains_key(k) <==> exists|i: int| 0 <= i < s.len() && s[i].oid == k,
    decreases s.len(),
{
    if s.len() > 0 {
        lemma_graph_map_contains(s.drop_last(), k);
        if graph_map_of(s).contains_key(k) {
            if s.last().oid == k {
                assert(s[s.len() - 1].oid == k);
            } else {
                let i = choose|i: int| 0 <= i < s.drop_last().len() && s.drop_last()[i].oid == k;
                assert(s[i].oid == k);
            }
        }
        if exists|i: int| 0 <= i < s.len() && s[i].oid == k {
            let i = choose|i: int| 0 <= i < s.len() && s[i].oid == k;
            if i < s.len() - 1 {
                assert(s.drop_last()[i].oid == k);
            }
        }
    }
}

proof fn lemma_graph_map_at(s: Seq<NodeModel>, i: int)
    requires
        node_keys_unique(s),
        0 <= i < s.len(),
    ensures
        graph_map_of(s).contains_key(s[i].oid),
        graph_map_of(s)[s[i].oid] == s[i].parents,
    decreases s.len(),
{
    if i == s.len() - 1 {
    } else {
        lemma_graph_map_at(s.drop_last(), i);
        assert(s.drop_last()[i] == s[i]);
        assert(s.last().oid != s[i].oid);
    }
}

proof fn lemma_graph_map_finite(s: Seq<NodeModel>)
    ensures
        graph_map_of(s).dom().finite(),
        graph_map_of(s).dom().len() <= s.len(),
    decreases s.len(),
{
    if s.len() == 0 {
        assert(graph_map_of(s).dom() =~= Set::<Seq<char>>::empty());
    } else {
        lemma_graph_map_finite(s.drop_last());
        assert(graph_map_of(s).dom() =~= graph_map_of(s.drop_last()).dom().insert(s.last().oid));
    }
}

/// An edge of the ancestry relation: `b` is a parent of `a`.
pub open spec fn graph_step(e: Map<Seq<char>, Seq<Seq<char>>>, a: Seq<char>, b: Seq<char>) -> bool {
    e.contains_key(a) && e[a].contains(b)
}

/// `p` is a chain of parent edges from `from` to `to`.
pub open spec fn is_walk(
    e: Map<Seq<char>, Seq<Seq<char>>>,
    p: Seq<Seq<char>>,
    from: Seq<char>,
    to: Seq<char>,
) -> bool {
    &&& p.len() >= 1
    &&& p[0] == from
    &&& p.last() == to
    &&& forall|i: int| 0 <= i < p.len() - 1 ==> #[trigger] graph_step(e, p[i], p[i + 1])
}

/// `to` is an ancestor of `from` (or `from` itself): ancestry reachability.
pub open spec fn reaches(e: Map<Seq<char>, Seq<Seq<char>>>, from: Seq<char>, to: Seq<char>) -> bool {
    exists|p: Seq<Seq<char>>| is_walk(e, p, from, to)
}

/// Every parent id mentioned anywhere in the graph is itself a node.
pub open spec fn closed_graph(e: Map<Seq<char>, Seq<Seq<char>>>) -> bool {
    forall|a: Seq<char>, b: Seq<char>| #[trigger] graph_step(e, a, b) ==> e.contains_key(b)
}

pub proof fn lemma_reaches_self(e: Map<Seq<char>, Seq<Seq<char>>>, a: Seq<char>)
    ensures
        reaches(e, a, a),
{
    assert(is_walk(e, seq![a], a, a));
}

pub proof fn lemma_reaches_step(
    e: Map<Seq<char>, Seq<Seq<char>>>,
    a: Seq<char>,
    b: Seq<char>,
    c: Seq<char>,
)
    requires
        reaches(e, a, b),
        graph_step(e, b, c),
    ensures
        reaches(e, a, c),
{
    let p = choose|p: Seq<Seq<char>>| is_walk(e, p, a, b);
    let q = p.push(c);
    assert forall|i: int| 0 <= i < q.len() - 1 implies #[trigger] graph_step(e, q[i], q[i + 1]) by {
        if i < p.len() - 1 {
            assert(q[i] == p[i] && q[i + 1] == p[i + 1]);
        } else {
            assert(q[i] == p.last() && q[i + 1] == c);
        }
    }
    assert(is_walk(e, q, a, c));
}

/// A set that contains `from` and is closed under parent edges contains
/// everything reachable from `from`.
proof fn lemma_walk_in_closed_set(
    e: Map<Seq<char>, Seq<Seq<char>>>,
    p: Seq<Seq<char>>,
    s: Set<Seq<char>>,
)
    requires
        p.len() >= 1,
        forall|i: int| 0 <= i < p.len() - 1 ==> #[trigger] graph_step(e, p[i], p[i + 1]),
        s.contains(p[0]),
        forall|a: Seq<char>, b: Seq<char>|
            s.contains(a) && #[trigger] graph_step(e, a, b) ==> s.contains(b),
    ensures
        s.contains(p.last()),
    decreases p.len(),
{
    if p.len() > 1 {
        assert(graph_step(e, p[0int], p[0int + 1]));
        let q = p.drop_first();
        assert forall|i: int| 0 <= i < q.len() - 1 implies #[trigger] graph_step(e, q[i], q[i + 1]) by {
            assert(q[i] == p[i + 1] && q[i + 1] == p[i + 2]);
        }
        lemma_walk_in_closed_set(e, q, s);
        assert(q.last() == p.last());
    }
}

pub proof fn lemma_reaches_in_closed_set(
    e: Map<Seq<char>, Seq<Seq<char>>>,
    from: Seq<char>,
    to: Seq<char>,
    s: Set<Seq<char>>,
)
    requires
        reaches(e, from, to),
        s.contains(from),
        forall|a: Seq<char>, b: Seq<char>|
            s.contains(a) && #[trigger] graph_step(e, a, b) ==> s.contains(b),
    ensures
        s.contains(to),
{
    let p = choose|p: Seq<Seq<char>>| is_walk(e, p, from, to);
    lemma_walk_in_closed_set(e, p, s);
}

/// Is `id` one of `ids`?
pub open spec fn id_in(ids: Seq<Seq<char>>, id: Seq<char>) -> bool {
    exists|i: int| 0 <= i < ids.len() && ids[i] == id
}

fn contains_id(v: &Vec<String>, id: &String) -> (r: bool)
    ensures
        r == id_in(ids_of(v@), id@),
{
    let mut i: usize = 0;
    while i < v.len()
        invariant
            i <= v@.len(),
            forall|j: int| 0 <= j < i as int ==> ids_of(v@)[j] != id@,
        decreases v@.len() - i,
    {
        if v[i] == *id {
            proof {
                assert(ids_of(v@)[i as int] == id@);
            }
            return true;
        }
        i = i + 1;
    }
    false
}

/// The commit graph a repository hands the resolver: every commit with its
/// parent ids, closed under parenthood.
pub struct CommitGraph {
    nodes: Vec<CommitNode>,
}

impl CommitGraph {
    pub closed spec fn node_seq(&self) -> Seq<NodeModel> {
        Seq::new(self.nodes@.len(), |i: int| self.nodes@[i]@)
    }

    /// Each node's parent list, by commit id.
    pub open spec fn edges(&self) -> Map<Seq<char>, Seq<Seq<char>>> {
        graph_map_of(self.node_seq())
    }

    pub closed spec fn wf(&self) -> bool {
        node_keys_unique(self.node_seq())
    }

    pub fn new() -> (r: Self)
        ensures
            r.wf(),
            r.edges() == Map::<Seq<char>, Seq<Seq<char>>>::empty(),
    {
        let r = CommitGraph { nodes: Vec::new() };
        proof {
            assert(r.node_seq() =~= Seq::<NodeModel>::empty());
        }
        r
    }

    /// Add a commit and its parent ids; an id already present is left as it
    /// was, and the call reports whether the node was new.
    pub fn add_commit(&mut self, oid: String, parents: Vec<String>) -> (r: bool)
        requires
            old(self).wf(),
        ensures
            final(self).wf(),
            r == !old(self).edges().contains_key(oid@),
            r ==> final(self).edges() == old(self).edges().insert(oid@, ids_of(parents@)),
            !r ==> final(self).edges() == old(self).edges(),
    {
        let ghost old_seq = old(self).node_seq();
        proof {
            assert(self.node_seq() =~= old_seq);
        }
        let mut i: usize = 0;
        while i < self.nodes.len()
            invariant
                old_seq == old(self).node_seq(),
                self.node_seq() == old_seq,
                self.wf(),
                i <= self.nodes@.len(),
                forall|j: int| 0 <= j < i as int ==> self.node_seq()[j].oid != oid@,
            decreases self.nodes@.len() - i,
        {
            if self.nodes[i].oid == oid {
                proof {
                    assert(self.node_seq()[i as int].oid == oid@);
                    lemma_graph_map_contains(self.node_seq(), oid@);
                    assert(self.edges().contains_key(oid@));
                }
                return false;
            }
            i = i + 1;
        }
        proof {
            lemma_graph_map_contains(self.node_seq(), oid@);
            assert(!self.edges().contains_key(oid@));
        }
        let ghost v = NodeModel { oid: oid@, parents: ids_of(parents@) };
        self.nodes.push(CommitNode { oid, parents });
        proof {
            assert(self.node_seq() =~= old_seq.push(v));
            assert(self.node_seq().drop_last() =~= old_seq);
            assert forall|a: int, b: int|
                0 <= a < b < self.node_seq().len() implies self.node_seq()[a].oid
                != self.node_seq()[b].oid by {
                if b == self.node_seq().len() - 1 {
                    assert(self.node_seq()[a] == old_seq[a]);
                }
            }
        }
        true
    }

    /// Is `id` a commit of the graph?
    pub fn has_commit(&self, id: &String) -> (r: bool)
        requires
            self.wf(),
        ensures
            r == self.edges().contains_key(id@),
    {
        let mut i: usize = 0;
        while i < self.nodes.len()
            invariant
                i <= self.nodes@.len(),
                forall|j: int| 0 <= j < i as int ==> self.node_seq()[j].oid != id@,
            decreases self.nodes@.len() - i,
        {
            if self.nodes[i].oid == *id {
                proof {
                    lemma_graph_map_contains(self.node_seq(), id@);
                    assert(self.node_seq()[i as int].oid == id@);
                }
                return true;
            }
            i = i + 1;
        }
        proof {
            lemma_graph_map_contains(self.node_seq(), id@);
        }
        false
    }

    fn parents_of<'a>(&'a self, id: &String) -> (r: Option<&'a Vec<String>>)
        requires
            self.wf(),
        ensures
            match r {
                Some(ps) => self.edges().contains_key(id@) && ids_of(ps@) == self.edges()[id@],
                None => !self.edges().contains_key(id@),
            },
    {
        let mut i: usize = 0;
        while i < self.nodes.len()
            invariant
                self.wf(),
                i <= self.nodes@.len(),
                forall|j: int| 0 <= j < i as int ==> self.node_seq()[j].oid != id@,
            decreases self.nodes@.len() - i,
        {
            if self.nodes[i].oid == *id {
                proof {
                    lemma_graph_map_at(self.node_seq(), i as int);
                    assert(self.node_seq()[i as int].oid == id@);
                }
                return Some(&self.nodes[i].parents);
            }
            i = i + 1;
        }
        proof {
            lemma_graph_map_contains(self.node_seq(), id@);
        }
        None
    }

    /// Does every parent id in the graph name a commit of the graph?
    pub fn is_closed(&self) -> (r: bool)
        requires
            self.wf(),
        ensures
            r == closed_graph(self.edges()),
    {
        let mut i: usize = 0;
        while i < self.nodes.len()
            invariant
                self.wf(),
                i <= self.nodes@.len(),
                forall|a: int, b: int|
                    0 <= a < i as int && 0 <= b < self.node_seq()[a].parents.len()
                        ==> self.edges().contains_key(self.node_seq()[a].parents[b]),
            decreases self.nodes@.len() - i,
        {
            let ps = &self.nodes[i].parents;
            let mut j: usize = 0;
            while j < ps.len()
                invariant
                    self.wf(),
                    i < self.nodes@.len(),
                    j <= ps@.len(),
                    ps@ == self.nodes@[i as int].parents@,
                    forall|a: int, b: int|
                        0 <= a < i as int && 0 <= b < self.node_seq()[a].parents.len()
                            ==> self.edges().contains_key(self.node_seq()[a].parents[b]),
                    forall|b: int|
                        0 <= b < j as int ==> self.edges().contains_key(
                            self.node_seq()[i as int].parents[b],
                        ),
                decreases ps@.len() - j,
            {
                if !self.has_commit(&ps[j]) {
                    proof {
                        lemma_graph_map_at(self.node_seq(), i as int);
                        assert(self.node_seq()[i as int].parents[j as int] == ps@[j as int]@);
                        assert(graph_step(
                            self.edges(),
                            self.node_seq()[i as int].oid,
                            ps@[j as int]@,
                        ));
                    }
                    return false;
                }
                proof {
                    assert(self.node_seq()[i as int].parents[j as int] == ps@[j as int]@);
                }
                j = j + 1;
            }
            i = i + 1;
        }
        proof {
            assert forall|a: Seq<char>, b: Seq<char>|
                graph_step(self.edges(), a, b) implies self.edges().contains_key(b) by {
                lemma_graph_map_contains(self.node_seq(), a);
                let i = choose|i: int| 0 <= i < self.node_seq().len() && self.node_seq()[i].oid == a;
                lemma_graph_map_at(self.node_seq(), i);
                let j = choose|j: int|
                    0 <= j < self.node_seq()[i].parents.len() && self.node_seq()[i].parents[j] == b;
            }
        }
        true
    }

    /// Every commit reachable from `start` by parent edges, `start` itself
    /// included.
    pub fn reach_set(&self, start: &String) -> (r: Vec<String>)
        requires
            self.wf(),
            closed_graph(self.edges()),
            self.edges().contains_key(start@),
        ensures
            forall|id: Seq<char>|
                #[trigger] id_in(ids_of(r@), id) <==> reaches(self.edges(), start@, id),
            ids_of(r@).no_duplicates(),
    {
        let ghost e = self.edges();
        let mut visited: Vec<String> = Vec::new();
        let mut queue: Vec<String> = Vec::new();
        visited.push(start.clone());
        queue.push(start.clone());
        proof {
            lemma_graph_map_finite(self.node_seq());
            lemma_reaches_self(e, start@);
            assert(ids_of(visited@) =~= seq![start@]);
            assert(ids_of(queue@) =~= seq![start@]);
            assert(ids_of(visited@)[0] == start@);
            assert(id_in(ids_of(visited@), start@));
            assert(queue@[0]@ == start@);
            assert(ids_of(visited@).to_set().subset_of(e.dom())) by {
                assert forall|x: Seq<char>|
                    ids_of(visited@).to_set().contains(x) implies e.dom().contains(x) by {
                    assert(x == start@);
                }
            }
            lemma_len_subset(ids_of(visited@).to_set(), e.dom());
            ids_of(visited@).unique_seq_to_set();
            assert(visited@.len() <= e.dom().len());
        }
        while queue.len() > 0
            invariant
                self.wf(),
                e == self.edges(),
                closed_graph(e),
                e.dom().finite(),
                e.contains_key(start@),
                id_in(ids_of(visited@), start@),
                ids_of(visited@).no_duplicates(),
                visited@.len() <= e.dom().len(),
                forall|i: int|
                    0 <= i < visited@.len() ==> e.contains_key(#[trigger] ids_of(visited@)[i])
                        && reaches(e, start@, ids_of(visited@)[i]),
                forall|i: int|
                    0 <= i < queue@.len() ==> id_in(ids_of(visited@), #[trigger] queue@[i]@),
                forall|i: int, b: Seq<char>|
                    0 <= i < visited@.len() && !id_in(ids_of(queue@), ids_of(visited@)[i])
                        && #[trigger] graph_step(e, ids_of(visited@)[i], b) ==> id_in(
                        ids_of(visited@),
                        b,
                    ),
            decreases e.dom().len() - visited@.len(), queue@.len(),
        {
            let ghost old_queue = queue@;
            let cur: String = queue.pop().unwrap();
            proof {
                assert(queue@ =~= old_queue.drop_last());
                assert(old_queue[old_queue.len() - 1]@ == cur@);
                assert(id_in(ids_of(visited@), cur@));
                let vi = choose|i: int|
                    0 <= i < ids_of(visited@).len() && ids_of(visited@)[i] == cur@;
                assert(ids_of(visited@)[vi] == cur@);
                assert(e.contains_key(cur@) && reaches(e, start@, cur@));
                assert forall|i: int, b: Seq<char>|
                    0 <= i < visited@.len() && !id_in(ids_of(queue@), ids_of(visited@)[i])
                        && ids_of(visited@)[i] != cur@ && #[trigger] graph_step(
                        e,
                        ids_of(visited@)[i],
                        b,
                    ) implies id_in(ids_of(visited@), b) by {
                    let x = ids_of(visited@)[i];
                    if id_in(ids_of(old_queue), x) {
                        let k = choose|k: int|
                            0 <= k < ids_of(old_queue).len() && ids_of(old_queue)[k] == x;
                        if k < old_queue.len() - 1 {
                            assert(ids_of(queue@)[k] == x);
                        } else {
                            assert(x == cur@);
                        }
                    }
                }
            }
            let ps = match self.parents_of(&cur) {
                Some(ps) => ps,
                None => {
                    proof {
                        assert(false);
                    }
                    return visited;
                },
            };
            let ghost vis_at_start = visited@;
            let mut j: usize = 0;
            while j < ps.len()
                invariant
                    self.wf(),
                    e == self.edges(),
                    closed_graph(e),
                    e.dom().finite(),
                    e.contains_key(cur@),
                    ids_of(ps@) == e[cur@],
                    j <= ps@.len(),
                    id_in(ids_of(visited@), start@),
                    id_in(ids_of(visited@), cur@),
                    reaches(e, start@, cur@),
                    ids_of(visited@).no_duplicates(),
                    visited@.len() <= e.dom().len(),
                    visited@.len() + old_queue.len() == vis_at_start.len() + 1 + queue@.len(),
                    vis_at_start.len() <= visited@.len(),
                    forall|i: int| 0 <= i < vis_at_start.len() ==> visited@[i] == vis_at_start[i],
                    forall|i: int|
                        0 <= i < visited@.len() ==> e.contains_key(#[trigger] ids_of(visited@)[i])
                            && reaches(e, start@, ids_of(visited@)[i]),
                    forall|i: int|
                        0 <= i < queue@.len() ==> id_in(ids_of(visited@), #[trigger] queue@[i]@),
                    forall|i: int, b: Seq<char>|
                        0 <= i < visited@.len() && !id_in(ids_of(queue@), ids_of(visited@)[i])
                            && ids_of(visited@)[i] != cur@ && #[trigger] graph_step(
                            e,
                            ids_of(visited@)[i],
                            b,
                        ) ==> id_in(ids_of(visited@), b),
                    forall|k: int|
                        0 <= k < j as int ==> id_in(ids_of(visited@), #[trigger] e[cur@][k]),
                decreases ps@.len() - j,
            {
                let p = &ps[j];
                proof {
                    assert(ids_of(ps@)[j as int] == p@);
                    assert(e[cur@][j as int] == p@);
                    assert(graph_step(e, cur@, p@));
                }
                if !contains_id(&visited, p) {
                    let ghost old_vis = visited@;
                    let ghost old_q = queue@;
                    visited.push(p.clone());
                    queue.push(p.clone());
                    proof {
                        assert(ids_of(visited@) =~= ids_of(old_vis).push(p@));
                        assert(ids_of(queue@) =~= ids_of(old_q).push(p@));
                        assert(ids_of(visited@)[visited@.len() - 1] == p@);
                        assert(id_in(ids_of(visited@), p@));
                        lemma_reaches_step(e, start@, cur@, p@);
                        // older visited entries keep their indices
                        assert forall|x: Seq<char>|
                            id_in(ids_of(old_vis), x) implies id_in(ids_of(visited@), x) by {
                            let k = choose|k: int|
                                0 <= k < ids_of(old_vis).len() && ids_of(old_vis)[k] == x;
                            assert(ids_of(visited@)[k] == x);
                        }
                        assert(id_in(ids_of(visited@), start@));
                        assert(id_in(ids_of(visited@), cur@));
                        // no duplicates after the push
                        assert forall|a: int, b: int|
                            0 <= a < b < ids_of(visited@).len() implies ids_of(visited@)[a]
                            != ids_of(visited@)[b] by {
                            if b == ids_of(visited@).len() - 1 {
                                assert(ids_of(visited@)[a] == ids_of(old_vis)[a]);
                                assert(!id_in(ids_of(old_vis), p@));
                            }
                        }
                        // cardinality bound after the push
                        assert(ids_of(visited@).to_set().subset_of(e.dom())) by {
                            assert forall|x: Seq<char>|
                                ids_of(visited@).to_set().contains(x) implies e.dom().contains(
                                x,
                            ) by {
                                let k = choose|k: int|
                                    0 <= k < ids_of(visited@).len() && ids_of(visited@)[k] == x;
                            }
                        }
                        lemma_len_subset(ids_of(visited@).to_set(), e.dom());
                        ids_of(visited@).unique_seq_to_set();
                        // the queue stays inside the visited list
                        assert forall|i: int|
                            0 <= i < queue@.len() implies id_in(
                            ids_of(visited@),
                            #[trigger] queue@[i]@,
                        ) by {
                            if i < queue@.len() - 1 {
                                assert(queue@[i] == old_q[i]);
                                assert(id_in(ids_of(old_vis), old_q[i]@));
                            } else {
                                assert(queue@[i]@ == p@);
                            }
                        }
                        // the closure property survives, cur still excepted
                        assert forall|i: int, b: Seq<char>|
                            0 <= i < visited@.len() && !id_in(ids_of(queue@), ids_of(visited@)[i])
                                && ids_of(visited@)[i] != cur@ && #[trigger] graph_step(
                                e,
                                ids_of(visited@)[i],
                                b,
                            ) implies id_in(ids_of(visited@), b) by {
                            if i < visited@.len() - 1 {
                                assert(ids_of(visited@)[i] == ids_of(old_vis)[i]);
                                assert forall|q: int|
                                    0 <= q < old_q.len() && ids_of(old_q)[q] == ids_of(
                                        visited@,
                                    )[i] implies false by {
                                    assert(ids_of(queue@)[q] == ids_of(old_q)[q]);
                                }
                                assert(!id_in(ids_of(old_q), ids_of(old_vis)[i]));
                                assert(id_in(ids_of(old_vis), b));
                            } else {
                                assert(ids_of(queue@)[queue@.len() - 1] == p@);
                                assert(id_in(ids_of(queue@), ids_of(visited@)[i]));
                            }
                        }
                        // progress on the parents of cur
                        assert forall|k: int|
                            0 <= k < j as int + 1 implies id_in(
                            ids_of(visited@),
                            #[trigger] e[cur@][k],
                        ) by {
                            if k < j as int {
                                assert(id_in(ids_of(old_vis), e[cur@][k]));
                            } else {
                                assert(e[cur@][k] == p@);
                            }
                        }
                    }
                } else {
                    proof {
                        assert forall|k: int|
                            0 <= k < j as int + 1 implies id_in(
                            ids_of(visited@),
                            #[trigger] e[cur@][k],
                        ) by {
                            if k == j as int {
                                assert(e[cur@][k] == p@);
                            }
                        }
                    }
                }
                j = j + 1;
            }
            proof {
                // cur is processed: all its parents are visited, so the
                // closure property no longer needs to except it.
                assert forall|i: int, b: Seq<char>|
                    0 <= i < visited@.len() && !id_in(ids_of(queue@), ids_of(visited@)[i])
                        && #[trigger] graph_step(e, ids_of(visited@)[i], b) implies id_in(
                    ids_of(visited@),
                    b,
                ) by {
                    if ids_of(visited@)[i] == cur@ {
                        let k = choose|k: int| 0 <= k < e[cur@].len() && e[cur@][k] == b;
                        assert(id_in(ids_of(visited@), e[cur@][k]));
                    }
                }
                // termination: either the visited list grew, or the queue
                // shrank with the visited list unchanged.
                assert(visited@.len() + old_queue.len() == vis_at_start.len() + 1 + queue@.len());
            }
        }
        proof {
            let vis = ids_of(visited@);
            assert forall|id: Seq<char>|
                reaches(e, start@, id) implies #[trigger] id_in(vis, id) by {
                let s = vis.to_set();
                assert(s.contains(start@)) by {
                    let i = choose|i: int| 0 <= i < vis.len() && vis[i] == start@;
                    assert(vis.contains(start@));
                }
                assert forall|a: Seq<char>, b: Seq<char>|
                    s.contains(a) && #[trigger] graph_step(e, a, b) implies s.contains(b) by {
                    let i = choose|i: int| 0 <= i < vis.len() && vis[i] == a;
                    assert(!id_in(ids_of(queue@), a));
                    assert(id_in(vis, b));
                    let k = choose|k: int| 0 <= k < vis.len() && vis[k] == b;
                    assert(vis.contains(b));
                }
                lemma_reaches_in_closed_set(e, start@, id, s);
                let k = choose|k: int| 0 <= k < vis.len() && vis[k] == id;
                assert(vis[k] == id);
            }
            assert forall|id: Seq<char>|
                #[trigger] id_in(vis, id) implies reaches(e, start@, id) by {
                let i = choose|i: int| 0 <= i < vis.len() && vis[i] == id;
            }
        }
        visited
    }

    /// The commits reachable from `tip` but not from `base`: the commit
    /// range `base..tip`.
    pub fn resolve_range(&self, tip: &String, base: &String) -> (r: Result<
        Vec<String>,
        GlanceError,
    >)
        requires
            self.wf(),
            closed_graph(self.edges()),
        ensures
            match r {
                Ok(ids) => self.edges().contains_key(tip@) && self.edges().contains_key(base@)
                    && ids_of(ids@).no_duplicates() && forall|id: Seq<char>|
                    #[trigger] id_in(ids_of(ids@), id) <==> (reaches(self.edges(), tip@, id)
                        && !reaches(self.edges(), base@, id)),
                Err(err) => err matches GlanceError::UnknownCommit(id) && !self.edges(
                ).contains_key(id@) && (id@ == tip@ || id@ == base@),
            },
    {
        if !self.has_commit(tip) {
            return Err(GlanceError::UnknownCommit(tip.clone()));
        }
        if !self.has_commit(base) {
            return Err(GlanceError::UnknownCommit(base.clone()));
        }
        let ghost e = self.edges();
        let from_tip = self.reach_set(tip);
        let from_base = self.reach_set(base);
        let mut out: Vec<String> = Vec::new();
        let mut i: usize = 0;
        while i < from_tip.len()
            invariant
                i <= from_tip@.len(),
                ids_of(from_tip@).no_duplicates(),
                forall|id: Seq<char>|
                    #[trigger] id_in(ids_of(from_tip@), id) <==> reaches(e, tip@, id),
                forall|id: Seq<char>|
                    #[trigger] id_in(ids_of(from_base@), id) <==> reaches(e, base@, id),
                ids_of(out@).no_duplicates(),
                forall|id: Seq<char>|
                    #[trigger] id_in(ids_of(out@), id) <==> (exists|k: int|
                        0 <= k < i as int && ids_of(from_tip@)[k] == id && !id_in(
                            ids_of(from_base@),
                            id,
                        )),
            decreases from_tip@.len() - i,
        {
            let c = &from_tip[i];
            proof {
                assert(ids_of(from_tip@)[i as int] == c@);
            }
            if !contains_id(&from_base, c) {
                let ghost old_out = out@;
                out.push(c.clone());
                proof {
                    assert(ids_of(out@) =~= ids_of(old_out).push(c@));
                    assert forall|a: int, b: int|
                        0 <= a < b < ids_of(out@).len() implies ids_of(out@)[a] != ids_of(
                        out@,
                    )[b] by {
                        if b == ids_of(out@).len() - 1 {
                            assert(ids_of(out@)[a] == ids_of(old_out)[a]);
                            if id_in(ids_of(old_out), c@) {
                                let k = choose|k: int|
                                    0 <= k < i as int && ids_of(from_tip@)[k] == c@ && !id_in(
                                        ids_of(from_base@),
                                        c@,
                                    );
                                assert(ids_of(from_tip@)[k] == ids_of(from_tip@)[i as int]);
                            }
                        }
                    }
                    assert forall|id: Seq<char>|
                        #[trigger] id_in(ids_of(out@), id) implies (exists|k: int|
                            0 <= k < i as int + 1 && ids_of(from_tip@)[k] == id && !id_in(
                                ids_of(from_base@),
                                id,
                            )) by {
                        let x = choose|x: int| 0 <= x < ids_of(out@).len() && ids_of(out@)[x] == id;
                        if x < ids_of(out@).len() - 1 {
                            assert(id_in(ids_of(old_out), id));
                        } else {
                            assert(ids_of(from_tip@)[i as int] == id);
                        }
                    }
                    assert forall|id: Seq<char>|
                        (exists|k: int|
                            0 <= k < i as int + 1 && ids_of(from_tip@)[k] == id && !id_in(
                                ids_of(from_base@),
                                id,
                            )) implies #[trigger] id_in(ids_of(out@), id) by {
                        let k = choose|k: int|
                            0 <= k < i as int + 1 && ids_of(from_tip@)[k] == id && !id_in(
                                ids_of(from_base@),
                                id,
                            );
                        if k < i as int {
                            assert(id_in(ids_of(old_out), id));
                            let x = choose|x: int|
                                0 <= x < ids_of(old_out).len() && ids_of(old_out)[x] == id;
                            assert(ids_of(out@)[x] == id);
                        } else {
                            assert(ids_of(out@)[ids_of(out@).len() - 1] == id);
                        }
                    }
                }
            } else {
                proof {
                    assert forall|id: Seq<char>|
                        #[trigger] id_in(ids_of(out@), id) implies (exists|k: int|
                            0 <= k < i as int + 1 && ids_of(from_tip@)[k] == id && !id_in(
                                ids_of(from_base@),
                                id,
                            )) by {}
                    assert forall|id: Seq<char>|
                        (exists|k: int|
                            0 <= k < i as int + 1 && ids_of(from_tip@)[k] == id && !id_in(
                                ids_of(from_base@),
                                id,
                            )) implies #[trigger] id_in(ids_of(out@), id) by {
                        let k = choose|k: int|
                            0 <= k < i as int + 1 && ids_of(from_tip@)[k] == id && !id_in(
                                ids_of(from_base@),
                                id,
                            );
                        if k == i as int {
                            assert(id == c@);
                            assert(id_in(ids_of(from_base@), id));
                        }
                    }
                }
            }
            i = i + 1;
        }
        proof {
            assert forall|id: Seq<char>|
                #[trigger] id_in(ids_of(out@), id) implies (reaches(e, tip@, id) && !reaches(
                e,
                base@,
                id,
            )) by {
                let k = choose|k: int|
                    0 <= k < from_tip@.len() && ids_of(from_tip@)[k] == id && !id_in(
                        ids_of(from_base@),
                        id,
                    );
                assert(id_in(ids_of(from_tip@), id));
            }
            assert forall|id: Seq<char>|
                (reaches(e, tip@, id) && !reaches(e, base@, id)) implies #[trigger] id_in(
                ids_of(out@),
                id,
            ) by {
                assert(id_in(ids_of(from_tip@), id));
                let k = choose|k: int|
                    0 <= k < ids_of(from_tip@).len() && ids_of(from_tip@)[k] == id;
            }
        }
        Ok(out)
    }
}

/// The range endpoints behave as ancestry exclusion demands: the base
/// commit is never in the range; the tip commit is in the range unless the
/// base reaches it; and an empty range results when base and tip coincide.
pub proof fn lemma_range_endpoints(
    e: Map<Seq<char>, Seq<Seq<char>>>,
    tip: Seq<char>,
    base: Seq<char>,
    ids: Seq<Seq<char>>,
)
    requires
        forall|id: Seq<char>|
            #[trigger] id_in(ids, id) <==> (reaches(e, tip, id) && !reaches(e, base, id)),
    ensures
        !id_in(ids, base),
        !reaches(e, base, tip) ==> id_in(ids, tip),
        base == tip ==> ids.len() == 0,
{
    lemma_reaches_self(e, base);
    if !reaches(e, base, tip) {
        lemma_reaches_self(e, tip);
    }
    if base == tip && ids.len() > 0 {
        assert(id_in(ids, ids[0]));
    }
}

/// The tip reference of a run: the explicitly supplied release reference,
/// else the current branch head.
pub fn choose_tip(explicit: Option<String>, head: String) -> (r: String)
    ensures
        explicit matches Some(e) ==> r == e,
        explicit is None ==> r == head,
{
    match explicit {
        Some(e) => e,
        None => head,
    }
}

/// The base reference of a run: the explicitly supplied one, else the most
/// recently created tag. With neither, the run has no baseline — a fatal,
/// user-facing condition, never retried.
pub fn choose_baseline(explicit: Option<String>, latest_tag: Option<String>) -> (r: Result<
    String,
    GlanceError,
>)
    ensures
        match r {
            Ok(s) => (explicit matches Some(e) && s == e) || (explicit is None && (
            latest_tag matches Some(t) && s == t)),
            Err(e) => explicit is None && latest_tag is None && e is NoBaseline,
        },
{
    match explicit {
        Some(e) => Ok(e),
        None => match latest_tag {
            Some(t) => Ok(t),
            None => Err(GlanceError::NoBaseline),
        },
    }
}

} // verus!
