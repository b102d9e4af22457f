//! Breeding trees: a pal together with the parents it was bred from.
use vstd::prelude::*;

use crate::data::{lemma_combined_is_pal, CombineError, Data, DataView};

verus! {

/// The mathematical content of a [`PalNode`].
pub enum PalTree {
    /// A pal taken as it is.
    Leaf(Seq<char>),
    /// A pal bred from two parent trees.
    Bred(Seq<char>, Box<PalTree>, Box<PalTree>),
}

impl PalTree {
    /// The name of the pal at the root.
    pub open spec fn name(self) -> Seq<char> {
        match self {
            PalTree::Leaf(n) => n,
            PalTree::Bred(n, _, _) => n,
        }
    }

    /// Every breeding step of the tree follows the database, and every leaf is in `base`.
    pub open spec fn follows(self, d: DataView, base: Set<Seq<char>>) -> bool
        decreases self,
    {
        match self {
            PalTree::Leaf(n) => base.contains(n),
            PalTree::Bred(n, l, r) => {
                &&& d.has_pal(l.name())
                &&& d.has_pal(r.name())
                &&& d.combined(l.name(), r.name()) is Ok
                &&& d.child_name(l.name(), r.name()) == n
                &&& l.follows(d, base)
                &&& r.follows(d, base)
            },
        }
    }
}

/// A pal, with the two parents it was bred from when it was bred.
#[derive(Debug)]
pub struct PalNode {
    pub name: String,
    pub parents: Option<(Box<PalNode>, Box<PalNode>)>,
}

impl View for PalNode {
    type V = PalTree;

    open spec fn view(&self) -> PalTree
        decreases self,
    {
        match &self.parents {
            None => PalTree::Leaf(self.name@),
            Some((l, r)) => PalTree::Bred(self.name@, Box::new((**l).view()), Box::new((**r).view())),
        }
    }
}

impl Clone for PalNode {
    fn clone(&self) -> (c: PalNode)
        ensures
            c@ == self@,
        decreases self,
    {
        let parents = match &self.parents {
            None => None,
            Some((l, r)) => {
                let l2 = (**l).clone();
                let r2 = (**r).clone();
                Some((Box::new(l2), Box::new(r2)))
            },
        };
        PalNode { name: self.name.clone(), parents }
    }
}

impl PalNode {
    /// The pal `name` bred from copies of the two given parents.
    pub fn new(name: &str, parents: (&PalNode, &PalNode)) -> (n: PalNode)
        ensures
            n@ == PalTree::Bred(name@, Box::new(parents.0@), Box::new(parents.1@)),
    {
        let l = parents.0.clone();
        let r = parents.1.clone();
        PalNode { name: name.to_owned(), parents: Some((Box::new(l), Box::new(r))) }
    }

    /// The pal `name` with no parents.
    pub fn terminal(name: &str) -> (n: PalNode)
        ensures
            n@ == PalTree::Leaf(name@),
    {
        PalNode { name: name.to_owned(), parents: None }
    }
}

/// The line that declares the node `n`.
pub open spec fn node_line(n: Seq<char>) -> Seq<char> {
    "  "@ + n + " [label=\""@ + n + "\"];\n"@
}

/// The line that draws an edge from `from` to `to`.
pub open spec fn edge_line(from: Seq<char>, to: Seq<char>) -> Seq<char> {
    "  "@ + from + " -> "@ + to + ";\n"@
}

/// The lines that draw `t` and its ancestors in the graph description: the node
/// itself, then its first parent's lines, its second parent's lines, and the two
/// edges from the parents.
pub open spec fn dot_node_text(t: PalTree) -> Seq<char>
    decreases t,
{
    match t {
        PalTree::Leaf(n) => node_line(n),
        PalTree::Bred(n, l, r) => node_line(n) + dot_node_text(*l) + dot_node_text(*r) + edge_line(
            l.name(),
            n,
        ) + edge_line(r.name(), n),
    }
}

/// The whole graph description of `t`.
pub open spec fn dot_text(t: PalTree) -> Seq<char> {
    "digraph PalNode {\n"@ + "  node [shape=box];\n"@ + dot_node_text(t) + "}\n"@
}

fn push_node_line(n: &str, out: &mut String)
    ensures
        final(out)@ == old(out)@ + node_line(n@),
{
    let ghost start = out@;
    out.append("  ");
    out.append(n);
    out.append(" [label=\"");
    out.append(n);
    out.append("\"];\n");
    assert(out@ =~= start + node_line(n@));
}

fn push_edge_line(from: &str, to: &str, out: &mut String)
    ensures
        final(out)@ == old(out)@ + edge_line(from@, to@),
{
    let ghost start = out@;
    out.append("  ");
    out.append(from);
    out.append(" -> ");
    out.append(to);
    out.append(";\n");
    assert(out@ =~= start + edge_line(from@, to@));
}

/// Appends the lines of `node` and its ancestors to `out`.
fn push_node_text(node: &PalNode, out: &mut String)
    ensures
        final(out)@ == old(out)@ + dot_node_text(node@),
    decreases node,
{
    let ghost start = out@;
    push_node_line(node.name.as_str(), out);
    match &node.parents {
        None => {
        },
        Some((l, r)) => {
            let ghost s1 = out@;
            push_node_text(&**l, out);
            let ghost s2 = out@;
            push_node_text(&**r, out);
            let ghost s3 = out@;
            push_edge_line(l.name.as_str(), node.name.as_str(), out);
            let ghost s4 = out@;
            push_edge_line(r.name.as_str(), node.name.as_str(), out);
            assert(out@ =~= start + dot_node_text(node@));
        },
    }
}

/// The graph description (Graphviz "dot") of `node` and its ancestors.
pub fn dot_source(node: &PalNode) -> (s: String)
    ensures
        s@ == dot_text(node@),
{
    let mut out = String::new();
    out.append("digraph PalNode {\n");
    out.append("  node [shape=box];\n");
    push_node_text(node, &mut out);
    out.append("}\n");
    assert(out@ =~= dot_text(node@));
    out
}

/// The views of a list of nodes.
pub open spec fn trees(v: Seq<PalNode>) -> Seq<PalTree> {
    v.map_values(|n: PalNode| n@)
}

/// Leaves for the given names.
pub open spec fn leaves(names: Seq<Seq<char>>) -> Seq<PalTree> {
    names.map_values(|n: Seq<char>| PalTree::Leaf(n))
}

/// The ordered pairs `(p, q)` with `p` from `ps` and `q` from `qs`, `p` varying slowest.
pub open spec fn pairs(ps: Seq<PalTree>, qs: Seq<PalTree>) -> Seq<(PalTree, PalTree)>
    decreases ps.len(),
{
    if ps.len() == 0 {
        Seq::empty()
    } else {
        pairs(ps.drop_last(), qs) + qs.map_values(|q: PalTree| (ps.last(), q))
    }
}

/// The node bred from `p` and `q`.
pub open spec fn bred(d: DataView, p: PalTree, q: PalTree) -> PalTree {
    PalTree::Bred(d.child_name(p.name(), q.name()), Box::new(p), Box::new(q))
}

/// Why a path search stopped.
pub enum SearchFailure {
    /// A parent is not a pal of the database.
    PalNotFound(Seq<char>),
    /// Combining the two parents would read a database entry that is absent.
    MissingEntry(Seq<char>, Seq<char>),
}

/// What goes wrong when `p` and `q` are combined, if anything.
pub open spec fn pair_failure(d: DataView, p: PalTree, q: PalTree) -> Option<SearchFailure> {
    if !d.can_combine(p.name(), q.name()) {
        Some(SearchFailure::MissingEntry(p.name(), q.name()))
    } else {
        match d.combined(p.name(), q.name()) {
            Err(n) => Some(SearchFailure::PalNotFound(n)),
            Ok(_) => None,
        }
    }
}

/// The children of the given pairs, in order, or the first failure together with the
/// children bred before it.
pub open spec fn offspring(d: DataView, ps: Seq<(PalTree, PalTree)>) -> Result<
    Seq<PalTree>,
    (Seq<PalTree>, SearchFailure),
>
    decreases ps.len(),
{
    if ps.len() == 0 {
        Ok(Seq::empty())
    } else {
        match offspring(d, ps.drop_last()) {
            Err(e) => Err(e),
            Ok(g) => {
                let (p, q) = ps.last();
                match pair_failure(d, p, q) {
                    Some(e) => Err((g, e)),
                    None => Ok(g.push(bred(d, p, q))),
                }
            },
        }
    }
}

/// Some tree of `s` has the root name `n`.
pub open spec fn has_tree_named(s: Seq<PalTree>, n: Seq<char>) -> bool {
    exists|i: int| 0 <= i < s.len() && (#[trigger] s[i]).name() == n
}

/// One bred node taken into the round state `(fresh, targets)`: it is a target when
/// it has the target's name, and it is fresh when its name is new to `known`,
/// `latest` and the fresh nodes so far.
pub open spec fn absorb(
    known: Seq<PalTree>,
    latest: Seq<PalTree>,
    target: Seq<char>,
    st: (Seq<PalTree>, Seq<PalTree>),
    node: PalTree,
) -> (Seq<PalTree>, Seq<PalTree>) {
    let targets = if node.name() == target {
        st.1.push(node)
    } else {
        st.1
    };
    let fresh = if !has_tree_named(known, node.name()) && !has_tree_named(latest, node.name())
        && !has_tree_named(st.0, node.name()) {
        st.0.push(node)
    } else {
        st.0
    };
    (fresh, targets)
}

/// One round: every pair of `pairs(known, latest)` bred and absorbed, in order.
pub open spec fn round(
    d: DataView,
    known: Seq<PalTree>,
    latest: Seq<PalTree>,
    target: Seq<char>,
    st: (Seq<PalTree>, Seq<PalTree>),
    ps: Seq<(PalTree, PalTree)>,
) -> Result<(Seq<PalTree>, Seq<PalTree>), ((Seq<PalTree>, Seq<PalTree>), SearchFailure)>
    decreases ps.len(),
{
    if ps.len() == 0 {
        Ok(st)
    } else {
        match round(d, known, latest, target, st, ps.drop_last()) {
            Err(e) => Err(e),
            Ok(st2) => {
                let (p, q) = ps.last();
                match pair_failure(d, p, q) {
                    Some(e) => Err((st2, e)),
                    None => Ok(absorb(known, latest, target, st2, bred(d, p, q))),
                }
            },
        }
    }
}

/// At most `fuel` rounds, each breeding the known nodes with the latest ones; the
/// search ends early when a round finds nothing fresh. Gives the targets found, or
/// the first failure together with the targets found before it.
pub open spec fn rounds(
    d: DataView,
    target: Seq<char>,
    known: Seq<PalTree>,
    latest: Seq<PalTree>,
    pending: Seq<PalTree>,
    targets: Seq<PalTree>,
    fuel: nat,
) -> Result<Seq<PalTree>, (Seq<PalTree>, SearchFailure)>
    decreases fuel,
{
    if fuel == 0 {
        Ok(targets)
    } else {
        match round(d, known, latest, target, (pending, targets), pairs(known, latest)) {
            Err((st, e)) => Err((st.1, e)),
            Ok((fresh, found)) => if fresh.len() == 0 {
                Ok(found)
            } else {
                rounds(d, target, known + latest, fresh, Seq::empty(), found, (fuel - 1) as nat)
            },
        }
    }
}

/// The number of rounds a search runs at most.
pub const MAX_ROUNDS: usize = 100;

/// The search from the given parents: the first generation (every male bred with
/// every female) and the breeding trees found for `target`; on a failure, what had
/// been bred and found before it, and the failure.
pub open spec fn search_result(
    d: DataView,
    males: Seq<Seq<char>>,
    females: Seq<Seq<char>>,
    target: Seq<char>,
) -> Result<(Seq<PalTree>, Seq<PalTree>), (Seq<PalTree>, Seq<PalTree>, SearchFailure)> {
    let ms = leaves(males);
    let fs = leaves(females);
    match offspring(d, pairs(ms, fs)) {
        Err((g, e)) => Err((g, Seq::empty(), e)),
        Ok(g) => match rounds(d, target, ms + fs, g, g, Seq::empty(), MAX_ROUNDS as nat) {
            Err((t, e)) => Err((g, t, e)),
            Ok(t) => Ok((g, t)),
        },
    }
}

/// What a path search found.
pub struct PathSearch {
    /// Every male bred with every female, males varying slowest.
    pub first_generation: Vec<PalNode>,
    /// The breeding trees whose root is the target, in the order found.
    pub targets: Vec<PalNode>,
}

/// Why a path search stopped.
pub enum SearchError {
    /// A parent is not a pal of the database.
    PalNotFound(String),
    /// Combining the two named parents would read a database entry that is absent.
    MissingEntry(String, String),
}

impl SearchError {
    /// The mathematical content of the error.
    pub open spec fn failure(&self) -> SearchFailure {
        match self {
            SearchError::PalNotFound(n) => SearchFailure::PalNotFound(n@),
            SearchError::MissingEntry(a, b) => SearchFailure::MissingEntry(a@, b@),
        }
    }
}

/// A copy of the list `v`.
fn copy_nodes(v: &Vec<PalNode>) -> (c: Vec<PalNode>)
    ensures
        trees(c@) == trees(v@),
{
    let mut c: Vec<PalNode> = Vec::new();
    let mut i: usize = 0;
    while i < v.len()
        invariant
            i <= v.len(),
            trees(c@) == trees(v@.take(i as int)),
        decreases v.len() - i,
    {
        let x = v[i].clone();
        assert(x@ == v@[i as int]@);
        let ghost before = c@;
        c.push(x);
        assert(trees(c@) =~= trees(before).push(x@));
        assert(trees(v@.take(i + 1)) =~= trees(v@.take(i as int)).push(v@[i as int]@));
        i = i + 1;
    }
    assert(v@.take(v.len() as int) =~= v@);
    c
}

/// Appends copies of the nodes of `v` to `out`.
fn extend_nodes(out: &mut Vec<PalNode>, v: &Vec<PalNode>)
    ensures
        trees(final(out)@) == trees(old(out)@) + trees(v@),
{
    let ghost start = trees(out@);
    let mut i: usize = 0;
    while i < v.len()
        invariant
            i <= v.len(),
            trees(out@) == start + trees(v@.take(i as int)),
        decreases v.len() - i,
    {
        let x = v[i].clone();
        assert(x@ == v@[i as int]@);
        let ghost before = out@;
        out.push(x);
        assert(trees(out@) =~= trees(before).push(x@));
        assert(trees(v@.take(i + 1)) =~= trees(v@.take(i as int)).push(v@[i as int]@));
        i = i + 1;
    }
    assert(v@.take(v.len() as int) =~= v@);
}

/// Whether some node of `v` has the name `n`.
fn has_node_named(v: &Vec<PalNode>, n: &String) -> (b: bool)
    ensures
        b == has_tree_named(trees(v@), n@),
{
    let mut i: usize = 0;
    while i < v.len()
        invariant
            i <= v.len(),
            forall|j: int| 0 <= j < i ==> (#[trigger] trees(v@)[j]).name() != n@,
        decreases v.len() - i,
    {
        assert(trees(v@)[i as int] == v@[i as int]@);
        if v[i].name == *n {
            assert(trees(v@)[i as int].name() == n@);
            return true;
        }
        i = i + 1;
    }
    false
}

/// Unfolds `pairs` over one more outer element.
proof fn lemma_pairs_step(ps: Seq<PalTree>, qs: Seq<PalTree>, i: int)
    requires
        0 <= i < ps.len(),
    ensures
        pairs(ps.take(i + 1), qs) == pairs(ps.take(i), qs) + qs.map_values(|q: PalTree| (ps[i], q)),
{
    assert(ps.take(i + 1).drop_last() =~= ps.take(i));
}

/// The inner prefix of the pairs of a row.
proof fn lemma_row_step(p: PalTree, qs: Seq<PalTree>, j: int)
    requires
        0 <= j < qs.len(),
    ensures
        qs.take(j + 1).map_values(|q: PalTree| (p, q)) == qs.take(j).map_values(
            |q: PalTree| (p, q),
        ).push((p, qs[j])),
{
    assert(qs.take(j + 1).map_values(|q: PalTree| (p, q)) =~= qs.take(j).map_values(
        |q: PalTree| (p, q),
    ).push((p, qs[j])));
}

/// Once a breeding run has failed, breeding more pairs does not change the failure.
proof fn lemma_offspring_failure_stays(d: DataView, a: Seq<(PalTree, PalTree)>, b: Seq<(PalTree, PalTree)>)
    requires
        offspring(d, a) is Err,
    ensures
        offspring(d, a + b) == offspring(d, a),
    decreases b.len(),
{
    if b.len() == 0 {
        assert(a + b =~= a);
    } else {
        lemma_offspring_failure_stays(d, a, b.drop_last());
        assert((a + b).drop_last() =~= a + b.drop_last());
    }
}

/// Once a round has failed, breeding more pairs does not change the failure.
proof fn lemma_round_failure_stays(
    d: DataView,
    known: Seq<PalTree>,
    latest: Seq<PalTree>,
    target: Seq<char>,
    st: (Seq<PalTree>, Seq<PalTree>),
    a: Seq<(PalTree, PalTree)>,
    b: Seq<(PalTree, PalTree)>,
)
    requires
        round(d, known, latest, target, st, a) is Err,
    ensures
        round(d, known, latest, target, st, a + b) == round(d, known, latest, target, st, a),
    decreases b.len(),
{
    if b.len() == 0 {
        assert(a + b =~= a);
    } else {
        lemma_round_failure_stays(d, known, latest, target, st, a, b.drop_last());
        assert((a + b).drop_last() =~= a + b.drop_last());
    }
}

/// `pairs` distributes over concatenation of the outer list.
proof fn lemma_pairs_append(a: Seq<PalTree>, b: Seq<PalTree>, qs: Seq<PalTree>)
    ensures
        pairs(a + b, qs) == pairs(a, qs) + pairs(b, qs),
    decreases b.len(),
{
    if b.len() == 0 {
        assert(a + b =~= a);
        assert(pairs(a, qs) + pairs(b, qs) =~= pairs(a, qs));
    } else {
        lemma_pairs_append(a, b.drop_last(), qs);
        assert((a + b).drop_last() =~= a + b.drop_last());
        assert((a + b).last() == b.last());
        assert(pairs(a + b, qs) =~= pairs(a, qs) + pairs(b, qs));
    }
}

/// The pairs up to and including the `j`-th partner of the `i`-th outer element
/// are a prefix of all the pairs.
proof fn lemma_pairs_split(ps: Seq<PalTree>, qs: Seq<PalTree>, i: int, j: int)
    requires
        0 <= i < ps.len(),
        0 <= j < qs.len(),
    ensures
        pairs(ps, qs) == (pairs(ps.take(i), qs) + qs.take(j + 1).map_values(
            |q: PalTree| (ps[i], q),
        )) + (qs.skip(j + 1).map_values(|q: PalTree| (ps[i], q)) + pairs(ps.skip(i + 1), qs)),
{
    assert(ps =~= ps.take(i) + ps.skip(i));
    lemma_pairs_append(ps.take(i), ps.skip(i), qs);
    let one = seq![ps[i]];
    assert(ps.skip(i) =~= one + ps.skip(i + 1));
    lemma_pairs_append(one, ps.skip(i + 1), qs);
    assert(one.drop_last() =~= Seq::<PalTree>::empty());
    assert(one.last() == ps[i]);
    assert(pairs(Seq::<PalTree>::empty(), qs) =~= Seq::<(PalTree, PalTree)>::empty());
    assert(pairs(one, qs) =~= qs.map_values(|q: PalTree| (ps[i], q)));
    assert(qs.map_values(|q: PalTree| (ps[i], q)) =~= qs.take(j + 1).map_values(
        |q: PalTree| (ps[i], q),
    ) + qs.skip(j + 1).map_values(|q: PalTree| (ps[i], q)));
    assert(pairs(ps, qs) =~= (pairs(ps.take(i), qs) + qs.take(j + 1).map_values(
        |q: PalTree| (ps[i], q),
    )) + (qs.skip(j + 1).map_values(|q: PalTree| (ps[i], q)) + pairs(ps.skip(i + 1), qs)));
}

/// Breeds `p` and `q`, or reports why they cannot be bred.
fn breed(data: &Data, p: &PalNode, q: &PalNode) -> (r: Result<PalNode, SearchError>)
    ensures
        match r {
            Ok(n) => pair_failure(data@, p@, q@) is None && n@ == bred(data@, p@, q@),
            Err(e) => pair_failure(data@, p@, q@) == Some(e.failure()),
        },
{
    if !data.combinable(p.name.as_str(), q.name.as_str()) {
        return Err(SearchError::MissingEntry(p.name.clone(), q.name.clone()));
    }
    match data.combine(p.name.as_str(), q.name.as_str()) {
        Ok((k, _)) => Ok(PalNode::new(k.as_str(), (p, q))),
        Err(CombineError::PalNotFound(n)) => Err(SearchError::PalNotFound(n)),
    }
}

/// The names of a list of name slices.
pub open spec fn names_of(v: Seq<&str>) -> Seq<Seq<char>> {
    v.map_values(|s: &str| s@)
}

/// Every tree of `s` follows the database with leaves in `base`.
pub open spec fn all_follow(s: Seq<PalTree>, d: DataView, base: Set<Seq<char>>) -> bool {
    forall|i: int| 0 <= i < s.len() ==> (#[trigger] s[i]).follows(d, base)
}

/// Every tree of `s` has the root name `n`.
pub open spec fn all_named(s: Seq<PalTree>, n: Seq<char>) -> bool {
    forall|i: int| 0 <= i < s.len() ==> (#[trigger] s[i]).name() == n
}

/// A leaf node for each name.
fn terminals(names: &Vec<&str>) -> (v: Vec<PalNode>)
    ensures
        trees(v@) == leaves(names_of(names@)),
{
    let mut v: Vec<PalNode> = Vec::new();
    let mut i: usize = 0;
    while i < names.len()
        invariant
            i <= names.len(),
            trees(v@) == leaves(names_of(names@.take(i as int))),
        decreases names.len() - i,
    {
        let x = PalNode::terminal(names[i]);
        let ghost before = v@;
        v.push(x);
        assert(trees(v@) =~= trees(before).push(x@));
        assert(leaves(names_of(names@.take(i + 1))) =~= leaves(names_of(names@.take(i as int))).push(
            PalTree::Leaf(names@[i as int]@),
        ));
        i = i + 1;
    }
    assert(names@.take(names.len() as int) =~= names@);
    v
}

/// The children of every pair `(p, q)`, `p` from `ps` varying slowest and `q` from `qs`.
fn breed_all(data: &Data, ps: &Vec<PalNode>, qs: &Vec<PalNode>, Ghost(base): Ghost<Set<Seq<char>>>) -> (r: Result<
    Vec<PalNode>,
    (Vec<PalNode>, SearchError),
>)
    requires
        data@.wf(),
        all_follow(trees(ps@), data@, base),
        all_follow(trees(qs@), data@, base),
    ensures
        match r {
            Ok(g) => offspring(data@, pairs(trees(ps@), trees(qs@))) == Ok::<
                Seq<PalTree>,
                (Seq<PalTree>, SearchFailure),
            >(trees(g@)) && all_follow(trees(g@), data@, base),
            Err((g, e)) => offspring(data@, pairs(trees(ps@), trees(qs@))) == Err::<
                Seq<PalTree>,
                (Seq<PalTree>, SearchFailure),
            >((trees(g@), e.failure())) && all_follow(trees(g@), data@, base),
        },
{
    let ghost d = data@;
    let ghost pt = trees(ps@);
    let ghost qt = trees(qs@);
    let mut g: Vec<PalNode> = Vec::new();
    assert(trees(g@) =~= Seq::<PalTree>::empty());
    assert(pt.take(0) =~= Seq::<PalTree>::empty());
    let mut i: usize = 0;
    while i < ps.len()
        invariant
            d == data@,
            d.wf(),
            pt == trees(ps@),
            qt == trees(qs@),
            i <= ps.len(),
            all_follow(pt, d, base),
            all_follow(qt, d, base),
            all_follow(trees(g@), d, base),
            offspring(d, pairs(pt.take(i as int), qt)) == Ok::<Seq<PalTree>, (Seq<PalTree>, SearchFailure)>(
                trees(g@),
            ),
        decreases ps.len() - i,
    {
        let ghost row = pairs(pt.take(i as int), qt);
        let mut j: usize = 0;
        while j < qs.len()
            invariant
                d == data@,
                d.wf(),
                pt == trees(ps@),
                qt == trees(qs@),
                i < ps.len(),
                j <= qs.len(),
                row == pairs(pt.take(i as int), qt),
                all_follow(pt, d, base),
                all_follow(qt, d, base),
                all_follow(trees(g@), d, base),
                offspring(d, row + qt.take(j as int).map_values(|q: PalTree| (pt[i as int], q)))
                    == Ok::<Seq<PalTree>, (Seq<PalTree>, SearchFailure)>(trees(g@)),
            decreases qs.len() - j,
        {
            let ghost prefix = row + qt.take(j as int).map_values(|q: PalTree| (pt[i as int], q));
            proof {
                lemma_row_step(pt[i as int], qt, j as int);
                assert(row + qt.take(j + 1).map_values(|q: PalTree| (pt[i as int], q)) =~= prefix.push(
                    (pt[i as int], qt[j as int]),
                ));
                assert(prefix.push((pt[i as int], qt[j as int])).drop_last() =~= prefix);
                assert(pt[i as int] == ps@[i as int]@);
                assert(qt[j as int] == qs@[j as int]@);
            }
            let node = match breed(data, &ps[i], &qs[j]) {
                Ok(n) => n,
                Err(e) => {
                    proof {
                        lemma_pairs_split(pt, qt, i as int, j as int);
                        lemma_offspring_failure_stays(
                            d,
                            prefix.push((pt[i as int], qt[j as int])),
                            qt.skip(j + 1).map_values(|q: PalTree| (pt[i as int], q)) + pairs(
                                pt.skip(i + 1),
                                qt,
                            ),
                        );
                    }
                    return Err((g, e));
                },
            };
            proof {
                lemma_combined_is_pal(d, pt[i as int].name(), qt[j as int].name());
                assert(pt[i as int].follows(d, base));
                assert(qt[j as int].follows(d, base));
            }
            let ghost before = g@;
            g.push(node);
            assert(trees(g@) =~= trees(before).push(node@));
            j = j + 1;
        }
        proof {
            lemma_pairs_step(pt, qt, i as int);
            assert(qt.take(qt.len() as int) =~= qt);
        }
        i = i + 1;
    }
    assert(pt.take(pt.len() as int) =~= pt);
    Ok(g)
}

/// One round: breeds every node of `known` with every node of `latest`, in order,
/// adding the targets to `found` and the nodes with new names to `fresh`.
fn run_round(
    data: &Data,
    known: &Vec<PalNode>,
    latest: &Vec<PalNode>,
    target: &str,
    fresh: &mut Vec<PalNode>,
    found: &mut Vec<PalNode>,
    Ghost(base): Ghost<Set<Seq<char>>>,
) -> (r: Result<(), SearchError>)
    requires
        data@.wf(),
        all_follow(trees(known@), data@, base),
        all_follow(trees(latest@), data@, base),
        all_follow(trees(old(fresh)@), data@, base),
        all_follow(trees(old(found)@), data@, base),
        all_named(trees(old(found)@), target@),
    ensures
        match r {
            Ok(()) => {
                &&& round(
                    data@,
                    trees(known@),
                    trees(latest@),
                    target@,
                    (trees(old(fresh)@), trees(old(found)@)),
                    pairs(trees(known@), trees(latest@)),
                ) == Ok::<(Seq<PalTree>, Seq<PalTree>), ((Seq<PalTree>, Seq<PalTree>), SearchFailure)>(
                    (trees(final(fresh)@), trees(final(found)@)),
                )
                &&& all_follow(trees(final(fresh)@), data@, base)
                &&& all_follow(trees(final(found)@), data@, base)
                &&& all_named(trees(final(found)@), target@)
            },
            Err(e) => {
                &&& round(
                    data@,
                    trees(known@),
                    trees(latest@),
                    target@,
                    (trees(old(fresh)@), trees(old(found)@)),
                    pairs(trees(known@), trees(latest@)),
                ) == Err::<(Seq<PalTree>, Seq<PalTree>), ((Seq<PalTree>, Seq<PalTree>), SearchFailure)>(
                    ((trees(final(fresh)@), trees(final(found)@)), e.failure()),
                )
                &&& all_follow(trees(final(found)@), data@, base)
                &&& all_named(trees(final(found)@), target@)
            },
        },
{
    let ghost d = data@;
    let ghost kt = trees(known@);
    let ghost lt = trees(latest@);
    let ghost st0 = (trees(fresh@), trees(found@));
    let target_name = target.to_owned();
    assert(kt.take(0) =~= Seq::<PalTree>::empty());
    let mut i: usize = 0;
    while i < known.len()
        invariant
            d == data@,
            d.wf(),
            kt == trees(known@),
            lt == trees(latest@),
            target_name@ == target@,
            i <= known.len(),
            all_follow(kt, d, base),
            all_follow(lt, d, base),
            all_follow(trees(fresh@), d, base),
            all_follow(trees(found@), d, base),
            all_named(trees(found@), target@),
            st0 == (trees(old(fresh)@), trees(old(found)@)),
            round(d, kt, lt, target@, st0, pairs(kt.take(i as int), lt)) == Ok::<
                (Seq<PalTree>, Seq<PalTree>),
                ((Seq<PalTree>, Seq<PalTree>), SearchFailure),
            >((trees(fresh@), trees(found@))),
        decreases known.len() - i,
    {
        let ghost row = pairs(kt.take(i as int), lt);
        let mut j: usize = 0;
        while j < latest.len()
            invariant
                d == data@,
                d.wf(),
                kt == trees(known@),
                lt == trees(latest@),
                target_name@ == target@,
                i < known.len(),
                j <= latest.len(),
                row == pairs(kt.take(i as int), lt),
                st0 == (trees(old(fresh)@), trees(old(found)@)),
                all_follow(kt, d, base),
                all_follow(lt, d, base),
                all_follow(trees(fresh@), d, base),
                all_follow(trees(found@), d, base),
                all_named(trees(found@), target@),
                round(
                    d,
                    kt,
                    lt,
                    target@,
                    st0,
                    row + lt.take(j as int).map_values(|q: PalTree| (kt[i as int], q)),
                ) == Ok::<(Seq<PalTree>, Seq<PalTree>), ((Seq<PalTree>, Seq<PalTree>), SearchFailure)>(
                    (trees(fresh@), trees(found@)),
                ),
            decreases latest.len() - j,
        {
            let ghost prefix = row + lt.take(j as int).map_values(|q: PalTree| (kt[i as int], q));
            proof {
                lemma_row_step(kt[i as int], lt, j as int);
                assert(row + lt.take(j + 1).map_values(|q: PalTree| (kt[i as int], q)) =~= prefix.push(
                    (kt[i as int], lt[j as int]),
                ));
                assert(prefix.push((kt[i as int], lt[j as int])).drop_last() =~= prefix);
                assert(kt[i as int] == known@[i as int]@);
                assert(lt[j as int] == latest@[j as int]@);
            }
            let node = match breed(data, &known[i], &latest[j]) {
                Ok(n) => n,
                Err(e) => {
                    proof {
                        lemma_pairs_split(kt, lt, i as int, j as int);
                        lemma_round_failure_stays(
                            d,
                            kt,
                            lt,
                            target@,
                            st0,
                            prefix.push((kt[i as int], lt[j as int])),
                            lt.skip(j + 1).map_values(|q: PalTree| (kt[i as int], q)) + pairs(
                                kt.skip(i + 1),
                                lt,
                            ),
                        );
                        assert(pair_failure(d, kt[i as int], lt[j as int]) == Some(e.failure()));
                        assert(round(d, kt, lt, target@, st0, prefix) is Ok);
                        assert(round(d, kt, lt, target@, st0, prefix.push((kt[i as int], lt[j as int])))
                            == Err::<(Seq<PalTree>, Seq<PalTree>), ((Seq<PalTree>, Seq<PalTree>), SearchFailure)>(
                            ((trees(fresh@), trees(found@)), e.failure()),
                        ));
                    }
                    return Err(e);
                },
            };
            proof {
                lemma_combined_is_pal(d, kt[i as int].name(), lt[j as int].name());
                assert(kt[i as int].follows(d, base));
                assert(lt[j as int].follows(d, base));
            }
            let is_target = node.name == target_name;
            let is_fresh = !has_node_named(known, &node.name) && !has_node_named(latest, &node.name)
                && !has_node_named(fresh, &node.name);
            if is_target {
                let copy = node.clone();
                let ghost before = found@;
                found.push(copy);
                assert(trees(found@) =~= trees(before).push(node@));
            }
            if is_fresh {
                let ghost before = fresh@;
                fresh.push(node);
                assert(trees(fresh@) =~= trees(before).push(node@));
            }
            j = j + 1;
        }
        proof {
            lemma_pairs_step(kt, lt, i as int);
            assert(lt.take(lt.len() as int) =~= lt);
        }
        i = i + 1;
    }
    assert(kt.take(kt.len() as int) =~= kt);
    Ok(())
}

/// Searches for breeding trees that lead from the given parents to `target`.
///
/// The first generation breeds every male with every female. Then, for at most
/// [`MAX_ROUNDS`] rounds, every known node is bred with every node of the latest
/// generation; each child named `target` is recorded, and each child whose name is
/// new becomes part of the next generation. The search ends early when a round
/// yields no new name. Every recorded tree has `target` at its root and follows the
/// database from leaves among the given parents. On a failure it gives what had been
/// bred and found before it, with the failure.
pub fn search_paths(data: &Data, males: Vec<&str>, females: Vec<&str>, target: &str) -> (r: Result<
    PathSearch,
    (PathSearch, SearchError),
>)
    ensures
        match r {
            Ok(found) => {
                &&& search_result(data@, names_of(males@), names_of(females@), target@) == Ok::<
                    (Seq<PalTree>, Seq<PalTree>),
                    (Seq<PalTree>, Seq<PalTree>, SearchFailure),
                >((trees(found.first_generation@), trees(found.targets@)))
                &&& all_named(trees(found.targets@), target@)
                &&& all_follow(
                    trees(found.targets@),
                    data@,
                    (names_of(males@) + names_of(females@)).to_set(),
                )
            },
            Err((found, e)) => {
                &&& search_result(data@, names_of(males@), names_of(females@), target@) == Err::<
                    (Seq<PalTree>, Seq<PalTree>),
                    (Seq<PalTree>, Seq<PalTree>, SearchFailure),
                >((trees(found.first_generation@), trees(found.targets@), e.failure()))
                &&& all_named(trees(found.targets@), target@)
                &&& all_follow(
                    trees(found.targets@),
                    data@,
                    (names_of(males@) + names_of(females@)).to_set(),
                )
            },
        },
{
    data.tables_are_wf();
    let ghost d = data@;
    let ghost base = (names_of(males@) + names_of(females@)).to_set();
    let male_nodes = terminals(&males);
    let female_nodes = terminals(&females);
    let ghost ms = leaves(names_of(males@));
    let ghost fs = leaves(names_of(females@));
    proof {
        assert forall|i: int| 0 <= i < ms.len() implies (#[trigger] ms[i]).follows(d, base) by {
            assert((names_of(males@) + names_of(females@))[i] == names_of(males@)[i]);
        }
        assert forall|i: int| 0 <= i < fs.len() implies (#[trigger] fs[i]).follows(d, base) by {
            assert((names_of(males@) + names_of(females@))[names_of(males@).len() + i]
                == names_of(females@)[i]);
        }
    }
    let first = match breed_all(data, &male_nodes, &female_nodes, Ghost(base)) {
        Ok(g) => g,
        Err((g, e)) => {
            let none: Vec<PalNode> = Vec::new();
            assert(trees(none@) =~= Seq::<PalTree>::empty());
            return Err((PathSearch { first_generation: g, targets: none }, e));
        },
    };
    let ghost g = trees(first@);
    let mut known = copy_nodes(&male_nodes);
    extend_nodes(&mut known, &female_nodes);
    let mut latest = copy_nodes(&first);
    let mut pending = copy_nodes(&first);
    let mut found: Vec<PalNode> = Vec::new();
    proof {
        assert(trees(found@) =~= Seq::<PalTree>::empty());
    }
    let mut it: usize = 0;
    let mut done = false;
    while it < MAX_ROUNDS && !done
        invariant
            d == data@,
            d.wf(),
            it <= MAX_ROUNDS,
            g == trees(first@),
            ms == leaves(names_of(males@)),
            fs == leaves(names_of(females@)),
            base == (names_of(males@) + names_of(females@)).to_set(),
            offspring(d, pairs(ms, fs)) == Ok::<Seq<PalTree>, (Seq<PalTree>, SearchFailure)>(g),
            all_follow(trees(known@), d, base),
            all_follow(trees(latest@), d, base),
            all_follow(trees(pending@), d, base),
            all_follow(trees(found@), d, base),
            all_named(trees(found@), target@),
            !done ==> rounds(d, target@, ms + fs, g, g, Seq::empty(), MAX_ROUNDS as nat) == rounds(
                d,
                target@,
                trees(known@),
                trees(latest@),
                trees(pending@),
                trees(found@),
                (MAX_ROUNDS - it) as nat,
            ),
            done ==> rounds(d, target@, ms + fs, g, g, Seq::empty(), MAX_ROUNDS as nat) == Ok::<
                Seq<PalTree>,
                (Seq<PalTree>, SearchFailure),
            >(trees(found@)),
        decreases MAX_ROUNDS - it,
    {
        let ghost kt = trees(known@);
        let ghost lt = trees(latest@);
        let ghost pt0 = trees(pending@);
        let ghost ft0 = trees(found@);
        let ghost fuel = (MAX_ROUNDS - it) as nat;
        assert(rounds(d, target@, ms + fs, g, g, Seq::empty(), MAX_ROUNDS as nat) == rounds(
            d,
            target@,
            kt,
            lt,
            pt0,
            ft0,
            fuel,
        ));
        match run_round(data, &known, &latest, target, &mut pending, &mut found, Ghost(base)) {
            Ok(()) => {},
            Err(e) => {
                assert(rounds(d, target@, kt, lt, pt0, ft0, fuel) == Err::<
                    Seq<PalTree>,
                    (Seq<PalTree>, SearchFailure),
                >((trees(found@), e.failure())));
                return Err((PathSearch { first_generation: first, targets: found }, e));
            },
        }
        if pending.len() == 0 {
            done = true;
        } else {
            extend_nodes(&mut known, &latest);
            assert(trees(known@) == kt + lt);
            latest = pending;
            pending = Vec::new();
            assert(trees(pending@) =~= Seq::<PalTree>::empty());
        }
        it = it + 1;
    }
    Ok(PathSearch { first_generation: first, targets: found })
}

/// Breeding the fixed parent `parent` again and again with the latest child, at most
/// `n` times, starting from `second`: the steps `(second parent, child)` in order,
/// and how the run ended: `Ok(true)` when a child equals its second parent,
/// `Ok(false)` when the `n` breedings are done, or the failure of the breeding
/// that could not be done.
pub open spec fn dig_run(d: DataView, parent: Seq<char>, second: Seq<char>, n: nat) -> (
    Seq<(Seq<char>, Seq<char>)>,
    Result<bool, SearchFailure>,
)
    decreases n,
{
    if n == 0 {
        (Seq::empty(), Ok(false))
    } else if !d.can_combine(parent, second) {
        (Seq::empty(), Err(SearchFailure::MissingEntry(parent, second)))
    } else {
        match d.combined(parent, second) {
            Err(x) => (Seq::empty(), Err(SearchFailure::PalNotFound(x))),
            Ok((c, _)) => if c == second {
                (Seq::empty(), Ok(true))
            } else {
                let (rest, end) = dig_run(d, parent, c, (n - 1) as nat);
                (seq![(second, c)] + rest, end)
            },
        }
    }
}

/// How a run of repeated breeding ended.
pub open spec fn dig_end(r: Result<bool, SearchError>) -> Result<bool, SearchFailure> {
    match r {
        Ok(b) => Ok(b),
        Err(e) => Err(e.failure()),
    }
}

impl Data {
    /// Breeds `parent` with `second`, then `parent` with the child, and so on, at
    /// most `n_iter` times, stopping when a child equals the second parent it came
    /// from. Gives the steps `(second parent, child)` in order and how the run ended
    /// (see [`dig_run`]).
    pub fn dig(&self, parent: &str, second: &str, n_iter: usize) -> (r: (
        Vec<(String, String)>,
        Result<bool, SearchError>,
    ))
        ensures
            (r.0@.map_values(|e: (String, String)| (e.0@, e.1@)), dig_end(r.1)) == dig_run(
                self@,
                parent@,
                second@,
                n_iter as nat,
            ),
    {
        let ghost d = self@;
        let mut steps: Vec<(String, String)> = Vec::new();
        let mut cur = second.to_owned();
        let mut i: usize = 0;
        assert(steps@.map_values(|e: (String, String)| (e.0@, e.1@)) =~= Seq::<
            (Seq<char>, Seq<char>),
        >::empty());
        while i < n_iter
            invariant
                d == self@,
                i <= n_iter,
                ({
                    let (rest, end) = dig_run(d, parent@, cur@, (n_iter - i) as nat);
                    dig_run(d, parent@, second@, n_iter as nat) == (steps@.map_values(
                        |e: (String, String)| (e.0@, e.1@),
                    ) + rest, end)
                }),
            decreases n_iter - i,
        {
            let ghost before = steps@.map_values(|e: (String, String)| (e.0@, e.1@));
            if !self.combinable(parent, cur.as_str()) {
                assert(before + Seq::<(Seq<char>, Seq<char>)>::empty() =~= before);
                return (steps, Err(SearchError::MissingEntry(parent.to_owned(), cur)));
            }
            let child = match self.combine(parent, cur.as_str()) {
                Ok((c, _)) => c,
                Err(CombineError::PalNotFound(x)) => {
                    assert(before + Seq::<(Seq<char>, Seq<char>)>::empty() =~= before);
                    return (steps, Err(SearchError::PalNotFound(x)));
                },
            };
            if child == cur {
                assert(before + Seq::<(Seq<char>, Seq<char>)>::empty() =~= before);
                return (steps, Ok(true));
            }
            let ghost rest = dig_run(d, parent@, child@, (n_iter - i - 1) as nat).0;
            let ghost cv = cur@;
            steps.push((cur, child.clone()));
            assert(steps@.map_values(|e: (String, String)| (e.0@, e.1@)) =~= before.push((cv, child@)));
            assert(steps@.map_values(|e: (String, String)| (e.0@, e.1@)) + rest =~= before + (seq![
                (cv, child@),
            ] + rest));
            cur = child;
            i = i + 1;
        }
        assert(steps@.map_values(|e: (String, String)| (e.0@, e.1@)) + Seq::<
            (Seq<char>, Seq<char>),
        >::empty() =~= steps@.map_values(|e: (String, String)| (e.0@, e.1@)));
        (steps, Ok(false))
    }
}

} // verus!
