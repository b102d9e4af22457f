//! Properties of the breeding operations, stated directly over their inputs and results.
use vstd::prelude::*;

use crate::calc::{
    absorb, bred, dig_run, dot_node_text, dot_text, leaves, offspring, pair_failure, pairs, round, rounds,
    search_result, PalTree, SearchFailure, MAX_ROUNDS,
};
use crate::data::{
    ids_from, specials_from, tiebreak_from, values_from, DataView, Record, Special, TieBreakOrder,
};
use crate::table::{
    child_for, lemma_name_inserted, lemma_pair_inserted, lemma_pair_inserted_child, name_inserted, names_distinct,
    pairs_distinct, value_for,
};

verus! {

/// `node` is the pal bred from the leaves `m` and `f`: it is named after their child,
/// and breeding them reads only entries that are there.
pub open spec fn bred_from_leaves(d: DataView, m: Seq<char>, f: Seq<char>, node: PalTree) -> bool {
    &&& d.can_combine(m, f)
    &&& d.combined(m, f) is Ok
    &&& node == PalTree::Bred(
        d.child_name(m, f),
        Box::new(PalTree::Leaf(m)),
        Box::new(PalTree::Leaf(f)),
    )
}

/// `e` is how breeding `m` with `f` fails.
pub open spec fn fails_with(d: DataView, m: Seq<char>, f: Seq<char>, e: SearchFailure) -> bool {
    if !d.can_combine(m, f) {
        e == SearchFailure::MissingEntry(m, f)
    } else {
        match d.combined(m, f) {
            Err(x) => e == SearchFailure::PalNotFound(x),
            Ok(_) => false,
        }
    }
}

/// The pairs of `ps` and `qs`: `ps.len() * qs.len()` of them, the pair of `ps[i]` and
/// `qs[j]` at `i * qs.len() + j`.
proof fn lemma_pairs_index(ps: Seq<PalTree>, qs: Seq<PalTree>)
    ensures
        pairs(ps, qs).len() == ps.len() * qs.len(),
        forall|i: int, j: int|
            0 <= i < ps.len() && 0 <= j < qs.len() ==> pairs(ps, qs)[i * qs.len() + j] == (
                #[trigger] ps[i],
                #[trigger] qs[j],
            ),
    decreases ps.len(),
{
    if ps.len() > 0 {
        let a = ps.drop_last();
        lemma_pairs_index(a, qs);
        let m = qs.len();
        let n = ps.len();
        let row = qs.map_values(|q: PalTree| (ps.last(), q));
        assert(pairs(ps, qs) == pairs(a, qs) + row);
        assert(n * m == (n - 1) * m + m) by (nonlinear_arith);
        assert forall|i: int, j: int| 0 <= i < n && 0 <= j < m implies pairs(ps, qs)[i * m + j] == (
            #[trigger] ps[i],
            #[trigger] qs[j],
        ) by {
            if i < n - 1 {
                assert(i * m + j < (n - 1) * m) by (nonlinear_arith)
                    requires
                        0 <= i < n - 1,
                        0 <= j < m,
                ;
                assert(0 <= i * m) by (nonlinear_arith)
                    requires
                        0 <= i,
                        0 <= m,
                ;
                assert(a[i] == ps[i]);
            } else {
                assert(i * m + j == (n - 1) * m + j);
                assert(row[j] == (ps[i], qs[j]));
            }
        }
    }
}

/// A breeding run gives the children of its pairs in order, or fails at the first
/// pair that cannot be bred, with the children of the pairs before it.
proof fn lemma_offspring_index(d: DataView, ps: Seq<(PalTree, PalTree)>)
    ensures
        match offspring(d, ps) {
            Ok(g) => {
                &&& g.len() == ps.len()
                &&& forall|k: int|
                    0 <= k < ps.len() ==> pair_failure(d, ps[k].0, ps[k].1) is None && #[trigger] g[k]
                        == PalTree::Bred(
                        d.child_name(ps[k].0.name(), ps[k].1.name()),
                        Box::new(ps[k].0),
                        Box::new(ps[k].1),
                    )
            },
            Err((g, e)) => {
                &&& g.len() < ps.len()
                &&& pair_failure(d, ps[g.len() as int].0, ps[g.len() as int].1) == Some(e)
                &&& forall|k: int|
                    0 <= k < g.len() ==> pair_failure(d, ps[k].0, ps[k].1) is None && #[trigger] g[k]
                        == PalTree::Bred(
                        d.child_name(ps[k].0.name(), ps[k].1.name()),
                        Box::new(ps[k].0),
                        Box::new(ps[k].1),
                    )
            },
        },
    decreases ps.len(),
{
    if ps.len() > 0 {
        let a = ps.drop_last();
        lemma_offspring_index(d, a);
        assert forall|k: int| 0 <= k < a.len() implies a[k] == ps[k] by {}
    }
}

/// The first generation of a search breeds every male with every female, males
/// varying slowest: the child of `males[i]` and `females[j]` stands at
/// `i * females.len() + j`, bred from the two as leaves. When a breeding of that
/// generation fails, the nodes of the pairs before it are there, no target has been
/// found, and the failure is that of the pair that comes next.
#[verifier::spinoff_prover]
pub proof fn law_first_generation(
    d: DataView,
    males: Seq<Seq<char>>,
    females: Seq<Seq<char>>,
    target: Seq<char>,
)
    ensures
        match search_result(d, males, females, target) {
            Ok((g, _)) => {
                &&& g.len() == males.len() * females.len()
                &&& forall|i: int, j: int|
                    0 <= i < males.len() && 0 <= j < females.len() ==> bred_from_leaves(
                        d,
                        #[trigger] males[i],
                        #[trigger] females[j],
                        g[i * females.len() + j],
                    )
            },
            Err((g, t, e)) => {
                &&& g.len() <= males.len() * females.len()
                &&& forall|i: int, j: int|
                    0 <= i < males.len() && 0 <= j < females.len() && i * females.len() + j < g.len()
                        ==> bred_from_leaves(
                        d,
                        #[trigger] males[i],
                        #[trigger] females[j],
                        g[i * females.len() + j],
                    )
                &&& g.len() < males.len() * females.len() ==> {
                    &&& t.len() == 0
                    &&& exists|i: int, j: int|
                        0 <= i < males.len() && 0 <= j < females.len() && i * females.len() + j
                            == g.len() && fails_with(d, #[trigger] males[i], #[trigger] females[j], e)
                }
            },
        },
{
    let ms = leaves(males);
    let fs = leaves(females);
    let ps = pairs(ms, fs);
    lemma_pairs_index(ms, fs);
    lemma_offspring_index(d, ps);
    let m = females.len();
    assert forall|i: int, j: int| 0 <= i < males.len() && 0 <= j < m implies ps[i * m + j] == (
        PalTree::Leaf(#[trigger] males[i]),
        PalTree::Leaf(#[trigger] females[j]),
    ) by {
        assert(ms[i] == PalTree::Leaf(males[i]));
        assert(fs[j] == PalTree::Leaf(females[j]));
        assert(ps[i * m + j] == (ms[i], fs[j]));
    }
    assert forall|i: int, j: int| 0 <= i < males.len() && 0 <= j < m implies ps[i * m + j] == (
        PalTree::Leaf(males[i]),
        PalTree::Leaf(females[j]),
    ) by {
        assert(ms[i] == PalTree::Leaf(males[i]));
        assert(fs[j] == PalTree::Leaf(females[j]));
    }
    match offspring(d, ps) {
        Err((g, e)) => {
            let k = g.len() as int;
            assert(m > 0) by {
                if m == 0 {
                    assert(males.len() * m == 0) by (nonlinear_arith)
                        requires
                            m == 0,
                    ;
                }
            }
            vstd::arithmetic::div_mod::lemma_fundamental_div_mod(k, m as int);
            vstd::arithmetic::div_mod::lemma_mod_pos_bound(k, m as int);
            let i = k / (m as int);
            let j = k % (m as int);
            assert(0 <= i) by {
                vstd::arithmetic::div_mod::lemma_div_pos_is_pos(k, m as int);
            }
            assert(i < males.len()) by (nonlinear_arith)
                requires
                    k == m * i + j,
                    0 <= j,
                    k < males.len() * m,
                    0 <= i,
            ;
            assert(i * m + j == k) by (nonlinear_arith)
                requires
                    k == m * i + j,
            ;
            assert(ps[k] == (PalTree::Leaf(males[i]), PalTree::Leaf(females[j])));
            assert(fails_with(d, males[i], females[j], e));
            lemma_cross_entries(d, males, females, ps, g);
            assert(search_result(d, males, females, target) == Err::<
                (Seq<PalTree>, Seq<PalTree>),
                (Seq<PalTree>, Seq<PalTree>, SearchFailure),
            >((g, Seq::empty(), e)));
            assert(i * females.len() + j == g.len());
        },
        Ok(g) => {
            lemma_cross_entries(d, males, females, ps, g);
            assert(g.len() == males.len() * females.len());
            assert forall|i: int, j: int|
                0 <= i < males.len() && 0 <= j < females.len() implies #[trigger] males[i] == males[i]
                && #[trigger] females[j] == females[j] && i * females.len() + j < g.len() by {
                assert(i * m + j < males.len() * m) by (nonlinear_arith)
                    requires
                        0 <= i < males.len(),
                        0 <= j < m,
                ;
            }
        },
    }
}

/// The entries of a breeding run over the pairs of males and females, for the pairs
/// it got to.
proof fn lemma_cross_entries(
    d: DataView,
    males: Seq<Seq<char>>,
    females: Seq<Seq<char>>,
    ps: Seq<(PalTree, PalTree)>,
    g: Seq<PalTree>,
)
    requires
        ps.len() == males.len() * females.len(),
        forall|i: int, j: int|
            0 <= i < males.len() && 0 <= j < females.len() ==> ps[i * females.len() + j] == (
                PalTree::Leaf(#[trigger] males[i]),
                PalTree::Leaf(#[trigger] females[j]),
            ),
        g.len() <= ps.len(),
        forall|k: int|
            0 <= k < g.len() ==> pair_failure(d, ps[k].0, ps[k].1) is None && #[trigger] g[k]
                == PalTree::Bred(
                d.child_name(ps[k].0.name(), ps[k].1.name()),
                Box::new(ps[k].0),
                Box::new(ps[k].1),
            ),
    ensures
        forall|i: int, j: int|
            0 <= i < males.len() && 0 <= j < females.len() && i * females.len() + j < g.len()
                ==> bred_from_leaves(d, #[trigger] males[i], #[trigger] females[j], g[i * females.len() + j]),
{
    let m = females.len();
    assert forall|i: int, j: int|
        0 <= i < males.len() && 0 <= j < m && i * m + j < g.len() implies bred_from_leaves(
        d,
        #[trigger] males[i],
        #[trigger] females[j],
        g[i * m + j],
    ) by {
        let k = i * m + j;
        assert(0 <= i * m) by (nonlinear_arith)
            requires
                0 <= i,
                0 <= m,
        ;
        assert(ps[k] == (PalTree::Leaf(males[i]), PalTree::Leaf(females[j])));
        assert(pair_failure(d, ps[k].0, ps[k].1) is None);
        assert(g[k] == PalTree::Bred(
            d.child_name(ps[k].0.name(), ps[k].1.name()),
            Box::new(ps[k].0),
            Box::new(ps[k].1),
        ));
    }
}

/// A round keeps the targets it was given, in front, and adds, for each of its pairs
/// in order, the bred node when the child is the target, and nothing else.
#[verifier::spinoff_prover]
proof fn lemma_round_found(
    d: DataView,
    known: Seq<PalTree>,
    latest: Seq<PalTree>,
    target: Seq<char>,
    st: (Seq<PalTree>, Seq<PalTree>),
    ps: Seq<(PalTree, PalTree)>,
)
    ensures
        match round(d, known, latest, target, st, ps) {
            Ok((_, found)) => {
                &&& st.1.len() <= found.len()
                &&& found.subrange(0, st.1.len() as int) == st.1
                &&& forall|k: int|
                    0 <= k < ps.len() ==> pair_failure(d, ps[k].0, ps[k].1) is None && (d.child_name(
                        (#[trigger] ps[k]).0.name(),
                        ps[k].1.name(),
                    ) == target ==> found.contains(
                        PalTree::Bred(target, Box::new(ps[k].0), Box::new(ps[k].1)),
                    ))
                &&& forall|m: int|
                    st.1.len() <= m < found.len() ==> exists|k: int|
                        0 <= k < ps.len() && d.child_name((#[trigger] ps[k]).0.name(), ps[k].1.name())
                            == target && #[trigger] found[m] == PalTree::Bred(
                            target,
                            Box::new(ps[k].0),
                            Box::new(ps[k].1),
                        )
            },
            Err(_) => true,
        },
    decreases ps.len(),
{
    if ps.len() > 0 {
        let a = ps.drop_last();
        lemma_round_found(d, known, latest, target, st, a);
        match round(d, known, latest, target, st, a) {
            Ok(st2) => {
                let (p, q) = ps.last();
                if pair_failure(d, p, q) is None {
                    let node = bred(d, p, q);
                    let st3 = absorb(known, latest, target, st2, node);
                    assert(round(d, known, latest, target, st, ps) == Ok::<
                        (Seq<PalTree>, Seq<PalTree>),
                        ((Seq<PalTree>, Seq<PalTree>), SearchFailure),
                    >(st3));
                    let found = st3.1;
                    assert(found.subrange(0, st.1.len() as int) =~= st.1) by {
                        assert(st2.1.subrange(0, st.1.len() as int) == st.1);
                        if node.name() == target {
                            assert(found.subrange(0, st.1.len() as int) =~= st2.1.subrange(
                                0,
                                st.1.len() as int,
                            ));
                        }
                    }
                    assert forall|x: PalTree| st2.1.contains(x) implies found.contains(x) by {
                        let m = choose|m: int| 0 <= m < st2.1.len() && st2.1[m] == x;
                        assert(found[m] == x);
                    }
                    assert forall|k: int| 0 <= k < ps.len() implies pair_failure(d, ps[k].0, ps[k].1)
                        is None && (d.child_name((#[trigger] ps[k]).0.name(), ps[k].1.name()) == target
                        ==> found.contains(PalTree::Bred(target, Box::new(ps[k].0), Box::new(ps[k].1)))) by {
                        if k < a.len() {
                            assert(a[k] == ps[k]);
                        } else {
                            assert(ps[k] == (p, q));
                            if d.child_name(p.name(), q.name()) == target {
                                assert(found[found.len() - 1] == node);
                            }
                        }
                    }
                    assert forall|m: int| st.1.len() <= m < found.len() implies exists|k: int|
                        0 <= k < ps.len() && d.child_name((#[trigger] ps[k]).0.name(), ps[k].1.name())
                            == target && #[trigger] found[m] == PalTree::Bred(
                            target,
                            Box::new(ps[k].0),
                            Box::new(ps[k].1),
                        ) by {
                        if m < st2.1.len() {
                            assert(found[m] == st2.1[m]);
                            let k = choose|k: int|
                                0 <= k < a.len() && d.child_name((#[trigger] a[k]).0.name(), a[k].1.name())
                                    == target && #[trigger] st2.1[m] == PalTree::Bred(
                                    target,
                                    Box::new(a[k].0),
                                    Box::new(a[k].1),
                                );
                            assert(a[k] == ps[k]);
                        } else {
                            let k = ps.len() - 1;
                            assert(ps[k] == (p, q));
                            assert(found[m] == node);
                        }
                    }
                }
            },
            Err(_) => {},
        }
    }
}

/// The targets a run of rounds gives begin with those it was given.
#[verifier::spinoff_prover]
proof fn lemma_rounds_keep(
    d: DataView,
    target: Seq<char>,
    known: Seq<PalTree>,
    latest: Seq<PalTree>,
    pending: Seq<PalTree>,
    targets: Seq<PalTree>,
    fuel: nat,
)
    ensures
        match rounds(d, target, known, latest, pending, targets, fuel) {
            Ok(t) => forall|x: PalTree| targets.contains(x) ==> t.contains(x),
            Err(_) => true,
        },
    decreases fuel,
{
    if fuel > 0 {
        let ps = pairs(known, latest);
        lemma_round_found(d, known, latest, target, (pending, targets), ps);
        match round(d, known, latest, target, (pending, targets), ps) {
            Ok((fresh, found)) => {
                assert forall|x: PalTree| targets.contains(x) implies found.contains(x) by {
                    let m = choose|m: int| 0 <= m < targets.len() && targets[m] == x;
                    assert(found.subrange(0, targets.len() as int)[m] == x);
                }
                if fresh.len() > 0 {
                    lemma_rounds_keep(
                        d,
                        target,
                        known + latest,
                        fresh,
                        Seq::empty(),
                        found,
                        (fuel - 1) as nat,
                    );
                }
            },
            Err(_) => {},
        }
    }
}

/// The first round of a search breeds every parent, male or female, with every node
/// of the first generation, and a search that succeeds has, among its targets, every
/// such node whose child is the target: bred from the parent (as a leaf) and that
/// first-generation node.
#[verifier::spinoff_prover]
pub proof fn law_first_round_targets(
    d: DataView,
    males: Seq<Seq<char>>,
    females: Seq<Seq<char>>,
    target: Seq<char>,
)
    ensures
        match search_result(d, males, females, target) {
            Ok((g, t)) => forall|i: int, j: int|
                0 <= i < (males + females).len() && 0 <= j < g.len() && d.child_name(
                    (males + females)[i],
                    g[j].name(),
                ) == target ==> t.contains(
                    PalTree::Bred(
                        target,
                        Box::new(PalTree::Leaf(#[trigger] (males + females)[i])),
                        Box::new(#[trigger] g[j]),
                    ),
                ),
            Err(_) => true,
        },
{
    let ms = leaves(males);
    let fs = leaves(females);
    match offspring(d, pairs(ms, fs)) {
        Ok(g) => {
            let known = ms + fs;
            let ps = pairs(known, g);
            lemma_pairs_index(known, g);
            lemma_round_found(d, known, g, target, (g, Seq::empty()), ps);
            match round(d, known, g, target, (g, Seq::empty()), ps) {
                Ok((fresh, found)) => {
                    if fresh.len() > 0 {
                        lemma_rounds_keep(
                            d,
                            target,
                            known + g,
                            fresh,
                            Seq::empty(),
                            found,
                            (MAX_ROUNDS - 1) as nat,
                        );
                    }
                    assert(rounds(d, target, known, g, g, Seq::empty(), MAX_ROUNDS as nat) == if fresh.len()
                        == 0 {
                        Ok::<Seq<PalTree>, (Seq<PalTree>, SearchFailure)>(found)
                    } else {
                        rounds(d, target, known + g, fresh, Seq::empty(), found, (MAX_ROUNDS - 1) as nat)
                    });
                    assert forall|i: int, j: int|
                        0 <= i < (males + females).len() && 0 <= j < g.len() && d.child_name(
                            (males + females)[i],
                            g[j].name(),
                        ) == target implies found.contains(
                        PalTree::Bred(
                            target,
                            Box::new(PalTree::Leaf(#[trigger] (males + females)[i])),
                            Box::new(#[trigger] g[j]),
                        ),
                    ) by {
                        assert(known[i] == PalTree::Leaf((males + females)[i])) by {
                            if i < males.len() {
                                assert(ms[i] == PalTree::Leaf(males[i]));
                            } else {
                                assert(fs[i - males.len()] == PalTree::Leaf(females[i - males.len()]));
                            }
                        }
                        assert(0 <= i * g.len()) by (nonlinear_arith)
                            requires
                                0 <= i,
                                0 <= g.len(),
                        ;
                        assert(i * g.len() + j < known.len() * g.len()) by (nonlinear_arith)
                            requires
                                0 <= i < known.len(),
                                0 <= j < g.len(),
                        ;
                        assert(ps[i * g.len() + j] == (known[i], g[j]));
                    }
                },
                Err(_) => {},
            }
        },
        Err(_) => {},
    }
}

/// The second parent of the next breeding in a run from `second`: the last child
/// recorded, or `second` itself before any step.
pub open spec fn latest_second(second: Seq<char>, steps: Seq<(Seq<char>, Seq<char>)>) -> Seq<char> {
    if steps.len() == 0 {
        second
    } else {
        steps.last().1
    }
}

/// Repeated breeding with the fixed parent `parent`, at most `n` times from `second`:
/// each recorded step breeds `parent` with the child of the step before (with `second`
/// first) and records a child that differs from that second parent. The run ends with
/// `Ok(true)` exactly when, before `n` steps, the child of `parent` and the latest
/// second parent is that second parent itself; with `Ok(false)` exactly when `n`
/// steps were recorded; and otherwise with the failure of the next breeding.
#[verifier::spinoff_prover]
pub proof fn law_dig(d: DataView, parent: Seq<char>, second: Seq<char>, n: nat)
    ensures
        ({
            let (steps, end) = dig_run(d, parent, second, n);
            let last = latest_second(second, steps);
            &&& steps.len() <= n
            &&& forall|k: int|
                0 <= k < steps.len() ==> {
                    &&& (#[trigger] steps[k]).0 == (if k == 0 {
                        second
                    } else {
                        steps[k - 1].1
                    })
                    &&& d.can_combine(parent, steps[k].0)
                    &&& d.combined(parent, steps[k].0) is Ok
                    &&& d.child_name(parent, steps[k].0) == steps[k].1
                    &&& steps[k].1 != steps[k].0
                }
            &&& (end == Ok::<bool, SearchFailure>(false) <==> steps.len() == n)
            &&& (end == Ok::<bool, SearchFailure>(true) <==> steps.len() < n && d.can_combine(parent, last)
                && d.combined(parent, last) is Ok && d.child_name(parent, last) == last)
            &&& match end {
                Err(e) => steps.len() < n && fails_with(d, parent, last, e),
                Ok(_) => true,
            }
        }),
    decreases n,
{
    if n > 0 && d.can_combine(parent, second) {
        match d.combined(parent, second) {
            Ok((c, _)) => {
                if c != second {
                    law_dig(d, parent, c, (n - 1) as nat);
                    let (rest, end) = dig_run(d, parent, c, (n - 1) as nat);
                    let steps = seq![(second, c)] + rest;
                    assert(dig_run(d, parent, second, n) == (steps, end));
                    assert(latest_second(second, steps) == latest_second(c, rest)) by {
                        if rest.len() > 0 {
                            assert(steps.last() == rest.last());
                        }
                    }
                    assert forall|k: int| 0 <= k < steps.len() implies (#[trigger] steps[k]).0 == (if k
                        == 0 {
                        second
                    } else {
                        steps[k - 1].1
                    }) by {
                        if k > 0 {
                            assert(steps[k] == rest[k - 1]);
                            if k > 1 {
                                assert(steps[k - 1] == rest[k - 2]);
                            }
                        }
                    }
                    assert forall|k: int| 0 <= k < steps.len() implies d.child_name(
                        parent,
                        (#[trigger] steps[k]).0,
                    ) == steps[k].1 && d.can_combine(parent, steps[k].0) && d.combined(parent, steps[k].0)
                        is Ok && steps[k].1 != steps[k].0 by {
                        if k > 0 {
                            assert(steps[k] == rest[k - 1]);
                        }
                    }
                }
            },
            Err(_) => {},
        }
    }
}

/// The values_from table: no name twice, and under each name the value of the last row of
/// that name, or nothing where no row has it.
#[verifier::spinoff_prover]
proof fn lemma_values_from_rows(rs: Seq<Record>, k: Seq<char>)
    ensures
        names_distinct(values_from(rs)),
        value_for(values_from(rs), k) is None <==> forall|i: int|
            0 <= i < rs.len() ==> (#[trigger] rs[i]).name@ != k,
        forall|i: int|
            0 <= i < rs.len() && (#[trigger] rs[i]).name@ == k && (forall|j: int|
                i < j < rs.len() ==> rs[j].name@ != k) ==> value_for(values_from(rs), k) == Some(rs[i].value),
    decreases rs.len(),
{
    if rs.len() > 0 {
        let p = rs.drop_last();
        let r = rs.last();
        lemma_values_from_rows(p, k);
        lemma_name_inserted(values_from(p), r.name@, r.value, k);
        assert(values_from(rs) == name_inserted(values_from(p), r.name@, r.value));
        assert forall|i: int| 0 <= i < p.len() implies p[i] == rs[i] by {}
        if r.name@ != k {
            if forall|i: int| 0 <= i < p.len() ==> (#[trigger] p[i]).name@ != k {
                assert forall|i: int| 0 <= i < rs.len() implies (#[trigger] rs[i]).name@ != k by {
                    if i < p.len() {
                        assert(p[i] == rs[i]);
                    }
                }
            } else {
                let i = choose|i: int| 0 <= i < p.len() && (#[trigger] p[i]).name@ == k;
                assert(rs[i] == p[i]);
            }
        } else {
            assert(rs[rs.len() - 1].name@ == k);
        }
        assert forall|i: int|
            0 <= i < rs.len() && (#[trigger] rs[i]).name@ == k && (forall|j: int|
                i < j < rs.len() ==> rs[j].name@ != k) implies value_for(values_from(rs), k) == Some(rs[i].value) by {
            if i < rs.len() - 1 {
                assert(rs[rs.len() - 1].name@ != k);
                assert(p[i] == rs[i]);
                assert forall|j: int| i < j < p.len() implies p[j].name@ != k by {
                    assert(p[j] == rs[j]);
                }
            }
        }
    }
}

/// The ids_from table: no name twice, and under each name the id of the last row of
/// that name, or nothing where no row has it.
#[verifier::spinoff_prover]
proof fn lemma_ids_from_rows(rs: Seq<Record>, k: Seq<char>)
    ensures
        names_distinct(ids_from(rs)),
        value_for(ids_from(rs), k) is None <==> forall|i: int|
            0 <= i < rs.len() ==> (#[trigger] rs[i]).name@ != k,
        forall|i: int|
            0 <= i < rs.len() && (#[trigger] rs[i]).name@ == k && (forall|j: int|
                i < j < rs.len() ==> rs[j].name@ != k) ==> value_for(ids_from(rs), k) == Some(rs[i].id),
    decreases rs.len(),
{
    if rs.len() > 0 {
        let p = rs.drop_last();
        let r = rs.last();
        lemma_ids_from_rows(p, k);
        lemma_name_inserted(ids_from(p), r.name@, r.id, k);
        assert(ids_from(rs) == name_inserted(ids_from(p), r.name@, r.id));
        assert forall|i: int| 0 <= i < p.len() implies p[i] == rs[i] by {}
        if r.name@ != k {
            if forall|i: int| 0 <= i < p.len() ==> (#[trigger] p[i]).name@ != k {
                assert forall|i: int| 0 <= i < rs.len() implies (#[trigger] rs[i]).name@ != k by {
                    if i < p.len() {
                        assert(p[i] == rs[i]);
                    }
                }
            } else {
                let i = choose|i: int| 0 <= i < p.len() && (#[trigger] p[i]).name@ == k;
                assert(rs[i] == p[i]);
            }
        } else {
            assert(rs[rs.len() - 1].name@ == k);
        }
        assert forall|i: int|
            0 <= i < rs.len() && (#[trigger] rs[i]).name@ == k && (forall|j: int|
                i < j < rs.len() ==> rs[j].name@ != k) implies value_for(ids_from(rs), k) == Some(rs[i].id) by {
            if i < rs.len() - 1 {
                assert(rs[rs.len() - 1].name@ != k);
                assert(p[i] == rs[i]);
                assert forall|j: int| i < j < p.len() implies p[j].name@ != k by {
                    assert(p[j] == rs[j]);
                }
            }
        }
    }
}

/// The tiebreak_from table: no name twice, and under each name the order of the last row of
/// that name, or nothing where no row has it.
#[verifier::spinoff_prover]
proof fn lemma_tiebreak_from_rows(rs: Seq<TieBreakOrder>, k: Seq<char>)
    ensures
        names_distinct(tiebreak_from(rs)),
        value_for(tiebreak_from(rs), k) is None <==> forall|i: int|
            0 <= i < rs.len() ==> (#[trigger] rs[i]).name@ != k,
        forall|i: int|
            0 <= i < rs.len() && (#[trigger] rs[i]).name@ == k && (forall|j: int|
                i < j < rs.len() ==> rs[j].name@ != k) ==> value_for(tiebreak_from(rs), k) == Some(rs[i].order),
    decreases rs.len(),
{
    if rs.len() > 0 {
        let p = rs.drop_last();
        let r = rs.last();
        lemma_tiebreak_from_rows(p, k);
        lemma_name_inserted(tiebreak_from(p), r.name@, r.order, k);
        assert(tiebreak_from(rs) == name_inserted(tiebreak_from(p), r.name@, r.order));
        assert forall|i: int| 0 <= i < p.len() implies p[i] == rs[i] by {}
        if r.name@ != k {
            if forall|i: int| 0 <= i < p.len() ==> (#[trigger] p[i]).name@ != k {
                assert forall|i: int| 0 <= i < rs.len() implies (#[trigger] rs[i]).name@ != k by {
                    if i < p.len() {
                        assert(p[i] == rs[i]);
                    }
                }
            } else {
                let i = choose|i: int| 0 <= i < p.len() && (#[trigger] p[i]).name@ == k;
                assert(rs[i] == p[i]);
            }
        } else {
            assert(rs[rs.len() - 1].name@ == k);
        }
        assert forall|i: int|
            0 <= i < rs.len() && (#[trigger] rs[i]).name@ == k && (forall|j: int|
                i < j < rs.len() ==> rs[j].name@ != k) implies value_for(tiebreak_from(rs), k) == Some(rs[i].order) by {
            if i < rs.len() - 1 {
                assert(rs[rs.len() - 1].name@ != k);
                assert(p[i] == rs[i]);
                assert forall|j: int| i < j < p.len() implies p[j].name@ != k by {
                    assert(p[j] == rs[j]);
                }
            }
        }
    }
}

/// The special-combination table: no ordered pair twice, and for each ordered pair
/// the child of the last row of that pair, or nothing where no row has it.
#[verifier::spinoff_prover]
proof fn lemma_specials_rows(rs: Seq<Special>, a: Seq<char>, b: Seq<char>)
    ensures
        pairs_distinct(specials_from(rs)),
        child_for(specials_from(rs), a, b) is None <==> forall|i: int|
            0 <= i < rs.len() ==> !((#[trigger] rs[i]).parent1@ == a && rs[i].parent2@ == b),
        forall|i: int|
            0 <= i < rs.len() && (#[trigger] rs[i]).parent1@ == a && rs[i].parent2@ == b && (forall|j: int|
                i < j < rs.len() ==> !(rs[j].parent1@ == a && rs[j].parent2@ == b)) ==> child_for(
                specials_from(rs),
                a,
                b,
            ) == Some(rs[i].child@),
    decreases rs.len(),
{
    if rs.len() > 0 {
        let p = rs.drop_last();
        let r = rs.last();
        lemma_specials_rows(p, a, b);
        lemma_pair_inserted(specials_from(p), r.parent1@, r.parent2@, r.child@);
        lemma_pair_inserted_child(specials_from(p), r.parent1@, r.parent2@, r.child@, a, b);
        assert forall|i: int| 0 <= i < p.len() implies p[i] == rs[i] by {}
        if !(r.parent1@ == a && r.parent2@ == b) {
            if forall|i: int| 0 <= i < p.len() ==> !((#[trigger] p[i]).parent1@ == a && p[i].parent2@ == b) {
                assert forall|i: int| 0 <= i < rs.len() implies !((#[trigger] rs[i]).parent1@ == a
                    && rs[i].parent2@ == b) by {
                    if i < p.len() {
                        assert(p[i] == rs[i]);
                    }
                }
            }
        } else {
            assert(rs[rs.len() - 1].parent1@ == a && rs[rs.len() - 1].parent2@ == b);
        }
        assert forall|i: int|
            0 <= i < rs.len() && (#[trigger] rs[i]).parent1@ == a && rs[i].parent2@ == b && (forall|j: int|
                i < j < rs.len() ==> !(rs[j].parent1@ == a && rs[j].parent2@ == b)) implies child_for(
            specials_from(rs),
            a,
            b,
        ) == Some(rs[i].child@) by {
            if i < rs.len() - 1 {
                assert(!(rs[rs.len() - 1].parent1@ == a && rs[rs.len() - 1].parent2@ == b));
                assert(p[i] == rs[i]);
                assert forall|j: int| i < j < p.len() implies !(p[j].parent1@ == a && p[j].parent2@ == b) by {
                    assert(p[j] == rs[j]);
                }
            }
        }
    }
}

/// A database built from rows holds, under each pal name, the value and the id of the
/// last pal row of that name and the rank of the last tie-break row of that name, and
/// for each ordered parent pair the child of the last special row of that pair; a
/// name or pair that no row has is absent.
pub proof fn law_from_rows(
    records: Seq<Record>,
    specials: Seq<Special>,
    tiebreaks: Seq<TieBreakOrder>,
    k: Seq<char>,
    a: Seq<char>,
    b: Seq<char>,
)
    ensures
        value_for(values_from(records), k) is None <==> forall|i: int|
            0 <= i < records.len() ==> (#[trigger] records[i]).name@ != k,
        value_for(ids_from(records), k) is None <==> forall|i: int|
            0 <= i < records.len() ==> (#[trigger] records[i]).name@ != k,
        forall|i: int|
            0 <= i < records.len() && (#[trigger] records[i]).name@ == k && (forall|j: int|
                i < j < records.len() ==> records[j].name@ != k) ==> value_for(values_from(records), k)
                == Some(records[i].value) && value_for(ids_from(records), k) == Some(records[i].id),
        value_for(tiebreak_from(tiebreaks), k) is None <==> forall|i: int|
            0 <= i < tiebreaks.len() ==> (#[trigger] tiebreaks[i]).name@ != k,
        forall|i: int|
            0 <= i < tiebreaks.len() && (#[trigger] tiebreaks[i]).name@ == k && (forall|j: int|
                i < j < tiebreaks.len() ==> tiebreaks[j].name@ != k) ==> value_for(tiebreak_from(tiebreaks), k)
                == Some(tiebreaks[i].order),
        child_for(specials_from(specials), a, b) is None <==> forall|i: int|
            0 <= i < specials.len() ==> !((#[trigger] specials[i]).parent1@ == a && specials[i].parent2@ == b),
        forall|i: int|
            0 <= i < specials.len() && (#[trigger] specials[i]).parent1@ == a && specials[i].parent2@ == b
                && (forall|j: int|
                i < j < specials.len() ==> !(specials[j].parent1@ == a && specials[j].parent2@ == b))
                ==> child_for(specials_from(specials), a, b) == Some(specials[i].child@),
{
    lemma_values_from_rows(records, k);
    lemma_ids_from_rows(records, k);
    lemma_tiebreak_from_rows(tiebreaks, k);
    lemma_specials_rows(specials, a, b);
}

/// `s` is `t` or a tree of its ancestors.
pub open spec fn is_part(t: PalTree, s: PalTree) -> bool
    decreases t,
{
    t == s || match t {
        PalTree::Leaf(_) => false,
        PalTree::Bred(_, l, r) => is_part(*l, s) || is_part(*r, s),
    }
}

/// `b` occurs in `a` as a contiguous piece.
pub open spec fn holds_text(a: Seq<char>, b: Seq<char>) -> bool {
    exists|i: int| 0 <= i && i + b.len() <= a.len() && #[trigger] a.subrange(i, i + b.len()) == b
}

/// The number of characters of the graph lines of `t` and its ancestors: a node line
/// `  n [label="n"];` for each pal and the two edge lines `  l -> n;` and `  r -> n;`
/// for each bred pal, each line with its line break.
pub open spec fn lines_len(t: PalTree) -> nat
    decreases t,
{
    match t {
        PalTree::Leaf(n) => 2 * n.len() + 15,
        PalTree::Bred(n, l, r) => 2 * n.len() + 15 + lines_len(*l) + lines_len(*r) + (l.name().len()
            + n.len() + 8) + (r.name().len() + n.len() + 8),
    }
}

/// A piece of `b` is a piece of `a + b + c`.
proof fn lemma_holds_inside(a: Seq<char>, b: Seq<char>, c: Seq<char>, x: Seq<char>)
    requires
        holds_text(b, x),
    ensures
        holds_text(a + b + c, x),
{
    let i = choose|i: int| 0 <= i && i + x.len() <= b.len() && #[trigger] b.subrange(i, i + x.len()) == x;
    assert((a + b + c).subrange(a.len() + i, a.len() + i + x.len()) =~= x);
}

/// The lines of `t` and its ancestors: every node line and every edge line, and
/// nothing else, by length.
#[verifier::spinoff_prover]
proof fn lemma_node_text(t: PalTree)
    ensures
        dot_node_text(t).len() == lines_len(t),
        forall|s: PalTree|
            #[trigger] is_part(t, s) ==> holds_text(
                dot_node_text(t),
                "  "@ + s.name() + " [label=\""@ + s.name() + "\"];\n"@,
            ),
        forall|s: PalTree|
            #[trigger] is_part(t, s) && s is Bred ==> holds_text(
                dot_node_text(t),
                "  "@ + s->Bred_1.name() + " -> "@ + s.name() + ";\n"@,
            ) && holds_text(dot_node_text(t), "  "@ + s->Bred_2.name() + " -> "@ + s.name() + ";\n"@),
    decreases t,
{
    reveal_strlit("  ");
    reveal_strlit(" [label=\"");
    reveal_strlit("\"];\n");
    reveal_strlit(" -> ");
    reveal_strlit(";\n");
    let e = Seq::<char>::empty();
    let nl = "  "@ + t.name() + " [label=\""@ + t.name() + "\"];\n"@;
    match t {
        PalTree::Leaf(n) => {
            assert(dot_node_text(t) == nl);
            assert(dot_node_text(t).subrange(0int, 0int + nl.len()) =~= nl);
            assert(holds_text(dot_node_text(t), nl));
            assert forall|s: PalTree| #[trigger] is_part(t, s) implies holds_text(
                dot_node_text(t),
                "  "@ + s.name() + " [label=\""@ + s.name() + "\"];\n"@,
            ) by {
                assert(s == t);
            }
        },
        PalTree::Bred(n, l, r) => {
            lemma_node_text(*l);
            lemma_node_text(*r);
            let dl = dot_node_text(*l);
            let dr = dot_node_text(*r);
            let el = "  "@ + l.name() + " -> "@ + n + ";\n"@;
            let er = "  "@ + r.name() + " -> "@ + n + ";\n"@;
            let all = dot_node_text(t);
            assert(all == nl + dl + dr + el + er);
            let i1 = all.len() - er.len() - el.len();
            let i2 = all.len() - er.len();
            assert(all.subrange(0int, 0int + nl.len()) =~= nl);
            assert(all.subrange(i1, i1 + el.len()) =~= el);
            assert(all.subrange(i2, i2 + er.len()) =~= er);
            assert forall|s: PalTree| #[trigger] is_part(*l, s) implies holds_text(
                all,
                "  "@ + s.name() + " [label=\""@ + s.name() + "\"];\n"@,
            ) && (s is Bred ==> holds_text(all, "  "@ + s->Bred_1.name() + " -> "@ + s.name() + ";\n"@)
                && holds_text(all, "  "@ + s->Bred_2.name() + " -> "@ + s.name() + ";\n"@)) by {
                assert(all =~= nl + dl + (dr + el + er));
                lemma_holds_inside(nl, dl, dr + el + er, "  "@ + s.name() + " [label=\""@ + s.name() + "\"];\n"@);
                if s is Bred {
                    lemma_holds_inside(nl, dl, dr + el + er, "  "@ + s->Bred_1.name() + " -> "@ + s.name() + ";\n"@);
                    lemma_holds_inside(nl, dl, dr + el + er, "  "@ + s->Bred_2.name() + " -> "@ + s.name() + ";\n"@);
                }
            }
            assert forall|s: PalTree| #[trigger] is_part(*r, s) implies holds_text(
                all,
                "  "@ + s.name() + " [label=\""@ + s.name() + "\"];\n"@,
            ) && (s is Bred ==> holds_text(all, "  "@ + s->Bred_1.name() + " -> "@ + s.name() + ";\n"@)
                && holds_text(all, "  "@ + s->Bred_2.name() + " -> "@ + s.name() + ";\n"@)) by {
                assert(all =~= (nl + dl) + dr + (el + er));
                lemma_holds_inside(nl + dl, dr, el + er, "  "@ + s.name() + " [label=\""@ + s.name() + "\"];\n"@);
                if s is Bred {
                    lemma_holds_inside(nl + dl, dr, el + er, "  "@ + s->Bred_1.name() + " -> "@ + s.name() + ";\n"@);
                    lemma_holds_inside(nl + dl, dr, el + er, "  "@ + s->Bred_2.name() + " -> "@ + s.name() + ";\n"@);
                }
            }
            assert(holds_text(all, nl));
            assert(holds_text(all, el));
            assert(holds_text(all, er));
            assert forall|s: PalTree| #[trigger] is_part(t, s) implies holds_text(
                all,
                "  "@ + s.name() + " [label=\""@ + s.name() + "\"];\n"@,
            ) && (s is Bred ==> holds_text(all, "  "@ + s->Bred_1.name() + " -> "@ + s.name() + ";\n"@)
                && holds_text(all, "  "@ + s->Bred_2.name() + " -> "@ + s.name() + ";\n"@)) by {
                if s == t {
                    assert(s->Bred_1 == l);
                    assert(s->Bred_2 == r);
                } else if is_part(*l, s) {
                } else {
                    assert(is_part(*r, s));
                }
            }
        },
    }
}

/// The graph description of a breeding tree opens with `digraph PalNode {` and the
/// box shape line, closes with `}`, and in between has, for every pal of the tree, its
/// node line `  n [label="n"];` and, for every bred pal, the edge lines `  l -> n;` and
/// `  r -> n;` from its two parents; its length is that of those lines together.
pub proof fn law_dot_lines(t: PalTree)
    ensures
        dot_text(t).subrange(0, 38) == "digraph PalNode {\n  node [shape=box];\n"@,
        dot_text(t).subrange(dot_text(t).len() - 2, dot_text(t).len() as int) == "}\n"@,
        dot_text(t).len() == 40 + lines_len(t),
        forall|s: PalTree|
            #[trigger] is_part(t, s) ==> holds_text(
                dot_text(t),
                "  "@ + s.name() + " [label=\""@ + s.name() + "\"];\n"@,
            ),
        forall|s: PalTree|
            #[trigger] is_part(t, s) && s is Bred ==> holds_text(
                dot_text(t),
                "  "@ + s->Bred_1.name() + " -> "@ + s.name() + ";\n"@,
            ) && holds_text(dot_text(t), "  "@ + s->Bred_2.name() + " -> "@ + s.name() + ";\n"@),
{
    reveal_strlit("digraph PalNode {\n");
    reveal_strlit("  node [shape=box];\n");
    reveal_strlit("}\n");
    reveal_strlit("digraph PalNode {\n  node [shape=box];\n");
    lemma_node_text(t);
    let h = "digraph PalNode {\n"@ + "  node [shape=box];\n"@;
    let body = dot_node_text(t);
    let f = "}\n"@;
    assert(dot_text(t) =~= h + body + f);
    assert(h =~= "digraph PalNode {\n  node [shape=box];\n"@);
    assert(dot_text(t).subrange(0, 38) =~= h);
    assert(dot_text(t).subrange(dot_text(t).len() - 2, dot_text(t).len() as int) =~= f);
    assert forall|s: PalTree| #[trigger] is_part(t, s) implies holds_text(
        dot_text(t),
        "  "@ + s.name() + " [label=\""@ + s.name() + "\"];\n"@,
    ) && (s is Bred ==> holds_text(dot_text(t), "  "@ + s->Bred_1.name() + " -> "@ + s.name() + ";\n"@)
        && holds_text(dot_text(t), "  "@ + s->Bred_2.name() + " -> "@ + s.name() + ";\n"@)) by {
        lemma_holds_inside(h, body, f, "  "@ + s.name() + " [label=\""@ + s.name() + "\"];\n"@);
        if s is Bred {
            lemma_holds_inside(h, body, f, "  "@ + s->Bred_1.name() + " -> "@ + s.name() + ";\n"@);
            lemma_holds_inside(h, body, f, "  "@ + s->Bred_2.name() + " -> "@ + s.name() + ";\n"@);
        }
    }
}

} // verus!
