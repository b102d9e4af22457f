//! A small set of parent pairs from which many kinds of pal can be bred.
//!
//! For each pair of distinct pals the breeding of the pair's offspring is
//! repeated until it brings nothing new; what the last generation before that
//! holds is what the pair "generates". Then the pair that generates the most
//! kinds is taken greedily, its kinds are struck from every other pair, and
//! so on while some pair still generates something.
use vstd::prelude::*;

use crate::data::{lemma_combined_is_pal, lemma_pair_rows_extend, pair_rows, pal_names, Data, DataView};
use crate::table::lemma_name_index_unique;


verus! {

/// The names of a list of strings.
pub open spec fn name_list(v: Seq<String>) -> Seq<Seq<char>> {
    v.map_values(|s: String| s@)
}

/// The set of names of a list of strings.
pub open spec fn name_set(v: Seq<String>) -> Set<Seq<char>> {
    name_list(v).to_set()
}

/// The children of every `x` of `s` with every `y` of `t`.
pub open spec fn breed_set(d: DataView, s: Set<Seq<char>>, t: Set<Seq<char>>) -> Set<Seq<char>> {
    Set::new(
        |c: Seq<char>|
            exists|x: Seq<char>, y: Seq<char>|
                s.contains(x) && t.contains(y) && #[trigger] d.child_name(x, y) == c,
    )
}

/// The `k`-th state `(older, newer)` of the breeding from `p` and `q`: it starts as
/// `({p, q}, {child of p and q})`, and each step moves `newer` to `older` and breeds
/// every `older` kind with every `newer` kind to make the new `newer`.
pub open spec fn closure_state(d: DataView, p: Seq<char>, q: Seq<char>, k: nat) -> (
    Set<Seq<char>>,
    Set<Seq<char>>,
)
    decreases k,
{
    if k == 0 {
        (set![p, q], set![d.child_name(p, q)])
    } else {
        let (a, b) = closure_state(d, p, q, (k - 1) as nat);
        (b, breed_set(d, a, b))
    }
}

/// After `k` steps the newer generation brings nothing beyond the older one.
pub open spec fn closure_done(d: DataView, p: Seq<char>, q: Seq<char>, k: nat) -> bool {
    k >= 1 && closure_state(d, p, q, k).1.subset_of(closure_state(d, p, q, k).0)
}

/// The breeding from `p` and `q` comes to an end.
pub open spec fn closure_ends(d: DataView, p: Seq<char>, q: Seq<char>) -> bool {
    exists|k: nat| #[trigger] closure_done(d, p, q, k)
}

/// The first step at which the breeding from `p` and `q` comes to an end.
pub open spec fn first_done(d: DataView, p: Seq<char>, q: Seq<char>) -> nat {
    choose|k: nat|
        #[trigger] closure_done(d, p, q, k) && forall|j: nat| 1 <= j < k ==> !#[trigger] closure_done(
            d,
            p,
            q,
            j,
        )
}

/// The kinds that `p` and `q` generate: the older generation when the breeding ends.
pub open spec fn generated(d: DataView, p: Seq<char>, q: Seq<char>) -> Set<Seq<char>> {
    closure_state(d, p, q, first_done(d, p, q)).0
}

/// Some first ending step exists when an ending step exists.
proof fn lemma_first_done(d: DataView, p: Seq<char>, q: Seq<char>, k: nat) -> (m: nat)
    requires
        closure_done(d, p, q, k),
    ensures
        closure_done(d, p, q, m),
        m <= k,
        forall|j: nat| 1 <= j < m ==> !#[trigger] closure_done(d, p, q, j),
    decreases k,
{
    if exists|j: nat| 1 <= j < k && #[trigger] closure_done(d, p, q, j) {
        let j = choose|j: nat| 1 <= j < k && #[trigger] closure_done(d, p, q, j);
        lemma_first_done(d, p, q, j)
    } else {
        k
    }
}

/// What a pair generates is, when the breeding first comes to an end at step `k`
/// (the newer generation bringing no kind outside the older one), the older
/// generation of that step, which holds every kind of the newer one too.
#[verifier::spinoff_prover]
pub proof fn law_generated_is_older_generation(d: DataView, p: Seq<char>, q: Seq<char>, k: nat)
    requires
        k >= 1,
        closure_state(d, p, q, k).1.subset_of(closure_state(d, p, q, k).0),
        forall|j: nat|
            1 <= j < k ==> !(#[trigger] closure_state(d, p, q, j)).1.subset_of(closure_state(d, p, q, j).0),
    ensures
        generated(d, p, q) == closure_state(d, p, q, k).0,
        closure_state(d, p, q, k).0 + closure_state(d, p, q, k).1 == generated(d, p, q),
{
    assert(closure_done(d, p, q, k));
    assert forall|j: nat| 1 <= j < k implies !#[trigger] closure_done(d, p, q, j) by {
        assert(!closure_state(d, p, q, j).1.subset_of(closure_state(d, p, q, j).0));
    }
    let m = first_done(d, p, q);
    assert(closure_done(d, p, q, m) && forall|j: nat| 1 <= j < m ==> !#[trigger] closure_done(d, p, q, j));
    if m < k {
        assert(!closure_done(d, p, q, m));
    }
    if k < m {
        assert(!closure_done(d, p, q, k));
    }
    assert(m == k);
    assert(closure_state(d, p, q, k).0 + closure_state(d, p, q, k).1 =~= closure_state(d, p, q, k).0);
}

/// Whether the list `v` holds the name `x`.
fn list_has(v: &Vec<String>, x: &String) -> (b: bool)
    ensures
        b == name_list(v@).contains(x@),
{
    let mut i: usize = 0;
    while i < v.len()
        invariant
            i <= v.len(),
            forall|j: int| 0 <= j < i ==> (#[trigger] name_list(v@)[j]) != x@,
        decreases v.len() - i,
    {
        if v[i] == *x {
            assert(name_list(v@)[i as int] == x@);
            return true;
        }
        i = i + 1;
    }
    false
}

/// Adds `x` to the list `v` unless it is there already.
fn add_name(v: &mut Vec<String>, x: String)
    requires
        name_list(old(v)@).no_duplicates(),
    ensures
        name_list(final(v)@).no_duplicates(),
        name_set(final(v)@) == name_set(old(v)@).insert(x@),
{
    let ghost before = name_list(v@);
    if !list_has(v, &x) {
        let ghost xv = x@;
        v.push(x);
        assert(name_list(v@) =~= before.push(xv));
        proof {
            before.lemma_push_to_set_commute(xv);
        }
    } else {
        assert(name_set(v@) =~= name_set(v@).insert(x@));
    }
}

/// Whether every name of `a` is a name of `b`.
fn all_in(a: &Vec<String>, b: &Vec<String>) -> (r: bool)
    ensures
        r == name_set(a@).subset_of(name_set(b@)),
{
    let mut i: usize = 0;
    while i < a.len()
        invariant
            i <= a.len(),
            forall|j: int| 0 <= j < i ==> name_list(b@).contains(#[trigger] name_list(a@)[j]),
        decreases a.len() - i,
    {
        if !list_has(b, &a[i]) {
            assert(name_set(a@).contains(name_list(a@)[i as int]));
            return false;
        }
        i = i + 1;
    }
    assert forall|x: Seq<char>| name_set(a@).contains(x) implies name_set(b@).contains(x) by {
        let j = name_list(a@).index_of(x);
        assert(name_list(a@)[j] == x);
    }
    true
}

/// Every name of the set is a pal.
pub open spec fn all_pals(d: DataView, s: Set<Seq<char>>) -> bool {
    forall|x: Seq<char>| #[trigger] s.contains(x) ==> d.has_pal(x)
}

/// The child of two pals of a database in which any two pals can be bred.
fn child_of(data: &Data, x: &String, y: &String) -> (c: String)
    requires
        data@.wf(),
        data@.all_breedable(),
        data@.has_pal(x@),
        data@.has_pal(y@),
    ensures
        c@ == data@.child_name(x@, y@),
        data@.has_pal(c@),
{
    proof {
        reveal(DataView::all_breedable);
        assert(data@.can_combine(x@, y@));
    }
    let r = data.combine(x.as_str(), y.as_str());
    proof {
        if r is Ok {
            lemma_combined_is_pal(data@, x@, y@);
        }
    }
    match r {
        Ok((k, _)) => k,
        Err(_) => {
            proof {
                assert(false);
            }
            x.clone()
        },
    }
}

/// The children of every name of `xs` with every name of `ys`, without repeats.
fn breed_names(data: &Data, xs: &Vec<String>, ys: &Vec<String>) -> (r: Vec<String>)
    requires
        data@.wf(),
        data@.all_breedable(),
        all_pals(data@, name_set(xs@)),
        all_pals(data@, name_set(ys@)),
    ensures
        name_set(r@) == breed_set(data@, name_set(xs@), name_set(ys@)),
        name_list(r@).no_duplicates(),
        all_pals(data@, name_set(r@)),
{
    let ghost d = data@;
    let ghost xl = name_list(xs@);
    let ghost yl = name_list(ys@);
    let mut out: Vec<String> = Vec::new();
    assert(name_list(out@) =~= Seq::<Seq<char>>::empty());
    assert(name_set(out@) =~= Set::<Seq<char>>::empty());
    let mut i: usize = 0;
    while i < xs.len()
        invariant
            d == data@,
            d.wf(),
            d.all_breedable(),
            xl == name_list(xs@),
            yl == name_list(ys@),
            all_pals(d, name_set(xs@)),
            all_pals(d, name_set(ys@)),
            i <= xs.len(),
            name_list(out@).no_duplicates(),
            all_pals(d, name_set(out@)),
            forall|c: Seq<char>|
                name_set(out@).contains(c) <==> exists|ii: int, jj: int|
                    0 <= ii < i && 0 <= jj < yl.len() && #[trigger] d.child_name(xl[ii], yl[jj])
                        == c,
        decreases xs.len() - i,
    {
        let mut j: usize = 0;
        while j < ys.len()
            invariant
                d == data@,
                d.wf(),
                d.all_breedable(),
                xl == name_list(xs@),
                yl == name_list(ys@),
                all_pals(d, name_set(xs@)),
                all_pals(d, name_set(ys@)),
                i < xs.len(),
                j <= ys.len(),
                name_list(out@).no_duplicates(),
                all_pals(d, name_set(out@)),
                forall|c: Seq<char>|
                    name_set(out@).contains(c) <==> (exists|ii: int, jj: int|
                        0 <= ii < i && 0 <= jj < yl.len() && #[trigger] d.child_name(
                            xl[ii],
                            yl[jj],
                        ) == c) || (exists|jj: int|
                        0 <= jj < j && #[trigger] d.child_name(xl[i as int], yl[jj]) == c),
            decreases ys.len() - j,
        {
            proof {
                assert(name_set(xs@).contains(xl[i as int]));
                assert(name_set(ys@).contains(yl[j as int]));
            }
            let c = child_of(data, &xs[i], &ys[j]);
            let ghost cv = c@;
            let ghost before = name_set(out@);
            add_name(&mut out, c);
            proof {
                assert(d.child_name(xl[i as int], yl[j as int]) == cv);
                assert forall|c2: Seq<char>|
                    name_set(out@).contains(c2) <==> (exists|ii: int, jj: int|
                        0 <= ii < i && 0 <= jj < yl.len() && #[trigger] d.child_name(
                            xl[ii],
                            yl[jj],
                        ) == c2) || (exists|jj: int|
                        0 <= jj < j + 1 && #[trigger] d.child_name(xl[i as int], yl[jj]) == c2) by {
                    if c2 == cv {
                    } else {
                        if exists|jj: int|
                            0 <= jj < j + 1 && #[trigger] d.child_name(xl[i as int], yl[jj]) == c2 {
                            let jj = choose|jj: int|
                                0 <= jj < j + 1 && #[trigger] d.child_name(xl[i as int], yl[jj])
                                    == c2;
                            assert(jj < j);
                        }
                    }
                }
            }
            j = j + 1;
        }
        proof {
            assert forall|c2: Seq<char>|
                name_set(out@).contains(c2) <==> exists|ii: int, jj: int|
                    0 <= ii < i + 1 && 0 <= jj < yl.len() && #[trigger] d.child_name(xl[ii], yl[jj])
                        == c2 by {
                if exists|ii: int, jj: int|
                    0 <= ii < i + 1 && 0 <= jj < yl.len() && #[trigger] d.child_name(xl[ii], yl[jj])
                        == c2 {
                    let (ii, jj) = choose|ii: int, jj: int|
                        0 <= ii < i + 1 && 0 <= jj < yl.len() && #[trigger] d.child_name(
                            xl[ii],
                            yl[jj],
                        ) == c2;
                    if ii == i {
                        assert(d.child_name(xl[i as int], yl[jj]) == c2);
                    } else {
                        assert(d.child_name(xl[ii], yl[jj]) == c2);
                    }
                }
            }
        }
        i = i + 1;
    }
    proof {
        let bs = breed_set(d, name_set(xs@), name_set(ys@));
        assert forall|c: Seq<char>| name_set(out@).contains(c) <==> bs.contains(c) by {
            if name_set(out@).contains(c) {
                let (ii, jj) = choose|ii: int, jj: int|
                    0 <= ii < xs.len() && 0 <= jj < yl.len() && #[trigger] d.child_name(
                        xl[ii],
                        yl[jj],
                    ) == c;
                assert(name_set(xs@).contains(xl[ii]));
                assert(name_set(ys@).contains(yl[jj]));
            }
            if bs.contains(c) {
                let (x, y) = choose|x: Seq<char>, y: Seq<char>|
                    name_set(xs@).contains(x) && name_set(ys@).contains(y) && #[trigger] d.child_name(
                        x,
                        y,
                    ) == c;
                let ii = xl.index_of(x);
                let jj = yl.index_of(y);
                assert(d.child_name(xl[ii], yl[jj]) == c);
            }
        }
        assert(name_set(out@) =~= bs);
    }
    out
}

/// The kinds that the pals `p` and `q` generate, without repeats.
fn generated_by(data: &Data, p: &String, q: &String) -> (r: Vec<String>)
    requires
        data@.wf(),
        data@.all_breedable(),
        data@.has_pal(p@),
        data@.has_pal(q@),
        closure_ends(data@, p@, q@),
    ensures
        name_set(r@) == generated(data@, p@, q@),
        name_list(r@).no_duplicates(),
        all_pals(data@, name_set(r@)),
{
    let ghost d = data@;
    let ghost k0 = choose|k: nat| #[trigger] closure_done(d, p@, q@, k);
    let ghost m = lemma_first_done(d, p@, q@, k0);
    let ghost fd = first_done(d, p@, q@);
    proof {
        // the first ending step is unique
        let fd2 = first_done(d, p@, q@);
        assert(closure_done(d, p@, q@, fd2));
        if fd2 < m {
            assert(!closure_done(d, p@, q@, fd2));
        } else if m < fd2 {
            assert(!closure_done(d, p@, q@, m));
        }
    }
    let mut s: Vec<String> = Vec::new();
    assert(name_list(s@) =~= Seq::<Seq<char>>::empty());
    add_name(&mut s, p.clone());
    add_name(&mut s, q.clone());
    let c = child_of(data, p, q);
    let mut s2: Vec<String> = Vec::new();
    assert(name_list(s2@) =~= Seq::<Seq<char>>::empty());
    add_name(&mut s2, c);
    let ghost mut k: nat = 0;
    proof {
        assert(name_set(s@) =~= set![p@, q@]);
        assert(name_set(s2@) =~= set![d.child_name(p@, q@)]);
    }
    loop
        invariant_except_break
            k < fd,
            forall|j: nat| 1 <= j <= k ==> !#[trigger] closure_done(d, p@, q@, j),
        invariant
            d == data@,
            d.wf(),
            d.all_breedable(),
            fd == first_done(d, p@, q@),
            closure_done(d, p@, q@, fd),
            forall|j: nat| 1 <= j < fd ==> !#[trigger] closure_done(d, p@, q@, j),
            (name_set(s@), name_set(s2@)) == closure_state(d, p@, q@, k),
            name_list(s@).no_duplicates(),
            name_list(s2@).no_duplicates(),
            all_pals(d, name_set(s@)),
            all_pals(d, name_set(s2@)),
        ensures
            k == fd,
            (name_set(s@), name_set(s2@)) == closure_state(d, p@, q@, k),
            name_list(s@).no_duplicates(),
            all_pals(d, name_set(s@)),
        decreases fd - k,
    {
        let fresh = breed_names(data, &s, &s2);
        s = s2;
        s2 = fresh;
        proof {
            k = k + 1;
        }
        if all_in(&s2, &s) {
            assert(closure_done(d, p@, q@, k));
            break;
        }
        assert(!closure_done(d, p@, q@, k));
    }
    s
}

/// Pairs with the kinds each generates.
pub open spec fn gen_view(gs: Seq<((String, String), Vec<String>)>) -> Seq<
    ((Seq<char>, Seq<char>), Set<Seq<char>>),
> {
    gs.map_values(|e: ((String, String), Vec<String>)| ((e.0.0@, e.0.1@), name_set(e.1@)))
}

/// Every pair of distinct pals (in table order) with the kinds it generates.
pub open spec fn generated_sets(d: DataView) -> Seq<((Seq<char>, Seq<char>), Set<Seq<char>>)> {
    pair_rows(pal_names(d), pal_names(d).len() as int).map_values(
        |pq: (Seq<char>, Seq<char>)| (pq, generated(d, pq.0, pq.1)),
    )
}

/// The pair at `i` generates the most kinds, more than any pair before it, and at least one.
pub open spec fn is_best(gs: Seq<((Seq<char>, Seq<char>), Set<Seq<char>>)>, i: int) -> bool {
    &&& 0 <= i < gs.len()
    &&& gs[i].1.len() > 0
    &&& forall|j: int| 0 <= j < gs.len() ==> (#[trigger] gs[j]).1.len() <= gs[i].1.len()
    &&& forall|j: int| 0 <= j < i ==> (#[trigger] gs[j]).1.len() < gs[i].1.len()
}

/// Every pair with the kinds of `s` struck out.
pub open spec fn strip(gs: Seq<((Seq<char>, Seq<char>), Set<Seq<char>>)>, s: Set<Seq<char>>) -> Seq<
    ((Seq<char>, Seq<char>), Set<Seq<char>>),
> {
    gs.map_values(
        |e: ((Seq<char>, Seq<char>), Set<Seq<char>>)| (e.0, e.1.difference(s)),
    )
}

/// The number of pairs that still generate something.
pub open spec fn nonempty_count(gs: Seq<((Seq<char>, Seq<char>), Set<Seq<char>>)>) -> nat
    decreases gs.len(),
{
    if gs.len() == 0 {
        0
    } else {
        nonempty_count(gs.drop_last()) + if gs.last().1.len() > 0 {
            1nat
        } else {
            0nat
        }
    }
}

/// The greedy choice, at most `fuel` times: the best pair with its number of kinds,
/// then the choice among the pairs with that pair's kinds struck out.
pub open spec fn greedy(gs: Seq<((Seq<char>, Seq<char>), Set<Seq<char>>)>, fuel: nat) -> Seq<
    ((Seq<char>, Seq<char>), nat),
>
    decreases fuel,
{
    if fuel == 0 || !(exists|i: int| is_best(gs, i)) {
        Seq::empty()
    } else {
        let i = choose|i: int| is_best(gs, i);
        seq![(gs[i].0, gs[i].1.len())] + greedy(strip(gs, gs[i].1), (fuel - 1) as nat)
    }
}

/// The greedy choices made for the database.
pub open spec fn compact_steps(d: DataView) -> Seq<((Seq<char>, Seq<char>), nat)> {
    greedy(generated_sets(d), generated_sets(d).len())
}

/// The pals of the chosen pairs.
pub open spec fn compact_names(steps: Seq<((Seq<char>, Seq<char>), nat)>) -> Set<Seq<char>> {
    Set::new(
        |k: Seq<char>|
            exists|i: int| 0 <= i < steps.len() && ((#[trigger] steps[i]).0.0 == k || steps[i].0.1 == k),
    )
}

/// At most one pair is best.
proof fn lemma_best_unique(gs: Seq<((Seq<char>, Seq<char>), Set<Seq<char>>)>, i: int, j: int)
    requires
        is_best(gs, i),
        is_best(gs, j),
    ensures
        i == j,
{
    if i < j {
        assert(gs[i].1.len() < gs[j].1.len());
        assert(gs[i].1.len() <= gs[j].1.len());
        assert(gs[j].1.len() <= gs[i].1.len());
    } else if j < i {
        assert(gs[j].1.len() < gs[i].1.len());
        assert(gs[i].1.len() <= gs[j].1.len());
    }
}

/// Striking out kinds never makes a pair generate more; striking out all the kinds of a
/// pair that generates something leaves fewer pairs that generate something.
proof fn lemma_strip_count(gs: Seq<((Seq<char>, Seq<char>), Set<Seq<char>>)>, s: Set<Seq<char>>, i: int)
    requires
        forall|j: int| 0 <= j < gs.len() ==> (#[trigger] gs[j]).1.finite(),
    ensures
        nonempty_count(strip(gs, s)) <= nonempty_count(gs),
        0 <= i < gs.len() && gs[i].1 == s && s.len() > 0 ==> nonempty_count(strip(gs, s))
            < nonempty_count(gs),
    decreases gs.len(),
{
    if gs.len() > 0 {
        let g2 = gs.drop_last();
        assert(strip(gs, s).drop_last() =~= strip(g2, s));
        lemma_strip_count(g2, s, i);
        let e = gs.last();
        assert(e.1.finite());
        vstd::set_lib::lemma_len_subset(e.1.difference(s), e.1);
        if i == gs.len() - 1 && gs[i].1 == s {
            assert(e.1.difference(s) =~= Set::<Seq<char>>::empty());
        }
    }
}

/// A pair that generates something is counted.
proof fn lemma_count_positive(gs: Seq<((Seq<char>, Seq<char>), Set<Seq<char>>)>, i: int)
    requires
        0 <= i < gs.len(),
        gs[i].1.len() > 0,
    ensures
        nonempty_count(gs) >= 1,
    decreases gs.len(),
{
    if i < gs.len() - 1 {
        lemma_count_positive(gs.drop_last(), i);
    }
}

/// The names of `v` that are not in `remove`, without repeats.
fn without(v: &Vec<String>, remove: &Vec<String>) -> (r: Vec<String>)
    ensures
        name_set(r@) == name_set(v@).difference(name_set(remove@)),
        name_list(r@).no_duplicates(),
{
    let mut out: Vec<String> = Vec::new();
    assert(name_list(out@) =~= Seq::<Seq<char>>::empty());
    let mut i: usize = 0;
    while i < v.len()
        invariant
            i <= v.len(),
            name_list(out@).no_duplicates(),
            forall|x: Seq<char>|
                name_set(out@).contains(x) <==> (exists|j: int|
                    0 <= j < i && #[trigger] name_list(v@)[j] == x) && !name_set(remove@).contains(x),
        decreases v.len() - i,
    {
        let ghost xi = name_list(v@)[i as int];
        if !list_has(remove, &v[i]) {
            add_name(&mut out, v[i].clone());
        }
        proof {
            assert forall|x: Seq<char>|
                name_set(out@).contains(x) <==> (exists|j: int|
                    0 <= j < i + 1 && #[trigger] name_list(v@)[j] == x) && !name_set(remove@).contains(
                    x,
                ) by {
                if x == xi {
                    assert(name_list(v@)[i as int] == x);
                    if name_list(remove@).contains(x) {
                        assert(name_set(remove@).contains(x));
                    }
                } else {
                    if exists|j: int| 0 <= j < i + 1 && #[trigger] name_list(v@)[j] == x {
                        let j = choose|j: int| 0 <= j < i + 1 && #[trigger] name_list(v@)[j] == x;
                        assert(j < i);
                    }
                }
            }
        }
        i = i + 1;
    }
    proof {
        assert forall|x: Seq<char>|
            name_set(out@).contains(x) <==> name_set(v@).difference(name_set(remove@)).contains(x) by {
            if name_set(v@).contains(x) {
                let j = name_list(v@).index_of(x);
                assert(name_list(v@)[j] == x);
            }
        }
        assert(name_set(out@) =~= name_set(v@).difference(name_set(remove@)));
    }
    out
}

/// The number of distinct names of a list without repeats.
proof fn lemma_list_len(v: Seq<String>)
    requires
        name_list(v).no_duplicates(),
    ensures
        name_set(v).len() == v.len(),
        name_set(v).finite(),
{
    name_list(v).unique_seq_to_set();
    vstd::seq_lib::seq_to_set_is_finite(name_list(v));
}

/// What the greedy choice of parent pairs found.
pub struct CompactReport {
    /// The chosen pairs, in the order chosen, each with the number of kinds it generated
    /// when it was chosen.
    pub steps: Vec<((String, String), usize)>,
    /// The pals of the chosen pairs, each once.
    pub compact: Vec<String>,
}

/// The mathematical content of the chosen steps.
pub open spec fn steps_view(v: Seq<((String, String), usize)>) -> Seq<((Seq<char>, Seq<char>), nat)> {
    v.map_values(|e: ((String, String), usize)| ((e.0.0@, e.0.1@), e.1 as nat))
}

/// The first `n + 1` states of the breeding from `p` and `q` are all different, and
/// none of the first `n` generations ends it.
pub open spec fn runs_unrepeated(d: DataView, p: Seq<char>, q: Seq<char>, n: nat) -> bool {
    &&& forall|t1: nat, t2: nat|
        t1 < t2 <= n ==> #[trigger] closure_state(d, p, q, t1) != #[trigger] closure_state(
            d,
            p,
            q,
            t2,
        )
    &&& forall|t: nat| 1 <= t <= n ==> !#[trigger] closure_done(d, p, q, t)
}

/// The breeding from every pair of distinct pals comes to an end.
pub open spec fn all_closures_end(d: DataView) -> bool {
    let rows = pair_rows(pal_names(d), pal_names(d).len() as int);
    forall|t: int| 0 <= t < rows.len() ==> closure_ends(d, (#[trigger] rows[t]).0, rows[t].1)
}

/// Every list of `gs` is without repeats, and the size of each set is the length of its list.
pub open spec fn lists_ok(gs: Seq<((String, String), Vec<String>)>) -> bool {
    forall|t: int|
        0 <= t < gs.len() ==> name_list((#[trigger] gs[t]).1@).no_duplicates() && gen_view(gs)[t].1.len()
            == gs[t].1@.len() && gen_view(gs)[t].1.finite()
}

/// Strikes the kinds of `remove` out of every pair.
fn strip_all(gs: &Vec<((String, String), Vec<String>)>, remove: &Vec<String>) -> (r: Vec<
    ((String, String), Vec<String>),
>)
    ensures
        gen_view(r@) == strip(gen_view(gs@), name_set(remove@)),
        lists_ok(r@),
{
    let ghost s = name_set(remove@);
    let mut out: Vec<((String, String), Vec<String>)> = Vec::new();
    let mut i: usize = 0;
    assert(gen_view(out@) =~= strip(gen_view(gs@).take(0), s));
    while i < gs.len()
        invariant
            i <= gs.len(),
            s == name_set(remove@),
            gen_view(out@) == strip(gen_view(gs@).take(i as int), s),
            lists_ok(out@),
        decreases gs.len() - i,
    {
        let kept = without(&gs[i].1, remove);
        let entry = ((gs[i].0.0.clone(), gs[i].0.1.clone()), kept);
        let ghost before = out@;
        proof {
            lemma_list_len(entry.1@);
        }
        out.push(entry);
        proof {
            assert(gen_view(out@) =~= gen_view(before).push(gen_view(out@)[i as int]));
            assert(strip(gen_view(gs@).take(i + 1), s) =~= strip(gen_view(gs@).take(i as int), s).push(
                (gen_view(gs@)[i as int].0, gen_view(gs@)[i as int].1.difference(s)),
            ));
            assert forall|t: int|
                0 <= t < out@.len() implies name_list((#[trigger] out@[t]).1@).no_duplicates()
                && gen_view(out@)[t].1.len() == out@[t].1@.len() && gen_view(out@)[t].1.finite() by {
                if t < i {
                    assert(out@[t] == before[t]);
                    assert(gen_view(out@)[t] == gen_view(before)[t]);
                }
            }
        }
        i = i + 1;
    }
    assert(gen_view(gs@).take(gs.len() as int) =~= gen_view(gs@));
    out
}

/// The first pair that generates the most kinds, with that number, when some pair
/// generates something; otherwise a count of 0.
fn best_pair(gs: &Vec<((String, String), Vec<String>)>) -> (r: (usize, usize))
    requires
        lists_ok(gs@),
    ensures
        r.1 == 0 ==> !(exists|i: int| is_best(gen_view(gs@), i)),
        r.1 > 0 ==> is_best(gen_view(gs@), r.0 as int) && r.1 == gen_view(gs@)[r.0 as int].1.len(),
{
    let ghost g = gen_view(gs@);
    let mut bi: usize = 0;
    let mut bn: usize = 0;
    let mut i: usize = 0;
    while i < gs.len()
        invariant
            g == gen_view(gs@),
            lists_ok(gs@),
            i <= gs.len(),
            bn == 0 ==> forall|j: int| 0 <= j < i ==> (#[trigger] g[j]).1.len() == 0,
            bn > 0 ==> {
                &&& bi < i
                &&& g[bi as int].1.len() == bn
                &&& forall|j: int| 0 <= j < i ==> (#[trigger] g[j]).1.len() <= bn
                &&& forall|j: int| 0 <= j < bi ==> (#[trigger] g[j]).1.len() < bn
            },
        decreases gs.len() - i,
    {
        let n = gs[i].1.len();
        assert(g[i as int].1.len() == n);
        if bn < n {
            bn = n;
            bi = i;
        }
        i = i + 1;
    }
    if bn == 0 {
        assert forall|i: int| !is_best(g, i) by {
            if 0 <= i < g.len() {
                assert(g[i].1.len() == 0);
            }
        }
    }
    (bi, bn)
}

/// States that are equal stay equal step by step.
proof fn lemma_closure_shift(d: DataView, p: Seq<char>, q: Seq<char>, j: nat, k: nat, t: nat)
    requires
        closure_state(d, p, q, j) == closure_state(d, p, q, k),
    ensures
        closure_state(d, p, q, j + t) == closure_state(d, p, q, k + t),
    decreases t,
{
    if t > 0 {
        lemma_closure_shift(d, p, q, j, k, (t - 1) as nat);
        assert(((j + t - 1) as nat) + 1 == j + t);
        assert(((k + t - 1) as nat) + 1 == k + t);
    }
}

/// When a state comes back before the breeding has ended, the breeding never ends.
proof fn lemma_never_done(d: DataView, p: Seq<char>, q: Seq<char>, j: nat, k: nat, m: nat)
    requires
        j < k,
        closure_state(d, p, q, j) == closure_state(d, p, q, k),
        forall|t: nat| 1 <= t <= k ==> !#[trigger] closure_done(d, p, q, t),
    ensures
        !closure_done(d, p, q, m),
    decreases m,
{
    if m > k {
        let m2 = (m - (k - j)) as nat;
        lemma_never_done(d, p, q, j, k, m2);
        lemma_closure_shift(d, p, q, j, k, (m2 - j) as nat);
    }
}

/// A copy of a list of names.
fn copy_names(v: &Vec<String>) -> (c: Vec<String>)
    ensures
        name_list(c@) == name_list(v@),
{
    let mut c: Vec<String> = Vec::new();
    let mut i: usize = 0;
    while i < v.len()
        invariant
            i <= v.len(),
            name_list(c@) == name_list(v@.take(i as int)),
        decreases v.len() - i,
    {
        let ghost before = c@;
        let x = v[i].clone();
        assert(x@ == v@[i as int]@);
        c.push(x);
        assert(name_list(c@) =~= name_list(before).push(x@));
        assert(name_list(v@.take(i + 1)) =~= name_list(v@.take(i as int)).push(v@[i as int]@));
        i = i + 1;
    }
    assert(v@.take(v.len() as int) =~= v@);
    c
}

/// Whether the two lists hold the same names.
fn same_names(a: &Vec<String>, b: &Vec<String>) -> (r: bool)
    ensures
        r == (name_set(a@) == name_set(b@)),
{
    let r = all_in(a, b) && all_in(b, a);
    proof {
        if r {
            assert(name_set(a@) =~= name_set(b@));
        }
    }
    r
}

/// Whether the breeding from `p` and `q` comes to an end: `Some(true)` when it
/// does, `Some(false)` when a state comes back first (so it never does), `None`
/// when neither shows within `fuel` steps.
fn closure_outcome(data: &Data, p: &String, q: &String, fuel: usize) -> (r: Option<bool>)
    requires
        data@.wf(),
        data@.all_breedable(),
        data@.has_pal(p@),
        data@.has_pal(q@),
    ensures
        r == Some(true) ==> closure_ends(data@, p@, q@),
        r == Some(false) ==> !closure_ends(data@, p@, q@),
        r is None ==> runs_unrepeated(data@, p@, q@, fuel as nat),
{
    let ghost d = data@;
    let mut s: Vec<String> = Vec::new();
    assert(name_list(s@) =~= Seq::<Seq<char>>::empty());
    add_name(&mut s, p.clone());
    add_name(&mut s, q.clone());
    let c = child_of(data, p, q);
    let mut s2: Vec<String> = Vec::new();
    assert(name_list(s2@) =~= Seq::<Seq<char>>::empty());
    add_name(&mut s2, c);
    proof {
        assert(name_set(s@) =~= set![p@, q@]);
        assert(name_set(s2@) =~= set![d.child_name(p@, q@)]);
    }
    let mut history: Vec<(Vec<String>, Vec<String>)> = Vec::new();
    history.push((copy_names(&s), copy_names(&s2)));
    let mut k: usize = 0;
    while k < fuel
        invariant
            d == data@,
            d.wf(),
            d.all_breedable(),
            k <= fuel,
            history@.len() == k + 1,
            forall|t: int|
                0 <= t <= k ==> (name_set((#[trigger] history@[t]).0@), name_set(history@[t].1@))
                    == closure_state(d, p@, q@, t as nat),
            (name_set(s@), name_set(s2@)) == closure_state(d, p@, q@, k as nat),
            forall|t: nat| 1 <= t <= k ==> !#[trigger] closure_done(d, p@, q@, t),
            runs_unrepeated(d, p@, q@, k as nat),
            name_list(s@).no_duplicates(),
            name_list(s2@).no_duplicates(),
            all_pals(d, name_set(s@)),
            all_pals(d, name_set(s2@)),
        decreases fuel - k,
    {
        let fresh = breed_names(data, &s, &s2);
        s = s2;
        s2 = fresh;
        k = k + 1;
        if all_in(&s2, &s) {
            assert(closure_done(d, p@, q@, k as nat));
            return Some(true);
        }
        assert(!closure_done(d, p@, q@, k as nat));
        let mut t: usize = 0;
        while t < history.len()
            invariant
                d == data@,
                t <= history@.len(),
                history@.len() == k,
                forall|t2: int|
                    0 <= t2 < k ==> (name_set((#[trigger] history@[t2]).0@), name_set(history@[t2].1@))
                        == closure_state(d, p@, q@, t2 as nat),
                (name_set(s@), name_set(s2@)) == closure_state(d, p@, q@, k as nat),
                forall|t2: nat| 1 <= t2 <= k ==> !#[trigger] closure_done(d, p@, q@, t2),
                forall|t1: nat, t2: nat|
                    t1 < t2 < k ==> #[trigger] closure_state(d, p@, q@, t1) != #[trigger] closure_state(
                        d,
                        p@,
                        q@,
                        t2,
                    ),
                forall|t2: nat| t2 < t ==> #[trigger] closure_state(d, p@, q@, t2) != closure_state(
                    d,
                    p@,
                    q@,
                    k as nat,
                ),
            decreases history@.len() - t,
        {
            if same_names(&history[t].0, &s) && same_names(&history[t].1, &s2) {
                proof {
                    assert((name_set(history@[t as int].0@), name_set(history@[t as int].1@))
                        == closure_state(d, p@, q@, t as nat));
                    assert(closure_state(d, p@, q@, t as nat) == closure_state(d, p@, q@, k as nat));
                    assert forall|m: nat| !#[trigger] closure_done(d, p@, q@, m) by {
                        lemma_never_done(d, p@, q@, t as nat, k as nat, m);
                    }
                }
                return Some(false);
            }
            proof {
                assert((name_set(history@[t as int].0@), name_set(history@[t as int].1@))
                    == closure_state(d, p@, q@, t as nat));
            }
            t = t + 1;
        }
        history.push((copy_names(&s), copy_names(&s2)));
    }
    None
}

impl Data {
    /// Whether the breeding from every pair of distinct pals comes to an end (see
    /// [`all_closures_end`]): `Some(true)` when it does for every pair, `Some(false)`
    /// when some pair's breeding comes back to an earlier state first and so never
    /// ends, `None` when some pair shows neither within `fuel` steps: its first
    /// `fuel + 1` states are all different and none of them ends the breeding.
    pub fn closures_end(&self, fuel: usize) -> (r: Option<bool>)
        requires
            self@.all_breedable(),
        ensures
            r == Some(true) ==> all_closures_end(self@),
            r == Some(false) ==> !all_closures_end(self@),
            r is None ==> exists|t: int|
                0 <= t < pair_rows(pal_names(self@), pal_names(self@).len() as int).len()
                    && runs_unrepeated(
                    self@,
                    (#[trigger] pair_rows(pal_names(self@), pal_names(self@).len() as int)[t]).0,
                    pair_rows(pal_names(self@), pal_names(self@).len() as int)[t].1,
                    fuel as nat,
                ),
    {
        self.tables_are_wf();
        let ghost d = self@;
        let ghost keys = pal_names(d);
        let ghost rows = pair_rows(keys, keys.len() as int);
        let n = self.pal_count();
        let mut i: usize = 0;
        while i < n
            invariant
                d == self@,
                d.wf(),
                d.all_breedable(),
                keys == pal_names(d),
                rows == pair_rows(keys, keys.len() as int),
                n == keys.len(),
                i <= n,
                forall|t: int|
                    0 <= t < pair_rows(keys, i as int).len() ==> closure_ends(
                        d,
                        (#[trigger] pair_rows(keys, i as int)[t]).0,
                        pair_rows(keys, i as int)[t].1,
                    ),
            decreases n - i,
        {
            let ghost row = keys.skip(i + 1).map_values(|q: Seq<char>| (keys[i as int], q));
            let ghost done = pair_rows(keys, i as int);
            let mut j: usize = i + 1;
            while j < n
                invariant
                    d == self@,
                    d.wf(),
                    d.all_breedable(),
                    keys == pal_names(d),
                    rows == pair_rows(keys, keys.len() as int),
                    n == keys.len(),
                    i < n,
                    i + 1 <= j <= n,
                    row == keys.skip(i + 1).map_values(|q: Seq<char>| (keys[i as int], q)),
                    done == pair_rows(keys, i as int),
                    forall|t: int|
                        0 <= t < (done + row.take(j - i - 1)).len() ==> closure_ends(
                            d,
                            (#[trigger] (done + row.take(j - i - 1))[t]).0,
                            (done + row.take(j - i - 1))[t].1,
                        ),
                decreases n - j,
            {
                let ghost prefix = done + row.take(j - i - 1);
                let p = self.pal_name(i);
                let q = self.pal_name(j);
                proof {
                    assert(row[j - i - 1] == (keys[i as int], keys[j as int]));
                    assert(done + row.take(j - i) =~= prefix.push((keys[i as int], keys[j as int])));
                    assert(keys[i as int] == d.values[i as int].0);
                    assert(keys[j as int] == d.values[j as int].0);
                    lemma_name_index_unique(d.values, i as int);
                    lemma_name_index_unique(d.values, j as int);
                }
                match closure_outcome(self, p, q, fuel) {
                    Some(true) => {},
                    Some(false) => {
                        proof {
                            let rest = lemma_pair_rows_extend(keys, i + 1, n as int);
                            assert(pair_rows(keys, i + 1) =~= done + row);
                            let t = done.len() + (j - i - 1);
                            assert(rows[t] == (keys[i as int], keys[j as int]));
                        }
                        return Some(false);
                    },
                    None => {
                        proof {
                            let rest = lemma_pair_rows_extend(keys, i + 1, n as int);
                            assert(pair_rows(keys, i + 1) =~= done + row);
                            let t = done.len() + (j - i - 1);
                            assert(rows[t] == (keys[i as int], keys[j as int]));
                        }
                        return None;
                    },
                }
                j = j + 1;
            }
            proof {
                assert(row.take(n - i - 1) =~= row);
                assert(pair_rows(keys, i + 1) =~= done + row);
            }
            i = i + 1;
        }
        Some(true)
    }

    /// Chooses parent pairs greedily, most generated kinds first.
    ///
    /// For each pair of distinct pals (in table order) it breeds, generation after
    /// generation, until a generation brings no new kind; the kinds of the generation
    /// before are what the pair generates. Then, while some pair generates something,
    /// it takes the first pair that generates the most kinds, records it with that
    /// number, and strikes those kinds out of every pair. The pals of the recorded
    /// pairs make the compact set.
    #[verifier::rlimit(40)]
    pub fn find_compact(&self) -> (r: CompactReport)
        requires
            self@.all_breedable(),
            all_closures_end(self@),
        ensures
            steps_view(r.steps@) == compact_steps(self@),
            name_set(r.compact@) == compact_names(compact_steps(self@)),
            name_list(r.compact@).no_duplicates(),
            forall|k: int| 0 <= k < r.steps@.len() ==> (#[trigger] r.steps@[k]).1 > 0,
            forall|k: int| 0 <= k < r.steps@.len() - 1 ==> (#[trigger] r.steps@[k]).1 >= r.steps@[k + 1].1,
            count_sum(steps_view(r.steps@)) == union_of(generated_sets(self@)).len(),
            forall|x: Seq<char>|
                union_of(generated_sets(self@)).contains(x) ==> exists|k: int, i: int|
                    0 <= k < r.steps@.len() && 0 <= i < generated_sets(self@).len() && (
                    #[trigger] generated_sets(self@)[i]).0 == (#[trigger] steps_view(r.steps@)[k]).0
                        && generated_sets(self@)[i].1.contains(x),
            r.steps@.len() > 0 ==> forall|i: int|
                0 <= i < generated_sets(self@).len() ==> (#[trigger] generated_sets(self@)[i]).1.len()
                    <= r.steps@[0].1,
            r.steps@.len() > 0 <==> self@.values.len() >= 2,
            forall|k: int|
                0 <= k < r.steps@.len() ==> self@.has_pal((#[trigger] r.steps@[k]).0.0@) && self@.has_pal(
                    r.steps@[k].0.1@,
                ) && r.steps@[k].0.0@ != r.steps@[k].0.1@,
            forall|k1: int, k2: int|
                0 <= k1 < k2 < r.steps@.len() ==> (#[trigger] steps_view(r.steps@)[k1]).0 != (
                #[trigger] steps_view(r.steps@)[k2]).0,
            forall|k: int|
                0 <= k < r.steps@.len() ==> (#[trigger] steps_view(r.steps@)[k]).1 == generated(
                    self@,
                    steps_view(r.steps@)[k].0.0,
                    steps_view(r.steps@)[k].0.1,
                ).difference(taken_before(self@, steps_view(r.steps@), k)).len(),
    {
        self.tables_are_wf();
        let ghost d = self@;
        let ghost keys = pal_names(d);
        let ghost rows = pair_rows(keys, keys.len() as int);
        let n = self.pal_count();
        let mut gs: Vec<((String, String), Vec<String>)> = Vec::new();
        assert(gen_view(gs@) =~= pair_rows(keys, 0).map_values(
            |pq: (Seq<char>, Seq<char>)| (pq, generated(d, pq.0, pq.1)),
        ));
        let mut i: usize = 0;
        while i < n
            invariant
                d == self@,
                d.wf(),
                d.all_breedable(),
                all_closures_end(d),
                keys == pal_names(d),
                rows == pair_rows(keys, keys.len() as int),
                n == keys.len(),
                i <= n,
                lists_ok(gs@),
                gen_view(gs@) == pair_rows(keys, i as int).map_values(
                    |pq: (Seq<char>, Seq<char>)| (pq, generated(d, pq.0, pq.1)),
                ),
            decreases n - i,
        {
            let ghost row = keys.skip(i + 1).map_values(|q: Seq<char>| (keys[i as int], q));
            let ghost done = pair_rows(keys, i as int);
            let mut j: usize = i + 1;
            while j < n
                invariant
                    d == self@,
                    d.wf(),
                    d.all_breedable(),
                    all_closures_end(d),
                    keys == pal_names(d),
                    rows == pair_rows(keys, keys.len() as int),
                    n == keys.len(),
                    i < n,
                    i + 1 <= j <= n,
                    row == keys.skip(i + 1).map_values(|q: Seq<char>| (keys[i as int], q)),
                    done == pair_rows(keys, i as int),
                    lists_ok(gs@),
                    gen_view(gs@) == (done + row.take(j - i - 1)).map_values(
                        |pq: (Seq<char>, Seq<char>)| (pq, generated(d, pq.0, pq.1)),
                    ),
                decreases n - j,
            {
                let ghost prefix = done + row.take(j - i - 1);
                let p = self.pal_name(i);
                let q = self.pal_name(j);
                proof {
                    assert(row[j - i - 1] == (keys[i as int], keys[j as int]));
                    assert(done + row.take(j - i) =~= prefix.push((keys[i as int], keys[j as int])));
                    assert(keys[i as int] == d.values[i as int].0);
                    assert(keys[j as int] == d.values[j as int].0);
                    lemma_name_index_unique(d.values, i as int);
                    lemma_name_index_unique(d.values, j as int);
                    let rest = lemma_pair_rows_extend(keys, i + 1, n as int);
                    assert(pair_rows(keys, i + 1) =~= done + row);
                    let t = done.len() + (j - i - 1);
                    assert(rows[t] == (keys[i as int], keys[j as int]));
                }
                let set = generated_by(self, p, q);
                let entry = ((p.clone(), q.clone()), set);
                let ghost before = gs@;
                proof {
                    lemma_list_len(entry.1@);
                }
                gs.push(entry);
                proof {
                    let x = (keys[i as int], keys[j as int]);
                    assert(gen_view(gs@) =~= gen_view(before).push((x, generated(d, x.0, x.1))));
                    assert(prefix.push(x).map_values(
                        |pq: (Seq<char>, Seq<char>)| (pq, generated(d, pq.0, pq.1)),
                    ) =~= prefix.map_values(
                        |pq: (Seq<char>, Seq<char>)| (pq, generated(d, pq.0, pq.1)),
                    ).push((x, generated(d, x.0, x.1))));
                    assert(gen_view(gs@) =~= (done + row.take(j - i)).map_values(
                        |pq: (Seq<char>, Seq<char>)| (pq, generated(d, pq.0, pq.1)),
                    ));
                    assert forall|t: int|
                        0 <= t < gs@.len() implies name_list((#[trigger] gs@[t]).1@).no_duplicates()
                        && gen_view(gs@)[t].1.len() == gs@[t].1@.len() && gen_view(gs@)[t].1.finite() by {
                        if t < before.len() {
                            assert(gs@[t] == before[t]);
                            assert(gen_view(gs@)[t] == gen_view(before)[t]);
                        }
                    }
                }
                j = j + 1;
            }
            proof {
                assert(row.take(n - i - 1) =~= row);
                assert(pair_rows(keys, i + 1) =~= done + row);
            }
            i = i + 1;
        }
        let ghost g0 = gen_view(gs@);
        assert(g0 == generated_sets(d));
        let ghost total = g0.len();
        proof {
            assert forall|j: int| 0 <= j < g0.len() implies (#[trigger] g0[j]).1.finite() by {
                assert(gen_view(gs@)[j].1.finite());
            }
            let mx = lemma_max_size(g0);
            lemma_greedy_counts(g0, total, mx);
            lemma_compact_facts(d, g0);
            lemma_step_counts(d);
        }
        let mut steps: Vec<((String, String), usize)> = Vec::new();
        let mut compact: Vec<String> = Vec::new();
        let ghost mut t: nat = 0;
        proof {
            assert(steps_view(steps@) =~= Seq::<((Seq<char>, Seq<char>), nat)>::empty());
            assert(name_list(compact@) =~= Seq::<Seq<char>>::empty());
            assert(name_set(compact@) =~= compact_names(steps_view(steps@)));
            assert(steps_view(steps@) + greedy(g0, total) =~= greedy(g0, total));
            assert(nonempty_count(g0) <= g0.len()) by {
                lemma_count_bound(g0);
            }
        }
        loop
            invariant
                lists_ok(gs@),
                g0 == generated_sets(d),
                total == g0.len(),
                t <= total,
                nonempty_count(gen_view(gs@)) + t <= total,
                steps_view(steps@) + greedy(gen_view(gs@), (total - t) as nat) == greedy(g0, total),
                name_list(compact@).no_duplicates(),
                name_set(compact@) == compact_names(steps_view(steps@)),
            ensures
                steps_view(steps@) == greedy(g0, total),
                name_list(compact@).no_duplicates(),
                name_set(compact@) == compact_names(steps_view(steps@)),
            decreases total - t,
        {
            let ghost g = gen_view(gs@);
            let (bi, bn) = best_pair(&gs);
            if bn == 0 {
                assert(greedy(g, (total - t) as nat) =~= Seq::<((Seq<char>, Seq<char>), nat)>::empty());
                assert(steps_view(steps@) =~= steps_view(steps@) + greedy(g, (total - t) as nat));
                break;
            }
            proof {
                lemma_count_positive(g, bi as int);
                let c = choose|c: int| is_best(g, c);
                lemma_best_unique(g, bi as int, c);
                lemma_strip_count(g, g[bi as int].1, bi as int);
            }
            let p = gs[bi].0.0.clone();
            let q = gs[bi].0.1.clone();
            let ghost step = ((p@, q@), bn as nat);
            let ghost before_steps = steps_view(steps@);
            steps.push(((p.clone(), q.clone()), bn));
            let ghost before_set = name_set(compact@);
            add_name(&mut compact, p);
            add_name(&mut compact, q);
            let remove = gs[bi].1.clone();
            let next = strip_all(&gs, &remove);
            proof {
                assert(steps_view(steps@) =~= before_steps.push(step));
                assert(name_set(remove@) == g[bi as int].1);
                assert(greedy(g, (total - t) as nat) == seq![step] + greedy(
                    gen_view(next@),
                    (total - t - 1) as nat,
                ));
                assert(steps_view(steps@) + greedy(gen_view(next@), (total - t - 1) as nat) =~= before_steps
                    + greedy(g, (total - t) as nat));
                assert forall|k: Seq<char>|
                    name_set(compact@).contains(k) <==> compact_names(steps_view(steps@)).contains(k) by {
                    let sv = steps_view(steps@);
                    if k == step.0.0 || k == step.0.1 {
                        assert(sv[sv.len() - 1] == step);
                    } else if compact_names(sv).contains(k) {
                        let i = choose|i: int|
                            0 <= i < sv.len() && ((#[trigger] sv[i]).0.0 == k || sv[i].0.1 == k);
                        if i < sv.len() - 1 {
                            assert(sv[i] == before_steps[i]);
                        }
                    } else if before_set.contains(k) {
                        let i = choose|i: int|
                            0 <= i < before_steps.len() && ((#[trigger] before_steps[i]).0.0 == k
                                || before_steps[i].0.1 == k);
                        assert(sv[i] == before_steps[i]);
                    }
                }
                assert(name_set(compact@) =~= compact_names(steps_view(steps@)));
                t = t + 1;
            }
            gs = next;
        }
        proof {
            let sv = steps_view(steps@);
            assert forall|k: int|
                0 <= k < steps@.len() implies d.has_pal((#[trigger] steps@[k]).0.0@) && d.has_pal(
                steps@[k].0.1@,
            ) && steps@[k].0.0@ != steps@[k].0.1@ by {
                assert(sv[k].0 == (steps@[k].0.0@, steps@[k].0.1@));
            }
            assert forall|k: int| 0 <= k < steps@.len() implies (#[trigger] steps@[k]).1 > 0 by {
                assert(sv[k].1 == steps@[k].1 as nat);
            }
            assert forall|k: int| 0 <= k < steps@.len() - 1 implies (#[trigger] steps@[k]).1 >= steps@[k
                + 1].1 by {
                assert(sv[k].1 == steps@[k].1 as nat);
                assert(sv[k + 1].1 == steps@[k + 1].1 as nat);
            }
        }
        CompactReport { steps, compact }
    }
}

/// Every greedy count is positive, at most any bound on the sizes, and no count is
/// larger than the one before it.
proof fn lemma_greedy_counts(gs: Seq<((Seq<char>, Seq<char>), Set<Seq<char>>)>, fuel: nat, m: nat)
    requires
        forall|j: int| 0 <= j < gs.len() ==> (#[trigger] gs[j]).1.finite(),
        forall|j: int| 0 <= j < gs.len() ==> (#[trigger] gs[j]).1.len() <= m,
    ensures
        forall|k: int| 0 <= k < greedy(gs, fuel).len() ==> 0 < (#[trigger] greedy(gs, fuel)[k]).1 <= m,
        forall|k: int|
            0 <= k < greedy(gs, fuel).len() - 1 ==> (#[trigger] greedy(gs, fuel)[k]).1 >= greedy(
                gs,
                fuel,
            )[k + 1].1,
    decreases fuel,
{
    if fuel > 0 && exists|i: int| is_best(gs, i) {
        let i = choose|i: int| is_best(gs, i);
        let n = gs[i].1.len();
        let st = strip(gs, gs[i].1);
        assert forall|j: int| 0 <= j < st.len() implies (#[trigger] st[j]).1.finite() && st[j].1.len()
            <= n by {
            assert(gs[j].1.finite());
            vstd::set_lib::lemma_len_subset(gs[j].1.difference(gs[i].1), gs[j].1);
        }
        lemma_greedy_counts(st, (fuel - 1) as nat, n);
        let g = greedy(gs, fuel);
        let rest = greedy(st, (fuel - 1) as nat);
        assert(g == seq![(gs[i].0, n)] + rest);
        assert forall|k: int| 0 <= k < g.len() implies 0 < (#[trigger] g[k]).1 <= m by {
            if k > 0 {
                assert(g[k] == rest[k - 1]);
            }
        }
        assert forall|k: int| 0 <= k < g.len() - 1 implies (#[trigger] g[k]).1 >= g[k + 1].1 by {
            assert(g[k + 1] == rest[k]);
            if k > 0 {
                assert(g[k] == rest[k - 1]);
            }
        }
    }
}

/// Some number bounds the sizes of all the sets.
proof fn lemma_max_size(gs: Seq<((Seq<char>, Seq<char>), Set<Seq<char>>)>) -> (m: nat)
    ensures
        forall|j: int| 0 <= j < gs.len() ==> (#[trigger] gs[j]).1.len() <= m,
    decreases gs.len(),
{
    if gs.len() == 0 {
        0
    } else {
        let m0 = lemma_max_size(gs.drop_last());
        let m = if m0 < gs.last().1.len() {
            gs.last().1.len()
        } else {
            m0
        };
        assert forall|j: int| 0 <= j < gs.len() implies (#[trigger] gs[j]).1.len() <= m by {
            if j < gs.len() - 1 {
                assert(gs[j] == gs.drop_last()[j]);
            }
        }
        m
    }
}

/// All the kinds that the pairs of `gs` generate.
pub open spec fn union_of(gs: Seq<((Seq<char>, Seq<char>), Set<Seq<char>>)>) -> Set<Seq<char>>
    decreases gs.len(),
{
    if gs.len() == 0 {
        Set::empty()
    } else {
        union_of(gs.drop_last()).union(gs.last().1)
    }
}

/// The sum of the counts of the steps.
pub open spec fn count_sum(steps: Seq<((Seq<char>, Seq<char>), nat)>) -> nat
    decreases steps.len(),
{
    if steps.len() == 0 {
        0
    } else {
        count_sum(steps.drop_last()) + steps.last().1
    }
}

/// A kind is in the union exactly when some pair generates it.
proof fn lemma_union_contains(gs: Seq<((Seq<char>, Seq<char>), Set<Seq<char>>)>, x: Seq<char>)
    ensures
        union_of(gs).contains(x) <==> exists|i: int| 0 <= i < gs.len() && (#[trigger] gs[i]).1.contains(x),
    decreases gs.len(),
{
    if gs.len() > 0 {
        lemma_union_contains(gs.drop_last(), x);
        if exists|i: int| 0 <= i < gs.len() && (#[trigger] gs[i]).1.contains(x) {
            let i = choose|i: int| 0 <= i < gs.len() && (#[trigger] gs[i]).1.contains(x);
            if i < gs.len() - 1 {
                assert(gs.drop_last()[i] == gs[i]);
            }
        }
        if union_of(gs.drop_last()).contains(x) {
            let i = choose|i: int|
                0 <= i < gs.drop_last().len() && (#[trigger] gs.drop_last()[i]).1.contains(x);
            assert(gs[i] == gs.drop_last()[i]);
        }
    }
}

/// The union of finitely many finite sets is finite.
proof fn lemma_union_finite(gs: Seq<((Seq<char>, Seq<char>), Set<Seq<char>>)>)
    requires
        forall|j: int| 0 <= j < gs.len() ==> (#[trigger] gs[j]).1.finite(),
    ensures
        union_of(gs).finite(),
    decreases gs.len(),
{
    if gs.len() > 0 {
        lemma_union_finite(gs.drop_last());
        assert(gs.last().1.finite());
    }
}

/// Striking kinds out of every pair strikes them out of the union.
proof fn lemma_union_strip(gs: Seq<((Seq<char>, Seq<char>), Set<Seq<char>>)>, s: Set<Seq<char>>)
    ensures
        union_of(strip(gs, s)) == union_of(gs).difference(s),
{
    assert forall|x: Seq<char>| union_of(strip(gs, s)).contains(x) <==> union_of(gs).difference(
        s,
    ).contains(x) by {
        lemma_union_contains(strip(gs, s), x);
        lemma_union_contains(gs, x);
        if union_of(gs).contains(x) && !s.contains(x) {
            let i = choose|i: int| 0 <= i < gs.len() && (#[trigger] gs[i]).1.contains(x);
            assert(strip(gs, s)[i].1.contains(x));
        }
        if union_of(strip(gs, s)).contains(x) {
            let i = choose|i: int|
                0 <= i < strip(gs, s).len() && (#[trigger] strip(gs, s)[i]).1.contains(x);
            assert(gs[i].1.contains(x));
        }
    }
    assert(union_of(strip(gs, s)) =~= union_of(gs).difference(s));
}

/// Some pair is best when some pair generates something.
proof fn lemma_best_exists(gs: Seq<((Seq<char>, Seq<char>), Set<Seq<char>>)>, i: int)
    requires
        0 <= i < gs.len(),
        gs[i].1.len() > 0,
    ensures
        exists|b: int| is_best(gs, b),
{
    let m = lemma_max_size(gs);
    let b = lemma_first_max(gs, gs.len() as int);
    assert(is_best(gs, b));
}

/// The first position whose size is the largest among the first `k`, or -1 when all
/// of them are empty.
proof fn lemma_first_max(gs: Seq<((Seq<char>, Seq<char>), Set<Seq<char>>)>, k: int) -> (b: int)
    requires
        0 <= k <= gs.len(),
    ensures
        b == -1 ==> forall|j: int| 0 <= j < k ==> (#[trigger] gs[j]).1.len() == 0,
        b != -1 ==> {
            &&& 0 <= b < k
            &&& gs[b].1.len() > 0
            &&& forall|j: int| 0 <= j < k ==> (#[trigger] gs[j]).1.len() <= gs[b].1.len()
            &&& forall|j: int| 0 <= j < b ==> (#[trigger] gs[j]).1.len() < gs[b].1.len()
        },
    decreases k,
{
    if k == 0 {
        -1
    } else {
        let b = lemma_first_max(gs, k - 1);
        let j = k - 1;
        if gs[j].1.len() > 0 && (b == -1 || gs[b].1.len() < gs[j].1.len()) {
            j
        } else {
            b
        }
    }
}

/// Each kind that some pair generates is counted by exactly one greedy step, and the
/// pairs chosen generate, between them, every such kind.
proof fn lemma_greedy_covers(gs: Seq<((Seq<char>, Seq<char>), Set<Seq<char>>)>, fuel: nat)
    requires
        forall|j: int| 0 <= j < gs.len() ==> (#[trigger] gs[j]).1.finite(),
        nonempty_count(gs) <= fuel,
    ensures
        count_sum(greedy(gs, fuel)) == union_of(gs).len(),
        forall|x: Seq<char>|
            union_of(gs).contains(x) ==> exists|k: int, i: int|
                0 <= k < greedy(gs, fuel).len() && 0 <= i < gs.len() && (#[trigger] gs[i]).0
                    == (#[trigger] greedy(gs, fuel)[k]).0 && gs[i].1.contains(x),
    decreases fuel,
{
    lemma_union_finite(gs);
    if fuel > 0 && exists|i: int| is_best(gs, i) {
        let i = choose|i: int| is_best(gs, i);
        let si = gs[i].1;
        let st = strip(gs, si);
        assert forall|j: int| 0 <= j < st.len() implies (#[trigger] st[j]).1.finite() by {
            assert(gs[j].1.finite());
        }
        lemma_strip_count(gs, si, i);
        lemma_greedy_covers(st, (fuel - 1) as nat);
        let g = greedy(gs, fuel);
        let rest = greedy(st, (fuel - 1) as nat);
        assert(g == seq![(gs[i].0, si.len())] + rest);
        lemma_union_strip(gs, si);
        let u = union_of(gs);
        assert(si.subset_of(u)) by {
            assert forall|x: Seq<char>| si.contains(x) implies u.contains(x) by {
                lemma_union_contains(gs, x);
            }
        }
        vstd::set_lib::lemma_set_difference_len(u, si);
        assert(u.intersect(si) =~= si);
        assert(count_sum(g) == count_sum(rest) + si.len()) by {
            lemma_count_sum_prepend((gs[i].0, si.len()), rest);
        }
        assert forall|x: Seq<char>| u.contains(x) implies exists|k: int, j: int|
            0 <= k < g.len() && 0 <= j < gs.len() && (#[trigger] gs[j]).0 == (#[trigger] g[k]).0
                && gs[j].1.contains(x) by {
            if si.contains(x) {
                assert(gs[i].0 == g[0].0);
            } else {
                assert(union_of(st).contains(x));
                let (k, j) = choose|k: int, j: int|
                    0 <= k < rest.len() && 0 <= j < st.len() && (#[trigger] st[j]).0 == (
                    #[trigger] rest[k]).0 && st[j].1.contains(x);
                assert(g[k + 1] == rest[k]);
                assert(gs[j].0 == g[k + 1].0);
            }
        }
    } else {
        assert forall|j: int| 0 <= j < gs.len() implies (#[trigger] gs[j]).1.len() == 0 by {
            if gs[j].1.len() > 0 {
                lemma_count_positive(gs, j);
                lemma_best_exists(gs, j);
            }
        }
        assert forall|x: Seq<char>| !union_of(gs).contains(x) by {
            lemma_union_contains(gs, x);
            if union_of(gs).contains(x) {
                let j = choose|j: int| 0 <= j < gs.len() && (#[trigger] gs[j]).1.contains(x);
                assert(gs[j].1.finite());
                vstd::set_lib::lemma_set_empty_equivalency_len(gs[j].1);
            }
        }
        assert(union_of(gs) =~= Set::<Seq<char>>::empty());
    }
}

/// The count sum of a step followed by more steps.
proof fn lemma_count_sum_prepend(
    step: ((Seq<char>, Seq<char>), nat),
    rest: Seq<((Seq<char>, Seq<char>), nat)>,
)
    ensures
        count_sum(seq![step] + rest) == step.1 + count_sum(rest),
    decreases rest.len(),
{
    if rest.len() == 0 {
        assert(seq![step] + rest =~= seq![step]);
        assert(seq![step].drop_last() =~= Seq::<((Seq<char>, Seq<char>), nat)>::empty());
        assert(count_sum(seq![step].drop_last()) == 0);
        assert(seq![step].last() == step);
    } else {
        lemma_count_sum_prepend(step, rest.drop_last());
        assert((seq![step] + rest).drop_last() =~= seq![step] + rest.drop_last());
        assert((seq![step] + rest).last() == rest.last());
    }
}

/// Every state of the breeding from two pals holds something in both generations.
proof fn lemma_generated_nonempty(d: DataView, p: Seq<char>, q: Seq<char>, k: nat)
    ensures
        exists|x: Seq<char>| closure_state(d, p, q, k).0.contains(x),
        exists|y: Seq<char>| closure_state(d, p, q, k).1.contains(y),
    decreases k,
{
    if k == 0 {
        assert(closure_state(d, p, q, 0).0 == set![p, q]);
        assert(closure_state(d, p, q, 0).0.contains(p));
        assert(closure_state(d, p, q, 0).1.contains(d.child_name(p, q)));
    } else {
        lemma_generated_nonempty(d, p, q, (k - 1) as nat);
        let (a, b) = closure_state(d, p, q, (k - 1) as nat);
        let x = choose|x: Seq<char>| a.contains(x);
        let y = choose|y: Seq<char>| b.contains(y);
        assert(closure_state(d, p, q, k).0 == b);
        assert(closure_state(d, p, q, k).1 == breed_set(d, a, b));
        assert(closure_state(d, p, q, k).0.contains(y));
        assert(breed_set(d, a, b).contains(d.child_name(x, y)));
    }
}

/// `pq` is `(keys[i], keys[j])` for some `i < j` with `i < k`.
pub open spec fn key_pair(keys: Seq<Seq<char>>, pq: (Seq<char>, Seq<char>), k: int) -> bool {
    exists|i: int, j: int| 0 <= i < k && i < j < keys.len() && pq == (#[trigger] keys[i], #[trigger] keys[j])
}

/// The pairs of the first `k` rows are pairs of keys taken in order, each once.
proof fn lemma_pair_rows_shape(keys: Seq<Seq<char>>, k: int)
    requires
        0 <= k <= keys.len(),
        keys.no_duplicates(),
    ensures
        forall|t: int| 0 <= t < pair_rows(keys, k).len() ==> key_pair(keys, #[trigger] pair_rows(keys, k)[t], k),
        pair_rows(keys, k).no_duplicates(),
    decreases k,
{
    if k > 0 {
        lemma_pair_rows_shape(keys, k - 1);
        let prev = pair_rows(keys, k - 1);
        let row = keys.skip(k).map_values(|q: Seq<char>| (keys[k - 1], q));
        let all = pair_rows(keys, k);
        assert(all == prev + row);
        assert forall|t: int| 0 <= t < all.len() implies key_pair(keys, #[trigger] all[t], k) by {
            if t < prev.len() {
                assert(all[t] == prev[t]);
                assert(key_pair(keys, prev[t], k - 1));
                let (i, j) = choose|i: int, j: int|
                    0 <= i < k - 1 && i < j < keys.len() && prev[t] == (#[trigger] keys[i], #[trigger] keys[j]);
                assert(all[t] == (keys[i], keys[j]));
            } else {
                let u = t - prev.len();
                assert(all[t] == row[u]);
                assert(row[u] == (keys[k - 1], keys[k + u]));
            }
        }
        assert forall|t1: int, t2: int| 0 <= t1 < all.len() && 0 <= t2 < all.len() && t1 != t2 implies all[t1] != all[t2] by {
            if t1 < prev.len() && t2 < prev.len() {
                assert(all[t1] == prev[t1] && all[t2] == prev[t2]);
            } else if t1 >= prev.len() && t2 >= prev.len() {
                let u1 = t1 - prev.len();
                let u2 = t2 - prev.len();
                assert(all[t1] == (keys[k - 1], keys[k + u1]));
                assert(all[t2] == (keys[k - 1], keys[k + u2]));
            } else {
                let (tp, tr) = if t1 < prev.len() { (t1, t2) } else { (t2, t1) };
                assert(all[tp] == prev[tp]);
                assert(key_pair(keys, prev[tp], k - 1));
                let (i, j) = choose|i: int, j: int|
                    0 <= i < k - 1 && i < j < keys.len() && prev[tp] == (#[trigger] keys[i], #[trigger] keys[j]);
                let u = tr - prev.len();
                assert(all[tr] == (keys[k - 1], keys[k + u]));
                assert(keys[i] != keys[k - 1]);
            }
        }
    }
}

/// Each greedy step takes a pair of `gs` that still generates something, and no pair
/// is taken twice when the pairs of `gs` are all different.
proof fn lemma_greedy_pairs(gs: Seq<((Seq<char>, Seq<char>), Set<Seq<char>>)>, fuel: nat)
    requires
        forall|j: int| 0 <= j < gs.len() ==> (#[trigger] gs[j]).1.finite(),
        forall|i: int, j: int| 0 <= i < gs.len() && 0 <= j < gs.len() && i != j ==> (#[trigger] gs[i]).0 != (#[trigger] gs[j]).0,
    ensures
        forall|k: int| 0 <= k < greedy(gs, fuel).len() ==> exists|j: int|
            0 <= j < gs.len() && (#[trigger] gs[j]).0 == (#[trigger] greedy(gs, fuel)[k]).0 && gs[j].1.len() > 0,
        forall|k1: int, k2: int|
            0 <= k1 < k2 < greedy(gs, fuel).len() ==> (#[trigger] greedy(gs, fuel)[k1]).0 != (#[trigger] greedy(gs, fuel)[k2]).0,
    decreases fuel,
{
    if fuel > 0 && exists|i: int| is_best(gs, i) {
        let i = choose|i: int| is_best(gs, i);
        let si = gs[i].1;
        let st = strip(gs, si);
        assert forall|j: int| 0 <= j < st.len() implies (#[trigger] st[j]).1.finite() by {
            assert(gs[j].1.finite());
        }
        assert forall|a: int, b: int| 0 <= a < st.len() && 0 <= b < st.len() && a != b implies (#[trigger] st[a]).0 != (#[trigger] st[b]).0 by {
            assert(gs[a].0 != gs[b].0);
        }
        lemma_greedy_pairs(st, (fuel - 1) as nat);
        let g = greedy(gs, fuel);
        let rest = greedy(st, (fuel - 1) as nat);
        assert(g == seq![(gs[i].0, si.len())] + rest);
        assert(st[i].1 =~= Set::<Seq<char>>::empty());
        assert forall|k: int| 0 <= k < g.len() implies exists|j: int|
            0 <= j < gs.len() && (#[trigger] gs[j]).0 == (#[trigger] g[k]).0 && gs[j].1.len() > 0 by {
            if k == 0 {
                assert(gs[i].0 == g[0].0);
            } else {
                assert(g[k] == rest[k - 1]);
                let j = choose|j: int| 0 <= j < st.len() && (#[trigger] st[j]).0 == (#[trigger] rest[k - 1]).0 && st[j].1.len() > 0;
                assert(gs[j].1.finite());
                vstd::set_lib::lemma_len_subset(st[j].1, gs[j].1);
                assert(gs[j].0 == g[k].0);
            }
        }
        assert forall|k1: int, k2: int| 0 <= k1 < k2 < g.len() implies (#[trigger] g[k1]).0 != (#[trigger] g[k2]).0 by {
            assert(g[k2] == rest[k2 - 1]);
            if k1 == 0 {
                let j = choose|j: int| 0 <= j < st.len() && (#[trigger] st[j]).0 == (#[trigger] rest[k2 - 1]).0 && st[j].1.len() > 0;
                if j == i {
                    assert(st[i].1.len() == 0);
                }
                assert(gs[j].0 != gs[i].0);
            } else {
                assert(g[k1] == rest[k1 - 1]);
            }
        }
    }
}

/// The kinds that the chosen steps before step `k` generate.
pub open spec fn taken_before(d: DataView, steps: Seq<((Seq<char>, Seq<char>), nat)>, k: int) -> Set<
    Seq<char>,
> {
    Set::new(
        |x: Seq<char>|
            exists|t: int| 0 <= t < k && generated(d, (#[trigger] steps[t]).0.0, steps[t].0.1).contains(x),
    )
}

/// The kinds of the pairs of `base` chosen by the steps of `g` before step `k`.
spec fn chosen_before(
    base: Seq<((Seq<char>, Seq<char>), Set<Seq<char>>)>,
    g: Seq<((Seq<char>, Seq<char>), nat)>,
    k: int,
) -> Set<Seq<char>> {
    Set::new(
        |x: Seq<char>|
            exists|t: int, j: int|
                0 <= t < k && 0 <= j < base.len() && (#[trigger] base[j]).0 == (#[trigger] g[t]).0
                    && base[j].1.contains(x),
    )
}

/// Each greedy step over `base` with the kinds of `s` struck out counts the kinds of
/// its pair that are neither in `s` nor generated by a pair chosen before it.
#[verifier::spinoff_prover]
proof fn lemma_greedy_struck(
    base: Seq<((Seq<char>, Seq<char>), Set<Seq<char>>)>,
    s: Set<Seq<char>>,
    fuel: nat,
)
    requires
        forall|i: int, j: int|
            0 <= i < base.len() && 0 <= j < base.len() && i != j ==> (#[trigger] base[i]).0 != (
            #[trigger] base[j]).0,
    ensures
        forall|k: int|
            0 <= k < greedy(strip(base, s), fuel).len() ==> exists|j: int|
                0 <= j < base.len() && (#[trigger] base[j]).0 == (#[trigger] greedy(strip(base, s), fuel)[k]).0
                    && greedy(strip(base, s), fuel)[k].1 == base[j].1.difference(
                    s + chosen_before(base, greedy(strip(base, s), fuel), k),
                ).len(),
    decreases fuel,
{
    let gs = strip(base, s);
    if fuel > 0 && exists|i: int| is_best(gs, i) {
        let i = choose|i: int| is_best(gs, i);
        let si = gs[i].1;
        let st = strip(gs, si);
        let s2 = s + base[i].1;
        assert forall|j: int| 0 <= j < st.len() implies st[j] == strip(base, s2)[j] by {
            assert(st[j].1 =~= strip(base, s2)[j].1);
        }
        assert(st =~= strip(base, s2));
        lemma_greedy_struck(base, s2, (fuel - 1) as nat);
        let g = greedy(gs, fuel);
        let rest = greedy(st, (fuel - 1) as nat);
        assert(g == seq![(gs[i].0, si.len())] + rest);
        assert forall|k: int| 0 <= k < g.len() implies exists|j: int|
            0 <= j < base.len() && (#[trigger] base[j]).0 == (#[trigger] g[k]).0 && g[k].1
                == base[j].1.difference(s + chosen_before(base, g, k)).len() by {
            if k == 0 {
                assert(chosen_before(base, g, 0) =~= Set::<Seq<char>>::empty());
                assert(base[i].1.difference(s + chosen_before(base, g, 0)) =~= si);
                assert(base[i].0 == g[0].0);
            } else {
                assert(g[k] == rest[k - 1]);
                let j = choose|j: int|
                    0 <= j < base.len() && (#[trigger] base[j]).0 == (#[trigger] rest[k - 1]).0
                        && rest[k - 1].1 == base[j].1.difference(
                        s2 + chosen_before(base, rest, k - 1),
                    ).len();
                assert forall|x: Seq<char>| #[trigger] (s + chosen_before(base, g, k)).contains(x) <==> (s2
                    + chosen_before(base, rest, k - 1)).contains(x) by {
                    if chosen_before(base, g, k).contains(x) {
                        let (t, j2) = choose|t: int, j2: int|
                            0 <= t < k && 0 <= j2 < base.len() && (#[trigger] base[j2]).0 == (
                            #[trigger] g[t]).0 && base[j2].1.contains(x);
                        if t == 0 {
                            assert(base[j2].0 == base[i].0);
                            assert(j2 == i);
                        } else {
                            assert(g[t] == rest[t - 1]);
                            assert(chosen_before(base, rest, k - 1).contains(x));
                        }
                    }
                    if base[i].1.contains(x) {
                        assert(base[i].0 == g[0].0);
                        assert(chosen_before(base, g, k).contains(x));
                    }
                    if chosen_before(base, rest, k - 1).contains(x) {
                        let (t, j2) = choose|t: int, j2: int|
                            0 <= t < k - 1 && 0 <= j2 < base.len() && (#[trigger] base[j2]).0 == (
                            #[trigger] rest[t]).0 && base[j2].1.contains(x);
                        assert(g[t + 1] == rest[t]);
                        assert(chosen_before(base, g, k).contains(x));
                    }
                }
                assert(s + chosen_before(base, g, k) =~= s2 + chosen_before(base, rest, k - 1));
                assert(base[j].0 == g[k].0);
            }
        }
    }
}

/// Each step of the greedy choice for a database counts the kinds its pair generates
/// that no pair chosen before it generates.
#[verifier::spinoff_prover]
proof fn lemma_step_counts(d: DataView)
    requires
        d.wf(),
        forall|j: int|
            0 <= j < generated_sets(d).len() ==> (#[trigger] generated_sets(d)[j]).1.finite(),
    ensures
        forall|k: int|
            0 <= k < compact_steps(d).len() ==> (#[trigger] compact_steps(d)[k]).1 == generated(
                d,
                compact_steps(d)[k].0.0,
                compact_steps(d)[k].0.1,
            ).difference(taken_before(d, compact_steps(d), k)).len(),
{
    let g0 = generated_sets(d);
    let keys = pal_names(d);
    let n = keys.len();
    let rows = pair_rows(keys, n as int);
    assert(keys.no_duplicates()) by {
        assert forall|i: int, j: int| 0 <= i < keys.len() && 0 <= j < keys.len() && i != j implies keys[i]
            != keys[j] by {
            assert(keys[i] == d.values[i].0 && keys[j] == d.values[j].0);
        }
    }
    lemma_pair_rows_shape(keys, n as int);
    assert forall|i: int, j: int| 0 <= i < g0.len() && 0 <= j < g0.len() && i != j implies (
    #[trigger] g0[i]).0 != (#[trigger] g0[j]).0 by {
        assert(g0[i].0 == rows[i] && g0[j].0 == rows[j]);
    }
    let e = Set::<Seq<char>>::empty();
    assert forall|j: int| 0 <= j < g0.len() implies strip(g0, e)[j] == g0[j] by {
        assert(strip(g0, e)[j].1 =~= g0[j].1);
    }
    assert(strip(g0, e) =~= g0);
    lemma_greedy_struck(g0, e, g0.len());
    let g = compact_steps(d);
    assert forall|k: int| 0 <= k < g.len() implies (#[trigger] g[k]).1 == generated(
        d,
        g[k].0.0,
        g[k].0.1,
    ).difference(taken_before(d, g, k)).len() by {
        let j = choose|j: int|
            0 <= j < g0.len() && (#[trigger] g0[j]).0 == (#[trigger] g[k]).0 && g[k].1 == g0[j].1.difference(
                e + chosen_before(g0, g, k),
            ).len();
        assert(g0[j].1 == generated(d, g[k].0.0, g[k].0.1));
        assert forall|x: Seq<char>| #[trigger] (e + chosen_before(g0, g, k)).contains(x) <==> taken_before(
            d,
            g,
            k,
        ).contains(x) by {
            if chosen_before(g0, g, k).contains(x) {
                let (t, j2) = choose|t: int, j2: int|
                    0 <= t < k && 0 <= j2 < g0.len() && (#[trigger] g0[j2]).0 == (#[trigger] g[t]).0
                        && g0[j2].1.contains(x);
                assert(generated(d, g[t].0.0, g[t].0.1).contains(x));
            }
            if taken_before(d, g, k).contains(x) {
                let t = choose|t: int| 0 <= t < k && generated(d, (#[trigger] g[t]).0.0, g[t].0.1).contains(x);
                lemma_greedy_pairs(g0, g0.len());
                let j2 = choose|j2: int|
                    0 <= j2 < g0.len() && (#[trigger] g0[j2]).0 == (#[trigger] g[t]).0 && g0[j2].1.len() > 0;
                assert(g0[j2].1 == generated(d, g[t].0.0, g[t].0.1));
                assert(chosen_before(g0, g, k).contains(x));
            }
        }
        assert(e + chosen_before(g0, g, k) =~= taken_before(d, g, k));
    }
}

/// What the greedy choice for a database gives: the counts add up to the number of
/// kinds generated at all, the chosen pairs generate every such kind between them,
/// the first count is the largest any pair generates, and a choice is made exactly
/// when there are two pals.
proof fn lemma_compact_facts(d: DataView, g0: Seq<((Seq<char>, Seq<char>), Set<Seq<char>>)>)
    requires
        d.wf(),
        g0 == generated_sets(d),
        forall|j: int| 0 <= j < g0.len() ==> (#[trigger] g0[j]).1.finite(),
    ensures
        count_sum(compact_steps(d)) == union_of(g0).len(),
        forall|x: Seq<char>|
            union_of(g0).contains(x) ==> exists|k: int, i: int|
                0 <= k < compact_steps(d).len() && 0 <= i < g0.len() && (#[trigger] g0[i]).0 == (
                #[trigger] compact_steps(d)[k]).0 && g0[i].1.contains(x),
        compact_steps(d).len() > 0 ==> forall|i: int|
            0 <= i < g0.len() ==> (#[trigger] g0[i]).1.len() <= compact_steps(d)[0].1,
        compact_steps(d).len() > 0 <==> d.values.len() >= 2,
        forall|k: int|
            0 <= k < compact_steps(d).len() ==> d.has_pal((#[trigger] compact_steps(d)[k]).0.0)
                && d.has_pal(compact_steps(d)[k].0.1) && compact_steps(d)[k].0.0 != compact_steps(
                d,
            )[k].0.1,
        forall|k1: int, k2: int|
            0 <= k1 < k2 < compact_steps(d).len() ==> (#[trigger] compact_steps(d)[k1]).0 != (
            #[trigger] compact_steps(d)[k2]).0,
{
    let keys = pal_names(d);
    let n = keys.len();
    let total = g0.len();
    let rows = pair_rows(keys, n as int);
    assert(keys.no_duplicates()) by {
        assert forall|i: int, j: int| 0 <= i < keys.len() && 0 <= j < keys.len() && i != j implies keys[i] != keys[j] by {
            assert(keys[i] == d.values[i].0 && keys[j] == d.values[j].0);
        }
    }
    lemma_pair_rows_shape(keys, n as int);
    assert forall|i: int, j: int| 0 <= i < g0.len() && 0 <= j < g0.len() && i != j implies (#[trigger] g0[i]).0 != (#[trigger] g0[j]).0 by {
        assert(g0[i].0 == rows[i] && g0[j].0 == rows[j]);
    }
    lemma_greedy_pairs(g0, total);
    let g = compact_steps(d);
    assert forall|k: int| 0 <= k < g.len() implies d.has_pal((#[trigger] g[k]).0.0) && d.has_pal(g[k].0.1) && g[k].0.0 != g[k].0.1 by {
        let j = choose|j: int| 0 <= j < g0.len() && (#[trigger] g0[j]).0 == (#[trigger] g[k]).0 && g0[j].1.len() > 0;
        assert(g0[j].0 == rows[j]);
        assert(key_pair(keys, rows[j], n as int));
        let (a, b) = choose|a: int, b: int| 0 <= a < n && a < b < keys.len() && rows[j] == (#[trigger] keys[a], #[trigger] keys[b]);
        lemma_name_index_unique(d.values, a);
        lemma_name_index_unique(d.values, b);
        assert(keys[a] == d.values[a].0 && keys[b] == d.values[b].0);
    }
    lemma_count_bound(g0);
    lemma_greedy_covers(g0, total);
    if exists|b: int| is_best(g0, b) {
        let b = choose|b: int| is_best(g0, b);
        assert(greedy(g0, total)[0] == (g0[b].0, g0[b].1.len()));
    }
    assert(n == d.values.len());
    if n >= 2 {
        let rest = lemma_pair_rows_extend(keys, 1, n as int);
        assert(keys.skip(1).map_values(|q: Seq<char>| (keys[0], q)).len() >= 1);
        assert(pair_rows(keys, 1) =~= pair_rows(keys, 0) + keys.skip(1).map_values(
            |q: Seq<char>| (keys[0], q),
        ));
        assert(pair_rows(keys, n as int).len() >= 1);
        assert(g0.len() >= 1);
        let pq = pair_rows(keys, n as int)[0];
        assert(g0[0] == (pq, generated(d, pq.0, pq.1)));
        lemma_generated_nonempty(d, pq.0, pq.1, first_done(d, pq.0, pq.1));
        let x = choose|x: Seq<char>| g0[0].1.contains(x);
        vstd::set_lib::lemma_set_empty_equivalency_len(g0[0].1);
        assert(g0[0].1.len() > 0);
        lemma_best_exists(g0, 0);
    } else {
        assert(pair_rows(keys, 0).len() == 0);
        if n == 1 {
            assert(keys.skip(1).len() == 0);
            assert(pair_rows(keys, 1) =~= Seq::<(Seq<char>, Seq<char>)>::empty());
        }
        assert(pair_rows(keys, n as int).len() == 0);
        assert(!exists|b: int| is_best(g0, b));
    }
}

/// No more pairs generate something than there are pairs.
proof fn lemma_count_bound(gs: Seq<((Seq<char>, Seq<char>), Set<Seq<char>>)>)
    ensures
        nonempty_count(gs) <= gs.len(),
    decreases gs.len(),
{
    if gs.len() > 0 {
        lemma_count_bound(gs.drop_last());
    }
}

} // verus!
