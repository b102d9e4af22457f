//! The breeding database and the rule that gives the child of two parents.
use vstd::prelude::*;

use crate::table::{
    child_for, has_name, is_listed_child, lemma_name_index_unique, lemma_pair_index_unique,
    name_index, name_inserted,
    names_distinct, pair_index, pair_inserted, pairs_distinct, value_for, NameTable, PairTable,
};

verus! {

/// One row of the pal list: its id, its name and its breeding value.
#[derive(Debug, Clone)]
pub struct Record {
    pub id: i32,
    pub name: String,
    pub value: i32,
}

/// One row of the special-combination list: `parent1 x parent2 = child`.
#[derive(Debug, Clone)]
pub struct Special {
    pub parent1: String,
    pub parent2: String,
    pub child: String,
}

/// One row of the tie-break list: a smaller `order` wins a tie.
#[derive(Debug, Clone)]
pub struct TieBreakOrder {
    pub order: i32,
    pub name: String,
}

/// Why two parents could not be combined.
pub enum CombineError {
    /// The named pal is not in the database.
    PalNotFound(String),
}

impl CombineError {
    /// The message shown for this error.
    pub fn message(&self) -> (m: String)
        ensures
            match self {
                CombineError::PalNotFound(n) => m@ == "パルが見つからない!: "@ + n@,
            },
    {
        match self {
            CombineError::PalNotFound(n) => {
                let prefix = String::from_str("パルが見つからない!: ");
                prefix.concat(n.as_str())
            },
        }
    }
}

/// The mathematical content of a [`Data`]: its four tables, in insertion order.
pub struct DataView {
    pub values: Seq<(Seq<char>, i32)>,
    pub ids: Seq<(Seq<char>, i32)>,
    pub specials: Seq<(Seq<char>, Seq<char>, Seq<char>)>,
    pub tiebreak: Seq<(Seq<char>, i32)>,
}

/// `|x|` on integers.
pub open spec fn abs(x: int) -> int {
    if x < 0 {
        -x
    } else {
        x
    }
}

/// Half of `sum` with the fraction dropped (rounded toward zero).
pub open spec fn half(sum: int) -> int {
    if sum >= 0 {
        sum / 2
    } else {
        -((-sum) / 2)
    }
}

impl DataView {
    /// No table holds a key twice.
    pub open spec fn wf(self) -> bool {
        &&& names_distinct(self.values)
        &&& names_distinct(self.ids)
        &&& pairs_distinct(self.specials)
        &&& names_distinct(self.tiebreak)
    }

    /// The breeding value of the pal `k`.
    pub open spec fn value_of(self, k: Seq<char>) -> Option<i32> {
        value_for(self.values, k)
    }

    /// Whether `k` is a pal of the database.
    pub open spec fn has_pal(self, k: Seq<char>) -> bool {
        has_name(self.values, k)
    }

    /// The child listed as special for the ordered pair `(a, b)`.
    pub open spec fn special_child(self, a: Seq<char>, b: Seq<char>) -> Option<Seq<char>> {
        child_for(self.specials, a, b)
    }

    /// The pal at position `i` can come out of an ordinary (non-special) combination:
    /// it is not the child of any special combination.
    pub open spec fn is_candidate(self, i: int) -> bool {
        0 <= i < self.values.len() && !is_listed_child(self.specials, self.values[i].0)
    }

    /// The distance of the value of the pal at `i` from the parents' mean
    /// `half(sum)`, whose fraction is dropped.
    pub open spec fn distance(self, i: int, sum: int) -> int {
        abs(self.values[i].1 - half(sum))
    }

    /// The tie-break rank of the pal at `i`.
    pub open spec fn rank(self, i: int) -> int {
        value_for(self.tiebreak, self.values[i].0).unwrap() as int
    }

    /// The pal at `i` is strictly preferred to the pal at `j` for the parent sum `sum`:
    /// nearer to the mean, or as near and of smaller tie-break rank.
    pub open spec fn beats(self, i: int, j: int, sum: int) -> bool {
        ||| self.distance(i, sum) < self.distance(j, sum)
        ||| (self.distance(i, sum) == self.distance(j, sum) && self.rank(i) < self.rank(j))
    }

    /// The pal at `i` is the first candidate that no candidate beats.
    pub open spec fn is_nearest(self, sum: int, i: int) -> bool {
        &&& self.is_candidate(i)
        &&& forall|j: int| #[trigger] self.is_candidate(j) ==> !self.beats(j, i, sum)
        &&& forall|j: int| #[trigger] self.is_candidate(j) && j < i ==> self.beats(i, j, sum)
    }

    /// The position of the ordinary child for the parent sum `sum`.
    pub open spec fn nearest(self, sum: int) -> int {
        choose|i: int| self.is_nearest(sum, i)
    }

    /// The ordinary rule can be applied to the parent sum `sum` without failing:
    /// the sum fits in 32 bits, some candidate exists and each candidate has an id
    /// and a tie-break rank.
    pub open spec fn ordinary_ok(self, sum: int) -> bool {
        &&& i32::MIN <= sum <= i32::MAX
        &&& exists|i: int| #[trigger] self.is_candidate(i)
        &&& forall|i: int| #[trigger]
            self.is_candidate(i) ==> has_name(self.ids, self.values[i].0) && has_name(
                self.tiebreak,
                self.values[i].0,
            )
    }

    /// Combining `a` and `b` does not fail outright: every table entry it reads is there.
    pub open spec fn can_combine(self, a: Seq<char>, b: Seq<char>) -> bool {
        match (self.value_of(a), self.value_of(b)) {
            (Some(va), Some(vb)) => a == b || match self.special_child(a, b) {
                Some(c) => self.has_pal(c),
                None => match self.special_child(b, a) {
                    Some(c) => self.has_pal(c),
                    None => self.ordinary_ok(va + vb),
                },
            },
            _ => true,
        }
    }

    /// The child of `a` and `b` with its value, or the name of the parent that is missing.
    ///
    /// Equal parents give themselves; a pair listed as special (in either order, the
    /// given order first) gives its listed child; otherwise the child is the first
    /// candidate whose value is nearest to the mean of the parents' values (its
    /// fraction dropped), ties going to the smaller tie-break rank.
    pub open spec fn combined(self, a: Seq<char>, b: Seq<char>) -> Result<(Seq<char>, i32), Seq<char>> {
        match self.value_of(a) {
            None => Err(a),
            Some(va) => match self.value_of(b) {
                None => Err(b),
                Some(vb) => if a == b {
                    Ok((a, va))
                } else {
                    match self.special_child(a, b) {
                        Some(c) => Ok((c, self.value_of(c).unwrap())),
                        None => match self.special_child(b, a) {
                            Some(c) => Ok((c, self.value_of(c).unwrap())),
                            None => {
                                let i = self.nearest(va + vb);
                                Ok((self.values[i].0, self.values[i].1))
                            },
                        },
                    }
                },
            },
        }
    }

    /// The name of the child of `a` and `b` (meaningful when both are pals).
    pub open spec fn child_name(self, a: Seq<char>, b: Seq<char>) -> Seq<char> {
        self.combined(a, b)->Ok_0.0
    }

    /// Any two pals can be bred without reading an absent entry: whatever pair of
    /// pals the rule is applied to, the special child it reads is a pal, or else
    /// the parents' values add up within 32 bits and the ordinary candidates exist
    /// and have an id and a tie-break rank.
    #[verifier::opaque]
    pub open spec fn all_breedable(self) -> bool {
        forall|a: Seq<char>, b: Seq<char>|
            self.has_pal(a) && self.has_pal(b) ==> #[trigger] self.can_combine(a, b)
    }
}

/// At most one position is the nearest candidate.
pub proof fn lemma_nearest_unique(d: DataView, sum: int, i: int, j: int)
    requires
        d.is_nearest(sum, i),
        d.is_nearest(sum, j),
    ensures
        i == j,
{
    if i < j {
        assert(d.is_candidate(i));
    } else if j < i {
        assert(d.is_candidate(j));
    }
}

/// When combining reads only entries that are there and succeeds, both parents and
/// the child are pals, and the child comes with its own value.
pub proof fn lemma_combined_is_pal(d: DataView, a: Seq<char>, b: Seq<char>)
    requires
        d.wf(),
        d.can_combine(a, b),
        d.combined(a, b) is Ok,
    ensures
        d.has_pal(a),
        d.has_pal(b),
        d.has_pal(d.child_name(a, b)),
        d.value_of(d.child_name(a, b)) == Some(d.combined(a, b)->Ok_0.1),
{
    if a == b {
    } else if d.special_child(a, b) is Some {
        let c = d.special_child(a, b)->Some_0;
        lemma_name_index_unique(d.values, name_index(d.values, c));
    } else if d.special_child(b, a) is Some {
        let c = d.special_child(b, a)->Some_0;
        lemma_name_index_unique(d.values, name_index(d.values, c));
    } else {
        let sum = d.value_of(a)->Some_0 + d.value_of(b)->Some_0;
        let c = choose|i: int| #[trigger] d.is_candidate(i);
        lemma_nearest_exists(d, sum, c);
        lemma_name_index_unique(d.values, d.nearest(sum));
    }
}

/// Parents of the same kind give a child of that kind.
pub proof fn law_same_parents(d: DataView, a: Seq<char>)
    requires
        d.has_pal(a),
    ensures
        d.combined(a, a) == Ok::<(Seq<char>, i32), Seq<char>>((a, d.value_of(a).unwrap())),
{
}

/// A pair listed as special gives its listed child, whichever order the parents come in,
/// unless the reversed order is listed with a child of its own.
pub proof fn law_special_pair(d: DataView, a: Seq<char>, b: Seq<char>, c: Seq<char>)
    requires
        d.has_pal(a),
        d.has_pal(b),
        a != b,
        d.special_child(a, b) == Some(c),
        d.has_pal(c),
    ensures
        d.child_name(a, b) == c,
        d.special_child(b, a) is None ==> d.child_name(b, a) == c,
{
}

/// A parent that is not a pal is reported, the first parent before the second;
/// two pals always combine.
pub proof fn law_missing_parent(d: DataView, a: Seq<char>, b: Seq<char>)
    ensures
        !d.has_pal(a) ==> d.combined(a, b) == Err::<(Seq<char>, i32), Seq<char>>(a),
        d.has_pal(a) && !d.has_pal(b) ==> d.combined(a, b) == Err::<(Seq<char>, i32), Seq<char>>(b),
        d.has_pal(a) && d.has_pal(b) ==> d.combined(a, b) is Ok,
{
}

/// The order of the parents does not matter, unless both orders are listed as special
/// with different children.
pub proof fn law_combine_symmetric(d: DataView, a: Seq<char>, b: Seq<char>)
    requires
        d.has_pal(a),
        d.has_pal(b),
        !(d.special_child(a, b) is Some && d.special_child(b, a) is Some && d.special_child(a, b)
            != d.special_child(b, a)),
    ensures
        d.combined(a, b) == d.combined(b, a),
{
    if a != b && d.special_child(a, b) is None && d.special_child(b, a) is None {
        let va = d.value_of(a).unwrap();
        let vb = d.value_of(b).unwrap();
        assert(va + vb == vb + va);
    }
}

/// The ordinary child is not the child of any special combination, its value is as
/// near to the parents' mean (its fraction dropped) as any such pal's, and among the
/// equally near ones its tie-break rank is the smallest.
pub proof fn law_ordinary_child_nearest(d: DataView, a: Seq<char>, b: Seq<char>, j: int)
    requires
        d.wf(),
        d.has_pal(a),
        d.has_pal(b),
        a != b,
        d.special_child(a, b) is None,
        d.special_child(b, a) is None,
        d.can_combine(a, b),
        d.is_candidate(j),
    ensures
        ({
            let sum = d.value_of(a).unwrap() + d.value_of(b).unwrap();
            let i = d.nearest(sum);
            let mean = if sum >= 0 {
                sum / 2
            } else {
                -((-sum) / 2)
            };
            &&& 0 <= i < d.values.len()
            &&& d.combined(a, b) == Ok::<(Seq<char>, i32), Seq<char>>(
                (d.values[i].0, d.values[i].1),
            )
            &&& !is_listed_child(d.specials, d.child_name(a, b))
            &&& abs(d.values[i].1 - mean) <= abs(d.values[j].1 - mean)
            &&& abs(d.values[i].1 - mean) == abs(d.values[j].1 - mean) ==> value_for(
                d.tiebreak,
                d.values[i].0,
            ).unwrap() <= value_for(d.tiebreak, d.values[j].0).unwrap()
        }),
{
    let sum = d.value_of(a).unwrap() + d.value_of(b).unwrap();
    lemma_nearest_exists(d, sum, j);
    let i = d.nearest(sum);
    assert(d.is_candidate(j));
    assert(!d.beats(j, i, sum));
}

/// The two databases hold the same entries, perhaps in another order.
pub open spec fn same_entries(d1: DataView, d2: DataView) -> bool {
    &&& forall|k: Seq<char>|
        #![trigger value_for(d1.values, k)]
        #![trigger value_for(d2.values, k)]
        value_for(d1.values, k) == value_for(d2.values, k)
    &&& forall|k: Seq<char>|
        #![trigger has_name(d1.ids, k)]
        #![trigger has_name(d2.ids, k)]
        has_name(d1.ids, k) == has_name(d2.ids, k)
    &&& forall|k: Seq<char>|
        #![trigger value_for(d1.tiebreak, k)]
        #![trigger value_for(d2.tiebreak, k)]
        value_for(d1.tiebreak, k) == value_for(d2.tiebreak, k)
    &&& forall|a: Seq<char>, b: Seq<char>|
        #![trigger child_for(d1.specials, a, b)]
        #![trigger child_for(d2.specials, a, b)]
        child_for(d1.specials, a, b) == child_for(d2.specials, a, b)
}

/// No two ordinary candidates share a tie-break rank.
pub open spec fn ranks_distinct(d: DataView) -> bool {
    forall|i: int, j: int|
        #[trigger] d.is_candidate(i) && #[trigger] d.is_candidate(j) && i != j ==> d.rank(i) != d.rank(j)
}

/// A pal is a special child exactly when some ordered pair lists it.
proof fn lemma_listed_child(s: Seq<(Seq<char>, Seq<char>, Seq<char>)>, c: Seq<char>)
    requires
        pairs_distinct(s),
    ensures
        is_listed_child(s, c) <==> exists|a: Seq<char>, b: Seq<char>| #[trigger] child_for(s, a, b)
            == Some(c),
{
    if is_listed_child(s, c) {
        let i = choose|i: int| 0 <= i < s.len() && (#[trigger] s[i]).2 == c;
        lemma_pair_index_unique(s, i);
        assert(child_for(s, s[i].0, s[i].1) == Some(c));
    }
    if exists|a: Seq<char>, b: Seq<char>| #[trigger] child_for(s, a, b) == Some(c) {
        let (a, b) = choose|a: Seq<char>, b: Seq<char>| #[trigger] child_for(s, a, b) == Some(c);
        let i = pair_index(s, a, b);
        assert(s[i].2 == c);
    }
}

/// The candidate at `i` of `d1` is a candidate of `d2` with the same entry and rank.
proof fn lemma_same_candidate(d1: DataView, d2: DataView, i: int) -> (j: int)
    requires
        d1.wf(),
        d2.wf(),
        same_entries(d1, d2),
        d1.is_candidate(i),
    ensures
        d2.is_candidate(j),
        d2.values[j] == d1.values[i],
        d2.rank(j) == d1.rank(i),
        has_name(d1.ids, d1.values[i].0) == has_name(d2.ids, d2.values[j].0),
        has_name(d1.tiebreak, d1.values[i].0) == has_name(d2.tiebreak, d2.values[j].0),
{
    let k = d1.values[i].0;
    lemma_name_index_unique(d1.values, i);
    assert(value_for(d2.values, k) == Some(d1.values[i].1));
    let j = name_index(d2.values, k);
    lemma_name_index_unique(d2.values, j);
    lemma_listed_child(d1.specials, k);
    lemma_listed_child(d2.specials, k);
    if is_listed_child(d2.specials, k) {
        let (a, b) = choose|a: Seq<char>, b: Seq<char>| #[trigger] child_for(d2.specials, a, b) == Some(k);
        assert(child_for(d1.specials, a, b) == Some(k));
    }
    assert(value_for(d1.tiebreak, k) == value_for(d2.tiebreak, k));
    assert(has_name(d1.ids, k) == has_name(d2.ids, k));
    assert(value_for(d1.tiebreak, k) is Some <==> has_name(d1.tiebreak, k));
    assert(value_for(d2.tiebreak, k) is Some <==> has_name(d2.tiebreak, k));
    j
}

/// When no two ordinary candidates share a tie-break rank, the child does not depend
/// on the order in which the tables list their entries.
pub proof fn law_combine_ignores_order(d1: DataView, d2: DataView, a: Seq<char>, b: Seq<char>)
    requires
        d1.wf(),
        d2.wf(),
        same_entries(d1, d2),
        ranks_distinct(d1),
        d1.can_combine(a, b),
    ensures
        d2.can_combine(a, b),
        d1.combined(a, b) == d2.combined(a, b),
{
    assert(same_entries(d2, d1));
    assert(d1.value_of(a) == d2.value_of(a));
    assert(d1.value_of(b) == d2.value_of(b));
    assert(d1.special_child(a, b) == d2.special_child(a, b));
    assert(d1.special_child(b, a) == d2.special_child(b, a));
    if d1.value_of(a) is Some && d1.value_of(b) is Some && a != b && d1.special_child(a, b) is None
        && d1.special_child(b, a) is None {
        let sum = d1.value_of(a).unwrap() + d1.value_of(b).unwrap();
        assert(d1.ordinary_ok(sum));
        let c1 = choose|i: int| #[trigger] d1.is_candidate(i);
        let c2 = lemma_same_candidate(d1, d2, c1);
        assert forall|j: int| #[trigger]
            d2.is_candidate(j) implies has_name(d2.ids, d2.values[j].0) && has_name(
            d2.tiebreak,
            d2.values[j].0,
        ) by {
            let i = lemma_same_candidate(d2, d1, j);
            assert(d1.is_candidate(i));
        }
        assert(d2.ordinary_ok(sum));
        lemma_nearest_exists(d1, sum, c1);
        lemma_nearest_exists(d2, sum, c2);
        let i1 = d1.nearest(sum);
        let i2 = d2.nearest(sum);
        let j1 = lemma_same_candidate(d1, d2, i1);
        let j2 = lemma_same_candidate(d2, d1, i2);
        assert(!d1.beats(j2, i1, sum));
        assert(!d2.beats(j1, i2, sum));
        assert(d1.rank(i1) == d1.rank(j2));
        assert(i1 == j2);
    }
}

/// The first candidate before `k` that no earlier candidate beats, or -1 if there is none.
proof fn lemma_prefix_best(d: DataView, sum: int, k: int) -> (b: int)
    requires
        0 <= k <= d.values.len(),
    ensures
        b == -1 ==> forall|j: int| 0 <= j < k ==> !#[trigger] d.is_candidate(j),
        b != -1 ==> {
            &&& 0 <= b < k
            &&& d.is_candidate(b)
            &&& forall|j: int| #[trigger] d.is_candidate(j) && j < k ==> !d.beats(j, b, sum)
            &&& forall|j: int| #[trigger] d.is_candidate(j) && j < b ==> d.beats(b, j, sum)
        },
    decreases k,
{
    if k == 0 {
        -1
    } else {
        let b = lemma_prefix_best(d, sum, k - 1);
        let j = k - 1;
        if d.is_candidate(j) && (b == -1 || d.beats(j, b, sum)) {
            j
        } else {
            b
        }
    }
}

/// Among candidates some one is nearest.
pub proof fn lemma_nearest_exists(d: DataView, sum: int, c: int)
    requires
        d.is_candidate(c),
    ensures
        d.is_nearest(sum, d.nearest(sum)),
{
    let b = lemma_prefix_best(d, sum, d.values.len() as int);
    assert(d.is_nearest(sum, b));
}

/// The pal names in table order.
pub open spec fn pal_names(d: DataView) -> Seq<Seq<char>> {
    d.values.map_values(|e: (Seq<char>, i32)| e.0)
}

/// The pairs `(keys[a], keys[b])` with `a < b`, for the first `i` values of `a`,
/// `a` varying slowest.
pub open spec fn pair_rows(keys: Seq<Seq<char>>, i: int) -> Seq<(Seq<char>, Seq<char>)>
    decreases i,
{
    if i <= 0 {
        Seq::empty()
    } else {
        pair_rows(keys, i - 1) + keys.skip(i).map_values(|q: Seq<char>| (keys[i - 1], q))
    }
}

/// Scans the pairs in order and keeps those whose child is `name`; stops at the
/// first pair whose combination would read an absent entry, with the pairs kept
/// until then.
pub open spec fn pattern_scan(d: DataView, name: Seq<char>, ps: Seq<(Seq<char>, Seq<char>)>) -> Result<
    Seq<(Seq<char>, Seq<char>)>,
    (Seq<(Seq<char>, Seq<char>)>, (Seq<char>, Seq<char>)),
>
    decreases ps.len(),
{
    if ps.len() == 0 {
        Ok(Seq::empty())
    } else {
        match pattern_scan(d, name, ps.drop_last()) {
            Err(e) => Err(e),
            Ok(found) => {
                let (p, q) = ps.last();
                if !d.can_combine(p, q) {
                    Err((found, (p, q)))
                } else if d.child_name(p, q) == name {
                    Ok(found.push((p, q)))
                } else {
                    Ok(found)
                }
            },
        }
    }
}

/// Once a scan has stopped, scanning more pairs does not change the outcome.
proof fn lemma_pattern_scan_stays(
    d: DataView,
    name: Seq<char>,
    a: Seq<(Seq<char>, Seq<char>)>,
    b: Seq<(Seq<char>, Seq<char>)>,
)
    requires
        pattern_scan(d, name, a) is Err,
    ensures
        pattern_scan(d, name, a + b) == pattern_scan(d, name, a),
    decreases b.len(),
{
    if b.len() == 0 {
        assert(a + b =~= a);
    } else {
        lemma_pattern_scan_stays(d, name, a, b.drop_last());
        assert((a + b).drop_last() =~= a + b.drop_last());
    }
}

/// The first `i` rows are a prefix of the first `k` rows.
pub proof fn lemma_pair_rows_extend(keys: Seq<Seq<char>>, i: int, k: int) -> (rest: Seq<(Seq<char>, Seq<char>)>)
    requires
        0 <= i <= k <= keys.len(),
    ensures
        pair_rows(keys, k) == pair_rows(keys, i) + rest,
    decreases k - i,
{
    if i == k {
        assert(pair_rows(keys, k) =~= pair_rows(keys, i) + Seq::<(Seq<char>, Seq<char>)>::empty());
        Seq::empty()
    } else {
        let rest = lemma_pair_rows_extend(keys, i, k - 1);
        let row = keys.skip(k).map_values(|q: Seq<char>| (keys[k - 1], q));
        assert(pair_rows(keys, k) =~= pair_rows(keys, i) + (rest + row));
        rest + row
    }
}

/// `v` lists the pair `(a, b)`.
pub open spec fn lists_pair(v: Seq<(String, String)>, a: Seq<char>, b: Seq<char>) -> bool {
    exists|k: int| 0 <= k < v.len() && (#[trigger] v[k]).0@ == a && v[k].1@ == b
}

/// The pals at `i` and `j` can be bred, and `v` lists their pair exactly when their
/// child is `name`.
pub open spec fn pair_outcome(d: DataView, v: Seq<(String, String)>, name: Seq<char>, i: int, j: int) -> bool {
    &&& d.can_combine(d.values[i].0, d.values[j].0)
    &&& (lists_pair(v, d.values[i].0, d.values[j].0) <==> d.child_name(d.values[i].0, d.values[j].0)
        == name)
}

/// The pals at `i` and `j` can be bred, and `v` lists their pair when their child is
/// `name`.
spec fn pair_checked(d: DataView, v: Seq<(String, String)>, name: Seq<char>, i: int, j: int) -> bool {
    &&& d.can_combine(d.values[i].0, d.values[j].0)
    &&& d.child_name(d.values[i].0, d.values[j].0) == name ==> lists_pair(
        v,
        d.values[i].0,
        d.values[j].0,
    )
}

/// Appending to a list keeps what it listed, and lists what was appended.
proof fn lemma_lists_pair_push(v: Seq<(String, String)>, x: (String, String))
    ensures
        forall|a: Seq<char>, b: Seq<char>| lists_pair(v, a, b) ==> #[trigger] lists_pair(v.push(x), a, b),
        lists_pair(v.push(x), x.0@, x.1@),
{
    assert forall|a: Seq<char>, b: Seq<char>| lists_pair(v, a, b) implies #[trigger] lists_pair(
        v.push(x),
        a,
        b,
    ) by {
        let k = choose|k: int| 0 <= k < v.len() && (#[trigger] v[k]).0@ == a && v[k].1@ == b;
        assert(v.push(x)[k] == v[k]);
    }
    assert(v.push(x)[v.len() as int] == x);
}

/// When every pair `v` lists has the child `name`, a checked pair is listed exactly
/// when its child is `name`.
proof fn lemma_checked_outcomes(d: DataView, v: Seq<(String, String)>, name: Seq<char>)
    requires
        forall|k: int| 0 <= k < v.len() ==> d.child_name((#[trigger] v[k]).0@, v[k].1@) == name,
    ensures
        forall|i: int, j: int| #[trigger] pair_checked(d, v, name, i, j) ==> pair_outcome(d, v, name, i, j),
{
    assert forall|i: int, j: int| #[trigger] pair_checked(d, v, name, i, j) implies pair_outcome(
        d,
        v,
        name,
        i,
        j,
    ) by {
        if lists_pair(v, d.values[i].0, d.values[j].0) {
            let k = choose|k: int|
                0 <= k < v.len() && (#[trigger] v[k]).0@ == d.values[i].0 && v[k].1@ == d.values[j].0;
            assert(d.child_name(v[k].0@, v[k].1@) == name);
        }
    }
}

/// The breeding database: pal values, ids, special combinations and tie-break ranks.
#[derive(Debug)]
pub struct Data {
    values: NameTable,
    ids: NameTable,
    specials: PairTable,
    tiebreak: NameTable,
}

impl Clone for Data {
    fn clone(&self) -> (c: Data)
        ensures
            c@ == self@,
    {
        Data {
            values: self.values.clone(),
            ids: self.ids.clone(),
            specials: self.specials.clone(),
            tiebreak: self.tiebreak.clone(),
        }
    }
}

impl View for Data {
    type V = DataView;

    closed spec fn view(&self) -> DataView {
        DataView {
            values: self.values@,
            ids: self.ids@,
            specials: self.specials@,
            tiebreak: self.tiebreak@,
        }
    }
}

/// The value table built from `records`, later rows replacing earlier ones of the same name.
pub open spec fn values_from(records: Seq<Record>) -> Seq<(Seq<char>, i32)>
    decreases records.len(),
{
    if records.len() == 0 {
        Seq::empty()
    } else {
        let r = records.last();
        name_inserted(values_from(records.drop_last()), r.name@, r.value)
    }
}

/// The id table built from `records`.
pub open spec fn ids_from(records: Seq<Record>) -> Seq<(Seq<char>, i32)>
    decreases records.len(),
{
    if records.len() == 0 {
        Seq::empty()
    } else {
        let r = records.last();
        name_inserted(ids_from(records.drop_last()), r.name@, r.id)
    }
}

/// The special-combination table built from `rows`.
pub open spec fn specials_from(rows: Seq<Special>) -> Seq<(Seq<char>, Seq<char>, Seq<char>)>
    decreases rows.len(),
{
    if rows.len() == 0 {
        Seq::empty()
    } else {
        let r = rows.last();
        pair_inserted(specials_from(rows.drop_last()), r.parent1@, r.parent2@, r.child@)
    }
}

/// The tie-break table built from `rows`.
pub open spec fn tiebreak_from(rows: Seq<TieBreakOrder>) -> Seq<(Seq<char>, i32)>
    decreases rows.len(),
{
    if rows.len() == 0 {
        Seq::empty()
    } else {
        let r = rows.last();
        name_inserted(tiebreak_from(rows.drop_last()), r.name@, r.order)
    }
}

impl Data {
    /// A database made of the four given tables.
    pub fn new(values: NameTable, ids: NameTable, specials: PairTable, tiebreak: NameTable) -> (d:
        Data)
        ensures
            d@ == (DataView { values: values@, ids: ids@, specials: specials@, tiebreak: tiebreak@ }),
    {
        Data { values, ids, specials, tiebreak }
    }

    /// A database built from the rows of the three lists, in order; a later row for
    /// the same key replaces an earlier one.
    pub fn from_records(records: &Vec<Record>, specials: &Vec<Special>, tiebreaks: &Vec<TieBreakOrder>) -> (d: Data)
        ensures
            d@ == (DataView {
                values: values_from(records@),
                ids: ids_from(records@),
                specials: specials_from(specials@),
                tiebreak: tiebreak_from(tiebreaks@),
            }),
    {
        let mut values = NameTable::new();
        let mut ids = NameTable::new();
        let mut i: usize = 0;
        while i < records.len()
            invariant
                i <= records.len(),
                values@ == values_from(records@.take(i as int)),
                ids@ == ids_from(records@.take(i as int)),
            decreases records.len() - i,
        {
            let r = &records[i];
            values.insert(r.name.clone(), r.value);
            ids.insert(r.name.clone(), r.id);
            proof {
                assert(records@.take(i + 1).drop_last() =~= records@.take(i as int));
            }
            i = i + 1;
        }
        assert(records@.take(records.len() as int) =~= records@);
        let mut table = PairTable::new();
        let mut i: usize = 0;
        while i < specials.len()
            invariant
                i <= specials.len(),
                table@ == specials_from(specials@.take(i as int)),
            decreases specials.len() - i,
        {
            let r = &specials[i];
            table.insert(r.parent1.clone(), r.parent2.clone(), r.child.clone());
            proof {
                assert(specials@.take(i + 1).drop_last() =~= specials@.take(i as int));
            }
            i = i + 1;
        }
        assert(specials@.take(specials.len() as int) =~= specials@);
        let mut tiebreak = NameTable::new();
        let mut i: usize = 0;
        while i < tiebreaks.len()
            invariant
                i <= tiebreaks.len(),
                tiebreak@ == tiebreak_from(tiebreaks@.take(i as int)),
            decreases tiebreaks.len() - i,
        {
            let r = &tiebreaks[i];
            tiebreak.insert(r.name.clone(), r.order);
            proof {
                assert(tiebreaks@.take(i + 1).drop_last() =~= tiebreaks@.take(i as int));
            }
            i = i + 1;
        }
        assert(tiebreaks@.take(tiebreaks.len() as int) =~= tiebreaks@);
        Data { values, ids, specials: table, tiebreak }
    }

    /// No table of the database holds a key twice.
    pub fn tables_are_wf(&self)
        ensures
            self@.wf(),
    {
        self.values.keys_are_distinct();
        self.ids.keys_are_distinct();
        self.specials.pairs_are_unique();
        self.tiebreak.keys_are_distinct();
    }

    /// The number of pals.
    pub fn pal_count(&self) -> (n: usize)
        ensures
            n == self@.values.len(),
    {
        self.values.len()
    }

    /// The name of the pal at position `i`.
    pub fn pal_name(&self, i: usize) -> (k: &String)
        requires
            i < self@.values.len(),
        ensures
            k@ == self@.values[i as int].0,
    {
        self.values.name_at(i)
    }

    /// The child of `a` and `b`, with its value.
    ///
    /// Fails with [`CombineError::PalNotFound`] naming the first of `a`, `b` that is
    /// not a pal. Equal parents give themselves; a special pair (tried as `(a, b)`,
    /// then `(b, a)`) gives its listed child; otherwise the child is the first pal,
    /// in table order, that is not a special child and whose value is nearest to the
    /// mean of the parents' values with its fraction dropped, ties going to the
    /// smaller tie-break rank. The id
    /// table has to list every such candidate, but no id takes part in the choice.
    pub fn combine(&self, a: &str, b: &str) -> (r: Result<(String, i32), CombineError>)
        requires
            self@.can_combine(a@, b@),
        ensures
            match r {
                Ok((n, v)) => self@.combined(a@, b@) == Ok::<(Seq<char>, i32), Seq<char>>((n@, v)),
                Err(CombineError::PalNotFound(n)) => self@.combined(a@, b@) == Err::<
                    (Seq<char>, i32),
                    Seq<char>,
                >(n@),
            },
    {
        self.tables_are_wf();
        let va = match self.values.get(a) {
            Some(v) => v,
            None => return Err(CombineError::PalNotFound(a.to_owned())),
        };
        let vb = match self.values.get(b) {
            Some(v) => v,
            None => return Err(CombineError::PalNotFound(b.to_owned())),
        };
        let a_name = a.to_owned();
        let b_name = b.to_owned();
        if a_name == b_name {
            return Ok((a_name, va));
        }
        match self.specials.get(a, b) {
            Some(child) => {
                return match self.values.get(child.as_str()) {
                    Some(v) => Ok((child.clone(), v)),
                    None => {
                        proof {
                            assert(false);
                        }
                        Err(CombineError::PalNotFound(child.clone()))
                    },
                };
            },
            None => {},
        }
        match self.specials.get(b, a) {
            Some(child) => {
                return match self.values.get(child.as_str()) {
                    Some(v) => Ok((child.clone(), v)),
                    None => {
                        proof {
                            assert(false);
                        }
                        Err(CombineError::PalNotFound(child.clone()))
                    },
                };
            },
            None => {},
        }
        let i = self.nearest_pal(va as i64 + vb as i64);
        Ok((self.values.name_at(i).clone(), self.values.value_at(i)))
    }

    /// The position of the first candidate nearest to the mean `sum / 2`, its
    /// fraction dropped.
    fn nearest_pal(&self, sum: i64) -> (i: usize)
        requires
            self@.wf(),
            self@.ordinary_ok(sum as int),
        ensures
            i == self@.nearest(sum as int),
            self@.is_nearest(sum as int, i as int),
    {
        let ghost d = self@;
        let mean: i64 = if sum >= 0 {
            sum / 2
        } else {
            -((-sum) / 2)
        };
        assert(mean == half(sum as int));
        let n = self.values.len();
        let mut best: Option<usize> = None;
        let mut best_d: i64 = 0;
        let mut best_rank: i32 = 0;
        let mut k: usize = 0;
        while k < n
            invariant
                d == self@,
                n == d.values.len(),
                k <= n,
                d.ordinary_ok(sum as int),
                d.wf(),
                mean == half(sum as int),
                match best {
                    None => forall|j: int| 0 <= j < k ==> !#[trigger] d.is_candidate(j),
                    Some(b) => {
                        &&& b < k
                        &&& d.is_candidate(b as int)
                        &&& best_d == d.distance(b as int, sum as int)
                        &&& best_rank == d.rank(b as int)
                        &&& forall|j: int| #[trigger]
                            d.is_candidate(j) && j < k ==> !d.beats(j, b as int, sum as int)
                        &&& forall|j: int| #[trigger]
                            d.is_candidate(j) && j < b ==> d.beats(b as int, j, sum as int)
                    },
                },
            decreases n - k,
        {
            let key = self.values.name_at(k);
            if !self.specials.lists_child(key.as_str()) {
                assert(d.is_candidate(k as int));
                let x = self.values.value_at(k);
                let diff: i64 = x as i64 - mean;
                let dist: i64 = if diff < 0 {
                    -diff
                } else {
                    diff
                };
                let rank = match self.tiebreak.get(key.as_str()) {
                    Some(r) => r,
                    None => {
                        proof {
                            assert(false);
                        }
                        0
                    },
                };
                assert(dist == d.distance(k as int, sum as int));
                assert(rank == d.rank(k as int));
                let take = match best {
                    None => true,
                    Some(_) => dist < best_d || (dist == best_d && rank < best_rank),
                };
                if take {
                    best = Some(k);
                    best_d = dist;
                    best_rank = rank;
                }
            }
            k = k + 1;
        }
        match best {
            Some(b) => {
                proof {
                    assert(d.is_nearest(sum as int, b as int));
                    lemma_nearest_unique(d, sum as int, b as int, d.nearest(sum as int));
                }
                b
            },
            None => {
                proof {
                    let c = choose|i: int| #[trigger] d.is_candidate(i);
                    assert(d.is_candidate(c));
                }
                0
            },
        }
    }

    /// Whether the ordinary rule can be applied to the parent sum `sum`.
    fn ordinary_applies(&self, sum: i64) -> (r: bool)
        ensures
            r == self@.ordinary_ok(sum as int),
    {
        let ghost d = self@;
        if sum < i32::MIN as i64 || sum > i32::MAX as i64 {
            return false;
        }
        let n = self.values.len();
        let mut found = false;
        let mut k: usize = 0;
        while k < n
            invariant
                d == self@,
                n == d.values.len(),
                k <= n,
                found == exists|j: int| 0 <= j < k && #[trigger] d.is_candidate(j),
                forall|j: int| #[trigger]
                    d.is_candidate(j) && j < k ==> has_name(d.ids, d.values[j].0) && has_name(
                        d.tiebreak,
                        d.values[j].0,
                    ),
            decreases n - k,
        {
            let key = self.values.name_at(k);
            if !self.specials.lists_child(key.as_str()) {
                assert(d.is_candidate(k as int));
                if !self.ids.contains(key.as_str()) || !self.tiebreak.contains(key.as_str()) {
                    return false;
                }
                found = true;
            }
            k = k + 1;
        }
        found
    }

    /// Whether combining `a` and `b` reads only entries that are there (see
    /// [`DataView::can_combine`]); `combine` may be called exactly when this holds.
    pub fn combinable(&self, a: &str, b: &str) -> (r: bool)
        ensures
            r == self@.can_combine(a@, b@),
    {
        self.tables_are_wf();
        let va = match self.values.get(a) {
            Some(v) => v,
            None => return true,
        };
        let vb = match self.values.get(b) {
            Some(v) => v,
            None => return true,
        };
        if a.to_owned() == b.to_owned() {
            return true;
        }
        match self.specials.get(a, b) {
            Some(child) => return self.values.contains(child.as_str()),
            None => {},
        }
        match self.specials.get(b, a) {
            Some(child) => return self.values.contains(child.as_str()),
            None => {},
        }
        self.ordinary_applies(va as i64 + vb as i64)
    }

    /// Whether any two pals can be bred without reading an absent entry (see
    /// [`DataView::all_breedable`]).
    pub fn is_breedable(&self) -> (r: bool)
        ensures
            r == self@.all_breedable(),
    {
        let ghost d = self@;
        self.tables_are_wf();
        let n = self.values.len();
        let mut i: usize = 0;
        while i < n
            invariant
                d == self@,
                d.wf(),
                n == d.values.len(),
                i <= n,
                forall|x: int, y: int|
                    0 <= x < i && 0 <= y < n ==> #[trigger] d.can_combine(
                        d.values[x].0,
                        d.values[y].0,
                    ),
            decreases n - i,
        {
            let mut j: usize = 0;
            while j < n
                invariant
                    d == self@,
                    d.wf(),
                    n == d.values.len(),
                    i < n,
                    j <= n,
                    forall|x: int, y: int|
                        0 <= x < i && 0 <= y < n ==> #[trigger] d.can_combine(
                            d.values[x].0,
                            d.values[y].0,
                        ),
                    forall|y: int| 0 <= y < j ==> #[trigger] d.can_combine(d.values[i as int].0, d.values[y].0),
                decreases n - j,
            {
                if !self.combinable(self.values.name_at(i).as_str(), self.values.name_at(j).as_str()) {
                    proof {
                        reveal(DataView::all_breedable);
                        lemma_name_index_unique(d.values, i as int);
                        lemma_name_index_unique(d.values, j as int);
                    }
                    return false;
                }
                j = j + 1;
            }
            i = i + 1;
        }
        proof {
            reveal(DataView::all_breedable);
            assert forall|a: Seq<char>, b: Seq<char>|
                d.has_pal(a) && d.has_pal(b) implies #[trigger] d.can_combine(a, b) by {
                let x = name_index(d.values, a);
                let y = name_index(d.values, b);
                assert(d.can_combine(d.values[x].0, d.values[y].0));
            }
        }
        true
    }

    /// The pairs of distinct pals (each pair once, in table order) whose child is
    /// `name`. Fails at the first pair, in that order, whose combination would read
    /// an absent entry, giving the pairs found before it and that pair.
    pub fn pattern(&self, name: &str) -> (r: Result<
        Vec<(String, String)>,
        (Vec<(String, String)>, (String, String)),
    >)
        ensures
            match r {
                Ok(v) => {
                    &&& pattern_scan(
                        self@,
                        name@,
                        pair_rows(pal_names(self@), pal_names(self@).len() as int),
                    ) == Ok::<
                        Seq<(Seq<char>, Seq<char>)>,
                        (Seq<(Seq<char>, Seq<char>)>, (Seq<char>, Seq<char>)),
                    >(v@.map_values(|e: (String, String)| (e.0@, e.1@)))
                    &&& forall|k: int|
                        0 <= k < v@.len() ==> self@.has_pal((#[trigger] v@[k]).0@) && self@.has_pal(
                            v@[k].1@,
                        ) && v@[k].0@ != v@[k].1@ && self@.child_name(v@[k].0@, v@[k].1@) == name@
                    &&& forall|i: int, j: int|
                        0 <= i < j < self@.values.len() ==> #[trigger] pair_outcome(self@, v@, name@, i, j)
                },
                Err((v, (a, b))) => {
                    &&& exists|i: int, j: int|
                        0 <= i < j < self@.values.len() && a@ == self@.values[i].0 && b@
                            == self@.values[j].0 && !self@.can_combine(a@, b@) && forall|i2: int, j2: int|
                            0 <= i2 < j2 < self@.values.len() && (i2 < i || (i2 == i && j2 < j))
                                ==> #[trigger] pair_outcome(self@, v@, name@, i2, j2)
                    &&& pattern_scan(
                        self@,
                        name@,
                        pair_rows(pal_names(self@), pal_names(self@).len() as int),
                    ) == Err::<
                        Seq<(Seq<char>, Seq<char>)>,
                        (Seq<(Seq<char>, Seq<char>)>, (Seq<char>, Seq<char>)),
                    >((v@.map_values(|e: (String, String)| (e.0@, e.1@)), (a@, b@)))
                    &&& forall|k: int|
                        0 <= k < v@.len() ==> self@.has_pal((#[trigger] v@[k]).0@) && self@.has_pal(
                            v@[k].1@,
                        ) && v@[k].0@ != v@[k].1@ && self@.child_name(v@[k].0@, v@[k].1@) == name@
                },
            },
    {
        self.tables_are_wf();
        let ghost d = self@;
        let ghost keys = pal_names(d);
        let target = name.to_owned();
        let n = self.values.len();
        let mut found: Vec<(String, String)> = Vec::new();
        let mut i: usize = 0;
        assert(found@.map_values(|e: (String, String)| (e.0@, e.1@)) =~= Seq::<
            (Seq<char>, Seq<char>),
        >::empty());
        while i < n
            invariant
                d == self@,
                d.wf(),
                keys == pal_names(d),
                n == keys.len(),
                target@ == name@,
                i <= n,
                pattern_scan(d, name@, pair_rows(keys, i as int)) == Ok::<
                    Seq<(Seq<char>, Seq<char>)>,
                    (Seq<(Seq<char>, Seq<char>)>, (Seq<char>, Seq<char>)),
                >(found@.map_values(|e: (String, String)| (e.0@, e.1@))),
                forall|k: int|
                    0 <= k < found@.len() ==> d.has_pal((#[trigger] found@[k]).0@) && d.has_pal(
                        found@[k].1@,
                    ) && found@[k].0@ != found@[k].1@ && d.child_name(found@[k].0@, found@[k].1@)
                        == name@,
                forall|i2: int, j2: int|
                    0 <= i2 < i && i2 < j2 < n ==> #[trigger] pair_checked(d, found@, name@, i2, j2),
            decreases n - i,
        {
            let ghost row = keys.skip(i + 1).map_values(|q: Seq<char>| (keys[i as int], q));
            let ghost done = pair_rows(keys, i as int);
            let mut j: usize = i + 1;
            while j < n
                invariant
                    d == self@,
                    d.wf(),
                    keys == pal_names(d),
                    n == keys.len(),
                    target@ == name@,
                    i < n,
                    i + 1 <= j <= n,
                    row == keys.skip(i + 1).map_values(|q: Seq<char>| (keys[i as int], q)),
                    done == pair_rows(keys, i as int),
                    pattern_scan(d, name@, done + row.take(j - i - 1)) == Ok::<
                        Seq<(Seq<char>, Seq<char>)>,
                        (Seq<(Seq<char>, Seq<char>)>, (Seq<char>, Seq<char>)),
                    >(found@.map_values(|e: (String, String)| (e.0@, e.1@))),
                    forall|k: int|
                        0 <= k < found@.len() ==> d.has_pal((#[trigger] found@[k]).0@) && d.has_pal(
                            found@[k].1@,
                        ) && found@[k].0@ != found@[k].1@ && d.child_name(found@[k].0@, found@[k].1@)
                            == name@,
                    forall|i2: int, j2: int|
                        0 <= i2 < j2 < n && (i2 < i || (i2 == i && j2 < j)) ==> #[trigger] pair_checked(
                            d,
                            found@,
                            name@,
                            i2,
                            j2,
                        ),
                decreases n - j,
            {
                let ghost prefix = done + row.take(j - i - 1);
                let p = self.values.name_at(i);
                let q = self.values.name_at(j);
                proof {
                    assert(row[j - i - 1] == (keys[i as int], keys[j as int]));
                    assert(done + row.take(j - i) =~= prefix.push((keys[i as int], keys[j as int])));
                    assert(prefix.push((keys[i as int], keys[j as int])).drop_last() =~= prefix);
                    assert(keys[i as int] == d.values[i as int].0);
                    assert(keys[j as int] == d.values[j as int].0);
                }
                if !self.combinable(p.as_str(), q.as_str()) {
                    proof {
                        let rest = lemma_pair_rows_extend(keys, i + 1, n as int);
                        assert(pair_rows(keys, i + 1) =~= prefix.push((keys[i as int], keys[j as int]))
                            + row.skip(j - i));
                        lemma_pattern_scan_stays(
                            d,
                            name@,
                            prefix.push((keys[i as int], keys[j as int])),
                            row.skip(j - i) + rest,
                        );
                        assert(pair_rows(keys, n as int) =~= prefix.push(
                            (keys[i as int], keys[j as int]),
                        ) + (row.skip(j - i) + rest));
                        lemma_checked_outcomes(d, found@, name@);
                        assert forall|i2: int, j2: int|
                            0 <= i2 < j2 < n && (i2 < i || (i2 == i && j2 < j)) implies #[trigger] pair_outcome(
                            d,
                            found@,
                            name@,
                            i2,
                            j2,
                        ) by {
                            assert(pair_checked(d, found@, name@, i2, j2));
                        }
                        assert(!d.can_combine(p@, q@));
                        assert(p@ == d.values[i as int].0 && q@ == d.values[j as int].0);
                    }
                    return Err((found, (p.clone(), q.clone())));
                }
                let child = match self.combine(p.as_str(), q.as_str()) {
                    Ok((k, _)) => k,
                    Err(_) => {
                        proof {
                            lemma_name_index_unique(d.values, i as int);
                            lemma_name_index_unique(d.values, j as int);
                        }
                        return Err((found, (p.clone(), q.clone())));
                    },
                };
                if child == target {
                    proof {
                        lemma_name_index_unique(d.values, i as int);
                        lemma_name_index_unique(d.values, j as int);
                    }
                    let ghost before = found@;
                    let entry = (p.clone(), q.clone());
                    proof {
                        lemma_lists_pair_push(before, entry);
                    }
                    found.push(entry);
                    proof {
                        assert forall|i2: int, j2: int|
                            0 <= i2 < j2 < n && (i2 < i || (i2 == i && j2 < j)) implies #[trigger] pair_checked(
                            d,
                            found@,
                            name@,
                            i2,
                            j2,
                        ) by {
                            assert(pair_checked(d, before, name@, i2, j2));
                        }
                    }
                    assert(found@.map_values(|e: (String, String)| (e.0@, e.1@)) =~= before.map_values(
                        |e: (String, String)| (e.0@, e.1@),
                    ).push((keys[i as int], keys[j as int])));
                }
                j = j + 1;
            }
            proof {
                assert(row.take(n - i - 1) =~= row);
                assert(pair_rows(keys, i + 1) =~= done + row);
            }
            i = i + 1;
        }
        proof {
            lemma_checked_outcomes(d, found@, name@);
            assert forall|i2: int, j2: int| 0 <= i2 < j2 < n implies #[trigger] pair_outcome(
                d,
                found@,
                name@,
                i2,
                j2,
            ) by {
                assert(pair_checked(d, found@, name@, i2, j2));
            }
        }
        Ok(found)
    }

    /// The pal `a` with its value.
    pub fn kv(&self, a: &str) -> (r: (String, i32))
        requires
            self@.has_pal(a@),
        ensures
            r.0@ == a@,
            Some(r.1) == self@.value_of(a@),
    {
        let v = self.values.get(a);
        match v {
            Some(v) => (a.to_owned(), v),
            None => {
                proof {
                    assert(false);
                }
                (a.to_owned(), 0)
            },
        }
    }
}

} // verus!
