//! Small name-keyed tables: the lookup structures of the breeding database.
//!
//! Each table keeps its entries in insertion order and holds every key at
//! most once; inserting an existing key replaces its value in place.
use vstd::prelude::*;

verus! {

/// Whether the pal name `k` is a key of the entry sequence `s`.
pub open spec fn has_name(s: Seq<(Seq<char>, i32)>, k: Seq<char>) -> bool {
    exists|i: int| 0 <= i < s.len() && (#[trigger] s[i]).0 == k
}

/// The position of the key `k` in `s` (meaningful when `has_name(s, k)`).
pub open spec fn name_index(s: Seq<(Seq<char>, i32)>, k: Seq<char>) -> int {
    choose|i: int| 0 <= i < s.len() && (#[trigger] s[i]).0 == k
}

/// The value stored under `k`, if any.
pub open spec fn value_for(s: Seq<(Seq<char>, i32)>, k: Seq<char>) -> Option<i32> {
    if has_name(s, k) {
        Some(s[name_index(s, k)].1)
    } else {
        None
    }
}

/// No key occurs twice.
pub open spec fn names_distinct(s: Seq<(Seq<char>, i32)>) -> bool {
    forall|i: int, j: int|
        0 <= i < s.len() && 0 <= j < s.len() && i != j ==> (#[trigger] s[i]).0 != (#[trigger] s[j]).0
}

/// The entries after inserting `(k, v)`: an existing key keeps its place.
pub open spec fn name_inserted(s: Seq<(Seq<char>, i32)>, k: Seq<char>, v: i32) -> Seq<(Seq<char>, i32)> {
    if has_name(s, k) {
        s.update(name_index(s, k), (k, v))
    } else {
        s.push((k, v))
    }
}

/// In a sequence without repeated keys, the key at `i` is found at `i`.
pub proof fn lemma_name_index_unique(s: Seq<(Seq<char>, i32)>, i: int)
    requires
        names_distinct(s),
        0 <= i < s.len(),
    ensures
        has_name(s, s[i].0),
        name_index(s, s[i].0) == i,
        value_for(s, s[i].0) == Some(s[i].1),
{
    assert(has_name(s, s[i].0));
}

/// Insertion keeps keys distinct and stores `v` under `k`, leaving other keys alone.
pub proof fn lemma_name_inserted(s: Seq<(Seq<char>, i32)>, k: Seq<char>, v: i32, k2: Seq<char>)
    requires
        names_distinct(s),
    ensures
        names_distinct(name_inserted(s, k, v)),
        value_for(name_inserted(s, k, v), k2) == if k2 == k {
            Some(v)
        } else {
            value_for(s, k2)
        },
{
    let t = name_inserted(s, k, v);
    if has_name(s, k) {
        let idx = name_index(s, k);
        assert(names_distinct(t));
        if k2 == k {
            lemma_name_index_unique(t, idx);
        } else if has_name(s, k2) {
            let j = name_index(s, k2);
            assert(t[j] == s[j]);
            lemma_name_index_unique(t, j);
        } else {
            assert(!has_name(t, k2)) by {
                if has_name(t, k2) {
                    let j = name_index(t, k2);
                    assert(s[j].0 == k2);
                }
            }
        }
    } else {
        assert(names_distinct(t)) by {
            assert forall|i: int, j: int|
                0 <= i < t.len() && 0 <= j < t.len() && i != j implies (#[trigger] t[i]).0 != (
                #[trigger] t[j]).0 by {
                if i == s.len() as int {
                    assert(t[j] == s[j]);
                } else if j == s.len() as int {
                    assert(t[i] == s[i]);
                } else {
                    assert(t[i] == s[i] && t[j] == s[j]);
                }
            }
        }
        if k2 == k {
            lemma_name_index_unique(t, s.len() as int);
        } else if has_name(s, k2) {
            let j = name_index(s, k2);
            assert(t[j] == s[j]);
            lemma_name_index_unique(t, j);
        } else {
            assert(!has_name(t, k2)) by {
                if has_name(t, k2) {
                    let j = name_index(t, k2);
                    if j < s.len() {
                        assert(s[j] == t[j]);
                    }
                }
            }
        }
    }
}

/// A table from pal names to integers (value, id or tie-break rank).
#[derive(Debug)]
pub struct NameTable {
    entries: Vec<(String, i32)>,
}

impl View for NameTable {
    type V = Seq<(Seq<char>, i32)>;

    closed spec fn view(&self) -> Seq<(Seq<char>, i32)> {
        self.entries@.map_values(|e: (String, i32)| (e.0@, e.1))
    }
}

impl Clone for NameTable {
    fn clone(&self) -> (c: NameTable)
        ensures
            c@ == self@,
    {
        proof {
            use_type_invariant(self);
        }
        let mut entries: Vec<(String, i32)> = Vec::new();
        let mut i: usize = 0;
        while i < self.entries.len()
            invariant
                i <= self.entries@.len(),
                entries@.map_values(|e: (String, i32)| (e.0@, e.1)) == self@.take(i as int),
            decreases self.entries@.len() - i,
        {
            let ghost before = entries@;
            entries.push((self.entries[i].0.clone(), self.entries[i].1));
            assert(entries@.map_values(|e: (String, i32)| (e.0@, e.1)) =~= before.map_values(
                |e: (String, i32)| (e.0@, e.1),
            ).push(self@[i as int]));
            assert(self@.take(i + 1) =~= self@.take(i as int).push(self@[i as int]));
            i = i + 1;
        }
        assert(self@.take(i as int) =~= self@);
        NameTable { entries }
    }
}

impl NameTable {
    #[verifier::type_invariant]
    spec fn keys_distinct(self) -> bool {
        names_distinct(self@)
    }

    /// An empty table.
    pub fn new() -> (t: NameTable)
        ensures
            t@ == Seq::<(Seq<char>, i32)>::empty(),
    {
        let t = NameTable { entries: Vec::new() };
        assert(t@ =~= Seq::<(Seq<char>, i32)>::empty());
        t
    }

    /// The number of entries.
    pub fn len(&self) -> (n: usize)
        ensures
            n == self@.len(),
    {
        self.entries.len()
    }

    /// The key of the entry at `i`.
    pub fn name_at(&self, i: usize) -> (k: &String)
        requires
            i < self@.len(),
        ensures
            k@ == self@[i as int].0,
    {
        &self.entries[i].0
    }

    /// The value of the entry at `i`.
    pub fn value_at(&self, i: usize) -> (v: i32)
        requires
            i < self@.len(),
        ensures
            v == self@[i as int].1,
    {
        self.entries[i].1
    }

    /// The keys of the table never repeat.
    pub fn keys_are_distinct(&self)
        ensures
            names_distinct(self@),
    {
        proof {
            use_type_invariant(self);
        }
    }

    /// The position of `k`, if it is a key.
    pub fn position(&self, k: &str) -> (r: Option<usize>)
        ensures
            match r {
                Some(i) => i < self@.len() && self@[i as int].0 == k@ && name_index(self@, k@)
                    == i,
                None => !has_name(self@, k@),
            },
    {
        proof {
            use_type_invariant(self);
        }
        let key = k.to_owned();
        let n = self.entries.len();
        let mut i: usize = 0;
        while i < n
            invariant
                n == self@.len(),
                n == self.entries@.len(),
                i <= n,
                key@ == k@,
                names_distinct(self@),
                forall|j: int| 0 <= j < i ==> (#[trigger] self@[j]).0 != k@,
            decreases n - i,
        {
            if self.entries[i].0 == key {
                proof {
                    assert(self@[i as int].0 == self.entries@[i as int].0@);
                    lemma_name_index_unique(self@, i as int);
                }
                return Some(i);
            }
            assert(self@[i as int].0 == self.entries@[i as int].0@);
            i = i + 1;
        }
        None
    }

    /// The value stored under `k`, if any.
    pub fn get(&self, k: &str) -> (r: Option<i32>)
        ensures
            r == value_for(self@, k@),
    {
        match self.position(k) {
            Some(i) => Some(self.entries[i].1),
            None => None,
        }
    }

    /// Whether `k` is a key.
    pub fn contains(&self, k: &str) -> (b: bool)
        ensures
            b == has_name(self@, k@),
    {
        self.position(k).is_some()
    }

    /// Stores `v` under `k`; an existing key keeps its position and gets the new value.
    pub fn insert(&mut self, k: String, v: i32)
        ensures
            final(self)@ == name_inserted(old(self)@, k@, v),
    {
        proof {
            use_type_invariant(&*self);
        }
        let ghost old_view = self@;
        let pos = self.position(k.as_str());
        proof {
            lemma_name_inserted(old_view, k@, v, k@);
        }
        match pos {
            Some(i) => {
                let mut entries: Vec<(String, i32)> = Vec::new();
                std::mem::swap(&mut entries, &mut self.entries);
                let ghost before = entries@;
                entries.set(i, (k, v));
                proof {
                    assert(entries@.map_values(|e: (String, i32)| (e.0@, e.1)) =~= old_view.update(
                        i as int,
                        (k@, v),
                    ));
                }
                self.entries = entries;
            },
            None => {
                let mut entries: Vec<(String, i32)> = Vec::new();
                std::mem::swap(&mut entries, &mut self.entries);
                entries.push((k, v));
                proof {
                    assert(entries@.map_values(|e: (String, i32)| (e.0@, e.1)) =~= old_view.push(
                        (k@, v),
                    ));
                }
                self.entries = entries;
            },
        }
    }
}


/// Whether the parent pair `(a, b)` (in this order) is a key of `s`.
pub open spec fn has_pair(s: Seq<(Seq<char>, Seq<char>, Seq<char>)>, a: Seq<char>, b: Seq<char>) -> bool {
    exists|i: int| 0 <= i < s.len() && (#[trigger] s[i]).0 == a && s[i].1 == b
}

/// The position of the key `(a, b)` in `s` (meaningful when `has_pair(s, a, b)`).
pub open spec fn pair_index(s: Seq<(Seq<char>, Seq<char>, Seq<char>)>, a: Seq<char>, b: Seq<char>) -> int {
    choose|i: int| 0 <= i < s.len() && (#[trigger] s[i]).0 == a && s[i].1 == b
}

/// The child stored for the ordered pair `(a, b)`, if any.
pub open spec fn child_for(s: Seq<(Seq<char>, Seq<char>, Seq<char>)>, a: Seq<char>, b: Seq<char>) -> Option<
    Seq<char>,
> {
    if has_pair(s, a, b) {
        Some(s[pair_index(s, a, b)].2)
    } else {
        None
    }
}

/// Whether `c` is the child of some entry of `s`.
pub open spec fn is_listed_child(s: Seq<(Seq<char>, Seq<char>, Seq<char>)>, c: Seq<char>) -> bool {
    exists|i: int| 0 <= i < s.len() && (#[trigger] s[i]).2 == c
}

/// No ordered pair occurs twice.
pub open spec fn pairs_distinct(s: Seq<(Seq<char>, Seq<char>, Seq<char>)>) -> bool {
    forall|i: int, j: int|
        0 <= i < s.len() && 0 <= j < s.len() && i != j ==> ((#[trigger] s[i]).0 != (
        #[trigger] s[j]).0 || s[i].1 != s[j].1)
}

/// The entries after inserting the child `c` for `(a, b)`: an existing pair keeps its place.
pub open spec fn pair_inserted(
    s: Seq<(Seq<char>, Seq<char>, Seq<char>)>,
    a: Seq<char>,
    b: Seq<char>,
    c: Seq<char>,
) -> Seq<(Seq<char>, Seq<char>, Seq<char>)> {
    if has_pair(s, a, b) {
        s.update(pair_index(s, a, b), (a, b, c))
    } else {
        s.push((a, b, c))
    }
}

/// In a sequence without repeated pairs, the pair at `i` is found at `i`.
pub proof fn lemma_pair_index_unique(s: Seq<(Seq<char>, Seq<char>, Seq<char>)>, i: int)
    requires
        pairs_distinct(s),
        0 <= i < s.len(),
    ensures
        has_pair(s, s[i].0, s[i].1),
        pair_index(s, s[i].0, s[i].1) == i,
        child_for(s, s[i].0, s[i].1) == Some(s[i].2),
{
    assert(has_pair(s, s[i].0, s[i].1));
}

/// Insertion keeps pairs distinct.
pub proof fn lemma_pair_inserted(s: Seq<(Seq<char>, Seq<char>, Seq<char>)>, a: Seq<char>, b: Seq<char>, c: Seq<char>)
    requires
        pairs_distinct(s),
    ensures
        pairs_distinct(pair_inserted(s, a, b, c)),
{
    let t = pair_inserted(s, a, b, c);
    if !has_pair(s, a, b) {
        assert forall|i: int, j: int|
            0 <= i < t.len() && 0 <= j < t.len() && i != j implies ((#[trigger] t[i]).0 != (
            #[trigger] t[j]).0 || t[i].1 != t[j].1) by {
            if i == s.len() as int {
                assert(t[j] == s[j]);
            } else if j == s.len() as int {
                assert(t[i] == s[i]);
            } else {
                assert(t[i] == s[i] && t[j] == s[j]);
            }
        }
    }
}

/// Insertion lists `c` for the pair `(a, b)` and leaves the other pairs alone.
pub proof fn lemma_pair_inserted_child(
    s: Seq<(Seq<char>, Seq<char>, Seq<char>)>,
    a: Seq<char>,
    b: Seq<char>,
    c: Seq<char>,
    a2: Seq<char>,
    b2: Seq<char>,
)
    requires
        pairs_distinct(s),
    ensures
        child_for(pair_inserted(s, a, b, c), a2, b2) == if a2 == a && b2 == b {
            Some(c)
        } else {
            child_for(s, a2, b2)
        },
{
    let t = pair_inserted(s, a, b, c);
    lemma_pair_inserted(s, a, b, c);
    let at = if has_pair(s, a, b) {
        pair_index(s, a, b)
    } else {
        s.len() as int
    };
    assert(t[at] == (a, b, c));
    assert forall|i: int| 0 <= i < t.len() && i != at implies t[i] == s[i] by {}
    if a2 == a && b2 == b {
        lemma_pair_index_unique(t, at);
    } else {
        if has_pair(s, a2, b2) {
            let j = pair_index(s, a2, b2);
            assert(j != at);
            assert(t[j] == s[j]);
            lemma_pair_index_unique(t, j);
            lemma_pair_index_unique(s, j);
        }
        if has_pair(t, a2, b2) {
            let j = pair_index(t, a2, b2);
            assert(j != at);
            assert(s[j] == t[j]);
        }
    }
}

/// A table from ordered parent pairs to the child they are listed to give.
#[derive(Debug)]
pub struct PairTable {
    entries: Vec<(String, String, String)>,
}

impl View for PairTable {
    type V = Seq<(Seq<char>, Seq<char>, Seq<char>)>;

    closed spec fn view(&self) -> Seq<(Seq<char>, Seq<char>, Seq<char>)> {
        self.entries@.map_values(|e: (String, String, String)| (e.0@, e.1@, e.2@))
    }
}

impl Clone for PairTable {
    fn clone(&self) -> (c: PairTable)
        ensures
            c@ == self@,
    {
        proof {
            use_type_invariant(self);
        }
        let mut entries: Vec<(String, String, String)> = Vec::new();
        let mut i: usize = 0;
        while i < self.entries.len()
            invariant
                i <= self.entries@.len(),
                entries@.map_values(|e: (String, String, String)| (e.0@, e.1@, e.2@)) == self@.take(
                    i as int,
                ),
            decreases self.entries@.len() - i,
        {
            let ghost before = entries@;
            let e = &self.entries[i];
            entries.push((e.0.clone(), e.1.clone(), e.2.clone()));
            assert(entries@.map_values(|e: (String, String, String)| (e.0@, e.1@, e.2@))
                =~= before.map_values(|e: (String, String, String)| (e.0@, e.1@, e.2@)).push(
                self@[i as int],
            ));
            assert(self@.take(i + 1) =~= self@.take(i as int).push(self@[i as int]));
            i = i + 1;
        }
        assert(self@.take(i as int) =~= self@);
        PairTable { entries }
    }
}

impl PairTable {
    #[verifier::type_invariant]
    spec fn pairs_are_distinct(self) -> bool {
        pairs_distinct(self@)
    }

    /// An empty table.
    pub fn new() -> (t: PairTable)
        ensures
            t@ == Seq::<(Seq<char>, Seq<char>, Seq<char>)>::empty(),
    {
        let t = PairTable { entries: Vec::new() };
        assert(t@ =~= Seq::<(Seq<char>, Seq<char>, Seq<char>)>::empty());
        t
    }

    /// The number of entries.
    pub fn len(&self) -> (n: usize)
        ensures
            n == self@.len(),
    {
        self.entries.len()
    }

    /// The child of the entry at `i`.
    pub fn child_at(&self, i: usize) -> (c: &String)
        requires
            i < self@.len(),
        ensures
            c@ == self@[i as int].2,
    {
        &self.entries[i].2
    }

    /// The pairs of the table never repeat.
    pub fn pairs_are_unique(&self)
        ensures
            pairs_distinct(self@),
    {
        proof {
            use_type_invariant(self);
        }
    }

    /// The position of the ordered pair `(a, b)`, if it is a key.
    pub fn position(&self, a: &str, b: &str) -> (r: Option<usize>)
        ensures
            match r {
                Some(i) => i < self@.len() && self@[i as int].0 == a@ && self@[i as int].1 == b@
                    && pair_index(self@, a@, b@) == i,
                None => !has_pair(self@, a@, b@),
            },
    {
        proof {
            use_type_invariant(self);
        }
        let ka = a.to_owned();
        let kb = b.to_owned();
        let n = self.entries.len();
        let mut i: usize = 0;
        while i < n
            invariant
                n == self@.len(),
                n == self.entries@.len(),
                i <= n,
                ka@ == a@,
                kb@ == b@,
                pairs_distinct(self@),
                forall|j: int| 0 <= j < i ==> !((#[trigger] self@[j]).0 == a@ && self@[j].1 == b@),
            decreases n - i,
        {
            assert(self@[i as int] == (
                self.entries@[i as int].0@,
                self.entries@[i as int].1@,
                self.entries@[i as int].2@,
            ));
            if self.entries[i].0 == ka && self.entries[i].1 == kb {
                proof {
                    lemma_pair_index_unique(self@, i as int);
                }
                return Some(i);
            }
            i = i + 1;
        }
        None
    }

    /// The child listed for the ordered pair `(a, b)`, if any.
    pub fn get(&self, a: &str, b: &str) -> (r: Option<&String>)
        ensures
            match r {
                Some(c) => child_for(self@, a@, b@) == Some(c@),
                None => child_for(self@, a@, b@) is None,
            },
    {
        proof {
            use_type_invariant(self);
        }
        match self.position(a, b) {
            Some(i) => {
                proof {
                    lemma_pair_index_unique(self@, i as int);
                }
                Some(&self.entries[i].2)
            },
            None => None,
        }
    }

    /// Whether `c` is the child of some entry.
    pub fn lists_child(&self, c: &str) -> (r: bool)
        ensures
            r == is_listed_child(self@, c@),
    {
        let key = c.to_owned();
        let n = self.entries.len();
        let mut i: usize = 0;
        while i < n
            invariant
                n == self@.len(),
                n == self.entries@.len(),
                i <= n,
                key@ == c@,
                forall|j: int| 0 <= j < i ==> (#[trigger] self@[j]).2 != c@,
            decreases n - i,
        {
            assert(self@[i as int].2 == self.entries@[i as int].2@);
            if self.entries[i].2 == key {
                return true;
            }
            i = i + 1;
        }
        false
    }

    /// Lists `c` as the child of the ordered pair `(a, b)`, replacing an earlier child.
    pub fn insert(&mut self, a: String, b: String, c: String)
        ensures
            final(self)@ == pair_inserted(old(self)@, a@, b@, c@),
    {
        proof {
            use_type_invariant(&*self);
        }
        let ghost old_view = self@;
        let pos = self.position(a.as_str(), b.as_str());
        proof {
            lemma_pair_inserted(old_view, a@, b@, c@);
        }
        let mut entries: Vec<(String, String, String)> = Vec::new();
        std::mem::swap(&mut entries, &mut self.entries);
        match pos {
            Some(i) => {
                entries.set(i, (a, b, c));
                proof {
                    assert(entries@.map_values(|e: (String, String, String)| (e.0@, e.1@, e.2@))
                        =~= old_view.update(i as int, (a@, b@, c@)));
                }
            },
            None => {
                entries.push((a, b, c));
                proof {
                    assert(entries@.map_values(|e: (String, String, String)| (e.0@, e.1@, e.2@))
                        =~= old_view.push((a@, b@, c@)));
                }
            },
        }
        self.entries = entries;
    }
}

} // verus!
