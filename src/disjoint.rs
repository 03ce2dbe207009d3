use vstd::prelude::*;

verus! {

/// The value a table gives for `key` under single-level resolution: the key
/// itself when its slot is empty, otherwise the value recorded there.
pub open spec fn resolve(t: Seq<Option<i32>>, key: i32) -> i32 {
    match t[key as int] {
        None => key,
        Some(v) => v,
    }
}

/// Every recorded value is itself an element of the table.
pub open spec fn well_formed(t: Seq<Option<i32>>) -> bool {
    forall|i: int|
        0 <= i < t.len() ==> match #[trigger] t[i] {
            None => true,
            Some(v) => 0 <= v < t.len(),
        }
}

/// A table of `n` empty slots.
pub open spec fn fresh_table(n: nat) -> Seq<Option<i32>> {
    Seq::new(n, |i: int| None)
}

/// `key` is an element of a table of length `n`.
pub open spec fn in_range(n: nat, key: i32) -> bool {
    0 <= key < n
}

/// The table after `union(k1, k2)`.
///
/// With `r1` and `r2` the resolved values of the two keys:
/// - both keys resolve to themselves: the larger is attached under the smaller;
/// - neither does: the larger resolved value is attached under the smaller, and
///   every slot that recorded the larger now records the smaller;
/// - exactly one does: that one's slot records the other key's resolved value.
pub open spec fn union_table(t: Seq<Option<i32>>, k1: i32, k2: i32) -> Seq<Option<i32>> {
    let r1 = resolve(t, k1);
    let r2 = resolve(t, k2);
    if r1 == k1 && r2 == k2 {
        t.update(if r1 < r2 { r2 as int } else { r1 as int }, Some(if r1 < r2 { r1 } else { r2 }))
    } else if r1 != k1 && r2 != k2 {
        let winner = if r1 < r2 { r1 } else { r2 };
        let loser = if r1 < r2 { r2 } else { r1 };
        Seq::new(
            t.len(),
            |i: int|
                if i == loser as int || t[i] == Some(loser) {
                    Some(winner)
                } else {
                    t[i]
                },
        )
    } else if r1 == k1 {
        t.update(r1 as int, Some(r2))
    } else {
        t.update(r2 as int, Some(r1))
    }
}

/// `union_table` keeps a table well formed, and afterwards both keys resolve
/// to one value.
pub proof fn lemma_union_connects(t: Seq<Option<i32>>, k1: i32, k2: i32)
    requires
        well_formed(t),
        in_range(t.len(), k1),
        in_range(t.len(), k2),
    ensures
        well_formed(union_table(t, k1, k2)),
        union_table(t, k1, k2).len() == t.len(),
        resolve(union_table(t, k1, k2), k1) == resolve(union_table(t, k1, k2), k2),
{
}

/// On a fresh table every element resolves to itself.
pub proof fn lemma_fresh_resolves_to_self(n: nat, key: i32)
    requires
        in_range(n, key),
    ensures
        resolve(fresh_table(n), key) == key,
        well_formed(fresh_table(n)),
{
}

/// Uniting two elements that both resolve to themselves makes both resolve to
/// the smaller of the two.
pub proof fn lemma_union_of_representatives(t: Seq<Option<i32>>, a: i32, b: i32)
    requires
        well_formed(t),
        in_range(t.len(), a),
        in_range(t.len(), b),
        resolve(t, a) == a,
        resolve(t, b) == b,
    ensures
        resolve(union_table(t, a, b), a) == (if a < b { a } else { b }),
        resolve(union_table(t, a, b), b) == (if a < b { a } else { b }),
{
}

/// When neither key resolves to itself, every slot that recorded the larger
/// resolved value records the smaller one afterwards, as does the larger
/// value's own slot, and all those elements resolve to the smaller value.
pub proof fn lemma_case_two_redirects(t: Seq<Option<i32>>, k1: i32, k2: i32)
    requires
        well_formed(t),
        in_range(t.len(), k1),
        in_range(t.len(), k2),
        resolve(t, k1) != k1,
        resolve(t, k2) != k2,
    ensures
        ({
            let r1 = resolve(t, k1);
            let r2 = resolve(t, k2);
            let winner = if r1 < r2 { r1 } else { r2 };
            let loser = if r1 < r2 { r2 } else { r1 };
            let u = union_table(t, k1, k2);
            &&& u[loser as int] == Some(winner)
            &&& resolve(u, loser) == winner
            &&& forall|i: i32|
                in_range(t.len(), i) && t[i as int] == Some(loser) ==> u[i as int] == Some(winner)
                    && resolve(u, i) == winner
        }),
{
}

/// A second `union` of the same keys only writes a self-reference into the
/// slot of the value both keys now resolve to; when that value already
/// resolves to itself, every element resolves as after the first call.
pub proof fn lemma_union_repeat(t: Seq<Option<i32>>, a: i32, b: i32)
    requires
        well_formed(t),
        in_range(t.len(), a),
        in_range(t.len(), b),
    ensures
        ({
            let once = union_table(t, a, b);
            let c = resolve(once, a);
            let twice = union_table(once, a, b);
            &&& twice == once.update(c as int, Some(c))
            &&& resolve(once, c) == c ==> forall|j: i32|
                in_range(t.len(), j) ==> resolve(twice, j) == resolve(once, j)
        }),
{
    let once = union_table(t, a, b);
    let c = resolve(once, a);
    lemma_union_connects(t, a, b);
    assert(union_table(once, a, b) =~= once.update(c as int, Some(c)));
}

/// Uniting the same keys twice leaves the table as one call did, provided the
/// slot of the value both keys resolve to already records that value.
pub proof fn lemma_union_idempotent(t: Seq<Option<i32>>, a: i32, b: i32)
    requires
        well_formed(t),
        in_range(t.len(), a),
        in_range(t.len(), b),
        union_table(t, a, b)[resolve(union_table(t, a, b), a) as int] == Some(
            resolve(union_table(t, a, b), a),
        ),
    ensures
        union_table(union_table(t, a, b), a, b) == union_table(t, a, b),
{
    let once = union_table(t, a, b);
    let c = resolve(once, a);
    lemma_union_repeat(t, a, b);
    assert(once.update(c as int, Some(c)) =~= once);
}

/// A disjoint-set structure: one slot per element, each either empty (the
/// element stands for itself) or recording the element it is attached to.
#[derive(Debug)]
pub struct DisjointSet(Vec<Option<i32>>);

impl View for DisjointSet {
    type V = Seq<Option<i32>>;

    closed spec fn view(&self) -> Seq<Option<i32>> {
        self.0@
    }
}

impl DisjointSet {
    /// Every recorded value is an element of the structure.
    pub open spec fn wf(&self) -> bool {
        well_formed(self@)
    }

    /// A structure of `size` elements, each in a group of its own.
    pub fn new(size: usize) -> (r: DisjointSet)
        ensures
            r@ == fresh_table(size as nat),
            r.wf(),
    {
        let mut slots: Vec<Option<i32>> = Vec::new();
        let mut i: usize = 0;
        while i < size
            invariant
                i <= size,
                slots@ == fresh_table(i as nat),
            decreases size - i,
        {
            slots.push(None);
            i = i + 1;
            proof {
                assert(slots@ =~= fresh_table(i as nat));
            }
        }
        DisjointSet(slots)
    }

    /// The slots of the structure, in element order.
    pub fn table(&self) -> (r: &Vec<Option<i32>>)
        ensures
            r@ == self@,
    {
        &self.0
    }

    /// The value `key` resolves to: `key` itself when its slot is empty, else
    /// the recorded value, which is not followed any further.
    pub fn find(&self, key: i32) -> (r: i32)
        requires
            self.wf(),
            in_range(self@.len(), key),
        ensures
            r == resolve(self@, key),
            in_range(self@.len(), r),
    {
        match self.0[key as usize] {
            None => key,
            Some(index) => index,
        }
    }

    /// Connects the groups of `key1` and `key2`; the new table is
    /// `union_table` of the old one, after which both keys resolve alike.
    pub fn union(&mut self, key1: i32, key2: i32)
        requires
            old(self).wf(),
            in_range(old(self)@.len(), key1),
            in_range(old(self)@.len(), key2),
        ensures
            final(self)@ == union_table(old(self)@, key1, key2),
            final(self).wf(),
            resolve(final(self)@, key1) == resolve(final(self)@, key2),
    {
        let root1 = self.find(key1);
        let root2 = self.find(key2);
        let root1_is_identifier = root1 == key1;
        let root2_is_identifier = root2 == key2;
        if root1_is_identifier && root2_is_identifier {
            if root1 < root2 {
                self.0[root2 as usize] = Some(root1);
            } else {
                self.0[root1 as usize] = Some(root2);
            }
        } else if !root1_is_identifier && !root2_is_identifier {
            let winner = if root1 < root2 { root1 } else { root2 };
            let loser = if root1 < root2 { root2 } else { root1 };
            self.0[loser as usize] = Some(winner);
            let ghost start = self.0@;
            let ghost target = union_table(old(self)@, key1, key2);
            let n = self.0.len();
            let mut i: usize = 0;
            while i < n
                invariant
                    n == self.0@.len(),
                    n == old(self)@.len(),
                    i <= n,
                    start == old(self)@.update(loser as int, Some(winner)),
                    target == union_table(old(self)@, key1, key2),
                    winner == (if root1 < root2 { root1 } else { root2 }),
                    loser == (if root1 < root2 { root2 } else { root1 }),
                    root1 == resolve(old(self)@, key1),
                    root2 == resolve(old(self)@, key2),
                    root1 != key1,
                    root2 != key2,
                    0 <= loser < n,
                    forall|j: int|
                        0 <= j < n ==> #[trigger] target[j] == (if j == loser as int || old(
                            self,
                        )@[j] == Some(loser) {
                            Some(winner)
                        } else {
                            old(self)@[j]
                        }),
                    forall|j: int| 0 <= j < i ==> self.0@[j] == target[j],
                    forall|j: int| i <= j < n ==> self.0@[j] == start[j],
                decreases n - i,
            {
                assert(self.0@[i as int] == start[i as int]);
                if let Some(x) = self.0[i] {
                    if x == loser {
                        self.0[i] = Some(winner);
                    }
                }
                i = i + 1;
            }
            assert(self.0@ =~= target);
        } else {
            let (identifier, not) = if root1_is_identifier {
                (root1, root2)
            } else {
                (root2, root1)
            };
            self.0[identifier as usize] = Some(not);
        }
        proof {
            lemma_union_connects(old(self)@, key1, key2);
        }
    }
}

/// A disjoint-set structure whose `find` answers `None` for a key outside the
/// structure instead of requiring it to be inside.
pub struct SafeDisjointSet(DisjointSet);

impl View for SafeDisjointSet {
    type V = Seq<Option<i32>>;

    closed spec fn view(&self) -> Seq<Option<i32>> {
        self.0@
    }
}

impl SafeDisjointSet {
    /// Every recorded value is an element of the structure.
    pub open spec fn wf(&self) -> bool {
        well_formed(self@)
    }

    /// A structure of `size` elements, each in a group of its own.
    pub fn new(size: usize) -> (r: Self)
        ensures
            r@ == fresh_table(size as nat),
            r.wf(),
    {
        Self(DisjointSet::new(size))
    }

    /// `None` when `key` is not an element; otherwise what the unchecked
    /// structure's `find` gives.
    pub fn find(&self, key: i32) -> (r: Option<i32>)
        requires
            self.wf(),
        ensures
            r == (if in_range(self@.len(), key) {
                Some(resolve(self@, key))
            } else {
                None
            }),
    {
        if key < 0 || key as usize >= self.0.0.len() {
            None
        } else {
            Some(self.0.find(key))
        }
    }
}

} // verus!
