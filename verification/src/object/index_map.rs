//! The index of an object: for each key, the indexes of the entries with
//! that key, kept in a `hashbrown` hash map.
use vstd::prelude::*;
use vstd::string::StrSliceExecFns;

verus! {

/// The sequence `s` is strictly increasing.
pub open spec fn increasing(s: Seq<usize>) -> bool {
    forall|i: int, j: int| 0 <= i < j < s.len() ==> s[i] < s[j]
}

/// Two strictly increasing sequences with the same elements are equal.
pub proof fn lemma_increasing_ext(a: Seq<usize>, b: Seq<usize>)
    requires
        increasing(a),
        increasing(b),
        forall|x: usize| a.contains(x) <==> b.contains(x),
    ensures
        a == b,
    decreases a.len() + b.len(),
{
    if a.len() == 0 {
        if b.len() > 0 {
            assert(b.contains(b[0]));
        }
        assert(a =~= b);
    } else if b.len() == 0 {
        assert(a.contains(a[0]));
    } else {
        assert(a.contains(a[0]));
        assert(b.contains(b[0]));
        let ia = choose|i: int| 0 <= i < a.len() && a[i] == b[0];
        let ib = choose|i: int| 0 <= i < b.len() && b[i] == a[0];
        assert(a[0] <= a[ia]);
        assert(b[0] <= b[ib]);
        let a1 = a.drop_first();
        let b1 = b.drop_first();
        assert forall|x: usize| a1.contains(x) <==> b1.contains(x) by {
            if a1.contains(x) {
                let i = choose|i: int| 0 <= i < a1.len() && a1[i] == x;
                assert(a[i + 1] == x);
                assert(b.contains(x));
                let j = choose|j: int| 0 <= j < b.len() && b[j] == x;
                assert(j != 0);
                assert(b1[j - 1] == x);
            }
            if b1.contains(x) {
                let i = choose|i: int| 0 <= i < b1.len() && b1[i] == x;
                assert(b[i + 1] == x);
                assert(a.contains(x));
                let j = choose|j: int| 0 <= j < a.len() && a[j] == x;
                assert(j != 0);
                assert(a1[j - 1] == x);
            }
        }
        lemma_increasing_ext(a1, b1);
        assert(a =~= seq![a[0]] + a1);
        assert(b =~= seq![b[0]] + b1);
    }
}

/// The elements of `new` are those of `old` and `x`.
pub open spec fn adds(old: Seq<usize>, new: Seq<usize>, x: usize) -> bool {
    forall|y: usize| #[trigger] new.contains(y) <==> old.contains(y) || y == x
}

/// The elements of `new` are those of `old` but `x`.
pub open spec fn drops(old: Seq<usize>, new: Seq<usize>, x: usize) -> bool {
    forall|y: usize| #[trigger] new.contains(y) <==> old.contains(y) && y != x
}

/// The elements of `s` after inserting `x` at `i`.
pub proof fn lemma_insert_contains(s: Seq<usize>, i: int, x: usize)
    requires
        0 <= i <= s.len(),
    ensures
        adds(s, s.insert(i, x), x),
{
    let t = s.insert(i, x);
    assert forall|y: usize| t.contains(y) <==> s.contains(y) || y == x by {
        if t.contains(y) {
            let j = choose|j: int| 0 <= j < t.len() && t[j] == y;
            if j < i {
                assert(s[j] == y);
            } else if j > i {
                assert(s[j - 1] == y);
            }
        }
        if s.contains(y) {
            let j = choose|j: int| 0 <= j < s.len() && s[j] == y;
            if j < i {
                assert(t[j] == y);
            } else {
                assert(t[j + 1] == y);
            }
        }
        if y == x {
            assert(t[i] == y);
        }
    }
}

/// The elements of `s` after removing the element at `i`, which occurs once.
pub proof fn lemma_remove_contains(s: Seq<usize>, i: int)
    requires
        0 <= i < s.len(),
        increasing(s),
    ensures
        drops(s, s.remove(i), s[i]),
{
    let t = s.remove(i);
    assert forall|y: usize| t.contains(y) <==> s.contains(y) && y != s[i] by {
        if t.contains(y) {
            let j = choose|j: int| 0 <= j < t.len() && t[j] == y;
            if j < i {
                assert(s[j] == y);
            } else {
                assert(s[j + 1] == y);
            }
        }
        if s.contains(y) && y != s[i] {
            let j = choose|j: int| 0 <= j < s.len() && s[j] == y;
            if j < i {
                assert(t[j] == y);
            } else {
                assert(j != i);
                assert(t[j - 1] == y);
            }
        }
    }
}

/// Inserting in a strictly increasing sequence, at the right place.
pub proof fn lemma_insert_increasing(s: Seq<usize>, i: int, x: usize)
    requires
        increasing(s),
        0 <= i <= s.len(),
        forall|j: int| 0 <= j < i ==> s[j] < x,
        forall|j: int| i <= j < s.len() ==> s[j] > x,
    ensures
        increasing(s.insert(i, x)),
{
    let t = s.insert(i, x);
    assert forall|a: int, b: int| 0 <= a < b < t.len() implies t[a] < t[b] by {
        if b < i {
            assert(t[a] == s[a] && t[b] == s[b]);
        } else if b == i {
            assert(t[a] == s[a]);
        } else if a < i {
            assert(t[b] == s[b - 1]);
        } else if a == i {
            assert(t[b] == s[b - 1]);
        } else {
            assert(t[a] == s[a - 1] && t[b] == s[b - 1]);
        }
    }
}

/// Removing from a strictly increasing sequence.
pub proof fn lemma_remove_increasing(s: Seq<usize>, i: int)
    requires
        increasing(s),
        0 <= i < s.len(),
    ensures
        increasing(s.remove(i)),
{
    let t = s.remove(i);
    assert forall|a: int, b: int| 0 <= a < b < t.len() implies t[a] < t[b] by {
        if b < i {
            assert(t[a] == s[a] && t[b] == s[b]);
        } else if a < i {
            assert(t[a] == s[a] && t[b] == s[b + 1]);
        } else {
            assert(t[a] == s[a + 1] && t[b] == s[b + 1]);
        }
    }
}

/// The indexes of the entries with some key: the index of the first one
/// (the representative), and the others, in increasing order.
#[derive(Clone, Debug, PartialEq, Eq)]
pub struct Indexes {
    /// Index of the first entry with the considered key (the representative).
    rep: usize,
    /// Other indexes with this key.
    other: Vec<usize>,
}

impl View for Indexes {
    type V = Seq<usize>;

    closed spec fn view(&self) -> Seq<usize> {
        seq![self.rep] + self.other@
    }
}

/// `x` shifted down past the removed index `index`.
pub open spec fn shifted_down(x: usize, index: usize) -> usize {
    if x > index {
        (x - 1) as usize
    } else {
        x
    }
}

/// `x` shifted up past the inserted index `index`.
pub open spec fn shifted_up(x: usize, index: usize) -> usize {
    if x >= index {
        (x + 1) as usize
    } else {
        x
    }
}

impl Indexes {
    /// The indexes are in strictly increasing order.
    pub open spec fn wf(&self) -> bool {
        increasing(self@)
    }

    pub proof fn lemma_view(&self)
        ensures
            self@.len() >= 1,
    {
    }

    pub fn new(rep: usize) -> (r: Indexes)
        ensures
            r@ == seq![rep],
            r.wf(),
    {
        let r = Indexes { rep, other: Vec::new() };
        assert(r@ =~= seq![rep]);
        r
    }

    /// Number of indexes.
    pub fn len(&self) -> (r: usize)
        requires
            self.wf(),
            forall|x: usize| self@.contains(x) ==> x < usize::MAX,
        ensures
            r == self@.len(),
    {
        proof {
            let s = self@;
            let n = self.other@.len() as int;
            lemma_increasing_lower(s, n);
            assert(s.contains(s[n]));
        }
        1 + self.other.len()
    }

    /// The index of the first entry.
    pub fn first(&self) -> (r: usize)
        ensures
            r == self@[0],
    {
        self.rep
    }

    /// There is more than one index.
    pub fn is_redundant(&self) -> (r: bool)
        ensures
            r == (self@.len() > 1),
    {
        self.other.len() != 0
    }

    /// The second index, if any.
    pub fn redundant(&self) -> (r: Option<usize>)
        ensures
            self@.len() > 1 ==> r == Some(self@[1]),
            self@.len() <= 1 ==> r is None,
    {
        if self.other.len() == 0 {
            None
        } else {
            Some(self.other[0])
        }
    }

    /// The indexes after the first one.
    pub fn redundants(&self) -> (r: &[usize])
        ensures
            r@ == self@.drop_first(),
    {
        assert(self@.drop_first() =~= self.other@);
        self.other.as_slice()
    }

    /// The indexes, in increasing order.
    pub fn iter(&self) -> (r: Vec<usize>)
        ensures
            r@ == self@,
    {
        let mut r: Vec<usize> = Vec::new();
        r.push(self.rep);
        let mut i: usize = 0;
        while i < self.other.len()
            invariant
                i <= self.other@.len(),
                r@ == seq![self.rep] + self.other@.take(i as int),
            decreases self.other@.len() - i,
        {
            r.push(self.other[i]);
            assert(self.other@.take(i + 1) =~= self.other@.take(i as int).push(
                self.other@[i as int],
            ));
            i = i + 1;
        }
        assert(self.other@.take(self.other@.len() as int) =~= self.other@);
        r
    }

    /// Adds the index `index`.
    pub fn insert(&mut self, index: usize)
        requires
            old(self).wf(),
        ensures
            final(self).wf(),
            adds(old(self)@, final(self)@, index),
    {
        let ghost old_view = self@;
        if index < self.rep {
            let r = self.rep;
            self.rep = index;
            self.other.insert(0, r);
            proof {
                assert forall|j: int| 0 <= j < old_view.len() implies old_view[j] > index by {
                    if j > 0 {
                        assert(old_view[0] < old_view[j]);
                    }
                }
                assert(self@ =~= old_view.insert(0, index));
                lemma_insert_contains(old_view, 0, index);
                lemma_insert_increasing(old_view, 0, index);
            }
        } else if index > self.rep {
            let i = self.position(index);
            if i < self.other.len() && self.other[i] == index {
                proof {
                    assert(old_view[i + 1] == index);
                    assert(old_view.contains(index));
                    assert(adds(old_view, old_view, index));
                }
            } else {
                proof {
                    assert forall|j: int| i + 1 <= j < old_view.len() implies old_view[j] > index by {
                        if j > i + 1 {
                            assert(old_view[i + 1] < old_view[j]);
                        }
                    }
                }
                self.other.insert(i, index);
                proof {
                    assert(self@ =~= old_view.insert(i + 1, index));
                    lemma_insert_contains(old_view, i + 1, index);
                    lemma_insert_increasing(old_view, i + 1, index);
                }
            }
        } else {
            proof {
                assert(old_view[0] == index);
                assert(old_view.contains(index));
                assert(adds(old_view, old_view, index));
            }
        }
    }

    /// The position, among the indexes after the first one, of the first
    /// index that is not below `index`.
    fn position(&self, index: usize) -> (i: usize)
        ensures
            i <= self.other@.len(),
            forall|j: int| 0 <= j < i ==> self.other@[j] < index,
            i < self.other@.len() ==> self.other@[i as int] >= index,
    {
        let mut i: usize = 0;
        while i < self.other.len() && self.other[i] < index
            invariant
                i <= self.other@.len(),
                forall|j: int| 0 <= j < i ==> self.other@[j] < index,
            decreases self.other@.len() - i,
        {
            i = i + 1;
        }
        i
    }

    /// Removes the index `index`, unless it is the last one.
    ///
    /// Returns `false` if it was the last index (and hence not removed).
    pub fn remove(&mut self, index: usize) -> (r: bool)
        requires
            old(self).wf(),
        ensures
            final(self).wf(),
            !r <==> old(self)@ == seq![index],
            !r ==> final(self)@ == old(self)@,
            r ==> drops(old(self)@, final(self)@, index),
    {
        let ghost old_view = self@;
        if self.rep == index {
            if self.other.len() == 0 {
                assert(old_view =~= seq![index]);
                false
            } else {
                self.rep = self.other.remove(0);
                proof {
                    assert(self@ =~= old_view.remove(0));
                    lemma_remove_contains(old_view, 0);
                    lemma_remove_increasing(old_view, 0);
                }
                true
            }
        } else {
            let i = self.position(index);
            if i < self.other.len() && self.other[i] == index {
                self.other.remove(i);
                proof {
                    assert(self@ =~= old_view.remove(i + 1));
                    lemma_remove_contains(old_view, i + 1);
                    lemma_remove_increasing(old_view, i + 1);
                    assert(old_view[i + 1] == index);
                }
            } else {
                proof {
                    assert forall|x: usize| old_view.contains(x) implies x != index by {
                        let j = choose|j: int| 0 <= j < old_view.len() && old_view[j] == x;
                        if j > 0 && x == index {
                            if j - 1 < i {
                                assert(self.other@[j - 1] < index);
                            } else if j - 1 > i {
                                assert(old_view[i + 1] < old_view[j]);
                            }
                        }
                    }
                    assert(drops(old_view, old_view, index));
                    assert(old_view.len() != 1 || old_view[0] != index);
                    assert(old_view != seq![index]);
                }
            }
            proof {
                if old_view == seq![index] {
                    assert(old_view[0] == index);
                }
            }
            true
        }
    }

    /// Decreases all indexes greater than `index` by one.
    pub fn shift_down(&mut self, index: usize)
        requires
            old(self).wf(),
            !old(self)@.contains(index),
        ensures
            final(self).wf(),
            final(self)@ == old(self)@.map_values(|x: usize| shifted_down(x, index)),
    {
        let ghost old_view = self@;
        if self.rep > index {
            self.rep = self.rep - 1;
        }
        let mut i: usize = 0;
        while i < self.other.len()
            invariant
                i <= self.other@.len(),
                self.other@.len() == old_view.len() - 1,
                self.rep == shifted_down(old_view[0], index),
                forall|j: int| 0 <= j < i ==> #[trigger] self.other@[j] == shifted_down(old_view[j + 1], index),
                forall|j: int| i <= j < self.other@.len() ==> #[trigger] self.other@[j] == old_view[j + 1],
            decreases self.other@.len() - i,
        {
            let x = self.other[i];
            if x > index {
                self.other.set(i, x - 1);
            }
            i = i + 1;
        }
        proof {
            assert(self@ =~= old_view.map_values(|x: usize| shifted_down(x, index)));
            assert forall|a: int, b: int| 0 <= a < b < self@.len() implies self@[a] < self@[b] by {
                assert(old_view[a] < old_view[b]);
                assert(old_view[a] != index);
                assert(old_view[b] != index);
            }
        }
    }

    /// Increases all indexes greater than or equal to `index` by one.
    pub fn shift_up(&mut self, index: usize)
        requires
            old(self).wf(),
            forall|x: usize| old(self)@.contains(x) ==> x < usize::MAX,
        ensures
            final(self).wf(),
            final(self)@ == old(self)@.map_values(|x: usize| shifted_up(x, index)),
    {
        let ghost old_view = self@;
        assert(old_view.contains(old_view[0]));
        if self.rep >= index {
            self.rep = self.rep + 1;
        }
        let mut i: usize = 0;
        while i < self.other.len()
            invariant
                i <= self.other@.len(),
                self.other@.len() == old_view.len() - 1,
                forall|x: usize| old_view.contains(x) ==> x < usize::MAX,
                self.rep == shifted_up(old_view[0], index),
                forall|j: int| 0 <= j < i ==> #[trigger] self.other@[j] == shifted_up(old_view[j + 1], index),
                forall|j: int| i <= j < self.other@.len() ==> #[trigger] self.other@[j] == old_view[j + 1],
            decreases self.other@.len() - i,
        {
            let x = self.other[i];
            assert(old_view.contains(old_view[i + 1]));
            if x >= index {
                self.other.set(i, x + 1);
            }
            i = i + 1;
        }
        proof {
            assert(self@ =~= old_view.map_values(|x: usize| shifted_up(x, index)));
            assert forall|a: int, b: int| 0 <= a < b < self@.len() implies self@[a] < self@[b] by {
                assert(old_view[a] < old_view[b]);
                assert(old_view.contains(old_view[b]));
            }
        }
    }
}

/// In a strictly increasing sequence, the element at `i` is at least `i`.
proof fn lemma_increasing_lower(s: Seq<usize>, i: int)
    requires
        increasing(s),
        0 <= i < s.len(),
    ensures
        s[i] >= i,
    decreases i,
{
    if i > 0 {
        lemma_increasing_lower(s, i - 1);
    }
}

/// Hash table from keys to the indexes of the entries with that key: a
/// `hashbrown::HashMap`.
#[verifier::external_body]
#[derive(Debug)]
pub struct IndexTable {
    map: hashbrown::HashMap<String, Indexes>,
}

/// No key at all.
pub open spec fn empty_contents() -> Map<Seq<char>, Seq<usize>> {
    Map::empty()
}

/// What the table holds: each key with its indexes.
pub uninterp spec fn table_contents(t: IndexTable) -> Map<Seq<char>, Seq<usize>>;

impl Clone for IndexTable {
    /// `hashbrown::HashMap::clone`: a table with the same contents.
    #[verifier::external_body]
    fn clone(&self) -> (r: IndexTable)
        ensures
            table_contents(r) == table_contents(*self),
    {
        IndexTable { map: self.map.clone() }
    }
}

impl IndexTable {
    /// `hashbrown::HashMap::new`: an empty table.
    #[verifier::external_body]
    fn new() -> (r: IndexTable)
        ensures
            table_contents(r) == empty_contents(),
    {
        IndexTable { map: hashbrown::HashMap::new() }
    }

    /// `hashbrown::HashMap::get`: the indexes of `key`, if the table holds
    /// it.
    #[verifier::external_body]
    fn get(&self, key: &str) -> (r: Option<&Indexes>)
        ensures
            r is Some <==> table_contents(*self).dom().contains(key@),
            r matches Some(ix) ==> ix@ == table_contents(*self)[key@],
    {
        self.map.get(key)
    }

    /// `hashbrown::HashMap::insert`: associates `indexes` to `key`,
    /// replacing what was associated to it.
    #[verifier::external_body]
    fn insert(&mut self, key: String, indexes: Indexes)
        ensures
            table_contents(*final(self)) == table_contents(*old(self)).insert(key@, indexes@),
    {
        self.map.insert(key, indexes);
    }

    /// `hashbrown::HashMap::remove`: removes `key`, and gives back its
    /// indexes.
    #[verifier::external_body]
    fn remove(&mut self, key: &str) -> (r: Option<Indexes>)
        ensures
            table_contents(*final(self)) == table_contents(*old(self)).remove(key@),
            r is Some <==> table_contents(*old(self)).dom().contains(key@),
            r matches Some(ix) ==> ix@ == table_contents(*old(self))[key@],
    {
        self.map.remove(key)
    }

    /// `hashbrown::HashMap::len`: the number of keys.
    #[verifier::external_body]
    fn len(&self) -> (r: usize)
        ensures
            r == table_contents(*self).dom().len(),
    {
        self.map.len()
    }

    /// `hashbrown::HashMap::clear`: removes everything.
    #[verifier::external_body]
    fn clear(&mut self)
        ensures
            table_contents(*final(self)) == empty_contents(),
    {
        self.map.clear()
    }

    /// `hashbrown::HashMap::drain`: removes everything, and gives back each
    /// key with its indexes, once, in an order left open.
    #[verifier::external_body]
    fn drain(&mut self) -> (r: Vec<KeyIndexes>)
        ensures
            table_contents(*final(self)) == empty_contents(),
            lists_contents(r@, table_contents(*old(self))),
    {
        self.map.drain().collect()
    }

    /// `hashbrown::HashMap::values`, collected: the indexes of each key, in
    /// an order left open.
    #[verifier::external_body]
    fn values(&self) -> (r: Vec<Indexes>)
        ensures
            lists_values(r@, table_contents(*self)),
    {
        self.map.values().cloned().collect()
    }
}

/// The indexes `x` are those of some key of `m`.
pub open spec fn held(x: Seq<usize>, m: Map<Seq<char>, Seq<usize>>) -> bool {
    exists|k: Seq<char>| m.dom().contains(k) && m[k] == x
}

/// The indexes `x` are those of some item of `r`.
pub open spec fn listed(r: Seq<Indexes>, x: Seq<usize>) -> bool {
    exists|j: int| 0 <= j < r.len() && r[j]@ == x
}

/// The items of `r` are the indexes of the keys of `m`, those of each key
/// at least once.
pub open spec fn lists_values(r: Seq<Indexes>, m: Map<Seq<char>, Seq<usize>>) -> bool {
    &&& forall|j: int| 0 <= j < r.len() ==> #[trigger] held(r[j]@, m)
    &&& forall|k: Seq<char>| m.dom().contains(k) ==> #[trigger] listed(r, m[k])
}

/// A key with its indexes.
pub type KeyIndexes = (String, Indexes);

/// The pairs `r` are the keys of `m`, each once, with its indexes.
pub open spec fn lists_contents(r: Seq<KeyIndexes>, m: Map<Seq<char>, Seq<usize>>) -> bool {
    &&& forall|i: int, j: int|
        #![trigger r[i], r[j]]
        0 <= i < j < r.len() ==> r[i].0@ != r[j].0@
    &&& forall|j: int|
        0 <= j < r.len() ==> m.dom().contains((#[trigger] r[j]).0@) && r[j].1@ == m[r[j].0@]
    &&& forall|k: Seq<char>| m.dom().contains(k) ==> exists|j: int| 0 <= j < r.len() && (#[trigger] r[j]).0@ == k
}

/// Some key of `m` has more than one index.
pub open spec fn has_redundant(m: Map<Seq<char>, Seq<usize>>) -> bool {
    exists|k: Seq<char>| m.dom().contains(k) && #[trigger] m[k].len() > 1
}

/// Every key of the table has its indexes in strictly increasing order.
pub open spec fn values_wf(m: Map<Seq<char>, Seq<usize>>) -> bool {
    forall|k: Seq<char>| m.dom().contains(k) ==> increasing(#[trigger] m[k])
}

/// The index of an object: for each key, the indexes of the entries with
/// that key.
#[derive(Debug)]
pub struct IndexMap {
    table: IndexTable,
}

impl Clone for IndexMap {
    fn clone(&self) -> (r: IndexMap)
        ensures
            r.contents() == self.contents(),
    {
        IndexMap { table: self.table.clone() }
    }
}

impl IndexMap {
    /// Each key with its indexes.
    pub closed spec fn contents(&self) -> Map<Seq<char>, Seq<usize>> {
        table_contents(self.table)
    }

    pub fn new() -> (r: IndexMap)
        ensures
            r.contents() == Map::<Seq<char>, Seq<usize>>::empty(),
    {
        IndexMap { table: IndexTable::new() }
    }

    /// The indexes of the key `key`, if any.
    pub fn get(&self, key: &str) -> (r: Option<&Indexes>)
        ensures
            r is Some <==> self.contents().dom().contains(key@),
            r matches Some(ix) ==> ix@ == self.contents()[key@],
    {
        self.table.get(key)
    }

    /// Number of keys.
    pub fn len(&self) -> (r: usize)
        ensures
            r == self.contents().dom().len(),
    {
        self.table.len()
    }

    /// Whether some key has more than one index.
    pub fn contains_duplicate_keys(&self) -> (r: bool)
        ensures
            r == has_redundant(self.contents()),
    {
        let all = self.table.values();
        let ghost m = table_contents(self.table);
        let mut i: usize = 0;
        while i < all.len()
            invariant
                i <= all@.len(),
                lists_values(all@, m),
                m == self.contents(),
                forall|j: int| 0 <= j < i ==> (#[trigger] all@[j])@.len() <= 1,
            decreases all@.len() - i,
        {
            if all[i].is_redundant() {
                proof {
                    assert(held(all@[i as int]@, m));
                    let k = choose|k: Seq<char>| m.dom().contains(k) && m[k] == all@[i as int]@;
                    assert(m.dom().contains(k) && m[k].len() > 1);
                    assert(has_redundant(m));
                    assert(m == self.contents());
                }
                return true;
            }
            i = i + 1;
        }
        proof {
            assert forall|k: Seq<char>| m.dom().contains(k) implies #[trigger] m[k].len() <= 1 by {
                assert(listed(all@, m[k]));
                let j = choose|j: int| 0 <= j < all@.len() && all@[j]@ == m[k];
                assert(all@[j]@.len() <= 1);
            }
        }
        false
    }

    /// Associates the key `key` to `index`.
    ///
    /// Returns `true` if no index was already associated to the key.
    pub fn insert(&mut self, key: &String, index: usize) -> (r: bool)
        requires
            values_wf(old(self).contents()),
        ensures
            values_wf(final(self).contents()),
            r == !old(self).contents().dom().contains(key@),
            final(self).contents().dom() == old(self).contents().dom().insert(key@),
            forall|k: Seq<char>|
                old(self).contents().dom().contains(k) && k != key@ ==> #[trigger] final(self).contents()[k] == old(self).contents()[k],
            forall|x: usize|
                #[trigger] final(self).contents()[key@].contains(x) <==> (old(self).contents().dom().contains(key@) && old(self).contents()[key@].contains(x))
                    || x == index,
    {
        match self.table.remove(key.as_str()) {
            Some(mut indexes) => {
                indexes.insert(index);
                self.table.insert(key.clone(), indexes);
                proof {
                    assert(self.contents().dom() =~= old(self).contents().dom().insert(key@));
                }
                false
            },
            None => {
                let indexes = Indexes::new(index);
                self.table.insert(key.clone(), indexes);
                proof {
                    assert(self.contents().dom() =~= old(self).contents().dom().insert(key@));
                    assert(increasing(seq![index]));
                    assert forall|x: usize| #[trigger] self.contents()[key@].contains(x) <==> x
                        == index by {
                        if self.contents()[key@].contains(x) {
                            assert(self.contents()[key@] == seq![index]);
                        }
                        if x == index {
                            assert(self.contents()[key@][0] == index);
                        }
                    }
                }
                true
            },
        }
    }

    /// Removes the association between the key `key` and `index`.
    pub fn remove(&mut self, key: &String, index: usize)
        requires
            values_wf(old(self).contents()),
        ensures
            values_wf(final(self).contents()),
            !old(self).contents().dom().contains(key@) ==> final(self).contents() == old(self).contents(),
            old(self).contents().dom().contains(key@) && old(self).contents()[key@] == seq![index]
                ==> final(self).contents() == old(self).contents().remove(key@),
            old(self).contents().dom().contains(key@) && old(self).contents()[key@] != seq![index]
                ==> {
                &&& final(self).contents().dom() == old(self).contents().dom()
                &&& forall|k: Seq<char>|
                    old(self).contents().dom().contains(k) && k != key@ ==> #[trigger] final(self).contents()[k] == old(self).contents()[k]
                &&& forall|x: usize|
                    #[trigger] final(self).contents()[key@].contains(x) <==> old(self).contents()[key@].contains(x) && x != index
            },
    {
        match self.table.remove(key.as_str()) {
            Some(mut indexes) => {
                if indexes.remove(index) {
                    self.table.insert(key.clone(), indexes);
                    proof {
                        assert(self.contents().dom() =~= old(self).contents().dom());
                    }
                } else {
                    proof {
                        assert(self.contents() == old(self).contents().remove(key@));
                    }
                }
            },
            None => {
                proof {
                    assert(self.contents() =~= old(self).contents());
                }
            },
        }
    }

    /// Decreases all indexes greater than `index` by one everywhere in the
    /// table.
    pub fn shift_down(&mut self, index: usize)
        requires
            values_wf(old(self).contents()),
            forall|k: Seq<char>|
                old(self).contents().dom().contains(k) ==> !(#[trigger] old(self).contents()[k]).contains(
                    index,
                ),
        ensures
            values_wf(final(self).contents()),
            final(self).contents().dom() == old(self).contents().dom(),
            forall|k: Seq<char>|
                old(self).contents().dom().contains(k) ==> #[trigger] final(self).contents()[k] == old(self).contents()[k].map_values(|x: usize| shifted_down(x, index)),
    {
        let ghost old_contents = self.contents();
        let mut drained = self.table.drain();
        let ghost d0 = drained@;
        while drained.len() > 0
            invariant
                drained@ == d0.take(drained@.len() as int),
                drained@.len() <= d0.len(),
                values_wf(old_contents),
                forall|k: Seq<char>|
                    old_contents.dom().contains(k) ==> !(#[trigger] old_contents[k]).contains(index),
                forall|j: int|
                    0 <= j < d0.len() ==> old_contents.dom().contains((#[trigger] d0[j]).0@)
                        && d0[j].1@ == old_contents[d0[j].0@],
                forall|k: Seq<char>|
                    old_contents.dom().contains(k) ==> exists|j: int|
                        0 <= j < d0.len() && (#[trigger] d0[j]).0@ == k,
                forall|k: Seq<char>|
                    #[trigger] self.contents().dom().contains(k) <==> exists|j: int|
                        drained@.len() <= j < d0.len() && (#[trigger] d0[j]).0@ == k,
                forall|k: Seq<char>|
                    #[trigger] self.contents().dom().contains(k) ==> self.contents()[k]
                        == old_contents[k].map_values(|x: usize| shifted_down(x, index)),
                values_wf(self.contents()),
            decreases drained@.len(),
        {
            let ghost n = drained@.len();
            match drained.pop() {
                None => {},
                Some((key, mut indexes)) => {
                    proof {
                        assert(d0[n - 1] == (key, indexes));
                    }
                    indexes.shift_down(index);
                    let ghost before = self.contents();
                    self.table.insert(key, indexes);
                    proof {
                        assert forall|k: Seq<char>| #[trigger] self.contents().dom().contains(k) <==> exists|j: int|
                            drained@.len() <= j < d0.len() && (#[trigger] d0[j]).0@ == k by {
                            if k == key@ {
                                assert(d0[n - 1].0@ == k);
                            }
                            if exists|j: int| drained@.len() <= j < d0.len() && (#[trigger] d0[j]).0@ == k {
                                let j = choose|j: int| drained@.len() <= j < d0.len() && (#[trigger] d0[j]).0@ == k;
                                if j > n - 1 {
                                    assert(before.dom().contains(k));
                                }
                            }
                        }
                        assert(drained@ =~= d0.take(drained@.len() as int));
                    }
                },
            }
        }
        proof {
            assert forall|k: Seq<char>| #[trigger] self.contents().dom().contains(k) <==> old_contents.dom().contains(k) by {
                if old_contents.dom().contains(k) {
                    let j = choose|j: int| 0 <= j < d0.len() && (#[trigger] d0[j]).0@ == k;
                    assert(self.contents().dom().contains(d0[j].0@));
                }
            }
            assert(self.contents().dom() =~= old_contents.dom());
        }
    }

    /// Increases all indexes greater than or equal to `index` by one
    /// everywhere in the table.
    pub fn shift_up(&mut self, index: usize)
        requires
            values_wf(old(self).contents()),
            forall|k: Seq<char>, x: usize|
                old(self).contents().dom().contains(k) && #[trigger] old(self).contents()[k].contains(x)
                    ==> x < usize::MAX,
        ensures
            values_wf(final(self).contents()),
            final(self).contents().dom() == old(self).contents().dom(),
            forall|k: Seq<char>|
                old(self).contents().dom().contains(k) ==> #[trigger] final(self).contents()[k] == old(self).contents()[k].map_values(|x: usize| shifted_up(x, index)),
    {
        let ghost old_contents = self.contents();
        let mut drained = self.table.drain();
        let ghost d0 = drained@;
        while drained.len() > 0
            invariant
                drained@ == d0.take(drained@.len() as int),
                drained@.len() <= d0.len(),
                values_wf(old_contents),
                forall|k: Seq<char>, x: usize|
                    old_contents.dom().contains(k) && #[trigger] old_contents[k].contains(x) ==> x
                        < usize::MAX,
                forall|j: int|
                    0 <= j < d0.len() ==> old_contents.dom().contains((#[trigger] d0[j]).0@)
                        && d0[j].1@ == old_contents[d0[j].0@],
                forall|k: Seq<char>|
                    old_contents.dom().contains(k) ==> exists|j: int|
                        0 <= j < d0.len() && (#[trigger] d0[j]).0@ == k,
                forall|k: Seq<char>|
                    #[trigger] self.contents().dom().contains(k) <==> exists|j: int|
                        drained@.len() <= j < d0.len() && (#[trigger] d0[j]).0@ == k,
                forall|k: Seq<char>|
                    #[trigger] self.contents().dom().contains(k) ==> self.contents()[k]
                        == old_contents[k].map_values(|x: usize| shifted_up(x, index)),
                values_wf(self.contents()),
            decreases drained@.len(),
        {
            let ghost n = drained@.len();
            match drained.pop() {
                None => {},
                Some((key, mut indexes)) => {
                    proof {
                        assert(d0[n - 1] == (key, indexes));
                    }
                    indexes.shift_up(index);
                    let ghost before = self.contents();
                    self.table.insert(key, indexes);
                    proof {
                        assert forall|k: Seq<char>| #[trigger] self.contents().dom().contains(k) <==> exists|j: int|
                            drained@.len() <= j < d0.len() && (#[trigger] d0[j]).0@ == k by {
                            if k == key@ {
                                assert(d0[n - 1].0@ == k);
                            }
                            if exists|j: int| drained@.len() <= j < d0.len() && (#[trigger] d0[j]).0@ == k {
                                let j = choose|j: int| drained@.len() <= j < d0.len() && (#[trigger] d0[j]).0@ == k;
                                if j > n - 1 {
                                    assert(before.dom().contains(k));
                                }
                            }
                        }
                        assert(drained@ =~= d0.take(drained@.len() as int));
                    }
                },
            }
        }
        proof {
            assert forall|k: Seq<char>| #[trigger] self.contents().dom().contains(k) <==> old_contents.dom().contains(k) by {
                if old_contents.dom().contains(k) {
                    let j = choose|j: int| 0 <= j < d0.len() && (#[trigger] d0[j]).0@ == k;
                    assert(self.contents().dom().contains(d0[j].0@));
                }
            }
            assert(self.contents().dom() =~= old_contents.dom());
        }
    }

    /// Removes every key.
    pub fn clear(&mut self)
        ensures
            final(self).contents() == Map::<Seq<char>, Seq<usize>>::empty(),
    {
        self.table.clear()
    }
}

/// Whether a key designates the key `key`.
pub trait Equivalent<K: ?Sized> {
    fn equivalent(&self, key: &K) -> bool;
}

impl Equivalent<String> for str {
    fn equivalent(&self, key: &String) -> (r: bool)
        ensures
            r == (self@ == key@),
    {
        let k: &str = key.as_str();
        let mut i: usize = 0;
        let n = self.unicode_len();
        if n != k.unicode_len() {
            return false;
        }
        while i < n
            invariant
                n == self@.len(),
                n == k@.len(),
                k@ == key@,
                i <= n,
                forall|j: int| 0 <= j < i ==> self@[j] == k@[j],
            decreases n - i,
        {
            if self.get_char(i) != k.get_char(i) {
                return false;
            }
            i = i + 1;
        }
        proof {
            assert(self@ =~= k@);
        }
        true
    }
}

} // verus!
