//! An ordered map keyed by names.
//!
//! The entries are kept in the order of their names, so that whatever walks the
//! map sees the names ascending, and every name occurs once.

use crate::text::{chars_of, str_eq};
use vstd::prelude::*;

verus! {

/// `a` comes before `b`, character by character.
pub open spec fn before(a: Seq<char>, b: Seq<char>) -> bool
    decreases a.len(),
{
    if b.len() == 0 {
        false
    } else if a.len() == 0 {
        true
    } else if a[0] != b[0] {
        a[0] < b[0]
    } else {
        before(a.skip(1), b.skip(1))
    }
}

/// No text comes before itself.
pub proof fn lemma_before_irreflexive(a: Seq<char>)
    ensures
        !before(a, a),
    decreases a.len(),
{
    if a.len() > 0 {
        lemma_before_irreflexive(a.skip(1));
    }
}

/// The order is transitive.
pub proof fn lemma_before_transitive(a: Seq<char>, b: Seq<char>, c: Seq<char>)
    requires
        before(a, b),
        before(b, c),
    ensures
        before(a, c),
    decreases a.len(),
{
    if a.len() > 0 && a[0] == b[0] && b[0] == c[0] {
        lemma_before_transitive(a.skip(1), b.skip(1), c.skip(1));
    }
}

/// Of two different texts one comes before the other.
pub proof fn lemma_before_total(a: Seq<char>, b: Seq<char>)
    ensures
        a == b || before(a, b) || before(b, a),
    decreases a.len(),
{
    if a.len() == 0 {
        assert(b.len() == 0 ==> a =~= b);
    } else if b.len() > 0 && a[0] == b[0] {
        lemma_before_total(a.skip(1), b.skip(1));
        if a.skip(1) == b.skip(1) {
            assert(a =~= seq![a[0]] + a.skip(1));
            assert(b =~= seq![b[0]] + b.skip(1));
        }
    }
}

/// Whether `a` comes before `b`.
pub fn is_before(a: &str, b: &str) -> (r: bool)
    ensures
        r == before(a@, b@),
{
    let x = chars_of(a);
    let y = chars_of(b);
    let mut i: usize = 0;
    assert(x@.skip(0) =~= x@);
    assert(y@.skip(0) =~= y@);
    while i < x.len() && i < y.len() && x[i] == y[i]
        invariant
            i <= x@.len(),
            i <= y@.len(),
            before(x@, y@) == before(x@.skip(i as int), y@.skip(i as int)),
        decreases x@.len() - i,
    {
        assert(x@.skip(i as int).skip(1) =~= x@.skip(i + 1));
        assert(y@.skip(i as int).skip(1) =~= y@.skip(i + 1));
        i += 1;
    }
    if i >= y.len() {
        false
    } else if i >= x.len() {
        true
    } else {
        x[i] < y[i]
    }
}

/// Names, each before the next.
pub open spec fn names_ascend(names: Seq<Seq<char>>) -> bool {
    forall|i: int, j: int| 0 <= i < j < names.len() ==> before(#[trigger] names[i], #[trigger] names[j])
}

/// One more name.
pub proof fn lemma_push_contains(names: Seq<Seq<char>>, name: Seq<char>)
    ensures
        forall|n: Seq<char>| #[trigger]
            names.push(name).contains(n) <==> n == name || names.contains(n),
{
    let more = names.push(name);
    assert(more[names.len() as int] == name);
    assert forall|n: Seq<char>| #[trigger] more.contains(n) <==> n == name || names.contains(n) by {
        if names.contains(n) {
            let i = names.index_of(n);
            assert(more[i] == n);
        }
        if more.contains(n) && n != name {
            let i = more.index_of(n);
            assert(more[i] == n);
            assert(names[i] == n);
        }
    }
}

/// A map from names to values, in the order of the names.
#[derive(Debug, Clone)]
pub struct NameMap<V> {
    pub entries: Vec<(String, V)>,
}

impl<V> NameMap<V> {
    /// The names in order.
    pub open spec fn names(self) -> Seq<Seq<char>> {
        self.entries@.map_values(|e: (String, V)| e.0@)
    }

    /// The names ascend.
    pub open spec fn wf(self) -> bool {
        names_ascend(self.names())
    }

    /// The value of the entry at a position.
    pub open spec fn value_at(self, i: int) -> V {
        self.entries@[i].1
    }

    /// The name has an entry.
    pub open spec fn has(self, name: Seq<char>) -> bool {
        self.names().contains(name)
    }

    /// The value of a name.
    pub open spec fn at(self, name: Seq<char>) -> V {
        self.value_at(self.names().index_of(name))
    }
}

impl<V> View for NameMap<V> {
    type V = Map<Seq<char>, V>;

    open spec fn view(&self) -> Map<Seq<char>, V> {
        Map::new(|name: Seq<char>| self.has(name), |name: Seq<char>| self.at(name))
    }
}

/// A name stands at one position only.
pub proof fn lemma_position<V>(m: NameMap<V>, i: int)
    requires
        m.wf(),
        0 <= i < m.entries@.len(),
    ensures
        m.names()[i] == m.entries@[i].0@,
        m.has(m.names()[i]),
        m.names().index_of(m.names()[i]) == i,
        m@.contains_key(m.names()[i]),
        m@[m.names()[i]] == m.value_at(i),
{
    let n = m.names()[i];
    let k = m.names().index_of(n);
    assert(m.names()[k] == n);
    lemma_before_irreflexive(n);
    if k < i {
        assert(before(m.names()[k], m.names()[i]));
    } else if i < k {
        assert(before(m.names()[i], m.names()[k]));
    }
}

/// The names of a map are all different.
pub proof fn lemma_names_distinct<V>(m: NameMap<V>)
    requires
        m.wf(),
    ensures
        m.names().no_duplicates(),
{
    assert forall|i: int, j: int| 0 <= i < j < m.names().len() implies m.names()[i]
        != m.names()[j] by {
        lemma_before_irreflexive(m.names()[i]);
    }
}

impl<V> NameMap<V> {
    /// A map without entries.
    pub fn new() -> (r: Self)
        ensures
            r.wf(),
            r.names().len() == 0,
            (r@ == Map::<Seq<char>, V>::empty()),
    {
        let r = NameMap { entries: Vec::new() };
        assert(r@ =~= Map::<Seq<char>, V>::empty());
        r
    }

    pub fn len(&self) -> (r: usize)
        ensures
            r == self.names().len(),
    {
        self.entries.len()
    }

    pub fn is_empty(&self) -> (r: bool)
        ensures
            r == (self.names().len() == 0),
    {
        self.entries.len() == 0
    }

    /// How many entries come before a name.
    fn rank(&self, name: &str) -> (r: usize)
        requires
            self.wf(),
        ensures
            r <= self.entries@.len(),
            forall|i: int| 0 <= i < r ==> before(#[trigger] self.names()[i], name@),
            forall|i: int|
                r <= i < self.entries@.len() ==> !before(#[trigger] self.names()[i], name@),
    {
        let mut lo: usize = 0;
        let mut hi: usize = self.entries.len();
        while lo < hi
            invariant
                lo <= hi <= self.entries@.len(),
                self.wf(),
                forall|i: int| 0 <= i < lo ==> before(#[trigger] self.names()[i], name@),
                forall|i: int|
                    hi <= i < self.entries@.len() ==> !before(#[trigger] self.names()[i], name@),
            decreases hi - lo,
        {
            let mid = lo + (hi - lo) / 2;
            assert(self.names()[mid as int] == self.entries@[mid as int].0@);
            if is_before(self.entries[mid].0.as_str(), name) {
                proof {
                    assert forall|i: int| 0 <= i < mid + 1 implies before(
                        #[trigger] self.names()[i],
                        name@,
                    ) by {
                        if i < mid {
                            lemma_before_transitive(
                                self.names()[i],
                                self.names()[mid as int],
                                name@,
                            );
                        }
                    }
                }
                lo = mid + 1;
            } else {
                proof {
                    assert forall|i: int| mid <= i < self.entries@.len() implies !before(
                        #[trigger] self.names()[i],
                        name@,
                    ) by {
                        if mid < i && before(self.names()[i], name@) {
                            lemma_before_transitive(
                                self.names()[mid as int],
                                self.names()[i],
                                name@,
                            );
                        }
                    }
                }
                hi = mid;
            }
        }
        lo
    }

    /// The position of a name.
    pub fn find(&self, name: &str) -> (r: Option<usize>)
        requires
            self.wf(),
        ensures
            r is Some == self@.contains_key(name@),
            r matches Some(i) ==> {
                &&& i < self.entries@.len()
                &&& self.entries@[i as int].0@ == name@
                &&& self@[name@] == self.value_at(i as int)
            },
    {
        let k = self.rank(name);
        if k < self.entries.len() && str_eq(self.entries[k].0.as_str(), name) {
            proof {
                lemma_position(*self, k as int);
            }
            Some(k)
        } else {
            proof {
                if self.has(name@) {
                    let i = self.names().index_of(name@);
                    assert(self.names()[i] == name@);
                    lemma_before_irreflexive(name@);
                    assert(i >= k);
                    if i > k {
                        assert(before(self.names()[k as int], self.names()[i]));
                    } else {
                        assert(self.names()[k as int] == self.entries@[k as int].0@);
                    }
                }
            }
            None
        }
    }

    pub fn contains_key(&self, name: &str) -> (r: bool)
        requires
            self.wf(),
        ensures
            r == self@.contains_key(name@),
    {
        self.find(name).is_some()
    }

    /// The value of a name.
    pub fn get(&self, name: &str) -> (r: Option<&V>)
        requires
            self.wf(),
        ensures
            r is Some == self@.contains_key(name@),
            r matches Some(v) ==> *v == self@[name@],
    {
        match self.find(name) {
            Some(i) => Some(&self.entries[i].1),
            None => None,
        }
    }

    /// Gives a name a value, in place of the one it had.
    pub fn insert(&mut self, name: String, value: V)
        requires
            old(self).wf(),
        ensures
            final(self).wf(),
            final(self)@ == old(self)@.insert(name@, value),
    {
        let k = self.rank(name.as_str());
        let ghost n = name@;
        proof {
            lemma_before_irreflexive(n);
        }
        if k < self.entries.len() && str_eq(self.entries[k].0.as_str(), name.as_str()) {
            self.entries.set(k, (name, value));
            proof {
                assert(self.names() =~= old(self).names());
                assert forall|m: Seq<char>| self@.contains_key(m) == old(self)@.insert(
                    n,
                    value,
                ).contains_key(m) by {
                    lemma_position(*old(self), k as int);
                }
                assert forall|m: Seq<char>| self@.contains_key(m) implies #[trigger] self@[m]
                    == old(self)@.insert(n, value)[m] by {
                    let i = self.names().index_of(m);
                    assert(self.names()[i] == m);
                    lemma_position(*self, i);
                    lemma_position(*old(self), i);
                    lemma_position(*old(self), k as int);
                }
                assert(self@ =~= old(self)@.insert(n, value));
            }
        } else {
            self.entries.insert(k, (name, value));
            proof {
                let was = old(self).names();
                let now = self.names();
                assert(now =~= was.insert(k as int, n));
                assert forall|i: int| k <= i < was.len() implies before(n, #[trigger] was[i]) by {
                    lemma_before_total(n, was[i]);
                    if was[i] == n {
                        if k < i {
                            assert(before(was[k as int], was[i]));
                        } else {
                            assert(was[k as int] == old(self).entries@[k as int].0@);
                        }
                    }
                }
                assert forall|i: int, j: int| 0 <= i < j < now.len() implies before(
                    #[trigger] now[i],
                    #[trigger] now[j],
                ) by {
                    if i == k {
                        assert(now[j] == was[j - 1]);
                    } else if j == k {
                        assert(now[i] == was[i]);
                    } else {
                        let a = if i < k {
                            i
                        } else {
                            i - 1
                        };
                        let b = if j < k {
                            j
                        } else {
                            j - 1
                        };
                        assert(now[i] == was[a]);
                        assert(now[j] == was[b]);
                    }
                }
                assert forall|m: Seq<char>| self@.contains_key(m) <==> old(self)@.insert(
                    n,
                    value,
                ).contains_key(m) by {
                    if self.has(m) {
                        let i = now.index_of(m);
                        assert(now[i] == m);
                        if i < k {
                            assert(was[i] == m);
                        } else if i > k {
                            assert(was[i - 1] == m);
                        }
                    }
                    if old(self).has(m) {
                        let i = was.index_of(m);
                        assert(was[i] == m);
                        if i < k {
                            assert(now[i] == m);
                        } else {
                            assert(now[i + 1] == m);
                        }
                    }
                    assert(now[k as int] == n);
                }
                assert forall|m: Seq<char>| self@.contains_key(m) implies #[trigger] self@[m]
                    == old(self)@.insert(n, value)[m] by {
                    let i = now.index_of(m);
                    assert(now[i] == m);
                    lemma_position(*self, i);
                    lemma_position(*self, k as int);
                    if i < k {
                        lemma_position(*old(self), i);
                    } else if i > k {
                        lemma_position(*old(self), i - 1);
                    }
                }
                assert(self@ =~= old(self)@.insert(n, value));
            }
        }
    }

    /// Takes a name's entry out.
    pub fn remove(&mut self, name: &str) -> (r: Option<V>)
        requires
            old(self).wf(),
        ensures
            final(self).wf(),
            final(self)@ == old(self)@.remove(name@),
            r is Some == old(self)@.contains_key(name@),
            r matches Some(v) ==> v == old(self)@[name@],
    {
        match self.find(name) {
            Some(k) => {
                let ghost was = old(self).names();
                let (_, value) = self.entries.remove(k);
                proof {
                    let now = self.names();
                    assert(now =~= was.remove(k as int));
                    assert(was[k as int] == name@);
                    lemma_position(*old(self), k as int);
                    assert forall|i: int, j: int| 0 <= i < j < now.len() implies before(
                        #[trigger] now[i],
                        #[trigger] now[j],
                    ) by {
                        let a = if i < k {
                            i
                        } else {
                            i + 1
                        };
                        let b = if j < k {
                            j
                        } else {
                            j + 1
                        };
                        assert(now[i] == was[a]);
                        assert(now[j] == was[b]);
                    }
                    assert forall|m: Seq<char>| self@.contains_key(m) <==> old(self)@.remove(
                        name@,
                    ).contains_key(m) by {
                        if self.has(m) {
                            let i = now.index_of(m);
                            assert(now[i] == m);
                            let a = if i < k {
                                i
                            } else {
                                i + 1
                            };
                            assert(was[a] == m);
                            lemma_position(*old(self), a);
                        }
                        if old(self).has(m) && m != name@ {
                            let i = was.index_of(m);
                            assert(was[i] == m);
                            if i < k {
                                assert(now[i] == m);
                            } else {
                                assert(now[i - 1] == m);
                            }
                        }
                    }
                    assert forall|m: Seq<char>| self@.contains_key(m) implies #[trigger] self@[m]
                        == old(self)@.remove(name@)[m] by {
                        let i = now.index_of(m);
                        assert(now[i] == m);
                        lemma_position(*self, i);
                        let a = if i < k {
                            i
                        } else {
                            i + 1
                        };
                        lemma_position(*old(self), a);
                    }
                    assert(self@ =~= old(self)@.remove(name@));
                }
                Some(value)
            },
            None => {
                assert(self@ =~= old(self)@.remove(name@));
                None
            },
        }
    }
}

/// Texts are ordered by the first character in which they differ, and where one is
/// the beginning of the other, the shorter one comes first.
pub proof fn law_the_first_difference_decides(a: Seq<char>, b: Seq<char>, k: int)
    requires
        0 <= k <= a.len(),
        k <= b.len(),
        a.take(k) == b.take(k),
    ensures
        k < a.len() && k < b.len() && a[k] < b[k] ==> before(a, b) && !before(b, a),
        k == a.len() && k < b.len() ==> before(a, b) && !before(b, a),
        k == a.len() && k == b.len() ==> !before(a, b) && !before(b, a),
    decreases k,
{
    if k > 0 {
        assert(a[0] == a.take(k)[0] && b[0] == b.take(k)[0]);
        assert(a.skip(1).take(k - 1) =~= a.take(k).skip(1));
        assert(b.skip(1).take(k - 1) =~= b.take(k).skip(1));
        law_the_first_difference_decides(a.skip(1), b.skip(1), k - 1);
    }
}

/// What a map holds is its entries: each name has the value that stands beside it,
/// and no other name has one.
pub proof fn law_a_map_holds_its_entries<V>(m: NameMap<V>, name: Seq<char>, i: int)
    requires
        m.wf(),
    ensures
        0 <= i < m.entries@.len() && m.entries@[i].0@ == name ==> m@.contains_key(name) && m@[name]
            == m.entries@[i].1,
        m@.contains_key(name) ==> exists|j: int|
            0 <= j < m.entries@.len() && (#[trigger] m.entries@[j]).0@ == name,
{
    if 0 <= i < m.entries@.len() && m.entries@[i].0@ == name {
        lemma_position(m, i);
    }
    if m@.contains_key(name) {
        let j = m.names().index_of(name);
        assert(m.names()[j] == name);
        assert(m.entries@[j].0@ == name);
    }
}

}
