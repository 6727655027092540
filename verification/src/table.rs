//! Small keyed tables, kept as rows in the order they were first written.

use crate::bytes;
use vstd::prelude::*;

verus! {

/// A key that can be compared.
pub trait Key: Copy {
    /// Whether two keys are the same.
    fn same_key(&self, other: &Self) -> (r: bool)
        ensures
            r == (*self == *other),
    ;
}

impl Key for [u8; 32] {
    fn same_key(&self, other: &Self) -> (r: bool) {
        bytes::same32(self, other)
    }
}

/// Rows under distinct keys.
#[derive(Debug)]
pub struct Table<K, V> {
    pub rows: Vec<(K, V)>,
}

impl<K, V> Table<K, V> {
    /// Whether row `i` is under `k`.
    pub open spec fn at(&self, i: int, k: K) -> bool {
        0 <= i < self.rows@.len() && self.rows@[i].0 == k
    }

    /// Whether no key occurs twice.
    pub open spec fn wf(&self) -> bool {
        forall|i: int, j: int|
            0 <= i < j < self.rows@.len() ==> (#[trigger] self.rows@[i]).0 != (#[trigger] self.rows@[j]).0
    }
}

impl<K, V> View for Table<K, V> {
    type V = Map<K, V>;

    /// What is under each key.
    open spec fn view(&self) -> Map<K, V> {
        Map::new(
            |k: K| exists|i: int| self.at(i, k),
            |k: K| self.rows@[choose|i: int| self.at(i, k)].1,
        )
    }
}

impl<K: Key, V> Table<K, V> {
    /// A table without rows.
    pub fn new() -> (r: Table<K, V>)
        ensures
            r.wf(),
            r@ == Map::<K, V>::empty(),
    {
        let r = Table { rows: Vec::new() };
        assert(r@ =~= Map::<K, V>::empty());
        r
    }

    proof fn lemma_at(&self, i: int)
        requires
            self.wf(),
            0 <= i < self.rows@.len(),
        ensures
            self@.dom().contains(self.rows@[i].0),
            self@[self.rows@[i].0] == self.rows@[i].1,
    {
        let k = self.rows@[i].0;
        assert(self.at(i, k));
        let j = choose|j: int| self.at(j, k);
        assert(self.at(j, k));
        assert(i == j) by {
            if i < j {
                assert(self.rows@[i].0 != self.rows@[j].0);
            } else if j < i {
                assert(self.rows@[j].0 != self.rows@[i].0);
            }
        }
    }

    /// Where the row under `k` is, or the number of rows.
    fn position(&self, k: &K) -> (r: usize)
        requires
            self.wf(),
        ensures
            r <= self.rows@.len(),
            r < self.rows@.len() <==> self@.dom().contains(*k),
            r < self.rows@.len() ==> self.rows@[r as int].0 == *k && self.rows@[r as int].1 == self@[*k],
    {
        let mut i: usize = 0;
        while i < self.rows.len()
            invariant
                i <= self.rows@.len(),
                self.wf(),
                forall|j: int| 0 <= j < i ==> !self.at(j, *k),
            decreases self.rows@.len() - i,
        {
            if self.rows[i].0.same_key(k) {
                proof {
                    self.lemma_at(i as int);
                }
                return i;
            }
            i = i + 1;
        }
        i
    }

    /// What is under `k`.
    pub fn get(&self, k: &K) -> (r: Option<&V>)
        requires
            self.wf(),
        ensures
            r is Some <==> self@.dom().contains(*k),
            r is Some ==> *r->0 == self@[*k],
    {
        let i = self.position(k);
        if i < self.rows.len() {
            Some(&self.rows[i].1)
        } else {
            None
        }
    }

    /// Puts `v` under `k`, in place of what was there.
    pub fn set(&mut self, k: K, v: V)
        requires
            old(self).wf(),
        ensures
            final(self).wf(),
            final(self)@ == old(self)@.insert(k, v),
    {
        let i = self.position(&k);
        let ghost before = *self;
        if i < self.rows.len() {
            self.rows[i] = (k, v);
        } else {
            self.rows.push((k, v));
        }
        proof {
            let after = *self;
            assert(after.wf()) by {
                assert forall|x: int, y: int| 0 <= x < y < after.rows@.len() implies (#[trigger] after.rows@[x]).0
                    != (#[trigger] after.rows@[y]).0 by {
                    if y < before.rows@.len() {
                        assert(before.rows@[x].0 != before.rows@[y].0);
                    } else {
                        assert(before.at(x, before.rows@[x].0));
                    }
                }
            }
            assert forall|key: K| #[trigger] after@.dom().contains(key) == before@.insert(k, v).dom().contains(
                key,
            ) by {
                if after@.dom().contains(key) {
                    let x = choose|x: int| after.at(x, key);
                    if key != k {
                        assert(before.at(x, key));
                    }
                }
                if key == k {
                    assert(after.at(i as int, k));
                } else if before@.dom().contains(key) {
                    let x = choose|x: int| before.at(x, key);
                    assert(after.at(x, key));
                }
            }
            assert forall|key: K| #[trigger] after@.dom().contains(key) implies after@[key] == before@.insert(
                k,
                v,
            )[key] by {
                let x = choose|x: int| after.at(x, key);
                after.lemma_at(x);
                if key != k {
                    before.lemma_at(x);
                } else {
                    after.lemma_at(i as int);
                }
            }
            assert(after@ =~= before@.insert(k, v));
        }
    }

    /// Takes away what is under `k`.
    pub fn unset(&mut self, k: &K) -> (r: bool)
        requires
            old(self).wf(),
        ensures
            final(self).wf(),
            final(self)@ == old(self)@.remove(*k),
            r == old(self)@.dom().contains(*k),
    {
        let i = self.position(k);
        let ghost before = *self;
        if i < self.rows.len() {
            self.rows.remove(i);
            proof {
                let after = *self;
                assert forall|x: int| 0 <= x < after.rows@.len() implies after.rows@[x] == before.rows@[if x < i {
                    x
                } else {
                    x + 1
                }] by {}
                assert(after.wf()) by {
                    assert forall|x: int, y: int| 0 <= x < y < after.rows@.len() implies (
                    #[trigger] after.rows@[x]).0 != (#[trigger] after.rows@[y]).0 by {
                        assert(before.rows@[if x < i { x } else { x + 1 }].0 != before.rows@[if y < i {
                            y
                        } else {
                            y + 1
                        }].0);
                    }
                }
                assert forall|key: K| #[trigger] after@.dom().contains(key) == before@.remove(*k).dom().contains(
                    key,
                ) by {
                    if after@.dom().contains(key) {
                        let x = choose|x: int| after.at(x, key);
                        let y = if x < i { x } else { x + 1 };
                        assert(before.at(y, key));
                        if y < i {
                            assert(before.rows@[y].0 != before.rows@[i as int].0);
                        } else {
                            assert(before.rows@[i as int].0 != before.rows@[y].0);
                        }
                    }
                    if before@.remove(*k).dom().contains(key) {
                        let x = choose|x: int| before.at(x, key);
                        assert(after.at(if x < i { x } else { x - 1 }, key));
                    }
                }
                assert forall|key: K| #[trigger] after@.dom().contains(key) implies after@[key] == before@[key] by {
                    let x = choose|x: int| after.at(x, key);
                    after.lemma_at(x);
                    before.lemma_at(if x < i { x } else { x + 1 });
                }
                assert(after@ =~= before@.remove(*k));
            }
            true
        } else {
            assert(self@ =~= before@.remove(*k));
            false
        }
    }
}

/// Keeps the rows that `f` picks, in order.
pub fn retain<T, F: Fn(&T) -> bool>(v: &mut Vec<T>, f: F, Ghost(p): Ghost<spec_fn(T) -> bool>)
    requires
        forall|x: &T| call_requires(f, (x,)),
        forall|x: &T, b: bool| call_ensures(f, (x,), b) ==> b == p(*x),
    ensures
        final(v)@ == old(v)@.filter(p),
{
    let ghost all = v@;
    let ghost mut seen: int = 0;
    let mut i: usize = 0;
    proof {
        reveal(Seq::filter);
        assert(all.take(0).filter(p) =~= Seq::<T>::empty());
        assert(all.skip(0) =~= all);
    }
    while i < v.len()
        invariant
            i <= v@.len(),
            0 <= seen <= all.len(),
            all.take(seen).filter(p).len() == i,
            v@ == all.take(seen).filter(p) + all.skip(seen),
            forall|x: &T| call_requires(f, (x,)),
            forall|x: &T, b: bool| call_ensures(f, (x,), b) ==> b == p(*x),
        decreases v@.len() - i,
    {
        proof {
            reveal(Seq::filter);
            assert(v@[i as int] == all.skip(seen)[0]);
            assert(all.take(seen + 1).drop_last() =~= all.take(seen));
        }
        if f(&v[i]) {
            i = i + 1;
            proof {
                assert(v@ =~= all.take(seen + 1).filter(p) + all.skip(seen + 1));
                seen = seen + 1;
            }
        } else {
            v.remove(i);
            proof {
                assert(v@ =~= all.take(seen + 1).filter(p) + all.skip(seen + 1));
                seen = seen + 1;
            }
        }
    }
    proof {
        assert(seen == all.len());
        assert(all.take(seen) =~= all);
        assert(v@ =~= all.filter(p));
    }
}

} // verus!
