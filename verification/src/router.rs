//! The routing registry: an explicit value owned by the server, built once
//! at startup and read per request, mapping a path to its handler entry.

use vstd::prelude::*;
use crate::bstr::{find_byte, lemma_find_first_is, lemma_find_first_none};
use crate::request::spec_path;

verus! {

/// One registered route: the path it serves, the method it accepts, and
/// the handler value dispatched to.
pub struct RoutingItem<H> {
    pub path: Vec<u8>,
    pub method: Vec<u8>,
    pub func: H,
}

/// One registry entry: the key a route was registered under, with its item.
pub struct RouteEntry<H> {
    pub key: Vec<u8>,
    pub item: RoutingItem<H>,
}

/// Index of the entry registered under `k`, if any.
pub open spec fn rt_find(keys: Seq<Seq<u8>>, k: Seq<u8>) -> Option<int>
    decreases keys.len(),
{
    if keys.len() == 0 {
        None
    } else if keys[0] == k {
        Some(0int)
    } else {
        match rt_find(keys.drop_first(), k) {
            None => None,
            Some(i) => Some(i + 1),
        }
    }
}

/// `rt_find` returns the least index holding `k`, or reports that none does.
pub proof fn lemma_rt_find(keys: Seq<Seq<u8>>, k: Seq<u8>)
    ensures
        match rt_find(keys, k) {
            Some(i) => 0 <= i < keys.len() && keys[i] == k && forall|j: int|
                0 <= j < i ==> keys[j] != k,
            None => forall|j: int| 0 <= j < keys.len() ==> keys[j] != k,
        },
    decreases keys.len(),
{
    if keys.len() > 0 && keys[0] != k {
        let t = keys.drop_first();
        lemma_rt_find(t, k);
        match rt_find(t, k) {
            Some(i) => {
                assert(keys[i + 1] == t[i]);
                assert forall|j: int| 0 <= j < i + 1 implies keys[j] != k by {
                    if j > 0 {
                        assert(keys[j] == t[j - 1]);
                    }
                }
            }
            None => {
                assert forall|j: int| 0 <= j < keys.len() implies keys[j] != k by {
                    if j > 0 {
                        assert(keys[j] == t[j - 1]);
                    }
                }
            }
        }
    }
}

/// The least-index characterization determines `rt_find` exactly.
pub proof fn lemma_rt_find_is(keys: Seq<Seq<u8>>, k: Seq<u8>, i: int)
    requires
        0 <= i < keys.len(),
        keys[i] == k,
        forall|j: int| 0 <= j < i ==> keys[j] != k,
    ensures
        rt_find(keys, k) == Some(i),
{
    lemma_rt_find(keys, k);
    match rt_find(keys, k) {
        None => {
            assert(keys[i] != k);
        }
        Some(x) => {
            if x < i {
                assert(keys[x] != k);
            } else if x > i {
                assert(keys[i] != k);
            }
        }
    }
}

/// No entry registered under `k` determines `rt_find` as `None`.
pub proof fn lemma_rt_find_none(keys: Seq<Seq<u8>>, k: Seq<u8>)
    requires
        forall|j: int| 0 <= j < keys.len() ==> keys[j] != k,
    ensures
        rt_find(keys, k) is None,
{
    lemma_rt_find(keys, k);
    if let Some(i) = rt_find(keys, k) {
        assert(keys[i] != k);
    }
}

/// The routing table.
pub struct Router<H> {
    pub entries: Vec<RouteEntry<H>>,
}

impl<H> Router<H> {
    /// The keys, in first-registration order.
    pub open spec fn keys(self) -> Seq<Seq<u8>> {
        self.entries@.map_values(|e: RouteEntry<H>| e.key@)
    }

    /// No key is registered twice.
    pub open spec fn wf(self) -> bool {
        forall|i: int, j: int| 0 <= i < j < self.keys().len() ==> self.keys()[i] != self.keys()[j]
    }

    /// The empty registry.
    pub fn new() -> (r: Router<H>)
        ensures
            r.wf(),
            r.keys() == Seq::<Seq<u8>>::empty(),
    {
        let r = Router { entries: Vec::new() };
        proof {
            assert(r.keys() =~= Seq::<Seq<u8>>::empty());
        }
        r
    }

    /// Index of the entry registered under `key`, if any.
    fn find_idx(&self, key: &[u8]) -> (r: Option<usize>)
        ensures
            match r {
                Some(i) => i < self.entries@.len() && rt_find(self.keys(), key@) == Some(i as int),
                None => rt_find(self.keys(), key@) is None,
            },
    {
        let mut i: usize = 0;
        let n = self.entries.len();
        while i < n
            invariant
                n == self.entries@.len(),
                self.keys().len() == n,
                i <= n,
                forall|j: int| 0 <= j < i ==> self.keys()[j] != key@,
            decreases n - i,
        {
            assert(self.keys()[i as int] == self.entries@[i as int].key@);
            if crate::bstr::bytes_eq(self.entries[i].key.as_slice(), key) {
                proof {
                    lemma_rt_find_is(self.keys(), key@, i as int);
                }
                return Some(i);
            }
            i = i + 1;
        }
        proof {
            lemma_rt_find_none(self.keys(), key@);
        }
        None
    }

    /// Registers `value` under `key`, replacing an earlier registration of
    /// the same key.
    pub fn insert(&mut self, key: &[u8], value: RoutingItem<H>)
        requires
            old(self).wf(),
        ensures
            final(self).wf(),
            match rt_find(old(self).keys(), key@) {
                Some(i) => {
                    &&& final(self).entries@.len() == old(self).entries@.len()
                    &&& final(self).entries@[i].key@ == key@
                    &&& final(self).entries@[i].item == value
                    &&& forall|j: int|
                        0 <= j < old(self).entries@.len() && j != i ==> final(self).entries@[j]
                            == old(self).entries@[j]
                },
                None => {
                    &&& final(self).entries@.len() == old(self).entries@.len() + 1
                    &&& final(self).entries@.last().key@ == key@
                    &&& final(self).entries@.last().item == value
                    &&& forall|j: int|
                        0 <= j < old(self).entries@.len() ==> final(self).entries@[j] == old(
                            self,
                        ).entries@[j]
                },
            },
    {
        let ghost keys0 = self.keys();
        let k = crate::bstr::subrange_to_vec(key, 0, key.len());
        proof {
            assert(k@ =~= key@);
        }
        let idx = self.find_idx(key);
        match idx {
            Some(i) => {
                proof {
                    lemma_rt_find(keys0, key@);
                }
                self.entries.set(i, RouteEntry { key: k, item: value });
                proof {
                    assert forall|x: int, y: int|
                        0 <= x < y < self.keys().len() implies self.keys()[x]
                        != self.keys()[y] by {
                        assert(keys0[x] != keys0[y]);
                        assert(self.keys()[x] == if x == i as int {
                            key@
                        } else {
                            keys0[x]
                        });
                        assert(self.keys()[y] == if y == i as int {
                            key@
                        } else {
                            keys0[y]
                        });
                        assert(keys0[i as int] == key@);
                    }
                }
            }
            None => {
                proof {
                    lemma_rt_find(keys0, key@);
                }
                self.entries.push(RouteEntry { key: k, item: value });
                proof {
                    assert forall|x: int, y: int|
                        0 <= x < y < self.keys().len() implies self.keys()[x]
                        != self.keys()[y] by {
                        if y < keys0.len() {
                            assert(keys0[x] != keys0[y]);
                            assert(self.keys()[x] == keys0[x]);
                            assert(self.keys()[y] == keys0[y]);
                        } else {
                            assert(self.keys()[y] == key@);
                            assert(self.keys()[x] == keys0[x]);
                            assert(keys0[x] != key@);
                        }
                    }
                }
            }
        }
    }

    /// Looks a request path up: any query string is stripped first;
    /// resolves exactly when the stripped path was registered.
    pub fn find(&self, key: &[u8]) -> (r: Option<&RoutingItem<H>>)
        ensures
            match r {
                Some(it) => {
                    &&& rt_find(self.keys(), spec_path(key@)) is Some
                    &&& *it == self.entries@[rt_find(self.keys(), spec_path(key@)).unwrap()].item
                },
                None => rt_find(self.keys(), spec_path(key@)) is None,
            },
    {
        let stripped_end = match find_byte(key, 63u8, 0) {
            Some(q) => {
                proof {
                    lemma_find_first_is(key@, 63u8, q as int);
                }
                q
            }
            None => {
                proof {
                    lemma_find_first_none(key@, 63u8);
                }
                key.len()
            }
        };
        let stripped = vstd::slice::slice_subrange(key, 0, stripped_end);
        proof {
            assert(stripped@ =~= spec_path(key@));
        }
        match self.find_idx(stripped) {
            Some(i) => Some(&self.entries[i].item),
            None => None,
        }
    }
}

} // verus!
