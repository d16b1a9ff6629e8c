//! Ordered maps used for query parameters, request headers and response
//! headers. `MultiMap` keeps one ordered value list per key, appending on
//! repeated keys; `HeaderMap` keeps a single value per key, overwriting on
//! repeated keys. Both preserve first-insertion order of the keys and keep
//! the key set free of duplicates.

use vstd::prelude::*;
use vstd::pervasive::VecAdditionalExecFns;

verus! {

/// One key of a `MultiMap` with its values in arrival order.
pub struct Entry {
    pub key: Vec<u8>,
    pub values: Vec<Vec<u8>>,
}

impl View for Entry {
    type V = (Seq<u8>, Seq<Seq<u8>>);

    open spec fn view(&self) -> (Seq<u8>, Seq<Seq<u8>>) {
        (self.key@, self.values@.map_values(|v: Vec<u8>| v@))
    }
}

/// Key to ordered-value-list map; repeated keys accumulate values.
pub struct MultiMap {
    pub entries: Vec<Entry>,
}

impl View for MultiMap {
    type V = Seq<(Seq<u8>, Seq<Seq<u8>>)>;

    open spec fn view(&self) -> Seq<(Seq<u8>, Seq<Seq<u8>>)> {
        self.entries@.map_values(|e: Entry| e@)
    }
}

/// Index of the entry holding key `k`, if any.
pub open spec fn mm_find(m: Seq<(Seq<u8>, Seq<Seq<u8>>)>, k: Seq<u8>) -> Option<int>
    decreases m.len(),
{
    if m.len() == 0 {
        None
    } else if m[0].0 == k {
        Some(0int)
    } else {
        match mm_find(m.drop_first(), k) {
            None => None,
            Some(i) => Some(i + 1),
        }
    }
}

/// Values stored under `k`, in arrival order; empty when `k` is absent.
pub open spec fn mm_get(m: Seq<(Seq<u8>, Seq<Seq<u8>>)>, k: Seq<u8>) -> Seq<Seq<u8>> {
    match mm_find(m, k) {
        None => Seq::empty(),
        Some(i) => m[i].1,
    }
}

/// Whether `k` has an entry.
pub open spec fn mm_contains(m: Seq<(Seq<u8>, Seq<Seq<u8>>)>, k: Seq<u8>) -> bool {
    mm_find(m, k) is Some
}

/// The key set holds no duplicates.
pub open spec fn mm_wf(m: Seq<(Seq<u8>, Seq<Seq<u8>>)>) -> bool {
    forall|i: int, j: int| 0 <= i < j < m.len() ==> m[i].0 != m[j].0
}

/// The map after storing `v` under `k`: the value joins `k`'s list at the
/// end, or a new entry for `k` joins the map at the end.
pub open spec fn mm_append(
    m: Seq<(Seq<u8>, Seq<Seq<u8>>)>,
    k: Seq<u8>,
    v: Seq<u8>,
) -> Seq<(Seq<u8>, Seq<Seq<u8>>)> {
    match mm_find(m, k) {
        None => m.push((k, seq![v])),
        Some(i) => m.update(i, (k, m[i].1.push(v))),
    }
}

/// `mm_find` returns the least index holding `k`, or reports that none does.
pub proof fn lemma_mm_find(m: Seq<(Seq<u8>, Seq<Seq<u8>>)>, k: Seq<u8>)
    ensures
        match mm_find(m, k) {
            Some(i) => 0 <= i < m.len() && m[i].0 == k && forall|j: int| 0 <= j < i ==> m[j].0 != k,
            None => forall|j: int| 0 <= j < m.len() ==> m[j].0 != k,
        },
    decreases m.len(),
{
    if m.len() > 0 && m[0].0 != k {
        let t = m.drop_first();
        lemma_mm_find(t, k);
        match mm_find(t, k) {
            Some(i) => {
                assert(m[i + 1] == t[i]);
                assert forall|j: int| 0 <= j < i + 1 implies m[j].0 != k by {
                    if j > 0 {
                        assert(m[j] == t[j - 1]);
                    }
                }
            }
            None => {
                assert forall|j: int| 0 <= j < m.len() implies m[j].0 != k by {
                    if j > 0 {
                        assert(m[j] == t[j - 1]);
                    }
                }
            }
        }
    }
}

/// The least-index characterization determines `mm_find` exactly.
pub proof fn lemma_mm_find_is(m: Seq<(Seq<u8>, Seq<Seq<u8>>)>, k: Seq<u8>, i: int)
    requires
        0 <= i < m.len(),
        m[i].0 == k,
        forall|j: int| 0 <= j < i ==> m[j].0 != k,
    ensures
        mm_find(m, k) == Some(i),
{
    lemma_mm_find(m, k);
    match mm_find(m, k) {
        None => {
            assert(m[i].0 != k);
        }
        Some(x) => {
            if x < i {
                assert(m[x].0 != k);
            } else if x > i {
                assert(m[i].0 != k);
            }
        }
    }
}

/// No entry holding `k` determines `mm_find` as `None`.
pub proof fn lemma_mm_find_none(m: Seq<(Seq<u8>, Seq<Seq<u8>>)>, k: Seq<u8>)
    requires
        forall|j: int| 0 <= j < m.len() ==> m[j].0 != k,
    ensures
        mm_find(m, k) is None,
{
    lemma_mm_find(m, k);
    if let Some(i) = mm_find(m, k) {
        assert(m[i].0 != k);
    }
}

/// Storing a value keeps the map well formed, puts the value at the end of
/// exactly its own key's list, and leaves every other key's list unchanged.
pub proof fn lemma_mm_append(m: Seq<(Seq<u8>, Seq<Seq<u8>>)>, k: Seq<u8>, v: Seq<u8>)
    requires
        mm_wf(m),
    ensures
        mm_wf(mm_append(m, k, v)),
        mm_get(mm_append(m, k, v), k) == mm_get(m, k).push(v),
        forall|k2: Seq<u8>| k2 != k ==> mm_get(mm_append(m, k, v), k2) == mm_get(m, k2),
{
    lemma_mm_find(m, k);
    let m2 = mm_append(m, k, v);
    match mm_find(m, k) {
        None => {
            assert forall|j: int| 0 <= j < m.len() implies m2[j] == m[j] by {}
            lemma_mm_find_is(m2, k, m.len() as int);
            assert(mm_get(m2, k) =~= mm_get(m, k).push(v));
            assert forall|k2: Seq<u8>| k2 != k implies mm_get(m2, k2) == mm_get(m, k2) by {
                lemma_mm_find(m, k2);
                match mm_find(m, k2) {
                    Some(i) => {
                        lemma_mm_find_is(m2, k2, i);
                    }
                    None => {
                        lemma_mm_find_none(m2, k2);
                    }
                }
            }
        }
        Some(i) => {
            lemma_mm_find_is(m2, k, i);
            assert forall|k2: Seq<u8>| k2 != k implies mm_get(m2, k2) == mm_get(m, k2) by {
                lemma_mm_find(m, k2);
                match mm_find(m, k2) {
                    Some(x) => {
                        lemma_mm_find_is(m2, k2, x);
                    }
                    None => {
                        lemma_mm_find_none(m2, k2);
                    }
                }
            }
        }
    }
}

/// The map after storing every pair of `pairs`, in arrival order.
pub open spec fn mm_fold(
    m: Seq<(Seq<u8>, Seq<Seq<u8>>)>,
    pairs: Seq<(Seq<u8>, Seq<u8>)>,
) -> Seq<(Seq<u8>, Seq<Seq<u8>>)>
    decreases pairs.len(),
{
    if pairs.len() == 0 {
        m
    } else {
        mm_fold(mm_append(m, pairs[0].0, pairs[0].1), pairs.drop_first())
    }
}

/// The values that `pairs` carries under key `k`, in arrival order.
pub open spec fn values_of(pairs: Seq<(Seq<u8>, Seq<u8>)>, k: Seq<u8>) -> Seq<Seq<u8>>
    decreases pairs.len(),
{
    if pairs.len() == 0 {
        Seq::empty()
    } else {
        let rest = values_of(pairs.drop_first(), k);
        if pairs[0].0 == k {
            seq![pairs[0].1] + rest
        } else {
            rest
        }
    }
}

/// Law: storing a pair list into a well-formed map keeps it well formed and
/// leaves, under every key, the values already stored followed by that key's
/// arriving values, in arrival order. In particular a repeated key keeps
/// every one of its values, ordered as they arrived.
pub proof fn lemma_mm_fold_order(
    m: Seq<(Seq<u8>, Seq<Seq<u8>>)>,
    pairs: Seq<(Seq<u8>, Seq<u8>)>,
    k: Seq<u8>,
)
    requires
        mm_wf(m),
    ensures
        mm_wf(mm_fold(m, pairs)),
        mm_get(mm_fold(m, pairs), k) == mm_get(m, k) + values_of(pairs, k),
    decreases pairs.len(),
{
    if pairs.len() == 0 {
        assert(mm_get(m, k) + Seq::<Seq<u8>>::empty() =~= mm_get(m, k));
    } else {
        let k0 = pairs[0].0;
        let v0 = pairs[0].1;
        let m1 = mm_append(m, k0, v0);
        lemma_mm_append(m, k0, v0);
        lemma_mm_fold_order(m1, pairs.drop_first(), k);
        if k0 == k {
            assert(mm_get(m, k).push(v0) + values_of(pairs.drop_first(), k) =~= mm_get(m, k)
                + values_of(pairs, k));
        }
    }
}

/// Element-wise copy of a list of byte strings.
pub fn copy_values(src: &Vec<Vec<u8>>) -> (r: Vec<Vec<u8>>)
    ensures
        r@.len() == src@.len(),
        forall|x: int| 0 <= x < src@.len() ==> r@[x]@ == src@[x]@,
{
    let mut out: Vec<Vec<u8>> = Vec::new();
    let mut j: usize = 0;
    while j < src.len()
        invariant
            j <= src@.len(),
            out@.len() == j,
            forall|x: int| 0 <= x < j ==> out@[x]@ == src@[x]@,
        decreases src@.len() - j,
    {
        out.push(crate::bstr::subrange_to_vec(src[j].as_slice(), 0, src[j].len()));
        proof {
            assert(out@[j as int]@ =~= src@[j as int]@);
        }
        j = j + 1;
    }
    out
}

impl MultiMap {
    /// The empty map.
    pub fn new() -> (r: MultiMap)
        ensures
            r@ == Seq::<(Seq<u8>, Seq<Seq<u8>>)>::empty(),
            mm_wf(r@),
    {
        let r = MultiMap { entries: Vec::new() };
        proof {
            assert(r@ =~= Seq::<(Seq<u8>, Seq<Seq<u8>>)>::empty());
        }
        r
    }

    /// Index of the entry holding `key`, if any.
    fn find_idx(&self, key: &[u8]) -> (r: Option<usize>)
        ensures
            match r {
                Some(i) => i < self@.len() && mm_find(self@, key@) == Some(i as int),
                None => mm_find(self@, key@) is None,
            },
    {
        let mut i: usize = 0;
        while i < self.entries.len()
            invariant
                i <= self@.len(),
                self@.len() == self.entries@.len(),
                forall|j: int| 0 <= j < i ==> self@[j].0 != key@,
            decreases self@.len() - i,
        {
            assert(self@[i as int] == self.entries@[i as int]@);
            if crate::bstr::bytes_eq(self.entries[i].key.as_slice(), key) {
                proof {
                    lemma_mm_find_is(self@, key@, i as int);
                }
                return Some(i);
            }
            i = i + 1;
        }
        proof {
            lemma_mm_find_none(self@, key@);
        }
        None
    }

    /// Number of distinct keys.
    pub fn len(&self) -> (r: usize)
        ensures
            r == self@.len(),
    {
        self.entries.len()
    }

    /// Whether `key` has an entry.
    pub fn contains_key(&self, key: &[u8]) -> (r: bool)
        ensures
            r == mm_contains(self@, key@),
    {
        self.find_idx(key).is_some()
    }

    /// Stores `value` at the end of `key`'s list, creating the entry on the
    /// key's first arrival.
    pub fn append_value(&mut self, key: Vec<u8>, value: Vec<u8>)
        requires
            mm_wf(old(self)@),
        ensures
            final(self)@ == mm_append(old(self)@, key@, value@),
            mm_wf(final(self)@),
    {
        let ghost m = old(self)@;
        let ghost k0 = key@;
        let ghost v0 = value@;
        proof {
            lemma_mm_append(m, k0, v0);
        }
        let idx = self.find_idx(key.as_slice());
        match idx {
            Some(i) => {
                let mut new_values = copy_values(&self.entries[i].values);
                new_values.push(value);
                let ghost vs = new_values@;
                self.entries.set(i, Entry { key, values: new_values });
                proof {
                    assert(self@[i as int] == self.entries@[i as int]@);
                    assert(vs.map_values(|v: Vec<u8>| v@) =~= m[i as int].1.push(v0));
                    assert(self@ =~~= mm_append(m, k0, v0));
                }
            }
            None => {
                let mut values: Vec<Vec<u8>> = Vec::new();
                values.push(value);
                let ghost vs = values@;
                self.entries.push(Entry { key, values });
                proof {
                    assert(vs.map_values(|v: Vec<u8>| v@) =~= seq![v0]);
                    assert(self@ =~~= mm_append(m, k0, v0));
                }
            }
        }
    }

    /// Copies of the values stored under `key`, in arrival order; empty when
    /// `key` is absent.
    pub fn get_all(&self, key: &[u8]) -> (r: Vec<Vec<u8>>)
        ensures
            r@.map_values(|v: Vec<u8>| v@) == mm_get(self@, key@),
    {
        match self.find_idx(key) {
            Some(i) => {
                let out = copy_values(&self.entries[i].values);
                proof {
                    assert(self@[i as int] == self.entries@[i as int]@);
                    assert(out@.map_values(|v: Vec<u8>| v@) =~= mm_get(self@, key@));
                }
                out
            }
            None => {
                let out: Vec<Vec<u8>> = Vec::new();
                proof {
                    assert(out@.map_values(|v: Vec<u8>| v@) =~= mm_get(self@, key@));
                }
                out
            }
        }
    }

    /// Copy of the first value stored under `key`; empty when `key` is
    /// absent.
    pub fn get_first(&self, key: &[u8]) -> (r: Vec<u8>)
        ensures
            r@ == (if mm_get(self@, key@).len() > 0 {
                mm_get(self@, key@)[0]
            } else {
                Seq::<u8>::empty()
            }),
    {
        match self.find_idx(key) {
            Some(i) => {
                proof {
                    assert(self@[i as int] == self.entries@[i as int]@);
                }
                let values = &self.entries[i].values;
                if values.len() > 0 {
                    crate::bstr::subrange_to_vec(values[0].as_slice(), 0, values[0].len())
                } else {
                    Vec::new()
                }
            }
            None => Vec::new(),
        }
    }

    /// The key of the entry at position `i`, in first-insertion order.
    pub fn key_at(&self, i: usize) -> (r: &Vec<u8>)
        requires
            i < self@.len(),
        ensures
            r@ == self@[i as int].0,
    {
        proof {
            assert(self@[i as int] == self.entries@[i as int]@);
        }
        &self.entries[i].key
    }

    /// The values of the entry at position `i`, in arrival order.
    pub fn values_at(&self, i: usize) -> (r: &Vec<Vec<u8>>)
        requires
            i < self@.len(),
        ensures
            r@.map_values(|v: Vec<u8>| v@) == self@[i as int].1,
    {
        proof {
            assert(self@[i as int] == self.entries@[i as int]@);
        }
        &self.entries[i].values
    }
}

/// One key of a `HeaderMap` with its single value.
pub struct HeaderEntry {
    pub key: Vec<u8>,
    pub value: Vec<u8>,
}

impl View for HeaderEntry {
    type V = (Seq<u8>, Seq<u8>);

    open spec fn view(&self) -> (Seq<u8>, Seq<u8>) {
        (self.key@, self.value@)
    }
}

/// Key to single-value map; repeated keys overwrite in place.
pub struct HeaderMap {
    pub entries: Vec<HeaderEntry>,
}

impl View for HeaderMap {
    type V = Seq<(Seq<u8>, Seq<u8>)>;

    open spec fn view(&self) -> Seq<(Seq<u8>, Seq<u8>)> {
        self.entries@.map_values(|e: HeaderEntry| e@)
    }
}

/// Index of the entry holding key `k`, if any.
pub open spec fn hm_find(m: Seq<(Seq<u8>, Seq<u8>)>, k: Seq<u8>) -> Option<int>
    decreases m.len(),
{
    if m.len() == 0 {
        None
    } else if m[0].0 == k {
        Some(0int)
    } else {
        match hm_find(m.drop_first(), k) {
            None => None,
            Some(i) => Some(i + 1),
        }
    }
}

/// The value stored under `k`, if any.
pub open spec fn hm_get(m: Seq<(Seq<u8>, Seq<u8>)>, k: Seq<u8>) -> Option<Seq<u8>> {
    match hm_find(m, k) {
        None => None,
        Some(i) => Some(m[i].1),
    }
}

/// The key set holds no duplicates.
pub open spec fn hm_wf(m: Seq<(Seq<u8>, Seq<u8>)>) -> bool {
    forall|i: int, j: int| 0 <= i < j < m.len() ==> m[i].0 != m[j].0
}

/// The map after storing `v` under `k`: overwrite in place, or a new entry
/// at the end.
pub open spec fn hm_insert(m: Seq<(Seq<u8>, Seq<u8>)>, k: Seq<u8>, v: Seq<u8>) -> Seq<
    (Seq<u8>, Seq<u8>),
> {
    match hm_find(m, k) {
        None => m.push((k, v)),
        Some(i) => m.update(i, (k, v)),
    }
}

/// `hm_find` returns the least index holding `k`, or reports that none does.
pub proof fn lemma_hm_find(m: Seq<(Seq<u8>, Seq<u8>)>, k: Seq<u8>)
    ensures
        match hm_find(m, k) {
            Some(i) => 0 <= i < m.len() && m[i].0 == k && forall|j: int| 0 <= j < i ==> m[j].0 != k,
            None => forall|j: int| 0 <= j < m.len() ==> m[j].0 != k,
        },
    decreases m.len(),
{
    if m.len() > 0 && m[0].0 != k {
        let t = m.drop_first();
        lemma_hm_find(t, k);
        match hm_find(t, k) {
            Some(i) => {
                assert(m[i + 1] == t[i]);
                assert forall|j: int| 0 <= j < i + 1 implies m[j].0 != k by {
                    if j > 0 {
                        assert(m[j] == t[j - 1]);
                    }
                }
            }
            None => {
                assert forall|j: int| 0 <= j < m.len() implies m[j].0 != k by {
                    if j > 0 {
                        assert(m[j] == t[j - 1]);
                    }
                }
            }
        }
    }
}

/// The least-index characterization determines `hm_find` exactly.
pub proof fn lemma_hm_find_is(m: Seq<(Seq<u8>, Seq<u8>)>, k: Seq<u8>, i: int)
    requires
        0 <= i < m.len(),
        m[i].0 == k,
        forall|j: int| 0 <= j < i ==> m[j].0 != k,
    ensures
        hm_find(m, k) == Some(i),
{
    lemma_hm_find(m, k);
    match hm_find(m, k) {
        None => {
            assert(m[i].0 != k);
        }
        Some(x) => {
            if x < i {
                assert(m[x].0 != k);
            } else if x > i {
                assert(m[i].0 != k);
            }
        }
    }
}

/// No entry holding `k` determines `hm_find` as `None`.
pub proof fn lemma_hm_find_none(m: Seq<(Seq<u8>, Seq<u8>)>, k: Seq<u8>)
    requires
        forall|j: int| 0 <= j < m.len() ==> m[j].0 != k,
    ensures
        hm_find(m, k) is None,
{
    lemma_hm_find(m, k);
    if let Some(i) = hm_find(m, k) {
        assert(m[i].0 != k);
    }
}

impl HeaderMap {
    /// The empty map.
    pub fn new() -> (r: HeaderMap)
        ensures
            r@ == Seq::<(Seq<u8>, Seq<u8>)>::empty(),
            hm_wf(r@),
    {
        let r = HeaderMap { entries: Vec::new() };
        proof {
            assert(r@ =~= Seq::<(Seq<u8>, Seq<u8>)>::empty());
        }
        r
    }

    /// Index of the entry holding `key`, if any.
    fn find_idx(&self, key: &[u8]) -> (r: Option<usize>)
        ensures
            match r {
                Some(i) => i < self@.len() && hm_find(self@, key@) == Some(i as int),
                None => hm_find(self@, key@) is None,
            },
    {
        let mut i: usize = 0;
        while i < self.entries.len()
            invariant
                i <= self@.len(),
                self@.len() == self.entries@.len(),
                forall|j: int| 0 <= j < i ==> self@[j].0 != key@,
            decreases self@.len() - i,
        {
            assert(self@[i as int] == self.entries@[i as int]@);
            if crate::bstr::bytes_eq(self.entries[i].key.as_slice(), key) {
                proof {
                    lemma_hm_find_is(self@, key@, i as int);
                }
                return Some(i);
            }
            i = i + 1;
        }
        proof {
            lemma_hm_find_none(self@, key@);
        }
        None
    }

    /// Number of distinct keys.
    pub fn len(&self) -> (r: usize)
        ensures
            r == self@.len(),
    {
        self.entries.len()
    }

    /// Stores `value` under `key`, overwriting any earlier value.
    pub fn insert(&mut self, key: Vec<u8>, value: Vec<u8>)
        requires
            hm_wf(old(self)@),
        ensures
            final(self)@ == hm_insert(old(self)@, key@, value@),
            hm_wf(final(self)@),
    {
        let ghost m = old(self)@;
        let ghost k0 = key@;
        let ghost v0 = value@;
        proof {
            lemma_hm_find(m, k0);
        }
        let idx = self.find_idx(key.as_slice());
        match idx {
            Some(i) => {
                self.entries.set(i, HeaderEntry { key, value });
                proof {
                    assert(self@ =~= hm_insert(m, k0, v0));
                    assert forall|x: int, y: int|
                        0 <= x < y < self@.len() implies self@[x].0 != self@[y].0 by {
                        assert(m[x].0 != m[y].0);
                    }
                }
            }
            None => {
                self.entries.push(HeaderEntry { key, value });
                proof {
                    assert(self@ =~= hm_insert(m, k0, v0));
                    assert forall|x: int, y: int|
                        0 <= x < y < self@.len() implies self@[x].0 != self@[y].0 by {
                        if y < m.len() {
                            assert(m[x].0 != m[y].0);
                        } else {
                            assert(self@[y].0 == k0);
                            assert(m[x].0 != k0);
                        }
                    }
                }
            }
        }
    }

    /// The value stored under `key`, if any.
    pub fn get(&self, key: &[u8]) -> (r: Option<&Vec<u8>>)
        ensures
            match r {
                Some(v) => hm_get(self@, key@) == Some(v@),
                None => hm_get(self@, key@) is None,
            },
    {
        match self.find_idx(key) {
            Some(i) => {
                proof {
                    assert(self@[i as int] == self.entries@[i as int]@);
                }
                Some(&self.entries[i].value)
            }
            None => None,
        }
    }

    /// The key of the entry at position `i`, in first-insertion order.
    pub fn key_at(&self, i: usize) -> (r: &Vec<u8>)
        requires
            i < self@.len(),
        ensures
            r@ == self@[i as int].0,
    {
        proof {
            assert(self@[i as int] == self.entries@[i as int]@);
        }
        &self.entries[i].key
    }

    /// The value of the entry at position `i`.
    pub fn value_at(&self, i: usize) -> (r: &Vec<u8>)
        requires
            i < self@.len(),
        ensures
            r@ == self@[i as int].1,
    {
        proof {
            assert(self@[i as int] == self.entries@[i as int]@);
        }
        &self.entries[i].value
    }
}

} // verus!
