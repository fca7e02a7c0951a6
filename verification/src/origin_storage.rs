//! BrowserContext-scoped localStorage.
//!
//! Each origin keeps its items in insertion order. One bounded store is
//! shared by every page and navigation of a context: at most
//! `LOCAL_STORAGE_ORIGIN_COUNT_LIMIT` origins, `LOCAL_STORAGE_ORIGIN_LIMIT`
//! bytes per origin and `LOCAL_STORAGE_TOTAL_LIMIT` bytes in all, where an
//! item costs the UTF-8 length of its key plus that of its value.
use vstd::prelude::*;

use crate::strutil::{owned, str_eq};

verus! {

pub const LOCAL_STORAGE_ORIGIN_LIMIT: usize = 5242880;

pub const LOCAL_STORAGE_TOTAL_LIMIT: usize = 33554432;

pub const LOCAL_STORAGE_ORIGIN_COUNT_LIMIT: usize = 256;

/// Sum of a sequence of naturals.
pub open spec fn sum_nat(s: Seq<nat>) -> nat
    decreases s.len(),
{
    if s.len() == 0 {
        0
    } else {
        sum_nat(s.drop_last()) + s.last()
    }
}

/// UTF-8 length of a text, as `str::len` reports it.
pub open spec fn utf8_len(s: Seq<char>) -> nat {
    vstd::utf8::encode_utf8(s).len()
}

/// Cost of one item: key bytes plus value bytes.
pub open spec fn kv_bytes(p: (Seq<char>, Seq<char>)) -> nat {
    utf8_len(p.0) + utf8_len(p.1)
}

pub open spec fn items_bytes(s: Seq<(Seq<char>, Seq<char>)>) -> nat {
    sum_nat(s.map_values(|p: (Seq<char>, Seq<char>)| kv_bytes(p)))
}

pub open spec fn items_view(v: Seq<(String, String)>) -> Seq<(Seq<char>, Seq<char>)> {
    v.map_values(|p: (String, String)| (p.0@, p.1@))
}

pub open spec fn has_key(s: Seq<(Seq<char>, Seq<char>)>, key: Seq<char>) -> bool {
    exists|i: int| 0 <= i < s.len() && (#[trigger] s[i]).0 == key
}

pub open spec fn key_index(s: Seq<(Seq<char>, Seq<char>)>, key: Seq<char>) -> int {
    choose|i: int| 0 <= i < s.len() && (#[trigger] s[i]).0 == key
}

pub open spec fn keys_distinct(s: Seq<(Seq<char>, Seq<char>)>) -> bool {
    forall|i: int, j: int|
        0 <= i < s.len() && 0 <= j < s.len() && i != j ==> (#[trigger] s[i]).0 != (#[trigger] s[j]).0
}

/// The value stored under `key`.
pub open spec fn lookup(s: Seq<(Seq<char>, Seq<char>)>, key: Seq<char>) -> Option<Seq<char>> {
    if has_key(s, key) {
        Some(s[key_index(s, key)].1)
    } else {
        None
    }
}

/// `s` with `key` set to `value`: replaced in place, or appended.
pub open spec fn upsert(s: Seq<(Seq<char>, Seq<char>)>, key: Seq<char>, value: Seq<char>) -> Seq<
    (Seq<char>, Seq<char>),
> {
    if has_key(s, key) {
        s.update(key_index(s, key), (key, value))
    } else {
        s.push((key, value))
    }
}

/// `s` without the item stored under `key`.
pub open spec fn without_key(s: Seq<(Seq<char>, Seq<char>)>, key: Seq<char>) -> Seq<
    (Seq<char>, Seq<char>),
> {
    if has_key(s, key) {
        s.remove(key_index(s, key))
    } else {
        s
    }
}

pub open spec fn names_distinct(es: Seq<(Seq<char>, Seq<(Seq<char>, Seq<char>)>)>) -> bool {
    forall|i: int, j: int|
        0 <= i < es.len() && 0 <= j < es.len() && i != j ==> (#[trigger] es[i]).0 != (
        #[trigger] es[j]).0
}

pub open spec fn es_has(es: Seq<(Seq<char>, Seq<(Seq<char>, Seq<char>)>)>, o: Seq<char>) -> bool {
    exists|i: int| 0 <= i < es.len() && (#[trigger] es[i]).0 == o
}

pub open spec fn es_index(es: Seq<(Seq<char>, Seq<(Seq<char>, Seq<char>)>)>, o: Seq<char>) -> int {
    choose|i: int| 0 <= i < es.len() && (#[trigger] es[i]).0 == o
}

/// The entries of a duplicate-free origin list as a map.
pub open spec fn es_map(es: Seq<(Seq<char>, Seq<(Seq<char>, Seq<char>)>)>) -> Map<
    Seq<char>,
    Seq<(Seq<char>, Seq<char>)>,
> {
    Map::new(|o: Seq<char>| es_has(es, o), |o: Seq<char>| es[es_index(es, o)].1)
}

proof fn lemma_sum_concat(a: Seq<nat>, b: Seq<nat>)
    ensures
        sum_nat(a + b) == sum_nat(a) + sum_nat(b),
    decreases b.len(),
{
    if b.len() == 0 {
        assert(a + b =~= a);
    } else {
        lemma_sum_concat(a, b.drop_last());
        assert((a + b).drop_last() =~= a + b.drop_last());
    }
}

proof fn lemma_sum_split(s: Seq<nat>, j: int)
    requires
        0 <= j < s.len(),
    ensures
        sum_nat(s) == sum_nat(s.take(j)) + s[j] + sum_nat(s.skip(j + 1)),
{
    lemma_sum_concat(s.take(j), s.skip(j));
    assert(s.take(j) + s.skip(j) =~= s);
    lemma_sum_concat(seq![s[j]], s.skip(j + 1));
    assert(seq![s[j]] + s.skip(j + 1) =~= s.skip(j));
    assert(seq![s[j]].drop_last() =~= Seq::<nat>::empty());
    assert(sum_nat(Seq::<nat>::empty()) == 0);
    assert(sum_nat(seq![s[j]]) == s[j]);
}

proof fn lemma_sum_update(s: Seq<nat>, j: int, x: nat)
    requires
        0 <= j < s.len(),
    ensures
        sum_nat(s.update(j, x)) + s[j] == sum_nat(s) + x,
{
    lemma_sum_split(s, j);
    lemma_sum_split(s.update(j, x), j);
    assert(s.update(j, x).take(j) =~= s.take(j));
    assert(s.update(j, x).skip(j + 1) =~= s.skip(j + 1));
}

proof fn lemma_sum_remove(s: Seq<nat>, j: int)
    requires
        0 <= j < s.len(),
    ensures
        sum_nat(s.remove(j)) + s[j] == sum_nat(s),
{
    lemma_sum_split(s, j);
    lemma_sum_concat(s.take(j), s.skip(j + 1));
    assert(s.remove(j) =~= s.take(j) + s.skip(j + 1));
}

proof fn lemma_sum_push(s: Seq<nat>, x: nat)
    ensures
        sum_nat(s.push(x)) == sum_nat(s) + x,
{
    assert(s.push(x).drop_last() =~= s);
}

proof fn lemma_sum_prefix(s: Seq<nat>, i: int)
    requires
        0 <= i <= s.len(),
    ensures
        sum_nat(s.take(i)) <= sum_nat(s),
        sum_nat(s.take(i)) + sum_nat(s.skip(i)) == sum_nat(s),
{
    lemma_sum_concat(s.take(i), s.skip(i));
    assert(s.take(i) + s.skip(i) =~= s);
}

proof fn lemma_sum_elem(s: Seq<nat>, j: int)
    requires
        0 <= j < s.len(),
    ensures
        s[j] <= sum_nat(s),
{
    lemma_sum_split(s, j);
}

proof fn lemma_es_at(es: Seq<(Seq<char>, Seq<(Seq<char>, Seq<char>)>)>, k: int)
    requires
        names_distinct(es),
        0 <= k < es.len(),
    ensures
        es_map(es).dom().contains(es[k].0),
        es_map(es)[es[k].0] == es[k].1,
        es_index(es, es[k].0) == k,
{
    assert(es_has(es, es[k].0));
}

proof fn lemma_es_update(
    es: Seq<(Seq<char>, Seq<(Seq<char>, Seq<char>)>)>,
    k: int,
    v: Seq<(Seq<char>, Seq<char>)>,
)
    requires
        names_distinct(es),
        0 <= k < es.len(),
    ensures
        names_distinct(es.update(k, (es[k].0, v))),
        es_map(es.update(k, (es[k].0, v))) == es_map(es).insert(es[k].0, v),
{
    let es2 = es.update(k, (es[k].0, v));
    let o = es[k].0;
    assert forall|i: int, j: int|
        0 <= i < es2.len() && 0 <= j < es2.len() && i != j implies (#[trigger] es2[i]).0 != (
        #[trigger] es2[j]).0 by {
        assert(es[i].0 == es2[i].0 && es[j].0 == es2[j].0);
    }
    assert forall|o2: Seq<char>| #[trigger] es_map(es2).dom().contains(o2) == es_map(es).insert(o, v).dom().contains(o2) by {
        if es_has(es2, o2) {
            let i = es_index(es2, o2);
            assert(es[i].0 == o2);
        }
        if es_has(es, o2) {
            let i = es_index(es, o2);
            assert(es2[i].0 == o2);
        }
    }
    assert forall|o2: Seq<char>| #[trigger] es_map(es2).dom().contains(o2) implies es_map(es2)[o2]
        == es_map(es).insert(o, v)[o2] by {
        let i = es_index(es2, o2);
        assert(es[i].0 == o2);
        if o2 != o {
            lemma_es_at(es, i);
        }
    }
    assert(es_map(es2) =~= es_map(es).insert(o, v));
}

proof fn lemma_es_push(
    es: Seq<(Seq<char>, Seq<(Seq<char>, Seq<char>)>)>,
    o: Seq<char>,
    v: Seq<(Seq<char>, Seq<char>)>,
)
    requires
        names_distinct(es),
        !es_has(es, o),
    ensures
        names_distinct(es.push((o, v))),
        es_map(es.push((o, v))) == es_map(es).insert(o, v),
{
    let es2 = es.push((o, v));
    assert forall|i: int, j: int|
        0 <= i < es2.len() && 0 <= j < es2.len() && i != j implies (#[trigger] es2[i]).0 != (
        #[trigger] es2[j]).0 by {
        if i < es.len() && j < es.len() {
            assert(es[i].0 == es2[i].0 && es[j].0 == es2[j].0);
        } else if i < es.len() {
            assert(es[i].0 == es2[i].0);
        } else if j < es.len() {
            assert(es[j].0 == es2[j].0);
        }
    }
    assert forall|o2: Seq<char>| #[trigger] es_map(es2).dom().contains(o2) == es_map(es).insert(o, v).dom().contains(o2) by {
        if es_has(es2, o2) {
            let i = es_index(es2, o2);
            if i < es.len() {
                assert(es[i].0 == o2);
            }
        }
        if es_has(es, o2) {
            let i = es_index(es, o2);
            assert(es2[i].0 == o2);
        }
        if o2 == o {
            assert(es2[es.len() as int].0 == o);
        }
    }
    assert forall|o2: Seq<char>| #[trigger] es_map(es2).dom().contains(o2) implies es_map(es2)[o2]
        == es_map(es).insert(o, v)[o2] by {
        let i = es_index(es2, o2);
        if o2 != o {
            assert(i < es.len());
            assert(es[i].0 == o2);
            lemma_es_at(es, i);
            lemma_es_at(es2, i);
        } else {
            lemma_es_at(es2, es.len() as int);
        }
    }
    assert(es_map(es2) =~= es_map(es).insert(o, v));
}

proof fn lemma_es_remove(es: Seq<(Seq<char>, Seq<(Seq<char>, Seq<char>)>)>, k: int)
    requires
        names_distinct(es),
        0 <= k < es.len(),
    ensures
        names_distinct(es.remove(k)),
        es_map(es.remove(k)) == es_map(es).remove(es[k].0),
{
    let es2 = es.remove(k);
    let o = es[k].0;
    assert forall|i: int, j: int|
        0 <= i < es2.len() && 0 <= j < es2.len() && i != j implies (#[trigger] es2[i]).0 != (
        #[trigger] es2[j]).0 by {
        let ii = if i < k { i } else { i + 1 };
        let jj = if j < k { j } else { j + 1 };
        assert(es2[i] == es[ii] && es2[j] == es[jj]);
    }
    assert forall|o2: Seq<char>| #[trigger] es_map(es2).dom().contains(o2) == es_map(es).remove(o).dom().contains(o2) by {
        if es_has(es2, o2) {
            let i = es_index(es2, o2);
            let ii = if i < k { i } else { i + 1 };
            assert(es2[i] == es[ii]);
            assert(es[ii].0 == o2);
        }
        if es_has(es, o2) && o2 != o {
            let i = es_index(es, o2);
            let i2 = if i < k { i } else { i - 1 };
            assert(es2[i2] == es[i]);
        }
    }
    assert forall|o2: Seq<char>| #[trigger] es_map(es2).dom().contains(o2) implies es_map(es2)[o2]
        == es_map(es).remove(o)[o2] by {
        let i = es_index(es2, o2);
        let ii = if i < k { i } else { i + 1 };
        assert(es2[i] == es[ii]);
        lemma_es_at(es, ii);
        lemma_es_at(es2, i);
    }
    assert(es_map(es2) =~= es_map(es).remove(o));
}

/// localStorage data of one browser context.
pub struct OriginStorage {
    origins: Vec<(String, Vec<(String, String)>)>,
    bytes: usize,
}

impl OriginStorage {
    /// Origins with their items, in the order they were first written.
    pub closed spec fn entries(&self) -> Seq<(Seq<char>, Seq<(Seq<char>, Seq<char>)>)> {
        self.origins@.map_values(
            |e: (String, Vec<(String, String)>)| (e.0@, items_view(e.1@)),
        )
    }

    /// Items of each origin that holds any.
    pub closed spec fn view(&self) -> Map<Seq<char>, Seq<(Seq<char>, Seq<char>)>> {
        es_map(self.entries())
    }

    /// Items of origin `o`, empty when it has none.
    pub open spec fn items(&self, o: Seq<char>) -> Seq<(Seq<char>, Seq<char>)> {
        if self.view().dom().contains(o) {
            self.view()[o]
        } else {
            Seq::empty()
        }
    }

    /// Bytes held by all origins together.
    pub closed spec fn total_bytes(&self) -> nat {
        sum_nat(
            self.entries().map_values(
                |e: (Seq<char>, Seq<(Seq<char>, Seq<char>)>)| items_bytes(e.1),
            ),
        )
    }

    /// Number of origins holding data.
    pub closed spec fn origin_count(&self) -> nat {
        self.origins@.len()
    }

    pub closed spec fn wf(&self) -> bool {
        &&& names_distinct(self.entries())
        &&& forall|i: int|
            0 <= i < self.entries().len() ==> {
                let items = (#[trigger] self.entries()[i]).1;
                &&& items.len() > 0
                &&& keys_distinct(items)
                &&& items_bytes(items) <= LOCAL_STORAGE_ORIGIN_LIMIT
            }
        &&& self.origins@.len() <= LOCAL_STORAGE_ORIGIN_COUNT_LIMIT
        &&& self.bytes == self.total_bytes()
        &&& self.total_bytes() <= LOCAL_STORAGE_TOTAL_LIMIT
    }

    /// Whether `set(o, key, value)` is accepted: a new origin needs a free
    /// origin slot, and the origin and the whole store must stay within their
    /// byte limits once the item is written.
    pub open spec fn set_allowed(&self, o: Seq<char>, key: Seq<char>, value: Seq<char>) -> bool {
        let items = self.items(o);
        let prev: int = if has_key(items, key) {
            kv_bytes(items[key_index(items, key)]) as int
        } else {
            0
        };
        let next_origin = items_bytes(items) - prev + kv_bytes((key, value));
        let next_total = self.total_bytes() - prev + kv_bytes((key, value));
        &&& (self.view().dom().contains(o) || self.origin_count() < LOCAL_STORAGE_ORIGIN_COUNT_LIMIT)
        &&& next_origin <= LOCAL_STORAGE_ORIGIN_LIMIT
        &&& next_total <= LOCAL_STORAGE_TOTAL_LIMIT
    }

    /// Bytes that the item under `key` of `o` holds; 0 when there is none.
    pub open spec fn item_bytes(&self, o: Seq<char>, key: Seq<char>) -> nat {
        let items = self.items(o);
        if has_key(items, key) {
            kv_bytes(items[key_index(items, key)])
        } else {
            0
        }
    }

    /// `remove(o, key)` drops origin `o`: it held only that item.
    pub open spec fn remove_drops_origin(&self, o: Seq<char>, key: Seq<char>) -> bool {
        has_key(self.items(o), key) && without_key(self.items(o), key).len() == 0
    }

    /// The items of `o` after `remove(o, key)`; an origin left empty goes.
    pub open spec fn after_remove(&self, o: Seq<char>, key: Seq<char>) -> Map<
        Seq<char>,
        Seq<(Seq<char>, Seq<char>)>,
    > {
        let rest = without_key(self.items(o), key);
        if rest.len() == 0 {
            self.view().remove(o)
        } else {
            self.view().insert(o, rest)
        }
    }

    proof fn lemma_entries_at(&self, k: int)
        requires
            0 <= k < self.origins@.len(),
        ensures
            self.entries().len() == self.origins@.len(),
            self.entries()[k] == (self.origins@[k].0@, items_view(self.origins@[k].1@)),
    {
    }

    proof fn lemma_items_at(&self, k: int)
        requires
            self.wf(),
            0 <= k < self.origins@.len(),
        ensures
            self.view().dom().contains(self.origins@[k].0@),
            self.items(self.origins@[k].0@) == items_view(self.origins@[k].1@),
            keys_distinct(items_view(self.origins@[k].1@)),
            items_view(self.origins@[k].1@).len() > 0,
            items_bytes(items_view(self.origins@[k].1@)) <= LOCAL_STORAGE_ORIGIN_LIMIT,
    {
        lemma_es_at(self.entries(), k);
        assert(self.entries()[k] == (self.origins@[k].0@, items_view(self.origins@[k].1@)));
    }

    /// Every origin's items carry each key at most once.
    pub proof fn lemma_wf_items(&self, o: Seq<char>)
        requires
            self.wf(),
        ensures
            keys_distinct(self.items(o)),
            self.view().dom().contains(o) ==> self.items(o).len() > 0,
    {
        if self.view().dom().contains(o) {
            let k = es_index(self.entries(), o);
            assert(es_has(self.entries(), o));
            self.lemma_items_at(k);
        }
    }

    pub fn new() -> (r: OriginStorage)
        ensures
            r.wf(),
            r.view() == Map::<Seq<char>, Seq<(Seq<char>, Seq<char>)>>::empty(),
            r.origin_count() == 0,
            r.total_bytes() == 0,
    {
        let r = OriginStorage { origins: Vec::new(), bytes: 0 };
        proof {
            assert(r.entries() =~= Seq::empty());
            assert(r.view() =~= Map::empty());
        }
        r
    }

    fn find_origin(&self, origin: &str) -> (r: Option<usize>)
        ensures
            match r {
                Some(k) => k < self.origins@.len() && self.origins@[k as int].0@ == origin@,
                None => !es_has(self.entries(), origin@),
            },
    {
        let mut i: usize = 0;
        while i < self.origins.len()
            invariant
                i <= self.origins@.len(),
                forall|j: int| 0 <= j < i ==> (#[trigger] self.origins@[j]).0@ != origin@,
            decreases self.origins@.len() - i,
        {
            if str_eq(self.origins[i].0.as_str(), origin) {
                return Some(i);
            }
            i = i + 1;
        }
        proof {
            assert forall|j: int| 0 <= j < self.entries().len() implies (
            #[trigger] self.entries()[j]).0 != origin@ by {
                self.lemma_entries_at(j);
            }
        }
        None
    }

    fn find_key(items: &Vec<(String, String)>, key: &str) -> (r: Option<usize>)
        ensures
            match r {
                Some(j) => j < items@.len() && items@[j as int].0@ == key@ && has_key(
                    items_view(items@),
                    key@,
                ),
                None => !has_key(items_view(items@), key@),
            },
    {
        let mut i: usize = 0;
        while i < items.len()
            invariant
                i <= items@.len(),
                forall|j: int| 0 <= j < i ==> (#[trigger] items@[j]).0@ != key@,
            decreases items@.len() - i,
        {
            if str_eq(items[i].0.as_str(), key) {
                proof {
                    assert(items_view(items@)[i as int].0 == key@);
                }
                return Some(i);
            }
            i = i + 1;
        }
        proof {
            assert forall|j: int| 0 <= j < items_view(items@).len() implies (
            #[trigger] items_view(items@)[j]).0 != key@ by {
                assert(items_view(items@)[j].0 == items@[j].0@);
            }
        }
        None
    }

    fn pair_bytes(p: &(String, String)) -> (r: usize)
        requires
            kv_bytes((p.0@, p.1@)) <= LOCAL_STORAGE_TOTAL_LIMIT,
        ensures
            r == kv_bytes((p.0@, p.1@)),
    {
        p.0.as_str().as_bytes().len() + p.1.as_str().as_bytes().len()
    }

    fn sum_items(items: &Vec<(String, String)>) -> (r: usize)
        requires
            items_bytes(items_view(items@)) <= LOCAL_STORAGE_ORIGIN_LIMIT,
        ensures
            r == items_bytes(items_view(items@)),
    {
        let ghost mv = items_view(items@).map_values(|p: (Seq<char>, Seq<char>)| kv_bytes(p));
        let mut acc: usize = 0;
        let mut i: usize = 0;
        proof {
            assert(mv.take(0) =~= Seq::<nat>::empty());
        }
        while i < items.len()
            invariant
                i <= items@.len() == mv.len(),
                mv == items_view(items@).map_values(|p: (Seq<char>, Seq<char>)| kv_bytes(p)),
                sum_nat(mv) <= LOCAL_STORAGE_ORIGIN_LIMIT,
                acc == sum_nat(mv.take(i as int)),
            decreases items@.len() - i,
        {
            proof {
                lemma_sum_prefix(mv, i + 1);
                assert(mv.take(i + 1) =~= mv.take(i as int).push(mv[i as int]));
                lemma_sum_push(mv.take(i as int), mv[i as int]);
                assert(mv[i as int] == kv_bytes((items@[i as int].0@, items@[i as int].1@)));
            }
            let b = Self::pair_bytes(&items[i]);
            acc = acc + b;
            i = i + 1;
        }
        proof {
            assert(mv.take(i as int) =~= mv);
        }
        acc
    }

    /// Copy of an origin's items, in insertion order.
    pub fn snapshot(&self, origin: &str) -> (r: Vec<(String, String)>)
        requires
            self.wf(),
        ensures
            items_view(r@) == self.items(origin@),
    {
        let mut out: Vec<(String, String)> = Vec::new();
        match self.find_origin(origin) {
            None => {
                proof {
                    assert(!self.view().dom().contains(origin@));
                    assert(items_view(out@) =~= Seq::empty());
                }
                out
            },
            Some(k) => {
                let items = &self.origins[k].1;
                let mut i: usize = 0;
                while i < items.len()
                    invariant
                        i <= items@.len(),
                        items == self.origins@[k as int].1,
                        items_view(out@) == items_view(items@).take(i as int),
                    decreases items@.len() - i,
                {
                    let name = items[i].0.clone();
                    let value = items[i].1.clone();
                    let ghost before = out@;
                    out.push((name, value));
                    proof {
                        assert(name@ == items@[i as int].0@);
                        assert(value@ == items@[i as int].1@);
                        assert(out@ == before.push((name, value)));
                        assert(items_view(out@) =~= items_view(before).push((name@, value@)));
                        assert(items_view(items@).take(i + 1) =~= items_view(items@).take(
                            i as int,
                        ).push(items_view(items@)[i as int]));
                        assert(items_view(out@) =~= items_view(items@).take(i + 1));
                    }
                    i = i + 1;
                }
                proof {
                    self.lemma_items_at(k as int);
                    assert(items_view(items@).take(i as int) =~= items_view(items@));
                }
                out
            },
        }
    }

    /// The value stored under `key` for `origin`.
    pub fn get(&self, origin: &str, key: &str) -> (r: Option<String>)
        requires
            self.wf(),
        ensures
            match r {
                Some(v) => lookup(self.items(origin@), key@) == Some(v@),
                None => lookup(self.items(origin@), key@) is None,
            },
    {
        match self.find_origin(origin) {
            None => {
                proof {
                    assert(!self.view().dom().contains(origin@));
                }
                None
            },
            Some(k) => {
                let items = &self.origins[k].1;
                proof {
                    self.lemma_items_at(k as int);
                }
                match Self::find_key(items, key) {
                    None => None,
                    Some(j) => {
                        proof {
                            let s = items_view(items@);
                            assert(s[j as int].0 == key@);
                            assert(s[key_index(s, key@)].0 == key@);
                        }
                        Some(items[j].1.clone())
                    },
                }
            },
        }
    }

    proof fn lemma_bytes_bounds(&self, k: int)
        requires
            self.wf(),
            0 <= k < self.origins@.len(),
        ensures
            items_bytes(items_view(self.origins@[k].1@)) <= self.total_bytes(),
            forall|j: int|
                0 <= j < self.origins@[k].1@.len() ==> kv_bytes(
                    #[trigger] items_view(self.origins@[k].1@)[j],
                ) <= items_bytes(items_view(self.origins@[k].1@)),
    {
        let tv = self.entries().map_values(
            |e: (Seq<char>, Seq<(Seq<char>, Seq<char>)>)| items_bytes(e.1),
        );
        self.lemma_entries_at(k);
        assert(tv[k] == items_bytes(items_view(self.origins@[k].1@)));
        lemma_sum_elem(tv, k);
        let s = items_view(self.origins@[k].1@);
        let mv = s.map_values(|p: (Seq<char>, Seq<char>)| kv_bytes(p));
        assert forall|j: int| 0 <= j < self.origins@[k].1@.len() implies kv_bytes(
            #[trigger] items_view(self.origins@[k].1@)[j],
        ) <= items_bytes(items_view(self.origins@[k].1@)) by {
            assert(mv[j] == kv_bytes(s[j]));
            lemma_sum_elem(mv, j);
        }
    }

    /// Writes `value` under `key` for `origin`. Refused, leaving the store
    /// as it was, when a new origin would exceed the origin count or the
    /// write would exceed the per-origin or total byte limit.
    pub fn set(&mut self, origin: &str, key: String, value: String) -> (r: bool)
        requires
            old(self).wf(),
        ensures
            final(self).wf(),
            r == old(self).set_allowed(origin@, key@, value@),
            r ==> final(self).view() == old(self).view().insert(
                origin@,
                upsert(old(self).items(origin@), key@, value@),
            ),
            final(self).view() == after_call(
                old(self).view(),
                StorageCall::SetItem { origin: origin@, key: key@, value: value@, accepted: r },
            ),
            !r ==> *final(self) == *old(self),
            r ==> final(self).total_bytes() == old(self).total_bytes() - old(self).item_bytes(
                origin@,
                key@,
            ) + kv_bytes((key@, value@)),
            r ==> final(self).origin_count() == old(self).origin_count() + if old(
                self,
            ).view().dom().contains(origin@) {
                0int
            } else {
                1int
            },
    {
        let ghost o = origin@;
        let ghost kv = (key@, value@);
        let ghost items = self.items(o);
        let idx = self.find_origin(origin);
        proof {
            if idx is None {
                assert(!self.view().dom().contains(o));
                assert(items == Seq::<(Seq<char>, Seq<char>)>::empty());
                assert(!has_key(items, key@));
                assert(items_bytes(items) == 0) by {
                    assert(items.map_values(|p: (Seq<char>, Seq<char>)| kv_bytes(p)) =~= Seq::<
                        nat,
                    >::empty());
                }
            } else {
                self.lemma_items_at(idx->Some_0 as int);
                self.lemma_bytes_bounds(idx->Some_0 as int);
            }
        }
        if idx.is_none() && self.origins.len() >= LOCAL_STORAGE_ORIGIN_COUNT_LIMIT {
            return false;
        }
        let klen = key.as_str().as_bytes().len();
        let vlen = value.as_str().as_bytes().len();
        proof {
            if has_key(items, key@) {
                let s = items_view(self.origins@[idx->Some_0 as int].1@);
                assert(items[key_index(items, key@)] == s[key_index(items, key@)]);
            }
        }
        if klen > LOCAL_STORAGE_ORIGIN_LIMIT || vlen > LOCAL_STORAGE_ORIGIN_LIMIT || klen + vlen
            > LOCAL_STORAGE_ORIGIN_LIMIT {
            return false;
        }
        let new_bytes = klen + vlen;
        let mut previous: usize = 0;
        let mut origin_bytes: usize = 0;
        let mut slot: Option<usize> = None;
        match idx {
            Some(k) => {
                let j = Self::find_key(&self.origins[k].1, key.as_str());
                proof {
                    let s = items_view(self.origins@[k as int].1@);
                    assert(items == s);
                    if j is Some {
                        assert(s[j->Some_0 as int].0 == key@);
                        assert(s[key_index(s, key@)].0 == key@);
                        assert(key_index(s, key@) == j->Some_0);
                        assert(s[j->Some_0 as int] == (
                            self.origins@[k as int].1@[j->Some_0 as int].0@,
                            self.origins@[k as int].1@[j->Some_0 as int].1@,
                        ));
                    }
                }
                match j {
                    Some(j) => {
                        previous = Self::pair_bytes(&self.origins[k].1[j]);
                    },
                    None => {},
                }
                origin_bytes = Self::sum_items(&self.origins[k].1);
                slot = j;
            },
            None => {},
        }
        proof {
            assert(previous == (if has_key(items, key@) {
                kv_bytes(items[key_index(items, key@)]) as int
            } else {
                0
            }));
            assert(origin_bytes == items_bytes(items));
            assert(previous <= origin_bytes);
            assert(origin_bytes <= self.bytes);
        }
        let next_origin = origin_bytes - previous + new_bytes;
        let next_total = self.bytes - previous + new_bytes;
        if next_origin > LOCAL_STORAGE_ORIGIN_LIMIT || next_total > LOCAL_STORAGE_TOTAL_LIMIT {
            return false;
        }
        let ghost old_self = *self;
        let ghost es = self.entries();
        let ghost tv = es.map_values(
            |e: (Seq<char>, Seq<(Seq<char>, Seq<char>)>)| items_bytes(e.1),
        );
        match idx {
            Some(k) => {
                let mut entry = self.origins.remove(k);
                let ghost old_items = entry.1@;
                match slot {
                    Some(j) => {
                        entry.1.set(j, (key, value));
                    },
                    None => {
                        entry.1.push((key, value));
                    },
                }
                self.origins.insert(k, entry);
                proof {
                    let s = items_view(old_items);
                    let s2 = items_view(entry.1@);
                    assert(old_items == old_self.origins@[k as int].1@);
                    assert(s == items);
                    assert(s2 =~= upsert(s, key@, value@)) by {
                        if slot is Some {
                            assert(s[slot->Some_0 as int].0 == key@);
                            assert(key_index(s, key@) == slot->Some_0);
                        }
                    }
                    let ms = s.map_values(|p: (Seq<char>, Seq<char>)| kv_bytes(p));
                    let ms2 = s2.map_values(|p: (Seq<char>, Seq<char>)| kv_bytes(p));
                    if slot is Some {
                        let j = slot->Some_0 as int;
                        assert(ms2 =~= ms.update(j, kv_bytes(kv)));
                        lemma_sum_update(ms, j, kv_bytes(kv));
                    } else {
                        assert(ms2 =~= ms.push(kv_bytes(kv)));
                        lemma_sum_push(ms, kv_bytes(kv));
                    }
                    assert(items_bytes(s2) == next_origin);
                    assert(self.origins@ =~= old_self.origins@.update(k as int, entry));
                    assert(self.entries() =~= es.update(k as int, (es[k as int].0, s2)));
                    lemma_es_update(es, k as int, s2);
                    assert(keys_distinct(s2)) by {
                        assert forall|a: int, b: int|
                            0 <= a < s2.len() && 0 <= b < s2.len() && a != b implies (
                            #[trigger] s2[a]).0 != (#[trigger] s2[b]).0 by {
                            if slot is None {
                                if a < s.len() && b < s.len() {
                                } else if a < s.len() {
                                    assert(s[a].0 == s2[a].0);
                                } else {
                                    assert(s[b].0 == s2[b].0);
                                }
                            }
                        }
                    }
                    let tv2 = self.entries().map_values(
                        |e: (Seq<char>, Seq<(Seq<char>, Seq<char>)>)| items_bytes(e.1),
                    );
                    assert(tv2 =~= tv.update(k as int, items_bytes(s2)));
                    lemma_sum_update(tv, k as int, items_bytes(s2));
                    assert(tv[k as int] == items_bytes(s));
                    assert forall|i: int| 0 <= i < self.entries().len() implies {
                        let it = (#[trigger] self.entries()[i]).1;
                        &&& it.len() > 0
                        &&& keys_distinct(it)
                        &&& items_bytes(it) <= LOCAL_STORAGE_ORIGIN_LIMIT
                    } by {
                        if i != k {
                            assert(self.entries()[i] == es[i]);
                        } else {
                            assert(s2.len() > 0);
                        }
                    }
                }
            },
            None => {
                let mut fresh: Vec<(String, String)> = Vec::new();
                fresh.push((key, value));
                self.origins.push((owned(origin), fresh));
                proof {
                    let s2 = items_view(fresh@);
                    assert(s2 =~= seq![kv]);
                    assert(seq![kv] =~= Seq::<(Seq<char>, Seq<char>)>::empty().push(kv));
                    assert(upsert(items, key@, value@) == s2);
                    let ms2 = s2.map_values(|p: (Seq<char>, Seq<char>)| kv_bytes(p));
                    assert(ms2 =~= Seq::<nat>::empty().push(kv_bytes(kv)));
                    lemma_sum_push(Seq::<nat>::empty(), kv_bytes(kv));
                    assert(self.entries() =~= es.push((o, s2)));
                    assert(!es_has(es, o));
                    lemma_es_push(es, o, s2);
                    let tv2 = self.entries().map_values(
                        |e: (Seq<char>, Seq<(Seq<char>, Seq<char>)>)| items_bytes(e.1),
                    );
                    assert(tv2 =~= tv.push(items_bytes(s2)));
                    lemma_sum_push(tv, items_bytes(s2));
                    assert(keys_distinct(s2));
                    assert forall|i: int| 0 <= i < self.entries().len() implies {
                        let it = (#[trigger] self.entries()[i]).1;
                        &&& it.len() > 0
                        &&& keys_distinct(it)
                        &&& items_bytes(it) <= LOCAL_STORAGE_ORIGIN_LIMIT
                    } by {
                        if i < es.len() {
                            assert(self.entries()[i] == es[i]);
                        }
                    }
                }
            },
        }
        self.bytes = next_total;
        true
    }

    /// Removes the item stored under `key` for `origin`; an origin left
    /// without items is dropped.
    #[verifier::rlimit(40)]
    pub fn remove(&mut self, origin: &str, key: &str)
        requires
            old(self).wf(),
        ensures
            final(self).wf(),
            final(self).view() == old(self).after_remove(origin@, key@),
            final(self).view() == after_call(
                old(self).view(),
                StorageCall::RemoveItem { origin: origin@, key: key@ },
            ),
            final(self).total_bytes() == old(self).total_bytes() - old(self).item_bytes(
                origin@,
                key@,
            ),
            final(self).origin_count() == old(self).origin_count() - if old(
                self,
            ).remove_drops_origin(origin@, key@) {
                1int
            } else {
                0int
            },
    {
        let ghost o = origin@;
        let ghost items = self.items(o);
        let ghost old_self = *self;
        let ghost es = self.entries();
        let ghost tv = es.map_values(
            |e: (Seq<char>, Seq<(Seq<char>, Seq<char>)>)| items_bytes(e.1),
        );
        match self.find_origin(origin) {
            None => {
                proof {
                    assert(!self.view().dom().contains(o));
                    assert(!has_key(items, key@));
                    assert(self.view().remove(o) =~= self.view());
                }
            },
            Some(k) => {
                proof {
                    self.lemma_items_at(k as int);
                    self.lemma_bytes_bounds(k as int);
                }
                match Self::find_key(&self.origins[k].1, key) {
                    None => {
                        proof {
                            assert(self.view().insert(o, items) =~= self.view());
                        }
                    },
                    Some(j) => {
                        let mut entry = self.origins.remove(k);
                        let ghost old_items = entry.1@;
                        let removed = entry.1.remove(j);
                        proof {
                            let s = items_view(old_items);
                            assert(s == items);
                            assert(s[j as int].0 == key@);
                            assert(s[key_index(s, key@)].0 == key@);
                            assert(key_index(s, key@) == j);
                            assert(s[j as int] == (removed.0@, removed.1@));
                            assert(kv_bytes(s[j as int]) <= items_bytes(s));
                        }
                        let b = Self::pair_bytes(&removed);
                        proof {
                            let s = items_view(old_items);
                            let s2 = items_view(entry.1@);
                            assert(s2 =~= s.remove(j as int));
                            assert(s2 == without_key(items, key@));
                            let ms = s.map_values(|p: (Seq<char>, Seq<char>)| kv_bytes(p));
                            let ms2 = s2.map_values(|p: (Seq<char>, Seq<char>)| kv_bytes(p));
                            assert(ms2 =~= ms.remove(j as int));
                            lemma_sum_remove(ms, j as int);
                            assert(keys_distinct(s2)) by {
                                assert forall|a: int, c: int|
                                    0 <= a < s2.len() && 0 <= c < s2.len() && a != c implies (
                                    #[trigger] s2[a]).0 != (#[trigger] s2[c]).0 by {
                                    let aa = if a < j { a } else { a + 1 };
                                    let cc = if c < j { c } else { c + 1 };
                                    assert(s2[a] == s[aa] && s2[c] == s[cc]);
                                }
                            }
                        }
                        self.bytes = self.bytes - b;
                        if entry.1.len() == 0 {
                            proof {
                                assert(self.origins@ =~= old_self.origins@.remove(k as int));
                                assert(self.entries() =~= es.remove(k as int));
                                lemma_es_remove(es, k as int);
                                let tv2 = self.entries().map_values(
                                    |e: (Seq<char>, Seq<(Seq<char>, Seq<char>)>)| items_bytes(e.1),
                                );
                                assert(tv2 =~= tv.remove(k as int));
                                lemma_sum_remove(tv, k as int);
                                assert(tv[k as int] == items_bytes(items));
                                assert forall|i: int| 0 <= i < self.entries().len() implies {
                                    let it = (#[trigger] self.entries()[i]).1;
                                    &&& it.len() > 0
                                    &&& keys_distinct(it)
                                    &&& items_bytes(it) <= LOCAL_STORAGE_ORIGIN_LIMIT
                                } by {
                                    let ii = if i < k { i } else { i + 1 };
                                    assert(self.entries()[i] == es[ii]);
                                }
                            }
                        } else {
                            self.origins.insert(k, entry);
                            proof {
                                let s2 = items_view(entry.1@);
                                assert(self.origins@ =~= old_self.origins@.update(k as int, entry));
                                assert(self.entries() =~= es.update(k as int, (es[k as int].0, s2)));
                                lemma_es_update(es, k as int, s2);
                                let tv2 = self.entries().map_values(
                                    |e: (Seq<char>, Seq<(Seq<char>, Seq<char>)>)| items_bytes(e.1),
                                );
                                assert(tv2 =~= tv.update(k as int, items_bytes(s2)));
                                lemma_sum_update(tv, k as int, items_bytes(s2));
                                assert(tv[k as int] == items_bytes(items));
                                assert forall|i: int| 0 <= i < self.entries().len() implies {
                                    let it = (#[trigger] self.entries()[i]).1;
                                    &&& it.len() > 0
                                    &&& keys_distinct(it)
                                    &&& items_bytes(it) <= LOCAL_STORAGE_ORIGIN_LIMIT
                                } by {
                                    if i != k {
                                        assert(self.entries()[i] == es[i]);
                                    }
                                }
                            }
                        }
                    },
                }
            },
        }
    }

    /// Drops every item of `origin`.
    pub fn clear(&mut self, origin: &str)
        requires
            old(self).wf(),
        ensures
            final(self).wf(),
            final(self).view() == old(self).view().remove(origin@),
            final(self).view() == after_call(
                old(self).view(),
                StorageCall::ClearOrigin { origin: origin@ },
            ),
            final(self).total_bytes() == old(self).total_bytes() - items_bytes(
                old(self).items(origin@),
            ),
            final(self).origin_count() == old(self).origin_count() - if old(
                self,
            ).view().dom().contains(origin@) {
                1int
            } else {
                0int
            },
    {
        let ghost o = origin@;
        let ghost old_self = *self;
        let ghost es = self.entries();
        let ghost tv = es.map_values(
            |e: (Seq<char>, Seq<(Seq<char>, Seq<char>)>)| items_bytes(e.1),
        );
        match self.find_origin(origin) {
            None => {
                proof {
                    assert(!self.view().dom().contains(o));
                    assert(self.view().remove(o) =~= self.view());
                }
            },
            Some(k) => {
                proof {
                    self.lemma_items_at(k as int);
                    self.lemma_bytes_bounds(k as int);
                }
                let entry = self.origins.remove(k);
                let b = Self::sum_items(&entry.1);
                self.bytes = self.bytes - b;
                proof {
                    assert(self.origins@ =~= old_self.origins@.remove(k as int));
                    assert(self.entries() =~= es.remove(k as int));
                    lemma_es_remove(es, k as int);
                    let tv2 = self.entries().map_values(
                        |e: (Seq<char>, Seq<(Seq<char>, Seq<char>)>)| items_bytes(e.1),
                    );
                    assert(tv2 =~= tv.remove(k as int));
                    lemma_sum_remove(tv, k as int);
                    assert(es[k as int].0 == o);
                    assert forall|i: int| 0 <= i < self.entries().len() implies {
                        let it = (#[trigger] self.entries()[i]).1;
                        &&& it.len() > 0
                        &&& keys_distinct(it)
                        &&& items_bytes(it) <= LOCAL_STORAGE_ORIGIN_LIMIT
                    } by {
                        let ii = if i < k { i } else { i + 1 };
                        assert(self.entries()[i] == es[ii]);
                    }
                }
            },
        }
    }
}

/// Setting a key and then looking it up gives the value written; every other
/// key keeps its value, and the keys stay distinct.
pub proof fn lemma_lookup_upsert(
    s: Seq<(Seq<char>, Seq<char>)>,
    key: Seq<char>,
    value: Seq<char>,
    other: Seq<char>,
)
    requires
        keys_distinct(s),
    ensures
        lookup(upsert(s, key, value), key) == Some(value),
        other != key ==> lookup(upsert(s, key, value), other) == lookup(s, other),
        keys_distinct(upsert(s, key, value)),
{
    let u = upsert(s, key, value);
    if has_key(s, key) {
        let j = key_index(s, key);
        assert(u[j].0 == key);
        assert(u[key_index(u, key)].0 == key);
        if has_key(s, other) && other != key {
            let i = key_index(s, other);
            assert(u[i].0 == other);
            assert(u[key_index(u, other)].0 == other);
        }
        if has_key(u, other) && other != key {
            let i = key_index(u, other);
            assert(s[i].0 == other);
        }
    } else {
        let n = s.len() as int;
        assert(u[n].0 == key);
        assert(u[key_index(u, key)].0 == key);
        if has_key(s, other) {
            let i = key_index(s, other);
            assert(u[i].0 == other);
            assert(u[key_index(u, other)].0 == other);
        }
        if has_key(u, other) && other != key {
            let i = key_index(u, other);
            assert(s[i].0 == other);
        }
    }
}

/// After removing a key it is gone; every other key keeps its value.
pub proof fn lemma_lookup_without(s: Seq<(Seq<char>, Seq<char>)>, key: Seq<char>, other: Seq<char>)
    requires
        keys_distinct(s),
    ensures
        lookup(without_key(s, key), key) is None,
        other != key ==> lookup(without_key(s, key), other) == lookup(s, other),
{
    let w = without_key(s, key);
    if has_key(s, key) {
        let j = key_index(s, key);
        if has_key(w, key) {
            let i = key_index(w, key);
            let ii = if i < j { i } else { i + 1 };
            assert(w[i] == s[ii]);
        }
        if has_key(s, other) && other != key {
            let i = key_index(s, other);
            let i2 = if i < j { i } else { i - 1 };
            assert(w[i2] == s[i]);
            assert(w[key_index(w, other)].0 == other);
        }
        if has_key(w, other) && other != key {
            let i = key_index(w, other);
            let ii = if i < j { i } else { i + 1 };
            assert(w[i] == s[ii]);
        }
    }
}

/// A write that `set` accepted is read back by `get`, while other keys of
/// the origin and all other origins are left as they were.
pub proof fn lemma_read_your_write(
    before: OriginStorage,
    after: OriginStorage,
    o: Seq<char>,
    key: Seq<char>,
    value: Seq<char>,
    other_key: Seq<char>,
    other_origin: Seq<char>,
)
    requires
        before.wf(),
        after.view() == before.view().insert(o, upsert(before.items(o), key, value)),
    ensures
        lookup(after.items(o), key) == Some(value),
        other_key != key ==> lookup(after.items(o), other_key) == lookup(
            before.items(o),
            other_key,
        ),
        other_origin != o ==> after.items(other_origin) == before.items(other_origin),
{
    before.lemma_wf_items(o);
    lemma_lookup_upsert(before.items(o), key, value, other_key);
}

/// After `remove` the key reads as absent, and nothing else changes.
pub proof fn lemma_removed_key_is_absent(
    before: OriginStorage,
    after: OriginStorage,
    o: Seq<char>,
    key: Seq<char>,
    other_key: Seq<char>,
    other_origin: Seq<char>,
)
    requires
        before.wf(),
        after.view() == before.after_remove(o, key),
    ensures
        lookup(after.items(o), key) is None,
        other_key != key ==> lookup(after.items(o), other_key) == lookup(
            before.items(o),
            other_key,
        ),
        other_origin != o ==> after.items(other_origin) == before.items(other_origin),
{
    before.lemma_wf_items(o);
    lemma_lookup_without(before.items(o), key, other_key);
    let rest = without_key(before.items(o), key);
    if rest.len() == 0 {
        assert(!has_key(rest, key));
        if has_key(rest, other_key) {
            assert(false);
        }
    }
}

/// One call on the store, with whether a `set` was accepted.
pub enum StorageCall {
    SetItem { origin: Seq<char>, key: Seq<char>, value: Seq<char>, accepted: bool },
    RemoveItem { origin: Seq<char>, key: Seq<char> },
    ClearOrigin { origin: Seq<char> },
}

/// Items of origin `o` in the view `m`, empty when it has none.
pub open spec fn items_of(
    m: Map<Seq<char>, Seq<(Seq<char>, Seq<char>)>>,
    o: Seq<char>,
) -> Seq<(Seq<char>, Seq<char>)> {
    if m.dom().contains(o) {
        m[o]
    } else {
        Seq::empty()
    }
}

/// The view after one call, as the contracts of `set`, `remove` and `clear`
/// give it.
pub open spec fn after_call(
    m: Map<Seq<char>, Seq<(Seq<char>, Seq<char>)>>,
    c: StorageCall,
) -> Map<Seq<char>, Seq<(Seq<char>, Seq<char>)>> {
    match c {
        StorageCall::SetItem { origin, key, value, accepted } => if accepted {
            m.insert(origin, upsert(items_of(m, origin), key, value))
        } else {
            m
        },
        StorageCall::RemoveItem { origin, key } => {
            let rest = without_key(items_of(m, origin), key);
            if rest.len() == 0 {
                m.remove(origin)
            } else {
                m.insert(origin, rest)
            }
        },
        StorageCall::ClearOrigin { origin } => m.remove(origin),
    }
}

/// The view after a sequence of calls, first to last.
pub open spec fn after_calls(
    m: Map<Seq<char>, Seq<(Seq<char>, Seq<char>)>>,
    cs: Seq<StorageCall>,
) -> Map<Seq<char>, Seq<(Seq<char>, Seq<char>)>>
    decreases cs.len(),
{
    if cs.len() == 0 {
        m
    } else {
        after_calls(after_call(m, cs[0]), cs.skip(1))
    }
}

/// Whether call `c` writes, removes or clears item `key` of origin `o`.
pub open spec fn touches(c: StorageCall, o: Seq<char>, key: Seq<char>) -> bool {
    match c {
        StorageCall::SetItem { origin, key: k, .. } => origin == o && k == key,
        StorageCall::RemoveItem { origin, key: k } => origin == o && k == key,
        StorageCall::ClearOrigin { origin } => origin == o,
    }
}

/// Every origin of `m` holds each key at most once.
pub open spec fn items_distinct(m: Map<Seq<char>, Seq<(Seq<char>, Seq<char>)>>) -> bool {
    forall|o: Seq<char>| #[trigger] m.dom().contains(o) ==> keys_distinct(m[o])
}

proof fn lemma_without_distinct(s: Seq<(Seq<char>, Seq<char>)>, key: Seq<char>)
    requires
        keys_distinct(s),
    ensures
        keys_distinct(without_key(s, key)),
{
    if has_key(s, key) {
        let j = key_index(s, key);
        let w = s.remove(j);
        assert forall|a: int, c: int|
            0 <= a < w.len() && 0 <= c < w.len() && a != c implies (#[trigger] w[a]).0 != (
            #[trigger] w[c]).0 by {
            let aa = if a < j { a } else { a + 1 };
            let cc = if c < j { c } else { c + 1 };
            assert(w[a] == s[aa] && w[c] == s[cc]);
        }
    }
}

proof fn lemma_call_keeps(
    m: Map<Seq<char>, Seq<(Seq<char>, Seq<char>)>>,
    c: StorageCall,
    o: Seq<char>,
    key: Seq<char>,
)
    requires
        items_distinct(m),
        !touches(c, o, key),
    ensures
        items_distinct(after_call(m, c)),
        lookup(items_of(after_call(m, c), o), key) == lookup(items_of(m, o), key),
{
    let m2 = after_call(m, c);
    match c {
        StorageCall::SetItem { origin, key: k, value, accepted } => {
            if accepted {
                let it = items_of(m, origin);
                assert(keys_distinct(it)) by {
                    if m.dom().contains(origin) {
                    }
                }
                lemma_lookup_upsert(it, k, value, key);
                assert forall|x: Seq<char>| #[trigger] m2.dom().contains(x) implies keys_distinct(
                    m2[x],
                ) by {
                    if x != origin {
                        assert(m.dom().contains(x));
                    }
                }
            }
        },
        StorageCall::RemoveItem { origin, key: k } => {
            let it = items_of(m, origin);
            assert(keys_distinct(it)) by {
                if m.dom().contains(origin) {
                }
            }
            lemma_lookup_without(it, k, key);
            lemma_without_distinct(it, k);
            let rest = without_key(it, k);
            assert forall|x: Seq<char>| #[trigger] m2.dom().contains(x) implies keys_distinct(
                m2[x],
            ) by {
                if x != origin {
                    assert(m.dom().contains(x));
                }
            }
            if origin == o && rest.len() == 0 {
                assert(lookup(items_of(m, o), key) == lookup(rest, key));
                assert(!has_key(rest, key));
            }
        },
        StorageCall::ClearOrigin { origin } => {
            assert forall|x: Seq<char>| #[trigger] m2.dom().contains(x) implies keys_distinct(
                m2[x],
            ) by {
                assert(m.dom().contains(x));
            }
        },
    }
}

/// What a read of item `key` of origin `o` gives is kept by every sequence
/// of calls that neither writes nor removes that item nor clears that
/// origin: calls on other keys or other origins leave it as it was.
pub proof fn lemma_reads_survive_other_calls(
    m: Map<Seq<char>, Seq<(Seq<char>, Seq<char>)>>,
    cs: Seq<StorageCall>,
    o: Seq<char>,
    key: Seq<char>,
)
    requires
        items_distinct(m),
        forall|i: int| 0 <= i < cs.len() ==> !touches(#[trigger] cs[i], o, key),
    ensures
        lookup(items_of(after_calls(m, cs), o), key) == lookup(items_of(m, o), key),
    decreases cs.len(),
{
    if cs.len() > 0 {
        lemma_call_keeps(m, cs[0], o, key);
        let rest = cs.skip(1);
        assert forall|i: int| 0 <= i < rest.len() implies !touches(#[trigger] rest[i], o, key) by {
            assert(rest[i] == cs[i + 1]);
        }
        lemma_reads_survive_other_calls(after_call(m, cs[0]), rest, o, key);
    }
}

/// The view of a well-formed store holds each key at most once per origin.
pub proof fn lemma_view_items_distinct(s: OriginStorage)
    requires
        s.wf(),
    ensures
        items_distinct(s.view()),
{
    assert forall|o: Seq<char>| #[trigger] s.view().dom().contains(o) implies keys_distinct(
        s.view()[o],
    ) by {
        s.lemma_wf_items(o);
    }
}

impl Default for OriginStorage {
    /// An empty store.
    fn default() -> (r: OriginStorage)
        ensures
            r.wf(),
            r.view() == Map::<Seq<char>, Seq<(Seq<char>, Seq<char>)>>::empty(),
            r.total_bytes() == 0,
    {
        OriginStorage::new()
    }
}

} // verus!
