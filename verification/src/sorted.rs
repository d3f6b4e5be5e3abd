//! A map that keeps its entries in the order of their keys.
use vstd::prelude::*;

use crate::text::{
    lemma_text_before_irreflexive, lemma_text_before_transitive, place_texts, text_before, Place,
};

verus! {

/// A type of keys whose views have a strict total order.
pub trait SortKey: View + Sized {
    /// Whether the key `a` comes before the key `b`.
    spec fn before(a: Self::V, b: Self::V) -> bool;

    proof fn lemma_irreflexive(a: Self::V)
        ensures
            !Self::before(a, a),
    ;

    proof fn lemma_transitive(a: Self::V, b: Self::V, c: Self::V)
        requires
            Self::before(a, b),
            Self::before(b, c),
        ensures
            Self::before(a, c),
    ;

    /// How this key stands to another.
    fn place(&self, other: &Self) -> (r: Place)
        ensures
            match r {
                Place::Before => Self::before(self@, other@),
                Place::Same => self@ == other@,
                Place::After => Self::before(other@, self@),
            },
    ;
}

impl SortKey for u32 {
    open spec fn before(a: u32, b: u32) -> bool {
        a < b
    }

    proof fn lemma_irreflexive(a: u32) {
    }

    proof fn lemma_transitive(a: u32, b: u32, c: u32) {
    }

    fn place(&self, other: &Self) -> (r: Place) {
        if *self < *other {
            Place::Before
        } else if *self == *other {
            Place::Same
        } else {
            Place::After
        }
    }
}

impl SortKey for i64 {
    open spec fn before(a: i64, b: i64) -> bool {
        a < b
    }

    proof fn lemma_irreflexive(a: i64) {
    }

    proof fn lemma_transitive(a: i64, b: i64, c: i64) {
    }

    fn place(&self, other: &Self) -> (r: Place) {
        if *self < *other {
            Place::Before
        } else if *self == *other {
            Place::Same
        } else {
            Place::After
        }
    }
}

/// Texts are ordered by their characters' code points, which is the order of their UTF-8 bytes.
impl SortKey for String {
    open spec fn before(a: Seq<char>, b: Seq<char>) -> bool {
        text_before(a, b)
    }

    proof fn lemma_irreflexive(a: Seq<char>) {
        lemma_text_before_irreflexive(a);
    }

    proof fn lemma_transitive(a: Seq<char>, b: Seq<char>, c: Seq<char>) {
        lemma_text_before_transitive(a, b, c);
    }

    fn place(&self, other: &Self) -> (r: Place) {
        place_texts(self.as_str(), other.as_str())
    }
}

/// The map that a list of entries stands for.
pub open spec fn map_of<A, B>(s: Seq<(A, B)>) -> Map<A, B>
    decreases s.len(),
{
    if s.len() == 0 {
        Map::empty()
    } else {
        map_of(s.drop_last()).insert(s.last().0, s.last().1)
    }
}

/// Whether no key stands in the list twice.
pub open spec fn distinct_keys<A, B>(s: Seq<(A, B)>) -> bool {
    forall|i: int, j: int|
        0 <= i < j < s.len() ==> (#[trigger] s[i]).0 != (#[trigger] s[j]).0
}

/// Whether the keys of the list come one before the other.
pub open spec fn ascending<K: SortKey, B>(s: Seq<(K::V, B)>) -> bool {
    forall|i: int, j: int|
        0 <= i < j < s.len() ==> K::before((#[trigger] s[i]).0, (#[trigger] s[j]).0)
}

/// A list with distinct keys stands for the map that holds exactly its entries.
pub proof fn lemma_map_of<A, B>(s: Seq<(A, B)>)
    requires
        distinct_keys(s),
    ensures
        forall|i: int|
            0 <= i < s.len() ==> map_of(s).contains_key((#[trigger] s[i]).0) && map_of(s)[s[i].0]
                == s[i].1,
        forall|k: A|
            #[trigger] map_of(s).contains_key(k) ==> exists|i: int|
                0 <= i < s.len() && (#[trigger] s[i]).0 == k,
        map_of(s).dom().finite(),
        map_of(s).dom().len() == s.len(),
    decreases s.len(),
{
    if s.len() > 0 {
        let rest = s.drop_last();
        assert(forall|i: int| 0 <= i < rest.len() ==> rest[i] == s[i]);
        lemma_map_of(rest);
        let last = s.last();
        assert(!map_of(rest).contains_key(last.0)) by {
            if map_of(rest).contains_key(last.0) {
                let i = choose|i: int| 0 <= i < rest.len() && (#[trigger] rest[i]).0 == last.0;
                assert(s[i].0 == s[s.len() - 1].0);
            }
        }
        assert forall|i: int| 0 <= i < s.len() implies map_of(s).contains_key((#[trigger] s[i]).0)
            && map_of(s)[s[i].0] == s[i].1 by {
            if i < s.len() - 1 {
                assert(rest[i] == s[i]);
            }
        }
        assert forall|k: A| #[trigger] map_of(s).contains_key(k) implies exists|i: int|
            0 <= i < s.len() && (#[trigger] s[i]).0 == k by {
            if k == last.0 {
                assert(s[s.len() - 1].0 == k);
            } else {
                assert(map_of(rest).contains_key(k));
                let i = choose|i: int| 0 <= i < rest.len() && (#[trigger] rest[i]).0 == k;
                assert(s[i].0 == k);
            }
        }
    }
}

/// Inserting an entry with a new key into the list inserts it into the map.
proof fn lemma_map_of_insert<A, B>(s: Seq<(A, B)>, i: int, k: A, v: B)
    requires
        0 <= i <= s.len(),
        distinct_keys(s),
        distinct_keys(s.insert(i, (k, v))),
    ensures
        map_of(s.insert(i, (k, v))) == map_of(s).insert(k, v),
{
    let t = s.insert(i, (k, v));
    lemma_map_of(s);
    lemma_map_of(t);
    assert(t[i] == (k, v));
    assert forall|j: int| 0 <= j < s.len() implies #[trigger] s[j] == t[if j < i {
        j
    } else {
        j + 1
    }] by {}
    assert forall|x: A| #[trigger] map_of(t).contains_key(x) implies map_of(s).insert(
        k,
        v,
    ).contains_key(x) && map_of(s).insert(k, v)[x] == map_of(t)[x] by {
        let j = choose|j: int| 0 <= j < t.len() && (#[trigger] t[j]).0 == x;
        if j != i {
            let jj = if j < i {
                j
            } else {
                j - 1
            };
            assert(s[jj] == t[j]);
            assert(x != k);
        }
    }
    assert forall|x: A| #[trigger] map_of(s).insert(k, v).contains_key(x) implies map_of(
        t,
    ).contains_key(x) by {
        if x != k {
            let j = choose|j: int| 0 <= j < s.len() && (#[trigger] s[j]).0 == x;
            let jj = if j < i {
                j
            } else {
                j + 1
            };
            assert(t[jj] == s[j]);
        }
    }
    assert(map_of(t) =~= map_of(s).insert(k, v));
}

/// Replacing the value of an entry replaces it in the map.
proof fn lemma_map_of_update<A, B>(s: Seq<(A, B)>, i: int, v: B)
    requires
        0 <= i < s.len(),
        distinct_keys(s),
    ensures
        distinct_keys(s.update(i, (s[i].0, v))),
        map_of(s.update(i, (s[i].0, v))) == map_of(s).insert(s[i].0, v),
{
    let k = s[i].0;
    let t = s.update(i, (k, v));
    assert(distinct_keys(t)) by {
        assert forall|a: int, b: int| 0 <= a < b < t.len() implies (#[trigger] t[a]).0 != (
        #[trigger] t[b]).0 by {
            assert(t[a].0 == s[a].0);
            assert(t[b].0 == s[b].0);
        }
    }
    lemma_map_of(s);
    lemma_map_of(t);
    assert(t[i] == (k, v));
    assert forall|x: A| #[trigger] map_of(t).contains_key(x) implies map_of(s).insert(
        k,
        v,
    ).contains_key(x) && map_of(s).insert(k, v)[x] == map_of(t)[x] by {
        let j = choose|j: int| 0 <= j < t.len() && (#[trigger] t[j]).0 == x;
        if j != i {
            assert(s[j] == t[j]);
            assert(x != k) by {
                if j < i {
                    assert(s[j].0 != s[i].0);
                } else {
                    assert(s[i].0 != s[j].0);
                }
            }
        }
    }
    assert forall|x: A| #[trigger] map_of(s).insert(k, v).contains_key(x) implies map_of(
        t,
    ).contains_key(x) by {
        if x != k {
            let j = choose|j: int| 0 <= j < s.len() && (#[trigger] s[j]).0 == x;
            assert(t[j] == s[j]);
        }
    }
    assert(map_of(t) =~= map_of(s).insert(k, v));
}

/// Removing an entry from the list removes its key from the map.
proof fn lemma_map_of_remove<A, B>(s: Seq<(A, B)>, i: int)
    requires
        0 <= i < s.len(),
        distinct_keys(s),
    ensures
        distinct_keys(s.remove(i)),
        map_of(s.remove(i)) == map_of(s).remove(s[i].0),
{
    let k = s[i].0;
    let t = s.remove(i);
    assert forall|j: int| 0 <= j < t.len() implies #[trigger] t[j] == s[if j < i {
        j
    } else {
        j + 1
    }] by {}
    assert(distinct_keys(t)) by {
        assert forall|a: int, b: int| 0 <= a < b < t.len() implies (#[trigger] t[a]).0 != (
        #[trigger] t[b]).0 by {
            let aa = if a < i {
                a
            } else {
                a + 1
            };
            let bb = if b < i {
                b
            } else {
                b + 1
            };
            assert(s[aa].0 != s[bb].0);
        }
    }
    lemma_map_of(s);
    lemma_map_of(t);
    assert forall|x: A| #[trigger] map_of(t).contains_key(x) implies map_of(s).remove(
        k,
    ).contains_key(x) && map_of(s).remove(k)[x] == map_of(t)[x] by {
        let j = choose|j: int| 0 <= j < t.len() && (#[trigger] t[j]).0 == x;
        let jj = if j < i {
            j
        } else {
            j + 1
        };
        assert(s[jj] == t[j]);
        assert(x != k) by {
            if jj < i {
                assert(s[jj].0 != s[i].0);
            } else {
                assert(s[i].0 != s[jj].0);
            }
        }
    }
    assert forall|x: A| #[trigger] map_of(s).remove(k).contains_key(x) implies map_of(
        t,
    ).contains_key(x) by {
        let j = choose|j: int| 0 <= j < s.len() && (#[trigger] s[j]).0 == x;
        let jj = if j < i {
            j
        } else {
            j - 1
        };
        assert(t[jj] == s[j]);
    }
    assert(map_of(t) =~= map_of(s).remove(k));
}

/// Keys that come one before the other are distinct.
pub proof fn lemma_ascending_distinct<K: SortKey, B>(s: Seq<(K::V, B)>)
    requires
        ascending::<K, B>(s),
    ensures
        distinct_keys(s),
{
    assert forall|i: int, j: int| 0 <= i < j < s.len() implies (#[trigger] s[i]).0 != (
    #[trigger] s[j]).0 by {
        K::lemma_irreflexive(s[i].0);
    }
}

/// A map whose entries stand in the order of their keys.
pub struct SortedMap<K: SortKey, V: View> {
    entries: Vec<(K, V)>,
}

/// The views of a list of entries.
pub open spec fn entry_views<K: View, V: View>(s: Seq<(K, V)>) -> Seq<(K::V, V::V)> {
    Seq::new(s.len(), |i: int| (s[i].0@, s[i].1@))
}

impl<K: SortKey, V: View> View for SortedMap<K, V> {
    type V = Map<K::V, V::V>;

    closed spec fn view(&self) -> Map<K::V, V::V> {
        map_of(entry_views(self.entries@))
    }
}

impl<K: SortKey, V: View> SortedMap<K, V> {
    #[verifier::type_invariant]
    closed spec fn in_order(&self) -> bool {
        ascending::<K, V::V>(entry_views(self.entries@))
    }

    /// The map without entries.
    pub fn new() -> (r: Self)
        ensures
            r@ == Map::<K::V, V::V>::empty(),
    {
        SortedMap { entries: Vec::new() }
    }

    /// The entries, in the order of their keys.
    pub fn entries(&self) -> (r: &Vec<(K, V)>)
        ensures
            ascending::<K, V::V>(entry_views(r@)),
            map_of(entry_views(r@)) == self@,
            self@.dom().finite(),
            self@.dom().len() == r@.len(),
            forall|i: int, j: int|
                0 <= i < j < r@.len() ==> K::before((#[trigger] r@[i]).0@, (#[trigger] r@[j]).0@),
            forall|i: int|
                0 <= i < r@.len() ==> self@.contains_key((#[trigger] r@[i]).0@) && self@[r@[i].0@]
                    == r@[i].1@,
            forall|k: K::V| #[trigger]
                self@.contains_key(k) ==> exists|i: int|
                    0 <= i < r@.len() && (#[trigger] r@[i]).0@ == k,
    {
        proof {
            use_type_invariant(self);
            lemma_ascending_distinct::<K, V::V>(entry_views(self.entries@));
            lemma_map_of(entry_views(self.entries@));
            let s = entry_views(self.entries@);
            assert forall|i: int| 0 <= i < self.entries@.len() implies #[trigger] self.entries@[i].0@
                == s[i].0 && self.entries@[i].1@ == s[i].1 by {}
            assert forall|k: K::V| #[trigger] self@.contains_key(k) implies exists|i: int|
                0 <= i < self.entries@.len() && (#[trigger] self.entries@[i]).0@ == k by {
                let i = choose|i: int| 0 <= i < s.len() && (#[trigger] s[i]).0 == k;
                assert(self.entries@[i].0@ == k);
            }
        }
        &self.entries
    }

    /// Looks `key` up in an ordered list: where it stands or would stand, and whether it is there.
    fn find(entries: &Vec<(K, V)>, key: &K) -> (r: (usize, bool))
        requires
            ascending::<K, V::V>(entry_views(entries@)),
        ensures
            r.0 <= entries@.len(),
            forall|j: int| 0 <= j < r.0 ==> K::before((#[trigger] entries@[j]).0@, key@),
            r.1 ==> r.0 < entries@.len() && entries@[r.0 as int].0@ == key@,
            !r.1 ==> forall|j: int|
                r.0 <= j < entries@.len() ==> K::before(key@, (#[trigger] entries@[j]).0@),
    {
        let mut i: usize = 0;
        while i < entries.len()
            invariant
                i <= entries@.len(),
                ascending::<K, V::V>(entry_views(entries@)),
                forall|j: int| 0 <= j < i ==> K::before((#[trigger] entries@[j]).0@, key@),
            decreases entries@.len() - i,
        {
            match entries[i].0.place(key) {
                Place::Before => {
                    i += 1;
                },
                Place::Same => {
                    return (i, true);
                },
                Place::After => {
                    assert forall|j: int| i <= j < entries@.len() implies K::before(
                        key@,
                        (#[trigger] entries@[j]).0@,
                    ) by {
                        let s = entry_views(entries@);
                        if i < j {
                            assert(K::before(s[i as int].0, s[j].0));
                            K::lemma_transitive(key@, s[i as int].0, s[j].0);
                        }
                    }
                    return (i, false);
                },
            }
        }
        (i, false)
    }

    /// Gives `key` the value `value`, in place of the one that it had.
    pub fn insert(&mut self, key: K, value: V)
        ensures
            final(self)@ == old(self)@.insert(key@, value@),
    {
        proof {
            use_type_invariant(&*self);
        }
        let mut entries: Vec<(K, V)> = Vec::new();
        std::mem::swap(&mut entries, &mut self.entries);
        let ghost s = entry_views(entries@);
        proof {
            lemma_ascending_distinct::<K, V::V>(s);
        }
        let ghost (k, v) = (key@, value@);
        let (at, found) = Self::find(&entries, &key);
        if found {
            let _ = entries.remove(at);
            entries.insert(at, (key, value));
            proof {
                let t = entry_views(entries@);
                assert(t =~= s.update(at as int, (s[at as int].0, v)));
                lemma_map_of_update(s, at as int, v);
                assert forall|i: int, j: int| 0 <= i < j < t.len() implies K::before(
                    (#[trigger] t[i]).0,
                    (#[trigger] t[j]).0,
                ) by {
                    assert(t[i].0 == s[i].0 && t[j].0 == s[j].0);
                }
            }
        } else {
            let ghost before = entries@;
            entries.insert(at, (key, value));
            proof {
                let t = entry_views(entries@);
                assert(t =~= s.insert(at as int, (k, v)));
                assert forall|i: int, j: int| 0 <= i < j < t.len() implies K::before(
                    (#[trigger] t[i]).0,
                    (#[trigger] t[j]).0,
                ) by {
                    let ii = if i < at {
                        i
                    } else {
                        i - 1
                    };
                    let jj = if j < at {
                        j
                    } else {
                        j - 1
                    };
                    if i == at {
                        assert(t[j] == s[jj]);
                        assert(before[jj].0@ == s[jj].0);
                    } else if j == at {
                        assert(t[i] == s[ii]);
                        assert(before[ii].0@ == s[ii].0);
                    } else {
                        assert(t[i] == s[ii] && t[j] == s[jj]);
                    }
                }
                lemma_ascending_distinct::<K, V::V>(t);
                lemma_map_of_insert(s, at as int, k, v);
            }
        }
        self.entries = entries;
    }

    /// Takes the value of `key` out of the map, if it has one.
    pub fn take(&mut self, key: &K) -> (r: Option<V>)
        ensures
            final(self)@ == old(self)@.remove(key@),
            match r {
                Some(v) => old(self)@.contains_key(key@) && v@ == old(self)@[key@],
                None => !old(self)@.contains_key(key@),
            },
    {
        proof {
            use_type_invariant(&*self);
        }
        let mut entries: Vec<(K, V)> = Vec::new();
        std::mem::swap(&mut entries, &mut self.entries);
        let ghost s = entry_views(entries@);
        let ghost before = entries@;
        proof {
            lemma_ascending_distinct::<K, V::V>(s);
            lemma_map_of(s);
        }
        let (at, found) = Self::find(&entries, key);
        if found {
            let (_, value) = entries.remove(at);
            proof {
                let t = entry_views(entries@);
                assert(t =~= s.remove(at as int));
                lemma_map_of_remove(s, at as int);
                assert(s[at as int].0 == key@);
                assert forall|i: int, j: int| 0 <= i < j < t.len() implies K::before(
                    (#[trigger] t[i]).0,
                    (#[trigger] t[j]).0,
                ) by {
                    let ii = if i < at {
                        i
                    } else {
                        i + 1
                    };
                    let jj = if j < at {
                        j
                    } else {
                        j + 1
                    };
                    assert(t[i] == s[ii] && t[j] == s[jj]);
                }
            }
            self.entries = entries;
            Some(value)
        } else {
            proof {
                if map_of(s).contains_key(key@) {
                    let i = choose|i: int| 0 <= i < s.len() && (#[trigger] s[i]).0 == key@;
                    assert(before[i].0@ == key@);
                    K::lemma_irreflexive(key@);
                }
                assert(map_of(s).remove(key@) =~= map_of(s));
            }
            self.entries = entries;
            None
        }
    }

    /// Takes the entry with the last key out of the map, if there is an entry.
    pub fn pop_last(&mut self) -> (r: Option<(K, V)>)
        ensures
            old(self)@.dom().finite(),
            match r {
                Some((k, v)) => {
                    &&& old(self)@.contains_key(k@)
                    &&& v@ == old(self)@[k@]
                    &&& final(self)@ == old(self)@.remove(k@)
                    &&& forall|j: K::V| #[trigger] final(self)@.contains_key(j) ==> K::before(j, k@)
                },
                None => {
                    &&& old(self)@ == Map::<K::V, V::V>::empty()
                    &&& final(self)@ == old(self)@
                },
            },
    {
        proof {
            use_type_invariant(&*self);
        }
        let mut entries: Vec<(K, V)> = Vec::new();
        std::mem::swap(&mut entries, &mut self.entries);
        let ghost s = entry_views(entries@);
        proof {
            lemma_ascending_distinct::<K, V::V>(s);
            lemma_map_of(s);
        }
        let r = entries.pop();
        proof {
            if s.len() > 0 {
                let last = s.len() - 1;
                let t = entry_views(entries@);
                assert(t =~= s.remove(last));
                lemma_map_of_remove(s, last);
                assert forall|i: int, j: int| 0 <= i < j < t.len() implies K::before(
                    (#[trigger] t[i]).0,
                    (#[trigger] t[j]).0,
                ) by {
                    assert(t[i] == s[i] && t[j] == s[j]);
                }
                lemma_ascending_distinct::<K, V::V>(t);
                lemma_map_of(t);
                assert forall|j: K::V| #[trigger] map_of(t).contains_key(j) implies K::before(
                    j,
                    s[last].0,
                ) by {
                    let i = choose|i: int| 0 <= i < t.len() && (#[trigger] t[i]).0 == j;
                    assert(K::before(s[i].0, s[last].0));
                }
            } else {
                assert(entry_views(entries@) =~= s);
            }
        }
        self.entries = entries;
        r
    }
}

/// Numbers are ordered by their size, and texts as texts are.
pub proof fn law_key_order(a: u32, b: u32, x: i64, y: i64, s: Seq<char>, t: Seq<char>)
    ensures
        <u32 as SortKey>::before(a, b) <==> a < b,
        <i64 as SortKey>::before(x, y) <==> x < y,
        <String as SortKey>::before(s, t) <==> text_before(s, t),
{
}

} // verus!
