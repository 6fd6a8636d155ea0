//! An ordered map from 32-bit indices to values.
//!
//! Entries are kept in strictly ascending index order, so that iteration and
//! serialization always see ascending, unique indices whatever the order of
//! the insertions that built the map.

use vstd::prelude::*;

verus! {

/// A mapping from 32-bit indices to values, kept in ascending index order.
#[derive(Clone, Debug, PartialEq)]
pub struct IndexMap<T> {
    /// The entries, in strictly ascending index order.
    pub entries: Vec<(u32, T)>,
}

/// A map from indices to names.
pub type NameMap = IndexMap<String>;

impl<T> View for IndexMap<T> {
    type V = Seq<(u32, T)>;

    open spec fn view(&self) -> Seq<(u32, T)> {
        self.entries@
    }
}

impl<T: DeepView> DeepView for IndexMap<T> {
    type V = Seq<(u32, <T as DeepView>::V)>;

    open spec fn deep_view(&self) -> Self::V {
        self.entries.deep_view()
    }
}

/// Whether a sequence of entries has strictly ascending (hence unique) keys.
pub open spec fn keys_sorted<T>(es: Seq<(u32, T)>) -> bool {
    forall|i: int, j: int|
        #![trigger es[i], es[j]]
        0 <= i < j < es.len() ==> es[i].0 < es[j].0
}

/// The value under `key`: the first entry that carries it, if any.
pub open spec fn spec_get<T>(es: Seq<(u32, T)>, key: u32) -> Option<T>
    decreases es.len(),
{
    if es.len() == 0 {
        None
    } else if es[0].0 == key {
        Some(es[0].1)
    } else {
        spec_get(es.drop_first(), key)
    }
}

/// Whether some entry carries `key`.
pub open spec fn contains_key<T>(es: Seq<(u32, T)>, key: u32) -> bool {
    spec_get(es, key) is Some
}

/// The entries read as a mathematical map (an earlier entry wins, which
/// cannot matter while keys are unique).
pub open spec fn as_map<T>(es: Seq<(u32, T)>) -> Map<u32, T>
    decreases es.len(),
{
    if es.len() == 0 {
        Map::empty()
    } else {
        as_map(es.drop_first()).insert(es[0].0, es[0].1)
    }
}

/// What inserting `value` under `key` does to a sorted entry sequence:
/// overwrites the entry that carries `key`, or splices a new entry in at
/// the position that keeps the keys ascending.
pub open spec fn spec_insert<T>(es: Seq<(u32, T)>, key: u32, value: T) -> Seq<(u32, T)>
    decreases es.len(),
{
    if es.len() == 0 {
        seq![(key, value)]
    } else if key < es[0].0 {
        seq![(key, value)] + es
    } else if key == es[0].0 {
        seq![(key, value)] + es.drop_first()
    } else {
        seq![es[0]] + spec_insert(es.drop_first(), key, value)
    }
}

/// Map ordering law: however entries arrive, an insertion into a map whose
/// keys are ascending leaves the keys ascending, so the entries are always
/// iterated and serialized in ascending index order.
pub proof fn lemma_insert_keeps_order<T>(es: Seq<(u32, T)>, key: u32, value: T)
    requires
        keys_sorted(es),
    ensures
        keys_sorted(spec_insert(es, key, value)),
    decreases es.len(),
{
    if es.len() == 0 {
    } else if key < es[0].0 {
    } else if key == es[0].0 {
        assert(forall|j: int| 0 <= j < es.drop_first().len() ==> es.drop_first()[j] == es[j + 1]);
    } else {
        assert(keys_sorted(es.drop_first())) by {
            assert(forall|j: int|
                0 <= j < es.drop_first().len() ==> es.drop_first()[j] == es[j + 1]);
        }
        lemma_insert_keeps_order(es.drop_first(), key, value);
        lemma_insert_first_key(es.drop_first(), key, value);
    }
}

/// The first key after an insertion is the old first key or the new one,
/// whichever is smaller.
proof fn lemma_insert_first_key<T>(es: Seq<(u32, T)>, key: u32, value: T)
    ensures
        spec_insert(es, key, value).len() >= 1,
        spec_insert(es, key, value)[0].0 == if es.len() == 0 || key <= es[0].0 {
            key
        } else {
            es[0].0
        },
{
}

/// Uniqueness law: inserting under an index that is already present
/// overwrites its entry rather than adding one, so the entry count counts
/// unique indices only; under any other index the map grows by one entry
/// and every other index keeps its value.
pub proof fn lemma_insert_overwrites<T>(es: Seq<(u32, T)>, key: u32, value: T)
    requires
        keys_sorted(es),
    ensures
        as_map(spec_insert(es, key, value)) == as_map(es).insert(key, value),
        spec_get(spec_insert(es, key, value), key) == Some(value),
        forall|k2: u32|
            k2 != key ==> #[trigger] spec_get(spec_insert(es, key, value), k2) == spec_get(
                es,
                k2,
            ),
        spec_insert(es, key, value).len() == es.len() + (if contains_key(es, key) {
            0int
        } else {
            1int
        }),
    decreases es.len(),
{
    let post = spec_insert(es, key, value);
    if es.len() == 0 {
        assert(post.drop_first() =~= Seq::<(u32, T)>::empty());
        assert(as_map(post.drop_first()) =~= Map::<u32, T>::empty());
        assert(as_map(post) =~= as_map(es).insert(key, value));
        assert forall|k2: u32| k2 != key implies spec_get(post, k2) == spec_get(es, k2) by {
            assert(spec_get(post, k2) == spec_get(post.drop_first(), k2));
        }
    } else if key < es[0].0 {
        assert(post.drop_first() =~= es);
        assert(as_map(post) =~= as_map(es).insert(key, value));
        lemma_get_none(es, key, 0);
        assert forall|k2: u32| k2 != key implies spec_get(post, k2) == spec_get(es, k2) by {
            assert(spec_get(post, k2) == spec_get(post.drop_first(), k2));
        }
    } else if key == es[0].0 {
        assert(post.drop_first() =~= es.drop_first());
        assert(as_map(post) =~= as_map(es).insert(key, value));
        assert forall|k2: u32| k2 != key implies spec_get(post, k2) == spec_get(es, k2) by {
            assert(spec_get(post, k2) == spec_get(post.drop_first(), k2));
            assert(spec_get(es, k2) == spec_get(es.drop_first(), k2));
        }
    } else {
        let tail = es.drop_first();
        assert(forall|j: int| 0 <= j < tail.len() ==> tail[j] == es[j + 1]);
        lemma_insert_overwrites(tail, key, value);
        assert(post.drop_first() =~= spec_insert(tail, key, value));
        assert(as_map(post) == as_map(spec_insert(tail, key, value)).insert(es[0].0, es[0].1));
        assert(as_map(post) =~= as_map(es).insert(key, value));
        assert forall|k2: u32| k2 != key implies spec_get(post, k2) == spec_get(es, k2) by {
            assert(post[0] == es[0]);
            if es[0].0 != k2 {
                assert(spec_get(post, k2) == spec_get(post.drop_first(), k2));
                assert(spec_get(es, k2) == spec_get(tail, k2));
            }
        }
    }
}

impl<T> IndexMap<T> {
    /// Creates an empty map.
    pub fn new() -> (r: Self)
        ensures
            r@ == Seq::<(u32, T)>::empty(),
    {
        IndexMap { entries: Vec::new() }
    }

    /// The number of entries (unique indices) in the map.
    pub fn len(&self) -> (r: usize)
        ensures
            r == self@.len(),
    {
        self.entries.len()
    }

    /// Inserts `value` under `key`, keeping the entries in ascending index
    /// order; overwrites and returns the value previously under `key`.
    pub fn insert(&mut self, key: u32, value: T) -> (prev: Option<T>)
        requires
            keys_sorted(old(self)@),
        ensures
            keys_sorted(final(self)@),
            final(self)@ == spec_insert(old(self)@, key, value),
            as_map(final(self)@) == as_map(old(self)@).insert(key, value),
            prev == spec_get(old(self)@, key),
            final(self)@.len() == old(self)@.len() + (if contains_key(old(self)@, key) {
                0int
            } else {
                1int
            }),
    {
        proof {
            lemma_insert_keeps_order(old(self)@, key, value);
            lemma_insert_overwrites(old(self)@, key, value);
        }
        let mut i: usize = 0;
        while i < self.entries.len() && self.entries[i].0 < key
            invariant
                i <= self.entries@.len(),
                *self == *old(self),
                forall|j: int| #![trigger self.entries@[j]] 0 <= j < i ==> self.entries@[j].0 < key,
            decreases self.entries@.len() - i,
        {
            i = i + 1;
        }
        proof {
            lemma_spec_insert_at(old(self)@, key, value, i as int);
        }
        if i < self.entries.len() && self.entries[i].0 == key {
            let displaced = self.entries.remove(i);
            self.entries.insert(i, (key, value));
            proof {
                assert(self.entries@ =~= old(self)@.update(i as int, (key, value)));
                lemma_get_at(old(self)@, key, i as int);
            }
            Some(displaced.1)
        } else {
            self.entries.insert(i, (key, value));
            proof {
                lemma_get_none(old(self)@, key, i as int);
            }
            None
        }
    }

    /// Looks up the value under `key`.
    pub fn get(&self, key: u32) -> (r: Option<&T>)
        ensures
            match r {
                Some(v) => spec_get(self@, key) == Some(*v),
                None => spec_get(self@, key) is None,
            },
    {
        proof {
            assert(self@.skip(0) =~= self@);
        }
        let mut i: usize = 0;
        while i < self.entries.len()
            invariant
                i <= self.entries@.len(),
                spec_get(self@, key) == spec_get(self@.skip(i as int), key),
                forall|j: int| #![trigger self.entries@[j]] 0 <= j < i ==> self.entries@[j].0 != key,
            decreases self.entries@.len() - i,
        {
            proof {
                assert(self@.skip(i as int).drop_first() =~= self@.skip(i as int + 1));
            }
            if self.entries[i].0 == key {
                return Some(&self.entries[i].1);
            }
            i = i + 1;
        }
        None
    }
}

impl<T> Default for IndexMap<T> {
    /// An empty map.
    fn default() -> (r: Self)
        ensures
            r@ == Seq::<(u32, T)>::empty(),
    {
        IndexMap { entries: Vec::new() }
    }
}

/// Where the insertion scan stops determines the shape of the result:
/// an overwrite in place, or a splice at the stopping position.
proof fn lemma_spec_insert_at<T>(es: Seq<(u32, T)>, key: u32, value: T, i: int)
    requires
        keys_sorted(es),
        0 <= i <= es.len(),
        forall|j: int| #![trigger es[j]] 0 <= j < i ==> es[j].0 < key,
        i < es.len() ==> es[i].0 >= key,
    ensures
        spec_insert(es, key, value) == if i < es.len() && es[i].0 == key {
            es.update(i, (key, value))
        } else {
            es.insert(i, (key, value))
        },
    decreases es.len(),
{
    if es.len() == 0 {
        assert(spec_insert(es, key, value) =~= es.insert(0, (key, value)));
    } else if i == 0 {
        if es[0].0 == key {
            assert(spec_insert(es, key, value) =~= es.update(0, (key, value)));
        } else {
            assert(spec_insert(es, key, value) =~= es.insert(0, (key, value)));
        }
    } else {
        let tail = es.drop_first();
        assert(forall|j: int| 0 <= j < tail.len() ==> tail[j] == es[j + 1]);
        lemma_spec_insert_at(tail, key, value, i - 1);
        if i < es.len() && es[i].0 == key {
            assert(spec_insert(es, key, value) =~= es.update(i, (key, value)));
        } else {
            assert(spec_insert(es, key, value) =~= es.insert(i, (key, value)));
        }
    }
}

/// A sorted scan that stops at `key` has found its first (only) occurrence.
proof fn lemma_get_at<T>(es: Seq<(u32, T)>, key: u32, i: int)
    requires
        0 <= i < es.len(),
        es[i].0 == key,
        forall|j: int| #![trigger es[j]] 0 <= j < i ==> es[j].0 != key,
    ensures
        spec_get(es, key) == Some(es[i].1),
    decreases i,
{
    if i > 0 {
        let tail = es.drop_first();
        assert(forall|j: int| 0 <= j < tail.len() ==> tail[j] == es[j + 1]);
        lemma_get_at(tail, key, i - 1);
    }
}

/// A scan that rules `key` out of every entry proves the key absent.
proof fn lemma_get_none<T>(es: Seq<(u32, T)>, key: u32, i: int)
    requires
        keys_sorted(es),
        0 <= i <= es.len(),
        forall|j: int| #![trigger es[j]] 0 <= j < i ==> es[j].0 < key,
        i < es.len() ==> es[i].0 > key,
    ensures
        spec_get(es, key) is None,
    decreases es.len(),
{
    if es.len() > 0 {
        let tail = es.drop_first();
        assert(forall|j: int| 0 <= j < tail.len() ==> tail[j] == es[j + 1]);
        if i == 0 {
            lemma_get_none(tail, key, 0);
        } else {
            lemma_get_none(tail, key, i - 1);
        }
    }
}

} // verus!
