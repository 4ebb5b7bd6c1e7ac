//! An ordered map keyed by strings: entries are kept strictly sorted by key,
//! so iteration visits keys in ascending (byte-lexicographic) order.
use crate::text::{chars_of, compare_chars, lemma_seq_lt_asymmetric, lemma_seq_lt_irreflexive, lemma_seq_lt_total, lemma_seq_lt_transitive, seq_lt};
use vstd::prelude::*;

verus! {

broadcast use vstd::string::group_string_axioms;

/// Entries strictly ascending by key.
pub open spec fn sorted_keys<V>(s: Seq<(Seq<char>, V)>) -> bool {
    forall|i: int, j: int| 0 <= i < j < s.len() ==> seq_lt(#[trigger] s[i].0, #[trigger] s[j].0)
}

/// The entries with each key read as its characters.
pub open spec fn key_view<V>(s: Seq<(String, V)>) -> Seq<(Seq<char>, V)> {
    s.map_values(|e: (String, V)| (e.0@, e.1))
}

/// Whether some entry carries the key `k`.
pub open spec fn has_key<V>(s: Seq<(Seq<char>, V)>, k: Seq<char>) -> bool {
    exists|i: int| 0 <= i < s.len() && #[trigger] s[i].0 == k
}

/// The value stored under `k` (meaningful when `has_key(s, k)`).
pub open spec fn value_of<V>(s: Seq<(Seq<char>, V)>, k: Seq<char>) -> V {
    s[choose|i: int| 0 <= i < s.len() && #[trigger] s[i].0 == k].1
}

/// The number of entries whose key is below `k`: where `k` sits or would be inserted.
pub open spec fn rank<V>(s: Seq<(Seq<char>, V)>, k: Seq<char>) -> int
    decreases s.len(),
{
    if s.len() == 0 {
        0
    } else {
        rank(s.drop_last(), k) + if seq_lt(s.last().0, k) {
            1int
        } else {
            0int
        }
    }
}

/// The entries after storing `v` under `key`: replaces the entry with the same
/// key, or inserts a new one at its sorted position.
pub open spec fn insert_entry<V>(s: Seq<(Seq<char>, V)>, key: Seq<char>, v: V) -> Seq<(Seq<char>, V)> {
    let r = rank(s, key);
    if r < s.len() && s[r].0 == key {
        s.update(r, (key, v))
    } else {
        s.insert(r, (key, v))
    }
}

/// The entries without the one carrying `k`, if any.
pub open spec fn remove_entry<V>(s: Seq<(Seq<char>, V)>, k: Seq<char>) -> Seq<(Seq<char>, V)> {
    let r = rank(s, k);
    if r < s.len() && s[r].0 == k {
        s.remove(r)
    } else {
        s
    }
}

pub proof fn lemma_rank_bounds<V>(s: Seq<(Seq<char>, V)>, k: Seq<char>)
    ensures
        0 <= rank(s, k) <= s.len(),
    decreases s.len(),
{
    if s.len() > 0 {
        lemma_rank_bounds(s.drop_last(), k);
    }
}

/// In a sorted sequence, the rank is the split point between smaller and
/// not-smaller keys.
pub proof fn lemma_rank_split<V>(s: Seq<(Seq<char>, V)>, k: Seq<char>, lo: int)
    requires
        0 <= lo <= s.len(),
        forall|j: int| 0 <= j < lo ==> seq_lt(#[trigger] s[j].0, k),
        forall|j: int| lo <= j < s.len() ==> !seq_lt(#[trigger] s[j].0, k),
    ensures
        rank(s, k) == lo,
    decreases s.len(),
{
    if s.len() > 0 {
        let t = s.drop_last();
        if lo == s.len() {
            assert forall|j: int| 0 <= j < lo - 1 implies seq_lt(#[trigger] t[j].0, k) by {
                assert(t[j] == s[j]);
            }
            lemma_rank_split(t, k, lo - 1);
            assert(seq_lt(s[s.len() - 1].0, k));
        } else {
            assert forall|j: int| 0 <= j < lo implies seq_lt(#[trigger] t[j].0, k) by {
                assert(t[j] == s[j]);
            }
            assert forall|j: int| lo <= j < t.len() implies !seq_lt(#[trigger] t[j].0, k) by {
                assert(t[j] == s[j]);
            }
            lemma_rank_split(t, k, lo);
            assert(!seq_lt(s[s.len() - 1].0, k));
        }
    }
}

/// In a sorted sequence, a key is present exactly when it sits at its rank.
pub proof fn lemma_has_key_at_rank<V>(s: Seq<(Seq<char>, V)>, k: Seq<char>)
    requires
        sorted_keys(s),
    ensures
        has_key(s, k) <==> (rank(s, k) < s.len() && s[rank(s, k)].0 == k),
        has_key(s, k) ==> value_of(s, k) == s[rank(s, k)].1,
{
    lemma_rank_bounds(s, k);
    let r = rank(s, k);
    if has_key(s, k) {
        let i = choose|i: int| 0 <= i < s.len() && #[trigger] s[i].0 == k;
        lemma_sorted_split(s, k);
        lemma_seq_lt_irreflexive(k);
        if i < r {
            assert(seq_lt(s[i].0, k));
        } else if i > r {
            assert(seq_lt(s[r].0, s[i].0));
            assert(!seq_lt(s[r].0, k));
            lemma_seq_lt_total(s[r].0, k);
            if seq_lt(k, s[r].0) {
                lemma_seq_lt_transitive(k, s[r].0, s[i].0);
            }
        }
        assert(i == r);
    }
}

/// The rank splits a sorted sequence into smaller and not-smaller keys.
pub proof fn lemma_sorted_split<V>(s: Seq<(Seq<char>, V)>, k: Seq<char>)
    requires
        sorted_keys(s),
    ensures
        forall|j: int| 0 <= j < rank(s, k) ==> seq_lt(#[trigger] s[j].0, k),
        forall|j: int| rank(s, k) <= j < s.len() ==> !seq_lt(#[trigger] s[j].0, k),
    decreases s.len(),
{
    if s.len() > 0 {
        let t = s.drop_last();
        assert(sorted_keys(t)) by {
            assert forall|i: int, j: int| 0 <= i < j < t.len() implies seq_lt(
                #[trigger] t[i].0,
                #[trigger] t[j].0,
            ) by {
                assert(t[i] == s[i] && t[j] == s[j]);
            }
        }
        lemma_sorted_split(t, k);
        lemma_rank_bounds(t, k);
        let last = s.len() - 1;
        if seq_lt(s[last].0, k) {
            assert forall|j: int| 0 <= j < last implies seq_lt(#[trigger] s[j].0, k) by {
                assert(seq_lt(s[j].0, s[last].0));
                lemma_seq_lt_transitive(s[j].0, s[last].0, k);
            }
        } else {
            assert forall|j: int| 0 <= j < rank(t, k) implies seq_lt(#[trigger] s[j].0, k) by {
                assert(t[j] == s[j]);
            }
            assert forall|j: int| rank(t, k) <= j < last implies !seq_lt(#[trigger] s[j].0, k) by {
                assert(t[j] == s[j]);
            }
        }
    }
}

/// Storing under `key` keeps the entries sorted, adds `key`, and changes no other value.
pub proof fn lemma_insert_entry<V>(s: Seq<(Seq<char>, V)>, key: Seq<char>, v: V)
    requires
        sorted_keys(s),
    ensures
        sorted_keys(insert_entry(s, key, v)),
        forall|x: Seq<char>| has_key(insert_entry(s, key, v), x) <==> (has_key(s, x) || x == key),
        value_of(insert_entry(s, key, v), key) == v,
        forall|x: Seq<char>|
            x != key && has_key(s, x) ==> value_of(insert_entry(s, key, v), x) == value_of(s, x),
{
    lemma_sorted_split(s, key);
    lemma_rank_bounds(s, key);
    lemma_has_key_at_rank(s, key);
    let i = rank(s, key);
    let t = insert_entry(s, key, v);
    if i < s.len() && s[i].0 == key {
        assert forall|a: int, b: int| 0 <= a < b < t.len() implies seq_lt(
            #[trigger] t[a].0,
            #[trigger] t[b].0,
        ) by {
            assert(seq_lt(s[a].0, s[b].0));
        }
    } else {
        assert forall|a: int, b: int| 0 <= a < b < t.len() implies seq_lt(
            #[trigger] t[a].0,
            #[trigger] t[b].0,
        ) by {
            if a < i && b < i {
                assert(seq_lt(s[a].0, s[b].0));
            } else if a < i && b == i {
                assert(seq_lt(s[a].0, key));
            } else if a < i {
                assert(seq_lt(s[a].0, s[b - 1].0));
            } else if a == i {
                assert(!seq_lt(s[b - 1].0, key));
                assert(s[b - 1].0 != key);
                lemma_seq_lt_total(s[b - 1].0, key);
            } else {
                assert(seq_lt(s[a - 1].0, s[b - 1].0));
            }
        }
    }
    assert forall|x: Seq<char>| has_key(t, x) <==> (has_key(s, x) || x == key) by {
        if has_key(t, x) {
            let j = choose|j: int| 0 <= j < t.len() && #[trigger] t[j].0 == x;
            if x != key {
                if i < s.len() && s[i].0 == key {
                    assert(s[j].0 == x);
                } else if j < i {
                    assert(s[j].0 == x);
                } else {
                    assert(s[j - 1].0 == x);
                }
            }
        }
        if has_key(s, x) {
            let j = choose|j: int| 0 <= j < s.len() && #[trigger] s[j].0 == x;
            if i < s.len() && s[i].0 == key {
                if j == i {
                    assert(t[j].0 == x);
                } else {
                    assert(t[j].0 == x);
                }
            } else if j < i {
                assert(t[j].0 == x);
            } else {
                assert(t[j + 1].0 == x);
            }
        }
        if x == key {
            assert(t[i].0 == x);
        }
    }
    lemma_has_key_at_rank(t, key);
    lemma_sorted_split(t, key);
    lemma_rank_bounds(t, key);
    assert(has_key(t, key)) by {
        assert(t[i].0 == key);
    }
    if rank(t, key) != i {
        assert(t[i].0 == key);
        lemma_seq_lt_irreflexive(key);
        if rank(t, key) < i {
            assert(t[rank(t, key)].0 == key);
            assert(seq_lt(t[rank(t, key)].0, t[i].0));
        } else {
            assert(seq_lt(t[i].0, key));
        }
    }
    assert forall|x: Seq<char>|
        x != key && has_key(s, x) implies value_of(t, x) == value_of(s, x) by {
        lemma_has_key_at_rank(s, x);
        assert(has_key(t, x));
        lemma_has_key_at_rank(t, x);
        lemma_rank_bounds(t, x);
        let j = rank(s, x);
        lemma_rank_bounds(s, x);
        assert(j < s.len() && s[j].0 == x);
        if i < s.len() && s[i].0 == key {
            assert(j != i);
            assert(t[j] == s[j]);
            assert(t[j].0 == x);
            lemma_unique_key(t, j, rank(t, x));
        } else if j < i {
            assert(t[j] == s[j]);
            assert(t[j].0 == x);
            lemma_unique_key(t, j, rank(t, x));
        } else {
            assert(t[j + 1].0 == x);
            lemma_unique_key(t, j + 1, rank(t, x));
        }
    }
}

/// In a sorted sequence, two entries with the same key are the same entry.
pub proof fn lemma_unique_key<V>(s: Seq<(Seq<char>, V)>, i: int, j: int)
    requires
        sorted_keys(s),
        0 <= i < s.len(),
        0 <= j < s.len(),
        s[i].0 == s[j].0,
    ensures
        i == j,
{
    lemma_seq_lt_irreflexive(s[i].0);
    if i < j {
        assert(seq_lt(s[i].0, s[j].0));
    } else if j < i {
        assert(seq_lt(s[j].0, s[i].0));
    }
}

/// Removing `key` keeps the entries sorted and drops exactly that key.
pub proof fn lemma_remove_entry<V>(s: Seq<(Seq<char>, V)>, key: Seq<char>)
    requires
        sorted_keys(s),
    ensures
        sorted_keys(remove_entry(s, key)),
        forall|x: Seq<char>| has_key(remove_entry(s, key), x) <==> (has_key(s, x) && x != key),
{
    lemma_rank_bounds(s, key);
    lemma_has_key_at_rank(s, key);
    let i = rank(s, key);
    let t = remove_entry(s, key);
    if i < s.len() && s[i].0 == key {
        assert forall|a: int, b: int| 0 <= a < b < t.len() implies seq_lt(
            #[trigger] t[a].0,
            #[trigger] t[b].0,
        ) by {
            if b < i {
                assert(seq_lt(s[a].0, s[b].0));
            } else if a < i {
                assert(seq_lt(s[a].0, s[b + 1].0));
            } else {
                assert(seq_lt(s[a + 1].0, s[b + 1].0));
            }
        }
        assert forall|x: Seq<char>| has_key(t, x) <==> (has_key(s, x) && x != key) by {
            if has_key(t, x) {
                let j = choose|j: int| 0 <= j < t.len() && #[trigger] t[j].0 == x;
                if j < i {
                    assert(s[j].0 == x);
                    if x == key {
                        lemma_unique_key(s, j, i);
                    }
                } else {
                    assert(s[j + 1].0 == x);
                    if x == key {
                        lemma_unique_key(s, j + 1, i);
                    }
                }
            }
            if has_key(s, x) && x != key {
                let j = choose|j: int| 0 <= j < s.len() && #[trigger] s[j].0 == x;
                if j < i {
                    assert(t[j].0 == x);
                } else {
                    assert(t[j - 1].0 == x);
                }
            }
        }
    }
}

/// The entries with every value transformed by `f`.
pub open spec fn map_vals<V, W>(s: Seq<(Seq<char>, V)>, f: spec_fn(V) -> W) -> Seq<(Seq<char>, W)> {
    s.map_values(|e: (Seq<char>, V)| (e.0, f(e.1)))
}

pub proof fn lemma_rank_map<V, W>(s: Seq<(Seq<char>, V)>, k: Seq<char>, f: spec_fn(V) -> W)
    ensures
        rank(map_vals(s, f), k) == rank(s, k),
    decreases s.len(),
{
    if s.len() > 0 {
        assert(map_vals(s, f).drop_last() =~= map_vals(s.drop_last(), f));
        lemma_rank_map(s.drop_last(), k, f);
    }
}

/// Transforming values commutes with storing and removing entries, and keeps keys.
pub proof fn lemma_map_vals<V, W>(s: Seq<(Seq<char>, V)>, k: Seq<char>, v: V, f: spec_fn(V) -> W)
    ensures
        map_vals(insert_entry(s, k, v), f) == insert_entry(map_vals(s, f), k, f(v)),
        map_vals(remove_entry(s, k), f) == remove_entry(map_vals(s, f), k),
        sorted_keys(map_vals(s, f)) == sorted_keys(s),
        has_key(map_vals(s, f), k) == has_key(s, k),
        sorted_keys(s) && has_key(s, k) ==> value_of(map_vals(s, f), k) == f(value_of(s, k)),
{
    lemma_rank_map(s, k, f);
    lemma_rank_bounds(s, k);
    let r = rank(s, k);
    if r < s.len() && s[r].0 == k {
        assert(map_vals(insert_entry(s, k, v), f) =~= insert_entry(map_vals(s, f), k, f(v)));
        assert(map_vals(remove_entry(s, k), f) =~= remove_entry(map_vals(s, f), k));
    } else {
        assert(map_vals(insert_entry(s, k, v), f) =~= insert_entry(map_vals(s, f), k, f(v)));
        assert(map_vals(remove_entry(s, k), f) =~= remove_entry(map_vals(s, f), k));
    }
    let m = map_vals(s, f);
    if sorted_keys(s) {
        assert forall|a: int, b: int| 0 <= a < b < m.len() implies seq_lt(
            #[trigger] m[a].0,
            #[trigger] m[b].0,
        ) by {
            assert(seq_lt(s[a].0, s[b].0));
        }
    }
    if sorted_keys(m) {
        assert forall|a: int, b: int| 0 <= a < b < s.len() implies seq_lt(
            #[trigger] s[a].0,
            #[trigger] s[b].0,
        ) by {
            assert(seq_lt(m[a].0, m[b].0));
        }
    }
    if has_key(s, k) {
        let i = choose|i: int| 0 <= i < s.len() && #[trigger] s[i].0 == k;
        assert(m[i].0 == k);
        let j = choose|j: int| 0 <= j < m.len() && #[trigger] m[j].0 == k;
        let i2 = choose|i: int| 0 <= i < s.len() && #[trigger] s[i].0 == k;
        assert(m[j] == (s[j].0, f(s[j].1)));
        assert(s[j].0 == k);
        assert(s[i2].0 == k);
        if sorted_keys(s) {
            lemma_has_key_at_rank(s, k);
            lemma_has_key_at_rank(m, k);
        }
    }
    if has_key(m, k) {
        let j = choose|j: int| 0 <= j < m.len() && #[trigger] m[j].0 == k;
        assert(s[j].0 == k);
    }
}

/// Reading one entry through `key_view`.
pub proof fn lemma_key_view_index<V>(s: Seq<(String, V)>, i: int)
    requires
        0 <= i < s.len(),
    ensures
        key_view(s).len() == s.len(),
        key_view(s)[i] == (s[i].0@, s[i].1),
{
}

/// Extending a prefix by one entry adds exactly that entry's key.
pub proof fn lemma_has_key_take<V>(s: Seq<(Seq<char>, V)>, i: int)
    requires
        0 <= i < s.len(),
    ensures
        forall|k: Seq<char>|
            has_key(s.take(i + 1), k) <==> (has_key(s.take(i), k) || k == s[i].0),
{
    assert forall|k: Seq<char>| has_key(s.take(i + 1), k) <==> (has_key(s.take(i), k) || k == s[i].0) by {
        if has_key(s.take(i + 1), k) {
            let j = choose|j: int| 0 <= j < s.take(i + 1).len() && #[trigger] s.take(i + 1)[j].0 == k;
            if j < i {
                assert(s.take(i)[j].0 == k);
            }
        }
        if has_key(s.take(i), k) {
            let j = choose|j: int| 0 <= j < s.take(i).len() && #[trigger] s.take(i)[j].0 == k;
            assert(s.take(i + 1)[j].0 == k);
        }
        if k == s[i].0 {
            assert(s.take(i + 1)[i].0 == k);
        }
    }
}

/// An ordered map from string keys to values.
pub struct KeyMap<V> {
    entries: Vec<(String, V)>,
}

/// An ordered set of strings.
pub type KeySet = KeyMap<()>;

impl<V> View for KeyMap<V> {
    type V = Seq<(Seq<char>, V)>;

    closed spec fn view(&self) -> Seq<(Seq<char>, V)> {
        key_view(self.entries@)
    }
}

impl<V> KeyMap<V> {
    #[verifier::type_invariant]
    spec fn inv(self) -> bool {
        sorted_keys(key_view(self.entries@))
    }

    /// An empty map.
    pub fn new() -> (r: Self)
        ensures
            r@ == Seq::<(Seq<char>, V)>::empty(),
            sorted_keys(r@),
    {
        let r = KeyMap { entries: Vec::new() };
        assert(key_view(r.entries@) =~= Seq::<(Seq<char>, V)>::empty());
        r
    }

    /// The number of entries.
    pub fn len(&self) -> (r: usize)
        ensures
            r == self@.len(),
            sorted_keys(self@),
    {
        proof {
            use_type_invariant(self);
        }
        self.entries.len()
    }

    /// Whether the map is empty.
    pub fn is_empty(&self) -> (r: bool)
        ensures
            r == (self@.len() == 0),
    {
        self.entries.len() == 0
    }

    /// All entries in ascending key order.
    pub fn entries(&self) -> (r: &[(String, V)])
        ensures
            key_view(r@) == self@,
            sorted_keys(self@),
    {
        proof {
            use_type_invariant(self);
        }
        self.entries.as_slice()
    }

    /// Binary search: `Ok(i)` when entry `i` carries `key`, else `Err(i)` with `i` the
    /// sorted insertion point. Either way `i` is the rank of `key`.
    pub fn find(&self, key: &[char]) -> (r: Result<usize, usize>)
        ensures
            sorted_keys(self@),
            match r {
                Ok(i) => i == rank(self@, key@) && i < self@.len() && self@[i as int].0 == key@,
                Err(i) => i == rank(self@, key@) && !has_key(self@, key@),
            },
    {
        proof {
            use_type_invariant(self);
        }
        let mut lo: usize = 0;
        let mut hi: usize = self.entries.len();
        while lo < hi
            invariant
                0 <= lo <= hi <= self@.len(),
                sorted_keys(self@),
                forall|j: int| 0 <= j < lo ==> seq_lt(#[trigger] self@[j].0, key@),
                forall|j: int| hi <= j < self@.len() ==> seq_lt(key@, #[trigger] self@[j].0),
            decreases hi - lo,
        {
            let mid = lo + (hi - lo) / 2;
            let mid_key = chars_of(self.entries[mid].0.as_str());
            let c = compare_chars(mid_key.as_slice(), key);
            if c == 0 {
                proof {
                    lemma_seq_lt_irreflexive(key@);
                    assert forall|j: int| mid <= j < self@.len() implies !seq_lt(
                        #[trigger] self@[j].0,
                        key@,
                    ) by {
                        if j > mid {
                            assert(seq_lt(self@[mid as int].0, self@[j].0));
                            lemma_seq_lt_asymmetric(self@[mid as int].0, self@[j].0);
                        }
                    }
                    assert forall|j: int| 0 <= j < mid implies seq_lt(#[trigger] self@[j].0, key@) by {
                        assert(seq_lt(self@[j].0, self@[mid as int].0));
                    }
                    lemma_rank_split(self@, key@, mid as int);
                }
                return Ok(mid);
            } else if c < 0 {
                proof {
                    assert forall|j: int| 0 <= j < mid + 1 implies seq_lt(
                        #[trigger] self@[j].0,
                        key@,
                    ) by {
                        if j < mid {
                            assert(seq_lt(self@[j].0, self@[mid as int].0));
                            lemma_seq_lt_transitive(self@[j].0, self@[mid as int].0, key@);
                        }
                    }
                }
                lo = mid + 1;
            } else {
                proof {
                    assert forall|j: int| mid <= j < self@.len() implies seq_lt(
                        key@,
                        #[trigger] self@[j].0,
                    ) by {
                        if j > mid {
                            assert(seq_lt(self@[mid as int].0, self@[j].0));
                            lemma_seq_lt_transitive(key@, self@[mid as int].0, self@[j].0);
                        }
                    }
                }
                hi = mid;
            }
        }
        proof {
            assert forall|j: int| lo <= j < self@.len() implies !seq_lt(#[trigger] self@[j].0, key@) by {
                lemma_seq_lt_asymmetric(key@, self@[j].0);
            }
            lemma_rank_split(self@, key@, lo as int);
            if has_key(self@, key@) {
                let i = choose|i: int| 0 <= i < self@.len() && #[trigger] self@[i].0 == key@;
                lemma_seq_lt_irreflexive(key@);
                if i < lo {
                    assert(seq_lt(self@[i].0, key@));
                } else {
                    assert(seq_lt(key@, self@[i].0));
                }
            }
        }
        Err(lo)
    }

    /// Whether `key` is present.
    pub fn contains_key(&self, key: &str) -> (r: bool)
        ensures
            r == has_key(self@, key@),
    {
        let k = chars_of(key);
        match self.find(k.as_slice()) {
            Ok(_) => true,
            Err(_) => false,
        }
    }

    /// Whether the character sequence `key` is present.
    pub fn contains_chars(&self, key: &[char]) -> (r: bool)
        ensures
            r == has_key(self@, key@),
    {
        match self.find(key) {
            Ok(_) => true,
            Err(_) => false,
        }
    }

    /// The value stored under `key`, if any.
    pub fn get(&self, key: &str) -> (r: Option<&V>)
        ensures
            match r {
                Some(v) => has_key(self@, key@) && *v == value_of(self@, key@),
                None => !has_key(self@, key@),
            },
    {
        let k = chars_of(key);
        self.get_chars(k.as_slice())
    }

    /// The value stored under the character sequence `key`, if any.
    pub fn get_chars(&self, key: &[char]) -> (r: Option<&V>)
        ensures
            match r {
                Some(v) => has_key(self@, key@) && *v == value_of(self@, key@),
                None => !has_key(self@, key@),
            },
    {
        match self.find(key) {
            Ok(i) => {
                proof {
                    lemma_has_key_at_rank(self@, key@);
                }
                Some(&self.entries[i].1)
            },
            Err(_) => None,
        }
    }

    /// Stores `value` under `key`, replacing any previous value.
    pub fn insert(&mut self, key: String, value: V)
        ensures
            final(self)@ == insert_entry(old(self)@, key@, value),
            sorted_keys(old(self)@),
            sorted_keys(final(self)@),
    {
        proof {
            use_type_invariant(&*self);
            lemma_insert_entry(self@, key@, value);
        }
        let k = chars_of(key.as_str());
        match self.find(k.as_slice()) {
            Ok(i) => {
                proof {
                    let s = self@;
                    let t = s.update(i as int, (key@, value));
                    assert forall|a: int, b: int| 0 <= a < b < t.len() implies seq_lt(
                        #[trigger] t[a].0,
                        #[trigger] t[b].0,
                    ) by {
                        assert(seq_lt(s[a].0, s[b].0));
                    }
                }
                let mut e: Vec<(String, V)> = Vec::new();
                std::mem::swap(&mut e, &mut self.entries);
                e.set(i, (key, value));
                assert(key_view(e@) =~= old(self)@.update(i as int, (key@, value)));
                self.entries = e;
            },
            Err(i) => {
                proof {
                    let s = self@;
                    lemma_sorted_split(s, key@);
                    lemma_rank_bounds(s, key@);
                    assert(sorted_keys(s));
                    let t = s.insert(i as int, (key@, value));
                    assert forall|a: int, b: int| 0 <= a < b < t.len() implies seq_lt(
                        #[trigger] t[a].0,
                        #[trigger] t[b].0,
                    ) by {
                        if a < i && b < i {
                            assert(seq_lt(s[a].0, s[b].0));
                        } else if a < i && b == i {
                            assert(seq_lt(s[a].0, key@));
                        } else if a < i {
                            assert(seq_lt(s[a].0, s[b - 1].0));
                        } else if a == i {
                            assert(!seq_lt(s[b - 1].0, key@));
                            assert(!has_key(s, key@));
                            assert(s[b - 1].0 != key@);
                            lemma_seq_lt_total(s[b - 1].0, key@);
                        } else {
                            assert(seq_lt(s[a - 1].0, s[b - 1].0));
                        }
                    }
                }
                let mut e: Vec<(String, V)> = Vec::new();
                std::mem::swap(&mut e, &mut self.entries);
                e.insert(i, (key, value));
                assert(key_view(e@) =~= old(self)@.insert(i as int, (key@, value)));
                self.entries = e;
            },
        }
    }

    /// Removes the entry carrying `key`; returns whether one was present.
    pub fn remove(&mut self, key: &[char]) -> (r: bool)
        ensures
            r == has_key(old(self)@, key@),
            final(self)@ == remove_entry(old(self)@, key@),
            sorted_keys(old(self)@),
            sorted_keys(final(self)@),
    {
        proof {
            use_type_invariant(&*self);
            lemma_remove_entry(self@, key@);
        }
        match self.find(key) {
            Ok(i) => {
                proof {
                    let s = self@;
                    let t = s.remove(i as int);
                    assert forall|a: int, b: int| 0 <= a < b < t.len() implies seq_lt(
                        #[trigger] t[a].0,
                        #[trigger] t[b].0,
                    ) by {
                        if b < i {
                            assert(seq_lt(s[a].0, s[b].0));
                        } else if a < i {
                            assert(seq_lt(s[a].0, s[b + 1].0));
                        } else {
                            assert(seq_lt(s[a + 1].0, s[b + 1].0));
                        }
                    }
                }
                let mut e: Vec<(String, V)> = Vec::new();
                std::mem::swap(&mut e, &mut self.entries);
                e.remove(i);
                assert(key_view(e@) =~= old(self)@.remove(i as int));
                self.entries = e;
                true
            },
            Err(_) => false,
        }
    }

    /// Appends an entry whose key is above every present key.
    pub fn push_last(&mut self, key: String, value: V)
        requires
            old(self)@.len() == 0 || seq_lt(old(self)@.last().0, key@),
        ensures
            final(self)@ == old(self)@.push((key@, value)),
            sorted_keys(final(self)@),
    {
        proof {
            use_type_invariant(&*self);
            let s = self@;
            let t = s.push((key@, value));
            assert forall|a: int, b: int| 0 <= a < b < t.len() implies seq_lt(
                #[trigger] t[a].0,
                #[trigger] t[b].0,
            ) by {
                if b < s.len() {
                    assert(seq_lt(s[a].0, s[b].0));
                } else if a < s.len() - 1 {
                    assert(seq_lt(s[a].0, s[s.len() - 1].0));
                    lemma_seq_lt_transitive(s[a].0, s[s.len() - 1].0, key@);
                }
            }
        }
        let mut e: Vec<(String, V)> = Vec::new();
                std::mem::swap(&mut e, &mut self.entries);
                e.push((key, value));
                assert(key_view(e@) =~= old(self)@.push((key@, value)));
                self.entries = e;
    }
}

impl<V> KeyMap<V> {
    /// The set of keys of this map.
    pub fn key_set_copy(&self) -> (r: KeySet)
        ensures
            sorted_keys(r@),
            r@.len() == self@.len(),
            forall|i: int| 0 <= i < self@.len() ==> #[trigger] r@[i].0 == self@[i].0,
            forall|k: Seq<char>| has_key(r@, k) == has_key(self@, k),
    {
        let es = self.entries();
        let mut out: KeySet = KeyMap::new();
        let mut i: usize = 0;
        while i < es.len()
            invariant
                key_view(es@) == self@,
                sorted_keys(self@),
                i <= es@.len(),
                out@.len() == i,
                forall|j: int| 0 <= j < i ==> #[trigger] out@[j].0 == self@[j].0,
            decreases es.len() - i,
        {
            proof {
                if i > 0 {
                    assert(seq_lt(self@[i - 1].0, self@[i as int].0));
                }
            }
            out.push_last(es[i].0.clone(), ());
            i += 1;
        }
        proof {
            assert forall|k: Seq<char>| has_key(out@, k) == has_key(self@, k) by {
                if has_key(out@, k) {
                    let j = choose|j: int| 0 <= j < out@.len() && #[trigger] out@[j].0 == k;
                    assert(self@[j].0 == k);
                }
                if has_key(self@, k) {
                    let j = choose|j: int| 0 <= j < self@.len() && #[trigger] self@[j].0 == k;
                    assert(out@[j].0 == k);
                }
            }
        }
        out
    }
}


impl<V: Copy> KeyMap<V> {
    /// A copy of this map.
    pub fn copied(&self) -> (r: Self)
        ensures
            r@ == self@,
            sorted_keys(r@),
    {
        let es = self.entries();
        let mut out: KeyMap<V> = KeyMap::new();
        let mut i: usize = 0;
        while i < es.len()
            invariant
                key_view(es@) == self@,
                sorted_keys(self@),
                i <= es@.len(),
                out@ == self@.take(i as int),
            decreases es.len() - i,
        {
            proof {
                lemma_key_view_index(es@, i as int);
                if i > 0 {
                    assert(seq_lt(self@[i - 1].0, self@[i as int].0));
                }
            }
            out.push_last(es[i].0.clone(), es[i].1);
            assert(out@ =~= self@.take(i + 1));
            i += 1;
        }
        assert(self@.take(es@.len() as int) =~= self@);
        out
    }
}

} // verus!
