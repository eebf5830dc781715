//! Per-node attribute storage: a string-keyed property bag with upsert
//! writes, optional reads and caller-supplied defaults.

use vstd::prelude::*;

verus! {

/// Compares two string slices by contents.
pub fn str_equal(a: &str, b: &str) -> (r: bool)
    ensures
        r == (a@ == b@),
{
    let owned_a = a.to_owned();
    let owned_b = b.to_owned();
    owned_a.eq(&owned_b)
}

/// A property bag: keys are unique; a write upserts, a read is exact-match
/// with no fallback between entries.
pub struct AttributeStore {
    entries: Vec<(String, String)>,
}

/// The mapping a sequence of entries denotes; later entries shadow earlier
/// ones, though a well-formed store never has two entries with one key.
pub open spec fn map_of(s: Seq<(String, String)>) -> Map<Seq<char>, Seq<char>>
    decreases s.len(),
{
    if s.len() == 0 {
        Map::empty()
    } else {
        map_of(s.drop_last()).insert(s.last().0@, s.last().1@)
    }
}

pub open spec fn keys_distinct(s: Seq<(String, String)>) -> bool {
    forall|i: int, j: int|
        0 <= i < j < s.len() ==> (#[trigger] s[i]).0@ != (#[trigger] s[j]).0@
}

proof fn lemma_map_of_contains(s: Seq<(String, String)>)
    ensures
        forall|k: Seq<char>|
            map_of(s).contains_key(k) <==> exists|i: int| 0 <= i < s.len() && (#[trigger] s[i]).0@ == k,
    decreases s.len(),
{
    if s.len() > 0 {
        lemma_map_of_contains(s.drop_last());
        assert forall|k: Seq<char>| map_of(s).contains_key(k) implies exists|i: int|
            0 <= i < s.len() && (#[trigger] s[i]).0@ == k by {
            if k == s.last().0@ {
                assert(s[s.len() - 1].0@ == k);
            } else {
                assert(map_of(s.drop_last()).contains_key(k));
                let i = choose|i: int|
                    0 <= i < s.drop_last().len() && (#[trigger] s.drop_last()[i]).0@ == k;
                assert(s.drop_last()[i] == s[i]);
                assert(s[i].0@ == k);
            }
        }
        assert forall|k: Seq<char>| (exists|i: int| 0 <= i < s.len() && (#[trigger] s[i]).0@ == k)
            implies map_of(s).contains_key(k) by {
            let i = choose|i: int| 0 <= i < s.len() && (#[trigger] s[i]).0@ == k;
            if i < s.len() - 1 {
                assert(s.drop_last()[i].0@ == k);
                assert(map_of(s.drop_last()).contains_key(k));
            } else {
                assert(k == s.last().0@);
            }
        }
    }
}

proof fn lemma_map_of_entry(s: Seq<(String, String)>, i: int)
    requires
        keys_distinct(s),
        0 <= i < s.len(),
    ensures
        map_of(s).contains_key(s[i].0@),
        map_of(s)[s[i].0@] == s[i].1@,
    decreases s.len(),
{
    lemma_map_of_contains(s);
    if i < s.len() - 1 {
        assert(keys_distinct(s.drop_last()));
        assert(s.drop_last()[i] == s[i]);
        lemma_map_of_entry(s.drop_last(), i);
        assert(s[i].0@ != s.last().0@);
    }
}

proof fn lemma_map_of_update(s: Seq<(String, String)>, i: int, v: String)
    requires
        keys_distinct(s),
        0 <= i < s.len(),
    ensures
        map_of(s.update(i, (s[i].0, v))) == map_of(s).insert(s[i].0@, v@),
    decreases s.len(),
{
    let t = s.update(i, (s[i].0, v));
    if i == s.len() - 1 {
        assert(t.drop_last() =~= s.drop_last());
        assert(t.last() == (s[i].0, v));
        assert(map_of(t) == map_of(s.drop_last()).insert(s[i].0@, v@));
        assert(map_of(s.drop_last()).insert(s[i].0@, v@)
            =~= map_of(s.drop_last()).insert(s.last().0@, s.last().1@).insert(s[i].0@, v@));
    } else {
        assert(keys_distinct(s.drop_last()));
        lemma_map_of_update(s.drop_last(), i, v);
        assert(t.drop_last() =~= s.drop_last().update(i, (s[i].0, v)));
        assert(t.last() == s.last());
        assert(s[i].0@ != s.last().0@);
        assert(map_of(t) == map_of(s.drop_last()).insert(s[i].0@, v@).insert(s.last().0@, s.last().1@));
        assert(map_of(s.drop_last()).insert(s[i].0@, v@).insert(s.last().0@, s.last().1@)
            =~= map_of(s).insert(s[i].0@, v@));
    }
}

impl View for AttributeStore {
    type V = Map<Seq<char>, Seq<char>>;

    closed spec fn view(&self) -> Map<Seq<char>, Seq<char>> {
        map_of(self.entries@)
    }
}

impl AttributeStore {
    /// Keys are pairwise distinct; every constructor establishes this and
    /// every method preserves it.
    pub closed spec fn wf(self) -> bool {
        keys_distinct(self.entries@)
    }

    /// An empty store.
    pub fn new() -> (r: AttributeStore)
        ensures
            r@ == Map::<Seq<char>, Seq<char>>::empty(),
            r.wf(),
    {
        AttributeStore { entries: Vec::new() }
    }

    /// Exact-match lookup.
    pub fn get(&self, key: &str) -> (r: Option<&String>)
        requires
            self.wf(),
        ensures
            match r {
                Some(v) => self@.contains_key(key@) && v@ == self@[key@],
                None => !self@.contains_key(key@),
            },
    {
        let n = self.entries.len();
        let mut j: usize = 0;
        while j < n
            invariant
                0 <= j <= n == self.entries@.len(),
                self.wf(),
                forall|i: int| 0 <= i < j ==> (#[trigger] self.entries@[i]).0@ != key@,
            decreases n - j,
        {
            if str_equal(self.entries[j].0.as_str(), key) {
                proof {
                    lemma_map_of_entry(self.entries@, j as int);
                }
                return Some(&self.entries[j].1);
            }
            j = j + 1;
        }
        proof {
            lemma_map_of_contains(self.entries@);
        }
        None
    }

    /// Lookup with a caller-supplied default.
    pub fn get_or(&self, key: &str, default: &str) -> (r: String)
        requires
            self.wf(),
        ensures
            r@ == if self@.contains_key(key@) {
                self@[key@]
            } else {
                default@
            },
    {
        match self.get(key) {
            Some(v) => v.clone(),
            None => default.to_owned(),
        }
    }

    /// Upsert: overwrites the entry with this key, or adds one.
    pub fn set(&mut self, key: &str, value: &str)
        requires
            old(self).wf(),
        ensures
            final(self).wf(),
            final(self)@ == old(self)@.insert(key@, value@),
    {
        let n = self.entries.len();
        let mut j: usize = 0;
        while j < n
            invariant
                0 <= j <= n == self.entries@.len(),
                self.wf(),
                *self == *old(self),
                forall|i: int| 0 <= i < j ==> (#[trigger] self.entries@[i]).0@ != key@,
            decreases n - j,
        {
            if str_equal(self.entries[j].0.as_str(), key) {
                let owned = value.to_owned();
                let ghost prev = self.entries@;
                proof {
                    lemma_map_of_update(prev, j as int, owned);
                }
                self.entries[j].1 = owned;
                proof {
                    assert(self.entries@ =~= prev.update(j as int, (prev[j as int].0, owned)));
                    assert(forall|i: int|
                        0 <= i < self.entries@.len() ==> (#[trigger] self.entries@[i]).0 == prev[i].0);
                    assert(map_of(self.entries@) =~= map_of(old(self).entries@).insert(key@, value@));
                }
                return ;
            }
            j = j + 1;
        }
        proof {
            lemma_map_of_contains(self.entries@);
        }
        let entry = (key.to_owned(), value.to_owned());
        self.entries.push(entry);
        proof {
            assert(self.entries@.drop_last() =~= old(self).entries@);
            assert(self.entries@.last().0@ == key@);
            assert(map_of(self.entries@) == map_of(old(self).entries@).insert(key@, value@));
        }
    }
}

/// Utility for extracting a property by name, with a fallback value, as the
/// assembly phase and the accessors use it.
pub fn get_attribute(attributes: &AttributeStore, name: &str, default_str: &str) -> (r: String)
    requires
        attributes.wf(),
    ensures
        r@ == if attributes@.contains_key(name@) {
            attributes@[name@]
        } else {
            default_str@
        },
{
    attributes.get_or(name, default_str)
}

/// A value written under a key is what a read of that key then yields, for
/// every key and value.
pub proof fn lemma_attr_round_trip(m: Map<Seq<char>, Seq<char>>, key: Seq<char>, value: Seq<char>)
    ensures
        m.insert(key, value).contains_key(key),
        m.insert(key, value)[key] == value,
{
}

} // verus!
