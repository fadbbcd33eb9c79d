//! Sets of object paths, and the string properties of tables and snapshots.

use vstd::hash_set::StringHashSet;
use vstd::prelude::*;

use crate::text::{same_text, texts};

verus! {

broadcast use vstd::hash_set::group_hash_set_axioms;

/// A set of object paths.
pub struct PathSet {
    set: StringHashSet,
}

impl View for PathSet {
    type V = Set<Seq<char>>;

    closed spec fn view(&self) -> Set<Seq<char>> {
        self.set@
    }
}

impl PathSet {
    /// The empty set.
    pub fn new() -> (r: Self)
        ensures
            r@ == Set::<Seq<char>>::empty(),
    {
        PathSet { set: StringHashSet::new() }
    }

    /// The set of all paths in `paths`.
    pub fn from_paths(paths: &[String]) -> (r: Self)
        ensures
            r@ == texts(paths@).to_set(),
    {
        let mut r = PathSet::new();
        let mut i: usize = 0;
        while i < paths.len()
            invariant
                i <= paths@.len(),
                r@ == texts(paths@).take(i as int).to_set(),
            decreases paths@.len() - i,
        {
            r.insert(paths[i].clone());
            proof {
                let head = texts(paths@).take(i as int);
                let next = texts(paths@).take(i + 1);
                assert(next =~= head.push(paths@[i as int]@));
                lemma_push_to_set(head, paths@[i as int]@);
            }
            i = i + 1;
        }
        assert(texts(paths@).take(i as int) =~= texts(paths@));
        r
    }

    /// Adds `path`, and says whether it was missing.
    pub fn insert(&mut self, path: String) -> (added: bool)
        ensures
            final(self)@ == old(self)@.insert(path@),
            added == !old(self)@.contains(path@),
    {
        self.set.insert(path)
    }

    /// Takes `path` out, and says whether it was there.
    pub fn remove(&mut self, path: &str) -> (removed: bool)
        ensures
            final(self)@ == old(self)@.remove(path@),
            removed == old(self)@.contains(path@),
    {
        self.set.remove(path)
    }

    /// Whether `path` is in the set.
    pub fn contains(&self, path: &str) -> (r: bool)
        ensures
            r == self@.contains(path@),
    {
        self.set.contains(path)
    }

    /// How many paths the set holds.
    pub fn len(&self) -> (r: usize)
        ensures
            r == self@.len(),
    {
        self.set.len()
    }

    /// Whether the set holds no path.
    pub fn is_empty(&self) -> (r: bool)
        ensures
            r == self@.is_empty(),
    {
        self.set.is_empty()
    }
}

pub proof fn lemma_push_to_set<A>(s: Seq<A>, x: A)
    ensures
        s.push(x).to_set() == s.to_set().insert(x),
{
    let longer = s.push(x);
    assert forall|y: A| longer.contains(y) <==> s.contains(y) || y == x by {
        if longer.contains(y) {
            let k = choose|k: int| 0 <= k < longer.len() && longer[k] == y;
            if k < s.len() {
                assert(s[k] == y);
            }
        }
        if s.contains(y) {
            let k = choose|k: int| 0 <= k < s.len() && s[k] == y;
            assert(longer[k] == y);
        }
        assert(longer[s.len() as int] == x);
    }
    assert(longer.to_set() =~= s.to_set().insert(x));
}

/// The map that a list of keys and values stands for: of two values for one key, the later.
pub open spec fn as_map(pairs: Seq<(String, String)>) -> Map<Seq<char>, Seq<char>>
    decreases pairs.len(),
{
    if pairs.len() == 0 {
        Map::empty()
    } else {
        as_map(pairs.drop_last()).insert(pairs.last().0@, pairs.last().1@)
    }
}

/// String properties by name.
#[derive(Clone, Debug, PartialEq, Eq)]
pub struct Properties {
    pairs: Vec<(String, String)>,
}

impl View for Properties {
    type V = Map<Seq<char>, Seq<char>>;

    closed spec fn view(&self) -> Map<Seq<char>, Seq<char>> {
        as_map(self.pairs@)
    }
}

impl Properties {
    /// No property.
    pub fn new() -> (r: Self)
        ensures
            r@ == Map::<Seq<char>, Seq<char>>::empty(),
    {
        Properties { pairs: Vec::new() }
    }

    /// Gives `key` the value `value`.
    pub fn insert(&mut self, key: String, value: String)
        ensures
            final(self)@ == old(self)@.insert(key@, value@),
    {
        let ghost before = self.pairs@;
        self.pairs.push((key, value));
        assert(self.pairs@.drop_last() =~= before);
    }

    /// The value of `key`.
    pub fn get(&self, key: &str) -> (r: Option<&String>)
        ensures
            match r {
                Some(value) => self@.contains_key(key@) && self@[key@] == value@,
                None => !self@.contains_key(key@),
            },
    {
        let mut i: usize = self.pairs.len();
        assert(self.pairs@.take(i as int) =~= self.pairs@);
        while i > 0
            invariant
                i <= self.pairs@.len(),
                self@.contains_key(key@) == as_map(self.pairs@.take(i as int)).contains_key(key@),
                as_map(self.pairs@.take(i as int)).contains_key(key@) ==> self@[key@] == as_map(
                    self.pairs@.take(i as int),
                )[key@],
            decreases i,
        {
            proof {
                let head = self.pairs@.take(i as int);
                assert(head.drop_last() =~= self.pairs@.take(i - 1));
                assert(head.last() == self.pairs@[i - 1]);
            }
            i = i - 1;
            if same_text(self.pairs[i].0.as_str(), key) {
                return Some(&self.pairs[i].1);
            }
        }
        None
    }

    /// The properties with those of `updates` on top.
    pub fn updated_with(&self, updates: &Properties) -> (r: Properties)
        ensures
            r@ == self@.union_prefer_right(updates@),
    {
        let mut r = Properties::new();
        let mut i: usize = 0;
        while i < self.pairs.len()
            invariant
                i <= self.pairs@.len(),
                r@ == as_map(self.pairs@.take(i as int)),
            decreases self.pairs@.len() - i,
        {
            assert(self.pairs@.take(i + 1).drop_last() =~= self.pairs@.take(i as int));
            r.insert(self.pairs[i].0.clone(), self.pairs[i].1.clone());
            i = i + 1;
        }
        assert(self.pairs@.take(i as int) =~= self.pairs@);
        let mut j: usize = 0;
        assert(self@.union_prefer_right(as_map(updates.pairs@.take(0))) =~= self@);
        while j < updates.pairs.len()
            invariant
                j <= updates.pairs@.len(),
                r@ == self@.union_prefer_right(as_map(updates.pairs@.take(j as int))),
            decreases updates.pairs@.len() - j,
        {
            proof {
                let head = as_map(updates.pairs@.take(j as int));
                let pair = updates.pairs@[j as int];
                assert(updates.pairs@.take(j + 1).drop_last() =~= updates.pairs@.take(j as int));
                assert(self@.union_prefer_right(head.insert(pair.0@, pair.1@))
                    =~= self@.union_prefer_right(head).insert(pair.0@, pair.1@));
            }
            r.insert(updates.pairs[j].0.clone(), updates.pairs[j].1.clone());
            j = j + 1;
        }
        assert(updates.pairs@.take(j as int) =~= updates.pairs@);
        r
    }

    /// The properties without those of the keys `removals`.
    pub fn without(&self, removals: &[String]) -> (r: Properties)
        ensures
            r@ == self@.remove_keys(texts(removals@).to_set()),
    {
        let ghost gone = texts(removals@).to_set();
        let mut r = Properties::new();
        let mut i: usize = 0;
        assert(as_map(self.pairs@.take(0)).remove_keys(gone) =~= Map::empty());
        while i < self.pairs.len()
            invariant
                i <= self.pairs@.len(),
                gone == texts(removals@).to_set(),
                r@ == as_map(self.pairs@.take(i as int)).remove_keys(gone),
            decreases self.pairs@.len() - i,
        {
            let key = self.pairs[i].0.as_str();
            let mut stays = true;
            let mut k: usize = 0;
            while k < removals.len()
                invariant
                    k <= removals@.len(),
                    stays == forall|m: int| 0 <= m < k ==> (#[trigger] removals@[m])@ != key@,
                decreases removals@.len() - k,
            {
                if same_text(removals[k].as_str(), key) {
                    stays = false;
                }
                k = k + 1;
            }
            proof {
                let head = as_map(self.pairs@.take(i as int));
                let pair = self.pairs@[i as int];
                assert(self.pairs@.take(i + 1).drop_last() =~= self.pairs@.take(i as int));
                if stays {
                    assert(!gone.contains(key@)) by {
                        if texts(removals@).contains(key@) {
                            let m = choose|m: int|
                                0 <= m < texts(removals@).len() && texts(removals@)[m] == key@;
                            assert(removals@[m]@ == key@);
                        }
                    }
                    assert(head.insert(pair.0@, pair.1@).remove_keys(gone)
                        =~= head.remove_keys(gone).insert(pair.0@, pair.1@));
                } else {
                    let m = choose|m: int| 0 <= m < removals@.len() && (#[trigger] removals@[m])@
                        == key@;
                    assert(texts(removals@)[m] == key@);
                    assert(gone.contains(key@));
                    assert(head.insert(pair.0@, pair.1@).remove_keys(gone) =~= head.remove_keys(
                        gone,
                    ));
                }
            }
            if stays {
                r.insert(self.pairs[i].0.clone(), self.pairs[i].1.clone());
            }
            i = i + 1;
        }
        assert(self.pairs@.take(i as int) =~= self.pairs@);
        r
    }

    /// Every key and value, in the order they were given; of two for one key, the later holds.
    pub fn pairs(&self) -> (r: &Vec<(String, String)>)
        ensures
            as_map(r@) == self@,
    {
        &self.pairs
    }
}

/// A map made of pairs holds the keys of the pairs, each with the value of its last pair.
pub proof fn law_last_pair_wins(pairs: Seq<(String, String)>, key: Seq<char>)
    ensures
        as_map(pairs).contains_key(key) <==> exists|i: int|
            0 <= i < pairs.len() && (#[trigger] pairs[i]).0@ == key,
        as_map(pairs).contains_key(key) ==> exists|i: int|
            0 <= i < pairs.len() && (#[trigger] pairs[i]).0@ == key && as_map(pairs)[key]
                == pairs[i].1@ && forall|j: int|
                i < j < pairs.len() ==> (#[trigger] pairs[j]).0@ != key,
    decreases pairs.len(),
{
    if pairs.len() > 0 {
        let rest = pairs.drop_last();
        law_last_pair_wins(rest, key);
        assert(pairs[pairs.len() - 1] == pairs.last());
        if pairs.last().0@ != key {
            if as_map(rest).contains_key(key) {
                let i = choose|i: int|
                    0 <= i < rest.len() && (#[trigger] rest[i]).0@ == key && as_map(rest)[key]
                        == rest[i].1@ && forall|j: int|
                        i < j < rest.len() ==> (#[trigger] rest[j]).0@ != key;
                assert(pairs[i] == rest[i]);
                assert forall|j: int| i < j < pairs.len() implies (
                #[trigger] pairs[j]).0@ != key by {
                    if j < rest.len() {
                        assert(rest[j] == pairs[j]);
                    }
                }
            }
            if exists|i: int| 0 <= i < pairs.len() && (#[trigger] pairs[i]).0@ == key {
                let i = choose|i: int| 0 <= i < pairs.len() && (#[trigger] pairs[i]).0@ == key;
                assert(rest[i] == pairs[i]);
            }
        }
    }
}

} // verus!
