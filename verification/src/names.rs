//! Name-keyed collections: a set of rule names and a map keyed by rule name.
//!
//! Both keep their entries in insertion order, which makes every iteration over them
//! deterministic, and both are modelled by the mathematical set/map of the names' character
//! sequences.
use vstd::prelude::*;

verus! {

/// `a == b` on string slices.
#[verifier::external_body]
pub fn str_eq(a: &str, b: &str) -> (r: bool)
    ensures
        r == (a@ == b@),
{
    a == b
}

/// An owned copy of a string slice.
pub fn str_to_string(s: &str) -> (r: String)
    ensures
        r@ == s@,
{
    s.to_owned()
}

pub open spec fn strs_view(v: Seq<String>) -> Seq<Seq<char>> {
    v.map_values(|s: String| s@)
}

/// A copy of a vector of strings.
pub fn clone_strings(v: &Vec<String>) -> (r: Vec<String>)
    ensures
        strs_view(r@) == strs_view(v@),
{
    let mut r: Vec<String> = Vec::new();
    let mut i: usize = 0;
    while i < v.len()
        invariant
            i <= v.len(),
            r@.len() == i,
            strs_view(r@) == strs_view(v@).take(i as int),
        decreases v.len() - i,
    {
        let ghost prev = r@;
        let c = v[i].clone();
        assert(c == v@[i as int]);
        r.push(c);
        i = i + 1;
        assert(r@ == prev.push(c));
        assert(strs_view(r@) =~= strs_view(prev).push(c@));
        assert(strs_view(v@).take(i as int) =~= strs_view(v@).take(i - 1).push(v@[i - 1]@));
    }
    assert(strs_view(v@).take(v@.len() as int) =~= strs_view(v@));
    r
}

/// Does `v` hold a string equal to `k`?
pub fn strings_contain(v: &[String], k: &str) -> (r: bool)
    ensures
        r == strs_view(v@).contains(k@),
{
    let mut i: usize = 0;
    while i < v.len()
        invariant
            i <= v.len(),
            forall|j: int| 0 <= j < i ==> v@[j]@ != k@,
        decreases v.len() - i,
    {
        if str_eq(v[i].as_str(), k) {
            assert(strs_view(v@)[i as int] == k@);
            return true;
        }
        i = i + 1;
    }
    proof {
        if strs_view(v@).contains(k@) {
            let j = choose|j: int| 0 <= j < strs_view(v@).len() && strs_view(v@)[j] == k@;
            assert(v@[j]@ == k@);
        }
    }
    false
}

proof fn lemma_push_to_set(s: Seq<Seq<char>>, x: Seq<char>)
    ensures
        s.push(x).to_set() == s.to_set().insert(x),
{
    assert forall|y: Seq<char>| #[trigger] s.push(x).to_set().contains(y) == s.to_set().insert(x).contains(y) by {
        if s.push(x).contains(y) && y != x {
            let j = choose|j: int| 0 <= j < s.push(x).len() && s.push(x)[j] == y;
            assert(j < s.len());
            assert(s[j] == y);
        }
        if s.contains(y) {
            let j = choose|j: int| 0 <= j < s.len() && s[j] == y;
            assert(s.push(x)[j] == y);
        }
        if y == x {
            assert(s.push(x)[s.len() as int] == x);
        }
    }
    assert(s.push(x).to_set() =~= s.to_set().insert(x));
}

pub proof fn lemma_push_to_set_pub(s: Seq<Seq<char>>, x: Seq<char>)
    ensures
        s.push(x).to_set() == s.to_set().insert(x),
{
    lemma_push_to_set(s, x);
}

/// A set of names, kept in insertion order without repetition.
#[derive(Debug)]
pub struct NameSet {
    items: Vec<String>,
}

impl NameSet {
    /// The names, in insertion order.
    pub closed spec fn elems(&self) -> Seq<Seq<char>> {
        strs_view(self.items@)
    }

    #[verifier::type_invariant]
    closed spec fn inv(&self) -> bool {
        self.elems().no_duplicates()
    }

    pub fn new() -> (r: NameSet)
        ensures
            r.elems() == Seq::<Seq<char>>::empty(),
            r@ == Set::<Seq<char>>::empty(),
    {
        let r = NameSet { items: Vec::new() };
        assert(r.elems() =~= Seq::<Seq<char>>::empty());
        r
    }

    /// The number of names; also states what the set is made of.
    pub fn len(&self) -> (n: usize)
        ensures
            n == self.elems().len(),
            self.elems().no_duplicates(),
            self@.len() == n,
            self@.finite(),
    {
        proof {
            use_type_invariant(self);
            self.elems().unique_seq_to_set();
        }
        self.items.len()
    }

    pub fn is_empty(&self) -> (r: bool)
        ensures
            r == (self@.len() == 0),
            r == (self.elems().len() == 0),
    {
        self.len() == 0
    }

    /// The name at position `i` of the insertion order.
    pub fn get(&self, i: usize) -> (r: &String)
        requires
            i < self.elems().len(),
        ensures
            r@ == self.elems()[i as int],
    {
        &self.items[i]
    }

    pub fn contains(&self, k: &str) -> (r: bool)
        ensures
            r == self@.contains(k@),
    {
        strings_contain(self.items.as_slice(), k)
    }

    /// Add a name; returns whether it was new.
    pub fn insert(&mut self, k: String) -> (r: bool)
        ensures
            r == !old(self)@.contains(k@),
            final(self)@ == old(self)@.insert(k@),
            final(self).elems() == (if r { old(self).elems().push(k@) } else { old(self).elems() }),
    {
        proof {
            use_type_invariant(&*self);
        }
        if self.contains(k.as_str()) {
            proof {
                assert(old(self)@.insert(k@) =~= old(self)@);
            }
            false
        } else {
            let ghost kv = k@;
            let mut taken = NameSet { items: Vec::new() };
            std::mem::swap(&mut taken, self);
            let mut items = taken.items;
            let ghost before = items@;
            assert(strs_view(before) == old(self).elems());
            items.push(k);
            proof {
                assert(items@ == before.push(k));
                assert(strs_view(items@) =~= strs_view(before).push(kv));
                assert(!strs_view(before).contains(kv));
                assert forall|a: int, b: int| 0 <= a < strs_view(items@).len() && 0 <= b < strs_view(items@).len() && a != b
                    implies strs_view(items@)[a] != strs_view(items@)[b] by {
                    if a < before.len() && b < before.len() {
                    } else if a < before.len() {
                        assert(strs_view(before)[a] == strs_view(items@)[a]);
                    } else {
                        assert(strs_view(before)[b] == strs_view(items@)[b]);
                    }
                }
            }
            *self = NameSet { items };
            proof {
                assert(self.elems() =~= old(self).elems().push(kv));
                lemma_push_to_set(old(self).elems(), kv);
                assert(self@ == old(self)@.insert(kv));
            }
            true
        }
    }

    /// The names as a vector, in insertion order.
    pub fn to_vec(&self) -> (r: Vec<String>)
        ensures
            strs_view(r@) == self.elems(),
    {
        clone_strings(&self.items)
    }
}

impl View for NameSet {
    type V = Set<Seq<char>>;

    open spec fn view(&self) -> Set<Seq<char>> {
        self.elems().to_set()
    }
}

/// A map keyed by name, kept in insertion order.
#[derive(Debug)]
pub struct StrMap<V> {
    keys: Vec<String>,
    vals: Vec<V>,
}

impl<V> StrMap<V> {
    pub closed spec fn key_seq(&self) -> Seq<Seq<char>> {
        strs_view(self.keys@)
    }

    pub closed spec fn val_seq(&self) -> Seq<V> {
        self.vals@
    }

    #[verifier::type_invariant]
    closed spec fn inv(&self) -> bool {
        &&& self.keys@.len() == self.vals@.len()
        &&& self.key_seq().no_duplicates()
    }

    pub closed spec fn spec_map(&self) -> Map<Seq<char>, V> {
        Map::new(
            |k: Seq<char>| self.key_seq().contains(k),
            |k: Seq<char>|
                self.val_seq()[choose|i: int| 0 <= i < self.key_seq().len() && self.key_seq()[i] == k],
        )
    }

    pub fn new() -> (r: StrMap<V>)
        ensures
            r.key_seq() == Seq::<Seq<char>>::empty(),
            r@ == Map::<Seq<char>, V>::empty(),
    {
        let r = StrMap { keys: Vec::new(), vals: Vec::new() };
        assert(r.key_seq() =~= Seq::<Seq<char>>::empty());
        assert(r@ =~= Map::<Seq<char>, V>::empty());
        r
    }

    /// The number of entries; also states how the entries make up the map.
    pub fn len(&self) -> (n: usize)
        ensures
            n == self.key_seq().len(),
            n == self.val_seq().len(),
            self.key_seq().no_duplicates(),
            self@.dom() == self.key_seq().to_set(),
            forall|i: int| 0 <= i < n ==> #[trigger] self@[self.key_seq()[i]] == self.val_seq()[i],
    {
        proof {
            use_type_invariant(self);
            self.lemma_view();
        }
        self.keys.len()
    }

    proof fn lemma_view(&self)
        requires
            self.inv(),
        ensures
            self@.dom() == self.key_seq().to_set(),
            forall|i: int|
                0 <= i < self.key_seq().len() ==> #[trigger] self@[self.key_seq()[i]] == self.val_seq()[i],
    {
        assert(self@.dom() =~= self.key_seq().to_set());
        assert forall|i: int| 0 <= i < self.key_seq().len() implies #[trigger] self@[self.key_seq()[i]]
            == self.val_seq()[i] by {
            let k = self.key_seq()[i];
            assert(self.key_seq().contains(k));
            let j = choose|j: int| 0 <= j < self.key_seq().len() && self.key_seq()[j] == k;
            assert(j == i);
        }
    }

    pub fn key_at(&self, i: usize) -> (r: &String)
        requires
            i < self.key_seq().len(),
        ensures
            r@ == self.key_seq()[i as int],
    {
        proof {
            use_type_invariant(self);
        }
        &self.keys[i]
    }

    pub fn value_at(&self, i: usize) -> (r: &V)
        requires
            i < self.key_seq().len(),
        ensures
            *r == self.val_seq()[i as int],
            *r == self@[self.key_seq()[i as int]],
    {
        proof {
            use_type_invariant(self);
            self.lemma_view();
        }
        &self.vals[i]
    }

    fn index_of(&self, k: &str) -> (r: Option<usize>)
        ensures
            match r {
                Some(i) => i < self.key_seq().len() && self.key_seq()[i as int] == k@,
                None => !self.key_seq().contains(k@),
            },
    {
        proof {
            use_type_invariant(self);
        }
        let mut i: usize = 0;
        while i < self.keys.len()
            invariant
                i <= self.keys@.len(),
                self.keys@.len() == self.key_seq().len(),
                forall|j: int| 0 <= j < i ==> self.key_seq()[j] != k@,
            decreases self.keys@.len() - i,
        {
            if str_eq(self.keys[i].as_str(), k) {
                return Some(i);
            }
            i = i + 1;
        }
        None
    }

    pub fn contains_key(&self, k: &str) -> (r: bool)
        ensures
            r == self@.dom().contains(k@),
    {
        proof {
            use_type_invariant(self);
            self.lemma_view();
        }
        self.index_of(k).is_some()
    }

    pub fn get(&self, k: &str) -> (r: Option<&V>)
        ensures
            match r {
                Some(v) => self@.dom().contains(k@) && *v == self@[k@],
                None => !self@.dom().contains(k@),
            },
    {
        proof {
            use_type_invariant(self);
            self.lemma_view();
        }
        match self.index_of(k) {
            Some(i) => Some(&self.vals[i]),
            None => None,
        }
    }

    /// Insert or replace the value under `k` (a new key goes last in the order).
    pub fn insert(&mut self, k: String, v: V)
        ensures
            final(self)@ == old(self)@.insert(k@, v),
            old(self)@.dom().contains(k@) ==> final(self).key_seq() == old(self).key_seq(),
            !old(self)@.dom().contains(k@) ==> final(self).key_seq() == old(self).key_seq().push(k@),
    {
        proof {
            use_type_invariant(&*self);
            self.lemma_view();
        }
        let ghost kv = k@;
        let found = self.index_of(k.as_str());
        let mut taken: StrMap<V> = StrMap { keys: Vec::new(), vals: Vec::new() };
        std::mem::swap(&mut taken, self);
        let mut keys = taken.keys;
        let mut vals = taken.vals;
        match found {
            Some(i) => {
                vals.set(i, v);
                *self = StrMap { keys, vals };
                proof {
                    assert(self.key_seq() == old(self).key_seq());
                    self.lemma_view();
                    assert(self@ =~= old(self)@.insert(kv, v));
                }
            },
            None => {
                let ghost before = keys@;
                assert(strs_view(before) == old(self).key_seq());
                keys.push(k);
                vals.push(v);
                proof {
                    assert(strs_view(keys@) =~= strs_view(before).push(kv));
                    assert forall|a: int, b: int| 0 <= a < strs_view(keys@).len() && 0 <= b < strs_view(keys@).len() && a != b
                        implies strs_view(keys@)[a] != strs_view(keys@)[b] by {
                        if a < before.len() && b < before.len() {
                        } else if a < before.len() {
                            assert(strs_view(before)[a] == strs_view(keys@)[a]);
                        } else {
                            assert(strs_view(before)[b] == strs_view(keys@)[b]);
                        }
                    }
                }
                *self = StrMap { keys, vals };
                proof {
                    assert(self.key_seq() =~= old(self).key_seq().push(kv));
                    assert(self.key_seq() =~= old(self).key_seq().push(kv));
                    assert(self.val_seq() =~= old(self).val_seq().push(v));
                    self.lemma_view();
                    lemma_push_to_set(old(self).key_seq(), kv);
                    assert(self@.dom() =~= old(self)@.insert(kv, v).dom());
                    assert forall|x: Seq<char>| #[trigger] self@.dom().contains(x) implies self@[x]
                        == old(self)@.insert(kv, v)[x] by {
                        let j = choose|j: int| 0 <= j < self.key_seq().len() && self.key_seq()[j] == x;
                        assert(self@[self.key_seq()[j]] == self.val_seq()[j]);
                        if j < old(self).key_seq().len() {
                            assert(old(self).key_seq()[j] == x);
                            assert(old(self)@[old(self).key_seq()[j]] == old(self).val_seq()[j]);
                            assert(x != kv);
                        } else {
                            assert(x == kv);
                        }
                    }
                    assert(self@ =~= old(self)@.insert(kv, v));
                }
            },
        }
    }
}

impl<V> StrMap<V> {
    /// Remove the entry under `k`, if there is one.
    pub fn remove(&mut self, k: &str)
        ensures
            final(self)@ == old(self)@.remove(k@),
    {
        proof {
            use_type_invariant(&*self);
            self.lemma_view();
        }
        let ghost kv = k@;
        match self.index_of(k) {
            None => {
                assert(!old(self)@.dom().contains(kv));
                assert(self@ =~= old(self)@.remove(kv));
            },
            Some(i) => {
                let mut taken: StrMap<V> = StrMap { keys: Vec::new(), vals: Vec::new() };
                std::mem::swap(&mut taken, self);
                let mut keys = taken.keys;
                let mut vals = taken.vals;
                let ghost ks = strs_view(keys@);
                let ghost vs = vals@;
                keys.remove(i);
                vals.remove(i);
                proof {
                    assert(strs_view(keys@) =~= ks.remove(i as int));
                    assert forall|a: int, b: int| 0 <= a < strs_view(keys@).len() && 0 <= b < strs_view(keys@).len() && a != b
                        implies strs_view(keys@)[a] != strs_view(keys@)[b] by {
                        let a2 = if a < i { a } else { a + 1 };
                        let b2 = if b < i { b } else { b + 1 };
                        assert(strs_view(keys@)[a] == ks[a2]);
                        assert(strs_view(keys@)[b] == ks[b2]);
                    }
                }
                *self = StrMap { keys, vals };
                proof {
                    self.lemma_view();
                    assert forall|x: Seq<char>| #[trigger] self@.dom().contains(x) == old(self)@.remove(kv).dom().contains(x) by {
                        if self@.dom().contains(x) {
                            let j = choose|j: int| 0 <= j < self.key_seq().len() && self.key_seq()[j] == x;
                            let j2 = if j < i { j } else { j + 1 };
                            assert(ks[j2] == x);
                            assert(x != kv);
                        }
                        if old(self)@.remove(kv).dom().contains(x) {
                            let j = choose|j: int| 0 <= j < ks.len() && ks[j] == x;
                            assert(j != i);
                            let j2 = if j < i { j } else { j - 1 };
                            assert(self.key_seq()[j2] == x);
                        }
                    }
                    assert(self@.dom() =~= old(self)@.remove(kv).dom());
                    assert forall|x: Seq<char>| #[trigger] self@.dom().contains(x) implies self@[x] == old(self)@.remove(kv)[x] by {
                        let j = choose|j: int| 0 <= j < self.key_seq().len() && self.key_seq()[j] == x;
                        let j2 = if j < i { j } else { j + 1 };
                        assert(self@[self.key_seq()[j]] == self.val_seq()[j]);
                        assert(ks[j2] == x);
                        assert(old(self)@[old(self).key_seq()[j2]] == old(self).val_seq()[j2]);
                    }
                    assert(self@ =~= old(self)@.remove(kv));
                }
            },
        }
    }
}

impl<V> View for StrMap<V> {
    type V = Map<Seq<char>, V>;

    open spec fn view(&self) -> Map<Seq<char>, V> {
        self.spec_map()
    }
}

} // verus!
