//! An extension-to-category map with string keys, kept as a vector of
//! entries whose keys are pairwise distinct.

use vstd::prelude::*;

verus! {

/// The view of a list of entries: each `(key, value)` by its characters.
pub open spec fn entries_view(v: Seq<(String, String)>) -> Seq<(Seq<char>, Seq<char>)> {
    v.map_values(|e: (String, String)| (e.0@, e.1@))
}

/// The map that inserting `s` in order into an empty map yields.
pub open spec fn map_of(s: Seq<(Seq<char>, Seq<char>)>) -> Map<Seq<char>, Seq<char>>
    decreases s.len(),
{
    if s.len() == 0 {
        Map::empty()
    } else {
        map_of(s.drop_last()).insert(s.last().0, s.last().1)
    }
}

/// No key occurs twice.
pub open spec fn keys_distinct(s: Seq<(Seq<char>, Seq<char>)>) -> bool {
    forall|i: int, j: int| 0 <= i < s.len() && 0 <= j < s.len() && i != j ==> #[trigger] s[i].0 != #[trigger] s[j].0
}

/// `m` without the entries whose value is `value` (`HashMap::retain`).
pub open spec fn without_value(m: Map<Seq<char>, Seq<char>>, value: Seq<char>) -> Map<
    Seq<char>,
    Seq<char>,
> {
    Map::new(|k: Seq<char>| m.dom().contains(k) && m[k] != value, |k: Seq<char>| m[k])
}

pub proof fn lemma_map_of_dom(s: Seq<(Seq<char>, Seq<char>)>, k: Seq<char>)
    ensures
        map_of(s).dom().contains(k) <==> exists|i: int| 0 <= i < s.len() && #[trigger] s[i].0 == k,
    decreases s.len(),
{
    if s.len() > 0 {
        let p = s.drop_last();
        lemma_map_of_dom(p, k);
        if map_of(s).dom().contains(k) && s.last().0 != k {
            let i = choose|i: int| 0 <= i < p.len() && #[trigger] p[i].0 == k;
            assert(s[i] == p[i]);
        }
        if exists|i: int| 0 <= i < s.len() && #[trigger] s[i].0 == k {
            let i = choose|i: int| 0 <= i < s.len() && #[trigger] s[i].0 == k;
            if i < p.len() {
                assert(p[i] == s[i]);
            }
        }
    }
}

pub proof fn lemma_map_of_at(s: Seq<(Seq<char>, Seq<char>)>, i: int)
    requires
        keys_distinct(s),
        0 <= i < s.len(),
    ensures
        map_of(s).dom().contains(s[i].0),
        map_of(s)[s[i].0] == s[i].1,
    decreases s.len(),
{
    let p = s.drop_last();
    if i < s.len() - 1 {
        assert(p[i] == s[i]);
        assert forall|a: int, b: int| 0 <= a < p.len() && 0 <= b < p.len() && a != b implies #[trigger] p[a].0 != #[trigger] p[b].0 by {
            assert(p[a] == s[a] && p[b] == s[b]);
        }
        lemma_map_of_at(p, i);
        assert(s[i].0 != s[s.len() - 1].0);
    }
}

pub proof fn lemma_map_of_update(s: Seq<(Seq<char>, Seq<char>)>, i: int, v: Seq<char>)
    requires
        keys_distinct(s),
        0 <= i < s.len(),
    ensures
        map_of(s.update(i, (s[i].0, v))) == map_of(s).insert(s[i].0, v),
    decreases s.len(),
{
    let k = s[i].0;
    let t = s.update(i, (k, v));
    let p = s.drop_last();
    if i == s.len() - 1 {
        assert(t.drop_last() =~= p);
        assert(map_of(t) =~= map_of(s).insert(k, v));
    } else {
        assert(t.drop_last() =~= p.update(i, (k, v)));
        assert(p[i] == s[i]);
        assert forall|a: int, b: int| 0 <= a < p.len() && 0 <= b < p.len() && a != b implies #[trigger] p[a].0 != #[trigger] p[b].0 by {
            assert(p[a] == s[a] && p[b] == s[b]);
        }
        lemma_map_of_update(p, i, v);
        assert(s.last().0 != k);
        assert(map_of(t) =~= map_of(s).insert(k, v));
    }
}

/// A map from extension to category name.
pub struct CategoryMap {
    entries: Vec<(String, String)>,
}

impl CategoryMap {
    #[verifier::type_invariant]
    spec fn inv(self) -> bool {
        keys_distinct(entries_view(self.entries@))
    }

    /// The entries as characters, in insertion order.
    pub closed spec fn entries_spec(self) -> Seq<(Seq<char>, Seq<char>)> {
        entries_view(self.entries@)
    }
}

impl View for CategoryMap {
    type V = Map<Seq<char>, Seq<char>>;

    closed spec fn view(&self) -> Map<Seq<char>, Seq<char>> {
        map_of(entries_view(self.entries@))
    }
}

impl CategoryMap {
    /// An empty map.
    pub fn new() -> (r: CategoryMap)
        ensures
            r@ == Map::<Seq<char>, Seq<char>>::empty(),
    {
        let r = CategoryMap { entries: Vec::new() };
        assert(entries_view(r.entries@) =~= Seq::empty());
        r
    }

    /// Position of `key` among the entries.
    fn position(&self, key: &str) -> (r: Option<usize>)
        ensures
            r matches Some(i) ==> i < self.entries@.len() && self.entries@[i as int].0@ == key@,
            r is None ==> forall|j: int| 0 <= j < self.entries@.len() ==> #[trigger] self.entries@[j].0@ != key@,
    {
        let mut i: usize = 0;
        while i < self.entries.len()
            invariant
                i <= self.entries@.len(),
                forall|j: int| 0 <= j < i ==> #[trigger] self.entries@[j].0@ != key@,
            decreases self.entries.len() - i,
        {
            if str_eq_string(&self.entries[i].0, key) {
                return Some(i);
            }
            i = i + 1;
        }
        None
    }

    /// The category of `key`, if the map holds one (`HashMap::get`).
    pub fn get(&self, key: &str) -> (r: Option<&String>)
        ensures
            r is Some <==> self@.dom().contains(key@),
            r matches Some(v) ==> v@ == self@[key@],
    {
        proof {
            use_type_invariant(self);
        }
        let ghost s = entries_view(self.entries@);
        match self.position(key) {
            Some(i) => {
                proof {
                    assert(s[i as int] == (self.entries@[i as int].0@, self.entries@[i as int].1@));
                    lemma_map_of_at(s, i as int);
                }
                Some(&self.entries[i].1)
            },
            None => {
                proof {
                    lemma_map_of_dom(s, key@);
                    assert forall|j: int| 0 <= j < s.len() implies #[trigger] s[j].0 != key@ by {
                        assert(s[j].0 == self.entries@[j].0@);
                    }
                }
                None
            },
        }
    }

    /// Maps `key` to `value`, replacing any earlier value (`HashMap::insert`).
    pub fn insert(&mut self, key: String, value: String)
        ensures
            final(self)@ == old(self)@.insert(key@, value@),
    {
        proof {
            use_type_invariant(&*self);
        }
        let ghost s = entries_view(self.entries@);
        let ghost orig = self.entries@;
        let found = self.position(key.as_str());
        let mut entries: Vec<(String, String)> = Vec::new();
        std::mem::swap(&mut entries, &mut self.entries);
        assert(entries_view(entries@) == s);
        match found {
            Some(i) => {
                entries.set(i, (key, value));
                proof {
                    assert(entries_view(entries@) =~= s.update(i as int, (s[i as int].0, value@)));
                    lemma_map_of_update(s, i as int, value@);
                    let t = entries_view(entries@);
                    assert forall|a: int, b: int| 0 <= a < t.len() && 0 <= b < t.len() && a != b implies #[trigger] t[a].0 != #[trigger] t[b].0 by {
                        assert(t[a].0 == s[a].0 && t[b].0 == s[b].0);
                    }
                }
            },
            None => {
                let ghost k = key@;
                entries.push((key, value));
                proof {
                    assert(entries_view(entries@) =~= s.push((k, value@)));
                    let t = entries_view(entries@);
                    assert(t.drop_last() =~= s);
                    assert forall|a: int, b: int| 0 <= a < t.len() && 0 <= b < t.len() && a != b implies #[trigger] t[a].0 != #[trigger] t[b].0 by {
                        if a < s.len() {
                            assert(t[a].0 == s[a].0);
                            assert(s[a].0 == orig[a].0@);
                        }
                        if b < s.len() {
                            assert(t[b].0 == s[b].0);
                        }
                    }
                }
            },
        }
        self.entries = entries;
    }

    /// The entries, in insertion order.
    pub fn to_vec(&self) -> (r: Vec<(String, String)>)
        ensures
            entries_view(r@) == self.entries_spec(),
            map_of(entries_view(r@)) == self@,
            keys_distinct(entries_view(r@)),
    {
        proof {
            use_type_invariant(self);
        }
        let ghost s = entries_view(self.entries@);
        let mut out: Vec<(String, String)> = Vec::new();
        let mut i: usize = 0;
        while i < self.entries.len()
            invariant
                i <= self.entries@.len(),
                s == entries_view(self.entries@),
                entries_view(out@) == s.take(i as int),
            decreases self.entries.len() - i,
        {
            let k = self.entries[i].0.clone();
            let v = self.entries[i].1.clone();
            let ghost before = entries_view(out@);
            out.push((k, v));
            assert(entries_view(out@) =~= before.push(s[i as int]));
            assert(s.take(i + 1) =~= s.take(i as int).push(s[i as int]));
            i = i + 1;
        }
        assert(s.take(self.entries@.len() as int) =~= s);
        out
    }

    /// Drops every entry whose category is `value` (`HashMap::retain`).
    pub fn remove_value(&mut self, value: &str)
        ensures
            final(self)@ == without_value(old(self)@, value@),
    {
        proof {
            use_type_invariant(&*self);
        }
        let ghost s = entries_view(self.entries@);
        let mut entries: Vec<(String, String)> = Vec::new();
        std::mem::swap(&mut entries, &mut self.entries);
        assert(entries_view(entries@) == s);
        let mut kept: Vec<(String, String)> = Vec::new();
        let mut i: usize = 0;
        assert(s.take(0) =~= Seq::<(Seq<char>, Seq<char>)>::empty());
        assert(map_of(entries_view(kept@)) =~= without_value(map_of(s.take(0)), value@));
        while i < entries.len()
            invariant
                i <= entries@.len(),
                entries_view(entries@) == s,
                keys_distinct(s),
                keys_distinct(entries_view(kept@)),
                forall|a: int| 0 <= a < kept@.len() ==> exists|j: int| 0 <= j < i && #[trigger] kept@[a].0@ == s[j].0,
                map_of(entries_view(kept@)) == without_value(map_of(s.take(i as int)), value@),
            decreases entries.len() - i,
        {
            let ghost k = entries_view(kept@);
            let ghost m = map_of(s.take(i as int));
            let ghost e = s[i as int];
            assert(e == (entries@[i as int].0@, entries@[i as int].1@));
            assert(s.take(i + 1).drop_last() =~= s.take(i as int));
            assert(s.take(i + 1).last() == e);
            if !str_eq_string(&entries[i].1, value) {
                let key = entries[i].0.clone();
                let val = entries[i].1.clone();
                kept.push((key, val));
                proof {
                    let t = entries_view(kept@);
                    assert(t =~= k.push(e));
                    assert(t.drop_last() =~= k);
                    assert(map_of(t) =~= without_value(m.insert(e.0, e.1), value@));
                    assert forall|a: int, b: int| 0 <= a < t.len() && 0 <= b < t.len() && a != b implies #[trigger] t[a].0 != #[trigger] t[b].0 by {
                        if a < k.len() && b == k.len() {
                            let j = choose|j: int| 0 <= j < i && #[trigger] kept@[a].0@ == s[j].0;
                            assert(t[a].0 == kept@[a].0@);
                        }
                        if b < k.len() && a == k.len() {
                            let j = choose|j: int| 0 <= j < i && #[trigger] kept@[b].0@ == s[j].0;
                            assert(t[b].0 == kept@[b].0@);
                        }
                        if a < k.len() && b < k.len() {
                            assert(t[a] == k[a] && t[b] == k[b]);
                        }
                    }
                    assert forall|a: int| 0 <= a < kept@.len() implies exists|j: int| 0 <= j < i + 1 && #[trigger] kept@[a].0@ == s[j].0 by {
                        if a < k.len() {
                            let j = choose|j: int| 0 <= j < i && #[trigger] kept@[a].0@ == s[j].0;
                        } else {
                            assert(kept@[a].0@ == s[i as int].0);
                        }
                    }
                }
            } else {
                proof {
                    lemma_map_of_dom(s.take(i as int), e.0);
                    assert forall|j: int| 0 <= j < s.take(i as int).len() implies #[trigger] s.take(i as int)[j].0 != e.0 by {
                        assert(s.take(i as int)[j] == s[j]);
                    }
                    assert(map_of(k) =~= without_value(m.insert(e.0, e.1), value@));
                }
            }
            i = i + 1;
        }
        assert(s.take(entries@.len() as int) =~= s);
        self.entries = kept;
    }
}

/// `a == b` between a `String` and a string slice.
fn str_eq_string(a: &String, b: &str) -> (r: bool)
    ensures
        r == (a@ == b@),
{
    crate::text::str_eq(a.as_str(), b)
}

} // verus!
