//! Mappings from names to values, as requests and responses carry them.
use vstd::prelude::*;
use crate::encoding::{ascii_lower, lemma_ascii_lower_twice, same_text};

verus! {

/// The mapping that a list of pairs stands for: where a name occurs more than
/// once, the last pair with it counts.
pub open spec fn map_of(p: Seq<(Seq<char>, Seq<char>)>) -> Map<Seq<char>, Seq<char>>
    decreases p.len(),
{
    if p.len() == 0 {
        Map::empty()
    } else {
        map_of(p.drop_last()).insert(p.last().0, p.last().1)
    }
}

/// No name occurs in two pairs.
pub open spec fn distinct_names(p: Seq<(Seq<char>, Seq<char>)>) -> bool {
    forall|i: int, j: int| 0 <= i < j < p.len() ==> (#[trigger] p[i]).0 != (#[trigger] p[j]).0
}

/// Some pair has the name `k`.
pub open spec fn has_name(p: Seq<(Seq<char>, Seq<char>)>, k: Seq<char>) -> bool {
    exists|i: int| 0 <= i < p.len() && (#[trigger] p[i]).0 == k
}

/// The position of a pair with the name `k`.
pub open spec fn position(p: Seq<(Seq<char>, Seq<char>)>, k: Seq<char>) -> int {
    choose|i: int| 0 <= i < p.len() && (#[trigger] p[i]).0 == k
}

/// The list after `k` is given the value `v`: the pair with that name is
/// replaced where it stands, or a new pair is added at the end.
pub open spec fn upsert(p: Seq<(Seq<char>, Seq<char>)>, k: Seq<char>, v: Seq<char>) -> Seq<
    (Seq<char>, Seq<char>),
> {
    if has_name(p, k) {
        p.update(position(p, k), (k, v))
    } else {
        p.push((k, v))
    }
}

/// The names of the mapping are the names of the pairs.
pub proof fn lemma_map_of_names(p: Seq<(Seq<char>, Seq<char>)>, k: Seq<char>)
    ensures
        map_of(p).contains_key(k) <==> has_name(p, k),
    decreases p.len(),
{
    if p.len() > 0 {
        let front = p.drop_last();
        lemma_map_of_names(front, k);
        if has_name(p, k) {
            let i = position(p, k);
            if i < p.len() - 1 {
                assert(front[i].0 == k);
            }
        }
        if has_name(front, k) {
            let i = position(front, k);
            assert(p[i].0 == k);
        }
        if p.last().0 == k {
            assert(p[p.len() - 1].0 == k);
        }
    }
}

/// Where no name occurs twice, each pair gives its name's value.
pub proof fn lemma_map_of_at(p: Seq<(Seq<char>, Seq<char>)>, i: int)
    requires
        distinct_names(p),
        0 <= i < p.len(),
    ensures
        map_of(p).contains_key(p[i].0),
        map_of(p)[p[i].0] == p[i].1,
    decreases p.len(),
{
    let front = p.drop_last();
    if i < p.len() - 1 {
        assert(distinct_names(front)) by {
            assert forall|a: int, b: int| 0 <= a < b < front.len() implies (#[trigger] front[a]).0
                != (#[trigger] front[b]).0 by {
                assert(front[a] == p[a] && front[b] == p[b]);
            }
        }
        lemma_map_of_at(front, i);
        assert(front[i] == p[i]);
        assert(p[i].0 != p[p.len() - 1].0);
    }
}

/// Where no name occurs twice, replacing a pair's value where it stands is
/// giving its name that value in the mapping.
pub proof fn lemma_map_of_update(p: Seq<(Seq<char>, Seq<char>)>, i: int, v: Seq<char>)
    requires
        distinct_names(p),
        0 <= i < p.len(),
    ensures
        map_of(p.update(i, (p[i].0, v))) == map_of(p).insert(p[i].0, v),
        distinct_names(p.update(i, (p[i].0, v))),
    decreases p.len(),
{
    let q = p.update(i, (p[i].0, v));
    let front = p.drop_last();
    assert(distinct_names(q)) by {
        assert forall|a: int, b: int| 0 <= a < b < q.len() implies (#[trigger] q[a]).0 != (
        #[trigger] q[b]).0 by {
            assert(q[a].0 == p[a].0 && q[b].0 == p[b].0);
        }
    }
    if i == p.len() - 1 {
        assert(q.drop_last() =~= front);
        assert(map_of(q) =~= map_of(p).insert(p[i].0, v));
    } else {
        assert(distinct_names(front)) by {
            assert forall|a: int, b: int| 0 <= a < b < front.len() implies (#[trigger] front[a]).0
                != (#[trigger] front[b]).0 by {
                assert(front[a] == p[a] && front[b] == p[b]);
            }
        }
        lemma_map_of_update(front, i, v);
        assert(front[i] == p[i]);
        assert(q.drop_last() =~= front.update(i, (p[i].0, v)));
        assert(q.last() == p.last());
        assert(p[i].0 != p[p.len() - 1].0);
        assert(map_of(q) =~= map_of(p).insert(p[i].0, v));
    }
}

/// Where no name occurs twice, the mapping has as many names as the list has
/// pairs.
pub proof fn lemma_map_of_len(p: Seq<(Seq<char>, Seq<char>)>)
    requires
        distinct_names(p),
    ensures
        map_of(p).dom().finite(),
        map_of(p).dom().len() == p.len(),
    decreases p.len(),
{
    if p.len() > 0 {
        let front = p.drop_last();
        let name = p.last().0;
        assert(distinct_names(front)) by {
            assert forall|a: int, b: int| 0 <= a < b < front.len() implies (#[trigger] front[a]).0
                != (#[trigger] front[b]).0 by {
                assert(front[a] == p[a] && front[b] == p[b]);
            }
        }
        lemma_map_of_len(front);
        lemma_map_of_names(front, name);
        if has_name(front, name) {
            let i = position(front, name);
            assert(front[i] == p[i]);
            assert(p[i].0 != p[p.len() - 1].0);
        }
        assert(map_of(p).dom() =~= map_of(front).dom().insert(name));
    } else {
        assert(map_of(p).dom() =~= Set::<Seq<char>>::empty());
    }
}

/// A list of pairs stands for the empty mapping only if it is empty.
pub proof fn lemma_map_of_empty(p: Seq<(Seq<char>, Seq<char>)>)
    ensures
        map_of(p) == Map::<Seq<char>, Seq<char>>::empty() <==> p.len() == 0,
{
    if p.len() > 0 {
        assert(map_of(p).contains_key(p.last().0));
    }
}

spec fn pairs_of(entries: Seq<(String, String)>) -> Seq<(Seq<char>, Seq<char>)> {
    Seq::new(entries.len(), |i: int| (entries[i].0@, entries[i].1@))
}

/// A mapping from names to values that keeps the order in which its names
/// first came. Names are told apart exactly, letter case included.
#[derive(Debug)]
pub struct Params {
    entries: Vec<(String, String)>,
}

impl View for Params {
    type V = Map<Seq<char>, Seq<char>>;

    open spec fn view(&self) -> Map<Seq<char>, Seq<char>> {
        map_of(self.pairs())
    }
}

impl Params {
    /// The pairs of the mapping, in the order in which their names first came.
    pub closed spec fn pairs(&self) -> Seq<(Seq<char>, Seq<char>)> {
        pairs_of(self.entries@)
    }

    /// No name is held twice.
    #[verifier::type_invariant]
    pub open spec fn wf(&self) -> bool {
        distinct_names(self.pairs())
    }

    /// The mapping without any name.
    pub fn new() -> (r: Params)
        ensures
            r.pairs() == Seq::<(Seq<char>, Seq<char>)>::empty(),
            r@ == Map::<Seq<char>, Seq<char>>::empty(),
    {
        let r = Params { entries: Vec::new() };
        assert(r.pairs() =~= Seq::empty());
        r
    }

    /// The number of names.
    pub fn len(&self) -> (n: usize)
        ensures
            n == self.pairs().len(),
            n == self@.dom().len(),
            self.wf(),
    {
        proof {
            use_type_invariant(self);
            lemma_map_of_len(self.pairs());
        }
        self.entries.len()
    }

    /// Whether the mapping holds no name.
    pub fn is_empty(&self) -> (r: bool)
        ensures
            r == (self.pairs().len() == 0),
            r == (self@ == Map::<Seq<char>, Seq<char>>::empty()),
    {
        proof {
            lemma_map_of_empty(self.pairs());
        }
        self.entries.len() == 0
    }

    /// The pair at position `i`, if there is one.
    pub fn entry(&self, i: usize) -> (r: Option<(&String, &String)>)
        ensures
            match r {
                Some((k, v)) => i < self.pairs().len() && self.pairs()[i as int] == (k@, v@),
                None => i >= self.pairs().len(),
            },
    {
        if i < self.entries.len() {
            Some((&self.entries[i].0, &self.entries[i].1))
        } else {
            None
        }
    }

    fn find(&self, key: &str) -> (r: Option<usize>)
        ensures
            match r {
                Some(i) => i < self.pairs().len() && self.pairs()[i as int].0 == key@,
                None => !has_name(self.pairs(), key@),
            },
    {
        let mut i: usize = 0;
        while i < self.entries.len()
            invariant
                i <= self.entries@.len(),
                forall|j: int| 0 <= j < i ==> (#[trigger] self.pairs()[j]).0 != key@,
            decreases self.entries@.len() - i,
        {
            if same_text(self.entries[i].0.as_str(), key) {
                return Some(i);
            }
            i += 1;
        }
        None
    }

    /// The value of `key`, if the mapping holds it.
    pub fn get(&self, key: &str) -> (r: Option<&String>)
        ensures
            match r {
                Some(v) => self@.contains_key(key@) && self@[key@] == v@,
                None => !self@.contains_key(key@),
            },
    {
        proof {
            use_type_invariant(self);
            lemma_map_of_names(self.pairs(), key@);
        }
        match self.find(key) {
            Some(i) => {
                proof {
                    lemma_map_of_at(self.pairs(), i as int);
                }
                Some(&self.entries[i].1)
            },
            None => None,
        }
    }

    /// Whether the mapping holds `key`.
    pub fn contains_key(&self, key: &str) -> (r: bool)
        ensures
            r == self@.contains_key(key@),
            r == has_name(self.pairs(), key@),
    {
        proof {
            lemma_map_of_names(self.pairs(), key@);
        }
        self.find(key).is_some()
    }

    /// Gives `key` the value `value`. A value that `key` had is replaced.
    pub fn insert(&mut self, key: String, value: String)
        ensures
            final(self)@ == old(self)@.insert(key@, value@),
            final(self).pairs() == upsert(old(self).pairs(), key@, value@),
    {
        proof {
            use_type_invariant(&*self);
        }
        let ghost before = self.pairs();
        let found = self.find(key.as_str());
        // The list is changed while it is out of `self`, which holds an empty
        // one meanwhile.
        let mut entries: Vec<(String, String)> = Vec::new();
        core::mem::swap(&mut self.entries, &mut entries);
        match found {
            Some(i) => {
                proof {
                    lemma_map_of_update(before, i as int, value@);
                    assert(before[i as int].0 == key@);
                    assert(position(before, key@) == i) by {
                        let j = position(before, key@);
                        assert(before[j].0 == key@);
                    }
                }
                entries[i] = (key, value);
                assert(pairs_of(entries@) =~= before.update(i as int, (key@, value@)));
            },
            None => {
                entries.push((key, value));
                proof {
                    let after = before.push((key@, value@));
                    assert(pairs_of(entries@) =~= after);
                    assert(after.drop_last() =~= before);
                    assert(distinct_names(after)) by {
                        assert forall|a: int, b: int| 0 <= a < b < after.len() implies (
                        #[trigger] after[a]).0 != (#[trigger] after[b]).0 by {
                            assert(after[a] == before[a]);
                            if b < before.len() {
                                assert(after[b] == before[b]);
                            }
                        }
                    }
                }
            },
        }
        core::mem::swap(&mut self.entries, &mut entries);
    }
}

/// Every name is written in small letters.
pub open spec fn lower_names(p: Seq<(Seq<char>, Seq<char>)>) -> bool {
    forall|i: int| 0 <= i < p.len() ==> ascii_lower((#[trigger] p[i]).0) == p[i].0
}

/// Giving a value to a name in small letters keeps all names in small letters.
pub proof fn lemma_upsert_lower(p: Seq<(Seq<char>, Seq<char>)>, k: Seq<char>, v: Seq<char>)
    requires
        lower_names(p),
        ascii_lower(k) == k,
    ensures
        lower_names(upsert(p, k, v)),
{
    let q = upsert(p, k, v);
    assert forall|i: int| 0 <= i < q.len() implies ascii_lower((#[trigger] q[i]).0) == q[i].0 by {
        if has_name(p, k) {
            if i != position(p, k) {
                assert(q[i] == p[i]);
            }
        } else {
            if i < p.len() {
                assert(q[i] == p[i]);
            }
        }
    }
}

/// The header fields of a message. Names are told apart without regard to the
/// case of ASCII letters: each is kept in small letters.
#[derive(Debug)]
pub struct Headers {
    fields: Params,
}

impl View for Headers {
    type V = Map<Seq<char>, Seq<char>>;

    open spec fn view(&self) -> Map<Seq<char>, Seq<char>> {
        map_of(self.pairs())
    }
}

impl Headers {
    /// The fields, in the order in which their names first came.
    pub closed spec fn pairs(&self) -> Seq<(Seq<char>, Seq<char>)> {
        self.fields.pairs()
    }

    /// No name is held twice, and every name is in small letters.
    #[verifier::type_invariant]
    pub open spec fn wf(&self) -> bool {
        distinct_names(self.pairs()) && lower_names(self.pairs())
    }

    /// No fields.
    pub fn new() -> (r: Headers)
        ensures
            r.pairs() == Seq::<(Seq<char>, Seq<char>)>::empty(),
            r@ == Map::<Seq<char>, Seq<char>>::empty(),
    {
        Headers { fields: Params::new() }
    }

    /// The number of fields.
    pub fn len(&self) -> (n: usize)
        ensures
            n == self.pairs().len(),
            n == self@.dom().len(),
            self.wf(),
    {
        proof {
            use_type_invariant(self);
        }
        self.fields.len()
    }

    /// Whether there is no field.
    pub fn is_empty(&self) -> (r: bool)
        ensures
            r == (self.pairs().len() == 0),
            r == (self@ == Map::<Seq<char>, Seq<char>>::empty()),
    {
        self.fields.is_empty()
    }

    /// The field at position `i`, if there is one.
    pub fn entry(&self, i: usize) -> (r: Option<(&String, &String)>)
        ensures
            match r {
                Some((k, v)) => i < self.pairs().len() && self.pairs()[i as int] == (k@, v@),
                None => i >= self.pairs().len(),
            },
    {
        self.fields.entry(i)
    }

    /// The value of the field `name`, whatever the case of its letters.
    pub fn get(&self, name: &str) -> (r: Option<&String>)
        ensures
            match r {
                Some(v) => self@.contains_key(ascii_lower(name@)) && self@[ascii_lower(name@)]
                    == v@,
                None => !self@.contains_key(ascii_lower(name@)),
            },
    {
        let lower = name.to_ascii_lowercase();
        self.fields.get(lower.as_str())
    }

    /// Whether there is a field `name`, whatever the case of its letters.
    pub fn contains(&self, name: &str) -> (r: bool)
        ensures
            r == self@.contains_key(ascii_lower(name@)),
            r == has_name(self.pairs(), ascii_lower(name@)),
    {
        let lower = name.to_ascii_lowercase();
        self.fields.contains_key(lower.as_str())
    }

    /// Sets the field `name` to `value`. A value that the field had, under
    /// any spelling of its name, is replaced.
    pub fn insert(&mut self, name: &str, value: String)
        ensures
            final(self)@ == old(self)@.insert(ascii_lower(name@), value@),
            final(self).pairs() == upsert(old(self).pairs(), ascii_lower(name@), value@),
    {
        proof {
            use_type_invariant(&*self);
            lemma_ascii_lower_twice(name@);
            lemma_upsert_lower(self.pairs(), ascii_lower(name@), value@);
        }
        // The fields are changed while they are out of `self`.
        let mut fields = Params::new();
        core::mem::swap(&mut self.fields, &mut fields);
        fields.insert(name.to_ascii_lowercase(), value);
        proof {
            use_type_invariant(&fields);
        }
        core::mem::swap(&mut self.fields, &mut fields);
    }
}

} // verus!
