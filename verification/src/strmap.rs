//! A string-to-string map kept as a vector of pairs in strictly ascending key
//! order. Annotation maps, the journal, and the replacement set all use it:
//! the stable order makes every substitution pass visit keys deterministically.

use vstd::prelude::*;
use vstd::string::*;
use crate::order::{str_lt, str_lt_exec, lemma_str_lt_neq, lemma_str_lt_trans, lemma_str_lt_connected};

verus! {

broadcast use vstd::seq_lib::group_seq_properties, vstd::set::group_set_axioms, vstd::map::group_map_axioms;

/// Compares two strings for character-wise equality.
pub fn str_eq(a: &str, b: &str) -> (r: bool)
    ensures
        r == (a@ == b@),
{
    let alen = a.unicode_len();
    let blen = b.unicode_len();
    if alen != blen {
        return false;
    }
    let mut i: usize = 0;
    while i < alen
        invariant
            alen == a@.len(),
            blen == b@.len(),
            alen == blen,
            i <= alen,
            forall|j: int| 0 <= j < i ==> a@[j] == b@[j],
        decreases alen - i,
    {
        let ca = a.get_char(i);
        let cb = b.get_char(i);
        if ca != cb {
            return false;
        }
        i = i + 1;
    }
    proof {
        assert(a@ =~= b@);
    }
    true
}

/// The ghost map held by a sequence of entries; on a duplicate key the
/// earliest entry wins.
pub open spec fn map_of(ents: Seq<(Seq<char>, Seq<char>)>) -> Map<Seq<char>, Seq<char>>
    decreases ents.len(),
{
    if ents.len() == 0 {
        Map::empty()
    } else {
        map_of(ents.skip(1)).insert(ents[0].0, ents[0].1)
    }
}

/// A key is in the ghost map exactly when some entry holds it.
pub proof fn lemma_map_of_dom(ents: Seq<(Seq<char>, Seq<char>)>, k: Seq<char>)
    ensures
        map_of(ents).contains_key(k) <==> exists|i: int|
            0 <= i < ents.len() && (#[trigger] ents[i]).0 == k,
    decreases ents.len(),
{
    if ents.len() == 0 {
    } else {
        lemma_map_of_dom(ents.skip(1), k);
        if ents[0].0 == k {
            assert(ents[0].0 == k);
        } else {
            if map_of(ents).contains_key(k) {
                let i = choose|i: int|
                    0 <= i < ents.skip(1).len() && (#[trigger] ents.skip(1)[i]).0 == k;
                assert(ents[i + 1].0 == k);
            }
            if exists|i: int| 0 <= i < ents.len() && (#[trigger] ents[i]).0 == k {
                let i = choose|i: int| 0 <= i < ents.len() && (#[trigger] ents[i]).0 == k;
                assert(ents.skip(1)[i - 1].0 == k);
            }
        }
    }
}

/// With strictly ascending keys each entry gives its key's value in the map.
pub proof fn lemma_map_of_entry(ents: Seq<(Seq<char>, Seq<char>)>, i: int)
    requires
        forall|a: int, b: int|
            0 <= a < b < ents.len() ==> str_lt((#[trigger] ents[a]).0, (#[trigger] ents[b]).0),
        0 <= i < ents.len(),
    ensures
        map_of(ents).contains_key(ents[i].0),
        map_of(ents)[ents[i].0] == ents[i].1,
    decreases ents.len(),
{
    if i == 0 {
    } else {
        assert(ents.skip(1)[i - 1] == ents[i]);
        assert forall|a: int, b: int|
            0 <= a < b < ents.skip(1).len() implies str_lt(
            (#[trigger] ents.skip(1)[a]).0,
            (#[trigger] ents.skip(1)[b]).0,
        ) by {
            assert(ents.skip(1)[a] == ents[a + 1]);
            assert(ents.skip(1)[b] == ents[b + 1]);
        }
        lemma_map_of_entry(ents.skip(1), i - 1);
        assert(str_lt(ents[0].0, ents[i].0));
        lemma_str_lt_neq(ents[0].0, ents[i].0);
    }
}

pub struct StrMap {
    pub(crate) pairs: Vec<(String, String)>,
}

impl StrMap {
    /// The entries as ghost sequences, in storage order.
    pub closed spec fn entries(self) -> Seq<(Seq<char>, Seq<char>)> {
        self.pairs@.map_values(|p: (String, String)| (p.0@, p.1@))
    }

    /// Well-formed: keys strictly ascending, hence unique.
    pub open spec fn wf(self) -> bool {
        forall|i: int, j: int|
            0 <= i < j < self.entries().len() ==> str_lt(
                (#[trigger] self.entries()[i]).0,
                (#[trigger] self.entries()[j]).0,
            )
    }

    /// The entries as a ghost map.
    pub open spec fn as_map(self) -> Map<Seq<char>, Seq<char>> {
        map_of(self.entries())
    }

    /// Under well-formedness each stored entry is faithfully reflected in the map.
    pub proof fn lemma_entry_in_map(self, i: int)
        requires
            self.wf(),
            0 <= i < self.entries().len(),
        ensures
            self.as_map().contains_key(self.entries()[i].0),
            self.as_map()[self.entries()[i].0] == self.entries()[i].1,
    {
        lemma_map_of_entry(self.entries(), i);
    }

    pub fn new() -> (r: StrMap)
        ensures
            r.wf(),
            r.entries() == Seq::<(Seq<char>, Seq<char>)>::empty(),
            r.as_map() == Map::<Seq<char>, Seq<char>>::empty(),
    {
        let r = StrMap { pairs: Vec::new() };
        proof {
            assert(r.entries() =~= Seq::<(Seq<char>, Seq<char>)>::empty());
            assert(r.as_map() =~= Map::<Seq<char>, Seq<char>>::empty());
        }
        r
    }

    pub fn len(&self) -> (r: usize)
        ensures
            r == self.entries().len(),
    {
        self.pairs.len()
    }

    pub fn key_at(&self, i: usize) -> (r: &String)
        requires
            i < self.entries().len(),
        ensures
            r@ == self.entries()[i as int].0,
    {
        &self.pairs[i].0
    }

    pub fn val_at(&self, i: usize) -> (r: &String)
        requires
            i < self.entries().len(),
        ensures
            r@ == self.entries()[i as int].1,
    {
        &self.pairs[i].1
    }

    /// Looks a key up; exact against the ghost map when well-formed.
    pub fn get(&self, key: &str) -> (r: Option<&String>)
        requires
            self.wf(),
        ensures
            match r {
                Some(v) => self.as_map().contains_key(key@) && v@ == self.as_map()[key@],
                None => !self.as_map().contains_key(key@),
            },
    {
        let n = self.pairs.len();
        let mut i: usize = 0;
        while i < n
            invariant
                self.wf(),
                n == self.entries().len(),
                i <= n,
                forall|j: int| 0 <= j < i ==> (#[trigger] self.entries()[j]).0 != key@,
            decreases n - i,
        {
            if str_eq(self.pairs[i].0.as_str(), key) {
                proof {
                    self.lemma_entry_in_map(i as int);
                }
                return Some(&self.pairs[i].1);
            }
            i = i + 1;
        }
        proof {
            lemma_map_of_dom(self.entries(), key@);
        }
        None
    }

    pub fn contains_key(&self, key: &str) -> (r: bool)
        requires
            self.wf(),
        ensures
            r == self.as_map().contains_key(key@),
    {
        match self.get(key) {
            Some(_) => true,
            None => false,
        }
    }

    pub fn is_empty(&self) -> (r: bool)
        requires
            self.wf(),
        ensures
            r == (self.as_map() == Map::<Seq<char>, Seq<char>>::empty()),
            r == (self.entries().len() == 0),
    {
        let r = self.pairs.len() == 0;
        proof {
            if self.entries().len() == 0 {
                assert(self.as_map() =~= Map::<Seq<char>, Seq<char>>::empty());
            } else {
                self.lemma_entry_in_map(0);
                assert(self.as_map().contains_key(self.entries()[0].0));
            }
        }
        r
    }

    /// First index whose key is not below `key`; entries before it are below.
    fn find_pos(&self, key: &str) -> (r: usize)
        requires
            self.wf(),
        ensures
            r <= self.entries().len(),
            forall|j: int| 0 <= j < r ==> str_lt((#[trigger] self.entries()[j]).0, key@),
            r < self.entries().len() ==> !str_lt(self.entries()[r as int].0, key@),
    {
        let n = self.pairs.len();
        let mut i: usize = 0;
        while i < n
            invariant
                self.wf(),
                n == self.entries().len(),
                i <= n,
                forall|j: int| 0 <= j < i ==> str_lt((#[trigger] self.entries()[j]).0, key@),
            decreases n - i,
        {
            if !str_lt_exec(self.pairs[i].0.as_str(), key) {
                return i;
            }
            i = i + 1;
        }
        i
    }

    /// Inserts or replaces a binding, keeping the ascending key order.
    pub fn insert(&mut self, key: String, value: String)
        requires
            old(self).wf(),
        ensures
            final(self).wf(),
            final(self).as_map() == old(self).as_map().insert(key@, value@),
    {
        let ghost oldm = *old(self);
        let n = self.pairs.len();
        let i = self.find_pos(key.as_str());
        let ghost pos = i as int;
        if i < n && str_eq(self.pairs[i].0.as_str(), key.as_str()) {
            self.pairs.remove(i);
            self.pairs.insert(i, (key, value));
            proof {
                assert(self.pairs@ =~= oldm.pairs@.update(pos, (key, value)));
                assert(self.entries() =~= oldm.entries().update(pos, (key@, value@)));
                assert forall|a: int, b: int|
                    0 <= a < b < self.entries().len() implies str_lt(
                    (#[trigger] self.entries()[a]).0,
                    (#[trigger] self.entries()[b]).0,
                ) by {
                    assert(self.entries()[a].0 == oldm.entries()[a].0);
                    assert(self.entries()[b].0 == oldm.entries()[b].0);
                }
                self.lemma_insert_map_eq(oldm, pos, key@, value@, true);
            }
        } else {
            proof {
                if pos < n {
                    assert(oldm.entries()[pos].0 != key@);
                    lemma_str_lt_connected(oldm.entries()[pos].0, key@);
                    assert(str_lt(key@, oldm.entries()[pos].0));
                }
                assert forall|j: int| 0 <= j < oldm.entries().len() implies (
                    #[trigger] oldm.entries()[j]).0 != key@ by {
                    if j < pos {
                        lemma_str_lt_neq(oldm.entries()[j].0, key@);
                    } else if j == pos {
                    } else {
                        lemma_str_lt_trans(key@, oldm.entries()[pos].0, oldm.entries()[j].0);
                        lemma_str_lt_neq(key@, oldm.entries()[j].0);
                    }
                }
            }
            self.pairs.insert(i, (key, value));
            proof {
                assert(self.entries() =~= oldm.entries().insert(pos, (key@, value@)));
                assert forall|a: int, b: int|
                    0 <= a < b < self.entries().len() implies str_lt(
                    (#[trigger] self.entries()[a]).0,
                    (#[trigger] self.entries()[b]).0,
                ) by {
                    if b < pos {
                        assert(self.entries()[a] == oldm.entries()[a]);
                        assert(self.entries()[b] == oldm.entries()[b]);
                    } else if a < pos && b == pos {
                        assert(self.entries()[a] == oldm.entries()[a]);
                        assert(str_lt(oldm.entries()[a].0, key@));
                    } else if a < pos && b > pos {
                        assert(self.entries()[a] == oldm.entries()[a]);
                        assert(self.entries()[b] == oldm.entries()[b - 1]);
                        if b - 1 == pos {
                            lemma_str_lt_trans(
                                oldm.entries()[a].0,
                                key@,
                                oldm.entries()[pos].0,
                            );
                        }
                    } else if a == pos {
                        assert(self.entries()[b] == oldm.entries()[b - 1]);
                        assert(str_lt(key@, oldm.entries()[b - 1].0)) by {
                            assert(str_lt(key@, oldm.entries()[pos].0));
                            if b - 1 > pos {
                                lemma_str_lt_trans(
                                    key@,
                                    oldm.entries()[pos].0,
                                    oldm.entries()[b - 1].0,
                                );
                            }
                        }
                    } else {
                        assert(self.entries()[a] == oldm.entries()[a - 1]);
                        assert(self.entries()[b] == oldm.entries()[b - 1]);
                    }
                }
                self.lemma_insert_map_eq(oldm, pos, key@, value@, false);
            }
        }
    }

    /// After a positional update or insertion the ghost map gains exactly one binding.
    proof fn lemma_insert_map_eq(
        self,
        oldm: StrMap,
        pos: int,
        k: Seq<char>,
        v: Seq<char>,
        replaced: bool,
    )
        requires
            self.wf(),
            oldm.wf(),
            replaced ==> {
                &&& 0 <= pos < oldm.entries().len()
                &&& oldm.entries()[pos].0 == k
                &&& self.entries() == oldm.entries().update(pos, (k, v))
            },
            !replaced ==> {
                &&& 0 <= pos <= oldm.entries().len()
                &&& self.entries() == oldm.entries().insert(pos, (k, v))
                &&& forall|j: int| 0 <= j < oldm.entries().len() ==> (
                    #[trigger] oldm.entries()[j]).0 != k
            },
        ensures
            self.as_map() == oldm.as_map().insert(k, v),
    {
        let target = oldm.as_map().insert(k, v);
        assert forall|q: Seq<char>|
            self.as_map().contains_key(q) == target.contains_key(q) by {
            lemma_map_of_dom(self.entries(), q);
            lemma_map_of_dom(oldm.entries(), q);
            if q == k {
                if replaced {
                    assert(self.entries()[pos].0 == k);
                } else {
                    assert(self.entries()[pos].0 == k);
                }
            } else {
                if self.as_map().contains_key(q) {
                    let i = choose|i: int|
                        0 <= i < self.entries().len() && (#[trigger] self.entries()[i]).0 == q;
                    if replaced {
                        assert(oldm.entries()[i].0 == q);
                    } else if i < pos {
                        assert(oldm.entries()[i].0 == q);
                    } else {
                        assert(i != pos);
                        assert(oldm.entries()[i - 1].0 == q);
                    }
                }
                if oldm.as_map().contains_key(q) {
                    let i = choose|i: int|
                        0 <= i < oldm.entries().len() && (#[trigger] oldm.entries()[i]).0 == q;
                    if replaced {
                        assert(i != pos);
                        assert(self.entries()[i].0 == q);
                    } else if i < pos {
                        assert(self.entries()[i].0 == q);
                    } else {
                        assert(self.entries()[i + 1].0 == q);
                    }
                }
            }
        }
        assert forall|q: Seq<char>|
            self.as_map().contains_key(q) implies self.as_map()[q] == target[q] by {
            lemma_map_of_dom(self.entries(), q);
            let i = choose|i: int|
                0 <= i < self.entries().len() && (#[trigger] self.entries()[i]).0 == q;
            lemma_map_of_entry(self.entries(), i);
            if q == k {
                if i != pos {
                    if replaced {
                        assert(oldm.entries()[i].0 == q);
                        lemma_str_lt_neq_both(oldm.entries(), i, pos);
                    } else {
                        let iold: int = if i < pos { i } else { i - 1 };
                        assert(oldm.entries()[iold].0 == q);
                    }
                }
                assert(i == pos);
                assert(self.entries()[pos].1 == v);
            } else {
                if replaced {
                    assert(i != pos);
                    assert(oldm.entries()[i] == self.entries()[i]);
                    lemma_map_of_entry(oldm.entries(), i);
                } else if i < pos {
                    assert(oldm.entries()[i] == self.entries()[i]);
                    lemma_map_of_entry(oldm.entries(), i);
                } else {
                    assert(i != pos);
                    assert(oldm.entries()[i - 1] == self.entries()[i]);
                    lemma_map_of_entry(oldm.entries(), i - 1);
                }
            }
        }
        assert(self.as_map() =~= target);
    }

    /// Copies the map entry by entry.
    pub fn duplicate(&self) -> (r: StrMap)
        ensures
            r.entries() == self.entries(),
            r.wf() == self.wf(),
            r.as_map() == self.as_map(),
    {
        let n = self.pairs.len();
        let mut out: Vec<(String, String)> = Vec::new();
        let mut i: usize = 0;
        while i < n
            invariant
                n == self.pairs@.len(),
                i <= n,
                out@.len() == i,
                forall|j: int| 0 <= j < i ==> out@[j] == self.pairs@[j],
            decreases n - i,
        {
            let k = self.pairs[i].0.clone();
            let v = self.pairs[i].1.clone();
            out.push((k, v));
            i = i + 1;
        }
        let r = StrMap { pairs: out };
        proof {
            assert(r.pairs@ =~= self.pairs@);
            assert(r.entries() =~= self.entries());
        }
        r
    }

    /// Wraps a pair vector as a map without checking the key order;
    /// the caller owns any well-formedness claim.
    pub(crate) fn from_vec(pairs: Vec<(String, String)>) -> (r: StrMap)
        ensures
            r.entries() == pairs@.map_values(|p: (String, String)| (p.0@, p.1@)),
    {
        let r = StrMap { pairs };
        proof {
            assert(r.entries() =~= r.pairs@.map_values(|p: (String, String)| (p.0@, p.1@)));
        }
        r
    }

    /// Builds a map from pairs already in strictly ascending key order;
    /// rejects any other input.
    pub fn from_sorted(pairs: Vec<(String, String)>) -> (r: Option<StrMap>)
        ensures
            match r {
                Some(m) => m.wf() && m.entries() == pairs@.map_values(
                    |p: (String, String)| (p.0@, p.1@),
                ),
                None => true,
            },
    {
        let n = pairs.len();
        let mut i: usize = 1;
        if n > 1 {
            while i < n
                invariant
                    n == pairs@.len(),
                    1 <= i <= n,
                    forall|j: int| 0 <= j < i - 1 ==> str_lt((#[trigger] pairs@[j]).0@, pairs@[j + 1].0@),
                decreases n - i,
            {
                if !str_lt_exec(pairs[i - 1].0.as_str(), pairs[i].0.as_str()) {
                    return None;
                }
                i = i + 1;
            }
        }
        let r = StrMap { pairs };
        proof {
            assert forall|a: int, b: int|
                0 <= a < b < r.entries().len() implies str_lt(
                (#[trigger] r.entries()[a]).0,
                (#[trigger] r.entries()[b]).0,
            ) by {
                lemma_adjacent_sorted(r.entries(), a, b);
            }
        }
        Some(r)
    }
}

/// Two distinct positions of a strictly sorted entry sequence hold distinct keys.
proof fn lemma_str_lt_neq_both(ents: Seq<(Seq<char>, Seq<char>)>, i: int, j: int)
    requires
        forall|a: int, b: int|
            0 <= a < b < ents.len() ==> str_lt((#[trigger] ents[a]).0, (#[trigger] ents[b]).0),
        0 <= i < ents.len(),
        0 <= j < ents.len(),
        i != j,
    ensures
        ents[i].0 != ents[j].0,
{
    if i < j {
        lemma_str_lt_neq(ents[i].0, ents[j].0);
    } else {
        lemma_str_lt_neq(ents[j].0, ents[i].0);
    }
}

/// Pairwise order follows from adjacent order.
proof fn lemma_adjacent_sorted(ents: Seq<(Seq<char>, Seq<char>)>, a: int, b: int)
    requires
        forall|j: int| 0 <= j < ents.len() - 1 ==> str_lt(
            (#[trigger] ents[j]).0,
            ents[j + 1].0,
        ),
        0 <= a < b < ents.len(),
    ensures
        str_lt(ents[a].0, ents[b].0),
    decreases b - a,
{
    if b == a + 1 {
    } else {
        lemma_adjacent_sorted(ents, a, b - 1);
        lemma_str_lt_trans(ents[a].0, ents[b - 1].0, ents[b].0);
    }
}

} // verus!
