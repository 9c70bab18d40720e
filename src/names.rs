//! The index from friendly names to change ids.
use vstd::prelude::*;

verus! {

pub open spec fn unique_names(ps: Seq<(Seq<char>, u64)>) -> bool {
    forall|i: int, j: int| 0 <= i < j < ps.len() ==> (#[trigger] ps[i]).0 != (#[trigger] ps[j]).0
}

pub open spec fn map_of(ps: Seq<(Seq<char>, u64)>) -> Map<Seq<char>, u64> {
    Map::new(
        |n: Seq<char>| exists|i: int| 0 <= i < ps.len() && (#[trigger] ps[i]).0 == n,
        |n: Seq<char>| ps[choose|i: int| 0 <= i < ps.len() && (#[trigger] ps[i]).0 == n].1,
    )
}

proof fn lemma_map_of_at(ps: Seq<(Seq<char>, u64)>, i: int)
    requires
        unique_names(ps),
        0 <= i < ps.len(),
    ensures
        map_of(ps).contains_key(ps[i].0),
        map_of(ps)[ps[i].0] == ps[i].1,
{
    assert(map_of(ps).contains_key(ps[i].0));
    let j = choose|j: int| 0 <= j < ps.len() && (#[trigger] ps[j]).0 == ps[i].0;
    if j < i {
        assert(ps[j].0 != ps[i].0);
    } else if i < j {
        assert(ps[i].0 != ps[j].0);
    }
}

proof fn lemma_map_of_same(ps: Seq<(Seq<char>, u64)>, m: Map<Seq<char>, u64>)
    requires
        unique_names(ps),
        forall|i: int| 0 <= i < ps.len() ==> m.contains_key(#[trigger] ps[i].0) && m[ps[i].0] == ps[i].1,
        forall|n: Seq<char>| #[trigger] m.contains_key(n) ==> exists|i: int| 0 <= i < ps.len() && (#[trigger] ps[i]).0 == n,
    ensures
        map_of(ps) == m,
{
    assert forall|n: Seq<char>| #[trigger] map_of(ps).contains_key(n) == m.contains_key(n) by {}
    assert forall|n: Seq<char>| #[trigger] map_of(ps).contains_key(n) implies map_of(ps)[n] == m[n] by {
        let i = choose|i: int| 0 <= i < ps.len() && (#[trigger] ps[i]).0 == n;
        lemma_map_of_at(ps, i);
    }
    assert(map_of(ps) =~= m);
}

/// Friendly names and the change id each one stands for; a name appears once.
pub struct NameIndex {
    pairs: Vec<(String, u64)>,
}

impl NameIndex {
    pub closed spec fn pairs(&self) -> Seq<(Seq<char>, u64)> {
        self.pairs@.map_values(|p: (String, u64)| (p.0@, p.1))
    }

    pub open spec fn wf(&self) -> bool {
        unique_names(self.pairs())
    }

    /// The index as a map.
    pub open spec fn view(&self) -> Map<Seq<char>, u64> {
        map_of(self.pairs())
    }

    pub fn new() -> (r: NameIndex)
        ensures
            r.wf(),
            r.view() == Map::<Seq<char>, u64>::empty(),
    {
        let r = NameIndex { pairs: Vec::new() };
        assert(r.pairs() =~= Seq::<(Seq<char>, u64)>::empty());
        assert(r.view() =~= Map::<Seq<char>, u64>::empty());
        r
    }

    fn position(&self, name: &str) -> (r: Option<usize>)
        ensures
            match r {
                Some(i) => i < self.pairs().len() && self.pairs()[i as int].0 == name@,
                None => forall|k: int| 0 <= k < self.pairs().len() ==> (#[trigger] self.pairs()[k]).0 != name@,
            },
    {
        let mut i: usize = 0;
        while i < self.pairs.len()
            invariant
                i <= self.pairs@.len(),
                forall|k: int| 0 <= k < i ==> (#[trigger] self.pairs()[k]).0 != name@,
            decreases self.pairs@.len() - i,
        {
            if crate::text::str_equal(self.pairs[i].0.as_str(), name) {
                return Some(i);
            }
            i = i + 1;
        }
        None
    }

    /// The id that `name` stands for.
    pub fn get(&self, name: &str) -> (r: Option<u64>)
        requires
            self.wf(),
        ensures
            r == (if self.view().contains_key(name@) {
                Some(self.view()[name@])
            } else {
                None
            }),
    {
        match self.position(name) {
            Some(i) => {
                assert(self.view().contains_key(name@));
                Some(self.pairs[i].1)
            },
            None => {
                assert(!self.view().contains_key(name@));
                None
            },
        }
    }

    /// Lets `name` stand for `id`.
    pub fn insert(&mut self, name: &str, id: u64)
        requires
            old(self).wf(),
        ensures
            final(self).wf(),
            final(self).view() == old(self).view().insert(name@, id),
    {
        let ghost m0 = self.view();
        let ghost ps0 = self.pairs();
        match self.position(name) {
            Some(i) => {
                self.pairs.set(i, (name.to_owned(), id));
                assert(self.pairs() =~= ps0.update(i as int, (name@, id)));
            },
            None => {
                self.pairs.push((name.to_owned(), id));
                assert(self.pairs() =~= ps0.push((name@, id)));
            },
        }
        let ghost ps1 = self.pairs();
        let ghost m1 = m0.insert(name@, id);
        proof {
            assert forall|k: int| 0 <= k < ps1.len() implies m1.contains_key(#[trigger] ps1[k].0) && m1[ps1[k].0]
                == ps1[k].1 by {
                if ps1[k].0 != name@ {
                    lemma_map_of_at(ps0, k);
                }
            }
            assert forall|n: Seq<char>| #[trigger] m1.contains_key(n) implies exists|k: int|
                0 <= k < ps1.len() && (#[trigger] ps1[k]).0 == n by {
                if n != name@ {
                    let k = choose|k: int| 0 <= k < ps0.len() && (#[trigger] ps0[k]).0 == n;
                    assert(ps1[k].0 == n);
                } else {
                    if ps1.len() > ps0.len() {
                        assert(ps1[ps0.len() as int].0 == n);
                    } else {
                        let k = choose|k: int| 0 <= k < ps0.len() && (#[trigger] ps0[k]).0 == name@;
                        assert(ps1[k].0 == n);
                    }
                }
            }
            lemma_map_of_same(ps1, m1);
        }
    }

    /// Forgets `name`.
    pub fn remove(&mut self, name: &str)
        requires
            old(self).wf(),
        ensures
            final(self).wf(),
            final(self).view() == old(self).view().remove(name@),
    {
        let ghost m0 = self.view();
        let ghost ps0 = self.pairs();
        let ghost mut skip: int = ps0.len() as int;
        match self.position(name) {
            Some(i) => {
                self.pairs.remove(i);
                proof {
                    skip = i as int;
                }
            },
            None => {},
        }
        let ghost ps1 = self.pairs();
        assert(forall|k: int| 0 <= k < ps1.len() ==> #[trigger] ps1[k] == ps0[if k < skip { k } else { k + 1 }]);
        let ghost m1 = m0.remove(name@);
        proof {
            assert forall|k: int| 0 <= k < ps1.len() implies m1.contains_key(#[trigger] ps1[k].0) && m1[ps1[k].0]
                == ps1[k].1 by {
                let k0 = if k < skip { k } else { k + 1 };
                lemma_map_of_at(ps0, k0);
            }
            assert forall|n: Seq<char>| #[trigger] m1.contains_key(n) implies exists|k: int|
                0 <= k < ps1.len() && (#[trigger] ps1[k]).0 == n by {
                let k0 = choose|k: int| 0 <= k < ps0.len() && (#[trigger] ps0[k]).0 == n;
                if k0 < skip {
                    assert(ps1[k0].0 == n);
                } else {
                    assert(k0 != skip);
                    assert(ps1[k0 - 1].0 == n);
                }
            }
            lemma_map_of_same(ps1, m1);
        }
    }
}

} // verus!
