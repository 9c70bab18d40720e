//! A store kept in memory, for tests and for running without a database.
//!
//! Every write and every deletion is kept as an operation in order; what the
//! store holds is what replaying them gives.
use vstd::prelude::*;
use crate::records::Record;
use crate::store::Store;
use crate::text::{chars_of, str_equal};

verus! {

/// One recorded operation: a record put in a cell, or a row and column
/// erased at every index.
#[derive(Debug)]
pub enum Op {
    Put(String, String, u64, Record),
    Erase(String, String),
}

type Db = Map<crate::store::CellKey, crate::records::RecordView>;

pub open spec fn apply(m: Db, op: Op) -> Db {
    match op {
        Op::Put(row, column, index, record) => m.insert((row@, column@, index), record@),
        Op::Erase(row, column) => crate::store::without_cell(m, row@, column@),
    }
}

/// What replaying `ops` from an empty store gives.
pub open spec fn replay(ops: Seq<Op>) -> Db
    decreases ops.len(),
{
    if ops.len() == 0 {
        Map::empty()
    } else {
        apply(replay(ops.drop_last()), ops.last())
    }
}

/// Whether `op` puts a record in cell `k`.
pub open spec fn puts(op: Op, k: crate::store::CellKey) -> bool {
    match op {
        Op::Put(row, column, index, _) => (row@, column@, index) == k,
        Op::Erase(_, _) => false,
    }
}

proof fn lemma_replay_from_put(ops: Seq<Op>, k: crate::store::CellKey)
    requires
        replay(ops).contains_key(k),
    ensures
        exists|j: int| 0 <= j < ops.len() && puts(#[trigger] ops[j], k),
    decreases ops.len(),
{
    if ops.len() > 0 {
        if puts(ops.last(), k) {
            assert(puts(ops[ops.len() - 1], k));
        } else {
            lemma_replay_from_put(ops.drop_last(), k);
            let j = choose|j: int| 0 <= j < ops.drop_last().len() && puts(#[trigger] ops.drop_last()[j], k);
            assert(ops[j] == ops.drop_last()[j]);
        }
    }
}

pub type IdEntry = (String, String, u64);

pub open spec fn id_key(e: IdEntry) -> (Seq<char>, Seq<char>) {
    (e.0@, e.1@)
}

pub open spec fn ids_unique(v: Seq<IdEntry>) -> bool {
    forall|i: int, j: int| 0 <= i < j < v.len() ==> id_key(#[trigger] v[i]) != id_key(#[trigger] v[j])
}

pub open spec fn has_id(v: Seq<IdEntry>, k: (Seq<char>, Seq<char>)) -> bool {
    exists|i: int| 0 <= i < v.len() && id_key(#[trigger] v[i]) == k
}

/// The last id of each counter of `v`.
pub open spec fn ids_map(v: Seq<IdEntry>) -> Map<(Seq<char>, Seq<char>), u64> {
    Map::new(
        |k: (Seq<char>, Seq<char>)| has_id(v, k),
        |k: (Seq<char>, Seq<char>)| v[choose|i: int| 0 <= i < v.len() && id_key(#[trigger] v[i]) == k].2,
    )
}

proof fn lemma_ids_map_at(v: Seq<IdEntry>, i: int)
    requires
        ids_unique(v),
        0 <= i < v.len(),
    ensures
        ids_map(v).contains_key(id_key(v[i])),
        ids_map(v)[id_key(v[i])] == v[i].2,
{
    assert(has_id(v, id_key(v[i])));
    let j = choose|j: int| 0 <= j < v.len() && id_key(#[trigger] v[j]) == id_key(v[i]);
    if j < i {
        assert(id_key(v[j]) != id_key(v[i]));
    } else if i < j {
        assert(id_key(v[i]) != id_key(v[j]));
    }
}

proof fn lemma_ids_map_eq(v: Seq<IdEntry>, m: Map<(Seq<char>, Seq<char>), u64>)
    requires
        ids_unique(v),
        forall|i: int| 0 <= i < v.len() ==> m.contains_key(id_key(#[trigger] v[i])) && m[id_key(v[i])] == v[i].2,
        forall|k: (Seq<char>, Seq<char>)| #[trigger] m.contains_key(k) ==> has_id(v, k),
    ensures
        ids_map(v) == m,
{
    assert forall|k: (Seq<char>, Seq<char>)| #[trigger] ids_map(v).contains_key(k) == m.contains_key(k) by {
        if has_id(v, k) {
            let i = choose|i: int| 0 <= i < v.len() && id_key(#[trigger] v[i]) == k;
        }
    }
    assert forall|k: (Seq<char>, Seq<char>)| #[trigger] ids_map(v).contains_key(k) implies ids_map(v)[k] == m[k] by {
        let i = choose|i: int| 0 <= i < v.len() && id_key(#[trigger] v[i]) == k;
        lemma_ids_map_at(v, i);
    }
    assert(ids_map(v) =~= m);
}

/// The operations so far, and the counters, one per namespace and seed.
pub struct MemStore {
    ops: Vec<Op>,
    ids: Vec<IdEntry>,
}

fn prefix_of(prefix: &str, s: &str) -> (r: bool)
    ensures
        r == prefix@.is_prefix_of(s@),
{
    let p = chars_of(prefix);
    let t = chars_of(s);
    if p.len() > t.len() {
        return false;
    }
    let mut i: usize = 0;
    while i < p.len()
        invariant
            p@ == prefix@,
            t@ == s@,
            p@.len() <= t@.len(),
            i <= p@.len(),
            forall|k: int| 0 <= k < i ==> p@[k] == t@[k],
        decreases p@.len() - i,
    {
        if p[i] != t[i] {
            assert(!p@.is_prefix_of(t@)) by {
                if p@.is_prefix_of(t@) {
                    assert(p@[i as int] == t@.subrange(0, p@.len() as int)[i as int]);
                }
            }
            return false;
        }
        i = i + 1;
    }
    assert(p@ =~= t@.subrange(0, p@.len() as int));
    true
}

impl MemStore {
    pub fn new() -> (r: MemStore)
        ensures
            r.inv(),
            r.records() == Map::<crate::store::CellKey, crate::records::RecordView>::empty(),
            r.last_ids() == Map::<(Seq<char>, Seq<char>), u64>::empty(),
    {
        let r = MemStore { ops: Vec::new(), ids: Vec::new() };
        assert(r.last_ids() =~= Map::<(Seq<char>, Seq<char>), u64>::empty());
        r
    }

    fn find_id(&self, namespace: &str, seed: &str) -> (r: Option<usize>)
        ensures
            match r {
                Some(i) => i < self.ids@.len() && id_key(self.ids@[i as int]) == (namespace@, seed@),
                None => !has_id(self.ids@, (namespace@, seed@)),
            },
    {
        let mut i: usize = 0;
        while i < self.ids.len()
            invariant
                i <= self.ids@.len(),
                forall|k: int| 0 <= k < i ==> id_key(#[trigger] self.ids@[k]) != (namespace@, seed@),
            decreases self.ids@.len() - i,
        {
            if str_equal(self.ids[i].0.as_str(), namespace) && str_equal(self.ids[i].1.as_str(), seed) {
                return Some(i);
            }
            i = i + 1;
        }
        None
    }

    /// The columns of `row` that some put at `index` under `prefix` names,
    /// each once.
    #[verifier::spinoff_prover]
    fn candidate_columns(&self, row: &str, prefix: &str, index: u64) -> (r: Vec<String>)
        ensures
            forall|a: int, b: int| 0 <= a < b < r@.len() ==> (#[trigger] r@[a])@ != (#[trigger] r@[b])@,
            forall|a: int| 0 <= a < r@.len() ==> prefix@.is_prefix_of((#[trigger] r@[a])@),
            forall|c: Seq<char>|
                prefix@.is_prefix_of(c) && (exists|j: int|
                    0 <= j < self.ops@.len() && puts(#[trigger] self.ops@[j], (row@, c, index))) ==> exists|a: int|
                    0 <= a < r@.len() && (#[trigger] r@[a])@ == c,
    {
        let mut r: Vec<String> = Vec::new();
        let mut i: usize = 0;
        while i < self.ops.len()
            invariant
                i <= self.ops@.len(),
                forall|a: int, b: int| 0 <= a < b < r@.len() ==> (#[trigger] r@[a])@ != (#[trigger] r@[b])@,
                forall|a: int| 0 <= a < r@.len() ==> prefix@.is_prefix_of((#[trigger] r@[a])@),
                forall|j: int|
                    0 <= j < i && (#[trigger] self.ops@[j]) is Put && self.ops@[j]->Put_0@ == row@
                        && self.ops@[j]->Put_2 == index && prefix@.is_prefix_of(self.ops@[j]->Put_1@) ==> exists|a: int|
                        0 <= a < r@.len() && (#[trigger] r@[a])@ == self.ops@[j]->Put_1@,
            decreases self.ops@.len() - i,
        {
            let ghost r0 = r@;
            match &self.ops[i] {
                Op::Put(rw, col, idx, _) => {
                    if *idx == index && str_equal(rw.as_str(), row) && prefix_of(prefix, col.as_str()) {
                        let mut seen = false;
                        let mut a: usize = 0;
                        while a < r.len()
                            invariant
                                a <= r@.len(),
                                seen ==> exists|b: int| 0 <= b < r@.len() && (#[trigger] r@[b])@ == col@,
                                !seen ==> forall|b: int| 0 <= b < a ==> (#[trigger] r@[b])@ != col@,
                            decreases r@.len() - a,
                        {
                            if r[a] == *col {
                                seen = true;
                            }
                            a = a + 1;
                        }
                        if !seen {
                            r.push(col.clone());
                            proof {
                                assert forall|j: int|
                                    0 <= j < i + 1 && (#[trigger] self.ops@[j]) is Put && self.ops@[j]->Put_0@ == row@
                                        && self.ops@[j]->Put_2 == index && prefix@.is_prefix_of(self.ops@[j]->Put_1@)
                                        implies exists|b: int|
                                        0 <= b < r@.len() && (#[trigger] r@[b])@ == self.ops@[j]->Put_1@ by {
                                    if j < i {
                                        let b = choose|b: int| 0 <= b < r0.len() && (#[trigger] r0[b])@ == self.ops@[j]->Put_1@;
                                        assert(r@[b] == r0[b]);
                                    } else {
                                        assert(r@[r0.len() as int]@ == col@);
                                    }
                                }
                            }
                        }
                    }
                },
                Op::Erase(_, _) => {},
            }
            i = i + 1;
        }
        proof {
            assert forall|c: Seq<char>|
                prefix@.is_prefix_of(c) && (exists|j: int|
                    0 <= j < self.ops@.len() && puts(#[trigger] self.ops@[j], (row@, c, index))) implies exists|a: int|
                    0 <= a < r@.len() && (#[trigger] r@[a])@ == c by {
                let j = choose|j: int| 0 <= j < self.ops@.len() && puts(#[trigger] self.ops@[j], (row@, c, index));
                assert(self.ops@[j] is Put);
            }
        }
        r
    }
}

impl Store for MemStore {
    closed spec fn inv(&self) -> bool {
        ids_unique(self.ids@)
    }

    closed spec fn records(&self) -> Map<crate::store::CellKey, crate::records::RecordView> {
        replay(self.ops@)
    }

    closed spec fn last_ids(&self) -> Map<(Seq<char>, Seq<char>), u64> {
        ids_map(self.ids@)
    }

    fn read_record(&self, row: &str, column: &str, index: u64) -> (r: Option<Record>) {
        let ghost k = (row@, column@, index);
        let mut i: usize = self.ops.len();
        assert(self.ops@.subrange(0, i as int) =~= self.ops@);
        while i > 0
            invariant
                k == (row@, column@, index),
                i <= self.ops@.len(),
                crate::store::cell(replay(self.ops@), k) == crate::store::cell(replay(self.ops@.subrange(0, i as int)), k),
            decreases i,
        {
            let ghost sub = self.ops@.subrange(0, i as int);
            assert(sub.drop_last() =~= self.ops@.subrange(0, i - 1));
            assert(sub.last() == self.ops@[i - 1]);
            match &self.ops[i - 1] {
                Op::Put(rw, col, idx, rec) => {
                    if *idx == index && str_equal(rw.as_str(), row) && str_equal(col.as_str(), column) {
                        assert(replay(sub) == apply(replay(sub.drop_last()), sub.last()));
                        return Some(rec.duplicate());
                    }
                },
                Op::Erase(rw, col) => {
                    if str_equal(rw.as_str(), row) && str_equal(col.as_str(), column) {
                        assert(replay(sub) == crate::store::without_cell(replay(sub.drop_last()), row@, column@));
                        assert(!replay(sub).contains_key(k));
                        return None;
                    }
                },
            }
            i = i - 1;
        }
        None
    }

    fn write_record(&mut self, row: &str, column: &str, index: u64, record: Record) {
        let ghost o = self.ops@;
        self.ops.push(Op::Put(row.to_owned(), column.to_owned(), index, record));
        assert(self.ops@.drop_last() =~= o);
    }

    fn delete_record(&mut self, row: &str, column: &str) {
        let ghost o = self.ops@;
        self.ops.push(Op::Erase(row.to_owned(), column.to_owned()));
        assert(self.ops@.drop_last() =~= o);
    }

    #[verifier::spinoff_prover]
    fn scan(&self, row: &str, prefix: &str, index: u64) -> (r: Vec<(String, Record)>) {
        let columns = self.candidate_columns(row, prefix, index);
        let ghost m = replay(self.ops@);
        let mut r: Vec<(String, Record)> = Vec::new();
        let mut a: usize = 0;
        while a < columns.len()
            invariant
                self.inv(),
                m == replay(self.ops@),
                a <= columns@.len(),
                forall|x: int, y: int| 0 <= x < y < columns@.len() ==> (#[trigger] columns@[x])@ != (#[trigger] columns@[y])@,
                forall|x: int| 0 <= x < columns@.len() ==> prefix@.is_prefix_of((#[trigger] columns@[x])@),
                forall|x: int|
                    0 <= x < r@.len() ==> exists|b: int| 0 <= b < a && (#[trigger] columns@[b])@ == (#[trigger] r@[x]).0@,
                forall|x: int|
                    0 <= x < r@.len() ==> crate::store::cell(m, (row@, (#[trigger] r@[x]).0@, index)) == Some(r@[x].1@),
                forall|b: int|
                    0 <= b < a && m.contains_key((row@, (#[trigger] columns@[b])@, index)) ==> exists|x: int|
                        0 <= x < r@.len() && (#[trigger] r@[x]).0@ == columns@[b]@,
                forall|x: int, y: int| 0 <= x < y < r@.len() ==> (#[trigger] r@[x]).0@ != (#[trigger] r@[y]).0@,
            decreases columns@.len() - a,
        {
            let ghost r0 = r@;
            match self.read_record(row, columns[a].as_str(), index) {
                Some(rec) => {
                    r.push((columns[a].clone(), rec));
                    proof {
                        assert forall|x: int|
                            0 <= x < r@.len() implies exists|b: int| 0 <= b < a + 1 && (#[trigger] columns@[b])@ == (
                            #[trigger] r@[x]).0@ by {
                            if x < r0.len() {
                                let b = choose|b: int| 0 <= b < a && (#[trigger] columns@[b])@ == r0[x].0@;
                                assert(r@[x] == r0[x]);
                            } else {
                                assert(columns@[a as int]@ == r@[x].0@);
                            }
                        }
                        assert forall|x: int|
                            0 <= x < r@.len() implies crate::store::cell(m, (row@, (#[trigger] r@[x]).0@, index)) == Some(
                                r@[x].1@,
                            ) by {
                            if x < r0.len() {
                                assert(r@[x] == r0[x]);
                            }
                        }
                        assert forall|b: int|
                            0 <= b < a + 1 && m.contains_key((row@, (#[trigger] columns@[b])@, index)) implies exists|x: int|
                                0 <= x < r@.len() && (#[trigger] r@[x]).0@ == columns@[b]@ by {
                            if b < a {
                                let x = choose|x: int| 0 <= x < r0.len() && (#[trigger] r0[x]).0@ == columns@[b]@;
                                assert(r@[x] == r0[x]);
                            } else {
                                assert(r@[r0.len() as int].0@ == columns@[b]@);
                            }
                        }
                        assert forall|x: int, y: int| 0 <= x < y < r@.len() implies (#[trigger] r@[x]).0@ != (
                            #[trigger] r@[y]).0@ by {
                            assert(r@[x] == r0[x]);
                            if y == r0.len() {
                                let b = choose|b: int| 0 <= b < a && (#[trigger] columns@[b])@ == r0[x].0@;
                            } else {
                                assert(r@[y] == r0[y]);
                            }
                        }
                    }
                },
                None => {},
            }
            a = a + 1;
        }
        proof {
            let fv = crate::store::scan_view(r@);
            assert forall|x: int| 0 <= x < fv.len() implies ({
                let (c, rec) = #[trigger] fv[x];
                &&& prefix@.is_prefix_of(c)
                &&& crate::store::cell(m, (row@, c, index)) == Some(rec)
            }) by {
                let b = choose|b: int| 0 <= b < a && (#[trigger] columns@[b])@ == r@[x].0@;
            }
            assert forall|c: Seq<char>|
                prefix@.is_prefix_of(c) && #[trigger] m.contains_key((row@, c, index)) implies exists|x: int|
                    0 <= x < fv.len() && (#[trigger] fv[x]).0 == c by {
                lemma_replay_from_put(self.ops@, (row@, c, index));
                let b = choose|b: int| 0 <= b < columns@.len() && (#[trigger] columns@[b])@ == c;
                let x = choose|x: int| 0 <= x < r@.len() && (#[trigger] r@[x]).0@ == columns@[b]@;
                assert(fv[x].0 == c);
            }
            assert forall|x: int, y: int| 0 <= x < y < fv.len() implies (#[trigger] fv[x]).0 != (#[trigger] fv[y]).0 by {
                assert(fv[x].0 == r@[x].0@);
                assert(fv[y].0 == r@[y].0@);
            }
        }
        r
    }

    fn reserve_id(&mut self, namespace: &str, seed: &str) -> (r: u64) {
        let ghost v0 = self.ids@;
        let ghost key = (namespace@, seed@);
        let r: u64;
        match self.find_id(namespace, seed) {
            Some(i) => {
                proof {
                    lemma_ids_map_at(v0, i as int);
                }
                r = self.ids[i].2 + 1;
                self.ids.set(i, (namespace.to_owned(), seed.to_owned(), r));
            },
            None => {
                r = 1;
                self.ids.push((namespace.to_owned(), seed.to_owned(), r));
            },
        }
        proof {
            let v1 = self.ids@;
            let m1 = ids_map(v0).insert(key, r);
            assert forall|i: int| 0 <= i < v1.len() implies m1.contains_key(id_key(#[trigger] v1[i])) && m1[id_key(v1[i])] == v1[i].2 by {
                if id_key(v1[i]) != key {
                    assert(v1[i] == v0[i]);
                    lemma_ids_map_at(v0, i);
                }
            }
            assert forall|k: (Seq<char>, Seq<char>)| #[trigger] m1.contains_key(k) implies has_id(v1, k) by {
                if k == key {
                    if v1.len() > v0.len() {
                        assert(id_key(v1[v0.len() as int]) == k);
                    } else {
                        let i = choose|i: int| 0 <= i < v0.len() && id_key(#[trigger] v0[i]) == k;
                        assert(id_key(v1[i]) == k);
                    }
                } else {
                    let i = choose|i: int| 0 <= i < v0.len() && id_key(#[trigger] v0[i]) == k;
                    assert(v1[i] == v0[i]);
                }
            }
            lemma_ids_map_eq(v1, m1);
        }
        r
    }

    fn last_id(&self, namespace: &str, seed: &str) -> (r: u64) {
        match self.find_id(namespace, seed) {
            Some(i) => {
                proof {
                    lemma_ids_map_at(self.ids@, i as int);
                }
                self.ids[i].2
            },
            None => 0,
        }
    }
}

} // verus!
