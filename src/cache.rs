//! A bounded cache of answers the remote peer gave, by query.
use vstd::prelude::*;
use crate::records::{copy_files, File};

verus! {

/// What was asked of the remote peer.
#[derive(Debug)]
pub enum ReadQuery {
    Read(u64, String, u64),
    ListFiles(u64, String, u64),
}

pub ghost enum QueryView {
    Read(u64, Seq<char>, u64),
    ListFiles(u64, Seq<char>, u64),
}

impl View for ReadQuery {
    type V = QueryView;

    open spec fn view(&self) -> QueryView {
        match self {
            ReadQuery::Read(id, path, index) => QueryView::Read(*id, path@, *index),
            ReadQuery::ListFiles(id, path, index) => QueryView::ListFiles(*id, path@, *index),
        }
    }
}

/// What the remote peer answered.
#[derive(Debug)]
pub enum ReadResponse {
    Read(File),
    ListFiles(Vec<File>),
}

pub ghost enum ResponseView {
    Read(crate::records::FileView),
    ListFiles(Seq<crate::records::FileView>),
}

impl View for ReadResponse {
    type V = ResponseView;

    open spec fn view(&self) -> ResponseView {
        match self {
            ReadResponse::Read(f) => ResponseView::Read(f@),
            ReadResponse::ListFiles(v) => ResponseView::ListFiles(crate::records::files_view(v@)),
        }
    }
}

impl ReadQuery {
    pub fn same_as(&self, other: &ReadQuery) -> (r: bool)
        ensures
            r == (self@ == other@),
    {
        match (self, other) {
            (ReadQuery::Read(a, b, c), ReadQuery::Read(x, y, z)) => *a == *x && *b == *y && *c == *z,
            (ReadQuery::ListFiles(a, b, c), ReadQuery::ListFiles(x, y, z)) => *a == *x && *b == *y && *c
                == *z,
            _ => false,
        }
    }

    pub fn duplicate(&self) -> (r: ReadQuery)
        ensures
            r@ == self@,
    {
        match self {
            ReadQuery::Read(a, b, c) => ReadQuery::Read(*a, b.clone(), *c),
            ReadQuery::ListFiles(a, b, c) => ReadQuery::ListFiles(*a, b.clone(), *c),
        }
    }
}

impl ReadResponse {
    pub fn duplicate(&self) -> (r: ReadResponse)
        ensures
            r@ == self@,
    {
        match self {
            ReadResponse::Read(f) => ReadResponse::Read(f.duplicate()),
            ReadResponse::ListFiles(v) => ReadResponse::ListFiles(copy_files(v)),
        }
    }
}

/// A cache of at most `capacity` answers, one per query. Once full, the
/// oldest answer makes room for a new one.
pub struct QueryCache {
    entries: Vec<(ReadQuery, ReadResponse)>,
    capacity: usize,
}

impl QueryCache {
    /// The cached answers, oldest first.
    pub closed spec fn entries(&self) -> Seq<(QueryView, ResponseView)> {
        self.entries@.map_values(|e: (ReadQuery, ReadResponse)| (e.0@, e.1@))
    }

    pub closed spec fn capacity(&self) -> nat {
        self.capacity as nat
    }

    /// At most `capacity` answers, no query twice.
    pub open spec fn wf(&self) -> bool {
        &&& self.entries().len() <= self.capacity()
        &&& forall|i: int, j: int|
            0 <= i < j < self.entries().len() ==> (#[trigger] self.entries()[i]).0 != (
            #[trigger] self.entries()[j]).0
    }

    /// Whether `q` has an answer here.
    pub open spec fn holds(&self, q: QueryView) -> bool {
        exists|i: int| 0 <= i < self.entries().len() && (#[trigger] self.entries()[i]).0 == q
    }

    pub fn new(capacity: usize) -> (r: QueryCache)
        ensures
            r.wf(),
            r.entries().len() == 0,
            r.capacity() == capacity,
    {
        let r = QueryCache { entries: Vec::new(), capacity };
        assert(r.entries() =~= Seq::<(QueryView, ResponseView)>::empty());
        r
    }

    fn position(&self, q: &ReadQuery) -> (r: Option<usize>)
        ensures
            match r {
                Some(i) => i < self.entries().len() && self.entries()[i as int].0 == q@,
                None => !self.holds(q@),
            },
    {
        let mut i: usize = 0;
        while i < self.entries.len()
            invariant
                i <= self.entries@.len(),
                forall|k: int| 0 <= k < i ==> (#[trigger] self.entries()[k]).0 != q@,
            decreases self.entries@.len() - i,
        {
            if self.entries[i].0.same_as(q) {
                return Some(i);
            }
            i = i + 1;
        }
        None
    }

    /// The cached answer to `q`, if there is one.
    pub fn get(&self, q: &ReadQuery) -> (r: Option<ReadResponse>)
        ensures
            match r {
                Some(v) => exists|i: int|
                    0 <= i < self.entries().len() && #[trigger] self.entries()[i] == (q@, v@),
                None => !self.holds(q@),
            },
    {
        match self.position(q) {
            Some(i) => {
                let v = self.entries[i].1.duplicate();
                assert(self.entries()[i as int] == (q@, v@));
                Some(v)
            },
            None => None,
        }
    }

    /// Records `v` as the answer to `q`, dropping any earlier answer to `q`
    /// and, when full, the oldest answer.
    pub fn insert(&mut self, q: ReadQuery, v: ReadResponse)
        requires
            old(self).wf(),
        ensures
            final(self).wf(),
            final(self).capacity() == old(self).capacity(),
            old(self).capacity() > 0 ==> exists|i: int|
                0 <= i < final(self).entries().len() && #[trigger] final(self).entries()[i] == (q@, v@),
            forall|i: int|
                0 <= i < final(self).entries().len() ==> #[trigger] final(self).entries()[i] == (q@, v@)
                    || old(self).entries().contains(final(self).entries()[i]),
    {
        if self.capacity == 0 {
            return;
        }
        let ghost e0 = self.entries();
        let ghost mut skip: int = e0.len() as int;
        match self.position(&q) {
            Some(i) => {
                self.entries.remove(i);
                proof {
                    skip = i as int;
                }
            },
            None => {},
        }
        let ghost e1 = self.entries();
        assert(forall|k: int|
            0 <= k < e1.len() ==> #[trigger] e1[k] == e0[if k < skip { k } else { k + 1 }]);
        assert(forall|k: int| 0 <= k < e1.len() ==> (#[trigger] e1[k]).0 != q@);
        if self.entries.len() >= self.capacity {
            self.entries.remove(0);
        }
        let ghost e2 = self.entries();
        assert(forall|k: int|
            0 <= k < e2.len() ==> #[trigger] e2[k] == e1[if e2.len() < e1.len() { k + 1 } else { k }]);
        assert(forall|k: int| 0 <= k < e2.len() ==> e0.contains(#[trigger] e2[k]) && e2[k].0 != q@) by {
            assert forall|k: int| 0 <= k < e2.len() implies e0.contains(#[trigger] e2[k]) && e2[k].0
                != q@ by {
                let k1 = if e2.len() < e1.len() { k + 1 } else { k };
                let k0 = if k1 < skip { k1 } else { k1 + 1 };
                assert(e2[k] == e0[k0]);
            }
        };
        self.entries.push((q, v));
        assert(self.entries() =~= e2.push((q@, v@)));
        assert(self.entries()[self.entries().len() - 1] == (q@, v@));
    }
}

} // verus!
