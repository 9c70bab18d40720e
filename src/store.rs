//! The two collaborators the repository is built on: the key-value store that
//! holds its records, and the remote peer that owns the canonical history.
use vstd::prelude::*;
use crate::records::{Change, File, FileIdentifier, Record, SnapshotResponse, SubmitResponse};

verus! {

/// A cell of the store: row, column and index.
pub type CellKey = (Seq<char>, Seq<char>, u64);

/// What `records` holds at `key`, if anything.
pub open spec fn cell(records: Map<CellKey, crate::records::RecordView>, key: CellKey) -> Option<crate::records::RecordView> {
    if records.contains_key(key) {
        Some(records[key])
    } else {
        None
    }
}

/// `records` without any cell of `row` and `column`, at whatever index.
pub open spec fn without_cell(records: Map<CellKey, crate::records::RecordView>, row: Seq<char>, column: Seq<char>) -> Map<
    CellKey,
    crate::records::RecordView,
> {
    Map::new(|k: CellKey| records.contains_key(k) && !(k.0 == row && k.1 == column), |k: CellKey| records[k])
}

/// The last id handed out for `namespace` and `seed`; zero before the first.
pub open spec fn last_id_of(ids: Map<(Seq<char>, Seq<char>), u64>, namespace: Seq<char>, seed: Seq<char>) -> u64 {
    if ids.contains_key((namespace, seed)) {
        ids[(namespace, seed)]
    } else {
        0
    }
}

/// `found` is exactly the set of cells of `row` at `index` whose column starts
/// with `prefix`, each once, with their records.
pub open spec fn scan_result(
    records: Map<CellKey, crate::records::RecordView>,
    row: Seq<char>,
    prefix: Seq<char>,
    index: u64,
    found: Seq<(Seq<char>, crate::records::RecordView)>,
) -> bool {
    &&& forall|i: int|
        0 <= i < found.len() ==> {
            let (c, r) = #[trigger] found[i];
            &&& prefix.is_prefix_of(c)
            &&& cell(records, (row, c, index)) == Some(r)
        }
    &&& forall|c: Seq<char>|
        prefix.is_prefix_of(c) && #[trigger] records.contains_key((row, c, index)) ==> exists|i: int|
            0 <= i < found.len() && (#[trigger] found[i]).0 == c
    &&& forall|i: int, j: int| 0 <= i < j < found.len() ==> (#[trigger] found[i]).0 != (#[trigger] found[j]).0
}

pub open spec fn scan_view(v: Seq<(String, Record)>) -> Seq<(Seq<char>, crate::records::RecordView)> {
    v.map_values(|e: (String, Record)| (e.0@, e.1@))
}

/// A key-value store of records by row, column and index, with counters that
/// hand out ids.
pub trait Store {
    /// The store's own consistency, kept by every operation.
    spec fn inv(&self) -> bool;

    /// Every record held, by cell.
    spec fn records(&self) -> Map<CellKey, crate::records::RecordView>;

    /// The last id handed out, by namespace and seed.
    spec fn last_ids(&self) -> Map<(Seq<char>, Seq<char>), u64>;

    /// The record in one cell.
    fn read_record(&self, row: &str, column: &str, index: u64) -> (r: Option<Record>)
        requires
            self.inv(),
        ensures
            match r {
                Some(rec) => cell(self.records(), (row@, column@, index)) == Some(rec@),
                None => cell(self.records(), (row@, column@, index)) is None,
            },
    ;

    /// Puts `record` in one cell, replacing what was there.
    fn write_record(&mut self, row: &str, column: &str, index: u64, record: Record)
        requires
            old(self).inv(),
        ensures
            final(self).inv(),
            final(self).records() == old(self).records().insert((row@, column@, index), record@),
            final(self).last_ids() == old(self).last_ids(),
    ;

    /// Removes the record of `row` and `column` at every index.
    fn delete_record(&mut self, row: &str, column: &str)
        requires
            old(self).inv(),
        ensures
            final(self).inv(),
            final(self).records() == without_cell(old(self).records(), row@, column@),
            final(self).last_ids() == old(self).last_ids(),
    ;

    /// The cells of `row` at `index` whose column starts with `prefix`.
    fn scan(&self, row: &str, prefix: &str, index: u64) -> (r: Vec<(String, Record)>)
        requires
            self.inv(),
        ensures
            scan_result(self.records(), row@, prefix@, index, scan_view(r@)),
    ;

    /// Hands out the next id of `namespace` and `seed`: one more than the last.
    fn reserve_id(&mut self, namespace: &str, seed: &str) -> (r: u64)
        requires
            old(self).inv(),
            last_id_of(old(self).last_ids(), namespace@, seed@) < u64::MAX,
        ensures
            final(self).inv(),
            r == last_id_of(old(self).last_ids(), namespace@, seed@) + 1,
            final(self).last_ids() == old(self).last_ids().insert((namespace@, seed@), r),
            final(self).records() == old(self).records(),
    ;

    /// The last id handed out for `namespace` and `seed` (zero if none).
    fn last_id(&self, namespace: &str, seed: &str) -> (r: u64)
        requires
            self.inv(),
        ensures
            r == last_id_of(self.last_ids(), namespace@, seed@),
    ;
}

/// The peer that owns the canonical history a change may be based on.
pub trait RemotePeer {
    /// The file the peer holds for a file identifier; index zero names the
    /// peer's head as the peer stands while this library holds it.
    spec fn file_at(&self, id: u64, filename: Seq<char>, index: u64) -> crate::records::FileView;

    /// The listing the peer gives for a directory identifier.
    spec fn listing_at(&self, id: u64, directory: Seq<char>, index: u64) -> Seq<crate::records::FileView>;

    fn read(&self, ident: &FileIdentifier) -> (r: File)
        ensures
            r@ == self.file_at(ident.id, ident.filename@, ident.index),
    ;

    fn list_files(&self, ident: &FileIdentifier) -> (r: Vec<File>)
        ensures
            crate::records::files_view(r@) == self.listing_at(ident.id, ident.filename@, ident.index),
    ;

    /// The id of the change at the head of the peer's history.
    spec fn head_id(&self) -> u64;

    /// The peer's answer to a snapshot of `change`.
    spec fn snapshot_answer(&self, change: crate::records::ChangeView) -> SnapshotResponse;

    /// The peer's answer to a submit of `change`.
    spec fn submit_answer(&self, change: crate::records::ChangeView) -> SubmitResponse;

    /// The change at the head of the peer's history.
    fn get_latest_change(&self) -> (r: Change)
        ensures
            r.id == self.head_id(),
    ;

    fn snapshot(&self, change: &Change) -> (r: SnapshotResponse)
        ensures
            r == self.snapshot_answer(change@),
    ;

    fn submit(&self, change: &Change) -> (r: SubmitResponse)
        ensures
            r == self.submit_answer(change@),
    ;
}

} // verus!
