//! A remote peer that serves one fixed tree of files, with fixed answers to
//! snapshots and submits: for tests and for running offline.
use vstd::prelude::*;
use crate::keyspace::{normalize_directory, parent_directory};
use crate::records::{Change, File, FileIdentifier, SnapshotResponse, SubmitResponse};
use crate::store::RemotePeer;
use crate::text::str_equal;

verus! {

/// The first file of `files` named `name`, marked found; the empty file
/// where there is none.
pub open spec fn first_named(files: Seq<crate::records::FileView>, name: Seq<char>) -> crate::records::FileView
    decreases files.len(),
{
    if files.len() == 0 {
        crate::records::empty_file()
    } else if files[0].filename == name {
        crate::repo::marked_found(files[0])
    } else {
        first_named(files.drop_first(), name)
    }
}

/// The files of `files` directly under directory `dir`, in order.
pub open spec fn directly_under(files: Seq<crate::records::FileView>, dir: Seq<char>) -> Seq<crate::records::FileView>
    decreases files.len(),
{
    if files.len() == 0 {
        Seq::empty()
    } else {
        let rest = directly_under(files.drop_last(), dir);
        if crate::keyspace::normal_directory(crate::keyspace::parent_of(files.last().filename))
            == crate::keyspace::normal_directory(dir) {
            rest.push(files.last())
        } else {
            rest
        }
    }
}

/// A peer holding one fixed tree: every frame reads the same files.
pub struct StaticPeer {
    pub files: Vec<File>,
    pub latest: u64,
    pub snapshot_change_id: u64,
    pub submit_id: u64,
}

impl StaticPeer {
    /// A peer with no files whose head is `latest`, and whose snapshots and
    /// submits answer zero.
    pub fn new(latest: u64) -> (r: StaticPeer)
        ensures
            r.files@.len() == 0,
            r.latest == latest,
            r.snapshot_change_id == 0,
            r.submit_id == 0,
    {
        StaticPeer { files: Vec::new(), latest, snapshot_change_id: 0, submit_id: 0 }
    }
}

impl RemotePeer for StaticPeer {
    open spec fn file_at(&self, id: u64, filename: Seq<char>, index: u64) -> crate::records::FileView {
        first_named(crate::records::files_view(self.files@), filename)
    }

    open spec fn listing_at(&self, id: u64, directory: Seq<char>, index: u64) -> Seq<crate::records::FileView> {
        directly_under(crate::records::files_view(self.files@), directory)
    }

    open spec fn head_id(&self) -> u64 {
        self.latest
    }

    open spec fn snapshot_answer(&self, change: crate::records::ChangeView) -> SnapshotResponse {
        SnapshotResponse { change_id: self.snapshot_change_id, snapshot_id: 1 }
    }

    open spec fn submit_answer(&self, change: crate::records::ChangeView) -> SubmitResponse {
        SubmitResponse { id: self.submit_id, status: 0 }
    }

    fn read(&self, ident: &FileIdentifier) -> (r: File) {
        let ghost fv = crate::records::files_view(self.files@);
        let mut i: usize = 0;
        assert(fv.subrange(0, fv.len() as int) =~= fv);
        while i < self.files.len()
            invariant
                fv == crate::records::files_view(self.files@),
                i <= self.files@.len(),
                first_named(fv, ident.filename@) == first_named(fv.subrange(i as int, fv.len() as int), ident.filename@),
            decreases self.files@.len() - i,
        {
            let ghost rest = fv.subrange(i as int, fv.len() as int);
            assert(rest.drop_first() =~= fv.subrange(i + 1, fv.len() as int));
            assert(rest[0] == self.files@[i as int]@);
            if str_equal(self.files[i].filename.as_str(), ident.filename.as_str()) {
                let mut f = self.files[i].duplicate();
                f.found = true;
                return f;
            }
            i = i + 1;
        }
        File::new()
    }

    fn list_files(&self, ident: &FileIdentifier) -> (r: Vec<File>) {
        let dir = normalize_directory(ident.filename.as_str());
        let ghost fv = crate::records::files_view(self.files@);
        let mut r: Vec<File> = Vec::new();
        let mut i: usize = 0;
        while i < self.files.len()
            invariant
                fv == crate::records::files_view(self.files@),
                dir@ == crate::keyspace::normal_directory(ident.filename@),
                i <= self.files@.len(),
                crate::records::files_view(r@) == directly_under(fv.subrange(0, i as int), ident.filename@),
            decreases self.files@.len() - i,
        {
            let ghost pre = fv.subrange(0, i + 1);
            assert(pre.drop_last() =~= fv.subrange(0, i as int));
            assert(pre.last() == self.files@[i as int]@);
            let parent = parent_directory(self.files[i].filename.as_str());
            let under = normalize_directory(parent.as_str());
            if str_equal(under.as_str(), dir.as_str()) {
                let ghost before = crate::records::files_view(r@);
                r.push(self.files[i].duplicate());
                assert(crate::records::files_view(r@) =~= before.push(self.files@[i as int]@));
            }
            i = i + 1;
        }
        assert(fv.subrange(0, fv.len() as int) =~= fv);
        r
    }

    fn get_latest_change(&self) -> (r: Change) {
        let mut c = Change::new();
        c.id = self.latest;
        c
    }

    fn snapshot(&self, change: &Change) -> (r: SnapshotResponse) {
        SnapshotResponse { change_id: self.snapshot_change_id, snapshot_id: 1 }
    }

    fn submit(&self, change: &Change) -> (r: SubmitResponse) {
        SubmitResponse { id: self.submit_id, status: 0 }
    }
}

} // verus!
