//! The records the repository keeps: files, changes, snapshot log entries,
//! and the views that contracts speak of.
use vstd::prelude::*;

verus! {

/// A file or directory at a path within a change, at one index.
#[derive(Debug)]
pub struct File {
    pub filename: String,
    pub contents: Vec<u8>,
    pub found: bool,
    pub deleted: bool,
    pub directory: bool,
    pub snapshot_id: u64,
    pub change_id: u64,
}

pub ghost struct FileView {
    pub filename: Seq<char>,
    pub contents: Seq<u8>,
    pub found: bool,
    pub deleted: bool,
    pub directory: bool,
    pub snapshot_id: u64,
    pub change_id: u64,
}

impl View for File {
    type V = FileView;

    open spec fn view(&self) -> FileView {
        FileView {
            filename: self.filename@,
            contents: self.contents@,
            found: self.found,
            deleted: self.deleted,
            directory: self.directory,
            snapshot_id: self.snapshot_id,
            change_id: self.change_id,
        }
    }
}

/// The file that stands for "nothing here": empty, not found.
pub open spec fn empty_file() -> FileView {
    FileView {
        filename: Seq::empty(),
        contents: Seq::empty(),
        found: false,
        deleted: false,
        directory: false,
        snapshot_id: 0,
        change_id: 0,
    }
}

pub open spec fn files_view(v: Seq<File>) -> Seq<FileView> {
    v.map_values(|f: File| f@)
}

/// A copy of `b`.
pub fn copy_bytes(b: &Vec<u8>) -> (r: Vec<u8>)
    ensures
        r@ == b@,
{
    let mut r: Vec<u8> = Vec::new();
    let mut i: usize = 0;
    while i < b.len()
        invariant
            i <= b@.len(),
            r@ == b@.subrange(0, i as int),
        decreases b@.len() - i,
    {
        r.push(b[i]);
        i = i + 1;
        assert(r@ =~= b@.subrange(0, i as int));
    }
    assert(r@ =~= b@);
    r
}

/// Whether two byte strings are the same.
pub fn bytes_equal(a: &Vec<u8>, b: &Vec<u8>) -> (r: bool)
    ensures
        r == (a@ == b@),
{
    if a.len() != b.len() {
        return false;
    }
    let mut i: usize = 0;
    while i < a.len()
        invariant
            a@.len() == b@.len(),
            i <= a@.len(),
            forall|k: int| 0 <= k < i ==> a@[k] == b@[k],
        decreases a@.len() - i,
    {
        if a[i] != b[i] {
            return false;
        }
        i = i + 1;
    }
    assert(a@ =~= b@);
    true
}

impl File {
    /// An empty file record: no name, no contents, no flags.
    pub fn new() -> (r: File)
        ensures
            r@ == empty_file(),
    {
        File {
            filename: String::new(),
            contents: Vec::new(),
            found: false,
            deleted: false,
            directory: false,
            snapshot_id: 0,
            change_id: 0,
        }
    }

    /// An independent copy.
    pub fn duplicate(&self) -> (r: File)
        ensures
            r@ == self@,
    {
        File {
            filename: self.filename.clone(),
            contents: copy_bytes(&self.contents),
            found: self.found,
            deleted: self.deleted,
            directory: self.directory,
            snapshot_id: self.snapshot_id,
            change_id: self.change_id,
        }
    }

    /// Whether the two records agree in every field.
    pub fn same_as(&self, other: &File) -> (r: bool)
        ensures
            r == (self@ == other@),
    {
        self.filename == other.filename && bytes_equal(&self.contents, &other.contents)
            && self.found == other.found && self.deleted == other.deleted && self.directory
            == other.directory && self.snapshot_id == other.snapshot_id && self.change_id
            == other.change_id
    }
}

/// Copies of every file of `v`, in order.
pub fn copy_files(v: &Vec<File>) -> (r: Vec<File>)
    ensures
        files_view(r@) == files_view(v@),
{
    let mut r: Vec<File> = Vec::new();
    let mut i: usize = 0;
    while i < v.len()
        invariant
            i <= v@.len(),
            r@.len() == i,
            forall|k: int| 0 <= k < i ==> (#[trigger] r@[k])@ == v@[k]@,
        decreases v@.len() - i,
    {
        r.push(v[i].duplicate());
        i = i + 1;
    }
    assert(files_view(r@) =~= files_view(v@));
    r
}

/// The recorded versions of one file, oldest first.
#[derive(Debug)]
pub struct FileHistory {
    pub filename: String,
    pub snapshots: Vec<File>,
}

pub ghost struct HistoryView {
    pub filename: Seq<char>,
    pub snapshots: Seq<FileView>,
}

impl View for FileHistory {
    type V = HistoryView;

    open spec fn view(&self) -> HistoryView {
        HistoryView { filename: self.filename@, snapshots: files_view(self.snapshots@) }
    }
}

pub open spec fn histories_view(v: Seq<FileHistory>) -> Seq<HistoryView> {
    v.map_values(|h: FileHistory| h@)
}

/// One entry of a change's snapshot log.
#[derive(Debug, Clone, Copy, PartialEq, Eq, Structural)]
pub struct SnapshotLogEntry {
    pub index: u64,
    pub is_rebase: bool,
    pub based_id: u64,
    pub based_index: u64,
}

/// A unit of work layered on a based frame, local or remote.
#[derive(Debug)]
pub struct Change {
    pub id: u64,
    pub friendly_name: String,
    pub based_id: u64,
    pub based_index: u64,
    pub is_based_locally: bool,
    pub remote_id: u64,
    pub last_modified_timestamp: u64,
    pub found: bool,
    pub staged_files: Vec<File>,
    pub changes: Vec<FileHistory>,
}

pub ghost struct ChangeView {
    pub id: u64,
    pub friendly_name: Seq<char>,
    pub based_id: u64,
    pub based_index: u64,
    pub is_based_locally: bool,
    pub remote_id: u64,
    pub last_modified_timestamp: u64,
    pub found: bool,
    pub staged_files: Seq<FileView>,
    pub changes: Seq<HistoryView>,
}

impl View for Change {
    type V = ChangeView;

    open spec fn view(&self) -> ChangeView {
        ChangeView {
            id: self.id,
            friendly_name: self.friendly_name@,
            based_id: self.based_id,
            based_index: self.based_index,
            is_based_locally: self.is_based_locally,
            remote_id: self.remote_id,
            last_modified_timestamp: self.last_modified_timestamp,
            found: self.found,
            staged_files: files_view(self.staged_files@),
            changes: histories_view(self.changes@),
        }
    }
}

pub open spec fn empty_change() -> ChangeView {
    ChangeView {
        id: 0,
        friendly_name: Seq::empty(),
        based_id: 0,
        based_index: 0,
        is_based_locally: false,
        remote_id: 0,
        last_modified_timestamp: 0,
        found: false,
        staged_files: Seq::empty(),
        changes: Seq::empty(),
    }
}

fn copy_histories(v: &Vec<FileHistory>) -> (r: Vec<FileHistory>)
    ensures
        histories_view(r@) == histories_view(v@),
{
    let mut r: Vec<FileHistory> = Vec::new();
    let mut i: usize = 0;
    while i < v.len()
        invariant
            i <= v@.len(),
            r@.len() == i,
            forall|k: int| 0 <= k < i ==> (#[trigger] r@[k])@ == v@[k]@,
        decreases v@.len() - i,
    {
        r.push(FileHistory { filename: v[i].filename.clone(), snapshots: copy_files(&v[i].snapshots) });
        i = i + 1;
    }
    assert(histories_view(r@) =~= histories_view(v@));
    r
}

impl Change {
    /// A change with every field empty or zero.
    pub fn new() -> (r: Change)
        ensures
            r@ == empty_change(),
    {
        let r = Change {
            id: 0,
            friendly_name: String::new(),
            based_id: 0,
            based_index: 0,
            is_based_locally: false,
            remote_id: 0,
            last_modified_timestamp: 0,
            found: false,
            staged_files: Vec::new(),
            changes: Vec::new(),
        };
        assert(r@.staged_files =~= Seq::<FileView>::empty());
        assert(r@.changes =~= Seq::<HistoryView>::empty());
        r
    }

    /// An independent copy.
    pub fn duplicate(&self) -> (r: Change)
        ensures
            r@ == self@,
    {
        Change {
            id: self.id,
            friendly_name: self.friendly_name.clone(),
            based_id: self.based_id,
            based_index: self.based_index,
            is_based_locally: self.is_based_locally,
            remote_id: self.remote_id,
            last_modified_timestamp: self.last_modified_timestamp,
            found: self.found,
            staged_files: copy_files(&self.staged_files),
            changes: copy_histories(&self.changes),
        }
    }
}

/// Names a file of a change (or a directory) at an index, for the remote peer.
#[derive(Debug)]
pub struct FileIdentifier {
    pub id: u64,
    pub filename: String,
    pub index: u64,
}

/// What a snapshot reports: the change it went to and the snapshot's index.
#[derive(Debug, Clone, Copy, PartialEq, Eq, Structural)]
pub struct SnapshotResponse {
    pub change_id: u64,
    pub snapshot_id: u64,
}

/// What a submit reports: the id the change got (zero on failure) and a
/// status code passed through from the peer.
#[derive(Debug, Clone, Copy, PartialEq, Eq, Structural)]
pub struct SubmitResponse {
    pub id: u64,
    pub status: u64,
}

/// One value held by the store.
#[derive(Debug)]
pub enum Record {
    File(File),
    Change(Change),
    Entry(SnapshotLogEntry),
}

pub ghost enum RecordView {
    File(FileView),
    Change(ChangeView),
    Entry(SnapshotLogEntry),
}

impl View for Record {
    type V = RecordView;

    open spec fn view(&self) -> RecordView {
        match self {
            Record::File(f) => RecordView::File(f@),
            Record::Change(c) => RecordView::Change(c@),
            Record::Entry(e) => RecordView::Entry(*e),
        }
    }
}

impl Record {
    /// An independent copy.
    pub fn duplicate(&self) -> (r: Record)
        ensures
            r@ == self@,
    {
        match self {
            Record::File(f) => Record::File(f.duplicate()),
            Record::Change(c) => Record::Change(c.duplicate()),
            Record::Entry(e) => Record::Entry(*e),
        }
    }
}

} // verus!
