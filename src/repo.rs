//! The repository engine: changes layered on local or remote frames, reads
//! and listings that follow those frames, snapshots and submission.
use vstd::prelude::*;
use crate::cache::{QueryCache, ReadQuery, ReadResponse};
use crate::keyspace::{change_to_rowname, normalize_directory, normalize_filename, parent_directory, path_to_colname};
use crate::names::NameIndex;
use crate::records::{Change, File, FileIdentifier, Record};
use crate::store::{RemotePeer, Store};
use crate::text::{chars_of, push_decimal, string_of};

verus! {

/// How many answers of the remote peer the cache keeps.
pub const CACHE_SIZE: usize = 4096;

/// How many local frames a read or a listing follows before it gives up; a
/// chain of based changes longer than this (or a cycle) reads as nothing.
pub const MAX_BASE_DEPTH: u64 = 64;

/// The row that holds change metadata.
pub open spec fn metadata_row() -> Seq<char> {
    seq!['m', 'e', 't', 'a', 'd', 'a', 't', 'a']
}

type Db = Map<crate::store::CellKey, crate::records::RecordView>;

/// The change stored under `id`.
pub open spec fn change_in(db: Db, id: u64) -> Option<crate::records::ChangeView> {
    match crate::store::cell(db, (metadata_row(), crate::keyspace::rowname_of(id), 0)) {
        Some(crate::records::RecordView::Change(c)) => Some(c),
        _ => None,
    }
}

/// The file that change `id` itself holds for `filename` at `index`.
pub open spec fn file_in(db: Db, id: u64, filename: Seq<char>, index: u64) -> Option<
    crate::records::FileView,
> {
    match crate::store::cell(
        db,
        (crate::keyspace::rowname_of(id), crate::keyspace::colname_of(filename), index),
    ) {
        Some(crate::records::RecordView::File(f)) => Some(f),
        _ => None,
    }
}

/// `f`, marked found.
pub open spec fn marked_found(f: crate::records::FileView) -> crate::records::FileView {
    crate::records::FileView { found: true, ..f }
}

/// What the remote peer has for `path` at frame (`id`, `index`): nothing where
/// there is no peer or the peer's file is not found.
pub open spec fn remote_file<P: RemotePeer>(peer: Option<P>, id: u64, path: Seq<char>, index: u64) -> Option<
    crate::records::FileView,
> {
    match peer {
        Some(p) => {
            let f = p.file_at(id, crate::keyspace::normal_filename(path), index);
            if f.found {
                Some(f)
            } else {
                None
            }
        },
        None => None,
    }
}

/// What `path` is in change `id` at `index`, following at most `depth` local
/// frames: the change's own write if it has one (nothing where that write is
/// a deletion), else what its based frame (local, or the remote peer) has.
pub open spec fn resolved<P: RemotePeer>(
    db: Db,
    peer: Option<P>,
    id: u64,
    path: Seq<char>,
    index: u64,
    depth: nat,
) -> Option<crate::records::FileView>
    decreases depth,
{
    if depth == 0 {
        None
    } else {
        match change_in(db, id) {
            None => None,
            Some(c) => {
                let name = crate::keyspace::normal_filename(path);
                match file_in(db, id, name, index) {
                    Some(f) => if f.deleted {
                        None
                    } else {
                        Some(marked_found(f))
                    },
                    None => if c.is_based_locally {
                        resolved(db, peer, c.based_id, name, c.based_index, (depth - 1) as nat)
                    } else {
                        remote_file(peer, c.based_id, name, c.based_index)
                    },
                }
            },
        }
    }
}

/// What a read of `path` in change `id` at `index` gives.
pub open spec fn read_result<P: RemotePeer>(db: Db, peer: Option<P>, id: u64, path: Seq<char>, index: u64) -> Option<
    crate::records::FileView,
> {
    resolved(db, peer, id, path, index, MAX_BASE_DEPTH as nat)
}

pub open spec fn opt_file_view(r: Option<File>) -> Option<crate::records::FileView> {
    match r {
        Some(f) => Some(f@),
        None => None,
    }
}

/// The marker that records a directory at `path`.
pub open spec fn dir_marker(path: Seq<char>) -> crate::records::FileView {
    crate::records::FileView {
        filename: path,
        contents: Seq::empty(),
        found: true,
        deleted: false,
        directory: true,
        snapshot_id: 0,
        change_id: 0,
    }
}

/// `db` once directory `path` of change `id` exists at `index`: unchanged
/// where a read already finds something there.
pub open spec fn with_directory<P: RemotePeer>(db: Db, peer: Option<P>, id: u64, path: Seq<char>, index: u64) -> Db {
    if read_result(db, peer, id, path, index) is Some {
        db
    } else {
        db.insert(
            (crate::keyspace::rowname_of(id), crate::keyspace::colname_of(path), index),
            crate::records::RecordView::File(dir_marker(path)),
        )
    }
}

/// `db` once `dir` and each directory above it, up to the root, exist.
pub open spec fn with_ancestors<P: RemotePeer>(db: Db, peer: Option<P>, id: u64, dir: Seq<char>, index: u64) -> Db
    decreases dir.len(),
{
    if dir.len() <= 1 || crate::keyspace::parent_of(dir).len() >= dir.len() {
        db
    } else {
        with_ancestors(
            with_directory(db, peer, id, dir, index),
            peer,
            id,
            crate::keyspace::parent_of(dir),
            index,
        )
    }
}

/// `db` once `file` is written to change `id` at `index`, with the
/// directories above it.
pub open spec fn written<P: RemotePeer>(
    db: Db,
    peer: Option<P>,
    id: u64,
    file: crate::records::FileView,
    index: u64,
) -> Db {
    with_ancestors(db, peer, id, crate::keyspace::parent_of(file.filename), index).insert(
        (crate::keyspace::rowname_of(id), crate::keyspace::colname_of(file.filename), index),
        crate::records::RecordView::File(marked_found(file)),
    )
}

/// The record that `delete` writes for `path`.
pub open spec fn tombstone(path: Seq<char>) -> crate::records::FileView {
    crate::records::FileView { filename: path, deleted: true, ..crate::records::empty_file() }
}

/// The change stored in metadata column `col`, if that cell holds one.
pub open spec fn change_at_column(db: Db, col: Seq<char>) -> Option<crate::records::ChangeView> {
    match crate::store::cell(db, (metadata_row(), col, 0)) {
        Some(crate::records::RecordView::Change(c)) => Some(c),
        _ => None,
    }
}

/// Whether `c` is stored as some change's metadata.
pub open spec fn is_stored_change(db: Db, c: crate::records::ChangeView) -> bool {
    exists|col: Seq<char>| change_at_column(db, col) == Some(c)
}

/// What the remote peer lists for directory `dir` at frame (`id`, `index`):
/// nothing where there is no peer.
pub open spec fn remote_listing<P: RemotePeer>(peer: Option<P>, id: u64, dir: Seq<char>, index: u64) -> Seq<
    crate::records::FileView,
> {
    match peer {
        Some(p) => p.listing_at(id, dir, index),
        None => Seq::empty(),
    }
}

/// Whether change `id` itself holds `f` at `index` in a column under
/// directory `dir` (one level down).
pub open spec fn local_entry(db: Db, id: u64, dir: Seq<char>, index: u64, f: crate::records::FileView) -> bool {
    exists|col: Seq<char>|
        crate::keyspace::colname_of(dir).is_prefix_of(col) && #[trigger] crate::store::cell(
            db,
            (crate::keyspace::rowname_of(id), col, index),
        ) == Some(crate::records::RecordView::File(f))
}

/// No local entry of `id` under `dir` at `index` is named `name`.
pub open spec fn no_local_named(db: Db, id: u64, dir: Seq<char>, index: u64, name: Seq<char>) -> bool {
    forall|g: crate::records::FileView| #[trigger] local_entry(db, id, dir, index, g) ==> g.filename != name
}

/// `r` merges the local entries of `id` under `dir` at `index` with the
/// `based` listing: a local entry wins over a based one of the same name, the
/// first based entry of a name wins over later ones, and no entry flagged
/// deleted is listed. Names are listed once each, in order.
pub open spec fn merged_listing(
    db: Db,
    id: u64,
    dir: Seq<char>,
    index: u64,
    based: Seq<crate::records::FileView>,
    r: Seq<crate::records::FileView>,
) -> bool {
    &&& merged_entries(db, id, dir, index, based, r)
    &&& sorted_by_name(r)
}

/// The entries of a merged listing, in whatever order.
pub open spec fn merged_entries(
    db: Db,
    id: u64,
    dir: Seq<char>,
    index: u64,
    based: Seq<crate::records::FileView>,
    r: Seq<crate::records::FileView>,
) -> bool {
    &&& forall|i: int| 0 <= i < r.len() ==> !(#[trigger] r[i]).deleted
    &&& forall|i: int, j: int| 0 <= i < j < r.len() ==> (#[trigger] r[i]).filename != (#[trigger] r[j]).filename
    &&& forall|i: int|
        0 <= i < r.len() ==> local_entry(db, id, dir, index, #[trigger] r[i]) || (based.contains(r[i])
            && no_local_named(db, id, dir, index, r[i].filename))
    &&& forall|f: crate::records::FileView|
        #[trigger] local_entry(db, id, dir, index, f) && !f.deleted && (forall|g: crate::records::FileView|
            #[trigger] local_entry(db, id, dir, index, g) && g.filename == f.filename ==> g == f)
            ==> r.contains(f)
    &&& forall|j: int|
        0 <= j < based.len() && !(#[trigger] based[j]).deleted && no_local_named(
            db,
            id,
            dir,
            index,
            based[j].filename,
        ) && (forall|k: int| 0 <= k < j ==> (#[trigger] based[k]).filename != based[j].filename)
            ==> r.contains(based[j])
}

/// `r` is a listing of directory `dir` in change `id` at `index`, following
/// at most `depth` local frames.
pub open spec fn listed<P: RemotePeer>(
    db: Db,
    peer: Option<P>,
    id: u64,
    dir: Seq<char>,
    index: u64,
    depth: nat,
    r: Seq<crate::records::FileView>,
) -> bool
    decreases depth,
{
    let d = crate::keyspace::normal_directory(dir);
    if depth == 0 {
        r.len() == 0
    } else {
        match change_in(db, id) {
            None => r.len() == 0,
            Some(c) => exists|based: Seq<crate::records::FileView>|
                (if c.is_based_locally {
                    listed(db, peer, c.based_id, d, c.based_index, (depth - 1) as nat, based)
                } else {
                    based == remote_listing(peer, c.based_id, d, c.based_index)
                }) && #[trigger] merged_listing(db, id, d, index, based, r),
        }
    }
}

/// The version of `name` in the based frame of `c`: local or remote as `c`
/// says; the empty, not-found file where there is none.
pub open spec fn based_version<P: RemotePeer>(
    db: Db,
    peer: Option<P>,
    c: crate::records::ChangeView,
    name: Seq<char>,
) -> crate::records::FileView {
    let r = if c.is_based_locally {
        read_result(db, peer, c.based_id, name, c.based_index)
    } else {
        remote_file(peer, c.based_id, name, c.based_index)
    };
    match r {
        Some(f) => f,
        None => crate::records::empty_file(),
    }
}

/// Whether the working file `f` of change `c` is a change against its based
/// version: not a deletion of something that never existed, and not the
/// based version itself.
pub open spec fn is_staged<P: RemotePeer>(
    db: Db,
    peer: Option<P>,
    c: crate::records::ChangeView,
    f: crate::records::FileView,
) -> bool {
    let b = based_version(db, peer, c, f.filename);
    !(f.deleted && !b.found) && f != b
}

/// Whether change `id` holds `f` in its working state (index zero).
pub open spec fn working_file(db: Db, id: u64, f: crate::records::FileView) -> bool {
    exists|col: Seq<char>|
        #[trigger] crate::store::cell(db, (crate::keyspace::rowname_of(id), col, 0)) == Some(
            crate::records::RecordView::File(f),
        )
}

/// `after` is `before` with its staged files recomputed against `db`: the
/// working files that are staged, and no others, in order of name.
pub open spec fn filled<P: RemotePeer>(
    db: Db,
    peer: Option<P>,
    before: crate::records::ChangeView,
    after: crate::records::ChangeView,
) -> bool {
    &&& after == (crate::records::ChangeView { staged_files: after.staged_files, ..before })
    &&& sorted_by_name(after.staged_files)
    &&& forall|f: crate::records::FileView|
        #[trigger] after.staged_files.contains(f) <==> working_file(db, before.id, f) && is_staged(
            db,
            peer,
            before,
            f,
        )
}

/// The file that change `id` itself holds at column `col` and `index`.
pub open spec fn file_at_column(db: Db, id: u64, col: Seq<char>, index: u64) -> Option<crate::records::FileView> {
    match crate::store::cell(db, (crate::keyspace::rowname_of(id), col, index)) {
        Some(crate::records::RecordView::File(f)) => Some(f),
        _ => None,
    }
}

/// Whether change `id` holds `f` in some column at `index`.
pub open spec fn holds_file_at(db: Db, id: u64, index: u64, f: crate::records::FileView) -> bool {
    exists|col: Seq<char>| file_at_column(db, id, col, index) == Some(f)
}

/// Whether some non-rebase entry of `log` wrote a file named `name` to
/// change `id`.
pub open spec fn touched(db: Db, id: u64, log: Seq<crate::records::SnapshotLogEntry>, name: Seq<char>) -> bool {
    exists|k: int, col: Seq<char>|
        0 <= k < log.len() && !(#[trigger] log[k]).is_rebase && #[trigger] file_at_column(
            db,
            id,
            col,
            log[k].index,
        ) is Some && file_at_column(db, id, col, log[k].index)->0.filename == name
}

/// What `name` was in the new based frame that rebase entry `e` records.
pub open spec fn rebase_version<P: RemotePeer>(
    db: Db,
    peer: Option<P>,
    c: crate::records::ChangeView,
    e: crate::records::SnapshotLogEntry,
    name: Seq<char>,
) -> Option<crate::records::FileView> {
    if c.is_based_locally {
        read_result(db, peer, e.based_id, name, e.based_index)
    } else {
        remote_file(peer, e.based_id, name, e.based_index)
    }
}

/// What the change itself wrote for `name` at the index of entry `e`.
pub open spec fn own_version(
    db: Db,
    c: crate::records::ChangeView,
    e: crate::records::SnapshotLogEntry,
    name: Seq<char>,
) -> Option<crate::records::FileView> {
    match file_in(db, c.id, name, e.index) {
        Some(f) => if f.filename == name {
            Some(f)
        } else {
            None
        },
        None => None,
    }
}

/// What entry `k` of `log` adds to the history of `name`: at a rebase, the
/// version inherited from the new frame, or a not-found file of that name
/// where the frame has none (tagged with the frame's index); at a snapshot,
/// the change's own write (tagged zero).
pub open spec fn history_step<P: RemotePeer>(
    db: Db,
    peer: Option<P>,
    c: crate::records::ChangeView,
    log: Seq<crate::records::SnapshotLogEntry>,
    name: Seq<char>,
    k: int,
) -> Seq<crate::records::FileView> {
    let e = log[k];
    if e.is_rebase {
        match rebase_version(db, peer, c, e, name) {
            Some(f) => seq![crate::records::FileView { snapshot_id: k as u64, change_id: e.based_index, ..f }],
            None => seq![
                crate::records::FileView {
                    filename: name,
                    snapshot_id: k as u64,
                    change_id: e.based_index,
                    ..crate::records::empty_file()
                },
            ],
        }
    } else {
        match own_version(db, c, e, name) {
            Some(f) => seq![crate::records::FileView { snapshot_id: k as u64, change_id: 0, ..f }],
            None => Seq::empty(),
        }
    }
}

/// The history of `name` over the first `n` entries of `log`.
pub open spec fn history_upto<P: RemotePeer>(
    db: Db,
    peer: Option<P>,
    c: crate::records::ChangeView,
    log: Seq<crate::records::SnapshotLogEntry>,
    name: Seq<char>,
    n: nat,
) -> Seq<crate::records::FileView>
    decreases n,
{
    if n == 0 {
        Seq::empty()
    } else {
        history_upto(db, peer, c, log, name, (n - 1) as nat) + history_step(db, peer, c, log, name, n - 1)
    }
}

/// `after` is `before`, marked found, with one history for each file that
/// the log's snapshots touched.
pub open spec fn populated<P: RemotePeer>(
    db: Db,
    peer: Option<P>,
    log: Seq<crate::records::SnapshotLogEntry>,
    before: crate::records::ChangeView,
    after: crate::records::ChangeView,
) -> bool {
    &&& after == (crate::records::ChangeView { found: true, changes: after.changes, ..before })
    &&& forall|i: int, j: int|
        0 <= i < j < after.changes.len() ==> (#[trigger] after.changes[i]).filename != (
        #[trigger] after.changes[j]).filename
    &&& forall|i: int|
        0 <= i < after.changes.len() ==> touched(db, before.id, log, (#[trigger] after.changes[i]).filename)
            && after.changes[i].snapshots == history_upto(
            db,
            peer,
            before,
            log,
            after.changes[i].filename,
            log.len(),
        )
    &&& forall|name: Seq<char>|
        #[trigger] touched(db, before.id, log, name) ==> exists|i: int|
            0 <= i < after.changes.len() && (#[trigger] after.changes[i]).filename == name
}

/// `stored` updated by the fields that `partial` sets: a non-empty name, a
/// non-zero id of a frame, index, remote id or time stamp, and flags that
/// are true, replace or raise what is stored. The id, the staged files and
/// the histories stay as stored.
pub open spec fn merged_change(stored: crate::records::ChangeView, partial: crate::records::ChangeView) -> crate::records::ChangeView {
    crate::records::ChangeView {
        friendly_name: if partial.friendly_name.len() > 0 { partial.friendly_name } else { stored.friendly_name },
        based_id: if partial.based_id != 0 { partial.based_id } else { stored.based_id },
        based_index: if partial.based_index != 0 { partial.based_index } else { stored.based_index },
        is_based_locally: stored.is_based_locally || partial.is_based_locally,
        remote_id: if partial.remote_id != 0 { partial.remote_id } else { stored.remote_id },
        last_modified_timestamp: if partial.last_modified_timestamp != 0 {
            partial.last_modified_timestamp
        } else {
            stored.last_modified_timestamp
        },
        found: stored.found || partial.found,
        ..stored
    }
}

/// `c` after the peer answered a snapshot with `change_id`: where that id is
/// new, the change takes it as its remote id and drops its staged files.
pub open spec fn answered(c: crate::records::ChangeView, change_id: u64) -> crate::records::ChangeView {
    if c.remote_id != change_id {
        crate::records::ChangeView { staged_files: Seq::empty(), remote_id: change_id, ..c }
    } else {
        c
    }
}

/// The counter that hands out change ids.
pub open spec fn change_ids_ns() -> Seq<char> {
    "change_ids"@
}

/// The counters that number each change's log entries (one per change).
pub open spec fn snapshot_ids_ns() -> Seq<char> {
    "snapshots_ids"@
}

/// The counter that hands out snapshot indices.
pub open spec fn snapshot_index_ns() -> Seq<char> {
    "snapshot_index"@
}

/// The row that holds the snapshot log of change `id`.
pub open spec fn snapshots_row(id: u64) -> Seq<char> {
    "snapshots/"@ + crate::text::decimal(id as nat)
}

/// The first `n` numbered entries of the log of change `id`; a number with no
/// entry (a write that never happened) contributes nothing.
pub open spec fn log_upto(db: Db, id: u64, n: nat) -> Seq<crate::records::SnapshotLogEntry>
    decreases n,
{
    if n == 0 {
        Seq::empty()
    } else {
        log_upto(db, id, (n - 1) as nat) + match crate::store::cell(
            db,
            (snapshots_row(id), crate::text::decimal(n), 0),
        ) {
            Some(crate::records::RecordView::Entry(e)) => seq![e],
            _ => Seq::empty(),
        }
    }
}

/// The snapshot log of change `id`, in the order it was written.
pub open spec fn log_of(db: Db, ids: Map<(Seq<char>, Seq<char>), u64>, id: u64) -> Seq<
    crate::records::SnapshotLogEntry,
> {
    log_upto(db, id, crate::store::last_id_of(ids, snapshot_ids_ns(), crate::text::decimal(id as nat)) as nat)
}

/// A write outside the log's row leaves the log as it was.
pub proof fn lemma_log_untouched(
    db: Db,
    key: crate::store::CellKey,
    v: crate::records::RecordView,
    id: u64,
    n: nat,
)
    requires
        key.0 != snapshots_row(id),
    ensures
        log_upto(db.insert(key, v), id, n) == log_upto(db, id, n),
    decreases n,
{
    if n > 0 {
        lemma_log_untouched(db, key, v, id, (n - 1) as nat);
    }
}

proof fn lemma_log_past(db: Db, id: u64, k: nat, v: crate::records::RecordView, n: nat)
    requires
        n < k,
    ensures
        log_upto(db.insert((snapshots_row(id), crate::text::decimal(k), 0), v), id, n) == log_upto(db, id, n),
    decreases n,
{
    if n > 0 {
        lemma_log_past(db, id, k, v, (n - 1) as nat);
        if crate::text::decimal(n) == crate::text::decimal(k) {
            crate::text::lemma_decimal_injective(n, k);
        }
    }
}

/// Writing entry `e` under the next number appends it to the log.
pub proof fn lemma_log_append(db: Db, id: u64, n: nat, e: crate::records::SnapshotLogEntry)
    ensures
        log_upto(
            db.insert(
                (snapshots_row(id), crate::text::decimal(n + 1), 0),
                crate::records::RecordView::Entry(e),
            ),
            id,
            n + 1,
        ) == log_upto(db, id, n).push(e),
{
    lemma_log_past(db, id, n + 1, crate::records::RecordView::Entry(e), n);
    assert(log_upto(db, id, n) + seq![e] =~= log_upto(db, id, n).push(e));
}

/// Rows of change metadata, of change files and of logs never meet.
pub proof fn lemma_rows_differ(a: u64, b: u64)
    ensures
        metadata_row() != snapshots_row(a),
        crate::keyspace::rowname_of(a) != snapshots_row(b),
        metadata_row() != crate::keyspace::rowname_of(a),
{
    reveal_strlit("snapshots/");
    assert(snapshots_row(a)[0] == 's');
    assert(crate::keyspace::rowname_of(a)[0] == 'c');
    assert(metadata_row()[0] == 'm');
}

/// `c` is `given` as `make_change` stores it under `id` at time `now`: found,
/// and, where it names no frame of its own while a peer is attached, based on
/// the peer's head `head` (frame id zero, at the head's id).
pub open spec fn made_from(
    given: crate::records::ChangeView,
    id: u64,
    now: u64,
    head: Option<u64>,
    c: crate::records::ChangeView,
) -> bool {
    let to_head = binds_to_head(given, head);
    &&& c.id == id
    &&& c.found
    &&& c.last_modified_timestamp == now
    &&& c.friendly_name == given.friendly_name
    &&& c.is_based_locally == given.is_based_locally
    &&& c.remote_id == given.remote_id
    &&& c.staged_files == given.staged_files
    &&& c.changes == given.changes
    &&& (if to_head {
        c.based_id == 0 && c.based_index == head->0
    } else {
        c.based_id == given.based_id && c.based_index == given.based_index
    })
}

/// Whether a change made from `given` is based on the peer's head: it names
/// no frame of its own and a peer (with head `head`) is attached.
pub open spec fn binds_to_head(given: crate::records::ChangeView, head: Option<u64>) -> bool {
    !given.is_based_locally && given.based_index == 0 && head is Some
}

/// The head of `peer`, if there is one.
pub open spec fn head_of<P: RemotePeer>(peer: Option<P>) -> Option<u64> {
    match peer {
        Some(p) => Some(p.head_id()),
        None => None,
    }
}

/// One more than `n`, stopping at `u64::MAX`.
pub open spec fn one_more(n: nat) -> nat {
    if n < u64::MAX {
        n + 1
    } else {
        n
    }
}

/// `c` framed as the remote peer sees it: under its remote id, based
/// locally (on the peer's own history).
pub open spec fn remote_frame_of(c: crate::records::ChangeView) -> crate::records::ChangeView {
    crate::records::ChangeView { id: c.remote_id, is_based_locally: true, ..c }
}

/// `c` framed as the remote peer sees it (see `remote_frame_of`).
pub fn remote_frame(c: &Change) -> (r: Change)
    ensures
        r@ == remote_frame_of(c@),
{
    let mut r = c.duplicate();
    r.id = c.remote_id;
    r.is_based_locally = true;
    r
}

/// The log entry that records a change's frame.
pub open spec fn rebase_entry(based_id: u64, based_index: u64) -> crate::records::SnapshotLogEntry {
    crate::records::SnapshotLogEntry { index: 0, is_rebase: true, based_id, based_index }
}

/// The last change id handed out.
pub open spec fn last_change_id(ids: Map<(Seq<char>, Seq<char>), u64>) -> u64 {
    crate::store::last_id_of(ids, change_ids_ns(), Seq::empty())
}

/// The last snapshot index handed out.
pub open spec fn last_snapshot_index(ids: Map<(Seq<char>, Seq<char>), u64>) -> u64 {
    crate::store::last_id_of(ids, snapshot_index_ns(), Seq::empty())
}

/// The log entry of change `id` numbered `k`, if there is one.
pub open spec fn log_entry_at(db: Db, id: u64, k: nat) -> Option<crate::records::SnapshotLogEntry> {
    match crate::store::cell(db, (snapshots_row(id), crate::text::decimal(k), 0)) {
        Some(crate::records::RecordView::Entry(e)) => Some(e),
        _ => None,
    }
}

/// How a store kept by the repository hangs together: each change is stored
/// under its own id, which was handed out; an id not yet handed out has no
/// log; every logged index was handed out; and each file of a change sits in
/// the column of its own name.
pub open spec fn store_ok(db: Db, ids: Map<(Seq<char>, Seq<char>), u64>) -> bool {
    &&& forall|id: u64| #[trigger] change_in(db, id) is Some ==> change_in(db, id)->0.id == id && id <= last_change_id(ids)
    &&& forall|id: u64|
        id > last_change_id(ids) ==> #[trigger] crate::store::last_id_of(ids, snapshot_ids_ns(), crate::text::decimal(id as nat))
            == 0
    &&& forall|id: u64, k: nat| #[trigger] log_entry_at(db, id, k) is Some ==> log_entry_at(db, id, k)->0.index
        <= last_snapshot_index(ids)
    &&& forall|id: u64, col: Seq<char>, index: u64| #[trigger] file_at_column(db, id, col, index) is Some ==> col
        == crate::keyspace::colname_of(file_at_column(db, id, col, index)->0.filename)
}

/// Whether `e` is one of the numbered log entries of change `id`.
pub open spec fn is_numbered(db: Db, id: u64, e: crate::records::SnapshotLogEntry) -> bool {
    exists|k: nat| #[trigger] log_entry_at(db, id, k) == Some(e)
}

/// Each entry of a log is one of the change's numbered entries.
pub proof fn lemma_log_entries_numbered(db: Db, id: u64, n: nat)
    ensures
        forall|i: int| 0 <= i < log_upto(db, id, n).len() ==> is_numbered(db, id, #[trigger] log_upto(db, id, n)[i]),
    decreases n,
{
    if n > 0 {
        lemma_log_entries_numbered(db, id, (n - 1) as nat);
        let prev = log_upto(db, id, (n - 1) as nat);
        assert forall|i: int|
            0 <= i < log_upto(db, id, n).len() implies is_numbered(db, id, #[trigger] log_upto(db, id, n)[i]) by {
            if i < prev.len() {
                assert(log_upto(db, id, n)[i] == prev[i]);
            } else {
                assert(log_entry_at(db, id, n) == Some(log_upto(db, id, n)[i]));
            }
        }
    }
}

/// The three counters are told apart.
pub proof fn lemma_namespaces_differ()
    ensures
        change_ids_ns() != snapshot_ids_ns(),
        change_ids_ns() != snapshot_index_ns(),
        snapshot_ids_ns() != snapshot_index_ns(),
{
    reveal_strlit("change_ids");
    reveal_strlit("snapshots_ids");
    reveal_strlit("snapshot_index");
    assert(change_ids_ns().len() != snapshot_ids_ns().len());
    assert(change_ids_ns()[0] != snapshot_index_ns()[0]);
    assert(snapshot_ids_ns()[8] != snapshot_index_ns()[8]);
}

/// Different changes have different rows.
pub proof fn lemma_rowname_injective(a: u64, b: u64)
    requires
        crate::keyspace::rowname_of(a) == crate::keyspace::rowname_of(b),
    ensures
        a == b,
{
    let n = 8;
    assert(crate::keyspace::rowname_of(a).subrange(n, crate::keyspace::rowname_of(a).len() as int) =~= crate::text::decimal(
        a as nat,
    ));
    assert(crate::keyspace::rowname_of(b).subrange(n, crate::keyspace::rowname_of(b).len() as int) =~= crate::text::decimal(
        b as nat,
    ));
    crate::text::lemma_decimal_injective(a as nat, b as nat);
}

/// Different changes have different log rows.
pub proof fn lemma_snapshots_row_injective(a: u64, b: u64)
    requires
        snapshots_row(a) == snapshots_row(b),
    ensures
        a == b,
{
    reveal_strlit("snapshots/");
    let n = 10;
    assert(snapshots_row(a).subrange(n, snapshots_row(a).len() as int) =~= crate::text::decimal(a as nat));
    assert(snapshots_row(b).subrange(n, snapshots_row(b).len() as int) =~= crate::text::decimal(b as nat));
    crate::text::lemma_decimal_injective(a as nat, b as nat);
}

/// A write to a change's file row keeps the store hanging together.
pub proof fn lemma_file_write_ok(
    db: Db,
    ids: Map<(Seq<char>, Seq<char>), u64>,
    row_id: u64,
    key: crate::store::CellKey,
    v: crate::records::RecordView,
)
    requires
        store_ok(db, ids),
        key.0 == crate::keyspace::rowname_of(row_id),
        v is File ==> key.1 == crate::keyspace::colname_of(v->File_0.filename),
    ensures
        store_ok(db.insert(key, v), ids),
{
    let d = db.insert(key, v);
    assert forall|id: u64, col: Seq<char>, index: u64| #[trigger] file_at_column(d, id, col, index) is Some implies col
        == crate::keyspace::colname_of(file_at_column(d, id, col, index)->0.filename) by {
        if (crate::keyspace::rowname_of(id), col, index) != key {
            assert(file_at_column(d, id, col, index) == file_at_column(db, id, col, index));
        }
    }
    assert forall|id: u64| #[trigger] change_in(d, id) == change_in(db, id) by {
        lemma_rows_differ(row_id, id);
    }
    assert forall|id: u64, k: nat| #[trigger] log_entry_at(d, id, k) == log_entry_at(db, id, k) by {
        lemma_rows_differ(row_id, id);
    }
}

/// Storing change `c` under its own, handed-out id keeps the store hanging
/// together.
pub proof fn lemma_change_write_ok(db: Db, ids: Map<(Seq<char>, Seq<char>), u64>, c: crate::records::ChangeView)
    requires
        store_ok(db, ids),
        c.id <= last_change_id(ids),
    ensures
        store_ok(
            db.insert((metadata_row(), crate::keyspace::rowname_of(c.id), 0), crate::records::RecordView::Change(c)),
            ids,
        ),
{
    let d = db.insert((metadata_row(), crate::keyspace::rowname_of(c.id), 0), crate::records::RecordView::Change(c));
    assert forall|id: u64| #[trigger] change_in(d, id) is Some implies change_in(d, id)->0.id == id && id
        <= last_change_id(ids) by {
        if crate::keyspace::rowname_of(id) == crate::keyspace::rowname_of(c.id) {
            lemma_rowname_injective(id, c.id);
        } else {
            assert(change_in(d, id) == change_in(db, id));
        }
    }
    assert forall|id: u64, k: nat| #[trigger] log_entry_at(d, id, k) == log_entry_at(db, id, k) by {
        lemma_rows_differ(id, id);
    }
    assert forall|id: u64, col: Seq<char>, index: u64| #[trigger] file_at_column(d, id, col, index) == file_at_column(
        db,
        id,
        col,
        index,
    ) by {
        lemma_rows_differ(id, id);
        lemma_rows_differ(id, id);
    }
}

/// Removing a change's metadata keeps the store hanging together.
pub proof fn lemma_change_delete_ok(db: Db, ids: Map<(Seq<char>, Seq<char>), u64>, row: Seq<char>)
    requires
        store_ok(db, ids),
    ensures
        store_ok(crate::store::without_cell(db, metadata_row(), row), ids),
{
    let d = crate::store::without_cell(db, metadata_row(), row);
    assert forall|id: u64| #[trigger] change_in(d, id) is Some implies change_in(d, id) == change_in(db, id) by {}
    assert forall|id: u64, k: nat| #[trigger] log_entry_at(d, id, k) == log_entry_at(db, id, k) by {
        lemma_rows_differ(id, id);
    }
    assert forall|id: u64, col: Seq<char>, index: u64| #[trigger] file_at_column(d, id, col, index) == file_at_column(
        db,
        id,
        col,
        index,
    ) by {
        lemma_rows_differ(id, id);
        lemma_rows_differ(id, id);
    }
}

/// Handing out the next change id keeps the store hanging together.
pub proof fn lemma_reserve_change_ok(db: Db, ids: Map<(Seq<char>, Seq<char>), u64>, v: u64)
    requires
        store_ok(db, ids),
        v > last_change_id(ids),
    ensures
        store_ok(db, ids.insert((change_ids_ns(), Seq::empty()), v)),
{
    lemma_namespaces_differ();
    let i2 = ids.insert((change_ids_ns(), Seq::empty()), v);
    assert forall|id: u64| #[trigger] crate::store::last_id_of(i2, snapshot_ids_ns(), crate::text::decimal(id as nat))
        == crate::store::last_id_of(ids, snapshot_ids_ns(), crate::text::decimal(id as nat)) by {}
    assert(last_snapshot_index(i2) == last_snapshot_index(ids));
}

/// Handing out the next snapshot index keeps the store hanging together.
pub proof fn lemma_reserve_index_ok(db: Db, ids: Map<(Seq<char>, Seq<char>), u64>, v: u64)
    requires
        store_ok(db, ids),
        v > last_snapshot_index(ids),
    ensures
        store_ok(db, ids.insert((snapshot_index_ns(), Seq::empty()), v)),
{
    lemma_namespaces_differ();
    let i2 = ids.insert((snapshot_index_ns(), Seq::empty()), v);
    assert forall|id: u64| #[trigger] crate::store::last_id_of(i2, snapshot_ids_ns(), crate::text::decimal(id as nat))
        == crate::store::last_id_of(ids, snapshot_ids_ns(), crate::text::decimal(id as nat)) by {}
    assert(last_change_id(i2) == last_change_id(ids));
}

/// Numbering a log entry of a handed-out change keeps the store hanging
/// together.
pub proof fn lemma_reserve_log_ok(db: Db, ids: Map<(Seq<char>, Seq<char>), u64>, id0: u64, v: u64)
    requires
        store_ok(db, ids),
        id0 <= last_change_id(ids),
    ensures
        store_ok(db, ids.insert((snapshot_ids_ns(), crate::text::decimal(id0 as nat)), v)),
{
    lemma_namespaces_differ();
    let i2 = ids.insert((snapshot_ids_ns(), crate::text::decimal(id0 as nat)), v);
    assert(last_change_id(i2) == last_change_id(ids));
    assert(last_snapshot_index(i2) == last_snapshot_index(ids));
    assert forall|id: u64| id > last_change_id(i2) implies #[trigger] crate::store::last_id_of(
        i2,
        snapshot_ids_ns(),
        crate::text::decimal(id as nat),
    ) == 0 by {
        assert(crate::store::last_id_of(ids, snapshot_ids_ns(), crate::text::decimal(id as nat)) == 0);
        if crate::text::decimal(id as nat) == crate::text::decimal(id0 as nat) {
            crate::text::lemma_decimal_injective(id as nat, id0 as nat);
        }
    }
}

/// Logging an entry whose index was handed out keeps the store hanging
/// together.
pub proof fn lemma_log_write_ok(
    db: Db,
    ids: Map<(Seq<char>, Seq<char>), u64>,
    id0: u64,
    k0: nat,
    e: crate::records::SnapshotLogEntry,
)
    requires
        store_ok(db, ids),
        e.index <= last_snapshot_index(ids),
    ensures
        store_ok(
            db.insert((snapshots_row(id0), crate::text::decimal(k0), 0), crate::records::RecordView::Entry(e)),
            ids,
        ),
{
    let d = db.insert((snapshots_row(id0), crate::text::decimal(k0), 0), crate::records::RecordView::Entry(e));
    assert forall|id: u64| #[trigger] change_in(d, id) == change_in(db, id) by {
        lemma_rows_differ(id0, id);
    }
    assert forall|id: u64, k: nat| #[trigger] log_entry_at(d, id, k) is Some implies log_entry_at(d, id, k)->0.index
        <= last_snapshot_index(ids) by {
        if (snapshots_row(id), crate::text::decimal(k), 0u64) != (snapshots_row(id0), crate::text::decimal(k0), 0u64) {
            assert(log_entry_at(d, id, k) == log_entry_at(db, id, k));
        }
    }
    assert forall|id: u64, col: Seq<char>, index: u64| #[trigger] file_at_column(d, id, col, index) == file_at_column(
        db,
        id,
        col,
        index,
    ) by {
        lemma_rows_differ(id, id0);
    }
}

/// Every cached answer is what the peer gives for its query.
pub open spec fn cache_agrees<P: RemotePeer>(
    entries: Seq<(crate::cache::QueryView, crate::cache::ResponseView)>,
    peer: Option<P>,
) -> bool {
    forall|i: int|
        0 <= i < entries.len() ==> match #[trigger] entries[i] {
            (crate::cache::QueryView::Read(id, path, index), crate::cache::ResponseView::Read(f)) => peer
                is Some && f == peer->0.file_at(id, crate::keyspace::normal_filename(path), index),
            (
                crate::cache::QueryView::ListFiles(id, dir, index),
                crate::cache::ResponseView::ListFiles(v),
            ) => peer is Some && v == peer->0.listing_at(id, dir, index),
            _ => false,
        }
}

/// Where in `files` the entry named `name` is.
fn find_named(files: &Vec<File>, name: &String) -> (r: Option<usize>)
    ensures
        match r {
            Some(k) => k < files@.len() && files@[k as int]@.filename == name@,
            None => forall|k: int| 0 <= k < files@.len() ==> (#[trigger] files@[k])@.filename != name@,
        },
{
    let mut k: usize = 0;
    while k < files.len()
        invariant
            k <= files@.len(),
            forall|j: int| 0 <= j < k ==> (#[trigger] files@[j])@.filename != name@,
        decreases files@.len() - k,
    {
        if files[k].filename == *name {
            return Some(k);
        }
        k = k + 1;
    }
    None
}

/// The files of a scan, one per name: where two share a name the later wins.
#[verifier::spinoff_prover]
fn collect_local(
    found: &Vec<(String, Record)>,
    Ghost(db): Ghost<Db>,
    Ghost(id): Ghost<u64>,
    Ghost(dir): Ghost<Seq<char>>,
    Ghost(index): Ghost<u64>,
) -> (files: Vec<File>)
    requires
        crate::store::scan_result(
            db,
            crate::keyspace::rowname_of(id),
            crate::keyspace::colname_of(dir),
            index,
            crate::store::scan_view(found@),
        ),
    ensures
        forall|i: int, j: int|
            0 <= i < j < files@.len() ==> (#[trigger] files@[i])@.filename != (#[trigger] files@[j])@.filename,
        forall|i: int| 0 <= i < files@.len() ==> local_entry(db, id, dir, index, (#[trigger] files@[i])@),
        forall|f: crate::records::FileView|
            #[trigger] local_entry(db, id, dir, index, f) ==> exists|k: int|
                0 <= k < files@.len() && (#[trigger] files@[k])@.filename == f.filename,
{
    let ghost fv = crate::store::scan_view(found@);
    let mut files: Vec<File> = Vec::new();
    let mut i: usize = 0;
    while i < found.len()
        invariant
            i <= found@.len(),
            fv == crate::store::scan_view(found@),
            crate::store::scan_result(db, crate::keyspace::rowname_of(id), crate::keyspace::colname_of(dir), index, fv),
            forall|a: int, b: int|
                0 <= a < b < files@.len() ==> (#[trigger] files@[a])@.filename != (#[trigger] files@[b])@.filename,
            forall|a: int| 0 <= a < files@.len() ==> local_entry(db, id, dir, index, (#[trigger] files@[a])@),
            forall|j: int|
                0 <= j < i && (#[trigger] fv[j]).1 is File ==> exists|k: int|
                    0 <= k < files@.len() && (#[trigger] files@[k])@.filename == fv[j].1->File_0.filename,
        decreases found@.len() - i,
    {
        assert(fv[i as int] == (found@[i as int].0@, found@[i as int].1@));
        let ghost f0 = files@;
        match &found[i].1 {
            Record::File(f) => {
                proof {
                    let col = fv[i as int].0;
                    assert(crate::store::cell(db, (crate::keyspace::rowname_of(id), col, index)) == Some(
                        crate::records::RecordView::File(f@),
                    ));
                    assert(local_entry(db, id, dir, index, f@));
                }
                match find_named(&files, &f.filename) {
                    Some(k) => {
                        files.set(k, f.duplicate());
                        proof {
                            assert forall|j: int|
                                0 <= j < i + 1 && (#[trigger] fv[j]).1 is File implies exists|m: int|
                                    0 <= m < files@.len() && (#[trigger] files@[m])@.filename
                                        == fv[j].1->File_0.filename by {
                                if j < i {
                                    let m = choose|m: int|
                                        0 <= m < f0.len() && (#[trigger] f0[m])@.filename
                                            == fv[j].1->File_0.filename;
                                    assert(files@[m]@.filename == f0[m]@.filename);
                                } else {
                                    assert(files@[k as int]@.filename == fv[j].1->File_0.filename);
                                }
                            }
                        }
                    },
                    None => {
                        files.push(f.duplicate());
                        proof {
                            assert forall|j: int|
                                0 <= j < i + 1 && (#[trigger] fv[j]).1 is File implies exists|m: int|
                                    0 <= m < files@.len() && (#[trigger] files@[m])@.filename
                                        == fv[j].1->File_0.filename by {
                                if j < i {
                                    let m = choose|m: int|
                                        0 <= m < f0.len() && (#[trigger] f0[m])@.filename
                                            == fv[j].1->File_0.filename;
                                    assert(files@[m] == f0[m]);
                                } else {
                                    assert(files@[f0.len() as int]@.filename == fv[j].1->File_0.filename);
                                }
                            }
                        }
                    },
                }
            },
            _ => {},
        }
        i = i + 1;
    }
    proof {
        assert forall|f: crate::records::FileView|
            #[trigger] local_entry(db, id, dir, index, f) implies exists|k: int|
                0 <= k < files@.len() && (#[trigger] files@[k])@.filename == f.filename by {
            let col = choose|col: Seq<char>|
                crate::keyspace::colname_of(dir).is_prefix_of(col) && #[trigger] crate::store::cell(
                    db,
                    (crate::keyspace::rowname_of(id), col, index),
                ) == Some(crate::records::RecordView::File(f));
            assert(db.contains_key((crate::keyspace::rowname_of(id), col, index)));
            let j = choose|j: int| 0 <= j < fv.len() && (#[trigger] fv[j]).0 == col;
            assert(fv[j].1 == crate::records::RecordView::File(f));
        }
    }
    files
}

/// Adds each file of `based` whose name `files` lacks, in order.
#[verifier::spinoff_prover]
#[verifier::rlimit(100)]
fn add_based(
    files: &mut Vec<File>,
    based: Vec<File>,
    Ghost(db): Ghost<Db>,
    Ghost(id): Ghost<u64>,
    Ghost(dir): Ghost<Seq<char>>,
    Ghost(index): Ghost<u64>,
)
    requires
        forall|i: int, j: int|
            0 <= i < j < old(files)@.len() ==> (#[trigger] old(files)@[i])@.filename != (
            #[trigger] old(files)@[j])@.filename,
        forall|i: int| 0 <= i < old(files)@.len() ==> local_entry(db, id, dir, index, (#[trigger] old(files)@[i])@),
        forall|f: crate::records::FileView|
            #[trigger] local_entry(db, id, dir, index, f) ==> exists|k: int|
                0 <= k < old(files)@.len() && (#[trigger] old(files)@[k])@.filename == f.filename,
    ensures
        forall|i: int, j: int|
            0 <= i < j < final(files)@.len() ==> (#[trigger] final(files)@[i])@.filename != (
            #[trigger] final(files)@[j])@.filename,
        forall|i: int|
            0 <= i < final(files)@.len() ==> local_entry(db, id, dir, index, (#[trigger] final(files)@[i])@) || (
            crate::records::files_view(based@).contains(final(files)@[i]@) && no_local_named(
                db,
                id,
                dir,
                index,
                final(files)@[i]@.filename,
            )),
        final(files)@.len() >= old(files)@.len(),
        forall|k: int| 0 <= k < old(files)@.len() ==> (#[trigger] final(files)@[k]) == old(files)@[k],
        forall|j: int|
            0 <= j < based@.len() && no_local_named(db, id, dir, index, (#[trigger] based@[j])@.filename) && (
            forall|k: int| 0 <= k < j ==> (#[trigger] based@[k])@.filename != based@[j]@.filename)
                ==> exists|m: int| 0 <= m < final(files)@.len() && (#[trigger] final(files)@[m])@ == based@[j]@,
{
    let ghost bv = crate::records::files_view(based@);
    let ghost start = files@;
    let mut i: usize = 0;
    while i < based.len()
        invariant
            i <= based@.len(),
            bv == crate::records::files_view(based@),
            start == old(files)@,
            files@.len() >= start.len(),
            forall|k: int| 0 <= k < start.len() ==> (#[trigger] files@[k]) == start[k],
            forall|k: int| 0 <= k < start.len() ==> local_entry(db, id, dir, index, (#[trigger] start[k])@),
            forall|a: int|
                start.len() <= a < files@.len() ==> exists|q: int|
                    0 <= q < i && (#[trigger] based@[q])@ == (#[trigger] files@[a])@,
            forall|a: int|
                start.len() <= a < files@.len() ==> no_local_named(db, id, dir, index, (#[trigger] files@[a])@.filename),
            forall|a: int, b: int|
                0 <= a < b < files@.len() ==> (#[trigger] files@[a])@.filename != (#[trigger] files@[b])@.filename,
            forall|f: crate::records::FileView|
                #[trigger] local_entry(db, id, dir, index, f) ==> exists|k: int|
                    0 <= k < start.len() && (#[trigger] start[k])@.filename == f.filename,
            forall|j: int|
                0 <= j < i ==> exists|m: int|
                    0 <= m < files@.len() && (#[trigger] files@[m])@.filename == (#[trigger] based@[j])@.filename,
            forall|j: int|
                0 <= j < i && no_local_named(db, id, dir, index, (#[trigger] based@[j])@.filename) && (forall|k: int|
                    0 <= k < j ==> (#[trigger] based@[k])@.filename != based@[j]@.filename) ==> exists|m: int|
                    0 <= m < files@.len() && (#[trigger] files@[m])@ == based@[j]@,
        decreases based@.len() - i,
    {
        let ghost f0 = files@;
        match find_named(files, &based[i].filename) {
            Some(k) => {
                proof {
                    if no_local_named(db, id, dir, index, based@[i as int]@.filename) {
                        if (k as int) < start.len() {
                            assert(local_entry(db, id, dir, index, start[k as int]@));
                        } else {
                            let q = choose|q: int| 0 <= q < i && (#[trigger] based@[q])@ == f0[k as int]@;
                            assert(based@[q]@.filename == based@[i as int]@.filename);
                            assert(!(forall|k: int|
                                0 <= k < i ==> (#[trigger] based@[k])@.filename != based@[i as int]@.filename));
                        }
                    }
                }
            },
            None => {
                proof {
                    assert forall|g: crate::records::FileView|
                        #[trigger] local_entry(db, id, dir, index, g) implies g.filename != based@[i as int]@.filename by {
                        let k = choose|k: int| 0 <= k < start.len() && (#[trigger] start[k])@.filename == g.filename;
                        assert(f0[k] == start[k]);
                    }
                }
                files.push(based[i].duplicate());
                proof {
                    assert forall|a: int|
                        start.len() <= a < files@.len() implies exists|q: int|
                            0 <= q < i + 1 && (#[trigger] based@[q])@ == (#[trigger] files@[a])@ by {
                        if a < f0.len() {
                            let q = choose|q: int| 0 <= q < i && (#[trigger] based@[q])@ == f0[a]@;
                            assert(files@[a] == f0[a]);
                        } else {
                            assert(based@[i as int]@ == files@[a]@);
                        }
                    }
                    assert forall|a: int|
                        start.len() <= a < files@.len() implies no_local_named(
                            db,
                            id,
                            dir,
                            index,
                            (#[trigger] files@[a])@.filename,
                        ) by {
                        if a < f0.len() {
                            assert(files@[a] == f0[a]);
                        }
                    }
                }
            },
        }
        proof {
            assert forall|j: int|
                0 <= j < i + 1 implies exists|m: int|
                    0 <= m < files@.len() && (#[trigger] files@[m])@.filename == (#[trigger] based@[j])@.filename by {
                if j < i {
                    let m = choose|m: int|
                        0 <= m < f0.len() && (#[trigger] f0[m])@.filename == (#[trigger] based@[j])@.filename;
                    assert(files@[m] == f0[m]);
                } else if files@.len() > f0.len() {
                    assert(files@[f0.len() as int]@.filename == based@[j]@.filename);
                }
            }
            assert forall|j: int|
                0 <= j < i + 1 && no_local_named(db, id, dir, index, (#[trigger] based@[j])@.filename) && (forall|k: int|
                    0 <= k < j ==> (#[trigger] based@[k])@.filename != based@[j]@.filename) implies exists|m: int|
                    0 <= m < files@.len() && (#[trigger] files@[m])@ == based@[j]@ by {
                if j < i {
                    let m = choose|m: int| 0 <= m < f0.len() && (#[trigger] f0[m])@ == based@[j]@;
                    assert(files@[m] == f0[m]);
                } else if files@.len() > f0.len() {
                    assert(files@[f0.len() as int]@ == based@[j]@);
                }
            }
        }
        i = i + 1;
    }
    proof {
        assert forall|a: int|
            0 <= a < files@.len() implies local_entry(db, id, dir, index, (#[trigger] files@[a])@) || (
            bv.contains(files@[a]@) && no_local_named(db, id, dir, index, files@[a]@.filename)) by {
            if a >= start.len() {
                let q = choose|q: int| 0 <= q < i && (#[trigger] based@[q])@ == files@[a]@;
                assert(bv[q] == files@[a]@);
            }
        }
    }
}

/// The files of `files` not flagged deleted, in order.
#[verifier::spinoff_prover]
fn drop_deleted(files: Vec<File>) -> (r: Vec<File>)
    requires
        forall|i: int, j: int|
            0 <= i < j < files@.len() ==> (#[trigger] files@[i])@.filename != (#[trigger] files@[j])@.filename,
    ensures
        forall|i: int| 0 <= i < r@.len() ==> !(#[trigger] r@[i])@.deleted,
        forall|i: int, j: int|
            0 <= i < j < r@.len() ==> (#[trigger] r@[i])@.filename != (#[trigger] r@[j])@.filename,
        forall|i: int| 0 <= i < r@.len() ==> crate::records::files_view(files@).contains((#[trigger] r@[i])@),
        forall|k: int|
            0 <= k < files@.len() && !(#[trigger] files@[k])@.deleted ==> crate::records::files_view(r@).contains(
                files@[k]@,
            ),
{
    let ghost fv = crate::records::files_view(files@);
    let mut r: Vec<File> = Vec::new();
    let mut i: usize = 0;
    while i < files.len()
        invariant
            i <= files@.len(),
            fv == crate::records::files_view(files@),
            forall|a: int, b: int|
                0 <= a < b < files@.len() ==> (#[trigger] files@[a])@.filename != (#[trigger] files@[b])@.filename,
            forall|a: int| 0 <= a < r@.len() ==> !(#[trigger] r@[a])@.deleted,
            forall|a: int|
                0 <= a < r@.len() ==> exists|m: int| 0 <= m < i && (#[trigger] files@[m])@ == (#[trigger] r@[a])@,
            forall|a: int, b: int|
                0 <= a < b < r@.len() ==> (#[trigger] r@[a])@.filename != (#[trigger] r@[b])@.filename,
            forall|k: int|
                0 <= k < i && !(#[trigger] files@[k])@.deleted ==> crate::records::files_view(r@).contains(
                    files@[k]@,
                ),
        decreases files@.len() - i,
    {
        let ghost r0 = r@;
        if !files[i].deleted {
            r.push(files[i].duplicate());
            proof {
                assert forall|a: int|
                    0 <= a < r@.len() implies exists|m: int|
                        0 <= m < i + 1 && (#[trigger] files@[m])@ == (#[trigger] r@[a])@ by {
                    if a < r0.len() {
                        assert(r@[a] == r0[a]);
                    } else {
                        assert(files@[i as int]@ == r@[a]@);
                    }
                }
                assert forall|a: int, b: int|
                    0 <= a < b < r@.len() implies (#[trigger] r@[a])@.filename != (#[trigger] r@[b])@.filename by {
                    if b == r0.len() {
                        assert(r@[a] == r0[a]);
                        let m = choose|m: int| 0 <= m < i && (#[trigger] files@[m])@ == r0[a]@;
                    } else {
                        assert(r@[a] == r0[a]);
                        assert(r@[b] == r0[b]);
                    }
                }
                assert forall|k: int|
                    0 <= k < i + 1 && !(#[trigger] files@[k])@.deleted implies crate::records::files_view(
                        r@,
                    ).contains(files@[k]@) by {
                    if k < i {
                        let q = choose|q: int|
                            0 <= q < crate::records::files_view(r0).len() && crate::records::files_view(r0)[q]
                                == files@[k]@;
                        assert(crate::records::files_view(r@)[q] == files@[k]@);
                    } else {
                        assert(crate::records::files_view(r@)[r0.len() as int] == files@[k]@);
                    }
                }
            }
        }
        i = i + 1;
    }
    proof {
        assert forall|a: int| 0 <= a < r@.len() implies fv.contains((#[trigger] r@[a])@) by {
            let m = choose|m: int| 0 <= m < i && (#[trigger] files@[m])@ == r@[a]@;
            assert(fv[m] == r@[a]@);
        }
    }
    r
}

/// Whether name `a` comes before name `b`: character by character, a
/// shorter name before any longer name it starts.
pub open spec fn name_before(a: Seq<char>, b: Seq<char>) -> bool
    decreases a.len(),
{
    if a.len() == 0 {
        b.len() > 0
    } else if b.len() == 0 {
        false
    } else if a[0] != b[0] {
        a[0] < b[0]
    } else {
        name_before(a.drop_first(), b.drop_first())
    }
}

pub proof fn lemma_before_irreflexive(a: Seq<char>)
    ensures
        !name_before(a, a),
    decreases a.len(),
{
    if a.len() > 0 {
        lemma_before_irreflexive(a.drop_first());
    }
}

pub proof fn lemma_before_transitive(a: Seq<char>, b: Seq<char>, c: Seq<char>)
    requires
        name_before(a, b),
        name_before(b, c),
    ensures
        name_before(a, c),
    decreases a.len(),
{
    if a.len() > 0 && b.len() > 0 && c.len() > 0 && a[0] == b[0] && b[0] == c[0] {
        lemma_before_transitive(a.drop_first(), b.drop_first(), c.drop_first());
    }
}

pub proof fn lemma_before_total(a: Seq<char>, b: Seq<char>)
    requires
        a != b,
    ensures
        name_before(a, b) || name_before(b, a),
    decreases a.len(),
{
    if a.len() == 0 && b.len() == 0 {
        assert(a =~= b);
    }
    if a.len() > 0 && b.len() > 0 && a[0] == b[0] {
        if a.drop_first() == b.drop_first() {
            assert(a =~= seq![a[0]] + a.drop_first());
            assert(b =~= seq![b[0]] + b.drop_first());
        }
        lemma_before_total(a.drop_first(), b.drop_first());
    }
}

fn name_less(a: &String, b: &String) -> (r: bool)
    ensures
        r == name_before(a@, b@),
{
    let x = chars_of(a.as_str());
    let y = chars_of(b.as_str());
    let mut i: usize = 0;
    assert(x@.subrange(0, x@.len() as int) =~= x@);
    assert(y@.subrange(0, y@.len() as int) =~= y@);
    while i < x.len() && i < y.len() && x[i] == y[i]
        invariant
            x@ == a@,
            y@ == b@,
            i <= x@.len(),
            i <= y@.len(),
            name_before(a@, b@) == name_before(x@.subrange(i as int, x@.len() as int), y@.subrange(i as int, y@.len() as int)),
        decreases x@.len() - i,
    {
        let ghost xs = x@.subrange(i as int, x@.len() as int);
        let ghost ys = y@.subrange(i as int, y@.len() as int);
        assert(xs.drop_first() =~= x@.subrange(i + 1, x@.len() as int));
        assert(ys.drop_first() =~= y@.subrange(i + 1, y@.len() as int));
        i = i + 1;
    }
    let ghost xs = x@.subrange(i as int, x@.len() as int);
    let ghost ys = y@.subrange(i as int, y@.len() as int);
    if i == x.len() {
        i < y.len()
    } else if i == y.len() {
        false
    } else {
        assert(xs[0] == x@[i as int] && ys[0] == y@[i as int]);
        x[i] < y[i]
    }
}

/// The same entries, put in order of name, still merge the listing.
proof fn lemma_entries_reordered(
    db: Db,
    id: u64,
    dir: Seq<char>,
    index: u64,
    based: Seq<crate::records::FileView>,
    r: Seq<crate::records::FileView>,
    s: Seq<crate::records::FileView>,
)
    requires
        merged_entries(db, id, dir, index, based, r),
        sorted_by_name(s),
        forall|f: crate::records::FileView| s.contains(f) <==> r.contains(f),
    ensures
        merged_listing(db, id, dir, index, based, s),
{
    assert forall|i: int| 0 <= i < s.len() implies r.contains(#[trigger] s[i]) by {
        assert(s.contains(s[i]));
    }
    assert forall|i: int, j: int| 0 <= i < j < s.len() implies (#[trigger] s[i]).filename != (#[trigger] s[j]).filename by {
        if s[i].filename == s[j].filename {
            lemma_before_irreflexive(s[i].filename);
        }
    }
    assert forall|i: int|
        0 <= i < s.len() implies local_entry(db, id, dir, index, #[trigger] s[i]) || (based.contains(s[i])
            && no_local_named(db, id, dir, index, s[i].filename)) by {
        let k = choose|k: int| 0 <= k < r.len() && r[k] == s[i];
    }
    assert forall|i: int| 0 <= i < s.len() implies !(#[trigger] s[i]).deleted by {
        let k = choose|k: int| 0 <= k < r.len() && r[k] == s[i];
    }
}

/// Whether the names of `s` come in order.
pub open spec fn sorted_by_name(s: Seq<crate::records::FileView>) -> bool {
    forall|a: int, b: int| 0 <= a < b < s.len() ==> name_before((#[trigger] s[a]).filename, (#[trigger] s[b]).filename)
}

proof fn lemma_insert_sorted(s: Seq<crate::records::FileView>, f: crate::records::FileView, k: int)
    requires
        0 <= k <= s.len(),
        sorted_by_name(s),
        forall|a: int| 0 <= a < k ==> name_before((#[trigger] s[a]).filename, f.filename),
        forall|a: int| k <= a < s.len() ==> name_before(f.filename, (#[trigger] s[a]).filename),
    ensures
        sorted_by_name(s.insert(k, f)),
        forall|g: crate::records::FileView| s.insert(k, f).contains(g) <==> (s.contains(g) || g == f),
{
    let t = s.insert(k, f);
    assert forall|a: int| 0 <= a < t.len() implies #[trigger] t[a] == (if a < k {
        s[a]
    } else if a == k {
        f
    } else {
        s[a - 1]
    }) by {}
    assert forall|a: int, b: int| 0 <= a < b < t.len() implies name_before((#[trigger] t[a]).filename, (#[trigger] t[b]).filename) by {
        if a < k && b > k {
            lemma_before_transitive(s[a].filename, f.filename, s[b - 1].filename);
        }
    }
    assert forall|g: crate::records::FileView| t.contains(g) <==> (s.contains(g) || g == f) by {
        if t.contains(g) {
            let a = choose|a: int| 0 <= a < t.len() && t[a] == g;
            if a < k {
                assert(s[a] == g);
            } else if a > k {
                assert(s[a - 1] == g);
            }
        }
        if s.contains(g) {
            let a = choose|a: int| 0 <= a < s.len() && s[a] == g;
            if a < k {
                assert(t[a] == g);
            } else {
                assert(t[a + 1] == g);
            }
        }
        if g == f {
            assert(t[k] == g);
        }
    }
}

/// `files` in order of name; their names must differ.
#[verifier::spinoff_prover]
fn sort_by_name(files: Vec<File>) -> (r: Vec<File>)
    requires
        forall|i: int, j: int|
            0 <= i < j < files@.len() ==> (#[trigger] files@[i])@.filename != (#[trigger] files@[j])@.filename,
    ensures
        sorted_by_name(crate::records::files_view(r@)),
        forall|f: crate::records::FileView|
            crate::records::files_view(r@).contains(f) <==> crate::records::files_view(files@).contains(f),
{
    let ghost fv = crate::records::files_view(files@);
    let mut r: Vec<File> = Vec::new();
    let mut i: usize = 0;
    assert(crate::records::files_view(r@) =~= Seq::<crate::records::FileView>::empty());
    while i < files.len()
        invariant
            i <= files@.len(),
            fv == crate::records::files_view(files@),
            forall|a: int, b: int| 0 <= a < b < fv.len() ==> (#[trigger] fv[a]).filename != (#[trigger] fv[b]).filename,
            sorted_by_name(crate::records::files_view(r@)),
            forall|g: crate::records::FileView|
                crate::records::files_view(r@).contains(g) <==> fv.subrange(0, i as int).contains(g),
        decreases files@.len() - i,
    {
        let ghost rv = crate::records::files_view(r@);
        let f = files[i].duplicate();
        assert(f@ == fv[i as int]);
        let mut k: usize = 0;
        while k < r.len() && !name_less(&f.filename, &r[k].filename)
            invariant
                k <= r@.len(),
                i < fv.len(),
                f@ == fv[i as int],
                rv == crate::records::files_view(r@),
                sorted_by_name(rv),
                forall|g: crate::records::FileView| rv.contains(g) <==> fv.subrange(0, i as int).contains(g),
                forall|a: int, b: int| 0 <= a < b < fv.len() ==> (#[trigger] fv[a]).filename != (#[trigger] fv[b]).filename,
                forall|a: int| 0 <= a < k ==> !name_before(f@.filename, (#[trigger] rv[a]).filename),
            decreases r@.len() - k,
        {
            k = k + 1;
        }
        proof {
            assert forall|a: int| 0 <= a < k implies name_before((#[trigger] rv[a]).filename, f@.filename) by {
                assert(rv.contains(rv[a]));
                let prev = fv.subrange(0, i as int);
                let b = choose|b: int| 0 <= b < prev.len() && prev[b] == rv[a];
                assert(fv[b] == rv[a]);
                lemma_before_total(rv[a].filename, f@.filename);
            }
            assert forall|a: int| k <= a < rv.len() implies name_before(f@.filename, (#[trigger] rv[a]).filename) by {
                if a > k {
                    lemma_before_transitive(f@.filename, rv[k as int].filename, rv[a].filename);
                }
            }
            lemma_insert_sorted(rv, f@, k as int);
        }
        r.insert(k, f);
        proof {
            assert(crate::records::files_view(r@) =~= rv.insert(k as int, fv[i as int]));
            assert(fv.subrange(0, i + 1) =~= fv.subrange(0, i as int).push(fv[i as int]));
            let next = fv.subrange(0, i + 1);
            let prev = fv.subrange(0, i as int);
            assert forall|g: crate::records::FileView|
                crate::records::files_view(r@).contains(g) <==> next.contains(g) by {
                assert(rv.insert(k as int, fv[i as int]).contains(g) <==> (rv.contains(g) || g == fv[i as int]));
                assert(rv.contains(g) <==> prev.contains(g));
                if g == fv[i as int] {
                    assert(next[i as int] == g);
                }
                if next.contains(g) && g != fv[i as int] {
                    let b = choose|b: int| 0 <= b < next.len() && next[b] == g;
                    assert(prev[b] == g);
                }
                if prev.contains(g) {
                    let b = choose|b: int| 0 <= b < prev.len() && prev[b] == g;
                    assert(next[b] == g);
                }
            }
        }
        i = i + 1;
    }
    assert(fv.subrange(0, fv.len() as int) =~= fv);
    r
}

/// The repository: a store of changes and files, an optional remote peer,
/// a cache of the peer's answers, the friendly-name index, and a count of
/// the calls made to the peer.
pub struct Repo<S: Store, P: RemotePeer> {
    db: S,
    remote_server: Option<P>,
    cache: QueryCache,
    spaces: NameIndex,
    remote_calls: u64,
    peer_requests: u64,
}

impl<S: Store, P: RemotePeer> Repo<S, P> {
    /// Everything the store holds.
    pub closed spec fn records(&self) -> Db {
        self.db.records()
    }

    pub closed spec fn last_ids(&self) -> Map<(Seq<char>, Seq<char>), u64> {
        self.db.last_ids()
    }

    /// The remote peer, if one is attached.
    pub closed spec fn peer(&self) -> Option<P> {
        self.remote_server
    }

    /// The friendly-name index.
    pub closed spec fn names(&self) -> Map<Seq<char>, u64> {
        self.spaces.view()
    }

    /// How many calls went to the remote peer so far.
    pub closed spec fn remote_calls(&self) -> nat {
        self.remote_calls as nat
    }

    /// The cached answers, oldest first.
    pub closed spec fn cache_entries(&self) -> Seq<(crate::cache::QueryView, crate::cache::ResponseView)> {
        self.cache.entries()
    }

    /// Neither the peer nor the cache was touched between `before` and `self`.
    pub open spec fn untouched(&self, before: &Self) -> bool {
        &&& self.remote_calls() == before.remote_calls()
        &&& self.peer_requests() == before.peer_requests()
        &&& self.cache_entries() == before.cache_entries()
    }

    /// How many snapshots and submits went to the remote peer so far.
    pub closed spec fn peer_requests(&self) -> nat {
        self.peer_requests as nat
    }

    /// Counts one snapshot or submit sent to the peer.
    fn note_request(&mut self)
        requires
            old(self).wf(),
        ensures
            final(self).wf(),
            final(self).peer_requests() == one_more(old(self).peer_requests()),
            final(self).remote_calls() == old(self).remote_calls(),
            final(self).records() == old(self).records(),
            final(self).last_ids() == old(self).last_ids(),
            final(self).peer() == old(self).peer(),
            final(self).names() == old(self).names(),
            final(self).cache_entries() == old(self).cache_entries(),
    {
        if self.peer_requests < u64::MAX {
            self.peer_requests = self.peer_requests + 1;
        }
    }

    /// Counts one call to the peer.
    fn note_call(&mut self)
        requires
            old(self).wf(),
        ensures
            final(self).wf(),
            final(self).remote_calls() == one_more(old(self).remote_calls()),
            final(self).peer_requests() == old(self).peer_requests(),
            final(self).records() == old(self).records(),
            final(self).last_ids() == old(self).last_ids(),
            final(self).peer() == old(self).peer(),
            final(self).names() == old(self).names(),
            final(self).cache_entries() == old(self).cache_entries(),
    {
        if self.remote_calls < u64::MAX {
            self.remote_calls = self.remote_calls + 1;
        }
    }

    /// Whether the answer to `q` is cached.
    pub closed spec fn cached(&self, q: crate::cache::QueryView) -> bool {
        self.cache.holds(q)
    }

    pub closed spec fn wf(&self) -> bool {
        &&& self.db.inv()
        &&& self.cache.wf()
        &&& self.cache.capacity() > 0
        &&& cache_agrees(self.cache.entries(), self.remote_server)
        &&& self.spaces.wf()
        &&& store_ok(self.db.records(), self.db.last_ids())
    }

    /// The state a read-only call leaves: the store, the peer and the names
    /// as they were, no snapshot or submit sent; only the cache and the count
    /// of reads may move.
    pub open spec fn keeps(&self, before: &Self) -> bool {
        &&& self.wf()
        &&& self.records() == before.records()
        &&& self.last_ids() == before.last_ids()
        &&& self.peer() == before.peer()
        &&& self.names() == before.names()
        &&& self.remote_calls() >= before.remote_calls()
        &&& self.peer_requests() == before.peer_requests()
    }

    /// What a remote read of `path` at frame (`id`, `index`) that answered
    /// `r` did: it answered what the peer has; it asked the peer at most once,
    /// and never without a peer; a historical index (not zero) already cached
    /// cost no call and is cached afterwards; the latest (zero) always cost
    /// one call (the count stops at `u64::MAX`).
    pub open spec fn remote_read_done(
        before: &Self,
        after: &Self,
        id: u64,
        path: Seq<char>,
        index: u64,
        r: Option<crate::records::FileView>,
    ) -> bool {
        let q = crate::cache::QueryView::Read(id, path, index);
        &&& after.keeps(before)
        &&& r == remote_file(before.peer(), id, path, index)
        &&& after.remote_calls() <= before.remote_calls() + 1
        &&& before.peer() is None ==> after.untouched(before)
        &&& index == 0 ==> after.cache_entries() == before.cache_entries()
        &&& index != 0 && before.cached(q) ==> after.untouched(before)
        &&& before.peer() is Some && !(index != 0 && before.cached(q)) ==> after.remote_calls() == one_more(
            before.remote_calls(),
        )
        &&& index != 0 && before.peer() is Some ==> after.cached(q)
    }

    /// What a remote listing of `dir` at frame (`id`, `index`) that answered
    /// `r` did, on the same terms as a remote read (see `remote_read_done`).
    pub open spec fn remote_list_done(
        before: &Self,
        after: &Self,
        id: u64,
        dir: Seq<char>,
        index: u64,
        r: Seq<crate::records::FileView>,
    ) -> bool {
        let q = crate::cache::QueryView::ListFiles(id, dir, index);
        &&& after.keeps(before)
        &&& r == remote_listing(before.peer(), id, dir, index)
        &&& after.remote_calls() <= before.remote_calls() + 1
        &&& before.peer() is None ==> after.untouched(before)
        &&& index == 0 ==> after.cache_entries() == before.cache_entries()
        &&& index != 0 && before.cached(q) ==> after.untouched(before)
        &&& before.peer() is Some && !(index != 0 && before.cached(q)) ==> after.remote_calls() == one_more(
            before.remote_calls(),
        )
        &&& index != 0 && before.peer() is Some ==> after.cached(q)
    }

    /// Attaches the remote peer; the answers cached from an earlier peer go.
    pub fn add_remote_server(&mut self, client: P)
        requires
            old(self).wf(),
        ensures
            final(self).wf(),
            final(self).peer() == Some(client),
            final(self).records() == old(self).records(),
            final(self).last_ids() == old(self).last_ids(),
            final(self).names() == old(self).names(),
            final(self).remote_calls() == old(self).remote_calls(),
    {
        self.remote_server = Some(client);
        self.cache = QueryCache::new(CACHE_SIZE);
    }

    /// The change id that `friendly_name` stands for.
    pub fn lookup_friendly_name(&self, friendly_name: &str) -> (r: Option<u64>)
        requires
            self.wf(),
        ensures
            r == (if self.names().contains_key(friendly_name@) {
                Some(self.names()[friendly_name@])
            } else {
                None
            }),
    {
        self.spaces.get(friendly_name)
    }

    /// The metadata of change `id`.
    pub fn get_change(&self, id: u64) -> (r: Option<Change>)
        requires
            self.wf(),
        ensures
            match r {
                Some(c) => change_in(self.records(), id) == Some(c@),
                None => change_in(self.records(), id) is None,
            },
    {
        proof {
            reveal_strlit("metadata");
        }
        assert("metadata"@ =~= metadata_row());
        match self.db.read_record("metadata", change_to_rowname(id).as_str(), 0) {
            Some(Record::Change(c)) => Some(c),
            _ => None,
        }
    }

    /// Reads `path` from the remote peer at frame (`id`, `index`), through the
    /// cache. Answers for a historical index (not zero) are cached; the
    /// latest (zero) always goes to the peer.
    pub fn read_remote(&mut self, id: u64, path: &str, index: u64) -> (r: Option<File>)
        requires
            old(self).wf(),
        ensures
            Self::remote_read_done(old(self), final(self), id, path@, index, opt_file_view(r)),
    {
        let filename = normalize_filename(path);
        let query = ReadQuery::Read(id, path.to_owned(), index);
        if index != 0 {
            match self.cache.get(&query) {
                Some(ReadResponse::Read(f)) => {
                    return if f.found {
                        Some(f)
                    } else {
                        None
                    };
                },
                _ => {},
            }
        }
        match &self.remote_server {
            Some(client) => {
                let ident = FileIdentifier { id, filename, index };
                let file = client.read(&ident);
                self.note_call();
                if index != 0 {
                    self.cache.insert(query, ReadResponse::Read(file.duplicate()));
                }
                if file.found {
                    Some(file)
                } else {
                    None
                }
            },
            None => None,
        }
    }

    fn read_within(&mut self, id: u64, path: &str, index: u64, depth: u64) -> (r: Option<File>)
        requires
            old(self).wf(),
        ensures
            final(self).keeps(old(self)),
            opt_file_view(r) == resolved(old(self).records(), old(self).peer(), id, path@, index, depth as nat),
            final(self).remote_calls() <= old(self).remote_calls() + 1,
            depth == 0 || change_in(old(self).records(), id) is None || old(self).peer() is None
                ==> final(self).untouched(old(self)),
        decreases depth,
    {
        if depth == 0 {
            return None;
        }
        let filename = normalize_filename(path);
        let change = match self.get_change(id) {
            Some(c) => c,
            None => return None,
        };
        match self.db.read_record(change_to_rowname(id).as_str(), path_to_colname(filename.as_str()).as_str(), index) {
            Some(Record::File(mut file)) => {
                if file.deleted {
                    return None;
                }
                file.found = true;
                return Some(file);
            },
            _ => {},
        }
        if change.is_based_locally {
            self.read_within(change.based_id, filename.as_str(), change.based_index, depth - 1)
        } else {
            self.read_remote(change.based_id, filename.as_str(), change.based_index)
        }
    }

    /// What `path` is in change `id` at `index`: the change's own write if it
    /// has one (marked found; nothing where it is a deletion), else what its
    /// based frame has, locally or at the remote peer. Nothing for an unknown
    /// change, which costs no call to the peer; a read makes at most one.
    pub fn read(&mut self, id: u64, path: &str, index: u64) -> (r: Option<File>)
        requires
            old(self).wf(),
        ensures
            final(self).keeps(old(self)),
            opt_file_view(r) == read_result(old(self).records(), old(self).peer(), id, path@, index),
            final(self).remote_calls() <= old(self).remote_calls() + 1,
            change_in(old(self).records(), id) is None || old(self).peer() is None
                ==> final(self).untouched(old(self)),
    {
        self.read_within(id, path, index, MAX_BASE_DEPTH)
    }

    /// Makes sure directory `path` exists in change `id` at `index`: where a
    /// read finds nothing there, writes a directory marker.
    pub fn create_directory(&mut self, id: u64, path: &str, index: u64)
        requires
            old(self).wf(),
        ensures
            final(self).wf(),
            final(self).records() == with_directory(old(self).records(), old(self).peer(), id, path@, index),
            final(self).last_ids() == old(self).last_ids(),
            final(self).peer() == old(self).peer(),
            final(self).names() == old(self).names(),
    {
        if self.read(id, path, index).is_some() {
            return;
        }
        let dir = File {
            filename: path.to_owned(),
            contents: Vec::new(),
            found: true,
            deleted: false,
            directory: true,
            snapshot_id: 0,
            change_id: 0,
        };
        assert(dir@ == dir_marker(path@));
        proof {
            lemma_file_write_ok(
                self.records(),
                self.last_ids(),
                id,
                (crate::keyspace::rowname_of(id), crate::keyspace::colname_of(path@), index),
                crate::records::RecordView::File(dir@),
            );
        }
        self.db.write_record(change_to_rowname(id).as_str(), path_to_colname(path).as_str(), index, Record::File(dir));
    }

    /// Writes `file` to change `id` at `index`, marked found, after making
    /// sure every directory above it exists.
    pub fn write(&mut self, id: u64, file: File, index: u64)
        requires
            old(self).wf(),
        ensures
            final(self).wf(),
            final(self).records() == written(old(self).records(), old(self).peer(), id, file@, index),
            final(self).last_ids() == old(self).last_ids(),
            final(self).peer() == old(self).peer(),
            final(self).names() == old(self).names(),
    {
        let ghost given = file@;
        let mut file = file;
        let mut directory = parent_directory(file.filename.as_str());
        proof {
            reveal_with_fuel(crate::keyspace::trim_start_slashes, 1);
        }
        let ghost start = self.records();
        while directory.unicode_len() > 1
            invariant
                self.wf(),
                directory@.len() >= 1,
                directory@[0] == '/',
                with_ancestors(start, self.peer(), id, crate::keyspace::parent_of(file.filename@), index)
                    == with_ancestors(self.records(), self.peer(), id, directory@, index),
                self.last_ids() == old(self).last_ids(),
                self.peer() == old(self).peer(),
                self.names() == old(self).names(),
                start == old(self).records(),
                file@ == given,
            decreases directory@.len(),
        {
            proof {
                crate::keyspace::lemma_parent_shorter(directory@);
            }
            self.create_directory(id, directory.as_str(), index);
            directory = parent_directory(directory.as_str());
        }
        file.found = true;
        proof {
            lemma_file_write_ok(
                self.records(),
                self.last_ids(),
                id,
                (crate::keyspace::rowname_of(id), crate::keyspace::colname_of(file.filename@), index),
                crate::records::RecordView::File(file@),
            );
        }
        self.db.write_record(
            change_to_rowname(id).as_str(),
            path_to_colname(file.filename.as_str()).as_str(),
            index,
            Record::File(file),
        );
    }

    /// Deletes `path` in change `id` at `index` by writing a tombstone: a
    /// record flagged deleted.
    pub fn delete(&mut self, id: u64, path: &str, index: u64)
        requires
            old(self).wf(),
        ensures
            final(self).wf(),
            final(self).records() == written(old(self).records(), old(self).peer(), id, tombstone(path@), index),
            final(self).last_ids() == old(self).last_ids(),
            final(self).peer() == old(self).peer(),
            final(self).names() == old(self).names(),
    {
        let mut file = File::new();
        file.filename = path.to_owned();
        file.deleted = true;
        self.write(id, file, index)
    }

    /// Reserves a fresh change id: one more than the last.
    pub fn reserve_change_id(&mut self) -> (r: u64)
        requires
            old(self).wf(),
            crate::store::last_id_of(old(self).last_ids(), change_ids_ns(), Seq::empty()) < u64::MAX,
        ensures
            final(self).untouched(old(self)),
            final(self).wf(),
            r == crate::store::last_id_of(old(self).last_ids(), change_ids_ns(), Seq::empty()) + 1,
            final(self).last_ids() == old(self).last_ids().insert((change_ids_ns(), Seq::empty()), r),
            final(self).records() == old(self).records(),
            final(self).peer() == old(self).peer(),
            final(self).names() == old(self).names(),
    {
        proof {
            reveal_strlit("");
        }
        assert(""@ =~= Seq::<char>::empty());
        proof {
            lemma_reserve_change_ok(self.records(), self.last_ids(), (last_change_id(self.last_ids()) + 1) as u64);
        }
        self.db.reserve_id("change_ids", "")
    }

    fn snapshots_rowname(id: u64) -> (r: String)
        ensures
            r@ == snapshots_row(id),
    {
        let mut r = string_of(&chars_of("snapshots/"));
        push_decimal(&mut r, id as u128);
        r
    }

    fn decimal_string(n: u64) -> (r: String)
        ensures
            r@ == crate::text::decimal(n as nat),
    {
        let mut r = String::new();
        push_decimal(&mut r, n as u128);
        assert(r@ =~= crate::text::decimal(n as nat));
        r
    }

    /// Appends `entry` to the log of change `id`.
    fn log_snapshot(&mut self, id: u64, entry: crate::records::SnapshotLogEntry)
        requires
            old(self).wf(),
            crate::store::last_id_of(old(self).last_ids(), snapshot_ids_ns(), crate::text::decimal(id as nat))
                < u64::MAX,
            id <= last_change_id(old(self).last_ids()),
            entry.index <= last_snapshot_index(old(self).last_ids()),
        ensures
            final(self).untouched(old(self)),
            final(self).wf(),
            ({
                let k = crate::store::last_id_of(
                    old(self).last_ids(),
                    snapshot_ids_ns(),
                    crate::text::decimal(id as nat),
                ) + 1;
                &&& final(self).records() == old(self).records().insert(
                    (snapshots_row(id), crate::text::decimal(k as nat), 0),
                    crate::records::RecordView::Entry(entry),
                )
                &&& final(self).last_ids() == old(self).last_ids().insert(
                    (snapshot_ids_ns(), crate::text::decimal(id as nat)),
                    k as u64,
                )
            }),
            log_of(final(self).records(), final(self).last_ids(), id) == log_of(
                old(self).records(),
                old(self).last_ids(),
                id,
            ).push(entry),
            final(self).peer() == old(self).peer(),
            final(self).names() == old(self).names(),
    {
        let row = Self::snapshots_rowname(id);
        let seed = Self::decimal_string(id);
        proof {
            lemma_reserve_log_ok(
                self.records(),
                self.last_ids(),
                id,
                (crate::store::last_id_of(self.last_ids(), snapshot_ids_ns(), crate::text::decimal(id as nat)) + 1) as u64,
            );
            lemma_namespaces_differ();
        }
        let k = self.db.reserve_id("snapshots_ids", seed.as_str());
        let column = Self::decimal_string(k);
        proof {
            lemma_log_write_ok(self.records(), self.last_ids(), id, k as nat, entry);
        }
        self.db.write_record(row.as_str(), column.as_str(), 0, Record::Entry(entry));
        proof {
            lemma_log_append(old(self).records(), id, (k - 1) as nat, entry);
        }
    }

    /// Stores `change`, whose id was handed out, as its metadata and lets its
    /// friendly name stand for it.
    pub fn update_change(&mut self, change: &Change)
        requires
            old(self).wf(),
            change.id <= last_change_id(old(self).last_ids()),
        ensures
            final(self).untouched(old(self)),
            final(self).wf(),
            final(self).records() == old(self).records().insert(
                (metadata_row(), crate::keyspace::rowname_of(change.id), 0),
                crate::records::RecordView::Change(change@),
            ),
            final(self).last_ids() == old(self).last_ids(),
            final(self).peer() == old(self).peer(),
            final(self).names() == old(self).names().insert(change.friendly_name@, change.id),
    {
        self.spaces.insert(change.friendly_name.as_str(), change.id);
        proof {
            reveal_strlit("metadata");
        }
        assert("metadata"@ =~= metadata_row());
        proof {
            lemma_change_write_ok(self.records(), self.last_ids(), change@);
        }
        self.db.write_record("metadata", change_to_rowname(change.id).as_str(), 0, Record::Change(change.duplicate()));
    }

    /// Creates a change from `change`, stamped at `now`: reserves its id,
    /// bases it on the remote head where it names no frame of its own and a
    /// peer is attached, stores it, logs its frame as the first (rebase) entry
    /// and registers its friendly name. Returns the id.
    pub fn make_change(&mut self, change: Change, now: u64) -> (r: u64)
        requires
            old(self).wf(),
            crate::store::last_id_of(old(self).last_ids(), change_ids_ns(), Seq::empty()) < u64::MAX,
            crate::store::last_id_of(
                old(self).last_ids(),
                snapshot_ids_ns(),
                crate::text::decimal(
                    (crate::store::last_id_of(old(self).last_ids(), change_ids_ns(), Seq::empty()) + 1) as nat,
                ),
            ) < u64::MAX,
        ensures
            final(self).wf(),
            r == crate::store::last_id_of(old(self).last_ids(), change_ids_ns(), Seq::empty()) + 1,
            final(self).remote_calls() == if binds_to_head(change@, head_of(old(self).peer())) {
                one_more(old(self).remote_calls())
            } else {
                old(self).remote_calls()
            },
            change_in(final(self).records(), r) matches Some(c) && made_from(
                change@,
                r,
                now,
                head_of(old(self).peer()),
                c,
            ) && log_of(final(self).records(), final(self).last_ids(), r) == log_of(
                old(self).records(),
                old(self).last_ids(),
                r,
            ).push(rebase_entry(c.based_id, c.based_index)) && final(self).records() == old(
                self,
            ).records().insert(
                (metadata_row(), crate::keyspace::rowname_of(r), 0),
                crate::records::RecordView::Change(c),
            ).insert(
                (snapshots_row(r), crate::text::decimal(1), 0),
                crate::records::RecordView::Entry(rebase_entry(c.based_id, c.based_index)),
            ),
            final(self).last_ids() == old(self).last_ids().insert((change_ids_ns(), Seq::empty()), r).insert(
                (snapshot_ids_ns(), crate::text::decimal(r as nat)),
                1,
            ),
            final(self).peer_requests() == old(self).peer_requests(),
            log_of(old(self).records(), old(self).last_ids(), r).len() == 0,
            forall|k: u64| change_in(old(self).records(), k) is Some ==> k != r,
            final(self).peer() == old(self).peer(),
            final(self).names() == old(self).names().insert(change@.friendly_name, r),
    {
        proof {
            let r0 = (last_change_id(old(self).last_ids()) + 1) as u64;
            assert(crate::store::last_id_of(old(self).last_ids(), snapshot_ids_ns(), crate::text::decimal(r0 as nat)) == 0);
            assert forall|k: u64| change_in(old(self).records(), k) is Some implies k != r0 by {
                assert(k <= last_change_id(old(self).last_ids()));
            }
        }
        let mut change = change;
        let id = self.reserve_change_id();
        change.id = id;
        change.last_modified_timestamp = now;
        let mut asked = false;
        if !change.is_based_locally && change.based_index == 0 {
            match &self.remote_server {
                Some(client) => {
                    let latest = client.get_latest_change();
                    change.based_id = 0;
                    change.based_index = latest.id;
                    asked = true;
                },
                None => {},
            }
        }
        if asked {
            self.note_call();
        }
        change.found = true;
        let ghost before = self.records();
        let ghost ids = self.last_ids();
        self.update_change(&change);
        proof {
            lemma_rows_differ(id, id);
            lemma_log_untouched(
                before,
                (metadata_row(), crate::keyspace::rowname_of(id), 0),
                crate::records::RecordView::Change(change@),
                id,
                crate::store::last_id_of(ids, snapshot_ids_ns(), crate::text::decimal(id as nat)) as nat,
            );
        }
        let entry = crate::records::SnapshotLogEntry {
            index: 0,
            is_rebase: true,
            based_id: change.based_id,
            based_index: change.based_index,
        };
        self.log_snapshot(id, entry);
        proof {
            lemma_rows_differ(id, id);
        }
        assert(change_in(self.records(), id) == Some(change@));
        id
    }

    /// Removes the metadata of change `id` and forgets its friendly name; does
    /// nothing where there is no such change.
    pub fn delete_change(&mut self, id: u64)
        requires
            old(self).wf(),
        ensures
            final(self).untouched(old(self)),
            final(self).wf(),
            final(self).last_ids() == old(self).last_ids(),
            final(self).peer() == old(self).peer(),
            match change_in(old(self).records(), id) {
                Some(c) => {
                    &&& final(self).records() == crate::store::without_cell(
                        old(self).records(),
                        metadata_row(),
                        crate::keyspace::rowname_of(id),
                    )
                    &&& final(self).names() == old(self).names().remove(c.friendly_name)
                },
                None => final(self).records() == old(self).records() && final(self).names() == old(
                    self,
                ).names(),
            },
    {
        let change = match self.get_change(id) {
            Some(c) => c,
            None => return,
        };
        proof {
            reveal_strlit("metadata");
        }
        assert("metadata"@ =~= metadata_row());
        proof {
            lemma_change_delete_ok(self.records(), self.last_ids(), crate::keyspace::rowname_of(id));
        }
        self.db.delete_record("metadata", change_to_rowname(id).as_str());
        self.spaces.remove(change.friendly_name.as_str());
    }

    /// Every stored change.
    #[verifier::spinoff_prover]
    pub fn list_changes(&self) -> (r: Vec<Change>)
        requires
            self.wf(),
        ensures
            forall|i: int|
                0 <= i < r@.len() ==> is_stored_change(self.records(), (#[trigger] r@[i])@),
            forall|col: Seq<char>|
                #[trigger] change_at_column(self.records(), col) is Some ==> exists|i: int|
                    0 <= i < r@.len() && Some((#[trigger] r@[i])@) == change_at_column(self.records(), col),
    {
        proof {
            reveal_strlit("metadata");
            reveal_strlit("");
        }
        assert("metadata"@ =~= metadata_row());
        let found = self.db.scan("metadata", "", 0);
        let ghost fv = crate::store::scan_view(found@);
        let mut r: Vec<Change> = Vec::new();
        let mut i: usize = 0;
        while i < found.len()
            invariant
                i <= found@.len(),
                fv == crate::store::scan_view(found@),
                crate::store::scan_result(self.records(), metadata_row(), ""@, 0, fv),
                forall|k: int|
                    0 <= k < r@.len() ==> is_stored_change(self.records(), (#[trigger] r@[k])@),
                forall|j: int|
                    0 <= j < i && (#[trigger] fv[j]).1 is Change ==> exists|k: int|
                        0 <= k < r@.len() && crate::records::RecordView::Change((#[trigger] r@[k])@)
                            == fv[j].1,
            decreases found@.len() - i,
        {
            assert(fv[i as int] == (found@[i as int].0@, found@[i as int].1@));
            let ghost r0 = r@;
            match &found[i].1 {
                Record::Change(c) => {
                    let c2 = c.duplicate();
                    r.push(c2);
                    proof {
                        let col = fv[i as int].0;
                        assert(change_at_column(self.records(), col) == Some(c@));
                        assert forall|k: int|
                            0 <= k < r@.len() implies is_stored_change(self.records(), (#[trigger] r@[k])@) by {
                            if k < r0.len() {
                                assert(r@[k] == r0[k]);
                            } else {
                                assert(change_at_column(self.records(), col) == Some(r@[k]@));
                            }
                        }
                        assert forall|j: int|
                            0 <= j < i + 1 && (#[trigger] fv[j]).1 is Change implies exists|k: int|
                                0 <= k < r@.len() && crate::records::RecordView::Change((#[trigger] r@[k])@)
                                    == fv[j].1 by {
                            if j < i {
                                let k = choose|k: int|
                                    0 <= k < r0.len() && crate::records::RecordView::Change((#[trigger] r0[k])@)
                                        == fv[j].1;
                                assert(r@[k] == r0[k]);
                            } else {
                                assert(crate::records::RecordView::Change(r@[r0.len() as int]@) == fv[j].1);
                            }
                        }
                    }
                },
                _ => {},
            }
            i = i + 1;
        }
        proof {
            assert forall|col: Seq<char>|
                #[trigger] change_at_column(self.records(), col) is Some implies exists|i: int|
                    0 <= i < r@.len() && Some((#[trigger] r@[i])@) == change_at_column(self.records(), col) by {
                let c = change_at_column(self.records(), col)->0;
                assert(""@.is_prefix_of(col));
                assert(self.records().contains_key((metadata_row(), col, 0)));
                let j = choose|j: int| 0 <= j < fv.len() && (#[trigger] fv[j]).0 == col;
                assert(fv[j].1 == crate::records::RecordView::Change(c));
                let k = choose|k: int|
                    0 <= k < r@.len() && crate::records::RecordView::Change((#[trigger] r@[k])@) == fv[j].1;
                assert(r@[k]@ == c);
            }
        }
        r
    }

    /// The snapshot log of change `id`, in order.
    pub fn list_snapshots(&self, id: u64) -> (r: Vec<crate::records::SnapshotLogEntry>)
        requires
            self.wf(),
        ensures
            r@ == log_of(self.records(), self.last_ids(), id),
    {
        let row = Self::snapshots_rowname(id);
        let seed = Self::decimal_string(id);
        let n = self.db.last_id("snapshots_ids", seed.as_str());
        let mut r: Vec<crate::records::SnapshotLogEntry> = Vec::new();
        let mut k: u64 = 0;
        while k < n
            invariant
                k <= n,
                n == crate::store::last_id_of(self.last_ids(), snapshot_ids_ns(), crate::text::decimal(id as nat)),
                row@ == snapshots_row(id),
                r@ == log_upto(self.records(), id, k as nat),
                self.wf(),
            decreases n - k,
        {
            k = k + 1;
            let column = Self::decimal_string(k);
            match self.db.read_record(row.as_str(), column.as_str(), 0) {
                Some(Record::Entry(e)) => {
                    r.push(e);
                    assert(r@ =~= log_upto(self.records(), id, k as nat));
                },
                _ => {
                    assert(r@ =~= log_upto(self.records(), id, k as nat));
                },
            }
        }
        r
    }

    /// A repository over `client`, with no remote peer. The store must hang
    /// together as `store_ok` says (an empty store does). The friendly-name
    /// index is built from the changes already stored.
    #[verifier::spinoff_prover]
    pub fn new(client: S) -> (r: Self)
        requires
            client.inv(),
            store_ok(client.records(), client.last_ids()),
        ensures
            r.wf(),
            r.records() == client.records(),
            r.last_ids() == client.last_ids(),
            r.peer() is None,
            r.remote_calls() == 0,
            forall|n: Seq<char>|
                #[trigger] r.names().contains_key(n) <==> exists|c: crate::records::ChangeView|
                    is_stored_change(client.records(), c) && c.friendly_name == n,
            forall|n: Seq<char>|
                #[trigger] r.names().contains_key(n) ==> exists|c: crate::records::ChangeView|
                    is_stored_change(client.records(), c) && c.friendly_name == n && c.id == r.names()[n],
    {
        let mut repo = Repo {
            db: client,
            remote_server: None,
            cache: QueryCache::new(CACHE_SIZE),
            spaces: NameIndex::new(),
            remote_calls: 0,
            peer_requests: 0,
        };
        let changes = repo.list_changes();
        let mut i: usize = 0;
        while i < changes.len()
            invariant
                repo.wf(),
                repo.records() == client.records(),
                repo.last_ids() == client.last_ids(),
                repo.peer() is None,
                repo.remote_calls() == 0,
                i <= changes@.len(),
                forall|k: int| 0 <= k < changes@.len() ==> is_stored_change(client.records(), (#[trigger] changes@[k])@),
                forall|c: crate::records::ChangeView|
                    is_stored_change(client.records(), c) ==> exists|k: int|
                        0 <= k < changes@.len() && (#[trigger] changes@[k])@ == c,
                forall|n: Seq<char>|
                    #[trigger] repo.names().contains_key(n) <==> exists|k: int|
                        0 <= k < i && (#[trigger] changes@[k])@.friendly_name == n,
                forall|n: Seq<char>|
                    #[trigger] repo.names().contains_key(n) ==> exists|k: int|
                        0 <= k < i && (#[trigger] changes@[k])@.friendly_name == n && changes@[k].id
                            == repo.names()[n],
            decreases changes@.len() - i,
        {
            let ghost before = repo.names();
            repo.spaces.insert(changes[i].friendly_name.as_str(), changes[i].id);
            proof {
                let ni = changes@[i as int]@.friendly_name;
                assert forall|n: Seq<char>|
                    #[trigger] repo.names().contains_key(n) <==> exists|k: int|
                        0 <= k < i + 1 && (#[trigger] changes@[k])@.friendly_name == n by {
                    if n != ni && repo.names().contains_key(n) {
                        let k = choose|k: int| 0 <= k < i && (#[trigger] changes@[k])@.friendly_name == n;
                        assert(0 <= k < i + 1);
                    }
                    if n != ni && (exists|k: int| 0 <= k < i + 1 && (#[trigger] changes@[k])@.friendly_name == n) {
                        let k = choose|k: int| 0 <= k < i + 1 && (#[trigger] changes@[k])@.friendly_name == n;
                        assert(k < i);
                    }
                    if n == ni {
                        assert(changes@[i as int]@.friendly_name == n);
                    }
                }
                assert forall|n: Seq<char>|
                    #[trigger] repo.names().contains_key(n) implies exists|k: int|
                        0 <= k < i + 1 && (#[trigger] changes@[k])@.friendly_name == n && changes@[k].id
                            == repo.names()[n] by {
                    if n == ni {
                        assert(changes@[i as int]@.friendly_name == n && changes@[i as int].id == repo.names()[n]);
                    } else {
                        let k = choose|k: int|
                            0 <= k < i && (#[trigger] changes@[k])@.friendly_name == n && changes@[k].id
                                == before[n];
                        assert(0 <= k < i + 1);
                    }
                }
            }
            i = i + 1;
        }
        proof {
            assert forall|n: Seq<char>|
                #[trigger] repo.names().contains_key(n) <==> exists|c: crate::records::ChangeView|
                    is_stored_change(client.records(), c) && c.friendly_name == n by {
                if repo.names().contains_key(n) {
                    let k = choose|k: int| 0 <= k < i && (#[trigger] changes@[k])@.friendly_name == n;
                    assert(is_stored_change(client.records(), changes@[k]@));
                }
                if exists|c: crate::records::ChangeView| is_stored_change(client.records(), c) && c.friendly_name == n {
                    let c = choose|c: crate::records::ChangeView| is_stored_change(client.records(), c) && c.friendly_name == n;
                    let k = choose|k: int| 0 <= k < changes@.len() && (#[trigger] changes@[k])@ == c;
                    assert(changes@[k]@.friendly_name == n);
                }
            }
            assert forall|n: Seq<char>|
                #[trigger] repo.names().contains_key(n) implies exists|c: crate::records::ChangeView|
                    is_stored_change(client.records(), c) && c.friendly_name == n && c.id == repo.names()[n] by {
                let k = choose|k: int|
                    0 <= k < i && (#[trigger] changes@[k])@.friendly_name == n && changes@[k].id == repo.names()[n];
                assert(is_stored_change(client.records(), changes@[k]@));
            }
        }
        repo
    }

    /// Stores an empty change, carrying only the id, as the metadata of `id`.
    pub fn initialize_head(&mut self, id: u64)
        requires
            old(self).wf(),
            id <= last_change_id(old(self).last_ids()),
        ensures
            final(self).untouched(old(self)),
            final(self).wf(),
            final(self).records() == old(self).records().insert(
                (metadata_row(), crate::keyspace::rowname_of(id), 0),
                crate::records::RecordView::Change(crate::records::ChangeView { id, ..crate::records::empty_change() }),
            ),
            final(self).last_ids() == old(self).last_ids(),
            final(self).peer() == old(self).peer(),
            final(self).names() == old(self).names(),
    {
        proof {
            reveal_strlit("metadata");
        }
        assert("metadata"@ =~= metadata_row());
        let mut head = Change::new();
        head.id = id;
        proof {
            lemma_change_write_ok(self.records(), self.last_ids(), head@);
        }
        self.db.write_record("metadata", change_to_rowname(id).as_str(), 0, Record::Change(head));
    }

    /// Lists directory `directory` at the remote peer's frame (`id`,
    /// `index`), through the cache; nothing where there is no peer.
    pub fn list_files_remote(&mut self, id: u64, directory: &str, index: u64) -> (r: Vec<File>)
        requires
            old(self).wf(),
        ensures
            Self::remote_list_done(old(self), final(self), id, directory@, index, crate::records::files_view(r@)),
    {
        let query = ReadQuery::ListFiles(id, directory.to_owned(), index);
        if index != 0 {
            match self.cache.get(&query) {
                Some(ReadResponse::ListFiles(v)) => {
                    return v;
                },
                _ => {},
            }
        }
        match &self.remote_server {
            Some(client) => {
                let ident = FileIdentifier { id, filename: directory.to_owned(), index };
                let response = client.list_files(&ident);
                self.note_call();
                if index != 0 {
                    self.cache.insert(query, ReadResponse::ListFiles(crate::records::copy_files(&response)));
                }
                response
            },
            None => {
                let r: Vec<File> = Vec::new();
                assert(crate::records::files_view(r@) =~= Seq::<crate::records::FileView>::empty());
                r
            },
        }
    }

    #[verifier::spinoff_prover]
    fn list_files_within(&mut self, id: u64, directory: &str, index: u64, depth: u64) -> (r: Vec<File>)
        requires
            old(self).wf(),
        ensures
            final(self).keeps(old(self)),
            listed(old(self).records(), old(self).peer(), id, directory@, index, depth as nat, crate::records::files_view(r@)),
        decreases depth,
    {
        if depth == 0 {
            let r: Vec<File> = Vec::new();
            assert(crate::records::files_view(r@).len() == 0);
            return r;
        }
        let directory = normalize_directory(directory);
        let change = match self.get_change(id) {
            Some(c) => c,
            None => {
                let r: Vec<File> = Vec::new();
                assert(crate::records::files_view(r@).len() == 0);
                return r;
            },
        };
        let ghost db = self.records();
        let ghost d = directory@;
        let found = self.db.scan(change_to_rowname(id).as_str(), path_to_colname(directory.as_str()).as_str(), index);
        let mut files = collect_local(&found, Ghost(db), Ghost(id), Ghost(d), Ghost(index));
        let ghost local = files@;
        let based = if change.is_based_locally {
            self.list_files_within(change.based_id, directory.as_str(), change.based_index, depth - 1)
        } else {
            self.list_files_remote(change.based_id, directory.as_str(), change.based_index)
        };
        let ghost bv = crate::records::files_view(based@);
        add_based(&mut files, based, Ghost(db), Ghost(id), Ghost(d), Ghost(index));
        let ghost merged = files@;
        let r = drop_deleted(files);
        let ghost dv = crate::records::files_view(r@);
        proof {
            let rv = crate::records::files_view(r@);
            assert forall|i: int| 0 <= i < rv.len() implies !(#[trigger] rv[i]).deleted by {
                assert(rv[i] == r@[i]@);
            }
            assert forall|i: int, j: int|
                0 <= i < j < rv.len() implies (#[trigger] rv[i]).filename != (#[trigger] rv[j]).filename by {
                assert(rv[i] == r@[i]@);
                assert(rv[j] == r@[j]@);
            }
            assert forall|i: int|
                0 <= i < rv.len() implies local_entry(db, id, d, index, #[trigger] rv[i]) || (bv.contains(rv[i])
                    && no_local_named(db, id, d, index, rv[i].filename)) by {
                assert(rv[i] == r@[i]@);
                let mv = crate::records::files_view(merged);
                let m = choose|m: int| 0 <= m < mv.len() && mv[m] == r@[i]@;
                assert(mv[m] == merged[m]@);
            }
            assert forall|f: crate::records::FileView|
                #[trigger] local_entry(db, id, d, index, f) && !f.deleted && (forall|g: crate::records::FileView|
                    #[trigger] local_entry(db, id, d, index, g) && g.filename == f.filename ==> g == f)
                    implies rv.contains(f) by {
                let k = choose|k: int| 0 <= k < local.len() && (#[trigger] local[k])@.filename == f.filename;
                assert(merged[k] == local[k]);
                assert(local_entry(db, id, d, index, local[k]@));
                assert(local[k]@ == f);
                assert(!merged[k]@.deleted);
            }
            assert forall|j: int|
                0 <= j < bv.len() && !(#[trigger] bv[j]).deleted && no_local_named(db, id, d, index, bv[j].filename) && (
                forall|k: int| 0 <= k < j ==> (#[trigger] bv[k]).filename != bv[j].filename)
                    implies rv.contains(bv[j]) by {
                assert(bv[j] == based@[j]@);
                assert forall|k: int| 0 <= k < j implies (#[trigger] based@[k])@.filename != based@[j]@.filename by {
                    assert(bv[k] == based@[k]@);
                }
                let m = choose|m: int| 0 <= m < merged.len() && (#[trigger] merged[m])@ == based@[j]@;
                assert(!merged[m]@.deleted);
            }
            assert(merged_entries(db, id, d, index, bv, rv));
        }
        let r = sort_by_name(r);
        proof {
            lemma_entries_reordered(db, id, d, index, bv, dv, crate::records::files_view(r@));
        }
        r
    }

    /// The files directly under `directory` in change `id` at `index`, in
    /// order of name: the change's own entries merged with its based frame's
    /// listing, its own entries winning where names collide, and no entry
    /// flagged deleted. Nothing for an unknown change.
    pub fn list_files(&mut self, id: u64, directory: &str, index: u64) -> (r: Vec<File>)
        requires
            old(self).wf(),
        ensures
            final(self).keeps(old(self)),
            listed(
                old(self).records(),
                old(self).peer(),
                id,
                directory@,
                index,
                MAX_BASE_DEPTH as nat,
                crate::records::files_view(r@),
            ),
    {
        self.list_files_within(id, directory, index, MAX_BASE_DEPTH)
    }

    /// The version of `name` that `change` is based on.
    pub(crate) fn based_file(&mut self, change: &Change, name: &str) -> (r: File)
        requires
            old(self).wf(),
        ensures
            final(self).keeps(old(self)),
            r@ == based_version(old(self).records(), old(self).peer(), change@, name@),
            old(self).peer() is None ==> final(self).untouched(old(self)),
    {
        let maybe = if change.is_based_locally {
            self.read(change.based_id, name, change.based_index)
        } else {
            self.read_remote(change.based_id, name, change.based_index)
        };
        match maybe {
            Some(f) => f,
            None => File::new(),
        }
    }

    /// Recomputes the staged files of `change`: each working file (index
    /// zero) that differs from its based version, leaving out deletions of
    /// files the based frame never had.
    #[verifier::spinoff_prover]
    pub fn fill_change(&mut self, change: &mut Change)
        requires
            old(self).wf(),
        ensures
            final(self).keeps(old(self)),
            filled(old(self).records(), old(self).peer(), old(change)@, final(change)@),
            old(self).peer() is None ==> final(self).untouched(old(self)),
    {
        let id = change.id;
        change.staged_files.clear();
        assert(change@.staged_files =~= Seq::<crate::records::FileView>::empty());
        let ghost db = self.records();
        let ghost peer = self.peer();
        let ghost c0 = old(change)@;
        proof {
            reveal_strlit("");
        }
        let found = self.db.scan(change_to_rowname(id).as_str(), "", 0);
        let ghost fv = crate::store::scan_view(found@);
        let mut i: usize = 0;
        while i < found.len()
            invariant
                self.keeps(old(self)),
                old(self).peer() is None ==> self.untouched(old(self)),
                db == old(self).records(),
                peer == old(self).peer(),
                i <= found@.len(),
                fv == crate::store::scan_view(found@),
                crate::store::scan_result(db, crate::keyspace::rowname_of(id), ""@, 0, fv),
                id == c0.id,
                change@ == (crate::records::ChangeView { staged_files: change@.staged_files, ..c0 }),
                forall|f: crate::records::FileView|
                    #[trigger] change@.staged_files.contains(f) ==> working_file(db, id, f) && is_staged(
                        db,
                        peer,
                        c0,
                        f,
                    ),
                forall|j: int|
                    0 <= j < i && (#[trigger] fv[j]).1 is File && is_staged(db, peer, c0, fv[j].1->File_0)
                        ==> change@.staged_files.contains(fv[j].1->File_0),
                forall|id2: u64, col: Seq<char>, index: u64| #[trigger] file_at_column(db, id2, col, index) is Some
                    ==> col == crate::keyspace::colname_of(file_at_column(db, id2, col, index)->0.filename),
                forall|a: int|
                    0 <= a < change@.staged_files.len() ==> exists|j: int|
                        0 <= j < i && (#[trigger] fv[j]).1 == crate::records::RecordView::File(
                            #[trigger] change@.staged_files[a],
                        ),
                forall|a: int, b: int|
                    0 <= a < b < change@.staged_files.len() ==> (#[trigger] change@.staged_files[a]).filename != (
                    #[trigger] change@.staged_files[b]).filename,
            decreases found@.len() - i,
        {
            assert(fv[i as int] == (found@[i as int].0@, found@[i as int].1@));
            let ghost s0 = change@.staged_files;
            match &found[i].1 {
                Record::File(file) => {
                    proof {
                        let col = fv[i as int].0;
                        assert(crate::store::cell(db, (crate::keyspace::rowname_of(id), col, 0)) == Some(
                            crate::records::RecordView::File(file@),
                        ));
                        assert(working_file(db, id, file@));
                    }
                    let based = self.based_file(change, file.filename.as_str());
                    assert(change@.is_based_locally == c0.is_based_locally && change@.based_id == c0.based_id
                        && change@.based_index == c0.based_index);
                    assert(based@ == based_version(db, peer, c0, file@.filename));
                    if !(file.deleted && !based.found) && !file.same_as(&based) {
                        proof {
                            let col_i = fv[i as int].0;
                            assert(file_at_column(db, id, col_i, 0) == Some(file@));
                            assert forall|a: int| 0 <= a < s0.len() implies (#[trigger] s0[a]).filename
                                != file@.filename by {
                                let j = choose|j: int|
                                    0 <= j < i && (#[trigger] fv[j]).1 == crate::records::RecordView::File(s0[a]);
                                let col_a = fv[j].0;
                                assert(file_at_column(db, id, col_a, 0) == Some(s0[a]));
                                if s0[a].filename == file@.filename {
                                    assert(col_a == col_i);
                                }
                            }
                        }
                        change.staged_files.push(file.duplicate());
                        proof {
                            assert(change@.staged_files =~= s0.push(file@));
                            assert forall|a: int|
                                0 <= a < change@.staged_files.len() implies exists|j: int|
                                    0 <= j < i + 1 && (#[trigger] fv[j]).1 == crate::records::RecordView::File(
                                        #[trigger] change@.staged_files[a],
                                    ) by {
                                if a < s0.len() {
                                    let j = choose|j: int|
                                        0 <= j < i && (#[trigger] fv[j]).1 == crate::records::RecordView::File(s0[a]);
                                    assert(change@.staged_files[a] == s0[a]);
                                } else {
                                    assert(fv[i as int].1 == crate::records::RecordView::File(change@.staged_files[a]));
                                }
                            }
                            assert forall|a: int, b: int|
                                0 <= a < b < change@.staged_files.len() implies (
                                #[trigger] change@.staged_files[a]).filename != (
                                #[trigger] change@.staged_files[b]).filename by {
                                assert(change@.staged_files[a] == s0[a]);
                                if b < s0.len() {
                                    assert(change@.staged_files[b] == s0[b]);
                                }
                            }
                            assert forall|f: crate::records::FileView|
                                #[trigger] change@.staged_files.contains(f) implies working_file(db, id, f)
                                    && is_staged(db, peer, c0, f) by {
                                if f != file@ {
                                    let q = choose|q: int| 0 <= q < change@.staged_files.len() && change@.staged_files[q] == f;
                                    assert(s0[q] == f);
                                    assert(s0.contains(f));
                                } else {
                                    assert(is_staged(db, peer, c0, file@));
                                }
                            }
                            assert forall|j: int|
                                0 <= j < i + 1 && (#[trigger] fv[j]).1 is File && is_staged(db, peer, c0, fv[j].1->File_0)
                                    implies change@.staged_files.contains(fv[j].1->File_0) by {
                                if j < i {
                                    let q = choose|q: int| 0 <= q < s0.len() && s0[q] == fv[j].1->File_0;
                                    assert(change@.staged_files[q] == s0[q]);
                                } else {
                                    assert(change@.staged_files[s0.len() as int] == file@);
                                }
                            }
                        }
                    }
                },
                _ => {},
            }
            i = i + 1;
        }
        proof {
            assert forall|f: crate::records::FileView|
                #[trigger] change@.staged_files.contains(f) <==> working_file(db, id, f) && is_staged(db, peer, c0, f) by {
                if working_file(db, id, f) && is_staged(db, peer, c0, f) {
                    let col = choose|col: Seq<char>|
                        #[trigger] crate::store::cell(db, (crate::keyspace::rowname_of(id), col, 0)) == Some(
                            crate::records::RecordView::File(f),
                        );
                    assert(""@.is_prefix_of(col));
                    assert(db.contains_key((crate::keyspace::rowname_of(id), col, 0)));
                    let j = choose|j: int| 0 <= j < fv.len() && (#[trigger] fv[j]).0 == col;
                    assert(fv[j].1 == crate::records::RecordView::File(f));
                }
            }
            assert forall|a: int, b: int|
                0 <= a < b < change.staged_files@.len() implies (#[trigger] change.staged_files@[a])@.filename != (
                #[trigger] change.staged_files@[b])@.filename by {
                assert(change@.staged_files[a] == change.staged_files@[a]@);
                assert(change@.staged_files[b] == change.staged_files@[b]@);
            }
        }
        let ghost unsorted = change@;
        let mut staged: Vec<File> = Vec::new();
        core::mem::swap(&mut staged, &mut change.staged_files);
        change.staged_files = sort_by_name(staged);
        assert(change@ == (crate::records::ChangeView { staged_files: change@.staged_files, ..c0 }));
    }

    /// The names of the files that the non-rebase entries of `log` wrote to
    /// change `id`, each once.
    #[verifier::spinoff_prover]
    fn touched_names(&self, id: u64, log: &Vec<crate::records::SnapshotLogEntry>) -> (r: Vec<String>)
        requires
            self.wf(),
        ensures
            forall|i: int, j: int| 0 <= i < j < r@.len() ==> (#[trigger] r@[i])@ != (#[trigger] r@[j])@,
            forall|i: int| 0 <= i < r@.len() ==> touched(self.records(), id, log@, (#[trigger] r@[i])@),
            forall|name: Seq<char>|
                #[trigger] touched(self.records(), id, log@, name) ==> exists|i: int|
                    0 <= i < r@.len() && (#[trigger] r@[i])@ == name,
    {
        let ghost db = self.records();
        let mut names: Vec<String> = Vec::new();
        let mut k: usize = 0;
        proof {
            reveal_strlit("");
        }
        while k < log.len()
            invariant
                self.wf(),
                db == self.records(),
                k <= log@.len(),
                forall|i: int, j: int| 0 <= i < j < names@.len() ==> (#[trigger] names@[i])@ != (#[trigger] names@[j])@,
                forall|i: int| 0 <= i < names@.len() ==> touched(db, id, log@, (#[trigger] names@[i])@),
                forall|q: int, col: Seq<char>|
                    0 <= q < k && !(#[trigger] log@[q]).is_rebase && #[trigger] file_at_column(db, id, col, log@[q].index)
                        is Some ==> exists|i: int|
                        0 <= i < names@.len() && (#[trigger] names@[i])@ == file_at_column(
                            db,
                            id,
                            col,
                            log@[q].index,
                        )->0.filename,
            decreases log@.len() - k,
        {
            let e = log[k];
            if !e.is_rebase {
                let found = self.db.scan(change_to_rowname(id).as_str(), "", e.index);
                let ghost fv = crate::store::scan_view(found@);
                let ghost n0 = names@;
                let mut i: usize = 0;
                while i < found.len()
                    invariant
                        self.wf(),
                        db == self.records(),
                        k < log@.len(),
                        e == log@[k as int],
                        !e.is_rebase,
                        fv == crate::store::scan_view(found@),
                        crate::store::scan_result(db, crate::keyspace::rowname_of(id), ""@, e.index, fv),
                        i <= found@.len(),
                        names@.len() >= n0.len(),
                        forall|a: int| 0 <= a < n0.len() ==> (#[trigger] names@[a]) == n0[a],
                        forall|a: int, b: int| 0 <= a < b < names@.len() ==> (#[trigger] names@[a])@ != (#[trigger] names@[b])@,
                        forall|a: int| 0 <= a < names@.len() ==> touched(db, id, log@, (#[trigger] names@[a])@),
                        forall|j: int|
                            0 <= j < i && (#[trigger] fv[j]).1 is File ==> exists|a: int|
                                0 <= a < names@.len() && (#[trigger] names@[a])@ == fv[j].1->File_0.filename,
                    decreases found@.len() - i,
                {
                    assert(fv[i as int] == (found@[i as int].0@, found@[i as int].1@));
                    let ghost m0 = names@;
                    match &found[i].1 {
                        Record::File(f) => {
                            proof {
                                let col = fv[i as int].0;
                                assert(file_at_column(db, id, col, log@[k as int].index) == Some(f@));
                                assert(touched(db, id, log@, f@.filename));
                            }
                            let mut present = false;
                            let mut a: usize = 0;
                            while a < names.len()
                                invariant
                                    a <= names@.len(),
                                    present ==> exists|b: int| 0 <= b < names@.len() && (#[trigger] names@[b])@ == f@.filename,
                                    !present ==> forall|b: int| 0 <= b < a ==> (#[trigger] names@[b])@ != f@.filename,
                                decreases names@.len() - a,
                            {
                                if names[a] == f.filename {
                                    present = true;
                                }
                                a = a + 1;
                            }
                            if !present {
                                names.push(f.filename.clone());
                                proof {
                                    assert forall|j: int|
                                        0 <= j < i + 1 && (#[trigger] fv[j]).1 is File implies exists|b: int|
                                            0 <= b < names@.len() && (#[trigger] names@[b])@ == fv[j].1->File_0.filename by {
                                        if j < i {
                                            let b = choose|b: int| 0 <= b < m0.len() && (#[trigger] m0[b])@ == fv[j].1->File_0.filename;
                                            assert(names@[b] == m0[b]);
                                        } else {
                                            assert(names@[m0.len() as int]@ == fv[j].1->File_0.filename);
                                        }
                                    }
                                }
                            }
                        },
                        _ => {},
                    }
                    i = i + 1;
                }
                proof {
                    assert forall|q: int, col: Seq<char>|
                        0 <= q < k + 1 && !(#[trigger] log@[q]).is_rebase && #[trigger] file_at_column(db, id, col, log@[q].index)
                            is Some implies exists|a: int|
                            0 <= a < names@.len() && (#[trigger] names@[a])@ == file_at_column(
                                db,
                                id,
                                col,
                                log@[q].index,
                            )->0.filename by {
                        if q < k {
                            let a = choose|a: int|
                                0 <= a < n0.len() && (#[trigger] n0[a])@ == file_at_column(db, id, col, log@[q].index)->0.filename;
                            assert(names@[a] == n0[a]);
                        } else {
                            reveal_strlit("");
                            assert(""@.is_prefix_of(col));
                            assert(db.contains_key((crate::keyspace::rowname_of(id), col, e.index)));
                            let j = choose|j: int| 0 <= j < fv.len() && (#[trigger] fv[j]).0 == col;
                            assert(fv[j].1 is File);
                        }
                    }
                }
            }
            k = k + 1;
        }
        names
    }

    /// What entry `e` at position `pos` of the log of `change` adds to the
    /// history of `name`.
    fn history_entry(
        &mut self,
        change: &Change,
        e: crate::records::SnapshotLogEntry,
        pos: usize,
        name: &String,
        Ghost(log): Ghost<Seq<crate::records::SnapshotLogEntry>>,
    ) -> (r: Option<File>)
        requires
            old(self).wf(),
            pos < log.len(),
            log[pos as int] == e,
        ensures
            final(self).keeps(old(self)),
            match r {
                Some(f) => history_step(old(self).records(), old(self).peer(), change@, log, name@, pos as int)
                    == seq![f@],
                None => history_step(old(self).records(), old(self).peer(), change@, log, name@, pos as int)
                    == Seq::<crate::records::FileView>::empty(),
            },
    {
        if e.is_rebase {
            let maybe = if change.is_based_locally {
                self.read(e.based_id, name.as_str(), e.based_index)
            } else {
                self.read_remote(e.based_id, name.as_str(), e.based_index)
            };
            let mut f = match maybe {
                Some(f) => f,
                None => {
                    let mut absent = File::new();
                    absent.filename = name.clone();
                    absent
                },
            };
            f.snapshot_id = pos as u64;
            f.change_id = e.based_index;
            Some(f)
        } else {
            match self.db.read_record(
                change_to_rowname(change.id).as_str(),
                path_to_colname(name.as_str()).as_str(),
                e.index,
            ) {
                Some(Record::File(mut f)) => {
                    if f.filename == *name {
                        f.snapshot_id = pos as u64;
                        f.change_id = 0;
                        Some(f)
                    } else {
                        None
                    }
                },
                _ => None,
            }
        }
    }

    /// Reconstructs the history of every file that the log of `change`
    /// touched: replaying the log in order, a rebase entry adds the version
    /// each file had in the new based frame, and a snapshot entry adds the
    /// change's own write. The result is `change`, marked found, with those
    /// histories.
    #[verifier::spinoff_prover]
    pub fn populate_change(&mut self, change: Change) -> (r: Change)
        requires
            old(self).wf(),
        ensures
            final(self).keeps(old(self)),
            populated(
                old(self).records(),
                old(self).peer(),
                log_of(old(self).records(), old(self).last_ids(), change.id),
                change@,
                r@,
            ),
    {
        let mut change = change;
        let ghost c0 = change@;
        let ghost db = self.records();
        let ghost peer = self.peer();
        let log = self.list_snapshots(change.id);
        let names = self.touched_names(change.id, &log);
        let mut snaps: Vec<Vec<File>> = Vec::new();
        let mut m: usize = 0;
        while m < names.len()
            invariant
                m <= names@.len(),
                snaps@.len() == m,
                forall|a: int| 0 <= a < m ==> crate::records::files_view((#[trigger] snaps@[a])@) == Seq::<
                    crate::records::FileView,
                >::empty(),
            decreases names@.len() - m,
        {
            let v: Vec<File> = Vec::new();
            assert(crate::records::files_view(v@) =~= Seq::<crate::records::FileView>::empty());
            snaps.push(v);
            m = m + 1;
        }
        let mut pos: usize = 0;
        while pos < log.len()
            invariant
                self.keeps(old(self)),
                db == old(self).records(),
                peer == old(self).peer(),
                change@ == c0,
                pos <= log@.len(),
                snaps@.len() == names@.len(),
                forall|a: int|
                    0 <= a < snaps@.len() ==> crate::records::files_view((#[trigger] snaps@[a])@) == history_upto(
                        db,
                        peer,
                        c0,
                        log@,
                        names@[a]@,
                        pos as nat,
                    ),
            decreases log@.len() - pos,
        {
            let e = log[pos];
            let mut m: usize = 0;
            while m < names.len()
                invariant
                    self.keeps(old(self)),
                    db == old(self).records(),
                    peer == old(self).peer(),
                    change@ == c0,
                    pos < log@.len(),
                    e == log@[pos as int],
                    m <= names@.len(),
                    snaps@.len() == names@.len(),
                    forall|a: int|
                        0 <= a < m ==> crate::records::files_view((#[trigger] snaps@[a])@) == history_upto(
                            db,
                            peer,
                            c0,
                            log@,
                            names@[a]@,
                            (pos + 1) as nat,
                        ),
                    forall|a: int|
                        m <= a < snaps@.len() ==> crate::records::files_view((#[trigger] snaps@[a])@) == history_upto(
                            db,
                            peer,
                            c0,
                            log@,
                            names@[a]@,
                            pos as nat,
                        ),
                decreases names@.len() - m,
            {
                let step = self.history_entry(&change, e, pos, &names[m], Ghost(log@));
                let mut v = crate::records::copy_files(&snaps[m]);
                let ghost before = crate::records::files_view(v@);
                match step {
                    Some(f) => {
                        v.push(f);
                        assert(crate::records::files_view(v@) =~= before + seq![f@]);
                    },
                    None => {
                        assert(before + Seq::<crate::records::FileView>::empty() =~= before);
                    },
                }
                let ghost s0 = snaps@;
                snaps.set(m, v);
                proof {
                    assert forall|a: int|
                        0 <= a < m + 1 implies crate::records::files_view((#[trigger] snaps@[a])@) == history_upto(
                            db,
                            peer,
                            c0,
                            log@,
                            names@[a]@,
                            (pos + 1) as nat,
                        ) by {
                        if a < m {
                            assert(snaps@[a] == s0[a]);
                        }
                    }
                    assert forall|a: int|
                        m + 1 <= a < snaps@.len() implies crate::records::files_view((#[trigger] snaps@[a])@)
                            == history_upto(db, peer, c0, log@, names@[a]@, pos as nat) by {
                        assert(snaps@[a] == s0[a]);
                    }
                }
                m = m + 1;
            }
            pos = pos + 1;
        }
        let mut histories: Vec<crate::records::FileHistory> = Vec::new();
        let mut m: usize = 0;
        while m < names.len()
            invariant
                m <= names@.len(),
                snaps@.len() == names@.len(),
                histories@.len() == m,
                forall|a: int|
                    0 <= a < m ==> (#[trigger] histories@[a])@ == (crate::records::HistoryView {
                        filename: names@[a]@,
                        snapshots: crate::records::files_view(snaps@[a]@),
                    }),
            decreases names@.len() - m,
        {
            histories.push(crate::records::FileHistory {
                filename: names[m].clone(),
                snapshots: crate::records::copy_files(&snaps[m]),
            });
            m = m + 1;
        }
        change.changes = histories;
        change.found = true;
        proof {
            let cv = change@.changes;
            let lg = log@;
            assert(lg == log_of(db, old(self).last_ids(), c0.id));
            assert(cv.len() == names@.len());
            assert forall|i: int| 0 <= i < cv.len() implies #[trigger] cv[i] == (crate::records::HistoryView {
                filename: names@[i]@,
                snapshots: crate::records::files_view(snaps@[i]@),
            }) by {
                assert(cv[i] == histories@[i]@);
            }
            assert forall|i: int, j: int|
                0 <= i < j < cv.len() implies (#[trigger] cv[i]).filename != (#[trigger] cv[j]).filename by {
                assert(cv[i].filename == names@[i]@);
                assert(cv[j].filename == names@[j]@);
            }
            assert forall|i: int|
                0 <= i < cv.len() implies touched(db, c0.id, lg, (#[trigger] cv[i]).filename) && cv[i].snapshots
                    == history_upto(db, peer, c0, lg, cv[i].filename, lg.len()) by {
                assert(cv[i].filename == names@[i]@);
            }
            assert forall|name: Seq<char>|
                #[trigger] touched(db, c0.id, lg, name) implies exists|i: int|
                    0 <= i < cv.len() && (#[trigger] cv[i]).filename == name by {
                let i = choose|i: int| 0 <= i < names@.len() && (#[trigger] names@[i])@ == name;
                assert(cv[i].filename == names@[i]@);
            }
            assert(change@ == (crate::records::ChangeView { found: true, changes: cv, ..c0 }));
        }
        change
    }

    /// What a snapshot of `partial` that answered `r` did, from `before` to
    /// `after`. An unknown change: the empty answer, nothing changed, the
    /// peer not asked. Otherwise the merged change `m` (see `merged_change`)
    /// is stored, its log gains a snapshot entry at the freshly reserved
    /// index `k`, and its friendly name stands for it. A change based locally,
    /// or with no peer attached, answers its id and `k` and sends no snapshot
    /// (with no peer, nothing at all goes to it). A change based on the peer
    /// is sent to it once, with its staged files recomputed and framed as
    /// the peer sees it (`remote_frame_of`); the answer is the peer's, and the
    /// change takes it (see `answered`).
    pub open spec fn snapshot_done(
        before: &Self,
        after: &Self,
        partial: crate::records::ChangeView,
        r: crate::records::SnapshotResponse,
    ) -> bool {
        &&& after.wf()
        &&& after.peer() == before.peer()
        &&& match change_in(before.records(), partial.id) {
            None => {
                &&& r == crate::records::SnapshotResponse { change_id: 0, snapshot_id: 0 }
                &&& after.records() == before.records()
                &&& after.last_ids() == before.last_ids()
                &&& after.names() == before.names()
                &&& after.untouched(before)
            },
            Some(stored) => {
                let m = merged_change(stored, partial);
                let k = (crate::store::last_id_of(before.last_ids(), snapshot_index_ns(), Seq::empty())
                    + 1) as u64;
                let entry = crate::records::SnapshotLogEntry {
                    index: k,
                    is_rebase: false,
                    based_id: 0,
                    based_index: 0,
                };
                let n = crate::store::last_id_of(
                    before.last_ids(),
                    snapshot_ids_ns(),
                    crate::text::decimal(partial.id as nat),
                );
                let logged = before.records().insert(
                    (metadata_row(), crate::keyspace::rowname_of(m.id), 0),
                    crate::records::RecordView::Change(m),
                ).insert(
                    (snapshots_row(partial.id), crate::text::decimal((n + 1) as nat), 0),
                    crate::records::RecordView::Entry(entry),
                );
                &&& m.id == partial.id
                &&& after.last_ids() == before.last_ids().insert((snapshot_index_ns(), Seq::empty()), k).insert(
                    (snapshot_ids_ns(), crate::text::decimal(partial.id as nat)),
                    (n + 1) as u64,
                )
                &&& log_of(after.records(), after.last_ids(), partial.id) == log_of(
                    before.records(),
                    before.last_ids(),
                    partial.id,
                ).push(entry)
                &&& forall|i: int|
                    0 <= i < log_of(before.records(), before.last_ids(), partial.id).len() ==> (#[trigger] log_of(
                        before.records(),
                        before.last_ids(),
                        partial.id,
                    )[i]).index < k
                &&& after.names() == before.names().insert(m.friendly_name, m.id)
                &&& before.peer() is None ==> after.untouched(before)
                &&& after.peer_requests() == if m.is_based_locally || before.peer() is None {
                    before.peer_requests()
                } else {
                    one_more(before.peer_requests())
                }
                &&& if m.is_based_locally || before.peer() is None {
                    &&& r == crate::records::SnapshotResponse { change_id: partial.id, snapshot_id: k }
                    &&& after.records() == logged
                } else {
                    exists|filled_change: crate::records::ChangeView|
                        filled(logged, before.peer(), m, filled_change) && r == before.peer()->0.snapshot_answer(
                            remote_frame_of(filled_change),
                        ) && after.records() == logged.insert(
                            (metadata_row(), crate::keyspace::rowname_of(m.id), 0),
                            crate::records::RecordView::Change(answered(filled_change, r.change_id)),
                        )
                }
            },
        }
    }

    /// Merges `partial` into the stored change it names, stores it, logs a
    /// snapshot entry at a freshly reserved index and recomputes its staged
    /// files; a change based on the remote peer is then sent to it (see
    /// `snapshot_done`).
    #[verifier::spinoff_prover]
    pub fn snapshot(&mut self, partial: &Change) -> (r: crate::records::SnapshotResponse)
        requires
            old(self).wf(),
            crate::store::last_id_of(old(self).last_ids(), snapshot_index_ns(), Seq::empty()) < u64::MAX,
            crate::store::last_id_of(
                old(self).last_ids(),
                snapshot_ids_ns(),
                crate::text::decimal(partial.id as nat),
            ) < u64::MAX,
        ensures
            Self::snapshot_done(old(self), final(self), partial@, r),
    {
        let mut change = match self.get_change(partial.id) {
            Some(c) => c,
            None => return crate::records::SnapshotResponse { change_id: 0, snapshot_id: 0 },
        };
        merge_change(&mut change, partial);
        self.update_change(&change);
        let id = partial.id;
        proof {
            reveal_strlit("");
        }
        assert(""@ =~= Seq::<char>::empty());
        assert(id <= last_change_id(old(self).last_ids()));
        proof {
            let lg = log_of(old(self).records(), old(self).last_ids(), id);
            lemma_log_entries_numbered(
                old(self).records(),
                id,
                crate::store::last_id_of(old(self).last_ids(), snapshot_ids_ns(), crate::text::decimal(id as nat)) as nat,
            );
            assert forall|i: int| 0 <= i < lg.len() implies (#[trigger] lg[i]).index <= last_snapshot_index(
                old(self).last_ids(),
            ) by {
                let k = choose|k: nat| #[trigger] log_entry_at(old(self).records(), id, k) == Some(lg[i]);
            }
            lemma_namespaces_differ();
            lemma_reserve_index_ok(self.records(), self.last_ids(), (last_snapshot_index(self.last_ids()) + 1) as u64);
        }
        let index = self.db.reserve_id("snapshot_index", "");
        let entry = crate::records::SnapshotLogEntry { index, is_rebase: false, based_id: 0, based_index: 0 };
        proof {
            lemma_rows_differ(id, id);
            lemma_rows_differ(change.id, id);
            lemma_log_untouched(
                old(self).records(),
                (metadata_row(), crate::keyspace::rowname_of(change.id), 0),
                crate::records::RecordView::Change(change@),
                id,
                crate::store::last_id_of(old(self).last_ids(), snapshot_ids_ns(), crate::text::decimal(id as nat)) as nat,
            );
        }
        self.log_snapshot(id, entry);
        proof {
            lemma_rows_differ(id, id);
        }
        let ghost m = change@;
        let ghost mid = self.records();
        self.fill_change(&mut change);
        if change.is_based_locally || self.remote_server.is_none() {
            return crate::records::SnapshotResponse { change_id: change.id, snapshot_id: index };
        }
        let remote_change = remote_frame(&change);
        let response = match &self.remote_server {
            Some(client) => client.snapshot(&remote_change),
            None => crate::records::SnapshotResponse { change_id: 0, snapshot_id: 0 },
        };
        assert(response == old(self).peer()->0.snapshot_answer(remote_frame_of(change@)));
        self.note_request();
        let ghost filled_change = change@;
        apply_snapshot_response(&mut change, &response);
        self.update_change(&change);
        proof {
            assert(filled(mid, old(self).peer(), m, filled_change));
            assert(m == merged_change(change_in(old(self).records(), partial.id)->0, partial@));
            assert(filled(mid, old(self).peer(), m, filled_change) && response == old(self).peer()->0.snapshot_answer(
                remote_frame_of(filled_change),
            ) && self.records() == mid.insert(
                (metadata_row(), crate::keyspace::rowname_of(m.id), 0),
                crate::records::RecordView::Change(answered(filled_change, response.change_id)),
            ));
            lemma_rows_differ(id, id);
            lemma_rows_differ(change.id, id);
            lemma_log_untouched(
                mid,
                (metadata_row(), crate::keyspace::rowname_of(change.id), 0),
                crate::records::RecordView::Change(change@),
                id,
                crate::store::last_id_of(self.last_ids(), snapshot_ids_ns(), crate::text::decimal(id as nat)) as nat,
            );
        }
        assert(self.wf());
        assert(self.peer() == old(self).peer());
        assert(self.names() == old(self).names().insert(m.friendly_name, m.id));
        assert(log_of(self.records(), self.last_ids(), partial.id) == log_of(old(self).records(), old(self).last_ids(), partial.id).push(entry));
        assert(!(m.is_based_locally || old(self).peer() is None));
        response
    }

    /// Snapshots change `id` as it is stored: a snapshot of a partial change
    /// that sets nothing but the id.
    pub fn snashot_from_id(&mut self, id: u64) -> (r: crate::records::SnapshotResponse)
        requires
            old(self).wf(),
            crate::store::last_id_of(old(self).last_ids(), snapshot_index_ns(), Seq::empty()) < u64::MAX,
            crate::store::last_id_of(old(self).last_ids(), snapshot_ids_ns(), crate::text::decimal(id as nat))
                < u64::MAX,
        ensures
            Self::snapshot_done(
                old(self),
                final(self),
                crate::records::ChangeView { id, ..crate::records::empty_change() },
                r,
            ),
    {
        let mut c = Change::new();
        c.id = id;
        self.snapshot(&c)
    }

    /// Sends change `id` to the remote peer, framed as the peer sees it
    /// (`remote_frame_of`), and answers what the peer answers. On success (a
    /// non-zero id) the local change is deleted; on failure it stays as it
    /// was. An unknown change, or no peer attached, gives the empty response
    /// without asking the peer.
    pub fn submit(&mut self, id: u64) -> (r: crate::records::SubmitResponse)
        requires
            old(self).wf(),
        ensures
            final(self).wf(),
            final(self).peer() == old(self).peer(),
            final(self).last_ids() == old(self).last_ids(),
            match (change_in(old(self).records(), id), old(self).peer()) {
                (Some(c), Some(p)) => {
                    &&& r == p.submit_answer(remote_frame_of(c))
                    &&& final(self).peer_requests() == one_more(old(self).peer_requests())
                    &&& final(self).remote_calls() == old(self).remote_calls()
                    &&& if r.id != 0 {
                        &&& final(self).records() == crate::store::without_cell(
                            old(self).records(),
                            metadata_row(),
                            crate::keyspace::rowname_of(id),
                        )
                        &&& final(self).names() == old(self).names().remove(c.friendly_name)
                    } else {
                        &&& final(self).records() == old(self).records()
                        &&& final(self).names() == old(self).names()
                    }
                },
                _ => {
                    &&& r == crate::records::SubmitResponse { id: 0, status: 0 }
                    &&& final(self).records() == old(self).records()
                    &&& final(self).names() == old(self).names()
                    &&& final(self).untouched(old(self))
                },
            },
    {
        let change = match self.get_change(id) {
            Some(c) => c,
            None => return crate::records::SubmitResponse { id: 0, status: 0 },
        };
        let remote_change = remote_frame(&change);
        let response = match &self.remote_server {
            Some(client) => client.submit(&remote_change),
            None => return crate::records::SubmitResponse { id: 0, status: 0 },
        };
        self.note_request();
        if response.id != 0 {
            self.delete_change(id);
        }
        response
    }
}

/// Merges the fields that `partial` sets into `change` (see `merged_change`).
pub fn merge_change(change: &mut Change, partial: &Change)
    ensures
        final(change)@ == merged_change(old(change)@, partial@),
{
    if partial.friendly_name.unicode_len() > 0 {
        change.friendly_name = partial.friendly_name.clone();
    }
    if partial.based_id != 0 {
        change.based_id = partial.based_id;
    }
    if partial.based_index != 0 {
        change.based_index = partial.based_index;
    }
    change.is_based_locally = change.is_based_locally || partial.is_based_locally;
    if partial.remote_id != 0 {
        change.remote_id = partial.remote_id;
    }
    if partial.last_modified_timestamp != 0 {
        change.last_modified_timestamp = partial.last_modified_timestamp;
    }
    change.found = change.found || partial.found;
}

/// Takes the peer's answer to a snapshot into `change` (see `answered`).
pub fn apply_snapshot_response(change: &mut Change, response: &crate::records::SnapshotResponse)
    ensures
        final(change)@ == answered(old(change)@, response.change_id),
{
    if change.remote_id != response.change_id {
        change.staged_files.clear();
        change.remote_id = response.change_id;
        assert(crate::records::files_view(change.staged_files@) =~= Seq::<crate::records::FileView>::empty());
    }
}

impl<S: Store, P: RemotePeer> Repo<S, P> {
    /// Every file that change `id` itself holds at `index`.
    #[verifier::spinoff_prover]
    pub fn list_changed_files(&self, id: u64, index: u64) -> (r: Vec<File>)
        requires
            self.wf(),
        ensures
            forall|i: int| 0 <= i < r@.len() ==> holds_file_at(self.records(), id, index, (#[trigger] r@[i])@),
            forall|col: Seq<char>|
                #[trigger] file_at_column(self.records(), id, col, index) is Some ==> exists|i: int|
                    0 <= i < r@.len() && Some((#[trigger] r@[i])@) == file_at_column(self.records(), id, col, index),
    {
        proof {
            reveal_strlit("");
        }
        let found = self.db.scan(change_to_rowname(id).as_str(), "", index);
        let ghost fv = crate::store::scan_view(found@);
        let mut r: Vec<File> = Vec::new();
        let mut i: usize = 0;
        while i < found.len()
            invariant
                i <= found@.len(),
                fv == crate::store::scan_view(found@),
                crate::store::scan_result(self.records(), crate::keyspace::rowname_of(id), ""@, index, fv),
                forall|k: int| 0 <= k < r@.len() ==> holds_file_at(self.records(), id, index, (#[trigger] r@[k])@),
                forall|j: int|
                    0 <= j < i && (#[trigger] fv[j]).1 is File ==> exists|k: int|
                        0 <= k < r@.len() && crate::records::RecordView::File((#[trigger] r@[k])@) == fv[j].1,
            decreases found@.len() - i,
        {
            assert(fv[i as int] == (found@[i as int].0@, found@[i as int].1@));
            let ghost r0 = r@;
            match &found[i].1 {
                Record::File(f) => {
                    r.push(f.duplicate());
                    proof {
                        let col = fv[i as int].0;
                        assert(file_at_column(self.records(), id, col, index) == Some(f@));
                        assert forall|k: int|
                            0 <= k < r@.len() implies holds_file_at(self.records(), id, index, (#[trigger] r@[k])@) by {
                            if k < r0.len() {
                                assert(r@[k] == r0[k]);
                            }
                        }
                        assert forall|j: int|
                            0 <= j < i + 1 && (#[trigger] fv[j]).1 is File implies exists|k: int|
                                0 <= k < r@.len() && crate::records::RecordView::File((#[trigger] r@[k])@) == fv[j].1 by {
                            if j < i {
                                let k = choose|k: int|
                                    0 <= k < r0.len() && crate::records::RecordView::File((#[trigger] r0[k])@) == fv[j].1;
                                assert(r@[k] == r0[k]);
                            } else {
                                assert(crate::records::RecordView::File(r@[r0.len() as int]@) == fv[j].1);
                            }
                        }
                    }
                },
                _ => {},
            }
            i = i + 1;
        }
        proof {
            assert forall|col: Seq<char>|
                #[trigger] file_at_column(self.records(), id, col, index) is Some implies exists|k: int|
                    0 <= k < r@.len() && Some((#[trigger] r@[k])@) == file_at_column(self.records(), id, col, index) by {
                let f = file_at_column(self.records(), id, col, index)->0;
                assert(""@.is_prefix_of(col));
                assert(self.records().contains_key((crate::keyspace::rowname_of(id), col, index)));
                let j = choose|j: int| 0 <= j < fv.len() && (#[trigger] fv[j]).0 == col;
                assert(fv[j].1 == crate::records::RecordView::File(f));
                let k = choose|k: int|
                    0 <= k < r@.len() && crate::records::RecordView::File((#[trigger] r@[k])@) == fv[j].1;
            }
        }
        r
    }

    /// How many calls went to the remote peer so far.
    pub fn remote_call_count(&self) -> (r: u64)
        ensures
            r == self.remote_calls(),
    {
        self.remote_calls
    }

    /// How many snapshots and submits went to the remote peer so far.
    pub fn peer_request_count(&self) -> (r: u64)
        ensures
            r == self.peer_requests(),
    {
        self.peer_requests
    }

    /// The remote peer, if one is attached.
    pub fn remote_server(&self) -> (r: Option<&P>)
        ensures
            match r {
                Some(p) => self.peer() == Some(*p),
                None => self.peer() is None,
            },
    {
        match &self.remote_server {
            Some(p) => Some(p),
            None => None,
        }
    }

    /// Gives the store back.
    pub fn into_store(self) -> (r: S)
        requires
            self.wf(),
        ensures
            r.inv(),
            r.records() == self.records(),
            r.last_ids() == self.last_ids(),
    {
        self.db
    }
}

} // verus!
