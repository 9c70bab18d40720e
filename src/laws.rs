//! Properties that relate several operations of the repository, stated over
//! the specifications the operations' contracts use.
use vstd::prelude::*;
use crate::repo::Repo;
use crate::store::{RemotePeer, Store};

verus! {

type Db = Map<crate::store::CellKey, crate::records::RecordView>;

/// A change with no writes of its own reads exactly what its based frame
/// has: its local parent (one frame further down), or the remote peer.
pub proof fn lemma_read_follows_base<P: RemotePeer>(
    db: Db,
    peer: Option<P>,
    id: u64,
    path: Seq<char>,
    index: u64,
    depth: nat,
)
    requires
        crate::repo::change_in(db, id) is Some,
        forall|k: crate::store::CellKey| k.0 == crate::keyspace::rowname_of(id) ==> !#[trigger] db.contains_key(k),
    ensures
        ({
            let c = crate::repo::change_in(db, id)->0;
            let name = crate::keyspace::normal_filename(path);
            crate::repo::resolved(db, peer, id, path, index, depth + 1) == if c.is_based_locally {
                crate::repo::resolved(db, peer, c.based_id, name, c.based_index, depth)
            } else {
                crate::repo::remote_file(peer, c.based_id, name, c.based_index)
            }
        }),
{
    let name = crate::keyspace::normal_filename(path);
    assert(!db.contains_key((crate::keyspace::rowname_of(id), crate::keyspace::colname_of(name), index)));
}

proof fn lemma_ancestors_keep<P: RemotePeer>(
    db: Db,
    peer: Option<P>,
    id: u64,
    dir: Seq<char>,
    index: u64,
    key: crate::store::CellKey,
)
    requires
        key.0 != crate::keyspace::rowname_of(id),
    ensures
        crate::store::cell(crate::repo::with_ancestors(db, peer, id, dir, index), key) == crate::store::cell(db, key),
    decreases dir.len(),
{
    if !(dir.len() <= 1 || crate::keyspace::parent_of(dir).len() >= dir.len()) {
        let next = crate::repo::with_directory(db, peer, id, dir, index);
        lemma_ancestors_keep(next, peer, id, crate::keyspace::parent_of(dir), index, key);
    }
}

/// A write shadows whatever the change's based frame has: reading the
/// written path at the written index gives the written file, marked found
/// (a deletion: see `lemma_delete_then_read`).
pub proof fn lemma_write_then_read<P: RemotePeer>(
    db: Db,
    peer: Option<P>,
    id: u64,
    file: crate::records::FileView,
    index: u64,
)
    requires
        crate::repo::change_in(db, id) is Some,
        crate::keyspace::normal_filename(file.filename) == file.filename,
        !file.deleted,
    ensures
        crate::repo::read_result(crate::repo::written(db, peer, id, file, index), peer, id, file.filename, index)
            == Some(crate::repo::marked_found(file)),
{
    let meta = (crate::repo::metadata_row(), crate::keyspace::rowname_of(id), 0u64);
    crate::repo::lemma_rows_differ(id, id);
    lemma_ancestors_keep(db, peer, id, crate::keyspace::parent_of(file.filename), index, meta);
    let w = crate::repo::written(db, peer, id, file, index);
    assert(crate::repo::change_in(w, id) == crate::repo::change_in(db, id));
}

/// After a path is deleted, a read of it at the same index finds nothing,
/// whatever the change's based frame holds.
pub proof fn lemma_delete_then_read<P: RemotePeer>(
    db: Db,
    peer: Option<P>,
    id: u64,
    path: Seq<char>,
    index: u64,
)
    requires
        crate::repo::change_in(db, id) is Some,
        crate::keyspace::normal_filename(path) == path,
    ensures
        crate::repo::read_result(
            crate::repo::written(db, peer, id, crate::repo::tombstone(path), index),
            peer,
            id,
            path,
            index,
        ) is None,
{
    let file = crate::repo::tombstone(path);
    let meta = (crate::repo::metadata_row(), crate::keyspace::rowname_of(id), 0u64);
    crate::repo::lemma_rows_differ(id, id);
    lemma_ancestors_keep(db, peer, id, crate::keyspace::parent_of(file.filename), index, meta);
    let w = crate::repo::written(db, peer, id, file, index);
    assert(crate::repo::change_in(w, id) == crate::repo::change_in(db, id));
}

/// A listing never holds an entry flagged deleted.
pub proof fn lemma_listing_hides_deleted<P: RemotePeer>(
    db: Db,
    peer: Option<P>,
    id: u64,
    dir: Seq<char>,
    index: u64,
    depth: nat,
    r: Seq<crate::records::FileView>,
)
    requires
        crate::repo::listed(db, peer, id, dir, index, depth, r),
    ensures
        forall|i: int| 0 <= i < r.len() ==> !(#[trigger] r[i]).deleted,
{
    if depth > 0 && crate::repo::change_in(db, id) is Some {
        let d = crate::keyspace::normal_directory(dir);
        let based = choose|based: Seq<crate::records::FileView>|
            (if crate::repo::change_in(db, id)->0.is_based_locally {
                crate::repo::listed(
                    db,
                    peer,
                    crate::repo::change_in(db, id)->0.based_id,
                    d,
                    crate::repo::change_in(db, id)->0.based_index,
                    (depth - 1) as nat,
                    based,
                )
            } else {
                based == crate::repo::remote_listing(
                    peer,
                    crate::repo::change_in(db, id)->0.based_id,
                    d,
                    crate::repo::change_in(db, id)->0.based_index,
                )
            }) && #[trigger] crate::repo::merged_listing(db, id, d, index, based, r);
    }
}

/// Once `path` is deleted, a listing of a directory that holds it directly
/// (in the store's column terms) never names `path`, even where the change's
/// based frame lists it: the tombstone shadows the based entry and is itself
/// left out. The store must hang together as the repository keeps it.
pub proof fn lemma_deleted_path_not_listed<P: RemotePeer>(
    db: Db,
    ids: Map<(Seq<char>, Seq<char>), u64>,
    peer: Option<P>,
    id: u64,
    path: Seq<char>,
    dir: Seq<char>,
    index: u64,
    depth: nat,
    r: Seq<crate::records::FileView>,
)
    requires
        crate::repo::store_ok(crate::repo::written(db, peer, id, crate::repo::tombstone(path), index), ids),
        crate::keyspace::colname_of(crate::keyspace::normal_directory(dir)).is_prefix_of(
            crate::keyspace::colname_of(path),
        ),
        crate::repo::listed(
            crate::repo::written(db, peer, id, crate::repo::tombstone(path), index),
            peer,
            id,
            dir,
            index,
            depth,
            r,
        ),
    ensures
        forall|i: int| 0 <= i < r.len() ==> (#[trigger] r[i]).filename != path,
{
    let w = crate::repo::written(db, peer, id, crate::repo::tombstone(path), index);
    let d = crate::keyspace::normal_directory(dir);
    let t = crate::repo::marked_found(crate::repo::tombstone(path));
    let key = (crate::keyspace::rowname_of(id), crate::keyspace::colname_of(path), index);
    if depth > 0 && crate::repo::change_in(w, id) is Some {
        let c = crate::repo::change_in(w, id)->0;
        let based = choose|based: Seq<crate::records::FileView>|
            (if c.is_based_locally {
                crate::repo::listed(w, peer, c.based_id, d, c.based_index, (depth - 1) as nat, based)
            } else {
                based == crate::repo::remote_listing(peer, c.based_id, d, c.based_index)
            }) && #[trigger] crate::repo::merged_listing(w, id, d, index, based, r);
        assert(crate::store::cell(w, key) == Some(crate::records::RecordView::File(t)));
        assert(crate::repo::local_entry(w, id, d, index, t));
        assert forall|i: int| 0 <= i < r.len() implies (#[trigger] r[i]).filename != path by {
            if r[i].filename == path {
                if crate::repo::local_entry(w, id, d, index, r[i]) {
                    let col = choose|col: Seq<char>|
                        crate::keyspace::colname_of(d).is_prefix_of(col) && #[trigger] crate::store::cell(
                            w,
                            (crate::keyspace::rowname_of(id), col, index),
                        ) == Some(crate::records::RecordView::File(r[i]));
                    assert(crate::repo::file_at_column(w, id, col, index) == Some(r[i]));
                    assert(col == crate::keyspace::colname_of(path));
                    assert(r[i] == t);
                } else {
                    assert(crate::repo::no_local_named(w, id, d, index, r[i].filename));
                    assert(t.filename == path);
                }
            }
        }
    }
}

/// Two remote reads in a row with the same arguments: at a historical index
/// (not zero) they cost at most one call to the peer and give the same
/// answer; at the latest (zero), with a peer attached, each costs one.
pub proof fn lemma_repeated_remote_read<S: Store, P: RemotePeer>(
    r0: Repo<S, P>,
    r1: Repo<S, P>,
    r2: Repo<S, P>,
    id: u64,
    path: Seq<char>,
    index: u64,
    a: Option<crate::records::FileView>,
    b: Option<crate::records::FileView>,
)
    requires
        Repo::remote_read_done(&r0, &r1, id, path, index, a),
        Repo::remote_read_done(&r1, &r2, id, path, index, b),
    ensures
        index != 0 ==> r2.remote_calls() <= r0.remote_calls() + 1,
        index != 0 ==> a == b,
        index == 0 && r0.peer() is Some && r0.remote_calls() + 2 <= u64::MAX ==> r2.remote_calls()
            == r0.remote_calls() + 2,
{
}

/// Two sequences in order of name that hold the same files are the same.
pub proof fn lemma_sorted_unique(s: Seq<crate::records::FileView>, t: Seq<crate::records::FileView>)
    requires
        crate::repo::sorted_by_name(s),
        crate::repo::sorted_by_name(t),
        forall|f: crate::records::FileView| s.contains(f) <==> t.contains(f),
    ensures
        s == t,
    decreases s.len(),
{
    if s.len() == 0 {
        if t.len() > 0 {
            assert(t.contains(t[0]));
        }
        assert(s =~= t);
    } else {
        assert(s.contains(s[0]));
        let j = choose|j: int| 0 <= j < t.len() && t[j] == s[0];
        assert(t.contains(t[0]));
        let k = choose|k: int| 0 <= k < s.len() && s[k] == t[0];
        if j > 0 && k > 0 {
            crate::repo::lemma_before_transitive(s[0].filename, s[k].filename, s[0].filename);
            crate::repo::lemma_before_irreflexive(s[0].filename);
        }
        assert(s[0] == t[0]);
        let s1 = s.drop_first();
        let t1 = t.drop_first();
        assert forall|f: crate::records::FileView| s1.contains(f) <==> t1.contains(f) by {
            if s1.contains(f) {
                let i = choose|i: int| 0 <= i < s1.len() && s1[i] == f;
                assert(s[i + 1] == f);
                assert(crate::repo::name_before(s[0].filename, s[i + 1].filename));
                crate::repo::lemma_before_irreflexive(f.filename);
                assert(t.contains(f));
                let q = choose|q: int| 0 <= q < t.len() && t[q] == f;
                assert(q != 0);
                assert(t1[q - 1] == f);
            }
            if t1.contains(f) {
                let i = choose|i: int| 0 <= i < t1.len() && t1[i] == f;
                assert(t[i + 1] == f);
                assert(crate::repo::name_before(t[0].filename, t[i + 1].filename));
                crate::repo::lemma_before_irreflexive(f.filename);
                assert(s.contains(f));
                let q = choose|q: int| 0 <= q < s.len() && s[q] == f;
                assert(q != 0);
                assert(s1[q - 1] == f);
            }
        }
        lemma_sorted_unique(s1, t1);
        assert(s =~= seq![s[0]] + s1);
        assert(t =~= seq![t[0]] + t1);
    }
}

/// Recomputing the staged files of a change whose staged files were just
/// recomputed, with the store unchanged, gives the same staged files, in the
/// same order.
pub proof fn lemma_fill_change_idempotent<P: RemotePeer>(
    db: Db,
    peer: Option<P>,
    c: crate::records::ChangeView,
    c1: crate::records::ChangeView,
    c2: crate::records::ChangeView,
)
    requires
        crate::repo::filled(db, peer, c, c1),
        crate::repo::filled(db, peer, c1, c2),
    ensures
        c2.staged_files == c1.staged_files,
        c2 == c1,
{
    assert forall|f: crate::records::FileView| #[trigger] c2.staged_files.contains(f) <==> c1.staged_files.contains(f) by {
        assert(crate::repo::based_version(db, peer, c1, f.filename) == crate::repo::based_version(db, peer, c, f.filename));
    }
    lemma_sorted_unique(c2.staged_files, c1.staged_files);
}

/// How many of the first `n` entries of `log` are rebases or carry a write
/// of `name` by the change.
pub open spec fn entries_for(
    db: Db,
    c: crate::records::ChangeView,
    log: Seq<crate::records::SnapshotLogEntry>,
    name: Seq<char>,
    n: nat,
) -> nat
    decreases n,
{
    if n == 0 {
        0
    } else {
        entries_for(db, c, log, name, (n - 1) as nat) + if log[n - 1].is_rebase || crate::repo::own_version(
            db,
            c,
            log[n - 1],
            name,
        ) is Some {
            1nat
        } else {
            0nat
        }
    }
}

/// A file's reconstructed history has one version per log entry that is a
/// rebase or carries a write of that file.
pub proof fn lemma_history_length<P: RemotePeer>(
    db: Db,
    peer: Option<P>,
    c: crate::records::ChangeView,
    log: Seq<crate::records::SnapshotLogEntry>,
    name: Seq<char>,
    n: nat,
)
    requires
        n <= log.len(),
    ensures
        crate::repo::history_upto(db, peer, c, log, name, n).len() == entries_for(db, c, log, name, n),
    decreases n,
{
    if n > 0 {
        lemma_history_length(db, peer, c, log, name, (n - 1) as nat);
    }
}

} // verus!
