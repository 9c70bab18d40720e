use weld_repo::cache::{QueryCache, ReadQuery, ReadResponse};
use weld_repo::keyspace::{
    change_to_rowname, normalize_directory, normalize_filename, parent_directory, path_to_colname,
};
use weld_repo::patch::{assemble_patch, part_of};
use weld_repo::memstore::MemStore;
use weld_repo::peer::StaticPeer;
use weld_repo::records::{Change, File, SnapshotResponse, SubmitResponse};
use weld_repo::repo::{merge_change, Repo};

fn file(name: &str, contents: &str) -> File {
    let mut f = File::new();
    f.filename = name.to_owned();
    f.contents = contents.as_bytes().to_vec();
    f
}

fn named_change(name: &str) -> Change {
    let mut c = Change::new();
    c.friendly_name = name.to_owned();
    c
}

fn local_repo() -> Repo<MemStore, StaticPeer> {
    Repo::new(MemStore::new())
}

fn remote_repo(peer: StaticPeer) -> Repo<MemStore, StaticPeer> {
    let mut repo = Repo::new(MemStore::new());
    repo.add_remote_server(peer);
    repo
}

#[test]
fn keyspace_normalizes_names() {
    assert_eq!(normalize_filename("a/b/"), "/a/b");
    assert_eq!(normalize_filename("//a.txt"), "/a.txt");
    assert_eq!(normalize_filename(""), "/");
    assert_eq!(normalize_directory("a/b"), "/a/b/");
    assert_eq!(normalize_directory("/a/b//"), "/a/b/");
    assert_eq!(normalize_directory("/"), "/");
    assert_eq!(normalize_directory(""), "/");
}

#[test]
fn keyspace_parent_directory() {
    assert_eq!(parent_directory("/a/b/c.txt"), "/a/b");
    assert_eq!(parent_directory("/a/b/"), "/a");
    assert_eq!(parent_directory("/a"), "/");
    assert_eq!(parent_directory("/"), "/");
    assert_eq!(parent_directory(""), "/");
}

#[test]
fn keyspace_columns_carry_depth() {
    assert_eq!(path_to_colname("/a/b"), "2:/a/b");
    assert_eq!(path_to_colname("/a/"), "2:/a/");
    assert_eq!(path_to_colname("/"), "1:/");
    assert_eq!(path_to_colname("x"), "0:x");
    assert_eq!(change_to_rowname(12), "changes/12");
    assert_eq!(change_to_rowname(0), "changes/0");
}

#[test]
fn write_then_read_without_remote() {
    let mut repo = local_repo();
    let id = repo.make_change(named_change("a"), 100);
    repo.write(id, file("/a.txt", "hello"), 0);
    let got = repo.read(id, "/a.txt", 0).unwrap();
    assert_eq!(got.contents, b"hello".to_vec());
    assert!(got.found);
    assert!(repo.read(id, "/missing.txt", 0).is_none());
    assert!(repo.read(id + 1, "/a.txt", 0).is_none());
}

#[test]
fn change_based_on_remote_head_reads_through() {
    let mut peer = StaticPeer::new(5);
    peer.files.push(file("/x.txt", "v1"));
    let mut repo = remote_repo(peer);
    let id = repo.make_change(named_change("b"), 1);
    let c = repo.get_change(id).unwrap();
    assert_eq!(c.based_id, 0);
    assert_eq!(c.based_index, 5);
    assert!(!c.is_based_locally);
    let got = repo.read(id, "/x.txt", 0).unwrap();
    assert_eq!(got.contents, b"v1".to_vec());
    let got = repo.read(id, "/x.txt", 0).unwrap();
    assert_eq!(got.contents, b"v1".to_vec());
}

#[test]
fn remote_reads_are_cached_for_historical_indices_only() {
    let mut peer = StaticPeer::new(5);
    peer.files.push(file("/x.txt", "v1"));
    let mut repo = remote_repo(peer);
    let counter = |r: &Repo<MemStore, StaticPeer>| r.remote_call_count();
    repo.read_remote(0, "/x.txt", 3);
    repo.read_remote(0, "/x.txt", 3);
    assert_eq!(counter(&repo), 1);
    repo.read_remote(0, "/x.txt", 0);
    repo.read_remote(0, "/x.txt", 0);
    assert_eq!(counter(&repo), 3);
    assert!(repo.read_remote(0, "/none.txt", 3).is_none());
}

#[test]
fn local_change_reads_its_local_base() {
    let mut repo = local_repo();
    let base = repo.make_change(named_change("base"), 1);
    repo.write(base, file("/lib.rs", "fn a() {}"), 0);
    let mut child = named_change("child");
    child.is_based_locally = true;
    child.based_id = base;
    child.based_index = 0;
    let id = repo.make_change(child, 2);
    assert_eq!(repo.read(id, "lib.rs", 0).unwrap().contents, b"fn a() {}".to_vec());
    repo.write(id, file("/lib.rs", "fn b() {}"), 0);
    assert_eq!(repo.read(id, "/lib.rs", 0).unwrap().contents, b"fn b() {}".to_vec());
    assert_eq!(repo.read(base, "/lib.rs", 0).unwrap().contents, b"fn a() {}".to_vec());
}

#[test]
fn delete_leaves_a_tombstone_and_hides_listing() {
    let mut repo = local_repo();
    let id = repo.make_change(named_change("d"), 1);
    repo.write(id, file("/d/a.txt", "a"), 0);
    repo.write(id, file("/d/b.txt", "b"), 0);
    repo.delete(id, "/d/b.txt", 0);
    assert!(repo.read(id, "/d/b.txt", 0).is_none());
    let listing = repo.list_files(id, "/d", 0);
    let names: Vec<String> = listing.iter().map(|f| f.filename.clone()).collect();
    assert_eq!(names, vec![String::from("/d/a.txt")]);
    let root = repo.list_files(id, "/", 0);
    assert_eq!(root.len(), 1);
    assert_eq!(root[0].filename, "/d");
    assert!(root[0].directory);
}

#[test]
fn listing_merges_local_over_base() {
    let mut repo = local_repo();
    let base = repo.make_change(named_change("base"), 1);
    repo.write(base, file("/k.txt", "old"), 0);
    repo.write(base, file("/m.txt", "m"), 0);
    let mut child = named_change("child");
    child.is_based_locally = true;
    child.based_id = base;
    let id = repo.make_change(child, 2);
    repo.write(id, file("/k.txt", "new"), 0);
    repo.delete(id, "/m.txt", 0);
    let listing = repo.list_files(id, "/", 0);
    assert_eq!(listing.len(), 1);
    assert_eq!(listing[0].filename, "/k.txt");
    assert_eq!(listing[0].contents, b"new".to_vec());
    assert!(repo.list_files(999, "/", 0).is_empty());
}

#[test]
fn remote_listing_fills_in_base() {
    let mut peer = StaticPeer::new(5);
    peer.files.push(file("/r.txt", "r"));
    let mut repo = remote_repo(peer);
    let id = repo.make_change(named_change("r"), 1);
    repo.write(id, file("/l.txt", "l"), 0);
    let mut names: Vec<String> = repo
        .list_files(id, "/", 0)
        .iter()
        .map(|f| f.filename.clone())
        .collect();
    names.sort();
    assert_eq!(names, vec![String::from("/l.txt"), String::from("/r.txt")]);
}

#[test]
fn fill_change_skips_noop_delete() {
    let mut repo = local_repo();
    let id = repo.make_change(named_change("c"), 1);
    repo.write(id, file("/y.txt", "y"), 0);
    repo.delete(id, "/y.txt", 0);
    repo.write(id, file("/z.txt", "z"), 0);
    let mut change = repo.get_change(id).unwrap();
    repo.fill_change(&mut change);
    let names: Vec<String> = change.staged_files.iter().map(|f| f.filename.clone()).collect();
    assert_eq!(names, vec![String::from("/z.txt")]);
}

#[test]
fn fill_change_twice_gives_same_staged_files() {
    let mut peer = StaticPeer::new(5);
    peer.files.push(file("/same.txt", "s"));
    let mut repo = remote_repo(peer);
    let id = repo.make_change(named_change("f"), 1);
    repo.write(id, file("/new.txt", "n"), 0);
    repo.delete(id, "/same.txt", 0);
    let mut change = repo.get_change(id).unwrap();
    repo.fill_change(&mut change);
    let first: Vec<String> = change.staged_files.iter().map(|f| f.filename.clone()).collect();
    repo.fill_change(&mut change);
    let second: Vec<String> = change.staged_files.iter().map(|f| f.filename.clone()).collect();
    assert_eq!(first, second);
    assert_eq!(first.len(), 2);
}

#[test]
fn fill_change_drops_identical_file() {
    let mut peer = StaticPeer::new(5);
    let mut same = file("/same.txt", "s");
    same.found = true;
    peer.files.push(same);
    let mut repo = remote_repo(peer);
    let id = repo.make_change(named_change("g"), 1);
    repo.write(id, file("/same.txt", "s"), 0);
    let mut change = repo.get_change(id).unwrap();
    repo.fill_change(&mut change);
    assert!(change.staged_files.is_empty());
}

#[test]
fn failed_submit_keeps_change() {
    let peer = StaticPeer::new(5);
    let mut repo = remote_repo(peer);
    let id = repo.make_change(named_change("s"), 1);
    let response = repo.submit(id);
    assert_eq!(response.id, 0);
    assert!(repo.get_change(id).is_some());
    assert_eq!(repo.lookup_friendly_name("s"), Some(id));
}

#[test]
fn successful_submit_deletes_change() {
    let mut peer = StaticPeer::new(5);
    peer.submit_id = 77;
    let mut repo = remote_repo(peer);
    let id = repo.make_change(named_change("ok"), 1);
    let response = repo.submit(id);
    assert_eq!(response.id, 77);
    assert!(repo.get_change(id).is_none());
    assert_eq!(repo.lookup_friendly_name("ok"), None);
    assert_eq!(repo.submit(id).id, 0);
}

#[test]
fn submit_without_peer_fails() {
    let mut repo = local_repo();
    let id = repo.make_change(named_change("lonely"), 1);
    assert_eq!(repo.submit(id), SubmitResponse { id: 0, status: 0 });
    assert!(repo.get_change(id).is_some());
}

#[test]
fn make_change_reserves_ids_and_names() {
    let mut repo = local_repo();
    let a = repo.make_change(named_change("one"), 10);
    let b = repo.make_change(named_change("two"), 20);
    assert_eq!(a, 1);
    assert_eq!(b, 2);
    assert_eq!(repo.lookup_friendly_name("two"), Some(2));
    let c = repo.get_change(a).unwrap();
    assert!(c.found);
    assert_eq!(c.last_modified_timestamp, 10);
    let log = repo.list_snapshots(a);
    assert_eq!(log.len(), 1);
    assert!(log[0].is_rebase);
    assert_eq!(repo.list_changes().len(), 2);
}

#[test]
fn delete_change_forgets_name() {
    let mut repo = local_repo();
    let id = repo.make_change(named_change("gone"), 1);
    repo.delete_change(id);
    assert!(repo.get_change(id).is_none());
    assert_eq!(repo.lookup_friendly_name("gone"), None);
    repo.delete_change(id);
    assert!(repo.list_changes().is_empty());
}

#[test]
fn new_rebuilds_name_index() {
    let mut repo = local_repo();
    let id = repo.make_change(named_change("kept"), 1);
    let store = repo.into_store();
    let reopened: Repo<MemStore, StaticPeer> = Repo::new(store);
    assert_eq!(reopened.lookup_friendly_name("kept"), Some(id));
}

#[test]
fn snapshot_merges_and_logs() {
    let mut repo = local_repo();
    let id = repo.make_change(named_change("old"), 1);
    let mut partial = Change::new();
    partial.id = id;
    partial.friendly_name = String::from("renamed");
    let response = repo.snapshot(&partial);
    assert_eq!(response.change_id, id);
    assert_eq!(response.snapshot_id, 1);
    assert_eq!(repo.get_change(id).unwrap().friendly_name, "renamed");
    assert_eq!(repo.lookup_friendly_name("renamed"), Some(id));
    let log = repo.list_snapshots(id);
    assert_eq!(log.len(), 2);
    assert!(!log[1].is_rebase);
    assert_eq!(log[1].index, 1);
    assert_eq!(repo.snashot_from_id(id).snapshot_id, 2);
    assert_eq!(repo.snashot_from_id(999), SnapshotResponse { change_id: 0, snapshot_id: 0 });
}

#[test]
fn remote_snapshot_takes_new_remote_id() {
    let mut peer = StaticPeer::new(5);
    peer.snapshot_change_id = 42;
    let mut repo = remote_repo(peer);
    let id = repo.make_change(named_change("rs"), 1);
    repo.write(id, file("/w.txt", "w"), 0);
    let response = repo.snashot_from_id(id);
    assert_eq!(response.change_id, 42);
    let c = repo.get_change(id).unwrap();
    assert_eq!(c.remote_id, 42);
    assert!(c.staged_files.is_empty());
}

#[test]
fn merge_change_keeps_unset_fields() {
    let mut stored = named_change("kept");
    stored.based_id = 3;
    stored.remote_id = 9;
    let mut partial = Change::new();
    partial.based_index = 4;
    merge_change(&mut stored, &partial);
    assert_eq!(stored.friendly_name, "kept");
    assert_eq!(stored.based_id, 3);
    assert_eq!(stored.based_index, 4);
    assert_eq!(stored.remote_id, 9);
}

#[test]
fn populate_change_replays_log() {
    let mut peer = StaticPeer::new(5);
    peer.files.push(file("/h.txt", "base"));
    let mut repo = remote_repo(peer);
    let id = repo.make_change(named_change("h"), 1);
    let mut partial = Change::new();
    partial.id = id;
    repo.snapshot(&partial);
    repo.write(id, file("/h.txt", "mine"), 1);
    let change = repo.get_change(id).unwrap();
    let populated = repo.populate_change(change);
    assert!(populated.found);
    assert_eq!(populated.changes.len(), 1);
    let h = &populated.changes[0];
    assert_eq!(h.filename, "/h.txt");
    assert_eq!(h.snapshots.len(), 2);
    assert_eq!(h.snapshots[0].contents, b"base".to_vec());
    assert_eq!(h.snapshots[0].change_id, 5);
    assert_eq!(h.snapshots[0].snapshot_id, 0);
    assert_eq!(h.snapshots[1].contents, b"mine".to_vec());
    assert_eq!(h.snapshots[1].change_id, 0);
    assert_eq!(h.snapshots[1].snapshot_id, 1);
}

#[test]
fn populate_change_marks_rebase_without_base_version() {
    let mut repo = local_repo();
    let id = repo.make_change(named_change("p"), 1);
    let mut partial = Change::new();
    partial.id = id;
    repo.snapshot(&partial);
    repo.write(id, file("/p.txt", "p"), 1);
    let change = repo.get_change(id).unwrap();
    let populated = repo.populate_change(change);
    assert_eq!(populated.changes.len(), 1);
    let h = &populated.changes[0];
    assert_eq!(h.snapshots.len(), 2);
    assert!(!h.snapshots[0].found);
    assert_eq!(h.snapshots[0].filename, "/p.txt");
    assert_eq!(h.snapshots[0].snapshot_id, 0);
    assert!(h.snapshots[1].found);
    assert_eq!(h.snapshots[1].snapshot_id, 1);
}

#[test]
fn snapshot_and_submit_requests_are_counted() {
    let mut repo = local_repo();
    let id = repo.make_change(named_change("local"), 1);
    repo.snashot_from_id(id);
    assert_eq!(repo.peer_request_count(), 0);
    let mut remote = remote_repo(StaticPeer::new(5));
    let rid = remote.make_change(named_change("remote"), 1);
    remote.snashot_from_id(rid);
    assert_eq!(remote.peer_request_count(), 1);
    remote.submit(rid);
    assert_eq!(remote.peer_request_count(), 2);
}

#[test]
fn patch_parts_and_body() {
    let mut gone = file("/old.txt", "");
    gone.deleted = true;
    let mut base = file("/old.txt", "x\n");
    base.found = true;
    let part = part_of(&gone, &base);
    assert_eq!(part.new_label, "/dev/null");
    assert!(part.new_contents.is_none());
    assert_eq!(part.old_label, "b/old.txt");
    assert_eq!(part.old_contents, Some(b"x\n".to_vec()));
    let added = part_of(&file("/n.txt", "n"), &File::new());
    assert_eq!(added.new_label, "a/n.txt");
    assert_eq!(added.old_label, "/dev/null");
    let body = assemble_patch("summary", &vec![String::from("d1\n"), String::from("d2\n")]);
    assert_eq!(
        body,
        "From: Weld <weld@weld.io>\nSubject: [PATCH 1/1] summary\n\nd1\nd2\n"
    );
}

#[test]
fn patch_parts_follow_staged_files() {
    let mut repo = local_repo();
    let id = repo.make_change(named_change("pp"), 1);
    repo.write(id, file("/q.txt", "q"), 0);
    let mut change = repo.get_change(id).unwrap();
    repo.fill_change(&mut change);
    let parts = repo.patch_parts(&change);
    assert_eq!(parts.len(), 1);
    assert_eq!(parts[0].new_label, "a/q.txt");
    assert_eq!(parts[0].old_label, "/dev/null");
}

#[test]
fn cache_evicts_oldest_when_full() {
    let mut cache = QueryCache::new(1);
    cache.insert(ReadQuery::Read(1, String::from("/a"), 2), ReadResponse::Read(file("/a", "a")));
    cache.insert(ReadQuery::Read(1, String::from("/b"), 2), ReadResponse::Read(file("/b", "b")));
    assert!(cache.get(&ReadQuery::Read(1, String::from("/a"), 2)).is_none());
    match cache.get(&ReadQuery::Read(1, String::from("/b"), 2)) {
        Some(ReadResponse::Read(f)) => assert_eq!(f.filename, "/b"),
        _ => panic!("missing entry"),
    }
}

#[test]
fn listing_comes_in_name_order() {
    let mut repo = local_repo();
    let id = repo.make_change(named_change("o"), 1);
    repo.write(id, file("/b.txt", "b"), 0);
    repo.write(id, file("/a.txt", "a"), 0);
    repo.write(id, file("/ab.txt", "ab"), 0);
    let names: Vec<String> = repo
        .list_files(id, "/", 0)
        .iter()
        .map(|f| f.filename.clone())
        .collect();
    assert_eq!(
        names,
        vec![
            String::from("/a.txt"),
            String::from("/ab.txt"),
            String::from("/b.txt")
        ]
    );
}

#[test]
fn delete_hides_the_based_version() {
    let mut peer = StaticPeer::new(5);
    peer.files.push(file("/x.txt", "v1"));
    let mut repo = remote_repo(peer);
    let id = repo.make_change(named_change("del"), 1);
    assert!(repo.read(id, "/x.txt", 0).is_some());
    repo.delete(id, "/x.txt", 0);
    assert!(repo.read(id, "/x.txt", 0).is_none());
}

#[test]
fn unknown_change_costs_no_remote_call() {
    let peer = StaticPeer::new(5);
    let mut repo = remote_repo(peer);
    assert!(repo.read(42, "/x.txt", 0).is_none());
    assert_eq!(repo.submit(42), SubmitResponse { id: 0, status: 0 });
    assert_eq!(repo.remote_call_count(), 0);
}

#[test]
fn remote_frame_uses_remote_id() {
    let mut c = named_change("f");
    c.id = 3;
    c.remote_id = 9;
    let r = weld_repo::repo::remote_frame(&c);
    assert_eq!(r.id, 9);
    assert!(r.is_based_locally);
    assert_eq!(r.friendly_name, "f");
}
