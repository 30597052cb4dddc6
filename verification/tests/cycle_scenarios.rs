//! End-to-end scenarios over a temporary store: empty scan roots, linear
//! history, fast-forwards, force pushes, tree deduplication, and
//! repository deletion.

use rgit::commit_tree::CommitTree;
use rgit::indexer::{
    sync_repository, sync_tags, update_ref, RefData, RefUpdate, RepoData, RepoObservation,
    RevRecord, TagData, TreeData,
};
use rgit::keys::commit_key;
use rgit::records::{Author, Repository, Tag, TreeItem};
use rgit::store::{Family, SchemaOutcome, Store};
use rgit::tag_tree::TagTree;
use rgit::tree_index::{index_tree, TreeEntry, TreeEntryKind};

fn temp_store() -> Store {
    let (store, _outcome) = Store::open_temp_indexed().expect("temporary store");
    store
}

fn author(name: &[u8]) -> Author {
    Author { name: name.to_vec(), email: b"a@example.org".to_vec(), time: (100, 0) }
}

fn readme_entries() -> Vec<TreeEntry> {
    vec![TreeEntry { path: b"README".to_vec(), mode: 0o100644u32 as u16, kind: TreeEntryKind::File }]
}

fn rev(tag: u8, summary: &[u8]) -> RevRecord {
    RevRecord {
        summary: summary.to_vec(),
        message: Vec::new(),
        author: author(b"alice"),
        committer: author(b"alice"),
        hash: vec![tag; 20],
        tree: TreeData::Walk { oid: vec![tag ^ 0xff; 20], entries: readme_entries() },
    }
}

fn main_ref() -> Vec<u8> {
    b"refs/heads/main".to_vec()
}

fn commit_row(store: &Store, repo: u64, name: &[u8], seq: u64) -> Option<Vec<u8>> {
    let key = commit_key(repo, &name.to_vec(), seq);
    store.get(Family::Commit, &key).expect("commit row read")
}

/// Empty scan root: one cycle completes, no repositories are listed, and
/// the schema version is persisted.
#[test]
fn empty_scan_root_cycle() {
    let mut store = temp_store();
    assert_eq!(rgit::indexer::run_cycle(&mut store, &Vec::new()), 0);
    let repos = Repository::fetch_all(&store).expect("fetch_all");
    assert!(repos.is_empty());
    let key = rgit::store::schema_key();
    let stored = store.get(Family::Default, &key).expect("schema read");
    assert_eq!(stored, Some(b"2".to_vec()));
}

/// The schema version equals the compiled constant immediately after
/// startup.
#[test]
fn schema_version_written_at_startup() {
    let (store, outcome) = Store::open_temp_indexed().expect("store");
    assert!(matches!(outcome, SchemaOutcome::Current));
    let stored = store
        .get(Family::Default, &rgit::store::schema_key())
        .expect("schema read")
        .expect("schema present");
    assert_eq!(stored, rgit::SCHEMA_VERSION.as_bytes().to_vec());
    assert_eq!(rgit::store::schema_version_value(), stored);
}

/// Single repository, linear history: seq 0..3 hold C1..C3 and the count
/// row says three.
#[test]
fn linear_history_first_cycle() {
    let mut store = temp_store();
    let repo = 7u64;
    let revs = vec![rev(1, b"C1"), rev(2, b"C2"), rev(3, b"C3")];
    let outcome = update_ref(&mut store, repo, &main_ref(), &revs, &Vec::new()).expect("update");
    assert!(matches!(outcome, RefUpdate::Reindexed { count: 3 }));
    let ct = CommitTree::new(repo, &main_ref()).expect("commit tree");
    assert_eq!(ct.len(&store).expect("len"), 3);
    for (i, tag) in [(0u64, 1u8), (1, 2), (2, 3)] {
        let c = ct.fetch_one(&store, i).expect("fetch").expect("row");
        assert_eq!(c.hash, vec![tag; 20]);
    }
    let tip = ct.fetch_latest_one(&store).expect("latest").expect("tip");
    assert_eq!(tip.hash, vec![3u8; 20]);
}

/// Fast-forward: adding C4 appends one row, earlier rows are
/// byte-identical, and the count moves to four.
#[test]
fn fast_forward_appends() {
    let mut store = temp_store();
    let repo = 7u64;
    let name = main_ref();
    let revs3 = vec![rev(1, b"C1"), rev(2, b"C2"), rev(3, b"C3")];
    update_ref(&mut store, repo, &name, &revs3, &Vec::new()).expect("first cycle");
    let before: Vec<Option<Vec<u8>>> =
        (0..3).map(|i| commit_row(&store, repo, &name, i)).collect();
    let revs4 = vec![rev(1, b"C1"), rev(2, b"C2"), rev(3, b"C3"), rev(4, b"C4")];
    let outcome = update_ref(&mut store, repo, &name, &revs4, &Vec::new()).expect("second cycle");
    assert!(matches!(outcome, RefUpdate::Appended { matched: 2, count: 4 }));
    let ct = CommitTree::new(repo, &name).expect("commit tree");
    assert_eq!(ct.len(&store).expect("len"), 4);
    let after: Vec<Option<Vec<u8>>> = (0..3).map(|i| commit_row(&store, repo, &name, i)).collect();
    assert_eq!(before, after);
    let c4 = ct.fetch_one(&store, 3).expect("fetch").expect("row");
    assert_eq!(c4.hash, vec![4u8; 20]);
}

/// Force push: replacing C3..C4 with C3'..C4' drops the range and
/// re-ingests from zero; the early rows carry the same content, freshly
/// written.
#[test]
fn force_push_reindexes() {
    let mut store = temp_store();
    let repo = 7u64;
    let name = main_ref();
    let revs4 = vec![rev(1, b"C1"), rev(2, b"C2"), rev(3, b"C3"), rev(4, b"C4")];
    update_ref(&mut store, repo, &name, &revs4, &Vec::new()).expect("first cycle");
    let before: Vec<Option<Vec<u8>>> =
        (0..2).map(|i| commit_row(&store, repo, &name, i)).collect();
    let rewritten = vec![rev(1, b"C1"), rev(2, b"C2"), rev(13, b"C3'"), rev(14, b"C4'")];
    let outcome =
        update_ref(&mut store, repo, &name, &rewritten, &Vec::new()).expect("rewrite cycle");
    assert!(matches!(outcome, RefUpdate::Reindexed { count: 4 }));
    let ct = CommitTree::new(repo, &name).expect("commit tree");
    assert_eq!(ct.len(&store).expect("len"), 4);
    let after: Vec<Option<Vec<u8>>> = (0..2).map(|i| commit_row(&store, repo, &name, i)).collect();
    assert_eq!(before, after);
    let c2 = ct.fetch_one(&store, 2).expect("fetch").expect("row");
    assert_eq!(c2.hash, vec![13u8; 20]);
    let c3 = ct.fetch_one(&store, 3).expect("fetch").expect("row");
    assert_eq!(c3.hash, vec![14u8; 20]);
}

/// Two consecutive cycles with no upstream change write nothing: the
/// second run short-circuits at matching tips.
#[test]
fn unchanged_cycle_writes_nothing() {
    let mut store = temp_store();
    let repo = 9u64;
    let name = main_ref();
    let revs = vec![rev(1, b"C1"), rev(2, b"C2")];
    update_ref(&mut store, repo, &name, &revs, &Vec::new()).expect("first cycle");
    let before: Vec<Option<Vec<u8>>> =
        (0..2).map(|i| commit_row(&store, repo, &name, i)).collect();
    let outcome = update_ref(&mut store, repo, &name, &revs, &Vec::new()).expect("second cycle");
    assert!(matches!(outcome, RefUpdate::UpToDate));
    let after: Vec<Option<Vec<u8>>> = (0..2).map(|i| commit_row(&store, repo, &name, i)).collect();
    assert_eq!(before, after);
    let ct = CommitTree::new(repo, &name).expect("commit tree");
    assert_eq!(ct.len(&store).expect("len"), 2);
}

/// Tree dedup: two unrelated repositories with shape-identical trees
/// share the content address, and the tree-item family holds exactly one
/// row under it.
#[test]
fn shape_identical_trees_share_digest() {
    let mut store = temp_store();
    let name = main_ref();
    update_ref(&mut store, 1, &name, &vec![rev(1, b"C1")], &Vec::new()).expect("repo one");
    update_ref(&mut store, 2, &name, &vec![rev(9, b"D1")], &Vec::new()).expect("repo two");
    let ct1 = CommitTree::new(1, &name).expect("tree one");
    let ct2 = CommitTree::new(2, &name).expect("tree two");
    let c1 = ct1.fetch_one(&store, 0).expect("fetch").expect("row");
    let c2 = ct2.fetch_one(&store, 0).expect("fetch").expect("row");
    assert_eq!(c1.tree, c2.tree);
    let rows = TreeItem::find_prefix(&store, c1.tree, None).expect("scan");
    assert_eq!(rows.len(), 1);
    assert_eq!(rows[0].0, b"README".to_vec());
}

/// Indexing the same shape twice writes its rows once: the second call
/// sees the digest and leaves the family as it stands.
#[test]
fn reindexing_known_shape_writes_no_rows() {
    let mut store = temp_store();
    let d1 = index_tree(&mut store, &vec![0x11; 20], &readme_entries(), &Vec::new())
        .expect("first index");
    let d2 = index_tree(&mut store, &vec![0x22; 20], &readme_entries(), &Vec::new())
        .expect("second index");
    assert_eq!(d1, d2);
    let rows = TreeItem::find_prefix(&store, d1, None).expect("scan");
    assert_eq!(rows.len(), 1);
}

/// Direct children: a prefix query at a directory returns exactly that
/// directory's level, and the root query exactly the root level.
#[test]
fn find_prefix_returns_direct_children() {
    let mut store = temp_store();
    let entries = vec![
        TreeEntry { path: b"dir".to_vec(), mode: 0o040000u32 as u16, kind: TreeEntryKind::Tree },
        TreeEntry { path: b"y".to_vec(), mode: 0o100644u32 as u16, kind: TreeEntryKind::File },
        TreeEntry {
            path: b"dir/x".to_vec(),
            mode: 0o100644u32 as u16,
            kind: TreeEntryKind::File,
        },
        TreeEntry {
            path: b"dir/sub".to_vec(),
            mode: 0o040000u32 as u16,
            kind: TreeEntryKind::Tree,
        },
        TreeEntry {
            path: b"dir/sub/z".to_vec(),
            mode: 0o100644u32 as u16,
            kind: TreeEntryKind::File,
        },
    ];
    let digest = index_tree(&mut store, &vec![0x33; 20], &entries, &Vec::new()).expect("index");
    let children = TreeItem::find_prefix(&store, digest, Some(&b"dir".to_vec())).expect("scan");
    let names: Vec<Vec<u8>> = children.iter().map(|(p, _)| p.clone()).collect();
    assert_eq!(names, vec![b"dir/sub".to_vec(), b"dir/x".to_vec()]);
    let root = TreeItem::find_prefix(&store, digest, Some(&Vec::new())).expect("root scan");
    let root_names: Vec<Vec<u8>> = root.iter().map(|(p, _)| p.clone()).collect();
    assert_eq!(root_names, vec![b"dir".to_vec(), b"y".to_vec()]);
    let all = TreeItem::find_prefix(&store, digest, None).expect("full scan");
    assert_eq!(all.len(), 5);
    let exact = TreeItem::find_exact(&store, digest, &b"dir/sub/z".to_vec()).expect("exact");
    assert!(exact.is_some());
    let missing = TreeItem::find_exact(&store, digest, &b"dir/nope".to_vec()).expect("exact miss");
    assert!(missing.is_none());
}

/// Inserting then removing the same tag leaves the family empty under
/// that key.
#[test]
fn tag_insert_then_remove_leaves_nothing() {
    let mut store = temp_store();
    let tt = TagTree::new(4);
    let name = b"refs/tags/v1".to_vec();
    tt.insert(&mut store, &name, &Tag { tagger: Some(author(b"bob")), tree: None })
        .expect("insert");
    assert_eq!(tt.list(&store).expect("list"), vec![name.clone()]);
    tt.remove(&mut store, &name).expect("remove");
    assert!(tt.list(&store).expect("list again").is_empty());
}

/// Tag reconciliation inserts the missing names and removes the stale
/// ones: afterwards exactly the live set is indexed.
#[test]
fn tag_sync_reconciles() {
    let mut store = temp_store();
    let repo = 4u64;
    let tt = TagTree::new(repo);
    tt.insert(&mut store, &b"refs/tags/old".to_vec(), &Tag { tagger: None, tree: None })
        .expect("seed stale");
    let live = vec![
        TagData { name: b"refs/tags/v1".to_vec(), tagger: Some(author(b"bob")), tree: None },
        TagData {
            name: b"refs/tags/v2".to_vec(),
            tagger: None,
            tree: Some(TreeData::Walk { oid: vec![0x44; 20], entries: readme_entries() }),
        },
    ];
    sync_tags(&mut store, repo, &live).expect("sync");
    let names = tt.list(&store).expect("list");
    assert_eq!(names, vec![b"refs/tags/v1".to_vec(), b"refs/tags/v2".to_vec()]);
    let all = tt.fetch_all(&store).expect("fetch_all");
    assert_eq!(all.len(), 2);
    assert!(all[1].1.tree.is_some());
}

/// Repository deletion: after the path disappears, the record, the
/// commit rows and the count are gone; indexed trees are tolerated as
/// leftovers.
#[test]
fn gone_repository_is_removed() {
    let mut store = temp_store();
    let path = b"a.git".to_vec();
    let data = RepoData {
        path: path.clone(),
        id_hint: 77,
        name: b"a.git".to_vec(),
        description: None,
        owner: None,
        last_modified: (100, 0),
        default_branch: Some(main_ref()),
        exported: false,
        refs: vec![RefData {
            name: main_ref(),
            revs: vec![rev(1, b"C1"), rev(2, b"C2"), rev(3, b"C3")],
        }],
        tags: Vec::new(),
        submodules: Vec::new(),
    };
    let mut observed = vec![RepoObservation::Present(data)];
    assert_eq!(rgit::indexer::run_cycle(&mut store, &observed), 0);
    let repos = Repository::fetch_all(&store).expect("fetch_all");
    assert_eq!(repos.len(), 1);
    assert_eq!(repos[0].0, path);
    let digest = {
        let ct = CommitTree::new(77, &main_ref()).expect("commit tree");
        ct.fetch_one(&store, 0).expect("fetch").expect("row").tree
    };
    observed = vec![RepoObservation::Gone { path: path.clone() }];
    assert_eq!(rgit::indexer::run_cycle(&mut store, &observed), 0);
    let repos = Repository::fetch_all(&store).expect("fetch_all after");
    assert!(repos.is_empty());
    let ct = CommitTree::new(77, &main_ref()).expect("commit tree");
    assert_eq!(ct.len(&store).expect("len"), 0);
    // the space leak is tolerated: tree rows may remain
    let rows = TreeItem::find_prefix(&store, digest, None).expect("scan");
    assert_eq!(rows.len(), 1);
}

/// A present repository's metadata is upserted and its id survives later
/// cycles; heads follow the valid references.
#[test]
fn metadata_and_heads_follow_cycles() {
    let mut store = temp_store();
    let path = b"b.git".to_vec();
    let mk = |descr: Option<Vec<u8>>, id_hint: u64| RepoData {
        path: path.clone(),
        id_hint,
        name: b"b.git".to_vec(),
        description: descr,
        owner: Some(b"owner".to_vec()),
        last_modified: (42, 3600),
        default_branch: Some(main_ref()),
        exported: true,
        refs: vec![RefData { name: main_ref(), revs: vec![rev(1, b"C1")] }],
        tags: Vec::new(),
        submodules: Vec::new(),
    };
    sync_repository(&mut store, &RepoObservation::Present(mk(Some(b"hello".to_vec()), 5)))
        .expect("first");
    let rec = Repository::open(&store, &path).expect("open").expect("present");
    assert_eq!(rec.id, 5);
    assert_eq!(rec.description, Some(b"hello".to_vec()));
    assert!(rec.exported);
    // a second cycle keeps the id even with another hint
    sync_repository(&mut store, &RepoObservation::Present(mk(None, 999))).expect("second");
    let rec2 = Repository::open(&store, &path).expect("open").expect("present");
    assert_eq!(rec2.id, 5);
    assert_eq!(rec2.description, None);
    let heads = rec2.heads(&store).expect("heads").expect("row");
    assert_eq!(heads.0, vec![main_ref()]);
}

/// A corrupt count row surfaces as a corrupt-store error, not a panic.
#[test]
fn corrupt_count_row_is_reported() {
    let mut store = temp_store();
    let repo = 3u64;
    let prefix = rgit::keys::commit_prefix(repo, &main_ref());
    store.put(Family::CommitCount, &prefix, &vec![1, 2, 3]).expect("plant bad row");
    let ct = CommitTree::new(repo, &main_ref()).expect("commit tree");
    assert!(matches!(ct.len(&store), Err(rgit::store::StoreError::Corrupt)));
}

/// A record that does not decode is reported corrupt on open.
#[test]
fn corrupt_repository_record_is_reported() {
    let mut store = temp_store();
    let path = b"c.git".to_vec();
    store.put(Family::Repository, &path, &vec![0xff, 0x00]).expect("plant bad record");
    assert!(matches!(
        Repository::open(&store, &path),
        Err(rgit::store::StoreError::Corrupt)
    ));
}

/// The log listing falls back through the candidate branches and returns
/// the newest commits first, bounded by the requested amount.
#[test]
fn branch_commits_fall_back_and_window() {
    let mut store = temp_store();
    let repo_id = 21u64;
    let revs = vec![rev(1, b"C1"), rev(2, b"C2"), rev(3, b"C3")];
    update_ref(&mut store, repo_id, &main_ref(), &revs, &Vec::new()).expect("index main");
    let record = Repository {
        id: repo_id,
        name: b"w.git".to_vec(),
        description: None,
        owner: None,
        last_modified: (0, 0),
        default_branch: None,
        exported: false,
    };
    // no branch given, no default branch: master is empty, main wins
    let listed = rgit::web::get_branch_commits(&record, &store, None, 10, 0).expect("list");
    assert_eq!(listed.len(), 3);
    assert_eq!(listed[0].hash, vec![3u8; 20]);
    assert_eq!(listed[2].hash, vec![1u8; 20]);
    // a named branch resolves under refs/heads/
    let by_name =
        rgit::web::get_branch_commits(&record, &store, Some(&b"main".to_vec()), 10, 0)
            .expect("by name");
    assert_eq!(by_name.len(), 3);
    // the window honours amount and offset, newest first
    let ct = CommitTree::new(repo_id, &main_ref()).expect("commit tree");
    let two = ct.fetch_latest(&store, 2, 0).expect("latest two");
    assert_eq!(two.len(), 2);
    assert_eq!(two[0].hash, vec![3u8; 20]);
    assert_eq!(two[1].hash, vec![2u8; 20]);
    let skipped = ct.fetch_latest(&store, 2, 1).expect("latest offset");
    assert_eq!(skipped.len(), 2);
    assert_eq!(skipped[0].hash, vec![2u8; 20]);
    assert_eq!(skipped[1].hash, vec![1u8; 20]);
    // an unknown branch yields nothing
    let none =
        rgit::web::get_branch_commits(&record, &store, Some(&b"dev".to_vec()), 10, 0)
            .expect("unknown branch");
    assert!(none.is_empty());
}

/// Tag listing strips the namespace and sorts newest first, untagged
/// records last.
#[test]
fn tag_listing_strips_and_sorts() {
    let mut store = temp_store();
    let repo_id = 11u64;
    let tt = TagTree::new(repo_id);
    let mk = |secs: i64| Tag {
        tagger: Some(Author {
            name: b"bob".to_vec(),
            email: b"b@example.org".to_vec(),
            time: (secs, 0),
        }),
        tree: None,
    };
    tt.insert(&mut store, &b"refs/tags/old".to_vec(), &mk(100)).expect("old");
    tt.insert(&mut store, &b"refs/tags/new".to_vec(), &mk(900)).expect("new");
    tt.insert(&mut store, &b"refs/tags/bare".to_vec(), &Tag { tagger: None, tree: None })
        .expect("bare");
    // a row outside the tags namespace is not listed
    tt.insert(&mut store, &b"refs/heads/main".to_vec(), &mk(500)).expect("stray");
    let listed = tt.fetch_all(&store).expect("fetch_all");
    let names: Vec<Vec<u8>> = listed.iter().map(|(n, _)| n.clone()).collect();
    assert_eq!(names, vec![b"new".to_vec(), b"old".to_vec(), b"bare".to_vec()]);
}

/// The canned placeholder description is stored as absence; real text is
/// kept.
#[test]
fn placeholder_description_is_absent() {
    let mut store = temp_store();
    let mk = |descr: &[u8]| RepoData {
        path: b"d.git".to_vec(),
        id_hint: 31,
        name: b"d.git".to_vec(),
        description: Some(descr.to_vec()),
        owner: None,
        last_modified: (0, 0),
        default_branch: None,
        exported: false,
        refs: Vec::new(),
        tags: Vec::new(),
        submodules: Vec::new(),
    };
    sync_repository(
        &mut store,
        &RepoObservation::Present(mk(
            b"Unnamed repository; edit this file 'description' to name the repository.\n",
        )),
    )
    .expect("placeholder");
    let rec = Repository::open(&store, &b"d.git".to_vec()).expect("open").expect("present");
    assert_eq!(rec.description, None);
    sync_repository(&mut store, &RepoObservation::Present(mk(b"a real description")))
        .expect("real");
    let rec2 = Repository::open(&store, &b"d.git".to_vec()).expect("open").expect("present");
    assert_eq!(rec2.description, Some(b"a real description".to_vec()));
}

/// A mismatched persisted schema version forces the rebuild: the old
/// contents are gone and the compiled version stands.
#[test]
fn schema_mismatch_rebuilds() {
    let mut store = temp_store();
    let repo = 13u64;
    update_ref(&mut store, repo, &main_ref(), &vec![rev(1, b"C1")], &Vec::new()).expect("index");
    store
        .put(Family::Default, &rgit::store::schema_key(), &b"1".to_vec())
        .expect("age the version");
    let (gated, outcome) = Store::schema_gate(store).expect("gate");
    assert!(matches!(outcome, SchemaOutcome::Rebuilt));
    let stored = gated
        .get(Family::Default, &rgit::store::schema_key())
        .expect("schema read")
        .expect("schema present");
    assert_eq!(stored, b"2".to_vec());
    let ct = CommitTree::new(repo, &main_ref()).expect("commit tree");
    assert_eq!(ct.len(&gated).expect("len"), 0);
    let repos = Repository::fetch_all(&gated).expect("fetch_all");
    assert!(repos.is_empty());
}
