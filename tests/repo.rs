use evs::error::{CorruptState, EvsError};
use evs::hash::HashDisplay;
use evs::objects::{Object, Timestamp, TreeEntry};
use evs::repo::{Repository, RepositoryInfo};
use evs::stage::{WorkChild, WorkTree};
use evs::store::Store;
use evs::workspace::PathKind::{Dir, File, Missing};
use evs::workspace::{check_layout, keep_searching, relative_path};

fn hex(h: &evs::hash::Hash) -> String {
    HashDisplay(h).to_string()
}

fn rel(path: &str) -> Vec<Vec<u8>> {
    path.split('/').map(|c| c.as_bytes().to_vec()).collect()
}

fn file(data: &[u8]) -> WorkTree {
    let mut w = WorkTree::new();
    w.add_file(data.to_vec()).unwrap();
    w
}

fn empty_dir() -> WorkTree {
    let mut w = WorkTree::new();
    w.add_dir(vec![]).unwrap();
    w
}

fn hash_of(obj: Object) -> evs::hash::Hash {
    Store::new(vec![]).insert(obj)
}

fn tree_of(repo: &Repository, h: &evs::hash::Hash) -> Vec<TreeEntry> {
    match repo.store.lookup(&hex(h)).unwrap().1 {
        Object::Tree(es) => es,
        other => panic!("not a tree: {:?}", other),
    }
}

fn at(repo: &Repository, path: &str) -> evs::hash::Hash {
    let mut cur = repo.info.stage();
    for c in path.split('/') {
        let es = tree_of(repo, &cur);
        cur = es.iter().find(|e| e.name == c.as_bytes()).expect("path in stage").content;
    }
    cur
}

fn now(secs: u64) -> Timestamp {
    Timestamp { secs, nanos: 0 }
}

#[test]
fn init_then_check() {
    let repo = Repository::create();
    assert_eq!(repo.store.files.len(), 2);
    assert_eq!(repo.info.head(), hash_of(Object::Null));
    assert_eq!(repo.info.stage(), hash_of(Object::Tree(vec![])));
    assert!(!repo.info.modified());
    assert!(repo.check().is_ok());
}

#[test]
fn add_single_file() {
    let mut repo = Repository::create();
    repo.add(&rel("hello.txt"), &file(b"hi\n")).unwrap();
    let stage = repo.info.stage();
    let es = tree_of(&repo, &stage);
    assert_eq!(es.len(), 1);
    assert_eq!(es[0].name, b"hello.txt".to_vec());
    assert_eq!(es[0].content, hash_of(Object::Blob(b"hi\n".to_vec())));
    assert!(repo.info.modified());
    repo.add(&rel("hello.txt"), &file(b"hi\n")).unwrap();
    assert_eq!(repo.info.stage(), stage);
    assert!(repo.check().is_ok());
}

#[test]
fn nested_add_then_sub_prunes() {
    let mut repo = Repository::create();
    let empty = repo.info.stage();
    repo.add(&rel("a/b/c.txt"), &file(b"x")).unwrap();
    assert_eq!(at(&repo, "a/b/c.txt"), hash_of(Object::Blob(b"x".to_vec())));
    assert_eq!(tree_of(&repo, &repo.info.stage()).len(), 1);
    assert_eq!(tree_of(&repo, &at(&repo, "a")).len(), 1);
    assert_eq!(tree_of(&repo, &at(&repo, "a/b")).len(), 1);
    repo.sub(&rel("a/b/c.txt")).unwrap();
    assert_eq!(repo.info.stage(), empty);
    assert!(repo.check().is_ok());
}

#[test]
fn sub_twice_fails_the_second_time() {
    let mut repo = Repository::create();
    repo.add(&rel("d/f"), &file(b"1")).unwrap();
    repo.add(&rel("g"), &file(b"2")).unwrap();
    repo.sub(&rel("d/f")).unwrap();
    let stage = repo.info.stage();
    assert!(matches!(repo.sub(&rel("d/f")), Err(EvsError::PathNotInStage)));
    assert!(matches!(repo.sub(&rel("nothing")), Err(EvsError::PathNotInStage)));
    assert_eq!(repo.info.stage(), stage);
}

#[test]
fn sub_of_everything_resets_to_empty_tree() {
    let mut repo = Repository::create();
    repo.add(&rel("k"), &file(b"v")).unwrap();
    repo.sub(&vec![]).unwrap();
    assert_eq!(repo.info.stage(), hash_of(Object::Tree(vec![])));
}

#[test]
fn adding_empty_workspace_gives_empty_tree() {
    let mut repo = Repository::create();
    let empty = repo.info.stage();
    repo.add(&vec![], &empty_dir()).unwrap();
    assert_eq!(repo.info.stage(), empty);
    assert!(!repo.info.modified());
}

#[test]
fn whole_workspace_snapshot() {
    let mut w = WorkTree::new();
    let f1 = w.add_file(b"one".to_vec()).unwrap();
    let f2 = w.add_file(b"two".to_vec()).unwrap();
    let sub = w.add_dir(vec![WorkChild { name: b"inner".to_vec(), node: f2 }]).unwrap();
    w.add_dir(vec![
        WorkChild { name: b"z".to_vec(), node: f1 },
        WorkChild { name: b"dir".to_vec(), node: sub },
    ])
    .unwrap();
    assert!(w.add_dir(vec![WorkChild { name: b"bad".to_vec(), node: 99 }]).is_none());
    assert!(w
        .add_dir(vec![
            WorkChild { name: b"twice".to_vec(), node: f1 },
            WorkChild { name: b"twice".to_vec(), node: f2 },
        ])
        .is_none());
    let mut repo = Repository::create();
    repo.add(&vec![], &w).unwrap();
    let es = tree_of(&repo, &repo.info.stage());
    assert_eq!(es[0].name, b"dir".to_vec());
    assert_eq!(es[1].name, b"z".to_vec());
    assert_eq!(at(&repo, "dir/inner"), hash_of(Object::Blob(b"two".to_vec())));
}

#[test]
fn same_final_content_same_stage() {
    let mut r1 = Repository::create();
    r1.add(&rel("a/x"), &file(b"1")).unwrap();
    r1.add(&rel("b"), &file(b"2")).unwrap();
    r1.add(&rel("a/y"), &file(b"3")).unwrap();
    let mut r2 = Repository::create();
    r2.add(&rel("junk"), &file(b"0")).unwrap();
    r2.add(&rel("a/y"), &file(b"3")).unwrap();
    r2.add(&rel("b"), &file(b"9")).unwrap();
    r2.add(&rel("a/x"), &file(b"1")).unwrap();
    r2.add(&rel("b"), &file(b"2")).unwrap();
    r2.sub(&rel("junk")).unwrap();
    assert_eq!(r1.info.stage(), r2.info.stage());
}

#[test]
fn file_replaced_by_directory() {
    let mut repo = Repository::create();
    repo.add(&rel("a/b"), &file(b"was a file")).unwrap();
    let mut w = WorkTree::new();
    let c = w.add_file(b"inside".to_vec()).unwrap();
    w.add_dir(vec![WorkChild { name: b"c".to_vec(), node: c }]).unwrap();
    repo.add(&rel("a/b"), &w).unwrap();
    let b = at(&repo, "a/b");
    let es = tree_of(&repo, &b);
    assert_eq!(es.len(), 1);
    assert_eq!(es[0].name, b"c".to_vec());
    repo.add(&rel("a/b/c/d"), &file(b"deeper")).unwrap();
    assert_eq!(at(&repo, "a/b/c/d"), hash_of(Object::Blob(b"deeper".to_vec())));
}

#[test]
fn commit_chain_and_log() {
    let mut repo = Repository::create();
    let null = repo.info.head();
    repo.add(&rel("f"), &file(b"1")).unwrap();
    let c1 = repo.commit("one".to_string(), "N".to_string(), "n@x".to_string(), now(10));
    assert_eq!(repo.info.head(), c1);
    repo.add(&rel("f"), &file(b"2")).unwrap();
    let c2 = repo.commit("two".to_string(), "N".to_string(), "n@x".to_string(), now(20));
    let log = repo.log("HEAD", 10).unwrap();
    let hashes: Vec<evs::hash::Hash> = log.iter().map(|e| e.0).collect();
    assert_eq!(hashes, vec![c2, c1]);
    assert_eq!(log[0].1.parent, c1);
    assert_eq!(log[1].1.parent, null);
    assert_eq!(log[0].1.msg, "two");
    assert_eq!(repo.log("HEAD", 1).unwrap().len(), 1);
    assert_eq!(repo.resolve("HEAD~1").unwrap(), hex(&c1));
    assert_eq!(repo.resolve("HEAD~+1").unwrap(), hex(&c1));
    assert_eq!(repo.resolve("HEAD~0").unwrap(), hex(&c2));
    assert_eq!(repo.resolve("HEAD~2").unwrap(), hex(&null));
    assert!(matches!(repo.resolve("HEAD~3"), Err(EvsError::NoPreviousCommit)));
    assert_eq!(repo.lookup("HEAD~1").unwrap(), repo.lookup(&hex(&c1)).unwrap());
    assert!(repo.check().is_ok());
}

#[test]
fn commit_without_changes_is_new() {
    let mut repo = Repository::create();
    let a = repo.commit("m".to_string(), "n".to_string(), "e".to_string(), now(1));
    let b = repo.commit("m".to_string(), "n".to_string(), "e".to_string(), now(2));
    assert_ne!(a, b);
    assert_eq!(repo.info.head(), b);
    match repo.lookup("HEAD").unwrap().1 {
        Object::Commit(c) => {
            assert_eq!(c.parent, a);
            assert_eq!(c.tree, repo.info.stage());
            assert_eq!(c.date, now(2));
        },
        _ => panic!("HEAD is not a commit"),
    }
}

#[test]
fn reference_errors() {
    let mut repo = Repository::create();
    repo.add(&rel("f"), &file(b"blob")).unwrap();
    let stage = repo.info.stage();
    assert!(matches!(repo.resolve("HEAD~x"), Err(EvsError::IntegerParseError)));
    assert!(matches!(repo.resolve("HEAD~"), Err(EvsError::IntegerParseError)));
    assert!(matches!(repo.resolve("HEAD~-1"), Err(EvsError::IntegerParseError)));
    assert!(matches!(
        repo.resolve("HEAD~99999999999999999999999"),
        Err(EvsError::IntegerParseError)
    ));
    let t = format!("{}~1", hex(&stage));
    match repo.resolve(&t) {
        Err(EvsError::NotACommit(h)) => assert_eq!(h, stage),
        _ => panic!("expected not a commit"),
    }
    assert!(matches!(repo.log(&hex(&stage), 3), Err(EvsError::NotACommit(_))));
    assert!(matches!(repo.resolve(&"f".repeat(64)), Err(EvsError::ObjectNotInStore(_))));
    assert_eq!(repo.resolve(&hex(&stage)[..20]).unwrap(), hex(&stage));
    assert!(repo.log("HEAD", 5).unwrap().is_empty());
}

#[test]
fn gc_reclaims_unreachable_blob() {
    let mut repo = Repository::create();
    repo.add(&rel("x"), &file(b"garbage soon")).unwrap();
    let blob = hash_of(Object::Blob(b"garbage soon".to_vec()));
    let staged = repo.info.stage();
    repo.sub(&rel("x")).unwrap();
    let removed = repo.gc().unwrap();
    assert!(removed.contains(&staged));
    assert!(removed.contains(&blob));
    assert_eq!(removed.len(), 2);
    assert!(matches!(repo.store.lookup(&hex(&staged)), Err(EvsError::ObjectNotInStore(_))));
    assert!(matches!(repo.store.lookup(&hex(&blob)), Err(EvsError::ObjectNotInStore(_))));
    assert!(repo.check().is_ok());
    assert!(repo.store.lookup(&hex(&repo.info.head())).is_ok());
    assert!(repo.store.lookup(&hex(&repo.info.stage())).is_ok());
    assert_eq!(repo.store.files.len(), 2);
    assert!(repo.gc().unwrap().is_empty());
}

#[test]
fn gc_keeps_history() {
    let mut repo = Repository::create();
    repo.add(&rel("a/b"), &file(b"kept")).unwrap();
    let c1 = repo.commit("one".to_string(), "n".to_string(), "e".to_string(), now(1));
    repo.sub(&rel("a/b")).unwrap();
    repo.add(&rel("c"), &file(b"dropped")).unwrap();
    let dropped_stage = repo.info.stage();
    repo.sub(&rel("c")).unwrap();
    let removed = repo.gc().unwrap();
    assert!(removed.contains(&dropped_stage));
    assert!(repo.store.lookup(&hex(&c1)).is_ok());
    assert!(repo.store.lookup(&hex(&hash_of(Object::Blob(b"kept".to_vec())))).is_ok());
    assert!(repo.store.lookup(&hex(&hash_of(Object::Blob(b"dropped".to_vec())))).is_err());
    assert!(repo.check().is_ok());
}

#[test]
fn lookup_passes_on_resolution_errors() {
    let mut repo = Repository::create();
    let mut found: Vec<evs::hash::Hash> = Vec::new();
    let mut i: u64 = 0;
    while found.len() < 2 {
        let h = repo.store.insert(Object::Blob(i.to_string().into_bytes()));
        if hex(&h).starts_with("cd") {
            found.push(h);
        }
        i += 1;
    }
    assert!(matches!(repo.lookup("cd"), Err(EvsError::AmbiguousObject(ref p, _)) if p == "cd"));
    assert!(matches!(repo.lookup("HEAD~z"), Err(EvsError::IntegerParseError)));
    assert!(matches!(repo.log("HEAD~z", 3), Err(EvsError::IntegerParseError)));
}

#[test]
fn check_fails_when_stage_is_missing() {
    let store = Repository::create().store;
    let repo = Repository::open(store, RepositoryInfo::new([0x42; 32], [0x43; 32]));
    assert!(matches!(
        repo.check(),
        Err(EvsError::CorruptStateDetected(CorruptState::MissingObjects(_, _)))
    ));
    let mut repo = repo;
    assert!(repo.gc().is_err());
}

#[test]
fn info_setters_mark_modified() {
    let mut info = RepositoryInfo::new([1; 32], [2; 32]);
    assert!(!info.modified());
    info.set_stage([3; 32]);
    assert_eq!(info.stage(), [3; 32]);
    assert_eq!(info.head(), [1; 32]);
    assert!(info.modified());
    let mut info = RepositoryInfo::new([1; 32], [2; 32]);
    info.set_head([4; 32]);
    assert_eq!(info.head(), [4; 32]);
    assert!(info.modified());
}

#[test]
fn relative_paths() {
    let ws = rel("home/u/ws");
    let evs = b".evs".to_vec();
    assert_eq!(relative_path(&ws, &evs, &rel("home/u/ws/a/b")), Some(rel("a/b")));
    assert_eq!(relative_path(&ws, &evs, &rel("home/u/ws")), Some(vec![]));
    assert_eq!(relative_path(&ws, &evs, &rel("home/u")), None);
    assert_eq!(relative_path(&ws, &evs, &rel("home/v/ws/a")), None);
    assert_eq!(relative_path(&ws, &evs, &rel("home/u/ws/.evs/store")), None);
    assert_eq!(relative_path(&ws, &evs, &rel("home/u/ws/x/.evs")), Some(rel("x/.evs")));
}

#[test]
fn layout_checks() {
    let (r, s, l) = (b"r".to_vec(), b"s".to_vec(), b"l".to_vec());
    assert!(check_layout(Dir, &r, Dir, &s, File, &l).is_ok());
    assert!(matches!(check_layout(Missing, &r, Dir, &s, File, &l), Err(EvsError::MissingRepository(ref p)) if *p == r));
    assert!(matches!(
        check_layout(File, &r, Dir, &s, File, &l),
        Err(EvsError::CorruptStateDetected(CorruptState::DirectoryIsFile(ref p))) if *p == r
    ));
    assert!(matches!(
        check_layout(Dir, &r, Missing, &s, File, &l),
        Err(EvsError::CorruptStateDetected(CorruptState::MissingPath(ref p))) if *p == s
    ));
    assert!(matches!(
        check_layout(Dir, &r, File, &s, File, &l),
        Err(EvsError::CorruptStateDetected(CorruptState::DirectoryIsFile(ref p))) if *p == s
    ));
    assert!(matches!(
        check_layout(Dir, &r, Dir, &s, Missing, &l),
        Err(EvsError::CorruptStateDetected(CorruptState::MissingPath(ref p))) if *p == l
    ));
    assert!(matches!(
        check_layout(Dir, &r, Dir, &s, Dir, &l),
        Err(EvsError::CorruptStateDetected(CorruptState::FileIsDirectory(ref p))) if *p == l
    ));
    assert!(keep_searching(&EvsError::MissingRepository(vec![])));
    assert!(!keep_searching(&EvsError::RepositoryNotFound));
}
