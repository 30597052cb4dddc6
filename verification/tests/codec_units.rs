//! Unit checks of the byte codecs, the key layouts, and the pure
//! helpers.

use rgit::keys::{commit_key, commit_prefix, tag_key, tree_item_key, TreePrefix};
use rgit::records::{
    decode_commit, decode_heads, decode_repository, decode_tag, decode_tree, decode_tree_item,
    encode_commit, encode_heads, encode_repository, encode_tag, encode_tree, encode_tree_item,
    Author, Commit, Heads, Repository, Submodule, Tag, Tree, TreeItem, TreeItemKind,
};
use rgit::sorted_tree::{split_path, SortedTree, SortedTreeItem};
use rgit::theme::{Modifiers, PaletteReference, PaletteReferenceWithModifiers, Theme};
use rgit::tree_index::{rewrite_scheme, shape_digest, submodule_url, TreeEntry, TreeEntryKind};
use rgit::web::{
    branch_query, get_relative_path, parse_digits, FileTree, RefreshInterval, UriQuery,
};
use rgit::wire::{u64_from_be, u64_to_be};

fn author() -> Author {
    Author { name: b"alice".to_vec(), email: b"alice@example.org".to_vec(), time: (-42, 3600) }
}

#[test]
fn u64_big_endian_round_trip() {
    let v = u64_to_be(0x0102_0304_0506_0708);
    assert_eq!(v, vec![1, 2, 3, 4, 5, 6, 7, 8]);
    assert_eq!(u64_from_be(v.as_slice()), 0x0102_0304_0506_0708);
}

#[test]
fn commit_key_layout() {
    let key = commit_key(0x0102_0304_0506_0708, &b"refs/heads/main".to_vec(), 3);
    let mut expected = vec![1, 2, 3, 4, 5, 6, 7, 8];
    expected.extend_from_slice(b"refs/heads/main");
    expected.push(0);
    expected.extend_from_slice(&[0, 0, 0, 0, 0, 0, 0, 3]);
    assert_eq!(key, expected);
    let prefix = commit_prefix(0x0102_0304_0506_0708, &b"refs/heads/main".to_vec());
    assert!(key.starts_with(prefix.as_slice()));
}

#[test]
fn tag_and_tree_item_key_layouts() {
    let tkey = tag_key(1, &b"refs/tags/v1".to_vec());
    let mut expected = vec![0, 0, 0, 0, 0, 0, 0, 1];
    expected.extend_from_slice(b"refs/tags/v1");
    assert_eq!(tkey, expected);
    // digest little-endian, depth big-endian, then the path
    let ikey = tree_item_key(0x0102_0304_0506_0708, 1, &b"dir/x".to_vec());
    let mut iexp = vec![8, 7, 6, 5, 4, 3, 2, 1];
    iexp.extend_from_slice(&[0, 0, 0, 0, 0, 0, 0, 1]);
    iexp.extend_from_slice(b"dir/x");
    assert_eq!(ikey, iexp);
}

#[test]
fn single_namespace_prefixes() {
    assert_eq!(TreePrefix::schema_version(), vec![1]);
    assert_eq!(rgit::store::schema_key(), b"schema_version".to_vec());
    let rid = TreePrefix::repository_id(&b"a.git".to_vec());
    assert_eq!(rid[0], 0);
    assert_eq!(&rid[1..], b"a.git");
    let cid = TreePrefix::commit_id(2, &b"refs/heads/main".to_vec());
    assert_eq!(cid[0], 100);
    assert_eq!(&cid[1..9], &[0, 0, 0, 0, 0, 0, 0, 2]);
    let tid = TreePrefix::tag_id(2);
    assert_eq!(tid[0], 101);
    assert_eq!(tid.len(), 9);
}

#[test]
fn repository_record_round_trip() {
    let rec = Repository {
        id: 99,
        name: b"hello.git".to_vec(),
        description: Some(b"greetings".to_vec()),
        owner: None,
        last_modified: (-5, -3600),
        default_branch: Some(b"refs/heads/main".to_vec()),
        exported: true,
    };
    let bytes = encode_repository(&rec);
    let back = decode_repository(&bytes).expect("decode");
    assert_eq!(back.id, 99);
    assert_eq!(back.name, b"hello.git".to_vec());
    assert_eq!(back.description, Some(b"greetings".to_vec()));
    assert_eq!(back.owner, None);
    assert_eq!(back.last_modified, (-5, -3600));
    assert_eq!(back.default_branch, Some(b"refs/heads/main".to_vec()));
    assert!(back.exported);
    // a truncated buffer does not decode
    let cut = bytes[..bytes.len() - 1].to_vec();
    assert!(decode_repository(&cut).is_none());
}

#[test]
fn commit_record_round_trip() {
    let c = Commit {
        summary: b"first".to_vec(),
        message: b"body\nlines".to_vec(),
        author: author(),
        committer: author(),
        hash: vec![7; 20],
        tree: 0xdead_beef,
    };
    let bytes = encode_commit(&c);
    let back = decode_commit(&bytes).expect("decode");
    assert_eq!(back.summary, b"first".to_vec());
    assert_eq!(back.message, b"body\nlines".to_vec());
    assert_eq!(back.author.name, b"alice".to_vec());
    assert_eq!(back.author.time, (-42, 3600));
    assert_eq!(back.hash, vec![7; 20]);
    assert_eq!(back.tree, 0xdead_beef);
}

#[test]
fn tag_record_round_trip() {
    let t = Tag { tagger: Some(author()), tree: Some(5) };
    let back = decode_tag(&encode_tag(&t)).expect("decode");
    assert_eq!(back.tagger.as_ref().expect("tagger").email, b"alice@example.org".to_vec());
    assert_eq!(back.tree, Some(5));
    let bare = Tag { tagger: None, tree: None };
    let back2 = decode_tag(&encode_tag(&bare)).expect("decode bare");
    assert!(back2.tagger.is_none() && back2.tree.is_none());
}

#[test]
fn heads_and_tree_round_trip() {
    let h = Heads(vec![b"refs/heads/main".to_vec(), b"refs/tags/v1".to_vec()]);
    let back = decode_heads(&encode_heads(&h)).expect("decode");
    assert_eq!(back.0, vec![b"refs/heads/main".to_vec(), b"refs/tags/v1".to_vec()]);
    let t = Tree { indexed_tree_id: 12345 };
    let tb = decode_tree(&encode_tree(&t)).expect("decode");
    assert_eq!(tb.indexed_tree_id, 12345);
    assert!(decode_tree(&vec![1, 2, 3]).is_none());
}

#[test]
fn tree_item_record_round_trip() {
    let sub = TreeItem {
        mode: 0o160000u32 as u16,
        kind: TreeItemKind::Submodule(Submodule {
            url: b"https://example.org/dep".to_vec(),
            oid: vec![9; 20],
        }),
    };
    let back = decode_tree_item(&encode_tree_item(&sub)).expect("decode");
    match back.kind {
        TreeItemKind::Submodule(s) => {
            assert_eq!(s.url, b"https://example.org/dep".to_vec());
            assert_eq!(s.oid, vec![9; 20]);
        },
        _ => panic!("wrong kind"),
    }
    let file = TreeItem { mode: 0o100644u32 as u16, kind: TreeItemKind::File };
    let fb = decode_tree_item(&encode_tree_item(&file)).expect("decode file");
    assert!(matches!(fb.kind, TreeItemKind::File));
    assert_eq!(fb.mode, 0o100644u32 as u16);
}

#[test]
fn shape_digest_ignores_oid_but_not_shape() {
    let a = vec![TreeEntry {
        path: b"README".to_vec(),
        mode: 0o100644u32 as u16,
        kind: TreeEntryKind::File,
    }];
    let b = vec![TreeEntry {
        path: b"README".to_vec(),
        mode: 0o100644u32 as u16,
        kind: TreeEntryKind::Tree,
    }];
    // kind (and thus blob content) is invisible to the digest
    assert_eq!(shape_digest(&a), shape_digest(&b));
    let c = vec![TreeEntry {
        path: b"README".to_vec(),
        mode: 0o100755u32 as u16,
        kind: TreeEntryKind::File,
    }];
    // the mode is part of the shape; a fixed input must not map to itself
    assert_ne!(shape_digest(&a), shape_digest(&c));
}

#[test]
fn submodule_urls_are_rewritten() {
    assert_eq!(
        rewrite_scheme(&b"git://example.org/x".to_vec()),
        b"https://example.org/x".to_vec()
    );
    assert_eq!(
        rewrite_scheme(&b"ssh://example.org/x".to_vec()),
        b"https://example.org/x".to_vec()
    );
    assert_eq!(
        rewrite_scheme(&b"https://example.org/x".to_vec()),
        b"https://example.org/x".to_vec()
    );
    let subs = vec![(b"dep".to_vec(), b"git://example.org/dep".to_vec())];
    assert_eq!(
        submodule_url(&subs, &b"dep".to_vec()),
        Some(b"https://example.org/dep".to_vec())
    );
    assert_eq!(submodule_url(&subs, &b"other".to_vec()), None);
}

#[test]
fn path_splitting() {
    assert_eq!(split_path(&b"a/b/c".to_vec()), vec![b"a".to_vec(), b"b".to_vec(), b"c".to_vec()]);
    assert_eq!(split_path(&b"plain".to_vec()), vec![b"plain".to_vec()]);
}

#[test]
fn sorted_tree_build_nests_and_detects_collisions() {
    let t = SortedTree::build(&vec![b"dir/x".to_vec(), b"dir/y".to_vec(), b"top".to_vec()])
        .expect("build");
    assert_eq!(t.0.len(), 2);
    assert_eq!(t.0[0].0.0, b"dir".to_vec());
    match &t.0[0].1 {
        SortedTreeItem::Directory(sub) => {
            assert_eq!(sub.0.len(), 2);
            assert_eq!(sub.0[0].0.0, b"x".to_vec());
            assert!(matches!(sub.0[0].1, SortedTreeItem::File));
        },
        SortedTreeItem::File => panic!("expected a directory"),
    }
    assert!(matches!(t.0[1].1, SortedTreeItem::File));
    // a file cannot also be a directory
    assert!(SortedTree::build(&vec![b"a".to_vec(), b"a/b".to_vec()]).is_none());
}

#[test]
fn refresh_interval_parsing() {
    assert!(matches!(RefreshInterval::parse(&b"never".to_vec()), Some(RefreshInterval::Never)));
    assert!(matches!(
        RefreshInterval::parse(&b"90".to_vec()),
        Some(RefreshInterval::Duration(90))
    ));
    assert!(matches!(
        RefreshInterval::parse(&b"10s".to_vec()),
        Some(RefreshInterval::Duration(10))
    ));
    assert!(matches!(
        RefreshInterval::parse(&b"5m".to_vec()),
        Some(RefreshInterval::Duration(300))
    ));
    assert!(matches!(
        RefreshInterval::parse(&b"2h".to_vec()),
        Some(RefreshInterval::Duration(7200))
    ));
    assert!(matches!(
        RefreshInterval::parse(&b"2d".to_vec()),
        Some(RefreshInterval::Duration(172800))
    ));
    assert!(RefreshInterval::parse(&b"soon".to_vec()).is_none());
    assert!(RefreshInterval::parse(&b"".to_vec()).is_none());
    assert!(RefreshInterval::parse(&b"99999999999999999999".to_vec()).is_none());
    assert_eq!(parse_digits(&b"18446744073709551615".to_vec()), Some(u64::MAX));
    assert_eq!(parse_digits(&b"18446744073709551616".to_vec()), None);
}

#[test]
fn query_strings_render() {
    assert_eq!(branch_query(Some("dev")), "?h=dev".to_string());
    assert_eq!(branch_query(None), String::new());
    let q = UriQuery { id: Some("abc".to_string()), raw: false, branch: Some("dev".to_string()) };
    assert_eq!(q.query_string(), "?id=abc&h=dev".to_string());
    let q2 = UriQuery { id: None, raw: true, branch: None };
    assert_eq!(q2.query_string(), String::new());
}

#[test]
fn relative_paths_strip_components() {
    assert_eq!(
        get_relative_path(&b"scan".to_vec(), &b"scan/a.git".to_vec()),
        Some(b"a.git".to_vec())
    );
    assert_eq!(get_relative_path(&b"scan".to_vec(), &b"scan".to_vec()), Some(Vec::new()));
    assert_eq!(get_relative_path(&b"scan".to_vec(), &b"scanner/a".to_vec()), None);
    let tree = FileTree::new(
        SortedTree(Vec::new()),
        b"/repo".to_vec(),
        Vec::new(),
        UriQuery { id: None, raw: false, branch: None },
        Some(b"dir/file.txt".to_vec()),
    );
    assert_eq!(
        tree.get_next_repo_path_if_parent(&b"dir".to_vec()),
        Some(b"file.txt".to_vec())
    );
    assert_eq!(tree.get_next_repo_path_if_parent(&b"other".to_vec()), None);
}

#[test]
fn theme_renders_css() {
    let theme = Theme {
        palette: vec![(b"red".to_vec(), b"#ff0000".to_vec())],
        definitions: vec![
            (b"keyword".to_vec(), PaletteReference::Foreground(b"red".to_vec())),
            (
                b"comment".to_vec(),
                PaletteReference::WithModifiers(PaletteReferenceWithModifiers {
                    bg: Some(b"#222222".to_vec()),
                    fg: Some(b"red".to_vec()),
                    modifiers: vec![Modifiers::Italic, Modifiers::Dim],
                }),
            ),
        ],
    };
    let css = theme.build_css().expect("css");
    assert_eq!(
        css,
        b".highlight.keyword {color:#ff0000;}.highlight.comment {background:#222222;color:#ff0000;font-style:italic;}"
            .to_vec()
    );
    assert_eq!(theme.get_color(&b"red".to_vec()), Some(b"#ff0000".to_vec()));
    assert_eq!(theme.get_color(&b"#123456".to_vec()), Some(b"#123456".to_vec()));
    assert_eq!(theme.get_color(&b"blue".to_vec()), None);
    let broken = Theme {
        palette: Vec::new(),
        definitions: vec![(b"keyword".to_vec(), PaletteReference::Foreground(b"red".to_vec()))],
    };
    assert!(broken.build_css().is_none());
}
