use eafcc::cfg_center::{
    check_namespace, index_path, namespace_is_valid, namespace_root, needs_diff, plan_update, settle_update,
    DirWalk, Differ, UpdateNotifyLevel, UpdatePlan,
};
use eafcc::cfgindex::CFGIndex;
use eafcc::error::{CCLibError, ListDirError, MemoryIndexError};
use eafcc::model::{Res, ResMeta, ResSpec, ResSpecItem, Rule, RuleMeta, RuleSpec, Link, LinkMeta, LinkSpec};
use eafcc::path_spliter::PathSpliter;
use eafcc::querier::{MemStorage, ViewMode};
use eafcc::rule_engine::{Condition, MatchContext};
use eafcc::storage::{DirItem, VersionItem};

fn snapshot(value: &str, version: &str) -> MemStorage {
    let mut idx = CFGIndex::new();
    idx.rule_stor.add_rule(
        "/ns/r",
        Rule { meta: RuleMeta { desc: String::new(), tags: vec![] }, spec: RuleSpec { rule: Condition::And(vec![]) } },
    );
    idx.res_stor.add_res(
        "/ns/p",
        Res {
            meta: ResMeta { desc: String::new(), tags: vec![] },
            spec: ResSpec(vec![ResSpecItem {
                content_type: "text".into(),
                key: "k".into(),
                data: value.into(),
            }]),
        },
    );
    let link = Link::from_parts(
        LinkMeta { desc: String::new(), tags: vec![] },
        LinkSpec {
            pri: 1.0f32.to_bits(),
            is_neg: false,
            ver: "1".into(),
            rule: "path:/ns/r".into(),
            reses: vec!["path:/ns/p".into()],
        },
    )
    .unwrap();
    idx.link_stor.add_link("/ns/l", &link);
    MemStorage::new(VersionItem { name: version.into(), id: version.as_bytes().to_vec() }, idx)
}

#[test]
fn namespace_must_be_slash_delimited() {
    assert!(namespace_is_valid("/"));
    assert!(namespace_is_valid("/a/b/"));
    assert!(!namespace_is_valid("a/"));
    assert!(!namespace_is_valid("/a"));
    assert!(!namespace_is_valid(""));
    assert!(check_namespace("/a/").is_ok());
    assert!(matches!(check_namespace("/a"), Err(CCLibError::NamespaceError(_))));
}

#[test]
fn namespace_roots_are_disjoint() {
    let a = namespace_root("/rules", "/a/");
    let b = namespace_root("/rules", "/b/");
    assert_eq!(a, "/rules/a/");
    assert_eq!(b, "/rules/b/");
    assert!(!a.starts_with(&b) && !b.starts_with(&a));
    assert_eq!(index_path("/rules/a/x", "/rules"), "/a/x");
}

#[test]
fn global_level_always_rebuilds() {
    let changed: Vec<String> = vec![];
    let lvl = UpdateNotifyLevel::NotifyWithoutChangedKeysByGlobal;
    assert!(!needs_diff(lvl));
    assert_eq!(plan_update(lvl, None), UpdatePlan::Rebuild { pass_changed: false });
    assert_eq!(plan_update(lvl, Some(&changed)), UpdatePlan::Rebuild { pass_changed: false });
}

#[test]
fn namespace_level_rebuilds_only_on_changes() {
    let none: Vec<String> = vec![];
    let some: Vec<String> = vec!["/rules/a/x".into()];
    let lvl = UpdateNotifyLevel::NotifyWithoutChangedKeysInNamespace;
    assert!(needs_diff(lvl));
    assert_eq!(plan_update(lvl, Some(&none)), UpdatePlan::Skip);
    assert_eq!(plan_update(lvl, None), UpdatePlan::Skip);
    assert_eq!(plan_update(lvl, Some(&some)), UpdatePlan::Rebuild { pass_changed: false });
    let lvl = UpdateNotifyLevel::NotifyWithMaybeChangedKeys;
    assert!(needs_diff(lvl));
    assert_eq!(plan_update(lvl, Some(&some)), UpdatePlan::Rebuild { pass_changed: true });
    assert_eq!(plan_update(lvl, Some(&none)), UpdatePlan::Skip);
    assert_eq!(plan_update(UpdateNotifyLevel::NoNotify, Some(&some)), UpdatePlan::Skip);
}

#[test]
fn failed_build_keeps_previous_snapshot() {
    let mut cur = snapshot("old", "v0");
    let err = settle_update(&mut cur, Err(MemoryIndexError::NamespaceNotAbsolutePath));
    assert!(matches!(err, Some(MemoryIndexError::NamespaceNotAbsolutePath)));
    assert_eq!(cur.version.name, "v0");
    let keys = vec!["k"];
    let r = eafcc::querier::Querier::get(&cur, &MatchContext::new(), &keys, ViewMode::OverlaidView, false).unwrap();
    assert_eq!(r[0].value.value, "old");
}

#[test]
fn successive_updates_are_applied_in_order() {
    let mut cur = snapshot("v0", "v0");
    let keys = vec!["k"];
    let ctx = MatchContext::new();
    let before = eafcc::querier::Querier::get(&cur, &ctx, &keys, ViewMode::OverlaidView, false).unwrap();
    assert!(settle_update(&mut cur, Ok(snapshot("v1", "v1"))).is_none());
    assert!(settle_update(&mut cur, Ok(snapshot("v2", "v2"))).is_none());
    let after = eafcc::querier::Querier::get(&cur, &ctx, &keys, ViewMode::OverlaidView, false).unwrap();
    assert_eq!(before[0].value.value, "v0");
    assert_eq!(after[0].value.value, "v2");
    assert_eq!(cur.version.name, "v2");
}

#[test]
fn differ_answers_from_both_snapshots() {
    let old = snapshot("A", "v0");
    let new = snapshot("B", "v1");
    let changed = vec!["/reses/ns/p".to_string()];
    let keys = vec!["k"];
    let ctx = MatchContext::new();
    let d = Differ::new(UpdateNotifyLevel::NotifyWithMaybeChangedKeys, &old, &new, &changed);
    assert_eq!(d.get_from_old(&ctx, &keys, ViewMode::OverlaidView, false).unwrap()[0].value.value, "A");
    assert_eq!(d.get_from_new(&ctx, &keys, ViewMode::OverlaidView, false).unwrap()[0].value.value, "B");
    assert_eq!(d.get_maybe_changed_keys(), vec!["k".to_string(), "k".to_string()]);
    let changed2 = vec!["/links/ns/l".to_string(), "/rules/ns/r".to_string(), "/other/x".to_string(), "/reses/ns/q".to_string()];
    let d2 = Differ::new(UpdateNotifyLevel::NotifyWithMaybeChangedKeys, &old, &new, &changed2);
    assert_eq!(d2.get_maybe_changed_keys(), vec!["k", "k", "k", "k"].into_iter().map(String::from).collect::<Vec<_>>());
    let d = Differ::new(UpdateNotifyLevel::NotifyWithoutChangedKeysByGlobal, &old, &new, &changed);
    assert!(d.get_maybe_changed_keys().is_empty());
}

#[test]
fn walk_queues_directories_and_returns_files() {
    let mut w = DirWalk::new("/rules/a/".to_string());
    let dir = w.next_dir().unwrap();
    assert_eq!(dir, "/rules/a/");
    let entries = vec![
        DirItem::new("/rules/a/x".into(), false, b"h1".to_vec()),
        DirItem::new("/rules/a/sub".into(), true, vec![]),
    ];
    let files = w.visit(&dir, &entries).unwrap();
    assert_eq!(files, vec![("/rules/a/x".to_string(), b"h1".to_vec())]);
    assert_eq!(w.next_dir(), Some("/rules/a/sub".to_string()));
    assert_eq!(w.next_dir(), None);
    let outside = vec![DirItem::new("/rules/b/y".into(), false, vec![])];
    assert!(matches!(w.visit("/rules/a/sub", &outside), Err(ListDirError::PathPrefixHandlingError)));
    assert!(entries[1].is_dir() && !entries[0].is_dir());
}

#[test]
fn path_spliter_splits_and_unescapes() {
    let mut s = PathSpliter::new("/a/b\\/c/d\\");
    assert_eq!(s.next(), Some(b"".to_vec()));
    assert_eq!(s.next(), Some(b"a".to_vec()));
    assert_eq!(s.next(), Some(b"b/c".to_vec()));
    assert_eq!(s.next(), Some(b"d".to_vec()));
    assert_eq!(s.next(), None);
    let mut s = PathSpliter::new("");
    assert_eq!(s.next(), None);
    let mut s = PathSpliter::new("x\\\\y");
    assert_eq!(s.next(), Some(b"x\\y".to_vec()));
}

#[test]
fn text_prefix_and_suffix() {
    use_text_helpers();
}

fn use_text_helpers() {
    assert!(eafcc::text::starts_with("/rules/a", "/rules"));
    assert!(eafcc::text::starts_with("abc", ""));
    assert!(!eafcc::text::starts_with("ab", "abc"));
    assert!(!eafcc::text::starts_with("xbc", "ab"));
    assert!(eafcc::text::ends_with("/a/", "/"));
    assert!(eafcc::text::ends_with("héllo", "llo"));
    assert!(!eafcc::text::ends_with("lo", "llo"));
    assert!(!eafcc::text::ends_with("abc", "b"));
    assert_eq!(eafcc::text::concat("/rules", "/a/"), "/rules/a/");
}
