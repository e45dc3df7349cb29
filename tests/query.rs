use eafcc::cfgindex::{remove_path_type_prefix, CFGIndex};
use eafcc::error::{DataLoaderError, QueryError};
use eafcc::model::{
    check_path_ref, priority_is_finite, priority_rank, Link, LinkMeta, LinkSpec, Res, ResMeta, ResSpec,
    ResSpecItem, Rule, RuleMeta, RuleSpec,
};
use eafcc::querier::{CFGResult, MemStorage, Querier, ViewMode};
use eafcc::rule_engine::{Condition, LeafOperator, MatchContext, Value};
use eafcc::storage::VersionItem;

fn eq_rule(lhs: &str, rhs: &str) -> Rule {
    Rule {
        meta: RuleMeta { desc: String::new(), tags: vec![] },
        spec: RuleSpec {
            rule: Condition::Leaf {
                lhs: lhs.to_string(),
                op: LeafOperator::Eq,
                rhs: Some(Value::Str(rhs.to_string())),
            },
        },
    }
}

fn link(pri: f32, is_neg: bool, rule: &str, reses: &[&str]) -> Result<Link, DataLoaderError> {
    Link::from_parts(
        LinkMeta { desc: String::new(), tags: vec![] },
        LinkSpec {
            pri: pri.to_bits(),
            is_neg,
            ver: "1".to_string(),
            rule: rule.to_string(),
            reses: reses.iter().map(|s| s.to_string()).collect(),
        },
    )
}

fn res(items: &[(&str, &str)]) -> Res {
    Res {
        meta: ResMeta { desc: String::new(), tags: vec![] },
        spec: ResSpec(
            items
                .iter()
                .map(|(k, v)| ResSpecItem {
                    content_type: "text".to_string(),
                    key: k.to_string(),
                    data: v.to_string(),
                })
                .collect(),
        ),
    }
}

fn snapshot(with_negative: bool) -> MemStorage {
    let mut idx = CFGIndex::new();
    idx.rule_stor.add_rule("/ns/r1", eq_rule("foo", "1"));
    idx.rule_stor.add_rule("/ns/r2", eq_rule("bar", "2"));
    idx.res_stor.add_res("/ns/a", res(&[("k", "A")]));
    idx.res_stor.add_res("/ns/b", res(&[("k", "B")]));
    idx.res_stor.add_res("/ns/n", res(&[("k", "N")]));
    idx.link_stor.add_link("/ns/l1", &link(10.0, false, "path:/ns/r1", &["path:/ns/a"]).unwrap());
    idx.link_stor.add_link("/ns/l2", &link(20.0, false, "path:/ns/r2", &["path:/ns/b"]).unwrap());
    if with_negative {
        idx.link_stor.add_link("/ns/l3", &link(20.0, true, "path:/ns/r2", &["path:/ns/n"]).unwrap());
    }
    MemStorage::new(VersionItem { name: "v1".to_string(), id: b"v1".to_vec() }, idx)
}

fn whoami(pairs: &[(&str, &str)]) -> MatchContext {
    let mut ctx = MatchContext::new();
    for (k, v) in pairs {
        ctx.insert(k.to_string(), Value::Str(v.to_string()));
    }
    ctx
}

fn values(r: &[CFGResult]) -> Vec<String> {
    r.iter().map(|x| x.value.value.clone()).collect()
}

fn query(
    mem: &MemStorage,
    ctx: &MatchContext,
    keys: &[&str],
    mode: ViewMode,
    explain: bool,
) -> Result<Vec<CFGResult>, QueryError> {
    let keys: Vec<&str> = keys.to_vec();
    Querier::get(mem, ctx, &keys, mode, explain)
}

#[test]
fn higher_priority_wins() {
    let mem = snapshot(false);
    let ctx = whoami(&[("foo", "1"), ("bar", "2")]);
    let r = query(&mem, &ctx, &["k"], ViewMode::OverlaidView, false).unwrap();
    assert_eq!(values(&r), vec!["B".to_string()]);
    assert_eq!(r[0].value.key, "k");
    assert!(r[0].reason.is_none());
}

#[test]
fn only_matching_rule_contributes() {
    let mem = snapshot(false);
    let ctx = whoami(&[("foo", "1")]);
    let r = query(&mem, &ctx, &["k"], ViewMode::OverlaidView, false).unwrap();
    assert_eq!(values(&r), vec!["A".to_string()]);
}

#[test]
fn negative_link_suppresses_and_union_keeps_all() {
    let mem = snapshot(true);
    let ctx = whoami(&[("foo", "1"), ("bar", "2")]);
    let r = query(&mem, &ctx, &["k"], ViewMode::OverlaidView, false).unwrap();
    assert_eq!(r.len(), 0);
    let r = query(&mem, &ctx, &["k"], ViewMode::AllLinkedResView, false).unwrap();
    assert_eq!(values(&r), vec!["A".to_string(), "B".to_string(), "N".to_string()]);
}

#[test]
fn missing_key_is_omitted() {
    let mem = snapshot(false);
    let ctx = whoami(&[("foo", "1"), ("bar", "2")]);
    let r = query(&mem, &ctx, &["missing"], ViewMode::OverlaidView, false).unwrap();
    assert_eq!(r.len(), 0);
    let r = query(&mem, &ctx, &["missing", "k", "missing"], ViewMode::OverlaidView, false).unwrap();
    assert_eq!(values(&r), vec!["B".to_string()]);
}

#[test]
fn nan_priority_is_rejected() {
    let r = link(f32::NAN, false, "path:/ns/r1", &["path:/ns/a"]);
    assert!(matches!(r, Err(DataLoaderError::SpecParseError(_))));
    let r = link(f32::INFINITY, false, "path:/ns/r1", &["path:/ns/a"]);
    assert!(matches!(r, Err(DataLoaderError::SpecParseError(_))));
    let r = link(f32::NEG_INFINITY, false, "path:/ns/r1", &["path:/ns/a"]);
    assert!(matches!(r, Err(DataLoaderError::SpecParseError(_))));
}

#[test]
fn bad_references_are_rejected() {
    assert!(matches!(link(1.0, false, "/ns/r1", &["path:/ns/a"]), Err(DataLoaderError::SpecParseError(_))));
    assert!(matches!(link(1.0, false, "path:/ns/r1", &["ns/a"]), Err(DataLoaderError::SpecParseError(_))));
    assert!(matches!(link(1.0, false, "path:ns/r1", &[]), Err(DataLoaderError::SpecParseError(_))));
    assert!(matches!(link(1.0, false, "path:/", &[]), Err(DataLoaderError::SpecParseError(_))));
    assert!(matches!(link(1.0, false, "path:/ns/r1", &["path:/"]), Err(DataLoaderError::SpecParseError(_))));
    assert!(link(1.0, false, "path:/ns/r1", &[]).is_ok());
}

#[test]
fn repeated_queries_are_identical() {
    let mem = snapshot(true);
    let a = whoami(&[("foo", "1")]);
    let b = whoami(&[("foo", "1")]);
    let r1 = query(&mem, &a, &["k", "k"], ViewMode::OverlaidView, true).unwrap();
    let r2 = query(&mem, &b, &["k", "k"], ViewMode::OverlaidView, true).unwrap();
    assert_eq!(values(&r1), values(&r2));
    assert_eq!(values(&r1), vec!["A".to_string(), "A".to_string()]);
    let p1: Vec<String> = r1.iter().map(|x| x.reason.as_ref().unwrap().link_path.to_string()).collect();
    let p2: Vec<String> = r2.iter().map(|x| x.reason.as_ref().unwrap().link_path.to_string()).collect();
    assert_eq!(p1, p2);
}

#[test]
fn explain_reports_the_link() {
    let mem = snapshot(false);
    let ctx = whoami(&[("foo", "1"), ("bar", "2")]);
    let r = query(&mem, &ctx, &["k"], ViewMode::OverlaidView, true).unwrap();
    let reason = r[0].reason.as_ref().unwrap();
    assert_eq!(reason.pri, 20.0f32.to_bits());
    assert!(!reason.is_neg);
    assert_eq!(reason.rule_path, "/ns/r2");
    assert_eq!(reason.abs_res_path, "/ns/b");
    assert_eq!(reason.link_path.as_str(), "/ns/l2");
}

#[test]
fn no_matching_rule_gives_nothing() {
    let mem = snapshot(true);
    let ctx = whoami(&[("foo", "9")]);
    assert_eq!(query(&mem, &ctx, &["k"], ViewMode::OverlaidView, false).unwrap().len(), 0);
    assert_eq!(query(&mem, &ctx, &["k"], ViewMode::AllLinkedResView, false).unwrap().len(), 0);
}

#[test]
fn equal_priority_negative_goes_first() {
    let mut idx = CFGIndex::new();
    idx.rule_stor.add_rule("/r", eq_rule("u", "x"));
    idx.res_stor.add_res("/p", res(&[("k", "P")]));
    idx.res_stor.add_res("/n", res(&[("k", "N")]));
    idx.link_stor.add_link("/lp", &link(5.0, false, "path:/r", &["path:/p"]).unwrap());
    idx.link_stor.add_link("/ln", &link(5.0, true, "path:/r", &["path:/n"]).unwrap());
    let mem = MemStorage::new(VersionItem { name: String::new(), id: vec![] }, idx);
    let ctx = whoami(&[("u", "x")]);
    assert_eq!(query(&mem, &ctx, &["k"], ViewMode::OverlaidView, false).unwrap().len(), 0);
}

#[test]
fn lower_priority_negative_does_not_suppress() {
    let mut idx = CFGIndex::new();
    idx.rule_stor.add_rule("/r", eq_rule("u", "x"));
    idx.res_stor.add_res("/p", res(&[("k", "P")]));
    idx.res_stor.add_res("/n", res(&[("k", "N")]));
    idx.link_stor.add_link("/ln", &link(-3.5, true, "path:/r", &["path:/n"]).unwrap());
    idx.link_stor.add_link("/lp", &link(-3.0, false, "path:/r", &["path:/p"]).unwrap());
    let mem = MemStorage::new(VersionItem { name: String::new(), id: vec![] }, idx);
    let ctx = whoami(&[("u", "x")]);
    let r = query(&mem, &ctx, &["k"], ViewMode::OverlaidView, false).unwrap();
    assert_eq!(values(&r), vec!["P".to_string()]);
}

#[test]
fn first_item_of_a_resource_wins_and_union_keeps_duplicates() {
    let mut idx = CFGIndex::new();
    idx.rule_stor.add_rule("/r", eq_rule("u", "x"));
    idx.res_stor.add_res("/p", res(&[("k", "1"), ("j", "J"), ("k", "2")]));
    idx.link_stor.add_link("/l", &link(1.0, false, "path:/r", &["path:/p", "path:/p"]).unwrap());
    let mem = MemStorage::new(VersionItem { name: String::new(), id: vec![] }, idx);
    let ctx = whoami(&[("u", "x")]);
    let r = query(&mem, &ctx, &["k"], ViewMode::OverlaidView, false).unwrap();
    assert_eq!(values(&r), vec!["1".to_string()]);
    let r = query(&mem, &ctx, &["k", "j"], ViewMode::AllLinkedResView, false).unwrap();
    assert_eq!(
        values(&r),
        vec!["1", "2", "1", "2", "J", "J"].into_iter().map(String::from).collect::<Vec<_>>()
    );
}

#[test]
fn replaced_rule_keeps_one_entry() {
    let mut idx = CFGIndex::new();
    idx.rule_stor.add_rule("/r", eq_rule("u", "x"));
    idx.rule_stor.add_rule("/r", eq_rule("u", "y"));
    idx.res_stor.add_res("/p", res(&[("k", "P")]));
    idx.link_stor.add_link("/l", &link(1.0, false, "path:/r", &["path:/p"]).unwrap());
    let mem = MemStorage::new(VersionItem { name: String::new(), id: vec![] }, idx);
    let r = query(&mem, &whoami(&[("u", "x")]), &["k"], ViewMode::AllLinkedResView, false).unwrap();
    assert_eq!(r.len(), 0);
    let r = query(&mem, &whoami(&[("u", "y")]), &["k"], ViewMode::AllLinkedResView, false).unwrap();
    assert_eq!(values(&r), vec!["P".to_string()]);
    assert_eq!(mem.indices.rule_stor.iter_related_rules(&MatchContext::new()).len(), 1);
}

#[test]
fn link_entries_by_rule_path() {
    let mut idx = CFGIndex::new();
    idx.link_stor.add_link("/l1", &link(1.0, false, "path:/r1", &["path:/a", "path:/b"]).unwrap());
    idx.link_stor.add_link("/l2", &link(2.0, true, "path:/r2", &["path:/c"]).unwrap());
    let v = idx.link_stor.get_link_by_rule_path("/r1");
    let paths: Vec<String> = v.iter().map(|l| l.abs_res_path.clone()).collect();
    assert_eq!(paths, vec!["/a".to_string(), "/b".to_string()]);
    assert!(v.iter().all(|l| l.link_path.as_str() == "/l1" && l.rule_path == "/r1"));
    assert_eq!(idx.link_stor.iter_entries().len(), 3);
    assert_eq!(idx.link_stor.get_link_by_rule_path("/r2").len(), 1);
    assert_eq!(idx.link_stor.get_link_by_rule_path("path:/r2").len(), 0);
}

#[test]
fn resource_lookup_by_path() {
    let mut idx = CFGIndex::new();
    idx.res_stor.add_res("/p", res(&[("k", "1")]));
    assert!(idx.res_stor.get_res_by_path("/p").is_some());
    assert!(idx.res_stor.get_res_by_path("/q").is_none());
    idx.res_stor.add_res("/p", res(&[("k", "2")]));
    assert_eq!(idx.res_stor.get_res_by_path("/p").unwrap().data[0].value, "2");
}

#[test]
fn priority_rank_follows_float_order() {
    let vals = [-1.0e30f32, -2.5, -0.0, 0.0, 1.0e-40, 1.5, 2.0, 3.4e38];
    for a in vals {
        for b in vals {
            let ra = priority_rank(a.to_bits());
            let rb = priority_rank(b.to_bits());
            assert_eq!(ra > rb, a > b);
            assert_eq!(ra == rb, a == b);
        }
    }
    assert_eq!(priority_rank(0.0f32.to_bits()), 0);
    assert_eq!(priority_rank((-0.0f32).to_bits()), 0);
    assert_eq!(priority_rank(1.0f32.to_bits()), 0x3f80_0000);
    assert!(priority_is_finite(f32::MAX.to_bits()));
    assert!(!priority_is_finite(f32::NAN.to_bits()));
}

#[test]
fn path_reference_prefix() {
    assert!(check_path_ref("path:/a"));
    assert!(!check_path_ref("path:/"));
    assert!(!check_path_ref("path:a"));
    assert!(!check_path_ref("pat"));
    assert_eq!(remove_path_type_prefix("path:/a/b"), "/a/b");
}

#[test]
fn unresolved_references_are_reported() {
    let mem = snapshot(true);
    assert!(mem.indices.check_references().is_ok());

    let mut idx = CFGIndex::new();
    idx.rule_stor.add_rule("/r", eq_rule("u", "x"));
    idx.link_stor.add_link("/l", &link(1.0, false, "path:/r", &["path:/missing"]).unwrap());
    assert!(matches!(idx.check_references(), Err(DataLoaderError::SpecParseError(_))));

    let mut idx = CFGIndex::new();
    idx.res_stor.add_res("/p", res(&[("k", "P")]));
    idx.link_stor.add_link("/l", &link(1.0, false, "path:/nope", &["path:/p"]).unwrap());
    assert!(matches!(idx.check_references(), Err(DataLoaderError::SpecParseError(_))));
    assert!(idx.rule_stor.has_rule("/nope") == false);
}
