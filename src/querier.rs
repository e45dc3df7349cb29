use std::sync::Arc;
use vstd::prelude::*;

use crate::cfgindex::{CFGIndex, IdxLinkItem, IdxRuleItem, KeyValuePair, ResIndex, links_for};
use crate::error::QueryError;
use crate::model::{pri_rank, priority_rank};
use crate::rule_engine::{MatchContext, holds, lemma_holds_same_bindings};
use crate::storage::VersionItem;
use crate::text::str_eq;

verus! {

/// How the results of the matching links are combined.
#[derive(Debug, PartialEq, Eq, Structural, Clone, Copy)]
pub enum ViewMode {
    /// One winning value per key, after priority and negative links are applied.
    OverlaidView,
    /// Every matching (link, item) pair, for each key.
    AllLinkedResView,
}

/// An index paired with the revision it was built from.
pub struct MemStorage {
    pub version: VersionItem,
    pub indices: CFGIndex,
}

impl MemStorage {
    pub fn new(version: VersionItem, indices: CFGIndex) -> (r: MemStorage)
        ensures
            r.version == version,
            r.indices == indices,
    {
        MemStorage { version, indices }
    }
}

/// One value returned by a query, with the link it came through when asked for.
#[derive(Debug)]
pub struct CFGResult {
    pub reason: Option<Arc<IdxLinkItem>>,
    pub value: Arc<KeyValuePair>,
}

/// The candidate links: for each rule that holds, in rule order, the links that
/// hang on it, in link order.
pub open spec fn candidate_links(
    rules: Seq<IdxRuleItem>,
    links: Seq<Arc<IdxLinkItem>>,
    ctx: MatchContext,
) -> Seq<Arc<IdxLinkItem>>
    decreases rules.len(),
{
    if rules.len() == 0 {
        seq![]
    } else {
        let prev = candidate_links(rules.drop_last(), links, ctx);
        if holds(rules.last().rule, ctx) {
            prev + links_for(links, rules.last().abs_path@)
        } else {
            prev
        }
    }
}

/// The items of `data` under key `k`, in order.
pub open spec fn items_with_key(data: Seq<Arc<KeyValuePair>>, k: Seq<char>) -> Seq<Arc<KeyValuePair>>
    decreases data.len(),
{
    if data.len() == 0 {
        seq![]
    } else {
        let prev = items_with_key(data.drop_last(), k);
        if data.last().key@ == k {
            prev.push(data.last())
        } else {
            prev
        }
    }
}

/// The items under key `k` of the resource that link `l` cites; none when the
/// resource is missing.
pub open spec fn provided(res: ResIndex, l: IdxLinkItem, k: Seq<char>) -> Seq<Arc<KeyValuePair>> {
    match res.res_of(l.abs_res_path@) {
        Some(r) => items_with_key(r.data@, k),
        None => seq![],
    }
}

/// The reason attached to a result: the link itself when an explanation is asked for.
pub open spec fn explained(l: Arc<IdxLinkItem>, need_explain: bool) -> Option<Arc<IdxLinkItem>> {
    if need_explain {
        Some(l)
    } else {
        None
    }
}

/// The result carrying `kv`, found through link `l`.
pub open spec fn result_of(l: Arc<IdxLinkItem>, kv: Arc<KeyValuePair>, need_explain: bool) -> CFGResult {
    CFGResult { reason: explained(l, need_explain), value: kv }
}

/// One result per item of `kvs`, each found through `l`.
pub open spec fn results_through(
    l: Arc<IdxLinkItem>,
    kvs: Seq<Arc<KeyValuePair>>,
    need_explain: bool,
) -> Seq<CFGResult> {
    kvs.map_values(|kv: Arc<KeyValuePair>| result_of(l, kv, need_explain))
}

/// Every (link, item) pair for key `k`, links in order, items in order.
pub open spec fn union_for_key(
    ls: Seq<Arc<IdxLinkItem>>,
    res: ResIndex,
    k: Seq<char>,
    need_explain: bool,
) -> Seq<CFGResult>
    decreases ls.len(),
{
    if ls.len() == 0 {
        seq![]
    } else {
        union_for_key(ls.drop_last(), res, k, need_explain) + results_through(
            ls.last(),
            provided(res, *ls.last(), k),
            need_explain,
        )
    }
}

/// The AllLinkedResView: the union for each key, keys in order.
pub open spec fn union_view(
    keys: Seq<&str>,
    ls: Seq<Arc<IdxLinkItem>>,
    res: ResIndex,
    need_explain: bool,
) -> Seq<CFGResult>
    decreases keys.len(),
{
    if keys.len() == 0 {
        seq![]
    } else {
        union_view(keys.drop_last(), ls, res, need_explain) + union_for_key(
            ls,
            res,
            keys.last()@,
            need_explain,
        )
    }
}

/// Link `a` may be considered before link `b`: higher priority first, and among
/// equal priorities negative links first.
pub open spec fn link_le(a: IdxLinkItem, b: IdxLinkItem) -> bool {
    pri_rank(a.pri) > pri_rank(b.pri) || (pri_rank(a.pri) == pri_rank(b.pri) && (a.is_neg
        || !b.is_neg))
}

/// Inserts `x` into the ordered `s`, after every link that may precede it.
pub open spec fn insert_sorted(s: Seq<Arc<IdxLinkItem>>, x: Arc<IdxLinkItem>) -> Seq<Arc<IdxLinkItem>>
    decreases s.len(),
{
    if s.len() == 0 {
        seq![x]
    } else if link_le(*s.last(), *x) {
        s.push(x)
    } else {
        insert_sorted(s.drop_last(), x).push(s.last())
    }
}

/// The links in consideration order: a stable sort by `link_le`.
pub open spec fn sort_links(s: Seq<Arc<IdxLinkItem>>) -> Seq<Arc<IdxLinkItem>>
    decreases s.len(),
{
    if s.len() == 0 {
        s
    } else {
        insert_sorted(sort_links(s.drop_last()), s.last())
    }
}

/// The first link of `s` whose resource holds key `k`, with the first such item.
pub open spec fn overlay_pick(s: Seq<Arc<IdxLinkItem>>, res: ResIndex, k: Seq<char>) -> Option<
    (Arc<IdxLinkItem>, Arc<KeyValuePair>),
>
    decreases s.len(),
{
    if s.len() == 0 {
        None
    } else if provided(res, *s[0], k).len() > 0 {
        Some((s[0], provided(res, *s[0], k)[0]))
    } else {
        overlay_pick(s.drop_first(), res, k)
    }
}

/// The OverlaidView for one key over the ordered links `s`: the pick's item, unless
/// the pick is a negative link or there is none.
pub open spec fn overlay_for_key(
    s: Seq<Arc<IdxLinkItem>>,
    res: ResIndex,
    k: Seq<char>,
    need_explain: bool,
) -> Seq<CFGResult> {
    match overlay_pick(s, res, k) {
        Some((l, kv)) => if l.is_neg {
            seq![]
        } else {
            seq![result_of(l, kv, need_explain)]
        },
        None => seq![],
    }
}

/// The OverlaidView over the ordered links `s`, keys in order.
pub open spec fn overlay_view(
    keys: Seq<&str>,
    s: Seq<Arc<IdxLinkItem>>,
    res: ResIndex,
    need_explain: bool,
) -> Seq<CFGResult>
    decreases keys.len(),
{
    if keys.len() == 0 {
        seq![]
    } else {
        overlay_view(keys.drop_last(), s, res, need_explain) + overlay_for_key(
            s,
            res,
            keys.last()@,
            need_explain,
        )
    }
}

/// The candidate links of a query against `idx` for `ctx`.
pub open spec fn query_links(idx: CFGIndex, ctx: MatchContext) -> Seq<Arc<IdxLinkItem>> {
    candidate_links(idx.rule_stor.rules(), idx.link_stor.entries(), ctx)
}

/// What a query returns.
pub open spec fn query_result(
    idx: CFGIndex,
    ctx: MatchContext,
    keys: Seq<&str>,
    view_mode: ViewMode,
    need_explain: bool,
) -> Seq<CFGResult> {
    let ls = query_links(idx, ctx);
    match view_mode {
        ViewMode::OverlaidView => overlay_view(keys, sort_links(ls), idx.res_stor, need_explain),
        ViewMode::AllLinkedResView => union_view(keys, ls, idx.res_stor, need_explain),
    }
}

/// Answers queries against one snapshot.
pub struct Querier {}

impl Querier {
    /// Evaluates every rule of the snapshot against `whoami`, gathers the links of
    /// those that hold, and assembles the values of `keys` in the chosen view.
    pub fn get(
        mem_store: &MemStorage,
        whoami: &MatchContext,
        keys: &Vec<&str>,
        view_mode: ViewMode,
        need_explain: bool,
    ) -> (r: Result<Vec<CFGResult>, QueryError>)
        requires
            mem_store.indices.wf(),
        ensures
            r matches Ok(v) && v@ == query_result(mem_store.indices, *whoami, keys@, view_mode, need_explain),
    {
        let idx = &mem_store.indices;
        let rules = idx.rule_stor.iter_related_rules(whoami);
        let mut act_links: Vec<Arc<IdxLinkItem>> = Vec::new();
        let mut i: usize = 0;
        while i < rules.len()
            invariant
                idx.wf(),
                rules@ == idx.rule_stor.rules(),
                i <= rules@.len(),
                act_links@ == candidate_links(rules@.subrange(0, i as int), idx.link_stor.entries(), *whoami),
            decreases rules@.len() - i,
        {
            assert(rules@.subrange(0, i + 1).drop_last() =~= rules@.subrange(0, i as int));
            if rules[i].rule.eval(whoami) {
                let mut links = idx.link_stor.get_link_by_rule_path(rules[i].abs_path.as_str());
                act_links.append(&mut links);
            }
            i = i + 1;
        }
        assert(rules@.subrange(0, rules@.len() as int) =~= rules@);
        if act_links.len() == 0 {
            proof {
                lemma_no_links_no_results(keys@, act_links@, idx.res_stor, need_explain);
            }
            return Ok(Vec::new());
        }
        let ret = match view_mode {
            ViewMode::OverlaidView => fetch_res_by_overlaid_view(mem_store, keys, act_links, need_explain),
            ViewMode::AllLinkedResView => fetch_res_by_all_linked_res_view(
                mem_store,
                keys,
                act_links,
                need_explain,
            ),
        };
        Ok(ret)
    }
}

/// Without candidate links both views are empty.
proof fn lemma_no_links_no_results(
    keys: Seq<&str>,
    ls: Seq<Arc<IdxLinkItem>>,
    res: ResIndex,
    need_explain: bool,
)
    requires
        ls.len() == 0,
    ensures
        union_view(keys, ls, res, need_explain).len() == 0,
        overlay_view(keys, sort_links(ls), res, need_explain).len() == 0,
    decreases keys.len(),
{
    if keys.len() > 0 {
        lemma_no_links_no_results(keys.drop_last(), ls, res, need_explain);
    }
}

/// Whether link `a` may be considered before link `b`.
fn link_may_precede(a: &IdxLinkItem, b: &IdxLinkItem) -> (r: bool)
    ensures
        r == link_le(*a, *b),
{
    let ra = priority_rank(a.pri);
    let rb = priority_rank(b.pri);
    ra > rb || (ra == rb && (a.is_neg || !b.is_neg))
}

/// Inserts `x` into the ordered `out` as `insert_sorted` does.
fn insert_link(out: &mut Vec<Arc<IdxLinkItem>>, x: Arc<IdxLinkItem>)
    ensures
        final(out)@ == insert_sorted(old(out)@, x),
{
    let ghost s = out@;
    let mut j = out.len();
    assert(s.subrange(0, j as int) =~= s);
    assert(s.subrange(j as int, s.len() as int) =~= seq![]);
    while j > 0 && !link_may_precede(&out[j - 1], &x)
        invariant
            out@ == s,
            j <= s.len(),
            insert_sorted(s, x) == insert_sorted(s.subrange(0, j as int), x) + s.subrange(
                j as int,
                s.len() as int,
            ),
        decreases j,
    {
        let ghost pre = s.subrange(0, j as int);
        assert(pre.drop_last() =~= s.subrange(0, j - 1));
        assert(pre.last() == s[j - 1]);
        assert(insert_sorted(pre, x) == insert_sorted(s.subrange(0, j - 1), x).push(s[j - 1]));
        assert(s.subrange(j - 1, s.len() as int) =~= seq![s[j - 1]] + s.subrange(j as int, s.len() as int));
        assert(insert_sorted(s.subrange(0, j - 1), x).push(s[j - 1]) + s.subrange(j as int, s.len() as int)
            =~= insert_sorted(s.subrange(0, j - 1), x) + s.subrange(j - 1, s.len() as int));
        j = j - 1;
    }
    let ghost pre = s.subrange(0, j as int);
    if j == 0 {
        assert(insert_sorted(pre, x) =~= seq![x]);
    } else {
        assert(pre.last() == s[j - 1]);
        assert(insert_sorted(pre, x) == pre.push(x));
    }
    out.insert(j, x);
    assert(out@ =~= insert_sorted(pre, x) + s.subrange(j as int, s.len() as int));
}

/// Orders the links for consideration, as `sort_links` does.
fn sort_by_priority(links: &Vec<Arc<IdxLinkItem>>) -> (r: Vec<Arc<IdxLinkItem>>)
    ensures
        r@ == sort_links(links@),
{
    let mut out: Vec<Arc<IdxLinkItem>> = Vec::new();
    let mut i: usize = 0;
    while i < links.len()
        invariant
            i <= links@.len(),
            out@ == sort_links(links@.subrange(0, i as int)),
        decreases links@.len() - i,
    {
        assert(links@.subrange(0, i + 1).drop_last() =~= links@.subrange(0, i as int));
        insert_link(&mut out, links[i].clone());
        i = i + 1;
    }
    assert(links@.subrange(0, links@.len() as int) =~= links@);
    out
}

/// The items of `data` under `key`, in order.
fn items_under_key(data: &Vec<Arc<KeyValuePair>>, key: &str) -> (r: Vec<Arc<KeyValuePair>>)
    ensures
        r@ == items_with_key(data@, key@),
{
    let mut out: Vec<Arc<KeyValuePair>> = Vec::new();
    let mut i: usize = 0;
    while i < data.len()
        invariant
            i <= data@.len(),
            out@ == items_with_key(data@.subrange(0, i as int), key@),
        decreases data@.len() - i,
    {
        assert(data@.subrange(0, i + 1).drop_last() =~= data@.subrange(0, i as int));
        if str_eq(data[i].key.as_str(), key) {
            out.push(data[i].clone());
        }
        i = i + 1;
    }
    assert(data@.subrange(0, data@.len() as int) =~= data@);
    out
}

/// The items under `key` of the resource that `link` cites.
fn provided_items(res: &ResIndex, link: &IdxLinkItem, key: &str) -> (r: Vec<Arc<KeyValuePair>>)
    ensures
        r@ == provided(*res, *link, key@),
{
    match res.get_res_by_path(link.abs_res_path.as_str()) {
        Some(r) => items_under_key(&r.data, key),
        None => Vec::new(),
    }
}

/// The reason to attach to a result found through `link`.
fn explain_link(link: &Arc<IdxLinkItem>, need_explain: bool) -> (r: Option<Arc<IdxLinkItem>>)
    ensures
        r == explained(*link, need_explain),
{
    if need_explain {
        Some(link.clone())
    } else {
        None
    }
}

/// The first link of `sorted` that provides `key`, with its first item under `key`.
fn pick_link(sorted: &Vec<Arc<IdxLinkItem>>, res: &ResIndex, key: &str) -> (r: Option<
    (Arc<IdxLinkItem>, Arc<KeyValuePair>),
>)
    ensures
        r == overlay_pick(sorted@, *res, key@),
{
    let mut j: usize = 0;
    assert(sorted@.subrange(0, sorted@.len() as int) =~= sorted@);
    while j < sorted.len()
        invariant
            j <= sorted@.len(),
            overlay_pick(sorted@, *res, key@) == overlay_pick(
                sorted@.subrange(j as int, sorted@.len() as int),
                *res,
                key@,
            ),
        decreases sorted@.len() - j,
    {
        let link = &sorted[j];
        let found = provided_items(res, link, key);
        let ghost rest = sorted@.subrange(j as int, sorted@.len() as int);
        assert(rest[0] == *link);
        if found.len() > 0 {
            return Some((link.clone(), found[0].clone()));
        }
        assert(rest.drop_first() =~= sorted@.subrange(j + 1, sorted@.len() as int));
        j = j + 1;
    }
    assert(sorted@.subrange(j as int, sorted@.len() as int) =~= seq![]);
    None
}

/// The OverlaidView over the candidate links `links`.
pub fn fetch_res_by_overlaid_view(
    mem_store: &MemStorage,
    keys: &Vec<&str>,
    links: Vec<Arc<IdxLinkItem>>,
    need_explain: bool,
) -> (r: Vec<CFGResult>)
    ensures
        r@ == overlay_view(keys@, sort_links(links@), mem_store.indices.res_stor, need_explain),
{
    let res = &mem_store.indices.res_stor;
    let sorted = sort_by_priority(&links);
    let mut ret_buf: Vec<CFGResult> = Vec::new();
    let mut i: usize = 0;
    while i < keys.len()
        invariant
            sorted@ == sort_links(links@),
            i <= keys@.len(),
            ret_buf@ == overlay_view(keys@.subrange(0, i as int), sorted@, *res, need_explain),
        decreases keys@.len() - i,
    {
        let key = keys[i];
        assert(keys@.subrange(0, i + 1).drop_last() =~= keys@.subrange(0, i as int));
        assert(keys@.subrange(0, i + 1).last() == key);
        match pick_link(&sorted, res, key) {
            Some((link, kv)) => {
                if !link.is_neg {
                    let reason = explain_link(&link, need_explain);
                    ret_buf.push(CFGResult { reason, value: kv });
                }
            },
            None => {},
        }
        assert(ret_buf@ =~= overlay_view(keys@.subrange(0, i + 1), sorted@, *res, need_explain));
        i = i + 1;
    }
    assert(keys@.subrange(0, keys@.len() as int) =~= keys@);
    ret_buf
}

/// Appends one result per item of `kvs`, each found through `link`.
fn push_results(
    out: &mut Vec<CFGResult>,
    link: &Arc<IdxLinkItem>,
    kvs: &Vec<Arc<KeyValuePair>>,
    need_explain: bool,
)
    ensures
        final(out)@ == old(out)@ + results_through(*link, kvs@, need_explain),
{
    let ghost start = out@;
    let mut m: usize = 0;
    while m < kvs.len()
        invariant
            m <= kvs@.len(),
            out@ == start + results_through(*link, kvs@.subrange(0, m as int), need_explain),
        decreases kvs@.len() - m,
    {
        let reason = explain_link(link, need_explain);
        out.push(CFGResult { reason, value: kvs[m].clone() });
        assert(results_through(*link, kvs@.subrange(0, m + 1), need_explain) =~= results_through(
            *link,
            kvs@.subrange(0, m as int),
            need_explain,
        ).push(result_of(*link, kvs@[m as int], need_explain)));
        m = m + 1;
    }
    assert(kvs@.subrange(0, kvs@.len() as int) =~= kvs@);
}

/// The AllLinkedResView over the candidate links `links`.
pub fn fetch_res_by_all_linked_res_view(
    mem_store: &MemStorage,
    keys: &Vec<&str>,
    links: Vec<Arc<IdxLinkItem>>,
    need_explain: bool,
) -> (r: Vec<CFGResult>)
    ensures
        r@ == union_view(keys@, links@, mem_store.indices.res_stor, need_explain),
{
    let res = &mem_store.indices.res_stor;
    let mut ret_buf: Vec<CFGResult> = Vec::new();
    let mut i: usize = 0;
    while i < keys.len()
        invariant
            i <= keys@.len(),
            ret_buf@ == union_view(keys@.subrange(0, i as int), links@, *res, need_explain),
        decreases keys@.len() - i,
    {
        let key = keys[i];
        let ghost before = ret_buf@;
        let mut j: usize = 0;
        while j < links.len()
            invariant
                i < keys@.len(),
                key == keys@[i as int],
                j <= links@.len(),
                ret_buf@ == before + union_for_key(links@.subrange(0, j as int), *res, key@, need_explain),
            decreases links@.len() - j,
        {
            let link = &links[j];
            let found = provided_items(res, link, key);
            assert(links@.subrange(0, j + 1).drop_last() =~= links@.subrange(0, j as int));
            push_results(&mut ret_buf, link, &found, need_explain);
            assert(ret_buf@ =~= before + union_for_key(links@.subrange(0, j + 1), *res, key@, need_explain));
            j = j + 1;
        }
        assert(links@.subrange(0, links@.len() as int) =~= links@);
        assert(keys@.subrange(0, i + 1).drop_last() =~= keys@.subrange(0, i as int));
        i = i + 1;
    }
    assert(keys@.subrange(0, keys@.len() as int) =~= keys@);
    ret_buf
}

} // verus!

verus! {

spec fn arc_link_le(a: Arc<IdxLinkItem>, b: Arc<IdxLinkItem>) -> bool {
    link_le(*a, *b)
}

/// `s` is in consideration order.
pub open spec fn links_sorted(s: Seq<Arc<IdxLinkItem>>) -> bool {
    forall|i: int, j: int| 0 <= i < j < s.len() ==> link_le(*#[trigger] s[i], *#[trigger] s[j])
}

proof fn lemma_link_le_total(a: Arc<IdxLinkItem>, b: Arc<IdxLinkItem>)
    ensures
        link_le(*a, *b) || link_le(*b, *a),
{
}

proof fn lemma_link_le_transitive(a: Arc<IdxLinkItem>, b: Arc<IdxLinkItem>, c: Arc<IdxLinkItem>)
    requires
        link_le(*a, *b),
        link_le(*b, *c),
    ensures
        link_le(*a, *c),
{
}

/// Inserting into an ordered sequence keeps it ordered and adds exactly `x`.
proof fn lemma_insert_sorted(s: Seq<Arc<IdxLinkItem>>, x: Arc<IdxLinkItem>)
    requires
        links_sorted(s),
    ensures
        links_sorted(insert_sorted(s, x)),
        insert_sorted(s, x).to_multiset() == s.to_multiset().insert(x),
        insert_sorted(s, x).len() == s.len() + 1,
        s.len() > 0 ==> insert_sorted(s, x).last() == x || insert_sorted(s, x).last() == s.last(),
    decreases s.len(),
{
    broadcast use vstd::seq_lib::group_to_multiset_ensures;
    broadcast use vstd::multiset::group_multiset_axioms;

    if s.len() == 0 {
        assert(seq![x] == Seq::<Arc<IdxLinkItem>>::empty().push(x));
    } else if arc_link_le(s.last(), x) {
        let r = s.push(x);
        assert forall|i: int, j: int| 0 <= i < j < r.len() implies link_le(*#[trigger] r[i], *#[trigger] r[j]) by {
            if j == s.len() {
                if i < s.len() - 1 {
                    lemma_link_le_transitive(s[i], s.last(), x);
                }
            } else {
                assert(r[i] == s[i] && r[j] == s[j]);
            }
        }
    } else {
        let t = s.drop_last();
        assert(links_sorted(t)) by {
            assert forall|i: int, j: int| 0 <= i < j < t.len() implies link_le(*#[trigger] t[i], *#[trigger] t[j]) by {
                assert(t[i] == s[i] && t[j] == s[j]);
            }
        }
        lemma_insert_sorted(t, x);
        let u = insert_sorted(t, x);
        let r = u.push(s.last());
        lemma_link_le_total(s.last(), x);
        assert forall|i: int, j: int| 0 <= i < j < r.len() implies link_le(*#[trigger] r[i], *#[trigger] r[j]) by {
            if j == u.len() {
                // every element of u is x or an element of t, all of which may precede s.last()
                assert(u.to_multiset().contains(u[i]));
                assert(u.contains(u[i]));
                assert(t.to_multiset().insert(x).contains(u[i]));
                if u[i] != x {
                    assert(t.to_multiset().contains(u[i]));
                    assert(t.contains(u[i]));
                    let k = choose|k: int| 0 <= k < t.len() && t[k] == u[i];
                    assert(s[k] == t[k]);
                    assert(link_le(*s[k], *s[s.len() - 1]));
                }
                assert(r[i] == u[i]);
            } else {
                assert(r[i] == u[i] && r[j] == u[j]);
            }
        }
        assert(s =~= t.push(s.last()));
        assert(s.to_multiset() == t.to_multiset().insert(s.last()));
        assert(r.to_multiset() =~= u.to_multiset().insert(s.last()));
        assert(t.to_multiset().insert(x).insert(s.last()) =~= t.to_multiset().insert(s.last()).insert(x));
    }
}

/// The consideration order is an ordering of exactly the given links.
pub proof fn lemma_sort_links(s: Seq<Arc<IdxLinkItem>>)
    ensures
        links_sorted(sort_links(s)),
        sort_links(s).to_multiset() == s.to_multiset(),
        sort_links(s).len() == s.len(),
    decreases s.len(),
{
    broadcast use vstd::seq_lib::group_to_multiset_ensures;

    if s.len() > 0 {
        lemma_sort_links(s.drop_last());
        lemma_insert_sorted(sort_links(s.drop_last()), s.last());
        assert(s =~= s.drop_last().push(s.last()));
    }
}

/// Links are considered by priority, highest first; among equal priorities a
/// negative link is considered before a positive one.
pub proof fn lemma_consideration_order(ls: Seq<Arc<IdxLinkItem>>, i: int, j: int)
    requires
        0 <= i < sort_links(ls).len(),
        0 <= j < sort_links(ls).len(),
    ensures
        pri_rank(sort_links(ls)[i].pri) > pri_rank(sort_links(ls)[j].pri) ==> i < j,
        pri_rank(sort_links(ls)[i].pri) == pri_rank(sort_links(ls)[j].pri) && sort_links(ls)[i].is_neg
            && !sort_links(ls)[j].is_neg ==> i < j,
{
    lemma_sort_links(ls);
    let s = sort_links(ls);
    if j < i {
        assert(link_le(*s[j], *s[i]));
    }
}

} // verus!

verus! {

spec fn provided_via(res: ResIndex, l: Arc<IdxLinkItem>, k: Seq<char>) -> Seq<Arc<KeyValuePair>> {
    provided(res, *l, k)
}

/// When some link of `s` from index `m` on provides key `k`, the pick is the
/// first providing link, at an index no later than `m`.
proof fn lemma_pick_first(s: Seq<Arc<IdxLinkItem>>, res: ResIndex, k: Seq<char>, m: int) -> (f: int)
    requires
        0 <= m < s.len(),
        provided(res, *s[m], k).len() > 0,
    ensures
        0 <= f <= m,
        provided(res, *s[f], k).len() > 0,
        overlay_pick(s, res, k) == Some((s[f], provided(res, *s[f], k)[0])),
    decreases s.len(),
{
    if provided_via(res, s[0], k).len() > 0 {
        0
    } else {
        let t = s.drop_first();
        assert(t[m - 1] == s[m]);
        let g = lemma_pick_first(t, res, k, m - 1);
        assert(t[g] == s[g + 1]);
        g + 1
    }
}

/// Among candidate links `ls`, a negative link whose priority is at least that of
/// every positive link providing key `k` leaves no result for `k`.
pub proof fn lemma_negative_suppression_links(
    ls: Seq<Arc<IdxLinkItem>>,
    res: ResIndex,
    k: Seq<char>,
    n: int,
    need_explain: bool,
)
    requires
        0 <= n < ls.len(),
        ls[n].is_neg,
        provided(res, *ls[n], k).len() > 0,
        forall|p: int|
            0 <= p < ls.len() && !(#[trigger] ls[p]).is_neg && provided(res, *ls[p], k).len() > 0
                ==> pri_rank(ls[p].pri) <= pri_rank(ls[n].pri),
    ensures
        overlay_for_key(sort_links(ls), res, k, need_explain).len() == 0,
{
    broadcast use vstd::seq_lib::group_to_multiset_ensures;

    let s = sort_links(ls);
    lemma_sort_links(ls);
    assert(ls.contains(ls[n]));
    assert(ls.to_multiset().count(ls[n]) > 0);
    assert(s.to_multiset().count(ls[n]) > 0);
    assert(s.contains(ls[n]));
    let m = choose|m: int| 0 <= m < s.len() && s[m] == ls[n];
    let f = lemma_pick_first(s, res, k, m);
    let l = s[f];
    if !l.is_neg {
        assert(s.contains(l));
        assert(s.to_multiset().count(l) > 0);
        assert(ls.to_multiset().count(l) > 0);
        assert(ls.contains(l));
        let p = choose|p: int| 0 <= p < ls.len() && ls[p] == l;
        assert(pri_rank(ls[p].pri) <= pri_rank(ls[n].pri));
        assert(f < m);
        assert(link_le(*s[f], *s[m]));
    }
}

/// The items selected under key `k` all carry key `k`.
pub proof fn lemma_items_with_key_keys(data: Seq<Arc<KeyValuePair>>, k: Seq<char>)
    ensures
        forall|i: int| 0 <= i < items_with_key(data, k).len() ==> (#[trigger] items_with_key(data, k)[i]).key@ == k,
    decreases data.len(),
{
    if data.len() > 0 {
        let t = data.drop_last();
        lemma_items_with_key_keys(t, k);
        let prev = items_with_key(t, k);
        if data.last().key@ == k {
            assert forall|i: int| 0 <= i < prev.push(data.last()).len() implies (#[trigger] prev.push(
                data.last(),
            )[i]).key@ == k by {
                if i < prev.len() {
                    assert(prev.push(data.last())[i] == prev[i]);
                }
            }
        }
    }
}

proof fn lemma_pick_key(s: Seq<Arc<IdxLinkItem>>, res: ResIndex, k: Seq<char>)
    ensures
        overlay_pick(s, res, k) matches Some((l, kv)) ==> kv.key@ == k,
    decreases s.len(),
{
    if s.len() > 0 {
        if provided_via(res, s[0], k).len() > 0 {
            match res.res_of(s[0].abs_res_path@) {
                Some(r) => lemma_items_with_key_keys(r.data@, k),
                None => {},
            }
        } else {
            lemma_pick_key(s.drop_first(), res, k);
        }
    }
}

/// The OverlaidView takes the value for key `k` from a link considered no later
/// than any candidate link providing `k`: none of higher priority, and none
/// negative of equal priority when the chosen one is positive, is passed over.
pub proof fn lemma_overlay_pick_precedes(ls: Seq<Arc<IdxLinkItem>>, res: ResIndex, k: Seq<char>, p: int)
    requires
        0 <= p < ls.len(),
        provided(res, *ls[p], k).len() > 0,
    ensures
        overlay_pick(sort_links(ls), res, k) matches Some((l, kv)) && ls.contains(l) && link_le(*l, *ls[p])
            && provided(res, *l, k).len() > 0 && kv == provided(res, *l, k)[0],
{
    broadcast use vstd::seq_lib::group_to_multiset_ensures;

    let s = sort_links(ls);
    lemma_sort_links(ls);
    assert(ls.contains(ls[p]));
    assert(ls.to_multiset().count(ls[p]) > 0);
    assert(s.to_multiset().count(ls[p]) > 0);
    assert(s.contains(ls[p]));
    let m = choose|m: int| 0 <= m < s.len() && s[m] == ls[p];
    let f = lemma_pick_first(s, res, k, m);
    assert(s.contains(s[f]));
    assert(s.to_multiset().count(s[f]) > 0);
    assert(ls.to_multiset().count(s[f]) > 0);
    if f < m {
        assert(link_le(*s[f], *s[m]));
    }
}

/// In the OverlaidView over candidate links `ls`, a negative link whose priority
/// is at least that of every positive link providing key `k` leaves no result
/// carrying `k`, whatever keys are asked for.
pub proof fn lemma_overlaid_view_suppression(
    keys: Seq<&str>,
    ls: Seq<Arc<IdxLinkItem>>,
    res: ResIndex,
    k: Seq<char>,
    n: int,
    need_explain: bool,
)
    requires
        0 <= n < ls.len(),
        ls[n].is_neg,
        provided(res, *ls[n], k).len() > 0,
        forall|p: int|
            0 <= p < ls.len() && !(#[trigger] ls[p]).is_neg && provided(res, *ls[p], k).len() > 0
                ==> pri_rank(ls[p].pri) <= pri_rank(ls[n].pri),
    ensures
        forall|i: int|
            0 <= i < overlay_view(keys, sort_links(ls), res, need_explain).len() ==> (#[trigger] overlay_view(
                keys,
                sort_links(ls),
                res,
                need_explain,
            )[i]).value.key@ != k,
    decreases keys.len(),
{
    if keys.len() > 0 {
        let s = sort_links(ls);
        let t = keys.drop_last();
        lemma_overlaid_view_suppression(t, ls, res, k, n, need_explain);
        lemma_negative_suppression_links(ls, res, k, n, need_explain);
        lemma_pick_key(s, res, keys.last()@);
        let a = overlay_view(t, s, res, need_explain);
        let b = overlay_for_key(s, res, keys.last()@, need_explain);
        assert forall|i: int| 0 <= i < (a + b).len() implies (#[trigger] (a + b)[i]).value.key@ != k by {
            if i >= a.len() {
                assert((a + b)[i] == b[i - a.len()]);
            }
        }
    }
}

/// In the OverlaidView, a negative link whose priority is at least that of every
/// positive link providing a key suppresses that key entirely.
pub proof fn lemma_negative_suppression(
    idx: CFGIndex,
    ctx: MatchContext,
    key: &str,
    n: int,
    need_explain: bool,
)
    requires
        0 <= n < query_links(idx, ctx).len(),
        query_links(idx, ctx)[n].is_neg,
        provided(idx.res_stor, *query_links(idx, ctx)[n], key@).len() > 0,
        forall|p: int|
            0 <= p < query_links(idx, ctx).len() && !(#[trigger] query_links(idx, ctx)[p]).is_neg
                && provided(idx.res_stor, *query_links(idx, ctx)[p], key@).len() > 0 ==> pri_rank(
                query_links(idx, ctx)[p].pri,
            ) <= pri_rank(query_links(idx, ctx)[n].pri),
    ensures
        query_result(idx, ctx, seq![key], ViewMode::OverlaidView, need_explain).len() == 0,
{
    let ls = query_links(idx, ctx);
    let res = idx.res_stor;
    let s = sort_links(ls);
    lemma_negative_suppression_links(ls, res, key@, n, need_explain);
    assert(seq![key].drop_last() =~= Seq::<&str>::empty());
    assert(seq![key].last() == key);
    assert(overlay_view(Seq::<&str>::empty(), s, res, need_explain) == Seq::<CFGResult>::empty());
    assert(overlay_for_key(s, res, key@, need_explain).len() == 0);
}

/// The items that link `l` provides under key `k` carry key `k`.
proof fn lemma_provided_keys(res: ResIndex, l: Arc<IdxLinkItem>, k: Seq<char>)
    ensures
        forall|j: int| 0 <= j < provided_via(res, l, k).len() ==> (#[trigger] provided_via(res, l, k)[j]).key@ == k,
{
    match res.res_of(l.abs_res_path@) {
        Some(r) => lemma_items_with_key_keys(r.data@, k),
        None => {},
    }
}

proof fn lemma_union_for_key_keys(ls: Seq<Arc<IdxLinkItem>>, res: ResIndex, k: Seq<char>, need_explain: bool)
    ensures
        forall|i: int|
            0 <= i < union_for_key(ls, res, k, need_explain).len() ==> (#[trigger] union_for_key(
                ls,
                res,
                k,
                need_explain,
            )[i]).value.key@ == k,
    decreases ls.len(),
{
    if ls.len() > 0 {
        let t = ls.drop_last();
        lemma_union_for_key_keys(t, res, k, need_explain);
        lemma_provided_keys(res, ls.last(), k);
        let a = union_for_key(t, res, k, need_explain);
        let b = results_through(ls.last(), provided_via(res, ls.last(), k), need_explain);
        assert forall|i: int| 0 <= i < (a + b).len() implies (#[trigger] (a + b)[i]).value.key@ == k by {
            if i >= a.len() {
                assert((a + b)[i] == b[i - a.len()]);
            }
        }
    }
}

/// Over candidate links `ls`, the AllLinkedResView results that carry key `k`
/// are, when `k` is asked for, exactly the (link, item) pairs of links whose
/// resource holds items under `k` (negative links included), and otherwise none.
pub proof fn lemma_union_view_completeness(
    keys: Seq<&str>,
    ls: Seq<Arc<IdxLinkItem>>,
    res: ResIndex,
    k: Seq<char>,
    need_explain: bool,
)
    ensures
        forall|x: CFGResult|
            (union_view(keys, ls, res, need_explain).contains(x) && x.value.key@ == k) <==> ((exists|t: int|
                0 <= t < keys.len() && (#[trigger] keys[t])@ == k) && exists|i: int, j: int|
                0 <= i < ls.len() && 0 <= j < provided(res, *ls[i], k).len() && x == result_of(
                    ls[i],
                    #[trigger] provided(res, *ls[i], k)[j],
                    need_explain,
                )),
    decreases keys.len(),
{
    if keys.len() > 0 {
        let t = keys.drop_last();
        let last = keys.last()@;
        lemma_union_view_completeness(t, ls, res, k, need_explain);
        lemma_union_for_key_keys(ls, res, last, need_explain);
        lemma_union_members(ls, res, last, need_explain);
        lemma_union_members(ls, res, k, need_explain);
        let a = union_view(t, ls, res, need_explain);
        let b = union_for_key(ls, res, last, need_explain);
        assert forall|x: CFGResult|
            ((a + b).contains(x) && x.value.key@ == k) <==> ((exists|u: int|
                0 <= u < keys.len() && (#[trigger] keys[u])@ == k) && exists|i: int, j: int|
                0 <= i < ls.len() && 0 <= j < provided(res, *ls[i], k).len() && x == result_of(
                    ls[i],
                    #[trigger] provided(res, *ls[i], k)[j],
                    need_explain,
                )) by {
            if (a + b).contains(x) && x.value.key@ == k {
                let q = choose|q: int| 0 <= q < (a + b).len() && (a + b)[q] == x;
                if q < a.len() {
                    assert(a[q] == x);
                    assert(a.contains(x));
                    let u = choose|u: int| 0 <= u < t.len() && (#[trigger] t[u])@ == k;
                    assert(keys[u] == t[u]);
                } else {
                    assert(b[q - a.len()] == x);
                    assert(b.contains(x));
                    assert(last == k);
                    assert(keys[keys.len() - 1] == keys.last());
                }
            }
            if (exists|u: int| 0 <= u < keys.len() && (#[trigger] keys[u])@ == k) && exists|i: int, j: int|
                0 <= i < ls.len() && 0 <= j < provided(res, *ls[i], k).len() && x == result_of(
                    ls[i],
                    #[trigger] provided(res, *ls[i], k)[j],
                    need_explain,
                ) {
                let (i, j) = choose|i: int, j: int|
                    0 <= i < ls.len() && 0 <= j < provided(res, *ls[i], k).len() && x == result_of(
                        ls[i],
                        #[trigger] provided(res, *ls[i], k)[j],
                        need_explain,
                    );
                lemma_provided_keys(res, ls[i], k);
                assert(provided_via(res, ls[i], k)[j].key@ == k);
                assert(x.value.key@ == k);
                let u = choose|u: int| 0 <= u < keys.len() && (#[trigger] keys[u])@ == k;
                if last == k {
                    assert(b.contains(x));
                    let q = choose|q: int| 0 <= q < b.len() && b[q] == x;
                    assert((a + b)[a.len() + q] == x);
                } else {
                    assert(u < t.len());
                    assert(t[u] == keys[u]);
                    assert(a.contains(x));
                    let q = choose|q: int| 0 <= q < a.len() && a[q] == x;
                    assert((a + b)[q] == x);
                }
            }
        }
    }
}

/// In the AllLinkedResView the results for a key are exactly the (link, item)
/// pairs of the candidate links whose resource holds an item under that key.
pub proof fn lemma_union_completeness(idx: CFGIndex, ctx: MatchContext, key: &str, need_explain: bool)
    ensures
        query_result(idx, ctx, seq![key], ViewMode::AllLinkedResView, need_explain) == union_for_key(
            query_links(idx, ctx),
            idx.res_stor,
            key@,
            need_explain,
        ),
        forall|x: CFGResult|
            query_result(idx, ctx, seq![key], ViewMode::AllLinkedResView, need_explain).contains(x)
                <==> exists|i: int, j: int|
                0 <= i < query_links(idx, ctx).len() && 0 <= j < provided(
                    idx.res_stor,
                    *query_links(idx, ctx)[i],
                    key@,
                ).len() && x == result_of(
                    query_links(idx, ctx)[i],
                    #[trigger] provided(idx.res_stor, *query_links(idx, ctx)[i], key@)[j],
                    need_explain,
                ),
{
    assert(seq![key].drop_last() =~= Seq::<&str>::empty());
    assert(seq![key].last() == key);
    assert(union_view(Seq::<&str>::empty(), query_links(idx, ctx), idx.res_stor, need_explain)
        == Seq::<CFGResult>::empty());
    assert(union_view(seq![key], query_links(idx, ctx), idx.res_stor, need_explain) =~= union_for_key(
        query_links(idx, ctx),
        idx.res_stor,
        key@,
        need_explain,
    ));
    lemma_union_members(query_links(idx, ctx), idx.res_stor, key@, need_explain);
}

pub proof fn lemma_union_members(ls: Seq<Arc<IdxLinkItem>>, res: ResIndex, k: Seq<char>, need_explain: bool)
    ensures
        forall|x: CFGResult|
            union_for_key(ls, res, k, need_explain).contains(x) <==> exists|i: int, j: int|
                0 <= i < ls.len() && 0 <= j < provided(res, *ls[i], k).len() && x == result_of(
                    ls[i],
                    #[trigger] provided(res, *ls[i], k)[j],
                    need_explain,
                ),
    decreases ls.len(),
{
    if ls.len() > 0 {
        let t = ls.drop_last();
        lemma_union_members(t, res, k, need_explain);
        let a = union_for_key(t, res, k, need_explain);
        let b = results_through(ls.last(), provided_via(res, ls.last(), k), need_explain);
        assert(union_for_key(ls, res, k, need_explain) == a + b);
        assert forall|x: CFGResult| (a + b).contains(x) <==> exists|i: int, j: int|
            0 <= i < ls.len() && 0 <= j < provided(res, *ls[i], k).len() && x == result_of(
                ls[i],
                #[trigger] provided(res, *ls[i], k)[j],
                need_explain,
            ) by {
            if (a + b).contains(x) {
                let q = choose|q: int| 0 <= q < (a + b).len() && (a + b)[q] == x;
                if q < a.len() {
                    assert(a[q] == x);
                    assert(a.contains(x));
                    let (i, j) = choose|i: int, j: int|
                        0 <= i < t.len() && 0 <= j < provided(res, *t[i], k).len() && x == result_of(
                            t[i],
                            #[trigger] provided(res, *t[i], k)[j],
                            need_explain,
                        );
                    assert(t[i] == ls[i]);
                    assert(x == result_of(ls[i], provided(res, *ls[i], k)[j], need_explain));
                } else {
                    let j = q - a.len();
                    assert(b[j] == x);
                    let i = ls.len() - 1;
                    assert(x == result_of(ls[i], provided(res, *ls[i], k)[j], need_explain));
                }
            }
            if exists|i: int, j: int|
                0 <= i < ls.len() && 0 <= j < provided(res, *ls[i], k).len() && x == result_of(
                    ls[i],
                    #[trigger] provided(res, *ls[i], k)[j],
                    need_explain,
                ) {
                let (i, j) = choose|i: int, j: int|
                    0 <= i < ls.len() && 0 <= j < provided(res, *ls[i], k).len() && x == result_of(
                        ls[i],
                        #[trigger] provided(res, *ls[i], k)[j],
                        need_explain,
                    );
                if i < t.len() {
                    assert(t[i] == ls[i]);
                    assert(x == result_of(t[i], provided(res, *t[i], k)[j], need_explain));
                    assert(a.contains(x));
                    let q = choose|q: int| 0 <= q < a.len() && a[q] == x;
                    assert((a + b)[q] == x);
                } else {
                    assert(b[j] == x);
                    assert((a + b)[a.len() + j] == x);
                }
            }
        }
    }
}

} // verus!

verus! {

proof fn lemma_candidates_same_bindings(
    rules: Seq<IdxRuleItem>,
    links: Seq<Arc<IdxLinkItem>>,
    a: MatchContext,
    b: MatchContext,
)
    requires
        forall|k: Seq<char>| a.spec_get(k) == b.spec_get(k),
    ensures
        candidate_links(rules, links, a) == candidate_links(rules, links, b),
    decreases rules.len(),
{
    if rules.len() > 0 {
        lemma_candidates_same_bindings(rules.drop_last(), links, a, b);
        lemma_holds_same_bindings(rules.last().rule, a, b);
    }
}

/// Queries are deterministic: against the same snapshot, two WhoAmIs that bind
/// every identifier alike get identical results, in either view.
pub proof fn lemma_query_deterministic(
    idx: CFGIndex,
    a: MatchContext,
    b: MatchContext,
    keys: Seq<&str>,
    view_mode: ViewMode,
    need_explain: bool,
)
    requires
        forall|k: Seq<char>| a.spec_get(k) == b.spec_get(k),
    ensures
        query_result(idx, a, keys, view_mode, need_explain) == query_result(
            idx,
            b,
            keys,
            view_mode,
            need_explain,
        ),
{
    lemma_candidates_same_bindings(idx.rule_stor.rules(), idx.link_stor.entries(), a, b);
}

} // verus!
