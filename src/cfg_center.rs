use std::sync::Arc;
use vstd::prelude::*;

use crate::error::{CCLibError, DifferError, ListDirError, MemoryIndexError};
use crate::cfgindex::{CFGIndex, IdxLinkItem, KeyValuePair, ResIndex};
use crate::querier::{CFGResult, MemStorage, Querier, ViewMode, query_result};
use crate::rule_engine::MatchContext;
use crate::storage::DirItem;
use crate::text::{concat, ends_with, has_prefix, has_suffix, starts_with, str_eq, strip_prefix};

verus! {

/// When, and with what detail, a namespace hears of upstream changes.
#[derive(Debug, PartialEq, Eq, Structural, Clone, Copy)]
pub enum UpdateNotifyLevel {
    /// Never.
    NoNotify,
    /// On every new revision, whichever namespace it touched; no keys given.
    NotifyWithoutChangedKeysByGlobal,
    /// When the revision changed something in this namespace; no keys given.
    NotifyWithoutChangedKeysInNamespace,
    /// When the revision changed something in this namespace, with the keys that
    /// may have changed.
    NotifyWithMaybeChangedKeys,
}

#[derive(Debug, PartialEq, Eq, Structural, Clone, Copy)]
pub enum UpdateInfoEventType {
    KeyCreate,
    KeyModify,
    KeyDelete,
    KeyNotSure,
}

pub struct UpdateEventItem {
    pub event_type: UpdateInfoEventType,
    pub key: String,
}

/// A namespace begins and ends with `/`.
pub open spec fn valid_namespace(ns: Seq<char>) -> bool {
    has_prefix(ns, seq!['/']) && has_suffix(ns, seq!['/'])
}

/// Whether `namespace` begins and ends with `/`.
pub fn namespace_is_valid(namespace: &str) -> (r: bool)
    ensures
        r == valid_namespace(namespace@),
{
    proof {
        reveal_strlit("/");
        assert("/"@ =~= seq!['/']);
    }
    starts_with(namespace, "/") && ends_with(namespace, "/")
}

/// Accepts a namespace only when it begins and ends with `/`.
pub fn check_namespace(namespace: &str) -> (r: Result<(), CCLibError>)
    ensures
        r is Ok <==> valid_namespace(namespace@),
        r matches Err(e) ==> e is NamespaceError,
{
    if namespace_is_valid(namespace) {
        Ok(())
    } else {
        Err(CCLibError::NamespaceError("namespace must starts and end with `/`".to_string()))
    }
}

/// The repository directory under which a category (`/rules`, `/links`, `/reses`)
/// keeps the documents of a namespace.
pub open spec fn category_root(category: Seq<char>, namespace: Seq<char>) -> Seq<char> {
    category + namespace
}

/// Computes `category_root`.
pub fn namespace_root(category: &str, namespace: &str) -> (r: String)
    ensures
        r@ == category_root(category@, namespace@),
{
    concat(category, namespace)
}

/// Namespaces are isolated: when neither of two namespaces is a prefix of the
/// other, no repository path lies under the roots of both, in any category.
pub proof fn lemma_namespace_isolation(category: Seq<char>, a: Seq<char>, b: Seq<char>, p: Seq<char>)
    requires
        valid_namespace(a),
        valid_namespace(b),
        !has_prefix(a, b),
        !has_prefix(b, a),
    ensures
        !(has_prefix(p, category_root(category, a)) && has_prefix(p, category_root(category, b))),
{
    let ra = category_root(category, a);
    let rb = category_root(category, b);
    if has_prefix(p, ra) && has_prefix(p, rb) {
        if a.len() <= b.len() {
            assert forall|i: int| 0 <= i < a.len() implies b[i] == a[i] by {
                assert(ra[category.len() + i] == p[category.len() + i]);
                assert(rb[category.len() + i] == p[category.len() + i]);
            }
            assert(b.subrange(0, a.len() as int) =~= a);
        } else {
            assert forall|i: int| 0 <= i < b.len() implies a[i] == b[i] by {
                assert(ra[category.len() + i] == p[category.len() + i]);
                assert(rb[category.len() + i] == p[category.len() + i]);
            }
            assert(a.subrange(0, b.len() as int) =~= b);
        }
    }
}

/// A pre-order walk over the directories below one root, driven from outside:
/// the caller lists each directory that `next_dir` hands out and passes the
/// listing to `visit`, which queues the subdirectories and returns the files.
pub struct DirWalk {
    root: Ghost<Seq<char>>,
    pending: Vec<String>,
}

impl DirWalk {
    /// The directory the walk started from.
    pub closed spec fn root(self) -> Seq<char> {
        self.root@
    }

    /// The directories still to be listed, the next one last.
    pub closed spec fn pending(self) -> Seq<Seq<char>> {
        self.pending@.map_values(|s: String| s@)
    }

    /// Everything the walk hands out lies below its root.
    pub open spec fn wf(self) -> bool {
        forall|i: int| 0 <= i < self.pending().len() ==> has_prefix(#[trigger] self.pending()[i], self.root())
    }

    pub fn new(root: String) -> (r: DirWalk)
        ensures
            r.wf(),
            r.root() == root@,
            r.pending() == seq![root@],
    {
        let ghost g = root@;
        let mut pending = Vec::new();
        pending.push(root);
        let r = DirWalk { root: Ghost(g), pending };
        assert(r.pending() =~= seq![g]);
        assert(g.subrange(0, g.len() as int) =~= g);
        r
    }

    /// The next directory to list, if any.
    pub fn next_dir(&mut self) -> (r: Option<String>)
        requires
            old(self).wf(),
        ensures
            final(self).wf(),
            final(self).root() == old(self).root(),
            old(self).pending().len() == 0 ==> r is None && final(self).pending().len() == 0,
            old(self).pending().len() > 0 ==> (r matches Some(d) && d@ == old(self).pending().last()
                && final(self).pending() == old(self).pending().drop_last()),
            r matches Some(d) ==> has_prefix(d@, old(self).root()),
    {
        let r = self.pending.pop();
        proof {
            if old(self).pending().len() > 0 {
                assert(self.pending() =~= old(self).pending().drop_last());
            } else {
                assert(self.pending() =~= old(self).pending());
            }
        }
        r
    }

    /// Takes the listing of directory `parent`: queues its subdirectories and
    /// returns its files, as (path, object handle) pairs, both in listing order.
    /// Every entry must lie below `parent`; otherwise nothing is queued.
    pub fn visit(&mut self, parent: &str, entries: &Vec<DirItem>) -> (r: Result<
        Vec<(String, Vec<u8>)>,
        ListDirError,
    >)
        requires
            old(self).wf(),
            has_prefix(parent@, old(self).root()),
        ensures
            final(self).wf(),
            final(self).root() == old(self).root(),
            r is Ok <==> forall|i: int|
                0 <= i < entries@.len() ==> has_prefix((#[trigger] entries@[i]).abs_path@, parent@),
            r matches Ok(files) ==> {
                &&& files@.map_values(|f: (String, Vec<u8>)| (f.0@, f.1@)) == listed_files(entries@)
                &&& final(self).pending() == old(self).pending() + listed_dirs(entries@)
            },
            r is Err ==> final(self).pending() == old(self).pending(),
    {
        let mut i: usize = 0;
        while i < entries.len()
            invariant
                *self == *old(self),
                old(self).wf(),
                i <= entries@.len(),
                forall|j: int| 0 <= j < i ==> has_prefix((#[trigger] entries@[j]).abs_path@, parent@),
            decreases entries@.len() - i,
        {
            if !starts_with(entries[i].abs_path.as_str(), parent) {
                return Err(ListDirError::PathPrefixHandlingError);
            }
            i = i + 1;
        }
        let ghost start = self.pending();
        let mut files: Vec<(String, Vec<u8>)> = Vec::new();
        let mut i: usize = 0;
        while i < entries.len()
            invariant
                self.wf(),
                self.root() == old(self).root(),
                start == old(self).pending(),
                has_prefix(parent@, self.root()),
                i <= entries@.len(),
                forall|j: int| 0 <= j < entries@.len() ==> has_prefix((#[trigger] entries@[j]).abs_path@, parent@),
                files@.map_values(|f: (String, Vec<u8>)| (f.0@, f.1@)) == listed_files(entries@.subrange(0, i as int)),
                self.pending() == start + listed_dirs(entries@.subrange(0, i as int)),
            decreases entries@.len() - i,
        {
            let item = &entries[i];
            proof {
                lemma_prefix_transitive(item.abs_path@, parent@, self.root());
                assert(entries@.subrange(0, i + 1).drop_last() =~= entries@.subrange(0, i as int));
            }
            if item.is_dir() {
                let ghost before = self.pending();
                self.pending.push(item.abs_path.clone());
                assert(self.pending() =~= before.push(item.abs_path@));
                assert(self.pending() =~= start + listed_dirs(entries@.subrange(0, i + 1)));
            } else {
                let ghost before = files@;
                files.push((item.abs_path.clone(), item.hash.clone()));
                assert(files@.map_values(|f: (String, Vec<u8>)| (f.0@, f.1@)) =~= before.map_values(
                    |f: (String, Vec<u8>)| (f.0@, f.1@),
                ).push((item.abs_path@, item.hash@)));
            }
            i = i + 1;
        }
        assert(entries@.subrange(0, entries@.len() as int) =~= entries@);
        Ok(files)
    }
}

/// The files of a listing, as (path, object handle) pairs, in order.
pub open spec fn listed_files(entries: Seq<DirItem>) -> Seq<(Seq<char>, Seq<u8>)>
    decreases entries.len(),
{
    if entries.len() == 0 {
        seq![]
    } else if entries.last().is_dir {
        listed_files(entries.drop_last())
    } else {
        listed_files(entries.drop_last()).push((entries.last().abs_path@, entries.last().hash@))
    }
}

/// The subdirectories of a listing, in order.
pub open spec fn listed_dirs(entries: Seq<DirItem>) -> Seq<Seq<char>>
    decreases entries.len(),
{
    if entries.len() == 0 {
        seq![]
    } else if entries.last().is_dir {
        listed_dirs(entries.drop_last()).push(entries.last().abs_path@)
    } else {
        listed_dirs(entries.drop_last())
    }
}

proof fn lemma_prefix_transitive(s: Seq<char>, p: Seq<char>, q: Seq<char>)
    requires
        has_prefix(s, p),
        has_prefix(p, q),
    ensures
        has_prefix(s, q),
{
    assert forall|i: int| 0 <= i < q.len() implies s[i] == q[i] by {
        assert(s.subrange(0, p.len() as int)[i] == p[i]);
        assert(p.subrange(0, q.len() as int)[i] == q[i]);
    }
    assert(s.subrange(0, q.len() as int) =~= q);
}

/// The namespace-internal path of a document: its repository path without the
/// category directory in front.
pub fn index_path<'a>(full_path: &'a str, category: &str) -> (r: &'a str)
    requires
        has_prefix(full_path@, category@),
    ensures
        r@ == full_path@.subrange(category@.len() as int, full_path@.len() as int),
{
    match strip_prefix(full_path, category) {
        Some(t) => t,
        None => full_path,
    }
}

/// What the root center does for one namespace when a new revision arrives.
#[derive(Debug, PartialEq, Eq, Structural, Clone, Copy)]
pub enum UpdatePlan {
    /// Leave the namespace as it is.
    Skip,
    /// Build a snapshot of the new revision and publish it; the changed paths are
    /// handed to the callback when `pass_changed` is set.
    Rebuild { pass_changed: bool },
}

/// Whether a namespace at this level needs the list of paths changed between two
/// revisions before deciding.
pub open spec fn level_needs_diff(level: UpdateNotifyLevel) -> bool {
    level == UpdateNotifyLevel::NotifyWithoutChangedKeysInNamespace || level
        == UpdateNotifyLevel::NotifyWithMaybeChangedKeys
}

/// The plan for a namespace at `level`, given the changed paths within it (none
/// when they were not asked for or could not be had).
pub open spec fn update_plan(level: UpdateNotifyLevel, changed: Option<Seq<String>>) -> UpdatePlan {
    match level {
        UpdateNotifyLevel::NoNotify => UpdatePlan::Skip,
        UpdateNotifyLevel::NotifyWithoutChangedKeysByGlobal => UpdatePlan::Rebuild { pass_changed: false },
        UpdateNotifyLevel::NotifyWithoutChangedKeysInNamespace => match changed {
            Some(c) => if c.len() > 0 {
                UpdatePlan::Rebuild { pass_changed: false }
            } else {
                UpdatePlan::Skip
            },
            None => UpdatePlan::Skip,
        },
        UpdateNotifyLevel::NotifyWithMaybeChangedKeys => match changed {
            Some(c) => if c.len() > 0 {
                UpdatePlan::Rebuild { pass_changed: true }
            } else {
                UpdatePlan::Skip
            },
            None => UpdatePlan::Skip,
        },
    }
}

/// Computes `level_needs_diff`.
pub fn needs_diff(level: UpdateNotifyLevel) -> (r: bool)
    ensures
        r == level_needs_diff(level),
{
    level == UpdateNotifyLevel::NotifyWithoutChangedKeysInNamespace || level
        == UpdateNotifyLevel::NotifyWithMaybeChangedKeys
}

/// Computes `update_plan`.
pub fn plan_update(level: UpdateNotifyLevel, changed: Option<&Vec<String>>) -> (r: UpdatePlan)
    ensures
        r == update_plan(
            level,
            match changed {
                Some(c) => Some(c@),
                None => None,
            },
        ),
{
    match level {
        UpdateNotifyLevel::NoNotify => UpdatePlan::Skip,
        UpdateNotifyLevel::NotifyWithoutChangedKeysByGlobal => UpdatePlan::Rebuild { pass_changed: false },
        UpdateNotifyLevel::NotifyWithoutChangedKeysInNamespace => match changed {
            Some(c) => if c.len() > 0 {
                UpdatePlan::Rebuild { pass_changed: false }
            } else {
                UpdatePlan::Skip
            },
            None => UpdatePlan::Skip,
        },
        UpdateNotifyLevel::NotifyWithMaybeChangedKeys => match changed {
            Some(c) => if c.len() > 0 {
                UpdatePlan::Rebuild { pass_changed: true }
            } else {
                UpdatePlan::Skip
            },
            None => UpdatePlan::Skip,
        },
    }
}

/// The notification contract: at the global level every new revision rebuilds
/// the namespace (and so reaches its callback); at the in-namespace level only a
/// non-empty list of changed paths does.
pub proof fn lemma_notify_level_contract(changed: Option<Seq<String>>)
    ensures
        update_plan(UpdateNotifyLevel::NotifyWithoutChangedKeysByGlobal, changed) is Rebuild,
        update_plan(UpdateNotifyLevel::NotifyWithoutChangedKeysInNamespace, changed) is Rebuild
            <==> (changed matches Some(c) && c.len() > 0),
        update_plan(UpdateNotifyLevel::NoNotify, changed) is Skip,
{
}

/// The snapshot a namespace serves once an update ends: the one that was built,
/// or the current one when the build failed.
pub open spec fn settled(current: MemStorage, built: Result<MemStorage, MemoryIndexError>) -> MemStorage {
    match built {
        Ok(n) => n,
        Err(_) => current,
    }
}

/// Ends an update of one namespace: a snapshot that was built replaces the
/// current one; when the build failed, the current snapshot stays and the error
/// is handed back.
pub fn settle_update(current: &mut MemStorage, built: Result<MemStorage, MemoryIndexError>) -> (r: Option<
    MemoryIndexError,
>)
    ensures
        *final(current) == settled(*old(current), built),
        r == match built {
            Ok(_) => None,
            Err(e) => Some(e),
        },
{
    match built {
        Ok(n) => {
            *current = n;
            None
        },
        Err(e) => Some(e),
    }
}

/// A rebuild that fails leaves the namespace serving its previous snapshot, and
/// every query against it answers as before.
pub proof fn lemma_failed_build_preserves_snapshot(
    current: MemStorage,
    e: MemoryIndexError,
    ctx: MatchContext,
    keys: Seq<&str>,
    view_mode: ViewMode,
    need_explain: bool,
)
    ensures
        settled(current, Err(e)) == current,
        query_result(settled(current, Err(e)).indices, ctx, keys, view_mode, need_explain) == query_result(
            current.indices,
            ctx,
            keys,
            view_mode,
            need_explain,
        ),
{
}

/// The characters of each string.
pub open spec fn str_views(v: Seq<String>) -> Seq<Seq<char>> {
    v.map_values(|x: String| x@)
}

/// The item keys of the resource stored under `p`, in order.
pub open spec fn res_keys(res: ResIndex, p: Seq<char>) -> Seq<Seq<char>> {
    match res.res_of(p) {
        Some(r) => r.data@.map_values(|kv: Arc<KeyValuePair>| kv.key@),
        None => seq![],
    }
}

/// The item keys of the resources cited by the link entries of `es` that hang on
/// rule path `p` (`by_rule`) or come from link path `p` (otherwise), in order.
pub open spec fn keys_via_links(es: Seq<Arc<IdxLinkItem>>, res: ResIndex, p: Seq<char>, by_rule: bool) -> Seq<
    Seq<char>,
>
    decreases es.len(),
{
    if es.len() == 0 {
        seq![]
    } else {
        let prev = keys_via_links(es.drop_last(), res, p, by_rule);
        let e = es.last();
        let hit = if by_rule {
            e.rule_path@ == p
        } else {
            e.link_path@ == p
        };
        if hit {
            prev + res_keys(res, e.abs_res_path@)
        } else {
            prev
        }
    }
}

pub open spec fn reses_dir() -> Seq<char> {
    seq!['/', 'r', 'e', 's', 'e', 's']
}

pub open spec fn links_dir() -> Seq<char> {
    seq!['/', 'l', 'i', 'n', 'k', 's']
}

pub open spec fn rules_dir() -> Seq<char> {
    seq!['/', 'r', 'u', 'l', 'e', 's']
}

/// The keys of snapshot `idx` whose values a change to the document at
/// repository path `path` may touch: the keys of a changed resource; the keys of
/// the resources cited by a changed link; the keys of the resources cited by the
/// links of a changed rule.
pub open spec fn keys_touched(idx: CFGIndex, path: Seq<char>) -> Seq<Seq<char>> {
    let rest = path.subrange(6, path.len() as int);
    if has_prefix(path, reses_dir()) {
        res_keys(idx.res_stor, rest)
    } else if has_prefix(path, links_dir()) {
        keys_via_links(idx.link_stor.entries(), idx.res_stor, rest, false)
    } else if has_prefix(path, rules_dir()) {
        keys_via_links(idx.link_stor.entries(), idx.res_stor, rest, true)
    } else {
        seq![]
    }
}

/// For each changed path in order, the keys it may touch in the old snapshot and
/// then in the new one.
pub open spec fn maybe_changed_keys(old: CFGIndex, new: CFGIndex, changed: Seq<String>) -> Seq<Seq<char>>
    decreases changed.len(),
{
    if changed.len() == 0 {
        seq![]
    } else {
        maybe_changed_keys(old, new, changed.drop_last()) + keys_touched(old, changed.last()@) + keys_touched(
            new,
            changed.last()@,
        )
    }
}

/// Appends the item keys of the resource stored under `p`.
fn push_res_keys(out: &mut Vec<String>, res: &ResIndex, p: &str)
    ensures
        str_views(final(out)@) == str_views(old(out)@) + res_keys(*res, p@),
{
    match res.get_res_by_path(p) {
        Some(r) => {
            let ghost start = str_views(out@);
            let mut i: usize = 0;
            while i < r.data.len()
                invariant
                    i <= r.data@.len(),
                    str_views(out@) == start + r.data@.subrange(0, i as int).map_values(
                        |kv: Arc<KeyValuePair>| kv.key@,
                    ),
                decreases r.data@.len() - i,
            {
                let ghost before_out = out@;
                out.push(r.data[i].key.clone());
                assert(out@ == before_out.push(r.data@[i as int].key));
                assert(str_views(out@) =~= str_views(before_out).push(r.data@[i as int].key@));
                assert(r.data@.subrange(0, i + 1).map_values(|kv: Arc<KeyValuePair>| kv.key@) =~= r.data@.subrange(
                    0,
                    i as int,
                ).map_values(|kv: Arc<KeyValuePair>| kv.key@).push(r.data@[i as int].key@));
                assert(str_views(out@) =~= start + r.data@.subrange(0, i + 1).map_values(
                    |kv: Arc<KeyValuePair>| kv.key@,
                ));
                i = i + 1;
            }
            assert(r.data@.subrange(0, r.data@.len() as int) =~= r.data@);
        },
        None => {
            assert(str_views(out@) =~= str_views(out@) + Seq::<Seq<char>>::empty());
        },
    }
}

/// Appends the keys that `keys_via_links` states.
fn push_keys_via_links(out: &mut Vec<String>, idx: &CFGIndex, p: &str, by_rule: bool)
    ensures
        str_views(final(out)@) == str_views(old(out)@) + keys_via_links(
            idx.link_stor.entries(),
            idx.res_stor,
            p@,
            by_rule,
        ),
{
    let es = idx.link_stor.iter_entries();
    let ghost start = str_views(out@);
    let mut i: usize = 0;
    while i < es.len()
        invariant
            es@ == idx.link_stor.entries(),
            i <= es@.len(),
            str_views(out@) == start + keys_via_links(es@.subrange(0, i as int), idx.res_stor, p@, by_rule),
        decreases es@.len() - i,
    {
        let e = &es[i];
        assert(es@.subrange(0, i + 1).drop_last() =~= es@.subrange(0, i as int));
        let hit = if by_rule {
            str_eq(e.rule_path.as_str(), p)
        } else {
            str_eq(e.link_path.as_str(), p)
        };
        if hit {
            let ghost mid = str_views(out@);
            push_res_keys(out, &idx.res_stor, e.abs_res_path.as_str());
            assert(str_views(out@) =~= start + keys_via_links(es@.subrange(0, i + 1), idx.res_stor, p@, by_rule));
        }
        i = i + 1;
    }
    assert(es@.subrange(0, es@.len() as int) =~= es@);
}

/// Appends the keys that `keys_touched` states.
fn push_keys_touched(out: &mut Vec<String>, idx: &CFGIndex, path: &str)
    ensures
        str_views(final(out)@) == str_views(old(out)@) + keys_touched(*idx, path@),
{
    proof {
        reveal_strlit("/reses");
        reveal_strlit("/links");
        reveal_strlit("/rules");
        assert("/reses"@ =~= reses_dir());
        assert("/links"@ =~= links_dir());
        assert("/rules"@ =~= rules_dir());
    }
    if let Some(rest) = strip_prefix(path, "/reses") {
        push_res_keys(out, &idx.res_stor, rest);
    } else if let Some(rest) = strip_prefix(path, "/links") {
        push_keys_via_links(out, idx, rest, false);
    } else if let Some(rest) = strip_prefix(path, "/rules") {
        push_keys_via_links(out, idx, rest, true);
    } else {
        assert(str_views(out@) =~= str_views(out@) + Seq::<Seq<char>>::empty());
    }
}

/// The view of an update handed to a namespace's callback: queries against the
/// snapshot being replaced and the one replacing it.
pub struct Differ<'a> {
    notify_level: UpdateNotifyLevel,
    old_mem_store: &'a MemStorage,
    new_mem_store: &'a MemStorage,
    changed_files: &'a Vec<String>,
}

impl<'a> Differ<'a> {
    pub fn new(
        notify_level: UpdateNotifyLevel,
        old_mem_store: &'a MemStorage,
        new_mem_store: &'a MemStorage,
        changed_files: &'a Vec<String>,
    ) -> (r: Differ<'a>)
        ensures
            r.old_store() == *old_mem_store,
            r.new_store() == *new_mem_store,
            r.level() == notify_level,
            r.changed() == changed_files@,
    {
        Differ { notify_level, old_mem_store, new_mem_store, changed_files }
    }

    pub closed spec fn old_store(&self) -> MemStorage {
        *self.old_mem_store
    }

    pub closed spec fn new_store(&self) -> MemStorage {
        *self.new_mem_store
    }

    pub closed spec fn level(&self) -> UpdateNotifyLevel {
        self.notify_level
    }

    pub closed spec fn changed(&self) -> Seq<String> {
        self.changed_files@
    }

    /// The keys that may have changed: at the level that asks for them, the keys
    /// that each changed path may touch, in the replaced snapshot and then in the
    /// replacing one (see `keys_touched`); empty at every other level.
    pub fn get_maybe_changed_keys(&self) -> (r: Vec<String>)
        ensures
            self.level() == UpdateNotifyLevel::NotifyWithMaybeChangedKeys ==> str_views(r@) == maybe_changed_keys(
                self.old_store().indices,
                self.new_store().indices,
                self.changed(),
            ),
            self.level() != UpdateNotifyLevel::NotifyWithMaybeChangedKeys ==> r@.len() == 0,
    {
        let mut out: Vec<String> = Vec::new();
        if self.notify_level == UpdateNotifyLevel::NotifyWithMaybeChangedKeys {
            let mut i: usize = 0;
            while i < self.changed_files.len()
                invariant
                    i <= self.changed_files@.len(),
                    str_views(out@) == maybe_changed_keys(
                        self.old_mem_store.indices,
                        self.new_mem_store.indices,
                        self.changed_files@.subrange(0, i as int),
                    ),
                decreases self.changed_files@.len() - i,
            {
                let ghost before = str_views(out@);
                let path = self.changed_files[i].as_str();
                push_keys_touched(&mut out, &self.old_mem_store.indices, path);
                push_keys_touched(&mut out, &self.new_mem_store.indices, path);
                assert(self.changed_files@.subrange(0, i + 1).drop_last() =~= self.changed_files@.subrange(
                    0,
                    i as int,
                ));
                assert(str_views(out@) =~= before + keys_touched(self.old_mem_store.indices, path@) + keys_touched(
                    self.new_mem_store.indices,
                    path@,
                ));
                i = i + 1;
            }
            assert(self.changed_files@.subrange(0, self.changed_files@.len() as int) =~= self.changed_files@);
        }
        out
    }

    /// The query, answered against the snapshot being replaced.
    pub fn get_from_old(
        &self,
        whoami: &MatchContext,
        keys: &Vec<&str>,
        view_mode: ViewMode,
        need_explain: bool,
    ) -> (r: Result<Vec<CFGResult>, DifferError>)
        requires
            self.old_store().indices.wf(),
        ensures
            r matches Ok(v) && v@ == query_result(self.old_store().indices, *whoami, keys@, view_mode, need_explain),
    {
        match Querier::get(self.old_mem_store, whoami, keys, view_mode, need_explain) {
            Ok(v) => Ok(v),
            Err(e) => Err(DifferError::QueryError(e)),
        }
    }

    /// The query, answered against the snapshot replacing it.
    pub fn get_from_new(
        &self,
        whoami: &MatchContext,
        keys: &Vec<&str>,
        view_mode: ViewMode,
        need_explain: bool,
    ) -> (r: Result<Vec<CFGResult>, DifferError>)
        requires
            self.new_store().indices.wf(),
        ensures
            r matches Ok(v) && v@ == query_result(self.new_store().indices, *whoami, keys@, view_mode, need_explain),
    {
        match Querier::get(self.new_mem_store, whoami, keys, view_mode, need_explain) {
            Ok(v) => Ok(v),
            Err(e) => Err(DifferError::QueryError(e)),
        }
    }
}

} // verus!
