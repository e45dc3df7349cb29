use std::sync::Arc;
use vstd::prelude::*;

use crate::error::DataLoaderError;
use crate::model::{is_path_ref, Link, Res, Rule, link_spec_valid};
use crate::rule_engine::{Condition, MatchContext};
use crate::text::{str_eq, strip_prefix};

verus! {

/// What remains of a `path:/...` reference once `path:` is dropped.
pub open spec fn ref_target(s: Seq<char>) -> Seq<char> {
    s.subrange(5, s.len() as int)
}

/// Drops the `path:` marker of a reference, keeping the absolute path after it.
pub fn remove_path_type_prefix(i: &str) -> (r: &str)
    requires
        is_path_ref(i@),
    ensures
        r@ == ref_target(i@),
{
    proof {
        reveal_strlit("path:");
        assert(i@.subrange(0, 5) =~= i@.subrange(0, 6).subrange(0, 5));
        assert("path:"@ =~= i@.subrange(0, 5));
    }
    match strip_prefix(i, "path:") {
        Some(t) => t,
        None => i,
    }
}

/// The read-only index of one namespace at one revision.
pub struct CFGIndex {
    pub rule_stor: RuleIndex,
    pub res_stor: ResIndex,
    pub link_stor: LinkIndex,
}

impl CFGIndex {
    pub open spec fn wf(self) -> bool {
        self.rule_stor.wf()
    }

    /// An index with no rules, resources or links.
    pub fn new() -> (r: CFGIndex)
        ensures
            r.wf(),
            r.rule_stor.rules().len() == 0,
            r.link_stor.entries().len() == 0,
            forall|p: Seq<char>| r.res_stor.res_of(p) is None,
    {
        CFGIndex { rule_stor: RuleIndex::new(), res_stor: ResIndex::new(), link_stor: LinkIndex::new() }
    }
}

/// Every link entry of `idx` hangs on a rule of `idx` and cites a resource of it.
pub open spec fn links_resolve(idx: CFGIndex) -> bool {
    forall|i: int|
        0 <= i < idx.link_stor.entries().len() ==> {
            &&& has_rule_path(idx.rule_stor.rules(), link_rule_key(*#[trigger] idx.link_stor.entries()[i]))
            &&& idx.res_stor.res_of(idx.link_stor.entries()[i].abs_res_path@) is Some
        }
}

impl CFGIndex {
    /// Accepts the index only when every reference made by a link resolves within
    /// it; an unresolved one is a spec parse error.
    pub fn check_references(&self) -> (r: Result<(), DataLoaderError>)
        requires
            self.wf(),
        ensures
            r is Ok <==> links_resolve(*self),
            r matches Err(e) ==> e is SpecParseError,
    {
        let links = &self.link_stor.items;
        let mut i: usize = 0;
        while i < links.len()
            invariant
                self.wf(),
                links@ == self.link_stor.entries(),
                i <= links@.len(),
                forall|j: int|
                    0 <= j < i ==> {
                        &&& has_rule_path(self.rule_stor.rules(), link_rule_key(*#[trigger] links@[j]))
                        &&& self.res_stor.res_of(links@[j].abs_res_path@) is Some
                    },
            decreases links@.len() - i,
        {
            let link = &links[i];
            if !self.rule_stor.has_rule(link.rule_path.as_str()) {
                return Err(DataLoaderError::SpecParseError("a link refers to a rule that does not exist".to_string()));
            }
            if self.res_stor.get_res_by_path(link.abs_res_path.as_str()).is_none() {
                return Err(
                    DataLoaderError::SpecParseError("a link refers to a resource that does not exist".to_string()),
                );
            }
            i = i + 1;
        }
        Ok(())
    }
}

/// Builds indices: the stateless entry point of index construction.
pub struct IndexBuilder {}

impl IndexBuilder {
    pub fn new() -> (r: IndexBuilder) {
        IndexBuilder {}
    }
}

/// A rule in the index, under its namespace-internal path.
#[derive(Debug)]
pub struct IdxRuleItem {
    pub rule: Condition,
    pub abs_path: String,
}

/// Rules by path, in the order they were first added; a path occurs once.
pub struct RuleIndex {
    storage: Vec<IdxRuleItem>,
}

/// Some rule of `rules` sits under path `p`.
pub open spec fn has_rule_path(rules: Seq<IdxRuleItem>, p: Seq<char>) -> bool {
    exists|i: int| 0 <= i < rules.len() && (#[trigger] rules[i]).abs_path@ == p
}

impl RuleIndex {
    /// The rules, in iteration order.
    pub closed spec fn rules(self) -> Seq<IdxRuleItem> {
        self.storage@
    }

    /// No two rules share a path.
    pub open spec fn wf(self) -> bool {
        forall|i: int, j: int|
            0 <= i < j < self.rules().len() ==> (#[trigger] self.rules()[i]).abs_path@
                != (#[trigger] self.rules()[j]).abs_path@
    }

    pub fn new() -> (r: RuleIndex)
        ensures
            r.wf(),
            r.rules().len() == 0,
    {
        RuleIndex { storage: Vec::new() }
    }

    /// Adds `rule` under `abs_path`; a rule already under that path is replaced in place.
    pub fn add_rule(&mut self, abs_path: &str, rule: Rule)
        requires
            old(self).wf(),
        ensures
            final(self).wf(),
            has_rule_path(old(self).rules(), abs_path@) ==> {
                &&& final(self).rules().len() == old(self).rules().len()
                &&& forall|i: int|
                    0 <= i < old(self).rules().len() ==> if (#[trigger] old(self).rules()[i]).abs_path@
                        == abs_path@ {
                        final(self).rules()[i].rule == rule.spec.rule && final(self).rules()[i].abs_path@
                            == abs_path@
                    } else {
                        final(self).rules()[i] == old(self).rules()[i]
                    }
            },
            !has_rule_path(old(self).rules(), abs_path@) ==> {
                &&& final(self).rules().len() == old(self).rules().len() + 1
                &&& forall|i: int|
                    0 <= i < old(self).rules().len() ==> #[trigger] final(self).rules()[i]
                        == old(self).rules()[i]
                &&& final(self).rules().last().rule == rule.spec.rule
                &&& final(self).rules().last().abs_path@ == abs_path@
            },
    {
        let item = IdxRuleItem { rule: rule.spec.rule, abs_path: abs_path.to_owned() };
        let mut i: usize = 0;
        while i < self.storage.len()
            invariant
                old(self).wf(),
                item.abs_path@ == abs_path@,
                item.rule == rule.spec.rule,
                self.rules() == old(self).rules(),
                i <= self.rules().len(),
                forall|j: int| 0 <= j < i ==> (#[trigger] self.rules()[j]).abs_path@ != abs_path@,
            decreases self.rules().len() - i,
        {
            if str_eq(self.storage[i].abs_path.as_str(), abs_path) {
                let ghost pos = i as int;
                let ghost it = item;
                assert(it.abs_path@ == abs_path@ && it.rule == rule.spec.rule);
                assert(old(self).rules()[pos].abs_path@ == abs_path@);
                self.storage.set(i, item);
                assert(self.rules() == old(self).rules().update(pos, it));
                assert forall|x: int| 0 <= x < old(self).rules().len() && x != pos implies
                    (#[trigger] old(self).rules()[x]).abs_path@ != abs_path@ by {
                    if x < pos {
                        assert(old(self).rules()[x].abs_path@ != old(self).rules()[pos].abs_path@);
                    } else {
                        assert(old(self).rules()[pos].abs_path@ != old(self).rules()[x].abs_path@);
                    }
                }
                assert forall|x: int, y: int| 0 <= x < y < self.rules().len() implies
                    (#[trigger] self.rules()[x]).abs_path@ != (#[trigger] self.rules()[y]).abs_path@ by {
                    if x != pos && y != pos {
                        assert(old(self).rules()[x] == self.rules()[x]);
                        assert(old(self).rules()[y] == self.rules()[y]);
                    } else if x == pos {
                        assert(old(self).rules()[y] == self.rules()[y]);
                        assert(old(self).rules()[y].abs_path@ != abs_path@);
                    } else {
                        assert(old(self).rules()[x] == self.rules()[x]);
                        assert(old(self).rules()[x].abs_path@ != abs_path@);
                    }
                }
                return;
            }
            i = i + 1;
        }
        self.storage.push(item);
        assert(self.rules().drop_last() == old(self).rules());
    }

    /// Whether some rule sits under `abs_path`.
    pub fn has_rule(&self, abs_path: &str) -> (r: bool)
        ensures
            r == has_rule_path(self.rules(), abs_path@),
    {
        let mut i: usize = 0;
        while i < self.storage.len()
            invariant
                i <= self.rules().len(),
                forall|j: int| 0 <= j < i ==> (#[trigger] self.rules()[j]).abs_path@ != abs_path@,
            decreases self.rules().len() - i,
        {
            if str_eq(self.storage[i].abs_path.as_str(), abs_path) {
                assert(self.rules()[i as int].abs_path@ == abs_path@);
                return true;
            }
            i = i + 1;
        }
        false
    }

    /// The rules to evaluate for `whoami`: every rule of the index, in iteration order.
    pub fn iter_related_rules(&self, whoami: &MatchContext) -> (r: &Vec<IdxRuleItem>)
        ensures
            r@ == self.rules(),
    {
        &self.storage
    }
}

/// One link entry: a link document expands to one entry per resource it cites.
#[derive(Debug)]
pub struct IdxLinkItem {
    /// The priority, as the bit pattern of a single-precision float.
    pub pri: u32,
    pub is_neg: bool,
    /// The namespace-internal path of the rule.
    pub rule_path: String,
    /// The namespace-internal path of the resource.
    pub abs_res_path: String,
    pub link_path: Arc<String>,
}

/// The path of the rule that a link entry hangs on.
pub open spec fn link_rule_key(l: IdxLinkItem) -> Seq<char> {
    l.rule_path@
}

/// The entries of `items` that hang on rule path `p`, in order.
pub open spec fn links_for(items: Seq<Arc<IdxLinkItem>>, p: Seq<char>) -> Seq<Arc<IdxLinkItem>>
    decreases items.len(),
{
    if items.len() == 0 {
        seq![]
    } else {
        let prev = links_for(items.drop_last(), p);
        if link_rule_key(*items.last()) == p {
            prev.push(items.last())
        } else {
            prev
        }
    }
}

/// `s` is the expansion of `link`, stored under `link_path`: one entry per cited
/// resource, in order.
pub open spec fn expands_link(s: Seq<Arc<IdxLinkItem>>, link: Link, link_path: Seq<char>) -> bool {
    &&& s.len() == link.spec.reses@.len()
    &&& forall|i: int|
        0 <= i < s.len() ==> {
            &&& (#[trigger] s[i]).pri == link.spec.pri
            &&& s[i].is_neg == link.spec.is_neg
            &&& s[i].rule_path@ == ref_target(link.spec.rule@)
            &&& s[i].abs_res_path@ == ref_target(link.spec.reses@[i]@)
            &&& s[i].link_path@ == link_path
        }
}

/// Link entries grouped by the rule they hang on.
pub struct LinkIndex {
    items: Vec<Arc<IdxLinkItem>>,
}

impl LinkIndex {
    /// All entries, in the order they were added.
    pub closed spec fn entries(self) -> Seq<Arc<IdxLinkItem>> {
        self.items@
    }

    pub fn new() -> (r: LinkIndex)
        ensures
            r.entries().len() == 0,
    {
        LinkIndex { items: Vec::new() }
    }

    /// All entries, in the order they were added.
    pub fn iter_entries(&self) -> (r: &Vec<Arc<IdxLinkItem>>)
        ensures
            r@ == self.entries(),
    {
        &self.items
    }

    /// Adds the entries of `link`, found at `link_path`, after those already
    /// present: one per cited resource, hung on the rule the link cites.
    pub fn add_link(&mut self, link_path: &str, link: &Link)
        requires
            link_spec_valid(link.spec),
        ensures
            final(self).entries().len() == old(self).entries().len() + link.spec.reses@.len(),
            final(self).entries().subrange(0, old(self).entries().len() as int) == old(self).entries(),
            expands_link(
                final(self).entries().subrange(old(self).entries().len() as int, final(self).entries().len() as int),
                *link,
                link_path@,
            ),
            links_for(final(self).entries(), ref_target(link.spec.rule@)) == links_for(
                old(self).entries(),
                ref_target(link.spec.rule@),
            ) + final(self).entries().subrange(old(self).entries().len() as int, final(self).entries().len() as int),
            forall|p: Seq<char>|
                p != ref_target(link.spec.rule@) ==> #[trigger] links_for(final(self).entries(), p) == links_for(
                    old(self).entries(),
                    p,
                ),
    {
        let arc_link_path = Arc::new(link_path.to_owned());
        let rule_key = remove_path_type_prefix(link.spec.rule.as_str());
        let ghost start = self.entries().len();
        let mut i: usize = 0;
        while i < link.spec.reses.len()
            invariant
                start == old(self).entries().len(),
                self.entries().len() == start + i,
                i <= link.spec.reses@.len(),
                link_spec_valid(link.spec),
                arc_link_path@ == link_path@,
                rule_key@ == ref_target(link.spec.rule@),
                self.entries().subrange(0, start as int) == old(self).entries(),
                forall|j: int|
                    0 <= j < i ==> {
                        &&& (#[trigger] self.entries()[start + j]).pri == link.spec.pri
                        &&& self.entries()[start + j].is_neg == link.spec.is_neg
                        &&& self.entries()[start + j].rule_path@ == ref_target(link.spec.rule@)
                        &&& self.entries()[start + j].abs_res_path@ == ref_target(link.spec.reses@[j]@)
                        &&& self.entries()[start + j].link_path@ == link_path@
                    },
            decreases link.spec.reses@.len() - i,
        {
            let res_path = &link.spec.reses[i];
            assert(is_path_ref(link.spec.reses@[i as int]@));
            let entry = IdxLinkItem {
                pri: link.spec.pri,
                is_neg: link.spec.is_neg,
                rule_path: rule_key.to_owned(),
                abs_res_path: remove_path_type_prefix(res_path.as_str()).to_owned(),
                link_path: arc_link_path.clone(),
            };
            self.items.push(Arc::new(entry));
            assert(self.entries().subrange(0, start as int) =~= old(self).entries());
            i = i + 1;
        }
        let ghost tail = self.entries().subrange(start as int, self.entries().len() as int);
        assert forall|j: int| 0 <= j < tail.len() implies {
            &&& (#[trigger] tail[j]).pri == link.spec.pri
            &&& tail[j].is_neg == link.spec.is_neg
            &&& tail[j].rule_path@ == ref_target(link.spec.rule@)
            &&& tail[j].abs_res_path@ == ref_target(link.spec.reses@[j]@)
            &&& tail[j].link_path@ == link_path@
        } by {
            assert(tail[j] == self.entries()[start + j]);
        }
        proof {
            assert(self.entries() =~= old(self).entries() + tail);
            let key = ref_target(link.spec.rule@);
            assert forall|p: Seq<char>| true implies #[trigger] links_for(self.entries(), p) == links_for(
                old(self).entries(),
                p,
            ) + links_for(tail, p) by {
                lemma_links_for_append(old(self).entries(), tail, p);
            }
            lemma_links_for_uniform(tail, key);
        }
    }

    /// The entries that hang on rule path `rule_path`, in the order they were added.
    pub fn get_link_by_rule_path(&self, rule_path: &str) -> (r: Vec<Arc<IdxLinkItem>>)
        ensures
            r@ == links_for(self.entries(), rule_path@),
    {
        let mut out: Vec<Arc<IdxLinkItem>> = Vec::new();
        let mut i: usize = 0;
        while i < self.items.len()
            invariant
                i <= self.entries().len(),
                out@ == links_for(self.entries().subrange(0, i as int), rule_path@),
            decreases self.entries().len() - i,
        {
            let item = &self.items[i];
            assert(self.entries().subrange(0, i + 1).drop_last() =~= self.entries().subrange(0, i as int));
            if str_eq(item.rule_path.as_str(), rule_path) {
                out.push(item.clone());
            }
            i = i + 1;
        }
        assert(self.entries().subrange(0, self.entries().len() as int) =~= self.entries());
        out
    }
}

/// Selecting by rule path distributes over concatenation.
pub proof fn lemma_links_for_append(a: Seq<Arc<IdxLinkItem>>, b: Seq<Arc<IdxLinkItem>>, p: Seq<char>)
    ensures
        links_for(a + b, p) == links_for(a, p) + links_for(b, p),
    decreases b.len(),
{
    if b.len() == 0 {
        assert(a + b =~= a);
        assert(links_for(a, p) + links_for(b, p) =~= links_for(a, p));
    } else {
        lemma_links_for_append(a, b.drop_last(), p);
        assert((a + b).drop_last() =~= a + b.drop_last());
        assert((a + b).last() == b.last());
        if b.last().rule_path@ == p {
            assert(links_for(a, p) + links_for(b.drop_last(), p).push(b.last()) =~= (links_for(a, p)
                + links_for(b.drop_last(), p)).push(b.last()));
        }
    }
}

/// Entries that all hang on rule path `key` are all selected for it, and none for
/// any other path.
proof fn lemma_links_for_uniform(s: Seq<Arc<IdxLinkItem>>, key: Seq<char>)
    requires
        forall|j: int| 0 <= j < s.len() ==> (#[trigger] s[j]).rule_path@ == key,
    ensures
        links_for(s, key) == s,
        forall|p: Seq<char>| p != key ==> #[trigger] links_for(s, p) == Seq::<Arc<IdxLinkItem>>::empty(),
    decreases s.len(),
{
    if s.len() > 0 {
        let t = s.drop_last();
        assert forall|j: int| 0 <= j < t.len() implies (#[trigger] t[j]).rule_path@ == key by {
            assert(t[j] == s[j]);
        }
        lemma_links_for_uniform(t, key);
        assert(s.last().rule_path@ == key);
        assert(t.push(s.last()) =~= s);
        assert forall|p: Seq<char>| p != key implies #[trigger] links_for(s, p) == Seq::<
            Arc<IdxLinkItem>,
        >::empty() by {
            assert(links_for(t, p) == Seq::<Arc<IdxLinkItem>>::empty());
        }
    } else {
        assert(s =~= seq![]);
    }
}

/// One key/value item of a resource.
#[derive(Debug)]
pub struct KeyValuePair {
    pub content_type: String,
    pub key: String,
    pub value: String,
}

/// A resource in the index: its items, in document order.
#[derive(Debug)]
pub struct Resource {
    pub data: Vec<Arc<KeyValuePair>>,
    pub res_path: Arc<String>,
}

/// The resource stored under path `p`: the one added last.
pub open spec fn res_lookup(s: Seq<Resource>, p: Seq<char>) -> Option<Resource>
    decreases s.len(),
{
    if s.len() == 0 {
        None
    } else if s.last().res_path@ == p {
        Some(s.last())
    } else {
        res_lookup(s.drop_last(), p)
    }
}

/// Resources by path.
pub struct ResIndex {
    storage: Vec<Resource>,
}

impl ResIndex {
    /// The resource stored under path `p`, if any.
    pub closed spec fn res_of(self, p: Seq<char>) -> Option<Resource> {
        res_lookup(self.storage@, p)
    }

    pub fn new() -> (r: ResIndex)
        ensures
            forall|p: Seq<char>| r.res_of(p) is None,
    {
        ResIndex { storage: Vec::new() }
    }

    /// Stores the items of `res` under `res_path`, in document order; a resource
    /// stored earlier under the same path is no longer seen.
    pub fn add_res(&mut self, res_path: &str, res: Res)
        ensures
            forall|p: Seq<char>| p != res_path@ ==> final(self).res_of(p) == old(self).res_of(p),
            final(self).res_of(res_path@) matches Some(r) && r.res_path@ == res_path@
                && r.data@.len() == res.spec.0@.len() && forall|i: int|
                0 <= i < r.data@.len() ==> {
                    &&& (#[trigger] r.data@[i]).key@ == res.spec.0@[i].key@
                    &&& r.data@[i].value@ == res.spec.0@[i].data@
                    &&& r.data@[i].content_type@ == res.spec.0@[i].content_type@
                },
    {
        let mut data: Vec<Arc<KeyValuePair>> = Vec::new();
        let items = res.spec.0;
        let mut i: usize = 0;
        while i < items.len()
            invariant
                items@ == res.spec.0@,
                i <= items@.len(),
                data@.len() == i,
                forall|j: int|
                    0 <= j < i ==> {
                        &&& (#[trigger] data@[j]).key@ == items@[j].key@
                        &&& data@[j].value@ == items@[j].data@
                        &&& data@[j].content_type@ == items@[j].content_type@
                    },
            decreases items@.len() - i,
        {
            let it = &items[i];
            data.push(
                Arc::new(
                    KeyValuePair {
                        content_type: it.content_type.clone(),
                        key: it.key.clone(),
                        value: it.data.clone(),
                    },
                ),
            );
            i = i + 1;
        }
        let ghost prev = self.storage@;
        self.storage.push(Resource { data, res_path: Arc::new(res_path.to_owned()) });
        assert(self.storage@.drop_last() == prev);
    }

    /// The resource stored under `res_path`, if any.
    pub fn get_res_by_path(&self, res_path: &str) -> (r: Option<&Resource>)
        ensures
            match r {
                Some(x) => self.res_of(res_path@) == Some(*x),
                None => self.res_of(res_path@) is None,
            },
    {
        let mut i = self.storage.len();
        assert(self.storage@.subrange(0, i as int) == self.storage@);
        while i > 0
            invariant
                i <= self.storage@.len(),
                res_lookup(self.storage@, res_path@) == res_lookup(self.storage@.subrange(0, i as int), res_path@),
            decreases i,
        {
            assert(self.storage@.subrange(0, i as int).drop_last() == self.storage@.subrange(0, i - 1));
            if str_eq(self.storage[i - 1].res_path.as_str(), res_path) {
                return Some(&self.storage[i - 1]);
            }
            i = i - 1;
        }
        None
    }
}

} // verus!
