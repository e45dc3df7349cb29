use vstd::prelude::*;

use crate::error::DataLoaderError;
use crate::parser::{cond_view, parse_rule, rule_of};
use crate::rule_engine::Condition;
use crate::text::{chars_of, has_prefix, starts_with};

verus! {

/// Bits of an IEEE-754 single-precision number that hold its exponent.
pub const PRI_EXPONENT_MASK: u32 = 0x7f80_0000;

/// Bits of an IEEE-754 single-precision number that hold all but its sign.
pub const PRI_MAGNITUDE_MASK: u32 = 0x7fff_ffff;

/// The sign bit of an IEEE-754 single-precision number.
pub const PRI_SIGN_BIT: u32 = 0x8000_0000;

/// A priority, given as the bit pattern of a single-precision float, is finite:
/// its exponent is not all ones (which would make it an infinity or a NaN).
pub open spec fn pri_is_finite(bits: u32) -> bool {
    bits & PRI_EXPONENT_MASK != PRI_EXPONENT_MASK
}

/// The rank of a finite priority: finite floats compare as their sign-magnitude
/// integers do, and `+0.0` and `-0.0` share rank zero.
pub open spec fn pri_rank(bits: u32) -> int {
    let mag = (bits & PRI_MAGNITUDE_MASK) as int;
    if bits & PRI_SIGN_BIT != 0 {
        -mag
    } else {
        mag
    }
}

/// Computes `pri_rank`.
pub fn priority_rank(bits: u32) -> (r: i64)
    ensures
        r == pri_rank(bits),
{
    let mag = (bits & PRI_MAGNITUDE_MASK) as i64;
    if bits & PRI_SIGN_BIT != 0 {
        -mag
    } else {
        mag
    }
}

/// Computes `pri_is_finite`.
pub fn priority_is_finite(bits: u32) -> (r: bool)
    ensures
        r == pri_is_finite(bits),
{
    bits & PRI_EXPONENT_MASK != PRI_EXPONENT_MASK
}

/// The prefix of a reference to another document by its repository path.
pub open spec fn path_ref_prefix() -> Seq<char> {
    seq!['p', 'a', 't', 'h', ':', '/']
}

/// A reference `path:/...`: after `path:` comes a non-empty absolute repository
/// path, of more than the bare `/`.
pub open spec fn is_path_ref(s: Seq<char>) -> bool {
    has_prefix(s, path_ref_prefix()) && s.len() > path_ref_prefix().len()
}

/// Whether `s` is a well-formed `path:/...` reference.
pub fn check_path_ref(s: &str) -> (r: bool)
    ensures
        r == is_path_ref(s@),
{
    proof {
        reveal_strlit("path:/");
        assert("path:/"@ =~= path_ref_prefix());
    }
    starts_with(s, "path:/") && chars_of(s).len() > 6
}

pub struct RuleMeta {
    pub desc: String,
    pub tags: Vec<String>,
}

pub struct RuleSpec {
    pub rule: Condition,
}

/// A rule document: a condition over the WhoAmI.
pub struct Rule {
    pub meta: RuleMeta,
    pub spec: RuleSpec,
}

impl Rule {
    /// Builds a rule from its metadata and the text of its condition, which must
    /// be one rule expression with nothing but whitespace after it.
    pub fn from_parts(meta: RuleMeta, rule_text: &str) -> (r: Result<Rule, DataLoaderError>)
        ensures
            match rule_of(rule_text@) {
                Some(c) => r matches Ok(x) && cond_view(x.spec.rule) == c && x.meta == meta,
                None => r matches Err(e) && e is SpecParseError,
            },
    {
        match parse_rule(rule_text) {
            Ok(rule) => Ok(Rule { meta, spec: RuleSpec { rule } }),
            Err(e) => Err(e),
        }
    }
}

pub struct LinkMeta {
    pub desc: String,
    pub tags: Vec<String>,
}

/// The `spec` part of a link document.
pub struct LinkSpec {
    /// The priority, as the bit pattern of a single-precision float.
    pub pri: u32,
    pub is_neg: bool,
    pub ver: String,
    /// The rule, as a `path:/...` reference.
    pub rule: String,
    /// The resources, each as a `path:/...` reference.
    pub reses: Vec<String>,
}

/// A link document that passed validation.
pub struct Link {
    pub meta: LinkMeta,
    pub spec: LinkSpec,
}

/// A link spec is acceptable: finite priority, and every reference of the form
/// `path:/...`.
pub open spec fn link_spec_valid(spec: LinkSpec) -> bool {
    &&& pri_is_finite(spec.pri)
    &&& is_path_ref(spec.rule@)
    &&& forall|i: int| 0 <= i < spec.reses@.len() ==> is_path_ref(#[trigger] spec.reses@[i]@)
}

impl Link {
    /// Validates a decoded link document.
    pub fn from_parts(meta: LinkMeta, spec: LinkSpec) -> (r: Result<Link, DataLoaderError>)
        ensures
            match r {
                Ok(link) => link_spec_valid(spec) && link.spec == spec && link.meta == meta,
                Err(e) => !link_spec_valid(spec) && e is SpecParseError,
            },
    {
        if !priority_is_finite(spec.pri) {
            return Err(DataLoaderError::SpecParseError("pri field is not a valid float number".to_string()));
        }
        if !check_path_ref(spec.rule.as_str()) {
            return Err(DataLoaderError::SpecParseError("rule must be referenced by `path:/...`".to_string()));
        }
        let mut i: usize = 0;
        while i < spec.reses.len()
            invariant
                i <= spec.reses@.len(),
                forall|j: int| 0 <= j < i ==> is_path_ref(#[trigger] spec.reses@[j]@),
            decreases spec.reses@.len() - i,
        {
            if !check_path_ref(spec.reses[i].as_str()) {
                return Err(DataLoaderError::SpecParseError("resource must be referenced by `path:/...`".to_string()));
            }
            i = i + 1;
        }
        Ok(Link { meta, spec })
    }
}

pub struct ResMeta {
    pub desc: String,
    pub tags: Vec<String>,
}

/// One key/value item of a resource document.
pub struct ResSpecItem {
    pub content_type: String,
    pub key: String,
    pub data: String,
}

pub struct ResSpec(pub Vec<ResSpecItem>);

/// A resource document: an ordered list of key/value items.
pub struct Res {
    pub meta: ResMeta,
    pub spec: ResSpec,
}

} // verus!
