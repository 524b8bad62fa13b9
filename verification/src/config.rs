//! The data a predicate is evaluated against: a platform's attribute map,
//! platform names, and raw (unparsed) predicate expressions.

use vstd::prelude::*;

verus! {

use crate::text::str_eq;

/// The sentinel platform whose dependencies apply unconditionally.
pub const DEFAULT_PLATFORM: &'static str = "DEFAULT";

/// A single `PlatformConfig` represents a single platform. Each key maps to
/// the set of attribute values which are true for this platform. A
/// non-present key means "doesn't matter" / "all possible values" for value
/// predicates, and "off" for presence predicates.
///
/// The abstract value is a map from key (as a character sequence) to the set
/// of values recorded for it. Entries are stored newest first, and an earlier
/// entry shadows a later one with the same key, so insertion behaves exactly
/// like `Map::insert` on the abstract map.
pub struct PlatformConfig {
    entries: Vec<(String, Vec<String>)>,
}

/// The set of character sequences held by a list of value strings.
pub open spec fn values_set(vs: Seq<String>) -> Set<Seq<char>> {
    Set::new(|v: Seq<char>| exists|i: int| 0 <= i < vs.len() && vs[i]@ == v)
}

/// The attribute map described by a list of entries, earliest entry winning.
pub open spec fn entries_map(es: Seq<(String, Vec<String>)>) -> Map<Seq<char>, Set<Seq<char>>>
    decreases es.len(),
{
    if es.len() == 0 {
        Map::empty()
    } else {
        entries_map(es.skip(1)).insert(es[0].0@, values_set(es[0].1@))
    }
}

impl View for PlatformConfig {
    type V = Map<Seq<char>, Set<Seq<char>>>;

    closed spec fn view(&self) -> Map<Seq<char>, Set<Seq<char>>> {
        entries_map(self.entries@)
    }
}

proof fn lemma_entries_map_dom(es: Seq<(String, Vec<String>)>, k: Seq<char>)
    ensures
        entries_map(es).dom().contains(k) <==> (exists|i: int|
            0 <= i < es.len() && es[i].0@ == k),
    decreases es.len(),
{
    if es.len() > 0 {
        lemma_entries_map_dom(es.skip(1), k);
        if es[0].0@ != k && entries_map(es).dom().contains(k) {
            let i = choose|i: int| 0 <= i < es.skip(1).len() && es.skip(1)[i].0@ == k;
            assert(es[i + 1].0@ == k);
        }
        if exists|i: int| 0 <= i < es.len() && es[i].0@ == k {
            let i = choose|i: int| 0 <= i < es.len() && es[i].0@ == k;
            if i > 0 {
                assert(es.skip(1)[i - 1].0@ == k);
            }
        }
    }
}

proof fn lemma_entries_map_first(es: Seq<(String, Vec<String>)>, k: Seq<char>, i: int)
    requires
        0 <= i < es.len(),
        es[i].0@ == k,
        forall|j: int| 0 <= j < i ==> es[j].0@ != k,
    ensures
        entries_map(es).dom().contains(k),
        entries_map(es)[k] == values_set(es[i].1@),
    decreases es.len(),
{
    if i > 0 {
        assert(forall|j: int| 0 <= j < i - 1 ==> es.skip(1)[j].0@ != k);
        lemma_entries_map_first(es.skip(1), k, i - 1);
    }
}

impl PlatformConfig {
    /// A configuration with no attributes recorded at all.
    pub fn new() -> (r: Self)
        ensures
            r@ == Map::<Seq<char>, Set<Seq<char>>>::empty(),
    {
        PlatformConfig { entries: Vec::new() }
    }

    /// Record the full set of values for `key`, replacing whatever the map
    /// previously held for it.
    pub fn insert(&mut self, key: String, values: Vec<String>)
        ensures
            final(self)@ == old(self)@.insert(key@, values_set(values@)),
    {
        let ghost old_entries = self.entries@;
        self.entries.insert(0, (key, values));
        proof {
            assert(self.entries@.skip(1) =~= old_entries);
        }
    }

    /// Whether any values at all are recorded for `key`.
    pub fn has_key(&self, key: &str) -> (r: bool)
        ensures
            r == self@.dom().contains(key@),
    {
        let mut i: usize = 0;
        while i < self.entries.len()
            invariant
                i <= self.entries@.len(),
                forall|j: int| 0 <= j < i ==> self.entries@[j].0@ != key@,
            decreases self.entries@.len() - i,
        {
            if str_eq(self.entries[i].0.as_str(), key) {
                proof {
                    lemma_entries_map_dom(self.entries@, key@);
                }
                return true;
            }
            i = i + 1;
        }
        proof {
            lemma_entries_map_dom(self.entries@, key@);
        }
        false
    }

    /// Whether `value` is acceptable for `key`: true when `key` is absent
    /// (absence means "unconstrained"), otherwise true exactly when `value`
    /// is among the recorded values.
    pub fn value_matches(&self, key: &str, value: &str) -> (r: bool)
        ensures
            r == (!self@.dom().contains(key@) || self@[key@].contains(value@)),
    {
        let mut i: usize = 0;
        while i < self.entries.len()
            invariant
                i <= self.entries@.len(),
                forall|j: int| 0 <= j < i ==> self.entries@[j].0@ != key@,
            decreases self.entries@.len() - i,
        {
            if str_eq(self.entries[i].0.as_str(), key) {
                proof {
                    lemma_entries_map_first(self.entries@, key@, i as int);
                }
                let vs = &self.entries[i].1;
                let mut j: usize = 0;
                while j < vs.len()
                    invariant
                        j <= vs@.len(),
                        forall|m: int| 0 <= m < j ==> vs@[m]@ != value@,
                        self@.dom().contains(key@),
                        self@[key@] == values_set(vs@),
                    decreases vs@.len() - j,
                {
                    if str_eq(vs[j].as_str(), value) {
                        proof {
                            assert(vs@[j as int]@ == value@);
                            assert(values_set(vs@).contains(value@));
                        }
                        return true;
                    }
                    j = j + 1;
                }
                return false;
            }
            i = i + 1;
        }
        proof {
            lemma_entries_map_dom(self.entries@, key@);
        }
        true
    }
}

/// A name of a platform, as used in a named-platform table.
#[derive(Debug)]
pub struct PlatformName(String);

impl View for PlatformName {
    type V = Seq<char>;

    closed spec fn view(&self) -> Seq<char> {
        self.0@
    }
}

impl PlatformName {
    /// Wrap a string as a platform name.
    pub fn new(name: String) -> (r: Self)
        ensures
            r@ == name@,
    {
        PlatformName(name)
    }

    /// The underlying string of the name.
    pub fn as_str(&self) -> (r: &str)
        ensures
            r@ == self@,
    {
        self.0.as_str()
    }

    /// Whether this is the sentinel platform whose dependencies apply
    /// unconditionally.
    pub fn is_default(&self) -> (r: bool)
        ensures
            r == (self@ == DEFAULT_PLATFORM@),
    {
        str_eq(self.0.as_str(), DEFAULT_PLATFORM)
    }
}

impl Clone for PlatformName {
    fn clone(&self) -> (r: Self)
        ensures
            r@ == self@,
    {
        PlatformName(self.0.clone())
    }
}

impl PartialEq for PlatformName {
    fn eq(&self, other: &Self) -> (r: bool) {
        str_eq(self.0.as_str(), other.0.as_str())
    }
}

impl vstd::std_specs::cmp::PartialEqSpecImpl for PlatformName {
    open spec fn obeys_eq_spec() -> bool {
        true
    }

    open spec fn eq_spec(&self, other: &Self) -> bool {
        self@ == other@
    }
}

/// A Cargo-style platform predicate expression, such as
/// `cfg(target_arch = "z80")`, kept as raw text and parsed on demand.
#[derive(Debug)]
pub struct PlatformExpr(String);

impl View for PlatformExpr {
    type V = Seq<char>;

    closed spec fn view(&self) -> Seq<char> {
        self.0@
    }
}

impl PlatformExpr {
    /// The raw expression text.
    pub fn as_str(&self) -> (r: &str)
        ensures
            r@ == self@,
    {
        self.0.as_str()
    }
}

impl Clone for PlatformExpr {
    fn clone(&self) -> (r: Self)
        ensures
            r@ == self@,
    {
        PlatformExpr(self.0.clone())
    }
}

impl From<String> for PlatformExpr {
    fn from(s: String) -> (r: Self) {
        PlatformExpr(s)
    }
}

impl vstd::std_specs::convert::FromSpecImpl<String> for PlatformExpr {
    open spec fn obeys_from_spec() -> bool {
        true
    }

    closed spec fn from_spec(s: String) -> Self {
        PlatformExpr(s)
    }
}

/// Converting a string into a `PlatformExpr` keeps its text unchanged.
pub proof fn lemma_expr_from_text(s: String)
    ensures
        <PlatformExpr as vstd::std_specs::convert::FromSpec<String>>::from_spec(s)@ == s@,
{
}

} // verus!
