//! Roles and the leader's minimal duties.
//!
//! - **Expert**: one instance that holds one domain's context and knowledge;
//! - **Leader**: an instance configured with `role = leader`, which owns the
//!   expert registry, routing and merging.

use crate::order;
use crate::text;
use crate::tree;
use crate::TokenId;
use vstd::prelude::*;
use vstd::string::*;

verus! {

// ── Roles ──────────────────────────────────────────────────────────────────

/// The role an instance plays.
#[derive(Clone, Copy, Debug, PartialEq, Eq, Structural)]
pub enum Role {
    /// A domain expert: owns its context, LUTs, grounding and persistence.
    Expert,
    /// The leader: registry, routing, gate, merge, lifecycle.
    Leader,
}

impl Default for Role {
    fn default() -> (r: Self)
        ensures
            r == Role::Expert,
    {
        Role::Expert
    }
}

/// `c` in lower case, for ASCII letters.
pub open spec fn lower(c: char) -> char {
    if 'A' <= c <= 'Z' {
        (c as int + 32) as char
    } else {
        c
    }
}

/// The role that a config string names, whatever its case and the whitespace
/// around it.
pub open spec fn named_role(s: Seq<char>) -> Option<Role> {
    let word = text::trimmed(s).map_values(|c: char| lower(c));
    if word == "expert"@ {
        Some(Role::Expert)
    } else if word == "leader"@ {
        Some(Role::Leader)
    } else {
        None
    }
}

/// Whether `v` between `lo` and `hi` spells the lower-case word, in any case.
fn spells(v: &Vec<char>, lo: usize, hi: usize, word: &str) -> (r: bool)
    requires
        lo <= hi <= v@.len(),
    ensures
        r == (v@.subrange(lo as int, hi as int).map_values(|c: char| lower(c)) == word@),
{
    let w = text::chars_of(word);
    let ghost s = v@.subrange(lo as int, hi as int).map_values(|c: char| lower(c));
    if w.len() != hi - lo {
        return false;
    }
    for i in 0..w.len()
        invariant
            lo <= hi <= v@.len(),
            w@ == word@,
            w@.len() == hi - lo,
            s == v@.subrange(lo as int, hi as int).map_values(|c: char| lower(c)),
            forall|k: int| 0 <= k < i ==> s[k] == w@[k],
    {
        let c = v[lo + i];
        let d = w[i];
        assert(s[i as int] == lower(c));
        let same = if 'A' <= c && c <= 'Z' {
            c as u32 + 32 == d as u32
        } else {
            c == d
        };
        if !same {
            assert(s[i as int] != w@[i as int]);
            return false;
        }
        proof {
            vstd::utf8::char_is_scalar(d);
            vstd::utf8::char_u32_cast(d, d as u32);
            vstd::utf8::char_u32_cast(c, c as u32);
        }
        assert(s[i as int] == w@[i as int]);
    }
    assert(s =~= word@);
    true
}

impl Role {
    /// The name of a role.
    pub open spec fn name(self) -> Seq<char> {
        match self {
            Role::Expert => "expert"@,
            Role::Leader => "leader"@,
        }
    }

    /// The name of a role.
    pub fn as_str(self) -> (r: &'static str)
        ensures
            r@ == self.name(),
    {
        match self {
            Role::Expert => "expert",
            Role::Leader => "leader",
        }
    }

    /// Parse a role from a config string (unknown is `None`).
    pub fn parse(s: &str) -> (r: Option<Self>)
        ensures
            r == named_role(s@),
    {
        let v = text::chars_of(s);
        let (lo, hi) = text::trim_bounds(&v, 0, v.len());
        assert(v@.subrange(0, v@.len() as int) =~= v@);
        if spells(&v, lo, hi, "expert") {
            Some(Role::Expert)
        } else if spells(&v, lo, hi, "leader") {
            Some(Role::Leader)
        } else {
            None
        }
    }
}

// ── Configuration ──────────────────────────────────────────────────────────

/// Instance configuration.
#[derive(Clone, Copy, Debug, PartialEq, Eq, Structural)]
pub struct CortexConfig {
    pub role: Role,
}

impl Default for CortexConfig {
    fn default() -> (r: Self)
        ensures
            r.role == Role::Expert,
    {
        CortexConfig { role: Role::Expert }
    }
}

/// The role that pairs configure: that of the last `role` pair that names one,
/// expert where none does.
pub open spec fn configured_role(pairs: Seq<(Seq<char>, Seq<char>)>) -> Role
    decreases pairs.len(),
{
    if pairs.len() == 0 {
        Role::Expert
    } else if pairs.last().0 == "role"@ && named_role(pairs.last().1) is Some {
        named_role(pairs.last().1)->0
    } else {
        configured_role(pairs.drop_last())
    }
}

impl CortexConfig {
    /// Build a config from `role` key-value pairs (unknown keys are ignored).
    pub fn from_pairs(pairs: &[(String, String)]) -> (r: Self)
        ensures
            r.role == configured_role(tree::pairs(pairs@)),
    {
        let mut config = CortexConfig::default();
        let key = "role".to_owned();
        let ghost all = tree::pairs(pairs@);
        for i in 0..pairs.len()
            invariant
                key@ == "role"@,
                all == tree::pairs(pairs@),
                config.role == configured_role(all.take(i as int)),
        {
            let ghost t = all.take(i + 1);
            assert(t.drop_last() =~= all.take(i as int));
            assert(t.last() == (pairs@[i as int].0@, pairs@[i as int].1@));
            if pairs[i].0 == key {
                if let Some(role) = Role::parse(pairs[i].1.as_str()) {
                    config.role = role;
                }
            }
        }
        assert(all.take(all.len() as int) =~= all);
        config
    }
}

// ── The leader ─────────────────────────────────────────────────────────────

/// The leader: an expert registry plus the two algebraic duties that can be
/// executed without further specification.
#[derive(Debug)]
pub struct Leader {
    experts: Vec<String>,
}

/// The registry with an expert added, unless it is there already.
pub open spec fn enrol(experts: Seq<Seq<char>>, id: Seq<char>) -> Seq<Seq<char>> {
    if experts.contains(id) {
        experts
    } else {
        experts.push(id)
    }
}

/// The ids of all outputs.
pub open spec fn all_ids(outputs: Seq<Vec<TokenId>>) -> Set<TokenId> {
    Set::new(
        |t: TokenId| exists|k: int| 0 <= k < outputs.len() && #[trigger] outputs[k]@.contains(t),
    )
}

impl View for Leader {
    type V = Seq<Seq<char>>;

    closed spec fn view(&self) -> Seq<Seq<char>> {
        tree::texts(self.experts@)
    }
}

impl Leader {
    /// A leader without experts.
    pub fn new() -> (r: Self)
        ensures
            r@ == Seq::<Seq<char>>::empty(),
    {
        let r = Leader { experts: Vec::new() };
        assert(r@ =~= Seq::<Seq<char>>::empty());
        r
    }

    /// Register an expert id (idempotent, order-preserving).
    pub fn register(&mut self, id: &str)
        ensures
            final(self)@ == enrol(old(self)@, id@),
    {
        let name = id.to_owned();
        for i in 0..self.experts.len()
            invariant
                *self == *old(self),
                name@ == id@,
                forall|k: int| 0 <= k < i ==> (#[trigger] self.experts@[k])@ != id@,
        {
            if self.experts[i] == name {
                assert(self@[i as int] == id@);
                return ;
            }
        }
        let ghost experts0 = self@;
        let ghost x = id@;
        proof {
            if experts0.contains(x) {
                let k = experts0.index_of(x);
                assert(self.experts@[k]@ == x);
            }
        }
        self.experts.push(name);
        assert(self@ =~= experts0.push(x));
    }

    /// The registered expert ids, in registration order.
    pub fn experts(&self) -> (r: &[String])
        ensures
            tree::texts(r@) == self@,
    {
        self.experts.as_slice()
    }

    /// Route a document to experts: every registered expert receives it.
    pub fn route(&self, _doc: &[TokenId]) -> (r: Vec<String>)
        ensures
            tree::texts(r@) == self@,
    {
        let mut r: Vec<String> = Vec::new();
        assert(tree::texts(r@) =~= self@.take(0));
        for i in 0..self.experts.len()
            invariant
                tree::texts(r@) == self@.take(i as int),
                self@ == tree::texts(self.experts@),
        {
            let ghost r0 = r@;
            r.push(self.experts[i].clone());
            assert(tree::texts(r@) =~= tree::texts(r0).push(self@[i as int]));
            assert(self@.take(i + 1) =~= self@.take(i as int).push(self@[i as int]));
        }
        assert(self@.take(self@.len() as int) =~= self@);
        r
    }

    /// Merge expert outputs: the lattice join, a sorted, deduplicated union.
    pub fn merge(&self, outputs: &[Vec<TokenId>]) -> (r: Vec<TokenId>)
        ensures
            order::ascending(r@),
            r@.to_set() == all_ids(outputs@),
    {
        let mut out: Vec<TokenId> = Vec::new();
        assert(out@.to_set() =~= Set::<TokenId>::empty());
        for i in 0..outputs.len()
            invariant
                order::ascending(out@),
                forall|t: TokenId| #[trigger]
                    out@.to_set().contains(t) <==> (exists|k: int|
                        0 <= k < i && #[trigger] outputs@[k]@.contains(t)),
        {
            let ghost before = out@.to_set();
            let ids = &outputs[i];
            assert(ids@.take(0).to_set() =~= Set::<TokenId>::empty());
            assert(before =~= before.union(ids@.take(0).to_set()));
            for j in 0..ids.len()
                invariant
                    order::ascending(out@),
                    out@.to_set() == before.union(ids@.take(j as int).to_set()),
            {
                order::insert_id(&mut out, ids[j]);
                proof {
                    let t = ids@.take(j as int);
                    assert(ids@.take(j + 1) =~= t.push(ids@[j as int]));
                    t.lemma_push_to_set_commute(ids@[j as int]);
                    assert(out@.to_set() =~= before.union(ids@.take(j + 1).to_set()));
                }
            }
            proof {
                assert(ids@.take(ids@.len() as int) =~= ids@);
                assert forall|t: TokenId| #[trigger]
                    out@.to_set().contains(t) <==> (exists|k: int|
                        0 <= k < i + 1 && #[trigger] outputs@[k]@.contains(t)) by {
                    assert(out@.to_set().contains(t) <==> before.contains(t)
                        || outputs@[i as int]@.contains(t));
                }
            }
        }
        assert(out@.to_set() =~= all_ids(outputs@));
        out
    }
}

impl Default for Leader {
    fn default() -> (r: Self)
        ensures
            r@ == Seq::<Seq<char>>::empty(),
    {
        Leader::new()
    }
}

impl Clone for Leader {
    fn clone(&self) -> (r: Self)
        ensures
            r@ == self@,
    {
        let doc: Vec<TokenId> = Vec::new();
        Leader { experts: self.route(doc.as_slice()) }
    }
}

// ── Laws ───────────────────────────────────────────────────────────────────

/// A role's own name parses back to the role.
pub proof fn names_parse_back(role: Role)
    ensures
        named_role(role.name()) == Some(role),
{
    reveal_strlit("expert");
    reveal_strlit("leader");
    let s = role.name();
    text::lemma_trimmed(s);
    assert(s.map_values(|c: char| lower(c)) =~= s);
    assert("expert"@[0] != "leader"@[0]);
}

/// A later `role` pair that names a role overrides everything before it, and
/// any other pair changes nothing.
pub proof fn last_named_role_wins(pairs: Seq<(Seq<char>, Seq<char>)>, key: Seq<char>, value: Seq<char>)
    ensures
        key == "role"@ && named_role(value) is Some ==> configured_role(pairs.push((key, value)))
            == named_role(value)->0,
        key != "role"@ || named_role(value) is None ==> configured_role(pairs.push((key, value)))
            == configured_role(pairs),
{
    assert(pairs.push((key, value)).drop_last() =~= pairs);
}

/// Registration is idempotent and order-preserving: a registered expert stays
/// where it is, and registering it again changes nothing.
pub proof fn registration_is_idempotent(experts: Seq<Seq<char>>, id: Seq<char>)
    ensures
        enrol(enrol(experts, id), id) == enrol(experts, id),
        experts.is_prefix_of(enrol(experts, id)),
        enrol(experts, id).contains(id),
        experts.no_duplicates() ==> enrol(experts, id).no_duplicates(),
{
    let e = enrol(experts, id);
    if !experts.contains(id) {
        assert(e[e.len() - 1] == id);
    }
}

/// Merging is a lattice join: it does not depend on the order of the outputs
/// or on repetitions, only on which ids occur.
pub proof fn merged_outputs_are_determined(
    a: Seq<Vec<TokenId>>,
    b: Seq<Vec<TokenId>>,
    ra: Seq<TokenId>,
    rb: Seq<TokenId>,
)
    requires
        all_ids(a) == all_ids(b),
        order::ascending(ra),
        order::ascending(rb),
        ra.to_set() == all_ids(a),
        rb.to_set() == all_ids(b),
    ensures
        ra == rb,
{
    order::lemma_ascending_unique(ra, rb);
}

/// The ids of two groups of outputs together are the ids of either.
pub proof fn merging_groups_is_joining_them(a: Seq<Vec<TokenId>>, b: Seq<Vec<TokenId>>)
    ensures
        all_ids(a + b) == all_ids(a).union(all_ids(b)),
        all_ids(a + b) == all_ids(b + a),
        all_ids(a + a) == all_ids(a),
{
    lemma_ids_of_groups(a, b);
    lemma_ids_of_groups(b, a);
    lemma_ids_of_groups(a, a);
    assert(all_ids(a).union(all_ids(b)) =~= all_ids(b).union(all_ids(a)));
    assert(all_ids(a).union(all_ids(a)) =~= all_ids(a));
}

proof fn lemma_ids_of_groups(a: Seq<Vec<TokenId>>, b: Seq<Vec<TokenId>>)
    ensures
        all_ids(a + b) == all_ids(a).union(all_ids(b)),
{
    let c = a + b;
    assert forall|t: TokenId| #[trigger]
        all_ids(c).contains(t) == all_ids(a).union(all_ids(b)).contains(t) by {
        if all_ids(a).contains(t) {
            let k = choose|k: int| 0 <= k < a.len() && #[trigger] a[k]@.contains(t);
            assert(c[k]@.contains(t));
        }
        if all_ids(b).contains(t) {
            let k = choose|k: int| 0 <= k < b.len() && #[trigger] b[k]@.contains(t);
            assert(c[a.len() + k]@.contains(t));
        }
        if all_ids(c).contains(t) {
            let k = choose|k: int| 0 <= k < c.len() && #[trigger] c[k]@.contains(t);
            if k < a.len() {
                assert(a[k]@.contains(t));
            } else {
                assert(b[k - a.len()]@.contains(t));
            }
        }
    }
    assert(all_ids(c) =~= all_ids(a).union(all_ids(b)));
}

} // verus!
