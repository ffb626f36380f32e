//! The group repository and the merge engine.
//!
//! A group name resolves to the concatenated results of every completed
//! generator belonging to that group; rules reference groups that may
//! themselves be produced by other rules, so evaluation walks a
//! dependency graph.  The graph must be acyclic; evaluation carries a
//! fuel bound of one more than the number of generators, which every
//! acyclic configuration stays within, and reports a cycle otherwise.
//! Group and generator results are memoized: computed on first miss,
//! reused forever within the run.

use vstd::prelude::*;
use crate::generator::cands_of;
use crate::generator::gen_meta;
use crate::generator::rule_entries_from_slots;
use crate::generator::CandidateView;
use crate::generator::GeneratorView;
use crate::generator::build_rule_results;
use crate::generator::cands_view;
use crate::generator::group_candidates;
use crate::generator::slots_view;
use crate::generator::Candidate;
use crate::generator::GeneratorType;
use crate::lang::append_results;
use crate::lang::item_view;
use crate::lang::items_view;
use crate::lang::LangFile;
use crate::lang::LangItem;
use crate::meta::ns_compatible;
use crate::meta::strs_view;
use crate::lang::clone_results;
use crate::meta::GeneratorMeta;
use crate::rule::clone_rules;
use crate::rule::Rule;
use crate::lang::results_view;
use crate::lang::LangResult;
use crate::lang::LangResultView;
use crate::meta::MetaView;
use crate::rule::RuleView;

verus! {

/// Whether generator `g` contributes to the group named `name`: only
/// completed generators participate, in any group.
pub open spec fn in_group(g: GeneratorView, name: Seq<char>) -> bool {
    gen_meta(g).group == name && gen_meta(g).completed
}

/// Evaluation of a group at a given fuel.  `None` means the fuel ran
/// out: the dependency chain was deeper than allowed (a cycle).
pub open spec fn spec_group_results(
    gens: Seq<GeneratorView>,
    name: Seq<char>,
    fuel: nat,
) -> Option<Seq<LangResultView>>
    decreases fuel, 5int, 0int,
{
    if fuel == 0 {
        None
    } else {
        spec_group_from(gens, name, 0, fuel)
    }
}

/// The concatenated results of the group members among `gens[k..]`.
pub open spec fn spec_group_from(
    gens: Seq<GeneratorView>,
    name: Seq<char>,
    k: int,
    fuel: nat,
) -> Option<Seq<LangResultView>>
    decreases fuel, 4int, gens.len() - k,
{
    if k < 0 || k >= gens.len() {
        Some(Seq::empty())
    } else {
        let mine = if in_group(gens[k], name) {
            spec_gen_results(gens, k, fuel)
        } else {
            Some(Seq::empty())
        };
        let rest = spec_group_from(gens, name, k + 1, fuel);
        match (mine, rest) {
            (Some(m), Some(r)) => Some(m + r),
            _ => None,
        }
    }
}

/// The result list of generator `k`: a dictionary generator yields its
/// literal pairs as one result; a rule generator yields the expansion
/// of each of its rules, in order.
pub open spec fn spec_gen_results(gens: Seq<GeneratorView>, k: int, fuel: nat) -> Option<
    Seq<LangResultView>,
>
    decreases fuel, 3int, 0int,
{
    if k < 0 || k >= gens.len() {
        Some(Seq::empty())
    } else {
        match gens[k] {
            GeneratorView::Dict { meta, items } => Some(
                seq![LangResultView { meta, items }],
            ),
            GeneratorView::Rule { meta, rules } => spec_rules_from(gens, meta, rules, 0, fuel),
        }
    }
}

/// The concatenated expansions of `rules[j..]`.
pub open spec fn spec_rules_from(
    gens: Seq<GeneratorView>,
    meta: MetaView,
    rules: Seq<RuleView>,
    j: int,
    fuel: nat,
) -> Option<Seq<LangResultView>>
    decreases fuel, 2int, rules.len() - j,
{
    if j < 0 || j >= rules.len() {
        Some(Seq::empty())
    } else {
        let head = spec_rule_one(gens, meta, rules[j], fuel);
        let rest = spec_rules_from(gens, meta, rules, j + 1, fuel);
        match (head, rest) {
            (Some(h), Some(r)) => Some(h + r),
            _ => None,
        }
    }
}

/// The expansion of one rule: resolve each slot's group to a candidate
/// list; a rule with no slots, or with any empty candidate list,
/// produces nothing; otherwise every valid combination, in counter
/// order.
pub open spec fn spec_rule_one(
    gens: Seq<GeneratorView>,
    meta: MetaView,
    rule: RuleView,
    fuel: nat,
) -> Option<Seq<LangResultView>>
    decreases fuel, 1int, 0int,
{
    if rule.subs.len() == 0 {
        Some(Seq::empty())
    } else {
        match spec_slots_from(gens, rule.subs, 0, fuel) {
            None => None,
            Some(None) => Some(Seq::empty()),
            Some(Some(slots)) => Some(rule_entries_from_slots(rule, meta, slots)),
        }
    }
}

/// Resolve the candidate lists of the slots `subs[t..]`, left to right.
/// The outer `None` means the fuel ran out; `Some(None)` means some
/// slot's candidate list was empty (the rule short-circuits and later
/// slots are not resolved).
pub open spec fn spec_slots_from(
    gens: Seq<GeneratorView>,
    subs: Seq<Seq<char>>,
    t: int,
    fuel: nat,
) -> Option<Option<Seq<Seq<CandidateView>>>>
    decreases fuel, 0int, subs.len() - t,
{
    if t < 0 || t >= subs.len() {
        Some(Some(Seq::empty()))
    } else if fuel == 0 {
        None
    } else {
        match spec_group_results(gens, subs[t], (fuel - 1) as nat) {
            None => None,
            Some(entries) => {
                let cs = cands_of(entries);
                if cs.len() == 0 {
                    Some(None)
                } else {
                    match spec_slots_from(gens, subs, t + 1, fuel) {
                        None => None,
                        Some(None) => Some(None),
                        Some(Some(rest)) => Some(Some(seq![cs] + rest)),
                    }
                }
            },
        }
    }
}

/// A group's denotation: the result list that its evaluation settles on
/// once the fuel is sufficient.  Monotonicity makes this unique.
#[verifier::opaque]
pub open spec fn group_denotes(
    gens: Seq<GeneratorView>,
    name: Seq<char>,
    rs: Seq<LangResultView>,
) -> bool {
    exists|f: nat| spec_group_results(gens, name, f) == Some(rs)
}

/// A generator's denotation.
#[verifier::opaque]
pub open spec fn gen_denotes(gens: Seq<GeneratorView>, k: int, rs: Seq<LangResultView>) -> bool {
    exists|f: nat| spec_gen_results(gens, k, f) == Some(rs)
}

/// A witness that a group denotes `rs`.
pub proof fn lemma_group_denotes_intro(
    gens: Seq<GeneratorView>,
    name: Seq<char>,
    rs: Seq<LangResultView>,
    f: nat,
)
    requires
        spec_group_results(gens, name, f) == Some(rs),
    ensures
        group_denotes(gens, name, rs),
{
    reveal(group_denotes);
}

/// A fuel at which a denoted group evaluates.
pub proof fn lemma_group_denotes_elim(
    gens: Seq<GeneratorView>,
    name: Seq<char>,
    rs: Seq<LangResultView>,
) -> (f: nat)
    requires
        group_denotes(gens, name, rs),
    ensures
        spec_group_results(gens, name, f) == Some(rs),
{
    reveal(group_denotes);
    choose|f: nat| spec_group_results(gens, name, f) == Some(rs)
}

/// A witness that a generator denotes `rs`.
pub proof fn lemma_gen_denotes_intro(
    gens: Seq<GeneratorView>,
    k: int,
    rs: Seq<LangResultView>,
    f: nat,
)
    requires
        spec_gen_results(gens, k, f) == Some(rs),
    ensures
        gen_denotes(gens, k, rs),
{
    reveal(gen_denotes);
}

/// A fuel at which a denoted generator evaluates.
pub proof fn lemma_gen_denotes_elim(
    gens: Seq<GeneratorView>,
    k: int,
    rs: Seq<LangResultView>,
) -> (f: nat)
    requires
        gen_denotes(gens, k, rs),
    ensures
        spec_gen_results(gens, k, f) == Some(rs),
{
    reveal(gen_denotes);
    choose|f: nat| spec_gen_results(gens, k, f) == Some(rs)
}

/// Two denotations of the same generator are the same list.
pub proof fn lemma_gen_denotes_unique(
    gens: Seq<GeneratorView>,
    k: int,
    rs1: Seq<LangResultView>,
    rs2: Seq<LangResultView>,
)
    requires
        gen_denotes(gens, k, rs1),
        gen_denotes(gens, k, rs2),
    ensures
        rs1 == rs2,
{
    let f1 = lemma_gen_denotes_elim(gens, k, rs1);
    let f2 = lemma_gen_denotes_elim(gens, k, rs2);
    if f1 <= f2 {
        lemma_gen_mono(gens, k, f1, f2);
    } else {
        lemma_gen_mono(gens, k, f2, f1);
    }
}

/// Once a group evaluates at some fuel, every larger fuel gives the
/// same answer.
pub proof fn lemma_group_mono(gens: Seq<GeneratorView>, name: Seq<char>, f1: nat, f2: nat)
    requires
        f1 <= f2,
        spec_group_results(gens, name, f1) is Some,
    ensures
        spec_group_results(gens, name, f2) == spec_group_results(gens, name, f1),
    decreases f1, 5int, 0int,
{
    lemma_group_from_mono(gens, name, 0, f1, f2);
}

proof fn lemma_group_from_mono(
    gens: Seq<GeneratorView>,
    name: Seq<char>,
    k: int,
    f1: nat,
    f2: nat,
)
    requires
        f1 <= f2,
        spec_group_from(gens, name, k, f1) is Some,
    ensures
        spec_group_from(gens, name, k, f2) == spec_group_from(gens, name, k, f1),
    decreases f1, 4int, gens.len() - k,
{
    if k < 0 || k >= gens.len() {
    } else {
        if in_group(gens[k], name) {
            lemma_gen_mono(gens, k, f1, f2);
        }
        lemma_group_from_mono(gens, name, k + 1, f1, f2);
    }
}

/// Once a generator evaluates at some fuel, every larger fuel gives the
/// same answer.
pub proof fn lemma_gen_mono(gens: Seq<GeneratorView>, k: int, f1: nat, f2: nat)
    requires
        f1 <= f2,
        spec_gen_results(gens, k, f1) is Some,
    ensures
        spec_gen_results(gens, k, f2) == spec_gen_results(gens, k, f1),
    decreases f1, 3int, 0int,
{
    if 0 <= k < gens.len() {
        match gens[k] {
            GeneratorView::Dict { .. } => {},
            GeneratorView::Rule { meta, rules } => {
                lemma_rules_mono(gens, meta, rules, 0, f1, f2);
            },
        }
    }
}

proof fn lemma_rules_mono(
    gens: Seq<GeneratorView>,
    meta: MetaView,
    rules: Seq<RuleView>,
    j: int,
    f1: nat,
    f2: nat,
)
    requires
        f1 <= f2,
        spec_rules_from(gens, meta, rules, j, f1) is Some,
    ensures
        spec_rules_from(gens, meta, rules, j, f2) == spec_rules_from(gens, meta, rules, j, f1),
    decreases f1, 2int, rules.len() - j,
{
    if j < 0 || j >= rules.len() {
    } else {
        lemma_rule_one_mono(gens, meta, rules[j], f1, f2);
        lemma_rules_mono(gens, meta, rules, j + 1, f1, f2);
    }
}

proof fn lemma_rule_one_mono(
    gens: Seq<GeneratorView>,
    meta: MetaView,
    rule: RuleView,
    f1: nat,
    f2: nat,
)
    requires
        f1 <= f2,
        spec_rule_one(gens, meta, rule, f1) is Some,
    ensures
        spec_rule_one(gens, meta, rule, f2) == spec_rule_one(gens, meta, rule, f1),
    decreases f1, 1int, 0int,
{
    if rule.subs.len() > 0 {
        lemma_slots_mono(gens, rule.subs, 0, f1, f2);
    }
}

proof fn lemma_slots_mono(
    gens: Seq<GeneratorView>,
    subs: Seq<Seq<char>>,
    t: int,
    f1: nat,
    f2: nat,
)
    requires
        f1 <= f2,
        spec_slots_from(gens, subs, t, f1) is Some,
    ensures
        spec_slots_from(gens, subs, t, f2) == spec_slots_from(gens, subs, t, f1),
    decreases f1, 0int, subs.len() - t,
{
    if t < 0 || t >= subs.len() {
    } else {
        lemma_group_mono(gens, subs[t], (f1 - 1) as nat, (f2 - 1) as nat);
        if cands_of(spec_group_results(gens, subs[t], (f1 - 1) as nat).unwrap()).len() > 0 {
            lemma_slots_mono(gens, subs, t + 1, f1, f2);
        }
    }
}

/// Two denotations of the same group are the same list.
pub proof fn lemma_group_denotes_unique(
    gens: Seq<GeneratorView>,
    name: Seq<char>,
    rs1: Seq<LangResultView>,
    rs2: Seq<LangResultView>,
)
    requires
        group_denotes(gens, name, rs1),
        group_denotes(gens, name, rs2),
    ensures
        rs1 == rs2,
{
    let f1 = lemma_group_denotes_elim(gens, name, rs1);
    let f2 = lemma_group_denotes_elim(gens, name, rs2);
    if f1 <= f2 {
        lemma_group_mono(gens, name, f1, f2);
    } else {
        lemma_group_mono(gens, name, f2, f1);
    }
}

/// The one fatal evaluation error: the group dependency graph ran past
/// its depth bound, which only a cyclic configuration can do.
#[derive(Clone, Copy, Debug, PartialEq, Eq, Structural)]
pub enum GenError {
    Cycle,
}

/// The views of a list of generators.
pub open spec fn gens_view(gens: Seq<GeneratorType>) -> Seq<GeneratorView> {
    gens.map_values(|g: GeneratorType| g@)
}

/// How many generators have been evaluated so far.
pub open spec fn count_cached(s: Seq<Option<Vec<LangResult>>>) -> int
    decreases s.len(),
{
    if s.len() == 0 {
        0
    } else {
        count_cached(s.drop_last()) + if s.last() is Some {
            1int
        } else {
            0int
        }
    }
}

proof fn lemma_count_le_len(s: Seq<Option<Vec<LangResult>>>)
    ensures
        0 <= count_cached(s) <= s.len(),
    decreases s.len(),
{
    if s.len() > 0 {
        lemma_count_le_len(s.drop_last());
    }
}

proof fn lemma_count_update(s: Seq<Option<Vec<LangResult>>>, i: int, x: Option<Vec<LangResult>>)
    requires
        0 <= i < s.len(),
        s[i] is None,
        x is Some,
    ensures
        count_cached(s.update(i, x)) == count_cached(s) + 1,
    decreases s.len(),
{
    let u = s.update(i, x);
    if i == s.len() - 1 {
        assert(u.drop_last() =~= s.drop_last());
        assert(u.last() == x);
    } else {
        assert(u.drop_last() =~= s.drop_last().update(i, x));
        assert(u.last() == s.last());
        lemma_count_update(s.drop_last(), i, x);
    }
}

/// The first cached result list under a group name, if any.
pub open spec fn cache_lookup(cache: Seq<(String, Vec<LangResult>)>, name: Seq<char>) -> Option<
    Seq<LangResultView>,
>
    decreases cache.len(),
{
    if cache.len() == 0 {
        None
    } else if cache[0].0@ == name {
        Some(results_view(cache[0].1@))
    } else {
        cache_lookup(cache.drop_first(), name)
    }
}

proof fn lemma_cache_lookup_at(cache: Seq<(String, Vec<LangResult>)>, name: Seq<char>, j: int)
    requires
        0 <= j < cache.len(),
        cache[j].0@ == name,
        forall|u: int| 0 <= u < j ==> (#[trigger] cache[u]).0@ != name,
    ensures
        cache_lookup(cache, name) == Some(results_view(cache[j].1@)),
    decreases j,
{
    if j > 0 {
        let d = cache.drop_first();
        assert forall|u: int| 0 <= u < j - 1 implies (#[trigger] d[u]).0@ != name by {
            assert(d[u] == cache[u + 1]);
        }
        assert(d[j - 1] == cache[j]);
        lemma_cache_lookup_at(d, name, j - 1);
    }
}

proof fn lemma_cache_lookup_none(cache: Seq<(String, Vec<LangResult>)>, name: Seq<char>)
    requires
        forall|u: int| 0 <= u < cache.len() ==> (#[trigger] cache[u]).0@ != name,
    ensures
        cache_lookup(cache, name) is None,
    decreases cache.len(),
{
    if cache.len() > 0 {
        let d = cache.drop_first();
        assert forall|u: int| 0 <= u < d.len() implies (#[trigger] d[u]).0@ != name by {
            assert(d[u] == cache[u + 1]);
        }
        lemma_cache_lookup_none(d, name);
    }
}

proof fn lemma_cache_lookup_push(
    cache: Seq<(String, Vec<LangResult>)>,
    name: Seq<char>,
    e: (String, Vec<LangResult>),
)
    requires
        cache_lookup(cache, name) is None,
    ensures
        cache_lookup(cache.push(e), name) == if e.0@ == name {
            Some(results_view(e.1@))
        } else {
            None::<Seq<LangResultView>>
        },
    decreases cache.len(),
{
    let p = cache.push(e);
    if cache.len() == 0 {
        assert(p.drop_first() =~= cache);
    } else {
        assert(p[0] == cache[0]);
        assert(p.drop_first() =~= cache.drop_first().push(e));
        lemma_cache_lookup_push(cache.drop_first(), name, e);
    }
}

proof fn lemma_cache_lookup_other(
    cache: Seq<(String, Vec<LangResult>)>,
    name: Seq<char>,
    e: (String, Vec<LangResult>),
)
    requires
        cache_lookup(cache, name) is Some,
    ensures
        cache_lookup(cache.push(e), name) == cache_lookup(cache, name),
    decreases cache.len(),
{
    let p = cache.push(e);
    if cache.len() > 0 {
        assert(p[0] == cache[0]);
        assert(p.drop_first() =~= cache.drop_first().push(e));
        if cache[0].0@ != name {
            lemma_cache_lookup_other(cache.drop_first(), name, e);
        }
    }
}

/// Prepend already-computed results to the evaluation of the rest.
pub open spec fn opt_prepend(pre: Seq<LangResultView>, o: Option<Seq<LangResultView>>) -> Option<
    Seq<LangResultView>,
> {
    match o {
        None => None,
        Some(s) => Some(pre + s),
    }
}

/// Prepend already-resolved slots to the resolution of the rest.
pub open spec fn slots_prepend(
    pre: Seq<Seq<CandidateView>>,
    o: Option<Option<Seq<Seq<CandidateView>>>>,
) -> Option<Option<Seq<Seq<CandidateView>>>> {
    match o {
        None => None,
        Some(None) => Some(None),
        Some(Some(rest)) => Some(Some(pre + rest)),
    }
}

/// A rule's expansion once the fuel is at least `f0`.
pub open spec fn rule_denotes_from(
    gens: Seq<GeneratorView>,
    meta: MetaView,
    rule: RuleView,
    f0: nat,
    rs: Seq<LangResultView>,
) -> bool {
    forall|f: nat| f >= f0 ==> #[trigger] spec_rule_one(gens, meta, rule, f) == Some(rs)
}

/// A rule's denotation: what its expansion settles on.
#[verifier::opaque]
pub open spec fn rule_denotes(
    gens: Seq<GeneratorView>,
    meta: MetaView,
    rule: RuleView,
    rs: Seq<LangResultView>,
) -> bool {
    exists|f0: nat| rule_denotes_from(gens, meta, rule, f0, rs)
}

pub proof fn lemma_rule_denotes_intro(
    gens: Seq<GeneratorView>,
    meta: MetaView,
    rule: RuleView,
    f0: nat,
    rs: Seq<LangResultView>,
)
    requires
        rule_denotes_from(gens, meta, rule, f0, rs),
    ensures
        rule_denotes(gens, meta, rule, rs),
{
    reveal(rule_denotes);
}

pub proof fn lemma_rule_denotes_elim(
    gens: Seq<GeneratorView>,
    meta: MetaView,
    rule: RuleView,
    rs: Seq<LangResultView>,
) -> (f0: nat)
    requires
        rule_denotes(gens, meta, rule, rs),
    ensures
        rule_denotes_from(gens, meta, rule, f0, rs),
{
    reveal(rule_denotes);
    choose|f0: nat| rule_denotes_from(gens, meta, rule, f0, rs)
}

/// The group repository and owner of the two memoization caches: one
/// per group name, one per generator.  Both are populate-once: computed
/// on first miss, reused unchanged for the rest of the run.
pub struct Replacer {
    pub generators: Vec<GeneratorType>,
    pub group_cache: Vec<(String, Vec<LangResult>)>,
    pub gen_cache: Vec<Option<Vec<LangResult>>>,
    pub evals: usize,
}

impl Replacer {
    /// The views of the owned generators.
    pub open spec fn gens(self) -> Seq<GeneratorView> {
        gens_view(self.generators@)
    }

    /// Cache coherence: every cached list is the denotation of its
    /// group or generator, and `evals` counts the evaluated generators.
    pub open spec fn wf(self) -> bool {
        &&& self.gen_cache@.len() == self.generators@.len()
        &&& forall|i: int|
            0 <= i < self.gen_cache@.len() && (#[trigger] self.gen_cache@[i]) is Some
                ==> gen_denotes(self.gens(), i, results_view(self.gen_cache@[i].unwrap()@))
        &&& forall|j: int|
            0 <= j < self.group_cache@.len() ==> group_denotes(
                self.gens(),
                (#[trigger] self.group_cache@[j]).0@,
                results_view(self.group_cache@[j].1@),
            )
        &&& self.evals as int == count_cached(self.gen_cache@)
    }

    /// A fresh repository with empty caches.
    pub fn new(generators: Vec<GeneratorType>) -> (r: Replacer)
        ensures
            r.wf(),
            r.generators@ == generators@,
            r.group_cache@.len() == 0,
            r.evals == 0,
    {
        let n = generators.len();
        let mut gen_cache: Vec<Option<Vec<LangResult>>> = Vec::new();
        let mut i: usize = 0;
        while i < n
            invariant
                i <= n,
                gen_cache@.len() == i,
                count_cached(gen_cache@) == 0,
                forall|u: int| 0 <= u < i ==> (#[trigger] gen_cache@[u]) is None,
            decreases n - i,
        {
            let ghost before = gen_cache@;
            gen_cache.push(None);
            proof {
                assert(gen_cache@.drop_last() =~= before);
            }
            i += 1;
        }
        Replacer { generators, group_cache: Vec::new(), gen_cache, evals: 0 }
    }

    /// How many generators have been evaluated; memoization keeps this
    /// from growing when a cached group or generator is requested again.
    pub fn evaluation_count(&self) -> (r: usize)
        requires
            self.wf(),
        ensures
            r as int == count_cached(self.gen_cache@),
    {
        self.evals
    }
}

proof fn lemma_cache_lookup_denotes(
    cache: Seq<(String, Vec<LangResult>)>,
    gens: Seq<GeneratorView>,
    name: Seq<char>,
)
    requires
        forall|j: int|
            0 <= j < cache.len() ==> group_denotes(
                gens,
                (#[trigger] cache[j]).0@,
                results_view(cache[j].1@),
            ),
        cache_lookup(cache, name) is Some,
    ensures
        group_denotes(gens, name, cache_lookup(cache, name).unwrap()),
    decreases cache.len(),
{
    if cache[0].0@ == name {
        assert(group_denotes(gens, cache[0].0@, results_view(cache[0].1@)));
    } else {
        let d = cache.drop_first();
        assert forall|j: int| 0 <= j < d.len() implies group_denotes(
            gens,
            (#[trigger] d[j]).0@,
            results_view(d[j].1@),
        ) by {
            assert(d[j] == cache[j + 1]);
        }
        lemma_cache_lookup_denotes(d, gens, name);
    }
}

impl Replacer {
    /// Resolve one rule's slots through the repository and expand it.
    #[verifier::loop_isolation(false)]
    fn eval_rule(&mut self, meta: &GeneratorMeta, rule: &Rule, fuel: usize) -> (r: Result<
        Vec<LangResult>,
        GenError,
    >)
        requires
            old(self).wf(),
        ensures
            final(self).wf(),
            final(self).generators@ == old(self).generators@,
            r is Ok ==> rule_denotes(old(self).gens(), meta@, rule@, results_view(r.unwrap()@)),
            spec_rule_one(old(self).gens(), meta@, rule@, fuel as nat) is Some ==> r is Ok,
        decreases fuel, 1int,
    {
        let ghost gv = old(self).gens();
        let nsubs = rule.subs.len();
        if nsubs == 0 {
            let out: Vec<LangResult> = Vec::new();
            proof {
                assert(rule@.subs.len() == 0);
                assert(results_view(out@) =~= Seq::<LangResultView>::empty());
                assert forall|f: nat| f >= 0 implies #[trigger] spec_rule_one(gv, meta@, rule@, f)
                    == Some(results_view(out@)) by {}
                assert(rule_denotes_from(gv, meta@, rule@, 0, results_view(out@)));
                lemma_rule_denotes_intro(gv, meta@, rule@, 0, results_view(out@));
            }
            return Ok(out);
        }
        if fuel == 0 {
            proof {
                assert(spec_rule_one(gv, meta@, rule@, 0) is None) by {
                    assert(spec_slots_from(gv, rule@.subs, 0, 0) is None);
                }
            }
            return Err(GenError::Cycle);
        }
        let ghost subsv = rule@.subs;
        let mut slots: Vec<Vec<Candidate>> = Vec::new();
        let ghost mut fw: nat = 1;
        let mut t: usize = 0;
        proof {
            assert forall|f: nat| f >= fw implies #[trigger] spec_slots_from(gv, subsv, 0, f)
                == slots_prepend(slots_view(slots@), spec_slots_from(gv, subsv, 0, f)) by {
                let o = spec_slots_from(gv, subsv, 0, f);
                assert(slots_view(slots@) =~= Seq::<Seq<CandidateView>>::empty());
                match o {
                    Some(q) => {
                        match q {
                            Some(x) => {
                                assert(Seq::<Seq<CandidateView>>::empty() + x =~= x);
                            },
                            None => {},
                        }
                    },
                    None => {},
                }
            }
        }
        while t < nsubs
            invariant
                self.wf(),
                self.generators@ == old(self).generators@,
                gv == gens_view(self.generators@),
                t <= nsubs,
                nsubs == subsv.len(),
                nsubs == rule.subs@.len(),
                nsubs >= 1,
                subsv == rule@.subs,
                slots@.len() == t,
                fw >= 1,
                fuel >= 1,
                forall|u: int| 0 <= u < t ==> #[trigger] slots@[u]@.len() >= 1,
                forall|f: nat| f >= fw ==> #[trigger] spec_slots_from(gv, subsv, 0, f)
                    == slots_prepend(
                    slots_view(slots@),
                    spec_slots_from(gv, subsv, t as int, f),
                ),
                spec_rule_one(gv, meta@, rule@, fuel as nat) is Some ==> spec_slots_from(
                    gv,
                    subsv,
                    t as int,
                    fuel as nat,
                ) is Some,
            decreases nsubs - t,
        {
            let entries = match self.group_results_rec(&rule.subs[t], fuel - 1) {
                Ok(v) => v,
                Err(e) => {
                    proof {
                        if spec_rule_one(gv, meta@, rule@, fuel as nat) is Some {
                            assert(spec_slots_from(gv, subsv, t as int, fuel as nat) is Some);
                            assert(spec_group_results(
                                gv,
                                subsv[t as int],
                                (fuel - 1) as nat,
                            ) is Some);
                            assert(subsv[t as int] == rule.subs@[t as int]@);
                            assert(false);
                        }
                    }
                    return Err(e);
                },
            };
            let cands = group_candidates(&entries);
            let ghost ev = results_view(entries@);
            let ghost mut f_t: nat = 0;
            proof {
                assert(subsv[t as int] == rule.subs@[t as int]@);
                assert(group_denotes(gv, subsv[t as int], ev));
                f_t = lemma_group_denotes_elim(gv, subsv[t as int], ev);
            }
            let ghost fw2: nat = if fw >= f_t + 1 {
                fw
            } else {
                f_t + 1
            };
            if cands.len() == 0 {
                let out: Vec<LangResult> = Vec::new();
                proof {
                    assert(cands_of(ev).len() == 0) by {
                        assert(cands_view(cands@) == cands_of(ev));
                        assert(cands_view(cands@).len() == cands@.len());
                    }
                    assert forall|f: nat| f >= fw2 implies #[trigger] spec_rule_one(
                        gv,
                        meta@,
                        rule@,
                        f,
                    ) == Some(results_view(out@)) by {
                        assert(spec_slots_from(gv, subsv, 0, f) == slots_prepend(
                            slots_view(slots@),
                            spec_slots_from(gv, subsv, t as int, f),
                        ));
                        lemma_group_mono(gv, subsv[t as int], f_t, (f - 1) as nat);
                        assert(spec_group_results(gv, subsv[t as int], (f - 1) as nat) == Some(
                            ev,
                        ));
                        assert(spec_slots_from(gv, subsv, t as int, f) == Some(
                            None::<Seq<Seq<CandidateView>>>,
                        ));
                        assert(spec_slots_from(gv, subsv, 0, f) == Some(
                            None::<Seq<Seq<CandidateView>>>,
                        ));
                        assert(results_view(out@) =~= Seq::<LangResultView>::empty());
                    }
                    assert(rule_denotes_from(gv, meta@, rule@, fw2, results_view(out@)));
                    lemma_rule_denotes_intro(gv, meta@, rule@, fw2, results_view(out@));
                }
                return Ok(out);
            }
            let ghost pre = slots_view(slots@);
            slots.push(cands);
            proof {
                assert(slots_view(slots@) =~= pre.push(cands_of(ev))) by {
                    assert(cands_view(slots@[t as int]@) == cands_of(ev));
                }
                if spec_rule_one(gv, meta@, rule@, fuel as nat) is Some {
                    assert(spec_slots_from(gv, subsv, t as int, fuel as nat) is Some);
                    let x = spec_group_results(gv, subsv[t as int], (fuel - 1) as nat);
                    assert(x is Some);
                    if f_t <= fuel - 1 {
                        lemma_group_mono(gv, subsv[t as int], f_t, (fuel - 1) as nat);
                    } else {
                        lemma_group_mono(gv, subsv[t as int], (fuel - 1) as nat, f_t);
                    }
                    assert(x == Some(ev));
                    assert(cands_of(ev).len() > 0) by {
                        assert(cands_view(cands@) == cands_of(ev));
                        assert(cands_view(cands@).len() == cands@.len());
                    }
                    assert(spec_slots_from(gv, subsv, t as int + 1, fuel as nat) is Some);
                }
                assert forall|f: nat| f >= fw2 implies #[trigger] spec_slots_from(
                    gv,
                    subsv,
                    0,
                    f,
                ) == slots_prepend(
                    slots_view(slots@),
                    spec_slots_from(gv, subsv, t as int + 1, f),
                ) by {
                    assert(spec_slots_from(gv, subsv, 0, f) == slots_prepend(
                        pre,
                        spec_slots_from(gv, subsv, t as int, f),
                    ));
                    lemma_group_mono(gv, subsv[t as int], f_t, (f - 1) as nat);
                    assert(spec_group_results(gv, subsv[t as int], (f - 1) as nat) == Some(ev));
                    assert(cands_of(ev).len() > 0) by {
                        assert(cands_view(cands@) == cands_of(ev));
                        assert(cands_view(cands@).len() == cands@.len());
                    }
                    let o = spec_slots_from(gv, subsv, t as int + 1, f);
                    match o {
                        Some(q) => {
                            match q {
                                Some(rest) => {
                                    assert(spec_slots_from(gv, subsv, t as int, f) == Some(
                                        Some(seq![cands_of(ev)] + rest),
                                    ));
                                    assert(pre + (seq![cands_of(ev)] + rest) =~= pre.push(
                                        cands_of(ev),
                                    ) + rest);
                                },
                                None => {},
                            }
                        },
                        None => {},
                    }
                }
                fw = fw2;
            }
            t += 1;
        }
        let out = build_rule_results(rule, meta, &slots);
        proof {
            assert forall|f: nat| f >= fw implies #[trigger] spec_rule_one(gv, meta@, rule@, f)
                == Some(results_view(out@)) by {
                assert(spec_slots_from(gv, subsv, 0, f) == slots_prepend(
                    slots_view(slots@),
                    spec_slots_from(gv, subsv, nsubs as int, f),
                ));
                assert(spec_slots_from(gv, subsv, nsubs as int, f) == Some(
                    Some(Seq::<Seq<CandidateView>>::empty()),
                ));
                assert(slots_view(slots@) + Seq::<Seq<CandidateView>>::empty() =~= slots_view(
                    slots@,
                ));
                assert(spec_slots_from(gv, subsv, 0, f) == Some(Some(slots_view(slots@))));
            }
            assert(rule_denotes_from(gv, meta@, rule@, fw, results_view(out@)));
            lemma_rule_denotes_intro(gv, meta@, rule@, fw, results_view(out@));
        }
        Ok(out)
    }

    /// The result list of generator `k`, memoized by generator index.
    #[verifier::loop_isolation(false)]
    fn gen_results_rec(&mut self, k: usize, fuel: usize) -> (r: Result<Vec<LangResult>, GenError>)
        requires
            old(self).wf(),
            k < old(self).generators@.len(),
        ensures
            final(self).wf(),
            final(self).generators@ == old(self).generators@,
            r is Ok ==> gen_denotes(old(self).gens(), k as int, results_view(r.unwrap()@)),
            r is Ok ==> final(self).gen_cache@[k as int] is Some && results_view(
                final(self).gen_cache@[k as int].unwrap()@,
            ) == results_view(r.unwrap()@),
            old(self).gen_cache@[k as int] is Some ==> r is Ok && *final(self) == *old(self)
                && results_view(r.unwrap()@) == results_view(
                old(self).gen_cache@[k as int].unwrap()@,
            ),
            spec_gen_results(old(self).gens(), k as int, fuel as nat) is Some ==> r is Ok,
        decreases fuel, 2int,
    {
        let ghost gv = old(self).gens();
        match &self.gen_cache[k] {
            Some(v) => {
                let out = clone_results(v);
                proof {
                    assert(self.gen_cache@[k as int] is Some);
                    assert(v@ == self.gen_cache@[k as int].unwrap()@);
                    assert(results_view(out@) == results_view(
                        self.gen_cache@[k as int].unwrap()@,
                    ));
                }
                return Ok(out);
            },
            None => {},
        }
        proof {
            assert(self.gen_cache@[k as int] is None);
        }
        let mut computed: Vec<LangResult> = Vec::new();
        let mut rule_data: Option<(GeneratorMeta, Vec<Rule>)> = None;
        match &self.generators[k] {
            GeneratorType::Dict(d) => {
                computed = d.results();
                proof {
                    assert(gv[k as int] == self.generators@[k as int]@);
                    assert(spec_gen_results(gv, k as int, 0) == Some(results_view(computed@)));
                    lemma_gen_denotes_intro(gv, k as int, results_view(computed@), 0);
                }
            },
            GeneratorType::Rule(rg) => {
                rule_data = Some((rg.meta.clone(), clone_rules(&rg.rules)));
            },
        }
        if let Some((rmeta, rrules)) = rule_data {
            let ghost metav = rmeta@;
            let ghost rulesv = rrules@.map_values(|x: Rule| x@);
            proof {
                assert(gv[k as int] == self.generators@[k as int]@);
                assert(gv[k as int] == (GeneratorView::Rule { meta: metav, rules: rulesv }));
            }
            let mut acc: Vec<LangResult> = Vec::new();
            let ghost mut fw: nat = 0;
            let mut j: usize = 0;
            proof {
                assert forall|f: nat| f >= fw implies #[trigger] spec_rules_from(
                    gv,
                    metav,
                    rulesv,
                    0,
                    f,
                ) == opt_prepend(
                    results_view(acc@),
                    spec_rules_from(gv, metav, rulesv, 0, f),
                ) by {
                    let o = spec_rules_from(gv, metav, rulesv, 0, f);
                    assert(results_view(acc@) =~= Seq::<LangResultView>::empty());
                    match o {
                        Some(x) => {
                            assert(Seq::<LangResultView>::empty() + x =~= x);
                        },
                        None => {},
                    }
                }
            }
            while j < rrules.len()
                invariant
                    self.wf(),
                    self.generators@ == old(self).generators@,
                    gv == gens_view(self.generators@),
                    j <= rrules@.len(),
                    rulesv == rrules@.map_values(|x: Rule| x@),
                    rulesv.len() == rrules@.len(),
                    metav == rmeta@,
                    forall|f: nat| f >= fw ==> #[trigger] spec_rules_from(gv, metav, rulesv, 0, f)
                        == opt_prepend(
                        results_view(acc@),
                        spec_rules_from(gv, metav, rulesv, j as int, f),
                    ),
                decreases rrules@.len() - j,
            {
                let rs = match self.eval_rule(&rmeta, &rrules[j], fuel) {
                    Ok(v) => v,
                    Err(e) => {
                        proof {
                            if spec_gen_results(gv, k as int, fuel as nat) is Some {
                                assert(gv[k as int] == (GeneratorView::Rule {
                                    meta: metav,
                                    rules: rulesv,
                                }));
                                assert(spec_rules_from(gv, metav, rulesv, 0, fuel as nat)
                                    is Some);
                                lemma_rules_from_member(
                                    gv,
                                    metav,
                                    rulesv,
                                    0,
                                    j as int,
                                    fuel as nat,
                                );
                                assert(rulesv[j as int] == rrules@[j as int]@);
                                assert(false);
                            }
                        }
                        return Err(e);
                    },
                };
                let ghost rsv = results_view(rs@);
                proof {
                    assert(rulesv[j as int] == rrules@[j as int]@);
                }
                let ghost mut f_j: nat = 0;
                proof {
                    assert(rule_denotes(gv, metav, rulesv[j as int], rsv));
                    f_j = lemma_rule_denotes_elim(gv, metav, rulesv[j as int], rsv);
                }
                let ghost fw2: nat = if fw >= f_j {
                    fw
                } else {
                    f_j
                };
                let ghost acc0 = results_view(acc@);
                append_results(&mut acc, &rs);
                proof {
                    assert forall|f: nat| f >= fw2 implies #[trigger] spec_rules_from(
                        gv,
                        metav,
                        rulesv,
                        0,
                        f,
                    ) == opt_prepend(
                        results_view(acc@),
                        spec_rules_from(gv, metav, rulesv, j as int + 1, f),
                    ) by {
                        assert(spec_rules_from(gv, metav, rulesv, 0, f) == opt_prepend(
                            acc0,
                            spec_rules_from(gv, metav, rulesv, j as int, f),
                        ));
                        assert(spec_rule_one(gv, metav, rulesv[j as int], f) == Some(rsv));
                        let o = spec_rules_from(gv, metav, rulesv, j as int + 1, f);
                        match o {
                            Some(rest) => {
                                assert(spec_rules_from(gv, metav, rulesv, j as int, f) == Some(
                                    rsv + rest,
                                ));
                                assert(acc0 + (rsv + rest) =~= (acc0 + rsv) + rest);
                            },
                            None => {},
                        }
                    }
                    fw = fw2;
                }
                j += 1;
            }
            proof {
                assert(spec_rules_from(gv, metav, rulesv, rulesv.len() as int, fw) == Some(
                    Seq::<LangResultView>::empty(),
                ));
                assert(spec_rules_from(gv, metav, rulesv, 0, fw) == opt_prepend(
                    results_view(acc@),
                    spec_rules_from(gv, metav, rulesv, rulesv.len() as int, fw),
                ));
                assert(results_view(acc@) + Seq::<LangResultView>::empty() =~= results_view(
                    acc@,
                ));
                assert(spec_gen_results(gv, k as int, fw) == Some(results_view(acc@)));
                lemma_gen_denotes_intro(gv, k as int, results_view(acc@), fw);
            }
            computed = acc;
        }
        // a recursive call may have filled this generator's slot already;
        // populate-once means the slot is only written while still vacant
        let mut vacant = false;
        match &self.gen_cache[k] {
            None => {
                vacant = true;
            },
            Some(_) => {},
        }
        if vacant {
            let stored = clone_results(&computed);
            let ghost cache0 = self.gen_cache@;
            let cache_len = self.gen_cache.len();
            self.gen_cache.set(k, Some(stored));
            proof {
                assert(self.gen_cache@ == cache0.update(k as int, self.gen_cache@[k as int]));
                lemma_count_update(cache0, k as int, self.gen_cache@[k as int]);
                lemma_count_le_len(self.gen_cache@);
                assert(count_cached(self.gen_cache@) <= cache_len);
                assert(self.evals as int == count_cached(self.gen_cache@) - 1);
            }
            self.evals = self.evals + 1;
            proof {
                assert forall|i: int|
                    0 <= i < self.gen_cache@.len() && (#[trigger] self.gen_cache@[i]) is Some
                        implies gen_denotes(
                    self.gens(),
                    i,
                    results_view(self.gen_cache@[i].unwrap()@),
                ) by {
                    if i != k as int {
                        assert(self.gen_cache@[i] == cache0[i]);
                    }
                }
            }
        } else {
            proof {
                assert(self.gen_cache@[k as int] is Some);
                assert(gen_denotes(
                    self.gens(),
                    k as int,
                    results_view(self.gen_cache@[k as int].unwrap()@),
                ));
                lemma_gen_denotes_unique(
                    gv,
                    k as int,
                    results_view(self.gen_cache@[k as int].unwrap()@),
                    results_view(computed@),
                );
            }
        }
        Ok(computed)
    }

    /// The concatenated results of every completed generator in the
    /// group, memoized by group name.  A repeated request returns the
    /// cached list unchanged, without evaluating any generator again.
    #[verifier::loop_isolation(false)]
    fn group_results_rec(&mut self, name: &String, fuel: usize) -> (r: Result<
        Vec<LangResult>,
        GenError,
    >)
        requires
            old(self).wf(),
        ensures
            final(self).wf(),
            final(self).generators@ == old(self).generators@,
            r is Ok ==> group_denotes(old(self).gens(), name@, results_view(r.unwrap()@)),
            r is Ok ==> cache_lookup(final(self).group_cache@, name@) == Some(
                results_view(r.unwrap()@),
            ),
            cache_lookup(old(self).group_cache@, name@) is Some ==> r is Ok && *final(self) == *old(self) && Some(results_view(r.unwrap()@)) == cache_lookup(
                old(self).group_cache@,
                name@,
            ),
            spec_group_results(old(self).gens(), name@, fuel as nat) is Some ==> r is Ok,
        decreases fuel, 3int,
    {
        let ghost gv = old(self).gens();
        let n = self.group_cache.len();
        let mut j: usize = 0;
        while j < n
            invariant
                *self == *old(self),
                j <= n,
                n == self.group_cache@.len(),
                forall|u: int| 0 <= u < j ==> (#[trigger] self.group_cache@[u]).0@ != name@,
            decreases n - j,
        {
            if self.group_cache[j].0.eq(name) {
                let out = clone_results(&self.group_cache[j].1);
                proof {
                    lemma_cache_lookup_at(self.group_cache@, name@, j as int);
                    lemma_cache_lookup_denotes(self.group_cache@, gv, name@);
                }
                return Ok(out);
            }
            j += 1;
        }
        proof {
            lemma_cache_lookup_none(self.group_cache@, name@);
        }
        let count = self.generators.len();
        let mut acc: Vec<LangResult> = Vec::new();
        let ghost mut fw: nat = 1;
        let mut i: usize = 0;
        proof {
            assert forall|f: nat| f >= fw implies #[trigger] spec_group_from(gv, name@, 0, f)
                == opt_prepend(results_view(acc@), spec_group_from(gv, name@, 0, f)) by {
                let o = spec_group_from(gv, name@, 0, f);
                assert(results_view(acc@) =~= Seq::<LangResultView>::empty());
                match o {
                    Some(x) => {
                        assert(Seq::<LangResultView>::empty() + x =~= x);
                    },
                    None => {},
                }
            }
        }
        while i < count
            invariant
                self.wf(),
                self.generators@ == old(self).generators@,
                gv == gens_view(self.generators@),
                i <= count,
                count == self.generators@.len(),
                fw >= 1,
                forall|f: nat| f >= fw ==> #[trigger] spec_group_from(gv, name@, 0, f)
                    == opt_prepend(
                    results_view(acc@),
                    spec_group_from(gv, name@, i as int, f),
                ),
            decreases count - i,
        {
            let member = self.generators[i].meta().completed && self.generators[i].meta().group.eq(
                name,
            );
            proof {
                assert(gv[i as int] == self.generators@[i as int]@);
                assert(member == in_group(gv[i as int], name@));
            }
            if member {
                let rs = match self.gen_results_rec(i, fuel) {
                    Ok(v) => v,
                    Err(e) => {
                        proof {
                            if spec_group_results(gv, name@, fuel as nat) is Some {
                                assert(spec_group_from(gv, name@, 0, fuel as nat) is Some);
                                lemma_group_from_member(
                                    gv,
                                    name@,
                                    0,
                                    i as int,
                                    fuel as nat,
                                );
                                assert(false);
                            }
                        }
                        return Err(e);
                    },
                };
                let ghost rsv = results_view(rs@);
                let ghost mut f_i: nat = 0;
                proof {
                    assert(gen_denotes(gv, i as int, rsv));
                    f_i = lemma_gen_denotes_elim(gv, i as int, rsv);
                }
                let ghost fw2: nat = if fw >= f_i {
                    fw
                } else {
                    f_i
                };
                let ghost acc0 = results_view(acc@);
                append_results(&mut acc, &rs);
                proof {
                    assert forall|f: nat| f >= fw2 implies #[trigger] spec_group_from(
                        gv,
                        name@,
                        0,
                        f,
                    ) == opt_prepend(
                        results_view(acc@),
                        spec_group_from(gv, name@, i as int + 1, f),
                    ) by {
                        assert(spec_group_from(gv, name@, 0, f) == opt_prepend(
                            acc0,
                            spec_group_from(gv, name@, i as int, f),
                        ));
                        lemma_gen_mono(gv, i as int, f_i, f);
                        assert(spec_gen_results(gv, i as int, f) == Some(rsv));
                        let o = spec_group_from(gv, name@, i as int + 1, f);
                        match o {
                            Some(rest) => {
                                assert(spec_group_from(gv, name@, i as int, f) == Some(
                                    rsv + rest,
                                ));
                                assert(acc0 + (rsv + rest) =~= (acc0 + rsv) + rest);
                            },
                            None => {},
                        }
                    }
                    fw = fw2;
                }
            } else {
                proof {
                    assert forall|f: nat| f >= fw implies #[trigger] spec_group_from(
                        gv,
                        name@,
                        0,
                        f,
                    ) == opt_prepend(
                        results_view(acc@),
                        spec_group_from(gv, name@, i as int + 1, f),
                    ) by {
                        assert(spec_group_from(gv, name@, 0, f) == opt_prepend(
                            results_view(acc@),
                            spec_group_from(gv, name@, i as int, f),
                        ));
                        let o = spec_group_from(gv, name@, i as int + 1, f);
                        match o {
                            Some(rest) => {
                                assert(spec_group_from(gv, name@, i as int, f) == Some(
                                    Seq::<LangResultView>::empty() + rest,
                                ));
                                assert(Seq::<LangResultView>::empty() + rest =~= rest);
                                assert(results_view(acc@) + (
                                Seq::<LangResultView>::empty() + rest) =~= results_view(acc@)
                                    + rest);
                            },
                            None => {},
                        }
                    }
                }
            }
            i += 1;
        }
        proof {
            assert(spec_group_from(gv, name@, count as int, fw) == Some(
                Seq::<LangResultView>::empty(),
            ));
            assert(spec_group_from(gv, name@, 0, fw) == opt_prepend(
                results_view(acc@),
                spec_group_from(gv, name@, count as int, fw),
            ));
            assert(results_view(acc@) + Seq::<LangResultView>::empty() =~= results_view(acc@));
            assert(spec_group_results(gv, name@, fw) == Some(results_view(acc@)));
            lemma_group_denotes_intro(gv, name@, results_view(acc@), fw);
        }
        let keep = clone_results(&acc);
        let entry_name = name.clone();
        let ghost pre_cache = self.group_cache@;
        let ghost accv = results_view(acc@);
        self.group_cache.push((entry_name, keep));
        proof {
            let e = self.group_cache@[pre_cache.len() as int];
            assert(self.group_cache@ =~= pre_cache.push(e));
            assert(e.0@ == name@);
            assert(results_view(e.1@) == accv);
            assert forall|u: int|
                0 <= u < self.group_cache@.len() implies group_denotes(
                self.gens(),
                (#[trigger] self.group_cache@[u]).0@,
                results_view(self.group_cache@[u].1@),
            ) by {
                if u < pre_cache.len() {
                    assert(self.group_cache@[u] == pre_cache[u]);
                }
            }
            match cache_lookup(pre_cache, name@) {
                None => {
                    lemma_cache_lookup_push(pre_cache, name@, e);
                },
                Some(v) => {
                    lemma_cache_lookup_other(pre_cache, name@, e);
                    lemma_cache_lookup_denotes(pre_cache, gv, name@);
                    lemma_group_denotes_unique(gv, name@, v, accv);
                },
            }
        }
        Ok(acc)
    }
}

/// The generated dictionary source: the concatenated results of every
/// completed generator among `gens[i..]`.
pub open spec fn spec_generate_from(gens: Seq<GeneratorView>, i: int, fuel: nat) -> Option<
    Seq<LangResultView>,
>
    decreases fuel, 4int, gens.len() - i,
{
    if i < 0 || i >= gens.len() {
        Some(Seq::empty())
    } else {
        let mine = if gen_meta(gens[i]).completed {
            spec_gen_results(gens, i, fuel)
        } else {
            Some(Seq::empty())
        };
        let rest = spec_generate_from(gens, i + 1, fuel);
        match (mine, rest) {
            (Some(m), Some(r)) => Some(m + r),
            _ => None,
        }
    }
}

/// Inside a generation pass that evaluates, every completed generator
/// evaluates.
proof fn lemma_generate_from_member(gens: Seq<GeneratorView>, s: int, k: int, f: nat)
    requires
        spec_generate_from(gens, s, f) is Some,
        0 <= s <= k < gens.len(),
        gen_meta(gens[k]).completed,
    ensures
        spec_gen_results(gens, k, f) is Some,
    decreases k - s,
{
    if s < k {
        lemma_generate_from_member(gens, s + 1, k, f);
    }
}

/// What the top-level generation pass settles on.
#[verifier::opaque]
pub open spec fn generate_denotes(gens: Seq<GeneratorView>, rs: Seq<LangResultView>) -> bool {
    exists|f: nat| spec_generate_from(gens, 0, f) == Some(rs)
}

pub proof fn lemma_generate_denotes_intro(
    gens: Seq<GeneratorView>,
    rs: Seq<LangResultView>,
    f: nat,
)
    requires
        spec_generate_from(gens, 0, f) == Some(rs),
    ensures
        generate_denotes(gens, rs),
{
    reveal(generate_denotes);
}

/// The generated dictionary: the flattening of what the generation pass
/// settles on, one entry per generated pair, tagged with its metadata.
#[verifier::opaque]
pub open spec fn dict_denotes(gens: Seq<GeneratorView>, d: Seq<CandidateView>) -> bool {
    exists|rs: Seq<LangResultView>| #[trigger] generate_denotes(gens, rs) && d == cands_of(rs)
}

pub proof fn lemma_dict_denotes_intro(
    gens: Seq<GeneratorView>,
    rs: Seq<LangResultView>,
    d: Seq<CandidateView>,
)
    requires
        generate_denotes(gens, rs),
        d == cands_of(rs),
    ensures
        dict_denotes(gens, d),
{
    reveal(dict_denotes);
}

impl Replacer {
    /// The depth bound on group evaluation: one more than the number of
    /// generators, within which every acyclic configuration evaluates.
    pub open spec fn spec_fuel(self) -> nat {
        if self.generators@.len() < usize::MAX {
            (self.generators@.len() + 1) as nat
        } else {
            self.generators@.len()
        }
    }

    fn fuel(&self) -> (r: usize)
        ensures
            r >= 1,
            r as nat == self.spec_fuel(),
    {
        let n = self.generators.len();
        if n < usize::MAX {
            n + 1
        } else {
            n
        }
    }

    /// Resolve a group name to the concatenated results of its completed
    /// generators, memoized per group: a second request for the same
    /// group returns the cached list unchanged and evaluates nothing.
    pub fn get_group_results(&mut self, group: &String) -> (r: Result<Vec<LangResult>, GenError>)
        requires
            old(self).wf(),
        ensures
            final(self).wf(),
            final(self).generators@ == old(self).generators@,
            r is Ok ==> group_denotes(old(self).gens(), group@, results_view(r.unwrap()@)),
            r is Ok ==> cache_lookup(final(self).group_cache@, group@) == Some(
                results_view(r.unwrap()@),
            ),
            cache_lookup(old(self).group_cache@, group@) is Some ==> r is Ok && *final(self)
                == *old(self) && Some(results_view(r.unwrap()@)) == cache_lookup(
                old(self).group_cache@,
                group@,
            ),
            spec_group_results(old(self).gens(), group@, old(self).spec_fuel()) is Some ==> r
                is Ok,
    {
        let fuel = self.fuel();
        self.group_results_rec(group, fuel)
    }

    /// The result list of one generator, memoized per generator: a
    /// second request returns the cached list unchanged.
    pub fn get_generator_results(&mut self, k: usize) -> (r: Result<Vec<LangResult>, GenError>)
        requires
            old(self).wf(),
            k < old(self).generators@.len(),
        ensures
            final(self).wf(),
            final(self).generators@ == old(self).generators@,
            r is Ok ==> gen_denotes(old(self).gens(), k as int, results_view(r.unwrap()@)),
            old(self).gen_cache@[k as int] is Some ==> r is Ok && *final(self) == *old(self)
                && results_view(r.unwrap()@) == results_view(
                old(self).gen_cache@[k as int].unwrap()@,
            ),
            spec_gen_results(old(self).gens(), k as int, old(self).spec_fuel()) is Some ==> r
                is Ok,
    {
        let fuel = self.fuel();
        self.gen_results_rec(k, fuel)
    }

    /// The top-level generation pass: the concatenated results of every
    /// completed generator, in declaration order.
    #[verifier::loop_isolation(false)]
    pub fn generate(&mut self) -> (r: Result<Vec<LangResult>, GenError>)
        requires
            old(self).wf(),
        ensures
            final(self).wf(),
            final(self).generators@ == old(self).generators@,
            r is Ok ==> generate_denotes(old(self).gens(), results_view(r.unwrap()@)),
            spec_generate_from(old(self).gens(), 0, old(self).spec_fuel()) is Some ==> r is Ok,
    {
        let ghost gv = old(self).gens();
        let fuel = self.fuel();
        let count = self.generators.len();
        let mut acc: Vec<LangResult> = Vec::new();
        let ghost mut fw: nat = 1;
        let mut i: usize = 0;
        proof {
            assert forall|f: nat| f >= fw implies #[trigger] spec_generate_from(gv, 0, f)
                == opt_prepend(results_view(acc@), spec_generate_from(gv, 0, f)) by {
                let o = spec_generate_from(gv, 0, f);
                assert(results_view(acc@) =~= Seq::<LangResultView>::empty());
                match o {
                    Some(x) => {
                        assert(Seq::<LangResultView>::empty() + x =~= x);
                    },
                    None => {},
                }
            }
        }
        while i < count
            invariant
                self.wf(),
                self.generators@ == old(self).generators@,
                gv == gens_view(self.generators@),
                i <= count,
                count == self.generators@.len(),
                forall|f: nat| f >= fw ==> #[trigger] spec_generate_from(gv, 0, f)
                    == opt_prepend(
                    results_view(acc@),
                    spec_generate_from(gv, i as int, f),
                ),
            decreases count - i,
        {
            let member = self.generators[i].meta().completed;
            proof {
                assert(gv[i as int] == self.generators@[i as int]@);
                assert(member == gen_meta(gv[i as int]).completed);
            }
            if member {
                let rs = match self.gen_results_rec(i, fuel) {
                    Ok(v) => v,
                    Err(e) => {
                        proof {
                            if spec_generate_from(gv, 0, fuel as nat) is Some {
                                lemma_generate_from_member(gv, 0, i as int, fuel as nat);
                                assert(false);
                            }
                        }
                        return Err(e);
                    },
                };
                let ghost rsv = results_view(rs@);
                let ghost mut f_i: nat = 0;
                proof {
                    assert(gen_denotes(gv, i as int, rsv));
                    f_i = lemma_gen_denotes_elim(gv, i as int, rsv);
                }
                let ghost fw2: nat = if fw >= f_i {
                    fw
                } else {
                    f_i
                };
                let ghost acc0 = results_view(acc@);
                append_results(&mut acc, &rs);
                proof {
                    assert forall|f: nat| f >= fw2 implies #[trigger] spec_generate_from(
                        gv,
                        0,
                        f,
                    ) == opt_prepend(
                        results_view(acc@),
                        spec_generate_from(gv, i as int + 1, f),
                    ) by {
                        assert(spec_generate_from(gv, 0, f) == opt_prepend(
                            acc0,
                            spec_generate_from(gv, i as int, f),
                        ));
                        lemma_gen_mono(gv, i as int, f_i, f);
                        assert(spec_gen_results(gv, i as int, f) == Some(rsv));
                        let o = spec_generate_from(gv, i as int + 1, f);
                        match o {
                            Some(rest) => {
                                assert(spec_generate_from(gv, i as int, f) == Some(rsv + rest));
                                assert(acc0 + (rsv + rest) =~= (acc0 + rsv) + rest);
                            },
                            None => {},
                        }
                    }
                    fw = fw2;
                }
            } else {
                proof {
                    assert forall|f: nat| f >= fw implies #[trigger] spec_generate_from(
                        gv,
                        0,
                        f,
                    ) == opt_prepend(
                        results_view(acc@),
                        spec_generate_from(gv, i as int + 1, f),
                    ) by {
                        assert(spec_generate_from(gv, 0, f) == opt_prepend(
                            results_view(acc@),
                            spec_generate_from(gv, i as int, f),
                        ));
                        let o = spec_generate_from(gv, i as int + 1, f);
                        match o {
                            Some(rest) => {
                                assert(spec_generate_from(gv, i as int, f) == Some(
                                    Seq::<LangResultView>::empty() + rest,
                                ));
                                assert(Seq::<LangResultView>::empty() + rest =~= rest);
                                assert(results_view(acc@) + (
                                Seq::<LangResultView>::empty() + rest) =~= results_view(acc@)
                                    + rest);
                            },
                            None => {},
                        }
                    }
                }
            }
            i += 1;
        }
        proof {
            assert(spec_generate_from(gv, count as int, fw) == Some(
                Seq::<LangResultView>::empty(),
            ));
            assert(spec_generate_from(gv, 0, fw) == opt_prepend(
                results_view(acc@),
                spec_generate_from(gv, count as int, fw),
            ));
            assert(results_view(acc@) + Seq::<LangResultView>::empty() =~= results_view(acc@));
            lemma_generate_denotes_intro(gv, results_view(acc@), fw);
        }
        Ok(acc)
    }

    /// The generated dictionary: every completed generator's results
    /// flattened into (metadata, source text, target text) entries.
    pub fn generate_map(&mut self) -> (r: Result<Vec<Candidate>, GenError>)
        requires
            old(self).wf(),
        ensures
            final(self).wf(),
            final(self).generators@ == old(self).generators@,
            r is Ok ==> dict_denotes(old(self).gens(), cands_view(r.unwrap()@)),
            spec_generate_from(old(self).gens(), 0, old(self).spec_fuel()) is Some ==> r is Ok,
    {
        let ghost gv = old(self).gens();
        let rs = match self.generate() {
            Ok(v) => v,
            Err(e) => {
                return Err(e);
            },
        };
        let d = group_candidates(&rs);
        proof {
            lemma_dict_denotes_intro(gv, results_view(rs@), cands_view(d@));
        }
        Ok(d)
    }
}

/// A generated-dictionary entry can satisfy a lookup scoped to `key`
/// iff its metadata is valid and its namespace may combine with the
/// key (extension sets union during combination and never gate it).
pub open spec fn meta_matches(m: MetaView, key: Seq<char>) -> bool {
    m.group.len() > 0 && ns_compatible(m.namespace, key)
}

/// Whether one dictionary entry satisfies a source line.
pub open spec fn cand_matches(c: CandidateView, key: Seq<char>, src: Seq<char>) -> bool {
    c.source == src && meta_matches(c.meta, key)
}

/// The dictionary entry a source line resolves to: the last entry whose
/// source text equals the line's text and whose metadata matches.
pub open spec fn dict_hit(dict: Seq<CandidateView>, key: Seq<char>, src: Seq<char>) -> Option<int>
    decreases dict.len(),
{
    if dict.len() == 0 {
        None
    } else if cand_matches(dict.last(), key, src) {
        Some(dict.len() - 1)
    } else {
        dict_hit(dict.drop_last(), key, src)
    }
}

/// The first fallback entry under a key.
pub open spec fn fb_lookup(fb: Seq<(Seq<char>, Seq<char>)>, key: Seq<char>) -> Option<int>
    decreases fb.len(),
{
    if fb.len() == 0 {
        None
    } else if fb[0].0 == key {
        Some(0)
    } else {
        match fb_lookup(fb.drop_first(), key) {
            None => None,
            Some(j) => Some(j + 1),
        }
    }
}

proof fn lemma_fb_at(fb: Seq<(Seq<char>, Seq<char>)>, key: Seq<char>, j: int)
    requires
        0 <= j < fb.len(),
        fb[j].0 == key,
        forall|u: int| 0 <= u < j ==> (#[trigger] fb[u]).0 != key,
    ensures
        fb_lookup(fb, key) == Some(j),
    decreases j,
{
    if j > 0 {
        let d = fb.drop_first();
        assert forall|u: int| 0 <= u < j - 1 implies (#[trigger] d[u]).0 != key by {
            assert(d[u] == fb[u + 1]);
        }
        assert(d[j - 1] == fb[j]);
        lemma_fb_at(d, key, j - 1);
    }
}

proof fn lemma_fb_none(fb: Seq<(Seq<char>, Seq<char>)>, key: Seq<char>)
    requires
        forall|u: int| 0 <= u < fb.len() ==> (#[trigger] fb[u]).0 != key,
    ensures
        fb_lookup(fb, key) is None,
    decreases fb.len(),
{
    if fb.len() > 0 {
        let d = fb.drop_first();
        assert forall|u: int| 0 <= u < d.len() implies (#[trigger] d[u]).0 != key by {
            assert(d[u] == fb[u + 1]);
        }
        lemma_fb_none(d, key);
    }
}

/// The key of any fallback entry is found by the lookup.
proof fn lemma_fb_member(fb: Seq<(Seq<char>, Seq<char>)>, j: int)
    requires
        0 <= j < fb.len(),
    ensures
        fb_lookup(fb, fb[j].0) is Some,
    decreases j,
{
    if fb[0].0 != fb[j].0 {
        let d = fb.drop_first();
        assert(d[j - 1] == fb[j]);
        lemma_fb_member(d, j - 1);
    }
}

/// Resolution: a source line is resolved iff the dictionary or the
/// fallback satisfies it.
pub open spec fn entry_resolved(
    dict: Seq<CandidateView>,
    fb: Seq<(Seq<char>, Seq<char>)>,
    has_fb: bool,
    key: Seq<char>,
    src: Seq<char>,
) -> bool {
    dict_hit(dict, key, src) is Some || (has_fb && fb_lookup(fb, key) is Some)
}

/// The conflict policy: the dictionary wins over the fallback, which
/// wins over leaving the original text unchanged.
pub open spec fn chosen_text(
    dict: Seq<CandidateView>,
    fb: Seq<(Seq<char>, Seq<char>)>,
    has_fb: bool,
    key: Seq<char>,
    src: Seq<char>,
) -> Seq<char> {
    if dict_hit(dict, key, src) is Some {
        dict[dict_hit(dict, key, src).unwrap()].target
    } else if has_fb && fb_lookup(fb, key) is Some {
        fb[fb_lookup(fb, key).unwrap()].1
    } else {
        src
    }
}

/// A fallback key has become redundant: some source line with that key
/// is satisfied by the generated dictionary.
pub open spec fn fb_removed(
    dict: Seq<CandidateView>,
    srcv: Seq<(Seq<char>, Seq<char>)>,
    k: Seq<char>,
) -> bool {
    exists|i: int|
        0 <= i < srcv.len() && (#[trigger] srcv[i]).0 == k && dict_hit(dict, k, srcv[i].1) is Some
}

/// The lines left unresolved.
pub open spec fn unresolved_pred(
    dict: Seq<CandidateView>,
    fb: Seq<(Seq<char>, Seq<char>)>,
    has_fb: bool,
) -> spec_fn((Seq<char>, Seq<char>)) -> bool {
    |p: (Seq<char>, Seq<char>)| !entry_resolved(dict, fb, has_fb, p.0, p.1)
}

/// The fallback entries kept by pruning.
pub open spec fn kept_pred(
    dict: Seq<CandidateView>,
    srcv: Seq<(Seq<char>, Seq<char>)>,
) -> spec_fn((Seq<char>, Seq<char>)) -> bool {
    |p: (Seq<char>, Seq<char>)| !fb_removed(dict, srcv, p.0)
}

/// Everything the merge pass promises, given the generated dictionary.
pub open spec fn merge_post(
    dict: Seq<CandidateView>,
    srcv: Seq<(Seq<char>, Seq<char>)>,
    fbv: Seq<(Seq<char>, Seq<char>)>,
    has_fb: bool,
    prune: bool,
    mainv: Seq<(Seq<char>, Seq<char>)>,
    unresolvedv: Seq<(Seq<char>, Seq<char>)>,
    keptv: Option<Seq<(Seq<char>, Seq<char>)>>,
) -> bool {
    &&& mainv.len() == srcv.len()
    &&& forall|i: int|
        0 <= i < srcv.len() ==> #[trigger] mainv[i] == (
            srcv[i].0,
            chosen_text(dict, fbv, has_fb, srcv[i].0, srcv[i].1),
        )
    &&& unresolvedv == srcv.filter(unresolved_pred(dict, fbv, has_fb))
    &&& (prune && has_fb) ==> keptv == Some(fbv.filter(kept_pred(dict, srcv)))
    &&& !(prune && has_fb) ==> keptv is None
}

/// What the merge pass produces: the main output (every source key, in
/// order), the unresolved lines, and, when pruning, the fallback
/// entries still worth keeping.
#[derive(Debug, PartialEq, Eq)]
pub struct MergeOutput {
    pub main: Vec<LangItem>,
    pub unresolved: Vec<LangItem>,
    pub fallback_kept: Option<Vec<LangItem>>,
}

/// The fallback's view, or the empty list when none was given.
pub open spec fn fb_view(fallback: Option<&Vec<LangItem>>) -> Seq<(Seq<char>, Seq<char>)> {
    match fallback {
        Some(f) => items_view(f@),
        None => Seq::empty(),
    }
}

/// The view of the optional pruned fallback.
pub open spec fn kept_view(o: Option<Vec<LangItem>>) -> Option<Seq<(Seq<char>, Seq<char>)>> {
    match o {
        Some(v) => Some(items_view(v@)),
        None => None,
    }
}

/// Whether a dictionary entry satisfies the lookup metadata built for a
/// source line, per the combination rules: valid entries whose
/// namespace may combine with the lookup's namespace.
fn dict_entry_matches(c: &Candidate, lookup: &GeneratorMeta) -> (r: bool)
    ensures
        r == meta_matches(c@.meta, lookup@.namespace),
{
    if c.meta.is_empty() {
        return false;
    }
    let mut m = c.meta.clone();
    m.combine(lookup);
    !m.is_empty()
}

fn find_fallback(fb: &Vec<LangItem>, key: &String) -> (r: Option<usize>)
    ensures
        match r {
            Some(j) => fb_lookup(items_view(fb@), key@) == Some(j as int) && j < fb@.len(),
            None => fb_lookup(items_view(fb@), key@) is None,
        },
{
    let ghost fbv = items_view(fb@);
    let mut j: usize = 0;
    while j < fb.len()
        invariant
            j <= fb@.len(),
            fbv == items_view(fb@),
            fbv.len() == fb@.len(),
            forall|u: int| 0 <= u < j ==> (#[trigger] fbv[u]).0 != key@,
        decreases fb@.len() - j,
    {
        proof {
            assert(fbv[j as int] == item_view(fb@[j as int]));
        }
        if fb[j].0.eq(key) {
            proof {
                lemma_fb_at(fbv, key@, j as int);
            }
            return Some(j);
        }
        j += 1;
    }
    proof {
        lemma_fb_none(fbv, key@);
    }
    None
}

proof fn lemma_contains_push(s: Seq<Seq<char>>, x: Seq<char>, y: Seq<char>)
    ensures
        s.push(x).contains(y) <==> (s.contains(y) || y == x),
{
    if s.contains(y) {
        let i = choose|i: int| 0 <= i < s.len() && s[i] == y;
        assert(s.push(x)[i] == y);
    }
    if y == x {
        assert(s.push(x)[s.len() as int] == y);
    }
    if s.push(x).contains(y) {
        let i = choose|i: int| 0 <= i < s.push(x).len() && s.push(x)[i] == y;
        if i < s.len() {
            assert(s[i] == y);
        }
    }
}

/// The merge pass: for each primary source line, satisfy it from the
/// generated dictionary if possible, else from the fallback, else leave
/// the original text and mark the line unresolved; with pruning, drop
/// the fallback entries the dictionary has made redundant.
#[verifier::loop_isolation(false)]
pub fn merge(
    source: &Vec<LangItem>,
    fallback: Option<&Vec<LangItem>>,
    dict: &Vec<Candidate>,
    extensions: &Vec<String>,
    prune: bool,
) -> (out: MergeOutput)
    ensures
        merge_post(
            cands_view(dict@),
            items_view(source@),
            fb_view(fallback),
            fallback is Some,
            prune,
            items_view(out.main@),
            items_view(out.unresolved@),
            kept_view(out.fallback_kept),
        ),
{
    let ghost d = cands_view(dict@);
    let ghost srcv = items_view(source@);
    let ghost fbv = fb_view(fallback);
    let ghost has_fb = fallback is Some;
    let ghost upred = unresolved_pred(d, fbv, has_fb);
    let mut main: Vec<LangItem> = Vec::new();
    let mut unresolved: Vec<LangItem> = Vec::new();
    let mut removal: Vec<String> = Vec::new();
    let mut i: usize = 0;
    proof {
        assert(srcv.take(0).filter(upred) =~= Seq::<(Seq<char>, Seq<char>)>::empty());
        assert(items_view(unresolved@) =~= Seq::<(Seq<char>, Seq<char>)>::empty());
        assert forall|k: Seq<char>| #[trigger]
            strs_view(removal@).contains(k) <==> exists|i2: int|
                0 <= i2 < 0 && (#[trigger] srcv[i2]).0 == k && dict_hit(d, k, srcv[i2].1) is Some
                    && fb_lookup(fbv, k) is Some by {}
    }
    while i < source.len()
        invariant
            i <= source@.len(),
            srcv == items_view(source@),
            srcv.len() == source@.len(),
            d == cands_view(dict@),
            d.len() == dict@.len(),
            fbv == fb_view(fallback),
            has_fb == (fallback is Some),
            upred == unresolved_pred(d, fbv, has_fb),
            main@.len() == i,
            forall|u: int|
                0 <= u < i ==> #[trigger] items_view(main@)[u] == (
                    srcv[u].0,
                    chosen_text(d, fbv, has_fb, srcv[u].0, srcv[u].1),
                ),
            items_view(unresolved@) == srcv.take(i as int).filter(upred),
            forall|k: Seq<char>|
                #[trigger] strs_view(removal@).contains(k) <==> exists|i2: int|
                    0 <= i2 < i && (#[trigger] srcv[i2]).0 == k && dict_hit(
                        d,
                        k,
                        srcv[i2].1,
                    ) is Some && fb_lookup(fbv, k) is Some,
        decreases source@.len() - i,
    {
        let key = &source[i].0;
        let src_text = &source[i].1;
        proof {
            assert(srcv[i as int] == item_view(source@[i as int]));
        }
        let ghost keyv = srcv[i as int].0;
        let ghost textv = srcv[i as int].1;
        let lookup = GeneratorMeta {
            group: String::new(),
            namespace: key.clone(),
            completed: false,
            extensions: crate::meta::clone_strings(extensions),
        };
        // dictionary match: the last matching entry wins
        let mut hit: Option<String> = None;
        let mut dj: usize = 0;
        proof {
            assert(dict_hit(d.take(0), keyv, textv) is None);
        }
        while dj < dict.len()
            invariant
                dj <= dict@.len(),
                d == cands_view(dict@),
                d.len() == dict@.len(),
                lookup@.namespace == keyv,
                keyv == srcv[i as int].0,
                textv == srcv[i as int].1,
                0 <= i < srcv.len(),
                match hit {
                    Some(t) => dict_hit(d.take(dj as int), keyv, textv) is Some && t@ == d[
                        dict_hit(d.take(dj as int), keyv, textv).unwrap()
                    ].target,
                    None => dict_hit(d.take(dj as int), keyv, textv) is None,
                },
            decreases dict@.len() - dj,
        {
            proof {
                assert(d[dj as int] == dict@[dj as int]@);
                assert(d.take(dj as int + 1).drop_last() =~= d.take(dj as int));
                assert(d.take(dj as int + 1).last() == d[dj as int]);
            }
            if dict[dj].source.eq(src_text) && dict_entry_matches(&dict[dj], &lookup) {
                hit = Some(dict[dj].target.clone());
                proof {
                    assert(cand_matches(d[dj as int], keyv, textv));
                    assert(dict_hit(d.take(dj as int + 1), keyv, textv) == Some(dj as int));
                }
            } else {
                proof {
                    assert(!cand_matches(d[dj as int], keyv, textv));
                    assert(dict_hit(d.take(dj as int + 1), keyv, textv) == dict_hit(
                        d.take(dj as int),
                        keyv,
                        textv,
                    ));
                }
            }
            dj += 1;
        }
        proof {
            assert(d.take(d.len() as int) =~= d);
        }
        // fallback match
        let mut fb_text: Option<String> = None;
        match fallback {
            Some(f) => {
                proof {
                    assert(fbv == items_view(f@));
                }
                match find_fallback(f, key) {
                    Some(j) => {
                        proof {
                            assert(fbv[j as int] == item_view(f@[j as int]));
                        }
                        fb_text = Some(f[j].1.clone());
                    },
                    None => {},
                }
            },
            None => {},
        }
        let ghost dict_hit_g = dict_hit(d, keyv, textv);
        let ghost fb_hit_g = has_fb && fb_lookup(fbv, keyv) is Some;
        let dict_hit_b = hit.is_some();
        let fb_hit_b = fb_text.is_some();
        proof {
            assert(dict_hit_b == (dict_hit_g is Some));
            assert(fb_hit_b == fb_hit_g);
        }
        let chosen: String = match hit {
            Some(t) => t,
            None => match fb_text {
                Some(t) => t,
                None => src_text.clone(),
            },
        };
        proof {
            assert(chosen@ == chosen_text(d, fbv, has_fb, keyv, textv));
        }
        let ghost main0 = items_view(main@);
        main.push((key.clone(), chosen.clone()));
        proof {
            assert(items_view(main@) =~= main0.push((keyv, chosen@)));
        }
        let resolved = dict_hit_b || fb_hit_b;
        proof {
            assert(resolved == entry_resolved(d, fbv, has_fb, keyv, textv));
            assert(srcv.take(i as int + 1).drop_last() =~= srcv.take(i as int));
            assert(srcv.take(i as int + 1).last() == srcv[i as int]);
            reveal(Seq::filter);
            assert(srcv.take(i as int + 1).filter(upred) == if upred(srcv[i as int]) {
                srcv.take(i as int).filter(upred).push(srcv[i as int])
            } else {
                srcv.take(i as int).filter(upred)
            });
        }
        if !resolved {
            let ghost un0 = items_view(unresolved@);
            unresolved.push((key.clone(), chosen.clone()));
            proof {
                assert(chosen@ == textv);
                assert(items_view(unresolved@) =~= un0.push((keyv, textv)));
                assert((keyv, textv) == srcv[i as int]);
            }
        }
        let ghost rv0 = strs_view(removal@);
        if dict_hit_b && fb_hit_b {
            removal.push(key.clone());
            proof {
                assert(strs_view(removal@) =~= rv0.push(keyv));
                let rv1 = strs_view(removal@);
                assert forall|k: Seq<char>| #[trigger] rv1.contains(k) implies exists|i2: int|
                    0 <= i2 < i + 1 && (#[trigger] srcv[i2]).0 == k && dict_hit(
                        d,
                        k,
                        srcv[i2].1,
                    ) is Some && fb_lookup(fbv, k) is Some by {
                    lemma_contains_push(rv0, keyv, k);
                    if rv0.contains(k) {
                        let w = choose|i2: int|
                            0 <= i2 < i && (#[trigger] srcv[i2]).0 == k && dict_hit(
                                d,
                                k,
                                srcv[i2].1,
                            ) is Some && fb_lookup(fbv, k) is Some;
                        assert(0 <= w < i + 1 && srcv[w].0 == k && dict_hit(d, k, srcv[w].1)
                            is Some && fb_lookup(fbv, k) is Some);
                    } else {
                        assert(k == keyv);
                        assert(0 <= i < i + 1 && srcv[i as int].0 == k && dict_hit(
                            d,
                            k,
                            srcv[i as int].1,
                        ) is Some && fb_lookup(fbv, k) is Some);
                    }
                }
                assert forall|k: Seq<char>|
                    (exists|i2: int|
                        0 <= i2 < i + 1 && (#[trigger] srcv[i2]).0 == k && dict_hit(
                            d,
                            k,
                            srcv[i2].1,
                        ) is Some && fb_lookup(fbv, k) is Some) implies #[trigger] rv1.contains(
                    k,
                ) by {
                    lemma_contains_push(rv0, keyv, k);
                    let w = choose|i2: int|
                        0 <= i2 < i + 1 && (#[trigger] srcv[i2]).0 == k && dict_hit(
                            d,
                            k,
                            srcv[i2].1,
                        ) is Some && fb_lookup(fbv, k) is Some;
                    if w < i {
                        assert(rv0.contains(k));
                    } else {
                        assert(k == keyv);
                    }
                }
            }
        } else {
            proof {
                let rv1 = strs_view(removal@);
                assert(rv1 == rv0);
                assert forall|k: Seq<char>| #[trigger] rv1.contains(k) implies exists|i2: int|
                    0 <= i2 < i + 1 && (#[trigger] srcv[i2]).0 == k && dict_hit(
                        d,
                        k,
                        srcv[i2].1,
                    ) is Some && fb_lookup(fbv, k) is Some by {
                    let w = choose|i2: int|
                        0 <= i2 < i && (#[trigger] srcv[i2]).0 == k && dict_hit(
                            d,
                            k,
                            srcv[i2].1,
                        ) is Some && fb_lookup(fbv, k) is Some;
                    assert(0 <= w < i + 1 && srcv[w].0 == k);
                }
                assert forall|k: Seq<char>|
                    (exists|i2: int|
                        0 <= i2 < i + 1 && (#[trigger] srcv[i2]).0 == k && dict_hit(
                            d,
                            k,
                            srcv[i2].1,
                        ) is Some && fb_lookup(fbv, k) is Some) implies #[trigger] rv1.contains(
                    k,
                ) by {
                    let w = choose|i2: int|
                        0 <= i2 < i + 1 && (#[trigger] srcv[i2]).0 == k && dict_hit(
                            d,
                            k,
                            srcv[i2].1,
                        ) is Some && fb_lookup(fbv, k) is Some;
                    if w == i {
                        assert(k == keyv && dict_hit_g is Some && fb_hit_g);
                        assert(false);
                    }
                }
            }
        }
        i += 1;
    }
    proof {
        assert(srcv.take(srcv.len() as int) =~= srcv);
    }
    // prune the fallback: drop entries the dictionary now covers
    let mut fallback_kept: Option<Vec<LangItem>> = None;
    if prune {
        match fallback {
            Some(f) => {
                let ghost kpred = kept_pred(d, srcv);
                let mut kept: Vec<LangItem> = Vec::new();
                let mut j: usize = 0;
                proof {
                    assert(fbv == items_view(f@));
                    assert(items_view(kept@) =~= fbv.take(0).filter(kpred));
                }
                while j < f.len()
                    invariant
                        j <= f@.len(),
                        fbv == items_view(f@),
                        fbv.len() == f@.len(),
                        kpred == kept_pred(d, srcv),
                        items_view(kept@) == fbv.take(j as int).filter(kpred),
                        d == cands_view(dict@),
                        srcv == items_view(source@),
                        forall|k: Seq<char>|
                            #[trigger] strs_view(removal@).contains(k)
                                <==> exists|i2: int|
                                0 <= i2 < srcv.len() && (#[trigger] srcv[i2]).0 == k && dict_hit(
                                    d,
                                    k,
                                    srcv[i2].1,
                                ) is Some && fb_lookup(fbv, k) is Some,
                    decreases f@.len() - j,
                {
                    proof {
                        assert(fbv[j as int] == item_view(f@[j as int]));
                        lemma_fb_member(fbv, j as int);
                    }
                    let ghost k = fbv[j as int].0;
                    let is_removed = crate::meta::contains_string(&removal, &f[j].0);
                    proof {
                        assert(is_removed == strs_view(removal@).contains(k));
                        if is_removed {
                            let w = choose|i2: int|
                                0 <= i2 < srcv.len() && (#[trigger] srcv[i2]).0 == k && dict_hit(
                                    d,
                                    k,
                                    srcv[i2].1,
                                ) is Some && fb_lookup(fbv, k) is Some;
                            assert(fb_removed(d, srcv, k));
                        } else {
                            if fb_removed(d, srcv, k) {
                                let w = choose|i2: int|
                                    0 <= i2 < srcv.len() && (#[trigger] srcv[i2]).0 == k
                                        && dict_hit(d, k, srcv[i2].1) is Some;
                                assert(exists|i2: int|
                                    0 <= i2 < srcv.len() && (#[trigger] srcv[i2]).0 == k
                                        && dict_hit(d, k, srcv[i2].1) is Some && fb_lookup(
                                        fbv,
                                        k,
                                    ) is Some);
                                assert(false);
                            }
                        }
                        assert(is_removed == fb_removed(d, srcv, k));
                        assert(fbv.take(j as int + 1).drop_last() =~= fbv.take(j as int));
                        assert(fbv.take(j as int + 1).last() == fbv[j as int]);
                        reveal(Seq::filter);
                        assert(fbv.take(j as int + 1).filter(kpred) == if kpred(fbv[j as int]) {
                            fbv.take(j as int).filter(kpred).push(fbv[j as int])
                        } else {
                            fbv.take(j as int).filter(kpred)
                        });
                    }
                    if !is_removed {
                        let ghost k0 = items_view(kept@);
                        kept.push((f[j].0.clone(), f[j].1.clone()));
                        proof {
                            assert(items_view(kept@) =~= k0.push(fbv[j as int]));
                        }
                    }
                    j += 1;
                }
                proof {
                    assert(fbv.take(fbv.len() as int) =~= fbv);
                }
                fallback_kept = Some(kept);
            },
            None => {},
        }
    }
    MergeOutput { main, unresolved, fallback_kept }
}

/// What one whole replace run produces.
#[derive(Debug, PartialEq, Eq)]
pub struct ReplaceOutput {
    pub main_target: LangFile,
    pub unresolved: LangFile,
    pub fallback_rewrite: Option<LangFile>,
}

/// The fallback file's view, or the empty list when none was given.
pub open spec fn fb_file_view(fallback: Option<&LangFile>) -> Seq<(Seq<char>, Seq<char>)> {
    match fallback {
        Some(f) => f@,
        None => Seq::empty(),
    }
}

/// The view of the optional rewritten fallback file.
pub open spec fn rewrite_view(o: Option<LangFile>) -> Option<Seq<(Seq<char>, Seq<char>)>> {
    match o {
        Some(f) => Some(f@),
        None => None,
    }
}

impl Replacer {
    /// The whole replace step: generate the dictionary from every
    /// completed generator, then merge it with the primary source and
    /// the fallback under the conflict policy, producing the main
    /// output, the unresolved lines, and, when pruning, the rewritten
    /// fallback.
    pub fn replace(
        &mut self,
        source: &LangFile,
        fallback: Option<&LangFile>,
        extensions: &Vec<String>,
        prune: bool,
    ) -> (r: Result<ReplaceOutput, GenError>)
        requires
            old(self).wf(),
        ensures
            final(self).wf(),
            final(self).generators@ == old(self).generators@,
            r is Ok ==> exists|dv: Seq<CandidateView>|
                #[trigger] dict_denotes(old(self).gens(), dv) && merge_post(
                    dv,
                    source@,
                    fb_file_view(fallback),
                    fallback is Some,
                    prune,
                    r.unwrap().main_target@,
                    r.unwrap().unresolved@,
                    rewrite_view(r.unwrap().fallback_rewrite),
                ),
            spec_generate_from(old(self).gens(), 0, old(self).spec_fuel()) is Some ==> r is Ok,
    {
        let ghost gv = old(self).gens();
        let dict = match self.generate_map() {
            Ok(v) => v,
            Err(e) => {
                return Err(e);
            },
        };
        let fb_items: Option<&Vec<LangItem>> = match fallback {
            Some(f) => Some(&f.items),
            None => None,
        };
        let out = merge(&source.items, fb_items, &dict, extensions, prune);
        let result = ReplaceOutput {
            main_target: LangFile { items: out.main },
            unresolved: LangFile { items: out.unresolved },
            fallback_rewrite: match out.fallback_kept {
                Some(v) => Some(LangFile { items: v }),
                None => None,
            },
        };
        proof {
            assert(fb_view(fb_items) == fb_file_view(fallback));
            assert((fb_items is Some) == (fallback is Some));
            assert(dict_denotes(gv, cands_view(dict@)));
            assert(merge_post(
                cands_view(dict@),
                source@,
                fb_file_view(fallback),
                fallback is Some,
                prune,
                result.main_target@,
                result.unresolved@,
                rewrite_view(result.fallback_rewrite),
            ));
        }
        Ok(result)
    }
}



proof fn lemma_slots_never_full(
    gens: Seq<GeneratorView>,
    subs: Seq<Seq<char>>,
    s: int,
    t: int,
    entries: Seq<LangResultView>,
    f: nat,
)
    requires
        0 <= s <= t < subs.len(),
        f >= 1,
        spec_group_results(gens, subs[t], (f - 1) as nat) == Some(entries),
        cands_of(entries).len() == 0,
    ensures
        spec_slots_from(gens, subs, s, f) is None || spec_slots_from(gens, subs, s, f) == Some(
            None::<Seq<Seq<CandidateView>>>,
        ),
    decreases t - s,
{
    if s == t {
    } else {
        match spec_group_results(gens, subs[s], (f - 1) as nat) {
            None => {},
            Some(es) => {
                if cands_of(es).len() > 0 {
                    lemma_slots_never_full(gens, subs, s + 1, t, entries, f);
                }
            },
        }
    }
}

/// If any slot's resolved candidate list is empty, the rule produces
/// nothing, whatever the other slots' sizes.
pub proof fn lemma_empty_group_empty_rule(
    gens: Seq<GeneratorView>,
    meta: MetaView,
    rule: RuleView,
    rs: Seq<LangResultView>,
    t: int,
    entries: Seq<LangResultView>,
)
    requires
        rule_denotes(gens, meta, rule, rs),
        0 <= t < rule.subs.len(),
        group_denotes(gens, rule.subs[t], entries),
        cands_of(entries).len() == 0,
    ensures
        rs.len() == 0,
{
    let f0 = lemma_rule_denotes_elim(gens, meta, rule, rs);
    let fg = lemma_group_denotes_elim(gens, rule.subs[t], entries);
    let f: nat = if f0 >= fg + 1 {
        f0
    } else {
        fg + 1
    };
    assert(spec_rule_one(gens, meta, rule, f) == Some(rs));
    lemma_group_mono(gens, rule.subs[t], fg, (f - 1) as nat);
    lemma_slots_never_full(gens, rule.subs, 0, t, entries, f);
}


/// Inside a group that evaluates, every member generator evaluates.
proof fn lemma_group_from_member(
    gens: Seq<GeneratorView>,
    name: Seq<char>,
    s: int,
    k: int,
    f: nat,
)
    requires
        spec_group_from(gens, name, s, f) is Some,
        0 <= s <= k < gens.len(),
        in_group(gens[k], name),
    ensures
        spec_gen_results(gens, k, f) is Some,
    decreases k - s,
{
    if s < k {
        lemma_group_from_member(gens, name, s + 1, k, f);
    }
}

/// Inside a rule list that evaluates, every rule evaluates.
proof fn lemma_rules_from_member(
    gens: Seq<GeneratorView>,
    meta: MetaView,
    rules: Seq<RuleView>,
    s: int,
    j: int,
    f: nat,
)
    requires
        spec_rules_from(gens, meta, rules, s, f) is Some,
        0 <= s <= j < rules.len(),
    ensures
        spec_rule_one(gens, meta, rules[j], f) is Some,
    decreases j - s,
{
    if s < j {
        lemma_rules_from_member(gens, meta, rules, s + 1, j, f);
    }
}

} // verus!
