//! Generators and the rule-expansion step.
//!
//! A generator is one of exactly two variants: *Dictionary* (a fixed
//! list of literal substitution pairs) and *Rule* (template rules whose
//! slots draw candidates from named groups).  Either variant produces a
//! list of results.

use vstd::prelude::*;
use crate::expand::expand_indices;
use crate::expand::in_bounds;
use crate::expand::lemma_value_of_digits;
use crate::expand::sizes_positive;
use crate::expand::spec_digits;
use crate::expand::spec_expand;
use crate::expand::spec_prod;
use crate::expand::to_ints;
use crate::lang::clone_items;
use crate::lang::item_view;
use crate::lang::items_view;
use crate::lang::results_view;
use crate::lang::LangItem;
use crate::lang::LangResult;
use crate::lang::LangResultView;
use crate::meta::spec_combine;
use crate::meta::GeneratorMeta;
use crate::meta::MetaView;
use crate::rule::spec_subst;
use crate::rule::substitute;
use crate::rule::Rule;
use crate::rule::RuleView;

verus! {

/// A generator holding a literal dictionary.
#[derive(Debug, PartialEq, Eq)]
pub struct DictGenerator {
    pub meta: GeneratorMeta,
    pub dict: Vec<LangItem>,
}

/// A generator holding template rules.
#[derive(Debug, PartialEq, Eq)]
pub struct RuleGenerator {
    pub meta: GeneratorMeta,
    pub rules: Vec<Rule>,
}

/// The closed union of the two generator variants.
#[derive(Debug, PartialEq, Eq)]
pub enum GeneratorType {
    Dict(DictGenerator),
    Rule(RuleGenerator),
}

/// The view of a generator.
pub ghost enum GeneratorView {
    Dict { meta: MetaView, items: Seq<(Seq<char>, Seq<char>)> },
    Rule { meta: MetaView, rules: Seq<RuleView> },
}

impl View for GeneratorType {
    type V = GeneratorView;

    open spec fn view(&self) -> GeneratorView {
        match self {
            GeneratorType::Dict(d) => GeneratorView::Dict {
                meta: d.meta@,
                items: items_view(d.dict@),
            },
            GeneratorType::Rule(r) => GeneratorView::Rule {
                meta: r.meta@,
                rules: r.rules@.map_values(|x: Rule| x@),
            },
        }
    }
}

/// The metadata of a generator, whichever its variant.
pub open spec fn gen_meta(g: GeneratorView) -> MetaView {
    match g {
        GeneratorView::Dict { meta, .. } => meta,
        GeneratorView::Rule { meta, .. } => meta,
    }
}

impl GeneratorType {
    /// The scope of this generator.
    pub fn meta(&self) -> (r: &GeneratorMeta)
        ensures
            r@ == gen_meta(self@),
    {
        match self {
            GeneratorType::Dict(d) => &d.meta,
            GeneratorType::Rule(r) => &r.meta,
        }
    }
}

impl DictGenerator {
    /// A dictionary generator produces one result: its literal pairs
    /// under its own metadata.
    pub fn results(&self) -> (r: Vec<LangResult>)
        ensures
            results_view(r@) =~= seq![
                LangResultView { meta: self.meta@, items: items_view(self.dict@) },
            ],
    {
        let result = LangResult { meta: self.meta.clone(), items: clone_items(&self.dict) };
        let mut r: Vec<LangResult> = Vec::new();
        r.push(result);
        r
    }
}

/// One candidate for one slot of a rule: a substitution pair together
/// with the metadata of the result it came from.
#[derive(Debug, PartialEq, Eq)]
pub struct Candidate {
    pub source: String,
    pub target: String,
    pub meta: GeneratorMeta,
}

/// The view of a candidate.
pub ghost struct CandidateView {
    pub source: Seq<char>,
    pub target: Seq<char>,
    pub meta: MetaView,
}

impl View for Candidate {
    type V = CandidateView;

    open spec fn view(&self) -> CandidateView {
        CandidateView { source: self.source@, target: self.target@, meta: self.meta@ }
    }
}

/// The views of a list of candidates.
pub open spec fn cands_view(s: Seq<Candidate>) -> Seq<CandidateView> {
    s.map_values(|c: Candidate| c@)
}

/// The candidates one result contributes: each of its pairs, tagged
/// with the result's metadata.
pub open spec fn entry_cands(e: LangResultView) -> Seq<CandidateView> {
    e.items.map_values(
        |it: (Seq<char>, Seq<char>)| CandidateView { source: it.0, target: it.1, meta: e.meta },
    )
}

/// The ordered candidate list of a group: the pairs of all its results
/// in order, each tagged with its own result's metadata.  Results with
/// no pairs contribute nothing.
pub open spec fn cands_of(entries: Seq<LangResultView>) -> Seq<CandidateView>
    decreases entries.len(),
{
    if entries.len() == 0 {
        Seq::empty()
    } else {
        entry_cands(entries[0]) + cands_of(entries.drop_first())
    }
}

proof fn lemma_cands_of_push(entries: Seq<LangResultView>, e: LangResultView)
    ensures
        cands_of(entries.push(e)) == cands_of(entries) + entry_cands(e),
    decreases entries.len(),
{
    let p = entries.push(e);
    if entries.len() == 0 {
        assert(p.drop_first() =~= entries);
        assert(cands_of(p) =~= cands_of(entries) + entry_cands(e));
    } else {
        assert(p[0] == entries[0]);
        assert(p.drop_first() =~= entries.drop_first().push(e));
        lemma_cands_of_push(entries.drop_first(), e);
        assert(entry_cands(entries[0]) + (cands_of(entries.drop_first()) + entry_cands(e))
            =~= (entry_cands(entries[0]) + cands_of(entries.drop_first())) + entry_cands(e));
    }
}

/// Flatten the results of a group into its ordered candidate list.
pub fn group_candidates(entries: &Vec<LangResult>) -> (r: Vec<Candidate>)
    ensures
        cands_view(r@) == cands_of(results_view(entries@)),
{
    let ghost evs = results_view(entries@);
    let mut r: Vec<Candidate> = Vec::new();
    let mut i: usize = 0;
    while i < entries.len()
        invariant
            i <= entries.len(),
            evs == results_view(entries@),
            evs.len() == entries@.len(),
            cands_view(r@) == cands_of(evs.take(i as int)),
        decreases entries.len() - i,
    {
        let e = &entries[i];
        let ghost ev = evs[i as int];
        let ghost before = cands_view(r@);
        let mut j: usize = 0;
        while j < e.items.len()
            invariant
                j <= e.items.len(),
                ev == evs[i as int],
                ev == entries@[i as int]@,
                0 <= i < entries@.len(),
                evs == results_view(entries@),
                ev.items.len() == e.items@.len(),
                e == entries@[i as int],
                cands_view(r@) == before + entry_cands(ev).take(j as int),
            decreases e.items.len() - j,
        {
            let c = Candidate {
                source: e.items[j].0.clone(),
                target: e.items[j].1.clone(),
                meta: e.meta.clone(),
            };
            proof {
                assert(ev.items[j as int] == item_view(e.items@[j as int]));
                assert(c@ == entry_cands(ev)[j as int]);
                assert(entry_cands(ev).take(j as int + 1) =~= entry_cands(ev).take(
                    j as int,
                ).push(entry_cands(ev)[j as int]));
            }
            let ghost prev = cands_view(r@);
            r.push(c);
            proof {
                assert(cands_view(r@) =~= prev.push(c@));
                assert(cands_view(r@) =~= before + entry_cands(ev).take(j as int + 1));
            }
            j += 1;
        }
        proof {
            assert(entry_cands(ev).take(ev.items.len() as int) =~= entry_cands(ev));
            lemma_cands_of_push(evs.take(i as int), ev);
            assert(evs.take(i as int).push(ev) =~= evs.take(i as int + 1));
            assert(cands_view(r@) =~= cands_of(evs.take(i as int + 1)));
        }
        i += 1;
    }
    proof {
        assert(evs.take(evs.len() as int) =~= evs);
    }
    r
}

/// The per-slot candidate list sizes.
pub open spec fn slot_sizes(slots: Seq<Seq<CandidateView>>) -> Seq<int> {
    slots.map_values(|s: Seq<CandidateView>| s.len() as int)
}

/// The concatenation, in slot order from slot `i` on, of the source
/// texts chosen by the index tuple `t`.
pub open spec fn combo_sources(slots: Seq<Seq<CandidateView>>, t: Seq<int>, i: int) -> Seq<char>
    decreases slots.len() - i,
{
    if i < 0 || i >= slots.len() {
        Seq::empty()
    } else {
        slots[i][t[i]].source + combo_sources(slots, t, i + 1)
    }
}

/// The concatenation of the chosen target texts, in slot order.
pub open spec fn combo_targets(slots: Seq<Seq<CandidateView>>, t: Seq<int>, i: int) -> Seq<char>
    decreases slots.len() - i,
{
    if i < 0 || i >= slots.len() {
        Seq::empty()
    } else {
        slots[i][t[i]].target + combo_targets(slots, t, i + 1)
    }
}

/// The rule's own metadata combined with the metadata of every chosen
/// candidate, in slot order from slot `i` on.
pub open spec fn combo_meta(
    acc: MetaView,
    slots: Seq<Seq<CandidateView>>,
    t: Seq<int>,
    i: int,
) -> MetaView
    decreases slots.len() - i,
{
    if i < 0 || i >= slots.len() {
        acc
    } else {
        combo_meta(spec_combine(acc, slots[i][t[i]].meta), slots, t, i + 1)
    }
}

/// The result one combination produces: one substituted pair under the
/// combined metadata.
pub open spec fn combo_entry(
    rule: RuleView,
    meta: MetaView,
    slots: Seq<Seq<CandidateView>>,
    t: Seq<int>,
) -> LangResultView {
    LangResultView {
        meta: combo_meta(meta, slots, t, 0),
        items: seq![
            (
                spec_subst(rule.source, combo_sources(slots, t, 0)),
                spec_subst(rule.target, combo_targets(slots, t, 0)),
            ),
        ],
    }
}

/// Every combination of one candidate per slot, in mixed-radix counter
/// order, before metadata-validity filtering.
pub open spec fn rule_combos(
    rule: RuleView,
    meta: MetaView,
    slots: Seq<Seq<CandidateView>>,
) -> Seq<LangResultView> {
    spec_expand(slot_sizes(slots)).map_values(|t: Seq<int>| combo_entry(rule, meta, slots, t))
}

/// A generated result is kept iff its combined metadata is valid.
pub open spec fn valid_entry(e: LangResultView) -> bool {
    e.meta.group.len() > 0
}

/// What a rule produces from resolved, non-empty candidate lists: the
/// ordered combinations whose combined metadata is valid.
pub open spec fn rule_entries_from_slots(
    rule: RuleView,
    meta: MetaView,
    slots: Seq<Seq<CandidateView>>,
) -> Seq<LangResultView> {
    rule_combos(rule, meta, slots).filter(|e: LangResultView| valid_entry(e))
}

/// The views of a list of slots.
pub open spec fn slots_view(slots: Seq<Vec<Candidate>>) -> Seq<Seq<CandidateView>> {
    slots.map_values(|v: Vec<Candidate>| cands_view(v@))
}

/// Expand one rule over resolved candidate lists: enumerate every
/// combination, build its substituted pair and combined metadata, and
/// keep the combinations whose metadata stayed valid.
pub fn build_rule_results(rule: &Rule, meta: &GeneratorMeta, slots: &Vec<Vec<Candidate>>) -> (r:
    Vec<LangResult>)
    requires
        slots@.len() >= 1,
        forall|i: int| 0 <= i < slots@.len() ==> #[trigger] slots@[i]@.len() >= 1,
    ensures
        results_view(r@) == rule_entries_from_slots(rule@, meta@, slots_view(slots@)),
{
    let ghost sv = slots_view(slots@);
    let ghost szs = slot_sizes(sv);
    let k = slots.len();
    let mut sizes: Vec<usize> = Vec::new();
    let mut i: usize = 0;
    while i < k
        invariant
            i <= k,
            k == slots@.len(),
            sv == slots_view(slots@),
            szs == slot_sizes(sv),
            sizes@.len() == i,
            forall|u: int| 0 <= u < i ==> #[trigger] sizes@[u] == slots@[u]@.len(),
        decreases k - i,
    {
        let n = slots[i].len();
        sizes.push(n);
        i += 1;
    }
    proof {
        assert(sv.len() == k);
        assert forall|u: int| 0 <= u < k implies #[trigger] to_ints(sizes@)[u] == szs[u] by {
            assert(sv[u] == cands_view(slots@[u]@));
            assert(sizes@[u] == slots@[u]@.len());
        }
        assert(to_ints(sizes@) =~= szs);
        assert forall|u: int| 0 <= u < k implies #[trigger] sizes@[u] >= 1 by {
            assert(slots@[u]@.len() >= 1);
        }
    }
    let tuples = expand_indices(&sizes);
    let ghost combos = rule_combos(rule@, meta@, sv);
    let ghost pred = |e: LangResultView| valid_entry(e);
    let mut r: Vec<LangResult> = Vec::new();
    let mut n: usize = 0;
    proof {
        assert(combos.len() == tuples@.len());
        assert(combos.take(0) =~= Seq::<LangResultView>::empty());
    }
    while n < tuples.len()
        invariant
            n <= tuples@.len(),
            k == slots@.len(),
            k >= 1,
            sv == slots_view(slots@),
            sv.len() == k,
            szs == slot_sizes(sv),
            sizes_positive(szs),
            combos == rule_combos(rule@, meta@, sv),
            combos.len() == tuples@.len(),
            tuples@.len() == spec_prod(szs),
            forall|u: int|
                0 <= u < tuples@.len() ==> to_ints(#[trigger] tuples@[u]@) == spec_digits(u, szs),
            pred == |e: LangResultView| valid_entry(e),
            results_view(r@) == combos.take(n as int).filter(pred),
        decreases tuples@.len() - n,
    {
        let t = &tuples[n];
        let ghost tv = to_ints(t@);
        proof {
            lemma_value_of_digits(n as int, szs);
            assert(tv == spec_digits(n as int, szs));
            assert(in_bounds(tv, szs));
            assert(t@.len() == k);
        }
        let mut src = String::new();
        let mut tgt = String::new();
        let mut cmeta = meta.clone();
        let mut i2: usize = 0;
        proof {
            assert(combo_sources(sv, tv, 0) =~= Seq::<char>::empty() + combo_sources(sv, tv, 0));
            assert(combo_targets(sv, tv, 0) =~= Seq::<char>::empty() + combo_targets(sv, tv, 0));
        }
        while i2 < k
            invariant
                i2 <= k,
                k == slots@.len(),
                sv == slots_view(slots@),
                sv.len() == k,
                szs == slot_sizes(sv),
                in_bounds(tv, szs),
                tv.len() == k,
                t@.len() == k,
                tv == to_ints(t@),
                combo_sources(sv, tv, 0) == src@ + combo_sources(sv, tv, i2 as int),
                combo_targets(sv, tv, 0) == tgt@ + combo_targets(sv, tv, i2 as int),
                combo_meta(meta@, sv, tv, 0) == combo_meta(cmeta@, sv, tv, i2 as int),
            decreases k - i2,
        {
            let idx = t[i2];
            proof {
                assert(to_ints(t@)[i2 as int] == t@[i2 as int] as int);
                assert(tv[i2 as int] < szs[i2 as int]);
                assert(sv[i2 as int] == cands_view(slots@[i2 as int]@));
                assert(szs[i2 as int] == sv[i2 as int].len());
            }
            let cand = &slots[i2][idx];
            proof {
                assert(cand@ == sv[i2 as int][tv[i2 as int]]);
            }
            let ghost src0 = src@;
            let ghost tgt0 = tgt@;
            src.append(cand.source.as_str());
            tgt.append(cand.target.as_str());
            cmeta.combine(&cand.meta);
            proof {
                assert(combo_sources(sv, tv, i2 as int) == cand@.source + combo_sources(
                    sv,
                    tv,
                    i2 as int + 1,
                ));
                assert(src0 + (cand@.source + combo_sources(sv, tv, i2 as int + 1)) =~= (src0
                    + cand@.source) + combo_sources(sv, tv, i2 as int + 1));
                assert(combo_targets(sv, tv, i2 as int) == cand@.target + combo_targets(
                    sv,
                    tv,
                    i2 as int + 1,
                ));
                assert(tgt0 + (cand@.target + combo_targets(sv, tv, i2 as int + 1)) =~= (tgt0
                    + cand@.target) + combo_targets(sv, tv, i2 as int + 1));
            }
            i2 += 1;
        }
        proof {
            assert(combo_sources(sv, tv, k as int) =~= Seq::<char>::empty());
            assert(combo_targets(sv, tv, k as int) =~= Seq::<char>::empty());
            assert(src@ + Seq::<char>::empty() =~= src@);
            assert(tgt@ + Seq::<char>::empty() =~= tgt@);
            assert(src@ == combo_sources(sv, tv, 0));
            assert(tgt@ == combo_targets(sv, tv, 0));
            assert(cmeta@ == combo_meta(meta@, sv, tv, 0));
        }
        let out_src = substitute(rule.source.as_str(), src.as_str());
        let out_tgt = substitute(rule.target.as_str(), tgt.as_str());
        let keep = !cmeta.is_empty();
        let mut items: Vec<LangItem> = Vec::new();
        items.push((out_src, out_tgt));
        let entry = LangResult { meta: cmeta, items };
        let ghost ev = entry@;
        proof {
            assert(items_view(entry.items@) =~= seq![
                (
                    spec_subst(rule@.source, combo_sources(sv, tv, 0)),
                    spec_subst(rule@.target, combo_targets(sv, tv, 0)),
                ),
            ]);
            assert(ev == combo_entry(rule@, meta@, sv, tv));
            assert(combos[n as int] == combo_entry(rule@, meta@, sv, spec_digits(n as int, szs)));
            assert(ev == combos[n as int]);
            assert(combos.take(n as int + 1).drop_last() =~= combos.take(n as int));
            assert(combos.take(n as int + 1).last() == ev);
            reveal(Seq::filter);
            assert(combos.take(n as int + 1).filter(pred) == if pred(ev) {
                combos.take(n as int).filter(pred).push(ev)
            } else {
                combos.take(n as int).filter(pred)
            });
        }
        if keep {
            let ghost prev = results_view(r@);
            r.push(entry);
            proof {
                assert(results_view(r@) =~= prev.push(ev));
                assert(results_view(r@) =~= combos.take(n as int + 1).filter(pred));
            }
        } else {
            proof {
                assert(results_view(r@) =~= combos.take(n as int + 1).filter(pred));
            }
        }
        n += 1;
    }
    proof {
        assert(combos.take(combos.len() as int) =~= combos);
    }
    r
}


/// Before validity filtering, a rule whose `k` slots resolved to
/// candidate lists of sizes `n0 .. nk-1` (all positive) expands to
/// exactly `n0 * n1 * ... * nk-1` combinations; which indices each
/// combination chooses is given by `spec_expand`, where no choice
/// repeats and none is omitted.
pub proof fn lemma_rule_combination_count(
    rule: RuleView,
    meta: MetaView,
    slots: Seq<Seq<CandidateView>>,
)
    requires
        forall|i: int| 0 <= i < slots.len() ==> #[trigger] slots[i].len() >= 1,
    ensures
        rule_combos(rule, meta, slots).len() == spec_prod(slot_sizes(slots)),
{
    assert forall|i: int| 0 <= i < slot_sizes(slots).len() implies #[trigger] slot_sizes(
        slots,
    )[i] >= 1 by {
        assert(slots[i].len() >= 1);
    }
    crate::expand::lemma_expansion_complete(slot_sizes(slots));
}

} // verus!
