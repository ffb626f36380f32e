use gt6tg::expand::expand_indices;
use gt6tg::generator::Candidate;
use gt6tg::generator::DictGenerator;
use gt6tg::generator::GeneratorType;
use gt6tg::generator::RuleGenerator;
use gt6tg::lang::LangFile;
use gt6tg::meta::GeneratorMeta;
use gt6tg::replacer::merge;
use gt6tg::replacer::GenError;
use gt6tg::replacer::Replacer;
use gt6tg::rule::Rule;

fn meta(group: &str, namespace: &str) -> GeneratorMeta {
    GeneratorMeta {
        group: group.to_string(),
        namespace: namespace.to_string(),
        completed: true,
        extensions: Vec::new(),
    }
}

fn dict_gen(group: &str, items: &[(&str, &str)]) -> GeneratorType {
    GeneratorType::Dict(DictGenerator {
        meta: meta(group, ""),
        dict: items.iter().map(|(s, t)| (s.to_string(), t.to_string())).collect(),
    })
}

fn rule_gen(group: &str, source: &str, target: &str, subs: &[&str]) -> GeneratorType {
    GeneratorType::Rule(RuleGenerator {
        meta: meta(group, ""),
        rules: vec![Rule {
            source: source.to_string(),
            target: target.to_string(),
            subs: subs.iter().map(|s| s.to_string()).collect(),
        }],
    })
}

fn pairs(results: &[gt6tg::lang::LangResult]) -> Vec<(String, String)> {
    let mut out = Vec::new();
    for r in results {
        for p in &r.items {
            out.push(p.clone());
        }
    }
    out
}

#[test]
fn expansion_is_a_mixed_radix_counter() {
    let tuples = expand_indices(&vec![2, 3]);
    let expected: Vec<Vec<usize>> = vec![
        vec![0, 0],
        vec![1, 0],
        vec![0, 1],
        vec![1, 1],
        vec![0, 2],
        vec![1, 2],
    ];
    assert_eq!(tuples, expected);
}

#[test]
fn rule_expansion_counts_and_order() {
    let gens = vec![
        dict_gen("num", &[("1", "一"), ("2", "二")]),
        dict_gen("col", &[("r", "红"), ("g", "绿"), ("b", "蓝")]),
        rule_gen("main", "<{0}>", "[{0}]", &["num", "col"]),
    ];
    let mut repo = Replacer::new(gens);
    let results = repo.get_group_results(&"main".to_string()).unwrap();
    // 2 * 3 combinations, slot 0 (num) varying fastest
    let got = pairs(&results);
    let expected = vec![
        ("<1r>".to_string(), "[一红]".to_string()),
        ("<2r>".to_string(), "[二红]".to_string()),
        ("<1g>".to_string(), "[一绿]".to_string()),
        ("<2g>".to_string(), "[二绿]".to_string()),
        ("<1b>".to_string(), "[一蓝]".to_string()),
        ("<2b>".to_string(), "[二蓝]".to_string()),
    ];
    assert_eq!(got, expected);
}

#[test]
fn empty_sub_group_gives_empty_rule() {
    let gens = vec![
        dict_gen("num", &[("1", "一"), ("2", "二")]),
        rule_gen("main", "<{0}>", "[{0}]", &["num", "missing"]),
    ];
    let mut repo = Replacer::new(gens);
    let results = repo.get_group_results(&"main".to_string()).unwrap();
    assert_eq!(pairs(&results), Vec::<(String, String)>::new());
}

#[test]
fn rule_with_no_slots_gives_nothing() {
    let gens = vec![rule_gen("main", "{0}", "{0}", &[])];
    let mut repo = Replacer::new(gens);
    let results = repo.get_group_results(&"main".to_string()).unwrap();
    assert_eq!(results.len(), 0);
}

#[test]
fn group_memoization_evaluates_once() {
    let gens = vec![
        dict_gen("num", &[("1", "一")]),
        dict_gen("col", &[("r", "红")]),
        rule_gen("main", "{0}", "{0}", &["num", "col"]),
    ];
    let mut repo = Replacer::new(gens);
    let first = repo.get_group_results(&"main".to_string()).unwrap();
    let evals_after_first = repo.evaluation_count();
    assert_eq!(evals_after_first, 3);
    let second = repo.get_group_results(&"main".to_string()).unwrap();
    assert_eq!(first, second);
    assert_eq!(repo.evaluation_count(), evals_after_first);
    // a sub-group request is also answered from the cache
    let _ = repo.get_group_results(&"num".to_string()).unwrap();
    assert_eq!(repo.evaluation_count(), evals_after_first);
}

#[test]
fn cyclic_groups_are_reported() {
    let gens = vec![rule_gen("a", "{0}", "{0}", &["a"])];
    let mut repo = Replacer::new(gens);
    let r = repo.get_group_results(&"a".to_string());
    assert_eq!(r, Err(GenError::Cycle));
}

#[test]
fn incompatible_scopes_poison_the_combination() {
    let mut number = dict_gen("num", &[("1", "一")]);
    if let GeneratorType::Dict(d) = &mut number {
        d.meta.namespace = "y".to_string();
    }
    let mut rule = rule_gen("main", "{0}", "{0}", &["num"]);
    if let GeneratorType::Rule(r) = &mut rule {
        r.meta.namespace = "x".to_string();
    }
    let mut repo = Replacer::new(vec![number, rule]);
    let results = repo.get_group_results(&"main".to_string()).unwrap();
    assert_eq!(results.len(), 0);
}

#[test]
fn nested_scopes_combine_to_the_deeper_one() {
    let mut number = dict_gen("num", &[("1", "一")]);
    if let GeneratorType::Dict(d) = &mut number {
        d.meta.namespace = "a.b".to_string();
    }
    let mut rule = rule_gen("main", "{0}", "{0}", &["num"]);
    if let GeneratorType::Rule(r) = &mut rule {
        r.meta.namespace = "a".to_string();
    }
    let mut repo = Replacer::new(vec![number, rule]);
    let results = repo.get_group_results(&"main".to_string()).unwrap();
    assert_eq!(results.len(), 1);
    assert_eq!(results[0].meta.namespace, "a.b");
    assert_eq!(results[0].meta.group, "main");
}

#[test]
fn incomplete_generators_contribute_nothing() {
    let mut number = dict_gen("num", &[("1", "一")]);
    if let GeneratorType::Dict(d) = &mut number {
        d.meta.completed = false;
    }
    let gens = vec![number, rule_gen("main", "{0}", "{0}", &["num"])];
    let mut repo = Replacer::new(gens);
    let results = repo.get_group_results(&"main".to_string()).unwrap();
    assert_eq!(results.len(), 0);
}

fn cand(src: &str, tgt: &str) -> Candidate {
    Candidate { source: src.to_string(), target: tgt.to_string(), meta: meta("dict", "") }
}

fn items(list: &[(&str, &str)]) -> Vec<(String, String)> {
    list.iter().map(|(k, v)| (k.to_string(), v.to_string())).collect()
}

#[test]
fn merge_prefers_the_dictionary_over_the_fallback() {
    let source = items(&[("item.foo", "Foo")]);
    let fallback = items(&[("item.foo", "福")]);
    let dict = vec![cand("Foo", "酒")];
    let out = merge(&source, Some(&fallback), &dict, &Vec::new(), false);
    assert_eq!(out.main, items(&[("item.foo", "酒")]));
    assert_eq!(out.unresolved, items(&[]));
    assert_eq!(out.fallback_kept, None);
}

#[test]
fn merge_uses_the_fallback_when_the_dictionary_misses() {
    let source = items(&[("item.bar", "Bar"), ("item.baz", "Baz")]);
    let fallback = items(&[("item.bar", "巴")]);
    let dict: Vec<Candidate> = Vec::new();
    let out = merge(&source, Some(&fallback), &dict, &Vec::new(), false);
    assert_eq!(out.main, items(&[("item.bar", "巴"), ("item.baz", "Baz")]));
    // the fallback resolved item.bar, so only item.baz is unresolved
    assert_eq!(out.unresolved, items(&[("item.baz", "Baz")]));
}

#[test]
fn merge_pruning_drops_redundant_fallback_entries() {
    let source = items(&[("item.foo", "Foo"), ("item.bar", "Bar")]);
    let fallback = items(&[("item.foo", "福"), ("item.bar", "巴")]);
    let dict = vec![cand("Foo", "酒")];
    let out = merge(&source, Some(&fallback), &dict, &Vec::new(), true);
    assert_eq!(out.fallback_kept, Some(items(&[("item.bar", "巴")])));
}

#[test]
fn merge_respects_the_dictionary_scope() {
    let source = items(&[("item.foo", "Foo")]);
    let mut scoped = cand("Foo", "酒");
    scoped.meta.namespace = "block".to_string();
    let out = merge(&source, None, &vec![scoped], &Vec::new(), false);
    // "block" cannot combine with the key "item.foo": no match
    assert_eq!(out.main, items(&[("item.foo", "Foo")]));
    assert_eq!(out.unresolved, items(&[("item.foo", "Foo")]));
}

#[test]
fn merge_last_matching_dictionary_entry_wins() {
    let source = items(&[("item.foo", "Foo")]);
    let dict = vec![cand("Foo", "一"), cand("Foo", "二")];
    let out = merge(&source, None, &dict, &Vec::new(), false);
    assert_eq!(out.main, items(&[("item.foo", "二")]));
}

#[test]
fn replace_runs_generation_and_merge_end_to_end() {
    let gens = vec![
        dict_gen("num", &[("1", "一"), ("2", "二")]),
        rule_gen("main", "Tier {0}", "等级{0}", &["num"]),
    ];
    let mut repo = Replacer::new(gens);
    let source = LangFile { items: items(&[("tier.1", "Tier 1"), ("tier.9", "Tier 9")]) };
    let fallback = LangFile { items: items(&[("tier.9", "九")]) };
    let out = repo.replace(&source, Some(&fallback), &Vec::new(), true).unwrap();
    assert_eq!(out.main_target.items, items(&[("tier.1", "等级一"), ("tier.9", "九")]));
    assert_eq!(out.unresolved.items, items(&[]));
    assert_eq!(out.fallback_rewrite.unwrap().items, items(&[("tier.9", "九")]));
}

#[test]
fn expansion_with_a_single_slot_lists_it_in_order() {
    let tuples = expand_indices(&vec![3]);
    assert_eq!(tuples, vec![vec![0], vec![1], vec![2]]);
}

#[test]
fn generator_memoization_evaluates_once() {
    let gens = vec![dict_gen("num", &[("1", "一")])];
    let mut repo = Replacer::new(gens);
    let first = repo.get_generator_results(0).unwrap();
    assert_eq!(repo.evaluation_count(), 1);
    let second = repo.get_generator_results(0).unwrap();
    assert_eq!(first, second);
    assert_eq!(repo.evaluation_count(), 1);
}

#[test]
fn generate_skips_incomplete_generators() {
    let mut done = dict_gen("a", &[("x", "一")]);
    if let GeneratorType::Dict(d) = &mut done {
        d.meta.completed = true;
    }
    let mut pending = dict_gen("b", &[("y", "二")]);
    if let GeneratorType::Dict(d) = &mut pending {
        d.meta.completed = false;
    }
    let mut repo = Replacer::new(vec![done, pending]);
    let results = repo.generate().unwrap();
    assert_eq!(pairs(&results), items(&[("x", "一")]));
}

#[test]
fn merge_keeps_every_source_key_in_order() {
    let source = items(&[("b", "B"), ("a", "A"), ("b", "B2")]);
    let out = merge(&source, None, &Vec::new(), &Vec::new(), false);
    assert_eq!(out.main, source);
    assert_eq!(out.unresolved, source);
}

#[test]
fn merge_with_empty_source_produces_nothing() {
    let out = merge(&Vec::new(), None, &vec![cand("Foo", "酒")], &Vec::new(), false);
    assert_eq!(out.main, items(&[]));
    assert_eq!(out.unresolved, items(&[]));
}
