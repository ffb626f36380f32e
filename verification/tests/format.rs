use gt6tg::config::Config;
use gt6tg::config::DictValue;
use gt6tg::config::GeneratorDecl;
use gt6tg::generator::GeneratorType;
use gt6tg::lang::LangFile;
use gt6tg::meta::GeneratorMeta;
use gt6tg::rule::Rule;

fn items(list: &[(&str, &str)]) -> Vec<(String, String)> {
    list.iter().map(|(k, v)| (k.to_string(), v.to_string())).collect()
}

#[test]
fn to_lines_writes_the_exact_format() {
    let f = LangFile { items: items(&[("item.foo", "酒"), ("item.bar", "巴")]) };
    let lines = f.to_lines();
    let expected = vec![
        "# Configuration file",
        "enablelangfile {",
        "    B:UseThisFileAsLanguageFile=true",
        "}",
        "",
        "languagefile {",
        "    item.foo=酒",
        "    item.bar=巴",
        "}",
        "",
    ];
    assert_eq!(lines, expected);
}

#[test]
fn round_trip_preserves_the_ordered_pairs() {
    let f = LangFile {
        items: items(&[("item.foo", "酒"), ("b", ""), ("", "only text"), ("c", "x=y")]),
    };
    let back = LangFile::from_lines(&f.to_lines());
    assert_eq!(back.items, f.items);
}

#[test]
fn from_lines_reads_only_the_language_section() {
    let lines: Vec<String> = vec![
        "# junk",
        "other=pair outside the section",
        "languagefile {",
        "    item.one=一",
        "   \t item.two=二  \t",
        "}",
        "after=the end",
    ]
    .into_iter()
    .map(|s| s.to_string())
    .collect();
    let f = LangFile::from_lines(&lines);
    assert_eq!(f.items, items(&[("item.one", "一"), ("item.two", "二")]));
}

#[test]
fn from_lines_splits_at_the_first_equals_sign() {
    let lines: Vec<String> = vec!["languagefile {", "    a=b=c", "}"]
        .into_iter()
        .map(|s| s.to_string())
        .collect();
    let f = LangFile::from_lines(&lines);
    assert_eq!(f.items, items(&[("a", "b=c")]));
}

#[test]
fn from_lines_ignores_the_enable_block() {
    let f = LangFile { items: items(&[]) };
    let back = LangFile::from_lines(&f.to_lines());
    // the header's own B:...=true line is no language entry
    assert_eq!(back.items, items(&[]));
}

#[test]
fn config_new_has_the_default_language() {
    let c = Config::new();
    assert_eq!(c.lang, "zh");
    assert_eq!(c.version, "");
    assert_eq!(c.generators.len(), 0);
}

fn meta(group: &str, namespace: &str) -> GeneratorMeta {
    GeneratorMeta {
        group: group.to_string(),
        namespace: namespace.to_string(),
        completed: true,
        extensions: Vec::new(),
    }
}

#[test]
fn config_generators_builds_dictionary_generators() {
    let c = Config {
        version: "1".to_string(),
        lang: "zh".to_string(),
        generators: vec![GeneratorDecl {
            meta: meta("words", "item"),
            dict: Some(vec![
                ("Stone".to_string(), DictValue::Text("石".to_string())),
                (
                    "Gem".to_string(),
                    DictValue::Nested(items(&[("item.gem", "宝"), ("item.jewel", "珠")])),
                ),
            ]),
            rules: None,
        }],
    };
    let gens = c.generators();
    assert_eq!(gens.len(), 3);
    match &gens[0] {
        GeneratorType::Dict(d) => {
            assert_eq!(d.meta.namespace, "item");
            assert_eq!(d.dict, items(&[("Stone", "石")]));
        }
        _ => panic!("expected a dictionary generator"),
    }
    match &gens[1] {
        GeneratorType::Dict(d) => {
            // the nested child key rescopes the generator
            assert_eq!(d.meta.namespace, "item.gem");
            assert_eq!(d.dict, items(&[("Gem", "宝")]));
        }
        _ => panic!("expected a dictionary generator"),
    }
    match &gens[2] {
        GeneratorType::Dict(d) => {
            assert_eq!(d.meta.namespace, "item.jewel");
            assert_eq!(d.dict, items(&[("Gem", "珠")]));
        }
        _ => panic!("expected a dictionary generator"),
    }
}

#[test]
fn config_generators_prefers_rules_over_a_dictionary() {
    let rule = Rule {
        source: "{0}".to_string(),
        target: "{0}".to_string(),
        subs: vec!["num".to_string()],
    };
    let c = Config {
        version: String::new(),
        lang: "zh".to_string(),
        generators: vec![GeneratorDecl {
            meta: meta("main", ""),
            dict: Some(vec![("x".to_string(), DictValue::Text("y".to_string()))]),
            rules: Some(vec![rule.clone()]),
        }],
    };
    let gens = c.generators();
    assert_eq!(gens.len(), 1);
    match &gens[0] {
        GeneratorType::Rule(r) => {
            assert_eq!(r.rules, vec![rule]);
            assert_eq!(r.meta.group, "main");
        }
        _ => panic!("expected a rule generator"),
    }
}
