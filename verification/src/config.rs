//! The configuration: an ordered list of generator declarations, each
//! carrying metadata and either a literal dictionary (possibly nested
//! one level, for per-sub-key namespacing) or a list of rules.

use vstd::prelude::*;
use crate::generator::DictGenerator;
use crate::generator::GeneratorType;
use crate::generator::GeneratorView;
use crate::generator::RuleGenerator;
use crate::lang::item_view;
use crate::lang::items_view;
use crate::lang::LangItem;
use crate::meta::GeneratorMeta;
use crate::meta::MetaView;
use crate::replacer::gens_view;
use crate::rule::clone_rules;
use crate::rule::Rule;
use crate::rule::RuleView;

verus! {

/// The literal dictionary value under one key: a plain target text, or
/// one more level of (sub-namespace, target text) pairs.
#[derive(Debug, PartialEq, Eq)]
pub enum DictValue {
    Text(String),
    Nested(Vec<LangItem>),
}

/// The view of a dictionary value.
pub ghost enum DictValueView {
    Text(Seq<char>),
    Nested(Seq<(Seq<char>, Seq<char>)>),
}

impl View for DictValue {
    type V = DictValueView;

    open spec fn view(&self) -> DictValueView {
        match self {
            DictValue::Text(t) => DictValueView::Text(t@),
            DictValue::Nested(m) => DictValueView::Nested(items_view(m@)),
        }
    }
}

/// One generator declaration.
#[derive(Debug, PartialEq, Eq)]
pub struct GeneratorDecl {
    pub meta: GeneratorMeta,
    pub dict: Option<Vec<(String, DictValue)>>,
    pub rules: Option<Vec<Rule>>,
}

/// The view of a declaration.
pub ghost struct DeclView {
    pub meta: MetaView,
    pub dict: Option<Seq<(Seq<char>, DictValueView)>>,
    pub rules: Option<Seq<RuleView>>,
}

impl View for GeneratorDecl {
    type V = DeclView;

    open spec fn view(&self) -> DeclView {
        DeclView {
            meta: self.meta@,
            dict: match &self.dict {
                Some(d) => Some(d@.map_values(|e: (String, DictValue)| (e.0@, e.1@))),
                None => None,
            },
            rules: match &self.rules {
                Some(r) => Some(r@.map_values(|x: Rule| x@)),
                None => None,
            },
        }
    }
}

/// The views of a list of declarations.
pub open spec fn decls_view(s: Seq<GeneratorDecl>) -> Seq<DeclView> {
    s.map_values(|d: GeneratorDecl| d@)
}

/// The generators one dictionary entry declares: a plain text becomes
/// one single-pair dictionary generator; a nested map becomes one
/// generator per child, scoped to the child's key as its namespace.
pub open spec fn dict_entry_gens(meta: MetaView, e: (Seq<char>, DictValueView)) -> Seq<
    GeneratorView,
> {
    match e.1 {
        DictValueView::Text(t) => seq![
            GeneratorView::Dict { meta, items: seq![(e.0, t)] },
        ],
        DictValueView::Nested(children) => children.map_values(
            |c: (Seq<char>, Seq<char>)| GeneratorView::Dict {
                meta: MetaView { namespace: c.0, ..meta },
                items: seq![(e.0, c.1)],
            },
        ),
    }
}

/// The generators a whole literal dictionary declares, in entry order.
pub open spec fn dict_gens(meta: MetaView, entries: Seq<(Seq<char>, DictValueView)>) -> Seq<
    GeneratorView,
>
    decreases entries.len(),
{
    if entries.len() == 0 {
        Seq::empty()
    } else {
        dict_entry_gens(meta, entries[0]) + dict_gens(meta, entries.drop_first())
    }
}

proof fn lemma_dict_gens_push(
    meta: MetaView,
    entries: Seq<(Seq<char>, DictValueView)>,
    e: (Seq<char>, DictValueView),
)
    ensures
        dict_gens(meta, entries.push(e)) == dict_gens(meta, entries) + dict_entry_gens(meta, e),
    decreases entries.len(),
{
    let p = entries.push(e);
    if entries.len() == 0 {
        assert(p.drop_first() =~= entries);
        assert(dict_gens(meta, p) =~= dict_gens(meta, entries) + dict_entry_gens(meta, e));
    } else {
        assert(p[0] == entries[0]);
        assert(p.drop_first() =~= entries.drop_first().push(e));
        lemma_dict_gens_push(meta, entries.drop_first(), e);
        assert(dict_entry_gens(meta, entries[0]) + (dict_gens(meta, entries.drop_first())
            + dict_entry_gens(meta, e)) =~= (dict_entry_gens(meta, entries[0]) + dict_gens(
            meta,
            entries.drop_first(),
        )) + dict_entry_gens(meta, e));
    }
}

/// The generators one declaration contributes: its rules, if it has
/// any, else its literal dictionary, else nothing.
pub open spec fn decl_gens(d: DeclView) -> Seq<GeneratorView> {
    if d.rules is Some {
        seq![GeneratorView::Rule { meta: d.meta, rules: d.rules.unwrap() }]
    } else if d.dict is Some {
        dict_gens(d.meta, d.dict.unwrap())
    } else {
        Seq::empty()
    }
}

/// The generator list a configuration declares, in declaration order.
pub open spec fn spec_config_gens(decls: Seq<DeclView>) -> Seq<GeneratorView>
    decreases decls.len(),
{
    if decls.len() == 0 {
        Seq::empty()
    } else {
        decl_gens(decls[0]) + spec_config_gens(decls.drop_first())
    }
}

proof fn lemma_config_gens_push(decls: Seq<DeclView>, d: DeclView)
    ensures
        spec_config_gens(decls.push(d)) == spec_config_gens(decls) + decl_gens(d),
    decreases decls.len(),
{
    let p = decls.push(d);
    if decls.len() == 0 {
        assert(p.drop_first() =~= decls);
        assert(spec_config_gens(p) =~= spec_config_gens(decls) + decl_gens(d));
    } else {
        assert(p[0] == decls[0]);
        assert(p.drop_first() =~= decls.drop_first().push(d));
        lemma_config_gens_push(decls.drop_first(), d);
        assert(decl_gens(decls[0]) + (spec_config_gens(decls.drop_first()) + decl_gens(d))
            =~= (decl_gens(decls[0]) + spec_config_gens(decls.drop_first())) + decl_gens(d));
    }
}

/// The configuration document: a version, a language code, and the
/// generator declarations.
#[derive(Debug, PartialEq, Eq)]
pub struct Config {
    pub version: String,
    pub lang: String,
    pub generators: Vec<GeneratorDecl>,
}

impl Config {
    /// An empty configuration for the default language.
    pub fn new() -> (r: Config)
        ensures
            r.version@.len() == 0,
            r.lang@ == "zh"@,
            r.generators@.len() == 0,
    {
        Config { version: String::new(), lang: String::from_str("zh"), generators: Vec::new() }
    }

    /// Build the generator list the configuration declares.
    pub fn generators(&self) -> (r: Vec<GeneratorType>)
        ensures
            gens_view(r@) == spec_config_gens(decls_view(self.generators@)),
    {
        let ghost dv = decls_view(self.generators@);
        let mut r: Vec<GeneratorType> = Vec::new();
        let mut i: usize = 0;
        proof {
            assert(gens_view(r@) =~= spec_config_gens(dv.take(0)));
        }
        while i < self.generators.len()
            invariant
                i <= self.generators@.len(),
                dv == decls_view(self.generators@),
                dv.len() == self.generators@.len(),
                gens_view(r@) == spec_config_gens(dv.take(i as int)),
            decreases self.generators@.len() - i,
        {
            let decl = &self.generators[i];
            let ghost dview = dv[i as int];
            proof {
                assert(dview == self.generators@[i as int]@);
            }
            let ghost before = gens_view(r@);
            match &decl.rules {
                Some(rules) => {
                    let g = GeneratorType::Rule(
                        RuleGenerator { meta: decl.meta.clone(), rules: clone_rules(rules) },
                    );
                    proof {
                        assert(g@ == (GeneratorView::Rule {
                            meta: dview.meta,
                            rules: dview.rules.unwrap(),
                        }));
                    }
                    r.push(g);
                    proof {
                        assert(gens_view(r@) =~= before + decl_gens(dview));
                    }
                },
                None => {
                    match &decl.dict {
                        Some(entries) => {
                            let ghost ev = dview.dict.unwrap();
                            let mut j: usize = 0;
                            proof {
                                assert(ev == entries@.map_values(
                                    |e: (String, DictValue)| (e.0@, e.1@),
                                ));
                                assert(dict_gens(dview.meta, ev.take(0))
                                    =~= Seq::<GeneratorView>::empty());
                                assert(gens_view(r@) =~= before + dict_gens(
                                    dview.meta,
                                    ev.take(0),
                                ));
                            }
                            while j < entries.len()
                                invariant
                                    j <= entries@.len(),
                                    ev == entries@.map_values(
                                        |e: (String, DictValue)| (e.0@, e.1@),
                                    ),
                                    ev.len() == entries@.len(),
                                    dview == dv[i as int],
                                    0 <= i < dv.len(),
                                    dview.meta == decl.meta@,
                                    decl == self.generators@[i as int],
                                    gens_view(r@) == before + dict_gens(
                                        dview.meta,
                                        ev.take(j as int),
                                    ),
                                decreases entries@.len() - j,
                            {
                                let ghost eview = ev[j as int];
                                proof {
                                    assert(eview == (entries@[j as int].0@, entries@[
                                        j as int
                                    ].1@));
                                    lemma_dict_gens_push(
                                        dview.meta,
                                        ev.take(j as int),
                                        eview,
                                    );
                                    assert(ev.take(j as int).push(eview) =~= ev.take(
                                        j as int + 1,
                                    ));
                                }
                                let key = &entries[j].0;
                                match &entries[j].1 {
                                    DictValue::Text(t) => {
                                        let mut items: Vec<LangItem> = Vec::new();
                                        items.push((key.clone(), t.clone()));
                                        let g = GeneratorType::Dict(
                                            DictGenerator { meta: decl.meta.clone(), dict: items },
                                        );
                                        let ghost mid = gens_view(r@);
                                        proof {
                                            assert(items_view(g->Dict_0.dict@) =~= seq![
                                                (eview.0, t@),
                                            ]);
                                            assert(g@ == dict_entry_gens(dview.meta, eview)[0]);
                                        }
                                        r.push(g);
                                        proof {
                                            assert(gens_view(r@) =~= mid + dict_entry_gens(
                                                dview.meta,
                                                eview,
                                            ));
                                        }
                                    },
                                    DictValue::Nested(children) => {
                                        let ghost cv = items_view(children@);
                                        let ghost mapped = dict_entry_gens(dview.meta, eview);
                                        let mut c: usize = 0;
                                        proof {
                                            assert(mapped.len() == cv.len());
                                            assert(gens_view(r@) =~= (before + dict_gens(
                                                dview.meta,
                                                ev.take(j as int),
                                            )) + mapped.take(0));
                                        }
                                        while c < children.len()
                                            invariant
                                                c <= children@.len(),
                                                cv == items_view(children@),
                                                cv.len() == children@.len(),
                                                dview == dv[i as int],
                                                0 <= i < dv.len(),
                                                dview.meta == decl.meta@,
                                                decl == self.generators@[i as int],
                                                eview == ev[j as int],
                                                0 <= j < ev.len(),
                                                eview.1 == DictValueView::Nested(cv),
                                                key == entries@[j as int].0,
                                                eview.0 == key@,
                                                mapped == dict_entry_gens(dview.meta, eview),
                                                mapped.len() == cv.len(),
                                                gens_view(r@) == (before + dict_gens(
                                                    dview.meta,
                                                    ev.take(j as int),
                                                )) + mapped.take(c as int),
                                            decreases children@.len() - c,
                                        {
                                            let mut items: Vec<LangItem> = Vec::new();
                                            items.push((key.clone(), children[c].1.clone()));
                                            let g = GeneratorType::Dict(
                                                DictGenerator {
                                                    meta: decl.meta.with_namespace(
                                                        children[c].0.clone(),
                                                    ),
                                                    dict: items,
                                                },
                                            );
                                            let ghost mid = gens_view(r@);
                                            proof {
                                                assert(cv[c as int] == item_view(
                                                    children@[c as int],
                                                ));
                                                assert(g@ == mapped[c as int]) by {
                                                    assert(items_view(g->Dict_0.dict@) =~= seq![
                                                        (eview.0, cv[c as int].1),
                                                    ]);
                                                }
                                                assert(mapped.take(c as int).push(
                                                    mapped[c as int],
                                                ) =~= mapped.take(c as int + 1));
                                            }
                                            r.push(g);
                                            proof {
                                                assert(gens_view(r@) =~= mid.push(
                                                    mapped[c as int],
                                                ));
                                            }
                                            c += 1;
                                        }
                                        proof {
                                            assert(mapped.take(cv.len() as int) =~= mapped);
                                        }
                                    },
                                }
                                j += 1;
                            }
                            proof {
                                assert(ev.take(ev.len() as int) =~= ev);
                                assert(gens_view(r@) =~= before + decl_gens(dview));
                            }
                        },
                        None => {
                            proof {
                                assert(decl_gens(dview) =~= Seq::<GeneratorView>::empty());
                                assert(gens_view(r@) =~= before + decl_gens(dview));
                            }
                        },
                    }
                },
            }
            proof {
                lemma_config_gens_push(dv.take(i as int), dview);
                assert(dv.take(i as int).push(dview) =~= dv.take(i as int + 1));
                assert(gens_view(r@) =~= spec_config_gens(dv.take(i as int + 1)));
            }
            i += 1;
        }
        proof {
            assert(dv.take(dv.len() as int) =~= dv);
        }
        r
    }
}

} // verus!
