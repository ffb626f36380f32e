//! A template rule: a source template and a target template, each with a
//! placeholder, plus an ordered list of sub-group names.  Slot `i` of the
//! rule draws its candidates from the group named by `subs[i]`.

use vstd::prelude::*;

verus! {

/// Mathematical model of a rule.
pub ghost struct RuleView {
    pub source: Seq<char>,
    pub target: Seq<char>,
    pub subs: Seq<Seq<char>>,
}

/// A template rule, created from configuration and immutable afterward.
#[derive(Debug, PartialEq, Eq)]
pub struct Rule {
    pub source: String,
    pub target: String,
    pub subs: Vec<String>,
}

impl View for Rule {
    type V = RuleView;

    open spec fn view(&self) -> RuleView {
        RuleView {
            source: self.source@,
            target: self.target@,
            subs: self.subs@.map_values(|s: String| s@),
        }
    }
}

impl Clone for Rule {
    fn clone(&self) -> (r: Self)
        ensures
            r@ == self@,
    {
        let r = Rule {
            source: self.source.clone(),
            target: self.target.clone(),
            subs: crate::meta::clone_strings(&self.subs),
        };
        assert(r@.subs =~= self@.subs);
        r
    }
}

/// Whether the placeholder `{0}` stands at position `i` of `t`.
pub open spec fn ph_at(t: Seq<char>, i: int) -> bool {
    &&& i + 3 <= t.len()
    &&& t[i] == '{'
    &&& t[i + 1] == '0'
    &&& t[i + 2] == '}'
}

/// Replace every occurrence of the placeholder `{0}` in `t` by `v`,
/// scanning left to right and never rescanning substituted text.
pub open spec fn spec_subst(t: Seq<char>, v: Seq<char>) -> Seq<char>
    decreases t.len(),
{
    if t.len() == 0 {
        t
    } else if ph_at(t, 0) {
        v + spec_subst(t.skip(3), v)
    } else {
        seq![t[0]] + spec_subst(t.skip(1), v)
    }
}

/// Build one output text from a template by substituting the placeholder.
pub fn substitute(template: &str, value: &str) -> (r: String)
    ensures
        r@ == spec_subst(template@, value@),
{
    let n = template.unicode_len();
    let mut r = String::new();
    let mut i: usize = 0;
    proof {
        assert(template@.skip(0) =~= template@);
        assert(Seq::<char>::empty() + spec_subst(template@, value@) =~= spec_subst(
            template@,
            value@,
        ));
    }
    while i < n
        invariant
            i <= n,
            n == template@.len(),
            spec_subst(template@, value@) == r@ + spec_subst(
                template@.skip(i as int),
                value@,
            ),
        decreases n - i,
    {
        let ghost s = template@.skip(i as int);
        if n - i > 2 && template.get_char(i) == '{' && template.get_char(i + 1) == '0'
            && template.get_char(i + 2) == '}' {
            let ghost old_r = r@;
            r.append(value);
            proof {
                assert(ph_at(s, 0));
                assert(s.skip(3) =~= template@.skip(i as int + 3));
                assert(spec_subst(s, value@) == value@ + spec_subst(s.skip(3), value@));
                assert(old_r + (value@ + spec_subst(s.skip(3), value@)) =~= (old_r + value@)
                    + spec_subst(s.skip(3), value@));
            }
            i += 3;
        } else {
            let c = template.substring_char(i, i + 1);
            let ghost old_r = r@;
            r.append(c);
            proof {
                assert(!ph_at(s, 0));
                assert(s.skip(1) =~= template@.skip(i as int + 1));
                assert(c@ =~= seq![s[0]]);
                assert(spec_subst(s, value@) == seq![s[0]] + spec_subst(s.skip(1), value@));
                assert(old_r + (c@ + spec_subst(s.skip(1), value@)) =~= (old_r + c@)
                    + spec_subst(s.skip(1), value@));
            }
            i += 1;
        }
    }
    proof {
        assert(template@.skip(n as int) =~= Seq::<char>::empty());
        assert(r@ + spec_subst(template@.skip(n as int), value@) =~= r@);
    }
    r
}


/// Element-wise copy of a list of rules, preserving the view.
pub fn clone_rules(v: &Vec<Rule>) -> (r: Vec<Rule>)
    ensures
        r@.map_values(|x: Rule| x@) == v@.map_values(|x: Rule| x@),
        r@.len() == v@.len(),
{
    let mut r: Vec<Rule> = Vec::new();
    let mut i: usize = 0;
    while i < v.len()
        invariant
            i <= v.len(),
            r@.len() == i,
            forall|j: int| 0 <= j < i ==> #[trigger] r@[j]@ == v@[j]@,
        decreases v.len() - i,
    {
        let e = v[i].clone();
        r.push(e);
        i += 1;
    }
    proof {
        let rv = r@.map_values(|x: Rule| x@);
        let vv = v@.map_values(|x: Rule| x@);
        assert forall|j: int| 0 <= j < vv.len() implies #[trigger] rv[j] == vv[j] by {
            assert(r@[j]@ == v@[j]@);
        }
        assert(rv =~= vv);
    }
    r
}

} // verus!
