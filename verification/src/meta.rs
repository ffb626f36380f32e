//! Metadata attached to every generator and to every generated result:
//! a group name, a hierarchical namespace, a completion flag and a set of
//! extension tags.  A metadata value is valid iff its group is non-empty;
//! an empty group is the sentinel for "invalid" and poisons any
//! combination it participates in.

use vstd::prelude::*;

verus! {

/// Mathematical model of a metadata value.
pub ghost struct MetaView {
    pub group: Seq<char>,
    pub namespace: Seq<char>,
    pub completed: bool,
    pub extensions: Seq<Seq<char>>,
}

/// Two namespaces may combine iff one is a prefix of the other
/// (nested scoping).
pub open spec fn ns_compatible(a: Seq<char>, b: Seq<char>) -> bool {
    a.is_prefix_of(b) || b.is_prefix_of(a)
}

/// The more specific (longer) of two namespaces.
pub open spec fn longer_ns(a: Seq<char>, b: Seq<char>) -> Seq<char> {
    if b.len() > a.len() {
        b
    } else {
        a
    }
}

/// Union of two extension lists: keep `mine`, then append each element of
/// `other` that is not already present, in order.
pub open spec fn ext_union(mine: Seq<Seq<char>>, other: Seq<Seq<char>>) -> Seq<Seq<char>>
    decreases other.len(),
{
    if other.len() == 0 {
        mine
    } else {
        ext_union(
            if mine.contains(other[0]) {
                mine
            } else {
                mine.push(other[0])
            },
            other.drop_first(),
        )
    }
}

/// What `GeneratorMeta::combine` computes.
///
/// An already-poisoned value stays as it is; incompatible namespaces
/// poison the result (only the group is cleared); otherwise the result
/// keeps the group, takes the more specific namespace and the union of
/// the extension sets.
pub open spec fn spec_combine(a: MetaView, b: MetaView) -> MetaView {
    if a.group.len() == 0 {
        a
    } else if !ns_compatible(a.namespace, b.namespace) {
        MetaView { group: Seq::empty(), ..a }
    } else {
        MetaView {
            namespace: longer_ns(a.namespace, b.namespace),
            extensions: ext_union(a.extensions, b.extensions),
            ..a
        }
    }
}

/// The scope attached to a generator or to a generated result.
#[derive(Debug, PartialEq, Eq)]
pub struct GeneratorMeta {
    pub group: String,
    pub namespace: String,
    pub completed: bool,
    pub extensions: Vec<String>,
}

impl View for GeneratorMeta {
    type V = MetaView;

    open spec fn view(&self) -> MetaView {
        MetaView {
            group: self.group@,
            namespace: self.namespace@,
            completed: self.completed,
            extensions: self.extensions@.map_values(|s: String| s@),
        }
    }
}

impl Clone for GeneratorMeta {
    fn clone(&self) -> (r: Self)
        ensures
            r@ == self@,
    {
        let r = GeneratorMeta {
            group: self.group.clone(),
            namespace: self.namespace.clone(),
            completed: self.completed,
            extensions: clone_strings(&self.extensions),
        };
        assert(r@.extensions =~= self@.extensions);
        r
    }
}

/// The views of a list of strings.
pub open spec fn strs_view(s: Seq<String>) -> Seq<Seq<char>> {
    s.map_values(|x: String| x@)
}

/// Element-wise clone of a list of strings, preserving the view.
pub fn clone_strings(v: &Vec<String>) -> (r: Vec<String>)
    ensures
        r@.map_values(|s: String| s@) =~= v@.map_values(|s: String| s@),
        r@.len() == v@.len(),
{
    let mut r: Vec<String> = Vec::new();
    let mut i: usize = 0;
    while i < v.len()
        invariant
            i <= v.len(),
            r@.len() == i,
            forall|j: int| 0 <= j < i ==> r@[j]@ == v@[j]@,
        decreases v.len() - i,
    {
        r.push(v[i].clone());
        i += 1;
    }
    proof {
        let rv = r@.map_values(|s: String| s@);
        let vv = v@.map_values(|s: String| s@);
        assert forall|j: int| 0 <= j < vv.len() implies #[trigger] rv[j] == vv[j] by {
            assert(r@[j]@ == v@[j]@);
        }
        assert(rv =~= vv);
    }
    r
}

/// Whether `a` is a prefix of `b`, at the level of characters.
pub fn str_is_prefix(a: &str, b: &str) -> (r: bool)
    ensures
        r == a@.is_prefix_of(b@),
{
    let alen = a.unicode_len();
    let blen = b.unicode_len();
    if alen > blen {
        return false;
    }
    let mut i: usize = 0;
    while i < alen
        invariant
            i <= alen,
            alen <= blen,
            alen == a@.len(),
            blen == b@.len(),
            forall|j: int| 0 <= j < i ==> a@[j] == b@[j],
        decreases alen - i,
    {
        if a.get_char(i) != b.get_char(i) {
            assert(a@[i as int] != b@.subrange(0, alen as int)[i as int]);
            return false;
        }
        i += 1;
    }
    assert(a@ =~= b@.subrange(0, alen as int));
    true
}

/// Whether two namespaces are allowed to combine.
pub fn namespaces_compatible(a: &str, b: &str) -> (r: bool)
    ensures
        r == ns_compatible(a@, b@),
{
    str_is_prefix(a, b) || str_is_prefix(b, a)
}

/// Whether `v` holds a string equal to `x`.
pub fn contains_string(v: &Vec<String>, x: &String) -> (r: bool)
    ensures
        r == v@.map_values(|s: String| s@).contains(x@),
{
    let ghost vw = v@.map_values(|s: String| s@);
    let mut i: usize = 0;
    while i < v.len()
        invariant
            i <= v.len(),
            vw == v@.map_values(|s: String| s@),
            forall|j: int| 0 <= j < i ==> vw[j] != x@,
        decreases v.len() - i,
    {
        if v[i].eq(x) {
            assert(vw[i as int] == x@);
            return true;
        }
        i += 1;
    }
    assert forall|j: int| 0 <= j < vw.len() implies vw[j] != x@ by {}
    false
}

/// `ext_union` over an input extended by one element on the right.
proof fn lemma_ext_union_push(mine: Seq<Seq<char>>, other: Seq<Seq<char>>, x: Seq<char>)
    ensures
        ext_union(mine, other.push(x)) == (if ext_union(mine, other).contains(x) {
            ext_union(mine, other)
        } else {
            ext_union(mine, other).push(x)
        }),
    decreases other.len(),
{
    let p = other.push(x);
    if other.len() == 0 {
        assert(p[0] == x);
        assert(p.drop_first() =~= other);
        assert(ext_union(mine, other) == mine);
        if mine.contains(x) {
            assert(ext_union(mine, p) == ext_union(mine, p.drop_first()));
        } else {
            assert(ext_union(mine, p) == ext_union(mine.push(x), p.drop_first()));
        }
    } else {
        let mine2 = if mine.contains(other[0]) {
            mine
        } else {
            mine.push(other[0])
        };
        assert(p[0] == other[0]);
        assert(p.drop_first() =~= other.drop_first().push(x));
        assert(ext_union(mine, p) == ext_union(mine2, other.drop_first().push(x)));
        assert(ext_union(mine, other) == ext_union(mine2, other.drop_first()));
        lemma_ext_union_push(mine2, other.drop_first(), x);
    }
}

/// Everything in `mine` stays in the union, and the union only holds
/// elements of `mine` or `other`.
proof fn lemma_ext_union_set(mine: Seq<Seq<char>>, other: Seq<Seq<char>>)
    ensures
        ext_union(mine, other).to_set() == mine.to_set().union(other.to_set()),
    decreases other.len(),
{
    if other.len() == 0 {
        assert(other.to_set() =~= Set::<Seq<char>>::empty());
        assert(ext_union(mine, other).to_set() =~= mine.to_set().union(other.to_set()));
    } else {
        let mine2 = if mine.contains(other[0]) {
            mine
        } else {
            mine.push(other[0])
        };
        lemma_ext_union_set(mine2, other.drop_first());
        assert(mine2.to_set() =~= mine.to_set().insert(other[0])) by {
            if mine.contains(other[0]) {
                assert forall|y: Seq<char>| mine.to_set().insert(other[0]).contains(y) implies
                    mine2.to_set().contains(y) by {
                    if y == other[0] {
                        assert(mine.contains(y));
                    }
                }
            } else {
                assert forall|y: Seq<char>| #[trigger] mine2.contains(y) implies
                    mine.to_set().insert(other[0]).contains(y) by {
                    let i = choose|i: int| 0 <= i < mine2.len() && mine2[i] == y;
                    if i < mine.len() {
                        assert(mine.contains(y));
                    }
                }
                assert forall|y: Seq<char>| mine.to_set().insert(other[0]).contains(y) implies
                    mine2.to_set().contains(y) by {
                    if y == other[0] {
                        assert(mine2[mine.len() as int] == y);
                    } else {
                        let i = choose|i: int| 0 <= i < mine.len() && mine[i] == y;
                        assert(mine2[i] == y);
                    }
                }
            }
        }
        assert(other.to_set() =~= other.drop_first().to_set().insert(other[0])) by {
            assert forall|y: Seq<char>| #[trigger] other.contains(y) implies
                other.drop_first().to_set().insert(other[0]).contains(y) by {
                let i = choose|i: int| 0 <= i < other.len() && other[i] == y;
                if i > 0 {
                    assert(other.drop_first()[i - 1] == y);
                }
            }
            assert forall|y: Seq<char>| other.drop_first().to_set().insert(other[0]).contains(y)
                implies other.to_set().contains(y) by {
                if y == other[0] {
                    assert(other[0] == y);
                } else {
                    let i = choose|i: int|
                        0 <= i < other.drop_first().len() && other.drop_first()[i] == y;
                    assert(other[i + 1] == y);
                }
            }
        }
        assert(ext_union(mine, other).to_set() =~= mine.to_set().union(other.to_set()));
    }
}

impl GeneratorMeta {
    /// A metadata value is empty (invalid, poisoned) iff its group name
    /// has no characters.
    pub fn is_empty(&self) -> (r: bool)
        ensures
            r == (self@.group.len() == 0),
    {
        self.group.as_str().is_empty()
    }

    /// A copy of this metadata scoped to another namespace.
    pub fn with_namespace(&self, namespace: String) -> (r: Self)
        ensures
            r@ == (MetaView { namespace: namespace@, ..self@ }),
    {
        let mut n = self.clone();
        n.namespace = namespace;
        n
    }

    /// Combine this metadata with the metadata of a chosen sub-result.
    ///
    /// An already-poisoned value is left unchanged; incompatible
    /// namespaces clear the group (poison); otherwise the namespace
    /// becomes the more specific of the two and the extension sets are
    /// unioned.
    pub fn combine(&mut self, rhs: &GeneratorMeta)
        ensures
            final(self)@ == spec_combine(old(self)@, rhs@),
    {
        if self.is_empty() {
            return;
        }
        let this_pref = str_is_prefix(self.namespace.as_str(), rhs.namespace.as_str());
        let that_pref = str_is_prefix(rhs.namespace.as_str(), self.namespace.as_str());
        if this_pref {
            // rhs is at least as specific: take its namespace
            proof {
                if self@.namespace.len() == rhs@.namespace.len() {
                    assert(rhs@.namespace.subrange(0, rhs@.namespace.len() as int)
                        =~= rhs@.namespace);
                }
            }
            self.namespace = rhs.namespace.clone();
        } else if that_pref {
            // this namespace is strictly more specific: keep it
        } else {
            self.group = String::new();
            return;
        }
        // union the extension sets
        let ghost orig = old(self)@.extensions;
        let ghost rext = rhs@.extensions;
        let mut k: usize = 0;
        while k < rhs.extensions.len()
            invariant
                k <= rhs.extensions.len(),
                rext == rhs@.extensions,
                rext.len() == rhs.extensions@.len(),
                self@.extensions == ext_union(orig, rext.take(k as int)),
                self@.group == old(self)@.group,
                self@.namespace == longer_ns(old(self)@.namespace, rhs@.namespace),
                self@.completed == old(self)@.completed,
            decreases rhs.extensions.len() - k,
        {
            proof {
                assert(rext.take(k as int + 1) =~= rext.take(k as int).push(rext[k as int]));
                lemma_ext_union_push(orig, rext.take(k as int), rext[k as int]);
            }
            let x = &rhs.extensions[k];
            proof {
                assert(rext[k as int] == rhs.extensions@[k as int]@);
            }
            if !contains_string(&self.extensions, x) {
                let old_len = self.extensions.len();
                self.extensions.push(x.clone());
                proof {
                    assert(self.extensions@.map_values(|s: String| s@)
                        =~= ext_union(orig, rext.take(k as int)).push(rext[k as int]));
                }
            }
            k += 1;
        }
        proof {
            assert(rext.take(rext.len() as int) =~= rext);
        }
    }
}

/// How metadata combination behaves: combining an already-poisoned value
/// yields it unchanged (still poisoned); combining values with
/// incompatible namespaces yields a poisoned value; combining compatible
/// valid values keeps the group, takes the longer namespace and the
/// union of the extension sets.
pub proof fn lemma_combine_properties(a: MetaView, b: MetaView)
    ensures
        a.group.len() == 0 ==> spec_combine(a, b) == a,
        a.group.len() > 0 && !ns_compatible(a.namespace, b.namespace) ==> spec_combine(
            a,
            b,
        ).group.len() == 0,
        a.group.len() > 0 && ns_compatible(a.namespace, b.namespace) ==> spec_combine(a, b).group
            == a.group && spec_combine(a, b).namespace == longer_ns(a.namespace, b.namespace)
            && spec_combine(a, b).extensions.to_set() == a.extensions.to_set().union(
            b.extensions.to_set(),
        ),
{
    if a.group.len() > 0 && ns_compatible(a.namespace, b.namespace) {
        lemma_ext_union_set(a.extensions, b.extensions);
    }
}

} // verus!
