//! Language data: substitution pairs, generated result lists, and the
//! flat `key=value` language-file text format.

use vstd::prelude::*;
use crate::meta::GeneratorMeta;
use crate::meta::MetaView;

verus! {

/// The atomic unit produced and consumed throughout: a
/// (source text, target text) substitution pair, also used as a
/// (key, text) language-file line.
pub type LangItem = (String, String);

/// The view of one pair.
pub open spec fn item_view(p: LangItem) -> (Seq<char>, Seq<char>) {
    (p.0@, p.1@)
}

/// The views of a list of pairs.
pub open spec fn items_view(s: Seq<LangItem>) -> Seq<(Seq<char>, Seq<char>)> {
    s.map_values(|p: LangItem| item_view(p))
}

/// Element-wise copy of a list of pairs, preserving the view.
pub fn clone_items(v: &Vec<LangItem>) -> (r: Vec<LangItem>)
    ensures
        items_view(r@) == items_view(v@),
        r@.len() == v@.len(),
{
    let mut r: Vec<LangItem> = Vec::new();
    let mut i: usize = 0;
    while i < v.len()
        invariant
            i <= v.len(),
            r@.len() == i,
            forall|j: int| 0 <= j < i ==> item_view(#[trigger] r@[j]) == item_view(v@[j]),
        decreases v.len() - i,
    {
        let p = (v[i].0.clone(), v[i].1.clone());
        r.push(p);
        i += 1;
    }
    proof {
        assert forall|j: int| 0 <= j < v@.len() implies #[trigger] items_view(r@)[j]
            == items_view(v@)[j] by {
            assert(item_view(r@[j]) == item_view(v@[j]));
        }
        assert(items_view(r@) =~= items_view(v@));
    }
    r
}

/// The view of a generated result: its scope and its pairs.
pub ghost struct LangResultView {
    pub meta: MetaView,
    pub items: Seq<(Seq<char>, Seq<char>)>,
}

/// One generated result: an ordered list of substitution pairs plus the
/// metadata that scopes them.
#[derive(Debug, PartialEq, Eq)]
pub struct LangResult {
    pub meta: GeneratorMeta,
    pub items: Vec<LangItem>,
}

impl View for LangResult {
    type V = LangResultView;

    open spec fn view(&self) -> LangResultView {
        LangResultView { meta: self.meta@, items: items_view(self.items@) }
    }
}

impl Clone for LangResult {
    fn clone(&self) -> (r: Self)
        ensures
            r@ == self@,
    {
        LangResult { meta: self.meta.clone(), items: clone_items(&self.items) }
    }
}

impl LangResult {
    /// A result is empty iff it holds no pairs; an empty result is
    /// excluded from further combination.
    pub fn is_empty(&self) -> (r: bool)
        ensures
            r == (self@.items.len() == 0),
    {
        self.items.len() == 0
    }
}

/// The views of a list of results.
pub open spec fn results_view(s: Seq<LangResult>) -> Seq<LangResultView> {
    s.map_values(|r: LangResult| r@)
}

/// Element-wise copy of a list of results, preserving the view.
pub fn clone_results(v: &Vec<LangResult>) -> (r: Vec<LangResult>)
    ensures
        results_view(r@) == results_view(v@),
        r@.len() == v@.len(),
{
    let mut r: Vec<LangResult> = Vec::new();
    let mut i: usize = 0;
    while i < v.len()
        invariant
            i <= v.len(),
            r@.len() == i,
            forall|j: int| 0 <= j < i ==> #[trigger] r@[j]@ == v@[j]@,
        decreases v.len() - i,
    {
        let e = v[i].clone();
        r.push(e);
        i += 1;
    }
    proof {
        assert forall|j: int| 0 <= j < v@.len() implies #[trigger] results_view(r@)[j]
            == results_view(v@)[j] by {
            assert(r@[j]@ == v@[j]@);
        }
        assert(results_view(r@) =~= results_view(v@));
    }
    r
}

/// An ordered list of `(key, text)` lines of one language file.
#[derive(Debug, PartialEq, Eq)]
pub struct LangFile {
    pub items: Vec<LangItem>,
}

impl View for LangFile {
    type V = Seq<(Seq<char>, Seq<char>)>;

    open spec fn view(&self) -> Seq<(Seq<char>, Seq<char>)> {
        items_view(self.items@)
    }
}


/// Append copies of all of `src` to `dst`.
pub fn append_results(dst: &mut Vec<LangResult>, src: &Vec<LangResult>)
    ensures
        results_view(final(dst)@) == results_view(old(dst)@) + results_view(src@),
{
    let ghost base = results_view(old(dst)@);
    let ghost sv = results_view(src@);
    let mut i: usize = 0;
    proof {
        assert(results_view(dst@) =~= base + sv.take(0));
    }
    while i < src.len()
        invariant
            i <= src.len(),
            sv == results_view(src@),
            sv.len() == src@.len(),
            results_view(dst@) == base + sv.take(i as int),
        decreases src.len() - i,
    {
        let e = src[i].clone();
        let ghost prev = results_view(dst@);
        dst.push(e);
        proof {
            assert(results_view(dst@) =~= prev.push(sv[i as int]));
            assert(sv.take(i as int + 1) =~= sv.take(i as int).push(sv[i as int]));
            assert(base + sv.take(i as int).push(sv[i as int]) =~= (base + sv.take(
                i as int,
            )).push(sv[i as int]));
        }
        i += 1;
    }
    proof {
        assert(sv.take(sv.len() as int) =~= sv);
    }
}

/// The whitespace trimmed from line ends.
pub open spec fn is_space(c: char) -> bool {
    c == ' ' || c == '\t' || c == '\r'
}

pub open spec fn trim_start(s: Seq<char>) -> Seq<char>
    decreases s.len(),
{
    if s.len() > 0 && is_space(s[0]) {
        trim_start(s.drop_first())
    } else {
        s
    }
}

pub open spec fn trim_end(s: Seq<char>) -> Seq<char>
    decreases s.len(),
{
    if s.len() > 0 && is_space(s.last()) {
        trim_end(s.drop_last())
    } else {
        s
    }
}

/// A line with its surrounding whitespace removed.
pub open spec fn spec_trim(s: Seq<char>) -> Seq<char> {
    trim_end(trim_start(s))
}

pub open spec fn contains_char(s: Seq<char>, c: char) -> bool {
    exists|i: int| 0 <= i < s.len() && s[i] == c
}

/// The first position of `c` in `s`, or the length when absent.
pub open spec fn char_at_first(s: Seq<char>, c: char) -> int
    decreases s.len(),
{
    if s.len() == 0 {
        0
    } else if s[0] == c {
        0
    } else {
        1 + char_at_first(s.drop_first(), c)
    }
}

proof fn lemma_char_at_first(s: Seq<char>, c: char, j: int)
    requires
        0 <= j < s.len(),
        s[j] == c,
        forall|u: int| 0 <= u < j ==> s[u] != c,
    ensures
        char_at_first(s, c) == j,
    decreases j,
{
    if j > 0 {
        let d = s.drop_first();
        assert forall|u: int| 0 <= u < j - 1 implies d[u] != c by {
            assert(d[u] == s[u + 1]);
        }
        assert(d[j - 1] == s[j]);
        lemma_char_at_first(d, c, j - 1);
    }
}

proof fn lemma_char_at_none(s: Seq<char>, c: char)
    requires
        forall|u: int| 0 <= u < s.len() ==> s[u] != c,
    ensures
        char_at_first(s, c) == s.len(),
    decreases s.len(),
{
    if s.len() > 0 {
        let d = s.drop_first();
        assert forall|u: int| 0 <= u < d.len() implies d[u] != c by {
            assert(d[u] == s[u + 1]);
        }
        lemma_char_at_none(d, c);
    }
}

proof fn lemma_trim_start_skip(s: Seq<char>, a: int)
    requires
        0 <= a <= s.len(),
        forall|u: int| 0 <= u < a ==> is_space(s[u]),
    ensures
        trim_start(s) == trim_start(s.skip(a)),
    decreases a,
{
    if a > 0 {
        assert(is_space(s[0]));
        assert(s.drop_first() =~= s.skip(1));
        let d = s.skip(1);
        assert forall|u: int| 0 <= u < a - 1 implies is_space(d[u]) by {
            assert(d[u] == s[u + 1]);
        }
        lemma_trim_start_skip(d, a - 1);
        assert(d.skip(a - 1) =~= s.skip(a));
    } else {
        assert(s.skip(0) =~= s);
    }
}

proof fn lemma_trim_end_take(s: Seq<char>, b: int)
    requires
        0 <= b <= s.len(),
        forall|u: int| b <= u < s.len() ==> is_space(s[u]),
    ensures
        trim_end(s) == trim_end(s.take(b)),
    decreases s.len() - b,
{
    if b < s.len() {
        assert(is_space(s.last()));
        assert(s.drop_last() =~= s.take(s.len() - 1));
        let d = s.take(s.len() - 1);
        assert forall|u: int| b <= u < d.len() implies is_space(d[u]) by {
            assert(d[u] == s[u]);
        }
        lemma_trim_end_take(d, b);
        assert(d.take(b) =~= s.take(b));
    } else {
        assert(s.take(b) =~= s);
    }
}

/// The key and text of one `key=value` line: trim the line, split at
/// the first `=`; the key is what stands before it and the text is
/// everything after it, verbatim.
pub open spec fn parse_line_item(l: Seq<char>) -> (Seq<char>, Seq<char>) {
    let t = spec_trim(l);
    let j = char_at_first(t, '=');
    (t.take(j), t.skip(j + 1))
}

/// The line that opens the language section.
pub open spec fn section_marker() -> Seq<char> {
    "languagefile"@
}

/// A line opens the language section iff it starts, once trimmed, with
/// the section marker.
pub open spec fn line_opens(l: Seq<char>) -> bool {
    section_marker().is_prefix_of(spec_trim(l))
}

/// The reading state machine over the lines of a file: outside the
/// language section, look for the line that opens it; inside it, a line
/// with `=` is a key/value pair and a line with `}` (and no `=`) closes
/// the section.
pub open spec fn parse_from(lines: Seq<Seq<char>>, i: int, started: bool) -> Seq<
    (Seq<char>, Seq<char>),
>
    decreases lines.len() - i,
{
    if i < 0 || i >= lines.len() {
        Seq::empty()
    } else if started {
        if contains_char(lines[i], '=') {
            seq![parse_line_item(lines[i])] + parse_from(lines, i + 1, true)
        } else if contains_char(lines[i], '}') {
            parse_from(lines, i + 1, false)
        } else {
            parse_from(lines, i + 1, true)
        }
    } else {
        if line_opens(lines[i]) {
            parse_from(lines, i + 1, true)
        } else {
            parse_from(lines, i + 1, false)
        }
    }
}

/// The ordered pairs read from the lines of a language file.
pub open spec fn spec_parse(lines: Seq<Seq<char>>) -> Seq<(Seq<char>, Seq<char>)> {
    parse_from(lines, 0, false)
}

/// One written `key=value` line.
pub open spec fn render_item_line(p: (Seq<char>, Seq<char>)) -> Seq<char> {
    "    "@ + p.0 + "="@ + p.1
}

/// The fixed lines written before the pairs.
pub open spec fn header_lines() -> Seq<Seq<char>> {
    seq![
        "# Configuration file"@,
        "enablelangfile {"@,
        "    B:UseThisFileAsLanguageFile=true"@,
        "}"@,
        ""@,
        "languagefile {"@,
    ]
}

/// The fixed lines written after the pairs.
pub open spec fn footer_lines() -> Seq<Seq<char>> {
    seq!["}"@, ""@]
}

/// The lines written for a language file: the header, one line per
/// pair in order, the footer; keys and texts are written verbatim.
pub open spec fn spec_render(items: Seq<(Seq<char>, Seq<char>)>) -> Seq<Seq<char>> {
    header_lines() + items.map_values(|p: (Seq<char>, Seq<char>)| render_item_line(p))
        + footer_lines()
}

/// The first position of `c`, scanned character by character.
fn find_char(s: &str, c: char) -> (r: Option<usize>)
    ensures
        match r {
            Some(j) => j < s@.len() && char_at_first(s@, c) == j as int && contains_char(s@, c),
            None => !contains_char(s@, c) && char_at_first(s@, c) == s@.len(),
        },
{
    let n = s.unicode_len();
    let mut i: usize = 0;
    while i < n
        invariant
            i <= n,
            n == s@.len(),
            forall|u: int| 0 <= u < i ==> s@[u] != c,
        decreases n - i,
    {
        if s.get_char(i) == c {
            proof {
                lemma_char_at_first(s@, c, i as int);
            }
            return Some(i);
        }
        i += 1;
    }
    proof {
        lemma_char_at_none(s@, c);
    }
    None
}

/// Whether the character at `i` is line-end whitespace.
fn space_at(s: &str, i: usize) -> (r: bool)
    requires
        i < s@.len(),
    ensures
        r == is_space(s@[i as int]),
{
    let ch = s.get_char(i);
    ch == ' ' || ch == '\t' || ch == '\r'
}

/// A line with its surrounding whitespace removed.
fn trim_str<'a>(s: &'a str) -> (r: &'a str)
    ensures
        r@ == spec_trim(s@),
{
    let n = s.unicode_len();
    let mut a: usize = 0;
    while a < n && space_at(s, a)
        invariant
            a <= n,
            n == s@.len(),
            forall|u: int| 0 <= u < a ==> is_space(s@[u]),
        decreases n - a,
    {
        a += 1;
    }
    proof {
        lemma_trim_start_skip(s@, a as int);
    }
    if a == n {
        let r = s.substring_char(n, n);
        proof {
            assert(s@.skip(n as int) =~= Seq::<char>::empty());
            assert(trim_start(s@) =~= Seq::<char>::empty());
            assert(r@ =~= Seq::<char>::empty());
        }
        return r;
    }
    proof {
        assert(!is_space(s@[a as int]));
        assert(s@.skip(a as int)[0] == s@[a as int]);
        assert(trim_start(s@) == s@.skip(a as int));
    }
    let mut b: usize = n;
    while b > a + 1 && space_at(s, b - 1)
        invariant
            a < b <= n,
            n == s@.len(),
            forall|u: int| b <= u < n ==> is_space(s@[u]),
        decreases b,
    {
        b -= 1;
    }
    let r = s.substring_char(a, b);
    proof {
        let t = s@.skip(a as int);
        assert forall|u: int| b - a <= u < t.len() implies is_space(t[u]) by {
            assert(t[u] == s@[a + u]);
        }
        lemma_trim_end_take(t, b - a as int);
        let w = t.take(b - a as int);
        assert(!is_space(w.last())) by {
            assert(w.last() == s@[b - 1]);
            if b == a + 1 {
                assert(!is_space(s@[a as int]));
            }
        }
        assert(trim_end(w) == w);
        assert(r@ =~= w);
    }
    r
}

impl LangFile {
    /// Write the file as lines: the header, one `key=value` line per
    /// pair in order, the footer.  Nothing is escaped.
    pub fn to_lines(&self) -> (r: Vec<String>)
        ensures
            crate::meta::strs_view(r@) == spec_render(self@),
    {
        let mut r: Vec<String> = Vec::new();
        r.push(String::from_str("# Configuration file"));
        r.push(String::from_str("enablelangfile {"));
        r.push(String::from_str("    B:UseThisFileAsLanguageFile=true"));
        r.push(String::from_str("}"));
        r.push(String::from_str(""));
        r.push(String::from_str("languagefile {"));
        let ghost itemsv = self@;
        let ghost lined = itemsv.map_values(|p: (Seq<char>, Seq<char>)| render_item_line(p));
        proof {
            assert(crate::meta::strs_view(r@) =~= header_lines());
        }
        let mut i: usize = 0;
        while i < self.items.len()
            invariant
                i <= self.items@.len(),
                itemsv == self@,
                itemsv.len() == self.items@.len(),
                lined == itemsv.map_values(|p: (Seq<char>, Seq<char>)| render_item_line(p)),
                crate::meta::strs_view(r@) == header_lines() + lined.take(i as int),
            decreases self.items@.len() - i,
        {
            let mut line = String::from_str("    ");
            line.append(self.items[i].0.as_str());
            line.append("=");
            line.append(self.items[i].1.as_str());
            proof {
                assert(itemsv[i as int] == item_view(self.items@[i as int]));
                assert(line@ == render_item_line(itemsv[i as int]));
            }
            let ghost before = crate::meta::strs_view(r@);
            r.push(line);
            proof {
                assert(crate::meta::strs_view(r@) =~= before.push(lined[i as int]));
                assert(header_lines() + lined.take(i as int + 1) =~= (header_lines()
                    + lined.take(i as int)).push(lined[i as int]));
            }
            i += 1;
        }
        let ghost before_footer = crate::meta::strs_view(r@);
        r.push(String::from_str("}"));
        r.push(String::from_str(""));
        proof {
            assert(lined.take(lined.len() as int) =~= lined);
            assert(crate::meta::strs_view(r@) =~= before_footer + footer_lines());
            assert((header_lines() + lined) + footer_lines() =~= crate::meta::strs_view(r@));
        }
        r
    }

    /// Read a language file from its lines, preserving the order of its
    /// pairs.
    pub fn from_lines(lines: &Vec<String>) -> (r: LangFile)
        ensures
            r@ == spec_parse(crate::meta::strs_view(lines@)),
    {
        let ghost lv = crate::meta::strs_view(lines@);
        let mut items: Vec<LangItem> = Vec::new();
        let mut started = false;
        let mut i: usize = 0;
        proof {
            assert(items_view(items@) =~= Seq::<(Seq<char>, Seq<char>)>::empty());
            assert(items_view(items@) + parse_from(lv, 0, false) =~= parse_from(lv, 0, false));
        }
        while i < lines.len()
            invariant
                i <= lines@.len(),
                lv == crate::meta::strs_view(lines@),
                lv.len() == lines@.len(),
                spec_parse(lv) == items_view(items@) + parse_from(lv, i as int, started),
            decreases lines@.len() - i,
        {
            let line = lines[i].as_str();
            proof {
                assert(lv[i as int] == lines@[i as int]@);
            }
            if started {
                let has_eq = match find_char(line, '=') {
                    Some(_) => true,
                    None => false,
                };
                if has_eq {
                    let t = trim_str(line);
                    let tn = t.unicode_len();
                    let j = match find_char(t, '=') {
                        Some(j) => j,
                        None => {
                            proof {
                                assert(contains_char(line@, '='));
                                let w = choose|u: int|
                                    0 <= u < line@.len() && line@[u] == '=';
                                assert(!is_space('='));
                                assert(contains_char(t@, '=')) by {
                                    lemma_trim_contains_eq(line@);
                                }
                                assert(false);
                            }
                            0
                        },
                    };
                    let key = t.substring_char(0, j);
                    let value = t.substring_char(j + 1, tn);
                    let ghost before = items_view(items@);
                    items.push((String::from_str(key), String::from_str(value)));
                    proof {
                        assert(key@ =~= t@.take(j as int));
                        assert(value@ =~= t@.skip(j as int + 1));
                        assert(items_view(items@) =~= before.push(parse_line_item(lv[i as int])));
                        assert(parse_from(lv, i as int, true) == seq![
                            parse_line_item(lv[i as int]),
                        ] + parse_from(lv, i as int + 1, true));
                        assert(before + (seq![parse_line_item(lv[i as int])] + parse_from(
                            lv,
                            i as int + 1,
                            true,
                        )) =~= items_view(items@) + parse_from(lv, i as int + 1, true));
                    }
                } else {
                    let has_close = match find_char(line, '}') {
                        Some(_) => true,
                        None => false,
                    };
                    if has_close {
                        started = false;
                    }
                }
            } else {
                let t = trim_str(line);
                if crate::meta::str_is_prefix("languagefile", t) {
                    proof {
                        assert(line_opens(lv[i as int]));
                    }
                    started = true;
                } else {
                    proof {
                        assert(!line_opens(lv[i as int]));
                    }
                }
            }
            i += 1;
        }
        proof {
            assert(parse_from(lv, lv.len() as int, started) =~= Seq::<
                (Seq<char>, Seq<char>),
            >::empty());
            assert(items_view(items@) + parse_from(lv, lv.len() as int, started) =~= items_view(
                items@,
            ));
        }
        LangFile { items }
    }
}

/// Trimming never removes `=`: a line holds one iff its trim does.
proof fn lemma_trim_contains_eq(l: Seq<char>)
    requires
        contains_char(l, '='),
    ensures
        contains_char(spec_trim(l), '='),
{
    lemma_trim_start_contains(l);
    lemma_trim_end_contains(trim_start(l));
}

proof fn lemma_trim_start_contains(l: Seq<char>)
    requires
        contains_char(l, '='),
    ensures
        contains_char(trim_start(l), '='),
    decreases l.len(),
{
    if l.len() > 0 && is_space(l[0]) {
        let d = l.drop_first();
        let w = choose|u: int| 0 <= u < l.len() && l[u] == '=';
        assert(!is_space('='));
        assert(w > 0);
        assert(d[w - 1] == '=');
        lemma_trim_start_contains(d);
    }
}

proof fn lemma_trim_end_contains(l: Seq<char>)
    requires
        contains_char(l, '='),
    ensures
        contains_char(trim_end(l), '='),
    decreases l.len(),
{
    if l.len() > 0 && is_space(l.last()) {
        let d = l.drop_last();
        let w = choose|u: int| 0 <= u < l.len() && l[u] == '=';
        assert(!is_space('='));
        assert(w < l.len() - 1);
        assert(d[w] == '=');
        lemma_trim_end_contains(d);
    }
}

/// A pair survives writing and reading: its key holds no `=` and does
/// not start with line whitespace, and its text does not end with line
/// whitespace (both would be trimmed or resplit on reading).
pub open spec fn wf_item(p: (Seq<char>, Seq<char>)) -> bool {
    &&& !contains_char(p.0, '=')
    &&& (p.0.len() > 0 ==> !is_space(p.0[0]))
    &&& (p.1.len() > 0 ==> !is_space(p.1.last()))
}

proof fn lemma_header_facts()
    ensures
        forall|j: int| 0 <= j < 5 ==> !line_opens(#[trigger] header_lines()[j]),
        line_opens(header_lines()[5]),
{
    reveal_strlit("# Configuration file");
    reveal_strlit("enablelangfile {");
    reveal_strlit("    B:UseThisFileAsLanguageFile=true");
    reveal_strlit("}");
    reveal_strlit("");
    reveal_strlit("languagefile {");
    reveal_strlit("languagefile");
    let m = section_marker();
    assert(m.len() == 12);
    let h0 = "# Configuration file"@;
    assert(spec_trim(h0) == h0) by {
        assert(!is_space(h0[0]));
        assert(!is_space(h0.last()));
    }
    assert(!line_opens(header_lines()[0])) by {
        if m.is_prefix_of(h0) {
            assert(h0.subrange(0, 12)[0] == h0[0]);
        }
    }
    let h1 = "enablelangfile {"@;
    assert(spec_trim(h1) == h1) by {
        assert(!is_space(h1[0]));
        assert(!is_space(h1.last()));
    }
    assert(!line_opens(header_lines()[1])) by {
        if m.is_prefix_of(h1) {
            assert(h1.subrange(0, 12)[0] == h1[0]);
        }
    }
    let h2 = "    B:UseThisFileAsLanguageFile=true"@;
    let t2 = h2.skip(4);
    assert(spec_trim(h2) == t2) by {
        assert forall|u: int| 0 <= u < 4 implies is_space(h2[u]) by {}
        lemma_trim_start_skip(h2, 4);
        assert(t2[0] == h2[4]);
        assert(!is_space(t2[0]));
        assert(trim_start(t2) == t2);
        assert(t2.last() == h2[h2.len() - 1]);
        assert(!is_space(t2.last()));
        assert(trim_end(t2) == t2);
    }
    assert(!line_opens(header_lines()[2])) by {
        if m.is_prefix_of(t2) {
            assert(t2.subrange(0, 12)[0] == t2[0]);
            assert(t2[0] == h2[4]);
        }
    }
    let h3 = "}"@;
    assert(spec_trim(h3) == h3) by {
        assert(!is_space(h3[0]));
        assert(!is_space(h3.last()));
    }
    assert(!line_opens(header_lines()[3]));
    let h4 = ""@;
    assert(spec_trim(h4) == h4);
    assert(!line_opens(header_lines()[4]));
    let h5 = "languagefile {"@;
    assert(spec_trim(h5) == h5) by {
        assert(!is_space(h5[0]));
        assert(!is_space(h5.last()));
    }
    assert(line_opens(header_lines()[5])) by {
        assert(m =~= h5.subrange(0, 12));
    }
    assert forall|j: int| 0 <= j < 5 implies !line_opens(#[trigger] header_lines()[j]) by {
        if j == 0 {
        } else if j == 1 {
        } else if j == 2 {
        } else if j == 3 {
        } else {
            assert(header_lines()[j] == h4);
        }
    }
}

proof fn lemma_footer_facts()
    ensures
        !contains_char(footer_lines()[0], '='),
        contains_char(footer_lines()[0], '}'),
        !contains_char(footer_lines()[1], '='),
        !contains_char(footer_lines()[1], '}'),
        !line_opens(footer_lines()[1]),
{
    reveal_strlit("}");
    reveal_strlit("");
    reveal_strlit("languagefile");
    let f0 = "}"@;
    assert(f0[0] == '}');
    assert(contains_char(f0, '}'));
    assert(!contains_char(f0, '=')) by {
        if contains_char(f0, '=') {
            let w = choose|u: int| 0 <= u < f0.len() && f0[u] == '=';
            assert(f0[w] == '}');
        }
    }
    let f1 = ""@;
    assert(spec_trim(f1) == f1);
    assert(!line_opens(footer_lines()[1]));
}

/// A written pair line reads back as the same pair.
proof fn lemma_item_line(p: (Seq<char>, Seq<char>))
    requires
        wf_item(p),
    ensures
        contains_char(render_item_line(p), '='),
        parse_line_item(render_item_line(p)) == p,
{
    reveal_strlit("    ");
    reveal_strlit("=");
    let k = p.0;
    let v = p.1;
    let l = render_item_line(p);
    let kn = k.len() as int;
    assert(l.len() == 4 + kn + 1 + v.len());
    assert forall|u: int| 0 <= u < 4 implies is_space(l[u]) by {
        assert(l[u] == "    "@[u]);
    }
    assert forall|u: int| 0 <= u < kn implies l[4 + u] == k[u] by {
        assert(("    "@ + k)[4 + u] == k[u]);
    }
    assert(l[4 + kn] == '=') by {
        assert(l[4 + kn] == "="@[0]);
    }
    assert forall|u: int| 0 <= u < v.len() implies l[5 + kn + u] == v[u] by {}
    assert(contains_char(l, '='));
    // the trim drops exactly the four leading spaces
    lemma_trim_start_skip(l, 4);
    let t = l.skip(4);
    assert(t.len() == kn + 1 + v.len());
    assert forall|u: int| 0 <= u < t.len() implies t[u] == l[4 + u] by {}
    assert(!is_space(t[0])) by {
        if kn > 0 {
            assert(t[0] == k[0]);
        } else {
            assert(t[0] == '=');
            assert(!is_space('='));
        }
    }
    assert(trim_start(t) == t);
    assert(!is_space(t.last())) by {
        if v.len() > 0 {
            assert(t.last() == v.last());
        } else {
            assert(t.last() == '=');
            assert(!is_space('='));
        }
    }
    assert(trim_end(t) == t);
    assert(spec_trim(l) == t);
    // the first `=` stands right after the key
    assert forall|u: int| 0 <= u < kn implies t[u] != '=' by {
        assert(t[u] == k[u]);
        if k[u] == '=' {
            assert(contains_char(k, '='));
        }
    }
    assert(t[kn] == '=');
    lemma_char_at_first(t, '=', kn);
    assert(t.take(kn) =~= k);
    assert(t.skip(kn + 1) =~= v);
}

proof fn lemma_parse_tail(items: Seq<(Seq<char>, Seq<char>)>, j: int)
    requires
        forall|i: int| 0 <= i < items.len() ==> wf_item(#[trigger] items[i]),
        0 <= j <= items.len(),
    ensures
        parse_from(spec_render(items), 6 + j, true) == items.skip(j),
    decreases items.len() - j,
{
    let lined = items.map_values(|p: (Seq<char>, Seq<char>)| render_item_line(p));
    let ls = spec_render(items);
    assert(ls.len() == 6 + items.len() + 2);
    if j == items.len() {
        lemma_footer_facts();
        assert(ls[6 + j] == footer_lines()[0]);
        assert(ls[6 + j + 1] == footer_lines()[1]);
        assert(parse_from(ls, 6 + j, true) == parse_from(ls, 6 + j + 1, false));
        assert(parse_from(ls, 6 + j + 1, false) == parse_from(ls, 6 + j + 2, false));
        assert(parse_from(ls, 6 + j + 2, false) =~= Seq::<(Seq<char>, Seq<char>)>::empty());
        assert(items.skip(j) =~= Seq::<(Seq<char>, Seq<char>)>::empty());
    } else {
        assert(ls[6 + j] == lined[j]);
        assert(lined[j] == render_item_line(items[j]));
        lemma_item_line(items[j]);
        lemma_parse_tail(items, j + 1);
        assert(parse_from(ls, 6 + j, true) == seq![parse_line_item(ls[6 + j])] + parse_from(
            ls,
            6 + j + 1,
            true,
        ));
        assert(seq![items[j]] + items.skip(j + 1) =~= items.skip(j));
    }
}

/// Writing a list of pairs as a language file and reading the file back
/// yields the same ordered list of pairs.
pub proof fn lemma_round_trip(items: Seq<(Seq<char>, Seq<char>)>)
    requires
        forall|i: int| 0 <= i < items.len() ==> wf_item(#[trigger] items[i]),
    ensures
        spec_parse(spec_render(items)) == items,
{
    let ls = spec_render(items);
    lemma_header_facts();
    assert(ls.len() == 6 + items.len() + 2);
    assert forall|j: int| 0 <= j < 6 implies ls[j] == header_lines()[j] by {}
    assert(parse_from(ls, 0, false) == parse_from(ls, 1, false));
    assert(parse_from(ls, 1, false) == parse_from(ls, 2, false));
    assert(parse_from(ls, 2, false) == parse_from(ls, 3, false));
    assert(parse_from(ls, 3, false) == parse_from(ls, 4, false));
    assert(parse_from(ls, 4, false) == parse_from(ls, 5, false));
    assert(parse_from(ls, 5, false) == parse_from(ls, 6, true));
    lemma_parse_tail(items, 0);
    assert(items.skip(0) =~= items);
}

} // verus!
