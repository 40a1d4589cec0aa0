//! The declarative extraction rule tree: pure data with a mathematical
//! model, plus the parsing of the embedded "contains literal text" selector
//! marker and the translation of substitution templates.

use std::rc::Rc;

use vstd::prelude::*;

use crate::text::contains_seq;
use crate::text::find_sub;
use crate::text::is_space;
use crate::text::lemma_find_char;
use crate::text::lemma_find_sub_at;
use crate::text::lemma_find_sub_props;
use crate::text::matches_at;
use crate::text::spec_find_char;
use crate::text::spec_find_sub;
use crate::text::spec_is_space;
use crate::text::spec_trim_ws;
use crate::text::trim_ws;

verus! {

/// One node of the declarative extraction rule tree. Children are shared,
/// immutable subtrees: one rule tree may serve many extractions at once.
pub struct ParserTransfromRule {
    /// CSS-like selector; empty means "operate on the current context node".
    pub selector: String,
    /// Dot-separated output path; empty means "write no leaf value here".
    pub mapping: String,
    /// Empty or `"text"` reads joined visible text; otherwise a named
    /// HTML attribute is read (empty when absent).
    pub attribute_name: String,
    /// One substitution pass `(pattern, replacement)` over extracted text.
    pub regex_sub_value: Option<(String, String)>,
    /// Nested rules evaluated against the node this rule selects.
    pub children: Rc<Vec<ParserTransfromRule>>,
    /// Non-empty marks this rule as producing one element of a repeated
    /// array at this key.
    pub grouping: String,
    /// Whether a selector matching nothing is fatal.
    pub exception_on_not_found: bool,
}

/// The mathematical model of a rule tree node.
pub struct RuleModel {
    pub selector: Seq<char>,
    pub mapping: Seq<char>,
    pub attribute_name: Seq<char>,
    pub regex_sub_value: Option<(Seq<char>, Seq<char>)>,
    pub children: Seq<RuleModel>,
    pub grouping: Seq<char>,
    pub exception_on_not_found: bool,
}

impl ParserTransfromRule {
    /// The model of this rule.
    pub open spec fn rmodel(self) -> RuleModel
        decreases self,
    {
        proof {
            let ch = self.children;
            assert(decreases_to!(ch => ch@));
        }
        RuleModel {
            selector: self.selector@,
            mapping: self.mapping@,
            attribute_name: self.attribute_name@,
            regex_sub_value: match self.regex_sub_value {
                Some((p, r)) => Some((p@, r@)),
                None => None,
            },
            children: rmodel_children(self.children@),
            grouping: self.grouping@,
            exception_on_not_found: self.exception_on_not_found,
        }
    }
}

impl View for ParserTransfromRule {
    type V = RuleModel;

    open spec fn view(&self) -> RuleModel {
        self.rmodel()
    }
}

/// The models of a vector of rules.
pub open spec fn rmodel_children(rs: Seq<ParserTransfromRule>) -> Seq<RuleModel>
    decreases rs,
{
    proof {
        if rs.len() > 0 {
            assert(decreases_to!(rs => rs[0]));
            assert(decreases_to!(rs => rs.skip(1)));
        }
    }
    if rs.len() == 0 {
        Seq::empty()
    } else {
        seq![rs[0].rmodel()].add(rmodel_children(rs.skip(1)))
    }
}

impl Default for ParserTransfromRule {
    /// A rule with every field empty: no selection, no write, no children.
    fn default() -> (r: Self)
        ensures
            r@ == (RuleModel {
                selector: Seq::<char>::empty(),
                mapping: Seq::<char>::empty(),
                attribute_name: Seq::<char>::empty(),
                regex_sub_value: None::<(Seq<char>, Seq<char>)>,
                children: Seq::<RuleModel>::empty(),
                grouping: Seq::<char>::empty(),
                exception_on_not_found: false,
            }),
    {
        let r = ParserTransfromRule {
            selector: String::new(),
            mapping: String::new(),
            attribute_name: String::new(),
            regex_sub_value: None,
            children: Rc::new(Vec::new()),
            grouping: String::new(),
            exception_on_not_found: false,
        };
        proof {
            assert(rmodel_children(r.children@) =~= Seq::<RuleModel>::empty());
        }
        r
    }
}

impl ParserTransfromRule {
    /// This rule with its selector cleared; children are shared, not copied.
    pub fn with_empty_selector(&self) -> (r: Self)
        ensures
            r@ == (RuleModel { selector: Seq::<char>::empty(), ..self@ }),
    {
        ParserTransfromRule {
            selector: String::new(),
            mapping: self.mapping.clone(),
            attribute_name: self.attribute_name.clone(),
            regex_sub_value: match &self.regex_sub_value {
                Some((p, rep)) => Some((p.clone(), rep.clone())),
                None => None,
            },
            children: self.children.clone(),
            grouping: self.grouping.clone(),
            exception_on_not_found: self.exception_on_not_found,
        }
    }

    /// This rule with its grouping cleared; children are shared, not copied.
    pub fn with_empty_grouping(&self) -> (r: Self)
        ensures
            r@ == (RuleModel { grouping: Seq::<char>::empty(), ..self@ }),
    {
        ParserTransfromRule {
            selector: self.selector.clone(),
            mapping: self.mapping.clone(),
            attribute_name: self.attribute_name.clone(),
            regex_sub_value: match &self.regex_sub_value {
                Some((p, rep)) => Some((p.clone(), rep.clone())),
                None => None,
            },
            children: self.children.clone(),
            grouping: String::new(),
            exception_on_not_found: self.exception_on_not_found,
        }
    }

    /// This rule with `selector` in place of its own.
    pub fn with_selector(&self, selector: &str) -> (r: Self)
        ensures
            r@ == (RuleModel { selector: selector@, ..self@ }),
    {
        ParserTransfromRule {
            selector: String::from_str(selector),
            mapping: self.mapping.clone(),
            attribute_name: self.attribute_name.clone(),
            regex_sub_value: match &self.regex_sub_value {
                Some((p, rep)) => Some((p.clone(), rep.clone())),
                None => None,
            },
            children: self.children.clone(),
            grouping: self.grouping.clone(),
            exception_on_not_found: self.exception_on_not_found,
        }
    }
}

/// Settings of one extraction run.
pub struct TransformSettings {
    /// Recursion depth at which the engine gives up, guarding against
    /// pathological rule trees.
    pub max_depth_level: usize,
    /// The key under which unnamed lists would be grouped.
    pub default_key_name: String,
}

impl Default for TransformSettings {
    /// The default guard is deliberately large: it exists to stop runaway
    /// configurations, not to express an intended limit.
    fn default() -> (r: Self)
        ensures
            r.max_depth_level == 10000,
            r.default_key_name@ == "list"@,
    {
        TransformSettings { max_depth_level: 10000, default_key_name: String::from_str("list") }
    }
}

/// The marker with which a selector embeds a "contains literal text"
/// filter that the selection engine itself does not support.
pub open spec fn contains_marker() -> Seq<char> {
    ":-soup-contains("@
}

/// The marker that `bs_py_adopt_contains` wraps a recognized filter in.
pub open spec fn adopt_marker() -> Seq<char> {
    "/****/"@
}

/// Where a "contains literal text" filter sits in `sel`, if anywhere:
/// `(start, text_lo, text_hi, end)` such that the filter spans
/// `sel[start..end]` and the quoted literal is `sel[text_lo..text_hi]`.
/// The filter is the first marker occurrence, followed by at most one
/// whitespace, a double-quoted literal, at most one whitespace, and `)`.
pub open spec fn spec_contains_span(sel: Seq<char>) -> Option<(int, int, int, int)> {
    let mk = contains_marker();
    let i = spec_find_sub(sel, mk);
    if i < 0 {
        None
    } else {
        let a = i + mk.len();
        let j = if a < sel.len() && spec_is_space(sel[a]) {
            a + 1
        } else {
            a
        };
        if j < sel.len() && sel[j] == '"' {
            let q = j + 1 + spec_find_char(sel.skip(j + 1), '"');
            if q == sel.len() {
                None
            } else {
                let p = if q + 1 < sel.len() && spec_is_space(sel[q + 1]) {
                    q + 2
                } else {
                    q + 1
                };
                if p < sel.len() && sel[p] == ')' {
                    Some((i, j + 1, q, p + 1))
                } else {
                    None
                }
            }
        } else {
            None
        }
    }
}

/// A recognized filter's span is ordered and lies inside the selector.
pub proof fn lemma_contains_span_bounds(sel: Seq<char>)
    ensures
        spec_contains_span(sel) matches Some(sp) ==> 0 <= sp.0 && sp.0 < sp.1 && sp.1 <= sp.2
            && sp.2 < sp.3 && sp.3 <= sel.len(),
{
    let mk = contains_marker();
    lemma_find_sub_props(sel, mk);
    match spec_contains_span(sel) {
        Some(sp) => {
            assert(matches_at(sel, mk, sp.0));
            lemma_find_char(sel.skip(sp.1), '"');
            assert(mk.len() > 0) by {
                reveal_strlit(":-soup-contains(");
            }
        },
        None => {},
    }
}

/// The text and the left and right selector parts of a recognized filter:
/// the literal between the quotes, what precedes the marker, and what
/// follows the closing parenthesis, the parts trimmed of whitespace.
pub open spec fn spec_contains_parts(sel: Seq<char>) -> Option<(Seq<char>, (Seq<char>, Seq<char>))> {
    match spec_contains_span(sel) {
        None => None,
        Some((ms, tl, th, end)) => Some(
            (sel.subrange(tl, th), (spec_trim_ws(sel.take(ms)), spec_trim_ws(sel.skip(end)))),
        ),
    }
}

/// Exec form of `spec_contains_span`.
#[verifier::loop_isolation(false)]
fn contains_span_exec(sel: &str) -> (r: Option<(usize, usize, usize, usize)>)
    ensures
        match r {
            Some(sp) => spec_contains_span(sel@) == Some(
                (sp.0 as int, sp.1 as int, sp.2 as int, sp.3 as int),
            ) && sp.3 <= sel@.len(),
            None => spec_contains_span(sel@) is None,
        },
{
    let mk = ":-soup-contains(";
    let n = sel.unicode_len();
    let i: usize;
    match find_sub(sel, mk) {
        None => {
            proof {
                lemma_find_sub_props(sel@, mk@);
                if spec_find_sub(sel@, mk@) >= 0 {
                    assert(contains_seq(sel@, mk@));
                }
            }
            return None;
        },
        Some(ix) => {
            i = ix;
        },
    }
    proof {
        lemma_find_sub_at(sel@, mk@, i as int);
    }
    let mklen = mk.unicode_len();
    let a = i + mklen;
    let mut j = a;
    if j < n && is_space(sel.get_char(j)) {
        j = j + 1;
    }
    if !(j < n && sel.get_char(j) == '"') {
        return None;
    }
    // scan for the closing quote
    let mut q = j + 1;
    while q < n && !(sel.get_char(q) == '"')
        invariant
            j + 1 <= q <= n,
            forall|k: int| j + 1 <= k < q ==> sel@[k] != '"',
        decreases n - q,
    {
        q = q + 1;
    }
    proof {
        lemma_find_char(sel@.skip(j + 1), '"');
        let f = spec_find_char(sel@.skip(j + 1), '"');
        assert forall|k: int| 0 <= k < q - (j + 1) implies #[trigger] sel@.skip(j + 1)[k]
            != '"' by {
            assert(sel@.skip(j + 1)[k] == sel@[j + 1 + k]);
        }
        if q < n {
            assert(sel@.skip(j + 1)[q - (j + 1)] == '"');
            if f < q - (j + 1) {
                assert(sel@.skip(j + 1)[f] != '"');
            }
            if f > q - (j + 1) {
                assert(sel@.skip(j + 1)[q - (j + 1)] != '"');
            }
        } else {
            if f < q - (j + 1) {
                assert(sel@.skip(j + 1)[f] != '"');
            }
        }
        assert(f == q - (j + 1));
    }
    if q == n {
        return None;
    }
    let mut p = q + 1;
    if p < n && is_space(sel.get_char(p)) {
        p = p + 1;
    }
    if !(p < n && sel.get_char(p) == ')') {
        return None;
    }
    Some((i, j + 1, q, p + 1))
}

impl ParserTransfromRule {
    /// Recognize the "contains literal text" filter in this rule's
    /// selector: the quoted literal, and the selector parts to its left
    /// and right, per `spec_contains_parts`.
    pub fn is_contains_selector(&self) -> (r: Option<(String, (String, String))>)
        ensures
            match r {
                Some(parts) => spec_contains_parts(self.selector@) matches Some(sp) && parts.0@
                    == sp.0 && (parts.1.0)@ == sp.1.0 && (parts.1.1)@ == sp.1.1,
                None => spec_contains_parts(self.selector@) is None,
            },
    {
        let sel = self.selector.as_str();
        match contains_span_exec(sel) {
            None => None,
            Some((ms, tl, th, end)) => {
                proof {
                    lemma_contains_span_bounds(sel@);
                }
                let n = sel.unicode_len();
                let text = String::from_str(sel.substring_char(tl, th));
                let left = trim_ws(sel.substring_char(0, ms));
                let right = trim_ws(sel.substring_char(end, n));
                proof {
                    assert(sel@.subrange(0, ms as int) =~= sel@.take(ms as int));
                    assert(sel@.subrange(end as int, n as int) =~= sel@.skip(end as int));
                }
                Some((text, (left, right)))
            },
        }
    }
}

/// What `bs_py_adopt_contains` yields: every recognized filter is wrapped
/// in `adopt_marker()` fences with the filter text kept in a comment, so a
/// later pass can split the selector around it.
pub open spec fn spec_adopt_contains(sel: Seq<char>) -> Seq<char>
    decreases sel.len(),
{
    proof {
        lemma_contains_span_bounds(sel);
    }
    match spec_contains_span(sel) {
        None => sel,
        Some((ms, tl, th, end)) => sel.take(ms).add(adopt_marker()).add("/*"@).add(
            sel.subrange(ms, end),
        ).add("*/"@).add(adopt_marker()).add(spec_adopt_contains(sel.skip(end))),
    }
}

/// Fence every "contains literal text" filter of a selector between
/// `adopt_marker()` markers, keeping the filter itself in a comment.
pub fn bs_py_adopt_contains(source_selector: &str) -> (r: String)
    ensures
        r@ == spec_adopt_contains(source_selector@),
    decreases source_selector@.len(),
{
    let n = source_selector.unicode_len();
    match contains_span_exec(source_selector) {
        None => String::from_str(source_selector),
        Some((ms, tl, th, end)) => {
            proof {
                lemma_contains_span_bounds(source_selector@);
            }
            let mut out = String::from_str(source_selector.substring_char(0, ms));
            out.append("/****/");
            out.append("/*");
            out.append(source_selector.substring_char(ms, end));
            out.append("*/");
            out.append("/****/");
            let rest = bs_py_adopt_contains(source_selector.substring_char(end, n));
            out.append(rest.as_str());
            proof {
                assert(source_selector@.subrange(0, ms as int) =~= source_selector@.take(ms as int));
                assert(source_selector@.subrange(end as int, n as int) =~= source_selector@.skip(
                    end as int,
                ));
                assert(out@ =~= spec_adopt_contains(source_selector@));
            }
            out
        },
    }
}

/// Whether `c` is a decimal digit.
pub open spec fn spec_is_digit(c: char) -> bool {
    48 <= c as int <= 57
}

/// The length of the run of digits at the head of `s`.
pub open spec fn spec_digit_run(s: Seq<char>) -> int
    decreases s.len(),
{
    if s.len() > 0 && spec_is_digit(s[0]) {
        1 + spec_digit_run(s.skip(1))
    } else {
        0
    }
}

/// The run length stays within the sequence.
pub proof fn lemma_digit_run_le(s: Seq<char>)
    ensures
        0 <= spec_digit_run(s) <= s.len(),
    decreases s.len(),
{
    if s.len() > 0 && spec_is_digit(s[0]) {
        lemma_digit_run_le(s.skip(1));
    }
}

/// What `prepare_rx_sub_for_replace` yields: each backreference written as
/// a backslash before digits becomes a dollar sign before the same digits,
/// scanning left to right; everything else is copied.
pub open spec fn spec_prepare_sub(s: Seq<char>) -> Seq<char>
    decreases s.len(),
{
    proof {
        lemma_digit_run_le(s.skip(1));
    }
    if s.len() == 0 {
        s
    } else if s[0] == '\\' && s.len() >= 2 && spec_is_digit(s[1]) {
        let d = spec_digit_run(s.skip(1));
        seq!['$'].add(s.skip(1).take(d)).add(spec_prepare_sub(s.skip(1 + d)))
    } else {
        seq![s[0]].add(spec_prepare_sub(s.skip(1)))
    }
}

/// Translate a substitution template from backslash backreferences to the
/// dollar form the substitution engine of this library's platform takes.
#[verifier::loop_isolation(false)]
pub fn prepare_rx_sub_for_replace(origin_rx: &str) -> (r: String)
    ensures
        r@ == spec_prepare_sub(origin_rx@),
    decreases origin_rx@.len(),
{
    let n = origin_rx.unicode_len();
    if n == 0 {
        let out = String::new();
        proof {
            assert(out@ =~= origin_rx@);
        }
        return out;
    }
    let c0 = origin_rx.get_char(0);
    let digit0 = if n >= 2 {
        let c1 = origin_rx.get_char(1);
        (c1 as u32) >= 48 && (c1 as u32) <= 57
    } else {
        false
    };
    if c0 == '\\' && digit0 {
        let mut d: usize = 1;
        while d < n && (origin_rx.get_char(d) as u32) >= 48 && (origin_rx.get_char(d) as u32) <= 57
            invariant
                1 <= d <= n,
                forall|k: int| 1 <= k < d ==> spec_is_digit(origin_rx@[k]),
            decreases n - d,
        {
            d = d + 1;
        }
        proof {
            let tail = origin_rx@.skip(1);
            assert forall|k: int| 0 <= k < d - 1 implies spec_is_digit(tail[k]) by {
                assert(tail[k] == origin_rx@[k + 1]);
            }
            lemma_digit_run_run(tail, d - 1);
        }
        let mut out = String::from_str("$");
        out.append(origin_rx.substring_char(1, d));
        let rest = prepare_rx_sub_for_replace(origin_rx.substring_char(d, n));
        out.append(rest.as_str());
        proof {
            reveal_strlit("$");
            assert(origin_rx@.subrange(1, d as int) =~= origin_rx@.skip(1).take(d - 1));
            assert(origin_rx@.subrange(d as int, n as int) =~= origin_rx@.skip(d as int));
            assert(out@ =~= spec_prepare_sub(origin_rx@));
        }
        out
    } else {
        let mut out = String::from_str(origin_rx.substring_char(0, 1));
        let rest = prepare_rx_sub_for_replace(origin_rx.substring_char(1, n));
        out.append(rest.as_str());
        proof {
            assert(origin_rx@.subrange(0, 1) =~= seq![origin_rx@[0]]);
            assert(origin_rx@.subrange(1, n as int) =~= origin_rx@.skip(1));
            assert(out@ =~= spec_prepare_sub(origin_rx@));
        }
        out
    }
}

/// A digit run of exactly `d` pins `spec_digit_run` down to `d`.
proof fn lemma_digit_run_run(s: Seq<char>, d: int)
    requires
        0 <= d <= s.len(),
        forall|k: int| 0 <= k < d ==> spec_is_digit(s[k]),
        d == s.len() || !spec_is_digit(s[d]),
    ensures
        spec_digit_run(s) == d,
    decreases d,
{
    if d == 0 {
    } else {
        lemma_digit_run_run(s.skip(1), d - 1);
    }
}

/// Pointwise description of `rmodel_children`.
pub proof fn lemma_children_model(rs: Seq<ParserTransfromRule>)
    ensures
        rmodel_children(rs).len() == rs.len(),
        forall|i: int| 0 <= i < rs.len() ==> #[trigger] rmodel_children(rs)[i] == rs[i].rmodel(),
    decreases rs.len(),
{
    if rs.len() > 0 {
        lemma_children_model(rs.skip(1));
    }
}

} // verus!
