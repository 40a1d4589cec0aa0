//! The transform engine: walks a rule tree against a parsed HTML document
//! and builds a structured record. `spec_apply` is the engine's complete
//! functional description; `transform_html_single` and its companions are
//! verified against it clause for clause.
//!
//! One rule is applied to one context node thus: a depth guard first; a
//! non-empty `grouping` opens a group (the rest of the rule is evaluated
//! into the list found or created at the grouping key, so that each of the
//! rule's matches lands as one element of that array) and is thereby
//! consumed; a "contains literal text" filter,
//! when the selector embeds one, replaces selection entirely; otherwise a
//! non-empty selector picks the descendants of the context node, where zero
//! matches are fatal exactly when `exception_on_not_found` demands it, one
//! match becomes the new context, and several matches are each evaluated
//! with the selector cleared (accumulating in place when the target is
//! already a list, else into a temporary list attached at the mapping key,
//! or discarded without one); then a non-empty mapping writes the context
//! node's trimmed text or attribute, after the optional substitution pass;
//! and the children are finally applied to the context one level deeper,
//! into a fresh dictionary when a list target takes more than one child.

use vstd::prelude::*;

use crate::data::DataModel;
use crate::data::TransformedData;
use crate::data::spec_push_path;
use crate::dom::elem_attr;
use crate::dom::elem_text;
use crate::dom::node_attr;
use crate::dom::node_text;
use crate::dom::parse_document;
use crate::dom::parsed_doc;
use crate::dom::root_id;
use crate::dom::root_of;
use crate::dom::select_nodes;
use crate::dom::spec_selected;
use crate::errors::ErrModel;
use crate::errors::TransformError;
use crate::rules::ParserTransfromRule;
use crate::rules::RuleModel;
use crate::rules::TransformSettings;
use crate::rules::lemma_contains_span_bounds;
use crate::rules::rmodel_children;
use crate::rules::spec_contains_parts;
use crate::rules::spec_prepare_sub;
use crate::rules::prepare_rx_sub_for_replace;
use crate::rx::regex_ok;
use crate::rx::regex_replace_all;
use crate::rx::regex_replaced;
use crate::text::contains_seq;
use crate::text::contains_sub;
use crate::text::spec_trim_ws;
use crate::text::trim_ws;

verus! {

/// The part of the recursion measure that shrinks when a rule's grouping or
/// selector is consumed at an unchanged depth.
pub open spec fn rule_weight(r: RuleModel) -> int {
    (if r.grouping.len() > 0 {
        2int
    } else {
        0int
    }) + (if r.selector.len() > 0 {
        1int
    } else {
        0int
    })
}

/// A selector with a recognized "contains" filter is not empty.
pub proof fn lemma_contains_parts_nonempty(sel: Seq<char>)
    ensures
        spec_contains_parts(sel) is Some ==> sel.len() > 0,
{
    lemma_contains_span_bounds(sel);
}

/// The text a rule writes for a context node: the node's visible text (or
/// the named attribute, empty when absent), trimmed, then the optional
/// substitution pass; a pattern the engine refuses leaves the text as it is.
pub open spec fn spec_leaf_text(
    doc: scraper::Html,
    node: ego_tree::NodeId,
    rule: RuleModel,
) -> Seq<char> {
    let raw = if rule.attribute_name.len() == 0 || rule.attribute_name == "text"@ {
        elem_text(doc, node)
    } else {
        match elem_attr(doc, node, rule.attribute_name) {
            Some(s) => s,
            None => Seq::empty(),
        }
    };
    let t = spec_trim_ws(raw);
    match rule.regex_sub_value {
        Some(pr) => if regex_ok(pr.0) {
            regex_replaced(pr.0, spec_prepare_sub(pr.1), t)
        } else {
            t
        },
        None => t,
    }
}

/// What applying one rule to one context node does to the output tree.
pub open spec fn spec_apply(
    out: DataModel,
    doc: scraper::Html,
    node: ego_tree::NodeId,
    rule: RuleModel,
    level: int,
    max: int,
) -> Result<DataModel, ErrModel>
    decreases max - level, rule_weight(rule), 3int, 0int,
{
    proof {
        lemma_contains_parts_nonempty(rule.selector);
    }
    if level >= max {
        Err(ErrModel::Recursive { level })
    } else if rule.grouping.len() > 0 {
        let r2 = RuleModel { grouping: Seq::<char>::empty(), ..rule };
        match out {
            DataModel::Value(_) => Err(ErrModel::UnsupportedTarget),
            DataModel::Dict(es) => {
                let lst0 = match crate::data::dict_get(es, rule.grouping) {
                    Some(DataModel::List(l)) => l,
                    _ => Seq::<DataModel>::empty(),
                };
                match spec_apply(DataModel::List(lst0), doc, node, r2, level, max) {
                    Ok(d) => Ok(DataModel::Dict(crate::data::dict_set(es, rule.grouping, d))),
                    Err(e) => Err(e),
                }
            },
            DataModel::List(l) => {
                match spec_apply(DataModel::List(Seq::empty()), doc, node, r2, level, max) {
                    Ok(d) => Ok(DataModel::List(l.push(DataModel::Dict(seq![(rule.grouping, d)])))),
                    Err(e) => Err(e),
                }
            },
        }
    } else {
        match spec_contains_parts(rule.selector) {
            Some(parts) => {
                let r2 = RuleModel { selector: Seq::<char>::empty(), ..rule };
                let cands = if parts.1.0.len() > 0 {
                    spec_selected(doc, node, parts.1.0)
                } else {
                    seq![node]
                };
                spec_apply_contains(out, doc, cands, parts.0, parts.1.1, r2, level, max)
            },
            None => {
                if rule.selector.len() > 0 {
                    let tags = spec_selected(doc, node, rule.selector);
                    if tags.len() == 0 && rule.exception_on_not_found {
                        Err(ErrModel::NotFound { tag_name: rule.selector })
                    } else if tags.len() == 0 {
                        Ok(out)
                    } else if tags.len() > 1 {
                        let r2 = RuleModel { selector: Seq::<char>::empty(), ..rule };
                        if out is List {
                            spec_apply_nodes(out, doc, tags, r2, level + 1, max)
                        } else {
                            match spec_apply_nodes(
                                DataModel::List(Seq::empty()),
                                doc,
                                tags,
                                r2,
                                level + 1,
                                max,
                            ) {
                                Ok(tmp) => if rule.mapping.len() > 0 {
                                    spec_push_path(out, rule.mapping, tmp)
                                } else {
                                    Ok(out)
                                },
                                Err(e) => Err(e),
                            }
                        }
                    } else {
                        spec_apply_at(out, doc, tags[0], rule, level, max)
                    }
                } else {
                    spec_apply_at(out, doc, node, rule, level, max)
                }
            },
        }
    }
}

/// The leaf write and the children, against the chosen context node.
/// (Only `spec_apply` calls this, once selection has settled the context.)
pub open spec fn spec_apply_at(
    out: DataModel,
    doc: scraper::Html,
    cur: ego_tree::NodeId,
    rule: RuleModel,
    level: int,
    max: int,
) -> Result<DataModel, ErrModel>
    decreases max - level, rule_weight(rule), 2int, 0int,
        when level < max
{
    let out1 = if rule.mapping.len() > 0 {
        spec_push_path(out, rule.mapping, DataModel::Value(spec_leaf_text(doc, cur, rule)))
    } else {
        Ok(out)
    };
    match out1 {
        Err(e) => Err(e),
        Ok(o1) => if rule.children.len() == 0 {
            Ok(o1)
        } else if rule.children.len() > 1 && o1 is List {
            match spec_apply_multi(
                DataModel::Dict(Seq::empty()),
                doc,
                cur,
                rule.children,
                level + 1,
                max,
            ) {
                Ok(d) => Ok(DataModel::List(o1->List_0.push(d))),
                Err(e) => Err(e),
            }
        } else {
            spec_apply_multi(o1, doc, cur, rule.children, level + 1, max)
        },
    }
}

/// Applying one (selector-cleared) rule to each node of a list in turn.
pub open spec fn spec_apply_nodes(
    out: DataModel,
    doc: scraper::Html,
    nodes: Seq<ego_tree::NodeId>,
    rule: RuleModel,
    level: int,
    max: int,
) -> Result<DataModel, ErrModel>
    decreases max - level, rule_weight(rule), 4int, nodes.len(),
{
    if nodes.len() == 0 {
        Ok(out)
    } else {
        match spec_apply(out, doc, nodes[0], rule, level, max) {
            Ok(o2) => spec_apply_nodes(o2, doc, nodes.skip(1), rule, level, max),
            Err(e) => Err(e),
        }
    }
}

/// The "contains literal text" filter: for each candidate whose visible
/// text holds the literal, the rule (its selector already cleared) is
/// applied to the candidate itself, or to each of its descendants the
/// right-hand selector picks.
pub open spec fn spec_apply_contains(
    out: DataModel,
    doc: scraper::Html,
    cands: Seq<ego_tree::NodeId>,
    text: Seq<char>,
    right: Seq<char>,
    rule: RuleModel,
    level: int,
    max: int,
) -> Result<DataModel, ErrModel>
    decreases max - level, rule_weight(rule), 5int, cands.len(),
{
    if cands.len() == 0 {
        Ok(out)
    } else {
        let c = cands[0];
        let step = if !contains_seq(elem_text(doc, c), text) {
            Ok(out)
        } else if right.len() == 0 {
            spec_apply(out, doc, c, rule, level, max)
        } else {
            spec_apply_nodes(out, doc, spec_selected(doc, c, right), rule, level, max)
        };
        match step {
            Ok(o2) => spec_apply_contains(o2, doc, cands.skip(1), text, right, rule, level, max),
            Err(e) => Err(e),
        }
    }
}

/// The text a rule writes, computed against the document.
fn leaf_text(doc: &scraper::Html, cur: ego_tree::NodeId, rule: &ParserTransfromRule) -> (r: String)
    ensures
        r@ == spec_leaf_text(*doc, cur, rule@),
{
    let attr_is_text = rule.attribute_name.as_str().unicode_len() == 0 || rule.attribute_name
        == String::from_str("text");
    let raw = if attr_is_text {
        node_text(doc, cur)
    } else {
        match node_attr(doc, cur, rule.attribute_name.as_str()) {
            Some(s) => s,
            None => String::new(),
        }
    };
    let trimmed = trim_ws(raw.as_str());
    match &rule.regex_sub_value {
        Some((p, rep)) => {
            let prepared = prepare_rx_sub_for_replace(rep.as_str());
            match regex_replace_all(p.as_str(), prepared.as_str(), trimmed.as_str()) {
                Some(s) => s,
                None => trimmed,
            }
        },
        None => trimmed,
    }
}

/// Handle a rule whose selector embeds a "contains literal text" filter:
/// `Ok(false)` says the selector has none and nothing was done; `Ok(true)`
/// says the filter handled the rule entirely, per `spec_apply_contains`.
/// The rule must carry no grouping (its caller consumed it).
#[verifier::loop_isolation(false)]
fn select_contains(
    data: &mut TransformedData,
    doc: &scraper::Html,
    node: ego_tree::NodeId,
    rule: &ParserTransfromRule,
    level: usize,
    settings: &TransformSettings,
) -> (r: Result<bool, TransformError>)
    requires
        level < settings.max_depth_level,
        rule@.grouping.len() == 0,
    ensures
        match spec_contains_parts(rule@.selector) {
            None => r == Ok::<bool, TransformError>(false) && final(data)@ == old(data)@,
            Some(parts) => ({
                let r2 = RuleModel { selector: Seq::<char>::empty(), ..rule@ };
                let cands = if parts.1.0.len() > 0 {
                    spec_selected(*doc, node, parts.1.0)
                } else {
                    seq![node]
                };
                match spec_apply_contains(
                    old(data)@,
                    *doc,
                    cands,
                    parts.0,
                    parts.1.1,
                    r2,
                    level as int,
                    settings.max_depth_level as int,
                ) {
                    Ok(m) => r == Ok::<bool, TransformError>(true) && final(data)@ == m,
                    Err(e) => r matches Err(x) && x@ == e,
                }
            }),
        },
    decreases settings.max_depth_level - level, rule_weight(rule@), 0int,
{
    proof {
        lemma_contains_parts_nonempty(rule@.selector);
    }
    let ghost max = settings.max_depth_level as int;
    match rule.is_contains_selector() {
        None => Ok(false),
        Some((text, (left, right))) => {
            let sub = rule.with_empty_selector();
            let cands: Vec<ego_tree::NodeId> = if left.as_str().unicode_len() > 0 {
                match select_nodes(doc, node, left.as_str()) {
                    Some(v) => v,
                    None => Vec::new(),
                }
            } else {
                let mut v: Vec<ego_tree::NodeId> = Vec::new();
                v.push(node);
                v
            };
            let ghost gcands = cands@;
            proof {
                if left@.len() > 0 {
                    assert(gcands =~= spec_selected(*doc, node, left@));
                } else {
                    assert(gcands =~= seq![node]);
                }
            }
            let ghost out0 = data@;
            proof {
                assert(gcands.skip(0) =~= gcands);
            }
            let mut k: usize = 0;
            while k < cands.len()
                invariant
                    k <= gcands.len(),
                    spec_apply_contains(out0, *doc, gcands, text@, right@, sub@, level as int, max)
                        == spec_apply_contains(
                        data@,
                        *doc,
                        gcands.skip(k as int),
                        text@,
                        right@,
                        sub@,
                        level as int,
                        max,
                    ),
                decreases gcands.len() - k,
            {
                let ghost rest = gcands.skip(k as int);
                proof {
                    assert(rest.len() > 0);
                    assert(rest[0] == gcands[k as int]);
                    assert(rest.skip(1) =~= gcands.skip(k + 1));
                }
                let c = cands[k];
                let t = node_text(doc, c);
                if contains_sub(t.as_str(), text.as_str()) {
                    if right.as_str().unicode_len() == 0 {
                        match transform_html_single(data, doc, c, &sub, level, settings) {
                            Ok(_) => {},
                            Err(e) => {
                                return Err(e);
                            },
                        }
                    } else {
                        let ms: Vec<ego_tree::NodeId> = match select_nodes(
                            doc,
                            c,
                            right.as_str(),
                        ) {
                            Some(v) => v,
                            None => Vec::new(),
                        };
                        let ghost gms = ms@;
                        proof {
                            assert(gms =~= spec_selected(*doc, c, right@));
                        }
                        let ghost inner0 = data@;
                        proof {
                            assert(gms.skip(0) =~= gms);
                        }
                        let mut q: usize = 0;
                        while q < ms.len()
                            invariant
                                q <= gms.len(),
                                spec_apply_nodes(inner0, *doc, gms, sub@, level as int, max)
                                    == spec_apply_nodes(
                                    data@,
                                    *doc,
                                    gms.skip(q as int),
                                    sub@,
                                    level as int,
                                    max,
                                ),
                            decreases gms.len() - q,
                        {
                            let ghost mrest = gms.skip(q as int);
                            proof {
                                assert(mrest[0] == gms[q as int]);
                                assert(mrest.skip(1) =~= gms.skip(q + 1));
                            }
                            match transform_html_single(data, doc, ms[q], &sub, level, settings) {
                                Ok(_) => {},
                                Err(e) => {
                                    return Err(e);
                                },
                            }
                            q = q + 1;
                        }
                        proof {
                            assert(gms.skip(gms.len() as int) =~= Seq::<ego_tree::NodeId>::empty());
                        }
                    }
                }
                k = k + 1;
            }
            proof {
                assert(gcands.skip(gcands.len() as int) =~= Seq::<ego_tree::NodeId>::empty());
            }
            Ok(true)
        },
    }
}

/// Apply one rule to one context node, writing into `data`, exactly as
/// `spec_apply` says. On an error `data` may keep the writes made before
/// the failing step; callers that publish a document discard it then.
#[verifier::loop_isolation(false)]
pub fn transform_html_single(
    data: &mut TransformedData,
    doc: &scraper::Html,
    node: ego_tree::NodeId,
    rule: &ParserTransfromRule,
    level: usize,
    settings: &TransformSettings,
) -> (r: Result<(), TransformError>)
    ensures
        match spec_apply(
            old(data)@,
            *doc,
            node,
            rule@,
            level as int,
            settings.max_depth_level as int,
        ) {
            Ok(m) => r is Ok && final(data)@ == m,
            Err(e) => r matches Err(x) && x@ == e,
        },
    decreases settings.max_depth_level - level, rule_weight(rule@), 1int,
{
    proof {
        lemma_contains_parts_nonempty(rule@.selector);
    }
    let ghost max = settings.max_depth_level as int;
    if level >= settings.max_depth_level {
        return Err(TransformError::RecursiveError { level });
    }
    if rule.grouping.as_str().unicode_len() > 0 {
        let sub = rule.with_empty_grouping();
        if data.is_list() {
            let mut tmp = TransformedData::create_list();
            match transform_html_single(&mut tmp, doc, node, &sub, level, settings) {
                Ok(_) => {},
                Err(e) => {
                    return Err(e);
                },
            }
            let mut entry_map: crate::data::DataMap = Vec::new();
            entry_map.push((String::from_str(rule.grouping.as_str()), tmp));
            let ghost gentry = entry_map@;
            let wrapped = TransformedData::Dict(entry_map);
            proof {
                crate::data::lemma_model_dict(wrapped);
                crate::data::lemma_entries_model(gentry);
                assert(crate::data::dmodel_entries(gentry) =~= seq![
                    (rule@.grouping, gentry[0].1.dmodel()),
                ]);
            }
            return match data.push_value_to_list(wrapped) {
                Ok(_) => Ok(()),
                Err(e) => Err(e),
            };
        }
        if !data.is_dict() {
            return Err(TransformError::UnsupportedTarget);
        }
        let mut taken = TransformedData::Value(String::new());
        core::mem::swap(data, &mut taken);
        return match taken {
            TransformedData::Dict(mut m) => {
                proof {
                    crate::data::lemma_model_dict(TransformedData::Dict(m));
                    crate::data::lemma_entries_model(m@);
                }
                let ghost es0 = m@;
                let ghost key = rule@.grouping;
                let key_s = String::from_str(rule.grouping.as_str());
                let mut j: usize = 0;
                while j < m.len() && !(m[j].0 == key_s)
                    invariant
                        j <= m@.len(),
                        key_s@ == key,
                        forall|k: int| 0 <= k < j ==> (#[trigger] es0[k].0)@ != key,
                    decreases m@.len() - j,
                {
                    j = j + 1;
                }
                if j < m.len() {
                    proof {
                        assert((crate::data::dmodel_entries(es0)[j as int]).0 == key);
                        assert(forall|k: int|
                            0 <= k < j ==> (#[trigger] crate::data::dmodel_entries(es0)[k]).0
                                != key);
                        crate::data::lemma_dict_get_found(
                            crate::data::dmodel_entries(es0),
                            key,
                            j as int,
                        );
                    }
                    let (k_s, child) = m.remove(j);
                    let lst: crate::data::DataVec = match child {
                        TransformedData::List(l) => l,
                        TransformedData::Dict(_) => Vec::new(),
                        TransformedData::Value(_) => Vec::new(),
                    };
                    proof {
                        if child is List {
                            crate::data::lemma_model_list(child);
                        } else {
                            assert(crate::data::dmodel_elems(lst@) =~= Seq::<DataModel>::empty());
                        }
                    }
                    let mut tmp = TransformedData::List(lst);
                    proof {
                        crate::data::lemma_model_list(tmp);
                    }
                    match transform_html_single(&mut tmp, doc, node, &sub, level, settings) {
                        Ok(_) => {},
                        Err(e) => {
                            m.insert(j, (k_s, tmp));
                            *data = TransformedData::Dict(m);
                            return Err(e);
                        },
                    }
                    m.insert(j, (k_s, tmp));
                    proof {
                        assert(m@ =~= es0.update(j as int, (k_s, tmp)));
                        crate::data::lemma_dict_set_found(
                            crate::data::dmodel_entries(es0),
                            key,
                            tmp@,
                            j as int,
                        );
                        crate::data::lemma_entries_model(m@);
                        assert(crate::data::dmodel_entries(m@) =~= crate::data::dict_set(
                            crate::data::dmodel_entries(es0),
                            key,
                            tmp@,
                        ));
                        crate::data::lemma_model_dict(TransformedData::Dict(m));
                    }
                    *data = TransformedData::Dict(m);
                    Ok(())
                } else {
                    proof {
                        assert(forall|k: int|
                            0 <= k < es0.len() ==> (#[trigger] crate::data::dmodel_entries(es0)[k]).0
                                != key);
                        crate::data::lemma_dict_get_missing(
                            crate::data::dmodel_entries(es0),
                            key,
                        );
                    }
                    let mut tmp = TransformedData::create_list();
                    match transform_html_single(&mut tmp, doc, node, &sub, level, settings) {
                        Ok(_) => {},
                        Err(e) => {
                            *data = TransformedData::Dict(m);
                            return Err(e);
                        },
                    }
                    m.push((key_s, tmp));
                    proof {
                        crate::data::lemma_dict_set_missing(
                            crate::data::dmodel_entries(es0),
                            key,
                            m@.last().1.dmodel(),
                        );
                        crate::data::lemma_entries_model(m@);
                        assert(crate::data::dmodel_entries(m@) =~= crate::data::dict_set(
                            crate::data::dmodel_entries(es0),
                            key,
                            m@.last().1.dmodel(),
                        ));
                        crate::data::lemma_model_dict(TransformedData::Dict(m));
                    }
                    *data = TransformedData::Dict(m);
                    Ok(())
                }
            },
            TransformedData::List(_) => vstd::pervasive::unreached(),
            TransformedData::Value(_) => vstd::pervasive::unreached(),
        };
    }
    match select_contains(data, doc, node, rule, level, settings) {
        Ok(true) => {
            return Ok(());
        },
        Ok(false) => {},
        Err(e) => {
            return Err(e);
        },
    }
    let cur: ego_tree::NodeId;
    if rule.selector.as_str().unicode_len() > 0 {
        let tags: Vec<ego_tree::NodeId> = match select_nodes(doc, node, rule.selector.as_str()) {
            Some(v) => v,
            None => Vec::new(),
        };
        let ghost gtags = tags@;
        proof {
            assert(gtags =~= spec_selected(*doc, node, rule@.selector));
        }
        if tags.len() == 0 {
            if rule.exception_on_not_found {
                return Err(
                    TransformError::AtLeastOneTagNotFoundError { tag_name: rule.selector.clone() },
                );
            }
            return Ok(());
        }
        if tags.len() > 1 {
            let sub = rule.with_empty_selector();
            if data.is_list() {
                let ghost out0 = data@;
                proof {
                    assert(gtags.skip(0) =~= gtags);
                }
                let mut k: usize = 0;
                while k < tags.len()
                    invariant
                        k <= gtags.len(),
                        spec_apply_nodes(out0, *doc, gtags, sub@, level + 1, max)
                            == spec_apply_nodes(
                            data@,
                            *doc,
                            gtags.skip(k as int),
                            sub@,
                            level + 1,
                            max,
                        ),
                    decreases gtags.len() - k,
                {
                    let ghost trest = gtags.skip(k as int);
                    proof {
                        assert(trest[0] == gtags[k as int]);
                        assert(trest.skip(1) =~= gtags.skip(k + 1));
                    }
                    match transform_html_single(data, doc, tags[k], &sub, level + 1, settings) {
                        Ok(_) => {},
                        Err(e) => {
                            return Err(e);
                        },
                    }
                    k = k + 1;
                }
                proof {
                    assert(gtags.skip(gtags.len() as int) =~= Seq::<ego_tree::NodeId>::empty());
                }
                return Ok(());
            } else {
                let mut tmp = TransformedData::create_list();
                let ghost tmp0 = tmp@;
                proof {
                    assert(gtags.skip(0) =~= gtags);
                }
                let mut k: usize = 0;
                while k < tags.len()
                    invariant
                        k <= gtags.len(),
                        spec_apply_nodes(tmp0, *doc, gtags, sub@, level + 1, max)
                            == spec_apply_nodes(
                            tmp@,
                            *doc,
                            gtags.skip(k as int),
                            sub@,
                            level + 1,
                            max,
                        ),
                    decreases gtags.len() - k,
                {
                    let ghost trest = gtags.skip(k as int);
                    proof {
                        assert(trest[0] == gtags[k as int]);
                        assert(trest.skip(1) =~= gtags.skip(k + 1));
                    }
                    match transform_html_single(&mut tmp, doc, tags[k], &sub, level + 1, settings) {
                        Ok(_) => {},
                        Err(e) => {
                            return Err(e);
                        },
                    }
                    k = k + 1;
                }
                proof {
                    assert(gtags.skip(gtags.len() as int) =~= Seq::<ego_tree::NodeId>::empty());
                }
                if rule.mapping.as_str().unicode_len() > 0 {
                    return match data.push_value_path(rule.mapping.as_str(), tmp) {
                        Ok(_) => Ok(()),
                        Err(e) => Err(e),
                    };
                }
                return Ok(());
            }
        }
        cur = tags[0];
        proof {
            assert(spec_apply(old(data)@, *doc, node, rule@, level as int, max)
                == spec_apply_at(old(data)@, *doc, cur, rule@, level as int, max));
        }
    } else {
        cur = node;
        proof {
            assert(spec_apply(old(data)@, *doc, node, rule@, level as int, max)
                == spec_apply_at(old(data)@, *doc, cur, rule@, level as int, max));
        }
    }
    // the leaf write and the children, per `spec_apply_at`
    if rule.mapping.as_str().unicode_len() > 0 {
        let txt = leaf_text(doc, cur, rule);
        match data.push_value_path(rule.mapping.as_str(), TransformedData::Value(txt)) {
            Ok(_) => {},
            Err(e) => {
                return Err(e);
            },
        }
    }
    let kids: &Vec<ParserTransfromRule> = &rule.children;
    let ghost gkids = rmodel_children(kids@);
    proof {
        crate::rules::lemma_children_model(kids@);
    }
    if kids.len() == 0 {
        return Ok(());
    }
    if kids.len() > 1 && data.is_list() {
        let mut d2 = TransformedData::create_dict();
        let ghost d0 = d2@;
        proof {
            assert(gkids.skip(0) =~= gkids);
        }
        let mut j: usize = 0;
        while j < kids.len()
            invariant
                j <= gkids.len(),
                spec_apply_multi(d0, *doc, cur, gkids, level + 1, max) == spec_apply_multi(
                    d2@,
                    *doc,
                    cur,
                    gkids.skip(j as int),
                    level + 1,
                    max,
                ),
            decreases gkids.len() - j,
        {
            let ghost krest = gkids.skip(j as int);
            proof {
                assert(krest[0] == gkids[j as int]);
                assert(krest.skip(1) =~= gkids.skip(j + 1));
            }
            match transform_html_single(&mut d2, doc, cur, &kids[j], level + 1, settings) {
                Ok(_) => {},
                Err(e) => {
                    return Err(e);
                },
            }
            j = j + 1;
        }
        proof {
            assert(gkids.skip(gkids.len() as int) =~= Seq::<RuleModel>::empty());
        }
        match data.push_value_to_list(d2) {
            Ok(_) => Ok(()),
            Err(e) => Err(e),
        }
    } else {
        let ghost mid = data@;
        proof {
            assert(gkids.skip(0) =~= gkids);
        }
        let mut j: usize = 0;
        while j < kids.len()
            invariant
                j <= gkids.len(),
                spec_apply_multi(mid, *doc, cur, gkids, level + 1, max) == spec_apply_multi(
                    data@,
                    *doc,
                    cur,
                    gkids.skip(j as int),
                    level + 1,
                    max,
                ),
            decreases gkids.len() - j,
        {
            let ghost krest = gkids.skip(j as int);
            proof {
                assert(krest[0] == gkids[j as int]);
                assert(krest.skip(1) =~= gkids.skip(j + 1));
            }
            match transform_html_single(data, doc, cur, &kids[j], level + 1, settings) {
                Ok(_) => {},
                Err(e) => {
                    return Err(e);
                },
            }
            j = j + 1;
        }
        proof {
            assert(gkids.skip(gkids.len() as int) =~= Seq::<RuleModel>::empty());
        }
        Ok(())
    }
}

/// Applying each rule of a list in turn to one context node.
pub open spec fn spec_apply_multi(
    out: DataModel,
    doc: scraper::Html,
    node: ego_tree::NodeId,
    rules: Seq<RuleModel>,
    level: int,
    max: int,
) -> Result<DataModel, ErrModel>
    decreases max - level, 4int, 4int, rules.len(),
{
    if rules.len() == 0 {
        Ok(out)
    } else {
        match spec_apply(out, doc, node, rules[0], level, max) {
            Ok(o2) => spec_apply_multi(o2, doc, node, rules.skip(1), level, max),
            Err(e) => Err(e),
        }
    }
}

/// Whether two trees have the same outer variant.
pub open spec fn same_variant(a: DataModel, b: DataModel) -> bool {
    (a is Dict <==> b is Dict) && (a is List <==> b is List) && (a is Value <==> b is Value)
}

/// A path write leaves the target's outer variant alone.
proof fn lemma_push_segs_variant(d: DataModel, segs: Seq<Seq<char>>, v: DataModel)
    ensures
        crate::data::spec_push_segs(d, segs, v) matches Ok(res) ==> same_variant(res, d),
    decreases segs.len(),
{
    if segs.len() > 1 {
        match d {
            DataModel::List(_) => {},
            DataModel::Dict(_) => {},
            DataModel::Value(_) => {},
        }
    }
}

/// Applying a rule leaves the target's outer variant alone.
pub proof fn lemma_apply_variant(
    out: DataModel,
    doc: scraper::Html,
    node: ego_tree::NodeId,
    rule: RuleModel,
    level: int,
    max: int,
)
    ensures
        spec_apply(out, doc, node, rule, level, max) matches Ok(res) ==> same_variant(res, out),
    decreases max - level, rule_weight(rule), 3int, 0int,
{
    lemma_contains_parts_nonempty(rule.selector);
    if level >= max {
    } else if rule.grouping.len() > 0 {
    } else {
        match spec_contains_parts(rule.selector) {
            Some(parts) => {
                let r2 = RuleModel { selector: Seq::<char>::empty(), ..rule };
                let cands = if parts.1.0.len() > 0 {
                    spec_selected(doc, node, parts.1.0)
                } else {
                    seq![node]
                };
                lemma_apply_contains_variant(out, doc, cands, parts.0, parts.1.1, r2, level, max);
            },
            None => {
                if rule.selector.len() > 0 {
                    let tags = spec_selected(doc, node, rule.selector);
                    if tags.len() > 1 {
                        let r2 = RuleModel { selector: Seq::<char>::empty(), ..rule };
                        if out is List {
                            lemma_apply_nodes_variant(out, doc, tags, r2, level + 1, max);
                        } else {
                            match spec_apply_nodes(
                                DataModel::List(Seq::empty()),
                                doc,
                                tags,
                                r2,
                                level + 1,
                                max,
                            ) {
                                Ok(tmp) => {
                                    if rule.mapping.len() > 0 {
                                        crate::data::lemma_effective_segments_len(rule.mapping);
                                        lemma_push_segs_variant(
                                            out,
                                            crate::data::spec_effective_segments(rule.mapping),
                                            tmp,
                                        );
                                    }
                                },
                                Err(_) => {},
                            }
                        }
                    } else if tags.len() == 1 {
                        lemma_apply_at_variant(out, doc, tags[0], rule, level, max);
                    }
                } else {
                    lemma_apply_at_variant(out, doc, node, rule, level, max);
                }
            },
        }
    }
}

proof fn lemma_apply_at_variant(
    out: DataModel,
    doc: scraper::Html,
    cur: ego_tree::NodeId,
    rule: RuleModel,
    level: int,
    max: int,
)
    requires
        level < max,
    ensures
        spec_apply_at(out, doc, cur, rule, level, max) matches Ok(res) ==> same_variant(res, out),
    decreases max - level, rule_weight(rule), 2int, 0int,
{
    let out1 = if rule.mapping.len() > 0 {
        spec_push_path(out, rule.mapping, DataModel::Value(spec_leaf_text(doc, cur, rule)))
    } else {
        Ok(out)
    };
    if rule.mapping.len() > 0 {
        crate::data::lemma_effective_segments_len(rule.mapping);
        lemma_push_segs_variant(
            out,
            crate::data::spec_effective_segments(rule.mapping),
            DataModel::Value(spec_leaf_text(doc, cur, rule)),
        );
    }
    match out1 {
        Err(_) => {},
        Ok(o1) => {
            if rule.children.len() == 0 {
            } else if rule.children.len() > 1 && o1 is List {
            } else {
                lemma_apply_multi_variant(o1, doc, cur, rule.children, level + 1, max);
            }
        },
    }
}

proof fn lemma_apply_nodes_variant(
    out: DataModel,
    doc: scraper::Html,
    nodes: Seq<ego_tree::NodeId>,
    rule: RuleModel,
    level: int,
    max: int,
)
    ensures
        spec_apply_nodes(out, doc, nodes, rule, level, max) matches Ok(res) ==> same_variant(
            res,
            out,
        ),
    decreases max - level, rule_weight(rule), 4int, nodes.len(),
{
    if nodes.len() > 0 {
        lemma_apply_variant(out, doc, nodes[0], rule, level, max);
        match spec_apply(out, doc, nodes[0], rule, level, max) {
            Ok(o2) => {
                lemma_apply_nodes_variant(o2, doc, nodes.skip(1), rule, level, max);
            },
            Err(_) => {},
        }
    }
}

proof fn lemma_apply_contains_variant(
    out: DataModel,
    doc: scraper::Html,
    cands: Seq<ego_tree::NodeId>,
    text: Seq<char>,
    right: Seq<char>,
    rule: RuleModel,
    level: int,
    max: int,
)
    ensures
        spec_apply_contains(out, doc, cands, text, right, rule, level, max) matches Ok(res)
            ==> same_variant(res, out),
    decreases max - level, rule_weight(rule), 5int, cands.len(),
{
    if cands.len() > 0 {
        let c = cands[0];
        let step = if !contains_seq(elem_text(doc, c), text) {
            Ok::<DataModel, ErrModel>(out)
        } else if right.len() == 0 {
            spec_apply(out, doc, c, rule, level, max)
        } else {
            spec_apply_nodes(out, doc, spec_selected(doc, c, right), rule, level, max)
        };
        if contains_seq(elem_text(doc, c), text) {
            if right.len() == 0 {
                lemma_apply_variant(out, doc, c, rule, level, max);
            } else {
                lemma_apply_nodes_variant(out, doc, spec_selected(doc, c, right), rule, level, max);
            }
        }
        match step {
            Ok(o2) => {
                lemma_apply_contains_variant(o2, doc, cands.skip(1), text, right, rule, level, max);
            },
            Err(_) => {},
        }
    }
}

/// Applying a rule list leaves the target's outer variant alone.
pub proof fn lemma_apply_multi_variant(
    out: DataModel,
    doc: scraper::Html,
    node: ego_tree::NodeId,
    rules: Seq<RuleModel>,
    level: int,
    max: int,
)
    ensures
        spec_apply_multi(out, doc, node, rules, level, max) matches Ok(res) ==> same_variant(
            res,
            out,
        ),
    decreases max - level, 4int, 4int, rules.len(),
{
    if rules.len() > 0 {
        lemma_apply_variant(out, doc, node, rules[0], level, max);
        match spec_apply(out, doc, node, rules[0], level, max) {
            Ok(o2) => {
                lemma_apply_multi_variant(o2, doc, node, rules.skip(1), level, max);
            },
            Err(_) => {},
        }
    }
}

/// Apply each rule in turn to one context node, as `spec_apply_multi` says.
#[verifier::loop_isolation(false)]
pub fn transform_html_multi(
    data: &mut TransformedData,
    doc: &scraper::Html,
    node: ego_tree::NodeId,
    rules: &[ParserTransfromRule],
    level: usize,
    settings: &TransformSettings,
) -> (r: Result<(), TransformError>)
    ensures
        match spec_apply_multi(
            old(data)@,
            *doc,
            node,
            rmodel_children(rules@),
            level as int,
            settings.max_depth_level as int,
        ) {
            Ok(m) => r is Ok && final(data)@ == m,
            Err(e) => r matches Err(x) && x@ == e,
        },
{
    let ghost max = settings.max_depth_level as int;
    let ghost grules = rmodel_children(rules@);
    proof {
        crate::rules::lemma_children_model(rules@);
        assert(grules.skip(0) =~= grules);
    }
    let ghost out0 = data@;
    let mut k: usize = 0;
    while k < rules.len()
        invariant
            k <= grules.len(),
            grules.len() == rules@.len(),
            spec_apply_multi(out0, *doc, node, grules, level as int, max) == spec_apply_multi(
                data@,
                *doc,
                node,
                grules.skip(k as int),
                level as int,
                max,
            ),
        decreases grules.len() - k,
    {
        let ghost rrest = grules.skip(k as int);
        proof {
            assert(rrest[0] == grules[k as int]);
            assert(rrest.skip(1) =~= grules.skip(k + 1));
        }
        match transform_html_single(data, doc, node, &rules[k], level, settings) {
            Ok(_) => {},
            Err(e) => {
                return Err(e);
            },
        }
        k = k + 1;
    }
    proof {
        assert(grules.skip(grules.len() as int) =~= Seq::<RuleModel>::empty());
    }
    Ok(())
}

/// What a whole extraction yields: the rules applied in turn to the root
/// element of the parsed document, into an empty dictionary; a document
/// without a root element yields the empty dictionary.
pub open spec fn spec_transform(html: Seq<char>, rules: Seq<RuleModel>, max: int) -> Result<
    DataModel,
    ErrModel,
> {
    let doc = parsed_doc(html);
    match root_of(doc) {
        None => Ok(DataModel::Dict(Seq::empty())),
        Some(root) => spec_apply_multi(DataModel::Dict(Seq::empty()), doc, root, rules, 1, max),
    }
}

/// Parse `html` and extract one structured record by `rules`.
pub fn transform_html(html: &str, rules: &[ParserTransfromRule], settings: &TransformSettings) -> (r:
    Result<TransformedData, TransformError>)
    ensures
        match spec_transform(html@, rmodel_children(rules@), settings.max_depth_level as int) {
            Ok(m) => r matches Ok(d) && d@ == m,
            Err(e) => r matches Err(x) && x@ == e,
        },
{
    let doc = parse_document(html);
    let root = match root_id(&doc) {
        Some(root) => root,
        None => {
            return Ok(TransformedData::create_dict());
        },
    };
    let mut data = TransformedData::create_dict();
    match transform_html_multi(&mut data, &doc, root, rules, 1, settings) {
        Ok(_) => Ok(data),
        Err(e) => Err(e),
    }
}

/// Parse `html` and extract one structured record by `rules`, as the
/// dictionary entries themselves.
pub fn transform_html_map(
    html: &str,
    rules: &[ParserTransfromRule],
    settings: &TransformSettings,
) -> (r: Result<crate::data::DataMap, TransformError>)
    ensures
        match spec_transform(html@, rmodel_children(rules@), settings.max_depth_level as int) {
            Ok(m) => r matches Ok(d) && DataModel::Dict(crate::data::dmodel_entries(d@)) == m,
            Err(e) => r matches Err(x) && x@ == e,
        },
{
    proof {
        let doc = parsed_doc(html@);
        match root_of(doc) {
            None => {},
            Some(root) => {
                lemma_apply_multi_variant(
                    DataModel::Dict(Seq::empty()),
                    doc,
                    root,
                    rmodel_children(rules@),
                    1,
                    settings.max_depth_level as int,
                );
            },
        }
    }
    match transform_html(html, rules, settings) {
        Err(e) => Err(e),
        Ok(d) => {
            proof {
                crate::data::lemma_model_dict(d);
            }
            match d {
                TransformedData::Dict(m) => Ok(m),
                TransformedData::List(_) => vstd::pervasive::unreached(),
                TransformedData::Value(_) => vstd::pervasive::unreached(),
            }
        },
    }
}

/// Parse `html` and extract into an existing list of records, returning the
/// grown list.
pub fn transform_html_list(
    transformed_data: crate::data::DataVec,
    html: &str,
    rules: &[ParserTransfromRule],
    settings: &TransformSettings,
) -> (r: Result<crate::data::DataVec, TransformError>)
    ensures
        ({
            let doc = parsed_doc(html@);
            let out0 = DataModel::List(crate::data::dmodel_elems(transformed_data@));
            match root_of(doc) {
                None => r matches Ok(v) && crate::data::dmodel_elems(v@) == crate::data::dmodel_elems(
                    transformed_data@,
                ),
                Some(root) => match spec_apply_multi(
                    out0,
                    doc,
                    root,
                    rmodel_children(rules@),
                    1,
                    settings.max_depth_level as int,
                ) {
                    Ok(m) => r matches Ok(v) && DataModel::List(crate::data::dmodel_elems(v@)) == m,
                    Err(e) => r matches Err(x) && x@ == e,
                },
            }
        }),
{
    let mut data = TransformedData::List(transformed_data);
    proof {
        crate::data::lemma_model_list(data);
        let doc = parsed_doc(html@);
        match root_of(doc) {
            None => {},
            Some(root) => {
                lemma_apply_multi_variant(
                    data@,
                    doc,
                    root,
                    rmodel_children(rules@),
                    1,
                    settings.max_depth_level as int,
                );
            },
        }
    }
    let doc = parse_document(html);
    let root = match root_id(&doc) {
        Some(root) => root,
        None => {
            proof {
                crate::data::lemma_model_list(data);
            }
            return match data {
                TransformedData::List(v) => Ok(v),
                TransformedData::Dict(_) => vstd::pervasive::unreached(),
                TransformedData::Value(_) => vstd::pervasive::unreached(),
            };
        },
    };
    match transform_html_multi(&mut data, &doc, root, rules, 1, settings) {
        Ok(_) => {
            proof {
                crate::data::lemma_model_list(data);
            }
            match data {
                TransformedData::List(v) => Ok(v),
                TransformedData::Dict(_) => vstd::pervasive::unreached(),
                TransformedData::Value(_) => vstd::pervasive::unreached(),
            }
        },
        Err(e) => Err(e),
    }
}

/// Law: a rule whose selector matches nothing, without
/// `exception_on_not_found`, leaves the output document unchanged and
/// never fails. (The rule carries no grouping, which would record an empty
/// group, and no "contains" filter, which replaces selection.)
pub proof fn lemma_selector_miss_silent(
    out: DataModel,
    doc: scraper::Html,
    node: ego_tree::NodeId,
    rule: RuleModel,
    level: int,
    max: int,
)
    requires
        level < max,
        rule.grouping.len() == 0,
        spec_contains_parts(rule.selector) is None,
        rule.selector.len() > 0,
        spec_selected(doc, node, rule.selector).len() == 0,
        !rule.exception_on_not_found,
    ensures
        spec_apply(out, doc, node, rule, level, max) == Ok::<DataModel, ErrModel>(out),
{
}

/// Law: a rule whose selector matches nothing, with
/// `exception_on_not_found`, fails with the not-found error carrying
/// exactly the rule's selector text, also through an opened group, whose
/// target must merely be able to hold one (not a string leaf).
pub proof fn lemma_selector_miss_fatal(
    out: DataModel,
    doc: scraper::Html,
    node: ego_tree::NodeId,
    rule: RuleModel,
    level: int,
    max: int,
)
    requires
        level < max,
        rule.grouping.len() == 0 || !(out is Value),
        spec_contains_parts(rule.selector) is None,
        rule.selector.len() > 0,
        spec_selected(doc, node, rule.selector).len() == 0,
        rule.exception_on_not_found,
    ensures
        spec_apply(out, doc, node, rule, level, max) == Err::<DataModel, ErrModel>(
            ErrModel::NotFound { tag_name: rule.selector },
        ),
    decreases rule_weight(rule),
{
    if rule.grouping.len() > 0 {
        let r2 = RuleModel { grouping: Seq::<char>::empty(), ..rule };
        match out {
            DataModel::Dict(es) => {
                let lst0 = match crate::data::dict_get(es, rule.grouping) {
                    Some(DataModel::List(l)) => l,
                    _ => Seq::<DataModel>::empty(),
                };
                lemma_selector_miss_fatal(
                    DataModel::List(lst0),
                    doc,
                    node,
                    r2,
                    level,
                    max,
                );
            },
            DataModel::List(_) => {
                lemma_selector_miss_fatal(
                    DataModel::List(Seq::empty()),
                    doc,
                    node,
                    r2,
                    level,
                    max,
                );
            },
            DataModel::Value(_) => {},
        }
    }
}

/// Law: at or past the depth limit, a rule application fails with the
/// depth error carrying the offending level, whatever the rule.
pub proof fn lemma_depth_guard(
    out: DataModel,
    doc: scraper::Html,
    node: ego_tree::NodeId,
    rule: RuleModel,
    level: int,
    max: int,
)
    requires
        level >= max,
    ensures
        spec_apply(out, doc, node, rule, level, max) == Err::<DataModel, ErrModel>(
            ErrModel::Recursive { level },
        ),
{
}

/// A rule tree that is nothing but nesting: each level one bare rule
/// holding the next, `n + 1` rules in all.
pub open spec fn chain_rule(n: nat) -> RuleModel
    decreases n,
{
    RuleModel {
        selector: Seq::<char>::empty(),
        mapping: Seq::<char>::empty(),
        attribute_name: Seq::<char>::empty(),
        regex_sub_value: None,
        children: if n == 0 {
            Seq::<RuleModel>::empty()
        } else {
            seq![chain_rule((n - 1) as nat)]
        },
        grouping: Seq::<char>::empty(),
        exception_on_not_found: false,
    }
}

/// Law (depth guard): a rule tree nested `n + 1` levels deep, applied at
/// `level`, succeeds without touching the output exactly when the deepest
/// level stays below the limit; otherwise it fails with the depth error.
pub proof fn lemma_depth_chain(
    out: DataModel,
    doc: scraper::Html,
    node: ego_tree::NodeId,
    n: nat,
    level: int,
    max: int,
)
    ensures
        level + n < max ==> spec_apply(out, doc, node, chain_rule(n), level, max) == Ok::<
            DataModel,
            ErrModel,
        >(out),
        level + n >= max ==> (spec_apply(out, doc, node, chain_rule(n), level, max) matches Err(e)
            && e is Recursive),
    decreases n,
{
    let rule = chain_rule(n);
    assert(spec_contains_parts(rule.selector) is None) by {
        crate::text::lemma_find_sub_props(rule.selector, crate::rules::contains_marker());
        assert(crate::rules::contains_marker().len() > 0) by {
            reveal_strlit(":-soup-contains(");
        }
        if crate::text::spec_find_sub(rule.selector, crate::rules::contains_marker()) >= 0 {
            assert(crate::text::matches_at(
                rule.selector,
                crate::rules::contains_marker(),
                crate::text::spec_find_sub(rule.selector, crate::rules::contains_marker()),
            ));
        }
    }
    if level < max {
        assert(spec_apply(out, doc, node, rule, level, max) == spec_apply_at(
            out,
            doc,
            node,
            rule,
            level,
            max,
        ));
        if n == 0 {
            assert(spec_apply_at(out, doc, node, rule, level, max) == Ok::<DataModel, ErrModel>(
                out,
            ));
        } else {
            lemma_depth_chain(out, doc, node, (n - 1) as nat, level + 1, max);
            assert(rule.children[0] == chain_rule((n - 1) as nat));
            assert(rule.children.skip(1) =~= Seq::<RuleModel>::empty());
            match spec_apply(out, doc, node, chain_rule((n - 1) as nat), level + 1, max) {
                Ok(o2) => {
                    assert(spec_apply_multi(o2, doc, node, rule.children.skip(1), level + 1, max)
                        == Ok::<DataModel, ErrModel>(o2));
                },
                Err(_) => {},
            }
        }
    }
}

} // verus!
