//! The extraction engine: the executable leg matcher, the identity
//! deduplicator and the orchestrator.
//!
//! [`extract_json`] matches one leg sequence against a document and returns
//! references to the matching nodes, duplicates by node location suppressed.
//! [`JsonRef::extract`] runs it once per path expression and assembles the
//! final owned value under the auto-wrap rule. Both are verified against the
//! semantics of [`crate::match_spec`].

use vstd::prelude::*;
use vstd::slice::slice_index_get;

use crate::match_spec::MatchModel;
use crate::match_spec::dedup_matches;
use crate::match_spec::elems_matches;
use crate::match_spec::entries_matches;
use crate::match_spec::could_return_multiple;
use crate::match_spec::exprs_matched_nodes;
use crate::match_spec::extract_model;
use crate::match_spec::fresh_pred;
use crate::match_spec::has_loc;
use crate::match_spec::key_matches;
use crate::match_spec::leg_matches;
use crate::match_spec::lemma_dedup_concat;
use crate::match_spec::lemma_dedup_singleton;
use crate::match_spec::lemma_filter_singleton;
use crate::match_spec::matched_nodes;
use crate::path_expr::IndexSelector;
use crate::path_expr::has_any_asterisk;
use crate::path_expr::KeySelector;
use crate::path_expr::PathExpression;
use crate::path_expr::PathLeg;
use crate::value::Json;
use crate::value::JsonModel;
use crate::value::JsonRef;
use crate::value::entry_models;
use crate::value::json_model;
use crate::value::json_models;
use crate::value::lemma_elem_height;
use crate::value::lemma_entry_height;
use crate::value::lemma_entry_models;
use crate::value::lemma_json_models;
use crate::value::model_height;
use crate::value::opt_model;

verus! {

/// The model of an executable location: its indices as mathematical integers.
pub open spec fn loc_model(l: Seq<usize>) -> Seq<int> {
    l.map_values(|u: usize| u as int)
}

/// One transient match held during matching: a reference to the matched node
/// and the location that identifies it.
struct RefMatch<'a> {
    r: JsonRef<'a>,
    loc: Vec<usize>,
}

/// The model of one transient match.
spec fn match_model_of(e: RefMatch) -> MatchModel {
    MatchModel { loc: loc_model(e.loc@), node: e.r@ }
}

/// The models of a list of transient matches.
spec fn matches_model(s: Seq<RefMatch>) -> Seq<MatchModel> {
    s.map_values(|e: RefMatch| match_model_of(e))
}

/// The models of a list of node references.
pub open spec fn refs_model(s: Seq<JsonRef>) -> Seq<JsonModel> {
    s.map_values(|x: JsonRef| x@)
}

/// A fresh copy of a location.
fn clone_loc(l: &Vec<usize>) -> (r: Vec<usize>)
    ensures
        r@ == l@,
{
    let mut r: Vec<usize> = Vec::new();
    let n = l.len();
    for i in 0..n
        invariant
            n == l@.len(),
            r@.len() == i,
            forall|t: int| 0 <= t < i ==> r@[t] == l@[t],
    {
        r.push(l[i]);
    }
    proof {
        assert(r@ =~= l@);
    }
    r
}

/// Whether two locations denote the same node of the same document.
fn locs_equal(a: &Vec<usize>, b: &Vec<usize>) -> (r: bool)
    ensures
        r == (loc_model(a@) == loc_model(b@)),
{
    if a.len() != b.len() {
        proof {
            assert(loc_model(a@).len() != loc_model(b@).len());
        }
        return false;
    }
    let n = a.len();
    for i in 0..n
        invariant
            n == a@.len(),
            n == b@.len(),
            forall|t: int| 0 <= t < i ==> a@[t] == b@[t],
    {
        if a[i] != b[i] {
            proof {
                assert(loc_model(a@)[i as int] != loc_model(b@)[i as int]);
            }
            return false;
        }
    }
    proof {
        assert(a@ =~= b@);
        assert(loc_model(a@) =~= loc_model(b@));
    }
    true
}

/// Appends to `elem_list` every match of `other` whose location `elem_list`
/// does not already hold, preserving both orders. Neither list's prior
/// content is touched; `other` is read only.
#[verifier::loop_isolation(false)]
fn append_if_ref_unique<'a>(elem_list: &mut Vec<RefMatch<'a>>, other: &Vec<RefMatch<'a>>)
    ensures
        matches_model(final(elem_list)@) == matches_model(old(elem_list)@) + matches_model(
            other@,
        ).filter(fresh_pred(matches_model(old(elem_list)@))),
{
    let ghost orig = old(elem_list)@;
    let ghost p = fresh_pred(matches_model(orig));
    let n = elem_list.len();
    let m = other.len();
    for j in 0..m
        invariant
            n == orig.len(),
            m == other@.len(),
            elem_list@.len() >= n,
            elem_list@.subrange(0, n as int) == orig,
            matches_model(elem_list@) == matches_model(orig) + matches_model(
                other@.subrange(0, j as int),
            ).filter(p),
    {
        let mut found = false;
        for i in 0..n
            invariant
                n == orig.len(),
                m == other@.len(),
                j < m,
                elem_list@.len() >= n,
                elem_list@.subrange(0, n as int) == orig,
                found == exists|t: int|
                    0 <= t < i && match_model_of(orig[t]).loc == loc_model(
                        other@[j as int].loc@,
                    ),
        {
            proof {
                assert(elem_list@[i as int] == orig[i as int]);
            }
            if locs_equal(&elem_list[i].loc, &other[j].loc) {
                found = true;
            }
        }
        let ghost e = match_model_of(other@[j as int]);
        proof {
            assert(found == has_loc(matches_model(orig), e.loc)) by {
                if found {
                    let t = choose|t: int|
                        0 <= t < n && match_model_of(orig[t]).loc == loc_model(
                            other@[j as int].loc@,
                        );
                    assert(matches_model(orig)[t].loc == e.loc);
                }
                if has_loc(matches_model(orig), e.loc) {
                    let t = choose|t: int|
                        0 <= t < matches_model(orig).len() && matches_model(orig)[t].loc == e.loc;
                    assert(match_model_of(orig[t]).loc == loc_model(other@[j as int].loc@));
                }
            }
        }
        let ghost fj = matches_model(other@.subrange(0, j as int)).filter(p);
        proof {
            assert(other@.subrange(0, (j + 1) as int) =~= other@.subrange(0, j as int).push(
                other@[j as int],
            ));
            assert(matches_model(other@.subrange(0, j as int).push(other@[j as int]))
                =~= matches_model(other@.subrange(0, j as int)) + seq![e]);
            Seq::filter_distributes_over_add(
                matches_model(other@.subrange(0, j as int)),
                seq![e],
                p,
            );
            lemma_filter_singleton(e, p);
            assert(matches_model(other@.subrange(0, (j + 1) as int)).filter(p) == fj + seq![
                e,
            ].filter(p));
        }
        if !found {
            let cp = RefMatch { r: other[j].r, loc: clone_loc(&other[j].loc) };
            proof {
                assert(match_model_of(cp) == e);
            }
            let ghost before = elem_list@;
            elem_list.push(cp);
            proof {
                assert(elem_list@.subrange(0, n as int) =~= before.subrange(0, n as int));
                assert(matches_model(elem_list@) =~= matches_model(before).push(e));
                assert(p(e) == !has_loc(matches_model(orig), e.loc));
                assert(p(e));
                assert(seq![e].filter(p) == seq![e]);
                assert(matches_model(elem_list@) =~= matches_model(orig) + (fj + seq![e]));
                assert(matches_model(elem_list@) == matches_model(orig) + matches_model(
                    other@.subrange(0, (j + 1) as int),
                ).filter(p));
            }
        } else {
            proof {
                assert(p(e) == !has_loc(matches_model(orig), e.loc));
                assert(!p(e));
                assert(seq![e].filter(p) =~= Seq::<MatchModel>::empty());
                assert(fj + seq![e].filter(p) =~= fj);
                assert(matches_model(elem_list@) == matches_model(orig) + matches_model(
                    other@.subrange(0, (j + 1) as int),
                ).filter(p));
            }
        }
    }
    proof {
        assert(other@.subrange(0, m as int) =~= other@);
    }
}

/// The recursive leg matcher: every match of `legs[pos..]` against the node
/// `node` standing at location `loc`, in match order, with repeated
/// locations suppressed.
#[verifier::loop_isolation(false)]
fn extract_at<'a>(node: &'a Json, loc: &Vec<usize>, legs: &[PathLeg], pos: usize) -> (r: Vec<
    RefMatch<'a>,
>)
    requires
        pos <= legs@.len(),
    ensures
        matches_model(r@) == dedup_matches(
            leg_matches(json_model(*node), loc_model(loc@), legs@, pos as int),
        ),
    decreases model_height(json_model(*node)), legs@.len() - pos,
{
    let ghost m = json_model(*node);
    let ghost lv = loc_model(loc@);
    if pos >= legs.len() {
        let mut out: Vec<RefMatch<'a>> = Vec::new();
        out.push(RefMatch { r: node.as_ref(), loc: clone_loc(loc) });
        proof {
            let mm = MatchModel { loc: lv, node: m };
            lemma_dedup_singleton(mm);
            assert(matches_model(out@) =~= seq![mm]);
        }
        return out;
    }
    let leg = slice_index_get(legs, pos);
    match leg {
        PathLeg::Index(sel) => match node {
            Json::Array(elems) => {
                let ghost cs = json_models(elems@);
                proof {
                    lemma_json_models(elems@);
                    assert(m == JsonModel::Array(cs));
                }
                match sel {
                    IndexSelector::All => {
                        let mut ret: Vec<RefMatch<'a>> = Vec::new();
                        proof {
                            assert(matches_model(ret@) =~= Seq::<MatchModel>::empty());
                            assert(dedup_matches(Seq::<MatchModel>::empty())
                                == Seq::<MatchModel>::empty());
                        }
                        let n = elems.len();
                        for k in 0..n
                            invariant
                                matches_model(ret@) == dedup_matches(
                                    elems_matches(cs, k as int, lv, legs@, pos + 1),
                                ),
                        {
                            let mut child_loc = clone_loc(loc);
                            child_loc.push(k);
                            proof {
                                assert(loc_model(child_loc@) =~= lv.push(k as int));
                                lemma_elem_height(cs, k as int);
                            }
                            let sub = extract_at(&elems[k], &child_loc, legs, pos + 1);
                            let ghost ek = elems_matches(cs, k as int, lv, legs@, pos + 1);
                            let ghost lk = leg_matches(cs[k as int], lv.push(k as int), legs@, pos + 1);
                            append_if_ref_unique(&mut ret, &sub);
                            proof {
                                lemma_dedup_concat(ek, lk);
                                assert(matches_model(sub@) == dedup_matches(lk));
                                assert(elems_matches(cs, k + 1, lv, legs@, pos + 1) == ek + lk);
                                assert(matches_model(ret@) == dedup_matches(
                                    elems_matches(cs, k + 1, lv, legs@, pos + 1),
                                ));
                            }
                        }
                        proof {
                            assert(leg_matches(m, lv, legs@, pos as int) == elems_matches(
                                cs,
                                n as int,
                                lv,
                                legs@,
                                pos + 1,
                            ));
                        }
                        ret
                    },
                    IndexSelector::Pos(i) => {
                        if *i < elems.len() {
                            let mut child_loc = clone_loc(loc);
                            child_loc.push(*i);
                            proof {
                                assert(loc_model(child_loc@) =~= lv.push(*i as int));
                                lemma_elem_height(cs, *i as int);
                            }
                            let r2 = extract_at(&elems[*i], &child_loc, legs, pos + 1);
                            proof {
                                assert(leg_matches(m, lv, legs@, pos as int) == leg_matches(
                                    cs[*i as int],
                                    lv.push(*i as int),
                                    legs@,
                                    pos + 1,
                                ));
                            }
                            r2
                        } else {
                            let ret: Vec<RefMatch<'a>> = Vec::new();
                            proof {
                                assert(matches_model(ret@) =~= Seq::<MatchModel>::empty());
                                assert(leg_matches(m, lv, legs@, pos as int)
                                    == Seq::<MatchModel>::empty());
                                assert(dedup_matches(Seq::<MatchModel>::empty())
                                    == Seq::<MatchModel>::empty());
                            }
                            ret
                        }
                    },
                }
            },
            _ => {
                proof {
                    assert(!(m matches JsonModel::Array(_)));
                }
                match sel {
                    IndexSelector::Pos(i) => {
                        if *i == 0 {
                            let r2 = extract_at(node, loc, legs, pos + 1);
                            proof {
                                assert(leg_matches(m, lv, legs@, pos as int) == leg_matches(
                                    m,
                                    lv,
                                    legs@,
                                    pos + 1,
                                ));
                            }
                            r2
                        } else {
                            let ret: Vec<RefMatch<'a>> = Vec::new();
                            proof {
                                assert(matches_model(ret@) =~= Seq::<MatchModel>::empty());
                                assert(leg_matches(m, lv, legs@, pos as int)
                                    == Seq::<MatchModel>::empty());
                                assert(dedup_matches(Seq::<MatchModel>::empty())
                                    == Seq::<MatchModel>::empty());
                            }
                            ret
                        }
                    },
                    IndexSelector::All => {
                        let ret: Vec<RefMatch<'a>> = Vec::new();
                        proof {
                            assert(matches_model(ret@) =~= Seq::<MatchModel>::empty());
                            assert(leg_matches(m, lv, legs@, pos as int)
                                == Seq::<MatchModel>::empty());
                            assert(dedup_matches(Seq::<MatchModel>::empty())
                                == Seq::<MatchModel>::empty());
                        }
                        ret
                    },
                }
            },
        },
        PathLeg::Key(ksel) => match node {
            Json::Object(entries) => {
                let ghost es = entry_models(entries@);
                proof {
                    lemma_entry_models(entries@);
                    assert(m == JsonModel::Object(es));
                }
                match ksel {
                    KeySelector::All => {
                        let mut ret: Vec<RefMatch<'a>> = Vec::new();
                        proof {
                            assert(matches_model(ret@) =~= Seq::<MatchModel>::empty());
                            assert(dedup_matches(Seq::<MatchModel>::empty())
                                == Seq::<MatchModel>::empty());
                        }
                        let n = entries.len();
                        for k in 0..n
                            invariant
                                matches_model(ret@) == dedup_matches(
                                    entries_matches(es, k as int, lv, legs@, pos + 1),
                                ),
                        {
                            let mut child_loc = clone_loc(loc);
                            child_loc.push(k);
                            proof {
                                assert(loc_model(child_loc@) =~= lv.push(k as int));
                                lemma_entry_height(es, k as int);
                            }
                            let sub = extract_at(&entries[k].value, &child_loc, legs, pos + 1);
                            let ghost ek = entries_matches(es, k as int, lv, legs@, pos + 1);
                            let ghost lk = leg_matches(
                                es[k as int].value,
                                lv.push(k as int),
                                legs@,
                                pos + 1,
                            );
                            append_if_ref_unique(&mut ret, &sub);
                            proof {
                                lemma_dedup_concat(ek, lk);
                                assert(matches_model(sub@) == dedup_matches(lk));
                                assert(entries_matches(es, k + 1, lv, legs@, pos + 1) == ek + lk);
                                assert(matches_model(ret@) == dedup_matches(
                                    entries_matches(es, k + 1, lv, legs@, pos + 1),
                                ));
                            }
                        }
                        proof {
                            assert(leg_matches(m, lv, legs@, pos as int) == entries_matches(
                                es,
                                n as int,
                                lv,
                                legs@,
                                pos + 1,
                            ));
                        }
                        ret
                    },
                    KeySelector::Name(name) => {
                        let n = entries.len();
                        for k in 0..n
                            invariant
                                key_matches(es, 0, name@, lv, legs@, pos + 1) == key_matches(
                                    es,
                                    k as int,
                                    name@,
                                    lv,
                                    legs@,
                                    pos + 1,
                                ),
                        {
                            if entries[k].key.eq(name) {
                                let mut child_loc = clone_loc(loc);
                                child_loc.push(k);
                                proof {
                                    assert(loc_model(child_loc@) =~= lv.push(k as int));
                                    lemma_entry_height(es, k as int);
                                    assert(es[k as int].key == name@);
                                }
                                let r2 = extract_at(&entries[k].value, &child_loc, legs, pos + 1);
                                proof {
                                    assert(key_matches(es, k as int, name@, lv, legs@, pos + 1)
                                        == leg_matches(
                                        es[k as int].value,
                                        lv.push(k as int),
                                        legs@,
                                        pos + 1,
                                    ));
                                    assert(leg_matches(m, lv, legs@, pos as int) == key_matches(
                                        es,
                                        0,
                                        name@,
                                        lv,
                                        legs@,
                                        pos + 1,
                                    ));
                                }
                                return r2;
                            }
                            proof {
                                assert(es[k as int].key != name@);
                                assert(key_matches(es, k as int, name@, lv, legs@, pos + 1)
                                    == key_matches(es, k + 1, name@, lv, legs@, pos + 1));
                            }
                        }
                        let ret: Vec<RefMatch<'a>> = Vec::new();
                        proof {
                            assert(key_matches(es, n as int, name@, lv, legs@, pos + 1)
                                == Seq::<MatchModel>::empty());
                            assert(matches_model(ret@) =~= Seq::<MatchModel>::empty());
                            assert(leg_matches(m, lv, legs@, pos as int)
                                == Seq::<MatchModel>::empty());
                            assert(dedup_matches(Seq::<MatchModel>::empty())
                                == Seq::<MatchModel>::empty());
                        }
                        ret
                    },
                }
            },
            _ => {
                let ret: Vec<RefMatch<'a>> = Vec::new();
                proof {
                    assert(!(m matches JsonModel::Object(_)));
                    assert(matches_model(ret@) =~= Seq::<MatchModel>::empty());
                    assert(leg_matches(m, lv, legs@, pos as int) == Seq::<MatchModel>::empty());
                    assert(dedup_matches(Seq::<MatchModel>::empty()) == Seq::<MatchModel>::empty());
                }
                ret
            },
        },
        PathLeg::DoubleAsterisk => {
            let mut ret = extract_at(node, loc, legs, pos + 1);
            let ghost stay = leg_matches(m, lv, legs@, pos + 1);
            match node {
                Json::Array(elems) => {
                    let ghost cs = json_models(elems@);
                    proof {
                        lemma_json_models(elems@);
                        assert(m == JsonModel::Array(cs));
                        assert(stay + elems_matches(cs, 0, lv, legs@, pos as int) =~= stay);
                    }
                    let n = elems.len();
                    for k in 0..n
                        invariant
                            matches_model(ret@) == dedup_matches(
                                stay + elems_matches(cs, k as int, lv, legs@, pos as int),
                            ),
                    {
                        let mut child_loc = clone_loc(loc);
                        child_loc.push(k);
                        proof {
                            assert(loc_model(child_loc@) =~= lv.push(k as int));
                            lemma_elem_height(cs, k as int);
                        }
                        let sub = extract_at(&elems[k], &child_loc, legs, pos);
                        let ghost ek = elems_matches(cs, k as int, lv, legs@, pos as int);
                        let ghost lk = leg_matches(cs[k as int], lv.push(k as int), legs@, pos as int);
                        append_if_ref_unique(&mut ret, &sub);
                        proof {
                            lemma_dedup_concat(stay + ek, lk);
                            assert(matches_model(sub@) == dedup_matches(lk));
                            assert((stay + ek) + lk =~= stay + (ek + lk));
                            assert(elems_matches(cs, k + 1, lv, legs@, pos as int) == ek + lk);
                            assert(matches_model(ret@) == dedup_matches(
                                stay + elems_matches(cs, k + 1, lv, legs@, pos as int),
                            ));
                        }
                    }
                    proof {
                        assert(leg_matches(m, lv, legs@, pos as int) == stay + elems_matches(
                            cs,
                            n as int,
                            lv,
                            legs@,
                            pos as int,
                        ));
                    }
                },
                Json::Object(entries) => {
                    let ghost es = entry_models(entries@);
                    proof {
                        lemma_entry_models(entries@);
                        assert(m == JsonModel::Object(es));
                        assert(stay + entries_matches(es, 0, lv, legs@, pos as int) =~= stay);
                    }
                    let n = entries.len();
                    for k in 0..n
                        invariant
                            matches_model(ret@) == dedup_matches(
                                stay + entries_matches(es, k as int, lv, legs@, pos as int),
                            ),
                    {
                        let mut child_loc = clone_loc(loc);
                        child_loc.push(k);
                        proof {
                            assert(loc_model(child_loc@) =~= lv.push(k as int));
                            lemma_entry_height(es, k as int);
                        }
                        let sub = extract_at(&entries[k].value, &child_loc, legs, pos);
                        let ghost ek = entries_matches(es, k as int, lv, legs@, pos as int);
                        let ghost lk = leg_matches(
                            es[k as int].value,
                            lv.push(k as int),
                            legs@,
                            pos as int,
                        );
                        append_if_ref_unique(&mut ret, &sub);
                        proof {
                            lemma_dedup_concat(stay + ek, lk);
                            assert(matches_model(sub@) == dedup_matches(lk));
                            assert((stay + ek) + lk =~= stay + (ek + lk));
                            assert(entries_matches(es, k + 1, lv, legs@, pos as int) == ek + lk);
                            assert(matches_model(ret@) == dedup_matches(
                                stay + entries_matches(es, k + 1, lv, legs@, pos as int),
                            ));
                        }
                    }
                    proof {
                        assert(leg_matches(m, lv, legs@, pos as int) == stay + entries_matches(
                            es,
                            n as int,
                            lv,
                            legs@,
                            pos as int,
                        ));
                    }
                },
                _ => {
                    proof {
                        assert(!(m matches JsonModel::Array(_)));
                        assert(!(m matches JsonModel::Object(_)));
                        assert(stay + Seq::<MatchModel>::empty() =~= stay);
                        assert(leg_matches(m, lv, legs@, pos as int) == stay);
                    }
                },
            }
            ret
        },
    }
}

/// `extract_json` matches one leg sequence against the document node `j` and
/// returns references to every matching node, in match order, duplicates by
/// node location suppressed.
#[verifier::loop_isolation(false)]
pub fn extract_json<'a>(j: JsonRef<'a>, path_legs: &[PathLeg]) -> (r: Vec<JsonRef<'a>>)
    ensures
        refs_model(r@) == matched_nodes(j@, path_legs@),
{
    let empty_loc: Vec<usize> = Vec::new();
    let node = j.as_json();
    let ms = extract_at(node, &empty_loc, path_legs, 0);
    proof {
        assert(loc_model(empty_loc@) =~= Seq::<int>::empty());
    }
    let mut out: Vec<JsonRef<'a>> = Vec::new();
    let n = ms.len();
    for i in 0..n
        invariant
            out@.len() == i,
            forall|t: int| 0 <= t < i ==> out@[t] == ms@[t].r,
    {
        out.push(ms[i].r);
    }
    proof {
        assert(refs_model(out@) =~= matched_nodes(j@, path_legs@));
    }
    out
}

impl<'a> JsonRef<'a> {
    /// `extract` receives several path expressions as arguments, matches
    /// each against the document in turn, and returns the matched values as
    /// an owned JSON value, auto-wrapped in an array unless a single
    /// wildcard-free expression produced the single match. With no
    /// expression, or none matching, it returns `None`.
    #[verifier::loop_isolation(false)]
    pub fn extract(&self, path_expr_list: &[PathExpression]) -> (r: Option<Json>)
        ensures
            opt_model(r) == extract_model(self@, path_expr_list@),
    {
        let n = path_expr_list.len();
        let mut could_multiple = n > 1;
        let mut elem_list: Vec<JsonRef<'a>> = Vec::new();
        proof {
            assert(refs_model(elem_list@) =~= Seq::<JsonModel>::empty());
            assert(exprs_matched_nodes(self@, path_expr_list@, 0) == Seq::<JsonModel>::empty());
        }
        for i in 0..n
            invariant
                could_multiple == (n > 1 || exists|t: int|
                    0 <= t < i && has_any_asterisk(path_expr_list@[t])),
                refs_model(elem_list@) == exprs_matched_nodes(self@, path_expr_list@, i as int),
        {
            let pe = slice_index_get(path_expr_list, i);
            if pe.contains_any_asterisk() {
                could_multiple = true;
            }
            proof {
                assert(could_multiple == (n > 1 || exists|t: int|
                    0 <= t < i + 1 && has_any_asterisk(path_expr_list@[t]))) by {
                    if could_multiple && !(n > 1) {
                        if has_any_asterisk(path_expr_list@[i as int]) {
                            assert(0 <= i < i + 1 && has_any_asterisk(path_expr_list@[i as int]));
                        } else {
                            let t = choose|t: int|
                                0 <= t < i && has_any_asterisk(path_expr_list@[t]);
                            assert(0 <= t < i + 1 && has_any_asterisk(path_expr_list@[t]));
                        }
                    }
                }
            }
            let sub = extract_json(*self, pe.legs.as_slice());
            let ghost before = elem_list@;
            let sn = sub.len();
            for t2 in 0..sn
                invariant
                    elem_list@ == before + sub@.subrange(0, t2 as int),
            {
                proof {
                    assert(before + sub@.subrange(0, (t2 + 1) as int) =~= (before + sub@.subrange(
                        0,
                        t2 as int,
                    )).push(sub@[t2 as int]));
                }
                elem_list.push(sub[t2]);
            }
            proof {
                assert(sub@.subrange(0, sn as int) =~= sub@);
                assert(refs_model(before + sub@) =~= refs_model(before) + refs_model(sub@));
                assert(exprs_matched_nodes(self@, path_expr_list@, i + 1) == exprs_matched_nodes(
                    self@,
                    path_expr_list@,
                    i as int,
                ) + matched_nodes(self@, path_expr_list@[i as int].legs@));
            }
        }
        let ghost combined = exprs_matched_nodes(self@, path_expr_list@, n as int);
        proof {
            assert(could_multiple == could_return_multiple(path_expr_list@));
        }
        if elem_list.len() == 0 {
            proof {
                assert(combined.len() == 0);
            }
            None
        } else if could_multiple {
            let mut items: Vec<Json> = Vec::new();
            let kn = elem_list.len();
            for k in 0..kn
                invariant
                    items@.len() == k,
                    forall|t: int| 0 <= t < k ==> json_model(items@[t]) == refs_model(
                        elem_list@,
                    )[t],
            {
                items.push(elem_list[k].to_owned());
            }
            proof {
                lemma_json_models(items@);
                assert(json_models(items@) =~= combined);
            }
            Some(Json::Array(items))
        } else {
            let first = elem_list[0].to_owned();
            proof {
                assert(json_model(first) == combined[0]);
            }
            Some(first)
        }
    }
}

} // verus!
