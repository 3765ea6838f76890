//! The general laws of extraction, stated and proved once for every
//! document and path expression.

use vstd::prelude::*;

use crate::match_spec::MatchModel;
use crate::match_spec::could_return_multiple;
use crate::match_spec::dedup_matches;
use crate::match_spec::exprs_matched_nodes;
use crate::match_spec::extract_model;
use crate::match_spec::key_matches;
use crate::match_spec::leg_matches;
use crate::match_spec::is_first_occurrence;
use crate::match_spec::lemma_dedup_elements;
use crate::match_spec::lemma_dedup_has_loc;
use crate::match_spec::lemma_dedup_singleton;
use crate::match_spec::lemma_matches_locate;
use crate::match_spec::lemma_dedup_unique;
use crate::match_spec::matched;
use crate::match_spec::matched_nodes;
use crate::path_expr::IndexSelector;
use crate::path_expr::PathExpression;
use crate::path_expr::PathLeg;
use crate::path_expr::KeySelector;
use crate::path_expr::flags_consistent;
use crate::path_expr::has_any_asterisk;
use crate::path_expr::leg_is_asterisk;
use crate::path_expr::no_wildcards;
use crate::value::EntryModel;
use crate::value::Json;
use crate::value::JsonModel;
use crate::value::node_at;
use crate::value::opt_model;

verus! {

/// With no path expression at all, extraction returns no match, whatever the
/// document.
pub proof fn lemma_extract_no_expressions(m: JsonModel)
    ensures
        extract_model(m, Seq::<PathExpression>::empty()) is None,
{
    assert(exprs_matched_nodes(m, Seq::<PathExpression>::empty(), 0)
        == Seq::<JsonModel>::empty());
}

/// A single expression with no legs and no wildcard returns the whole
/// document, unwrapped.
pub proof fn lemma_extract_whole_document(m: JsonModel, e: PathExpression)
    requires
        e.legs@.len() == 0,
        !has_any_asterisk(e),
    ensures
        extract_model(m, seq![e]) == Some(m),
{
    let mm = MatchModel { loc: Seq::empty(), node: m };
    assert(leg_matches(m, Seq::empty(), e.legs@, 0) == seq![mm]);
    lemma_dedup_singleton(mm);
    assert(matched_nodes(m, e.legs@) =~= seq![m]);
    assert(exprs_matched_nodes(m, seq![e], 0) == Seq::<JsonModel>::empty());
    assert(exprs_matched_nodes(m, seq![e], 1) =~= seq![m]);
    assert(!could_return_multiple(seq![e]));
}

/// Index auto-wrap: on a non-array node, position 0 denotes the node itself,
/// as the sole element of an implicit singleton array; so a wildcard-free
/// single-leg `[0]` expression returns the node unwrapped.
pub proof fn lemma_index_autowrap(m: JsonModel, e: PathExpression)
    requires
        !(m matches JsonModel::Array(_)),
        e.legs@ =~= seq![PathLeg::Index(IndexSelector::Pos(0))],
        !has_any_asterisk(e),
    ensures
        extract_model(m, seq![e]) == Some(m),
{
    let mm = MatchModel { loc: Seq::empty(), node: m };
    assert(leg_matches(m, Seq::empty(), e.legs@, 1) == seq![mm]);
    assert(leg_matches(m, Seq::empty(), e.legs@, 0) == seq![mm]);
    lemma_dedup_singleton(mm);
    assert(matched_nodes(m, e.legs@) =~= seq![m]);
    assert(exprs_matched_nodes(m, seq![e], 0) == Seq::<JsonModel>::empty());
    assert(exprs_matched_nodes(m, seq![e], 1) =~= seq![m]);
    assert(!could_return_multiple(seq![e]));
}

/// Index auto-wrap, the other positions: on a non-array node, a single-leg
/// index expression with a position other than 0, or with the index
/// wildcard, matches nothing.
pub proof fn lemma_index_autowrap_no_match(m: JsonModel, e: PathExpression, sel: IndexSelector)
    requires
        !(m matches JsonModel::Array(_)),
        e.legs@ =~= seq![PathLeg::Index(sel)],
        sel != IndexSelector::Pos(0usize),
    ensures
        extract_model(m, seq![e]) is None,
{
    assert(leg_matches(m, Seq::empty(), e.legs@, 0) == Seq::<MatchModel>::empty());
    assert(matched_nodes(m, e.legs@) =~= Seq::<JsonModel>::empty());
    assert(exprs_matched_nodes(m, seq![e], 0) == Seq::<JsonModel>::empty());
    assert(exprs_matched_nodes(m, seq![e], 1) =~= Seq::<JsonModel>::empty());
}

/// Key legs apply to objects only: against any other node a key leg, literal
/// or wildcard, yields no match at all.
pub proof fn lemma_key_needs_object(m: JsonModel, loc: Seq<int>, legs: Seq<PathLeg>, pos: int)
    requires
        0 <= pos < legs.len(),
        legs[pos] matches PathLeg::Key(_),
        !(m matches JsonModel::Object(_)),
    ensures
        leg_matches(m, loc, legs, pos) == Seq::<MatchModel>::empty(),
{
}

/// Wildcard auto-wrap: with more than one expression, or any expression
/// whose flags record a wildcard, a non-empty result is always an array.
pub proof fn lemma_wildcard_wraps(m: JsonModel, exprs: Seq<PathExpression>)
    requires
        could_return_multiple(exprs),
        extract_model(m, exprs) is Some,
    ensures
        extract_model(m, exprs).unwrap() matches JsonModel::Array(_),
{
}

/// No duplicate locations: the match list of one expression never holds two
/// matches that denote the same node location, however often recursive
/// descent reaches that node.
pub proof fn lemma_matched_unique(m: JsonModel, legs: Seq<PathLeg>)
    ensures
        forall|i: int, j: int|
            0 <= i < j < matched(m, legs).len() ==> matched(m, legs)[i].loc != matched(
                m,
                legs,
            )[j].loc,
{
    lemma_dedup_unique(leg_matches(m, Seq::empty(), legs, 0));
}

/// Matches denote real nodes: resolving any match's location in the
/// document yields exactly the matched node, so suppressing a repeated
/// location suppresses the same underlying node, never a structurally equal
/// one elsewhere.
pub proof fn lemma_matched_locate(m: JsonModel, legs: Seq<PathLeg>)
    ensures
        forall|i: int|
            0 <= i < matched(m, legs).len() ==> node_at(m, #[trigger] matched(m, legs)[i].loc)
                == Some(matched(m, legs)[i].node),
{
    let raw = leg_matches(m, Seq::empty(), legs, 0);
    lemma_matches_locate(m, m, Seq::empty(), legs, 0);
    assert forall|i: int| 0 <= i < matched(m, legs).len() implies node_at(
        m,
        #[trigger] matched(m, legs)[i].loc,
    ) == Some(matched(m, legs)[i].node) by {
        lemma_dedup_elements(raw, i);
        let i2 = choose|i2: int| 0 <= i2 < raw.len() && raw[i2] == dedup_matches(raw)[i];
        assert(node_at(m, raw[i2].loc) == Some(raw[i2].node));
    }
}

/// Order preservation within one expression: the deduplicated list is the
/// raw match list restricted to the first occurrence of each location, in
/// raw order, never reordered.
pub proof fn lemma_dedup_preserves_order(s: Seq<MatchModel>, i: int, j: int)
    requires
        0 <= i < j < dedup_matches(s).len(),
    ensures
        exists|i2: int, j2: int|
            i2 < j2 && is_first_occurrence(s, i2) && is_first_occurrence(s, j2) && s[i2]
                == dedup_matches(s)[i] && s[j2] == dedup_matches(s)[j],
    decreases s.len(),
{
    if s.len() > 0 {
        let d = dedup_matches(s.drop_last());
        if j < d.len() {
            lemma_dedup_preserves_order(s.drop_last(), i, j);
            let (i2, j2) = choose|i2: int, j2: int|
                i2 < j2 && is_first_occurrence(s.drop_last(), i2) && is_first_occurrence(
                    s.drop_last(),
                    j2,
                ) && s.drop_last()[i2] == dedup_matches(s.drop_last())[i] && s.drop_last()[j2]
                == dedup_matches(s.drop_last())[j];
            assert(forall|t: int| 0 <= t < j2 ==> s[t] == s.drop_last()[t]);
            assert(i2 < j2 && is_first_occurrence(s, i2) && is_first_occurrence(s, j2) && s[i2]
                == dedup_matches(s)[i] && s[j2] == dedup_matches(s)[j]);
        } else {
            // dedup(s)[j] is the fresh last match of s.
            lemma_dedup_elements(s.drop_last(), i);
            let i2 = choose|i2: int|
                is_first_occurrence(s.drop_last(), i2) && s.drop_last()[i2] == dedup_matches(
                    s.drop_last(),
                )[i];
            let j2 = s.len() - 1;
            lemma_dedup_has_loc(s.drop_last(), s.last().loc);
            assert(forall|t: int| 0 <= t < j2 ==> s[t].loc != s[j2].loc) by {
                assert forall|t: int| 0 <= t < j2 implies s[t].loc != s[j2].loc by {
                    if s[t].loc == s[j2].loc {
                        assert(s.drop_last()[t].loc == s.last().loc);
                    }
                }
            }
            assert(forall|t: int| 0 <= t < i2 ==> s[t] == s.drop_last()[t]);
            assert(i2 < j2 && is_first_occurrence(s, i2) && is_first_occurrence(s, j2) && s[i2]
                == dedup_matches(s)[i] && s[j2] == dedup_matches(s)[j]);
        }
    }
}

/// Order preservation across expressions: the combined match list is the
/// per-expression lists concatenated in the order the expressions were
/// supplied, duplicates across expressions kept.
pub proof fn lemma_expression_order(m: JsonModel, exprs: Seq<PathExpression>, i: int)
    requires
        0 <= i < exprs.len(),
    ensures
        exprs_matched_nodes(m, exprs, i + 1) == exprs_matched_nodes(m, exprs, i) + matched_nodes(
            m,
            exprs[i].legs@,
        ),
{
}

/// Without wildcards every leg selects at most one child, so a
/// wildcard-free leg sequence matches at most one node.
pub proof fn lemma_no_wildcard_at_most_one(m: JsonModel, loc: Seq<int>, legs: Seq<PathLeg>, pos: int)
    requires
        no_wildcards(legs, pos),
    ensures
        leg_matches(m, loc, legs, pos).len() <= 1,
    decreases m, legs.len() - pos, 0int,
{
    if 0 <= pos < legs.len() {
        match legs[pos] {
            PathLeg::Index(sel) => {
                assert(!leg_is_asterisk(legs[pos]));
                match m {
                    JsonModel::Array(cs) => match sel {
                        IndexSelector::Pos(i) => {
                            if (i as int) < cs.len() {
                                lemma_no_wildcard_at_most_one(
                                    cs[i as int],
                                    loc.push(i as int),
                                    legs,
                                    pos + 1,
                                );
                            }
                        },
                        IndexSelector::All => {
                            assert(false);
                        },
                    },
                    _ => match sel {
                        IndexSelector::Pos(i) => {
                            if i == 0 {
                                lemma_no_wildcard_at_most_one(m, loc, legs, pos + 1);
                            }
                        },
                        IndexSelector::All => {
                            assert(false);
                        },
                    },
                }
            },
            PathLeg::Key(ksel) => match m {
                JsonModel::Object(es) => match ksel {
                    KeySelector::All => {
                        assert(false);
                    },
                    KeySelector::Name(name) => {
                        lemma_key_at_most_one(es, 0, name@, loc, legs, pos + 1);
                    },
                },
                _ => {},
            },
            PathLeg::DoubleAsterisk => {
                assert(false);
            },
        }
    }
}

/// The helper of [`lemma_no_wildcard_at_most_one`] for literal key search.
proof fn lemma_key_at_most_one(
    es: Seq<EntryModel>,
    from: int,
    key: Seq<char>,
    loc: Seq<int>,
    legs: Seq<PathLeg>,
    pos: int,
)
    requires
        no_wildcards(legs, pos),
    ensures
        key_matches(es, from, key, loc, legs, pos).len() <= 1,
    decreases es, legs.len() - pos, es.len() - from,
{
    if 0 <= from < es.len() {
        if es[from].key == key {
            lemma_no_wildcard_at_most_one(es[from].value, loc.push(from), legs, pos);
        } else {
            lemma_key_at_most_one(es, from + 1, key, loc, legs, pos);
        }
    }
}

/// A single expression whose legs hold no wildcard, and whose flags say
/// so, matches at most one node, and a non-empty result is that node, bare,
/// never wrapped in an array.
pub proof fn lemma_single_match_unwrapped(m: JsonModel, e: PathExpression)
    requires
        !has_any_asterisk(e),
        flags_consistent(e),
    ensures
        matched_nodes(m, e.legs@).len() <= 1,
        extract_model(m, seq![e]) is Some ==> extract_model(m, seq![e]) == Some(
            matched_nodes(m, e.legs@)[0],
        ),
{
    assert(no_wildcards(e.legs@, 0));
    lemma_no_wildcard_at_most_one(m, Seq::empty(), e.legs@, 0);
    let raw = leg_matches(m, Seq::empty(), e.legs@, 0);
    if raw.len() == 0 {
        assert(dedup_matches(raw) == raw);
    } else {
        assert(raw =~= seq![raw[0]]);
        lemma_dedup_singleton(raw[0]);
    }
    assert(exprs_matched_nodes(m, seq![e], 0) == Seq::<JsonModel>::empty());
    assert(exprs_matched_nodes(m, seq![e], 1) =~= matched_nodes(m, e.legs@));
    assert(!could_return_multiple(seq![e]));
}

/// Idempotence: the result of extraction is a function of the document and
/// expression models alone, so any two results that satisfy the extraction
/// contract on the same inputs are equal.
pub proof fn lemma_extract_deterministic(
    r1: Option<Json>,
    r2: Option<Json>,
    m: JsonModel,
    exprs: Seq<PathExpression>,
)
    requires
        opt_model(r1) == extract_model(m, exprs),
        opt_model(r2) == extract_model(m, exprs),
    ensures
        opt_model(r1) == opt_model(r2),
{
}

} // verus!
