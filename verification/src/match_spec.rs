//! The mathematical semantics of path matching.
//!
//! [`leg_matches`] lists, in order and with repetitions, every match of a leg
//! sequence against a node: a match is a [`MatchModel`], the matched node
//! together with the location that identifies it. [`dedup_matches`] then
//! suppresses repeated locations, keeping first occurrences in order; the
//! deduplicated list is what extraction returns for one path expression.
//! Identity is the location, never the value: two structurally equal nodes at
//! different locations are distinct matches, while the same location reached
//! twice (only possible through overlapping recursive-descent expansions) is
//! one.

use vstd::prelude::*;

use crate::path_expr::IndexSelector;
use crate::path_expr::KeySelector;
use crate::path_expr::PathExpression;
use crate::path_expr::PathLeg;
use crate::path_expr::has_any_asterisk;
use crate::value::EntryModel;
use crate::value::lemma_node_at_snoc;
use crate::value::model_children;
use crate::value::node_at;
use crate::value::JsonModel;

verus! {

/// One match: the matched node and the location (sequence of child indices
/// from the root) where it stands. The location is the match's identity.
pub struct MatchModel {
    pub loc: Seq<int>,
    pub node: JsonModel,
}

/// Whether some match in `s` stands at location `loc`.
pub open spec fn has_loc(s: Seq<MatchModel>, loc: Seq<int>) -> bool {
    exists|i: int| 0 <= i < s.len() && s[i].loc == loc
}

/// The predicate selecting matches whose location `base` does not hold yet.
pub open spec fn fresh_pred(base: Seq<MatchModel>) -> spec_fn(MatchModel) -> bool {
    |e: MatchModel| !has_loc(base, e.loc)
}

/// Every match, with repetitions, of `legs[pos..]` against the node `m`
/// standing at location `loc`.
///
/// - No leg left: the node itself, one match.
/// - `Index`: on an array, one element or (for the wildcard) all of them in
///   ascending order; on any other node, the node itself acts as the sole
///   element of an implicit singleton array, so only position 0 matches and
///   the wildcard does not.
/// - `Key`: on an object, one value found by key or (for the wildcard) all
///   values in stored order; on any other node, nothing.
/// - `DoubleAsterisk`: the remaining legs against the node itself, then the
///   whole leg list, still starting with the descent leg, against every child.
pub open spec fn leg_matches(m: JsonModel, loc: Seq<int>, legs: Seq<PathLeg>, pos: int) -> Seq<
    MatchModel,
>
    decreases m, legs.len() - pos, 0int,
{
    if pos < 0 || pos >= legs.len() {
        seq![MatchModel { loc, node: m }]
    } else {
        match legs[pos] {
            PathLeg::Index(sel) => match m {
                JsonModel::Array(cs) => match sel {
                    IndexSelector::All => elems_matches(cs, cs.len() as int, loc, legs, pos + 1),
                    IndexSelector::Pos(i) => if (i as int) < cs.len() {
                        leg_matches(cs[i as int], loc.push(i as int), legs, pos + 1)
                    } else {
                        Seq::empty()
                    },
                },
                _ => match sel {
                    IndexSelector::Pos(i) => if i == 0 {
                        leg_matches(m, loc, legs, pos + 1)
                    } else {
                        Seq::empty()
                    },
                    IndexSelector::All => Seq::empty(),
                },
            },
            PathLeg::Key(ksel) => match m {
                JsonModel::Object(es) => match ksel {
                    KeySelector::All => entries_matches(es, es.len() as int, loc, legs, pos + 1),
                    KeySelector::Name(name) => key_matches(es, 0, name@, loc, legs, pos + 1),
                },
                _ => Seq::empty(),
            },
            PathLeg::DoubleAsterisk => leg_matches(m, loc, legs, pos + 1) + (match m {
                JsonModel::Array(cs) => elems_matches(cs, cs.len() as int, loc, legs, pos),
                JsonModel::Object(es) => entries_matches(es, es.len() as int, loc, legs, pos),
                _ => Seq::empty(),
            }),
        }
    }
}

/// The concatenated matches of `legs[pos..]` against the first `upto` array
/// elements, each at its own child location.
pub open spec fn elems_matches(
    cs: Seq<JsonModel>,
    upto: int,
    loc: Seq<int>,
    legs: Seq<PathLeg>,
    pos: int,
) -> Seq<MatchModel>
    decreases cs, legs.len() - pos, upto,
{
    if upto <= 0 || upto > cs.len() {
        Seq::empty()
    } else {
        elems_matches(cs, upto - 1, loc, legs, pos) + leg_matches(
            cs[upto - 1],
            loc.push(upto - 1),
            legs,
            pos,
        )
    }
}

/// The concatenated matches of `legs[pos..]` against the values of the first
/// `upto` object entries, each at its own child location.
pub open spec fn entries_matches(
    es: Seq<EntryModel>,
    upto: int,
    loc: Seq<int>,
    legs: Seq<PathLeg>,
    pos: int,
) -> Seq<MatchModel>
    decreases es, legs.len() - pos, upto,
{
    if upto <= 0 || upto > es.len() {
        Seq::empty()
    } else {
        entries_matches(es, upto - 1, loc, legs, pos) + leg_matches(
            es[upto - 1].value,
            loc.push(upto - 1),
            legs,
            pos,
        )
    }
}

/// The matches of `legs[pos..]` against the value of the first entry at or
/// after `from` whose key is `key`; nothing when no such entry exists.
pub open spec fn key_matches(
    es: Seq<EntryModel>,
    from: int,
    key: Seq<char>,
    loc: Seq<int>,
    legs: Seq<PathLeg>,
    pos: int,
) -> Seq<MatchModel>
    decreases es, legs.len() - pos, es.len() - from,
{
    if from < 0 || from >= es.len() {
        Seq::empty()
    } else if es[from].key == key {
        leg_matches(es[from].value, loc.push(from), legs, pos)
    } else {
        key_matches(es, from + 1, key, loc, legs, pos)
    }
}

/// The matches of `s` with repeated locations suppressed: of the matches that
/// share a location only the first stays, and first occurrences keep their
/// relative order.
pub open spec fn dedup_matches(s: Seq<MatchModel>) -> Seq<MatchModel>
    decreases s.len(),
{
    if s.len() == 0 {
        s
    } else {
        let d = dedup_matches(s.drop_last());
        if has_loc(d, s.last().loc) {
            d
        } else {
            d.push(s.last())
        }
    }
}

/// The match list one path expression produces on document `m`: every match
/// of its legs from the root, in order, with repeated locations suppressed.
pub open spec fn matched(m: JsonModel, legs: Seq<PathLeg>) -> Seq<MatchModel> {
    dedup_matches(leg_matches(m, Seq::empty(), legs, 0))
}

/// The nodes of [`matched`], in the same order.
pub open spec fn matched_nodes(m: JsonModel, legs: Seq<PathLeg>) -> Seq<JsonModel> {
    matched(m, legs).map_values(|e: MatchModel| e.node)
}

/// The concatenated matched nodes of the first `upto` path expressions, in
/// expression order. Duplicates are suppressed within one expression only,
/// never across expressions.
pub open spec fn exprs_matched_nodes(m: JsonModel, exprs: Seq<PathExpression>, upto: int) -> Seq<
    JsonModel,
>
    decreases upto,
{
    if upto <= 0 || upto > exprs.len() {
        Seq::empty()
    } else {
        exprs_matched_nodes(m, exprs, upto - 1) + matched_nodes(m, exprs[upto - 1].legs@)
    }
}

/// Whether extraction must wrap its result in an array: more than one path
/// expression, or any expression whose flags record a wildcard.
pub open spec fn could_return_multiple(exprs: Seq<PathExpression>) -> bool {
    exprs.len() > 1 || exists|i: int| 0 <= i < exprs.len() && has_any_asterisk(exprs[i])
}

/// The result of extraction on document `m` with the given path expressions:
/// `None` when nothing matched (in particular when no expression was given);
/// otherwise a fresh array of every matched node, in order, except that a
/// single expression without wildcards returns its single match bare.
pub open spec fn extract_model(m: JsonModel, exprs: Seq<PathExpression>) -> Option<JsonModel> {
    let combined = exprs_matched_nodes(m, exprs, exprs.len() as int);
    if combined.len() == 0 {
        Option::None
    } else if could_return_multiple(exprs) {
        Option::Some(JsonModel::Array(combined))
    } else {
        Option::Some(combined[0])
    }
}

/// Deduplication keeps exactly the locations of its input.
pub proof fn lemma_dedup_has_loc(s: Seq<MatchModel>, loc: Seq<int>)
    ensures
        has_loc(dedup_matches(s), loc) == has_loc(s, loc),
    decreases s.len(),
{
    if s.len() > 0 {
        lemma_dedup_has_loc(s.drop_last(), loc);
        if has_loc(s, loc) {
            let i = choose|i: int| 0 <= i < s.len() && s[i].loc == loc;
            if i < s.len() - 1 {
                assert(s.drop_last()[i].loc == loc);
            }
            let d = dedup_matches(s);
            assert(has_loc(d, loc)) by {
                if has_loc(s.drop_last(), loc) {
                    let j = choose|j: int|
                        0 <= j < dedup_matches(s.drop_last()).len() && dedup_matches(
                            s.drop_last(),
                        )[j].loc == loc;
                    assert(d[j].loc == loc);
                } else {
                    assert(s.last().loc == loc);
                    assert(d[d.len() - 1].loc == loc);
                }
            }
        }
        if has_loc(dedup_matches(s), loc) {
            let i = choose|i: int|
                0 <= i < dedup_matches(s).len() && dedup_matches(s)[i].loc == loc;
            let d = dedup_matches(s.drop_last());
            if i < d.len() {
                assert(d[i].loc == loc);
                let j = choose|j: int| 0 <= j < s.drop_last().len() && s.drop_last()[j].loc == loc;
                assert(s[j].loc == loc);
            } else {
                assert(s[s.len() - 1].loc == loc);
            }
        }
    }
}

/// No two matches of a deduplicated list share a location.
pub proof fn lemma_dedup_unique(s: Seq<MatchModel>)
    ensures
        forall|i: int, j: int|
            0 <= i < j < dedup_matches(s).len() ==> dedup_matches(s)[i].loc != dedup_matches(
                s,
            )[j].loc,
    decreases s.len(),
{
    if s.len() > 0 {
        lemma_dedup_unique(s.drop_last());
        let d = dedup_matches(s.drop_last());
        let out = dedup_matches(s);
        assert forall|i: int, j: int| 0 <= i < j < out.len() implies out[i].loc != out[j].loc by {
            if j < d.len() {
            } else if !has_loc(d, s.last().loc) {
                assert(out[j] == s.last());
                assert(out[i] == d[i]);
                assert(!(d[i].loc == s.last().loc));
            }
        }
    }
}

/// Deduplicating a single match changes nothing.
pub proof fn lemma_dedup_singleton(e: MatchModel)
    ensures
        dedup_matches(seq![e]) == seq![e],
{
    assert(seq![e].drop_last() =~= Seq::<MatchModel>::empty());
    assert(dedup_matches(Seq::<MatchModel>::empty()) == Seq::<MatchModel>::empty());
    assert(!has_loc(Seq::<MatchModel>::empty(), e.loc));
    assert(Seq::<MatchModel>::empty().push(e) =~= seq![e]);
}

/// Filtering a single match keeps or drops it by the predicate alone.
pub proof fn lemma_filter_singleton(e: MatchModel, pred: spec_fn(MatchModel) -> bool)
    ensures
        pred(e) ==> seq![e].filter(pred) == seq![e],
        !pred(e) ==> seq![e].filter(pred) == Seq::<MatchModel>::empty(),
{
    reveal_with_fuel(Seq::filter, 2);
    assert(seq![e].drop_last() =~= Seq::<MatchModel>::empty());
    if pred(e) {
        assert(seq![e].filter(pred) =~= seq![e]);
    } else {
        assert(seq![e].filter(pred) =~= Seq::<MatchModel>::empty());
    }
}

/// Every element of a filtered list stands in the list it was filtered from.
pub proof fn lemma_filter_is_subset(s: Seq<MatchModel>, pred: spec_fn(MatchModel) -> bool, i: int)
    requires
        0 <= i < s.filter(pred).len(),
    ensures
        s.contains(s.filter(pred)[i]),
    decreases s.len(),
{
    reveal(Seq::filter);
    if s.len() > 0 {
        let sub = s.drop_last().filter(pred);
        if i < sub.len() {
            lemma_filter_is_subset(s.drop_last(), pred, i);
            let j = choose|j: int| 0 <= j < s.drop_last().len() && s.drop_last()[j] == sub[i];
            assert(s[j] == s.filter(pred)[i]);
        } else {
            assert(s.filter(pred)[i] == s.last());
        }
    }
}

/// Whether `i2` is the first index of `s` whose match stands at the
/// location of `s[i2]`.
pub open spec fn is_first_occurrence(s: Seq<MatchModel>, i2: int) -> bool {
    &&& 0 <= i2 < s.len()
    &&& forall|t: int| 0 <= t < i2 ==> s[t].loc != s[i2].loc
}

/// Every match of a deduplicated list is the first occurrence of its
/// location in the raw list.
pub proof fn lemma_dedup_elements(s: Seq<MatchModel>, i: int)
    requires
        0 <= i < dedup_matches(s).len(),
    ensures
        exists|i2: int| is_first_occurrence(s, i2) && s[i2] == dedup_matches(s)[i],
    decreases s.len(),
{
    if s.len() > 0 {
        let d = dedup_matches(s.drop_last());
        if i < d.len() {
            lemma_dedup_elements(s.drop_last(), i);
            let i2 = choose|i2: int|
                is_first_occurrence(s.drop_last(), i2) && s.drop_last()[i2] == dedup_matches(
                    s.drop_last(),
                )[i];
            assert(forall|t: int| 0 <= t < i2 ==> s[t] == s.drop_last()[t]);
            assert(is_first_occurrence(s, i2) && s[i2] == dedup_matches(s)[i]);
        } else {
            // The last match of s is fresh: its location is nowhere earlier.
            lemma_dedup_has_loc(s.drop_last(), s.last().loc);
            assert(!has_loc(s.drop_last(), s.last().loc));
            let i2 = s.len() - 1;
            assert(forall|t: int| 0 <= t < i2 ==> s[t].loc != s[i2].loc) by {
                assert forall|t: int| 0 <= t < i2 implies s[t].loc != s[i2].loc by {
                    if s[t].loc == s[i2].loc {
                        assert(s.drop_last()[t].loc == s.last().loc);
                    }
                }
            }
            assert(is_first_occurrence(s, i2) && s[i2] == dedup_matches(s)[i]);
        }
    }
}

/// Every match stands at its location: resolving a match's location from the
/// root `root` yields exactly the matched node. `m` is the node the current
/// location `loc` denotes in `root`; matching starts with `root`, `m` equal
/// and `loc` empty.
pub proof fn lemma_matches_locate(
    root: JsonModel,
    m: JsonModel,
    loc: Seq<int>,
    legs: Seq<PathLeg>,
    pos: int,
)
    requires
        node_at(root, loc) == Some(m),
    ensures
        forall|i: int|
            0 <= i < leg_matches(m, loc, legs, pos).len() ==> node_at(
                root,
                #[trigger] leg_matches(m, loc, legs, pos)[i].loc,
            ) == Some(leg_matches(m, loc, legs, pos)[i].node),
    decreases m, legs.len() - pos, 0int,
{
    if pos < 0 || pos >= legs.len() {
    } else {
        match legs[pos] {
            PathLeg::Index(sel) => match m {
                JsonModel::Array(cs) => match sel {
                    IndexSelector::All => {
                        lemma_elems_locate(root, cs, cs.len() as int, loc, legs, pos + 1);
                    },
                    IndexSelector::Pos(i) => {
                        if (i as int) < cs.len() {
                            lemma_node_at_snoc(root, loc, i as int);
                            lemma_matches_locate(root, cs[i as int], loc.push(i as int), legs, pos + 1);
                        }
                    },
                },
                _ => {
                    lemma_matches_locate(root, m, loc, legs, pos + 1);
                },
            },
            PathLeg::Key(ksel) => match m {
                JsonModel::Object(es) => match ksel {
                    KeySelector::All => {
                        lemma_entries_locate(root, es, es.len() as int, loc, legs, pos + 1);
                    },
                    KeySelector::Name(name) => {
                        lemma_key_locate(root, es, 0, name@, loc, legs, pos + 1);
                    },
                },
                _ => {},
            },
            PathLeg::DoubleAsterisk => {
                lemma_matches_locate(root, m, loc, legs, pos + 1);
                let stay = leg_matches(m, loc, legs, pos + 1);
                let rest: Seq<MatchModel> = match m {
                    JsonModel::Array(cs) => elems_matches(cs, cs.len() as int, loc, legs, pos),
                    JsonModel::Object(es) => entries_matches(es, es.len() as int, loc, legs, pos),
                    _ => Seq::empty(),
                };
                match m {
                    JsonModel::Array(cs) => {
                        lemma_elems_locate(root, cs, cs.len() as int, loc, legs, pos);
                    },
                    JsonModel::Object(es) => {
                        lemma_entries_locate(root, es, es.len() as int, loc, legs, pos);
                    },
                    _ => {},
                }
                let lm = leg_matches(m, loc, legs, pos);
                assert(lm == stay + rest);
                assert forall|i: int| 0 <= i < lm.len() implies node_at(root, #[trigger] lm[i].loc)
                    == Some(lm[i].node) by {
                    if i < stay.len() {
                        assert(lm[i] == stay[i]);
                    } else {
                        assert(lm[i] == rest[i - stay.len()]);
                    }
                }
            },
        }
    }
}

/// The helper of [`lemma_matches_locate`] for array elements.
proof fn lemma_elems_locate(
    root: JsonModel,
    cs: Seq<JsonModel>,
    upto: int,
    loc: Seq<int>,
    legs: Seq<PathLeg>,
    pos: int,
)
    requires
        node_at(root, loc) == Some(JsonModel::Array(cs)),
    ensures
        forall|i: int|
            0 <= i < elems_matches(cs, upto, loc, legs, pos).len() ==> node_at(
                root,
                #[trigger] elems_matches(cs, upto, loc, legs, pos)[i].loc,
            ) == Some(elems_matches(cs, upto, loc, legs, pos)[i].node),
    decreases cs, legs.len() - pos, upto,
{
    if 0 < upto <= cs.len() {
        lemma_elems_locate(root, cs, upto - 1, loc, legs, pos);
        lemma_node_at_snoc(root, loc, upto - 1);
        lemma_matches_locate(root, cs[upto - 1], loc.push(upto - 1), legs, pos);
        let a = elems_matches(cs, upto - 1, loc, legs, pos);
        let b = leg_matches(cs[upto - 1], loc.push(upto - 1), legs, pos);
        let lm = elems_matches(cs, upto, loc, legs, pos);
        assert(lm == a + b);
        assert forall|i: int| 0 <= i < lm.len() implies node_at(root, #[trigger] lm[i].loc)
            == Some(lm[i].node) by {
            if i < a.len() {
                assert(lm[i] == a[i]);
            } else {
                assert(lm[i] == b[i - a.len()]);
            }
        }
    }
}

/// The helper of [`lemma_matches_locate`] for object entry values.
proof fn lemma_entries_locate(
    root: JsonModel,
    es: Seq<EntryModel>,
    upto: int,
    loc: Seq<int>,
    legs: Seq<PathLeg>,
    pos: int,
)
    requires
        node_at(root, loc) == Some(JsonModel::Object(es)),
    ensures
        forall|i: int|
            0 <= i < entries_matches(es, upto, loc, legs, pos).len() ==> node_at(
                root,
                #[trigger] entries_matches(es, upto, loc, legs, pos)[i].loc,
            ) == Some(entries_matches(es, upto, loc, legs, pos)[i].node),
    decreases es, legs.len() - pos, upto,
{
    if 0 < upto <= es.len() {
        lemma_entries_locate(root, es, upto - 1, loc, legs, pos);
        lemma_node_at_snoc(root, loc, upto - 1);
        assert(model_children(JsonModel::Object(es))[upto - 1] == es[upto - 1].value);
        lemma_matches_locate(root, es[upto - 1].value, loc.push(upto - 1), legs, pos);
        let a = entries_matches(es, upto - 1, loc, legs, pos);
        let b = leg_matches(es[upto - 1].value, loc.push(upto - 1), legs, pos);
        let lm = entries_matches(es, upto, loc, legs, pos);
        assert(lm == a + b);
        assert forall|i: int| 0 <= i < lm.len() implies node_at(root, #[trigger] lm[i].loc)
            == Some(lm[i].node) by {
            if i < a.len() {
                assert(lm[i] == a[i]);
            } else {
                assert(lm[i] == b[i - a.len()]);
            }
        }
    }
}

/// The helper of [`lemma_matches_locate`] for literal key search.
proof fn lemma_key_locate(
    root: JsonModel,
    es: Seq<EntryModel>,
    from: int,
    key: Seq<char>,
    loc: Seq<int>,
    legs: Seq<PathLeg>,
    pos: int,
)
    requires
        node_at(root, loc) == Some(JsonModel::Object(es)),
    ensures
        forall|i: int|
            0 <= i < key_matches(es, from, key, loc, legs, pos).len() ==> node_at(
                root,
                #[trigger] key_matches(es, from, key, loc, legs, pos)[i].loc,
            ) == Some(key_matches(es, from, key, loc, legs, pos)[i].node),
    decreases es, legs.len() - pos, es.len() - from,
{
    if 0 <= from < es.len() {
        if es[from].key == key {
            lemma_node_at_snoc(root, loc, from);
            assert(model_children(JsonModel::Object(es))[from] == es[from].value);
            lemma_matches_locate(root, es[from].value, loc.push(from), legs, pos);
        } else {
            lemma_key_locate(root, es, from + 1, key, loc, legs, pos);
        }
    }
}

/// Deduplicating a concatenation: the left part deduplicated, then the fresh
/// part of the right: its deduplication, less the locations the left part
/// already holds. This is the step a merge of two deduplicated match lists
/// performs.
pub proof fn lemma_dedup_concat(a: Seq<MatchModel>, b: Seq<MatchModel>)
    ensures
        dedup_matches(a + b) == dedup_matches(a) + dedup_matches(b).filter(
            fresh_pred(dedup_matches(a)),
        ),
    decreases b.len(),
{
    reveal_with_fuel(Seq::filter, 2);
    let p = fresh_pred(dedup_matches(a));
    if b.len() == 0 {
        assert(a + b =~= a);
        assert(dedup_matches(a) + dedup_matches(b).filter(p) =~= dedup_matches(a));
    } else {
        lemma_dedup_concat(a, b.drop_last());
        let x = b.last();
        assert((a + b).drop_last() =~= a + b.drop_last());
        assert((a + b).last() == x);
        let d = dedup_matches(a + b.drop_last());
        let da = dedup_matches(a);
        let db = dedup_matches(b.drop_last());
        // d == da + db.filter(p) by the induction hypothesis.
        if has_loc(db, x.loc) {
            // x adds nothing on either side.
            assert(dedup_matches(b) == db);
            assert(has_loc(d, x.loc)) by {
                let i = choose|i: int| 0 <= i < db.len() && db[i].loc == x.loc;
                if p(db[i]) {
                    db.lemma_filter_contains(p, i);
                    let j = choose|j: int|
                        0 <= j < db.filter(p).len() && db.filter(p)[j] == db[i];
                    assert(d[da.len() + j].loc == x.loc);
                } else {
                    let j = choose|j: int| 0 <= j < da.len() && da[j].loc == db[i].loc;
                    assert(d[j].loc == x.loc);
                }
            }
            assert(dedup_matches(a + b) == d);
        } else {
            assert(dedup_matches(b) == db.push(x));
            assert(db.push(x).filter(p) == db.filter(p) + seq![x].filter(p)) by {
                assert(db.push(x) =~= db + seq![x]);
                Seq::filter_distributes_over_add(db, seq![x], p);
            }
            if has_loc(da, x.loc) {
                // x is not fresh: the left part already holds its location.
                assert(seq![x].filter(p) =~= Seq::<MatchModel>::empty());
                assert(has_loc(d, x.loc)) by {
                    let i = choose|i: int| 0 <= i < da.len() && da[i].loc == x.loc;
                    assert(d[i].loc == x.loc);
                }
                assert(dedup_matches(a + b) == d);
                assert(db.push(x).filter(p) =~= db.filter(p));
            } else {
                // x is fresh on both sides.
                assert(seq![x].filter(p) =~= seq![x]);
                assert(!has_loc(d, x.loc)) by {
                    if has_loc(d, x.loc) {
                        let i = choose|i: int| 0 <= i < d.len() && d[i].loc == x.loc;
                        if i < da.len() {
                            assert(da[i].loc == x.loc);
                        } else {
                            lemma_filter_is_subset(db, p, i - da.len());
                            let j = choose|j: int|
                                0 <= j < db.len() && db[j] == db.filter(p)[i - da.len()];
                            assert(db[j].loc == x.loc);
                        }
                    }
                }
                assert(dedup_matches(a + b) == d.push(x));
                assert(da + (db.filter(p) + seq![x]) =~= (da + db.filter(p)).push(x));
            }
        }
    }
}

} // verus!
