//! The JSON document tree and its mathematical model.
//!
//! [`Json`] is the executable, owned document: a tagged tree whose arrays and
//! objects hold their children in order. [`JsonModel`] is its mathematical
//! view: the same tree over `Seq` and `Seq<char>`, used by every contract.
//! Extraction never interprets the text of a number; a number is carried as
//! its decimal text and compared, like every scalar, only by position in the
//! tree.

use vstd::prelude::*;

verus! {

/// An owned JSON document node.
///
/// Arrays keep their elements in order; objects keep their entries in stored
/// order (the order object iteration and wildcard matching follow), with keys
/// expected unique as in any JSON document produced by a parser.
#[derive(Debug, PartialEq)]
pub enum Json {
    Null,
    Bool(bool),
    /// The decimal text of a number, e.g. `"20.08"`; extraction is agnostic
    /// to its interpretation.
    Number(String),
    Str(String),
    Array(Vec<Json>),
    Object(Vec<JsonEntry>),
}

/// One key/value entry of a JSON object.
#[derive(Debug, PartialEq)]
pub struct JsonEntry {
    pub key: String,
    pub value: Json,
}

/// The mathematical view of a [`Json`] node.
pub enum JsonModel {
    Null,
    Bool(bool),
    Number(Seq<char>),
    Str(Seq<char>),
    Array(Seq<JsonModel>),
    Object(Seq<EntryModel>),
}

/// The mathematical view of a [`JsonEntry`].
pub struct EntryModel {
    pub key: Seq<char>,
    pub value: JsonModel,
}

/// The model of a node: the same tree over `Seq`.
pub open spec fn json_model(j: Json) -> JsonModel
    decreases j,
{
    match j {
        Json::Null => JsonModel::Null,
        Json::Bool(b) => JsonModel::Bool(b),
        Json::Number(s) => JsonModel::Number(s@),
        Json::Str(s) => JsonModel::Str(s@),
        Json::Array(elems) => JsonModel::Array(json_models(elems@)),
        Json::Object(entries) => JsonModel::Object(entry_models(entries@)),
    }
}

/// The models of a sequence of nodes, element by element.
pub open spec fn json_models(s: Seq<Json>) -> Seq<JsonModel>
    decreases s,
{
    if s.len() == 0 {
        Seq::empty()
    } else {
        json_models(s.drop_last()).push(json_model(s.last()))
    }
}

/// The models of a sequence of object entries, element by element.
pub open spec fn entry_models(s: Seq<JsonEntry>) -> Seq<EntryModel>
    decreases s,
{
    if s.len() == 0 {
        Seq::empty()
    } else {
        entry_models(s.drop_last()).push(
            EntryModel { key: s.last().key@, value: json_model(s.last().value) },
        )
    }
}

/// The height of a model tree: leaves have height zero and a container is
/// one taller than its tallest child. It bounds the recursion of matching.
pub open spec fn model_height(m: JsonModel) -> nat
    decreases m,
{
    match m {
        JsonModel::Array(cs) => 1 + elems_height(cs),
        JsonModel::Object(es) => 1 + entries_height(es),
        _ => 0,
    }
}

/// The largest height among a sequence of models.
pub open spec fn elems_height(cs: Seq<JsonModel>) -> nat
    decreases cs,
{
    if cs.len() == 0 {
        0
    } else {
        vstd::math::max(model_height(cs.last()) as int, elems_height(cs.drop_last()) as int) as nat
    }
}

/// The largest height among the values of a sequence of object entries.
pub open spec fn entries_height(es: Seq<EntryModel>) -> nat
    decreases es,
{
    if es.len() == 0 {
        0
    } else {
        vstd::math::max(
            model_height(es.last().value) as int,
            entries_height(es.drop_last()) as int,
        ) as nat
    }
}

/// Every element of an array model is strictly lower than the array.
pub proof fn lemma_elem_height(cs: Seq<JsonModel>, k: int)
    requires
        0 <= k < cs.len(),
    ensures
        model_height(cs[k]) < model_height(JsonModel::Array(cs)),
    decreases cs.len(),
{
    if k == cs.len() - 1 {
        assert(elems_height(cs) >= model_height(cs.last()));
    } else {
        lemma_elem_height(cs.drop_last(), k);
        assert(cs.drop_last()[k] == cs[k]);
        assert(elems_height(cs) >= elems_height(cs.drop_last()));
    }
}

/// Every entry value of an object model is strictly lower than the object.
pub proof fn lemma_entry_height(es: Seq<EntryModel>, k: int)
    requires
        0 <= k < es.len(),
    ensures
        model_height(es[k].value) < model_height(JsonModel::Object(es)),
    decreases es.len(),
{
    if k == es.len() - 1 {
        assert(entries_height(es) >= model_height(es.last().value));
    } else {
        lemma_entry_height(es.drop_last(), k);
        assert(es.drop_last()[k] == es[k]);
        assert(entries_height(es) >= entries_height(es.drop_last()));
    }
}

/// The children of a model node, in stored order: the elements of an array,
/// the entry values of an object, nothing for a scalar. A location (see
/// [`crate::match_spec`]) is a sequence of child indices from the root.
pub open spec fn model_children(m: JsonModel) -> Seq<JsonModel> {
    match m {
        JsonModel::Array(cs) => cs,
        JsonModel::Object(es) => es.map_values(|e: EntryModel| e.value),
        _ => Seq::empty(),
    }
}

/// The node a location denotes, walking child indices down from `m`;
/// `None` when some index leaves the tree.
pub open spec fn node_at(m: JsonModel, loc: Seq<int>) -> Option<JsonModel>
    decreases loc.len(),
{
    if loc.len() == 0 {
        Some(m)
    } else if 0 <= loc[0] < model_children(m).len() {
        node_at(model_children(m)[loc[0]], loc.drop_first())
    } else {
        None
    }
}

/// Resolving one more child index appended to a location: the child of the
/// node the location denotes, when both steps stay inside the tree.
pub proof fn lemma_node_at_snoc(root: JsonModel, loc: Seq<int>, k: int)
    ensures
        node_at(root, loc.push(k)) == (match node_at(root, loc) {
            Some(mm) => if 0 <= k < model_children(mm).len() {
                Some(model_children(mm)[k])
            } else {
                None
            },
            None => None,
        }),
    decreases loc.len(),
{
    if loc.len() == 0 {
        assert(node_at(root, loc) == Some(root));
        assert(loc.push(k)[0] == k);
        assert(loc.push(k).drop_first() =~= Seq::<int>::empty());
        if 0 <= k < model_children(root).len() {
            assert(node_at(root, loc.push(k)) == node_at(
                model_children(root)[k],
                loc.push(k).drop_first(),
            ));
            assert(node_at(model_children(root)[k], Seq::<int>::empty()) == Some(
                model_children(root)[k],
            ));
        } else {
            assert(node_at(root, loc.push(k)) is None);
        }
    } else {
        assert(loc.push(k)[0] == loc[0]);
        assert(loc.push(k).drop_first() =~= loc.drop_first().push(k));
        if 0 <= loc[0] < model_children(root).len() {
            lemma_node_at_snoc(model_children(root)[loc[0]], loc.drop_first(), k);
            assert(node_at(root, loc.push(k)) == node_at(
                model_children(root)[loc[0]],
                loc.drop_first().push(k),
            ));
            assert(node_at(root, loc) == node_at(model_children(root)[loc[0]], loc.drop_first()));
        } else {
            assert(node_at(root, loc.push(k)) is None);
            assert(node_at(root, loc) is None);
        }
    }
}

impl View for Json {
    type V = JsonModel;

    open spec fn view(&self) -> JsonModel {
        json_model(*self)
    }
}

/// `json_models` maps `json_model` over the sequence, index by index.
pub proof fn lemma_json_models(s: Seq<Json>)
    ensures
        json_models(s).len() == s.len(),
        forall|i: int| 0 <= i < s.len() ==> json_models(s)[i] == json_model(s[i]),
    decreases s.len(),
{
    if s.len() > 0 {
        lemma_json_models(s.drop_last());
    }
}

/// `entry_models` maps the entry view over the sequence, index by index.
pub proof fn lemma_entry_models(s: Seq<JsonEntry>)
    ensures
        entry_models(s).len() == s.len(),
        forall|i: int| 0 <= i < s.len() ==> entry_models(s)[i]
            == (EntryModel { key: s[i].key@, value: json_model(s[i].value) }),
    decreases s.len(),
{
    if s.len() > 0 {
        lemma_entry_models(s.drop_last());
    }
}

/// A borrowed reference to a node of a document. The document outlives the
/// reference; matching hands these out and [`JsonRef::to_owned`] turns one
/// into an independent owned copy.
#[derive(Clone, Copy)]
pub struct JsonRef<'a> {
    node: &'a Json,
}

impl<'a> View for JsonRef<'a> {
    type V = JsonModel;

    closed spec fn view(&self) -> JsonModel {
        json_model(*self.node)
    }
}

impl Json {
    /// Borrows the document root as a [`JsonRef`].
    pub fn as_ref(&self) -> (r: JsonRef<'_>)
        ensures
            r@ == self@,
    {
        JsonRef { node: self }
    }

    /// An owned copy of the node: the same tree, independent storage.
    pub fn deep_clone(&self) -> (r: Json)
        ensures
            r@ == self@,
        decreases model_height(self@),
    {
        match self {
            Json::Null => Json::Null,
            Json::Bool(b) => Json::Bool(*b),
            Json::Number(s) => Json::Number(s.clone()),
            Json::Str(s) => Json::Str(s.clone()),
            Json::Array(elems) => {
                let ghost cs = json_models(elems@);
                proof {
                    lemma_json_models(elems@);
                }
                let mut out: Vec<Json> = Vec::new();
                let n = elems.len();
                for k in 0..n
                    invariant
                        n == elems@.len(),
                        out@.len() == k,
                        self@ == JsonModel::Array(cs),
                        cs == json_models(elems@),
                        cs.len() == n,
                        forall|i: int| 0 <= i < n ==> cs[i] == json_model(elems@[i]),
                        forall|i: int| 0 <= i < k ==> json_model(out@[i]) == cs[i],
                {
                    proof {
                        lemma_elem_height(cs, k as int);
                    }
                    out.push(elems[k].deep_clone());
                }
                proof {
                    lemma_json_models(out@);
                    assert(json_models(out@) =~= cs);
                }
                Json::Array(out)
            },
            Json::Object(entries) => {
                let ghost es = entry_models(entries@);
                proof {
                    lemma_entry_models(entries@);
                }
                let mut out: Vec<JsonEntry> = Vec::new();
                let n = entries.len();
                for k in 0..n
                    invariant
                        n == entries@.len(),
                        out@.len() == k,
                        self@ == JsonModel::Object(es),
                        es == entry_models(entries@),
                        es.len() == n,
                        forall|i: int| 0 <= i < n ==> es[i]
                            == (EntryModel {
                            key: entries@[i].key@,
                            value: json_model(entries@[i].value),
                        }),
                        forall|i: int| 0 <= i < k ==> entry_models(out@)[i] == es[i],
                        forall|i: int| 0 <= i < k ==> (EntryModel {
                            key: out@[i].key@,
                            value: json_model(out@[i].value),
                        }) == es[i],
                {
                    proof {
                        lemma_entry_height(es, k as int);
                    }
                    let entry = &entries[k];
                    out.push(JsonEntry { key: entry.key.clone(), value: entry.value.deep_clone() });
                    proof {
                        lemma_entry_models(out@);
                    }
                }
                proof {
                    lemma_entry_models(out@);
                    assert(entry_models(out@) =~= es);
                }
                Json::Object(out)
            },
        }
    }
}

impl<'a> JsonRef<'a> {
    /// The borrowed node itself.
    pub fn as_json(&self) -> (r: &'a Json)
        ensures
            json_model(*r) == self@,
    {
        self.node
    }

    /// An owned copy of the referenced node.
    pub fn to_owned(&self) -> (r: Json)
        ensures
            r@ == self@,
    {
        self.node.deep_clone()
    }
}

/// The model of an optional owned result, `None` kept as `None`.
pub open spec fn opt_model(r: Option<Json>) -> Option<JsonModel> {
    match r {
        Option::None => Option::None,
        Option::Some(v) => Option::Some(json_model(v)),
    }
}

} // verus!
