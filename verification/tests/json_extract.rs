use json_extract::IndexSelector;
use json_extract::Json;
use json_extract::JsonEntry;
use json_extract::KeySelector;
use json_extract::PathExpression;
use json_extract::PathExpressionFlag;
use json_extract::PathLeg;

fn num(t: &str) -> Json {
    Json::Number(t.to_string())
}

fn txt(t: &str) -> Json {
    Json::Str(t.to_string())
}

fn arr(elems: Vec<Json>) -> Json {
    Json::Array(elems)
}

fn obj(entries: Vec<(&str, Json)>) -> Json {
    Json::Object(
        entries
            .into_iter()
            .map(|(k, v)| JsonEntry { key: k.to_string(), value: v })
            .collect(),
    )
}

fn idx(i: usize) -> PathLeg {
    PathLeg::Index(IndexSelector::Pos(i))
}

fn idx_all() -> PathLeg {
    PathLeg::Index(IndexSelector::All)
}

fn key(k: &str) -> PathLeg {
    PathLeg::Key(KeySelector::Name(k.to_string()))
}

fn key_all() -> PathLeg {
    PathLeg::Key(KeySelector::All)
}

fn expr(legs: Vec<PathLeg>, asterisk: bool, double: bool) -> PathExpression {
    PathExpression {
        legs,
        flags: PathExpressionFlag {
            contains_asterisk: asterisk,
            contains_double_asterisk: double,
        },
    }
}

fn plain(legs: Vec<PathLeg>) -> PathExpression {
    expr(legs, false, false)
}

/// The document `{"a": [1, 2, {"aa": "xx"}]}`.
fn doc_nested() -> Json {
    obj(vec![(
        "a",
        arr(vec![num("1"), num("2"), obj(vec![("aa", txt("xx"))])]),
    )])
}

/// The document `{"a": "a1", "b": 20.08, "c": false}`.
fn doc_abc() -> Json {
    obj(vec![
        ("a", txt("a1")),
        ("b", num("20.08")),
        ("c", Json::Bool(false)),
    ])
}

/// The document `[[0, 1], [2, 3], [4, [5, 6]]]`.
fn doc_pairs() -> Json {
    arr(vec![
        arr(vec![num("0"), num("1")]),
        arr(vec![num("2"), num("3")]),
        arr(vec![num("4"), arr(vec![num("5"), num("6")])]),
    ])
}

#[test]
fn test_json_extract() {
    let cases: Vec<(Json, Vec<PathExpression>, Option<Json>)> = vec![
        // no path expression
        (Json::Null, vec![], None),
        // Index
        (
            arr(vec![Json::Bool(true), num("2017")]),
            vec![plain(vec![idx(0)])],
            Some(Json::Bool(true)),
        ),
        (
            arr(vec![Json::Bool(true), num("2017")]),
            vec![expr(vec![idx_all()], true, false)],
            Some(arr(vec![Json::Bool(true), num("2017")])),
        ),
        (
            arr(vec![Json::Bool(true), num("2107")]),
            vec![plain(vec![idx(2)])],
            None,
        ),
        (num("6.18"), vec![plain(vec![idx(0)])], Some(num("6.18"))),
        (num("6.18"), vec![plain(vec![idx_all()])], None),
        (Json::Bool(true), vec![plain(vec![idx(0)])], Some(Json::Bool(true))),
        (Json::Bool(true), vec![plain(vec![idx_all()])], None),
        (num("6"), vec![plain(vec![idx(0)])], Some(num("6"))),
        (num("6"), vec![plain(vec![idx_all()])], None),
        (num("-6"), vec![plain(vec![idx(0)])], Some(num("-6"))),
        (num("-6"), vec![plain(vec![idx_all()])], None),
        (doc_nested(), vec![plain(vec![idx_all()])], None),
        (doc_nested(), vec![plain(vec![idx(0)])], Some(doc_nested())),
        // Key
        (doc_abc(), vec![plain(vec![key("c")])], Some(Json::Bool(false))),
        (
            doc_abc(),
            vec![expr(vec![key_all()], true, false)],
            Some(arr(vec![txt("a1"), num("20.08"), Json::Bool(false)])),
        ),
        (doc_abc(), vec![plain(vec![key("d")])], None),
        // Double asterisks
        (
            num("21"),
            vec![expr(vec![PathLeg::DoubleAsterisk, key("c")], false, true)],
            None,
        ),
        (
            obj(vec![("g", doc_abc())]),
            vec![expr(vec![PathLeg::DoubleAsterisk, key("c")], false, true)],
            Some(arr(vec![Json::Bool(false)])),
        ),
        (
            arr(vec![doc_abc(), Json::Bool(true)]),
            vec![expr(vec![PathLeg::DoubleAsterisk, key("c")], false, true)],
            Some(arr(vec![Json::Bool(false)])),
        ),
        (
            doc_pairs(),
            vec![expr(vec![PathLeg::DoubleAsterisk, idx(0)], false, true)],
            Some(arr(vec![
                arr(vec![num("0"), num("1")]),
                num("0"),
                num("1"),
                num("2"),
                num("3"),
                num("4"),
                num("5"),
                num("6"),
            ])),
        ),
        (
            doc_pairs(),
            vec![
                expr(vec![PathLeg::DoubleAsterisk, idx(0)], false, true),
                expr(vec![PathLeg::DoubleAsterisk, idx(0)], false, true),
            ],
            Some(arr(vec![
                arr(vec![num("0"), num("1")]),
                num("0"),
                num("1"),
                num("2"),
                num("3"),
                num("4"),
                num("5"),
                num("6"),
                arr(vec![num("0"), num("1")]),
                num("0"),
                num("1"),
                num("2"),
                num("3"),
                num("4"),
                num("5"),
                num("6"),
            ])),
        ),
        (
            arr(vec![num("1")]),
            vec![expr(vec![PathLeg::DoubleAsterisk, idx(0)], false, true)],
            Some(arr(vec![num("1")])),
        ),
        (
            obj(vec![("a", num("1"))]),
            vec![plain(vec![key("a"), idx(0)])],
            Some(num("1")),
        ),
        (
            obj(vec![("a", num("1"))]),
            vec![expr(vec![PathLeg::DoubleAsterisk, idx(0)], false, true)],
            Some(arr(vec![obj(vec![("a", num("1"))]), num("1")])),
        ),
        (
            obj(vec![("a", num("1"))]),
            vec![plain(vec![idx(0), idx(0), idx(0), key("a")])],
            Some(num("1")),
        ),
        (
            arr(vec![
                num("1"),
                arr(vec![arr(vec![obj(vec![(
                    "x",
                    arr(vec![obj(vec![(
                        "a",
                        obj(vec![("b", obj(vec![("c", num("42"))]))]),
                    )])]),
                )])])]),
            ]),
            vec![expr(
                vec![PathLeg::DoubleAsterisk, key("a"), key_all()],
                true,
                true,
            )],
            Some(arr(vec![obj(vec![("c", num("42"))])])),
        ),
        (
            arr(vec![
                obj(vec![("a", arr(vec![num("3"), num("4")]))]),
                obj(vec![("b", num("2"))]),
            ]),
            vec![
                plain(vec![idx(0), key("a")]),
                plain(vec![idx(1), key("a")]),
            ],
            Some(arr(vec![arr(vec![num("3"), num("4")])])),
        ),
        (
            arr(vec![obj(vec![(
                "a",
                arr(vec![num("1"), num("1"), num("1"), num("1")]),
            )])]),
            vec![plain(vec![idx(0), key("a")])],
            Some(arr(vec![num("1"), num("1"), num("1"), num("1")])),
        ),
    ];
    for (i, (doc, exprs, expected)) in cases.into_iter().enumerate() {
        let got = doc.as_ref().extract(&exprs[..]);
        assert_eq!(got, expected, "case {}", i);
    }
}

#[test]
fn extract_with_no_expressions_is_no_match() {
    let doc = obj(vec![("a", num("1"))]);
    assert_eq!(doc.as_ref().extract(&[]), None);
}

#[test]
fn extract_with_zero_legs_returns_whole_document() {
    let doc = obj(vec![("a", num("1"))]);
    let exprs = vec![plain(vec![])];
    assert_eq!(doc.as_ref().extract(&exprs[..]), Some(doc.deep_clone()));
}

#[test]
fn index_auto_wrap_on_non_array() {
    let doc = num("6.18");
    assert_eq!(doc.as_ref().extract(&[plain(vec![idx(0)])]), Some(num("6.18")));
    assert_eq!(doc.as_ref().extract(&[plain(vec![idx(1)])]), None);
    let wild = PathExpression::new(vec![idx_all()]);
    assert!(wild.contains_any_asterisk());
    assert_eq!(doc.as_ref().extract(&[wild]), None);
}

#[test]
fn key_leg_matches_objects_only() {
    let doc = arr(vec![num("1"), num("2")]);
    assert_eq!(doc.as_ref().extract(&[plain(vec![key("a")])]), None);
    assert_eq!(doc.as_ref().extract(&[expr(vec![key_all()], true, false)]), None);
    assert_eq!(txt("a").as_ref().extract(&[plain(vec![key("a")])]), None);
}

#[test]
fn wildcard_wraps_even_a_single_match() {
    let doc = obj(vec![("a", num("1"))]);
    let exprs = vec![expr(vec![key_all()], true, false)];
    assert_eq!(doc.as_ref().extract(&exprs[..]), Some(arr(vec![num("1")])));
}

#[test]
fn two_expressions_wrap_even_a_single_match() {
    let doc = obj(vec![("a", num("1"))]);
    let exprs = vec![plain(vec![key("a")]), plain(vec![key("b")])];
    assert_eq!(doc.as_ref().extract(&exprs[..]), Some(arr(vec![num("1")])));
}

#[test]
fn single_wildcard_free_match_is_unwrapped() {
    let doc = obj(vec![("a", arr(vec![num("3"), num("4")]))]);
    let exprs = vec![plain(vec![key("a")])];
    assert_eq!(
        doc.as_ref().extract(&exprs[..]),
        Some(arr(vec![num("3"), num("4")]))
    );
}

#[test]
fn recursive_descent_deduplicates_by_location() {
    // Every depth level re-applies the whole pattern; the root array's
    // element 0 is reached both as the element and through descent, yet
    // appears once.
    let doc = arr(vec![num("1")]);
    let exprs = vec![expr(vec![PathLeg::DoubleAsterisk, idx(0)], false, true)];
    assert_eq!(doc.as_ref().extract(&exprs[..]), Some(arr(vec![num("1")])));
    // Structurally equal values at distinct locations are all kept.
    let doc2 = arr(vec![obj(vec![(
        "a",
        arr(vec![num("1"), num("1"), num("1"), num("1")]),
    )])]);
    let exprs2 = vec![plain(vec![idx(0), key("a")])];
    assert_eq!(
        doc2.as_ref().extract(&exprs2[..]),
        Some(arr(vec![num("1"), num("1"), num("1"), num("1")]))
    );
}

#[test]
fn matches_keep_document_and_expression_order() {
    let doc = doc_abc();
    let exprs = vec![expr(vec![key_all()], true, false)];
    assert_eq!(
        doc.as_ref().extract(&exprs[..]),
        Some(arr(vec![txt("a1"), num("20.08"), Json::Bool(false)]))
    );
    let exprs2 = vec![plain(vec![key("c")]), plain(vec![key("a")])];
    assert_eq!(
        doc.as_ref().extract(&exprs2[..]),
        Some(arr(vec![Json::Bool(false), txt("a1")]))
    );
}

#[test]
fn extract_is_idempotent() {
    let doc = doc_pairs();
    let exprs = vec![expr(vec![PathLeg::DoubleAsterisk, idx(0)], false, true)];
    let first = doc.as_ref().extract(&exprs[..]);
    let second = doc.as_ref().extract(&exprs[..]);
    assert_eq!(first, second);
}

#[test]
fn recursive_descent_alone_lists_node_and_descendants() {
    let doc = obj(vec![("a", num("1"))]);
    let exprs = vec![expr(vec![PathLeg::DoubleAsterisk], false, true)];
    assert_eq!(
        doc.as_ref().extract(&exprs[..]),
        Some(arr(vec![obj(vec![("a", num("1"))]), num("1")]))
    );
}

#[test]
fn empty_containers_yield_no_wildcard_match() {
    let empty_array = arr(vec![]);
    assert_eq!(
        empty_array.as_ref().extract(&[expr(vec![idx_all()], true, false)]),
        None
    );
    let empty_object = obj(vec![]);
    assert_eq!(
        empty_object.as_ref().extract(&[expr(vec![key_all()], true, false)]),
        None
    );
}

#[test]
fn out_of_range_index_and_absent_key_are_no_matches() {
    let doc = arr(vec![num("0"), num("1")]);
    assert_eq!(doc.as_ref().extract(&[plain(vec![idx(2)])]), None);
    let doc2 = doc_abc();
    assert_eq!(doc2.as_ref().extract(&[plain(vec![key("d")])]), None);
}

#[test]
fn extract_json_returns_matching_references() {
    let doc = arr(vec![Json::Bool(true), num("2017")]);
    let legs = vec![idx(0)];
    let matches = json_extract::extract_json(doc.as_ref(), &legs[..]);
    assert_eq!(matches.len(), 1);
    assert_eq!(matches[0].to_owned(), Json::Bool(true));
    let all = vec![idx_all()];
    let matches_all = json_extract::extract_json(doc.as_ref(), &all[..]);
    assert_eq!(matches_all.len(), 2);
    assert_eq!(matches_all[0].to_owned(), Json::Bool(true));
    assert_eq!(matches_all[1].to_owned(), num("2017"));
}

#[test]
fn path_expression_new_computes_flags() {
    let e1 = PathExpression::new(vec![idx(0), key("a")]);
    assert!(!e1.contains_any_asterisk());
    assert!(!e1.flags.contains_asterisk);
    assert!(!e1.flags.contains_double_asterisk);
    let e2 = PathExpression::new(vec![idx_all()]);
    assert!(e2.flags.contains_asterisk);
    assert!(!e2.flags.contains_double_asterisk);
    let e3 = PathExpression::new(vec![key_all()]);
    assert!(e3.flags.contains_asterisk);
    let e4 = PathExpression::new(vec![PathLeg::DoubleAsterisk, key("c")]);
    assert!(!e4.flags.contains_asterisk);
    assert!(e4.flags.contains_double_asterisk);
    assert!(e4.contains_any_asterisk());
    assert_eq!(
        PathExpressionFlag::default(),
        PathExpressionFlag {
            contains_asterisk: false,
            contains_double_asterisk: false
        }
    );
}

#[test]
fn deep_clone_copies_the_whole_tree() {
    let doc = doc_nested();
    let copy = doc.deep_clone();
    assert_eq!(copy, doc);
    let owned = doc.as_ref().to_owned();
    assert_eq!(owned, doc);
    assert_eq!(doc.as_ref().as_json(), &doc);
}
