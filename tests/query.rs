use torm::{Query, QueryBuilder, SortOrder, Value};

fn text(s: &str) -> Value {
    Value::Str(s.to_string())
}

fn doc(fields: Vec<(&str, Value)>) -> Option<Value> {
    Some(Value::Object(
        fields.into_iter().map(|(k, v)| (k.to_string(), v)).collect(),
    ))
}

fn users() -> Vec<Option<Value>> {
    vec![
        doc(vec![("id", Value::Number(1)), ("age", Value::Number(17)), ("active", Value::Bool(false))]),
        doc(vec![("id", Value::Number(2)), ("age", Value::Number(30)), ("active", Value::Bool(true))]),
        doc(vec![("id", Value::Number(3)), ("age", Value::Number(45)), ("active", Value::Bool(true))]),
    ]
}

fn ids(docs: &[Option<Value>], positions: &[usize]) -> Vec<i64> {
    positions
        .iter()
        .map(|&p| match &docs[p] {
            Some(Value::Object(fields)) => match fields.iter().find(|(k, _)| k == "id") {
                Some((_, Value::Number(n))) => *n,
                _ => panic!("document without a numeric id"),
            },
            _ => panic!("no document at {}", p),
        })
        .collect()
}

#[test]
fn test_query_builder() {
    let query = QueryBuilder::new("users")
        .filter("age", Query::gte(Value::Number(18)))
        .filter("active", Query::eq(Value::Bool(true)))
        .sort_by("created_at", SortOrder::Desc)
        .limit(10);

    assert_eq!(query.filters.len(), 2);
    assert!(query.sort.is_some());
    assert_eq!(query.limit, Some(10));
}

#[test]
fn test_query_operators() {
    let eq = Query::eq(Value::Number(42));
    let gte = Query::gte(Value::Number(18));
    let contains = Query::contains("test");

    assert!(matches!(eq, Query::Eq(_)));
    assert!(matches!(gte, Query::Gte(_)));
    assert!(matches!(contains, Query::Contains(_)));
}

#[test]
fn adult_active_users_sorted_by_age() {
    let docs = users();
    let q = QueryBuilder::new("user")
        .filter("age", Query::gte(Value::Number(18)))
        .filter("active", Query::eq(Value::Bool(true)))
        .sort_by("age", SortOrder::Asc);
    assert_eq!(ids(&docs, &q.exec(&docs)), vec![2, 3]);
    assert_eq!(q.count(&docs), 2);
}

#[test]
fn empty_collection_gives_nothing_and_counts_zero() {
    let docs: Vec<Option<Value>> = Vec::new();
    let q = QueryBuilder::new("user").filter("age", Query::gte(Value::Number(18)));
    assert!(q.exec(&docs).is_empty());
    assert_eq!(q.count(&docs), 0);
    assert_eq!(QueryBuilder::new("user").count(&docs), 0);
}

#[test]
fn equality_does_not_coerce_kinds() {
    let docs = vec![doc(vec![("id", Value::Number(1)), ("age", text("18"))])];
    let q = QueryBuilder::new("user").filter("age", Query::eq(Value::Number(18)));
    assert!(q.exec(&docs).is_empty());
    let q = QueryBuilder::new("user").filter("age", Query::eq(text("18")));
    assert_eq!(q.exec(&docs), vec![0]);
}

#[test]
fn eq_includes_and_ne_excludes_the_same_record() {
    let docs = users();
    let q = QueryBuilder::new("user").filter("age", Query::eq(Value::Number(30)));
    assert_eq!(ids(&docs, &q.exec(&docs)), vec![2]);
    let q = QueryBuilder::new("user").filter("age", Query::ne(Value::Number(30)));
    assert_eq!(ids(&docs, &q.exec(&docs)), vec![1, 3]);
}

#[test]
fn absent_field_meets_ne_and_not_in() {
    let docs = vec![
        doc(vec![("id", Value::Number(1)), ("role", text("admin"))]),
        doc(vec![("id", Value::Number(2))]),
    ];
    let q = QueryBuilder::new("user").filter("role", Query::ne(text("admin")));
    assert_eq!(ids(&docs, &q.exec(&docs)), vec![2]);
    let q = QueryBuilder::new("user").filter("role", Query::not_in(vec![text("admin"), text("owner")]));
    assert_eq!(ids(&docs, &q.exec(&docs)), vec![2]);
    let q = QueryBuilder::new("user").filter("role", Query::in_values(vec![text("admin")]));
    assert_eq!(ids(&docs, &q.exec(&docs)), vec![1]);
    let q = QueryBuilder::new("user").filter("role", Query::eq(Value::Null));
    assert!(q.exec(&docs).is_empty());
}

#[test]
fn ranges_need_numbers_on_both_sides() {
    let docs = vec![
        doc(vec![("id", Value::Number(1)), ("n", Value::Number(5))]),
        doc(vec![("id", Value::Number(2)), ("n", text("7"))]),
        doc(vec![("id", Value::Number(3)), ("n", Value::Number(9))]),
        doc(vec![("id", Value::Number(4))]),
    ];
    let run = |q: Query| {
        let b = QueryBuilder::new("c").filter("n", q);
        ids(&docs, &b.exec(&docs))
    };
    assert_eq!(run(Query::gt(Value::Number(5))), vec![3]);
    assert_eq!(run(Query::gte(Value::Number(5))), vec![1, 3]);
    assert_eq!(run(Query::lt(Value::Number(9))), vec![1]);
    assert_eq!(run(Query::lte(Value::Number(9))), vec![1, 3]);
    assert_eq!(run(Query::gt(text("1"))), Vec::<i64>::new());
}

#[test]
fn contains_is_a_substring_test_on_texts() {
    let docs = vec![
        doc(vec![("id", Value::Number(1)), ("name", text("Alice Smith"))]),
        doc(vec![("id", Value::Number(2)), ("name", text("Bob"))]),
        doc(vec![("id", Value::Number(3)), ("name", Value::Number(7))]),
    ];
    let q = QueryBuilder::new("c").filter("name", Query::contains("Smi"));
    assert_eq!(ids(&docs, &q.exec(&docs)), vec![1]);
    let q = QueryBuilder::new("c").filter("name", Query::contains(""));
    assert_eq!(ids(&docs, &q.exec(&docs)), vec![1, 2]);
    let q = QueryBuilder::new("c").filter("name", Query::contains("smith"));
    assert!(q.exec(&docs).is_empty());
}

#[test]
fn unreadable_documents_are_passed_over() {
    let mut docs = users();
    docs.insert(1, None);
    docs.push(Some(Value::Number(5)));
    let q = QueryBuilder::new("user");
    assert_eq!(q.exec(&docs), vec![0, 2, 3, 4]);
    assert_eq!(q.count(&docs), 5);
    let q = q.filter("id", Query::gte(Value::Number(2)));
    assert_eq!(ids(&docs, &q.exec(&docs)), vec![2, 3]);
    assert_eq!(q.count(&docs), 2);
}

#[test]
fn sort_is_stable_on_ties() {
    let docs = vec![
        doc(vec![("id", Value::Number(1)), ("g", text("b"))]),
        doc(vec![("id", Value::Number(2)), ("g", text("a"))]),
        doc(vec![("id", Value::Number(3)), ("g", text("b"))]),
        doc(vec![("id", Value::Number(4)), ("g", text("a"))]),
    ];
    let q = QueryBuilder::new("c").sort_by("g", SortOrder::Asc);
    assert_eq!(ids(&docs, &q.exec(&docs)), vec![2, 4, 1, 3]);
    let q = QueryBuilder::new("c").sort_by("g", SortOrder::Desc);
    assert_eq!(ids(&docs, &q.exec(&docs)), vec![1, 3, 2, 4]);
}

#[test]
fn absent_sort_keys_come_first() {
    let docs = vec![
        doc(vec![("id", Value::Number(1)), ("k", Value::Number(2))]),
        doc(vec![("id", Value::Number(2))]),
        doc(vec![("id", Value::Number(3)), ("k", Value::Number(-1))]),
    ];
    let q = QueryBuilder::new("c").sort_by("k", SortOrder::Asc);
    assert_eq!(ids(&docs, &q.exec(&docs)), vec![2, 3, 1]);
    let q = QueryBuilder::new("c").sort_by("k", SortOrder::Desc);
    assert_eq!(ids(&docs, &q.exec(&docs)), vec![1, 3, 2]);
}

#[test]
fn texts_and_booleans_sort_in_their_own_order() {
    let docs = vec![
        doc(vec![("id", Value::Number(1)), ("s", text("ab")), ("b", Value::Bool(true))]),
        doc(vec![("id", Value::Number(2)), ("s", text("a")), ("b", Value::Bool(false))]),
        doc(vec![("id", Value::Number(3)), ("s", text("B")), ("b", Value::Bool(true))]),
    ];
    let q = QueryBuilder::new("c").sort_by("s", SortOrder::Asc);
    assert_eq!(ids(&docs, &q.exec(&docs)), vec![3, 2, 1]);
    let q = QueryBuilder::new("c").sort_by("b", SortOrder::Asc);
    assert_eq!(ids(&docs, &q.exec(&docs)), vec![2, 1, 3]);
}

#[test]
fn skip_then_limit_cut_a_slice() {
    let docs: Vec<Option<Value>> = (1..=5).map(|i| doc(vec![("id", Value::Number(i))])).collect();
    let q = QueryBuilder::new("c").sort_by("id", SortOrder::Desc).skip(1).limit(2);
    assert_eq!(ids(&docs, &q.exec(&docs)), vec![4, 3]);
    let q = QueryBuilder::new("c").skip(4).limit(10);
    assert_eq!(ids(&docs, &q.exec(&docs)), vec![5]);
    let q = QueryBuilder::new("c").skip(5);
    assert!(q.exec(&docs).is_empty());
    let q = QueryBuilder::new("c").skip(9).limit(1);
    assert!(q.exec(&docs).is_empty());
    let q = QueryBuilder::new("c").limit(0);
    assert!(q.exec(&docs).is_empty());
}

#[test]
fn nested_values_compare_structurally() {
    let tags = Value::Array(vec![text("x"), Value::Number(1)]);
    let other = Value::Array(vec![text("x"), Value::Number(2)]);
    let docs = vec![doc(vec![("id", Value::Number(1)), ("tags", Value::Array(vec![text("x"), Value::Number(1)]))])];
    let q = QueryBuilder::new("c").filter("tags", Query::eq(tags));
    assert_eq!(q.exec(&docs), vec![0]);
    let q = QueryBuilder::new("c").filter("tags", Query::eq(other));
    assert!(q.exec(&docs).is_empty());
}

#[test]
fn objects_compare_by_name_not_by_order() {
    let stored = Value::Object(vec![("a".to_string(), Value::Number(1)), ("b".to_string(), text("x"))]);
    let docs = vec![doc(vec![("id", Value::Number(1)), ("meta", stored)])];
    let same = Value::Object(vec![("b".to_string(), text("x")), ("a".to_string(), Value::Number(1))]);
    let q = QueryBuilder::new("c").filter("meta", Query::eq(same));
    assert_eq!(q.exec(&docs), vec![0]);
    let other = Value::Object(vec![("b".to_string(), text("x")), ("c".to_string(), Value::Number(1))]);
    let q = QueryBuilder::new("c").filter("meta", Query::eq(other));
    assert!(q.exec(&docs).is_empty());
    let fewer = Value::Object(vec![("a".to_string(), Value::Number(1))]);
    let q = QueryBuilder::new("c").filter("meta", Query::ne(fewer));
    assert_eq!(q.exec(&docs), vec![0]);
}
