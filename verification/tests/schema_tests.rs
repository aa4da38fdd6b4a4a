use driftmap::json::{JsonNumber, JsonValue};
use driftmap::matcher::Target;
use driftmap::schema::{infer_type, FieldStats, FieldType, SchemaInferrer};

fn s(x: &str) -> JsonValue {
    JsonValue::String(x.to_string())
}

fn num(x: &str) -> JsonValue {
    JsonValue::Number(JsonNumber { text: x.to_string(), is_f64: false })
}

fn float(x: &str) -> JsonValue {
    JsonValue::Number(JsonNumber { text: x.to_string(), is_f64: true })
}

fn obj(members: Vec<(&str, JsonValue)>) -> JsonValue {
    JsonValue::Object(members.into_iter().map(|(k, v)| (k.to_string(), v)).collect())
}

fn stats(seen: u32, total: u32) -> FieldStats {
    FieldStats { field_type: FieldType::Null, seen_count: seen, total_count: total, nullable: false }
}

#[test]
fn required_means_present_in_more_than_95_percent() {
    assert!(stats(96, 100).is_required());
    assert!(!stats(95, 100).is_required());
    assert!(stats(1, 1).is_required());
    assert!(!stats(0, 1).is_required());
    assert!(stats(20, 20).is_required());
    assert!(!stats(19, 20).is_required());
}

#[test]
fn required_agrees_with_f32_presence_rate() {
    let samples: [u32; 12] = [0, 1, 2, 19, 20, 50, 95, 96, 100, 16_777_217, 4_000_000_000, u32::MAX];
    for &seen in samples.iter() {
        for &total in samples.iter() {
            let rate = seen as f32 / total as f32;
            assert_eq!(stats(seen, total).is_required(), rate > 0.95, "seen {} total {}", seen, total);
        }
    }
    for total in 1..300u32 {
        for seen in 0..=total {
            let rate = seen as f32 / total as f32;
            assert_eq!(stats(seen, total).is_required(), rate > 0.95);
        }
    }
}

#[test]
fn infers_types_of_values() {
    assert!(matches!(infer_type(&s("x")), FieldType::String));
    assert!(matches!(infer_type(&num("3")), FieldType::Integer));
    assert!(matches!(infer_type(&float("3.5")), FieldType::Float));
    assert!(matches!(infer_type(&JsonValue::Bool(true)), FieldType::Boolean));
    assert!(matches!(infer_type(&JsonValue::Null), FieldType::Null));
    match infer_type(&JsonValue::Array(vec![num("1"), s("a")])) {
        FieldType::Array(e) => assert!(matches!(*e, FieldType::Integer)),
        _ => panic!("expected an array type"),
    }
    match infer_type(&JsonValue::Array(vec![])) {
        FieldType::Array(e) => assert!(matches!(*e, FieldType::Null)),
        _ => panic!("expected an array type"),
    }
    match infer_type(&obj(vec![("a", JsonValue::Null), ("b", num("1"))])) {
        FieldType::Object(fields) => {
            assert_eq!(fields.len(), 2);
            assert_eq!(fields[0].0, "a");
            assert!(fields[0].1.nullable);
            assert_eq!(fields[0].1.seen_count, 1);
            assert_eq!(fields[0].1.total_count, 1);
            assert_eq!(fields[1].0, "b");
            assert!(matches!(fields[1].1.field_type, FieldType::Integer));
            assert!(!fields[1].1.nullable);
        }
        _ => panic!("expected an object type"),
    }
}

#[test]
fn observe_counts_only_json_objects() {
    let mut inf = SchemaInferrer::new();
    assert_eq!(inf.min_samples, 50);
    inf.observe("GET /x", Target::A, &num("1"));
    inf.observe("GET /x", Target::A, &JsonValue::Array(vec![]));
    assert_eq!(inf.sample_count("GET /x", Target::A), 0);
    inf.observe("GET /x", Target::A, &obj(vec![("id", num("1"))]));
    inf.observe("GET /x", Target::A, &obj(vec![("name", JsonValue::Null)]));
    assert_eq!(inf.sample_count("GET /x", Target::A), 2);
    assert_eq!(inf.sample_count("GET /x", Target::B), 0);
    let e = inf.schemas.iter().find(|e| e.endpoint == "GET /x" && e.target == Target::A).unwrap();
    assert_eq!(e.fields.len(), 2);
    let id = &e.fields.iter().find(|f| f.0 == "id").unwrap().1;
    assert_eq!((id.seen_count, id.total_count, id.nullable), (1, 2, false));
    let name = &e.fields.iter().find(|f| f.0 == "name").unwrap().1;
    assert_eq!((name.seen_count, name.total_count, name.nullable), (1, 2, true));
}

fn feed(inf: &mut SchemaInferrer, target: Target, n: usize, body: impl Fn(usize) -> JsonValue) {
    for i in 0..n {
        inf.observe("GET /orders/:id", target, &body(i));
    }
}

#[test]
fn no_divergence_before_min_samples() {
    let mut inf = SchemaInferrer::new();
    feed(&mut inf, Target::A, 49, |_| obj(vec![("id", num("1"))]));
    feed(&mut inf, Target::B, 60, |_| obj(vec![("name", s("x"))]));
    assert!(inf.diff("GET /orders/:id").is_none());
    inf.observe("GET /orders/:id", Target::A, &obj(vec![("id", num("1"))]));
    assert!(inf.diff("GET /orders/:id").is_some());
}

#[test]
fn reports_missing_required_fields_and_type_changes() {
    let mut inf = SchemaInferrer::new();
    feed(&mut inf, Target::A, 50, |_| obj(vec![("id", num("1")), ("total", num("5")), ("legacy", s("x"))]));
    feed(&mut inf, Target::B, 50, |_| obj(vec![("id", num("1")), ("total", float("5.5")), ("currency", s("EUR"))]));
    let d = inf.diff("GET /orders/:id").unwrap();
    assert_eq!(d.endpoint, "GET /orders/:id");
    assert_eq!(d.fields_only_a, vec!["legacy".to_string()]);
    assert_eq!(d.fields_only_b, vec!["currency".to_string()]);
    assert_eq!(d.type_mismatches.len(), 1);
    assert_eq!(d.type_mismatches[0].0, "total");
    assert!(matches!(d.type_mismatches[0].1, FieldType::Integer));
    assert!(matches!(d.type_mismatches[0].2, FieldType::Float));
}

#[test]
fn optional_fields_missing_on_one_side_are_not_reported() {
    let mut inf = SchemaInferrer::new();
    feed(&mut inf, Target::A, 100, |i| {
        if i % 10 == 0 { obj(vec![("id", num("1")), ("note", s("n"))]) } else { obj(vec![("id", num("1"))]) }
    });
    feed(&mut inf, Target::B, 100, |_| obj(vec![("id", num("1"))]));
    assert!(inf.diff("GET /orders/:id").is_none());
}

#[test]
fn identical_schemas_do_not_diverge() {
    let mut inf = SchemaInferrer::new();
    feed(&mut inf, Target::A, 50, |_| obj(vec![("id", num("1"))]));
    feed(&mut inf, Target::B, 50, |_| obj(vec![("id", num("2"))]));
    assert!(inf.diff("GET /orders/:id").is_none());
    assert!(inf.diff("GET /unknown").is_none());
}

#[test]
fn arrays_take_the_type_of_their_first_non_null_element() {
    match infer_type(&JsonValue::Array(vec![JsonValue::Null, num("1")])) {
        FieldType::Array(e) => assert!(matches!(*e, FieldType::Integer)),
        _ => panic!("expected an array type"),
    }
    match infer_type(&JsonValue::Array(vec![JsonValue::Null, JsonValue::Null])) {
        FieldType::Array(e) => assert!(matches!(*e, FieldType::Null)),
        _ => panic!("expected an array type"),
    }
}

#[test]
fn reports_fields_that_became_optional() {
    let mut inf = SchemaInferrer::new();
    feed(&mut inf, Target::A, 100, |_| obj(vec![("id", num("1")), ("email", s("e"))]));
    feed(&mut inf, Target::B, 100, |i| {
        if i % 2 == 0 { obj(vec![("id", num("1")), ("email", s("e"))]) } else { obj(vec![("id", num("1"))]) }
    });
    let d = inf.diff("GET /orders/:id").unwrap();
    assert!(d.fields_only_a.is_empty());
    assert!(d.fields_only_b.is_empty());
    assert!(d.type_mismatches.is_empty());
    assert_eq!(d.requirement_changes, vec!["email".to_string()]);
}

#[test]
fn a_repeated_member_name_makes_one_field() {
    let mut inf = SchemaInferrer::new();
    inf.observe("GET /x", Target::A, &obj(vec![("id", num("1")), ("id", s("x"))]));
    let e = inf.schemas.iter().find(|e| e.endpoint == "GET /x" && e.target == Target::A).unwrap();
    assert_eq!(e.fields.len(), 1);
    assert!(matches!(e.fields[0].1.field_type, FieldType::Integer));
}

#[test]
fn identical_samples_make_every_field_required() {
    let mut inf = SchemaInferrer::new();
    for _ in 0..7 {
        inf.observe("GET /x", Target::B, &obj(vec![("id", num("1")), ("tags", JsonValue::Array(vec![])), ("n", JsonValue::Null)]));
    }
    let e = inf.schemas.iter().find(|e| e.endpoint == "GET /x" && e.target == Target::B).unwrap();
    assert_eq!(e.fields.len(), 3);
    for (_, f) in e.fields.iter() {
        assert_eq!((f.seen_count, f.total_count), (7, 7));
        assert!(f.is_required());
    }
    let names: Vec<&str> = e.fields.iter().map(|(k, _)| k.as_str()).collect();
    assert_eq!(names, vec!["id", "tags", "n"]);
    assert!(matches!(e.fields[0].1.field_type, FieldType::Integer) && !e.fields[0].1.nullable);
    assert!(matches!(e.fields[1].1.field_type, FieldType::Array(_)) && !e.fields[1].1.nullable);
    assert!(matches!(e.fields[2].1.field_type, FieldType::Null) && e.fields[2].1.nullable);
}
