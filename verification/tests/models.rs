use sample_project::errors::ServiceError;
use sample_project::ids::Id;
use sample_project::models::{Embedded, EmbeddedType, NodeDetails, Sample};

fn node(created: u64, modified: u64) -> NodeDetails {
    NodeDetails { date_created: created, date_modified: modified, created_by_id: None, updated_by_id: None }
}

fn value(id: &str, v: Option<i64>) -> Embedded {
    Embedded {
        id: Id::new(id.as_bytes().to_vec()),
        node: node(10, 10),
        embedded_type: EmbeddedType::One,
        value: v,
    }
}

fn sample(values: Vec<Embedded>, available: Option<i64>) -> Sample {
    Sample {
        id: Id::new(b"s1".to_vec()),
        node: node(100, 200),
        name: "Sample 1".to_string(),
        description: Some("words".to_string()),
        available_date: available,
        expiration_date: Some(500),
        values,
    }
}

#[test]
fn getters_read_the_fields() {
    let s = sample(vec![value("v1", Some(3))], Some(42));
    assert_eq!(s.id().bytes(), &b"s1".to_vec());
    assert_eq!(s.date_created(), 100);
    assert_eq!(s.date_modified(), 200);
    assert_eq!(s.name(), "Sample 1");
    assert_eq!(s.description().as_deref(), Some("words"));
    assert_eq!(s.available_date(), Some(42));
    assert_eq!(s.expiration_date(), Some(500));
    assert_eq!(s.values().len(), 1);
    assert_eq!(s.values()[0].embedded_type(), EmbeddedType::One);
    assert_eq!(s.values()[0].value(), 3);
    assert_eq!(s.values()[0].date_created(), 10);
}

#[test]
fn available_date_defaults_to_the_creation_stamp() {
    let s = sample(Vec::new(), None);
    assert_eq!(s.available_date(), Some(100));
}

#[test]
fn min_value_folds_left_skipping_zeros() {
    // a missing value reads as zero; zero never replaces a nonzero minimum
    let s = sample(
        vec![value("a", Some(5)), value("b", None), value("c", Some(3)), value("d", Some(7))],
        None,
    );
    assert_eq!(s.min_value(), 3);
}

#[test]
fn min_value_of_no_values_is_zero() {
    let s = sample(Vec::new(), None);
    assert_eq!(s.min_value(), 0);
}

#[test]
fn min_value_adopts_the_first_nonzero_value() {
    let s = sample(vec![value("a", None), value("b", Some(9))], None);
    assert_eq!(s.min_value(), 9);
}

#[test]
fn error_messages_name_each_failure() {
    assert_eq!(ServiceError::NotFound.message(), "not found");
    assert_eq!(ServiceError::ValidationError.message(), "validation error");
    assert_eq!(ServiceError::Unauthorized.message(), "unauthorized");
    assert_eq!(ServiceError::DuplicateKey.message(), "duplicate key");
    assert_eq!(ServiceError::StoreError.message(), "store error");
}
