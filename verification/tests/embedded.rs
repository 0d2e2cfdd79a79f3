use sample_project::errors::ServiceError;
use sample_project::ids::Id;
use sample_project::models::{EmbeddedType, NewEmbedded, NewSample, UpdateEmbedded};
use sample_project::schema::{
    parse_update_embedded, Config, Context, Mutation, PatchField, PatchValue,
};

const T0: u64 = 1577836800;
const PARENT: &str = "$oid:5f192d9900e0306000d188e1";
const SEED_VALUE: &str = "44514a55-2abd-4388-8f77-b96b0b25fc30";

fn id(s: &str) -> Id {
    Id::new(s.as_bytes().to_vec())
}

fn seeded() -> Context {
    let config = Config {
        cache_capacity: 100,
        cache_ttl: 60,
        disable_auth: true,
        required_domain: "gmail.com".to_string(),
    };
    let mut ctx = Context::new(config, None);
    Mutation::create_sample(
        &mut ctx,
        NewSample {
            id: Some(id(PARENT)),
            name: "Sample 1".to_string(),
            description: None,
            available_date: None,
            expiration_date: None,
        },
        None,
        T0 - 30,
    )
    .unwrap();
    Mutation::add_values_to_sample(
        &mut ctx,
        &id(PARENT),
        vec![NewEmbedded { id: Some(id(SEED_VALUE)), embedded_type: EmbeddedType::One, value: Some(10) }],
        None,
        T0 - 20,
    )
    .unwrap();
    ctx
}

fn value_ids(s: &sample_project::models::Sample) -> Vec<Vec<u8>> {
    s.values.iter().map(|v| v.id.bytes().clone()).collect()
}

#[test]
fn add_values_to_sample() {
    let mut ctx = seeded();
    let parent = Mutation::add_values_to_sample(
        &mut ctx,
        &id(PARENT),
        vec![
            NewEmbedded { id: Some(id("12345")), embedded_type: EmbeddedType::One, value: Some(1) },
            NewEmbedded { id: Some(id("12346")), embedded_type: EmbeddedType::Another, value: None },
        ],
        Some(id("actor-3")),
        T0 + 10000,
    )
    .unwrap();
    assert_eq!(parent.values.len(), 3);
    // the batch was appended in order, with the supplied identifiers
    assert_eq!(parent.values[1].id.bytes(), &b"12345".to_vec());
    assert_eq!(parent.values[2].id.bytes(), &b"12346".to_vec());
    assert_eq!(parent.values[1].embedded_type(), EmbeddedType::One);
    assert_eq!(parent.values[2].embedded_type(), EmbeddedType::Another);
    assert_eq!(parent.values[1].value(), 1);
    assert_eq!(parent.values[2].value(), 0);
    // each appended value is stamped; the parent's modification moved
    assert_eq!(parent.values[1].date_created(), T0 + 10000);
    assert_eq!(parent.date_modified(), T0 + 10000);
    assert_eq!(parent.date_created(), T0 - 30);
}

#[test]
fn add_values_to_missing_sample() {
    let mut ctx = seeded();
    let r = Mutation::add_values_to_sample(
        &mut ctx,
        &id("$oid:NOOBJECT"),
        vec![NewEmbedded { id: Some(id("12345")), embedded_type: EmbeddedType::One, value: Some(1) }],
        None,
        T0,
    );
    assert_eq!(r.err(), Some(ServiceError::NotFound));
}

#[test]
fn add_values_rejects_a_duplicate_identifier() {
    let mut ctx = seeded();
    let r = Mutation::add_values_to_sample(
        &mut ctx,
        &id(PARENT),
        vec![NewEmbedded { id: Some(id(SEED_VALUE)), embedded_type: EmbeddedType::One, value: None }],
        None,
        T0,
    );
    assert_eq!(r.err(), Some(ServiceError::DuplicateKey));
    // all or nothing: the parent still has exactly its seed value
    let s = sample_project::schema::Query::sample_by_id(&ctx, &id(PARENT)).unwrap();
    assert_eq!(s.values.len(), 1);
}

#[test]
fn embedded_round_trip_with_generated_identifiers() {
    let mut ctx = seeded();
    // adding two items without ids yields two items with distinct
    // generated ids
    let parent = Mutation::add_values_to_sample(
        &mut ctx,
        &id(PARENT),
        vec![
            NewEmbedded { id: None, embedded_type: EmbeddedType::One, value: Some(7) },
            NewEmbedded { id: None, embedded_type: EmbeddedType::Another, value: Some(8) },
        ],
        None,
        T0,
    )
    .unwrap();
    assert_eq!(parent.values.len(), 3);
    let ids = value_ids(&parent);
    assert_ne!(ids[1], ids[2]);
    assert_ne!(ids[0], ids[1]);
    assert_ne!(ids[0], ids[2]);

    // updating one by id changes only the patched fields
    let first_generated = Id::new(ids[1].clone());
    let patch = UpdateEmbedded { embedded_type: None, value: Some(70) };
    let parent = Mutation::update_value_for_sample(
        &mut ctx,
        &id(PARENT),
        &first_generated,
        patch,
        None,
        T0 + 1,
    )
    .unwrap();
    assert_eq!(parent.values[1].value(), 70);
    assert_eq!(parent.values[1].embedded_type(), EmbeddedType::One);
    assert_eq!(parent.values[2].value(), 8);
    assert_eq!(parent.values[2].date_modified(), T0);

    // deleting one by id leaves exactly the other
    let d = Mutation::remove_value_from_sample(&mut ctx, &id(PARENT), &first_generated, T0 + 2)
        .unwrap();
    assert!(d.success);
    let s = sample_project::schema::Query::sample_by_id(&ctx, &id(PARENT)).unwrap();
    let remaining = value_ids(&s);
    assert_eq!(remaining.len(), 2);
    assert!(remaining.contains(&ids[0]));
    assert!(remaining.contains(&ids[2]));
    assert!(!remaining.contains(&ids[1]));
}

#[test]
fn update_value_for_sample_existing() {
    let mut ctx = seeded();
    let patch = UpdateEmbedded { embedded_type: Some(EmbeddedType::One), value: Some(123) };
    let parent = Mutation::update_value_for_sample(
        &mut ctx,
        &id(PARENT),
        &id(SEED_VALUE),
        patch,
        Some(id("actor-1")),
        T0 + 10000,
    )
    .unwrap();
    assert_eq!(parent.values.len(), 1);
    assert_eq!(parent.values[0].value(), 123);
    assert_eq!(parent.values[0].date_modified(), T0 + 10000);
    assert_eq!(parent.values[0].date_created(), T0 - 20);
    assert_eq!(parent.date_modified(), T0 + 10000);
}

#[test]
fn update_value_for_sample_non_existing() {
    let mut ctx = seeded();
    let patch = UpdateEmbedded { embedded_type: Some(EmbeddedType::One), value: Some(123) };
    let r = Mutation::update_value_for_sample(&mut ctx, &id(PARENT), &id("NO_ID"), patch, None, T0);
    assert_eq!(r.err(), Some(ServiceError::NotFound));
}

#[test]
fn remove_value_from_sample_existing() {
    let mut ctx = seeded();
    let d = Mutation::remove_value_from_sample(&mut ctx, &id(PARENT), &id(SEED_VALUE), T0).unwrap();
    assert!(d.success);
    assert!(d.id.same_as(&id(SEED_VALUE)));
    let s = sample_project::schema::Query::sample_by_id(&ctx, &id(PARENT)).unwrap();
    assert!(s.values.is_empty());
}

#[test]
fn remove_value_from_sample_non_existing() {
    let mut ctx = seeded();
    let d = Mutation::remove_value_from_sample(&mut ctx, &id(PARENT), &id("NO_ID"), T0).unwrap();
    assert!(!d.success);
    let s = sample_project::schema::Query::sample_by_id(&ctx, &id(PARENT)).unwrap();
    assert_eq!(s.values.len(), 1);
}

#[test]
fn remove_value_from_missing_sample_is_an_error() {
    let mut ctx = seeded();
    let r = Mutation::remove_value_from_sample(&mut ctx, &id("$oid:NOOBJECT"), &id(SEED_VALUE), T0);
    assert_eq!(r.err(), Some(ServiceError::NotFound));
}

#[test]
fn embedded_wire_patch_parses_and_validates() {
    let fields = vec![
        PatchField { name: "embeddedType".to_string(), value: PatchValue::Text("ONE".to_string()) },
        PatchField { name: "value".to_string(), value: PatchValue::Number(123) },
    ];
    let u = parse_update_embedded(&fields).unwrap();
    assert_eq!(u.embedded_type, Some(EmbeddedType::One));
    assert_eq!(u.value, Some(123));

    let bad = vec![PatchField {
        name: "noSuchField".to_string(),
        value: PatchValue::Number(1),
    }];
    assert_eq!(parse_update_embedded(&bad).err(), Some(ServiceError::ValidationError));

    let bad_kind = vec![PatchField {
        name: "embeddedType".to_string(),
        value: PatchValue::Text("NEITHER".to_string()),
    }];
    assert_eq!(parse_update_embedded(&bad_kind).err(), Some(ServiceError::ValidationError));
}
