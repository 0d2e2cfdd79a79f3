use sample_project::auth::Claims;
use sample_project::errors::ServiceError;
use sample_project::ids::Id;
use sample_project::models::{NewSample, UpdateSample};
use sample_project::schema::{
    parse_update_sample, Config, Context, Mutation, PatchField, PatchValue, Query,
};

const T0: u64 = 1577836800;

fn id(s: &str) -> Id {
    Id::new(s.as_bytes().to_vec())
}

fn config(disable_auth: bool) -> Config {
    Config {
        cache_capacity: 100,
        cache_ttl: 60,
        disable_auth,
        required_domain: "gmail.com".to_string(),
    }
}

fn new_sample(
    sid: Option<&str>,
    name: &str,
    description: Option<&str>,
    available: Option<i32>,
    expiration: Option<i32>,
) -> NewSample {
    NewSample {
        id: sid.map(id),
        name: name.to_string(),
        description: description.map(|d| d.to_string()),
        available_date: available,
        expiration_date: expiration,
    }
}

fn no_patch() -> UpdateSample {
    UpdateSample { name: None, description: None, available_date: None, expiration_date: None }
}

fn seeded(disable_auth: bool) -> Context {
    let mut ctx = Context::new(config(true), None);
    Mutation::create_sample(
        &mut ctx,
        new_sample(Some("$oid:5f192d9900e0306000d188e1"), "Sample 1", Some("untouched words"), None, None),
        None,
        T0 - 30,
    )
    .unwrap();
    ctx.config.disable_auth = disable_auth;
    ctx
}

#[test]
fn create_sample() {
    let mut ctx = seeded(true);
    let created = Mutation::create_sample(
        &mut ctx,
        new_sample(
            Some("$oid:5f5be6b800ca625d0066cf3e"),
            "Brand New Name",
            Some("Brand New Description"),
            Some(1),
            Some(2147483647),
        ),
        Some(id("actor-7")),
        T0 + 10000,
    )
    .unwrap();
    assert_eq!(created.name, "Brand New Name");
    assert_eq!(created.description.as_deref(), Some("Brand New Description"));
    assert_eq!(created.date_created(), T0 + 10000);
    assert_eq!(created.date_modified(), T0 + 10000);
    assert!(created.created_by().unwrap().same_as(&id("actor-7")));
    assert!(created.updated_by().is_none());
    assert_eq!(created.available_date(), Some(1));
    assert_eq!(created.expiration_date(), Some(2147483647));
    assert!(created.values().is_empty());

    // it shows in the list; newest creation stamp comes first
    let conn = Query::all_samples(&mut ctx, Some(5), None, None, None, T0 + 10001).unwrap();
    assert_eq!(conn.total_count, 2);
    assert_eq!(conn.items[0].name, "Brand New Name");
}

#[test]
fn create_generates_an_identifier_when_none_is_given() {
    let mut ctx = seeded(true);
    let created =
        Mutation::create_sample(&mut ctx, new_sample(None, "Anonymous", None, None, None), None, T0)
            .unwrap();
    assert!(!created.id().bytes().is_empty());
    let refetched = Query::sample_by_id(&ctx, created.id()).unwrap();
    assert_eq!(refetched.name, "Anonymous");
}

#[test]
fn create_existing_sample() {
    let mut ctx = seeded(true);
    let r = Mutation::create_sample(
        &mut ctx,
        new_sample(
            Some("$oid:5f192d9900e0306000d188e1"),
            "Brand New Name",
            Some("Brand New Description"),
            Some(1),
            Some(2147483647),
        ),
        None,
        T0 + 10000,
    );
    assert_eq!(r.err(), Some(ServiceError::DuplicateKey));
    // the existing document is unmodified
    let s = Query::sample_by_id(&ctx, &id("$oid:5f192d9900e0306000d188e1")).unwrap();
    assert_eq!(s.name, "Sample 1");
    assert_eq!(s.date_modified(), T0 - 30);
}

#[test]
fn update_existing_sample() {
    let mut ctx = seeded(true);
    let patch = UpdateSample {
        name: Some("New Name".to_string()),
        description: Some("New Description".to_string()),
        available_date: None,
        expiration_date: None,
    };
    let updated = Mutation::update_sample(
        &mut ctx,
        &id("$oid:5f192d9900e0306000d188e1"),
        patch,
        Some(id("actor-9")),
        T0 + 10000,
    )
    .unwrap();
    assert_eq!(updated.name, "New Name");
    assert_eq!(updated.description.as_deref(), Some("New Description"));
    // only the patched fields changed; the audit trail moved
    assert_eq!(updated.date_created(), T0 - 30);
    assert_eq!(updated.date_modified(), T0 + 10000);
    assert!(updated.updated_by().unwrap().same_as(&id("actor-9")));
    assert_eq!(updated.available_date(), Some((T0 - 30) as i64));
}

#[test]
fn update_patch_leaves_absent_fields_alone() {
    let mut ctx = seeded(true);
    let patch = UpdateSample {
        name: Some("Only The Name".to_string()),
        description: None,
        available_date: None,
        expiration_date: None,
    };
    let updated =
        Mutation::update_sample(&mut ctx, &id("$oid:5f192d9900e0306000d188e1"), patch, None, T0)
            .unwrap();
    assert_eq!(updated.name, "Only The Name");
    assert_eq!(updated.description.as_deref(), Some("untouched words"));
}

#[test]
fn update_non_existent_sample() {
    let mut ctx = seeded(true);
    let r = Mutation::update_sample(&mut ctx, &id("$oid:NO_OBJECT"), no_patch(), None, T0);
    assert_eq!(r.err(), Some(ServiceError::NotFound));
}

#[test]
fn bad_update() {
    // a wire patch with an unrecognized field name fails validation
    // before any mutation is applied, all or nothing
    let mut ctx = seeded(true);
    let fields = vec![
        PatchField {
            name: "thisFieldDoesNotExist".to_string(),
            value: PatchValue::Text("something".to_string()),
        },
        PatchField { name: "name".to_string(), value: PatchValue::Text("New Name".to_string()) },
        PatchField {
            name: "description".to_string(),
            value: PatchValue::Text("New Description".to_string()),
        },
    ];
    let parsed = parse_update_sample(&fields);
    assert_eq!(parsed.err(), Some(ServiceError::ValidationError));
    // nothing ran against the store: name and description are unchanged
    let s = Query::sample_by_id(&ctx, &id("$oid:5f192d9900e0306000d188e1")).unwrap();
    assert_eq!(s.name, "Sample 1");
    assert_eq!(s.description.as_deref(), Some("untouched words"));
}

#[test]
fn good_wire_patch_parses_into_the_typed_update() {
    let fields = vec![
        PatchField { name: "name".to_string(), value: PatchValue::Text("New Name".to_string()) },
        PatchField { name: "availableDate".to_string(), value: PatchValue::Number(1234) },
    ];
    let parsed = parse_update_sample(&fields).unwrap();
    assert_eq!(parsed.name.as_deref(), Some("New Name"));
    assert_eq!(parsed.description, None);
    assert_eq!(parsed.available_date, Some(1234));
    assert_eq!(parsed.expiration_date, None);
}

#[test]
fn wire_patch_rejects_out_of_range_dates() {
    let fields = vec![
        PatchField { name: "availableDate".to_string(), value: PatchValue::Number(1 << 40) },
    ];
    assert_eq!(parse_update_sample(&fields).err(), Some(ServiceError::ValidationError));
}

#[test]
fn delete_existing_sample() {
    let mut ctx = seeded(true);
    let d = Mutation::delete_sample(&mut ctx, &id("$oid:5f192d9900e0306000d188e1"), T0).unwrap();
    assert!(d.success);
    assert!(d.id.same_as(&id("$oid:5f192d9900e0306000d188e1")));
    let conn = Query::all_samples(&mut ctx, Some(5), None, None, None, T0).unwrap();
    assert_eq!(conn.total_count, 0);
}

#[test]
fn delete_missing_sample_is_not_an_error() {
    let mut ctx = seeded(true);
    let d = Mutation::delete_sample(&mut ctx, &id("$oid:NOOBJECT"), T0).unwrap();
    assert!(!d.success);
    // nothing changed
    let conn = Query::all_samples(&mut ctx, Some(5), None, None, None, T0).unwrap();
    assert_eq!(conn.total_count, 1);
}

#[test]
fn unauthorized_mutation_writes_nothing() {
    // bypass disabled and no claims: every mutation fails closed
    let mut ctx = seeded(false);
    let r = Mutation::create_sample(
        &mut ctx,
        new_sample(Some("new-id"), "Never", None, None, None),
        None,
        T0,
    );
    assert_eq!(r.err(), Some(ServiceError::Unauthorized));
    assert_eq!(
        Query::sample_by_id(&ctx, &id("new-id")).err(),
        Some(ServiceError::NotFound)
    );

    let r = Mutation::delete_sample(&mut ctx, &id("$oid:5f192d9900e0306000d188e1"), T0);
    assert_eq!(r.err(), Some(ServiceError::Unauthorized));
    assert!(Query::sample_by_id(&ctx, &id("$oid:5f192d9900e0306000d188e1")).is_ok());
}

#[test]
fn mismatched_claims_fail_closed() {
    let mut ctx = seeded(false);
    ctx.claims = Some(Claims { domain: Some("elsewhere.example".to_string()) });
    let r = Mutation::update_sample(
        &mut ctx,
        &id("$oid:5f192d9900e0306000d188e1"),
        no_patch(),
        None,
        T0,
    );
    assert_eq!(r.err(), Some(ServiceError::Unauthorized));

    ctx.claims = Some(Claims { domain: None });
    let r = Mutation::delete_sample(&mut ctx, &id("$oid:5f192d9900e0306000d188e1"), T0);
    assert_eq!(r.err(), Some(ServiceError::Unauthorized));
}

#[test]
fn matching_claims_are_authorized() {
    let mut ctx = seeded(false);
    ctx.claims = Some(Claims { domain: Some("gmail.com".to_string()) });
    let d = Mutation::delete_sample(&mut ctx, &id("$oid:5f192d9900e0306000d188e1"), T0).unwrap();
    assert!(d.success);
}

#[test]
fn queries_are_public() {
    // read operations are never gated, even with auth enforced
    let mut ctx = seeded(false);
    let conn = Query::all_samples(&mut ctx, Some(5), None, None, None, T0).unwrap();
    assert_eq!(conn.total_count, 1);
}
