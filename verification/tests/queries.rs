use sample_project::ids::Id;
use sample_project::models::{NewSample, Status};
use sample_project::schema::{Config, Context, Mutation, Query};

const T0: u64 = 1577836800;

fn id(s: &str) -> Id {
    Id::new(s.as_bytes().to_vec())
}

fn config(cache_ttl: u64) -> Config {
    Config {
        cache_capacity: 100,
        cache_ttl,
        disable_auth: true,
        required_domain: "gmail.com".to_string(),
    }
}

fn new_sample(
    sid: Option<&str>,
    name: &str,
    description: Option<&str>,
    available: Option<i32>,
    expiration: Option<i32>,
) -> NewSample {
    NewSample {
        id: sid.map(id),
        name: name.to_string(),
        description: description.map(|d| d.to_string()),
        available_date: available,
        expiration_date: expiration,
    }
}

/// Three documents, created in turn so that the sort order (creation
/// stamp descending) is Sample 3, Sample 2, Sample 1. At `T0`,
/// Sample 1 is active, Sample 2 pending, Sample 3 expired.
fn seeded_context(cache_ttl: u64) -> Context {
    let mut ctx = Context::new(config(cache_ttl), None);
    Mutation::create_sample(
        &mut ctx,
        new_sample(
            Some("$oid:5f192d9900e0306000d188e1"),
            "Sample 1",
            Some("the first one"),
            Some((T0 - 100) as i32),
            Some((T0 + 100) as i32),
        ),
        None,
        T0 - 30,
    )
    .unwrap();
    Mutation::create_sample(
        &mut ctx,
        new_sample(
            Some("$oid:5f192d9900e0306000d188e2"),
            "Sample 2",
            None,
            Some((T0 + 50) as i32),
            None,
        ),
        None,
        T0 - 20,
    )
    .unwrap();
    Mutation::create_sample(
        &mut ctx,
        new_sample(
            Some("$oid:5f192d9900e0306000d188e3"),
            "Sample 3",
            Some("long gone"),
            Some((T0 - 500) as i32),
            Some((T0 - 5) as i32),
        ),
        None,
        T0 - 10,
    )
    .unwrap();
    ctx
}

fn names(conn: &sample_project::pagination::SampleConnection) -> Vec<String> {
    conn.items.iter().map(|s| s.name.clone()).collect()
}

#[test]
fn all_samples() {
    let mut ctx = seeded_context(60);
    let conn = Query::all_samples(&mut ctx, Some(5), None, None, None, T0).unwrap();
    assert_eq!(conn.total_count, 3);
    assert_eq!(names(&conn), vec!["Sample 3", "Sample 2", "Sample 1"]);
    assert!(!conn.page_info.has_next_page);
    assert!(!conn.page_info.has_previous_page);
    assert_eq!(conn.edges.len(), conn.items.len());
}

#[test]
fn expired_samples() {
    let mut ctx = seeded_context(60);
    let conn =
        Query::samples_by_status(&mut ctx, Some(Status::Expired), Some(5), None, None, None, T0)
            .unwrap();
    assert_eq!(names(&conn), vec!["Sample 3"]);
    assert_eq!(conn.total_count, 1);
}

#[test]
fn pending_samples() {
    let mut ctx = seeded_context(60);
    let conn =
        Query::samples_by_status(&mut ctx, Some(Status::Pending), Some(5), None, None, None, T0)
            .unwrap();
    assert_eq!(names(&conn), vec!["Sample 2"]);
}

#[test]
fn active_samples() {
    let mut ctx = seeded_context(60);
    let conn =
        Query::samples_by_status(&mut ctx, Some(Status::Active), Some(5), None, None, None, T0)
            .unwrap();
    assert_eq!(names(&conn), vec!["Sample 1"]);
}

#[test]
fn all_samples_with_status() {
    let mut ctx = seeded_context(60);
    let conn = Query::samples_by_status(&mut ctx, Some(Status::All), Some(5), None, None, None, T0)
        .unwrap();
    assert_eq!(conn.total_count, 3);
    assert_eq!(names(&conn), vec!["Sample 3", "Sample 2", "Sample 1"]);
}

#[test]
fn sample_by_id_existing() {
    let ctx = seeded_context(60);
    let s = Query::sample_by_id(&ctx, &id("$oid:5f192d9900e0306000d188e1")).unwrap();
    assert_eq!(s.name, "Sample 1");
    assert_eq!(s.description.as_deref(), Some("the first one"));
}

#[test]
fn sample_by_non_existent() {
    let ctx = seeded_context(60);
    let r = Query::sample_by_id(&ctx, &id("$oid:NOOBJECT"));
    assert_eq!(r.err(), Some(sample_project::errors::ServiceError::NotFound));
}

#[test]
fn sample_by_names() {
    let mut ctx = seeded_context(60);
    let names_arg = vec!["Sample 1".to_string(), "Sample 3".to_string()];
    let conn = Query::sample_by_names(&mut ctx, names_arg, None, T0).unwrap();
    assert_eq!(names(&conn), vec!["Sample 3", "Sample 1"]);
    assert_eq!(conn.total_count, 2);
}

#[test]
fn sample_by_names_missing() {
    let mut ctx = seeded_context(60);
    let names_arg = vec!["Sample 1".to_string(), "Sample 3".to_string(), "Nope".to_string()];
    let conn = Query::sample_by_names(&mut ctx, names_arg, None, T0).unwrap();
    assert_eq!(conn.total_count, 2);
}

#[test]
fn sample_by_names_with_status() {
    let mut ctx = seeded_context(60);
    let names_arg = vec!["Sample 1".to_string(), "Sample 3".to_string()];
    let conn =
        Query::sample_by_names(&mut ctx, names_arg, Some(Status::Active), T0).unwrap();
    assert_eq!(names(&conn), vec!["Sample 1"]);
}

#[test]
fn search_samples_in_name_and_description() {
    let mut ctx = seeded_context(60);
    let conn = Query::search_samples(
        &mut ctx,
        "Sample".to_string(),
        vec!["name".to_string()],
        Some(5),
        None,
        None,
        None,
        T0,
    )
    .unwrap();
    assert_eq!(conn.total_count, 3);

    let conn = Query::search_samples(
        &mut ctx,
        "first".to_string(),
        vec!["description".to_string()],
        Some(5),
        None,
        None,
        None,
        T0,
    )
    .unwrap();
    assert_eq!(names(&conn), vec!["Sample 1"]);

    let conn = Query::search_samples(
        &mut ctx,
        "Sample".to_string(),
        vec!["bogus".to_string()],
        Some(5),
        None,
        None,
        None,
        T0,
    )
    .unwrap();
    assert_eq!(conn.total_count, 0);
}

#[test]
fn active_window_closes_after_expiry_and_cache_ttl() {
    // create a sample available from 1577836700 to 1577836900 and query
    // its status window before and after the expiration
    let mut ctx = Context::new(config(60), None);
    Mutation::create_sample(
        &mut ctx,
        new_sample(Some("S1"), "Windowed", None, Some(1577836700), Some(1577836900)),
        None,
        1577836650,
    )
    .unwrap();
    let t_active: u64 = 1577836800;
    let conn =
        Query::samples_by_status(&mut ctx, Some(Status::Active), Some(5), None, None, None, t_active)
            .unwrap();
    assert_eq!(names(&conn), vec!["Windowed"]);
    // once now has passed the expiration date and the cache entry has
    // expired, the same query no longer returns the sample
    let t_late: u64 = t_active + 161;
    assert!(t_late > 1577836900);
    let conn =
        Query::samples_by_status(&mut ctx, Some(Status::Active), Some(5), None, None, None, t_late)
            .unwrap();
    assert_eq!(conn.total_count, 0);
}
