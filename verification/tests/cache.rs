use sample_project::ids::Id;
use sample_project::models::NewSample;
use sample_project::schema::{Config, Context, Mutation, Query};

const T0: u64 = 1577836800;

fn id(s: &str) -> Id {
    Id::new(s.as_bytes().to_vec())
}

fn config(cache_capacity: usize, cache_ttl: u64) -> Config {
    Config {
        cache_capacity,
        cache_ttl,
        disable_auth: true,
        required_domain: "gmail.com".to_string(),
    }
}

fn new_sample(sid: &str, name: &str) -> NewSample {
    NewSample {
        id: Some(id(sid)),
        name: name.to_string(),
        description: None,
        available_date: None,
        expiration_date: None,
    }
}

fn seeded(cache_capacity: usize, cache_ttl: u64) -> Context {
    let mut ctx = Context::new(config(cache_capacity, cache_ttl), None);
    Mutation::create_sample(&mut ctx, new_sample("a", "Alpha"), None, T0 - 30).unwrap();
    Mutation::create_sample(&mut ctx, new_sample("b", "Beta"), None, T0 - 20).unwrap();
    ctx
}

fn names(conn: &sample_project::pagination::SampleConnection) -> Vec<String> {
    conn.items.iter().map(|s| s.name.clone()).collect()
}

#[test]
fn repeated_reads_within_ttl_are_stale() {
    let mut ctx = seeded(100, 60);
    let first = Query::all_samples(&mut ctx, Some(5), None, None, None, T0).unwrap();
    assert_eq!(first.total_count, 2);

    // the store changes in between: one document leaves, another's name changes
    Mutation::delete_sample(&mut ctx, &id("a"), T0 + 1).unwrap();
    let patch = sample_project::models::UpdateSample {
        name: Some("Renamed".to_string()),
        description: None,
        available_date: None,
        expiration_date: None,
    };
    Mutation::update_sample(&mut ctx, &id("b"), patch, None, T0 + 2).unwrap();

    // an equal argument tuple within ttl serves the stored result unchanged
    let second = Query::all_samples(&mut ctx, Some(5), None, None, None, T0 + 30).unwrap();
    assert_eq!(second.total_count, 2);
    assert_eq!(names(&second), names(&first));
    assert_eq!(second.page_info.has_next_page, first.page_info.has_next_page);
    assert_eq!(
        second.items[0].date_modified(),
        first.items[0].date_modified()
    );
}

#[test]
fn reads_after_ttl_see_the_current_state() {
    let mut ctx = seeded(100, 60);
    let first = Query::all_samples(&mut ctx, Some(5), None, None, None, T0).unwrap();
    assert_eq!(first.total_count, 2);
    Mutation::delete_sample(&mut ctx, &id("a"), T0 + 1).unwrap();

    // once ttl seconds have elapsed the entry no longer serves
    let second = Query::all_samples(&mut ctx, Some(5), None, None, None, T0 + 60).unwrap();
    assert_eq!(second.total_count, 1);
    assert_eq!(names(&second), vec!["Beta"]);
}

#[test]
fn distinct_argument_tuples_do_not_share_entries() {
    let mut ctx = seeded(100, 60);
    let five = Query::all_samples(&mut ctx, Some(5), None, None, None, T0).unwrap();
    assert_eq!(five.total_count, 2);
    Mutation::delete_sample(&mut ctx, &id("a"), T0 + 1).unwrap();
    // a different limit is a different key, so this read is a miss
    let one = Query::all_samples(&mut ctx, Some(1), None, None, None, T0 + 2).unwrap();
    assert_eq!(one.total_count, 1);
}

#[test]
fn zero_capacity_disables_caching() {
    let mut ctx = seeded(0, 60);
    let first = Query::all_samples(&mut ctx, Some(5), None, None, None, T0).unwrap();
    assert_eq!(first.total_count, 2);
    Mutation::delete_sample(&mut ctx, &id("a"), T0 + 1).unwrap();
    let second = Query::all_samples(&mut ctx, Some(5), None, None, None, T0 + 2).unwrap();
    assert_eq!(second.total_count, 1);
}

#[test]
fn zero_ttl_disables_caching() {
    let mut ctx = seeded(100, 0);
    let first = Query::all_samples(&mut ctx, Some(5), None, None, None, T0).unwrap();
    assert_eq!(first.total_count, 2);
    Mutation::delete_sample(&mut ctx, &id("a"), T0 + 1).unwrap();
    let second = Query::all_samples(&mut ctx, Some(5), None, None, None, T0 + 1).unwrap();
    assert_eq!(second.total_count, 1);
}

#[test]
fn identifier_reads_are_never_cached() {
    let mut ctx = seeded(100, 60);
    // warm nothing: sampleById always hits the store
    let s = Query::sample_by_id(&ctx, &id("b")).unwrap();
    assert_eq!(s.name, "Beta");
    let patch = sample_project::models::UpdateSample {
        name: Some("Renamed".to_string()),
        description: None,
        available_date: None,
        expiration_date: None,
    };
    Mutation::update_sample(&mut ctx, &id("b"), patch, None, T0 + 1).unwrap();
    let s = Query::sample_by_id(&ctx, &id("b")).unwrap();
    assert_eq!(s.name, "Renamed");
}
