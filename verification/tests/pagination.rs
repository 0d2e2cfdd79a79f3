use sample_project::ids::Id;
use sample_project::models::NewSample;
use sample_project::pagination::{decode_cursor, encode_cursor, Cursor};
use sample_project::schema::{Config, Context, Mutation, Query};

const T0: u64 = 1577836800;

fn id(s: &str) -> Id {
    Id::new(s.as_bytes().to_vec())
}

fn seeded(n: u64) -> Context {
    let config = Config {
        cache_capacity: 0,  // pagination tests read the store directly
        cache_ttl: 0,
        disable_auth: true,
        required_domain: "gmail.com".to_string(),
    };
    let mut ctx = Context::new(config, None);
    for k in 0..n {
        Mutation::create_sample(
            &mut ctx,
            NewSample {
                id: Some(id(&format!("doc-{}", k))),
                name: format!("Name {}", k),
                description: None,
                available_date: None,
                expiration_date: None,
            },
            None,
            T0 + k,
        )
        .unwrap();
    }
    ctx
}

fn names(conn: &sample_project::pagination::SampleConnection) -> Vec<String> {
    conn.items.iter().map(|s| s.name.clone()).collect()
}

/// The fixed order is creation stamp descending: the latest creation
/// comes first.
#[test]
fn newest_first() {
    let mut ctx = seeded(3);
    let conn = Query::all_samples(&mut ctx, None, None, None, None, T0).unwrap();
    assert_eq!(names(&conn), vec!["Name 2", "Name 1", "Name 0"]);
}

/// Ties on the creation stamp break by identifier ascending.
#[test]
fn ties_break_by_identifier() {
    let config = Config {
        cache_capacity: 0,
        cache_ttl: 0,
        disable_auth: true,
        required_domain: "gmail.com".to_string(),
    };
    let mut ctx = Context::new(config, None);
    for sid in ["b", "a", "c"] {
        Mutation::create_sample(
            &mut ctx,
            NewSample {
                id: Some(id(sid)),
                name: sid.to_string(),
                description: None,
                available_date: None,
                expiration_date: None,
            },
            None,
            T0,
        )
        .unwrap();
    }
    let conn = Query::all_samples(&mut ctx, None, None, None, None, T0).unwrap();
    assert_eq!(names(&conn), vec!["a", "b", "c"]);
}

/// Concatenating successive `after`-cursor pages of a fixed size
/// reconstructs the whole ordered set, without duplicates or gaps.
#[test]
fn after_pages_reconstruct_the_set() {
    let mut ctx = seeded(5);
    let mut collected: Vec<String> = Vec::new();
    let mut cursor: Option<Vec<u8>> = None;
    let mut rounds = 0;
    loop {
        let conn =
            Query::all_samples(&mut ctx, Some(2), cursor.clone(), None, None, T0).unwrap();
        assert_eq!(conn.total_count, 5);
        if conn.items.is_empty() {
            break;
        }
        collected.extend(names(&conn).into_iter());
        cursor = conn.page_info.next_cursor.clone();
        assert!(cursor.is_some());
        rounds += 1;
        assert!(rounds <= 3);
    }
    assert_eq!(collected, vec!["Name 4", "Name 3", "Name 2", "Name 1", "Name 0"]);
}

#[test]
fn page_flags_and_cursors() {
    let mut ctx = seeded(5);
    let first = Query::all_samples(&mut ctx, Some(2), None, None, None, T0).unwrap();
    assert_eq!(first.items.len(), 2);
    assert!(first.page_info.has_next_page);
    assert!(!first.page_info.has_previous_page);
    assert_eq!(first.total_count, 5);

    let second = Query::all_samples(
        &mut ctx,
        Some(2),
        first.page_info.next_cursor.clone(),
        None,
        None,
        T0,
    )
    .unwrap();
    assert_eq!(names(&second), vec!["Name 2", "Name 1"]);
    assert!(second.page_info.has_next_page);
    assert!(second.page_info.has_previous_page);

    let third = Query::all_samples(
        &mut ctx,
        Some(2),
        second.page_info.next_cursor.clone(),
        None,
        None,
        T0,
    )
    .unwrap();
    assert_eq!(names(&third), vec!["Name 0"]);
    assert!(!third.page_info.has_next_page);
    assert!(third.page_info.has_previous_page);
}

/// `skip` is an offset, applied within the cursor-bounded window.
#[test]
fn skip_applies_within_the_cursor_window() {
    let mut ctx = seeded(5);
    let skipped = Query::all_samples(&mut ctx, Some(2), None, None, Some(2), T0).unwrap();
    assert_eq!(names(&skipped), vec!["Name 2", "Name 1"]);
    assert!(skipped.page_info.has_previous_page);

    let first = Query::all_samples(&mut ctx, Some(2), None, None, None, T0).unwrap();
    let windowed = Query::all_samples(
        &mut ctx,
        Some(2),
        first.page_info.next_cursor.clone(),
        None,
        Some(1),
        T0,
    )
    .unwrap();
    // after the first page of two, skipping one more starts at the fourth
    assert_eq!(names(&windowed), vec!["Name 1", "Name 0"]);
}

#[test]
fn before_cursor_bounds_the_window() {
    let mut ctx = seeded(5);
    let first = Query::all_samples(&mut ctx, None, None, None, None, T0).unwrap();
    // the cursor of the third item; everything strictly before it
    let boundary = Some(first.edges[2].cursor.clone());
    let conn = Query::all_samples(&mut ctx, None, None, boundary, None, T0).unwrap();
    assert_eq!(names(&conn), vec!["Name 4", "Name 3"]);
    assert!(conn.page_info.has_next_page);
}

/// A cursor whose item has been deleted still lands on the boundary it
/// encoded: the page picks up right after that position.
#[test]
fn reusing_a_cursor_after_a_delete_yields_the_boundary_page() {
    let mut ctx = seeded(5);
    let first = Query::all_samples(&mut ctx, Some(2), None, None, None, T0).unwrap();
    let cursor = first.page_info.next_cursor.clone();
    // the second item ("Name 3") is the cursor's item; delete it
    Mutation::delete_sample(&mut ctx, &id("doc-3"), T0 + 100).unwrap();
    let conn = Query::all_samples(&mut ctx, Some(2), cursor, None, None, T0 + 101).unwrap();
    assert_eq!(names(&conn), vec!["Name 2", "Name 1"]);
    assert_eq!(conn.total_count, 4);
}

/// An argument that does not decode to a cursor bounds nothing.
#[test]
fn garbage_cursors_are_ignored() {
    let mut ctx = seeded(3);
    let conn = Query::all_samples(
        &mut ctx,
        None,
        Some(b"not a cursor".to_vec()),
        None,
        None,
        T0,
    )
    .unwrap();
    assert_eq!(conn.total_count, 3);
    assert_eq!(conn.items.len(), 3);
}

#[test]
fn cursor_encoding_round_trips() {
    let c = Cursor { created: 1577836800, id: id("$oid:5f192d9900e0306000d188e1") };
    let encoded = encode_cursor(&c);
    let decoded = decode_cursor(&encoded).unwrap();
    assert_eq!(decoded.created, 1577836800);
    assert!(decoded.id.same_as(&c.id));
}

#[test]
fn cursor_decoding_rejects_malformed_input() {
    assert!(decode_cursor(b"").is_none());
    assert!(decode_cursor(b"123").is_none());
    assert!(decode_cursor(b"01:x").is_none());
    assert!(decode_cursor(b"abc:x").is_none());
    // identifiers may themselves contain the separator
    let c = Cursor { created: 7, id: id("a:b:c") };
    let decoded = decode_cursor(&encode_cursor(&c)).unwrap();
    assert!(decoded.id.same_as(&c.id));
}

#[test]
fn total_count_is_independent_of_the_page_bounds() {
    let mut ctx = seeded(5);
    let conn = Query::all_samples(&mut ctx, Some(1), None, None, Some(3), T0).unwrap();
    assert_eq!(conn.items.len(), 1);
    assert_eq!(conn.total_count, 5);
}

#[test]
fn empty_store_pages_are_empty() {
    let mut ctx = seeded(0);
    let conn = Query::all_samples(&mut ctx, Some(2), None, None, None, T0).unwrap();
    assert_eq!(conn.total_count, 0);
    assert!(conn.items.is_empty());
    assert!(conn.page_info.start_cursor.is_none());
    assert!(conn.page_info.next_cursor.is_none());
    assert!(!conn.page_info.has_next_page);
    assert!(!conn.page_info.has_previous_page);
}
