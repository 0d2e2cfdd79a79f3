use sample_project::filters::check_status;
use sample_project::ids::Id;
use sample_project::models::{NodeDetails, Sample, Status};

const T: u64 = 1_000_000;

fn sample_with_dates(available: Option<i64>, expiration: Option<i64>) -> Sample {
    Sample {
        id: Id::new(b"s".to_vec()),
        node: NodeDetails {
            date_created: T - 1000,
            date_modified: T - 1000,
            created_by_id: None,
            updated_by_id: None,
        },
        name: "a sample".to_string(),
        description: None,
        available_date: available,
        expiration_date: expiration,
        values: Vec::new(),
    }
}

#[test]
fn window_is_active_between_the_dates() {
    let s = sample_with_dates(Some((T - 100) as i64), Some((T + 100) as i64));
    assert!(check_status(Status::Active, &s, T));
    assert!(check_status(Status::Available, &s, T));
    assert!(!check_status(Status::Expired, &s, T));
    assert!(!check_status(Status::Pending, &s, T));
    assert!(check_status(Status::All, &s, T));
}

#[test]
fn window_is_expired_after_the_expiration_date() {
    let s = sample_with_dates(Some((T - 100) as i64), Some((T + 100) as i64));
    let later = T + 200;
    assert!(check_status(Status::Expired, &s, later));
    assert!(!check_status(Status::Active, &s, later));
    assert!(check_status(Status::Available, &s, later));
}

#[test]
fn window_is_pending_before_the_available_date() {
    let s = sample_with_dates(Some((T + 50) as i64), None);
    assert!(check_status(Status::Pending, &s, T));
    assert!(!check_status(Status::Active, &s, T));
    assert!(!check_status(Status::Available, &s, T));
    assert!(!check_status(Status::Expired, &s, T));
}

#[test]
fn absent_dates_never_satisfy_a_comparison() {
    let s = sample_with_dates(None, None);
    assert!(!check_status(Status::Active, &s, T));
    assert!(!check_status(Status::Available, &s, T));
    assert!(!check_status(Status::Expired, &s, T));
    assert!(!check_status(Status::Pending, &s, T));
    assert!(check_status(Status::All, &s, T));
}

#[test]
fn boundaries_are_strict() {
    let s = sample_with_dates(Some(T as i64), Some((T + 100) as i64));
    // available_date == now is not strictly past
    assert!(!check_status(Status::Available, &s, T));
    assert!(!check_status(Status::Active, &s, T));
    let t2 = sample_with_dates(Some((T - 100) as i64), Some(T as i64));
    // expiration_date == now is neither past nor future
    assert!(!check_status(Status::Expired, &t2, T));
    assert!(!check_status(Status::Active, &t2, T));
}
