use hdk_crud::{
    get_latest_for_entry, latest_version, EntryHistory, FetchedVersion, Identity, LatestSource,
    LatestVersion, VersionAction, WireElement,
};

fn id(b: u8) -> Identity {
    Identity { bytes: vec![b; 4] }
}

#[test]
fn lib_it_works() {
    assert_eq!(2 + 2, 4);
}

#[test]
fn a_record_never_updated_is_its_first_version() {
    let history = EntryHistory { live: true, created_at: 1_000, update_times: vec![] };
    let v = latest_version(&history).unwrap();
    assert_eq!(v.source, LatestSource::FirstVersion);
    assert_eq!(v.created_at, 1_000);
    assert_eq!(v.updated_at, v.created_at);
}

#[test]
fn the_update_written_last_wins() {
    let history = EntryHistory {
        live: true,
        created_at: 10,
        update_times: vec![30, 50, 20, 40],
    };
    let v = latest_version(&history).unwrap();
    assert_eq!(v, LatestVersion { source: LatestSource::Update(1), created_at: 10, updated_at: 50 });
}

#[test]
fn of_updates_written_at_once_the_last_listed_wins() {
    let history = EntryHistory { live: true, created_at: 10, update_times: vec![50, 20, 50, 30] };
    let v = latest_version(&history).unwrap();
    assert_eq!(v.source, LatestSource::Update(2));
    assert_eq!(v.updated_at, 50);
}

#[test]
fn a_deleted_record_has_no_latest_version() {
    let history = EntryHistory { live: false, created_at: 10, update_times: vec![20] };
    assert_eq!(latest_version(&history), None);
}

#[test]
fn a_record_keeps_the_identity_of_its_creation() {
    let version = LatestVersion { source: LatestSource::Update(0), created_at: 10, updated_at: 70 };
    let fetched = FetchedVersion {
        entry: Some("second".to_string()),
        action: VersionAction::Update { creation: id(1) },
        entry_hash: id(9),
    };
    assert_eq!(
        get_latest_for_entry(version, Some(fetched)),
        Some(WireElement {
            action_hash: id(1),
            entry_hash: id(9),
            entry: "second".to_string(),
            created_at: 10,
            updated_at: 70,
        })
    );
    let version = LatestVersion { source: LatestSource::FirstVersion, created_at: 10, updated_at: 10 };
    let fetched = FetchedVersion {
        entry: Some(5u32),
        action: VersionAction::Create { address: id(2) },
        entry_hash: id(3),
    };
    let w = get_latest_for_entry(version, Some(fetched)).unwrap();
    assert_eq!(w.action_hash, id(2));
    assert_eq!(w.created_at, w.updated_at);
}

#[test]
fn an_unreadable_version_resolves_to_nothing() {
    let version = LatestVersion { source: LatestSource::FirstVersion, created_at: 1, updated_at: 1 };
    let mismatched: FetchedVersion<u32> = FetchedVersion {
        entry: None,
        action: VersionAction::Create { address: id(2) },
        entry_hash: id(3),
    };
    assert_eq!(get_latest_for_entry(version, Some(mismatched)), None);
    assert_eq!(get_latest_for_entry::<u32>(version, None), None);
}
