//! The sizes of what travels through the queues: they are allocated whole when a
//! store is opened, and nothing else would show that a record grew.

use dduroc_engine::staged::{OwnedValue, Payload, Staged, StagedRecord, INLINE_PAYLOAD};

#[test]
fn hot_path_structs_do_not_grow_unnoticed() {
    let staged = std::mem::size_of::<Staged>();
    let record = std::mem::size_of::<StagedRecord>();
    let value = std::mem::size_of::<OwnedValue>();
    let payload = std::mem::size_of::<Payload>();

    assert!(
        staged <= 72,
        "Staged grew to {staged} bytes: the default queues got dearer by {} KB",
        staged.saturating_sub(72) * 9216 / 1024
    );
    assert!(record <= 56, "StagedRecord = {record}");
    assert!(value <= 48, "OwnedValue = {value}");
    assert!(
        payload > INLINE_PAYLOAD,
        "Payload = {payload}, inline capacity = {INLINE_PAYLOAD}"
    );
    assert!(
        record >= payload,
        "StagedRecord ({record}) is smaller than Payload ({payload})"
    );
}
