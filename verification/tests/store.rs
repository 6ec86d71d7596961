//! The store's settings, metadata and names.

use dduroc_engine::channel::{ChannelConfig, ChannelOverride, Interval};
use dduroc_engine::clock::boottime_us;
use dduroc_engine::epochs::{EpochStore, Epochs, SyncSource, Utc};
use dduroc_engine::error::Error;
use dduroc_engine::format::{
    BootCounter, BootTime, Compression, EventId, Level, Micros, ProtocolVersion,
};
use dduroc_engine::fsutil::join;
use dduroc_engine::schema::{EventDesc, Language, Schema, StorageClass};
use dduroc_engine::staged::NsId;
use dduroc_engine::store::{
    check_lock, Lock,
    check_opening, in_group, is_plausible_utc, media_of, mix, next_span_id, wants_compaction,
    GroupPolicy, NsQuota, OpenNames, OpeningFault, PerClass, StoreConfig, StoreMeta, EMPTY_PREFIX,
    FNV_OFFSET, LOW_CEILING, SECOND_PREFIX, SLOW_CRITICAL, SLOW_CRITICAL_GROUP, SMALL_QUOTA,
};
use dduroc_engine::store_core::{note_boot, our_names, record_sync, StoreCore};

fn utc_ms(ms: i64) -> Utc {
    Utc { micros: ms * 1_000 }
}

fn config() -> StoreConfig {
    StoreConfig::new("/tmp/nowhere".to_owned())
}

#[test]
fn a_longer_prefix_refines_the_shorter_one_and_the_namespace_beats_them_all() {
    let cfg = config()
        .group(
            "orc-".to_owned(),
            GroupPolicy::new()
                .channel(
                    StorageClass::Default,
                    ChannelOverride::new().segment_bytes(2 << 20),
                )
                .limit_bytes(StorageClass::Default, 100 << 20),
        )
        .group(
            "orc-radio-".to_owned(),
            GroupPolicy::new().channel(
                StorageClass::Default,
                ChannelOverride::new().segment_bytes(1 << 20),
            ),
        );

    let seg = |ns| cfg.config_for(Some(ns), StorageClass::Default).segment_bytes;
    assert_eq!(seg("orc-radio-0"), 1 << 20, "the longer prefix wins");
    assert_eq!(seg("orc-power-0"), 2 << 20);
    assert_eq!(seg("diag-0"), 8 << 20, "an outsider gets the class's shared settings");
    assert_eq!(
        cfg.config_for(None, StorageClass::Default).segment_bytes,
        8 << 20,
        "with no name the groups are not consulted at all"
    );

    assert_eq!(
        cfg.group_quota("orc-radio-0", StorageClass::Default),
        Some(100 << 20),
        "refining the segment size does not remove the general group's quota"
    );
    assert_eq!(cfg.group_quota("orc-power-0", StorageClass::Default), Some(100 << 20));
    assert_eq!(cfg.group_quota("diag-0", StorageClass::Default), None);

    // Declared the other way round, the answer is the same.
    let refining = config()
        .group(
            "orc-radio-".to_owned(),
            GroupPolicy::new().channel(
                StorageClass::Telemetry,
                ChannelOverride::new().segment_bytes(1 << 20),
            ),
        )
        .group(
            "orc-".to_owned(),
            GroupPolicy::new().channel(
                StorageClass::Telemetry,
                ChannelOverride::new()
                    .segment_bytes(2 << 20)
                    .compression(Compression::Plain),
            ),
        );
    assert_eq!(refining.policies_for("orc-radio-0"), vec![1, 0]);
    let refined = refining.config_for(Some("orc-radio-0"), StorageClass::Telemetry);
    assert_eq!(refined.segment_bytes, 1 << 20, "its own is its own");
    assert_eq!(
        refined.compression,
        Compression::Plain,
        "what the refinement does not mention comes from the general group"
    );
}

#[test]
fn the_class_keeps_its_budget_and_its_medium_whatever_a_group_says() {
    let vault = "/tmp/vault".to_owned();
    let cfg = config()
        .channel(
            StorageClass::Default,
            ChannelConfig { custom_root: Some(vault.clone()), ..ChannelConfig::new(32 << 20) },
        )
        .group(
            "orc-".to_owned(),
            GroupPolicy::new().channel(
                StorageClass::Default,
                ChannelOverride::new()
                    .segment_bytes(2 << 20)
                    .compression(Compression::Plain),
            ),
        );

    let grouped = cfg.config_for(Some("orc-0"), StorageClass::Default);
    assert_eq!(grouped.segment_bytes, 2 << 20, "its own is its own");
    assert_eq!(grouped.compression, Compression::Plain);
    assert_eq!(grouped.budget_bytes, 32 << 20, "the budget stayed the class's");
    assert_eq!(grouped.custom_root, Some(vault), "and so did the medium");
}

#[test]
fn a_group_is_refused_for_what_a_class_would_be_refused_for() {
    let base = || config().with_budget_per_class(64 << 20);

    let e = base()
        .group(
            "orc-".to_owned(),
            GroupPolicy::new().channel(
                StorageClass::Default,
                ChannelOverride::new().segment_bytes(60 << 20),
            ),
        )
        .validate()
        .unwrap_err();
    assert!(matches!(e, Error::BadGroup { .. }), "{e:?}");

    let e = base()
        .group(
            "orc-".to_owned(),
            GroupPolicy::new().channel(
                StorageClass::Critical,
                ChannelOverride::new().sync_interval(Interval::from_secs(5)),
            ),
        )
        .validate()
        .unwrap_err();
    assert!(
        matches!(&e, Error::BadGroup { reason, .. } if *reason == SLOW_CRITICAL_GROUP),
        "{e:?}"
    );

    assert!(base().group("orc/".to_owned(), GroupPolicy::new()).validate().is_err());
    let e = base().group(String::new(), GroupPolicy::new()).validate().unwrap_err();
    assert!(matches!(&e, Error::BadGroup { reason, .. } if *reason == EMPTY_PREFIX), "{e:?}");

    let e = base()
        .group("orc-".to_owned(), GroupPolicy::new())
        .group("orc-".to_owned(), GroupPolicy::new())
        .validate()
        .unwrap_err();
    assert!(
        matches!(&e, Error::BadGroup { prefix, reason } if prefix == "orc-" && *reason == SECOND_PREFIX),
        "{e:?}"
    );

    base()
        .group(
            "orc-".to_owned(),
            GroupPolicy::new()
                .channel(
                    StorageClass::Default,
                    ChannelOverride::new().segment_bytes(2 << 20),
                )
                .limit_bytes(StorageClass::Telemetry, 64 << 20),
        )
        .validate()
        .expect("a sound group policy");

    let e = base()
        .group(
            "orc-".to_owned(),
            GroupPolicy::new().limit_bytes(StorageClass::Default, 4 << 20),
        )
        .validate()
        .unwrap_err();
    assert!(matches!(&e, Error::BadGroup { reason, .. } if *reason == SMALL_QUOTA), "{e:?}");
}

#[test]
fn settings_of_the_store_itself_are_checked() {
    config().validate().expect("the defaults are sound");

    let e = config()
        .channel(StorageClass::Critical, ChannelConfig::new(64 << 20))
        .validate()
        .unwrap_err();
    assert!(
        matches!(
            e,
            Error::BadChannel { class: StorageClass::Critical, namespace: None, reason }
                if reason == SLOW_CRITICAL
        ),
        "{e:?}"
    );

    // What a class gets when nothing is set for it is checked too.
    let e = config().with_budget_per_class(9 << 20).validate().unwrap_err();
    assert!(matches!(e, Error::BadChannel { class: StorageClass::Default, .. }), "{e:?}");

    // A ceiling holds at least four of the largest blocks.
    config().with_buffer_ceiling(4 * 64 * 1024).validate().unwrap();
    let e = config().with_buffer_ceiling(4 * 64 * 1024 - 1).validate().unwrap_err();
    assert!(
        matches!(e, Error::BadStore { setting: "buffer_ceiling_bytes", reason } if reason == LOW_CEILING),
        "{e:?}"
    );
    let e = config()
        .with_buffer_ceiling(4 * 64 * 1024)
        .group(
            "big-".to_owned(),
            GroupPolicy::new().channel(
                StorageClass::Default,
                ChannelOverride::new().block_max_bytes(128 * 1024),
            ),
        )
        .validate()
        .unwrap_err();
    assert!(matches!(e, Error::BadStore { .. }), "{e:?}");
}

#[test]
fn groups_are_prefixes() {
    assert!(in_group("orc-", "orc-radio-0"));
    assert!(in_group("orc-", "orc-"));
    assert!(!in_group("orc-", "or"));
    assert!(!in_group("orc-", "xorc-"));
}

// -- metadata ----------------------------------------------------------------

const CURRENT: u8 = 3;

#[test]
fn store_id_is_stable_across_reopen() {
    let first = StoreMeta::open(None, CURRENT, 77, "/r/store-meta").unwrap();
    assert_eq!(first.meta.store_id, 77);
    assert_eq!(first.upgraded_from, None);
    let file = first.write.unwrap();
    let second = StoreMeta::open(Some(&file), CURRENT, 1234, "/r/store-meta").unwrap();
    assert_eq!(second.meta.store_id, 77, "the identity is read, not made up again");
    assert!(second.write.is_none());
}

#[test]
fn older_container_version_is_upgraded_not_fatal() {
    let old = StoreMeta { container_version: 1, store_id: 99 };
    let file = old.encode().unwrap();
    let upgraded = StoreMeta::open(Some(&file), CURRENT, 5, "/r/store-meta").unwrap();
    assert_eq!(upgraded.upgraded_from, Some(1), "coming up is announced");
    assert_eq!(upgraded.meta.store_id, 99, "the store identity must be preserved");
    assert_eq!(upgraded.meta.container_version, CURRENT);
    let file = upgraded.write.expect("the file is rewritten");
    let again = StoreMeta::open(Some(&file), CURRENT, 5, "/r/store-meta").unwrap();
    assert_eq!(again.upgraded_from, None, "the second time there is nothing to announce");
    assert_eq!(again.meta, upgraded.meta);
}

#[test]
fn future_container_version_is_refused() {
    let future = StoreMeta { container_version: CURRENT + 1, store_id: 7 };
    let file = future.encode().unwrap();
    let err = StoreMeta::open(Some(&file), CURRENT, 5, "/r/store-meta").unwrap_err();
    match err {
        Error::Corrupt { path, reason } => {
            assert_eq!(path, "/r/store-meta");
            assert_eq!(
                reason,
                "container version 4 is newer than the supported one (3): this build cannot parse a layout from the future"
            );
        }
        other => panic!("got {other:?}"),
    }
    assert!(matches!(
        StoreMeta::open(Some(&Vec::new()), CURRENT, 5, "/r/store-meta"),
        Err(Error::Corrupt { .. })
    ));
}

#[test]
fn the_metadata_file_is_a_byte_and_a_number() {
    let meta = StoreMeta { container_version: 2, store_id: 300 };
    assert_eq!(meta.encode().unwrap(), vec![2, 0xac, 0x02]);
}

#[test]
fn different_stores_get_different_ids() {
    assert_eq!(mix(FNV_OFFSET, b""), 0xcbf2_9ce4_8422_2325);
    assert_eq!(mix(FNV_OFFSET, b"a"), 0xaf74_d84c_8601_ec8c);
    assert_eq!(mix(FNV_OFFSET, b"foobar"), 0xf8ac_2471_f739_67e8);
    assert_eq!(mix(mix(FNV_OFFSET, b"foo"), b"bar"), mix(FNV_OFFSET, b"foobar"));
    assert_ne!(mix(FNV_OFFSET, b"device-1"), mix(FNV_OFFSET, b"device-2"));
}

#[test]
fn boot_counter_advances_between_runs() {
    let a = EpochStore::register(Epochs::default(), [1; 16], 10, None);
    assert_eq!(a.current_run().boot_counter, 0);
    let file = a.epochs().encode();
    let b = EpochStore::register(EpochStore::open_read_only(file.as_ref()), [1; 16], 20, None);
    assert_eq!(b.current_run().boot_counter, 1);
}

#[test]
fn a_lost_epochs_file_never_renumbers_over_existing_segments() {
    let mut live = Vec::new();
    for boot in [3u32, 0, 7, 3] {
        note_boot(&mut live, boot);
    }
    assert_eq!(live, vec![0, 3, 7]);
    let s = EpochStore::register(Epochs::default(), [1; 16], 10, live.last().copied());
    assert_eq!(s.current_run().boot_counter, 8, "past the last run on the names of segments");
}

#[test]
fn epoch_cleanup_keeps_runs_that_still_have_segments() {
    let mut s = EpochStore::register(Epochs::default(), [1; 16], 10, None);
    assert!(record_sync(&mut s, utc_ms(1_700_000_000_000), SyncSource::Gps, boottime_us()));
    for base in [20, 30, 40] {
        s = EpochStore::register(s.epochs, [1; 16], base, None);
    }
    assert_eq!(s.epochs().runs().len(), 4);
    assert!(s.retain_runs(&vec![0]));
    assert_eq!(
        s.epochs().runs().iter().map(|r| r.boot_counter).collect::<Vec<_>>(),
        vec![0, 3],
        "the run with segments and the current one"
    );
    assert!(
        s.epochs().to_utc(BootTime::from_raw(0, 0)).is_some(),
        "the cleanup has no right to deprive live data of its absolute time"
    );
    assert!(!s.retain_runs(&vec![0]));
    assert!(!wants_compaction(1024) && wants_compaction(1025));
}

#[test]
fn implausible_utc_is_refused() {
    let mut s = EpochStore::register(Epochs::default(), [1; 16], 1_000, None);
    let now = 5_000_000u64;
    assert!(!record_sync(&mut s, Utc { micros: 0 }, SyncSource::Gps, now), "a zero time");
    assert!(!record_sync(&mut s, utc_ms(-1), SyncSource::Gps, now), "a negative time");
    assert!(
        !record_sync(&mut s, Utc { micros: 8_210_266_876_799_999_999 }, SyncSource::Gps, now),
        "a time beyond the sensible"
    );
    assert!(
        record_sync(&mut s, utc_ms(1_700_000_000_000), SyncSource::Ntp, now),
        "a plausible time is accepted"
    );
    assert!(!record_sync(&mut s, utc_ms(1_800_000_000_000), SyncSource::User, now));
    assert!(record_sync(&mut s, utc_ms(1_800_000_000_000), SyncSource::Gps, now));

    let at = BootTime::new(BootCounter(0), Micros(now - 1_000));
    let utc = s.epochs().to_utc(at).expect("there is an anchor");
    assert!(
        (1_800_000_000_000..1_800_000_001_000).contains(&utc.timestamp_millis()),
        "close to the synchronization point: {utc:?}"
    );
}

#[test]
fn span_ids_never_zero() {
    let mut c = u32::MAX - 1;
    let a = next_span_id(&mut c);
    let b = next_span_id(&mut c);
    let wrapped = next_span_id(&mut c);
    assert_ne!(a.0, 0);
    assert_ne!(b.0, 0);
    assert_ne!(wrapped.0, 0, "zero must not be handed out after an overflow");
    assert_eq!((a.0, b.0, wrapped.0), (u32::MAX - 1, u32::MAX, 1));
    assert_eq!(next_span_id(&mut c).0, 2, "numbering goes on behind the one it started over with");
}

#[test]
fn plausible_range() {
    assert!(!is_plausible_utc(utc_ms(0)));
    assert!(!is_plausible_utc(utc_ms(999_999_999_999)));
    assert!(is_plausible_utc(utc_ms(1_700_000_000_000)));
    assert!(!is_plausible_utc(utc_ms(4_102_444_800_000)));
    assert!(is_plausible_utc(utc_ms(1_000_000_000_000)));
    assert!(is_plausible_utc(Utc { micros: 4_102_444_799_999_999 }));
}

// -- media, names, namespaces ------------------------------------------------

#[test]
fn classes_on_one_medium_share_its_key() {
    let own = |s: &str| s.to_owned();
    let keys = media_of(&own("/data"), &vec![own("/vault"), own("/data"), own("/vault")]);
    assert_eq!(keys[1], 0);
    assert_eq!(keys[0], keys[2]);
    assert_ne!(keys[0], 0);
    let keys = media_of(&own("/data"), &vec![own("/a"), own("/b"), own("/data")]);
    assert!(keys[0] != keys[1] && keys[0] != 0 && keys[1] != 0 && keys[2] == 0);
}

#[test]
fn classes_are_laid_out_by_their_roots() {
    let cfg = config()
        .channel(
            StorageClass::Critical,
            ChannelConfig {
                custom_root: Some("/vault".to_owned()),
                ..ChannelConfig::critical(16 << 20)
            },
        )
        .with_budget_per_class(32 << 20);
    let canonical = PerClass {
        critical: "/mnt/vault".to_owned(),
        ordinary: "/tmp/nowhere".to_owned(),
        telemetry: "/tmp/nowhere".to_owned(),
    };
    let l = cfg.lay_out(&"/tmp/nowhere".to_owned(), &canonical);
    assert_eq!(l.roots.critical, "/vault");
    assert_eq!(l.roots.ordinary, "/tmp/nowhere");
    assert_eq!(l.scan_roots, vec!["/tmp/nowhere".to_owned(), "/vault".to_owned()]);
    assert_eq!(
        l.groups.iter().map(|g| g.budget_bytes).collect::<Vec<_>>(),
        vec![16 << 20, 32 << 20, 32 << 20]
    );
    assert_eq!(l.groups[1].root_key, 0);
    assert_eq!(l.groups[2].root_key, 0);
    assert_ne!(l.groups[0].root_key, 0);
}

#[test]
fn a_medium_is_walked_once_however_many_classes_lie_on_it() {
    let on = |class: StorageClass, root: &str, c: StoreConfig| {
        let base = match class {
            StorageClass::Critical => ChannelConfig::critical(16 << 20),
            _ => ChannelConfig::new(16 << 20),
        };
        c.channel(class, ChannelConfig { custom_root: Some(root.to_owned()), ..base })
    };
    let cfg = on(StorageClass::Telemetry, "/b", on(StorageClass::Default, "/a", config()));
    let canonical = |telemetry: &str| PerClass {
        critical: "/tmp/nowhere".to_owned(),
        ordinary: "/mnt/a".to_owned(),
        telemetry: telemetry.to_owned(),
    };
    let main = "/tmp/nowhere".to_owned();
    assert_eq!(cfg.lay_out(&main, &canonical("/mnt/a")).scan_roots, vec!["/tmp/nowhere", "/a"]);
    assert_eq!(
        cfg.lay_out(&main, &canonical("/mnt/b")).scan_roots,
        vec!["/tmp/nowhere", "/a", "/b"]
    );
    assert_eq!(
        cfg.lay_out(&main, &canonical("/tmp/nowhere")).scan_roots,
        vec!["/tmp/nowhere", "/a"]
    );
}

#[test]
fn a_second_opening_goes_on_where_the_first_stopped() {
    let first = StoreMeta::open(None, CURRENT, 77, "/r/store-meta").unwrap();
    let opening = EpochStore::load_for_write(None);
    let run = EpochStore::open_and_register(opening, [1; 16], 1_000, None);
    let file = run.epochs().encode().unwrap();

    let meta = first.write.unwrap();
    let second = StoreMeta::open(Some(&meta), CURRENT, 78, "/r/store-meta").unwrap();
    assert_eq!(second.meta, first.meta);
    assert_eq!(second.upgraded_from, None);
    assert!(second.write.is_none());
    let opening = EpochStore::load_for_write(Some(&file));
    assert!(!opening.lost);
    let next = EpochStore::open_and_register(opening, [1; 16], 2_000, Some(500));
    assert_eq!(next.current_run().boot_counter, run.current_run().boot_counter + 1);
    assert_eq!(next.current_run().hw_boot_id, run.current_run().hw_boot_id);
}

#[test]
fn a_walk_enters_only_names_the_store_gives() {
    let names = ["orc-0", "lost+found", ".lock", "default", "x.tmp", "диск"]
        .iter()
        .map(|s| s.to_string())
        .collect();
    assert_eq!(our_names(names), vec!["orc-0".to_owned(), "default".to_owned()]);
}

static LANGS: &[Language] = &[Language("en")];
static EVENTS: &[EventDesc] = &[EventDesc {
    id: EventId(1),
    name: "Tick",
    level: Level::Info,
    class: StorageClass::Critical,
    tags: &[],
    templates: &["tick"],
    fields: &[],
}];

fn schema() -> Schema {
    Schema {
        name: "radio",
        version: ProtocolVersion(1),
        languages: LANGS,
        events: EVENTS,
        metrics: &[],
        spans: &[],
        migrations: &[],
    }
}

fn store_with(cfg: StoreConfig) -> StoreCore {
    let root = || "/data".to_owned();
    StoreCore::new(
        cfg,
        StoreMeta { container_version: CURRENT, store_id: 42 },
        PerClass { critical: "/vault".to_owned(), ordinary: root(), telemetry: root() },
        BootCounter(6),
    )
}

#[test]
fn a_name_is_open_once_and_free_after_a_failure() {
    let mut s = store_with(config());
    s.begin_namespace("orc-0", &schema()).unwrap();
    assert_eq!(
        s.begin_namespace("orc-0", &schema()),
        Err(OpeningFault::Busy),
        "the name is taken"
    );
    s.confirm("orc-0", NsId(3));
    s.abandon("orc-0");
    s.begin_namespace("orc-0", &schema()).expect("the name is free again");

    // Damaged metadata is a failure, and the name does not stay taken.
    let damaged = vec![0xff, 0xff];
    let e = s.open_meta("orc-0", &schema(), Some(&damaged), "/data/orc-0/ns-meta").unwrap_err();
    assert!(matches!(e, Error::Corrupt { .. }), "{e:?}");
    s.begin_namespace("orc-0", &schema()).expect("freed by the failure");

    // So is a quota that no segment fits.
    let quota = NsQuota::new().limit_bytes(StorageClass::Critical, 1 << 20);
    let e = s.plan_namespace("orc-0", &schema(), &quota).unwrap_err();
    assert!(
        matches!(
            &e,
            Error::BadChannel { class: StorageClass::Critical, namespace: Some(n), reason }
                if n == "orc-0" && *reason == SMALL_QUOTA
        ),
        "{e:?}"
    );
    s.begin_namespace("orc-0", &schema()).expect("freed again");
}

#[test]
fn objections_to_a_namespace_come_in_order() {
    assert!(matches!(
        check_opening("a/b", &Schema { name: "", ..schema() }, true),
        Err(OpeningFault::BadName(_))
    ));
    assert!(matches!(
        check_opening("ab", &Schema { name: "", ..schema() }, true),
        Err(OpeningFault::BadSchema(_))
    ));
    assert_eq!(check_opening("ab", &schema(), true), Err(OpeningFault::Busy));
    assert_eq!(check_opening("ab", &schema(), false), Ok(()));
}

#[test]
fn channels_are_planned_by_class() {
    let cfg = config().group(
        "orc-".to_owned(),
        GroupPolicy::new()
            .limit_bytes(StorageClass::Critical, 20 << 20)
            .limit_bytes(StorageClass::Default, 30 << 20),
    );
    let mut s = store_with(cfg);
    s.begin_namespace("orc-0", &schema()).unwrap();
    let own = NsQuota::new().limit_bytes(StorageClass::Default, 40 << 20);
    let setup = s.plan_namespace("orc-0", &schema(), &own).unwrap();
    assert_eq!(setup.name, "orc-0");
    assert_eq!(setup.store_id, 42);
    assert_eq!(setup.boot, BootCounter(6));
    assert_eq!(setup.channels.len(), 2);
    assert_eq!(setup.channels[0].dir, "/vault/orc-0/critical");
    assert_eq!(setup.channels[0].group, 0);
    assert_eq!(setup.channels[0].quota_bytes, Some(20 << 20), "from the group");
    assert_eq!(setup.channels[1].dir, "/data/orc-0/default");
    assert_eq!(setup.channels[1].group, 1);
    assert_eq!(setup.channels[1].quota_bytes, Some(40 << 20), "its own beats the group's");
    assert_eq!(s.next_span().0, 1);
    assert_eq!(s.next_span().0, 2);
}

#[test]
fn a_channel_directory_is_joined_to_its_root() {
    assert_eq!(join("/data", "orc-0"), "/data/orc-0");
    assert_eq!(join("/data/", "orc-0"), "/data/orc-0");
    assert_eq!(join("", "orc-0"), "orc-0", "an empty root is the working directory");
    assert_eq!(join("/", "orc-0"), "/orc-0");
}

#[test]
fn a_store_is_opened_by_one_at_a_time() {
    assert!(check_lock("/data", Lock::Acquired).is_ok());
    match check_lock("/data", Lock::Held) {
        Err(Error::StoreBusy(root)) => assert_eq!(root, "/data"),
        other => panic!("another opening holds the lock: {other:?}"),
    }
    let failure = Error::Io { context: "locking /data".to_owned(), os_code: Some(5) };
    match check_lock("/data", Lock::Failed(failure)) {
        Err(Error::Io { context, os_code: Some(5) }) => assert_eq!(context, "locking /data"),
        other => panic!("the failure goes up as it is: {other:?}"),
    }
}

#[test]
fn names_are_kept_apart() {
    let mut names = OpenNames::new();
    assert!(names.reserve("a"));
    assert!(names.reserve("b"));
    assert!(!names.reserve("a"));
    names.confirm("b", NsId(1));
    names.free("a");
    assert!(!names.is_taken("a") && names.is_taken("b"));
    names.free("a");
    assert!(names.reserve("a"));
}
