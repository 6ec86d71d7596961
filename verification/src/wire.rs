//! The metadata files as bytes, by `postcard`.
//!
//! `postcard` writes a struct as its fields one after another, so the files are
//! written and read here as tuples of plain values. An enum without fields is its
//! variant's number, written as `u32`.

use vstd::prelude::*;

verus! {

/// A run: its number, its hardware boot, the boot clock at its start.
pub type WireRun = (u32, u32, u64);

/// A hardware boot: its number, the kernel's identifier, the anchor, the number of
/// the anchor's source, the boot clock when the anchor was taken.
pub type WireBoot = (u32, [u8; 16], Option<i64>, Option<u32>, Option<u64>);

/// What `postcard::to_allocvec` makes of a store's metadata.
pub uninterp spec fn store_meta_bytes(container_version: u8, store_id: u64) -> Seq<u8>;

/// What `postcard::from_bytes` reads as a store's metadata.
pub uninterp spec fn store_meta_of(bytes: Seq<u8>) -> Option<(u8, u64)>;

/// What `postcard::to_allocvec` makes of a namespace's metadata.
pub uninterp spec fn ns_meta_bytes(schema_name: Seq<char>, version: u16) -> Seq<u8>;

/// What `postcard::from_bytes` reads as a namespace's metadata.
pub uninterp spec fn ns_meta_of(bytes: Seq<u8>) -> Option<(Seq<char>, u16)>;

/// What `postcard::to_allocvec` makes of the epochs.
pub uninterp spec fn epochs_bytes(runs: Seq<WireRun>, boots: Seq<WireBoot>) -> Seq<u8>;

/// What `postcard::from_bytes` reads as epochs.
pub uninterp spec fn epochs_of(bytes: Seq<u8>) -> Option<(Seq<WireRun>, Seq<WireBoot>)>;

/// `postcard::to_allocvec` of a byte and a number. It does not fail on these, and
/// what it wrote reads back.
#[verifier::external_body]
pub(crate) fn encode_store_meta(container_version: u8, store_id: u64) -> (r: Option<Vec<u8>>)
    ensures
        r is Some,
        r->0@ == store_meta_bytes(container_version, store_id),
        store_meta_of(r->0@) == Some((container_version, store_id)),
{
    postcard::to_allocvec(&(container_version, store_id)).ok()
}

/// `postcard::from_bytes` into a byte and a number.
#[verifier::external_body]
pub(crate) fn decode_store_meta(bytes: &[u8]) -> (r: Option<(u8, u64)>)
    ensures
        r == store_meta_of(bytes@),
{
    postcard::from_bytes(bytes).ok()
}

/// `postcard::to_allocvec` of a text and a number. It does not fail on these, and
/// what it wrote reads back.
#[verifier::external_body]
pub(crate) fn encode_ns_meta(schema_name: &str, version: u16) -> (r: Option<Vec<u8>>)
    ensures
        r is Some,
        r->0@ == ns_meta_bytes(schema_name@, version),
        ns_meta_of(r->0@) == Some((schema_name@, version)),
{
    postcard::to_allocvec(&(schema_name, version)).ok()
}

/// `postcard::from_bytes` into a text and a number.
#[verifier::external_body]
pub(crate) fn decode_ns_meta(bytes: &[u8]) -> (r: Option<(String, u16)>)
    ensures
        match r {
            Some((name, version)) => ns_meta_of(bytes@) == Some((name@, version)),
            None => ns_meta_of(bytes@) is None,
        },
{
    postcard::from_bytes(bytes).ok()
}

/// `postcard::to_allocvec` of runs and boots. It does not fail on these, and what
/// it wrote reads back.
#[verifier::external_body]
pub(crate) fn encode_epochs(runs: &Vec<WireRun>, boots: &Vec<WireBoot>) -> (r: Option<Vec<u8>>)
    ensures
        r is Some,
        r->0@ == epochs_bytes(runs@, boots@),
        epochs_of(r->0@) == Some((runs@, boots@)),
{
    postcard::to_allocvec(&(runs, boots)).ok()
}

/// `postcard::from_bytes` into runs and boots.
#[verifier::external_body]
pub(crate) fn decode_epochs(bytes: &[u8]) -> (r: Option<(Vec<WireRun>, Vec<WireBoot>)>)
    ensures
        match r {
            Some((runs, boots)) => epochs_of(bytes@) == Some((runs@, boots@)),
            None => epochs_of(bytes@) is None,
        },
{
    postcard::from_bytes(bytes).ok()
}

} // verus!
