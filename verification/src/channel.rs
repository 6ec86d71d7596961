//! A channel: a storage class inside a namespace.
//!
//! Physically it is a directory of segments, logically a set of policies: the
//! size of a segment and of a block, compression and, above all, durability. The
//! budget belongs to a **class as a whole**: the channels of all namespaces of a
//! class draw on it, and the oldest segment of the class is evicted whoever's
//! namespace it lies in.

use crate::error::Error;
use crate::format::Compression;
use crate::schema::StorageClass;
use crate::text::{chars_of, has_prefix, has_suffix, same_text};
use vstd::prelude::*;

verus! {

/// A length of time in nanoseconds.
#[derive(Debug, Clone, Copy, PartialEq, Eq, Structural, PartialOrd, Ord, Hash)]
pub struct Interval {
    pub nanos: u64,
}

impl Interval {
    pub fn zero() -> (i: Interval)
        ensures
            i.nanos == 0,
    {
        Interval { nanos: 0 }
    }

    pub fn from_millis(millis: u32) -> (i: Interval)
        ensures
            i.nanos == millis * 1_000_000,
    {
        Interval { nanos: millis as u64 * 1_000_000 }
    }

    pub fn from_secs(secs: u32) -> (i: Interval)
        ensures
            i.nanos == secs * 1_000_000_000,
    {
        Interval { nanos: secs as u64 * 1_000_000_000 }
    }

    pub fn is_zero(&self) -> (yes: bool)
        ensures
            yes == (self.nanos == 0),
    {
        self.nanos == 0
    }
}

pub const BUDGET_TOO_SMALL: &'static str =
    "бюджет меньше двух сегментов — ротация съедала бы данные сразу";

pub const BLOCK_TOO_SMALL: &'static str =
    "слишком маленький блок: накладные расходы съедят экономию";

pub const BLOCK_TOO_LARGE: &'static str =
    "блок сопоставим с сегментом — сегмент не вместит и пары блоков";

/// The smallest block that is worth its header.
pub const MIN_BLOCK_BYTES: usize = 512;

/// The settings of a storage class: the policy of all its channels.
#[derive(Debug, PartialEq, Eq)]
pub struct ChannelConfig {
    /// The budget of the class over the whole store.
    pub budget_bytes: u64,
    /// The growth limit of one segment: the rotation boundary, not the size of
    /// the file at creation.
    pub segment_bytes: u64,
    /// The threshold at which a block is closed.
    pub block_max_bytes: usize,
    /// The longest delay before an incomplete block is flushed.
    pub flush_interval: Interval,
    /// Syncing happens no more often than this. Zero means a sync right after
    /// every group commit.
    pub sync_interval: Interval,
    pub compression: Compression,
    /// The class's own root. `None` means the shared root of the store.
    pub custom_root: Option<String>,
}

impl Clone for ChannelConfig {
    fn clone(&self) -> (c: ChannelConfig)
        ensures
            c == *self,
    {
        let custom_root: Option<String> = match &self.custom_root {
            Some(root) => Some(root.clone()),
            None => None,
        };
        ChannelConfig {
            budget_bytes: self.budget_bytes,
            segment_bytes: self.segment_bytes,
            block_max_bytes: self.block_max_bytes,
            flush_interval: self.flush_interval,
            sync_interval: self.sync_interval,
            compression: self.compression,
            custom_root,
        }
    }
}

impl ChannelConfig {
    /// The defaults for a class budget.
    pub fn new(budget_bytes: u64) -> (c: ChannelConfig)
        ensures
            c.budget_bytes == budget_bytes,
            c.segment_bytes == 8 * 1024 * 1024,
            c.block_max_bytes == 64 * 1024,
            c.flush_interval.nanos == 1_000_000_000,
            c.sync_interval.nanos == 10_000_000_000,
            c.compression is Lz4,
            c.custom_root is None,
    {
        ChannelConfig {
            budget_bytes,
            segment_bytes: 8 * 1024 * 1024,
            block_max_bytes: 64 * 1024,
            flush_interval: Interval::from_secs(1),
            sync_interval: Interval::from_secs(10),
            compression: Compression::Lz4,
            custom_root: None,
        }
    }

    /// A class of critical data: synced at once, not compressed.
    ///
    /// Compression would make a channel accumulate data for the sake of
    /// efficiency, and accumulating is exactly what a critical channel avoids.
    pub fn critical(budget_bytes: u64) -> (c: ChannelConfig)
        ensures
            c.budget_bytes == budget_bytes,
            c.segment_bytes == 4 * 1024 * 1024,
            c.block_max_bytes == 8 * 1024,
            c.flush_interval.nanos == 50_000_000,
            c.sync_interval.nanos == 0,
            c.compression is Plain,
            c.custom_root is None,
    {
        ChannelConfig {
            budget_bytes,
            segment_bytes: 4 * 1024 * 1024,
            block_max_bytes: 8 * 1024,
            flush_interval: Interval::from_millis(50),
            sync_interval: Interval::zero(),
            compression: Compression::Plain,
            custom_root: None,
        }
    }

    /// What is wrong with the settings, if anything.
    pub open spec fn fault(self) -> Option<&'static str> {
        if self.budget_bytes < 2 * self.segment_bytes {
            Some(BUDGET_TOO_SMALL)
        } else if self.block_max_bytes < MIN_BLOCK_BYTES {
            Some(BLOCK_TOO_SMALL)
        } else if 2 * self.block_max_bytes > self.segment_bytes {
            Some(BLOCK_TOO_LARGE)
        } else {
            None
        }
    }

    /// Checks the settings; `class` is whose channel an error is about.
    pub fn validate(&self, class: StorageClass) -> (r: Result<(), Error>)
        ensures
            match r {
                Ok(()) => self.fault() is None,
                Err(e) => self.fault() is Some && e == (Error::BadChannel {
                    class,
                    namespace: None,
                    reason: self.fault()->0,
                }),
            },
    {
        match self.check() {
            Ok(()) => Ok(()),
            Err(reason) => Err(Error::BadChannel { class, namespace: None, reason }),
        }
    }

    /// The same check with the reason alone: one and the same setting is refused
    /// both for a class and for a group of namespaces.
    pub fn check(&self) -> (r: Result<(), &'static str>)
        ensures
            match r {
                Ok(()) => self.fault() is None,
                Err(reason) => self.fault() == Some(reason),
            },
    {
        // A budget below two segments would have rotation delete the only
        // segment as soon as it is sealed.
        if self.segment_bytes > u64::MAX / 2 || self.budget_bytes < self.segment_bytes * 2 {
            return Err(BUDGET_TOO_SMALL);
        }
        if self.block_max_bytes < MIN_BLOCK_BYTES {
            return Err(BLOCK_TOO_SMALL);
        }
        if self.block_max_bytes as u64 > self.segment_bytes / 2 {
            return Err(BLOCK_TOO_LARGE);
        }
        Ok(())
    }

    /// How many segments fit the budget, at least one.
    pub fn max_segments(&self) -> (n: u64)
        requires
            self.segment_bytes > 0,
        ensures
            n == if self.budget_bytes < self.segment_bytes {
                1
            } else {
                self.budget_bytes / self.segment_bytes
            },
            n >= 1,
    {
        let n: u64 = self.budget_bytes / self.segment_bytes;
        assert(self.budget_bytes < self.segment_bytes ==> n == 0) by (nonlinear_arith)
            requires
                n == self.budget_bytes / self.segment_bytes,
                self.segment_bytes > 0,
        ;
        assert(self.budget_bytes >= self.segment_bytes ==> n >= 1) by (nonlinear_arith)
            requires
                n == self.budget_bytes / self.segment_bytes,
                self.segment_bytes > 0,
        ;
        if n < 1 {
            1
        } else {
            n
        }
    }
}

/// How a group of namespaces may differ from the settings of a class.
///
/// The budget and the medium are missing on purpose: both are properties of a
/// class, shared by the whole store. What is not set is inherited.
#[derive(Debug, Clone, Copy, PartialEq, Eq, Structural)]
#[must_use]
pub struct ChannelOverride {
    pub segment_bytes: Option<u64>,
    pub block_max_bytes: Option<usize>,
    pub flush_interval: Option<Interval>,
    pub sync_interval: Option<Interval>,
    pub compression: Option<Compression>,
}

impl Default for ChannelOverride {
    fn default() -> (o: ChannelOverride)
        ensures
            o == ChannelOverride::unset(),
    {
        ChannelOverride::new()
    }
}

impl ChannelOverride {
    pub open spec fn unset() -> ChannelOverride {
        ChannelOverride {
            segment_bytes: None,
            block_max_bytes: None,
            flush_interval: None,
            sync_interval: None,
            compression: None,
        }
    }

    pub fn new() -> (o: ChannelOverride)
        ensures
            o == ChannelOverride::unset(),
    {
        ChannelOverride {
            segment_bytes: None,
            block_max_bytes: None,
            flush_interval: None,
            sync_interval: None,
            compression: None,
        }
    }

    pub fn segment_bytes(self, bytes: u64) -> (o: ChannelOverride)
        ensures
            o == (ChannelOverride { segment_bytes: Some(bytes), ..self }),
    {
        ChannelOverride { segment_bytes: Some(bytes), ..self }
    }

    pub fn block_max_bytes(self, bytes: usize) -> (o: ChannelOverride)
        ensures
            o == (ChannelOverride { block_max_bytes: Some(bytes), ..self }),
    {
        ChannelOverride { block_max_bytes: Some(bytes), ..self }
    }

    pub fn flush_interval(self, every: Interval) -> (o: ChannelOverride)
        ensures
            o == (ChannelOverride { flush_interval: Some(every), ..self }),
    {
        ChannelOverride { flush_interval: Some(every), ..self }
    }

    pub fn sync_interval(self, every: Interval) -> (o: ChannelOverride)
        ensures
            o == (ChannelOverride { sync_interval: Some(every), ..self }),
    {
        ChannelOverride { sync_interval: Some(every), ..self }
    }

    pub fn compression(self, compression: Compression) -> (o: ChannelOverride)
        ensures
            o == (ChannelOverride { compression: Some(compression), ..self }),
    {
        ChannelOverride { compression: Some(compression), ..self }
    }

    /// The settings of a class with this override laid over them.
    pub open spec fn over(self, config: ChannelConfig) -> ChannelConfig {
        ChannelConfig {
            segment_bytes: match self.segment_bytes {
                Some(v) => v,
                None => config.segment_bytes,
            },
            block_max_bytes: match self.block_max_bytes {
                Some(v) => v,
                None => config.block_max_bytes,
            },
            flush_interval: match self.flush_interval {
                Some(v) => v,
                None => config.flush_interval,
            },
            sync_interval: match self.sync_interval {
                Some(v) => v,
                None => config.sync_interval,
            },
            compression: match self.compression {
                Some(v) => v,
                None => config.compression,
            },
            ..config
        }
    }

    /// Lays the override over the settings of a class.
    pub fn apply_to(&self, config: &mut ChannelConfig)
        ensures
            *final(config) == self.over(*old(config)),
    {
        if let Some(v) = self.segment_bytes {
            config.segment_bytes = v;
        }
        if let Some(v) = self.block_max_bytes {
            config.block_max_bytes = v;
        }
        if let Some(v) = self.flush_interval {
            config.flush_interval = v;
        }
        if let Some(v) = self.sync_interval {
            config.sync_interval = v;
        }
        if let Some(v) = self.compression {
            config.compression = v;
        }
    }
}

/// Whatever a group sets, the budget and the medium of the class stay.
pub proof fn law_a_class_keeps_its_budget_and_medium(o: ChannelOverride, c: ChannelConfig)
    ensures
        o.over(c).budget_bytes == c.budget_bytes,
        o.over(c).custom_root == c.custom_root,
{
}

/// An override that sets nothing changes nothing, and laying one over twice is
/// the same as once.
pub proof fn law_overrides_are_idempotent(o: ChannelOverride, c: ChannelConfig)
    ensures
        ChannelOverride::unset().over(c) == c,
        o.over(o.over(c)) == o.over(c),
{
}

pub const EMPTY_NAME: &'static str = "пустое имя";

pub const LONG_NAME: &'static str = "длиннее 64 байт";

pub const RESERVED_NAME: &'static str = "зарезервированное имя";

pub const DOT_NAME: &'static str = "имя не может начинаться с точки";

pub const FOREIGN_CHARACTER: &'static str =
    "допустимы только ASCII-буквы, цифры, '-', '_' и '.'";

pub const RESERVED_EXTENSION: &'static str = "зарезервированное расширение";

/// The longest path component, in bytes.
pub const MAX_COMPONENT_BYTES: usize = 64;

/// The characters a path component may consist of.
pub open spec fn is_component_char(c: char) -> bool {
    ||| 'a' <= c <= 'z'
    ||| 'A' <= c <= 'Z'
    ||| '0' <= c <= '9'
    ||| c == '-'
    ||| c == '_'
    ||| c == '.'
}

/// What is wrong with a path component, if anything; the first objection in the
/// order of the checks.
pub open spec fn component_fault(name: Seq<char>) -> Option<&'static str> {
    if name.len() == 0 {
        Some(EMPTY_NAME)
    } else if vstd::utf8::encode_utf8(name).len() as usize > MAX_COMPONENT_BYTES {
        Some(LONG_NAME)
    } else if name == "."@ || name == ".."@ {
        Some(RESERVED_NAME)
    } else if "."@.is_prefix_of(name) {
        Some(DOT_NAME)
    } else if exists|i: int| 0 <= i < name.len() && !is_component_char(#[trigger] name[i]) {
        Some(FOREIGN_CHARACTER)
    } else if ".tmp"@.is_suffix_of(name) || ".seg"@.is_suffix_of(name) || ".corrupt"@.is_suffix_of(
        name,
    ) {
        Some(RESERVED_EXTENSION)
    } else {
        None
    }
}

fn component_char(c: char) -> (yes: bool)
    ensures
        yes == is_component_char(c),
{
    (c >= 'a' && c <= 'z') || (c >= 'A' && c <= 'Z') || (c >= '0' && c <= '9') || c == '-' || c
        == '_' || c == '.'
}

/// Checks a path component: the name of a namespace or of a channel.
///
/// Names come from configuration but end up in file system paths, so they are
/// checked strictly: separators, `..` and control characters could carry a write
/// out of the store.
pub fn validate_component(name: &str) -> (r: Result<(), &'static str>)
    ensures
        match r {
            Ok(()) => component_fault(name@) is None,
            Err(reason) => component_fault(name@) == Some(reason),
        },
{
    if name.is_empty() {
        return Err(EMPTY_NAME);
    }
    if name.len() > MAX_COMPONENT_BYTES {
        return Err(LONG_NAME);
    }
    if same_text(name, ".") || same_text(name, "..") {
        return Err(RESERVED_NAME);
    }
    if has_prefix(name, ".") {
        return Err(DOT_NAME);
    }
    let chars: Vec<char> = chars_of(name);
    let mut i: usize = 0;
    while i < chars.len()
        invariant
            i <= chars@.len(),
            chars@ == name@,
            name@.len() > 0,
            name.len() <= MAX_COMPONENT_BYTES,
            !(name@ == "."@ || name@ == ".."@),
            !"."@.is_prefix_of(name@),
            forall|k: int| 0 <= k < i ==> is_component_char(#[trigger] name@[k]),
        decreases chars@.len() - i,
    {
        if !component_char(chars[i]) {
            assert(!is_component_char(name@[i as int]));
            return Err(FOREIGN_CHARACTER);
        }
        i = i + 1;
    }
    if has_suffix(name, ".tmp") || has_suffix(name, ".seg") || has_suffix(name, ".corrupt") {
        return Err(RESERVED_EXTENSION);
    }
    Ok(())
}

/// A name that passed is one path component of the store and nothing else: it
/// holds no separator, does not lead out of its directory and is not hidden.
pub proof fn law_a_component_stays_in_its_directory(name: Seq<char>)
    requires
        component_fault(name) is None,
    ensures
        name.len() > 0,
        !name.contains('/'),
        !name.contains('\\'),
        !name.contains('\0'),
        name != "."@,
        name != ".."@,
        name[0] != '.',
{
    reveal_strlit(".");
    assert(name[0] == '.' ==> "."@ =~= name.subrange(0, 1));
    assert forall|i: int| 0 <= i < name.len() implies is_component_char(#[trigger] name[i]) by {}
}

/// What a group sets holds for it, field by field, and what it does not set is the class's own.
pub proof fn law_what_is_set_holds_and_the_rest_is_inherited(o: ChannelOverride, c: ChannelConfig)
    ensures
        o.segment_bytes matches Some(v) ==> o.over(c).segment_bytes == v,
        o.segment_bytes is None ==> o.over(c).segment_bytes == c.segment_bytes,
        o.block_max_bytes matches Some(v) ==> o.over(c).block_max_bytes == v,
        o.block_max_bytes is None ==> o.over(c).block_max_bytes == c.block_max_bytes,
        o.flush_interval matches Some(v) ==> o.over(c).flush_interval == v,
        o.flush_interval is None ==> o.over(c).flush_interval == c.flush_interval,
        o.sync_interval matches Some(v) ==> o.over(c).sync_interval == v,
        o.sync_interval is None ==> o.over(c).sync_interval == c.sync_interval,
        o.compression matches Some(v) ==> o.over(c).compression == v,
        o.compression is None ==> o.over(c).compression == c.compression,
{
}

/// Settings pass if and only if the budget holds two segments, a block is at least half a
/// kilobyte, and a segment holds two blocks.
pub proof fn law_settings_pass_only_if_segments_and_blocks_fit(c: ChannelConfig)
    ensures
        c.fault() is None <==> {
            &&& c.budget_bytes >= c.segment_bytes + c.segment_bytes
            &&& c.block_max_bytes >= 512
            &&& c.segment_bytes >= c.block_max_bytes + c.block_max_bytes
        },
{
}

/// A name passes if and only if it is one to sixty-four ASCII letters, digits, dashes, underscores
/// and dots, does not begin with a dot and does not end like a file of the store's own.
pub proof fn law_a_name_passes_only_if_it_is_plain(name: Seq<char>)
    requires
        vstd::utf8::encode_utf8(name).len() <= usize::MAX,
    ensures
        component_fault(name) is None <==> {
            &&& 0 < name.len()
            &&& vstd::utf8::encode_utf8(name).len() <= 64
            &&& name[0] != '.'
            &&& forall|i: int|
                0 <= i < name.len() ==> {
                    let c = #[trigger] name[i];
                    ||| 'a' <= c <= 'z'
                    ||| 'A' <= c <= 'Z'
                    ||| '0' <= c <= '9'
                    ||| c == '-'
                    ||| c == '_'
                    ||| c == '.'
                }
            &&& !".tmp"@.is_suffix_of(name)
            &&& !".seg"@.is_suffix_of(name)
            &&& !".corrupt"@.is_suffix_of(name)
        },
{
    reveal_strlit(".");
    reveal_strlit("..");
    if name.len() > 0 {
        assert(name[0] == '.' ==> "."@ =~= name.subrange(0, 1));
        assert("."@.is_prefix_of(name) ==> "."@[0] == name.subrange(0, 1)[0]);
        assert(name == "."@ || name == ".."@ ==> name[0] == '.');
    }
}

} // verus!
