//! The persistent cache record: build metadata plus the mapping, and the
//! validity check that decides whether a loaded record may be reused.

use vstd::prelude::*;
use vstd::string::*;
use crate::entry::EntryV;
use crate::icon_map::IconMap;
use crate::resolver::IconResolver;
use crate::text::str_eq;

verus! {

/// The current cache format version; any other version on disk, including
/// the 0 of a record written before versioning existed, is rejected.
pub const CACHE_VERSION: u32 = 1;

/// The build metadata persisted with the mapping.  It fully determines
/// whether a persisted cache may be reused without rescanning.
#[derive(Debug, Clone, PartialEq)]
pub struct CacheMetadata {
    pub cache_version: u32,
    pub theme: String,
    pub base_path: String,
    pub additional_paths: Vec<String>,
    pub cache_time: u64,
    pub icon_count: usize,
}

/// Mathematical model of `CacheMetadata`.
pub ghost struct MetadataV {
    pub cache_version: u32,
    pub theme: Seq<char>,
    pub base_path: Seq<char>,
    pub additional_paths: Seq<Seq<char>>,
    pub cache_time: u64,
    pub icon_count: usize,
}

impl View for CacheMetadata {
    type V = MetadataV;

    open spec fn view(&self) -> MetadataV {
        MetadataV {
            cache_version: self.cache_version,
            theme: self.theme@,
            base_path: self.base_path@,
            additional_paths: self.additional_paths.deep_view(),
            cache_time: self.cache_time,
            icon_count: self.icon_count,
        }
    }
}

/// The unit written to and read from disk.
pub struct PersistentCache {
    pub metadata: CacheMetadata,
    pub icons: IconMap,
}

/// Mathematical model of `PersistentCache`.
pub ghost struct RecordV {
    pub metadata: MetadataV,
    pub icons: Seq<(Seq<char>, EntryV)>,
}

impl View for PersistentCache {
    type V = RecordV;

    open spec fn view(&self) -> RecordV {
        RecordV { metadata: self.metadata@, icons: self.icons@ }
    }
}

/// May a persisted record be reused against the current configuration?
/// The version must be current; theme, primary root and additional roots
/// must match exactly; and the theme descriptor, where its modification
/// time could be read at all, must not be newer than the build time.
pub open spec fn valid_s(
    md: MetadataV,
    theme: Seq<char>,
    base: Seq<char>,
    additional: Seq<Seq<char>>,
    theme_mtime: Option<u64>,
) -> bool {
    &&& md.cache_version == CACHE_VERSION
    &&& md.theme == theme
    &&& md.base_path == base
    &&& md.additional_paths == additional
    &&& match theme_mtime {
        Some(t) => t <= md.cache_time,
        None => true,
    }
}

/// A record whose theme descriptor was modified after the record was
/// built is never accepted.
pub proof fn lemma_stale_rejected(
    md: MetadataV,
    theme: Seq<char>,
    base: Seq<char>,
    additional: Seq<Seq<char>>,
    t: u64,
)
    requires
        t > md.cache_time,
    ensures
        !valid_s(md, theme, base, additional, Some(t)),
{
}

/// A record built from a configuration is accepted against that same
/// configuration whenever the descriptor is not newer than the build
/// time, and in particular when its modification time is unreadable.
pub proof fn lemma_fresh_record_valid(
    md: MetadataV,
    theme: Seq<char>,
    base: Seq<char>,
    additional: Seq<Seq<char>>,
    theme_mtime: Option<u64>,
)
    requires
        md.cache_version == CACHE_VERSION,
        md.theme == theme,
        md.base_path == base,
        md.additional_paths == additional,
        match theme_mtime {
            Some(t) => t <= md.cache_time,
            None => true,
        },
    ensures
        valid_s(md, theme, base, additional, theme_mtime),
{
}

impl IconResolver {
    /// The validity check on a loaded record's metadata.  The caller
    /// reads the theme descriptor's modification time and passes it in;
    /// `None` means it could not be read, which never counts as stale.
    pub fn is_cache_valid(&self, md: &CacheMetadata, theme_mtime: Option<u64>) -> (r: bool)
        ensures
            r == valid_s(
                md@,
                self.theme@,
                self.base_path@,
                self.additional_paths.deep_view(),
                theme_mtime,
            ),
    {
        if md.cache_version != CACHE_VERSION {
            return false;
        }
        if !str_eq(md.theme.as_str(), self.theme.as_str()) {
            return false;
        }
        if !str_eq(md.base_path.as_str(), self.base_path.as_str()) {
            return false;
        }
        if md.additional_paths.len() != self.additional_paths.len() {
            proof {
                assert(md@.additional_paths.len() != self.additional_paths.deep_view().len());
            }
            return false;
        }
        let n = md.additional_paths.len();
        let mut i: usize = 0;
        while i < n
            invariant
                n == md@.additional_paths.len(),
                n == self.additional_paths.deep_view().len(),
                i <= n,
                forall|j: int|
                    0 <= j < i ==> md@.additional_paths[j] == self.additional_paths.deep_view(
                    )[j],
            decreases n - i,
        {
            if !str_eq(md.additional_paths[i].as_str(), self.additional_paths[i].as_str()) {
                proof {
                    assert(md@.additional_paths[i as int] != self.additional_paths.deep_view(
                    )[i as int]);
                }
                return false;
            }
            i += 1;
        }
        proof {
            assert(md@.additional_paths =~= self.additional_paths.deep_view());
        }
        match theme_mtime {
            Some(t) => t <= md.cache_time,
            None => true,
        }
    }

    /// The record that persists the current mapping, stamped with the
    /// given build time.
    pub fn make_record(&self, cache_time: u64) -> (r: PersistentCache)
        ensures
            r@.metadata == (MetadataV {
                cache_version: CACHE_VERSION,
                theme: self.theme@,
                base_path: self.base_path@,
                additional_paths: self.additional_paths.deep_view(),
                cache_time: cache_time,
                icon_count: self.cache@.len() as usize,
            }),
            r@.icons == self.cache@,
    {
        let icons = self.cache.duplicate();
        let mut additional: Vec<String> = Vec::new();
        let mut i: usize = 0;
        while i < self.additional_paths.len()
            invariant
                i <= self.additional_paths@.len(),
                additional@.len() == i,
                forall|j: int|
                    0 <= j < i ==> additional.deep_view()[j] == self.additional_paths.deep_view(
                    )[j],
            decreases self.additional_paths@.len() - i,
        {
            let ghost pre = additional.deep_view();
            additional.push(self.additional_paths[i].clone());
            proof {
                assert(additional.deep_view() =~= pre.push(
                    self.additional_paths.deep_view()[i as int],
                ));
            }
            i += 1;
        }
        proof {
            assert(additional.deep_view() =~= self.additional_paths.deep_view());
        }
        let count = self.cache.len();
        let md = CacheMetadata {
            cache_version: CACHE_VERSION,
            theme: self.theme.clone(),
            base_path: self.base_path.clone(),
            additional_paths: additional,
            cache_time,
            icon_count: count,
        };
        PersistentCache { metadata: md, icons }
    }
}

} // verus!
