//! Upkeep of a repository: stale locks, consolidation of packs, removal.
use vstd::prelude::*;
use crate::error::{AppError, Fault};
use crate::text::{characters, copy_texts, holds_text, texts};

verus! {

/// Lock files of a repository.
pub struct GitLocks;

/// Maintenance of a repository.
pub struct GitMaintenance;

/// A tenant's repository as a whole.
pub struct GitTenant;

/// Seconds after which an index lock counts as abandoned.
pub const STALE_LOCK_THRESHOLD_SECS: u64 = 30;

impl GitLocks {
    /// Whether an index lock of the given age is abandoned.
    pub fn is_stale(age_secs: u64) -> (result: bool)
        ensures
            result == (age_secs > 30),
    {
        age_secs > STALE_LOCK_THRESHOLD_SECS
    }
}

/// What a maintenance pass did.
#[derive(Debug, Clone, Copy)]
pub struct MaintenanceReport {
    pub packed_objects: usize,
    pub loose_objects_removed: usize,
    pub old_packs_removed: usize,
}

impl Default for MaintenanceReport {
    fn default() -> (result: Self)
        ensures
            result.packed_objects == 0,
            result.loose_objects_removed == 0,
            result.old_packs_removed == 0,
    {
        MaintenanceReport { packed_objects: 0, loose_objects_removed: 0, old_packs_removed: 0 }
    }
}

/// Whether consolidation has brought a pack that was not there.
pub open spec fn pack_appeared(before: Seq<Seq<char>>, after: Seq<Seq<char>>) -> bool {
    exists|i: int| 0 <= i < after.len() && !before.contains(#[trigger] after[i])
}

/// The packs that consolidation makes superfluous: all that were there, once
/// a new one is.
pub open spec fn superfluous_packs(before: Seq<Seq<char>>, after: Seq<Seq<char>>) -> Seq<Seq<char>> {
    if pack_appeared(before, after) {
        before
    } else {
        Seq::empty()
    }
}

/// Whether a character is a hexadecimal digit.
pub open spec fn is_hex_digit(c: char) -> bool {
    ||| 48 <= c as u32 <= 57
    ||| 65 <= c as u32 <= 70
    ||| 97 <= c as u32 <= 102
}

impl GitMaintenance {
    /// Whether a repository is worth consolidating: it has loose objects, or
    /// more than one pack.
    pub fn needs_repack(loose_objects: usize, packs: usize) -> (result: bool)
        ensures
            result == (loose_objects > 0 || packs > 1),
    {
        !(loose_objects == 0 && packs <= 1)
    }

    /// Whether a name is that of a loose-object directory.
    pub fn is_fanout_directory(name: &str) -> (result: bool)
        ensures
            result == (name@.len() == 2 && is_hex_digit(name@[0]) && is_hex_digit(name@[1])),
    {
        let a: Vec<char> = characters(name);
        a.len() == 2 && Self::is_hex(a[0]) && Self::is_hex(a[1])
    }

    fn is_hex(c: char) -> (result: bool)
        ensures
            result == is_hex_digit(c),
    {
        let code: u32 = c as u32;
        (48 <= code && code <= 57) || (65 <= code && code <= 70) || (97 <= code && code <= 102)
    }

    /// The packs to remove after consolidation. None goes before a new one is
    /// seen, so no object is ever without a pack.
    pub fn packs_to_remove(before: &[String], after: &[String]) -> (result: Vec<String>)
        ensures
            texts(result@) == superfluous_packs(texts(before@), texts(after@)),
    {
        let mut i: usize = 0;
        while i < after.len()
            invariant
                i <= after.len(),
                forall|j: int|
                    0 <= j < i ==> texts(before@).contains(#[trigger] texts(after@)[j]),
            decreases after.len() - i,
        {
            assert(texts(after@)[i as int] == after@[i as int]@);
            if !holds_text(before, after[i].as_str()) {
                return copy_texts(before);
            }
            i = i + 1;
        }
        let none: Vec<String> = Vec::new();
        assert(texts(none@) =~= Seq::empty());
        none
    }

    /// The report of a consolidation.
    pub fn report(packed_objects: usize, loose_objects: usize, removed_packs: &[String]) -> (result:
        MaintenanceReport)
        ensures
            result.packed_objects == packed_objects,
            result.loose_objects_removed == loose_objects,
            result.old_packs_removed == removed_packs.len(),
    {
        MaintenanceReport {
            packed_objects,
            loose_objects_removed: loose_objects,
            old_packs_removed: removed_packs.len(),
        }
    }
}

impl GitTenant {
    /// Refuses the removal of a repository that is not there.
    pub fn delete_repo(exists: bool, tenant_id: &str) -> (result: Result<(), AppError>)
        ensures
            match result {
                Ok(()) => exists,
                Err(error) => !exists && error@ == Fault::TenantNotFound(tenant_id@),
            },
    {
        if exists {
            Ok(())
        } else {
            Err(AppError::TenantNotFound { tenant_id: tenant_id.to_owned() })
        }
    }
}

/// Packs are removed only once another one holds their objects.
pub proof fn law_packs_outlive_consolidation(
    before: Seq<Seq<char>>,
    after: Seq<Seq<char>>,
    pack: Seq<char>,
)
    requires
        superfluous_packs(before, after).contains(pack),
    ensures
        exists|i: int| 0 <= i < after.len() && !before.contains(#[trigger] after[i]),
{
}

} // verus!
