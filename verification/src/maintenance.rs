//! When repositories are maintained: a while after their first write, and not
//! twice at once.
use vstd::prelude::*;
use crate::config::MaintenanceConfig;

verus! {

/// The tenants that a map has a pass for.
pub uninterp spec fn armed_tenants(map: dashmap::DashMap<String, ()>) -> Set<Seq<char>>;

/// No tenants.
pub open spec fn no_tenants() -> Set<Seq<char>> {
    Set::empty()
}

/// `dashmap::DashMap::new`: a map without tenants.
#[verifier::external_body]
fn new_tenants() -> (result: dashmap::DashMap<String, ()>)
    ensures
        armed_tenants(result) == no_tenants(),
{
    dashmap::DashMap::new()
}

/// `dashmap::DashMap::insert`: adds a tenant, and tells whether it was not
/// there.
#[verifier::external_body]
fn put_tenant(map: &mut dashmap::DashMap<String, ()>, key: String) -> (result: bool)
    ensures
        armed_tenants(*final(map)) == armed_tenants(*old(map)).insert(key@),
        result == !armed_tenants(*old(map)).contains(key@),
{
    map.insert(key, ()).is_none()
}

/// `dashmap::DashMap::remove`: drops a tenant, and tells whether it was there.
#[verifier::external_body]
fn drop_tenant(map: &mut dashmap::DashMap<String, ()>, key: &str) -> (result: bool)
    ensures
        armed_tenants(*final(map)) == armed_tenants(*old(map)).remove(key@),
        result == armed_tenants(*old(map)).contains(key@),
{
    map.remove(key).is_some()
}

/// Schedules maintenance for tenant repositories.
pub struct MaintenanceScheduler {
    enabled: bool,
    delay_secs: u64,
    maximum_packs: Option<usize>,
    pending: dashmap::DashMap<String, ()>,
}

/// The pause before a pass: none for a repository that holds too many packs.
pub open spec fn pass_delay(delay_secs: u64, maximum_packs: Option<usize>, packs: usize) -> u64 {
    match maximum_packs {
        Some(maximum) => if packs >= maximum {
            0
        } else {
            delay_secs
        },
        None => delay_secs,
    }
}

impl View for MaintenanceScheduler {
    type V = Set<Seq<char>>;

    /// The tenants with a pass that waits or runs.
    closed spec fn view(&self) -> Set<Seq<char>> {
        armed_tenants(self.pending)
    }
}

impl MaintenanceScheduler {
    /// Whether anything is maintained at all.
    pub closed spec fn is_enabled(&self) -> bool {
        self.enabled
    }

    /// Seconds between the first write and the pass.
    pub closed spec fn usual_delay_secs(&self) -> u64 {
        self.delay_secs
    }

    /// How many packs a repository may hold before it is maintained at once.
    pub closed spec fn pack_limit(&self) -> Option<usize> {
        self.maximum_packs
    }

    /// Whether this scheduler goes by the same settings.
    pub open spec fn is_set_like(&self, other: &Self) -> bool {
        &&& self.is_enabled() == other.is_enabled()
        &&& self.usual_delay_secs() == other.usual_delay_secs()
        &&& self.pack_limit() == other.pack_limit()
    }

    /// A scheduler with nothing to do.
    pub fn new(config: &MaintenanceConfig) -> (result: Self)
        ensures
            result@ == no_tenants(),
            result.is_enabled() == config.enabled,
            result.usual_delay_secs() == config.delay_secs,
            result.pack_limit() == config.maximum_packs,
    {
        MaintenanceScheduler {
            enabled: config.enabled,
            delay_secs: config.delay_secs,
            maximum_packs: config.maximum_packs,
            pending: new_tenants(),
        }
    }

    /// Arms a pass after a write. Tells whether one is to be started: none is
    /// while another waits or runs.
    pub fn schedule(&mut self, tenant_key: &str) -> (result: bool)
        ensures
            final(self).is_set_like(old(self)),
            result == (old(self).is_enabled() && !old(self)@.contains(tenant_key@)),
            final(self)@ == if old(self).is_enabled() {
                old(self)@.insert(tenant_key@)
            } else {
                old(self)@
            },
    {
        if !self.enabled {
            return false;
        }
        put_tenant(&mut self.pending, tenant_key.to_owned())
    }

    /// Whether the packs of a repository have to be counted for its pass.
    pub fn counts_packs(&self) -> (result: bool)
        ensures
            result == self.pack_limit() is Some,
    {
        self.maximum_packs.is_some()
    }

    /// Seconds to wait before the pass of a repository with so many packs.
    pub fn delay_secs(&self, packs: usize) -> (result: u64)
        ensures
            result == pass_delay(self.usual_delay_secs(), self.pack_limit(), packs),
    {
        match self.maximum_packs {
            Some(maximum) => if packs >= maximum {
                0
            } else {
                self.delay_secs
            },
            None => self.delay_secs,
        }
    }

    /// Takes up that a pass is over.
    pub fn finish(&mut self, tenant_key: &str)
        ensures
            final(self).is_set_like(old(self)),
            final(self)@ == old(self)@.remove(tenant_key@),
    {
        drop_tenant(&mut self.pending, tenant_key);
    }

    /// Disarms the pass of a tenant. Tells whether there was one to stop.
    pub fn cancel(&mut self, tenant_key: &str) -> (result: bool)
        ensures
            final(self).is_set_like(old(self)),
            final(self)@ == old(self)@.remove(tenant_key@),
            result == old(self)@.contains(tenant_key@),
    {
        drop_tenant(&mut self.pending, tenant_key)
    }
}

} // verus!
