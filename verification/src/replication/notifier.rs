//! What a node tells its followers when one of its repositories changes.
use vstd::prelude::*;
use crate::config::Config;
use crate::replication::index::{announced, RepositoryIndex};
use crate::replication::wire::{Head, ReplicationEvent};

verus! {

/// The source of change notifications.
#[derive(Debug)]
pub struct ReplicationNotifier {
    enabled: bool,
}

impl ReplicationNotifier {
    /// Whether notifications go out.
    pub closed spec fn is_enabled(&self) -> bool {
        self.enabled
    }

    /// The notifier of a node. Only a node of a replicated set has followers
    /// to tell.
    pub fn new(config: &Config) -> (result: Self)
        ensures
            result.is_enabled() == (config.replication is Some),
    {
        ReplicationNotifier { enabled: config.replication.is_some() }
    }

    /// Records that a repository moved to a commit. Returns the frame to send.
    pub fn repository_updated(
        &self,
        index: &mut RepositoryIndex,
        collection_id: &str,
        tenant_id: &str,
        head_sha: &str,
    ) -> (result: Option<ReplicationEvent>)
        requires
            old(index).is_valid(),
            old(index).announcements() < u64::MAX,
        ensures
            final(index).is_valid(),
            announced(
                *old(index),
                *final(index),
                Head { collection_id: collection_id@, tenant_id: tenant_id@, head_sha: head_sha@ },
                false,
            ),
            match result {
                Some(ReplicationEvent::RepositoryUpdated {
                    collection_id: collection,
                    tenant_id: tenant,
                    head_sha: head,
                }) => self.is_enabled() && collection@ == collection_id@ && tenant@ == tenant_id@
                    && head@ == head_sha@,
                Some(_) => false,
                None => !self.is_enabled(),
            },
    {
        index.record_head(collection_id, tenant_id, head_sha);
        if !self.enabled {
            return None;
        }
        Some(
            ReplicationEvent::RepositoryUpdated {
                collection_id: collection_id.to_owned(),
                tenant_id: tenant_id.to_owned(),
                head_sha: head_sha.to_owned(),
            },
        )
    }

    /// Records that a repository is gone. Returns the frame to send.
    pub fn repository_deleted(
        &self,
        index: &mut RepositoryIndex,
        collection_id: &str,
        tenant_id: &str,
    ) -> (result: Option<ReplicationEvent>)
        requires
            old(index).is_valid(),
            old(index).announcements() < u64::MAX,
        ensures
            final(index).is_valid(),
            announced(
                *old(index),
                *final(index),
                Head { collection_id: collection_id@, tenant_id: tenant_id@, head_sha: seq![] },
                true,
            ),
            match result {
                Some(ReplicationEvent::RepositoryDeleted {
                    collection_id: collection,
                    tenant_id: tenant,
                }) => self.is_enabled() && collection@ == collection_id@ && tenant@ == tenant_id@,
                Some(_) => false,
                None => !self.is_enabled(),
            },
    {
        index.remove(collection_id, tenant_id);
        if !self.enabled {
            return None;
        }
        Some(
            ReplicationEvent::RepositoryDeleted {
                collection_id: collection_id.to_owned(),
                tenant_id: tenant_id.to_owned(),
            },
        )
    }
}

} // verus!
