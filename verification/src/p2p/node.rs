//! A local endpoint: our identity, what we offer, and our neighbors.

use vstd::prelude::*;
use super::peer::PeerId;
use super::session::SessionConfig;
use super::table::{count_established, PeerTable, TableView, MAX_PEERS};

verus! {

/// One local endpoint of the framework. Owns the [`PeerTable`]: who we
/// are and who our neighbors are.
pub struct Node<const N: usize> {
    table: PeerTable<N>,
}

impl<const N: usize> View for Node<N> {
    type V = TableView;

    closed spec fn view(&self) -> TableView {
        self.table@
    }
}

impl<const N: usize> Node<N> {
    /// An empty node offering [`SessionConfig::default_offer`].
    pub fn new(local: PeerId) -> (n: Node<N>)
        requires
            1 <= N <= MAX_PEERS,
        ensures
            n@.local == local@,
            n@.config == SessionConfig::spec_default_offer(),
            n@.slots == Seq::new(N as nat, |i: int| None::<super::session::SessionView>),
    {
        Node { table: PeerTable::new(local) }
    }

    /// An empty node offering `config` on every connect and accept.
    pub fn with(local: PeerId, config: SessionConfig) -> (n: Node<N>)
        requires
            1 <= N <= MAX_PEERS,
        ensures
            n@.local == local@,
            n@.config == config,
            n@.slots == Seq::new(N as nat, |i: int| None::<super::session::SessionView>),
    {
        Node { table: PeerTable::with(local, config) }
    }

    /// Our identity.
    pub fn id(&self) -> (id: PeerId)
        ensures
            id@ == self@.local,
    {
        self.table.local()
    }

    /// The session offer announced in hellos.
    pub fn config(&self) -> (c: SessionConfig)
        ensures
            c == self@.config,
    {
        self.table.config()
    }

    /// The neighbor directory, read-only.
    pub fn table(&self) -> (t: &PeerTable<N>)
        ensures
            t@ == self@,
    {
        &self.table
    }

    /// The neighbor directory, for lookups and updates.
    pub fn table_mut(&mut self) -> (t: &mut PeerTable<N>)
        ensures
            t@ == old(self)@,
            final(self)@ == final(t)@,
    {
        &mut self.table
    }

    /// How many neighbors are `Established`.
    pub fn established(&self) -> (n: usize)
        ensures
            n == count_established(self@.slots),
    {
        self.table.established()
    }
}

} // verus!
