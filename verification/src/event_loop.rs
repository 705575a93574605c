//! The state of the event loop: the listening descriptor and the connections.
//!
//! The loop itself polls and performs input and output; what is polled for,
//! what a ready descriptor asks for and what becomes of a connection is
//! decided here.

use vstd::prelude::*;
use std::collections::HashMap;
use vstd::std_specs::hash::{group_hash_axioms, spec_hash_map_iter};
use vstd::std_specs::iter::IteratorSpec;
use crate::connection::{Connection, NextStep, PollInterest, State};

verus! {

broadcast use group_hash_axioms;

/// A descriptor to poll, and the events to poll it for.
#[derive(Debug, Clone, Copy, PartialEq, Eq, Structural)]
pub struct PollEntry {
    pub fd: i32,
    pub interest: PollInterest,
}

/// What a descriptor that poll reports asks for.
#[derive(Debug, Clone, Copy, PartialEq, Eq, Structural)]
pub enum Dispatch {
    /// It is the listening descriptor: accept one connection.
    Accept,
    /// It belongs to a connection, which starts with this step.
    Serve(NextStep),
    /// Nothing is to be done: no event was reported, or no connection has
    /// the descriptor.
    Ignore,
}

/// The entry that polls the listening descriptor: for input only.
pub open spec fn listen_entry(fd: i32) -> PollEntry {
    PollEntry { fd, interest: PollInterest { readable: true, writable: false, error: false } }
}

/// The entry that polls the connection kept under `fd`: for input while
/// it waits for a request, for output while it has an answer to send, and
/// for errors in both states.
pub open spec fn entry_of(fd: i32, connection: Connection) -> PollEntry {
    PollEntry {
        fd,
        interest: PollInterest {
            readable: connection.state == State::ReadRequest,
            writable: connection.state == State::SendResponse,
            error: true,
        },
    }
}

/// The first step of a connection that is ready.
pub open spec fn first_step_of(connection: Connection) -> NextStep {
    match connection.state {
        State::ReadRequest => NextStep::Read,
        State::SendResponse => NextStep::Write,
    }
}

/// The listening descriptor, the connections by their descriptors, and
/// the list of what to poll.
pub struct EventLoop {
    listen_fd: i32,
    connections: HashMap<i32, Connection>,
    poll_args: Vec<PollEntry>,
}

impl EventLoop {
    /// The listening descriptor.
    pub closed spec fn listening(&self) -> i32 {
        self.listen_fd
    }

    /// The connections, each under its descriptor.
    pub closed spec fn connections(&self) -> Map<i32, Connection> {
        self.connections@
    }

    /// The list of what to poll, as `prepare_poll` left it.
    pub closed spec fn poll_list(&self) -> Seq<PollEntry> {
        self.poll_args@
    }

    /// Whether `connection` can be kept: it is well formed, has a history
    /// that fits it and, while it waits for a request, no whole message
    /// pending; and its descriptor is not the listening one.
    pub open spec fn keeps(&self, connection: Connection) -> bool {
        &&& connection.wf()
        &&& connection.drained()
        &&& connection.orderly()
        &&& connection.fd != self.listening()
    }

    /// There are finitely many connections, each can be kept, and each is
    /// kept under its own descriptor, so that no descriptor comes twice.
    pub open spec fn wf(&self) -> bool {
        &&& self.connections().dom().finite()
        &&& forall|fd: i32| #[trigger]
            self.connections().contains_key(fd) ==> self.keeps(self.connections()[fd])
                && self.connections()[fd].fd == fd
    }

    /// Whether `list` is what is to be polled: the listening descriptor
    /// first, then each connection once, in any order.
    pub open spec fn polls(&self, list: Seq<PollEntry>) -> bool {
        &&& list.len() == self.connections().dom().len() + 1
        &&& list[0] == listen_entry(self.listening())
        &&& forall|i: int|
            1 <= i < list.len() ==> self.connections().contains_key((#[trigger] list[i]).fd)
                && list[i] == entry_of(list[i].fd, self.connections()[list[i].fd])
        &&& forall|fd: i32| #[trigger]
            self.connections().contains_key(fd) ==> exists|i: int|
                1 <= i < list.len() && (#[trigger] list[i]).fd == fd
        &&& forall|i: int, j: int|
            1 <= i < j < list.len() ==> (#[trigger] list[i]).fd != (#[trigger] list[j]).fd
    }

    /// A loop on `listen_fd` without connections.
    pub fn new(listen_fd: i32) -> (event_loop: Self)
        ensures
            event_loop.wf(),
            event_loop.listening() == listen_fd,
            event_loop.connections() == Map::<i32, Connection>::empty(),
    {
        EventLoop { listen_fd, connections: HashMap::new(), poll_args: Vec::new() }
    }

    /// The listening descriptor.
    pub fn listen_fd(&self) -> (fd: i32)
        ensures
            fd == self.listening(),
    {
        self.listen_fd
    }

    /// The number of connections.
    pub fn len(&self) -> (n: usize)
        ensures
            n == self.connections().dom().len(),
    {
        self.connections.len()
    }

    /// The connection kept under the descriptor `fd`, if there is one.
    pub fn connection(&self, fd: i32) -> (r: Option<&Connection>)
        ensures
            match r {
                Some(connection) => self.connections().contains_key(fd) && *connection
                    == self.connections()[fd],
                None => !self.connections().contains_key(fd),
            },
    {
        self.connections.get(&fd)
    }

    /// Makes the list of what to poll anew.
    pub fn prepare_poll(&mut self)
        ensures
            final(self).polls(final(self).poll_list()),
            final(self).listening() == old(self).listening(),
            final(self).connections() == old(self).connections(),
    {
        self.poll_args.clear();
        self.poll_args.push(
            PollEntry {
                fd: self.listen_fd,
                interest: PollInterest { readable: true, writable: false, error: false },
            },
        );
        let ghost items = spec_hash_map_iter(&self.connections).remaining();
        let ghost kept = self.connections@;
        for item in it: self.connections.iter()
            invariant
                it.seq() == items,
                items == spec_hash_map_iter(&self.connections).remaining(),
                items.no_duplicates(),
                kept == self.connections@,
                self.listen_fd == old(self).listen_fd,
                self.connections == old(self).connections,
                self.poll_args@.len() == it.index() + 1,
                self.poll_args@[0] == listen_entry(self.listen_fd),
                forall|i: int|
                    0 <= i < it.index() ==> #[trigger] self.poll_args@[i + 1] == entry_of(
                        *items[i].0,
                        *items[i].1,
                    ),
        {
            let (fd, connection) = item;
            let entry = PollEntry { fd: *fd, interest: connection.interest() };
            self.poll_args.push(entry);
        }
        proof {
            let list = self.poll_args@;
            assert forall|i: int| 1 <= i < list.len() implies kept.contains_key(
                (#[trigger] list[i]).fd,
            ) && list[i] == entry_of(list[i].fd, kept[list[i].fd]) by {
                assert(list[(i - 1) + 1] == entry_of(*items[i - 1].0, *items[i - 1].1));
                assert(kept.contains_key(*items[i - 1].0));
            }
            assert forall|fd: i32| #[trigger] kept.contains_key(fd) implies exists|i: int|
                1 <= i < list.len() && (#[trigger] list[i]).fd == fd by {
                assert(items.contains((&fd, &kept[fd])));
                let j = choose|j: int| 0 <= j < items.len() && items[j] == (&fd, &kept[fd]);
                assert(list[j + 1].fd == fd);
            }
            assert forall|i: int, j: int| 1 <= i < j < list.len() implies (#[trigger] list[i]).fd
                != (#[trigger] list[j]).fd by {
                assert(list[(i - 1) + 1] == entry_of(*items[i - 1].0, *items[i - 1].1));
                assert(list[(j - 1) + 1] == entry_of(*items[j - 1].0, *items[j - 1].1));
                if list[i].fd == list[j].fd {
                    assert(kept.contains_key(*items[i - 1].0));
                    assert(kept.contains_key(*items[j - 1].0));
                    assert(*items[i - 1].1 == kept[*items[i - 1].0]);
                    assert(*items[j - 1].1 == kept[*items[j - 1].0]);
                    assert(items[i - 1] == items[j - 1]);
                }
            }
        }
    }

    /// The list of what to poll, as `prepare_poll` left it.
    pub fn poll_entries(&self) -> (entries: &[PollEntry])
        ensures
            entries@ == self.poll_list(),
    {
        self.poll_args.as_slice()
    }

    /// What the descriptor `fd` asks for, on which poll reports the events
    /// `revents`: nothing where it reports none; else a connection to
    /// accept where the descriptor is the listening one; else the first
    /// step of the connection that has the descriptor; and nothing where
    /// no connection has it.
    pub fn dispatch(&self, fd: i32, revents: i16) -> (d: Dispatch)
        ensures
            d == if revents == 0 {
                Dispatch::Ignore
            } else if fd == self.listening() {
                Dispatch::Accept
            } else if self.connections().contains_key(fd) {
                Dispatch::Serve(first_step_of(self.connections()[fd]))
            } else {
                Dispatch::Ignore
            },
    {
        if revents == 0 {
            return Dispatch::Ignore;
        }
        if fd == self.listen_fd {
            return Dispatch::Accept;
        }
        match self.connections.get(&fd) {
            Some(connection) => Dispatch::Serve(connection.first_step()),
            None => Dispatch::Ignore,
        }
    }

    /// Takes in the connection that was accepted on the descriptor `fd`,
    /// in place of a connection that was kept under the same descriptor,
    /// if there was one. The listening descriptor is refused.
    pub fn accept(&mut self, fd: i32) -> (added: bool)
        requires
            old(self).wf(),
        ensures
            final(self).wf(),
            final(self).listening() == old(self).listening(),
            added == (fd != old(self).listening()),
            !added ==> final(self).connections() == old(self).connections(),
            added ==> exists|fresh: Connection|
                {
                    &&& fresh.fd == fd
                    &&& fresh.state == State::ReadRequest
                    &&& fresh.read_buf.read_pos() == 0
                    &&& fresh.read_buf.write_pos() == 0
                    &&& #[trigger] final(self).keeps(fresh)
                    &&& final(self).connections() == old(self).connections().insert(fd, fresh)
                },
    {
        if fd == self.listen_fd {
            return false;
        }
        let fresh = Connection::new(fd);
        self.connections.insert(fd, fresh);
        proof {
            assert(self.keeps(fresh));
        }
        true
    }

    /// Takes the connection kept under the descriptor `fd` out of the
    /// loop, to be served and put back, or to be closed.
    pub fn take(&mut self, fd: i32) -> (r: Option<Connection>)
        requires
            old(self).wf(),
        ensures
            final(self).wf(),
            final(self).listening() == old(self).listening(),
            final(self).connections() == old(self).connections().remove(fd),
            r == old(self).connections().get(fd),
            r matches Some(connection) ==> final(self).keeps(connection) && connection.fd == fd,
    {
        self.connections.remove(&fd)
    }

    /// Puts a connection that was served back under its descriptor.
    pub fn put_back(&mut self, connection: Connection)
        requires
            old(self).wf(),
            old(self).keeps(connection),
        ensures
            final(self).wf(),
            final(self).listening() == old(self).listening(),
            final(self).connections() == old(self).connections().insert(
                connection.fd,
                connection,
            ),
    {
        self.connections.insert(connection.fd, connection);
    }
}

} // verus!
