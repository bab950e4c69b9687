//! The ingestion supervisor: the ordered collection of channels, keyed by
//! device identifier, and the aggregate display bounds for the rendering
//! consumer.

use crate::channel::ChannelController;
use vstd::prelude::*;

verus! {

/// Why a channel could not be added.
#[derive(PartialEq, Eq, Structural, Clone, Copy, Debug)]
pub enum AddChannelError {
    /// A channel for that device identifier already exists.
    DuplicateDevice,
    /// Every candidate device already has a channel.
    NoUnassignedDevice,
}

/// Why a channel could not be removed.
#[derive(PartialEq, Eq, Structural, Clone, Copy, Debug)]
pub enum RemoveChannelError {
    /// The channel is running; the operator must stop it first.
    Running,
    /// No channel exists for that device identifier.
    NoSuchDevice,
}

/// Index of the first channel for `port`, or `s.len()` when none exists.
pub open spec fn index_of_port(s: Seq<ChannelController>, port: Seq<char>) -> int
    decreases s.len(),
{
    if s.len() == 0 {
        0
    } else if s[0].config.setting.port@ == port {
        0
    } else {
        1 + index_of_port(s.skip(1), port)
    }
}

pub open spec fn has_port(s: Seq<ChannelController>, port: Seq<char>) -> bool {
    exists|i: int| 0 <= i < s.len() && #[trigger] s[i].config.setting.port@ == port
}

proof fn lemma_index_of_port(s: Seq<ChannelController>, port: Seq<char>)
    ensures
        0 <= index_of_port(s, port) <= s.len(),
        index_of_port(s, port) < s.len() ==> s[index_of_port(s, port)].config.setting.port@
            == port,
        forall|i: int| 0 <= i < index_of_port(s, port) ==> s[i].config.setting.port@ != port,
        has_port(s, port) <==> index_of_port(s, port) < s.len(),
    decreases s.len(),
{
    if s.len() > 0 && s[0].config.setting.port@ != port {
        lemma_index_of_port(s.skip(1), port);
        assert forall|i: int| 0 <= i < index_of_port(s, port) implies s[i].config.setting.port@
            != port by {
            if i > 0 {
                assert(s.skip(1)[i - 1] == s[i]);
            }
        }
        if index_of_port(s, port) < s.len() {
            assert(s.skip(1)[index_of_port(s, port) - 1] == s[index_of_port(s, port)]);
        }
        if has_port(s, port) {
            let w = choose|i: int|
                0 <= i < s.len() && #[trigger] s[i].config.setting.port@ == port;
            assert(w > 0);
            assert(s.skip(1)[w - 1] == s[w]);
            assert(has_port(s.skip(1), port));
        }
        if index_of_port(s, port) < s.len() {
            assert(has_port(s, port));
        }
    }
}

/// The lowest display lower bound across the channels, or the documented
/// default of 0 units when there are none.
pub open spec fn min_display_lo(s: Seq<ChannelController>) -> int
    decreases s.len(),
{
    if s.len() == 0 {
        0
    } else if s.len() == 1 {
        s[0].config.display_lo()
    } else {
        let rest = min_display_lo(s.drop_last());
        let x = s.last().config.display_lo();
        if x < rest {
            x
        } else {
            rest
        }
    }
}

/// The highest display upper bound across the channels, or the documented
/// default of 1024 units when there are none.
pub open spec fn max_display_hi(s: Seq<ChannelController>) -> int
    decreases s.len(),
{
    if s.len() == 0 {
        1_024_000_000
    } else if s.len() == 1 {
        s[0].config.display_hi()
    } else {
        let rest = max_display_hi(s.drop_last());
        let x = s.last().config.display_hi();
        if x > rest {
            x
        } else {
            rest
        }
    }
}

/// Owns the channels, in creation order, at most one per device
/// identifier.
pub struct Supervisor {
    pub channels: Vec<ChannelController>,
    pub port_choice: Vec<String>,
    pub look_behind: usize,
}

impl Supervisor {
    pub open spec fn wf(&self) -> bool {
        &&& self.look_behind >= 1
        &&& forall|i: int| 0 <= i < self.channels@.len() ==> (#[trigger] self.channels@[i]).wf()
        &&& forall|i: int, j: int|
            0 <= i < j < self.channels@.len() ==> (
            #[trigger] self.channels@[i]).config.setting.port@ != (
            #[trigger] self.channels@[j]).config.setting.port@
    }

    /// A supervisor with no channels, the given candidate devices, and the
    /// default window of 2000 samples.
    pub fn new(ports: Vec<String>) -> (r: Supervisor)
        ensures
            r.wf(),
            r.channels@.len() == 0,
            r.port_choice == ports,
            r.look_behind == 2000,
    {
        Supervisor { channels: Vec::new(), port_choice: ports, look_behind: 2000 }
    }

    /// Adds a stopped channel with the default configuration and the
    /// current global window size for `port`. Rejected when a channel for
    /// that device already exists, or when every candidate device already
    /// has one.
    pub fn add_channel(&mut self, port: String) -> (r: Result<(), AddChannelError>)
        requires
            old(self).wf(),
        ensures
            final(self).wf(),
            final(self).look_behind == old(self).look_behind,
            final(self).port_choice == old(self).port_choice,
            r == (if has_port(old(self).channels@, port@) {
                Err::<(), AddChannelError>(AddChannelError::DuplicateDevice)
            } else if old(self).channels@.len() >= old(self).port_choice@.len() {
                Err::<(), AddChannelError>(AddChannelError::NoUnassignedDevice)
            } else {
                Ok::<(), AddChannelError>(())
            }),
            r is Err ==> final(self).channels == old(self).channels,
            r is Ok ==> {
                &&& final(self).channels@.len() == old(self).channels@.len() + 1
                &&& final(self).channels@.drop_last() == old(self).channels@
                &&& final(self).channels@.last().config.setting.port@ == port@
                &&& !final(self).channels@.last().is_running
                &&& !final(self).channels@.last().config.enable_convert
                &&& final(self).channels@.last().buffer.cap == old(self).look_behind
                &&& final(self).channels@.last().buffer.history@.len() == 0
            },
    {
        let n = self.channels.len();
        let mut i: usize = 0;
        while i < n
            invariant
                i <= n,
                n == self.channels@.len(),
                self == old(self),
                self.wf(),
                forall|j: int|
                    0 <= j < i ==> (#[trigger] self.channels@[j]).config.setting.port@ != port@,
            decreases n - i,
        {
            if self.channels[i].config.setting.port == port {
                proof {
                    assert(self.channels@[i as int].config.setting.port@ == port@);
                }
                return Err(AddChannelError::DuplicateDevice);
            }
            i += 1;
        }
        if n >= self.port_choice.len() {
            return Err(AddChannelError::NoUnassignedDevice);
        }
        let c = ChannelController::new(port, self.look_behind);
        self.channels.push(c);
        proof {
            assert(final(self).channels@.drop_last() =~= old(self).channels@);
        }
        Ok(())
    }

    /// Removes the channel for `port`. Rejected while that channel runs:
    /// the operator must stop it first. Creation order of the others is
    /// kept.
    pub fn remove_channel(&mut self, port: &String) -> (r: Result<(), RemoveChannelError>)
        requires
            old(self).wf(),
        ensures
            final(self).wf(),
            final(self).look_behind == old(self).look_behind,
            final(self).port_choice == old(self).port_choice,
            ({
                let idx = index_of_port(old(self).channels@, port@);
                &&& r == (if !has_port(old(self).channels@, port@) {
                    Err::<(), RemoveChannelError>(RemoveChannelError::NoSuchDevice)
                } else if old(self).channels@[idx].is_running {
                    Err::<(), RemoveChannelError>(RemoveChannelError::Running)
                } else {
                    Ok::<(), RemoveChannelError>(())
                })
                &&& r is Ok ==> final(self).channels@ == old(self).channels@.remove(idx)
                &&& r is Err ==> final(self).channels == old(self).channels
            }),
    {
        proof {
            lemma_index_of_port(old(self).channels@, port@);
        }
        let n = self.channels.len();
        let mut i: usize = 0;
        while i < n
            invariant
                i <= n,
                n == self.channels@.len(),
                self == old(self),
                self.wf(),
                forall|j: int|
                    0 <= j < i ==> (#[trigger] self.channels@[j]).config.setting.port@ != port@,
            decreases n - i,
        {
            if self.channels[i].config.setting.port == *port {
                proof {
                    lemma_index_of_port(old(self).channels@, port@);
                    assert(self.channels@[i as int] == old(self).channels@[i as int]);
                    assert(old(self).channels@[i as int].config.setting.port@ == port@);
                    assert(has_port(old(self).channels@, port@));
                    let idx = index_of_port(old(self).channels@, port@);
                    if idx < i as int {
                        assert(self.channels@[idx] == old(self).channels@[idx]);
                        assert(self.channels@[idx].config.setting.port@ != port@);
                    }
                    assert(idx == i as int);
                }
                if self.channels[i].is_running {
                    return Err(RemoveChannelError::Running);
                }
                self.channels.remove(i);
                proof {
                    let oldc = old(self).channels@;
                    assert(self.channels@ =~= oldc.remove(i as int));
                    assert forall|p: int, q: int|
                        0 <= p < q < self.channels@.len() implies (
                    #[trigger] self.channels@[p]).config.setting.port@ != (
                    #[trigger] self.channels@[q]).config.setting.port@ by {
                        let p0 = if p < i as int {
                            p
                        } else {
                            p + 1
                        };
                        let q0 = if q < i as int {
                            q
                        } else {
                            q + 1
                        };
                        assert(self.channels@[p] == oldc[p0]);
                        assert(self.channels@[q] == oldc[q0]);
                    }
                }
                return Ok(());
            }
            i += 1;
        }
        proof {
            assert(!has_port(old(self).channels@, port@));
        }
        Err(RemoveChannelError::NoSuchDevice)
    }

    /// Re-reads the candidate device list. An empty result clears every
    /// channel — no valid devices means no valid channels; the embedding
    /// program must stop the readers of running channels before the call.
    /// A non-empty result replaces the candidates and leaves the channels
    /// alone.
    pub fn refresh_devices(&mut self, devices: Vec<String>)
        requires
            old(self).wf(),
        ensures
            final(self).wf(),
            final(self).look_behind == old(self).look_behind,
            final(self).port_choice == devices,
            devices@.len() == 0 ==> final(self).channels@.len() == 0,
            devices@.len() > 0 ==> final(self).channels == old(self).channels,
    {
        if devices.len() == 0 {
            self.channels = Vec::new();
        }
        self.port_choice = devices;
    }

    /// Sets the global window size used for channels created from now on.
    /// Rejected for a zero size.
    pub fn set_look_behind(&mut self, n: usize) -> (r: bool)
        requires
            old(self).wf(),
        ensures
            final(self).wf(),
            r == (n >= 1),
            r ==> final(self).look_behind == n && final(self).channels == old(self).channels
                && final(self).port_choice == old(self).port_choice,
            !r ==> *final(self) == *old(self),
    {
        if n >= 1 {
            self.look_behind = n;
            true
        } else {
            false
        }
    }

    /// The axis bounds for the rendering consumer: the lowest display
    /// lower bound and the highest display upper bound across all
    /// channels, or 0 to 1024 units when there are none.
    pub fn global_bounds(&self) -> (r: (i64, i64))
        ensures
            r.0 == min_display_lo(self.channels@),
            r.1 == max_display_hi(self.channels@),
    {
        let n = self.channels.len();
        if n == 0 {
            return (0, 1_024_000_000);
        }
        let first = self.channels[0].display_bounds();
        let mut mn = first.0;
        let mut mx = first.1;
        let mut i: usize = 1;
        proof {
            assert(self.channels@.take(1).len() == 1);
            assert(self.channels@.take(1)[0] == self.channels@[0]);
        }
        while i < n
            invariant
                1 <= i <= n,
                n == self.channels@.len(),
                mn == min_display_lo(self.channels@.take(i as int)),
                mx == max_display_hi(self.channels@.take(i as int)),
            decreases n - i,
        {
            let b = self.channels[i].display_bounds();
            proof {
                let t = self.channels@.take(i as int + 1);
                assert(t.drop_last() =~= self.channels@.take(i as int));
                assert(t.last() == self.channels@[i as int]);
            }
            if b.0 < mn {
                mn = b.0;
            }
            if b.1 > mx {
                mx = b.1;
            }
            i += 1;
        }
        proof {
            assert(self.channels@.take(n as int) =~= self.channels@);
        }
        (mn, mx)
    }
}

} // verus!
