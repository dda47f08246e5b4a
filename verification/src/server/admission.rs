//! Admission of connections by address: no address holds more than its
//! share of the connections being served.

use crate::server::registry::{PeerIp, MAX_CONNECTIONS_PER_IP};
use vstd::prelude::*;

verus! {

/// Whether `ip` is a loopback address: 127.0.0.0/8, or `::1`.
pub open spec fn spec_is_loopback(ip: PeerIp) -> bool {
    match ip {
        PeerIp::V4(bits) => bits / 0x100_0000 == 127,
        PeerIp::V6(bits) => bits == 1,
    }
}

/// Whether a server bound to `ip` can be reached from other machines,
/// which deserves a warning.
pub fn bind_is_not_loopback(ip: PeerIp) -> (r: bool)
    ensures
        r == !spec_is_loopback(ip),
{
    match ip {
        PeerIp::V4(bits) => bits / 0x100_0000 != 127,
        PeerIp::V6(bits) => bits != 1,
    }
}

/// How many connections `ip` holds, by the entries `s`.
pub open spec fn spec_held(s: Seq<(PeerIp, usize)>, ip: PeerIp) -> nat
    decreases s.len(),
{
    if s.len() == 0 {
        0
    } else if s.last().0 == ip {
        s.last().1 as nat
    } else {
        spec_held(s.drop_last(), ip)
    }
}

/// The entries name each address once, with a count from one to the share.
pub open spec fn admission_wf(s: Seq<(PeerIp, usize)>) -> bool {
    &&& forall|i: int, j: int| 0 <= i < j < s.len() ==> (#[trigger] s[i]).0 != (#[trigger] s[j]).0
    &&& forall|i: int| 0 <= i < s.len() ==> 1 <= (#[trigger] s[i]).1 <= MAX_CONNECTIONS_PER_IP
}

/// What the entries say of an address found at position `k`.
proof fn lemma_held_at(s: Seq<(PeerIp, usize)>, k: int)
    requires
        admission_wf(s),
        0 <= k < s.len(),
    ensures
        spec_held(s, s[k].0) == s[k].1,
    decreases s.len(),
{
    if k < s.len() - 1 {
        assert(s[s.len() - 1].0 != s[k].0);
        lemma_wf_prefix(s);
        assert(s.drop_last()[k] == s[k]);
        lemma_held_at(s.drop_last(), k);
    }
}

/// An address that no entry names holds nothing.
proof fn lemma_held_absent(s: Seq<(PeerIp, usize)>, ip: PeerIp)
    requires
        forall|i: int| 0 <= i < s.len() ==> (#[trigger] s[i]).0 != ip,
    ensures
        spec_held(s, ip) == 0,
    decreases s.len(),
{
    if s.len() > 0 {
        assert(s[s.len() - 1].0 != ip);
        assert forall|i: int| 0 <= i < s.len() - 1 implies (#[trigger] s.drop_last()[i]).0 != ip by {
            assert(s.drop_last()[i] == s[i]);
        }
        lemma_held_absent(s.drop_last(), ip);
    }
}

/// Dropping the last entry keeps the entries well formed.
proof fn lemma_wf_prefix(s: Seq<(PeerIp, usize)>)
    requires
        admission_wf(s),
        s.len() > 0,
    ensures
        admission_wf(s.drop_last()),
{
    let d = s.drop_last();
    assert forall|i: int, j: int| 0 <= i < j < d.len() implies (#[trigger] d[i]).0 != (
    #[trigger] d[j]).0 by {
        assert(d[i] == s[i] && d[j] == s[j]);
    }
    assert forall|i: int| 0 <= i < d.len() implies 1 <= (#[trigger] d[i]).1
        <= MAX_CONNECTIONS_PER_IP by {
        assert(d[i] == s[i]);
    }
}

/// Changing the count at position `k` changes what that address holds and
/// nothing else.
proof fn lemma_held_update(s: Seq<(PeerIp, usize)>, k: int, n: usize, ip: PeerIp)
    requires
        admission_wf(s),
        0 <= k < s.len(),
    ensures
        spec_held(s.update(k, (s[k].0, n)), ip) == if ip == s[k].0 {
            n as nat
        } else {
            spec_held(s, ip)
        },
    decreases s.len(),
{
    let t = s.update(k, (s[k].0, n));
    if k < s.len() - 1 {
        lemma_wf_prefix(s);
        assert(t.drop_last() =~= s.drop_last().update(k, (s[k].0, n)));
        assert(s.drop_last()[k] == s[k]);
        lemma_held_update(s.drop_last(), k, n, ip);
        assert(s[s.len() - 1].0 != s[k].0);
    } else {
        assert(t.drop_last() =~= s.drop_last());
    }
}

/// Removing the entry at position `k` leaves that address with nothing and
/// every other address as it was.
proof fn lemma_held_remove(s: Seq<(PeerIp, usize)>, k: int, ip: PeerIp)
    requires
        admission_wf(s),
        0 <= k < s.len(),
    ensures
        spec_held(s.remove(k), ip) == if ip == s[k].0 {
            0
        } else {
            spec_held(s, ip)
        },
        admission_wf(s.remove(k)),
    decreases s.len(),
{
    let t = s.remove(k);
    assert forall|i: int, j: int| 0 <= i < j < t.len() implies (#[trigger] t[i]).0 != (
    #[trigger] t[j]).0 by {
        let a = if i < k {
            i
        } else {
            i + 1
        };
        let b = if j < k {
            j
        } else {
            j + 1
        };
        assert(t[i] == s[a] && t[j] == s[b]);
    }
    assert forall|i: int| 0 <= i < t.len() implies 1 <= (#[trigger] t[i]).1
        <= MAX_CONNECTIONS_PER_IP by {
        let a = if i < k {
            i
        } else {
            i + 1
        };
        assert(t[i] == s[a]);
    }
    if ip == s[k].0 {
        assert forall|i: int| 0 <= i < t.len() implies (#[trigger] t[i]).0 != ip by {
            let a = if i < k {
                i
            } else {
                i + 1
            };
            assert(t[i] == s[a]);
        }
        lemma_held_absent(t, ip);
    } else if k < s.len() - 1 {
        lemma_wf_prefix(s);
        assert(t.drop_last() =~= s.drop_last().remove(k));
        assert(s.drop_last()[k] == s[k]);
        lemma_held_remove(s.drop_last(), k, ip);
        assert(t.last() == s.last());
    } else {
        assert(t =~= s.drop_last());
    }
}

/// What each address holds after admitting one more connection from `ip`,
/// which happens unless `ip` already holds its share.
pub open spec fn held_after_admit(held: spec_fn(PeerIp) -> nat, ip: PeerIp) -> spec_fn(PeerIp) -> nat {
    |other: PeerIp|
        if other == ip && held(ip) < MAX_CONNECTIONS_PER_IP {
            held(other) + 1
        } else {
            held(other)
        }
}

/// What each address holds after `ip` gives back a connection.
pub open spec fn held_after_release(held: spec_fn(PeerIp) -> nat, ip: PeerIp) -> spec_fn(PeerIp) -> nat {
    |other: PeerIp|
        if other == ip && held(ip) > 0 {
            (held(other) - 1) as nat
        } else {
            held(other)
        }
}

/// How many connections each address holds.
pub struct IpAdmission {
    entries: Vec<(PeerIp, usize)>,
}

impl IpAdmission {
    /// How many connections `ip` holds.
    pub closed spec fn held(&self, ip: PeerIp) -> nat {
        spec_held(self.entries@, ip)
    }

    /// How many connections each address holds.
    pub open spec fn holdings(&self) -> spec_fn(PeerIp) -> nat {
        |ip: PeerIp| self.held(ip)
    }

    /// The counts are well formed.
    pub closed spec fn wf(&self) -> bool {
        admission_wf(self.entries@)
    }

    /// No address holds a connection.
    pub fn new() -> (r: IpAdmission)
        ensures
            r.wf(),
            forall|ip: PeerIp| r.held(ip) == 0,
    {
        IpAdmission { entries: Vec::new() }
    }

    /// The position of the entry of `ip`, if any.
    fn position(&self, ip: PeerIp) -> (r: Option<usize>)
        requires
            self.wf(),
        ensures
            match r {
                Some(k) => k < self.entries@.len() && self.entries@[k as int].0 == ip,
                None => forall|i: int| 0 <= i < self.entries@.len() ==> (#[trigger] self.entries@[i]).0 != ip,
            },
    {
        let mut i: usize = 0;
        while i < self.entries.len()
            invariant
                i <= self.entries@.len(),
                forall|k: int| 0 <= k < i ==> (#[trigger] self.entries@[k]).0 != ip,
            decreases self.entries@.len() - i,
        {
            if self.entries[i].0 == ip {
                return Some(i);
            }
            i = i + 1;
        }
        None
    }

    /// How many connections `ip` holds.
    pub fn held_by(&self, ip: PeerIp) -> (r: usize)
        requires
            self.wf(),
        ensures
            r == self.held(ip),
    {
        match self.position(ip) {
            Some(k) => {
                proof {
                    lemma_held_at(self.entries@, k as int);
                }
                self.entries[k].1
            },
            None => {
                proof {
                    lemma_held_absent(self.entries@, ip);
                }
                0
            },
        }
    }

    /// Admits one more connection from `ip`, unless it already holds its
    /// share; tells whether it did.
    pub fn try_admit(&mut self, ip: PeerIp) -> (admitted: bool)
        requires
            old(self).wf(),
        ensures
            final(self).wf(),
            admitted == (old(self).held(ip) < MAX_CONNECTIONS_PER_IP),
            admitted ==> final(self).held(ip) == old(self).held(ip) + 1,
            !admitted ==> final(self).held(ip) == old(self).held(ip),
            forall|other: PeerIp| other != ip ==> #[trigger] final(self).held(other) == old(self).held(other),
            final(self).holdings() == held_after_admit(old(self).holdings(), ip),
    {
        let r = self.admit_one(ip);
        assert(self.holdings() =~= held_after_admit(old(self).holdings(), ip));
        r
    }

    /// Admits one more connection from `ip`, unless it already holds its
    /// share.
    fn admit_one(&mut self, ip: PeerIp) -> (admitted: bool)
        requires
            old(self).wf(),
        ensures
            final(self).wf(),
            admitted == (old(self).held(ip) < MAX_CONNECTIONS_PER_IP),
            admitted ==> final(self).held(ip) == old(self).held(ip) + 1,
            !admitted ==> final(self).held(ip) == old(self).held(ip),
            forall|other: PeerIp| other != ip ==> #[trigger] final(self).held(other) == old(self).held(other),
    {
        match self.position(ip) {
            Some(k) => {
                proof {
                    lemma_held_at(self.entries@, k as int);
                }
                let count = self.entries[k].1;
                if count >= MAX_CONNECTIONS_PER_IP {
                    return false;
                }
                let ghost before = self.entries@;
                self.entries.set(k, (ip, count + 1));
                proof {
                    assert(self.entries@ =~= before.update(k as int, (before[k as int].0, (count + 1) as usize)));
                    assert forall|other: PeerIp| #[trigger] self.held(other) == if other == ip {
                        (count + 1) as nat
                    } else {
                        spec_held(before, other)
                    } by {
                        lemma_held_update(before, k as int, (count + 1) as usize, other);
                    }
                    assert forall|i: int, j: int| 0 <= i < j < self.entries@.len() implies (
                    #[trigger] self.entries@[i]).0 != (#[trigger] self.entries@[j]).0 by {
                        assert(before[i].0 != before[j].0);
                    }
                    assert forall|i: int| 0 <= i < self.entries@.len() implies 1 <= (
                    #[trigger] self.entries@[i]).1 <= MAX_CONNECTIONS_PER_IP by {
                        assert(before[i].1 >= 1);
                    }
                }
                true
            },
            None => {
                let ghost before = self.entries@;
                proof {
                    lemma_held_absent(before, ip);
                }
                self.entries.push((ip, 1));
                proof {
                    assert(self.entries@.drop_last() =~= before);
                    assert forall|other: PeerIp| other != ip implies #[trigger] self.held(other)
                        == spec_held(before, other) by {}
                    assert forall|i: int, j: int| 0 <= i < j < self.entries@.len() implies (
                    #[trigger] self.entries@[i]).0 != (#[trigger] self.entries@[j]).0 by {
                        if j < before.len() {
                            assert(before[i].0 != before[j].0);
                        } else {
                            assert(self.entries@[i] == before[i]);
                        }
                    }
                    assert forall|i: int| 0 <= i < self.entries@.len() implies 1 <= (
                    #[trigger] self.entries@[i]).1 <= MAX_CONNECTIONS_PER_IP by {
                        if i < before.len() {
                            assert(self.entries@[i] == before[i]);
                        }
                    }
                }
                true
            },
        }
    }

    /// Gives back one connection of `ip`; an address left with none is
    /// forgotten.
    pub fn release(&mut self, ip: PeerIp)
        requires
            old(self).wf(),
        ensures
            final(self).wf(),
            final(self).held(ip) == if old(self).held(ip) > 0 {
                old(self).held(ip) - 1
            } else {
                0
            },
            forall|other: PeerIp| other != ip ==> #[trigger] final(self).held(other) == old(self).held(other),
            final(self).holdings() == held_after_release(old(self).holdings(), ip),
    {
        self.release_one(ip);
        assert(self.holdings() =~= held_after_release(old(self).holdings(), ip));
    }

    /// Gives back one connection of `ip`.
    fn release_one(&mut self, ip: PeerIp)
        requires
            old(self).wf(),
        ensures
            final(self).wf(),
            final(self).held(ip) == if old(self).held(ip) > 0 {
                old(self).held(ip) - 1
            } else {
                0
            },
            forall|other: PeerIp| other != ip ==> #[trigger] final(self).held(other) == old(self).held(other),
    {
        match self.position(ip) {
            Some(k) => {
                let ghost before = self.entries@;
                proof {
                    lemma_held_at(before, k as int);
                }
                let count = self.entries[k].1;
                if count <= 1 {
                    self.entries.remove(k);
                    proof {
                        assert forall|other: PeerIp| #[trigger] self.held(other) == if other == ip {
                            0
                        } else {
                            spec_held(before, other)
                        } by {
                            lemma_held_remove(before, k as int, other);
                        }
                        lemma_held_remove(before, k as int, ip);
                    }
                } else {
                    self.entries.set(k, (ip, count - 1));
                    proof {
                        assert(self.entries@ =~= before.update(
                            k as int,
                            (before[k as int].0, (count - 1) as usize),
                        ));
                        assert forall|other: PeerIp| #[trigger] self.held(other) == if other == ip {
                            (count - 1) as nat
                        } else {
                            spec_held(before, other)
                        } by {
                            lemma_held_update(before, k as int, (count - 1) as usize, other);
                        }
                        assert forall|i: int, j: int| 0 <= i < j < self.entries@.len() implies (
                        #[trigger] self.entries@[i]).0 != (#[trigger] self.entries@[j]).0 by {
                            assert(before[i].0 != before[j].0);
                        }
                        assert forall|i: int| 0 <= i < self.entries@.len() implies 1 <= (
                        #[trigger] self.entries@[i]).1 <= MAX_CONNECTIONS_PER_IP by {
                            assert(before[i].1 <= MAX_CONNECTIONS_PER_IP);
                        }
                    }
                }
            },
            None => {
                proof {
                    lemma_held_absent(self.entries@, ip);
                }
            },
        }
    }
}

/// Law: admitting a connection and then giving it back leaves every address
/// holding what it held.
pub proof fn lemma_release_undoes_admit(held: spec_fn(PeerIp) -> nat, ip: PeerIp)
    requires
        held(ip) < MAX_CONNECTIONS_PER_IP,
    ensures
        held_after_release(held_after_admit(held, ip), ip) == held,
{
    assert(held_after_release(held_after_admit(held, ip), ip) =~= held);
}

} // verus!
