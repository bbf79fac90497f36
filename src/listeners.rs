use vstd::prelude::*;
use crate::address::SocketAddress;

verus! {

/// What the caller that owns the sockets does next while bringing up listeners.
#[derive(Clone, Copy, Debug, PartialEq, Eq, Structural)]
pub enum InitAction {
    /// Bind this address, then report the outcome with `report_bind`.
    Bind(SocketAddress),
    /// Release this bound address, then call `report_released`.
    Release(SocketAddress),
    /// Every requested address is bound: initialization succeeded.
    Ready,
    /// A bind failed and everything bound before it has been released.
    Abort,
}

/// Bringing up a set of listen addresses all together or not at all.
///
/// Addresses are bound in the order given. When one fails, the ones bound before
/// it are released, newest first, and initialization fails with nothing left bound.
pub struct ListenerInit {
    pub requested: Vec<SocketAddress>,
    pub bound: Vec<SocketAddress>,
    pub failed: bool,
}

impl ListenerInit {
    /// The bound addresses are always the first ones requested.
    pub open spec fn wf(&self) -> bool {
        &&& self.bound@.len() <= self.requested@.len()
        &&& self.bound@ == self.requested@.take(self.bound@.len() as int)
    }

    /// The action that the state calls for.
    pub open spec fn action_of(&self) -> InitAction {
        if self.failed {
            if self.bound@.len() == 0 {
                InitAction::Abort
            } else {
                InitAction::Release(self.bound@.last())
            }
        } else if self.bound@.len() < self.requested@.len() {
            InitAction::Bind(self.requested@[self.bound@.len() as int])
        } else {
            InitAction::Ready
        }
    }

    pub fn new(requested: Vec<SocketAddress>) -> (r: ListenerInit)
        ensures
            r.wf(),
            r.requested@ == requested@,
            r.bound@.len() == 0,
            !r.failed,
    {
        let r = ListenerInit { requested, bound: Vec::new(), failed: false };
        assert(r.requested@.take(0) =~= r.bound@);
        r
    }

    /// The next thing to do.
    pub fn next_action(&self) -> (r: InitAction)
        requires
            self.wf(),
        ensures
            r == self.action_of(),
    {
        if self.failed {
            if self.bound.len() == 0 {
                InitAction::Abort
            } else {
                InitAction::Release(self.bound[self.bound.len() - 1])
            }
        } else if self.bound.len() < self.requested.len() {
            InitAction::Bind(self.requested[self.bound.len()])
        } else {
            InitAction::Ready
        }
    }

    /// Records the outcome of the `Bind` action.
    pub fn report_bind(&mut self, ok: bool)
        requires
            old(self).wf(),
            old(self).action_of() is Bind,
        ensures
            final(self).wf(),
            final(self).requested@ == old(self).requested@,
            ok ==> !final(self).failed && final(self).bound@ == old(self).bound@.push(
                old(self).requested@[old(self).bound@.len() as int],
            ),
            !ok ==> final(self).failed && final(self).bound@ == old(self).bound@,
    {
        if ok {
            let a = self.requested[self.bound.len()];
            self.bound.push(a);
            assert(self.bound@ =~= self.requested@.take(self.bound@.len() as int));
        } else {
            self.failed = true;
        }
    }

    /// Records that the address of the `Release` action has been released.
    pub fn report_released(&mut self)
        requires
            old(self).wf(),
            old(self).action_of() is Release,
        ensures
            final(self).wf(),
            final(self).failed,
            final(self).requested@ == old(self).requested@,
            final(self).bound@ == old(self).bound@.drop_last(),
    {
        self.bound.pop();
        assert(self.bound@ =~= self.requested@.take(self.bound@.len() as int));
    }

    /// Tears everything down, as when the owner goes away: returns the addresses
    /// to release, newest first, and leaves nothing bound.
    pub fn teardown(&mut self) -> (r: Vec<SocketAddress>)
        ensures
            r@ == old(self).bound@.reverse(),
            final(self).bound@.len() == 0,
            final(self).requested@ == old(self).requested@,
            final(self).failed == old(self).failed,
    {
        let mut r: Vec<SocketAddress> = Vec::new();
        let ghost b = self.bound@;
        while self.bound.len() > 0
            invariant
                self.requested@ == old(self).requested@,
                self.failed == old(self).failed,
                b == old(self).bound@,
                self.bound@.len() <= b.len(),
                self.bound@ == b.take(self.bound@.len() as int),
                r@ == b.skip(self.bound@.len() as int).reverse(),
            decreases self.bound@.len(),
        {
            let ghost n = self.bound@.len() as int;
            let a = self.bound.pop().unwrap();
            assert(a == b[n - 1]);
            assert(self.bound@ =~= b.take(n - 1));
            assert(r@.push(a) =~= b.skip(n - 1).reverse());
            r.push(a);
        }
        assert(b.skip(0) =~= b);
        r
    }
}

/// The addresses a running network listens on, grown by `listen` after start-up.
/// Each new address is handled on its own: one that fails to bind leaves the
/// others as they are, and an address already bound is not bound twice.
pub struct ListenerSet {
    pub bound: Vec<SocketAddress>,
}

impl ListenerSet {
    /// No address is listed twice.
    pub open spec fn wf(&self) -> bool {
        forall|i: int, j: int| 0 <= i < j < self.bound@.len() ==> self.bound@[i] != self.bound@[j]
    }

    /// The set left by a completed start-up.
    pub fn from_init(init: ListenerInit) -> (r: Option<ListenerSet>)
        requires
            init.wf(),
        ensures
            init.action_of() == InitAction::Ready ==> r == Some(ListenerSet { bound: init.bound }),
            init.action_of() != InitAction::Ready ==> r is None,
    {
        if init.next_action() == InitAction::Ready {
            Some(ListenerSet { bound: init.bound })
        } else {
            None
        }
    }

    /// Whether `addr` is bound.
    pub fn contains(&self, addr: SocketAddress) -> (r: bool)
        ensures
            r == self.bound@.contains(addr),
    {
        let mut i: usize = 0;
        while i < self.bound.len()
            invariant
                i <= self.bound@.len(),
                forall|j: int| 0 <= j < i ==> self.bound@[j] != addr,
            decreases self.bound@.len() - i,
        {
            if self.bound[i] == addr {
                assert(self.bound@[i as int] == addr);
                return true;
            }
            i = i + 1;
        }
        false
    }

    /// Records the outcome of binding `addr`: added when it bound and was not
    /// there yet; otherwise nothing changes.
    pub fn record_listen(&mut self, addr: SocketAddress, ok: bool)
        ensures
            old(self).wf() ==> final(self).wf(),
            ok && !old(self).bound@.contains(addr) ==> final(self).bound@ == old(self).bound@.push(
                addr,
            ),
            !ok || old(self).bound@.contains(addr) ==> final(self).bound@ == old(self).bound@,
    {
        if ok && !self.contains(addr) {
            self.bound.push(addr);
            assert forall|i: int, j: int|
                old(self).wf() && 0 <= i < j < self.bound@.len() implies self.bound@[i]
                != self.bound@[j] by {
                if j == self.bound@.len() - 1 {
                    assert(old(self).bound@[i] == self.bound@[i]);
                    assert(old(self).bound@.contains(self.bound@[i]));
                }
            }
        }
    }
}

/// When binding the `k`-th address (counting from one) fails, initialization
/// ends in `Abort` with nothing bound, after releasing exactly the `k - 1`
/// addresses bound before it, newest first: no partial set stays bound.
pub proof fn lemma_init_atomic(s: ListenerInit, k: nat)
    requires
        s.wf(),
        s.failed,
        s.bound@.len() + 1 == k,
        k <= s.requested@.len(),
    ensures
        released_from(s.bound@) == s.requested@.take(k - 1).reverse(),
        forall|i: int| 0 <= i < k - 1 ==> #[trigger] released_from(s.bound@).contains(s.requested@[i]),
{
    let r = s.requested@.take(k - 1);
    assert(s.bound@ =~= r);
    assert forall|i: int| 0 <= i < k - 1 implies #[trigger] released_from(s.bound@).contains(s.requested@[i]) by {
        assert(r.reverse()[k - 2 - i] == s.requested@[i]);
    }
}

/// The addresses that rolling back releases from a bound stack, in order.
pub open spec fn released_from(bound: Seq<SocketAddress>) -> Seq<SocketAddress> {
    bound.reverse()
}

} // verus!
