//! A network device with no link layer: queues of IP packets in and out.
use std::collections::VecDeque;
use vstd::prelude::*;

verus! {

/// A device with no link layer. `rx` holds decrypted inbound IP packets (filled by
/// the tunnel loop before each poll); packets that the stack transmits are pushed
/// into `tx` for the tunnel loop to encapsulate after each poll.
pub struct VirtualDevice {
    pub rx: VecDeque<Vec<u8>>,
    pub tx: VecDeque<Vec<u8>>,
    pub mtu: usize,
}

/// One received packet.
pub struct Rx(pub Vec<u8>);

/// The right to transmit one packet into a queue.
pub struct Tx<'a>(pub &'a mut VecDeque<Vec<u8>>);

/// The packets of a queue.
pub open spec fn packets(q: VecDeque<Vec<u8>>) -> Seq<Seq<u8>> {
    q@.map_values(|p: Vec<u8>| p@)
}

/// The content of a [`VirtualDevice`].
pub struct DeviceView {
    pub rx: Seq<Seq<u8>>,
    pub tx: Seq<Seq<u8>>,
    pub mtu: usize,
}

impl View for VirtualDevice {
    type V = DeviceView;

    open spec fn view(&self) -> DeviceView {
        DeviceView { rx: packets(self.rx), tx: packets(self.tx), mtu: self.mtu }
    }
}

impl Rx {
    /// Hands the packet to `f`.
    pub fn consume<R, F: FnOnce(&[u8]) -> R>(self, f: F) -> (r: R)
        requires
            forall|b: &[u8]| b@ == self.0@ ==> call_requires(f, (b,)),
        ensures
            exists|b: &[u8]| b@ == self.0@ && #[trigger] call_ensures(f, (b,), r),
    {
        f(self.0.as_slice())
    }
}

impl<'a> Tx<'a> {
    /// Lets `f` fill a packet of `len` bytes, all zero at first, and puts the packet at
    /// the end of the queue.
    pub fn consume<R, F: FnOnce(&mut [u8]) -> R>(self, len: usize, f: F) -> (r: R)
        requires
            forall|b: &mut [u8]| b@.len() == len ==> call_requires(f, (b,)),
        ensures
            exists|b: &mut [u8]|
                #[trigger] call_ensures(f, (b,), r) && b@ == Seq::new(len as nat, |i: int| 0u8)
                    && packets(*final(self.0)) == packets(*old(self.0)).push(final(b)@),
    {
        let mut buf: Vec<u8> = vec![0u8; len];
        assert(buf@ =~= Seq::new(len as nat, |i: int| 0u8));
        let r = f(buf.as_mut_slice());
        let ghost before = *self.0;
        self.0.push_back(buf);
        assert(packets(*self.0) =~= packets(before).push(buf@));
        r
    }
}

impl VirtualDevice {
    pub fn new(mtu: usize) -> (r: Self)
        ensures
            r@ == (DeviceView { rx: Seq::empty(), tx: Seq::empty(), mtu }),
    {
        let r = VirtualDevice { rx: VecDeque::new(), tx: VecDeque::new(), mtu };
        assert(r@.rx =~= Seq::empty() && r@.tx =~= Seq::empty());
        r
    }

    /// The oldest inbound packet, with the right to transmit one in answer.
    pub fn receive(&mut self) -> (r: Option<(Rx, Tx<'_>)>)
        ensures
            final(self)@.mtu == old(self)@.mtu,
            match r {
                Some((rx, tx)) => {
                    &&& old(self)@.rx.len() > 0
                    &&& rx.0@ == old(self)@.rx[0]
                    &&& final(self)@.rx == old(self)@.rx.drop_first()
                    &&& packets(*tx.0) == old(self)@.tx
                    &&& packets(*final(tx.0)) == final(self)@.tx
                },
                None => old(self)@.rx.len() == 0 && final(self)@ == old(self)@,
            },
    {
        match self.rx.pop_front() {
            Some(pkt) => {
                assert(self@.rx =~= old(self)@.rx.drop_first());
                Some((Rx(pkt), Tx(&mut self.tx)))
            },
            None => {
                assert(self@.rx =~= old(self)@.rx);
                None
            },
        }
    }

    /// The right to transmit one packet.
    pub fn transmit(&mut self) -> (r: Tx<'_>)
        ensures
            final(self)@.mtu == old(self)@.mtu,
            final(self)@.rx == old(self)@.rx,
            packets(*r.0) == old(self)@.tx,
            packets(*final(r.0)) == final(self)@.tx,
    {
        Tx(&mut self.tx)
    }

    /// Queues an inbound packet.
    pub fn deliver(&mut self, packet: Vec<u8>)
        ensures
            final(self)@ == (DeviceView { rx: old(self)@.rx.push(packet@), ..old(self)@ }),
    {
        let ghost before = self@;
        self.rx.push_back(packet);
        assert(self@.rx =~= before.rx.push(packet@));
    }

    /// Takes the packets that were transmitted, oldest first.
    pub fn drain_tx(&mut self) -> (r: Vec<Vec<u8>>)
        ensures
            r@.map_values(|p: Vec<u8>| p@) == old(self)@.tx,
            final(self)@ == (DeviceView { tx: Seq::empty(), ..old(self)@ }),
    {
        let mut r: Vec<Vec<u8>> = Vec::new();
        let ghost all = self.tx@;
        let ghost mut taken: int = 0;
        assert(all.skip(0) =~= all);
        while self.tx.len() > 0
            invariant
                0 <= taken <= all.len(),
                r@ == all.take(taken),
                self.tx@ == all.skip(taken),
                self.rx == old(self).rx,
                self.mtu == old(self).mtu,
            decreases all.len() - taken,
        {
            match self.tx.pop_front() {
                Some(p) => {
                    r.push(p);
                    proof {
                        assert(all.take(taken + 1) =~= all.take(taken).push(all[taken]));
                        assert(all.skip(taken).subrange(1, all.len() - taken) =~= all.skip(taken + 1));
                        taken = taken + 1;
                    }
                },
                None => {},
            }
        }
        assert(r@ =~= all);
        assert(self@.tx =~= Seq::empty());
        r
    }
}

} // verus!
