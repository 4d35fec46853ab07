//! Output slots: where a node's value lives between its production and its last
//! consumption.
//!
//! A slot is written once. Its value is released only when every consumer has reached a
//! terminal state and every consumer's work has returned, so that a consumer that was
//! given up on but still runs keeps its input. What the value occupies is charged to the
//! [`ResidencyLedger`] when the slot is filled, and returned exactly once, when the value
//! leaves the slot.

use crate::handle::NodeId;
use vstd::prelude::*;

verus! {

/// How much output residency is counted now, and the most that ever was.
pub struct LedgerView {
    pub current: u64,
    pub peak: u64,
}

/// Counts the bytes that produced values occupy.
#[derive(Debug)]
pub struct ResidencyLedger {
    current: u64,
    peak: u64,
}

impl View for ResidencyLedger {
    type V = LedgerView;

    closed spec fn view(&self) -> LedgerView {
        LedgerView { current: self.current, peak: self.peak }
    }
}

impl LedgerView {
    /// A ledger on which nothing has been charged.
    pub open spec fn fresh() -> Self {
        LedgerView { current: 0, peak: 0 }
    }

    /// The peak is at least what is counted now.
    pub open spec fn wf(self) -> bool {
        self.current <= self.peak
    }

    /// The ledger after a charge.
    pub open spec fn charged(self, bytes: u64) -> Self {
        let current = (self.current + bytes) as u64;
        LedgerView {
            current,
            peak: if current > self.peak {
                current
            } else {
                self.peak
            },
        }
    }

    /// The ledger after a release.
    pub open spec fn released(self, bytes: u64) -> Self {
        LedgerView { current: (self.current - bytes) as u64, ..self }
    }
}

impl ResidencyLedger {
    /// A ledger on which nothing has been charged.
    #[must_use]
    pub fn new() -> (r: Self)
        ensures
            r@ == LedgerView::fresh(),
    {
        ResidencyLedger { current: 0, peak: 0 }
    }

    /// The bytes that are counted now.
    #[must_use]
    pub fn current(&self) -> (r: u64)
        ensures
            r == self@.current,
    {
        self.current
    }

    /// The most bytes that were ever counted at once.
    #[must_use]
    pub fn peak(&self) -> (r: u64)
        ensures
            r == self@.peak,
    {
        self.peak
    }

    /// Charges bytes.
    pub fn charge(&mut self, bytes: u64)
        requires
            old(self)@.current + bytes <= u64::MAX,
        ensures
            final(self)@ == old(self)@.charged(bytes),
    {
        self.current = self.current + bytes;
        if self.current > self.peak {
            self.peak = self.current;
        }
    }

    /// Returns bytes that were charged.
    pub fn release(&mut self, bytes: u64)
        requires
            bytes <= old(self)@.current,
        ensures
            final(self)@ == old(self)@.released(bytes),
    {
        self.current = self.current - bytes;
    }
}

/// The refusal to fill a slot a second time. It hands the value back.
#[derive(Debug)]
pub struct FillError<T> {
    rejected: T,
}

impl<T> View for FillError<T> {
    type V = T;

    closed spec fn view(&self) -> T {
        self.rejected
    }
}

impl<T> FillError<T> {
    /// The value that was refused.
    pub fn rejected(self) -> (r: T)
        ensures
            r == self@,
    {
        self.rejected
    }

    /// The refusal in words.
    #[must_use]
    pub fn render(&self) -> (r: &'static str)
        ensures
            r@ == "output slot is already filled; a slot is once-writable (the second fill was refused)"@,
    {
        "output slot is already filled; a slot is once-writable (the second fill was refused)"
    }
}

/// Why there is no value to redeem.
#[derive(Debug, Clone, Copy, PartialEq, Eq, Structural)]
pub enum RedeemError {
    /// The node is not retained, or its value has left the slot.
    Released,
    /// The slot was never filled.
    NeverFilled,
}

impl RedeemError {
    /// The error in words.
    pub open spec fn rendered(self) -> Seq<char> {
        match self {
            RedeemError::Released => "no value to redeem: the node was not retained and its value was released"@,
            RedeemError::NeverFilled => "no value to redeem: the node's slot was never filled (it did not succeed)"@,
        }
    }

    /// The error in words.
    #[must_use]
    pub fn render(&self) -> (r: &'static str)
        ensures
            r@ == self.rendered(),
    {
        match self {
            RedeemError::Released => "no value to redeem: the node was not retained and its value was released",
            RedeemError::NeverFilled => "no value to redeem: the node's slot was never filled (it did not succeed)",
        }
    }
}

/// What a slot holds.
#[derive(Debug)]
pub enum Content<T> {
    /// Nothing yet.
    Empty,
    /// The value.
    Filled(T),
    /// Nothing any more: the value has left the slot.
    Released,
}

/// The state of a slot.
pub struct SlotView<T> {
    pub node: NodeId,
    pub name: Seq<char>,
    pub retained: bool,
    pub residency: u64,
    pub content: Content<T>,
    /// How many leases are open.
    pub open: int,
    /// How many consumers have reached a terminal state.
    pub terminal: int,
    /// How many leases have been given back.
    pub returned: int,
    /// How many consumers there are.
    pub total: int,
}

impl<T> SlotView<T> {
    /// What the slot is charged for: the value's residency while it is there.
    pub open spec fn charge(self) -> int {
        match self.content {
            Content::Filled(_) => self.residency as int,
            _ => 0,
        }
    }

    /// Whether every consumer is terminal and has returned.
    pub open spec fn all_done(self) -> bool {
        self.terminal >= self.total && self.returned >= self.total && self.open == 0
    }

    /// Whether the value is due to be released.
    pub open spec fn due(self) -> bool {
        !self.retained && self.content is Filled && self.all_done()
    }

    /// The slot after the value has left it, if it is due to.
    pub open spec fn settled(self) -> Self {
        if self.due() {
            SlotView { content: Content::Released, ..self }
        } else {
            self
        }
    }

    /// The slot after one more lease was given back by a consumer that was, or was not,
    /// already marked terminal.
    pub open spec fn given_back(self, marked: bool) -> Self {
        SlotView {
            open: if self.open > 0 {
                self.open - 1
            } else {
                0
            },
            returned: self.returned + 1,
            terminal: if marked {
                self.terminal
            } else {
                self.terminal + 1
            },
            ..self
        }
    }

    /// The slot after a lease was given back by a consumer that will try again.
    pub open spec fn closed_for_retry(self) -> Self {
        SlotView {
            open: if self.open > 0 {
                self.open - 1
            } else {
                0
            },
            ..self
        }
    }

    /// The slot after one more consumer became terminal.
    pub open spec fn terminal_marked(self, marked: bool) -> Self {
        if marked {
            self
        } else {
            SlotView { terminal: self.terminal + 1, ..self }
        }
    }

    /// The counts have room for one more.
    pub open spec fn has_room(self) -> bool {
        self.open < u32::MAX && self.terminal < u32::MAX && self.returned < u32::MAX
    }
}

/// The output slot of one node, with its value's type.
#[derive(Debug)]
pub struct Slot<T> {
    node: NodeId,
    name: String,
    retained: bool,
    residency: u64,
    content: Content<T>,
    open_leases: u32,
    terminal_count: u32,
    returned_count: u32,
    total_consumers: u32,
}

impl<T> View for Slot<T> {
    type V = SlotView<T>;

    closed spec fn view(&self) -> SlotView<T> {
        SlotView {
            node: self.node,
            name: self.name@,
            retained: self.retained,
            residency: self.residency,
            content: self.content,
            open: self.open_leases as int,
            terminal: self.terminal_count as int,
            returned: self.returned_count as int,
            total: self.total_consumers as int,
        }
    }
}

impl<T> Slot<T> {
    /// The empty slot of a node with the given number of consumers. The residency is
    /// what the value will be charged for; a retained value stays until it is redeemed.
    #[must_use]
    pub fn new(node: NodeId, name: &str, consumers: u32, retained: bool, residency: u64) -> (r: Self)
        ensures
            r@ == (SlotView {
                node,
                name: name@,
                retained,
                residency,
                content: Content::<T>::Empty,
                open: 0,
                terminal: 0,
                returned: 0,
                total: consumers as int,
            }),
    {
        Slot {
            node,
            name: String::from_str(name),
            retained,
            residency,
            content: Content::Empty,
            open_leases: 0,
            terminal_count: 0,
            returned_count: 0,
            total_consumers: consumers,
        }
    }

    /// The node that owns the slot.
    #[must_use]
    pub fn node(&self) -> (r: NodeId)
        ensures
            r == self@.node,
    {
        self.node
    }

    /// The name of the node that owns the slot.
    #[must_use]
    pub fn name(&self) -> (r: &str)
        ensures
            r@ == self@.name,
    {
        self.name.as_str()
    }

    /// What the value is charged for while it is in the slot.
    #[must_use]
    pub fn residency(&self) -> (r: u64)
        ensures
            r == self@.residency,
    {
        self.residency
    }

    /// Fills the slot and charges the value's residency.
    ///
    /// # Errors
    ///
    /// The value back, if the slot was filled before; nothing changes then.
    pub fn fill(&mut self, value: T, ledger: &mut ResidencyLedger) -> (r: Result<(), FillError<T>>)
        requires
            old(self)@.content is Empty ==> old(ledger)@.current + old(self)@.residency <= u64::MAX,
        ensures
            match r {
                Ok(_) => {
                    &&& old(self)@.content is Empty
                    &&& final(self)@ == (SlotView { content: Content::Filled(value), ..old(self)@ })
                    &&& final(ledger)@ == old(ledger)@.charged(old(self)@.residency)
                },
                Err(e) => {
                    &&& !(old(self)@.content is Empty)
                    &&& e@ == value
                    &&& final(self)@ == old(self)@
                    &&& final(ledger)@ == old(ledger)@
                },
            },
    {
        match &self.content {
            Content::Empty => {
                self.content = Content::Filled(value);
                ledger.charge(self.residency);
                Ok(())
            },
            _ => Err(FillError { rejected: value }),
        }
    }

    /// Whether the slot holds a value.
    #[must_use]
    pub fn is_filled(&self) -> (r: bool)
        ensures
            r == (self@.content is Filled),
    {
        match &self.content {
            Content::Filled(_) => true,
            _ => false,
        }
    }

    /// Whether the slot was never filled.
    #[must_use]
    pub fn is_empty(&self) -> (r: bool)
        ensures
            r == (self@.content is Empty),
    {
        match &self.content {
            Content::Empty => true,
            _ => false,
        }
    }

    /// A reference for a consumer that reads the value beside others.
    #[must_use]
    pub fn shared_ref(&self) -> (r: SlotRef<T>)
        ensures
            r.refers_to(self@),
            r.mode() == DeliveryMode::Shared,
    {
        SlotRef { node: self.node, mode: DeliveryMode::Shared, of: core::marker::PhantomData }
    }

    /// A reference for the one consumer that takes the value.
    #[must_use]
    pub fn owned_ref(&self) -> (r: SlotRef<T>)
        ensures
            r.refers_to(self@),
            r.mode() == DeliveryMode::Owned,
    {
        SlotRef { node: self.node, mode: DeliveryMode::Owned, of: core::marker::PhantomData }
    }

    /// A reference for a consumer that gets a copy for each attempt.
    #[must_use]
    pub fn clone_on_read_ref(&self) -> (r: SlotRef<T>)
        ensures
            r.refers_to(self@),
            r.mode() == DeliveryMode::CloneOnRead,
    {
        SlotRef { node: self.node, mode: DeliveryMode::CloneOnRead, of: core::marker::PhantomData }
    }

    /// What is exchanged for a retained value once the run has ended.
    #[must_use]
    pub fn redemption_handle(&self) -> (r: RedemptionHandle<T>)
        ensures
            r.redeems(self@),
    {
        RedemptionHandle { node: self.node, of: core::marker::PhantomData }
    }

    /// The value, which has to be there.
    fn value(&self) -> (r: &T)
        requires
            self@.content is Filled,
        ensures
            *r == self@.content->Filled_0,
    {
        match &self.content {
            Content::Filled(v) => v,
            _ => {
                assert(false);
                vstd::pervasive::unreached()
            },
        }
    }

    /// Moves the value, which has to be there, out of the slot and returns its residency.
    fn remove_value(&mut self, ledger: &mut ResidencyLedger) -> (r: T)
        requires
            old(self)@.content is Filled,
            old(self)@.residency <= old(ledger)@.current,
        ensures
            r == old(self)@.content->Filled_0,
            final(self)@ == (SlotView { content: Content::Released, ..old(self)@ }),
            final(ledger)@ == old(ledger)@.released(old(self)@.residency),
    {
        let mut content = Content::Released;
        std::mem::swap(&mut content, &mut self.content);
        ledger.release(self.residency);
        match content {
            Content::Filled(v) => v,
            _ => {
                assert(false);
                vstd::pervasive::unreached()
            },
        }
    }

    /// Releases the value if every consumer is done with it.
    fn try_release(&mut self, ledger: &mut ResidencyLedger)
        requires
            old(self)@.due() ==> old(self)@.residency <= old(ledger)@.current,
        ensures
            final(self)@ == old(self)@.settled(),
            final(ledger)@ == (if old(self)@.due() {
                old(ledger)@.released(old(self)@.residency)
            } else {
                old(ledger)@
            }),
    {
        if self.retained || !self.is_filled() {
            return;
        }
        if self.terminal_count >= self.total_consumers && self.returned_count >= self.total_consumers
            && self.open_leases == 0 {
            let _value = self.remove_value(ledger);
        }
    }
}

/// How a consumer gets the value.
#[derive(Debug, Clone, Copy, PartialEq, Eq, Structural)]
pub enum DeliveryMode {
    /// It takes the value.
    Owned,
    /// It reads the value beside others.
    Shared,
    /// It gets a copy for each attempt.
    CloneOnRead,
}

/// A consumer's reference to the slot of an upstream node, with the value's type.
#[derive(Debug)]
pub struct SlotRef<T> {
    node: NodeId,
    mode: DeliveryMode,
    of: core::marker::PhantomData<T>,
}

impl<T> SlotRef<T> {
    /// The node whose slot the reference is to.
    pub closed spec fn upstream(self) -> NodeId {
        self.node
    }

    /// Whether the reference is to this slot. It stays so whatever happens to the slot.
    pub open spec fn refers_to(self, slot: SlotView<T>) -> bool {
        self.upstream() == slot.node
    }

    /// How the consumer gets the value.
    pub closed spec fn mode(self) -> DeliveryMode {
        self.mode
    }

    /// How the consumer gets the value.
    #[must_use]
    pub fn delivery_mode(&self) -> (r: DeliveryMode)
        ensures
            r == self.mode(),
    {
        self.mode
    }

    /// Reads the value, which has to be there.
    #[must_use]
    pub fn read<'a>(&self, slot: &'a Slot<T>) -> (r: &'a T)
        requires
            self.refers_to(slot@),
            slot@.content is Filled,
        ensures
            *r == slot@.content->Filled_0,
    {
        slot.value()
    }

    /// A copy of the value, which has to be there.
    #[must_use]
    pub fn clone_value(&self, slot: &Slot<T>) -> (r: T) where T: Clone
        requires
            self.refers_to(slot@),
            slot@.content is Filled,
        ensures
            cloned::<T>(slot@.content->Filled_0, r),
    {
        slot.value().clone()
    }

    /// Opens a lease for the duration of one attempt.
    #[must_use]
    pub fn enter(&self, slot: &mut Slot<T>) -> (r: ConsumerLease<T>)
        requires
            self.refers_to(old(slot)@),
            old(slot)@.open < u32::MAX,
        ensures
            final(slot)@ == (SlotView { open: old(slot)@.open + 1, ..old(slot)@ }),
            r.leases(final(slot)@),
            !r.is_marked(),
    {
        slot.open_leases = slot.open_leases + 1;
        ConsumerLease { node: self.node, marked_terminal: false, of: core::marker::PhantomData }
    }
}

/// A consumer's hold on a value for the duration of one attempt. It is given back with
/// [`finish`](ConsumerLease::finish), or by taking the value, when the attempt's work has
/// actually returned.
#[derive(Debug)]
#[must_use]
pub struct ConsumerLease<T> {
    node: NodeId,
    marked_terminal: bool,
    of: core::marker::PhantomData<T>,
}

impl<T> ConsumerLease<T> {
    /// The node whose slot the lease is on.
    pub closed spec fn upstream(self) -> NodeId {
        self.node
    }

    /// Whether the lease is on this slot. It stays so whatever happens to the slot.
    pub open spec fn leases(self, slot: SlotView<T>) -> bool {
        self.upstream() == slot.node
    }

    /// Whether the consumer was marked terminal through this lease.
    pub closed spec fn is_marked(self) -> bool {
        self.marked_terminal
    }

    /// Reads the value, which has to be there.
    #[must_use]
    pub fn read<'a>(&self, slot: &'a Slot<T>) -> (r: &'a T)
        requires
            self.leases(slot@),
            slot@.content is Filled,
        ensures
            *r == slot@.content->Filled_0,
    {
        slot.value()
    }

    /// Moves the value, which has to be there, out of the slot. This gives the lease
    /// back and is the consumer's terminal state.
    #[must_use]
    pub fn take(self, slot: &mut Slot<T>, ledger: &mut ResidencyLedger) -> (r: T)
        requires
            self.leases(old(slot)@),
            old(slot)@.content is Filled,
            old(slot)@.has_room(),
            old(slot)@.residency <= old(ledger)@.current,
        ensures
            r == old(slot)@.content->Filled_0,
            final(slot)@ == (SlotView { content: Content::Released, ..old(slot)@ }).given_back(self.is_marked()),
            final(ledger)@ == old(ledger)@.released(old(slot)@.residency),
    {
        let value = slot.remove_value(ledger);
        self.finish(slot, ledger);
        value
    }

    /// Marks the consumer terminal. This does not release the value: its work may still
    /// be running.
    pub fn mark_terminal(&mut self, slot: &mut Slot<T>)
        requires
            old(self).leases(old(slot)@),
            old(slot)@.terminal < u32::MAX,
        ensures
            final(self).upstream() == old(self).upstream(),
            final(self).is_marked(),
            final(slot)@ == old(slot)@.terminal_marked(old(self).is_marked()),
    {
        if !self.marked_terminal {
            self.marked_terminal = true;
            slot.terminal_count = slot.terminal_count + 1;
        }
    }

    /// Gives the lease back of an attempt that will be made again: its work has returned,
    /// and the consumer has not ended. The value stays for the next attempt.
    pub fn finish_for_retry(self, slot: &mut Slot<T>)
        requires
            self.leases(old(slot)@),
            !self.is_marked(),
        ensures
            final(slot)@ == old(slot)@.closed_for_retry(),
    {
        if slot.open_leases > 0 {
            slot.open_leases = slot.open_leases - 1;
        }
    }

    /// Gives the lease back: the attempt's work has returned. A consumer that was not
    /// marked terminal is so now, and the value is released if it was the last.
    pub fn finish(self, slot: &mut Slot<T>, ledger: &mut ResidencyLedger)
        requires
            self.leases(old(slot)@),
            old(slot)@.has_room(),
            old(slot)@.given_back(self.is_marked()).due() ==> old(slot)@.residency <= old(ledger)@.current,
        ensures
            final(slot)@ == old(slot)@.given_back(self.is_marked()).settled(),
            ({
                let ended = old(slot)@.terminal + (if self.is_marked() {
                    0int
                } else {
                    1int
                });
                let last = old(slot)@.open <= 1 && ended >= old(slot)@.total && old(slot)@.returned + 1
                    >= old(slot)@.total;
                &&& old(slot)@.content is Filled && !old(slot)@.retained && last ==> final(slot)@.content is Released
                    && final(ledger)@.current == old(ledger)@.current - old(slot)@.residency
                &&& !(old(slot)@.content is Filled) || old(slot)@.retained || !last ==> final(slot)@.content
                    == old(slot)@.content && final(ledger)@ == old(ledger)@
            }),
            final(ledger)@ == (if old(slot)@.given_back(self.is_marked()).due() {
                old(ledger)@.released(old(slot)@.residency)
            } else {
                old(ledger)@
            }),
    {
        if slot.open_leases > 0 {
            slot.open_leases = slot.open_leases - 1;
        }
        slot.returned_count = slot.returned_count + 1;
        if !self.marked_terminal {
            slot.terminal_count = slot.terminal_count + 1;
        }
        slot.try_release(ledger);
    }
}

/// What is exchanged for a retained value once the run has ended.
#[derive(Debug)]
pub struct RedemptionHandle<T> {
    node: NodeId,
    of: core::marker::PhantomData<T>,
}

impl<T> RedemptionHandle<T> {
    /// The node whose value the handle is exchanged for.
    pub closed spec fn of_node(self) -> NodeId {
        self.node
    }

    /// Whether the handle is for this slot. It stays so whatever happens to the slot.
    pub open spec fn redeems(self, slot: SlotView<T>) -> bool {
        self.of_node() == slot.node
    }

    /// Exchanges the handle for the value and returns its residency.
    ///
    /// # Errors
    ///
    /// [`RedeemError::NeverFilled`] if the slot was never filled, and otherwise
    /// [`RedeemError::Released`] if the node is not retained or the value has left the
    /// slot; nothing changes then.
    pub fn redeem(&self, slot: &mut Slot<T>, ledger: &mut ResidencyLedger) -> (r: Result<T, RedeemError>)
        requires
            self.redeems(old(slot)@),
            old(slot)@.retained && old(slot)@.content is Filled ==> old(slot)@.residency <= old(ledger)@.current,
        ensures
            match r {
                Ok(v) => {
                    &&& old(slot)@.retained
                    &&& old(slot)@.content == Content::Filled(v)
                    &&& final(slot)@ == (SlotView { content: Content::Released, ..old(slot)@ })
                    &&& final(ledger)@ == old(ledger)@.released(old(slot)@.residency)
                },
                Err(e) => {
                    &&& e == RedeemError::NeverFilled <==> old(slot)@.content is Empty
                    &&& e == RedeemError::Released <==> old(slot)@.content is Released || (old(slot)@.content is Filled && !old(slot)@.retained)
                    &&& final(slot)@ == old(slot)@
                    &&& final(ledger)@ == old(ledger)@
                },
            },
    {
        match &slot.content {
            Content::Empty => {
                return Err(RedeemError::NeverFilled);
            },
            Content::Released => {
                return Err(RedeemError::Released);
            },
            Content::Filled(_) => {},
        }
        if !slot.retained {
            return Err(RedeemError::Released);
        }
        Ok(slot.remove_value(ledger))
    }
}

/// A value is counted once, from the fill until it leaves the slot: whatever else is
/// counted, the ledger holds that and what the slot is charged for, before and after each
/// step.
pub proof fn law_residency_is_counted_once<T>(slot: SlotView<T>, ledger: LedgerView, others: int, value: T, marked: bool)
    requires
        others >= 0,
        ledger.current == others + slot.charge(),
        others + slot.residency <= u64::MAX,
    ensures
        slot.content is Empty ==> ledger.charged(slot.residency).current == others + (SlotView {
            content: Content::Filled(value),
            ..slot
        }).charge(),
        ({
            let after = slot.given_back(marked);
            (if after.due() {
                ledger.released(slot.residency)
            } else {
                ledger
            }).current == others + after.settled().charge()
        }),
        slot.content is Filled ==> ledger.released(slot.residency).current == others + (SlotView {
            content: Content::<T>::Released,
            ..slot
        }).charge(),
        slot.terminal_marked(marked).charge() == slot.charge(),
{
}

/// The peak is never below what is counted.
pub proof fn law_peak_covers_current(ledger: LedgerView, bytes: u64)
    requires
        ledger.wf(),
    ensures
        LedgerView::fresh().wf(),
        ledger.current + bytes <= u64::MAX ==> ledger.charged(bytes).wf() && ledger.charged(bytes).peak >= ledger.peak,
        bytes <= ledger.current ==> ledger.released(bytes).wf() && ledger.released(bytes).peak == ledger.peak,
{
}

/// A value stays while a consumer's work still runs, or a consumer has not ended or not
/// returned, whatever was marked terminal meanwhile.
pub proof fn law_value_outlives_running_consumers<T>(slot: SlotView<T>, marked: bool)
    requires
        slot.content is Filled,
        ({
            let after = slot.given_back(marked);
            after.open > 0 || after.terminal < slot.total || after.returned < slot.total
        }),
    ensures
        slot.given_back(marked).settled().content == slot.content,
        slot.terminal_marked(marked).content == slot.content,
{
}

/// A consumer that will try again finds its input still there: a return for a retry
/// releases nothing, and counts neither as an end nor as a last return.
pub proof fn law_input_is_there_for_the_next_attempt<T>(slot: SlotView<T>)
    ensures
        slot.closed_for_retry().content == slot.content,
        slot.closed_for_retry().charge() == slot.charge(),
        slot.closed_for_retry().terminal == slot.terminal,
        slot.closed_for_retry().returned == slot.returned,
{
}

/// The last return releases a value that is not retained.
pub proof fn law_last_return_releases<T>(slot: SlotView<T>, marked: bool)
    requires
        slot.content is Filled,
        !slot.retained,
        slot.given_back(marked).all_done(),
    ensures
        slot.given_back(marked).settled().content is Released,
        slot.given_back(marked).settled().charge() == 0,
{
}

/// No return releases a retained value.
pub proof fn law_retained_value_stays<T>(slot: SlotView<T>, marked: bool)
    requires
        slot.retained,
    ensures
        slot.given_back(marked).settled().content == slot.content,
        slot.given_back(marked).settled().charge() == slot.charge(),
{
}

/// A value that is not retained leaves its slot with the return that leaves no lease open,
/// no consumer that has not ended and none that has not returned, and with no earlier one,
/// however many bytes it is charged for. A return changes nothing else but the counts.
pub proof fn law_a_value_leaves_with_the_last_return<T>(slot: SlotView<T>, marked: bool)
    ensures
        ({
            let after = slot.given_back(marked).settled();
            let ended = slot.terminal + (if marked {
                0int
            } else {
                1int
            });
            &&& slot.content is Filled && !slot.retained ==> (after.content is Released <==> slot.open <= 1 && ended
                >= slot.total && slot.returned + 1 >= slot.total)
            &&& !(after.content is Released) ==> after.content == slot.content
            &&& after.content is Released && !(slot.content is Released) ==> slot.content is Filled && !slot.retained
            &&& after.open == (if slot.open > 0 {
                slot.open - 1
            } else {
                0
            })
            &&& after.returned == slot.returned + 1
            &&& after.terminal == ended
            &&& after.total == slot.total
            &&& after.node == slot.node
            &&& after.name == slot.name
            &&& after.retained == slot.retained
            &&& after.residency == slot.residency
        }),
{
}

/// A return for a retry closes one lease and changes nothing else; a mark counts one end,
/// unless the consumer was marked before, and changes nothing else.
pub proof fn law_a_mark_and_a_retry_count_once<T>(slot: SlotView<T>)
    requires
        slot.open >= 0,
    ensures
        slot.closed_for_retry() == (SlotView {
            open: (if slot.open > 0 {
                slot.open - 1
            } else {
                0
            }),
            ..slot
        }),
        slot.terminal_marked(true) == slot,
        slot.terminal_marked(false) == (SlotView { terminal: slot.terminal + 1, ..slot }),
{
}

/// The slot after its consumers have returned, one after the other.
pub open spec fn all_given_back<T>(slot: SlotView<T>, marks: Seq<bool>) -> SlotView<T>
    decreases marks.len(),
{
    if marks.len() == 0 {
        slot
    } else {
        all_given_back(slot, marks.drop_last()).given_back(marks.last()).settled()
    }
}

/// Over a run: where each of a slot's consumers has opened its one lease and returns,
/// whether or not it was marked terminal before, the value is there until the last of them
/// has returned and gone then, unless it is retained.
pub proof fn law_the_value_is_there_until_all_have_returned<T>(slot: SlotView<T>, marks: Seq<bool>)
    requires
        slot.content is Filled,
        slot.total > 0,
        slot.open == slot.total,
        slot.returned == 0,
        marks.len() <= slot.total,
        slot.terminal >= marks_in(marks),
    ensures
        ({
            let after = all_given_back(slot, marks);
            &&& after.open == slot.total - marks.len()
            &&& after.returned == marks.len()
            &&& after.terminal == slot.terminal + marks.len() - marks_in(marks)
            &&& marks.len() < slot.total || slot.retained ==> after.content == slot.content
            &&& marks.len() == slot.total && !slot.retained ==> after.content is Released
        }),
    decreases marks.len(),
{
    if marks.len() > 0 {
        let front = marks.drop_last();
        law_the_value_is_there_until_all_have_returned(slot, front);
        let before = all_given_back(slot, front);
        assert(before.retained == slot.retained && before.total == slot.total) by {
            lemma_returns_keep(slot, front);
        }
        law_a_value_leaves_with_the_last_return(before, marks.last());
    }
}

/// How many of the returning consumers were marked terminal before.
pub open spec fn marks_in(marks: Seq<bool>) -> int
    decreases marks.len(),
{
    if marks.len() == 0 {
        0
    } else {
        marks_in(marks.drop_last()) + (if marks.last() {
            1int
        } else {
            0int
        })
    }
}

proof fn lemma_returns_keep<T>(slot: SlotView<T>, marks: Seq<bool>)
    ensures
        all_given_back(slot, marks).retained == slot.retained,
        all_given_back(slot, marks).total == slot.total,
    decreases marks.len(),
{
    if marks.len() > 0 {
        lemma_returns_keep(slot, marks.drop_last());
    }
}

/// A charge adds to what is counted and raises the peak where it must; a release takes
/// away and leaves the peak; and a release undoes a charge.
pub proof fn law_ledger_adds_and_takes_away(ledger: LedgerView, bytes: u64)
    ensures
        LedgerView::fresh().current == 0 && LedgerView::fresh().peak == 0,
        ledger.current + bytes <= u64::MAX ==> {
            let after = ledger.charged(bytes);
            &&& after.current == ledger.current + bytes
            &&& after.peak >= ledger.peak && after.peak >= after.current
            &&& after.peak == ledger.peak || after.peak == after.current
            &&& after.released(bytes).current == ledger.current
        },
        bytes <= ledger.current ==> ledger.released(bytes).current == ledger.current - bytes && ledger.released(bytes).peak
            == ledger.peak,
{
}

/// A slot is charged for its residency exactly while the value is there, and for nothing
/// before and after. A redemption that fails is told why.
pub proof fn law_only_a_value_that_is_there_is_charged<T>(slot: SlotView<T>, error: RedeemError)
    ensures
        slot.content is Filled ==> slot.charge() == slot.residency,
        slot.content is Empty || slot.content is Released ==> slot.charge() == 0,
        error == RedeemError::Released ==> error.rendered()
            == "no value to redeem: the node was not retained and its value was released"@,
        error == RedeemError::NeverFilled ==> error.rendered()
            == "no value to redeem: the node's slot was never filled (it did not succeed)"@,
{
}

} // verus!
