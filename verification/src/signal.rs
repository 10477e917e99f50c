//! The flags by which widgets ask a user interface for a new layout.
//!
//! Every user interface registers one flag in a [`SignalTable`]. Its widgets
//! hold a [`ForceLayoutSignal`], which names the flag without owning it: once
//! the interface has released the flag, raising it does nothing.

use vstd::prelude::*;

verus! {

/// Names a flag of a [`SignalTable`].
#[derive(Clone, Copy, Debug, PartialEq, Eq, Structural)]
pub struct ForceLayoutSignal {
    pub slot: usize,
}

/// One flag as a mathematical value.
pub struct Flag {
    /// Whether the interface that registered the flag still holds it.
    pub live: bool,
    /// Whether a new layout was asked for and not made yet.
    pub raised: bool,
    /// How often the flag was raised since it was registered.
    pub signals: nat,
}

struct Slot {
    live: bool,
    raised: bool,
    signals: Ghost<nat>,
}

/// The flags of all user interfaces.
pub struct SignalTable {
    slots: Vec<Slot>,
}

/// Whether `signal` names a flag of `flags` that is still held.
pub open spec fn resolves(flags: Seq<Flag>, signal: Option<ForceLayoutSignal>) -> bool {
    signal matches Some(s) && s.slot < flags.len() && flags[s.slot as int].live
}

/// The flags after `signal` was raised: the flag it names is up and has
/// seen one signal more; if it names none that is still held, nothing
/// changes.
pub open spec fn raised(flags: Seq<Flag>, signal: Option<ForceLayoutSignal>) -> Seq<Flag> {
    if resolves(flags, signal) {
        let at = signal->0.slot as int;
        flags.update(at, Flag { raised: true, signals: flags[at].signals + 1, ..flags[at] })
    } else {
        flags
    }
}

/// The flags after the flag that `signal` names was taken down.
pub open spec fn lowered(flags: Seq<Flag>, signal: ForceLayoutSignal) -> Seq<Flag> {
    if resolves(flags, Some(signal)) {
        let at = signal.slot as int;
        flags.update(at, Flag { raised: false, ..flags[at] })
    } else {
        flags
    }
}

/// The flags after the flag that `signal` names was given up.
pub open spec fn released(flags: Seq<Flag>, signal: ForceLayoutSignal) -> Seq<Flag> {
    if resolves(flags, Some(signal)) {
        let at = signal.slot as int;
        flags.update(at, Flag { live: false, ..flags[at] })
    } else {
        flags
    }
}

/// Whether the flag that `signal` names is held and up.
pub open spec fn is_up(flags: Seq<Flag>, signal: ForceLayoutSignal) -> bool {
    resolves(flags, Some(signal)) && flags[signal.slot as int].raised
}

/// A signal raises exactly one flag exactly once, and only while the flag
/// is held: the flag that it names is then up and has seen one signal more,
/// and every other flag is as it was. A signal that names no flag, or one
/// that was given up, changes nothing.
pub proof fn law_one_signal(flags: Seq<Flag>, signal: Option<ForceLayoutSignal>)
    ensures
        raised(flags, signal).len() == flags.len(),
        !resolves(flags, signal) ==> raised(flags, signal) == flags,
        resolves(flags, signal) ==> {
            let at = signal->0.slot as int;
            &&& raised(flags, signal)[at].raised
            &&& raised(flags, signal)[at].live
            &&& raised(flags, signal)[at].signals == flags[at].signals + 1
            &&& forall|other: int|
                0 <= other < flags.len() && other != at ==> raised(flags, signal)[other]
                    == flags[other]
        },
{
}

impl View for SignalTable {
    type V = Seq<Flag>;

    closed spec fn view(&self) -> Seq<Flag> {
        Seq::new(
            self.slots@.len(),
            |i: int|
                Flag {
                    live: self.slots@[i].live,
                    raised: self.slots@[i].raised,
                    signals: self.slots@[i].signals@,
                },
        )
    }
}

impl SignalTable {
    /// A table without flags.
    pub fn new() -> (r: Self)
        ensures
            r@ == Seq::<Flag>::empty(),
    {
        let r = SignalTable { slots: Vec::new() };
        assert(r@ =~= Seq::<Flag>::empty());
        r
    }

    /// Adds a flag, held and up, and returns its name.
    pub fn register(&mut self) -> (signal: ForceLayoutSignal)
        ensures
            signal.slot == old(self)@.len(),
            final(self)@ == old(self)@.push(Flag { live: true, raised: true, signals: 0 }),
    {
        let slot = self.slots.len();
        self.slots.push(Slot { live: true, raised: true, signals: Ghost(0) });
        assert(self@ =~= old(self)@.push(Flag { live: true, raised: true, signals: 0 }));
        ForceLayoutSignal { slot }
    }

    /// Gives up the flag that `signal` names.
    pub fn release(&mut self, signal: ForceLayoutSignal)
        ensures
            final(self)@ == released(old(self)@, signal),
    {
        if signal.slot < self.slots.len() {
            if self.slots[signal.slot].live {
                let signals = Ghost(self.slots@[signal.slot as int].signals@);
                let raised = self.slots[signal.slot].raised;
                self.slots.set(signal.slot, Slot { live: false, raised, signals });
            }
        }
        assert(self@ =~= released(old(self)@, signal));
    }

    /// Raises the flag that `signal` names, if it names one that is held.
    pub fn raise(&mut self, signal: Option<ForceLayoutSignal>)
        ensures
            final(self)@ == raised(old(self)@, signal),
    {
        if let Some(s) = signal {
            if s.slot < self.slots.len() {
                if self.slots[s.slot].live {
                    let signals = Ghost(self.slots@[s.slot as int].signals@ + 1);
                    self.slots.set(s.slot, Slot { live: true, raised: true, signals });
                }
            }
        }
        assert(self@ =~= raised(old(self)@, signal));
    }

    /// Takes down the flag that `signal` names.
    pub fn lower(&mut self, signal: ForceLayoutSignal)
        ensures
            final(self)@ == lowered(old(self)@, signal),
    {
        if signal.slot < self.slots.len() {
            if self.slots[signal.slot].live {
                let signals = Ghost(self.slots@[signal.slot as int].signals@);
                self.slots.set(signal.slot, Slot { live: true, raised: false, signals });
            }
        }
        assert(self@ =~= lowered(old(self)@, signal));
    }

    /// Whether the flag that `signal` names is held and up.
    pub fn is_raised(&self, signal: ForceLayoutSignal) -> (r: bool)
        ensures
            r == is_up(self@, signal),
    {
        signal.slot < self.slots.len() && self.slots[signal.slot].live
            && self.slots[signal.slot].raised
    }

    /// Whether `signal` names a flag that is still held.
    pub fn is_live(&self, signal: ForceLayoutSignal) -> (r: bool)
        ensures
            r == resolves(self@, Some(signal)),
    {
        signal.slot < self.slots.len() && self.slots[signal.slot].live
    }
}

} // verus!
