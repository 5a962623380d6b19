//! The processing-element handle.
//!
//! A `PE` stands for one physical compute-unit instance: its slot in the
//! device catalog, its type, the placement of its register window inside
//! the shared register space, and the instance's observable execution and
//! interrupt state. A handle is a move-only resource: after construction
//! it lives either inside its type's idle pool or with exactly one caller,
//! never in both places and never twice.
//!
//! The execution flag (`active`) and the interrupt lines are written by the
//! work-submission and completion paths, which are outside this crate; the
//! scheduler itself only reads `active` and drives the interrupt
//! normalization of idle handles. This module keeps that observable state
//! as plain fields so that every contract over it can be stated and
//! checked; binding the fields to a concrete register transport is the
//! embedding's concern.

use vstd::prelude::*;

verus! {

/// Identifier of a PE *type* (one accelerator function), not of a
/// particular instance; many instances may share one `PEId`.
pub type PEId = usize;

/// Fault reported by the handle layer for a register operation.
///
/// In this model the register window is plain state and its operations do
/// not fault; the variant exists so that callers see the same error
/// surface as with a hardware-backed handle layer.
#[derive(Debug)]
pub enum Error {
    RegisterFault { slot: usize },
}

/// One catalog entry: the declared type of an instance, the placement of
/// its register window, and a display name.
#[derive(Debug)]
pub struct PeDesc {
    pub id: PEId,
    pub offset: u64,
    pub size: u64,
    pub name: String,
}

/// Mathematical image of a `PeDesc`.
pub ghost struct PeDescView {
    pub id: nat,
    pub offset: nat,
    pub size: nat,
    pub name: Seq<char>,
}

impl View for PeDesc {
    type V = PeDescView;

    open spec fn view(&self) -> PeDescView {
        PeDescView {
            id: self.id as nat,
            offset: self.offset as nat,
            size: self.size as nat,
            name: self.name@,
        }
    }
}

/// One processing-element instance.
#[derive(Debug)]
pub struct PE {
    slot: usize,
    type_id: PEId,
    offset: u64,
    size: u64,
    name: String,
    active: bool,
    interrupt_enabled: bool,
    interrupt_pending: bool,
}

/// Mathematical image of a `PE`.
pub ghost struct PEView {
    pub slot: nat,
    pub type_id: nat,
    pub offset: nat,
    pub size: nat,
    pub name: Seq<char>,
    pub active: bool,
    pub interrupt_enabled: bool,
    pub interrupt_pending: bool,
}

impl View for PE {
    type V = PEView;

    closed spec fn view(&self) -> PEView {
        PEView {
            slot: self.slot as nat,
            type_id: self.type_id as nat,
            offset: self.offset as nat,
            size: self.size as nat,
            name: self.name@,
            active: self.active,
            interrupt_enabled: self.interrupt_enabled,
            interrupt_pending: self.interrupt_pending,
        }
    }
}

/// The image of the handle that `new` builds for catalog position `slot`
/// from descriptor `d`: not yet executing, interrupt line disabled and
/// not pending.
pub open spec fn fresh_pe(d: PeDescView, slot: nat) -> PEView {
    PEView {
        slot: slot,
        type_id: d.id,
        offset: d.offset,
        size: d.size,
        name: d.name,
        active: false,
        interrupt_enabled: false,
        interrupt_pending: false,
    }
}

impl PE {
    /// Builds the handle for catalog position `slot` described by `desc`.
    pub fn new(slot: usize, desc: &PeDesc) -> (pe: PE)
        ensures
            pe@ == fresh_pe(desc@, slot as nat),
    {
        PE {
            slot,
            type_id: desc.id,
            offset: desc.offset,
            size: desc.size,
            name: desc.name.clone(),
            active: false,
            interrupt_enabled: false,
            interrupt_pending: false,
        }
    }

    /// Position of this instance within the whole catalog; unique per
    /// instance and fixed for the handle's lifetime.
    pub fn slot(&self) -> (r: usize)
        ensures
            r as nat == self@.slot,
    {
        self.slot
    }

    /// The type this instance belongs to.
    pub fn type_id(&self) -> (r: PEId)
        ensures
            r as nat == self@.type_id,
    {
        self.type_id
    }

    /// Byte offset of this instance's register window.
    pub fn offset(&self) -> (r: u64)
        ensures
            r as nat == self@.offset,
    {
        self.offset
    }

    /// Byte size of this instance's register window.
    pub fn size(&self) -> (r: u64)
        ensures
            r as nat == self@.size,
    {
        self.size
    }

    /// Display name of this instance.
    pub fn name(&self) -> (r: &String)
        ensures
            r@ == self@.name,
    {
        &self.name
    }

    /// True while the hardware reports this instance as executing.
    pub fn active(&self) -> (r: bool)
        ensures
            r == self@.active,
    {
        self.active
    }

    /// Records a start or completion of work on this instance. Stands in
    /// for the work-submission and completion paths, which own the
    /// execution flag; the scheduler never calls it.
    pub fn set_active(&mut self, active: bool)
        ensures
            final(self)@ == (PEView { active: active, ..old(self)@ }),
    {
        self.active = active;
    }

    /// Raises this instance's interrupt line, as the hardware does when
    /// submitted work completes. Stands in for the completion path; the
    /// scheduler never calls it.
    pub fn raise_interrupt(&mut self)
        ensures
            final(self)@ == (PEView { interrupt_pending: true, ..old(self)@ }),
    {
        self.interrupt_pending = true;
    }

    /// Enables this instance's interrupt line.
    pub fn enable_interrupt(&mut self) -> (r: Result<(), Error>)
        ensures
            r is Ok,
            final(self)@ == (PEView { interrupt_enabled: true, ..old(self)@ }),
    {
        self.interrupt_enabled = true;
        Ok(())
    }

    /// Queries whether an interrupt is currently pending on this instance.
    pub fn interrupt_set(&self) -> (r: Result<bool, Error>)
        ensures
            r == Ok::<bool, Error>(self@.interrupt_pending),
    {
        Ok(self.interrupt_pending)
    }

    /// Acknowledges this instance's interrupt: with `ack` the pending line
    /// is cleared, without it the state is left as it was.
    pub fn reset_interrupt(&mut self, ack: bool) -> (r: Result<(), Error>)
        ensures
            r is Ok,
            final(self)@ == (PEView {
                interrupt_pending: old(self)@.interrupt_pending && !ack,
                ..old(self)@
            }),
    {
        if ack {
            self.interrupt_pending = false;
        }
        Ok(())
    }
}

} // verus!
