//! The hypercall boundary: the closed set of call identifiers and the
//! dispatch of one call on the data of the calling CPU.

use vstd::prelude::*;
use crate::error::HvError;

verus! {

/// The identifiers of the hypercalls.
#[derive(Debug, Eq, PartialEq, Copy, Clone, Structural)]
pub enum HyperCallID {
    VirtioInit,
    VirtioInjectIrq,
    CellStart,
    CellOff,
    CellList,
    ClearInjectIrq,
    IvcInfo,
}

impl HyperCallID {
    /// The number that stands for the call on the wire.
    pub open spec fn number(self) -> u64 {
        match self {
            HyperCallID::VirtioInit => 0,
            HyperCallID::VirtioInjectIrq => 1,
            HyperCallID::CellStart => 2,
            HyperCallID::CellOff => 3,
            HyperCallID::CellList => 4,
            HyperCallID::ClearInjectIrq => 20,
            HyperCallID::IvcInfo => 5,
        }
    }

    /// The call that a number stands for, if it stands for one.
    pub open spec fn of_number(value: u64) -> Option<HyperCallID> {
        if value == 0 {
            Some(HyperCallID::VirtioInit)
        } else if value == 1 {
            Some(HyperCallID::VirtioInjectIrq)
        } else if value == 2 {
            Some(HyperCallID::CellStart)
        } else if value == 3 {
            Some(HyperCallID::CellOff)
        } else if value == 4 {
            Some(HyperCallID::CellList)
        } else if value == 20 {
            Some(HyperCallID::ClearInjectIrq)
        } else if value == 5 {
            Some(HyperCallID::IvcInfo)
        } else {
            None
        }
    }
}

impl TryFrom<u64> for HyperCallID {
    type Error = u64;

    /// The call that a number stands for; the number itself comes back as
    /// the error where it stands for none.
    fn try_from(value: u64) -> (r: Result<HyperCallID, u64>) {
        if value == 0 {
            Ok(HyperCallID::VirtioInit)
        } else if value == 1 {
            Ok(HyperCallID::VirtioInjectIrq)
        } else if value == 2 {
            Ok(HyperCallID::CellStart)
        } else if value == 3 {
            Ok(HyperCallID::CellOff)
        } else if value == 4 {
            Ok(HyperCallID::CellList)
        } else if value == 20 {
            Ok(HyperCallID::ClearInjectIrq)
        } else if value == 5 {
            Ok(HyperCallID::IvcInfo)
        } else {
            Err(value)
        }
    }
}

impl vstd::std_specs::convert::TryFromSpecImpl<u64> for HyperCallID {
    open spec fn obeys_try_from_spec() -> bool {
        true
    }

    open spec fn try_from_spec(value: u64) -> Result<HyperCallID, u64> {
        match HyperCallID::of_number(value) {
            Some(id) => Ok(id),
            None => Err(value),
        }
    }
}

impl From<HyperCallID> for u64 {
    /// The number that stands for the call.
    fn from(id: HyperCallID) -> (r: u64) {
        match id {
            HyperCallID::VirtioInit => 0,
            HyperCallID::VirtioInjectIrq => 1,
            HyperCallID::CellStart => 2,
            HyperCallID::CellOff => 3,
            HyperCallID::CellList => 4,
            HyperCallID::ClearInjectIrq => 20,
            HyperCallID::IvcInfo => 5,
        }
    }
}

impl vstd::std_specs::convert::FromSpecImpl<HyperCallID> for u64 {
    open spec fn obeys_from_spec() -> bool {
        true
    }

    open spec fn from_spec(id: HyperCallID) -> u64 {
        id.number()
    }
}

/// A call and its number stand for each other.
pub proof fn lemma_call_numbers(id: HyperCallID, value: u64)
    ensures
        HyperCallID::of_number(id.number()) == Some(id),
        HyperCallID::of_number(value) matches Some(other) ==> other.number() == value,
{
}

pub type HyperCallResult = core::result::Result<usize, HvError>;

/// The data of one CPU.
pub struct PerCpu {
    /// The number of the CPU.
    pub id: usize,
}

/// The hypercalls of one CPU.
pub struct HyperCall<'live> {
    cpu_data: &'live mut PerCpu,
}

impl<'live> HyperCall<'live> {
    pub fn new(cpu_data: &'live mut PerCpu) -> (r: Self)
        ensures
            r.spec_cpu_id() == old(cpu_data).id,
    {
        Self { cpu_data }
    }

    /// The number of the CPU whose calls these are.
    pub closed spec fn spec_cpu_id(&self) -> usize {
        self.cpu_data.id
    }

    /// Dispatches one call. A number that stands for no call is no error:
    /// it returns 0, as every call does that has nothing to do yet.
    pub fn hypercall(&mut self, id: u64, arg0: u64, arg1: u64) -> (r: HyperCallResult)
        ensures
            r matches Ok(value) && value == 0,
            final(self).spec_cpu_id() == old(self).spec_cpu_id(),
    {
        let id = match HyperCallID::try_from(id) {
            Ok(id) => id,
            Err(_) => {
                return Ok(0);
            },
        };
        match id {
            HyperCallID::VirtioInit => self.hv_virtio_init(arg0),
            _ => Ok(0),
        }
    }

    /// The call `VirtioInit`: nothing to do yet.
    pub fn hv_virtio_init(&mut self, shared_region_addr: u64) -> (r: HyperCallResult)
        ensures
            r matches Ok(value) && value == 0,
            final(self).spec_cpu_id() == old(self).spec_cpu_id(),
    {
        HyperCallResult::Ok(0)
    }
}

} // verus!
