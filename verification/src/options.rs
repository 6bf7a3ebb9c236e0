//! Command-line choices of the pitch tool and how they map onto the CREPE
//! model's own settings.
use crate::crepe;
use candle_core::{Device, Error};
use vstd::prelude::*;

verus! {

/// candle's compute device, carried through opaque.
#[verifier::external_type_specification]
#[verifier::external_body]
pub struct ExDevice(Device);

/// candle's error type, carried through opaque.
#[verifier::external_type_specification]
#[verifier::external_body]
pub struct ExError(Error);

/// `candle_core::Device::Cpu`: the host CPU device. Claims nothing about the value.
#[verifier::external_body]
fn cpu_device() -> Device {
    Device::Cpu
}

/// CREPE model size chosen on the command line.
#[derive(Clone, Copy, Debug, PartialEq, Eq, Structural)]
pub enum Capacity {
    Tiny,
    Small,
    Medium,
    Large,
    Full,
}

/// Pitch decoder chosen on the command line.
#[derive(Clone, Copy, Debug, PartialEq, Eq, Structural)]
pub enum Decoder {
    Local,
    Viterbi,
}

/// Inference device chosen on the command line.
#[derive(Clone, Copy, Debug, PartialEq, Eq, Structural)]
pub enum DeviceKind {
    Auto,
    Cpu,
}

impl Default for DeviceKind {
    fn default() -> (d: DeviceKind)
        ensures
            d == DeviceKind::Auto,
    {
        DeviceKind::Auto
    }
}

impl DeviceKind {
    /// The inference device for this choice. Only the CPU backend is built,
    /// so both choices give the CPU device, and never an error.
    pub fn into_device(self) -> (r: Result<Device, Error>)
        ensures
            r is Ok,
    {
        match self {
            DeviceKind::Auto => auto_select(),
            DeviceKind::Cpu => Ok(cpu_device()),
        }
    }
}

/// The best compiled-in backend: the CPU, the only one built.
fn auto_select() -> (r: Result<Device, Error>)
    ensures
        r is Ok,
{
    Ok(cpu_device())
}

/// The model capacity of a command-line capacity.
pub open spec fn model_capacity(c: Capacity) -> crepe::Capacity {
    match c {
        Capacity::Tiny => crepe::Capacity::Tiny,
        Capacity::Small => crepe::Capacity::Small,
        Capacity::Medium => crepe::Capacity::Medium,
        Capacity::Large => crepe::Capacity::Large,
        Capacity::Full => crepe::Capacity::Full,
    }
}

/// The command-line capacity of a model capacity.
pub open spec fn cli_capacity(c: crepe::Capacity) -> Capacity {
    match c {
        crepe::Capacity::Tiny => Capacity::Tiny,
        crepe::Capacity::Small => Capacity::Small,
        crepe::Capacity::Medium => Capacity::Medium,
        crepe::Capacity::Large => Capacity::Large,
        crepe::Capacity::Full => Capacity::Full,
    }
}

/// The model decoder of a command-line decoder.
pub open spec fn model_decoder(d: Decoder) -> crepe::Decoder {
    match d {
        Decoder::Local => crepe::Decoder::LocalAverage,
        Decoder::Viterbi => crepe::Decoder::Viterbi,
    }
}

impl From<Capacity> for crepe::Capacity {
    fn from(c: Capacity) -> (r: crepe::Capacity) {
        match c {
            Capacity::Tiny => crepe::Capacity::Tiny,
            Capacity::Small => crepe::Capacity::Small,
            Capacity::Medium => crepe::Capacity::Medium,
            Capacity::Large => crepe::Capacity::Large,
            Capacity::Full => crepe::Capacity::Full,
        }
    }
}

impl vstd::std_specs::convert::FromSpecImpl<Capacity> for crepe::Capacity {
    open spec fn obeys_from_spec() -> bool {
        true
    }

    open spec fn from_spec(c: Capacity) -> crepe::Capacity {
        model_capacity(c)
    }
}

impl From<crepe::Capacity> for Capacity {
    fn from(c: crepe::Capacity) -> (r: Capacity) {
        match c {
            crepe::Capacity::Tiny => Capacity::Tiny,
            crepe::Capacity::Small => Capacity::Small,
            crepe::Capacity::Medium => Capacity::Medium,
            crepe::Capacity::Large => Capacity::Large,
            crepe::Capacity::Full => Capacity::Full,
        }
    }
}

impl vstd::std_specs::convert::FromSpecImpl<crepe::Capacity> for Capacity {
    open spec fn obeys_from_spec() -> bool {
        true
    }

    open spec fn from_spec(c: crepe::Capacity) -> Capacity {
        cli_capacity(c)
    }
}

impl From<Decoder> for crepe::Decoder {
    fn from(d: Decoder) -> (r: crepe::Decoder) {
        match d {
            Decoder::Local => crepe::Decoder::LocalAverage,
            Decoder::Viterbi => crepe::Decoder::Viterbi,
        }
    }
}

impl vstd::std_specs::convert::FromSpecImpl<Decoder> for crepe::Decoder {
    open spec fn obeys_from_spec() -> bool {
        true
    }

    open spec fn from_spec(d: Decoder) -> crepe::Decoder {
        model_decoder(d)
    }
}

impl Capacity {
    /// Lower-case name of this capacity: that of the model capacity it stands for.
    pub fn name(self) -> (s: &'static str)
        ensures
            s@ == model_capacity(self).spec_name(),
    {
        crepe::Capacity::from(self).name()
    }
}

impl Decoder {
    /// Name of this decoder as written in the output: "local" or "viterbi".
    pub fn name(self) -> (s: &'static str)
        ensures
            s@ == (match self {
                Decoder::Local => "local"@,
                Decoder::Viterbi => "viterbi"@,
            }),
    {
        match self {
            Decoder::Local => "local",
            Decoder::Viterbi => "viterbi",
        }
    }
}

/// Capacity fetched when no weight file is given.
pub const DEFAULT_CREPE_CAPACITY: Capacity = Capacity::Tiny;

/// A capacity asked for on the command line that the loaded weights do not have.
#[derive(Clone, Copy, Debug, PartialEq, Eq, Structural)]
pub struct CapacityMismatch {
    pub requested: Capacity,
    pub loaded: Capacity,
}

/// The capacity to fetch when no weight file is given: the one asked for, else the default.
pub fn hub_capacity(requested: Option<Capacity>) -> (c: Capacity)
    ensures
        c == match requested {
            Some(r) => r,
            None => DEFAULT_CREPE_CAPACITY,
        },
{
    match requested {
        Some(r) => r,
        None => DEFAULT_CREPE_CAPACITY,
    }
}

/// Checks the loaded weights against the capacity asked for: an error exactly
/// when one was asked for and the weights have another.
pub fn check_capacity(requested: Option<Capacity>, loaded: Capacity) -> (r: Result<(), CapacityMismatch>)
    ensures
        r is Err <==> (requested matches Some(q) && q != loaded),
        r matches Err(e) ==> requested == Some(e.requested) && e.loaded == loaded,
{
    match requested {
        Some(q) => {
            if q != loaded {
                Err(CapacityMismatch { requested: q, loaded })
            } else {
                Ok(())
            }
        },
        None => Ok(()),
    }
}

/// Converting a capacity to the model's and back gives it again, both ways round.
pub proof fn lemma_capacity_round_trip(c: Capacity, m: crepe::Capacity)
    ensures
        cli_capacity(model_capacity(c)) == c,
        model_capacity(cli_capacity(m)) == m,
{
}

/// Distinct command-line capacities select distinct models, with distinct names.
pub proof fn lemma_capacity_names_distinct(a: Capacity, b: Capacity)
    requires
        a != b,
    ensures
        model_capacity(a) != model_capacity(b),
        model_capacity(a).spec_name() != model_capacity(b).spec_name(),
{
    reveal_strlit("tiny");
    reveal_strlit("small");
    reveal_strlit("medium");
    reveal_strlit("large");
    reveal_strlit("full");
    assert("tiny"@[0] == 't' && "small"@[0] == 's' && "medium"@[0] == 'm');
    assert("large"@[0] == 'l' && "full"@[0] == 'f');
    assert(model_capacity(a).spec_name()[0] != model_capacity(b).spec_name()[0]);
}

} // verus!
