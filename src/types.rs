//! Values handed across the trusted/untrusted boundary: status codes and
//! owned byte buffers (no raw pointer crosses the boundary).
use vstd::prelude::*;

verus! {

pub const STATE_SIZE: usize = 8;
pub const PUBKEY_SIZE: usize = 32;
pub const ADDRESS_SIZE: usize = 20;
pub const RANDOMNESS_SIZE: usize = 32;
pub const SIG_SIZE: usize = 64;
pub const DB_VALUE_SIZE: usize = STATE_SIZE + RANDOMNESS_SIZE;

pub type Address = [u8; ADDRESS_SIZE];
pub type RawPubkey = [u8; PUBKEY_SIZE];
pub type RawSig = [u8; SIG_SIZE];
pub type RawChallenge = [u8; RANDOMNESS_SIZE];
/// A state value.
pub type Value = u64;
pub type Randomness = Vec<u8>;

/// An encrypted state value.
pub struct Ciphertext(Vec<u8>);

/// Status returned by a call into the enclave: zero is success.
#[derive(Debug, PartialEq, Eq, Structural)]
pub struct EnclaveStatus(pub u32);

impl Default for EnclaveStatus {
    fn default() -> (r: Self)
        ensures
            r.0 == 0,
    {
        EnclaveStatus(0)
    }
}

impl EnclaveStatus {
    pub fn success() -> (r: Self)
        ensures
            r.0 == 0,
    {
        EnclaveStatus(0)
    }

    pub fn error() -> (r: Self)
        ensures
            r.0 == 1,
    {
        EnclaveStatus(1)
    }

    pub fn is_err(&self) -> (r: bool)
        ensures
            r == (self.0 != 0),
    {
        match self.0 {
            0 => false,
            _ => true,
        }
    }
}

/// Status returned by a call out of the enclave: zero is success.
#[derive(Debug, PartialEq, Eq, Structural)]
pub struct UntrustedStatus(pub u32);

impl Default for UntrustedStatus {
    fn default() -> (r: Self)
        ensures
            r.0 == 0,
    {
        UntrustedStatus(0)
    }
}

impl UntrustedStatus {
    pub fn success() -> (r: Self)
        ensures
            r.0 == 0,
    {
        UntrustedStatus(0)
    }

    pub fn error() -> (r: Self)
        ensures
            r.0 == 1,
    {
        UntrustedStatus(1)
    }

    pub fn is_err(&self) -> (r: bool)
        ensures
            r == (self.0 != 0),
    {
        match self.0 {
            0 => false,
            _ => true,
        }
    }
}

/// A join-group transaction sent from the enclave to the host: the
/// attestation report, its signature and the serialized handshake.
#[derive(Clone, Debug)]
pub struct RawJoinGroupTx {
    pub report: Vec<u8>,
    pub report_sig: Vec<u8>,
    pub handshake: Vec<u8>,
}

impl Default for RawJoinGroupTx {
    fn default() -> (r: Self)
        ensures
            r.report@.len() == 0,
            r.report_sig@.len() == 0,
            r.handshake@.len() == 0,
    {
        RawJoinGroupTx { report: Vec::new(), report_sig: Vec::new(), handshake: Vec::new() }
    }
}

/// A handshake transaction sent from the enclave to the host.
#[derive(Clone, Debug)]
pub struct RawHandshakeTx {
    pub handshake: Vec<u8>,
}

impl Default for RawHandshakeTx {
    fn default() -> (r: Self)
        ensures
            r.handshake@.len() == 0,
    {
        RawHandshakeTx { handshake: Vec::new() }
    }
}

/// Serialized state returned by a state query.
#[derive(Clone, Debug)]
pub struct EnclaveState(pub Vec<u8>);

impl EnclaveState {
    pub fn as_bytes(&self) -> (r: Vec<u8>)
        ensures
            r@ == self.0@,
    {
        self.0.clone()
    }

    pub fn into_vec(self) -> (r: Vec<u8>)
        ensures
            r@ == self.0@,
    {
        self.0
    }
}

impl Default for EnclaveState {
    fn default() -> (r: Self)
        ensures
            r.0@.len() == 0,
    {
        EnclaveState(Vec::new())
    }
}

/// A key-value entry updated inside the enclave.
#[derive(Clone, Debug)]
pub struct RawUpdatedState {
    pub address: Address,
    pub mem_id: u32,
    pub state: Vec<u8>,
}

impl Default for RawUpdatedState {
    fn default() -> (r: Self)
        ensures
            forall|i: int| 0 <= i < ADDRESS_SIZE ==> r.address@[i] == 0u8,
            r.mem_id == 0,
            r.state@.len() == 0,
    {
        RawUpdatedState { address: [0u8; ADDRESS_SIZE], mem_id: 0, state: Vec::new() }
    }
}

/// Outcome flag of an operation.
#[derive(Debug, PartialEq, Eq, Structural)]
pub enum ResultStatus {
    Failure,
    Success,
}

impl From<bool> for ResultStatus {
    fn from(i: bool) -> (r: Self) {
        if i {
            ResultStatus::Success
        } else {
            ResultStatus::Failure
        }
    }
}

impl vstd::std_specs::convert::FromSpecImpl<bool> for ResultStatus {
    open spec fn obeys_from_spec() -> bool {
        true
    }

    open spec fn from_spec(i: bool) -> ResultStatus {
        if i {
            ResultStatus::Success
        } else {
            ResultStatus::Failure
        }
    }
}

/// An owned buffer handed across the boundary, with a flag that says
/// whether the receiver may write to it.
#[derive(Clone, Debug)]
pub struct RawPointer {
    buf: Vec<u8>,
    mutable: bool,
}

impl RawPointer {
    pub closed spec fn data(&self) -> Seq<u8> {
        self.buf@
    }

    pub closed spec fn is_mutable(&self) -> bool {
        self.mutable
    }

    pub fn new(data: Vec<u8>) -> (r: Self)
        ensures
            r.data() == data@,
            !r.is_mutable(),
    {
        RawPointer { buf: data, mutable: false }
    }

    pub fn new_mut(data: Vec<u8>) -> (r: Self)
        ensures
            r.data() == data@,
            r.is_mutable(),
    {
        RawPointer { buf: data, mutable: true }
    }

    pub fn get_ptr(&self) -> (r: &[u8])
        ensures
            r@ == self.data(),
    {
        self.buf.as_slice()
    }

    pub fn get_mut_ptr(&mut self) -> (r: Result<&mut Vec<u8>, &'static str>)
        ensures
            r is Err <==> !old(self).is_mutable(),
            r is Err ==> r->Err_0@ == "This DoublePointer is not mutable"@,
            r is Err ==> *final(self) == *old(self),
            r is Ok ==> (*r->Ok_0)@ == old(self).data(),
            r is Ok ==> final(self).is_mutable() && final(self).data() == (*final(r->Ok_0))@,
    {
        if !self.mutable {
            Err("This DoublePointer is not mutable")
        } else {
            Ok(&mut self.buf)
        }
    }
}

} // verus!
