//! An in-memory transport for exercising the driver without hardware.
//!
//! `RecordingInterface` keeps every transaction it accepts in a plain vector
//! and can be told to start failing at a given transaction index, which makes
//! the driver's error propagation observable.

use vstd::prelude::*;

use crate::ifce::{BusOp, Sh1122Interface, TransportError};

verus! {

/// One recorded transaction, the executable mirror of `BusOp`.
#[derive(Debug)]
pub enum BusRecord {
    Cmd { opcode: u8, payload: Vec<u8> },
    Data { payload: Vec<u8> },
}

impl View for BusRecord {
    type V = BusOp;

    open spec fn view(&self) -> BusOp {
        match self {
            BusRecord::Cmd { opcode, payload } => BusOp::Cmd {
                opcode: *opcode,
                payload: payload@,
            },
            BusRecord::Data { payload } => BusOp::Data { payload: payload@ },
        }
    }
}

/// A transport that records every accepted transaction.
///
/// Transactions with index `fail_from` and beyond are refused with a
/// `TransportError` and are not recorded.
pub struct RecordingInterface {
    pub calls: Vec<BusRecord>,
    pub fail_from: usize,
}

impl RecordingInterface {
    /// A transport that accepts every transaction.
    pub fn new() -> (r: Self)
        ensures
            r.log() == Seq::<BusOp>::empty(),
            r.calls@.len() == 0,
    {
        let r = RecordingInterface { calls: Vec::new(), fail_from: usize::MAX };
        proof {
            assert(r.log() =~= Seq::<BusOp>::empty());
        }
        r
    }

    /// A transport that accepts the first `n` transactions and refuses the
    /// rest.
    pub fn failing_from(n: usize) -> (r: Self)
        ensures
            r.log() == Seq::<BusOp>::empty(),
            r.calls@.len() == 0,
            r.fail_from == n,
    {
        let r = RecordingInterface { calls: Vec::new(), fail_from: n };
        proof {
            assert(r.log() =~= Seq::<BusOp>::empty());
        }
        r
    }
}

impl Sh1122Interface for RecordingInterface {
    open spec fn log(&self) -> Seq<BusOp> {
        self.calls@.map(|i: int, r: BusRecord| r@)
    }

    fn write_cmd(&mut self, cmd: u8, data: &[u8]) -> (r: Result<(), TransportError>) {
        if self.calls.len() >= self.fail_from {
            return Err(TransportError);
        }
        let payload = vstd::slice::slice_to_vec(data);
        let rec = BusRecord::Cmd { opcode: cmd, payload };
        proof {
            assert(self.calls@.push(rec).map(|i: int, r: BusRecord| r@) =~= self.log().push(
                BusOp::Cmd { opcode: cmd, payload: data@ },
            ));
        }
        self.calls.push(rec);
        Ok(())
    }

    fn write_data(&mut self, data: &[u8]) -> (r: Result<(), TransportError>) {
        if self.calls.len() >= self.fail_from {
            return Err(TransportError);
        }
        let payload = vstd::slice::slice_to_vec(data);
        let rec = BusRecord::Data { payload };
        proof {
            assert(self.calls@.push(rec).map(|i: int, r: BusRecord| r@) =~= self.log().push(
                BusOp::Data { payload: data@ },
            ));
        }
        self.calls.push(rec);
        Ok(())
    }
}

} // verus!
