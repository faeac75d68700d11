use vstd::prelude::*;

use crate::error::WitnessError;
use crate::state::EthereumStateTries;
use crate::witness::{
    build_witness_db, witness_error, witness_ok, Header, StateRequest, WitnessDb,
};

verus! {

/// Everything needed to verify the witness of one block: the header of the block under
/// execution followed by its ancestors, newest first; the state of the parent block; the
/// accounts and slots that execution reads; and the bytecodes it may run.
pub struct ClientExecutorInput {
    pub headers: Vec<Header>,
    pub parent_state: EthereumStateTries,
    pub state_requests: Vec<StateRequest>,
    pub bytecodes: Vec<Vec<u8>>,
}

/// The same input without the parent state.
pub struct ClientExecutorInputWithoutParentState {
    pub headers: Vec<Header>,
    pub state_requests: Vec<StateRequest>,
    pub bytecodes: Vec<Vec<u8>>,
}

impl ClientExecutorInput {
    /// The header of the parent block.
    pub fn parent_header(&self) -> (r: &Header)
        requires
            self.headers@.len() >= 2,
        ensures
            *r == self.headers@[1],
    {
        &self.headers[1]
    }

    /// The trusted root that the parent state must have: the parent header's state root.
    pub fn state_anchor(&self) -> (r: [u8; 32])
        requires
            self.headers@.len() >= 2,
        ensures
            r == self.headers@[1].state_root,
    {
        self.headers[1].state_root
    }

    /// Verifies the parent state against the parent header's state root, resolves the
    /// requested accounts and slots, checks the header chain, and gives the database.
    pub fn witness_db(&self) -> (r: Result<WitnessDb, WitnessError>)
        requires
            self.headers@.len() >= 2,
            self.parent_state.wf(),
        ensures
            match witness_error(
                self.parent_state,
                self.headers@[1].state_root@,
                self.state_requests@,
                self.bytecodes@,
                self.headers@,
            ) {
                Some(e) => r == Err::<WitnessDb, WitnessError>(e),
                None => r is Ok,
            },
            r is Ok ==> witness_ok(
                r->Ok_0,
                self.parent_state,
                self.state_requests@,
                self.bytecodes@,
                self.headers@,
            ),
    {
        let anchor = self.state_anchor();
        build_witness_db(&self.parent_state, &anchor, &self.state_requests, &self.bytecodes, &self.headers)
    }

    /// Separates the parent state from the rest of the input.
    pub fn split_parent_state(self) -> (r: (ClientExecutorInputWithoutParentState, EthereumStateTries))
        ensures
            r.0.headers == self.headers,
            r.0.state_requests == self.state_requests,
            r.0.bytecodes == self.bytecodes,
            r.1 == self.parent_state,
    {
        (
            ClientExecutorInputWithoutParentState {
                headers: self.headers,
                state_requests: self.state_requests,
                bytecodes: self.bytecodes,
            },
            self.parent_state,
        )
    }

    /// Joins an input and a parent state.
    pub fn from_split_parent_state(
        input: ClientExecutorInputWithoutParentState,
        parent_state: EthereumStateTries,
    ) -> (r: Self)
        ensures
            r.headers == input.headers,
            r.state_requests == input.state_requests,
            r.bytecodes == input.bytecodes,
            r.parent_state == parent_state,
    {
        ClientExecutorInput {
            headers: input.headers,
            parent_state,
            state_requests: input.state_requests,
            bytecodes: input.bytecodes,
        }
    }
}

} // verus!
