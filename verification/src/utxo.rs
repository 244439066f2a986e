//! References to transaction outputs: a transaction identifier together with
//! the index of one of its outputs, and the input type built from it.

use vstd::prelude::*;

verus! {

/// The largest output index a transaction can have: a transaction holds at
/// most 127 outputs, indexed 0 through 126.
pub const INPUT_OUTPUT_INDEX_MAX: u16 = 126;

/// An error raised when building a reference to a transaction output.
#[derive(Clone, Copy, PartialEq, Eq, Structural, Debug)]
pub enum Error {
    /// The output index lies beyond [`INPUT_OUTPUT_INDEX_MAX`].
    InvalidInputOutputIndex(u16),
}

/// A fixed-width transaction identifier.
#[derive(Clone, Copy)]
pub struct TransactionId {
    bytes: [u8; 32],
}

impl View for TransactionId {
    type V = Seq<u8>;

    closed spec fn view(&self) -> Seq<u8> {
        self.bytes@
    }
}

impl TransactionId {
    /// Builds an identifier from its raw bytes.
    pub fn new(bytes: [u8; 32]) -> (r: TransactionId)
        ensures
            r@ == bytes@,
    {
        TransactionId { bytes }
    }

    /// The raw bytes of the identifier.
    pub fn as_bytes(&self) -> (r: &[u8; 32])
        ensures
            r@ == self@,
    {
        &self.bytes
    }
}

/// A reference to one output of a transaction: the transaction's identifier
/// and the index of the output within it. The index never exceeds
/// [`INPUT_OUTPUT_INDEX_MAX`].
#[derive(Clone, Copy)]
pub struct OutputId {
    transaction_id: TransactionId,
    index: u16,
}

impl OutputId {
    /// The transaction identifier of the reference.
    pub closed spec fn spec_transaction_id(self) -> TransactionId {
        self.transaction_id
    }

    /// The output index of the reference.
    pub closed spec fn spec_index(self) -> u16 {
        self.index
    }

    /// The index is within the range a transaction can hold.
    pub open spec fn wf(self) -> bool {
        self.spec_index() <= INPUT_OUTPUT_INDEX_MAX
    }

    /// Builds a reference to the output `index` of `transaction_id`; rejects
    /// an index beyond [`INPUT_OUTPUT_INDEX_MAX`].
    pub fn new(transaction_id: TransactionId, index: u16) -> (r: Result<OutputId, Error>)
        ensures
            r is Ok <==> index <= INPUT_OUTPUT_INDEX_MAX,
            r matches Ok(o) ==> o.spec_transaction_id() == transaction_id && o.spec_index()
                == index && o.wf(),
            r matches Err(e) ==> e == Error::InvalidInputOutputIndex(index),
    {
        if index <= INPUT_OUTPUT_INDEX_MAX {
            Ok(OutputId { transaction_id, index })
        } else {
            Err(Error::InvalidInputOutputIndex(index))
        }
    }

    /// The transaction the referenced output belongs to.
    pub fn transaction_id(&self) -> (r: &TransactionId)
        ensures
            *r == self.spec_transaction_id(),
    {
        &self.transaction_id
    }

    /// The index of the referenced output within its transaction.
    pub fn index(&self) -> (r: u16)
        ensures
            r == self.spec_index(),
    {
        self.index
    }
}

/// A transaction input that spends an unspent transaction output, named by
/// the output's reference.
#[derive(Clone, Copy)]
pub struct UtxoInput {
    output_id: OutputId,
}

impl UtxoInput {
    /// The tag under which this input kind is serialized.
    pub const KIND: u8 = 0;

    /// The referenced output.
    pub closed spec fn spec_output_id(self) -> OutputId {
        self.output_id
    }

    /// Builds an input spending the output `index` of `id`; rejects an index
    /// beyond [`INPUT_OUTPUT_INDEX_MAX`].
    pub fn new(id: TransactionId, index: u16) -> (r: Result<UtxoInput, Error>)
        ensures
            r is Ok <==> index <= INPUT_OUTPUT_INDEX_MAX,
            r matches Ok(u) ==> u.spec_output_id().spec_transaction_id() == id
                && u.spec_output_id().spec_index() == index && u.spec_output_id().wf(),
            r matches Err(e) ==> e == Error::InvalidInputOutputIndex(index),
    {
        match OutputId::new(id, index) {
            Ok(output_id) => Ok(UtxoInput { output_id }),
            Err(e) => Err(e),
        }
    }

    /// The output this input spends.
    pub fn output_id(&self) -> (r: &OutputId)
        ensures
            *r == self.spec_output_id(),
    {
        &self.output_id
    }
}

impl From<OutputId> for UtxoInput {
    /// Wraps an already validated output reference.
    fn from(id: OutputId) -> (r: Self)
        ensures
            r.spec_output_id() == id,
    {
        UtxoInput { output_id: id }
    }
}

impl vstd::std_specs::convert::FromSpecImpl<OutputId> for UtxoInput {
    open spec fn obeys_from_spec() -> bool {
        true
    }

    closed spec fn from_spec(id: OutputId) -> Self {
        UtxoInput { output_id: id }
    }
}

} // verus!
