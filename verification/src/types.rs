use vstd::prelude::*;

verus! {

/// Categorical tag of a call. The flattener treats it as an opaque label and
/// passes it through unchanged.
#[derive(Clone, Copy, Debug, PartialEq, Eq)]
pub enum DebugCallType {
    Call,
    Create,
    StaticCall,
    DelegateCall,
}

/// A fixed-width account address, held as 20 big-endian bytes.
#[derive(Clone, Copy, Debug, PartialEq, Eq)]
pub struct Address(pub [u8; 20]);

/// A 256-bit unsigned integer, held as four little-endian 64-bit limbs.
/// The flattener performs no arithmetic on it; the value only travels from a
/// node into its flat record.
#[derive(Clone, Copy, Debug, PartialEq, Eq)]
pub struct U256(pub [u64; 4]);

/// A variable-length byte payload (call input or output data).
#[derive(Debug, PartialEq, Eq)]
pub struct Bytes(pub Vec<u8>);

impl View for Bytes {
    type V = Seq<u8>;

    open spec fn view(&self) -> Seq<u8> {
        self.0@
    }
}

/// Copies a vector of plain values element by element.
pub fn clone_copy_vec<T: Copy>(v: &Vec<T>) -> (r: Vec<T>)
    ensures
        r@ == v@,
{
    let mut r: Vec<T> = Vec::new();
    let mut k: usize = 0;
    while k < v.len()
        invariant
            k <= v.len(),
            r@ == v@.subrange(0, k as int),
        decreases v.len() - k,
    {
        r.push(v[k]);
        k += 1;
        proof {
            assert(r@ =~= v@.subrange(0, k as int));
        }
    }
    proof {
        assert(r@ =~= v@);
    }
    r
}

/// Copies an optional text payload.
pub fn clone_opt_text(o: &Option<String>) -> (r: Option<String>)
    ensures
        r == *o,
{
    match o {
        Some(s) => Some(s.clone()),
        None => None,
    }
}

impl Clone for Bytes {
    fn clone(&self) -> (r: Self)
        ensures
            r@ == self@,
    {
        Bytes(clone_copy_vec(&self.0))
    }
}

/// One node of a nested call trace: the call itself together with the
/// sub-calls it made, in execution order.
#[derive(Debug, PartialEq, Eq)]
pub struct DebugCall {
    pub call_type: DebugCallType,
    pub from: Address,
    pub to: Address,
    pub gas: U256,
    pub gas_used: U256,
    pub value: U256,
    pub input: Bytes,
    pub output: Bytes,
    pub error: Option<String>,
    pub revert_reason: Option<String>,
    pub calls: Vec<DebugCall>,
}

/// The result of one top-level call, as a trace data source hands it over.
#[derive(Debug, PartialEq, Eq)]
pub struct ResultDebugCall {
    pub result: DebugCall,
}

/// The `action` part of a flat record: what the call was asked to do.
#[derive(Debug, PartialEq, Eq)]
pub struct Action {
    pub call_type: DebugCallType,
    pub from: Address,
    pub to: Address,
    pub gas: U256,
    pub value: U256,
    pub input: Bytes,
}

/// The `result` part of a flat record: what the call produced.
#[derive(Debug, PartialEq, Eq)]
pub struct CallResult {
    pub output: Bytes,
    pub gas_used: U256,
}

/// One entry of a flat trace: a single call, annotated with its positional
/// address in the original call forest and the count of its direct sub-calls.
#[derive(Debug, PartialEq, Eq)]
pub struct DebugCallFlat {
    pub action: Action,
    pub result: CallResult,
    pub subtraces: usize,
    pub trace_address: Vec<usize>,
    pub error: Option<String>,
    pub revert_reason: Option<String>,
}

/// Mathematical model of one flat record: the same fields as `DebugCallFlat`,
/// with sequences in place of vectors and the nesting of `action` / `result`
/// flattened away.
#[verifier::ext_equal]
pub ghost struct FlatRecord {
    pub call_type: DebugCallType,
    pub from: Address,
    pub to: Address,
    pub gas: U256,
    pub value: U256,
    pub input: Seq<u8>,
    pub output: Seq<u8>,
    pub gas_used: U256,
    pub subtraces: nat,
    pub trace_address: Seq<usize>,
    pub error: Option<Seq<char>>,
    pub revert_reason: Option<Seq<char>>,
}

/// The view of an optional text payload: the character sequence, if present.
pub open spec fn opt_text_view(o: Option<String>) -> Option<Seq<char>> {
    match o {
        Some(s) => Some(s@),
        None => None,
    }
}

impl View for DebugCallFlat {
    type V = FlatRecord;

    open spec fn view(&self) -> FlatRecord {
        FlatRecord {
            call_type: self.action.call_type,
            from: self.action.from,
            to: self.action.to,
            gas: self.action.gas,
            value: self.action.value,
            input: self.action.input@,
            output: self.result.output@,
            gas_used: self.result.gas_used,
            subtraces: self.subtraces as nat,
            trace_address: self.trace_address@,
            error: opt_text_view(self.error),
            revert_reason: opt_text_view(self.revert_reason),
        }
    }
}

} // verus!
