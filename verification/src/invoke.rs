use crate::data_type::DataType;
use crate::ident::Id;
use vstd::prelude::*;

verus! {

/// The identifier by which an invoker knows a function.
pub type FunctionId = Id;

/// A value that flows along a binding. It carries its type with it.
#[derive(Clone, Debug)]
pub enum Value {
    /// No value: what an optional input that nothing is bound to receives.
    Null,
    Bool(bool),
    Int(i64),
    /// A floating-point number, held as its IEEE 754 bits.
    Float(u64),
    Text(String),
}

impl Value {
    pub open spec fn type_of(&self) -> DataType {
        match self {
            Value::Null => DataType::Null,
            Value::Bool(_) => DataType::Bool,
            Value::Int(_) => DataType::Int,
            Value::Float(_) => DataType::Float,
            Value::Text(_) => DataType::Text,
        }
    }

    /// The type that the value carries.
    pub fn data_type(&self) -> (data_type: DataType)
        ensures
            data_type == self.type_of(),
    {
        match self {
            Value::Null => DataType::Null,
            Value::Bool(_) => DataType::Bool,
            Value::Int(_) => DataType::Int,
            Value::Float(_) => DataType::Float,
            Value::Text(_) => DataType::Text,
        }
    }

    /// A copy of the value.
    pub fn duplicate(&self) -> (copy: Value)
        ensures
            copy == *self,
    {
        match self {
            Value::Null => Value::Null,
            Value::Bool(flag) => Value::Bool(*flag),
            Value::Int(number) => Value::Int(*number),
            Value::Float(bits) => Value::Float(*bits),
            Value::Text(text) => Value::Text(text.clone()),
        }
    }
}

/// The values handed to a function, or taken from it: one per port, in the
/// order of the ports.
pub type InvokeArgs = Vec<Value>;

/// Puts what a function returned into the slots for its outputs, the first
/// value into the first slot and so on. Slots beyond the values keep what
/// they hold. A function that returns more values than there are slots has
/// failed, and the slots stay as they are.
pub fn store_outputs(returned: &Vec<Value>, outputs: &mut InvokeArgs) -> (stored: Result<
    (),
    InvokeError,
>)
    ensures
        stored is Ok <==> returned@.len() <= old(outputs)@.len(),
        stored is Err ==> stored->Err_0 is Recoverable && final(outputs)@ == old(outputs)@,
        stored is Ok ==> final(outputs)@ == returned@ + old(outputs)@.skip(returned@.len() as int),
{
    if returned.len() > outputs.len() {
        return Err(InvokeError::Recoverable("the function returned too many values".to_owned()));
    }
    let mut i: usize = 0;
    while i < returned.len()
        invariant
            i <= returned@.len(),
            returned@.len() <= outputs@.len(),
            outputs@.len() == old(outputs)@.len(),
            outputs@ == returned@.take(i as int) + old(outputs)@.skip(i as int),
        decreases returned@.len() - i,
    {
        let ghost held = outputs@;
        outputs[i] = returned[i].duplicate();
        proof {
            assert(outputs@ =~= returned@.take(i + 1) + old(outputs)@.skip(i + 1)) by {
                assert(outputs@ == held.update(i as int, returned@[i as int]));
                assert forall|a: int| 0 <= a < outputs@.len() implies outputs@[a] == (returned@.take(
                    i + 1,
                ) + old(outputs)@.skip(i + 1))[a] by {
                    if a < i {
                        assert(held[a] == returned@.take(i as int)[a]);
                    } else if a > i {
                        assert(held[a] == old(outputs)@.skip(i as int)[a - i]);
                    }
                }
            }
        }
        i += 1;
    }
    proof {
        assert(returned@.take(i as int) == returned@);
    }
    Ok(())
}

/// The scratch values that a node keeps from one call to the next.
#[derive(Clone, Debug)]
pub struct InvokeContext {
    pub values: Vec<Value>,
}

impl Default for InvokeContext {
    fn default() -> (context: InvokeContext)
        ensures
            context.values@.len() == 0,
    {
        InvokeContext { values: Vec::new() }
    }
}

/// Why a call of a function failed.
#[derive(Clone, Debug)]
pub enum InvokeError {
    /// The node could not run; the cycle goes on without it and without the
    /// nodes that consume it.
    Recoverable(String),
    /// The cycle cannot go on.
    Fatal(String),
}

/// What runs the functions of the nodes. It knows functions, not graphs.
pub trait Invoker {
    /// The functions that can be called.
    fn all_functions(&self) -> Vec<FunctionId>;

    /// Calls one function. `inputs` holds one value per input port and
    /// `outputs` one slot per output port of the node, to be filled.
    fn invoke(
        &self,
        function_id: FunctionId,
        ctx: &mut InvokeContext,
        inputs: &InvokeArgs,
        outputs: &mut InvokeArgs,
    ) -> Result<(), InvokeError>;
}

} // verus!
