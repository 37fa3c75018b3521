use crate::data_type::DataType;
use vstd::prelude::*;
use vstd::string::StringExecFns;

verus! {

/// One parameter or result of a scripted function.
#[derive(Clone, Debug)]
pub struct Argument {
    pub name: String,
    pub data_type: DataType,
    pub index: i64,
}

/// What a script declares of one of its functions.
#[derive(Clone, Debug)]
pub struct FunctionInfo {
    pub name: String,
    pub inputs: Vec<Argument>,
    pub outputs: Vec<Argument>,
}

impl FunctionInfo {
    /// Reads what a script declares of a function: its name, and the name
    /// and the type name of each parameter and of each result. There is no
    /// result where a type name names no type.
    pub fn from_parts(
        name: String,
        inputs: &Vec<(String, String)>,
        outputs: &Vec<(String, String)>,
    ) -> (info: Option<FunctionInfo>)
        ensures
            info is Some <==> all_typed(inputs@) && all_typed(outputs@),
            info is Some ==> info->0.name == name && declared(inputs@, info->0.inputs@) && declared(
                outputs@,
                info->0.outputs@,
            ),
    {
        match read_arguments(inputs) {
            None => None,
            Some(inputs) => match read_arguments(outputs) {
                None => None,
                Some(outputs) => Some(FunctionInfo { name, inputs, outputs }),
            },
        }
    }

    pub fn name(&self) -> (name: &str)
        ensures
            name@ == self.name@,
    {
        self.name.as_str()
    }

    pub fn inputs(&self) -> (inputs: &Vec<Argument>)
        ensures
            *inputs == self.inputs,
    {
        &self.inputs
    }

    pub fn outputs(&self) -> (outputs: &Vec<Argument>)
        ensures
            *outputs == self.outputs,
    {
        &self.outputs
    }
}

/// Whether every type name of `parts` names a type.
pub open spec fn all_typed(parts: Seq<(String, String)>) -> bool {
    forall|i: int| 0 <= i < parts.len() ==> DataType::named((#[trigger] parts[i]).1@) is Some
}

/// Whether `arguments` holds, one for one, what `parts` declare.
pub open spec fn declared(parts: Seq<(String, String)>, arguments: Seq<Argument>) -> bool {
    &&& arguments.len() == parts.len()
    &&& forall|i: int|
        0 <= i < parts.len() ==> {
            &&& (#[trigger] arguments[i]).name@ == parts[i].0@
            &&& Some(arguments[i].data_type) == DataType::named(parts[i].1@)
            &&& arguments[i].index == 0
        }
}

fn read_arguments(parts: &Vec<(String, String)>) -> (arguments: Option<Vec<Argument>>)
    ensures
        arguments is Some <==> all_typed(parts@),
        arguments is Some ==> declared(parts@, arguments->0@),
{
    let mut arguments: Vec<Argument> = Vec::new();
    let mut i: usize = 0;
    while i < parts.len()
        invariant
            i <= parts@.len(),
            arguments@.len() == i,
            forall|a: int| 0 <= a < i ==> DataType::named((#[trigger] parts@[a]).1@) is Some,
            forall|a: int|
                0 <= a < i ==> {
                    &&& (#[trigger] arguments@[a]).name@ == parts@[a].0@
                    &&& Some(arguments@[a].data_type) == DataType::named(parts@[a].1@)
                    &&& arguments@[a].index == 0
                },
        decreases parts@.len() - i,
    {
        let ghost held = arguments@;
        match DataType::from_name(parts[i].1.as_str()) {
            None => {
                return None;
            },
            Some(data_type) => {
                arguments.push(Argument { name: parts[i].0.clone(), data_type, index: 0 });
            },
        }
        proof {
            assert forall|a: int| 0 <= a < i + 1 implies {
                &&& (#[trigger] arguments@[a]).name@ == parts@[a].0@
                &&& Some(arguments@[a].data_type) == DataType::named(parts@[a].1@)
                &&& arguments@[a].index == 0
            } by {
                if a < i {
                    assert(arguments@[a] == held[a]);
                }
            }
        }
        i += 1;
    }
    Some(arguments)
}

/// A value as a script hands it over.
#[derive(Clone, Debug)]
pub enum ScriptValue {
    Nil,
    Boolean(bool),
    LightUserData,
    Integer(i64),
    /// A floating-point number, as the text that stands for it.
    Number(String),
    Text(String),
    Table,
    Function,
    Thread,
    UserData,
    /// An error, as the text that stands for it.
    Error(String),
}

/// The character of the decimal digit `d`.
pub open spec fn digit(d: int) -> char {
    if d == 0 {
        '0'
    } else if d == 1 {
        '1'
    } else if d == 2 {
        '2'
    } else if d == 3 {
        '3'
    } else if d == 4 {
        '4'
    } else if d == 5 {
        '5'
    } else if d == 6 {
        '6'
    } else if d == 7 {
        '7'
    } else if d == 8 {
        '8'
    } else {
        '9'
    }
}

/// The decimal digits of `number`, the highest first and none of them a
/// leading zero.
pub open spec fn digits(number: nat) -> Seq<char>
    decreases number,
{
    if number < 10 {
        seq![digit(number as int)]
    } else {
        digits(number / 10).push(digit((number % 10) as int))
    }
}

/// The decimal digits of `number`, behind a minus sign where it is negative.
pub open spec fn decimal(number: i64) -> Seq<char> {
    if number < 0 {
        seq!['-'] + digits((-number) as nat)
    } else {
        digits(number as nat)
    }
}

/// Trusted: `i64::to_string`, which writes an integer in decimal notation:
/// a minus sign where it is negative, then its digits without leading zeros.
#[verifier::external_body]
fn integer_text(number: i64) -> (text: String)
    ensures
        text@ == decimal(number),
{
    number.to_string()
}

/// The text that printing `value` gives.
pub open spec fn rendered(value: ScriptValue) -> Seq<char> {
    match value {
        ScriptValue::Nil => "Nil"@,
        ScriptValue::Boolean(flag) => if flag {
            "true"@
        } else {
            "false"@
        },
        ScriptValue::LightUserData => "LightUserData"@,
        ScriptValue::Integer(number) => decimal(number),
        ScriptValue::Number(text) => text@,
        ScriptValue::Text(text) => text@,
        ScriptValue::Table => "Table"@,
        ScriptValue::Function => "Function"@,
        ScriptValue::Thread => "Thread"@,
        ScriptValue::UserData => "UserData"@,
        ScriptValue::Error(text) => text@,
    }
}

/// The text that printing the first `upto` of `values` gives: one after the
/// other, with nothing between them.
pub open spec fn rendered_all(values: Seq<ScriptValue>, upto: int) -> Seq<char>
    decreases upto,
{
    if upto <= 0 {
        Seq::empty()
    } else {
        rendered_all(values, upto - 1) + rendered(values[upto - 1])
    }
}

/// The first `upto` of `lines` with a line feed between every two.
pub open spec fn joined(lines: Seq<String>, upto: int) -> Seq<char>
    decreases upto,
{
    if upto <= 0 {
        Seq::empty()
    } else if upto == 1 {
        lines[0]@
    } else {
        joined(lines, upto - 1) + "\n"@ + lines[upto - 1]@
    }
}

/// The text that printing `value` gives.
pub fn render(target: &mut String, value: &ScriptValue)
    ensures
        final(target)@ == old(target)@ + rendered(*value),
{
    match value {
        ScriptValue::Nil => target.append("Nil"),
        ScriptValue::Boolean(flag) => if *flag {
            target.append("true")
        } else {
            target.append("false")
        },
        ScriptValue::LightUserData => target.append("LightUserData"),
        ScriptValue::Integer(number) => {
            let text = integer_text(*number);
            target.append(text.as_str())
        },
        ScriptValue::Number(text) => target.append(text.as_str()),
        ScriptValue::Text(text) => target.append(text.as_str()),
        ScriptValue::Table => target.append("Table"),
        ScriptValue::Function => target.append("Function"),
        ScriptValue::Thread => target.append("Thread"),
        ScriptValue::UserData => target.append("UserData"),
        ScriptValue::Error(text) => target.append(text.as_str()),
    }
}

/// The lines that a script has printed and nobody has read yet.
#[derive(Clone, Debug)]
pub struct Cache {
    pub output_stream: Vec<String>,
}

impl Cache {
    pub fn new() -> (cache: Cache)
        ensures
            cache.output_stream@.len() == 0,
    {
        Cache { output_stream: Vec::new() }
    }

    /// What a script's `print` does: the values become one line, each
    /// written after the other with nothing between them.
    pub fn print(&mut self, values: &Vec<ScriptValue>)
        ensures
            final(self).output_stream@.len() == old(self).output_stream@.len() + 1,
            final(self).output_stream@.drop_last() == old(self).output_stream@,
            final(self).output_stream@.last()@ == rendered_all(values@, values@.len() as int),
    {
        let mut line = String::new();
        let mut i: usize = 0;
        while i < values.len()
            invariant
                i <= values@.len(),
                line@ == rendered_all(values@, i as int),
            decreases values@.len() - i,
        {
            render(&mut line, &values[i]);
            i += 1;
        }
        self.output_stream.push(line);
        assert(self.output_stream@.drop_last() == old(self).output_stream@);
    }

    /// Hands out what was printed, the lines joined by line feeds, and
    /// forgets it.
    pub fn get_output(&mut self) -> (text: String)
        ensures
            text@ == joined(old(self).output_stream@, old(self).output_stream@.len() as int),
            final(self).output_stream@.len() == 0,
    {
        let mut text = String::new();
        let mut i: usize = 0;
        while i < self.output_stream.len()
            invariant
                i <= self.output_stream@.len(),
                self.output_stream == old(self).output_stream,
                text@ == joined(self.output_stream@, i as int),
            decreases self.output_stream@.len() - i,
        {
            if i > 0 {
                text.append("\n");
            }
            text.append(self.output_stream[i].as_str());
            proof {
                if i == 0 {
                    assert(Seq::<char>::empty() + self.output_stream@[0]@ == self.output_stream@[0]@);
                }
            }
            i += 1;
        }
        self.output_stream.clear();
        text
    }
}

/// What one call of a scripted function connects: its inputs name the
/// outputs that it consumes, its outputs are the numbers that it hands out.
#[derive(Clone, Debug)]
pub struct FuncConnections {
    pub name: String,
    pub inputs: Vec<u32>,
    pub outputs: Vec<u32>,
}

/// The output numbers among `values` from position `from` on, the last
/// first; what is not an integer of 32 bits names no output and is left out.
pub open spec fn named_outputs(values: Seq<ScriptValue>, from: int) -> Seq<u32>
    decreases values.len() - from,
{
    if from < 0 || from >= values.len() {
        Seq::empty()
    } else {
        named_outputs(values, from + 1) + match values[from] {
            ScriptValue::Integer(number) => if 0 <= number <= u32::MAX {
                seq![number as u32]
            } else {
                Seq::<u32>::empty()
            },
            _ => Seq::<u32>::empty(),
        }
    }
}

/// Records one call of the function `info` while a script is traced: the
/// arguments that are output numbers become the inputs of the call, taken
/// from the last argument to the first, and the call hands out one fresh
/// number per output, counting up from `first_output`.
pub fn record_call(info: &FunctionInfo, first_output: u32, arguments: &Vec<ScriptValue>) -> (recorded:
    (FuncConnections, Vec<i64>))
    requires
        first_output + info.outputs@.len() <= u32::MAX,
    ensures
        recorded.0.name@ == info.name@,
        recorded.0.inputs@ == named_outputs(arguments@, 0),
        recorded.0.outputs@.len() == info.outputs@.len(),
        recorded.1@.len() == info.outputs@.len(),
        forall|i: int|
            0 <= i < info.outputs@.len() ==> #[trigger] recorded.0.outputs@[i] == first_output + i,
        forall|i: int| 0 <= i < info.outputs@.len() ==> #[trigger] recorded.1@[i] == first_output + i,
{
    let mut inputs: Vec<u32> = Vec::new();
    let mut left: usize = arguments.len();
    while left > 0
        invariant
            left <= arguments@.len(),
            inputs@ == named_outputs(arguments@, left as int),
        decreases left,
    {
        left -= 1;
        match &arguments[left] {
            ScriptValue::Integer(number) => {
                if 0 <= *number && *number <= u32::MAX as i64 {
                    inputs.push(*number as u32);
                }
            },
            _ => {},
        }
    }
    let mut outputs: Vec<u32> = Vec::new();
    let mut handed: Vec<i64> = Vec::new();
    let mut i: usize = 0;
    while i < info.outputs.len()
        invariant
            i <= info.outputs@.len(),
            first_output + info.outputs@.len() <= u32::MAX,
            outputs@.len() == i,
            handed@.len() == i,
            forall|a: int| 0 <= a < i ==> #[trigger] outputs@[a] == first_output + a,
            forall|a: int| 0 <= a < i ==> #[trigger] handed@[a] == first_output + a,
        decreases info.outputs@.len() - i,
    {
        let index = first_output + i as u32;
        outputs.push(index);
        handed.push(index as i64);
        i += 1;
    }
    (FuncConnections { name: info.name.clone(), inputs, outputs }, handed)
}

/// How many outputs the first `upto` of `functions` have together.
pub open spec fn outputs_before(functions: Seq<FunctionInfo>, upto: int) -> nat
    decreases upto,
{
    if upto <= 0 {
        0
    } else {
        outputs_before(functions, upto - 1) + functions[upto - 1].outputs@.len()
    }
}

/// The first output number of each of `functions`, where the functions
/// number their outputs one after the other from zero. There is no result
/// where the numbers do not fit into 32 bits.
pub fn output_offsets(functions: &Vec<FunctionInfo>) -> (offsets: Option<Vec<u32>>)
    ensures
        offsets is Some <==> outputs_before(functions@, functions@.len() as int) <= u32::MAX,
        offsets is Some ==> offsets->0@.len() == functions@.len() && forall|i: int|
            0 <= i < functions@.len() ==> #[trigger] offsets->0@[i] == outputs_before(functions@, i),
{
    let mut offsets: Vec<u32> = Vec::new();
    let mut next: u32 = 0;
    let mut i: usize = 0;
    while i < functions.len()
        invariant
            i <= functions@.len(),
            offsets@.len() == i,
            next == outputs_before(functions@, i as int),
            forall|a: int| 0 <= a < i ==> #[trigger] offsets@[a] == outputs_before(functions@, a),
        decreases functions@.len() - i,
    {
        let count = functions[i].outputs.len();
        if count > (u32::MAX - next) as usize {
            proof {
                lemma_outputs_grow(functions@, i + 1, functions@.len() as int);
            }
            return None;
        }
        offsets.push(next);
        next = next + count as u32;
        i += 1;
    }
    Some(offsets)
}

proof fn lemma_outputs_grow(functions: Seq<FunctionInfo>, upto: int, more: int)
    requires
        0 <= upto <= more,
    ensures
        outputs_before(functions, upto) <= outputs_before(functions, more),
    decreases more - upto,
{
    if upto < more {
        lemma_outputs_grow(functions, upto, more - 1);
    }
}

} // verus!
