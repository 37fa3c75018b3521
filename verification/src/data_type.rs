use vstd::prelude::*;

verus! {

/// Whether `text` reads as `word` does.
pub(crate) fn reads_as(text: &String, word: &str) -> (same: bool)
    ensures
        same == (text@ == word@),
{
    *text == word.to_owned()
}

/// The nominal type of a port or of a value.
#[derive(Clone, Copy, PartialEq, Eq, Debug, Hash, Structural)]
pub enum DataType {
    /// The type of an absent value.
    Null,
    Bool,
    Int,
    Float,
    Text,
}

impl Default for DataType {
    fn default() -> (data_type: DataType)
        ensures
            data_type == DataType::Null,
    {
        DataType::Null
    }
}

impl DataType {
    /// Whether a value of type `src` may flow into a port of type `dst`.
    /// Types are nominal: a port takes its own type and no other, so `Null`
    /// goes with nothing but itself.
    pub open spec fn assignable(dst: DataType, src: DataType) -> bool {
        dst == src
    }

    pub fn can_assign(dst: &DataType, src: &DataType) -> (ok: bool)
        ensures
            ok == Self::assignable(*dst, *src),
    {
        *dst == *src
    }

    /// The type that a script names by `name`.
    pub open spec fn named(name: Seq<char>) -> Option<DataType> {
        if name == "none"@ {
            Some(DataType::Null)
        } else if name == "bool"@ {
            Some(DataType::Bool)
        } else if name == "int"@ {
            Some(DataType::Int)
        } else if name == "float"@ {
            Some(DataType::Float)
        } else if name == "string"@ {
            Some(DataType::Text)
        } else {
            None
        }
    }

    /// Reads the name of a type as scripts write it.
    pub fn from_name(name: &str) -> (data_type: Option<DataType>)
        ensures
            data_type == Self::named(name@),
    {
        let given = name.to_owned();
        if reads_as(&given, "none") {
            Some(DataType::Null)
        } else if reads_as(&given, "bool") {
            Some(DataType::Bool)
        } else if reads_as(&given, "int") {
            Some(DataType::Int)
        } else if reads_as(&given, "float") {
            Some(DataType::Float)
        } else if reads_as(&given, "string") {
            Some(DataType::Text)
        } else {
            None
        }
    }
}

} // verus!
