use vstd::prelude::*;

verus! {

/// Every way in which decoding a capture can fail. Any of them aborts the parse.
#[derive(Debug, Clone, Copy, PartialEq, Eq, Structural)]
pub enum DemoError {
    /// A read asked for more bits than remain in the cursor.
    OutOfBounds,
    /// The first eight bytes are not the capture signature.
    BadMagic,
    /// A variable-length integer ran past five bytes or failed the fifth-byte sign check.
    VarIntOverflow,
    /// A string region holds no terminator, or its bytes are not valid UTF-8.
    BadString,
    /// A length field is negative, or zero where a positive one is required.
    BadLength,
    /// A frame carries a command tag outside the known set.
    UnknownCommand(u8),
    /// A message tag is in neither message namespace.
    UnknownMessage(i32),
    /// An encoded protocol message is malformed.
    BadMessage,
    /// A message other than a schema table appeared in the schema stream.
    NotSendTable,
    /// A server class id is larger than the declared class count.
    BadClassId,
    /// A property carries flag bits outside the known set.
    BadPropFlags,
    /// A property carries a type tag outside the known set.
    BadPropType,
    /// An array property is the first of its table, so it has no element template.
    MissingArrayElement,
    /// A schema table refers to a table that does not exist.
    MissingTable,
    /// The schema tables refer to each other in a cycle.
    CyclicSchema,
    /// A string-table name is not one of the known ones.
    UnknownTable,
    /// A string-table key is not a decimal number of the expected type.
    BadKey,
    /// A model name is longer than the allowed maximum.
    ModelNameTooLong,
    /// A model-precache entry carries user data.
    UnexpectedUserData,
}

} // verus!
