//! Command names that identify a message on the wire.

use vstd::prelude::*;

verus! {

/// The protocol commands that this node speaks.
#[derive(Debug, Clone, Copy, PartialEq, Eq, Structural)]
pub enum CommandName {
    Version,
    Inventory,
    SendCmpct,
    Block,
    Transaction,
}

/// The ASCII text of a command.
pub open spec fn command_text(c: CommandName) -> Seq<u8> {
    match c {
        CommandName::Version => seq![118u8, 101, 114, 115, 105, 111, 110],
        CommandName::Inventory => seq![105u8, 110, 118],
        CommandName::SendCmpct => seq![115u8, 101, 110, 100, 99, 109, 112, 99, 116],
        CommandName::Block => seq![98u8, 108, 111, 99, 107],
        CommandName::Transaction => seq![116u8, 120],
    }
}

/// The 12-byte command field: the ASCII text, padded with zero bytes.
pub open spec fn command_field(c: CommandName) -> Seq<u8> {
    command_text(c) + Seq::new((12 - command_text(c).len()) as nat, |i: int| 0u8)
}

impl CommandName {
    pub fn to_bytes(&self) -> (r: [u8; 12])
        ensures
            r@ == command_field(*self),
    {
        let r: [u8; 12] = match self {
            CommandName::Version => [118, 101, 114, 115, 105, 111, 110, 0, 0, 0, 0, 0],
            CommandName::Inventory => [105, 110, 118, 0, 0, 0, 0, 0, 0, 0, 0, 0],
            CommandName::SendCmpct => [115, 101, 110, 100, 99, 109, 112, 99, 116, 0, 0, 0],
            CommandName::Block => [98, 108, 111, 99, 107, 0, 0, 0, 0, 0, 0, 0],
            CommandName::Transaction => [116, 120, 0, 0, 0, 0, 0, 0, 0, 0, 0, 0],
        };
        assert(r@ =~= command_field(*self));
        r
    }
}

/// A protocol message: it names the command that carries it.
pub trait Message {
    spec fn command_name() -> CommandName;

    fn get_command_name() -> (r: CommandName)
        ensures
            r == Self::command_name(),
    ;
}

} // verus!
