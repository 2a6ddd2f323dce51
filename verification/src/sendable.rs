//! Commands that know how to write themselves: `QUIT` and `RSET`.

use vstd::prelude::*;

verus! {

/// `std::io::Error`, the error type of `send_to`, known to Verus by name
/// only: nothing is claimed of what a value holds.
#[verifier::external_type_specification]
#[verifier::external_body]
pub struct ExIoError(std::io::Error);

/// Something with a fixed wire form, that can be written out.
pub trait Sendable {
    /// The bytes it is written as.
    spec fn wire(&self) -> Seq<u8>;

    /// Appends the wire form to `writer`.
    fn send_to(&self, writer: &mut Vec<u8>) -> (r: Result<(), std::io::Error>)
        ensures
            r is Ok,
            final(writer)@ == old(writer)@ + self.wire(),
    ;
}

/// `QUIT\r\n`
pub open spec fn quit_bytes() -> Seq<u8> {
    seq![81u8, 85u8, 73u8, 84u8, 13u8, 10u8]
}

/// `RSET\r\n`
pub open spec fn rset_bytes() -> Seq<u8> {
    seq![82u8, 83u8, 69u8, 84u8, 13u8, 10u8]
}

/// The `QUIT` command.
#[derive(Debug, PartialEq)]
pub struct QuitCommand {
    _useless: (),
}

impl QuitCommand {
    pub fn new() -> (r: QuitCommand) {
        QuitCommand { _useless: () }
    }

    /// Appends `QUIT\r\n` to `w`.
    pub fn send_to(&self, w: &mut Vec<u8>) -> (r: Result<(), std::io::Error>)
        ensures
            r is Ok,
            final(w)@ == old(w)@ + quit_bytes(),
    {
        let b: [u8; 6] = [81, 85, 73, 84, 13, 10];
        w.extend_from_slice(&b);
        assert(final(w)@ =~= old(w)@ + quit_bytes());
        Ok(())
    }

    /// The command itself, owned.
    pub fn take_ownership(self) -> (r: QuitCommand)
        ensures
            r == self,
    {
        self
    }
}

impl Sendable for QuitCommand {
    open spec fn wire(&self) -> Seq<u8> {
        quit_bytes()
    }

    fn send_to(&self, writer: &mut Vec<u8>) -> (r: Result<(), std::io::Error>) {
        QuitCommand::send_to(self, writer)
    }
}

/// The `RSET` command.
#[derive(Debug, PartialEq)]
pub struct RsetCommand {
    _useless: (),
}

impl RsetCommand {
    pub fn new() -> (r: RsetCommand) {
        RsetCommand { _useless: () }
    }

    /// Appends `RSET\r\n` to `w`.
    pub fn send_to(&self, w: &mut Vec<u8>) -> (r: Result<(), std::io::Error>)
        ensures
            r is Ok,
            final(w)@ == old(w)@ + rset_bytes(),
    {
        let b: [u8; 6] = [82, 83, 69, 84, 13, 10];
        w.extend_from_slice(&b);
        assert(final(w)@ =~= old(w)@ + rset_bytes());
        Ok(())
    }

    /// The command itself, owned.
    pub fn take_ownership(self) -> (r: RsetCommand)
        ensures
            r == self,
    {
        self
    }
}

impl Sendable for RsetCommand {
    open spec fn wire(&self) -> Seq<u8> {
        rset_bytes()
    }

    fn send_to(&self, writer: &mut Vec<u8>) -> (r: Result<(), std::io::Error>) {
        RsetCommand::send_to(self, writer)
    }
}

} // verus!
