use vstd::prelude::*;

use crate::parser::runtime_native_api::ParserArgs;

verus! {

/// A parse program: what a parser runs on each packet. It sees the packet
/// through `ParserArgs` and decides whether the packet is accepted.
pub trait ParseProgram {
    /// Whether the program accepts `packet`.
    spec fn accepts(&self, packet: Seq<u8>) -> bool;

    /// Runs the program on the packet in `args`: the packet is kept, and it
    /// stays accepted exactly when it was accepted and the program accepts it.
    fn parse(&self, args: &mut ParserArgs) -> (accept: bool)
        ensures
            final(args).packet() == old(args).packet(),
            final(args).accepted() == (old(args).accepted() && self.accepts(old(args).packet())),
    ;
}

/// A packet parser that runs one parse program.
pub struct Parser<P: ParseProgram> {
    program: P,
}

impl<P: ParseProgram> Parser<P> {
    /// The program this parser runs.
    pub closed spec fn program(self) -> P {
        self.program
    }

    /// A parser that runs `program`.
    pub fn new(program: P) -> (parser: Self)
        ensures
            parser.program() == program,
    {
        Parser { program }
    }

    /// Parses the first `pkt_len` bytes of `pkt`: true when the program
    /// accepts the packet, false when it drops it.
    pub fn parse(&mut self, pkt: &[u8], pkt_len: usize) -> (accept: bool)
        requires
            pkt_len <= pkt@.len(),
        ensures
            accept == old(self).program().accepts(pkt@.subrange(0, pkt_len as int)),
            final(self).program() == old(self).program(),
    {
        let mut args = ParserArgs::new(pkt, pkt_len);
        self.program.parse(&mut args);
        args.is_accept()
    }
}

} // verus!
