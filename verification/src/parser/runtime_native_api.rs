use vstd::prelude::*;

verus! {

/// The arguments a parse program works on: the packet, its length, and the
/// verdict so far (accept until the program drops the packet).
pub struct ParserArgs<'a> {
    pkt: &'a [u8],
    pkt_len: usize,
    is_accept: bool,
}

impl<'a> ParserArgs<'a> {
    #[verifier::type_invariant]
    spec fn inv(self) -> bool {
        self.pkt_len <= self.pkt@.len()
    }

    /// The packet bytes a parse program may read.
    pub closed spec fn packet(self) -> Seq<u8> {
        self.pkt@.subrange(0, self.pkt_len as int)
    }

    /// Whether the packet is still accepted.
    pub closed spec fn accepted(self) -> bool {
        self.is_accept
    }

    /// Arguments for the first `pkt_len` bytes of `pkt`, accepted so far.
    pub fn new(pkt: &'a [u8], pkt_len: usize) -> (args: Self)
        requires
            pkt_len <= pkt@.len(),
        ensures
            args.packet() == pkt@.subrange(0, pkt_len as int),
            args.accepted(),
    {
        ParserArgs { pkt, pkt_len, is_accept: true }
    }

    /// The verdict so far.
    pub fn is_accept(&self) -> (r: bool)
        ensures
            r == self.accepted(),
    {
        self.is_accept
    }
}

/// Length of the packet, as the 32-bit value a parse program receives.
pub fn s5_sys_pkt_get_len(args: &ParserArgs) -> (len: i32)
    ensures
        len == args.packet().len() as i32,
{
    proof {
        use_type_invariant(args);
    }
    args.pkt_len as i32
}

/// The packet byte at `offset`.
pub fn s5_sys_pkt_read(args: &ParserArgs, offset: i32) -> (byte: i32)
    requires
        0 <= offset < args.packet().len(),
    ensures
        byte == args.packet()[offset as int] as i32,
{
    proof {
        use_type_invariant(args);
    }
    args.pkt[offset as usize] as i32
}

/// Marks the packet as dropped.
pub fn s5_sys_pkt_drop(args: &mut ParserArgs)
    ensures
        final(args).packet() == old(args).packet(),
        !final(args).accepted(),
{
    proof {
        use_type_invariant(&*args);
    }
    args.is_accept = false;
}

} // verus!
