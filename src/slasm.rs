use vstd::prelude::*;

use crate::commands::Command;
use vstd::utf8::encode_utf8;

verus! {

/// The four bytes of a word, least significant first.
pub open spec fn le_bytes(w: u32) -> Seq<u8> {
    seq![
        (w % 0x100) as u8,
        ((w / 0x100) % 0x100) as u8,
        ((w / 0x10000) % 0x100) as u8,
        (w / 0x1000000) as u8,
    ]
}

/// `n` zero bytes.
pub open spec fn zeros(n: nat) -> Seq<u8> {
    Seq::new(n, |i: int| 0u8)
}

/// The append-only code buffer that becomes the `.text` section.
pub struct SlovoAsm {
    pub code: Vec<u8>,
}

impl SlovoAsm {
    /// An empty buffer.
    pub fn new() -> (r: Self)
        ensures
            r.code@ == Seq::<u8>::empty(),
    {
        SlovoAsm { code: Vec::new() }
    }

    /// The number of bytes written so far.
    pub fn curr_offset(&self) -> (r: usize)
        ensures
            r == self.code@.len(),
    {
        self.code.len()
    }

    /// Appends the instruction's word in little-endian order.
    pub fn write(&mut self, cmd: Command)
        requires
            cmd.wf(),
        ensures
            final(self).code@ == old(self).code@ + le_bytes(cmd.spec_encode()),
    {
        let w = cmd.encode();
        self.code.push((w % 0x100) as u8);
        self.code.push(((w / 0x100) % 0x100) as u8);
        self.code.push(((w / 0x10000) % 0x100) as u8);
        self.code.push((w / 0x1000000) as u8);
        assert(final(self).code@ =~= old(self).code@ + le_bytes(cmd.spec_encode()));
    }

    /// Appends the UTF-8 bytes of `text` and returns the offset where they begin.
    pub fn ascii(&mut self, text: &str) -> (r: usize)
        ensures
            r == old(self).code@.len(),
            final(self).code@ == old(self).code@ + encode_utf8(text@),
    {
        let start = self.curr_offset();
        let bytes = text.as_bytes();
        self.append_raw(bytes);
        start
    }

    /// Appends `bytes` as they are, with no alignment.
    pub fn append_raw(&mut self, bytes: &[u8])
        ensures
            final(self).code@ == old(self).code@ + bytes@,
    {
        let mut i: usize = 0;
        while i < bytes.len()
            invariant
                i <= bytes@.len(),
                self.code@ == old(self).code@ + bytes@.subrange(0, i as int),
            decreases bytes@.len() - i,
        {
            self.code.push(bytes[i]);
            i = i + 1;
            assert(self.code@ =~= old(self).code@ + bytes@.subrange(0, i as int));
        }
        assert(bytes@.subrange(0, i as int) =~= bytes@);
    }

    /// Appends `n` zero bytes.
    pub fn append_zeros(&mut self, n: usize)
        ensures
            final(self).code@ == old(self).code@ + zeros(n as nat),
    {
        let mut i: usize = 0;
        while i < n
            invariant
                i <= n,
                self.code@ == old(self).code@ + zeros(i as nat),
            decreases n - i,
        {
            self.code.push(0);
            i = i + 1;
            assert(self.code@ =~= old(self).code@ + zeros(i as nat));
        }
    }
}

} // verus!
