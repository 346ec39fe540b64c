//! Little-endian primitive reads and unsigned LEB128 over a byte cursor.
use vstd::prelude::*;

verus! {

/// The two ways a decode can fail.
#[derive(PartialEq, Eq, Debug, Clone, Copy, Structural)]
pub enum DecodeError {
    /// More data is needed to decode the next frame.
    UnexpectedEof,
    /// The data can never become a valid frame.
    Malformed,
}

/// Value of `s` read as a little-endian unsigned integer.
pub open spec fn le_value(s: Seq<u8>) -> nat
    decreases s.len(),
{
    if s.len() == 0 {
        0
    } else {
        s[0] as nat + 256 * le_value(s.drop_first())
    }
}

/// `256` to the power `n`.
pub open spec fn byte_base(n: nat) -> nat
    decreases n,
{
    if n == 0 {
        1
    } else {
        256 * byte_base((n - 1) as nat)
    }
}

/// `x` read as a two's-complement number of `n` bytes.
pub open spec fn signed_value(x: nat, n: nat) -> int {
    if n > 0 && 2 * x >= byte_base(n) {
        x - byte_base(n)
    } else {
        x as int
    }
}

pub proof fn lemma_le_value_bound(s: Seq<u8>)
    ensures
        le_value(s) < byte_base(s.len()),
    decreases s.len(),
{
    if s.len() > 0 {
        lemma_le_value_bound(s.drop_first());
    }
}

pub proof fn lemma_byte_base_16()
    ensures
        byte_base(16) == 0x1_0000_0000_0000_0000_0000_0000_0000_0000,
{
    reveal_with_fuel(byte_base, 17);
}

pub proof fn lemma_byte_base_monotone(a: nat, b: nat)
    requires
        a <= b,
    ensures
        byte_base(a) <= byte_base(b),
        byte_base(a) >= 1,
    decreases b,
{
    if b > a {
        lemma_byte_base_monotone(a, (b - 1) as nat);
    } else if a > 0 {
        lemma_byte_base_monotone((a - 1) as nat, (a - 1) as nat);
    }
}

/// Index of the last byte of an unsigned LEB128 number that starts at the front
/// of `s`: the first byte without the continuation bit.
pub open spec fn leb_terminated_at(s: Seq<u8>, t: int) -> bool {
    &&& 0 <= t < s.len()
    &&& s[t] < 0x80
    &&& forall|i: int| 0 <= i < t ==> s[i] >= 0x80
}

/// Whether some byte of `s` ends a LEB128 number.
pub open spec fn leb_has_end(s: Seq<u8>) -> bool {
    exists|t: int| leb_terminated_at(s, t)
}

/// The value of the first `n` LEB128 groups of `s`.
pub open spec fn leb_value(s: Seq<u8>, n: nat) -> nat
    decreases n,
{
    if n == 0 || s.len() < n {
        0
    } else {
        leb_value(s, (n - 1) as nat) + (s[n - 1] % 128) as nat * pow2((7 * (n - 1)) as nat)
    }
}

/// A LEB128 number ending at byte `t` fits in 64 bits: it has at most nine
/// groups, or a tenth group that holds nothing but bit 63.
pub open spec fn leb_fits(s: Seq<u8>, t: int) -> bool {
    t <= 8 || (t == 9 && s[9] <= 1)
}

pub open spec fn pow2(e: nat) -> nat {
    vstd::arithmetic::power2::pow2(e)
}

/// Relies on `leb128::read::unsigned` over a byte slice: it reads groups of
/// seven bits, least significant first, up to the first byte without the
/// continuation bit; at the tenth byte anything but 0 or 1 is an overflow,
/// reported once the rest of the number has been skipped; running out of bytes
/// is an I/O error of kind `UnexpectedEof`.
#[verifier::external_body]
pub(crate) fn leb128_unsigned(bytes: &[u8]) -> (r: Result<(u64, &[u8]), DecodeError>)
    ensures
        match r {
            Ok((v, rest)) => exists|t: int|
                #![trigger leb_terminated_at(bytes@, t)]
                leb_terminated_at(bytes@, t) && leb_fits(bytes@, t) && v as nat == leb_value(
                    bytes@,
                    (t + 1) as nat,
                ) && rest@ == bytes@.subrange(t + 1, bytes@.len() as int),
            Err(DecodeError::Malformed) => exists|t: int|
                #![trigger leb_terminated_at(bytes@, t)]
                leb_terminated_at(bytes@, t) && !leb_fits(bytes@, t),
            Err(DecodeError::UnexpectedEof) => !leb_has_end(bytes@),
        },
{
    let mut rest = bytes;
    match leb128::read::unsigned(&mut rest) {
        Ok(v) => Ok((v, rest)),
        Err(leb128::read::Error::Overflow) => Err(DecodeError::Malformed),
        Err(leb128::read::Error::IoError(_)) => Err(DecodeError::UnexpectedEof),
    }
}

/// Zig-zag decoding of a signed number: `(u >> 1) ^ -(u & 1)`.
pub open spec fn zigzag_value(u: u64) -> int {
    if u % 2 == 0 {
        (u / 2) as int
    } else {
        -((u / 2) as int) - 1
    }
}

/// Decodes a zig-zag encoded signed integer.
pub fn zigzag_decode(unsigned: u64) -> (r: i64)
    ensures
        r as int == zigzag_value(unsigned),
{
    let half: u64 = unsigned / 2;
    assert(half < 0x8000_0000_0000_0000);
    if unsigned % 2 == 0 {
        half as i64
    } else {
        -(half as i64) - 1
    }
}

/// A read position in a borrowed byte slice.
pub struct Reader<'b> {
    pub bytes: &'b [u8],
    pub pos: usize,
}

impl<'b> Reader<'b> {
    pub open spec fn wf(&self) -> bool {
        self.pos <= self.bytes@.len()
    }

    /// The bytes not read yet.
    pub open spec fn rest(&self) -> Seq<u8> {
        self.bytes@.subrange(self.pos as int, self.bytes@.len() as int)
    }

    pub fn new(bytes: &'b [u8]) -> (r: Self)
        ensures
            r.wf(),
            r.bytes@ == bytes@,
            r.pos == 0,
    {
        Reader { bytes, pos: 0 }
    }

    /// Reads `n` bytes as a little-endian unsigned integer.
    pub fn read_uint(&mut self, n: usize) -> (r: Result<u128, DecodeError>)
        requires
            old(self).wf(),
            n <= 16,
        ensures
            final(self).wf(),
            final(self).bytes == old(self).bytes,
            final(self).pos >= old(self).pos,
            match r {
                Ok(v) => n <= old(self).rest().len() && final(self).pos == old(self).pos + n
                    && v as nat == le_value(old(self).rest().subrange(0, n as int)),
                Err(e) => e == DecodeError::UnexpectedEof && old(self).rest().len() < n
                    && final(self).pos == old(self).pos,
            },
    {
        if self.bytes.len() - self.pos < n {
            return Err(DecodeError::UnexpectedEof);
        }
        let ghost s = self.rest().subrange(0, n as int);
        let mut v: u128 = 0;
        let mut i: usize = n;
        proof {
            lemma_byte_base_16();
        }
        while i > 0
            invariant
                self.wf(),
                i <= n <= 16,
                n <= self.bytes@.len() - self.pos,
                self.pos + n <= self.bytes.len(),
                s == self.bytes@.subrange(self.pos as int, self.pos + n),
                v as nat == le_value(s.subrange(i as int, n as int)),
                byte_base(16) == 0x1_0000_0000_0000_0000_0000_0000_0000_0000,
            decreases i,
        {
            let b = self.bytes[self.pos + i - 1];
            proof {
                let t = s.subrange(i - 1, n as int);
                assert(t.drop_first() =~= s.subrange(i as int, n as int));
                assert(t[0] == b);
                lemma_le_value_bound(s.subrange(i as int, n as int));
                lemma_byte_base_monotone((n - i) as nat, 15);
                assert(byte_base(16) == 256 * byte_base(15));
                assert(v as nat * 256 + 256 <= byte_base(16)) by (nonlinear_arith)
                    requires
                        (v as nat) < byte_base((n - i) as nat),
                        byte_base((n - i) as nat) <= byte_base(15),
                        byte_base(16) == 256 * byte_base(15),
                ;
            }
            v = b as u128 + v * 256;
            i = i - 1;
        }
        assert(s.subrange(0, n as int) =~= s);
        self.pos = self.pos + n;
        Ok(v)
    }

    /// Reads one unsigned LEB128 number.
    pub fn read_leb128(&mut self) -> (r: Result<u64, DecodeError>)
        requires
            old(self).wf(),
        ensures
            final(self).wf(),
            final(self).bytes == old(self).bytes,
            final(self).pos >= old(self).pos,
            match r {
                Ok(v) => exists|t: int|
                    #![trigger leb_terminated_at(old(self).rest(), t)]
                    leb_terminated_at(old(self).rest(), t) && leb_fits(old(self).rest(), t)
                        && v as nat == leb_value(old(self).rest(), (t + 1) as nat)
                        && final(self).pos == old(self).pos + t + 1,
                Err(DecodeError::Malformed) => exists|t: int|
                    #![trigger leb_terminated_at(old(self).rest(), t)]
                    leb_terminated_at(old(self).rest(), t) && !leb_fits(old(self).rest(), t),
                Err(DecodeError::UnexpectedEof) => !leb_has_end(old(self).rest()),
            },
    {
        let tail = &self.bytes[self.pos..self.bytes.len()];
        assert(tail@ == self.rest());
        match leb128_unsigned(tail) {
            Ok((v, rest)) => {
                self.pos = self.bytes.len() - rest.len();
                Ok(v)
            },
            Err(e) => Err(e),
        }
    }
}

} // verus!
