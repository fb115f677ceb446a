use vstd::prelude::*;

verus! {

/// An instruction of the target machine.
pub enum Instruction<'a> {
    GrowStack { length: u32 },
    Move { addr: u32, data: &'a [u8] },
}

/// The four bytes of `x`, least significant first.
pub open spec fn le_bytes(x: u32) -> Seq<u8> {
    seq![
        (x % 256) as u8,
        ((x / 256) % 256) as u8,
        ((x / 65536) % 256) as u8,
        ((x / 16777216) % 256) as u8,
    ]
}

fn push_le_bytes(out: &mut Vec<u8>, x: u32)
    ensures
        final(out)@ == old(out)@ + le_bytes(x),
{
    out.push((x % 256) as u8);
    out.push(((x / 256) % 256) as u8);
    out.push(((x / 65536) % 256) as u8);
    out.push(((x / 16777216) % 256) as u8);
    assert(final(out)@ =~= old(out)@ + le_bytes(x));
}

impl<'a> Instruction<'a> {
    /// The encoding of the instruction: the index of its variant, then each
    /// field in order; a `u32` as its four little-endian bytes, a byte slice
    /// as its length (modulo 256) and its bytes.
    pub open spec fn encoding(&self) -> Seq<u8> {
        match self {
            Instruction::GrowStack { length } => seq![0u8] + le_bytes(*length),
            Instruction::Move { addr, data } => seq![1u8] + le_bytes(*addr) + seq![
                (data@.len() % 256) as u8,
            ] + data@,
        }
    }

    /// Encodes the instruction as bytes.
    pub fn to_bytes(&self) -> (r: Vec<u8>)
        ensures
            r@ == self.encoding(),
    {
        let mut data: Vec<u8> = Vec::new();
        match self {
            Instruction::GrowStack { length } => {
                data.push(0u8);
                push_le_bytes(&mut data, *length);
                assert(data@ =~= self.encoding());
            },
            Instruction::Move { addr, data: bytes } => {
                data.push(1u8);
                push_le_bytes(&mut data, *addr);
                data.push((bytes.len() % 256) as u8);
                let mut i: usize = 0;
                let ghost prefix = data@;
                while i < bytes.len()
                    invariant
                        i <= bytes@.len(),
                        data@ == prefix + bytes@.take(i as int),
                    decreases bytes@.len() - i,
                {
                    data.push(bytes[i]);
                    i = i + 1;
                    assert(data@ =~= prefix + bytes@.take(i as int));
                }
                assert(bytes@.take(bytes@.len() as int) =~= bytes@);
                assert(data@ =~= self.encoding());
            },
        }
        data
    }
}

/// The four bytes of `le_bytes(x)` are the digits of `x` in base 256, least
/// significant first.
pub proof fn law_le_bytes_digits(x: u32)
    ensures
        le_bytes(x).len() == 4,
        le_bytes(x)[0] + 256 * le_bytes(x)[1] + 65536 * le_bytes(x)[2] + 16777216 * le_bytes(x)[3]
            == x,
{
    let a = x as int;
    let q1 = a / 256;
    let q2 = q1 / 256;
    let q3 = q2 / 256;
    vstd::arithmetic::div_mod::lemma_fundamental_div_mod(a, 256);
    vstd::arithmetic::div_mod::lemma_fundamental_div_mod(q1, 256);
    vstd::arithmetic::div_mod::lemma_fundamental_div_mod(q2, 256);
    vstd::arithmetic::div_mod::lemma_div_denominator(a, 256, 256);
    vstd::arithmetic::div_mod::lemma_div_denominator(a, 65536, 256);
    assert(a / 65536 == q2);
    assert(a / 16777216 == q3);
    assert(0 <= q3 < 256) by (nonlinear_arith)
        requires
            0 <= a < 4294967296,
            q1 == a / 256,
            q2 == q1 / 256,
            q3 == q2 / 256,
    ;
    vstd::arithmetic::div_mod::lemma_small_mod(q3 as nat, 256);
    assert(a % 256 + 256 * (q1 % 256) + 65536 * (q2 % 256) + 16777216 * q3 == a) by (nonlinear_arith)
        requires
            a == 256 * q1 + a % 256,
            q1 == 256 * q2 + q1 % 256,
            q2 == 256 * q3 + q2 % 256,
    ;
}

/// An encoding starts with the index of the variant, then gives each field
/// in order: a `u32` as the four bytes that are its base-256 digits, least
/// significant first, and a byte slice as its length (modulo 256) and its
/// bytes. A `GrowStack` takes five bytes, a `Move` six and those of its data.
pub proof fn law_encoding_shape(i: Instruction)
    ensures
        i matches Instruction::GrowStack { length } ==> {
            let b = i.encoding();
            &&& b.len() == 5 && b[0] == 0
            &&& b[1] + 256 * b[2] + 65536 * b[3] + 16777216 * b[4] == length
        },
        i matches Instruction::Move { addr, data } ==> {
            let b = i.encoding();
            &&& b.len() == 6 + data@.len() && b[0] == 1
            &&& b[1] + 256 * b[2] + 65536 * b[3] + 16777216 * b[4] == addr
            &&& b[5] == data@.len() % 256
            &&& b.skip(6) == data@
        },
{
    match i {
        Instruction::GrowStack { length } => {
            law_le_bytes_digits(length);
            let b = i.encoding();
            assert(b[1] == le_bytes(length)[0] && b[2] == le_bytes(length)[1] && b[3] == le_bytes(
                length,
            )[2] && b[4] == le_bytes(length)[3]);
        },
        Instruction::Move { addr, data } => {
            law_le_bytes_digits(addr);
            let b = i.encoding();
            assert(b[1] == le_bytes(addr)[0] && b[2] == le_bytes(addr)[1] && b[3] == le_bytes(addr)[2]
                && b[4] == le_bytes(addr)[3]);
            assert(b.skip(6) =~= data@);
        },
    }
}

} // verus!
