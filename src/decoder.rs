//! The frame decoder: interprets the byte stream that a format string
//! describes.
use crate::bitfield::{prepare_params, prepared};
use crate::fragment::{fragments_of, params_of, parse, ArgType, Fragment, Param};
use crate::stream::{
    le_value, leb_fits, leb_has_end, leb_terminated_at, leb_value, signed_value, zigzag_decode,
    zigzag_value, DecodeError, Reader,
};
use crate::table::Table;
use crate::wire::{
    arg_model, args_of, elements_of, format_spec, get_format_spec, get_variant_spec, lemma_args_push,
    element_args_spec, element_spec, lemma_elements_err, lemma_elements_push, lemma_params_err, list_of, param_spec, params_spec,
    elements_spec, slice_spec, unpack_spec, variant_text, with_list_spec, DState,
};
use vstd::prelude::*;
use vstd::string::StrSliceExecFns;

verus! {

/// The most bools that share one byte of the stream.
pub const MAX_NUM_BOOL_FLAGS: usize = 8;

/// The nesting depth that a top-level decode starts with: each nested
/// structured value takes one level, and a decode that runs out is malformed.
/// No input runs out: every level below the first reads a byte of the stream
/// or takes an entry of a format-string list recorded from earlier bytes, so
/// nesting stays below twice the input's length. The count only lets the
/// recursion be shown to end.
pub const MAX_NESTING: usize = usize::MAX;

/// A decoded argument.
#[derive(Debug, PartialEq)]
pub enum Arg<'t> {
    /// A bool, by its slot in the frame's bool table: its value arrives in a
    /// later byte of the stream.
    Bool(usize),
    /// The bit pattern of an `f32`.
    F32(u32),
    /// The bit pattern of an `f64`.
    F64(u64),
    /// Any unsigned integer, widened.
    Uxx(u128),
    /// Any signed integer, widened.
    Ixx(i128),
    /// A string sent along in the stream.
    Str(String),
    /// An interned string, from the table.
    IStr(&'t str),
    /// A nested structured value.
    Format { format: &'t str, args: Vec<Arg<'t>> },
    /// A sequence of structured values.
    FormatSlice { elements: Vec<FormatSliceElement<'t>> },
    /// Raw bytes.
    Slice(Vec<u8>),
    Char(char),
    /// Text that the device formatted itself.
    Preformatted(String),
}

/// One element of a sequence of structured values.
#[derive(Debug, PartialEq)]
pub struct FormatSliceElement<'t> {
    /// Usually the same for all elements; for an enum, the element's variant.
    pub format: &'t str,
    pub args: Vec<Arg<'t>>,
}

/// What a scalar argument holds, as plain values.
pub enum Scalar {
    Uxx(u128),
    Ixx(i128),
    F32(u32),
    F64(u64),
    Str(Seq<char>),
    IStr(Seq<char>),
    Slice(Seq<u8>),
    /// A Unicode scalar value.
    Char(u32),
    Preformatted(Seq<char>),
}

pub open spec fn scalar_of(a: Arg) -> Option<Scalar> {
    match a {
        Arg::Uxx(v) => Some(Scalar::Uxx(v)),
        Arg::Ixx(v) => Some(Scalar::Ixx(v)),
        Arg::F32(v) => Some(Scalar::F32(v)),
        Arg::F64(v) => Some(Scalar::F64(v)),
        Arg::Str(s) => Some(Scalar::Str(s@)),
        Arg::IStr(s) => Some(Scalar::IStr(s@)),
        Arg::Slice(b) => Some(Scalar::Slice(b@)),
        Arg::Char(c) => Some(Scalar::Char(c as u32)),
        Arg::Preformatted(s) => Some(Scalar::Preformatted(s@)),
        _ => None,
    }
}

/// The text that the bytes `b` encode in UTF-8, where they are valid UTF-8.
pub uninterp spec fn utf8_text(b: Seq<u8>) -> Option<Seq<char>>;

/// Relies on `String::from_utf8`: it accepts exactly the valid UTF-8 byte
/// sequences, and the text depends on the bytes alone.
#[verifier::external_body]
fn string_from_utf8(b: Vec<u8>) -> (r: Option<String>)
    ensures
        match r {
            Some(s) => utf8_text(b@) == Some(s@),
            None => utf8_text(b@).is_none(),
        },
{
    String::from_utf8(b).ok()
}

/// Whether `v` is a Unicode scalar value.
pub open spec fn is_scalar_value(v: u32) -> bool {
    v < 0xD800 || (0xE000 <= v && v <= 0x10FFFF)
}

/// Relies on `char::from_u32`: `Some` exactly for Unicode scalar values, with
/// that value.
#[verifier::external_body]
fn char_from_u32(v: u32) -> (r: Option<char>)
    ensures
        match r {
            Some(c) => is_scalar_value(v) && c as u32 == v,
            None => !is_scalar_value(v),
        },
{
    char::from_u32(v)
}

/// Number of bytes that a fixed-width integer type takes in the stream.
pub open spec fn int_width(ty: ArgType) -> nat {
    match ty {
        ArgType::U8 | ArgType::I8 => 1,
        ArgType::U16 | ArgType::I16 => 2,
        ArgType::U24 => 3,
        ArgType::U32 | ArgType::I32 | ArgType::F32 | ArgType::Char => 4,
        ArgType::U64 | ArgType::I64 | ArgType::F64 => 8,
        ArgType::U128 | ArgType::I128 => 16,
        _ => 0,
    }
}

/// Whether a bitfield's bit range can be read: non-empty and within 128 bits.
pub open spec fn bitfield_ok(start: u8, end: u8) -> bool {
    start < end && end <= 128
}

/// Bytes read for a bitfield: those from the one holding bit `start` to the one
/// holding bit `end - 1`; a span of 5 to 8 bytes reads 8, one of 9 to 16 reads
/// 16.
pub open spec fn bitfield_width(start: u8, end: u8) -> nat {
    let size = (end - 1) / 8 - start / 8 + 1;
    if size <= 4 {
        size as nat
    } else if size <= 8 {
        8
    } else {
        16
    }
}

/// The end index of the LEB128 number at the front of `s`, where it has one.
pub open spec fn leb_end(s: Seq<u8>) -> int {
    choose|t: int| leb_terminated_at(s, t)
}

/// Reading one LEB128 number from the front of `s`: its value and length.
pub open spec fn leb_read(s: Seq<u8>) -> Result<(u64, nat), DecodeError> {
    if !leb_has_end(s) {
        Err(DecodeError::UnexpectedEof)
    } else if !leb_fits(s, leb_end(s)) {
        Err(DecodeError::Malformed)
    } else {
        Ok((leb_value(s, (leb_end(s) + 1) as nat) as u64, (leb_end(s) + 1) as nat))
    }
}

/// Reading `n` bytes from the front of `s`.
pub open spec fn bytes_read(s: Seq<u8>, n: nat) -> Result<Seq<u8>, DecodeError> {
    if s.len() < n {
        Err(DecodeError::UnexpectedEof)
    } else {
        Ok(s.subrange(0, n as int))
    }
}

/// Whether `s` holds the byte `0xFF`.
pub open spec fn has_terminator(s: Seq<u8>) -> bool {
    exists|i: int| 0 <= i < s.len() && s[i] == 0xFF
}

/// Position of the first `0xFF` of `s`.
pub open spec fn terminator(s: Seq<u8>) -> int {
    choose|i: int| 0 <= i < s.len() && s[i] == 0xFF && forall|j: int| 0 <= j < i ==> s[j] != 0xFF
}

/// Decoding one scalar argument of type `ty` from the front of `s`: the value
/// and the number of bytes it takes, or the error.
pub open spec fn scalar_spec(table: Table, s: Seq<u8>, ty: ArgType) -> Result<
    (Scalar, nat),
    DecodeError,
> {
    match ty {
        ArgType::U8 | ArgType::U16 | ArgType::U24 | ArgType::U32 | ArgType::U64 | ArgType::U128 => {
            match bytes_read(s, int_width(ty)) {
                Ok(b) => Ok((Scalar::Uxx(le_value(b) as u128), int_width(ty))),
                Err(e) => Err(e),
            }
        },
        ArgType::I8 | ArgType::I16 | ArgType::I32 | ArgType::I64 | ArgType::I128 => {
            match bytes_read(s, int_width(ty)) {
                Ok(b) => Ok(
                    (Scalar::Ixx(signed_value(le_value(b), int_width(ty)) as i128), int_width(ty)),
                ),
                Err(e) => Err(e),
            }
        },
        ArgType::F32 => match bytes_read(s, 4) {
            Ok(b) => Ok((Scalar::F32(le_value(b) as u32), 4)),
            Err(e) => Err(e),
        },
        ArgType::F64 => match bytes_read(s, 8) {
            Ok(b) => Ok((Scalar::F64(le_value(b) as u64), 8)),
            Err(e) => Err(e),
        },
        ArgType::Char => match bytes_read(s, 4) {
            Ok(b) => if is_scalar_value(le_value(b) as u32) {
                Ok((Scalar::Char(le_value(b) as u32), 4))
            } else {
                Err(DecodeError::Malformed)
            },
            Err(e) => Err(e),
        },
        ArgType::Usize => match leb_read(s) {
            Ok((v, n)) => Ok((Scalar::Uxx(v as u128), n)),
            Err(e) => Err(e),
        },
        ArgType::Isize => match leb_read(s) {
            Ok((v, n)) => Ok((Scalar::Ixx(zigzag_value(v) as i128), n)),
            Err(e) => Err(e),
        },
        ArgType::BitField { start, end } => if !bitfield_ok(start, end) {
            Err(DecodeError::Malformed)
        } else {
            let w = bitfield_width(start, end);
            match bytes_read(s, w) {
                Ok(b) => Ok((Scalar::Uxx((le_value(b) as u128) << ((start / 8) * 8) as u128), w)),
                Err(e) => Err(e),
            }
        },
        ArgType::Str => match leb_read(s) {
            Ok((len, n)) => match bytes_read(s.subrange(n as int, s.len() as int), len as usize as nat) {
                Ok(b) => match utf8_text(b) {
                    Some(t) => Ok((Scalar::Str(t), n + b.len())),
                    None => Err(DecodeError::Malformed),
                },
                Err(e) => Err(e),
            },
            Err(e) => Err(e),
        },
        ArgType::IStr => match leb_read(s) {
            Ok((i, n)) => match table.without_level(i as usize) {
                Some(t) => Ok((Scalar::IStr(t), n)),
                None => Err(DecodeError::Malformed),
            },
            Err(e) => Err(e),
        },
        ArgType::U8Slice => match leb_read(s) {
            Ok((len, n)) => match bytes_read(s.subrange(n as int, s.len() as int), len as usize as nat) {
                Ok(b) => Ok((Scalar::Slice(b), n + b.len())),
                Err(e) => Err(e),
            },
            Err(e) => Err(e),
        },
        ArgType::U8Array(len) => match bytes_read(s, len as nat) {
            Ok(b) => Ok((Scalar::Slice(b), len as nat)),
            Err(e) => Err(e),
        },
        ArgType::Debug | ArgType::Display => if !has_terminator(s) {
            Err(DecodeError::UnexpectedEof)
        } else {
            match utf8_text(s.subrange(0, terminator(s))) {
                Some(t) => Ok((Scalar::Preformatted(t), (terminator(s) + 1) as nat)),
                None => Err(DecodeError::Malformed),
            }
        },
        _ => Err(DecodeError::Malformed),
    }
}

/// Whether `ty` is decoded by `scalar_spec`, with no bools and no nesting.
pub open spec fn is_scalar_type(ty: ArgType) -> bool {
    !(ty is Bool || ty is Format || ty is FormatSlice || ty is FormatArray)
}

pub proof fn lemma_leb_end_unique(s: Seq<u8>, t: int)
    requires
        leb_terminated_at(s, t),
    ensures
        leb_has_end(s),
        leb_end(s) == t,
{
    let u = leb_end(s);
    assert(leb_terminated_at(s, u));
    if u < t {
        assert(s[u] >= 0x80);
    } else if t < u {
        assert(s[t] >= 0x80);
    }
}

/// Reads one LEB128 number.
fn read_leb(reader: &mut Reader) -> (r: Result<u64, DecodeError>)
    requires
        old(reader).wf(),
    ensures
        final(reader).wf(),
        final(reader).bytes == old(reader).bytes,
        final(reader).pos >= old(reader).pos,
        match leb_read(old(reader).rest()) {
            Ok((v, n)) => r == Ok::<u64, DecodeError>(v) && final(reader).pos == old(reader).pos + n,
            Err(e) => r == Err::<u64, DecodeError>(e),
        },
{
    let r = reader.read_leb128();
    proof {
        let s = old(reader).rest();
        match r {
            Ok(v) => {
                let t = choose|t: int| #![trigger leb_terminated_at(s, t)]
                    leb_terminated_at(s, t) && leb_fits(s, t) && v as nat == leb_value(s, (t + 1) as nat)
                        && reader.pos == old(reader).pos + t + 1;
                lemma_leb_end_unique(s, t);
            },
            Err(DecodeError::Malformed) => {
                let t = choose|t: int| #![trigger leb_terminated_at(s, t)]
                    leb_terminated_at(s, t) && !leb_fits(s, t);
                lemma_leb_end_unique(s, t);
            },
            Err(DecodeError::UnexpectedEof) => {},
        }
    }
    r
}

/// Reads `n` bytes.
fn read_bytes(reader: &mut Reader, n: usize) -> (r: Result<Vec<u8>, DecodeError>)
    requires
        old(reader).wf(),
    ensures
        final(reader).wf(),
        final(reader).bytes == old(reader).bytes,
        final(reader).pos >= old(reader).pos,
        match bytes_read(old(reader).rest(), n as nat) {
            Ok(b) => r matches Ok(v) && v@ == b && final(reader).pos == old(reader).pos + n,
            Err(e) => r == Err::<Vec<u8>, DecodeError>(e),
        },
{
    if reader.bytes.len() - reader.pos < n {
        return Err(DecodeError::UnexpectedEof);
    }
    let mut out: Vec<u8> = Vec::new();
    let mut i: usize = 0;
    while i < n
        invariant
            reader.wf(),
            reader.pos + n <= reader.bytes.len(),
            i <= n,
            out@ == reader.bytes@.subrange(reader.pos as int, reader.pos + i),
        decreases n - i,
    {
        out.push(reader.bytes[reader.pos + i]);
        assert(out@ =~= reader.bytes@.subrange(reader.pos as int, reader.pos + i + 1));
        i = i + 1;
    }
    assert(out@ =~= old(reader).rest().subrange(0, n as int));
    reader.pos = reader.pos + n;
    Ok(out)
}

/// Reads a fixed-width little-endian unsigned integer of `n` bytes.
fn read_fixed(reader: &mut Reader, n: usize) -> (r: Result<u128, DecodeError>)
    requires
        old(reader).wf(),
        n <= 16,
    ensures
        final(reader).wf(),
        final(reader).bytes == old(reader).bytes,
        final(reader).pos >= old(reader).pos,
        match bytes_read(old(reader).rest(), n as nat) {
            Ok(b) => r matches Ok(v) && v as nat == le_value(b) && final(reader).pos == old(reader).pos
                + n,
            Err(e) => r == Err::<u128, DecodeError>(e),
        },
{
    reader.read_uint(n)
}

/// `x` read as a two's-complement number of `n` bytes.
fn to_signed(x: u128, n: usize) -> (r: i128)
    requires
        1 <= n <= 16,
        (x as nat) < crate::stream::byte_base(n as nat),
    ensures
        r as int == signed_value(x as nat, n as nat),
{
    proof {
        crate::stream::lemma_byte_base_16();
    }
    if n == 16 {
        if x >= 0x8000_0000_0000_0000_0000_0000_0000_0000 {
            let d: u128 = 0xFFFF_FFFF_FFFF_FFFF_FFFF_FFFF_FFFF_FFFF - x;
            -(d as i128) - 1
        } else {
            x as i128
        }
    } else {
        let mut base: u128 = 1;
        let mut i: usize = 0;
        while i < n
            invariant
                i <= n <= 15,
                base as nat == crate::stream::byte_base(i as nat),
            decreases n - i,
        {
            proof {
                crate::stream::lemma_byte_base_monotone((i + 1) as nat, 15);
                reveal_with_fuel(crate::stream::byte_base, 16);
            }
            base = base * 256;
            i = i + 1;
        }
        proof {
            crate::stream::lemma_byte_base_monotone(n as nat, 15);
            reveal_with_fuel(crate::stream::byte_base, 16);
        }
        if x >= base - x {
            (x as i128) - (base as i128)
        } else {
            x as i128
        }
    }
}

fn int_width_of(ty: ArgType) -> (r: usize)
    ensures
        r as nat == int_width(ty),
{
    match ty {
        ArgType::U8 | ArgType::I8 => 1,
        ArgType::U16 | ArgType::I16 => 2,
        ArgType::U24 => 3,
        ArgType::U32 | ArgType::I32 | ArgType::F32 | ArgType::Char => 4,
        ArgType::U64 | ArgType::I64 | ArgType::F64 => 8,
        ArgType::U128 | ArgType::I128 => 16,
        _ => 0,
    }
}

/// Reads UTF-8 text up to the first `0xFF`, and the `0xFF` itself.
fn read_terminated(reader: &mut Reader) -> (r: Result<String, DecodeError>)
    requires
        old(reader).wf(),
    ensures
        final(reader).wf(),
        final(reader).bytes == old(reader).bytes,
        final(reader).pos >= old(reader).pos,
        ({
            let s = old(reader).rest();
            if !has_terminator(s) {
                r == Err::<String, DecodeError>(DecodeError::UnexpectedEof)
            } else {
                match utf8_text(s.subrange(0, terminator(s))) {
                    Some(t) => r matches Ok(x) && x@ == t && final(reader).pos == old(reader).pos
                        + terminator(s) + 1,
                    None => r == Err::<String, DecodeError>(DecodeError::Malformed),
                }
            }
        }),
{
    let ghost s = reader.rest();
    let mut i: usize = reader.pos;
    while i < reader.bytes.len() && reader.bytes[i] != 0xFF
        invariant
            reader.wf(),
            reader.pos <= i <= reader.bytes@.len(),
            s == reader.rest(),
            forall|j: int| reader.pos <= j < i ==> reader.bytes@[j] != 0xFF,
        decreases reader.bytes@.len() - i,
    {
        i = i + 1;
    }
    if i == reader.bytes.len() {
        proof {
            if has_terminator(s) {
                let j = choose|j: int| 0 <= j < s.len() && s[j] == 0xFF;
                assert(reader.bytes@[reader.pos + j] == 0xFF);
            }
        }
        return Err(DecodeError::UnexpectedEof);
    }
    let ghost k = i - reader.pos;
    proof {
        assert(s[k] == 0xFF);
        assert(has_terminator(s));
        let t = terminator(s);
        assert(0 <= t < s.len() && s[t] == 0xFF && forall|j: int| 0 <= j < t ==> s[j] != 0xFF);
        if t < k {
            assert(reader.bytes@[reader.pos + t] == s[t]);
        }
        if k < t {
            assert(s[k] != 0xFF);
        }
        assert(t == k);
    }
    let n = i - reader.pos;
    let text = match read_bytes(reader, n) {
        Ok(b) => b,
        Err(e) => return Err(e),
    };
    reader.pos = reader.pos + 1;
    match string_from_utf8(text) {
        Some(t) => Ok(t),
        None => Err(DecodeError::Malformed),
    }
}

/// Whether `r` is what decoding a scalar of type `ty` from the front of `s`
/// gives, `consumed` bytes having been read on success.
#[verifier::opaque]
pub open spec fn scalar_outcome<'t>(
    table: Table,
    s: Seq<u8>,
    ty: ArgType,
    r: Result<Arg<'t>, DecodeError>,
    consumed: int,
) -> bool {
    match r {
        Ok(a) => consumed >= 0 && scalar_of(a) is Some && scalar_spec(table, s, ty) == Ok::<
            (Scalar, nat),
            DecodeError,
        >((scalar_of(a)->0, consumed as nat)),
        Err(e) => scalar_spec(table, s, ty) == Err::<(Scalar, nat), DecodeError>(e),
    }
}

fn decode_fixed<'t>(reader: &mut Reader, ty: ArgType, Ghost(table): Ghost<Table>) -> (r: Result<
    Arg<'t>,
    DecodeError,
>)
    requires
        old(reader).wf(),
        ty is U8 || ty is U16 || ty is U24 || ty is U32 || ty is U64 || ty is U128 || ty is I8
            || ty is I16 || ty is I32 || ty is I64 || ty is I128 || ty is F32 || ty is F64
            || ty is Char,
    ensures
        final(reader).wf(),
        final(reader).bytes == old(reader).bytes,
        final(reader).pos >= old(reader).pos,
        scalar_outcome(table, old(reader).rest(), ty, r, final(reader).pos - old(reader).pos),
{
    reveal(scalar_outcome);
    let ghost s = reader.rest();
    proof {
        crate::stream::lemma_byte_base_16();
        reveal_with_fuel(crate::stream::byte_base, 9);
    }
    let w = int_width_of(ty);
    let v = match read_fixed(reader, w) {
        Ok(v) => v,
        Err(e) => return Err(e),
    };
    proof {
        crate::stream::lemma_le_value_bound(s.subrange(0, w as int));
    }
    match ty {
        ArgType::I8 | ArgType::I16 | ArgType::I32 | ArgType::I64 | ArgType::I128 => {
            let x = to_signed(v, w);
            assert(signed_value(le_value(s.subrange(0, w as int)), w as nat) as i128 == x);
            Ok(Arg::Ixx(x))
        },
        ArgType::F32 => Ok(Arg::F32(v as u32)),
        ArgType::F64 => Ok(Arg::F64(v as u64)),
        ArgType::Char => match char_from_u32(v as u32) {
            Some(c) => Ok(Arg::Char(c)),
            None => Err(DecodeError::Malformed),
        },
        _ => Ok(Arg::Uxx(v)),
    }
}

fn decode_bitfield<'t>(reader: &mut Reader, start: u8, end: u8, Ghost(table): Ghost<Table>) -> (r:
    Result<Arg<'t>, DecodeError>)
    requires
        old(reader).wf(),
    ensures
        final(reader).wf(),
        final(reader).bytes == old(reader).bytes,
        final(reader).pos >= old(reader).pos,
        scalar_outcome(
            table,
            old(reader).rest(),
            ArgType::BitField { start, end },
            r,
            final(reader).pos - old(reader).pos,
        ),
{
    reveal(scalar_outcome);
    if !(start < end && end <= 128) {
        return Err(DecodeError::Malformed);
    }
    let lowest: u8 = start / 8;
    let highest: u8 = (end - 1) / 8;
    let size: u8 = highest - lowest + 1;
    let w: usize = if size <= 4 {
        size as usize
    } else if size <= 8 {
        8
    } else {
        16
    };
    match read_fixed(reader, w) {
        Ok(v) => Ok(Arg::Uxx(v << ((lowest as u128) * 8))),
        Err(e) => Err(e),
    }
}

fn decode_leb_int<'t>(reader: &mut Reader, signed: bool, Ghost(table): Ghost<Table>) -> (r: Result<
    Arg<'t>,
    DecodeError,
>)
    requires
        old(reader).wf(),
    ensures
        final(reader).wf(),
        final(reader).bytes == old(reader).bytes,
        final(reader).pos >= old(reader).pos,
        scalar_outcome(
            table,
            old(reader).rest(),
            if signed {
                ArgType::Isize
            } else {
                ArgType::Usize
            },
            r,
            final(reader).pos - old(reader).pos,
        ),
{
    reveal(scalar_outcome);
    match read_leb(reader) {
        Ok(v) => if signed {
            Ok(Arg::Ixx(zigzag_decode(v) as i128))
        } else {
            Ok(Arg::Uxx(v as u128))
        },
        Err(e) => Err(e),
    }
}

fn decode_sized<'t>(reader: &mut Reader, text: bool, Ghost(table): Ghost<Table>) -> (r: Result<
    Arg<'t>,
    DecodeError,
>)
    requires
        old(reader).wf(),
    ensures
        final(reader).wf(),
        final(reader).bytes == old(reader).bytes,
        final(reader).pos >= old(reader).pos,
        scalar_outcome(
            table,
            old(reader).rest(),
            if text {
                ArgType::Str
            } else {
                ArgType::U8Slice
            },
            r,
            final(reader).pos - old(reader).pos,
        ),
{
    reveal(scalar_outcome);
    let ghost s = reader.rest();
    let len = match read_leb(reader) {
        Ok(v) => v,
        Err(e) => return Err(e),
    };
    let ghost mid = reader.pos;
    assert(reader.rest() =~= s.subrange(mid - old(reader).pos, s.len() as int));
    let b = match read_bytes(reader, len as usize) {
        Ok(b) => b,
        Err(e) => return Err(e),
    };
    if text {
        match string_from_utf8(b) {
            Some(t) => Ok(Arg::Str(t)),
            None => Err(DecodeError::Malformed),
        }
    } else {
        Ok(Arg::Slice(b))
    }
}

fn decode_istr<'t>(table: &'t Table, reader: &mut Reader) -> (r: Result<Arg<'t>, DecodeError>)
    requires
        old(reader).wf(),
    ensures
        final(reader).wf(),
        final(reader).bytes == old(reader).bytes,
        final(reader).pos >= old(reader).pos,
        scalar_outcome(*table, old(reader).rest(), ArgType::IStr, r, final(reader).pos - old(reader).pos),
{
    reveal(scalar_outcome);
    let i = match read_leb(reader) {
        Ok(v) => v,
        Err(e) => return Err(e),
    };
    match table.get_without_level(i as usize) {
        Some(t) => Ok(Arg::IStr(t)),
        None => Err(DecodeError::Malformed),
    }
}

/// Decodes one argument of a type without bools or nesting.
pub fn decode_scalar<'t>(table: &'t Table, reader: &mut Reader, ty: ArgType) -> (r: Result<
    Arg<'t>,
    DecodeError,
>)
    requires
        old(reader).wf(),
        is_scalar_type(ty),
    ensures
        final(reader).wf(),
        final(reader).bytes == old(reader).bytes,
        final(reader).pos >= old(reader).pos,
        scalar_outcome(*table, old(reader).rest(), ty, r, final(reader).pos - old(reader).pos),
{
    match ty {
        ArgType::BitField { start, end } => decode_bitfield(reader, start, end, Ghost(*table)),
        ArgType::Usize => decode_leb_int(reader, false, Ghost(*table)),
        ArgType::Isize => decode_leb_int(reader, true, Ghost(*table)),
        ArgType::Str => decode_sized(reader, true, Ghost(*table)),
        ArgType::U8Slice => decode_sized(reader, false, Ghost(*table)),
        ArgType::IStr => decode_istr(table, reader),
        ArgType::U8Array(len) => {
            reveal(scalar_outcome);
            match read_bytes(reader, len) {
                Ok(b) => Ok(Arg::Slice(b)),
                Err(e) => Err(e),
            }
        },
        ArgType::Debug | ArgType::Display => {
            reveal(scalar_outcome);
            match read_terminated(reader) {
                Ok(t) => Ok(Arg::Preformatted(t)),
                Err(e) => Err(e),
            }
        },
        _ => decode_fixed(reader, ty, Ghost(*table)),
    }
}

/// Number of `|` among the first `i` characters of `s`.
pub open spec fn bar_count(s: Seq<char>, i: int) -> nat
    decreases i,
{
    if i <= 0 || i > s.len() {
        0
    } else {
        bar_count(s, i - 1) + if s[i - 1] == '|' {
            1nat
        } else {
            0nat
        }
    }
}

/// Number of `|` in `s`: one less than the number of variants it lists.
pub open spec fn bars(s: Seq<char>) -> nat {
    bar_count(s, s.len() as int)
}

/// Whether `s[a..b]` is the `d`-th `|`-separated piece of `s`.
pub open spec fn is_variant(s: Seq<char>, d: nat, a: int, b: int) -> bool {
    &&& 0 <= a <= b <= s.len()
    &&& bar_count(s, a) == d
    &&& (a == 0 || s[a - 1] == '|')
    &&& forall|j: int| a <= j < b ==> s[j] != '|'
    &&& (b == s.len() || s[b] == '|')
}

/// Bytes that the discriminant of an enum with `k` `|`s takes in the stream:
/// the smallest unsigned width that holds `0..=k`.
pub open spec fn disc_width(k: nat) -> nat {
    if k <= 0xFF {
        1
    } else if k <= 0xFFFF {
        2
    } else if k <= 0xFFFF_FFFF {
        4
    } else {
        8
    }
}

proof fn lemma_bar_count_step(s: Seq<char>, i: int)
    requires
        0 <= i < s.len(),
    ensures
        bar_count(s, i + 1) == bar_count(s, i) + if s[i] == '|' {
            1nat
        } else {
            0nat
        },
{
}

proof fn lemma_bar_count_le(s: Seq<char>, i: int)
    requires
        0 <= i <= s.len(),
    ensures
        bar_count(s, i) <= i,
    decreases i,
{
    if i > 0 {
        lemma_bar_count_le(s, i - 1);
    }
}

/// Counts the `|` of `s`.
fn count_bars(s: &str) -> (r: usize)
    ensures
        r as nat == bars(s@),
{
    let n = s.unicode_len();
    let mut i: usize = 0;
    let mut c: usize = 0;
    while i < n
        invariant
            n as nat == s@.len(),
            i <= n,
            c as nat == bar_count(s@, i as int),
        decreases n - i,
    {
        proof {
            lemma_bar_count_step(s@, i as int);
            lemma_bar_count_le(s@, i as int);
        }
        if s.get_char(i) == '|' {
            c = c + 1;
        }
        i = i + 1;
    }
    c
}

/// The `d`-th `|`-separated piece of `s`, if `s` has that many.
fn nth_variant<'t>(s: &'t str, d: usize) -> (r: Option<&'t str>)
    ensures
        match r {
            Some(v) => exists|a: int, b: int| is_variant(s@, d as nat, a, b) && v@ == s@.subrange(a, b),
            None => d > bars(s@),
        },
{
    let n = s.unicode_len();
    let mut i: usize = 0;
    let mut c: usize = 0;
    while i < n && c < d
        invariant
            n as nat == s@.len(),
            i <= n,
            c <= d,
            c as nat == bar_count(s@, i as int),
            c < d || i == 0 || s@[i - 1] == '|',
        decreases n - i,
    {
        proof {
            lemma_bar_count_step(s@, i as int);
            lemma_bar_count_le(s@, i as int);
        }
        if s.get_char(i) == '|' {
            c = c + 1;
        }
        i = i + 1;
    }
    if c < d {
        proof {
            assert(i == n);
        }
        return None;
    }
    let a = i;
    while i < n && s.get_char(i) != '|'
        invariant
            n as nat == s@.len(),
            a <= i <= n,
            bar_count(s@, a as int) == d,
            forall|j: int| a <= j < i ==> s@[j] != '|',
        decreases n - i,
    {
        i = i + 1;
    }
    Some(s.substring_char(a, i))
}

proof fn lemma_bar_count_mono(s: Seq<char>, i: int, j: int)
    requires
        0 <= i <= j <= s.len(),
    ensures
        bar_count(s, i) <= bar_count(s, j),
    decreases j - i,
{
    if i < j {
        lemma_bar_count_mono(s, i, j - 1);
    }
}

proof fn lemma_bit(b: u8, k: u8)
    requires
        k < 8,
    ensures
        bit(b, k) == ((b as nat / crate::stream::pow2(k as nat)) % 2 == 1),
{
    vstd::arithmetic::power2::lemma2_to64();
    if k == 0 {
        assert(((b >> 0u8) & 1u8 == 1u8) == (b % 2 == 1)) by (bit_vector);
        assert(crate::stream::pow2(k as nat) == 1);
    } else if k == 1 {
        assert(((b >> 1u8) & 1u8 == 1u8) == ((b / 2) % 2 == 1)) by (bit_vector);
        assert(crate::stream::pow2(k as nat) == 2);
    } else if k == 2 {
        assert(((b >> 2u8) & 1u8 == 1u8) == ((b / 4) % 2 == 1)) by (bit_vector);
        assert(crate::stream::pow2(k as nat) == 4);
    } else if k == 3 {
        assert(((b >> 3u8) & 1u8 == 1u8) == ((b / 8) % 2 == 1)) by (bit_vector);
        assert(crate::stream::pow2(k as nat) == 8);
    } else if k == 4 {
        assert(((b >> 4u8) & 1u8 == 1u8) == ((b / 16) % 2 == 1)) by (bit_vector);
        assert(crate::stream::pow2(k as nat) == 16);
    } else if k == 5 {
        assert(((b >> 5u8) & 1u8 == 1u8) == ((b / 32) % 2 == 1)) by (bit_vector);
        assert(crate::stream::pow2(k as nat) == 32);
    } else if k == 6 {
        assert(((b >> 6u8) & 1u8 == 1u8) == ((b / 64) % 2 == 1)) by (bit_vector);
        assert(crate::stream::pow2(k as nat) == 64);
    } else {
        assert(((b >> 7u8) & 1u8 == 1u8) == ((b / 128) % 2 == 1)) by (bit_vector);
        assert(crate::stream::pow2(k as nat) == 128);
    }
}

/// A block of `n` packed bools (`0 < n <= 8`) sent with byte `b` decodes, in
/// insertion order, to bits `n - 1`, `n - 2`, ..., `0` of `b`.
pub proof fn lemma_packed_bools(b: u8, n: nat)
    requires
        0 < n <= 8,
    ensures
        unpacked(b, n).len() == n,
        forall|i: int|
            0 <= i < n ==> #[trigger] unpacked(b, n)[i] == ((b as nat / crate::stream::pow2(
                (n - 1 - i) as nat,
            )) % 2 == 1),
{
    assert forall|i: int| 0 <= i < n implies #[trigger] unpacked(b, n)[i] == ((b as nat
        / crate::stream::pow2((n - 1 - i) as nat)) % 2 == 1) by {
        lemma_bit(b, (n - 1 - i) as u8);
    }
}

/// The piece of a `|`-separated list that a discriminant selects is unique:
/// two pieces with the same discriminant have the same bounds.
pub proof fn lemma_variant_unique(s: Seq<char>, d: nat, a1: int, b1: int, a2: int, b2: int)
    requires
        is_variant(s, d, a1, b1),
        is_variant(s, d, a2, b2),
    ensures
        a1 == a2,
        b1 == b2,
{
    if a1 < a2 {
        lemma_bar_count_step(s, a2 - 1);
        lemma_bar_count_mono(s, a1, a2 - 1);
    } else if a2 < a1 {
        lemma_bar_count_step(s, a1 - 1);
        lemma_bar_count_mono(s, a2, a1 - 1);
    }
    if b1 < b2 {
        assert(s[b1] != '|');
    } else if b2 < b1 {
        assert(s[b2] != '|');
    }
}

/// Where the decoder takes nested format strings from while it decodes a
/// sequence of structured values (see `Decoder::get_format`).
#[derive(PartialEq, Eq, Debug, Clone, Copy, Structural)]
pub enum ListMode {
    /// No list: format strings come from the stream.
    Off,
    /// Format strings come from the stream and are recorded in the list.
    Build,
    /// Format strings come from the list, then from the stream once it runs out.
    Use,
}

/// State of one top-level decode.
pub struct Decoder<'t, 'b> {
    pub table: &'t Table,
    pub reader: Reader<'b>,
    pub mode: ListMode,
    /// The format-string list of the innermost slice being decoded.
    pub formats: Vec<&'t str>,
    /// Next entry of `formats` to hand out in `Use` mode.
    pub cursor: usize,
    /// Whether the decode is inside an enum variant.
    pub below_enum: bool,
    /// The frame's bools, by slot.
    pub bools: Vec<bool>,
    /// How many of the last bools still wait for their byte.
    pub pending: usize,
}

/// Bit `k` of `b`.
pub open spec fn bit(b: u8, k: u8) -> bool {
    (b >> k) & 1u8 == 1u8
}

/// The values that byte `b` gives to `n` pending bools, in insertion order: the
/// first gets bit `n - 1`, the last bit 0.
pub open spec fn unpacked(b: u8, n: nat) -> Seq<bool> {
    Seq::new(n, |i: int| bit(b, (n - 1 - i) as u8))
}

impl<'t, 'b> Decoder<'t, 'b> {
    pub open spec fn wf(&self) -> bool {
        &&& self.reader.wf()
        &&& self.pending <= self.bools@.len()
        &&& self.pending < MAX_NUM_BOOL_FLAGS
    }

    /// The bools whose values are known.
    pub open spec fn settled(&self) -> Seq<bool> {
        self.bools@.subrange(0, self.bools@.len() - self.pending)
    }

    /// Reads the byte of a block of packed bools and hands its bits out to the
    /// pending bools.
    fn read_and_unpack_bools(&mut self) -> (r: Result<(), DecodeError>)
        requires
            old(self).reader.wf(),
            old(self).pending <= old(self).bools@.len(),
            old(self).pending <= MAX_NUM_BOOL_FLAGS,
        ensures
            final(self).reader.wf(),
            final(self).reader.bytes == old(self).reader.bytes,
            final(self).table == old(self).table,
            final(self).mode == old(self).mode,
            final(self).formats == old(self).formats,
            final(self).cursor == old(self).cursor,
            final(self).below_enum == old(self).below_enum,
            match unpack_spec(old(self).reader.bytes@, old(self).model()) {
                Ok(st) => r is Ok && final(self).model() == st,
                Err(e) => r == Err::<(), DecodeError>(e),
            },
            match r {
                Ok(_) => old(self).reader.rest().len() >= 1 && final(self).reader.pos == old(
                    self,
                ).reader.pos + 1 && final(self).pending == 0 && final(self).bools@ == old(
                    self,
                ).settled() + unpacked(old(self).reader.rest()[0], old(self).pending as nat),
                Err(e) => e == DecodeError::UnexpectedEof && old(self).reader.rest().len() == 0
                    && final(self).reader.pos == old(self).reader.pos && final(self).bools
                    == old(self).bools && final(self).pending == old(self).pending,
            },
    {
        if self.reader.pos >= self.reader.bytes.len() {
            return Err(DecodeError::UnexpectedEof);
        }
        let flags = self.reader.bytes[self.reader.pos];
        assert(flags == old(self).reader.rest()[0]);
        self.reader.pos = self.reader.pos + 1;
        let n = self.pending;
        let first = self.bools.len() - n;
        let mut i: usize = 0;
        while i < n
            invariant
                n == old(self).pending,
                n <= MAX_NUM_BOOL_FLAGS,
                first + n == self.bools.len(),
                self.reader.wf(),
                self.reader.bytes == old(self).reader.bytes,
                self.reader.pos == old(self).reader.pos + 1,
                self.table == old(self).table,
                self.mode == old(self).mode,
                self.formats == old(self).formats,
                self.cursor == old(self).cursor,
                self.below_enum == old(self).below_enum,
                self.bools@.len() == old(self).bools@.len(),
                i <= n,
                self.bools@.subrange(0, first as int) == old(self).settled(),
                forall|j: int|
                    0 <= j < i ==> #[trigger] self.bools@[first + j] == unpacked(flags, n as nat)[j],
            decreases n - i,
        {
            let k: u8 = (n - 1 - i) as u8;
            let value = (flags >> k) & 1u8 == 1u8;
            self.bools.set(first + i, value);
            assert(self.bools@.subrange(0, first as int) =~= old(self).settled());
            assert(self.bools@[first + i] == unpacked(flags, n as nat)[i as int]);
            i = i + 1;
        }
        assert forall|j: int| 0 <= j < self.bools@.len() implies self.bools@[j] == (old(
            self,
        ).settled() + unpacked(flags, n as nat))[j] by {
            if j >= first {
                assert(self.bools@[first + (j - first)] == unpacked(flags, n as nat)[j - first]);
            } else {
                assert(self.bools@.subrange(0, first as int)[j] == self.bools@[j]);
            }
        }
        assert(self.bools@ =~= old(self).settled() + unpacked(flags, n as nat));
        self.pending = 0;
        Ok(())
    }
}

/// Whether `s` lists enum variants, that is holds a `|`.
fn has_bar(s: &str) -> (r: bool)
    ensures
        r == (bars(s@) > 0),
{
    count_bars(s) > 0
}

/// A copy of a list of format strings.
fn copy_list<'t>(v: &Vec<&'t str>) -> (r: Vec<&'t str>)
    ensures
        r@ == v@,
{
    let mut out: Vec<&'t str> = Vec::new();
    let mut i: usize = 0;
    while i < v.len()
        invariant
            i <= v@.len(),
            out@ == v@.subrange(0, i as int),
        decreases v@.len() - i,
    {
        out.push(v[i]);
        assert(out@ =~= v@.subrange(0, i + 1));
        i = i + 1;
    }
    assert(out@ =~= v@);
    out
}

/// The parameters among `frags`, in order.
fn collect_params(frags: &Vec<Fragment>) -> (r: Vec<Param>)
    ensures
        r@ == params_of(frags@),
{
    let mut out: Vec<Param> = Vec::new();
    let mut i: usize = 0;
    while i < frags.len()
        invariant
            i <= frags@.len(),
            out@ == params_of(frags@.subrange(0, i as int)),
        decreases frags@.len() - i,
    {
        assert(frags@.subrange(0, i + 1).drop_last() =~= frags@.subrange(0, i as int));
        match &frags[i] {
            Fragment::Parameter(p) => out.push(*p),
            Fragment::Literal(_) => {},
        }
        i = i + 1;
    }
    assert(frags@.subrange(0, i as int) =~= frags@);
    out
}

/// The parameters that decoding `format` reads, in order, where the parser
/// accepts `format`.
pub open spec fn params_read(format: Seq<char>) -> Option<Seq<Param>> {
    match fragments_of(format) {
        Some(f) => Some(prepared(params_of(f))),
        None => None,
    }
}

/// Whether a decoded argument has the shape that type `ty` calls for.
pub open spec fn arg_fits(a: Arg, ty: ArgType) -> bool {
    match ty {
        ArgType::Bool => a is Bool,
        ArgType::Format => a is Format,
        ArgType::FormatSlice => a is FormatSlice,
        ArgType::FormatArray(n) => a is FormatSlice && a->elements@.len() == n,
        _ => scalar_of(a) is Some,
    }
}

impl<'t, 'b> Decoder<'t, 'b> {
    /// The state `self` can follow `o` in by a successful step: same table,
    /// stream, list mode and enum flag; the stream read further; a list in
    /// `Build` mode only grown, any other list unchanged.
    pub open spec fn follows(&self, o: &Self) -> bool {
        &&& self.wf()
        &&& self.table == o.table
        &&& self.reader.bytes == o.reader.bytes
        &&& self.reader.pos >= o.reader.pos
        &&& self.mode == o.mode
        &&& self.below_enum == o.below_enum
        &&& o.formats@.len() <= self.formats@.len()
        &&& forall|i: int| 0 <= i < o.formats@.len() ==> self.formats@[i] == o.formats@[i]
        &&& (o.mode != ListMode::Build ==> self.formats@ == o.formats@)
    }

    /// Gets the next format string: from the list, in `Use` mode while it
    /// lasts; otherwise by its index in the stream, recording it in `Build`
    /// mode unless below an enum.
    fn get_format(&mut self) -> (r: Result<&'t str, DecodeError>)
        requires
            old(self).wf(),
        ensures
            r is Ok ==> final(self).follows(old(self)),
            final(self).bools == old(self).bools,
            final(self).pending == old(self).pending,
            match get_format_spec(*old(self).table, old(self).reader.bytes@, old(self).model()) {
                Ok((st, f)) => r matches Ok(x) && x@ == f && final(self).model() == st,
                Err(e) => r == Err::<&str, DecodeError>(e),
            },
            if old(self).mode == ListMode::Use && old(self).cursor < old(self).formats@.len() {
                r == Ok::<&str, DecodeError>(old(self).formats@[old(self).cursor as int])
                    && final(self).cursor == old(self).cursor + 1 && final(self).reader.pos == old(
                    self,
                ).reader.pos
            } else {
                match leb_read(old(self).reader.rest()) {
                    Err(e) => r == Err::<&str, DecodeError>(e),
                    Ok((i, n)) => match old(self).table.without_level(i as usize) {
                        None => r == Err::<&str, DecodeError>(DecodeError::Malformed),
                        Some(f) => r matches Ok(x) && x@ == f && final(self).reader.pos == old(
                            self,
                        ).reader.pos + n && final(self).cursor == old(self).cursor
                            && final(self).formats@ == if old(self).mode == ListMode::Build
                            && !old(self).below_enum {
                            old(self).formats@.push(x)
                        } else {
                            old(self).formats@
                        },
                    },
                }
            },
    {
        if self.mode == ListMode::Use && self.cursor < self.formats.len() {
            let f = self.formats[self.cursor];
            self.cursor = self.cursor + 1;
            return Ok(f);
        }
        let index = match read_leb(&mut self.reader) {
            Ok(v) => v,
            Err(e) => return Err(e),
        };
        let format = match self.table.get_without_level(index as usize) {
            Some(f) => f,
            None => return Err(DecodeError::Malformed),
        };
        if self.mode == ListMode::Build && !self.below_enum {
            self.formats.push(format);
            assert(list_of(self.formats@) =~= list_of(old(self).formats@).push(format@));
        }
        Ok(format)
    }

    /// Reads an enum's discriminant and picks that variant of `format`.
    fn get_variant(&mut self, format: &'t str) -> (r: Result<&'t str, DecodeError>)
        requires
            old(self).wf(),
        ensures
            r is Ok ==> final(self).follows(old(self)),
            final(self).bools == old(self).bools,
            final(self).pending == old(self).pending,
            final(self).formats == old(self).formats,
            final(self).cursor == old(self).cursor,
            match get_variant_spec(old(self).reader.bytes@, old(self).model(), format@) {
                Ok((st, v)) => r matches Ok(x) && x@ == v && final(self).model() == st,
                Err(e) => r == Err::<&str, DecodeError>(e),
            },
            match bytes_read(old(self).reader.rest(), disc_width(bars(format@))) {
                Err(e) => r == Err::<&str, DecodeError>(e),
                Ok(b) => if le_value(b) <= bars(format@) {
                    r matches Ok(v) && final(self).reader.pos == old(self).reader.pos
                        + disc_width(bars(format@)) && exists|x: int, y: int|
                        is_variant(format@, le_value(b), x, y) && v@ == format@.subrange(x, y)
                } else {
                    r == Err::<&str, DecodeError>(DecodeError::Malformed)
                },
            },
    {
        let k = count_bars(format);
        let w: usize = if k <= 0xFF {
            1
        } else if k <= 0xFFFF {
            2
        } else if k <= 0xFFFF_FFFF {
            4
        } else {
            8
        };
        let d = match read_fixed(&mut self.reader, w) {
            Ok(v) => v,
            Err(e) => return Err(e),
        };
        if d > k as u128 {
            return Err(DecodeError::Malformed);
        }
        match nth_variant(format, d as usize) {
            Some(v) => {
                proof {
                    let dd = d as nat;
                    let (x, y) = choose|x: int, y: int| is_variant(format@, dd, x, y) && v@ == format@.subrange(x, y);
                    assert(is_variant(format@, dd, x, y));
                    let ab = choose|ab: (int, int)| is_variant(format@, dd, ab.0, ab.1);
                    lemma_variant_unique(format@, dd, x, y, ab.0, ab.1);
                    assert(variant_text(format@, dd) == v@);
                }
                Ok(v)
            },
            None => Err(DecodeError::Malformed),
        }
    }

    /// Adds a bool whose value comes with the next packed byte; reads that byte
    /// once a block is full.
    fn push_bool(&mut self) -> (r: Result<Arg<'t>, DecodeError>)
        requires
            old(self).wf(),
        ensures
            r is Ok ==> final(self).follows(old(self)),
            final(self).formats == old(self).formats,
            final(self).cursor == old(self).cursor,
            r is Ok ==> r->Ok_0 is Bool && r->Ok_0->Bool_0 < final(self).bools@.len(),
            forall|depth: nat| match #[trigger] param_spec(
                *old(self).table,
                old(self).reader.bytes@,
                old(self).model(),
                Param { index: 0, ty: ArgType::Bool, hint: None },
                depth,
            ) {
                Ok((st, a)) => r matches Ok(x) && arg_model(x) == a && final(self).model() == st,
                Err(e) => r == Err::<Arg, DecodeError>(e),
            },
    {
        let slot = self.bools.len();
        self.bools.push(false);
        self.pending = self.pending + 1;
        if self.pending == MAX_NUM_BOOL_FLAGS {
            match self.read_and_unpack_bools() {
                Ok(_) => {},
                Err(e) => return Err(e),
            }
        }
        Ok(Arg::Bool(slot))
    }
}

impl<'t, 'b> Decoder<'t, 'b> {
    /// Decodes the argument of one parameter.
    fn decode_param(&mut self, p: Param, depth: usize) -> (r: Result<Arg<'t>, DecodeError>)
        requires
            old(self).wf(),
        ensures
            r is Ok ==> final(self).follows(old(self)),
            r is Ok ==> arg_fits(r->Ok_0, p.ty),
            match param_spec(*old(self).table, old(self).reader.bytes@, old(self).model(), p, depth as nat) {
                Ok((st, a)) => r matches Ok(x) && arg_model(x) == a && final(self).model() == st,
                Err(e) => r == Err::<Arg, DecodeError>(e),
            },
        decreases depth, 1nat,
    {
        match p.ty {
            ArgType::Bool => {
                let r = self.push_bool();
                assert(param_spec(*old(self).table, old(self).reader.bytes@, old(self).model(), p, depth as nat)
                    == param_spec(
                    *old(self).table,
                    old(self).reader.bytes@,
                    old(self).model(),
                    Param { index: 0, ty: ArgType::Bool, hint: None },
                    depth as nat,
                ));
                r
            },
            ArgType::Format => self.decode_nested(p, depth),
            ArgType::FormatSlice => self.decode_slice_param(p, depth),
            ArgType::FormatArray(_) => self.decode_slice_param(p, depth),
            _ => self.decode_scalar_param(p, depth),
        }
    }

    /// Decodes a scalar argument.
    fn decode_scalar_param(&mut self, p: Param, depth: usize) -> (r: Result<Arg<'t>, DecodeError>)
        requires
            old(self).wf(),
            is_scalar_type(p.ty),
        ensures
            r is Ok ==> final(self).follows(old(self)),
            r is Ok ==> arg_fits(r->Ok_0, p.ty),
            match param_spec(*old(self).table, old(self).reader.bytes@, old(self).model(), p, depth as nat) {
                Ok((st, a)) => r matches Ok(x) && arg_model(x) == a && final(self).model() == st,
                Err(e) => r == Err::<Arg, DecodeError>(e),
            },
    {
        let r = decode_scalar(self.table, &mut self.reader, p.ty);
        proof {
            reveal(scalar_outcome);
        }
        r
    }

    /// Decodes a nested structured value: a format string, an enum variant
    /// where it lists several, then that format's arguments.
    fn decode_nested(&mut self, p: Param, depth: usize) -> (r: Result<Arg<'t>, DecodeError>)
        requires
            old(self).wf(),
            p.ty == ArgType::Format,
        ensures
            r is Ok ==> final(self).follows(old(self)),
            r is Ok ==> arg_fits(r->Ok_0, p.ty),
            match param_spec(*old(self).table, old(self).reader.bytes@, old(self).model(), p, depth as nat) {
                Ok((st, a)) => r matches Ok(x) && arg_model(x) == a && final(self).model() == st,
                Err(e) => r == Err::<Arg, DecodeError>(e),
            },
        decreases depth, 0nat,
    {
        if depth == 0 {
            return Err(DecodeError::Malformed);
        }
        let format = match self.get_format() {
            Ok(f) => f,
            Err(e) => return Err(e),
        };
        if has_bar(format) {
            let variant = match self.get_variant(format) {
                Ok(v) => v,
                Err(e) => return Err(e),
            };
            let below_enum = self.below_enum;
            self.below_enum = true;
            let args = match self.decode_format(variant, depth - 1) {
                Ok(a) => a,
                Err(e) => return Err(e),
            };
            self.below_enum = below_enum;
            Ok(Arg::Format { format: variant, args })
        } else {
            let args = match self.decode_format(format, depth - 1) {
                Ok(a) => a,
                Err(e) => return Err(e),
            };
            Ok(Arg::Format { format, args })
        }
    }

    /// Decodes a sequence of structured values: its length, from the stream
    /// or the type, then its elements.
    fn decode_slice_param(&mut self, p: Param, depth: usize) -> (r: Result<Arg<'t>, DecodeError>)
        requires
            old(self).wf(),
            p.ty is FormatSlice || p.ty is FormatArray,
        ensures
            r is Ok ==> final(self).follows(old(self)),
            r is Ok ==> arg_fits(r->Ok_0, p.ty),
            match param_spec(*old(self).table, old(self).reader.bytes@, old(self).model(), p, depth as nat) {
                Ok((st, a)) => r matches Ok(x) && arg_model(x) == a && final(self).model() == st,
                Err(e) => r == Err::<Arg, DecodeError>(e),
            },
        decreases depth, 0nat,
    {
        if depth == 0 {
            return Err(DecodeError::Malformed);
        }
        let n = match p.ty {
            ArgType::FormatArray(n) => n,
            _ => match read_leb(&mut self.reader) {
                Ok(v) => #[verifier::truncate] (v as usize),
                Err(e) => return Err(e),
            },
        };
        match self.decode_format_slice(n, depth - 1) {
            Ok(elements) => Ok(Arg::FormatSlice { elements }),
            Err(e) => Err(e),
        }
    }

    /// Decodes the arguments that `format` describes.
    fn decode_format(&mut self, format: &str, depth: usize) -> (r: Result<Vec<Arg<'t>>, DecodeError>)
        requires
            old(self).wf(),
        ensures
            r is Ok ==> final(self).follows(old(self)),
            r is Ok ==> params_read(format@) is Some && r->Ok_0@.len() == params_read(
                format@,
            )->0.len() && forall|i: int|
                0 <= i < r->Ok_0@.len() ==> arg_fits(
                    #[trigger] r->Ok_0@[i],
                    params_read(format@)->0[i].ty,
                ),
            fragments_of(format@) is None ==> r == Err::<Vec<Arg>, DecodeError>(
                DecodeError::Malformed,
            ),
            match format_spec(*old(self).table, old(self).reader.bytes@, old(self).model(), format@, depth as nat) {
                Ok((st, a)) => r matches Ok(x) && args_of(x@) == a && final(self).model() == st,
                Err(e) => r == Err::<Vec<Arg>, DecodeError>(e),
            },
        decreases depth, 3nat,
    {
        let frags = match parse(format) {
            Some(f) => f,
            None => return Err(DecodeError::Malformed),
        };
        let mut params = collect_params(&frags);
        prepare_params(&mut params);
        match self.decode_params(&params, depth) {
            Ok(args) => Ok(args),
            Err(e) => Err(e),
        }
    }

    /// Decodes the arguments of `params`, prepared parameters of one format
    /// string, in order.
    pub fn decode_params(&mut self, params: &Vec<Param>, depth: usize) -> (r: Result<
        Vec<Arg<'t>>,
        DecodeError,
    >)
        requires
            old(self).wf(),
        ensures
            r is Ok ==> final(self).follows(old(self)),
            r is Ok ==> r->Ok_0@.len() == params@.len() && forall|i: int|
                0 <= i < r->Ok_0@.len() ==> arg_fits(#[trigger] r->Ok_0@[i], params@[i].ty),
            match params_spec(
                *old(self).table,
                old(self).reader.bytes@,
                old(self).model(),
                params@,
                params@.len(),
                depth as nat,
            ) {
                Ok((st, a)) => r matches Ok(x) && args_of(x@) == a && final(self).model() == st,
                Err(e) => r == Err::<Vec<Arg>, DecodeError>(e),
            },
        decreases depth, 2nat,
    {
        let mut args: Vec<Arg<'t>> = Vec::new();
        let ghost st0 = self.model();
        let ghost table = *self.table;
        let ghost bytes = self.reader.bytes@;
        let mut i: usize = 0;
        while i < params.len()
            invariant
                old(self).wf(),
                self.follows(old(self)),
                st0 == old(self).model(),
                table == *old(self).table,
                bytes == old(self).reader.bytes@,
                i <= params@.len(),
                args@.len() == i,
                forall|j: int| 0 <= j < i ==> arg_fits(#[trigger] args@[j], params@[j].ty),
                params_spec(table, bytes, st0, params@, i as nat, depth as nat) == Ok::<
                    (DState, Seq<crate::wire::ArgM>),
                    DecodeError,
                >((self.model(), args_of(args@))),
            decreases params@.len() - i,
        {
            let ghost before = *self;
            let a = match self.decode_param(params[i], depth) {
                Ok(a) => a,
                Err(e) => {
                    proof {
                        lemma_params_err(table, bytes, st0, params@, (i + 1) as nat, params@.len(), depth as nat);
                    }
                    return Err(e);
                },
            };
            assert(self.follows(&before));
            proof {
                lemma_args_push(args@, a);
            }
            args.push(a);
            i = i + 1;
        }
        Ok(args)
    }
}

impl<'t, 'b> Decoder<'t, 'b> {
    /// Decodes `format` with the given list installed, then puts the list
    /// state back; hands out the list as the decode left it.
    fn with_list(
        &mut self,
        mode: ListMode,
        list: Vec<&'t str>,
        cursor: usize,
        format: &str,
        depth: usize,
    ) -> (r: (Result<Vec<Arg<'t>>, DecodeError>, Vec<&'t str>))
        requires
            old(self).wf(),
        ensures
            r.0 is Ok ==> {
                &&& final(self).wf()
                &&& final(self).table == old(self).table
                &&& final(self).reader.bytes == old(self).reader.bytes
                &&& final(self).reader.pos >= old(self).reader.pos
                &&& final(self).mode == old(self).mode
                &&& final(self).below_enum == old(self).below_enum
                &&& final(self).formats == old(self).formats
                &&& final(self).cursor == old(self).cursor
            },
            r.0 is Ok ==> params_read(format@) is Some && r.0->Ok_0@.len() == params_read(
                format@,
            )->0.len(),
            r.0 is Ok && mode == ListMode::Build ==> list@.len() <= r.1@.len(),
            match with_list_spec(
                *old(self).table,
                old(self).reader.bytes@,
                old(self).model(),
                mode,
                list_of(list@),
                cursor as nat,
                format@,
                depth as nat,
            ) {
                Ok((st, a, l)) => r.0 matches Ok(x) && args_of(x@) == a && final(self).model() == st
                    && list_of(r.1@) == l,
                Err(e) => r.0 == Err::<Vec<Arg>, DecodeError>(e),
            },
        decreases depth, 4nat,
    {
        let saved_mode = self.mode;
        let saved_cursor = self.cursor;
        let mut held = list;
        core::mem::swap(&mut self.formats, &mut held);
        self.mode = mode;
        self.cursor = cursor;
        let ghost installed = *self;
        let res = self.decode_format(format, depth);
        proof {
            if res is Ok {
                assert(self.follows(&installed));
            }
        }
        core::mem::swap(&mut self.formats, &mut held);
        self.mode = saved_mode;
        self.cursor = saved_cursor;
        (res, held)
    }

    /// Decodes one element of a sequence whose elements have format string
    /// `format`: picks the variant where `format` is an enum, then decodes
    /// the element's arguments.
    #[verifier::rlimit(80)]
    fn decode_element(
        &mut self,
        format: &'t str,
        first: bool,
        built: &mut Vec<&'t str>,
        cursor: &mut usize,
        depth: usize,
    ) -> (r: Result<FormatSliceElement<'t>, DecodeError>)
        requires
            old(self).wf(),
        ensures
            r is Ok ==> final(self).follows(old(self)),
            match element_spec(
                *old(self).table,
                old(self).reader.bytes@,
                old(self).model(),
                format@,
                first,
                list_of(old(built)@),
                *old(cursor) as nat,
                depth as nat,
            ) {
                Ok((st, el, b, c)) => r matches Ok(x) && x.format@ == el.format && args_of(x.args@)
                    == el.args && final(self).model() == st && list_of(final(built)@) == b
                    && *final(cursor) as nat == c,
                Err(e) => r == Err::<FormatSliceElement, DecodeError>(e),
            },
        decreases depth, 7nat,
    {
        let ghost start = *self;
        let f = if has_bar(format) {
            match self.get_variant(format) {
                Ok(v) => v,
                Err(e) => return Err(e),
            }
        } else {
            format
        };
        let ghost mid = *self;
        let args = match self.decode_element_args(f, first, built, cursor, depth) {
            Ok(a) => a,
            Err(e) => return Err(e),
        };
        assert(self.follows(&mid));
        assert(self.follows(&start));
        Ok(FormatSliceElement { format: f, args })
    }

    /// Decodes the arguments of one element, by the list mode: the first
    /// element's nested format strings come from the stream and are recorded
    /// in `built`; the other elements take them from that record.
    fn decode_element_args(
        &mut self,
        f: &'t str,
        first: bool,
        built: &mut Vec<&'t str>,
        cursor: &mut usize,
        depth: usize,
    ) -> (r: Result<Vec<Arg<'t>>, DecodeError>)
        requires
            old(self).wf(),
        ensures
            r is Ok ==> final(self).follows(old(self)),
            match element_args_spec(
                *old(self).table,
                old(self).reader.bytes@,
                old(self).model(),
                f@,
                first,
                list_of(old(built)@),
                *old(cursor) as nat,
                depth as nat,
            ) {
                Ok((st, a, b, c)) => r matches Ok(x) && args_of(x@) == a && final(self).model() == st
                    && list_of(final(built)@) == b && *final(cursor) as nat == c,
                Err(e) => r == Err::<Vec<Arg>, DecodeError>(e),
            },
        decreases depth, 6nat,
    {
        match self.mode {
            ListMode::Use => self.decode_format(f, depth),
            ListMode::Build => self.decode_args_building(f, first, built, cursor, depth),
            ListMode::Off => self.decode_args_unlisted(f, first, built, cursor, depth),
        }
    }

    /// Decodes an element's arguments inside the first element of an
    /// enclosing sequence, whose list is being recorded.
    #[verifier::rlimit(80)]
    fn decode_args_building(
        &mut self,
        f: &'t str,
        first: bool,
        built: &mut Vec<&'t str>,
        cursor: &mut usize,
        depth: usize,
    ) -> (r: Result<Vec<Arg<'t>>, DecodeError>)
        requires
            old(self).wf(),
            old(self).mode == ListMode::Build,
        ensures
            r is Ok ==> final(self).follows(old(self)),
            match element_args_spec(
                *old(self).table,
                old(self).reader.bytes@,
                old(self).model(),
                f@,
                first,
                list_of(old(built)@),
                *old(cursor) as nat,
                depth as nat,
            ) {
                Ok((st, a, b, c)) => r matches Ok(x) && args_of(x@) == a && final(self).model() == st
                    && list_of(final(built)@) == b && *final(cursor) as nat == c,
                Err(e) => r == Err::<Vec<Arg>, DecodeError>(e),
            },
        decreases depth, 5nat,
    {
        if first {
            let c = self.formats.len();
            let a = match self.decode_format(f, depth) {
                Ok(a) => a,
                Err(e) => return Err(e),
            };
            *cursor = c;
            Ok(a)
        } else {
            let list = copy_list(&self.formats);
            assert(list_of(list@) == old(self).model().formats);
            self.with_list(ListMode::Use, list, *cursor, f, depth).0
        }
    }

    /// Decodes an element's arguments where no list is active: the first
    /// element records one, the others use it.
    #[verifier::rlimit(80)]
    fn decode_args_unlisted(
        &mut self,
        f: &'t str,
        first: bool,
        built: &mut Vec<&'t str>,
        cursor: &mut usize,
        depth: usize,
    ) -> (r: Result<Vec<Arg<'t>>, DecodeError>)
        requires
            old(self).wf(),
            old(self).mode == ListMode::Off,
        ensures
            r is Ok ==> final(self).follows(old(self)),
            match element_args_spec(
                *old(self).table,
                old(self).reader.bytes@,
                old(self).model(),
                f@,
                first,
                list_of(old(built)@),
                *old(cursor) as nat,
                depth as nat,
            ) {
                Ok((st, a, b, c)) => r matches Ok(x) && args_of(x@) == a && final(self).model() == st
                    && list_of(final(built)@) == b && *final(cursor) as nat == c,
                Err(e) => r == Err::<Vec<Arg>, DecodeError>(e),
            },
        decreases depth, 5nat,
    {
        if first {
            let empty: Vec<&'t str> = Vec::new();
            assert(list_of(empty@) =~= Seq::<Seq<char>>::empty());
            let (res, list) = self.with_list(ListMode::Build, empty, 0, f, depth);
            let a = match res {
                Ok(a) => a,
                Err(e) => return Err(e),
            };
            *built = list;
            Ok(a)
        } else {
            let list = copy_list(built);
            self.with_list(ListMode::Use, list, 0, f, depth).0
        }
    }

    /// Decodes `n` elements of a sequence of structured values.
    #[verifier::rlimit(80)]
    fn decode_format_slice(&mut self, n: usize, depth: usize) -> (r: Result<
        Vec<FormatSliceElement<'t>>,
        DecodeError,
    >)
        requires
            old(self).wf(),
        ensures
            r is Ok ==> final(self).follows(old(self)),
            r is Ok ==> r->Ok_0@.len() == n,
            match slice_spec(*old(self).table, old(self).reader.bytes@, old(self).model(), n as nat, depth as nat) {
                Ok((st, els)) => r matches Ok(x) && elements_of(x@) == els && final(self).model() == st,
                Err(e) => r == Err::<Vec<FormatSliceElement>, DecodeError>(e),
            },
        decreases depth, 8nat,
    {
        if n == 0 {
            assert(elements_of(Seq::<FormatSliceElement>::empty()) == Seq::<crate::wire::ElementM>::empty());
            return Ok(Vec::new());
        }
        let format = match self.get_format() {
            Ok(f) => f,
            Err(e) => return Err(e),
        };
        let is_enum = has_bar(format);
        let below_enum = self.below_enum;
        if is_enum {
            self.below_enum = true;
        }
        let ghost start = *self;
        let ghost st2 = self.model();
        let ghost table = *self.table;
        let ghost bytes = self.reader.bytes@;
        let mut elements: Vec<FormatSliceElement<'t>> = Vec::new();
        let mut built: Vec<&'t str> = Vec::new();
        let mut cursor: usize = 0;
        let mut i: usize = 0;
        assert(list_of(built@) =~= Seq::<Seq<char>>::empty());
        assert(elements_of(elements@) == Seq::<crate::wire::ElementM>::empty());
        while i < n
            invariant
                old(self).wf(),
                self.wf(),
                self.follows(&start),
                start.table == old(self).table,
                table == *old(self).table,
                bytes == old(self).reader.bytes@,
                slice_spec(table, bytes, old(self).model(), n as nat, depth as nat) == crate::wire::slice_result(
                    elements_spec(table, bytes, st2, format@, n as nat, depth as nat),
                    is_enum,
                    below_enum,
                ),
                start.reader.bytes == old(self).reader.bytes,
                start.reader.pos >= old(self).reader.pos,
                start.mode == old(self).mode,
                below_enum == old(self).below_enum,
                is_enum ==> start.below_enum,
                !is_enum ==> start.below_enum == below_enum,
                start.formats@.len() >= old(self).formats@.len(),
                forall|j: int| 0 <= j < old(self).formats@.len() ==> start.formats@[j] == old(self).formats@[j],
                old(self).mode != ListMode::Build ==> start.formats@ == old(self).formats@,
                i <= n,
                elements@.len() == i,
                elements_spec(table, bytes, st2, format@, i as nat, depth as nat) == Ok::<
                    (DState, Seq<crate::wire::ElementM>, Seq<Seq<char>>, nat),
                    DecodeError,
                >((self.model(), elements_of(elements@), list_of(built@), cursor as nat)),
            decreases n - i,
        {
            let ghost before = *self;
            let ghost pre_model = self.model();
            let ghost pre_built = list_of(built@);
            let ghost pre_cursor = cursor as nat;
            let ghost pre_elements = elements_of(elements@);
            let el = match self.decode_element(format, i == 0, &mut built, &mut cursor, depth) {
                Ok(el) => el,
                Err(e) => {
                    proof {
                        assert(element_spec(table, bytes, pre_model, format@, i == 0, pre_built, pre_cursor, depth as nat)
                            == Err::<(DState, crate::wire::ElementM, Seq<Seq<char>>, nat), DecodeError>(e));
                        assert(elements_spec(table, bytes, st2, format@, i as nat, depth as nat) == Ok::<
                            (DState, Seq<crate::wire::ElementM>, Seq<Seq<char>>, nat),
                            DecodeError,
                        >((pre_model, pre_elements, pre_built, pre_cursor)));
                        crate::wire::lemma_elements_step_err(table, bytes, st2, format@, i as nat, depth as nat,
                            pre_model, pre_elements, pre_built, pre_cursor, e);
                        assert(elements_spec(table, bytes, st2, format@, (i + 1) as nat, depth as nat)
                            == Err::<(DState, Seq<crate::wire::ElementM>, Seq<Seq<char>>, nat), DecodeError>(e));
                        lemma_elements_err(table, bytes, st2, format@, (i + 1) as nat, n as nat, depth as nat);
                        assert(elements_spec(table, bytes, st2, format@, n as nat, depth as nat)
                            == Err::<(DState, Seq<crate::wire::ElementM>, Seq<Seq<char>>, nat), DecodeError>(e));
                    }
                    return Err(e);
                },
            };
            assert(self.follows(&before));
            proof {
                lemma_elements_push(elements@, el);
                crate::wire::lemma_elements_step_ok(table, bytes, st2, format@, i as nat, depth as nat,
                    pre_model, pre_elements, pre_built, pre_cursor, self.model(),
                    crate::wire::ElementM { format: el.format@, args: args_of(el.args@) }, list_of(built@), cursor as nat);
            }
            elements.push(el);
            i = i + 1;
        }
        if is_enum {
            self.below_enum = below_enum;
        }
        Ok(elements)
    }
}

/// A decoded log frame.
#[derive(Debug, PartialEq)]
pub struct Frame<'t> {
    pub level: defmt_parser::Level,
    /// The log-site index that the frame starts with.
    pub index: u64,
    pub timestamp_format: Option<&'t str>,
    pub timestamp_args: Vec<Arg<'t>>,
    pub format: &'t str,
    pub args: Vec<Arg<'t>>,
    /// The values of the frame's bools, by slot.
    pub bools: Vec<bool>,
}

impl<'t> Frame<'t> {
    pub fn level(&self) -> (r: defmt_parser::Level)
        ensures
            r == self.level,
    {
        self.level
    }

    pub fn index(&self) -> (r: u64)
        ensures
            r == self.index,
    {
        self.index
    }
}

/// Whether `args` has the shape that the parameters of `format` call for.
pub open spec fn args_fit(format: Seq<char>, args: Seq<Arg>) -> bool {
    &&& params_read(format) is Some
    &&& args.len() == params_read(format)->0.len()
    &&& forall|i: int| 0 <= i < args.len() ==> arg_fits(#[trigger] args[i], params_read(format)->0[i].ty)
}

/// Decodes the frame at the front of `bytes` with `table`; returns it with the
/// number of bytes it took.
#[verifier::rlimit(40)]
pub fn decode<'t>(bytes: &[u8], table: &'t Table) -> (r: Result<(Frame<'t>, usize), DecodeError>)
    ensures
        leb_read(bytes@) matches Err(e) ==> r == Err::<(Frame, usize), DecodeError>(e),
        match r {
            Ok((frame, consumed)) => {
                &&& leb_read(bytes@) matches Ok((i, _)) && i == frame.index
                &&& table.with_level(frame.index as usize) == Some((frame.level, frame.format@))
                &&& args_fit(frame.format@, frame.args@)
                &&& match table.timestamp {
                    Some(e) => frame.timestamp_format matches Some(f) && f@ == e.string.string@
                        && args_fit(f@, frame.timestamp_args@),
                    None => frame.timestamp_format is None && frame.timestamp_args@.len() == 0,
                }
                &&& 1 <= consumed <= bytes@.len()
            },
            Err(_) => true,
        },
        (leb_read(bytes@) matches Ok((i, _)) && table.timestamp is None && table.with_level(
            i as usize,
        ) is None) ==> r == Err::<(Frame, usize), DecodeError>(DecodeError::Malformed),
        match crate::wire::decode_spec(*table, bytes@) {
            Ok((fm, c)) => r matches Ok((f, c2)) && crate::wire::frame_model(f) == fm && c2 as nat == c,
            Err(e) => r == Err::<(Frame, usize), DecodeError>(e),
        },
{
    let mut decoder = Decoder {
        table,
        reader: Reader::new(bytes),
        mode: ListMode::Off,
        formats: Vec::new(),
        cursor: 0,
        below_enum: false,
        bools: Vec::new(),
        pending: 0,
    };
    assert(decoder.reader.rest() =~= bytes@);
    let index = match read_leb(&mut decoder.reader) {
        Ok(v) => v,
        Err(e) => return Err(e),
    };
    assert(list_of(decoder.formats@) =~= Seq::<Seq<char>>::empty());
    assert(decoder.model() == crate::wire::start_state(decoder.reader.pos as nat));
    let mut timestamp_format: Option<&'t str> = None;
    let mut timestamp_args: Vec<Arg<'t>> = Vec::new();
    assert(args_of(timestamp_args@) == Seq::<crate::wire::ArgM>::empty());
    match &table.timestamp {
        Some(entry) => {
            let format = entry.string.string.as_str();
            timestamp_format = Some(format);
            timestamp_args = match decoder.decode_format(format, MAX_NESTING) {
                Ok(a) => a,
                Err(e) => return Err(e),
            };
        },
        None => {},
    }
    let (level, format) = match table.get_with_level(#[verifier::truncate] (index as usize)) {
        Some(x) => x,
        None => return Err(DecodeError::Malformed),
    };
    let args = match decoder.decode_format(format, MAX_NESTING) {
        Ok(a) => a,
        Err(e) => return Err(e),
    };
    if decoder.pending > 0 {
        match decoder.read_and_unpack_bools() {
            Ok(_) => {},
            Err(e) => return Err(e),
        }
    }
    let consumed = decoder.reader.pos;
    let frame = Frame {
        level,
        index,
        timestamp_format,
        timestamp_args,
        format,
        args,
        bools: decoder.bools,
    };
    Ok((frame, consumed))
}

} // verus!
