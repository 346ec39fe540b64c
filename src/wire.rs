//! The wire grammar as a function: what decoding a byte stream with a table
//! yields, stated over plain values.
use crate::decoder::{
    bars, bytes_read, disc_width, is_variant, leb_read, params_read, scalar_spec, unpacked,
    ListMode, Scalar, MAX_NESTING, MAX_NUM_BOOL_FLAGS,
};
use crate::stream::le_value;
use crate::decoder::{scalar_of, Arg, Decoder, FormatSliceElement, Frame};
use crate::fragment::{ArgType, Param};
use crate::table::Table;
use vstd::prelude::*;

verus! {

/// The decoder's state between two reads.
pub struct DState {
    /// Bytes read so far.
    pub pos: nat,
    pub mode: ListMode,
    /// The format-string list of the innermost sequence being decoded.
    pub formats: Seq<Seq<char>>,
    /// Next entry of `formats` to hand out in `Use` mode.
    pub cursor: nat,
    /// Whether the decode is inside an enum variant.
    pub below_enum: bool,
    /// The bool slots so far.
    pub bools: Seq<bool>,
    /// How many of the last bools wait for their byte.
    pub pending: nat,
}

/// A decoded argument as plain values.
pub enum ArgM {
    /// A bool, by slot.
    Bool(nat),
    Scalar(Scalar),
    Format { format: Seq<char>, args: Seq<ArgM> },
    FormatSlice { elements: Seq<ElementM> },
}

/// One element of a sequence of structured values, as plain values.
pub struct ElementM {
    pub format: Seq<char>,
    pub args: Seq<ArgM>,
}

/// The bytes not read yet.
pub open spec fn rest(bytes: Seq<u8>, st: DState) -> Seq<u8> {
    bytes.subrange(st.pos as int, bytes.len() as int)
}

/// The `d`-th `|`-separated piece of `s`.
pub open spec fn variant_text(s: Seq<char>, d: nat) -> Seq<char> {
    let ab = choose|ab: (int, int)| is_variant(s, d, ab.0, ab.1);
    s.subrange(ab.0, ab.1)
}

/// Reading the byte of a block of packed bools.
pub open spec fn unpack_spec(bytes: Seq<u8>, st: DState) -> Result<DState, crate::stream::DecodeError> {
    if st.pos >= bytes.len() {
        Err(crate::stream::DecodeError::UnexpectedEof)
    } else {
        Ok(
            DState {
                pos: st.pos + 1,
                bools: st.bools.subrange(0, st.bools.len() - st.pending) + unpacked(
                    bytes[st.pos as int],
                    st.pending,
                ),
                pending: 0,
                ..st
            },
        )
    }
}

/// Getting the next nested format string.
pub open spec fn get_format_spec(table: Table, bytes: Seq<u8>, st: DState) -> Result<
    (DState, Seq<char>),
    crate::stream::DecodeError,
> {
    if st.mode == ListMode::Use && st.cursor < st.formats.len() {
        Ok((DState { cursor: st.cursor + 1, ..st }, st.formats[st.cursor as int]))
    } else {
        match leb_read(rest(bytes, st)) {
            Err(e) => Err(e),
            Ok((i, n)) => match table.without_level(i as usize) {
                None => Err(crate::stream::DecodeError::Malformed),
                Some(f) => Ok(
                    (
                        DState {
                            pos: st.pos + n,
                            formats: if st.mode == ListMode::Build && !st.below_enum {
                                st.formats.push(f)
                            } else {
                                st.formats
                            },
                            ..st
                        },
                        f,
                    ),
                ),
            },
        }
    }
}

/// Reading an enum discriminant and selecting that variant of `format`.
pub open spec fn get_variant_spec(bytes: Seq<u8>, st: DState, format: Seq<char>) -> Result<
    (DState, Seq<char>),
    crate::stream::DecodeError,
> {
    let w = disc_width(bars(format));
    match bytes_read(rest(bytes, st), w) {
        Err(e) => Err(e),
        Ok(b) => if le_value(b) <= bars(format) {
            Ok((DState { pos: st.pos + w, ..st }, variant_text(format, le_value(b))))
        } else {
            Err(crate::stream::DecodeError::Malformed)
        },
    }
}

/// Decoding the argument of one parameter.
pub open spec fn param_spec(table: Table, bytes: Seq<u8>, st: DState, p: Param, depth: nat) -> Result<
    (DState, ArgM),
    crate::stream::DecodeError,
>
    decreases depth, 0nat, 0nat,
{
    match p.ty {
        ArgType::Bool => {
            let st1 = DState { bools: st.bools.push(false), pending: st.pending + 1, ..st };
            if st1.pending == MAX_NUM_BOOL_FLAGS {
                match unpack_spec(bytes, st1) {
                    Ok(st2) => Ok((st2, ArgM::Bool(st.bools.len()))),
                    Err(e) => Err(e),
                }
            } else {
                Ok((st1, ArgM::Bool(st.bools.len())))
            }
        },
        ArgType::Format => if depth == 0 {
            Err(crate::stream::DecodeError::Malformed)
        } else {
            match get_format_spec(table, bytes, st) {
                Err(e) => Err(e),
                Ok((st1, f)) => if bars(f) > 0 {
                    match get_variant_spec(bytes, st1, f) {
                        Err(e) => Err(e),
                        Ok((st2, v)) => match format_spec(
                            table,
                            bytes,
                            DState { below_enum: true, ..st2 },
                            v,
                            (depth - 1) as nat,
                        ) {
                            Err(e) => Err(e),
                            Ok((st3, args)) => Ok(
                                (
                                    DState { below_enum: st2.below_enum, ..st3 },
                                    ArgM::Format { format: v, args },
                                ),
                            ),
                        },
                    }
                } else {
                    match format_spec(table, bytes, st1, f, (depth - 1) as nat) {
                        Err(e) => Err(e),
                        Ok((st2, args)) => Ok((st2, ArgM::Format { format: f, args })),
                    }
                },
            }
        },
        ArgType::FormatSlice => if depth == 0 {
            Err(crate::stream::DecodeError::Malformed)
        } else {
            match leb_read(rest(bytes, st)) {
                Err(e) => Err(e),
                Ok((n, k)) => match slice_spec(
                    table,
                    bytes,
                    DState { pos: st.pos + k, ..st },
                    n as usize as nat,
                    (depth - 1) as nat,
                ) {
                    Err(e) => Err(e),
                    Ok((st1, els)) => Ok((st1, ArgM::FormatSlice { elements: els })),
                },
            }
        },
        ArgType::FormatArray(n) => if depth == 0 {
            Err(crate::stream::DecodeError::Malformed)
        } else {
            match slice_spec(table, bytes, st, n as nat, (depth - 1) as nat) {
                Err(e) => Err(e),
                Ok((st1, els)) => Ok((st1, ArgM::FormatSlice { elements: els })),
            }
        },
        _ => match scalar_spec(table, rest(bytes, st), p.ty) {
            Err(e) => Err(e),
            Ok((s, n)) => Ok((DState { pos: st.pos + n, ..st }, ArgM::Scalar(s))),
        },
    }
}

/// Decoding the arguments of the first `i` parameters of `ps`.
pub open spec fn params_spec(
    table: Table,
    bytes: Seq<u8>,
    st: DState,
    ps: Seq<Param>,
    i: nat,
    depth: nat,
) -> Result<(DState, Seq<ArgM>), crate::stream::DecodeError>
    decreases depth, 1nat, i,
{
    if i == 0 || i > ps.len() {
        Ok((st, Seq::empty()))
    } else {
        match params_spec(table, bytes, st, ps, (i - 1) as nat, depth) {
            Err(e) => Err(e),
            Ok((st1, args)) => match param_spec(table, bytes, st1, ps[i - 1], depth) {
                Err(e) => Err(e),
                Ok((st2, a)) => Ok((st2, args.push(a))),
            },
        }
    }
}

/// Decoding the arguments that `format` describes.
pub open spec fn format_spec(table: Table, bytes: Seq<u8>, st: DState, format: Seq<char>, depth: nat) -> Result<
    (DState, Seq<ArgM>),
    crate::stream::DecodeError,
>
    decreases depth, 2nat, 0nat,
{
    match params_read(format) {
        None => Err(crate::stream::DecodeError::Malformed),
        Some(ps) => params_spec(table, bytes, st, ps, ps.len(), depth),
    }
}

/// Decoding `format` with a list installed, then putting the list state
/// back; also yields the list as the decode left it.
pub open spec fn with_list_spec(
    table: Table,
    bytes: Seq<u8>,
    st: DState,
    mode: ListMode,
    list: Seq<Seq<char>>,
    cursor: nat,
    format: Seq<char>,
    depth: nat,
) -> Result<(DState, Seq<ArgM>, Seq<Seq<char>>), crate::stream::DecodeError>
    decreases depth, 3nat, 0nat,
{
    match format_spec(table, bytes, DState { mode, formats: list, cursor, ..st }, format, depth) {
        Err(e) => Err(e),
        Ok((st1, args)) => Ok(
            (DState { mode: st.mode, formats: st.formats, cursor: st.cursor, ..st1 }, args, st1.formats),
        ),
    }
}

/// Decoding the arguments of one element whose format string, variant
/// picked, is `f`, by the list mode: the state, the arguments, and the list
/// that the first element records with the list position where it began.
pub open spec fn element_args_spec(
    table: Table,
    bytes: Seq<u8>,
    s1: DState,
    f: Seq<char>,
    first: bool,
    built: Seq<Seq<char>>,
    cursor: nat,
    depth: nat,
) -> Result<(DState, Seq<ArgM>, Seq<Seq<char>>, nat), crate::stream::DecodeError>
    decreases depth, 4nat, 0nat,
{
    if s1.mode == ListMode::Use {
        match format_spec(table, bytes, s1, f, depth) {
            Err(e) => Err(e),
            Ok((s2, a)) => Ok((s2, a, built, cursor)),
        }
    } else if s1.mode == ListMode::Build {
        if first {
            match format_spec(table, bytes, s1, f, depth) {
                Err(e) => Err(e),
                Ok((s2, a)) => Ok((s2, a, built, s1.formats.len())),
            }
        } else {
            match with_list_spec(table, bytes, s1, ListMode::Use, s1.formats, cursor, f, depth) {
                Err(e) => Err(e),
                Ok((s2, a, _)) => Ok((s2, a, built, cursor)),
            }
        }
    } else {
        if first {
            match with_list_spec(table, bytes, s1, ListMode::Build, Seq::empty(), 0, f, depth) {
                Err(e) => Err(e),
                Ok((s2, a, l)) => Ok((s2, a, l, cursor)),
            }
        } else {
            match with_list_spec(table, bytes, s1, ListMode::Use, built, 0, f, depth) {
                Err(e) => Err(e),
                Ok((s2, a, _)) => Ok((s2, a, built, cursor)),
            }
        }
    }
}

/// Decoding one element of a sequence whose elements have format string
/// `format` (an enum where it lists variants).
pub open spec fn element_spec(
    table: Table,
    bytes: Seq<u8>,
    s0: DState,
    format: Seq<char>,
    first: bool,
    built: Seq<Seq<char>>,
    cursor: nat,
    depth: nat,
) -> Result<(DState, ElementM, Seq<Seq<char>>, nat), crate::stream::DecodeError>
    decreases depth, 5nat, 0nat,
{
    let picked = if bars(format) > 0 {
        get_variant_spec(bytes, s0, format)
    } else {
        Ok((s0, format))
    };
    match picked {
        Err(e) => Err(e),
        Ok((s1, f)) => match element_args_spec(table, bytes, s1, f, first, built, cursor, depth) {
            Err(e) => Err(e),
            Ok((s2, a, b2, c2)) => Ok((s2, ElementM { format: f, args: a }, b2, c2)),
        },
    }
}

/// The loop over the elements of a sequence: state, elements, the recorded
/// list and its start, after `i` elements.
pub open spec fn elements_spec(
    table: Table,
    bytes: Seq<u8>,
    st: DState,
    format: Seq<char>,
    i: nat,
    depth: nat,
) -> Result<(DState, Seq<ElementM>, Seq<Seq<char>>, nat), crate::stream::DecodeError>
    decreases depth, 6nat, i,
{
    if i == 0 {
        Ok((st, Seq::empty(), Seq::empty(), 0))
    } else {
        match elements_spec(table, bytes, st, format, (i - 1) as nat, depth) {
            Err(e) => Err(e),
            Ok((s0, els, built, cursor)) => match element_spec(
                table,
                bytes,
                s0,
                format,
                i == 1,
                built,
                cursor,
                depth,
            ) {
                Err(e) => Err(e),
                Ok((s2, el, b2, c2)) => Ok((s2, els.push(el), b2, c2)),
            },
        }
    }
}

/// The result of a sequence decode from that of its element loop: the enum
/// flag is put back where the sequence is an enum.
pub open spec fn slice_result(
    r: Result<(DState, Seq<ElementM>, Seq<Seq<char>>, nat), crate::stream::DecodeError>,
    is_enum: bool,
    below_enum: bool,
) -> Result<(DState, Seq<ElementM>), crate::stream::DecodeError> {
    match r {
        Err(e) => Err(e),
        Ok((st3, els, _, _)) => Ok(
            (
                if is_enum {
                    DState { below_enum, ..st3 }
                } else {
                    st3
                },
                els,
            ),
        ),
    }
}

/// Decoding `n` elements of a sequence of structured values.
pub open spec fn slice_spec(table: Table, bytes: Seq<u8>, st: DState, n: nat, depth: nat) -> Result<
    (DState, Seq<ElementM>),
    crate::stream::DecodeError,
>
    decreases depth, 7nat, 0nat,
{
    if n == 0 {
        Ok((st, Seq::empty()))
    } else {
        match get_format_spec(table, bytes, st) {
            Err(e) => Err(e),
            Ok((st1, f)) => {
                let is_enum = bars(f) > 0;
                let st2 = if is_enum {
                    DState { below_enum: true, ..st1 }
                } else {
                    st1
                };
                slice_result(elements_spec(table, bytes, st2, f, n, depth), is_enum, st.below_enum)
            },
        }
    }
}

/// A decoded argument as plain values.
pub open spec fn arg_model(a: Arg) -> ArgM
    decreases a, 0nat,
{
    match a {
        Arg::Bool(slot) => ArgM::Bool(slot as nat),
        Arg::Format { format, args } => ArgM::Format {
            format: format@,
            args: args_model(args@, args@.len()),
        },
        Arg::FormatSlice { elements } => ArgM::FormatSlice {
            elements: elements_model(elements@, elements@.len()),
        },
        _ => ArgM::Scalar(scalar_of(a)->0),
    }
}

/// The first `n` arguments of `s` as plain values.
pub open spec fn args_model(s: Seq<Arg>, n: nat) -> Seq<ArgM>
    decreases s, n,
{
    if n == 0 || n > s.len() {
        Seq::empty()
    } else {
        args_model(s, (n - 1) as nat).push(arg_model(s[n - 1]))
    }
}

/// The first `n` elements of `s` as plain values.
pub open spec fn elements_model(s: Seq<FormatSliceElement>, n: nat) -> Seq<ElementM>
    decreases s, n,
{
    if n == 0 || n > s.len() {
        Seq::empty()
    } else {
        elements_model(s, (n - 1) as nat).push(
            ElementM { format: s[n - 1].format@, args: args_model(s[n - 1].args@, s[n - 1].args@.len()) },
        )
    }
}

/// The arguments of `s` as plain values.
pub open spec fn args_of(s: Seq<Arg>) -> Seq<ArgM> {
    args_model(s, s.len())
}

/// The elements of `s` as plain values.
pub open spec fn elements_of(s: Seq<FormatSliceElement>) -> Seq<ElementM> {
    elements_model(s, s.len())
}

pub proof fn lemma_args_push(s: Seq<Arg>, x: Arg)
    ensures
        args_of(s.push(x)) == args_of(s).push(arg_model(x)),
{
    lemma_args_prefix(s, x, s.len());
}

proof fn lemma_args_prefix(s: Seq<Arg>, x: Arg, k: nat)
    requires
        k <= s.len(),
    ensures
        args_model(s.push(x), k) == args_model(s, k),
    decreases k,
{
    if k > 0 {
        lemma_args_prefix(s, x, (k - 1) as nat);
        assert(s.push(x)[k - 1] == s[k - 1]);
    }
}

pub proof fn lemma_elements_push(s: Seq<FormatSliceElement>, x: FormatSliceElement)
    ensures
        elements_of(s.push(x)) == elements_of(s).push(
            ElementM { format: x.format@, args: args_of(x.args@) },
        ),
{
    lemma_elements_prefix(s, x, s.len());
}

proof fn lemma_elements_prefix(s: Seq<FormatSliceElement>, x: FormatSliceElement, k: nat)
    requires
        k <= s.len(),
    ensures
        elements_model(s.push(x), k) == elements_model(s, k),
    decreases k,
{
    if k > 0 {
        lemma_elements_prefix(s, x, (k - 1) as nat);
        assert(s.push(x)[k - 1] == s[k - 1]);
    }
}

/// A list of format strings as plain values.
pub open spec fn list_of(v: Seq<&str>) -> Seq<Seq<char>> {
    v.map_values(|s: &str| s@)
}

impl<'t, 'b> Decoder<'t, 'b> {
    /// The decoder's state as plain values.
    pub open spec fn model(&self) -> DState {
        DState {
            pos: self.reader.pos as nat,
            mode: self.mode,
            formats: list_of(self.formats@),
            cursor: self.cursor as nat,
            below_enum: self.below_enum,
            bools: self.bools@,
            pending: self.pending as nat,
        }
    }
}

pub proof fn lemma_params_err(
    table: Table,
    bytes: Seq<u8>,
    st: DState,
    ps: Seq<Param>,
    i: nat,
    j: nat,
    depth: nat,
)
    requires
        0 < i <= j <= ps.len(),
        params_spec(table, bytes, st, ps, i, depth) is Err,
    ensures
        params_spec(table, bytes, st, ps, j, depth) == params_spec(table, bytes, st, ps, i, depth),
    decreases j - i,
{
    if j > i {
        lemma_params_err(table, bytes, st, ps, i, (j - 1) as nat, depth);
    }
}

pub proof fn lemma_elements_step_err(
    table: Table,
    bytes: Seq<u8>,
    st: DState,
    format: Seq<char>,
    i: nat,
    depth: nat,
    s0: DState,
    els: Seq<ElementM>,
    built: Seq<Seq<char>>,
    cursor: nat,
    e: crate::stream::DecodeError,
)
    requires
        elements_spec(table, bytes, st, format, i, depth) == Ok::<
            (DState, Seq<ElementM>, Seq<Seq<char>>, nat),
            crate::stream::DecodeError,
        >((s0, els, built, cursor)),
        element_spec(table, bytes, s0, format, i == 0, built, cursor, depth) == Err::<
            (DState, ElementM, Seq<Seq<char>>, nat),
            crate::stream::DecodeError,
        >(e),
    ensures
        elements_spec(table, bytes, st, format, i + 1, depth) == Err::<
            (DState, Seq<ElementM>, Seq<Seq<char>>, nat),
            crate::stream::DecodeError,
        >(e),
{
    assert(((i + 1) as nat - 1) as nat == i);
}

pub proof fn lemma_elements_step_ok(
    table: Table,
    bytes: Seq<u8>,
    st: DState,
    format: Seq<char>,
    i: nat,
    depth: nat,
    s0: DState,
    els: Seq<ElementM>,
    built: Seq<Seq<char>>,
    cursor: nat,
    s2: DState,
    el: ElementM,
    b2: Seq<Seq<char>>,
    c2: nat,
)
    requires
        elements_spec(table, bytes, st, format, i, depth) == Ok::<
            (DState, Seq<ElementM>, Seq<Seq<char>>, nat),
            crate::stream::DecodeError,
        >((s0, els, built, cursor)),
        element_spec(table, bytes, s0, format, i == 0, built, cursor, depth) == Ok::<
            (DState, ElementM, Seq<Seq<char>>, nat),
            crate::stream::DecodeError,
        >((s2, el, b2, c2)),
    ensures
        elements_spec(table, bytes, st, format, i + 1, depth) == Ok::<
            (DState, Seq<ElementM>, Seq<Seq<char>>, nat),
            crate::stream::DecodeError,
        >((s2, els.push(el), b2, c2)),
{
    assert(((i + 1) as nat - 1) as nat == i);
}

pub proof fn lemma_elements_err(
    table: Table,
    bytes: Seq<u8>,
    st: DState,
    format: Seq<char>,
    i: nat,
    j: nat,
    depth: nat,
)
    requires
        0 < i <= j,
        elements_spec(table, bytes, st, format, i, depth) is Err,
    ensures
        elements_spec(table, bytes, st, format, j, depth) == elements_spec(table, bytes, st, format, i, depth),
    decreases j - i,
{
    if j > i {
        lemma_elements_err(table, bytes, st, format, i, (j - 1) as nat, depth);
    }
}

/// A decoded frame as plain values.
pub struct FrameM {
    pub level: defmt_parser::Level,
    pub index: u64,
    pub timestamp_format: Option<Seq<char>>,
    pub timestamp_args: Seq<ArgM>,
    pub format: Seq<char>,
    pub args: Seq<ArgM>,
    pub bools: Seq<bool>,
}

pub open spec fn frame_model(f: Frame) -> FrameM {
    FrameM {
        level: f.level,
        index: f.index,
        timestamp_format: match f.timestamp_format {
            Some(s) => Some(s@),
            None => None,
        },
        timestamp_args: args_of(f.timestamp_args@),
        format: f.format@,
        args: args_of(f.args@),
        bools: f.bools@,
    }
}

/// The state of a frame decode once the log index, `pos` bytes, is read.
pub open spec fn start_state(pos: nat) -> DState {
    DState {
        pos,
        mode: ListMode::Off,
        formats: Seq::empty(),
        cursor: 0,
        below_enum: false,
        bools: Seq::empty(),
        pending: 0,
    }
}

/// Decoding the timestamp, where the table has a timestamp format.
pub open spec fn timestamp_spec(table: Table, bytes: Seq<u8>, st: DState) -> Result<
    (DState, Option<Seq<char>>, Seq<ArgM>),
    crate::stream::DecodeError,
> {
    match table.timestamp {
        Some(e) => match format_spec(table, bytes, st, e.string.string@, MAX_NESTING as nat) {
            Ok((st1, a)) => Ok((st1, Some(e.string.string@), a)),
            Err(x) => Err(x),
        },
        None => Ok((st, None, Seq::empty())),
    }
}

/// Decoding one frame from the front of `bytes`: the frame and the number of
/// bytes it takes. In order: the log index; the timestamp, where the table
/// has a timestamp format; the entry of the index, which must bear a level;
/// that entry's arguments; the byte of the last block of packed bools, where
/// bools still wait for it.
pub open spec fn decode_spec(table: Table, bytes: Seq<u8>) -> Result<(FrameM, nat), crate::stream::DecodeError> {
    match leb_read(bytes) {
        Err(e) => Err(e),
        Ok((index, n)) => match timestamp_spec(table, bytes, start_state(n)) {
            Err(e) => Err(e),
            Ok((st1, tf, targs)) => match table.with_level(index as usize) {
                None => Err(crate::stream::DecodeError::Malformed),
                Some((level, format)) => match format_spec(table, bytes, st1, format, MAX_NESTING as nat) {
                    Err(e) => Err(e),
                    Ok((st2, args)) => {
                        let fin = if st2.pending > 0 {
                            unpack_spec(bytes, st2)
                        } else {
                            Ok(st2)
                        };
                        match fin {
                            Err(e) => Err(e),
                            Ok(st3) => Ok(
                                (
                                    FrameM {
                                        level,
                                        index,
                                        timestamp_format: tf,
                                        timestamp_args: targs,
                                        format,
                                        args,
                                        bools: st3.bools,
                                    },
                                    st3.pos,
                                ),
                            ),
                        }
                    },
                },
            },
        },
    }
}

} // verus!
