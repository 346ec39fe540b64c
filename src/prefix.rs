//! A frame's decode reads no byte past the bytes it reports as consumed.
use crate::decoder::{
    bytes_read, has_terminator, leb_end, leb_read, lemma_leb_end_unique, scalar_spec, terminator,
    ListMode,
};
use crate::fragment::{ArgType, Param};
use crate::stream::{leb_fits, leb_has_end, leb_terminated_at, leb_value};
use crate::table::Table;
use crate::wire::{
    decode_spec, start_state, timestamp_spec,
    element_args_spec, element_spec, elements_spec, format_spec, get_format_spec, get_variant_spec,
    param_spec, params_spec, rest, slice_spec, unpack_spec, with_list_spec, DState,
};
use vstd::prelude::*;

verus! {

/// Whether `b1` and `b2` hold the same first `k` bytes.
pub open spec fn agree(b1: Seq<u8>, b2: Seq<u8>, k: nat) -> bool {
    k <= b1.len() && k <= b2.len() && b1.subrange(0, k as int) == b2.subrange(0, k as int)
}

proof fn lemma_agree_index(b1: Seq<u8>, b2: Seq<u8>, k: nat, i: int)
    requires
        agree(b1, b2, k),
        0 <= i < k,
    ensures
        b1[i] == b2[i],
{
    assert(b1.subrange(0, k as int)[i] == b2.subrange(0, k as int)[i]);
}

proof fn lemma_leb_value_prefix(s1: Seq<u8>, s2: Seq<u8>, n: nat)
    requires
        n <= s1.len(),
        n <= s2.len(),
        forall|i: int| 0 <= i < n ==> s1[i] == s2[i],
    ensures
        leb_value(s1, n) == leb_value(s2, n),
    decreases n,
{
    if n > 0 {
        lemma_leb_value_prefix(s1, s2, (n - 1) as nat);
    }
}

proof fn lemma_leb_prefix(s1: Seq<u8>, s2: Seq<u8>)
    requires
        leb_read(s1) is Ok,
        leb_read(s1)->Ok_0.1 <= s2.len(),
        forall|i: int| 0 <= i < leb_read(s1)->Ok_0.1 ==> s1[i] == s2[i],
    ensures
        leb_read(s2) == leb_read(s1),
{
    let t = leb_end(s1);
    assert(leb_terminated_at(s1, t));
    assert(leb_terminated_at(s2, t));
    lemma_leb_end_unique(s2, t);
    lemma_leb_value_prefix(s1, s2, (t + 1) as nat);
}

proof fn lemma_rest_agree(b1: Seq<u8>, b2: Seq<u8>, st: DState, k: nat)
    requires
        agree(b1, b2, k),
        st.pos <= k,
    ensures
        forall|i: int|
            0 <= i < k - st.pos ==> #[trigger] rest(b1, st)[i] == rest(b2, st)[i],
        rest(b1, st).len() >= k - st.pos,
        rest(b2, st).len() >= k - st.pos,
{
    assert forall|i: int| 0 <= i < k - st.pos implies #[trigger] rest(b1, st)[i] == rest(b2, st)[i] by {
        lemma_agree_index(b1, b2, k, st.pos + i);
    }
}

proof fn lemma_first_terminator(s: Seq<u8>, i: int)
    requires
        0 <= i < s.len(),
        s[i] == 0xFF,
    ensures
        exists|c: int| 0 <= c < s.len() && s[c] == 0xFF && forall|j: int| 0 <= j < c ==> s[j] != 0xFF,
    decreases i,
{
    if exists|j: int| 0 <= j < i && s[j] == 0xFF {
        let j = choose|j: int| 0 <= j < i && s[j] == 0xFF;
        lemma_first_terminator(s, j);
    } else {
        assert(0 <= i < s.len() && s[i] == 0xFF && forall|j: int| 0 <= j < i ==> s[j] != 0xFF);
    }
}

proof fn lemma_scalar_prefix(table: Table, s1: Seq<u8>, s2: Seq<u8>, ty: ArgType)
    requires
        scalar_spec(table, s1, ty) is Ok,
        scalar_spec(table, s1, ty)->Ok_0.1 <= s2.len(),
        forall|i: int| 0 <= i < scalar_spec(table, s1, ty)->Ok_0.1 ==> s1[i] == s2[i],
    ensures
        scalar_spec(table, s2, ty) == scalar_spec(table, s1, ty),
{
    let n = scalar_spec(table, s1, ty)->Ok_0.1;
    match ty {
        ArgType::Usize | ArgType::Isize | ArgType::IStr => {
            lemma_leb_prefix(s1, s2);
        },
        ArgType::Str | ArgType::U8Slice => {
            lemma_leb_prefix(s1, s2);
            let m = leb_read(s1)->Ok_0.1;
            let len = leb_read(s1)->Ok_0.0 as usize as nat;
            let r1 = s1.subrange(m as int, s1.len() as int);
            let r2 = s2.subrange(m as int, s2.len() as int);
            assert(r1.subrange(0, len as int) =~= r2.subrange(0, len as int));
        },
        ArgType::Debug | ArgType::Display => {
            let i1 = choose|i: int| 0 <= i < s1.len() && s1[i] == 0xFF;
            lemma_first_terminator(s1, i1);
            let k = terminator(s1);
            assert(0 <= k < s1.len() && s1[k] == 0xFF && forall|j: int| 0 <= j < k ==> s1[j] != 0xFF);
            assert(s2[k] == 0xFF);
            assert(has_terminator(s2));
            lemma_first_terminator(s2, k);
            let k2 = terminator(s2);
            assert(0 <= k2 < s2.len() && s2[k2] == 0xFF && forall|j: int| 0 <= j < k2 ==> s2[j] != 0xFF);
            if k2 < k {
                assert(s1[k2] == s2[k2]);
            }
            if k < k2 {
                assert(s2[k] != 0xFF);
            }
            assert(s1.subrange(0, k) =~= s2.subrange(0, k));
        },
        _ => {
            let w = match ty {
                ArgType::BitField { start, end } => crate::decoder::bitfield_width(start, end),
                ArgType::U8Array(len) => len as nat,
                ArgType::F32 | ArgType::Char => 4,
                ArgType::F64 => 8,
                _ => crate::decoder::int_width(ty),
            };
            assert(s1.subrange(0, w as int) =~= s2.subrange(0, w as int));
        },
    }
}

proof fn lemma_get_format_prefix(table: Table, b1: Seq<u8>, b2: Seq<u8>, st: DState, k: nat)
    requires
        get_format_spec(table, b1, st) is Ok,
        get_format_spec(table, b1, st)->Ok_0.0.pos <= k,
        agree(b1, b2, k),
    ensures
        get_format_spec(table, b2, st) == get_format_spec(table, b1, st),
        get_format_spec(table, b1, st)->Ok_0.0.pos >= st.pos,
{
    if !(st.mode == ListMode::Use && st.cursor < st.formats.len()) {
        lemma_rest_agree(b1, b2, st, k);
        lemma_leb_prefix(rest(b1, st), rest(b2, st));
    }
}

proof fn lemma_get_variant_prefix(b1: Seq<u8>, b2: Seq<u8>, st: DState, f: Seq<char>, k: nat)
    requires
        get_variant_spec(b1, st, f) is Ok,
        get_variant_spec(b1, st, f)->Ok_0.0.pos <= k,
        agree(b1, b2, k),
    ensures
        get_variant_spec(b2, st, f) == get_variant_spec(b1, st, f),
        get_variant_spec(b1, st, f)->Ok_0.0.pos >= st.pos,
{
    lemma_rest_agree(b1, b2, st, k);
    let w = crate::decoder::disc_width(crate::decoder::bars(f));
    assert(rest(b1, st).subrange(0, w as int) =~= rest(b2, st).subrange(0, w as int));
}

proof fn lemma_unpack_prefix(b1: Seq<u8>, b2: Seq<u8>, st: DState, k: nat)
    requires
        unpack_spec(b1, st) is Ok,
        unpack_spec(b1, st)->Ok_0.pos <= k,
        agree(b1, b2, k),
    ensures
        unpack_spec(b2, st) == unpack_spec(b1, st),
{
    lemma_agree_index(b1, b2, k, st.pos as int);
}

proof fn lemma_param_prefix(table: Table, b1: Seq<u8>, b2: Seq<u8>, st: DState, p: Param, depth: nat, k: nat)
    requires
        param_spec(table, b1, st, p, depth) is Ok,
        param_spec(table, b1, st, p, depth)->Ok_0.0.pos <= k,
        agree(b1, b2, k),
    ensures
        param_spec(table, b2, st, p, depth) == param_spec(table, b1, st, p, depth),
        param_spec(table, b1, st, p, depth)->Ok_0.0.pos >= st.pos,
    decreases depth, 0nat, 0nat,
{
    let r = param_spec(table, b1, st, p, depth);
    match p.ty {
        ArgType::Bool => {
            let st1 = DState { bools: st.bools.push(false), pending: st.pending + 1, ..st };
            if st1.pending == crate::decoder::MAX_NUM_BOOL_FLAGS {
                lemma_unpack_prefix(b1, b2, st1, k);
            }
        },
        ArgType::Format => {
            let (st1, f) = get_format_spec(table, b1, st)->Ok_0;
            if crate::decoder::bars(f) > 0 {
                let (st2, v) = get_variant_spec(b1, st1, f)->Ok_0;
                let st2b = DState { below_enum: true, ..st2 };
                lemma_format_prefix(table, b1, b2, st2b, v, (depth - 1) as nat, k);
                lemma_get_variant_prefix(b1, b2, st1, f, k);
                lemma_get_format_prefix(table, b1, b2, st, k);
            } else {
                lemma_format_prefix(table, b1, b2, st1, f, (depth - 1) as nat, k);
                lemma_get_format_prefix(table, b1, b2, st, k);
            }
        },
        ArgType::FormatSlice => {
            let (n, m) = crate::decoder::leb_read(rest(b1, st))->Ok_0;
            let st1 = DState { pos: st.pos + m, ..st };
            lemma_slice_prefix(table, b1, b2, st1, #[verifier::truncate] (n as usize) as nat, (depth - 1) as nat, k);
            lemma_rest_agree(b1, b2, st, k);
            lemma_leb_prefix(rest(b1, st), rest(b2, st));
        },
        ArgType::FormatArray(n) => {
            lemma_slice_prefix(table, b1, b2, st, n as nat, (depth - 1) as nat, k);
        },
        _ => {
            lemma_rest_agree(b1, b2, st, k);
            lemma_scalar_prefix(table, rest(b1, st), rest(b2, st), p.ty);
        },
    }
}

proof fn lemma_params_prefix(table: Table, b1: Seq<u8>, b2: Seq<u8>, st: DState, ps: Seq<Param>, i: nat, depth: nat, k: nat)
    requires
        params_spec(table, b1, st, ps, i, depth) is Ok,
        params_spec(table, b1, st, ps, i, depth)->Ok_0.0.pos <= k,
        agree(b1, b2, k),
    ensures
        params_spec(table, b2, st, ps, i, depth) == params_spec(table, b1, st, ps, i, depth),
        params_spec(table, b1, st, ps, i, depth)->Ok_0.0.pos >= st.pos,
    decreases depth, 1nat, i,
{
    if i > 0 && i <= ps.len() {
        let (st1, _) = params_spec(table, b1, st, ps, (i - 1) as nat, depth)->Ok_0;
        lemma_param_prefix(table, b1, b2, st1, ps[i - 1], depth, k);
        lemma_params_prefix(table, b1, b2, st, ps, (i - 1) as nat, depth, k);
    }
}

proof fn lemma_format_prefix(table: Table, b1: Seq<u8>, b2: Seq<u8>, st: DState, format: Seq<char>, depth: nat, k: nat)
    requires
        format_spec(table, b1, st, format, depth) is Ok,
        format_spec(table, b1, st, format, depth)->Ok_0.0.pos <= k,
        agree(b1, b2, k),
    ensures
        format_spec(table, b2, st, format, depth) == format_spec(table, b1, st, format, depth),
        format_spec(table, b1, st, format, depth)->Ok_0.0.pos >= st.pos,
    decreases depth, 2nat, 0nat,
{
    let ps = crate::decoder::params_read(format)->0;
    lemma_params_prefix(table, b1, b2, st, ps, ps.len(), depth, k);
}

proof fn lemma_with_list_prefix(
    table: Table,
    b1: Seq<u8>,
    b2: Seq<u8>,
    st: DState,
    mode: ListMode,
    list: Seq<Seq<char>>,
    cursor: nat,
    format: Seq<char>,
    depth: nat,
    k: nat,
)
    requires
        with_list_spec(table, b1, st, mode, list, cursor, format, depth) is Ok,
        with_list_spec(table, b1, st, mode, list, cursor, format, depth)->Ok_0.0.pos <= k,
        agree(b1, b2, k),
    ensures
        with_list_spec(table, b2, st, mode, list, cursor, format, depth) == with_list_spec(
            table,
            b1,
            st,
            mode,
            list,
            cursor,
            format,
            depth,
        ),
        with_list_spec(table, b1, st, mode, list, cursor, format, depth)->Ok_0.0.pos >= st.pos,
    decreases depth, 3nat, 0nat,
{
    lemma_format_prefix(table, b1, b2, DState { mode, formats: list, cursor, ..st }, format, depth, k);
}

proof fn lemma_element_args_prefix(
    table: Table,
    b1: Seq<u8>,
    b2: Seq<u8>,
    st: DState,
    f: Seq<char>,
    first: bool,
    built: Seq<Seq<char>>,
    cursor: nat,
    depth: nat,
    k: nat,
)
    requires
        element_args_spec(table, b1, st, f, first, built, cursor, depth) is Ok,
        element_args_spec(table, b1, st, f, first, built, cursor, depth)->Ok_0.0.pos <= k,
        agree(b1, b2, k),
    ensures
        element_args_spec(table, b2, st, f, first, built, cursor, depth) == element_args_spec(
            table,
            b1,
            st,
            f,
            first,
            built,
            cursor,
            depth,
        ),
        element_args_spec(table, b1, st, f, first, built, cursor, depth)->Ok_0.0.pos >= st.pos,
    decreases depth, 4nat, 0nat,
{
    if st.mode == ListMode::Use || (st.mode == ListMode::Build && first) {
        lemma_format_prefix(table, b1, b2, st, f, depth, k);
    } else if st.mode == ListMode::Build {
        lemma_with_list_prefix(table, b1, b2, st, ListMode::Use, st.formats, cursor, f, depth, k);
    } else if first {
        lemma_with_list_prefix(table, b1, b2, st, ListMode::Build, Seq::empty(), 0, f, depth, k);
    } else {
        lemma_with_list_prefix(table, b1, b2, st, ListMode::Use, built, 0, f, depth, k);
    }
}

#[verifier::rlimit(100)]
proof fn lemma_element_prefix(
    table: Table,
    b1: Seq<u8>,
    b2: Seq<u8>,
    st: DState,
    format: Seq<char>,
    first: bool,
    built: Seq<Seq<char>>,
    cursor: nat,
    depth: nat,
    k: nat,
)
    requires
        element_spec(table, b1, st, format, first, built, cursor, depth) is Ok,
        element_spec(table, b1, st, format, first, built, cursor, depth)->Ok_0.0.pos <= k,
        agree(b1, b2, k),
    ensures
        element_spec(table, b2, st, format, first, built, cursor, depth) == element_spec(
            table,
            b1,
            st,
            format,
            first,
            built,
            cursor,
            depth,
        ),
        element_spec(table, b1, st, format, first, built, cursor, depth)->Ok_0.0.pos >= st.pos,
    decreases depth, 5nat, 0nat,
{
    if crate::decoder::bars(format) > 0 {
        let (s1, f) = get_variant_spec(b1, st, format)->Ok_0;
        lemma_element_args_prefix(table, b1, b2, s1, f, first, built, cursor, depth, k);
        lemma_get_variant_prefix(b1, b2, st, format, k);
    } else {
        lemma_element_args_prefix(table, b1, b2, st, format, first, built, cursor, depth, k);
    }
}

#[verifier::rlimit(100)]
proof fn lemma_elements_prefix(
    table: Table,
    b1: Seq<u8>,
    b2: Seq<u8>,
    st: DState,
    format: Seq<char>,
    i: nat,
    depth: nat,
    k: nat,
)
    requires
        elements_spec(table, b1, st, format, i, depth) is Ok,
        elements_spec(table, b1, st, format, i, depth)->Ok_0.0.pos <= k,
        agree(b1, b2, k),
    ensures
        elements_spec(table, b2, st, format, i, depth) == elements_spec(table, b1, st, format, i, depth),
        elements_spec(table, b1, st, format, i, depth)->Ok_0.0.pos >= st.pos,
    decreases depth, 6nat, i,
{
    if i > 0 {
        let (s0, _, built, cursor) = elements_spec(table, b1, st, format, (i - 1) as nat, depth)->Ok_0;
        lemma_element_prefix(table, b1, b2, s0, format, i == 1, built, cursor, depth, k);
        lemma_elements_prefix(table, b1, b2, st, format, (i - 1) as nat, depth, k);
    }
}

proof fn lemma_slice_prefix(table: Table, b1: Seq<u8>, b2: Seq<u8>, st: DState, n: nat, depth: nat, k: nat)
    requires
        slice_spec(table, b1, st, n, depth) is Ok,
        slice_spec(table, b1, st, n, depth)->Ok_0.0.pos <= k,
        agree(b1, b2, k),
    ensures
        slice_spec(table, b2, st, n, depth) == slice_spec(table, b1, st, n, depth),
        slice_spec(table, b1, st, n, depth)->Ok_0.0.pos >= st.pos,
    decreases depth, 7nat, 0nat,
{
    if n > 0 {
        let (st1, f) = get_format_spec(table, b1, st)->Ok_0;
        let st2 = if crate::decoder::bars(f) > 0 {
            DState { below_enum: true, ..st1 }
        } else {
            st1
        };
        lemma_elements_prefix(table, b1, b2, st2, f, n, depth, k);
        lemma_get_format_prefix(table, b1, b2, st, k);
    }
}

proof fn lemma_scalar_bound(table: Table, s1: Seq<u8>, ty: ArgType)
    requires
        scalar_spec(table, s1, ty) is Ok,
    ensures
        scalar_spec(table, s1, ty)->Ok_0.1 <= s1.len(),
{
    match ty {
        ArgType::Debug | ArgType::Display => {
            let i1 = choose|i: int| 0 <= i < s1.len() && s1[i] == 0xFF;
            lemma_first_terminator(s1, i1);
        },
        _ => {},
    }
}

proof fn lemma_param_bound(table: Table, b: Seq<u8>, st: DState, p: Param, depth: nat)
    requires
        param_spec(table, b, st, p, depth) is Ok,
        st.pos <= b.len(),
    ensures
        param_spec(table, b, st, p, depth)->Ok_0.0.pos <= b.len(),
    decreases depth, 0nat, 0nat,
{
    match p.ty {
        ArgType::Bool => {},
        ArgType::Format => {
            let (st1, f) = get_format_spec(table, b, st)->Ok_0;
            if crate::decoder::bars(f) > 0 {
                let (st2, v) = get_variant_spec(b, st1, f)->Ok_0;
                lemma_format_bound(table, b, DState { below_enum: true, ..st2 }, v, (depth - 1) as nat);
            } else {
                lemma_format_bound(table, b, st1, f, (depth - 1) as nat);
            }
        },
        ArgType::FormatSlice => {
            let (n, m) = crate::decoder::leb_read(rest(b, st))->Ok_0;
            lemma_slice_bound(table, b, DState { pos: st.pos + m, ..st }, #[verifier::truncate] (n as usize) as nat, (depth - 1) as nat);
        },
        ArgType::FormatArray(n) => {
            lemma_slice_bound(table, b, st, n as nat, (depth - 1) as nat);
        },
        _ => {
            lemma_scalar_bound(table, rest(b, st), p.ty);
        },
    }
}

proof fn lemma_params_bound(table: Table, b: Seq<u8>, st: DState, ps: Seq<Param>, i: nat, depth: nat)
    requires
        params_spec(table, b, st, ps, i, depth) is Ok,
        st.pos <= b.len(),
    ensures
        params_spec(table, b, st, ps, i, depth)->Ok_0.0.pos <= b.len(),
    decreases depth, 1nat, i,
{
    if i > 0 && i <= ps.len() {
        lemma_params_bound(table, b, st, ps, (i - 1) as nat, depth);
        let (st1, _) = params_spec(table, b, st, ps, (i - 1) as nat, depth)->Ok_0;
        lemma_param_bound(table, b, st1, ps[i - 1], depth);
    }
}

proof fn lemma_format_bound(table: Table, b: Seq<u8>, st: DState, format: Seq<char>, depth: nat)
    requires
        format_spec(table, b, st, format, depth) is Ok,
        st.pos <= b.len(),
    ensures
        format_spec(table, b, st, format, depth)->Ok_0.0.pos <= b.len(),
    decreases depth, 2nat, 0nat,
{
    let ps = crate::decoder::params_read(format)->0;
    lemma_params_bound(table, b, st, ps, ps.len(), depth);
}

proof fn lemma_with_list_bound(
    table: Table,
    b: Seq<u8>,
    st: DState,
    mode: ListMode,
    list: Seq<Seq<char>>,
    cursor: nat,
    format: Seq<char>,
    depth: nat,
)
    requires
        with_list_spec(table, b, st, mode, list, cursor, format, depth) is Ok,
        st.pos <= b.len(),
    ensures
        with_list_spec(table, b, st, mode, list, cursor, format, depth)->Ok_0.0.pos <= b.len(),
    decreases depth, 3nat, 0nat,
{
    lemma_format_bound(table, b, DState { mode, formats: list, cursor, ..st }, format, depth);
}

proof fn lemma_element_args_bound(
    table: Table,
    b: Seq<u8>,
    st: DState,
    f: Seq<char>,
    first: bool,
    built: Seq<Seq<char>>,
    cursor: nat,
    depth: nat,
)
    requires
        element_args_spec(table, b, st, f, first, built, cursor, depth) is Ok,
        st.pos <= b.len(),
    ensures
        element_args_spec(table, b, st, f, first, built, cursor, depth)->Ok_0.0.pos <= b.len(),
    decreases depth, 4nat, 0nat,
{
    if st.mode == ListMode::Use || (st.mode == ListMode::Build && first) {
        lemma_format_bound(table, b, st, f, depth);
    } else if st.mode == ListMode::Build {
        lemma_with_list_bound(table, b, st, ListMode::Use, st.formats, cursor, f, depth);
    } else if first {
        lemma_with_list_bound(table, b, st, ListMode::Build, Seq::empty(), 0, f, depth);
    } else {
        lemma_with_list_bound(table, b, st, ListMode::Use, built, 0, f, depth);
    }
}

#[verifier::rlimit(100)]
proof fn lemma_element_bound(
    table: Table,
    b: Seq<u8>,
    st: DState,
    format: Seq<char>,
    first: bool,
    built: Seq<Seq<char>>,
    cursor: nat,
    depth: nat,
)
    requires
        element_spec(table, b, st, format, first, built, cursor, depth) is Ok,
        st.pos <= b.len(),
    ensures
        element_spec(table, b, st, format, first, built, cursor, depth)->Ok_0.0.pos <= b.len(),
    decreases depth, 5nat, 0nat,
{
    if crate::decoder::bars(format) > 0 {
        let (s1, f) = get_variant_spec(b, st, format)->Ok_0;
        lemma_element_args_bound(table, b, s1, f, first, built, cursor, depth);
    } else {
        lemma_element_args_bound(table, b, st, format, first, built, cursor, depth);
    }
}

#[verifier::rlimit(100)]
proof fn lemma_elements_bound(
    table: Table,
    b: Seq<u8>,
    st: DState,
    format: Seq<char>,
    i: nat,
    depth: nat,
)
    requires
        elements_spec(table, b, st, format, i, depth) is Ok,
        st.pos <= b.len(),
    ensures
        elements_spec(table, b, st, format, i, depth)->Ok_0.0.pos <= b.len(),
    decreases depth, 6nat, i,
{
    if i > 0 {
        lemma_elements_bound(table, b, st, format, (i - 1) as nat, depth);
        let (s0, _, built, cursor) = elements_spec(table, b, st, format, (i - 1) as nat, depth)->Ok_0;
        lemma_element_bound(table, b, s0, format, i == 1, built, cursor, depth);
    }
}

proof fn lemma_slice_bound(table: Table, b: Seq<u8>, st: DState, n: nat, depth: nat)
    requires
        slice_spec(table, b, st, n, depth) is Ok,
        st.pos <= b.len(),
    ensures
        slice_spec(table, b, st, n, depth)->Ok_0.0.pos <= b.len(),
    decreases depth, 7nat, 0nat,
{
    if n > 0 {
        let (st1, f) = get_format_spec(table, b, st)->Ok_0;
        let st2 = if crate::decoder::bars(f) > 0 {
            DState { below_enum: true, ..st1 }
        } else {
            st1
        };
        lemma_elements_bound(table, b, st2, f, n, depth);
    }
}

proof fn lemma_leb_malformed(s1: Seq<u8>, s2: Seq<u8>)
    requires
        leb_read(s1) == Err::<(u64, nat), crate::stream::DecodeError>(crate::stream::DecodeError::Malformed),
        s1.len() <= s2.len(),
        forall|i: int| 0 <= i < s1.len() ==> s1[i] == s2[i],
    ensures
        leb_read(s2) == leb_read(s1),
{
    let t = leb_end(s1);
    assert(leb_terminated_at(s1, t));
    assert(leb_terminated_at(s2, t));
    lemma_leb_end_unique(s2, t);
    if t == 9 {
        assert(s1[9] == s2[9]);
    }
}

proof fn lemma_leb_ok_within(s: Seq<u8>)
    requires
        leb_read(s) is Ok,
    ensures
        leb_read(s)->Ok_0.1 <= s.len(),
{
    assert(leb_terminated_at(s, leb_end(s)));
}

proof fn lemma_scalar_malformed(table: Table, s1: Seq<u8>, s2: Seq<u8>, ty: ArgType)
    requires
        scalar_spec(table, s1, ty) == Err::<(crate::decoder::Scalar, nat), crate::stream::DecodeError>(
            crate::stream::DecodeError::Malformed,
        ),
        s1.len() <= s2.len(),
        forall|i: int| 0 <= i < s1.len() ==> s1[i] == s2[i],
    ensures
        scalar_spec(table, s2, ty) == scalar_spec(table, s1, ty),
{
    match ty {
        ArgType::Usize | ArgType::Isize | ArgType::IStr => {
            if leb_read(s1) is Ok {
                lemma_leb_ok_within(s1);
                lemma_leb_prefix(s1, s2);
            } else {
                lemma_leb_malformed(s1, s2);
            }
        },
        ArgType::Str | ArgType::U8Slice => {
            if leb_read(s1) is Ok {
                lemma_leb_ok_within(s1);
                lemma_leb_prefix(s1, s2);
                let m = leb_read(s1)->Ok_0.1;
                let len = leb_read(s1)->Ok_0.0 as usize as nat;
                let r1 = s1.subrange(m as int, s1.len() as int);
                let r2 = s2.subrange(m as int, s2.len() as int);
                assert(r1.subrange(0, len as int) =~= r2.subrange(0, len as int));
            } else {
                lemma_leb_malformed(s1, s2);
            }
        },
        ArgType::Debug | ArgType::Display => {
            let i1 = choose|i: int| 0 <= i < s1.len() && s1[i] == 0xFF;
            lemma_first_terminator(s1, i1);
            let k = terminator(s1);
            assert(0 <= k < s1.len() && s1[k] == 0xFF && forall|j: int| 0 <= j < k ==> s1[j] != 0xFF);
            assert(s2[k] == 0xFF);
            lemma_first_terminator(s2, k);
            let k2 = terminator(s2);
            assert(0 <= k2 < s2.len() && s2[k2] == 0xFF && forall|j: int| 0 <= j < k2 ==> s2[j] != 0xFF);
            if k2 < k {
                assert(s1[k2] == s2[k2]);
            }
            if k < k2 {
                assert(s2[k] != 0xFF);
            }
            assert(s1.subrange(0, k) =~= s2.subrange(0, k));
        },
        ArgType::Char => {
            assert(s1.subrange(0, 4) =~= s2.subrange(0, 4));
        },
        _ => {},
    }
}

proof fn lemma_get_format_malformed(table: Table, b1: Seq<u8>, b2: Seq<u8>, st: DState)
    requires
        get_format_spec(table, b1, st) == Err::<(DState, Seq<char>), crate::stream::DecodeError>(
            crate::stream::DecodeError::Malformed,
        ),
        agree(b1, b2, b1.len()),
        st.pos <= b1.len(),
    ensures
        get_format_spec(table, b2, st) == get_format_spec(table, b1, st),
{
    lemma_rest_agree(b1, b2, st, b1.len());
    if leb_read(rest(b1, st)) is Ok {
        lemma_leb_ok_within(rest(b1, st));
        lemma_leb_prefix(rest(b1, st), rest(b2, st));
    } else {
        lemma_leb_malformed(rest(b1, st), rest(b2, st));
    }
}

proof fn lemma_get_format_within(table: Table, b: Seq<u8>, st: DState)
    requires
        get_format_spec(table, b, st) is Ok,
        st.pos <= b.len(),
    ensures
        get_format_spec(table, b, st)->Ok_0.0.pos <= b.len(),
{
    if !(st.mode == ListMode::Use && st.cursor < st.formats.len()) {
        lemma_leb_ok_within(rest(b, st));
    }
}

proof fn lemma_get_variant_malformed(b1: Seq<u8>, b2: Seq<u8>, st: DState, f: Seq<char>)
    requires
        get_variant_spec(b1, st, f) == Err::<(DState, Seq<char>), crate::stream::DecodeError>(
            crate::stream::DecodeError::Malformed,
        ),
        agree(b1, b2, b1.len()),
        st.pos <= b1.len(),
    ensures
        get_variant_spec(b2, st, f) == get_variant_spec(b1, st, f),
{
    lemma_rest_agree(b1, b2, st, b1.len());
    let w = crate::decoder::disc_width(crate::decoder::bars(f));
    assert(rest(b1, st).subrange(0, w as int) =~= rest(b2, st).subrange(0, w as int));
}

pub open spec fn is_malformed<T>(r: Result<T, crate::stream::DecodeError>) -> bool {
    r == Err::<T, crate::stream::DecodeError>(crate::stream::DecodeError::Malformed)
}

proof fn lemma_param_malformed(table: Table, b1: Seq<u8>, b2: Seq<u8>, st: DState, p: Param, depth: nat)
    requires
        is_malformed(param_spec(table, b1, st, p, depth)),
        agree(b1, b2, b1.len()),
        st.pos <= b1.len(),
    ensures
        is_malformed(param_spec(table, b2, st, p, depth)),
    decreases depth, 0nat, 0nat,
{
    let k = b1.len();
    match p.ty {
        ArgType::Bool => {},
        ArgType::Format => {
            if depth > 0 {
                if get_format_spec(table, b1, st) is Ok {
                    lemma_get_format_within(table, b1, st);
                    lemma_get_format_prefix(table, b1, b2, st, k);
                    let (st1, f) = get_format_spec(table, b1, st)->Ok_0;
                    if crate::decoder::bars(f) > 0 {
                        if get_variant_spec(b1, st1, f) is Ok {
                            assert(get_variant_spec(b1, st1, f)->Ok_0.0.pos <= k);
                            lemma_get_variant_prefix(b1, b2, st1, f, k);
                            let (st2, v) = get_variant_spec(b1, st1, f)->Ok_0;
                            lemma_format_malformed(table, b1, b2, DState { below_enum: true, ..st2 }, v, (depth - 1) as nat);
                        } else {
                            lemma_get_variant_malformed(b1, b2, st1, f);
                        }
                    } else {
                        lemma_format_malformed(table, b1, b2, st1, f, (depth - 1) as nat);
                    }
                } else {
                    lemma_get_format_malformed(table, b1, b2, st);
                }
            }
        },
        ArgType::FormatSlice => {
            if depth > 0 {
                lemma_rest_agree(b1, b2, st, k);
                if leb_read(rest(b1, st)) is Ok {
                    lemma_leb_ok_within(rest(b1, st));
                    lemma_leb_prefix(rest(b1, st), rest(b2, st));
                    let (n, m) = leb_read(rest(b1, st))->Ok_0;
                    lemma_slice_malformed(table, b1, b2, DState { pos: st.pos + m, ..st }, #[verifier::truncate] (n as usize) as nat, (depth - 1) as nat);
                } else {
                    lemma_leb_malformed(rest(b1, st), rest(b2, st));
                }
            }
        },
        ArgType::FormatArray(n) => {
            if depth > 0 {
                lemma_slice_malformed(table, b1, b2, st, n as nat, (depth - 1) as nat);
            }
        },
        _ => {
            lemma_rest_agree(b1, b2, st, k);
            lemma_scalar_malformed(table, rest(b1, st), rest(b2, st), p.ty);
        },
    }
}

proof fn lemma_params_malformed(table: Table, b1: Seq<u8>, b2: Seq<u8>, st: DState, ps: Seq<Param>, i: nat, depth: nat)
    requires
        is_malformed(params_spec(table, b1, st, ps, i, depth)),
        agree(b1, b2, b1.len()),
        st.pos <= b1.len(),
    ensures
        is_malformed(params_spec(table, b2, st, ps, i, depth)),
    decreases depth, 1nat, i,
{
    if i > 0 && i <= ps.len() {
        let prev = params_spec(table, b1, st, ps, (i - 1) as nat, depth);
        if prev is Ok {
            lemma_params_bound(table, b1, st, ps, (i - 1) as nat, depth);
            lemma_params_prefix(table, b1, b2, st, ps, (i - 1) as nat, depth, b1.len());
            let (st1, _) = prev->Ok_0;
            lemma_param_malformed(table, b1, b2, st1, ps[i - 1], depth);
        } else {
            lemma_params_malformed(table, b1, b2, st, ps, (i - 1) as nat, depth);
        }
    }
}

proof fn lemma_format_malformed(table: Table, b1: Seq<u8>, b2: Seq<u8>, st: DState, format: Seq<char>, depth: nat)
    requires
        is_malformed(format_spec(table, b1, st, format, depth)),
        agree(b1, b2, b1.len()),
        st.pos <= b1.len(),
    ensures
        is_malformed(format_spec(table, b2, st, format, depth)),
    decreases depth, 2nat, 0nat,
{
    if crate::decoder::params_read(format) is Some {
        let ps = crate::decoder::params_read(format)->0;
        lemma_params_malformed(table, b1, b2, st, ps, ps.len(), depth);
    }
}

proof fn lemma_with_list_malformed(
    table: Table,
    b1: Seq<u8>,
    b2: Seq<u8>,
    st: DState,
    mode: ListMode,
    list: Seq<Seq<char>>,
    cursor: nat,
    format: Seq<char>,
    depth: nat,
)
    requires
        is_malformed(with_list_spec(table, b1, st, mode, list, cursor, format, depth)),
        agree(b1, b2, b1.len()),
        st.pos <= b1.len(),
    ensures
        is_malformed(with_list_spec(table, b2, st, mode, list, cursor, format, depth)),
    decreases depth, 3nat, 0nat,
{
    lemma_format_malformed(table, b1, b2, DState { mode, formats: list, cursor, ..st }, format, depth);
}

proof fn lemma_element_args_malformed(
    table: Table,
    b1: Seq<u8>,
    b2: Seq<u8>,
    st: DState,
    f: Seq<char>,
    first: bool,
    built: Seq<Seq<char>>,
    cursor: nat,
    depth: nat,
)
    requires
        is_malformed(element_args_spec(table, b1, st, f, first, built, cursor, depth)),
        agree(b1, b2, b1.len()),
        st.pos <= b1.len(),
    ensures
        is_malformed(element_args_spec(table, b2, st, f, first, built, cursor, depth)),
    decreases depth, 4nat, 0nat,
{
    if st.mode == ListMode::Use || (st.mode == ListMode::Build && first) {
        lemma_format_malformed(table, b1, b2, st, f, depth);
    } else if st.mode == ListMode::Build {
        lemma_with_list_malformed(table, b1, b2, st, ListMode::Use, st.formats, cursor, f, depth);
    } else if first {
        lemma_with_list_malformed(table, b1, b2, st, ListMode::Build, Seq::empty(), 0, f, depth);
    } else {
        lemma_with_list_malformed(table, b1, b2, st, ListMode::Use, built, 0, f, depth);
    }
}

#[verifier::rlimit(100)]
proof fn lemma_element_malformed(
    table: Table,
    b1: Seq<u8>,
    b2: Seq<u8>,
    st: DState,
    format: Seq<char>,
    first: bool,
    built: Seq<Seq<char>>,
    cursor: nat,
    depth: nat,
)
    requires
        is_malformed(element_spec(table, b1, st, format, first, built, cursor, depth)),
        agree(b1, b2, b1.len()),
        st.pos <= b1.len(),
    ensures
        is_malformed(element_spec(table, b2, st, format, first, built, cursor, depth)),
    decreases depth, 5nat, 0nat,
{
    if crate::decoder::bars(format) > 0 {
        if get_variant_spec(b1, st, format) is Ok {
            assert(get_variant_spec(b1, st, format)->Ok_0.0.pos <= b1.len());
            lemma_get_variant_prefix(b1, b2, st, format, b1.len());
            let (s1, f) = get_variant_spec(b1, st, format)->Ok_0;
            lemma_element_args_malformed(table, b1, b2, s1, f, first, built, cursor, depth);
        } else {
            lemma_get_variant_malformed(b1, b2, st, format);
        }
    } else {
        lemma_element_args_malformed(table, b1, b2, st, format, first, built, cursor, depth);
    }
}

#[verifier::rlimit(100)]
proof fn lemma_elements_malformed(
    table: Table,
    b1: Seq<u8>,
    b2: Seq<u8>,
    st: DState,
    format: Seq<char>,
    i: nat,
    depth: nat,
)
    requires
        is_malformed(elements_spec(table, b1, st, format, i, depth)),
        agree(b1, b2, b1.len()),
        st.pos <= b1.len(),
    ensures
        is_malformed(elements_spec(table, b2, st, format, i, depth)),
    decreases depth, 6nat, i,
{
    if i > 0 {
        let prev = elements_spec(table, b1, st, format, (i - 1) as nat, depth);
        if prev is Ok {
            lemma_elements_bound(table, b1, st, format, (i - 1) as nat, depth);
            lemma_elements_prefix(table, b1, b2, st, format, (i - 1) as nat, depth, b1.len());
            let (s0, _, built, cursor) = prev->Ok_0;
            lemma_element_malformed(table, b1, b2, s0, format, i == 1, built, cursor, depth);
        } else {
            lemma_elements_malformed(table, b1, b2, st, format, (i - 1) as nat, depth);
        }
    }
}

proof fn lemma_slice_malformed(table: Table, b1: Seq<u8>, b2: Seq<u8>, st: DState, n: nat, depth: nat)
    requires
        is_malformed(slice_spec(table, b1, st, n, depth)),
        agree(b1, b2, b1.len()),
        st.pos <= b1.len(),
    ensures
        is_malformed(slice_spec(table, b2, st, n, depth)),
    decreases depth, 7nat, 0nat,
{
    if n > 0 {
        if get_format_spec(table, b1, st) is Ok {
            lemma_get_format_within(table, b1, st);
            lemma_get_format_prefix(table, b1, b2, st, b1.len());
            let (st1, f) = get_format_spec(table, b1, st)->Ok_0;
            let st2 = if crate::decoder::bars(f) > 0 {
                DState { below_enum: true, ..st1 }
            } else {
                st1
            };
            lemma_elements_malformed(table, b1, b2, st2, f, n, depth);
        } else {
            lemma_get_format_malformed(table, b1, b2, st);
        }
    }
}

/// Bytes that are malformed stay malformed: whatever follows them, decoding
/// them with more bytes after them is malformed too, so waiting for more data
/// never helps.
pub proof fn lemma_malformed_stays(table: Table, bytes: Seq<u8>, extra: Seq<u8>)
    requires
        is_malformed(decode_spec(table, bytes)),
    ensures
        is_malformed(decode_spec(table, bytes + extra)),
{
    let b2 = bytes + extra;
    assert(agree(bytes, b2, bytes.len())) by {
        assert(b2.subrange(0, bytes.len() as int) =~= bytes.subrange(0, bytes.len() as int));
    }
    assert forall|i: int| 0 <= i < bytes.len() implies bytes[i] == b2[i] by {}
    if leb_read(bytes) is Ok {
        lemma_leb_ok_within(bytes);
        lemma_leb_prefix(bytes, b2);
        let (index, n) = leb_read(bytes)->Ok_0;
        let ts = timestamp_spec(table, bytes, start_state(n));
        match table.timestamp {
            Some(e) => {
                let f = e.string.string@;
                if format_spec(table, bytes, start_state(n), f, crate::decoder::MAX_NESTING as nat) is Ok {
                    lemma_format_bound(table, bytes, start_state(n), f, crate::decoder::MAX_NESTING as nat);
                    lemma_format_prefix(table, bytes, b2, start_state(n), f, crate::decoder::MAX_NESTING as nat, bytes.len());
                } else {
                    lemma_format_malformed(table, bytes, b2, start_state(n), f, crate::decoder::MAX_NESTING as nat);
                }
            },
            None => {},
        }
        if ts is Ok {
            let (st1, _, _) = ts->Ok_0;
            assert(st1.pos <= bytes.len()) by {
                match table.timestamp {
                    Some(e) => {},
                    None => {},
                }
            }
            if table.with_level(index as usize) is Some {
                let (_, format) = table.with_level(index as usize)->0;
                lemma_format_malformed(table, bytes, b2, st1, format, crate::decoder::MAX_NESTING as nat);
            }
        }
    } else {
        lemma_leb_malformed(bytes, b2);
    }
}

/// A frame takes exactly the bytes it reports as consumed: decoding those
/// bytes followed by anything else gives the same frame and the same count.
pub proof fn lemma_consumed_exact(table: Table, bytes: Seq<u8>, extra: Seq<u8>)
    requires
        decode_spec(table, bytes) is Ok,
    ensures
        decode_spec(
            table,
            bytes.subrange(0, decode_spec(table, bytes)->Ok_0.1 as int) + extra,
        ) == decode_spec(table, bytes),
{
    let c = decode_spec(table, bytes)->Ok_0.1;
    let (index, n) = leb_read(bytes)->Ok_0;
    let (st1, _, _) = timestamp_spec(table, bytes, start_state(n))->Ok_0;
    let (_, format) = table.with_level(index as usize)->0;
    let (st2, _) = format_spec(table, bytes, st1, format, crate::decoder::MAX_NESTING as nat)->Ok_0;
    let other = bytes.subrange(0, c as int) + extra;
    match table.timestamp {
        Some(e) => {
            lemma_format_bound(table, bytes, start_state(n), e.string.string@, crate::decoder::MAX_NESTING as nat);
        },
        None => {},
    }
    lemma_format_bound(table, bytes, st1, format, crate::decoder::MAX_NESTING as nat);
    assert(c <= bytes.len());
    assert(agree(bytes, other, c)) by {
        assert(other.subrange(0, c as int) =~= bytes.subrange(0, c as int));
    }
    if st2.pending > 0 {
        lemma_unpack_prefix(bytes, other, st2, c);
    }
    lemma_format_prefix(table, bytes, other, st1, format, crate::decoder::MAX_NESTING as nat, c);
    match table.timestamp {
        Some(e) => {
            lemma_format_prefix(
                table,
                bytes,
                other,
                start_state(n),
                e.string.string@,
                crate::decoder::MAX_NESTING as nat,
                c,
            );
        },
        None => {},
    }
    assert forall|i: int| 0 <= i < n implies bytes[i] == other[i] by {
        lemma_agree_index(bytes, other, c, i);
    }
    lemma_leb_prefix(bytes, other);
}

} // verus!
