//! Rendering decoded arguments against their format strings.
use crate::decoder::{Arg, FormatSliceElement, Frame};
use crate::fragment::{fragments_of, parse, ArgType, Fragment, Hint, Param};
use crate::text::{
    bytes_text, debug_str, debug_text, i128_text, push_bytes, push_char, push_i128, push_u128,
    u128_text,
};
use vstd::prelude::*;
use vstd::string::StrSliceExecFns;
use vstd::string::StringExecFns;

verus! {

broadcast use vstd::std_specs::vec::group_vec_axioms;

/// The bit pattern of a floating-point argument.
#[derive(PartialEq, Eq, Debug, Clone, Copy, Structural)]
pub enum FloatBits {
    /// An `f32`.
    Single(u32),
    /// An `f64`.
    Double(u64),
}

/// The text of bit pattern `b`: that of the first entry of `t` for it, or
/// nothing where `t` has none.
pub open spec fn float_text(t: Seq<(FloatBits, String)>, b: FloatBits) -> Seq<char>
    decreases t.len(),
{
    if t.len() == 0 {
        Seq::empty()
    } else if t[0].0 == b {
        t[0].1@
    } else {
        float_text(t.drop_first(), b)
    }
}

/// The texts of floating-point bit patterns, which this crate carries but
/// does not interpret: whoever renders a frame supplies them.
pub struct FloatTable {
    pub texts: Vec<(FloatBits, String)>,
}

impl FloatTable {
    /// The text of bit pattern `b`.
    pub fn text_of(&self, b: FloatBits) -> (r: String)
        ensures
            r@ == float_text(self.texts@, b),
    {
        let mut i: usize = 0;
        assert(self.texts@.subrange(0, self.texts@.len() as int) =~= self.texts@);
        while i < self.texts.len()
            invariant
                i <= self.texts@.len(),
                float_text(self.texts@, b) == float_text(self.texts@.subrange(i as int, self.texts@.len() as int), b),
            decreases self.texts@.len() - i,
        {
            let ghost rest = self.texts@.subrange(i as int, self.texts@.len() as int);
            assert(rest.drop_first() =~= self.texts@.subrange(i + 1, self.texts@.len() as int));
            if self.texts[i].0 == b {
                return self.texts[i].1.clone();
            }
            i = i + 1;
        }
        String::new()
    }
}

/// The value of bool slot `slot`; a slot that the table does not hold is false.
pub open spec fn bool_at(bools: Seq<bool>, slot: usize) -> bool {
    slot < bools.len() && bools[slot as int]
}

pub open spec fn bool_text(b: bool) -> Seq<char> {
    if b {
        seq!['t', 'r', 'u', 'e']
    } else {
        seq!['f', 'a', 'l', 's', 'e']
    }
}

/// Bits `start..end` of `x`, shifted down to bit 0.
pub open spec fn bitfield_value(x: u128, start: u8, end: u8) -> u128 {
    (x << ((128 - end) as u128)) >> ((128 - end + start) as u128)
}

/// The big-endian bytes of `v` from byte `k` on.
pub open spec fn be_bytes_from(v: u128, k: nat) -> Seq<u8> {
    Seq::new((16 - k) as nat, |i: int| ((v >> ((8 * (15 - (i + k))) as u128)) & 0xFF) as u8)
}

/// How an unsigned argument shows for parameter type `ty`: a bitfield shows
/// its bits only, as a byte string under the `Ascii` hint.
pub open spec fn uint_text(x: u128, ty: ArgType, hint: Option<Hint>) -> Seq<char> {
    match ty {
        ArgType::BitField { start, end } => if start < end && end <= 128 {
            if hint == Some(Hint::Ascii) {
                bytes_text(
                    be_bytes_from(bitfield_value(x, start, end), ((128 - end + start) / 8) as nat),
                    hint,
                )
            } else {
                u128_text(bitfield_value(x, start, end), hint)
            }
        } else {
            u128_text(x, hint)
        },
        _ => u128_text(x, hint),
    }
}

/// How a string shows: quoted and escaped under the `Debug` hint.
pub open spec fn str_text(s: Seq<char>, hint: Option<Hint>) -> Seq<char> {
    if hint == Some(Hint::Debug) {
        debug_text(s)
    } else {
        s
    }
}

/// The bytes that a sequence of structured values stands for, where each
/// element holds exactly one unsigned argument below 256.
pub open spec fn element_bytes(els: Seq<FormatSliceElement>) -> Option<Seq<u8>>
    decreases els.len(),
{
    if els.len() == 0 {
        Some(Seq::empty())
    } else {
        match element_bytes(els.drop_last()) {
            Some(b) => {
                let e = els.last();
                if e.args@.len() == 1 && e.args@[0] is Uxx && e.args@[0]->Uxx_0 < 256 {
                    Some(b.push(e.args@[0]->Uxx_0 as u8))
                } else {
                    None
                }
            },
            None => None,
        }
    }
}

/// Whether some element of `els` has the format string of a single `u8`.
pub open spec fn has_u8_element(els: Seq<FormatSliceElement>) -> bool {
    exists|j: int| 0 <= j < els.len() && (#[trigger] els[j]).format@ == "{=u8}"@
}

/// The text of `format` rendered with `args`, the hint `parent` applying to
/// parameters without one of their own; `bools` holds the values of the bool
/// slots and `floats` the texts of floating-point bit patterns.
pub open spec fn message_text(
    format: Seq<char>,
    args: Seq<Arg>,
    parent: Option<Hint>,
    bools: Seq<bool>,
    floats: Seq<(FloatBits, String)>,
) -> Seq<char>
    decreases args, 1nat, 0nat,
{
    match fragments_of(format) {
        Some(frags) => frags_text(frags, frags.len(), args, parent, bools, floats),
        None => Seq::empty(),
    }
}

/// The text of the first `n` fragments.
pub open spec fn frags_text(
    frags: Seq<Fragment>,
    n: nat,
    args: Seq<Arg>,
    parent: Option<Hint>,
    bools: Seq<bool>,
    floats: Seq<(FloatBits, String)>,
) -> Seq<char>
    decreases args, 0nat, n,
{
    if n == 0 || n > frags.len() {
        Seq::empty()
    } else {
        let piece = match frags[n - 1] {
            Fragment::Literal(s) => s@,
            Fragment::Parameter(p) => if p.index < args.len() {
                arg_text(
                    args[p.index as int],
                    p.ty,
                    if p.hint is Some {
                        p.hint
                    } else {
                        parent
                    },
                    bools,
                    floats,
                )
            } else {
                Seq::empty()
            },
        };
        frags_text(frags, (n - 1) as nat, args, parent, bools, floats) + piece
    }
}

/// The text of one argument, shown for parameter type `ty` with `hint`.
pub open spec fn arg_text(
    a: Arg,
    ty: ArgType,
    hint: Option<Hint>,
    bools: Seq<bool>,
    floats: Seq<(FloatBits, String)>,
) -> Seq<char>
    decreases a, 0nat, 0nat,
{
    match a {
        Arg::Bool(slot) => bool_text(bool_at(bools, slot)),
        Arg::F32(bits) => float_text(floats, FloatBits::Single(bits)),
        Arg::F64(bits) => float_text(floats, FloatBits::Double(bits)),
        Arg::Uxx(x) => uint_text(x, ty, hint),
        Arg::Ixx(x) => i128_text(x, hint),
        Arg::Str(s) => str_text(s@, hint),
        Arg::Preformatted(s) => str_text(s@, hint),
        Arg::IStr(s) => str_text(s@, hint),
        Arg::Format { format, args } => message_text(format@, args@, hint, bools, floats),
        Arg::FormatSlice { elements } => if hint == Some(Hint::Ascii) && has_u8_element(elements@)
            && element_bytes(elements@) is Some {
            bytes_text(element_bytes(elements@)->0, hint)
        } else {
            seq!['['] + elements_text(elements@, elements@.len(), hint, bools, floats) + seq![']']
        },
        Arg::Slice(b) => bytes_text(b@, hint),
        Arg::Char(c) => seq![c],
    }
}

/// The first `n` elements, each rendered with its own format string and
/// separated by `", "`.
pub open spec fn elements_text(
    els: Seq<FormatSliceElement>,
    n: nat,
    hint: Option<Hint>,
    bools: Seq<bool>,
    floats: Seq<(FloatBits, String)>,
) -> Seq<char>
    decreases els, 0nat, n,
{
    if n == 0 || n > els.len() {
        Seq::empty()
    } else {
        let e = els[n - 1];
        let item = message_text(e.format@, e.args@, hint, bools, floats);
        if n == 1 {
            item
        } else {
            elements_text(els, (n - 1) as nat, hint, bools, floats) + seq![',', ' '] + item
        }
    }
}

/// Whether two strings are equal.
pub(crate) fn str_eq(a: &str, b: &str) -> (r: bool)
    ensures
        r == (a@ == b@),
{
    let n = a.unicode_len();
    if n != b.unicode_len() {
        return false;
    }
    let mut i: usize = 0;
    while i < n
        invariant
            n as nat == a@.len(),
            n as nat == b@.len(),
            i <= n,
            forall|j: int| 0 <= j < i ==> a@[j] == b@[j],
        decreases n - i,
    {
        if a.get_char(i) != b.get_char(i) {
            return false;
        }
        i = i + 1;
    }
    assert(a@ =~= b@);
    true
}

/// The big-endian bytes of `v` from byte `k` on.
fn be_bytes(v: u128, k: usize) -> (r: Vec<u8>)
    requires
        k <= 16,
    ensures
        r@ == be_bytes_from(v, k as nat),
{
    let mut out: Vec<u8> = Vec::new();
    let mut i: usize = k;
    while i < 16
        invariant
            k <= i <= 16,
            out@ =~= be_bytes_from(v, k as nat).subrange(0, (i - k) as int),
        decreases 16 - i,
    {
        out.push(((v >> ((8 * (15 - i)) as u128)) & 0xFF) as u8);
        i = i + 1;
    }
    out
}

/// The bytes of a sequence of structured values, where each element holds
/// exactly one unsigned argument below 256.
fn collect_element_bytes(els: &Vec<FormatSliceElement>) -> (r: Option<Vec<u8>>)
    ensures
        match r {
            Some(b) => element_bytes(els@) == Some(b@),
            None => element_bytes(els@) is None,
        },
{
    let mut out: Vec<u8> = Vec::new();
    let mut i: usize = 0;
    while i < els.len()
        invariant
            i <= els@.len(),
            element_bytes(els@.subrange(0, i as int)) == Some(out@),
        decreases els@.len() - i,
    {
        let e = &els[i];
        assert(els@.subrange(0, i + 1).drop_last() =~= els@.subrange(0, i as int));
        if e.args.len() != 1 {
            proof {
                lemma_element_bytes_prefix(els@, i + 1);
            }
            return None;
        }
        match &e.args[0] {
            Arg::Uxx(v) => {
                if *v >= 256 {
                    proof {
                        lemma_element_bytes_prefix(els@, i + 1);
                    }
                    return None;
                }
                out.push(*v as u8);
            },
            _ => {
                proof {
                    lemma_element_bytes_prefix(els@, i + 1);
                }
                return None;
            },
        }
        i = i + 1;
    }
    assert(els@.subrange(0, i as int) =~= els@);
    Some(out)
}

proof fn lemma_element_bytes_prefix(els: Seq<FormatSliceElement>, n: int)
    requires
        0 <= n <= els.len(),
        element_bytes(els.subrange(0, n)) is None,
    ensures
        element_bytes(els) is None,
    decreases els.len() - n,
{
    if n < els.len() {
        assert(els.subrange(0, n + 1).drop_last() =~= els.subrange(0, n));
        lemma_element_bytes_prefix(els, n + 1);
    } else {
        assert(els.subrange(0, n) =~= els);
    }
}

/// Renders `format` with `args`; `parent` is the hint for parameters without
/// one of their own, `bools` the values of the bool slots.
pub fn format_args<'t>(
    format: &str,
    args: &Vec<Arg<'t>>,
    parent: Option<Hint>,
    bools: &Vec<bool>,
    floats: &FloatTable,
) -> (r: String)
    ensures
        r@ == message_text(format@, args@, parent, bools@, floats.texts@),
    decreases args@, 2nat, 0nat,
{
    match parse(format) {
        Some(frags) => format_fragments(&frags, args, parent, bools, floats),
        None => String::new(),
    }
}

/// Renders the parsed fragments `frags` with `args`; `parent` is the hint for
/// parameters without one of their own, `bools` the values of the bool slots.
pub fn format_fragments<'t>(
    frags: &Vec<Fragment>,
    args: &Vec<Arg<'t>>,
    parent: Option<Hint>,
    bools: &Vec<bool>,
    floats: &FloatTable,
) -> (r: String)
    ensures
        r@ == frags_text(frags@, frags@.len(), args@, parent, bools@, floats.texts@),
    decreases args@, 1nat, 0nat,
{
    let mut buf = String::new();
    let mut i: usize = 0;
    while i < frags.len()
        invariant
            i <= frags@.len(),
            buf@ == frags_text(frags@, i as nat, args@, parent, bools@, floats.texts@),
        decreases frags@.len() - i,
    {
        match &frags[i] {
            Fragment::Literal(s) => buf.append(s.as_str()),
            Fragment::Parameter(p) => {
                let hint = match p.hint {
                    Some(h) => Some(h),
                    None => parent,
                };
                if p.index < args.len() {
                    render_arg(&mut buf, &args[p.index], p.ty, hint, bools, floats);
                }
            },
        }
        i = i + 1;
    }
    buf
}

/// Appends the text of one argument, shown for parameter type `ty` with `hint`.
fn render_arg<'t>(
    buf: &mut String,
    a: &Arg<'t>,
    ty: ArgType,
    hint: Option<Hint>,
    bools: &Vec<bool>,
    floats: &FloatTable,
)
    ensures
        final(buf)@ == old(buf)@ + arg_text(*a, ty, hint, bools@, floats.texts@),
    decreases *a, 0nat, 0nat,
{
    proof {
        reveal_strlit("true");
        reveal_strlit("false");
    }
    match a {
        Arg::Bool(slot) => {
            let v = *slot < bools.len() && bools[*slot];
            if v {
                buf.append("true");
            } else {
                buf.append("false");
            }
        },
        Arg::F32(bits) => {
            let t = floats.text_of(FloatBits::Single(*bits));
            buf.append(t.as_str());
        },
        Arg::F64(bits) => {
            let t = floats.text_of(FloatBits::Double(*bits));
            buf.append(t.as_str());
        },
        Arg::Uxx(x) => render_uint(buf, *x, ty, hint),
        Arg::Ixx(x) => push_i128(buf, *x, hint),
        Arg::Str(s) => render_str(buf, s.as_str(), hint),
        Arg::Preformatted(s) => render_str(buf, s.as_str(), hint),
        Arg::IStr(s) => render_str(buf, s, hint),
        Arg::Format { format, args } => {
            let t = format_args(format, args, hint, bools, floats);
            buf.append(t.as_str());
        },
        Arg::FormatSlice { elements } => render_elements(buf, elements, hint, bools, floats),
        Arg::Slice(b) => push_bytes(buf, b.as_slice(), hint),
        Arg::Char(c) => push_char(buf, *c),
    }
}

fn render_str(buf: &mut String, s: &str, hint: Option<Hint>)
    ensures
        final(buf)@ == old(buf)@ + str_text(s@, hint),
{
    match hint {
        Some(Hint::Debug) => {
            let t = debug_str(s);
            buf.append(t.as_str());
        },
        _ => buf.append(s),
    }
}

fn render_uint(buf: &mut String, x: u128, ty: ArgType, hint: Option<Hint>)
    ensures
        final(buf)@ == old(buf)@ + uint_text(x, ty, hint),
{
    match ty {
        ArgType::BitField { start, end } => {
            if start < end && end <= 128 {
                let left: u128 = (128 - end) as u128;
                let right: u128 = left + start as u128;
                let v = (x << left) >> right;
                match hint {
                    Some(Hint::Ascii) => {
                        let b = be_bytes(v, (right / 8) as usize);
                        push_bytes(buf, b.as_slice(), hint);
                    },
                    _ => push_u128(buf, v, hint),
                }
            } else {
                push_u128(buf, x, hint);
            }
        },
        _ => push_u128(buf, x, hint),
    }
}

fn render_elements<'t>(
    buf: &mut String,
    elements: &Vec<FormatSliceElement<'t>>,
    hint: Option<Hint>,
    bools: &Vec<bool>,
    floats: &FloatTable,
)
    ensures
        ({
            let a = Arg::FormatSlice { elements: *elements };
            final(buf)@ == old(buf)@ + arg_text(a, ArgType::FormatSlice, hint, bools@, floats.texts@)
        }),
    decreases *elements, 0nat, 0nat,
{
    let ascii = match hint {
        Some(Hint::Ascii) => true,
        _ => false,
    };
    if ascii {
        proof {
            reveal_strlit("{=u8}");
        }
        let mut has_u8 = false;
        let mut j: usize = 0;
        while j < elements.len()
            invariant
                j <= elements@.len(),
                has_u8 == exists|k: int| 0 <= k < j && (#[trigger] elements@[k]).format@ == "{=u8}"@,
            decreases elements@.len() - j,
        {
            if str_eq(elements[j].format, "{=u8}") {
                has_u8 = true;
            }
            j = j + 1;
        }
        if has_u8 {
            match collect_element_bytes(elements) {
                Some(b) => {
                    push_bytes(buf, b.as_slice(), hint);
                    return;
                },
                None => {},
            }
        }
    }
    push_char(buf, '[');
    let ghost start = buf@;
    let mut i: usize = 0;
    while i < elements.len()
        invariant
            i <= elements@.len(),
            buf@ == start + elements_text(elements@, i as nat, hint, bools@, floats.texts@),
        decreases elements@.len() - i,
    {
        if i > 0 {
            push_char(buf, ',');
            push_char(buf, ' ');
        }
        let e = &elements[i];
        let t = format_args(e.format, &e.args, hint, bools, floats);
        buf.append(t.as_str());
        assert(buf@ =~= start + elements_text(elements@, (i + 1) as nat, hint, bools@, floats.texts@));
        i = i + 1;
    }
    push_char(buf, ']');
    assert(buf@ =~= old(buf)@ + seq!['['] + elements_text(elements@, elements@.len(), hint, bools@, floats.texts@) + seq![']']);
}

/// Whether `a` holds a floating-point argument with bit pattern `b`, at any
/// depth.
pub open spec fn has_float(a: Arg, b: FloatBits) -> bool
    decreases a, 0nat,
{
    match a {
        Arg::F32(x) => b == FloatBits::Single(x),
        Arg::F64(x) => b == FloatBits::Double(x),
        Arg::Format { args, .. } => args_have_float(args@, args@.len(), b),
        Arg::FormatSlice { elements } => elements_have_float(elements@, elements@.len(), b),
        _ => false,
    }
}

/// Whether one of the first `n` arguments of `s` holds bit pattern `b`.
pub open spec fn args_have_float(s: Seq<Arg>, n: nat, b: FloatBits) -> bool
    decreases s, n,
{
    if n == 0 || n > s.len() {
        false
    } else {
        args_have_float(s, (n - 1) as nat, b) || has_float(s[n - 1], b)
    }
}

/// Whether one of the first `n` elements of `s` holds bit pattern `b`.
pub open spec fn elements_have_float(s: Seq<FormatSliceElement>, n: nat, b: FloatBits) -> bool
    decreases s, n,
{
    if n == 0 || n > s.len() {
        false
    } else {
        elements_have_float(s, (n - 1) as nat, b) || args_have_float(
            s[n - 1].args@,
            s[n - 1].args@.len(),
            b,
        )
    }
}

/// Whether bit pattern `b` occurs among a frame's arguments.
pub open spec fn frame_has_float(f: Frame, b: FloatBits) -> bool {
    args_have_float(f.timestamp_args@, f.timestamp_args@.len(), b) || args_have_float(
        f.args@,
        f.args@.len(),
        b,
    )
}

fn collect_arg(a: &Arg, out: &mut Vec<FloatBits>)
    ensures
        forall|b: FloatBits| #[trigger] final(out)@.contains(b) <==> (old(out)@.contains(b) || has_float(*a, b)),
    decreases *a, 0nat,
{
    match a {
        Arg::F32(x) => {
            out.push(FloatBits::Single(*x));
            assert forall|b: FloatBits| #[trigger] out@.contains(b) <==> (old(out)@.contains(b) || has_float(*a, b)) by {
                if out@.contains(b) && !old(out)@.contains(b) {
                    let j = choose|j: int| 0 <= j < out@.len() && out@[j] == b;
                    if j < old(out)@.len() {
                        assert(old(out)@[j] == b);
                    }
                }
                if old(out)@.contains(b) {
                    let j = choose|j: int| 0 <= j < old(out)@.len() && old(out)@[j] == b;
                    assert(out@[j] == b);
                }
                if has_float(*a, b) {
                    assert(out@[old(out)@.len() as int] == b);
                }
            }
        },
        Arg::F64(x) => {
            out.push(FloatBits::Double(*x));
            assert forall|b: FloatBits| #[trigger] out@.contains(b) <==> (old(out)@.contains(b) || has_float(*a, b)) by {
                if out@.contains(b) && !old(out)@.contains(b) {
                    let j = choose|j: int| 0 <= j < out@.len() && out@[j] == b;
                    if j < old(out)@.len() {
                        assert(old(out)@[j] == b);
                    }
                }
                if old(out)@.contains(b) {
                    let j = choose|j: int| 0 <= j < old(out)@.len() && old(out)@[j] == b;
                    assert(out@[j] == b);
                }
                if has_float(*a, b) {
                    assert(out@[old(out)@.len() as int] == b);
                }
            }
        },
        Arg::Format { args, .. } => collect_args(args, out),
        Arg::FormatSlice { elements } => collect_elements(elements, out),
        _ => {},
    }
}

fn collect_elements(elements: &Vec<FormatSliceElement>, out: &mut Vec<FloatBits>)
    ensures
        forall|b: FloatBits| #[trigger] final(out)@.contains(b) <==> (old(out)@.contains(b)
            || elements_have_float(elements@, elements@.len(), b)),
    decreases *elements, 0nat,
{
    let ghost start = out@;
    let mut i: usize = 0;
    while i < elements.len()
        invariant
            i <= elements@.len(),
            forall|b: FloatBits| #[trigger] out@.contains(b) <==> (start.contains(b)
                || elements_have_float(elements@, i as nat, b)),
        decreases elements@.len() - i,
    {
        let e = &elements[i];
        collect_args(&e.args, out);
        i = i + 1;
    }
}

fn collect_args(args: &Vec<Arg>, out: &mut Vec<FloatBits>)
    ensures
        forall|b: FloatBits| #[trigger] final(out)@.contains(b) <==> (old(out)@.contains(b) || args_have_float(args@, args@.len(), b)),
    decreases args@, 1nat,
{
    let ghost start = out@;
    let mut i: usize = 0;
    while i < args.len()
        invariant
            i <= args@.len(),
            forall|b: FloatBits| #[trigger] out@.contains(b) <==> (start.contains(b) || args_have_float(args@, i as nat, b)),
        decreases args@.len() - i,
    {
        collect_arg(&args[i], out);
        i = i + 1;
    }
}

/// The bit patterns of the floating-point arguments among `args`, at any
/// depth.
pub fn args_floats(args: &Vec<Arg>) -> (r: Vec<FloatBits>)
    ensures
        forall|b: FloatBits| #[trigger] r@.contains(b) <==> args_have_float(args@, args@.len(), b),
{
    let mut out: Vec<FloatBits> = Vec::new();
    collect_args(args, &mut out);
    out
}

/// The bit patterns of a frame's floating-point arguments, at any depth: the
/// ones whose texts a `FloatTable` for the frame needs.
pub fn frame_floats(frame: &Frame) -> (r: Vec<FloatBits>)
    ensures
        forall|b: FloatBits| #[trigger] r@.contains(b) <==> frame_has_float(*frame, b),
{
    let mut out: Vec<FloatBits> = Vec::new();
    collect_args(&frame.timestamp_args, &mut out);
    collect_args(&frame.args, &mut out);
    out
}

} // verus!
