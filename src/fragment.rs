//! Parsed format strings: the pieces that the format-string parser yields.
use vstd::prelude::*;

verus! {

#[verifier::external_type_specification]
pub struct ExParsedType(defmt_parser::Type);

#[verifier::external_type_specification]
pub struct ExParsedHint(defmt_parser::DisplayHint);

#[verifier::external_type_specification]
pub struct ExParsedParameter(defmt_parser::Parameter);

#[verifier::external_type_specification]
pub struct ExLevel(defmt_parser::Level);

/// The type of a format parameter, which decides its wire encoding.
#[derive(PartialEq, Eq, Debug, Clone, Copy, Structural)]
pub enum ArgType {
    /// Bits `start..end` of an integer argument.
    BitField { start: u8, end: u8 },
    Bool,
    Char,
    Debug,
    Display,
    F32,
    F64,
    Format,
    FormatArray(usize),
    FormatSlice,
    I8,
    I16,
    I32,
    I64,
    I128,
    Isize,
    IStr,
    Str,
    U8,
    U16,
    U24,
    U32,
    U64,
    U128,
    Usize,
    U8Slice,
    U8Array(usize),
}

/// How a parameter asks to be displayed.
#[derive(PartialEq, Eq, Debug, Clone, Copy, Structural)]
pub enum Hint {
    Binary,
    Hexadecimal { uppercase: bool },
    Ascii,
    Debug,
    Microseconds,
}

/// One `{...}` of a format string.
#[derive(PartialEq, Eq, Debug, Clone, Copy, Structural)]
pub struct Param {
    /// Position of the argument that this parameter shows.
    pub index: usize,
    pub ty: ArgType,
    pub hint: Option<Hint>,
}

/// A piece of a parsed format string.
#[derive(PartialEq, Eq, Debug, Clone)]
pub enum Fragment {
    Literal(String),
    Parameter(Param),
}

/// A piece as the parser hands it out, with the literal text already owned.
pub enum RawFragment {
    Literal(String),
    Parameter(defmt_parser::Parameter),
}

pub open spec fn type_model(t: defmt_parser::Type) -> ArgType {
    match t {
        defmt_parser::Type::BitField(r) => ArgType::BitField { start: r.start, end: r.end },
        defmt_parser::Type::Bool => ArgType::Bool,
        defmt_parser::Type::Char => ArgType::Char,
        defmt_parser::Type::Debug => ArgType::Debug,
        defmt_parser::Type::Display => ArgType::Display,
        defmt_parser::Type::F32 => ArgType::F32,
        defmt_parser::Type::F64 => ArgType::F64,
        defmt_parser::Type::Format => ArgType::Format,
        defmt_parser::Type::FormatArray(n) => ArgType::FormatArray(n),
        defmt_parser::Type::FormatSlice => ArgType::FormatSlice,
        defmt_parser::Type::I8 => ArgType::I8,
        defmt_parser::Type::I16 => ArgType::I16,
        defmt_parser::Type::I32 => ArgType::I32,
        defmt_parser::Type::I64 => ArgType::I64,
        defmt_parser::Type::I128 => ArgType::I128,
        defmt_parser::Type::Isize => ArgType::Isize,
        defmt_parser::Type::IStr => ArgType::IStr,
        defmt_parser::Type::Str => ArgType::Str,
        defmt_parser::Type::U8 => ArgType::U8,
        defmt_parser::Type::U16 => ArgType::U16,
        defmt_parser::Type::U24 => ArgType::U24,
        defmt_parser::Type::U32 => ArgType::U32,
        defmt_parser::Type::U64 => ArgType::U64,
        defmt_parser::Type::U128 => ArgType::U128,
        defmt_parser::Type::Usize => ArgType::Usize,
        defmt_parser::Type::U8Slice => ArgType::U8Slice,
        defmt_parser::Type::U8Array(n) => ArgType::U8Array(n),
    }
}

/// Hints that this decoder does not know, and an empty hint, count as no hint.
pub open spec fn hint_model(h: defmt_parser::DisplayHint) -> Option<Hint> {
    match h {
        defmt_parser::DisplayHint::Binary { .. } => Some(Hint::Binary),
        defmt_parser::DisplayHint::Hexadecimal { uppercase, .. } => Some(
            Hint::Hexadecimal { uppercase },
        ),
        defmt_parser::DisplayHint::Ascii => Some(Hint::Ascii),
        defmt_parser::DisplayHint::Debug => Some(Hint::Debug),
        defmt_parser::DisplayHint::Microseconds => Some(Hint::Microseconds),
        _ => None,
    }
}

pub open spec fn parameter_model(p: defmt_parser::Parameter) -> Param {
    Param {
        index: p.index,
        ty: type_model(p.ty),
        hint: match p.hint {
            Some(h) => hint_model(h),
            None => None,
        },
    }
}

pub open spec fn fragment_model(f: RawFragment) -> Fragment {
    match f {
        RawFragment::Literal(s) => Fragment::Literal(s),
        RawFragment::Parameter(p) => Fragment::Parameter(parameter_model(p)),
    }
}

fn type_from(t: &defmt_parser::Type) -> (r: ArgType)
    ensures
        r == type_model(*t),
{
    match t {
        defmt_parser::Type::BitField(r) => ArgType::BitField { start: r.start, end: r.end },
        defmt_parser::Type::Bool => ArgType::Bool,
        defmt_parser::Type::Char => ArgType::Char,
        defmt_parser::Type::Debug => ArgType::Debug,
        defmt_parser::Type::Display => ArgType::Display,
        defmt_parser::Type::F32 => ArgType::F32,
        defmt_parser::Type::F64 => ArgType::F64,
        defmt_parser::Type::Format => ArgType::Format,
        defmt_parser::Type::FormatArray(n) => ArgType::FormatArray(*n),
        defmt_parser::Type::FormatSlice => ArgType::FormatSlice,
        defmt_parser::Type::I8 => ArgType::I8,
        defmt_parser::Type::I16 => ArgType::I16,
        defmt_parser::Type::I32 => ArgType::I32,
        defmt_parser::Type::I64 => ArgType::I64,
        defmt_parser::Type::I128 => ArgType::I128,
        defmt_parser::Type::Isize => ArgType::Isize,
        defmt_parser::Type::IStr => ArgType::IStr,
        defmt_parser::Type::Str => ArgType::Str,
        defmt_parser::Type::U8 => ArgType::U8,
        defmt_parser::Type::U16 => ArgType::U16,
        defmt_parser::Type::U24 => ArgType::U24,
        defmt_parser::Type::U32 => ArgType::U32,
        defmt_parser::Type::U64 => ArgType::U64,
        defmt_parser::Type::U128 => ArgType::U128,
        defmt_parser::Type::Usize => ArgType::Usize,
        defmt_parser::Type::U8Slice => ArgType::U8Slice,
        defmt_parser::Type::U8Array(n) => ArgType::U8Array(*n),
    }
}

fn hint_from(h: &defmt_parser::DisplayHint) -> (r: Option<Hint>)
    ensures
        r == hint_model(*h),
{
    match h {
        defmt_parser::DisplayHint::Binary { .. } => Some(Hint::Binary),
        defmt_parser::DisplayHint::Hexadecimal { uppercase, .. } => Some(
            Hint::Hexadecimal { uppercase: *uppercase },
        ),
        defmt_parser::DisplayHint::Ascii => Some(Hint::Ascii),
        defmt_parser::DisplayHint::Debug => Some(Hint::Debug),
        defmt_parser::DisplayHint::Microseconds => Some(Hint::Microseconds),
        _ => None,
    }
}

fn parameter_from(p: &defmt_parser::Parameter) -> (r: Param)
    ensures
        r == parameter_model(*p),
{
    let hint = match &p.hint {
        Some(h) => hint_from(h),
        None => None,
    };
    Param { index: p.index, ty: type_from(&p.ty), hint }
}

/// What the format-string parser makes of a format string, or `None` where it
/// refuses the string.
pub uninterp spec fn parsed_fragments(format: Seq<char>) -> Option<Seq<RawFragment>>;

/// Relies on `defmt_parser::parse` in forwards-compatible mode: its result
/// depends on the format string alone, and it returns normally on the strings
/// that `parse_safe` admits. Literal text is copied out of the parser's
/// borrowed form, parameters are passed on as they are.
#[verifier::external_body]
fn parse_raw(format: &str) -> (r: Option<Vec<RawFragment>>)
    requires
        crate::guard::parse_safe(format@),
    ensures
        match r {
            Some(v) => parsed_fragments(format@) == Some(v@),
            None => parsed_fragments(format@).is_none(),
        },
{
    let mode = defmt_parser::ParserMode::ForwardsCompatible;
    let frags = defmt_parser::parse(format, mode).ok()?;
    Some(frags.into_iter().map(|f| match f {
        defmt_parser::Fragment::Literal(s) => RawFragment::Literal(s.into_owned()),
        defmt_parser::Fragment::Parameter(p) => RawFragment::Parameter(p),
    }).collect())
}

/// The fragments of `format`, or `None` where the parser refuses it or cannot
/// take it safely.
pub open spec fn fragments_of(format: Seq<char>) -> Option<Seq<Fragment>> {
    if !crate::guard::parse_safe(format) {
        None
    } else {
        match parsed_fragments(format) {
            Some(v) => Some(v.map_values(|f: RawFragment| fragment_model(f))),
            None => None,
        }
    }
}

/// Parses a format string into literal and parameter fragments.
pub fn parse(format: &str) -> (r: Option<Vec<Fragment>>)
    ensures
        match r {
            Some(v) => fragments_of(format@) == Some(v@),
            None => fragments_of(format@).is_none(),
        },
{
    if !crate::guard::parse_is_safe(format) {
        return None;
    }
    let raw = match parse_raw(format) {
        Some(v) => v,
        None => return None,
    };
    let mut out: Vec<Fragment> = Vec::new();
    let mut i: usize = 0;
    while i < raw.len()
        invariant
            i <= raw@.len(),
            out@ == raw@.subrange(0, i as int).map_values(|f: RawFragment| fragment_model(f)),
        decreases raw@.len() - i,
    {
        let f = match &raw[i] {
            RawFragment::Literal(s) => Fragment::Literal(s.clone()),
            RawFragment::Parameter(p) => Fragment::Parameter(parameter_from(p)),
        };
        out.push(f);
        proof {
            assert(raw@.subrange(0, i + 1) =~= raw@.subrange(0, i as int).push(raw@[i as int]));
        }
        i = i + 1;
    }
    assert(raw@.subrange(0, raw@.len() as int) =~= raw@);
    Some(out)
}

/// The parameters of a fragment list, in order.
pub open spec fn params_of(frags: Seq<Fragment>) -> Seq<Param>
    decreases frags.len(),
{
    if frags.len() == 0 {
        Seq::empty()
    } else {
        let rest = params_of(frags.drop_last());
        match frags.last() {
            Fragment::Parameter(p) => rest.push(p),
            Fragment::Literal(_) => rest,
        }
    }
}

} // verus!
