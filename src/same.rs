//! Rendering depends on a frame's decoded values alone.
use crate::decoder::{Arg, Frame, FormatSliceElement};
use crate::fragment::{fragments_of, ArgType, Fragment, Hint};
use crate::render::{FloatBits, arg_text, element_bytes, elements_text, frags_text, has_u8_element, message_text};
use crate::display::frame_text;
use crate::wire::{arg_model, args_model, args_of, elements_model, elements_of, frame_model, ElementM};
use vstd::prelude::*;

verus! {

proof fn lemma_args_model_index(s: Seq<Arg>, n: nat, i: int)
    requires
        n <= s.len(),
        0 <= i < n,
    ensures
        args_model(s, n).len() == n,
        args_model(s, n)[i] == arg_model(s[i]),
    decreases n,
{
    lemma_args_model_len(s, n);
    if i < n - 1 {
        lemma_args_model_index(s, (n - 1) as nat, i);
    }
}

proof fn lemma_args_model_len(s: Seq<Arg>, n: nat)
    requires
        n <= s.len(),
    ensures
        args_model(s, n).len() == n,
    decreases n,
{
    if n > 0 {
        lemma_args_model_len(s, (n - 1) as nat);
    }
}

proof fn lemma_elements_model_index(s: Seq<FormatSliceElement>, n: nat, i: int)
    requires
        n <= s.len(),
        0 <= i < n,
    ensures
        elements_model(s, n).len() == n,
        elements_model(s, n)[i] == (ElementM { format: s[i].format@, args: args_of(s[i].args@) }),
    decreases n,
{
    lemma_elements_model_len(s, n);
    if i < n - 1 {
        lemma_elements_model_index(s, (n - 1) as nat, i);
    }
}

proof fn lemma_elements_model_len(s: Seq<FormatSliceElement>, n: nat)
    requires
        n <= s.len(),
    ensures
        elements_model(s, n).len() == n,
    decreases n,
{
    if n > 0 {
        lemma_elements_model_len(s, (n - 1) as nat);
    }
}

proof fn lemma_char_model(c1: char, c2: char)
    requires
        c1 as u32 == c2 as u32,
    ensures
        c1 == c2,
{
}

proof fn lemma_same_bytes(e1: Seq<FormatSliceElement>, e2: Seq<FormatSliceElement>)
    requires
        elements_of(e1) == elements_of(e2),
    ensures
        element_bytes(e1) == element_bytes(e2),
        has_u8_element(e1) == has_u8_element(e2),
    decreases e1.len(),
{
    lemma_elements_model_len(e1, e1.len());
    lemma_elements_model_len(e2, e2.len());
    assert forall|j: int| 0 <= j < e1.len() implies e1[j].format@ == e2[j].format@ && args_of(e1[j].args@)
        == args_of(e2[j].args@) by {
        lemma_elements_model_index(e1, e1.len(), j);
        lemma_elements_model_index(e2, e2.len(), j);
    }
    if e1.len() > 0 {
        let d1 = e1.drop_last();
        let d2 = e2.drop_last();
        assert(elements_of(d1) == elements_of(d2)) by {
            lemma_elements_model_len(d1, d1.len());
            lemma_elements_model_len(d2, d2.len());
            assert forall|j: int| 0 <= j < d1.len() implies elements_of(d1)[j] == elements_of(d2)[j] by {
                lemma_elements_model_index(d1, d1.len(), j);
                lemma_elements_model_index(d2, d2.len(), j);
                lemma_elements_model_index(e1, e1.len(), j);
                lemma_elements_model_index(e2, e2.len(), j);
            }
            assert(elements_of(d1) =~= elements_of(d2));
        }
        lemma_same_bytes(d1, d2);
        let a1 = e1.last().args@;
        let a2 = e2.last().args@;
        lemma_args_model_len(a1, a1.len());
        lemma_args_model_len(a2, a2.len());
        if a1.len() == 1 {
            lemma_args_model_index(a1, 1, 0);
            lemma_args_model_index(a2, 1, 0);
            if a1[0] is Uxx || a2[0] is Uxx {
                assert(a1[0] == a2[0]);
            }
        }
    }
}

proof fn lemma_same_arg_text(x1: Arg, x2: Arg, ty: ArgType, hint: Option<Hint>, bools: Seq<bool>, floats: Seq<(FloatBits, String)>)
    requires
        arg_model(x1) == arg_model(x2),
    ensures
        arg_text(x1, ty, hint, bools, floats) == arg_text(x2, ty, hint, bools, floats),
    decreases x1, 0nat, 0nat,
{
    match x1 {
        Arg::Format { format, args } => {
            match x2 {
                Arg::Format { format: f2, args: b2 } => {
                    lemma_same_message_text(format@, args@, b2@, hint, bools, floats);
                },
                _ => {},
            }
        },
        Arg::FormatSlice { elements } => {
            match x2 {
                Arg::FormatSlice { elements: e2 } => {
                    lemma_same_bytes(elements@, e2@);
                    lemma_elements_model_len(elements@, elements@.len());
                    lemma_elements_model_len(e2@, e2@.len());
                    lemma_same_elements_text(elements@, e2@, elements@.len(), hint, bools, floats);
                },
                _ => {},
            }
        },
        Arg::Char(c) => {
            match x2 {
                Arg::Char(c2) => lemma_char_model(c, c2),
                _ => {},
            }
        },
        _ => {},
    }
}

proof fn lemma_same_elements_text(
    e1: Seq<FormatSliceElement>,
    e2: Seq<FormatSliceElement>,
    n: nat,
    hint: Option<Hint>,
    bools: Seq<bool>,
    floats: Seq<(FloatBits, String)>,
)
    requires
        elements_of(e1) == elements_of(e2),
        n <= e1.len(),
    ensures
        elements_text(e1, n, hint, bools, floats) == elements_text(e2, n, hint, bools, floats),
    decreases e1, 0nat, n,
{
    lemma_elements_model_len(e1, e1.len());
    lemma_elements_model_len(e2, e2.len());
    if n > 0 {
        lemma_elements_model_index(e1, e1.len(), n - 1);
        lemma_elements_model_index(e2, e2.len(), n - 1);
        let x = e1[n - 1];
        lemma_same_message_text(x.format@, x.args@, e2[n - 1].args@, hint, bools, floats);
        lemma_same_elements_text(e1, e2, (n - 1) as nat, hint, bools, floats);
    }
}

proof fn lemma_same_frags_text(
    frags: Seq<Fragment>,
    n: nat,
    a1: Seq<Arg>,
    a2: Seq<Arg>,
    parent: Option<Hint>,
    bools: Seq<bool>,
    floats: Seq<(FloatBits, String)>,
)
    requires
        args_of(a1) == args_of(a2),
    ensures
        frags_text(frags, n, a1, parent, bools, floats) == frags_text(frags, n, a2, parent, bools, floats),
    decreases a1, 0nat, n,
{
    lemma_args_model_len(a1, a1.len());
    lemma_args_model_len(a2, a2.len());
    if n > 0 && n <= frags.len() {
        lemma_same_frags_text(frags, (n - 1) as nat, a1, a2, parent, bools, floats);
        match frags[n - 1] {
            Fragment::Parameter(p) => {
                if p.index < a1.len() {
                    lemma_args_model_index(a1, a1.len(), p.index as int);
                    lemma_args_model_index(a2, a2.len(), p.index as int);
                    lemma_same_arg_text(
                        a1[p.index as int],
                        a2[p.index as int],
                        p.ty,
                        if p.hint is Some {
                            p.hint
                        } else {
                            parent
                        },
                        bools,
                    floats,
                    );
                }
            },
            _ => {},
        }
    }
}

proof fn lemma_same_message_text(
    format: Seq<char>,
    a1: Seq<Arg>,
    a2: Seq<Arg>,
    parent: Option<Hint>,
    bools: Seq<bool>,
    floats: Seq<(FloatBits, String)>,
)
    requires
        args_of(a1) == args_of(a2),
    ensures
        message_text(format, a1, parent, bools, floats) == message_text(format, a2, parent, bools, floats),
    decreases a1, 1nat, 0nat,
{
    match fragments_of(format) {
        Some(frags) => lemma_same_frags_text(frags, frags.len(), a1, a2, parent, bools, floats),
        None => {},
    }
}

/// Frames with the same decoded values render to the same text, given the
/// same texts for floating-point bit patterns. With the
/// contract of `decode`, which fixes a frame's values by the table and the
/// bytes, decoding the same bytes twice renders the same text.
pub proof fn lemma_same_frame_same_text(
    f1: Frame,
    f2: Frame,
    label: Seq<char>,
    floats: Seq<(FloatBits, String)>,
)
    requires
        frame_model(f1) == frame_model(f2),
    ensures
        frame_text(f1, label, floats) == frame_text(f2, label, floats),
{
    lemma_same_message_text(f1.format@, f1.args@, f2.args@, None, f1.bools@, floats);
    match f1.timestamp_format {
        Some(t) => {
            lemma_same_message_text(t@, f1.timestamp_args@, f2.timestamp_args@, None, f1.bools@, floats);
        },
        None => {},
    }
}

} // verus!
