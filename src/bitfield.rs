//! Merging the parameters of one format string so that each argument slot is
//! read once, with bitfield references to a slot widened to one span.
use crate::fragment::{ArgType, Param};
use vstd::prelude::*;

verus! {

pub open spec fn is_bitfield(p: Param) -> bool {
    p.ty is BitField
}

/// Whether `p` is a bitfield reference to argument `k`.
pub open spec fn is_bitfield_at(p: Param, k: usize) -> bool {
    is_bitfield(p) && p.index == k
}

/// Whether some parameter of `ps` refers to argument `k`.
pub open spec fn mentions(ps: Seq<Param>, k: usize) -> bool {
    exists|i: int| 0 <= i < ps.len() && #[trigger] ps[i].index == k
}

/// Whether some parameter of `ps` is a bitfield of argument `k`.
pub open spec fn has_bitfield_at(ps: Seq<Param>, k: usize) -> bool {
    exists|i: int| 0 <= i < ps.len() && #[trigger] is_bitfield_at(ps[i], k)
}

/// The smallest start bit among the bitfields of argument `k`.
pub open spec fn span_start(ps: Seq<Param>, k: usize) -> u8
    decreases ps.len(),
{
    if ps.len() == 0 {
        255
    } else {
        let r = span_start(ps.drop_last(), k);
        let p = ps.last();
        match p.ty {
            ArgType::BitField { start, .. } => if p.index == k && start < r {
                start
            } else {
                r
            },
            _ => r,
        }
    }
}

/// The largest end bit among the bitfields of argument `k`.
pub open spec fn span_end(ps: Seq<Param>, k: usize) -> u8
    decreases ps.len(),
{
    if ps.len() == 0 {
        0
    } else {
        let r = span_end(ps.drop_last(), k);
        let p = ps.last();
        match p.ty {
            ArgType::BitField { end, .. } => if p.index == k && end > r {
                end
            } else {
                r
            },
            _ => r,
        }
    }
}

/// The one bitfield that stands for all bitfields of argument `k`.
pub open spec fn merged_at(ps: Seq<Param>, k: usize) -> Param {
    Param {
        index: k,
        ty: ArgType::BitField { start: span_start(ps, k), end: span_end(ps, k) },
        hint: None,
    }
}

/// The largest argument index that `ps` mentions, or 0.
pub open spec fn max_index(ps: Seq<Param>) -> usize
    decreases ps.len(),
{
    if ps.len() == 0 {
        0
    } else {
        let r = max_index(ps.drop_last());
        if ps.last().index > r {
            ps.last().index
        } else {
            r
        }
    }
}

/// The merged bitfields of arguments `0..n`, in increasing order of argument.
pub open spec fn merged_upto(ps: Seq<Param>, n: nat) -> Seq<Param>
    decreases n,
{
    if n == 0 {
        Seq::empty()
    } else {
        let r = merged_upto(ps, (n - 1) as nat);
        if has_bitfield_at(ps, (n - 1) as usize) {
            r.push(merged_at(ps, (n - 1) as usize))
        } else {
            r
        }
    }
}

/// The parameters of `ps` that are not bitfields, in order.
pub open spec fn non_bitfields(ps: Seq<Param>) -> Seq<Param>
    decreases ps.len(),
{
    if ps.len() == 0 {
        ps
    } else {
        let r = non_bitfields(ps.drop_last());
        if is_bitfield(ps.last()) {
            r
        } else {
            r.push(ps.last())
        }
    }
}

/// `ps` with every bitfield taken out and, after the rest, one merged bitfield
/// per argument that had any.
pub open spec fn merge_spec(ps: Seq<Param>) -> Seq<Param> {
    non_bitfields(ps) + merged_upto(ps, (max_index(ps) + 1) as nat)
}

/// The first parameter of `ps` that refers to argument `k`.
#[verifier::opaque]
pub open spec fn first_at(ps: Seq<Param>, k: usize) -> Param
    recommends
        mentions(ps, k),
{
    let i = choose|i: int|
        0 <= i < ps.len() && ps[i].index == k && forall|j: int| 0 <= j < i ==> ps[j].index != k;
    ps[i]
}

/// One parameter per argument, in increasing order of argument, taken from
/// arguments `0..n`.
pub open spec fn one_per_index(ps: Seq<Param>, n: nat) -> Seq<Param>
    decreases n,
{
    if n == 0 {
        Seq::empty()
    } else {
        let r = one_per_index(ps, (n - 1) as nat);
        if mentions(ps, (n - 1) as usize) {
            r.push(first_at(ps, (n - 1) as usize))
        } else {
            r
        }
    }
}

/// The parameters that decoding reads, in the order it reads them: merged,
/// sorted by argument index and with one parameter kept per index.
pub open spec fn prepared(ps: Seq<Param>) -> Seq<Param> {
    let m = merge_spec(ps);
    one_per_index(m, (max_index(m) + 1) as nat)
}

proof fn lemma_max_index(ps: Seq<Param>)
    ensures
        forall|i: int| 0 <= i < ps.len() ==> #[trigger] ps[i].index <= max_index(ps),
        ps.len() > 0 ==> exists|i: int| 0 <= i < ps.len() && #[trigger] ps[i].index == max_index(ps),
    decreases ps.len(),
{
    if ps.len() > 0 {
        lemma_max_index(ps.drop_last());
        assert forall|i: int| 0 <= i < ps.len() implies #[trigger] ps[i].index <= max_index(ps) by {
            if i < ps.len() - 1 {
                assert(ps.drop_last()[i] == ps[i]);
            }
        }
        if ps.len() > 1 && ps.last().index <= max_index(ps.drop_last()) {
            let j = choose|j: int| 0 <= j < ps.len() - 1 && #[trigger] ps.drop_last()[j].index
                == max_index(ps.drop_last());
            assert(ps[j] == ps.drop_last()[j]);
        } else {
            assert(ps[ps.len() - 1].index == max_index(ps));
        }
    }
}

/// Finds the largest argument index.
fn find_max_index(ps: &Vec<Param>) -> (r: usize)
    ensures
        r == max_index(ps@),
{
    let mut m: usize = 0;
    let mut i: usize = 0;
    while i < ps.len()
        invariant
            i <= ps@.len(),
            m == max_index(ps@.subrange(0, i as int)),
        decreases ps@.len() - i,
    {
        assert(ps@.subrange(0, i + 1).drop_last() =~= ps@.subrange(0, i as int));
        if ps[i].index > m {
            m = ps[i].index;
        }
        i = i + 1;
    }
    assert(ps@.subrange(0, i as int) =~= ps@);
    m
}

/// Computes the span of the bitfields of argument `k`, and whether it has any.
fn span_of(ps: &Vec<Param>, k: usize) -> (r: (bool, u8, u8))
    ensures
        r.0 == has_bitfield_at(ps@, k),
        r.1 == span_start(ps@, k),
        r.2 == span_end(ps@, k),
{
    let mut found = false;
    let mut lo: u8 = 255;
    let mut hi: u8 = 0;
    let mut i: usize = 0;
    while i < ps.len()
        invariant
            i <= ps@.len(),
            found == has_bitfield_at(ps@.subrange(0, i as int), k),
            lo == span_start(ps@.subrange(0, i as int), k),
            hi == span_end(ps@.subrange(0, i as int), k),
        decreases ps@.len() - i,
    {
        let ghost pre = ps@.subrange(0, i as int);
        let ghost cur = ps@.subrange(0, i + 1);
        assert(cur.drop_last() =~= pre);
        let p = ps[i];
        match p.ty {
            ArgType::BitField { start, end } => {
                if p.index == k {
                    found = true;
                    if start < lo {
                        lo = start;
                    }
                    if end > hi {
                        hi = end;
                    }
                    assert(is_bitfield_at(cur[i as int], k));
                }
            },
            _ => {},
        }
        proof {
            if has_bitfield_at(cur, k) && !has_bitfield_at(pre, k) {
                let j = choose|j: int| 0 <= j < cur.len() && #[trigger] is_bitfield_at(cur[j], k);
                if j < i {
                    assert(pre[j] == cur[j]);
                }
            }
            if has_bitfield_at(pre, k) {
                let j = choose|j: int| 0 <= j < pre.len() && #[trigger] is_bitfield_at(pre[j], k);
                assert(pre[j] == cur[j]);
            }
        }
        i = i + 1;
    }
    assert(ps@.subrange(0, i as int) =~= ps@);
    (found, lo, hi)
}

/// Replaces all bitfield parameters by one bitfield per argument, spanning from
/// the smallest start to the largest end among them. The other parameters keep
/// their order; the merged bitfields follow them, by increasing argument.
pub fn merge_bitfields(params: &mut Vec<Param>)
    ensures
        final(params)@ == merge_spec(old(params)@),
{
    let ghost ps = params@;
    let mut kept: Vec<Param> = Vec::new();
    let mut i: usize = 0;
    while i < params.len()
        invariant
            params@ == ps,
            i <= ps.len(),
            kept@ == non_bitfields(ps.subrange(0, i as int)),
        decreases ps.len() - i,
    {
        let p = params[i];
        proof {
            assert(ps.subrange(0, i + 1).drop_last() =~= ps.subrange(0, i as int));
        }
        match p.ty {
            ArgType::BitField { .. } => {},
            _ => kept.push(p),
        }
        i = i + 1;
    }
    assert(ps.subrange(0, ps.len() as int) =~= ps);
    if params.len() == 0 {
        proof {
            assert(max_index(ps) == 0);
            assert(!has_bitfield_at(ps, 0));
            assert(merged_upto(ps, 0) == Seq::<Param>::empty());
            assert(merged_upto(ps, 1) == merged_upto(ps, 0));
        }
        return;
    }
    let top = find_max_index(params);
    let mut k: usize = 0;
    loop
        invariant_except_break
            kept@ == non_bitfields(ps) + merged_upto(ps, k as nat),
        invariant
            params@ == ps,
            top == max_index(ps),
            k <= top,
        ensures
            kept@ == non_bitfields(ps) + merged_upto(ps, (top + 1) as nat),
        decreases top - k,
    {
        let (found, lo, hi) = span_of(params, k);
        if found {
            kept.push(Param { index: k, ty: ArgType::BitField { start: lo, end: hi }, hint: None });
        }
        proof {
            assert(merged_upto(ps, (k + 1) as nat) == (if has_bitfield_at(ps, k) {
                merged_upto(ps, k as nat).push(merged_at(ps, k))
            } else {
                merged_upto(ps, k as nat)
            }));
        }
        if k == top {
            break;
        }
        k = k + 1;
    }
    *params = kept;
}

/// Finds the first parameter that refers to argument `k`.
fn find_first(ps: &Vec<Param>, k: usize) -> (r: Option<Param>)
    ensures
        match r {
            Some(p) => mentions(ps@, k) && p == first_at(ps@, k),
            None => !mentions(ps@, k),
        },
{
    let mut i: usize = 0;
    while i < ps.len()
        invariant
            i <= ps@.len(),
            forall|j: int| 0 <= j < i ==> ps@[j].index != k,
        decreases ps@.len() - i,
    {
        if ps[i].index == k {
            proof {
                reveal(first_at);
                let c = choose|c: int|
                    0 <= c < ps@.len() && ps@[c].index == k && forall|j: int|
                        0 <= j < c ==> ps@[j].index != k;
                assert(0 <= c < ps@.len() && ps@[c].index == k && forall|j: int|
                    0 <= j < c ==> ps@[j].index != k);
                assert(c == i);
            }
            return Some(ps[i]);
        }
        i = i + 1;
    }
    None
}

/// Sorts `params` by argument index and keeps one parameter per index, after
/// merging the bitfields of each argument, so that each argument slot is read
/// exactly once and in order.
pub fn prepare_params(params: &mut Vec<Param>)
    ensures
        final(params)@ == prepared(old(params)@),
{
    merge_bitfields(params);
    let ghost m = params@;
    let mut out: Vec<Param> = Vec::new();
    if params.len() == 0 {
        proof {
            assert(max_index(m) == 0);
            assert(!mentions(m, 0));
            assert(one_per_index(m, 0) == Seq::<Param>::empty());
            assert(one_per_index(m, 1) == one_per_index(m, 0));
        }
        *params = out;
        return;
    }
    let top = find_max_index(params);
    let mut k: usize = 0;
    loop
        invariant_except_break
            out@ == one_per_index(m, k as nat),
        invariant
            params@ == m,
            top == max_index(m),
            k <= top,
        ensures
            out@ == one_per_index(m, (top + 1) as nat),
        decreases top - k,
    {
        let found = find_first(params, k);
        match found {
            Some(p) => out.push(p),
            None => {},
        }
        proof {
            assert(one_per_index(m, (k + 1) as nat) == (if mentions(m, k) {
                one_per_index(m, k as nat).push(first_at(m, k))
            } else {
                one_per_index(m, k as nat)
            }));
        }
        if k == top {
            break;
        }
        k = k + 1;
    }
    *params = out;
}

proof fn lemma_non_bitfields(ps: Seq<Param>)
    ensures
        forall|j: int|
            0 <= j < non_bitfields(ps).len() ==> ps.contains(#[trigger] non_bitfields(ps)[j])
                && !is_bitfield(non_bitfields(ps)[j]),
        forall|i: int|
            0 <= i < ps.len() && !is_bitfield(#[trigger] ps[i]) ==> non_bitfields(ps).contains(ps[i]),
    decreases ps.len(),
{
    if ps.len() > 0 {
        let r = non_bitfields(ps.drop_last());
        lemma_non_bitfields(ps.drop_last());
        assert forall|j: int| 0 <= j < non_bitfields(ps).len() implies ps.contains(
            #[trigger] non_bitfields(ps)[j],
        ) && !is_bitfield(non_bitfields(ps)[j]) by {
            if j < r.len() {
                assert(non_bitfields(ps)[j] == r[j]);
                let i = choose|i: int| 0 <= i < ps.drop_last().len() && ps.drop_last()[i] == r[j];
                assert(ps[i] == r[j]);
            } else {
                assert(non_bitfields(ps)[j] == ps.last());
                assert(ps[ps.len() - 1] == ps.last());
            }
        }
        assert forall|i: int| 0 <= i < ps.len() && !is_bitfield(#[trigger] ps[i]) implies non_bitfields(
            ps,
        ).contains(ps[i]) by {
            if i < ps.len() - 1 {
                assert(ps.drop_last()[i] == ps[i]);
                let j = choose|j: int| 0 <= j < r.len() && r[j] == ps[i];
                if is_bitfield(ps.last()) {
                    assert(non_bitfields(ps)[j] == ps[i]);
                } else {
                    assert(non_bitfields(ps)[j] == ps[i]);
                }
            } else {
                assert(non_bitfields(ps)[r.len() as int] == ps[i]);
            }
        }
    }
}

proof fn lemma_merged_upto(ps: Seq<Param>, n: nat)
    ensures
        forall|j: int|
            0 <= j < merged_upto(ps, n).len() ==> {
                let p = #[trigger] merged_upto(ps, n)[j];
                &&& p.index < n
                &&& has_bitfield_at(ps, p.index)
                &&& p == merged_at(ps, p.index)
            },
        forall|k: usize|
            k < n && #[trigger] has_bitfield_at(ps, k) ==> merged_upto(ps, n).contains(
                merged_at(ps, k),
            ),
    decreases n,
{
    if n > 0 {
        lemma_merged_upto(ps, (n - 1) as nat);
        let r = merged_upto(ps, (n - 1) as nat);
        assert forall|k: usize| k < n && #[trigger] has_bitfield_at(ps, k) implies merged_upto(
            ps,
            n,
        ).contains(merged_at(ps, k)) by {
            if k < n - 1 {
                let j = choose|j: int| 0 <= j < r.len() && r[j] == merged_at(ps, k);
                assert(merged_upto(ps, n)[j] == merged_at(ps, k));
            } else {
                assert(merged_upto(ps, n)[r.len() as int] == merged_at(ps, k));
            }
        }
        assert forall|j: int| 0 <= j < merged_upto(ps, n).len() implies {
            let p = #[trigger] merged_upto(ps, n)[j];
            &&& p.index < n
            &&& has_bitfield_at(ps, p.index)
            &&& p == merged_at(ps, p.index)
        } by {
            if j < r.len() {
                assert(merged_upto(ps, n)[j] == r[j]);
            }
        }
    }
}

proof fn lemma_one_per_index_shape(m: Seq<Param>, n: nat)
    ensures
        forall|j: int|
            0 <= j < one_per_index(m, n).len() ==> {
                let p = #[trigger] one_per_index(m, n)[j];
                &&& p.index < n
                &&& mentions(m, p.index)
                &&& p == first_at(m, p.index)
            },
    decreases n,
{
    if n > 0 {
        lemma_one_per_index_shape(m, (n - 1) as nat);
        let r = one_per_index(m, (n - 1) as nat);
        let k = (n - 1) as usize;
        if mentions(m, k) {
            let i = choose|i: int| 0 <= i < m.len() && #[trigger] m[i].index == k;
            lemma_first_at(m, k, i);
        }
        assert forall|j: int| 0 <= j < one_per_index(m, n).len() implies {
            let p = #[trigger] one_per_index(m, n)[j];
            &&& p.index < n
            &&& mentions(m, p.index)
            &&& p == first_at(m, p.index)
        } by {
            if j < r.len() {
                assert(one_per_index(m, n)[j] == r[j]);
            }
        }
    }
}

proof fn lemma_one_per_index_sorted(m: Seq<Param>, n: nat)
    requires
        n <= usize::MAX + 1,
    ensures
        forall|j: int|
            0 <= j < one_per_index(m, n).len() ==> #[trigger] one_per_index(m, n)[j].index < n,
        forall|i: int, j: int|
            0 <= i < j < one_per_index(m, n).len() ==> #[trigger] one_per_index(m, n)[i].index
                < #[trigger] one_per_index(m, n)[j].index,
    decreases n,
{
    if n > 0 {
        lemma_one_per_index_sorted(m, (n - 1) as nat);
        let r = one_per_index(m, (n - 1) as nat);
        let k = (n - 1) as usize;
        let o = one_per_index(m, n);
        if mentions(m, k) {
            let i = choose|i: int| 0 <= i < m.len() && #[trigger] m[i].index == k;
            lemma_first_at(m, k, i);
            assert(o == r.push(first_at(m, k)));
        } else {
            assert(o == r);
        }
        assert forall|j: int| 0 <= j < o.len() implies #[trigger] o[j].index < n by {
            if j < r.len() {
                assert(o[j] == r[j]);
            }
        }
        assert forall|a: int, b: int| 0 <= a < b < o.len() implies #[trigger] o[a].index
            < #[trigger] o[b].index by {
            assert(o[a] == r[a]);
            if b < r.len() {
                assert(o[b] == r[b]);
                assert(r[a].index < r[b].index);
            } else {
                assert(r[a].index < n - 1);
                assert(o[b].index == k);
            }
        }
    }
}

proof fn lemma_one_per_index_complete(m: Seq<Param>, n: nat)
    ensures
        forall|k: usize|
            k < n && #[trigger] mentions(m, k) ==> exists|j: int|
                0 <= j < one_per_index(m, n).len() && #[trigger] one_per_index(m, n)[j].index == k,
    decreases n,
{
    if n > 0 {
        lemma_one_per_index_complete(m, (n - 1) as nat);
        let r = one_per_index(m, (n - 1) as nat);
        let k = (n - 1) as usize;
        if mentions(m, k) {
            let i = choose|i: int| 0 <= i < m.len() && #[trigger] m[i].index == k;
            lemma_first_at(m, k, i);
        }
        assert forall|q: usize| q < n && #[trigger] mentions(m, q) implies exists|j: int|
            0 <= j < one_per_index(m, n).len() && #[trigger] one_per_index(m, n)[j].index == q by {
            if q < n - 1 {
                let j = choose|j: int| 0 <= j < r.len() && #[trigger] r[j].index == q;
                assert(one_per_index(m, n)[j] == r[j]);
            } else {
                assert(one_per_index(m, n)[r.len() as int].index == q);
            }
        }
    }
}

proof fn lemma_first_at(m: Seq<Param>, k: usize, i: int)
    requires
        0 <= i < m.len(),
        m[i].index == k,
    ensures
        first_at(m, k).index == k,
        exists|c: int|
            0 <= c <= i && m[c] == first_at(m, k) && forall|j: int| 0 <= j < c ==> m[j].index != k,
    decreases i,
{
    reveal(first_at);
    if exists|j: int| 0 <= j < i && m[j].index == k {
        let j = choose|j: int| 0 <= j < i && m[j].index == k;
        lemma_first_at(m, k, j);
    } else {
        assert(0 <= i < m.len() && m[i].index == k && forall|j: int| 0 <= j < i ==> m[j].index != k);
    }
}

/// Whether every reference of `ps` to argument `k` is a bitfield.
pub open spec fn only_bitfields_at(ps: Seq<Param>, k: usize) -> bool {
    forall|i: int| 0 <= i < ps.len() && #[trigger] ps[i].index == k ==> is_bitfield(ps[i])
}

proof fn lemma_merge_mentions(ps: Seq<Param>, k: usize)
    ensures
        mentions(merge_spec(ps), k) <==> mentions(ps, k),
{
    let nb = non_bitfields(ps);
    let mu = merged_upto(ps, (max_index(ps) + 1) as nat);
    let m = merge_spec(ps);
    lemma_non_bitfields(ps);
    lemma_merged_upto(ps, (max_index(ps) + 1) as nat);
    lemma_max_index(ps);
    if mentions(m, k) {
        let j = choose|j: int| 0 <= j < m.len() && #[trigger] m[j].index == k;
        if j < nb.len() {
            assert(m[j] == nb[j]);
            let i = choose|i: int| 0 <= i < ps.len() && ps[i] == nb[j];
            assert(ps[i].index == k);
        } else {
            assert(m[j] == mu[j - nb.len()]);
            let b = choose|b: int| 0 <= b < ps.len() && #[trigger] is_bitfield_at(ps[b], mu[j - nb.len()].index);
            assert(ps[b].index == k);
        }
    }
    if mentions(ps, k) {
        let i = choose|i: int| 0 <= i < ps.len() && #[trigger] ps[i].index == k;
        if !is_bitfield(ps[i]) {
            let j = choose|j: int| 0 <= j < nb.len() && nb[j] == ps[i];
            assert(m[j] == nb[j]);
        } else {
            assert(is_bitfield_at(ps[i], k));
            assert(has_bitfield_at(ps, k));
            let j = choose|j: int| 0 <= j < mu.len() && mu[j] == merged_at(ps, k);
            assert(m[nb.len() + j] == mu[j]);
        }
    }
}

proof fn lemma_first_in_merge(ps: Seq<Param>, k: usize)
    requires
        mentions(ps, k),
    ensures
        only_bitfields_at(ps, k) ==> first_at(merge_spec(ps), k).ty == (ArgType::BitField {
            start: span_start(ps, k),
            end: span_end(ps, k),
        }),
        !only_bitfields_at(ps, k) ==> exists|i: int|
            0 <= i < ps.len() && ps[i].index == k && ps[i] == first_at(merge_spec(ps), k),
{
    let nb = non_bitfields(ps);
    let mu = merged_upto(ps, (max_index(ps) + 1) as nat);
    let m = merge_spec(ps);
    lemma_non_bitfields(ps);
    lemma_merged_upto(ps, (max_index(ps) + 1) as nat);
    lemma_merge_mentions(ps, k);
    let i0 = choose|i: int| 0 <= i < m.len() && #[trigger] m[i].index == k;
    lemma_first_at(m, k, i0);
    let c = choose|c: int|
        0 <= c <= i0 && m[c] == first_at(m, k) && forall|j: int| 0 <= j < c ==> m[j].index != k;
    if only_bitfields_at(ps, k) {
        if c < nb.len() {
            assert(m[c] == nb[c]);
            let i = choose|i: int| 0 <= i < ps.len() && ps[i] == nb[c];
            assert(ps[i].index == k);
            assert(!is_bitfield(ps[i]));
        }
        assert(m[c] == mu[c - nb.len()]);
    } else {
        let i = choose|i: int| 0 <= i < ps.len() && #[trigger] ps[i].index == k && !is_bitfield(ps[i]);
        let j = choose|j: int| 0 <= j < nb.len() && nb[j] == ps[i];
        assert(m[j] == nb[j]);
        assert(m[j].index == k);
        assert(c <= j);
        assert(m[c] == nb[c]);
        let i2 = choose|i2: int| 0 <= i2 < ps.len() && ps[i2] == nb[c];
        assert(ps[i2].index == k && ps[i2] == first_at(m, k));
    }
}

/// Preparing a parameter list keeps exactly one parameter for each argument
/// that the list refers to, in increasing order of argument. Where every
/// reference to an argument is a bitfield, its parameter spans from the
/// smallest start to the largest end among them; otherwise it is one of the
/// list's own references to that argument.
pub proof fn lemma_prepared_params(ps: Seq<Param>)
    ensures
        forall|k: usize|
            mentions(ps, k) <==> exists|j: int|
                0 <= j < prepared(ps).len() && #[trigger] prepared(ps)[j].index == k,
        forall|i: int, j: int|
            0 <= i < j < prepared(ps).len() ==> #[trigger] prepared(ps)[i].index
                < #[trigger] prepared(ps)[j].index,
        forall|j: int|
            0 <= j < prepared(ps).len() && only_bitfields_at(ps, #[trigger] prepared(ps)[j].index)
                ==> prepared(ps)[j].ty == (ArgType::BitField {
                start: span_start(ps, prepared(ps)[j].index),
                end: span_end(ps, prepared(ps)[j].index),
            }),
        forall|j: int|
            0 <= j < prepared(ps).len() && !only_bitfields_at(ps, #[trigger] prepared(ps)[j].index)
                ==> ps.contains(prepared(ps)[j]),
{
    let m = merge_spec(ps);
    let n = (max_index(m) + 1) as nat;
    let pr = prepared(ps);
    lemma_max_index(m);
    lemma_one_per_index_shape(m, n);
    lemma_one_per_index_sorted(m, n);
    lemma_one_per_index_complete(m, n);
    assert forall|k: usize| mentions(ps, k) <==> exists|j: int|
        0 <= j < pr.len() && #[trigger] pr[j].index == k by {
        lemma_merge_mentions(ps, k);
        if mentions(m, k) {
            let i = choose|i: int| 0 <= i < m.len() && #[trigger] m[i].index == k;
            assert(m[i].index <= max_index(m));
        }
    }
    assert forall|j: int| 0 <= j < pr.len() implies {
        let p = #[trigger] pr[j];
        &&& (only_bitfields_at(ps, p.index) ==> p.ty == (ArgType::BitField {
            start: span_start(ps, p.index),
            end: span_end(ps, p.index),
        }))
        &&& (!only_bitfields_at(ps, p.index) ==> ps.contains(p))
    } by {
        let p = pr[j];
        lemma_merge_mentions(ps, p.index);
        lemma_first_in_merge(ps, p.index);
    }
}

} // verus!
