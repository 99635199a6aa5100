//! Even split of a layer's sling count onto the endpoints it hangs from.
//!
//! The remainder goes to the outer ends first: the first end, then the
//! last, then the second, the second-to-last, and so on inward.
use vstd::prelude::*;

verus! {

/// Number of parent endpoints actually used: at least one.
pub open spec fn effective_ends(parent_ends: u32) -> nat {
    if parent_ends < 1 { 1 } else { parent_ends as nat }
}

/// Number of child slings actually placed: at least one.
pub open spec fn effective_children(child_count: u32) -> nat {
    if child_count < 1 { 1 } else { child_count as nat }
}

/// Ends that receive one extra sling from the left side.
pub open spec fn extra_left(ends: nat, children: nat) -> nat
    recommends ends > 0,
{
    ((children % ends) + 1) / 2
}

/// Ends that receive one extra sling from the right side.
pub open spec fn extra_right(ends: nat, children: nat) -> nat
    recommends ends > 0,
{
    (children % ends) / 2
}

/// Slings that end `i` of `ends` carries when `children` slings are split.
pub open spec fn split_share(ends: nat, children: nat, i: int) -> int
    recommends ends > 0, 0 <= i < ends,
{
    let base: int = (children / ends) as int;
    if i < extra_left(ends, children) || i >= ends - extra_right(ends, children) {
        base + 1
    } else {
        base
    }
}

/// The whole split: one entry per effective end.
pub open spec fn split_spec(parent_ends: u32, child_count: u32) -> Seq<u32> {
    let ends = effective_ends(parent_ends);
    let children = effective_children(child_count);
    Seq::new(ends, |i: int| split_share(ends, children, i) as u32)
}

/// Sum of a sequence of counts.
pub open spec fn seq_sum(s: Seq<u32>) -> int
    decreases s.len(),
{
    if s.len() == 0 { 0 } else { seq_sum(s.drop_last()) + s.last() }
}

/// Even-split child sling counts onto parent endpoints.
/// Remainder goes to the outer ends first.
///
/// Example: 4 slings onto 2 ends gives `[2, 2]`; 5 onto 2 gives `[3, 2]`.
pub fn split_slings(parent_ends: u32, child_count: u32) -> (out: Vec<u32>)
    ensures
        out@ == split_spec(parent_ends, child_count),
{
    let ends_u32: u32 = if parent_ends < 1 { 1 } else { parent_ends };
    let ends: usize = ends_u32 as usize;
    let child: u32 = if child_count < 1 { 1 } else { child_count };
    let base: u32 = child / ends_u32;
    let rem: u32 = child % ends_u32;
    let ghost e: nat = ends as nat;
    let ghost c: nat = child as nat;
    assert(base as nat == c / e && rem as nat == c % e);
    assert(rem > 0 ==> base < child) by (nonlinear_arith)
        requires
            base == child / ends_u32,
            rem == child % ends_u32,
            ends_u32 >= 1,
    ;

    let mut out: Vec<u32> = Vec::new();
    let mut k: usize = 0;
    while k < ends
        invariant
            k <= ends,
            out@.len() == k,
            forall|j: int| 0 <= j < k ==> out@[j] == base,
        decreases ends - k,
    {
        out.push(base);
        k = k + 1;
    }

    // Distribute remainder to outer ends (first, then last, then inward).
    let mut left: usize = 0;
    let mut right: usize = ends - 1;
    let mut r: u32 = rem;
    let mut from_left = true;
    while r > 0 && left <= right
        invariant_except_break
            r <= rem,
            rem < ends,
            ends >= 1,
            from_left == ((rem - r) % 2 == 0),
            left as int == ((rem - r) + 1) / 2,
            right as int == ends - 1 - (rem - r) / 2,
            out@.len() == ends,
            rem > 0 ==> base < child,
            forall|j: int|
                0 <= j < ends ==> out@[j] == (if j < left || j > right {
                    base + 1
                } else {
                    base as int
                }),
        ensures
            out@.len() == ends,
            forall|j: int|
                0 <= j < ends ==> out@[j] == (if j < (rem + 1) / 2 || j >= ends - rem / 2 {
                    base + 1
                } else {
                    base as int
                }),
        decreases r,
    {
        if from_left {
            out.set(left, out[left] + 1);
            if left == right {
                break;
            }
            left = left + 1;
        } else {
            out.set(right, out[right] + 1);
            if right == 0 {
                break;
            }
            right = right - 1;
        }
        from_left = !from_left;
        r = r - 1;
    }
    assert(out@ =~= split_spec(parent_ends, child_count));
    out
}

/// A share never exceeds the number of slings being split.
proof fn lemma_share_bounds(e: nat, c: nat, i: int)
    requires
        e > 0,
        c > 0,
        0 <= i < e,
    ensures
        0 <= split_share(e, c, i) <= c,
{
    let base = c / e;
    let rem = c % e;
    assert(c == e * base + rem) by (nonlinear_arith)
        requires e > 0, base == c / e, rem == c % e;
    assert(rem > 0 ==> base < c) by (nonlinear_arith)
        requires e > 0, c == e * base + rem, base >= 0;
    assert(base <= c) by (nonlinear_arith)
        requires e > 0, c == e * base + rem, base >= 0, rem >= 0;
}

/// The shares as exact integers (the `u32` view loses nothing).
proof fn lemma_split_spec_exact(parent_ends: u32, child_count: u32)
    ensures
        forall|i: int|
            0 <= i < effective_ends(parent_ends) ==> split_spec(parent_ends, child_count)[i]
                == split_share(effective_ends(parent_ends), effective_children(child_count), i),
{
    let e = effective_ends(parent_ends);
    let c = effective_children(child_count);
    assert forall|i: int| 0 <= i < e implies split_spec(parent_ends, child_count)[i]
        == split_share(e, c, i) by {
        lemma_share_bounds(e, c, i);
    }
}

/// Every sling is placed: the shares add up to the (effective) child count.
pub proof fn lemma_split_conserves_slings(parent_ends: u32, child_count: u32)
    ensures
        seq_sum(split_spec(parent_ends, child_count)) == effective_children(child_count),
{
    let s = split_spec(parent_ends, child_count);
    let e = effective_ends(parent_ends);
    let c = effective_children(child_count);
    let base = c / e;
    let rem = c % e;
    let l = extra_left(e, c);
    let r = extra_right(e, c);
    assert(c == e * base + rem) by (nonlinear_arith)
        requires e > 0, base == c / e, rem == c % e;
    assert(l + r == rem);
    lemma_split_spec_exact(parent_ends, child_count);
    lemma_prefix_sum(s, e, c, e as int);
    assert(s.take(e as int) =~= s);
    assert(e * base + l + r == c);
}

/// Sum of the first `j` shares.
proof fn lemma_prefix_sum(s: Seq<u32>, e: nat, c: nat, j: int)
    requires
        e > 0,
        s.len() == e,
        forall|i: int| 0 <= i < e ==> s[i] == split_share(e, c, i),
        0 <= j <= e,
    ensures
        seq_sum(s.take(j)) == j * (c / e) + (if j < extra_left(e, c) {
            j
        } else {
            extra_left(e, c) as int
        }) + (if j > e - extra_right(e, c) {
            j - (e - extra_right(e, c))
        } else {
            0
        }),
    decreases j,
{
    let base = c / e;
    let l = extra_left(e, c);
    let r = extra_right(e, c);
    assert((c % e) < e);
    assert(r <= l && l + r == c % e);
    if j == 0 {
        assert(s.take(0) =~= Seq::<u32>::empty());
    } else {
        lemma_prefix_sum(s, e, c, j - 1);
        let prev = seq_sum(s.take(j - 1));
        assert(s.take(j).drop_last() =~= s.take(j - 1));
        assert(s.take(j).last() == s[j - 1]);
        assert(seq_sum(s.take(j)) == prev + s[j - 1]);
        assert(j * base == (j - 1) * base + base) by (nonlinear_arith);
        assert(s[j - 1] == split_share(e, c, j - 1));
        if j - 1 < l {
            assert(s[j - 1] == base + 1);
        } else if j - 1 >= e - r {
            assert(s[j - 1] == base + 1);
        } else {
            assert(s[j - 1] == base);
        }
    }
}

/// Each end carries the even share or one more, never anything else.
pub proof fn lemma_split_is_even(parent_ends: u32, child_count: u32, i: int)
    requires
        0 <= i < effective_ends(parent_ends),
    ensures
        ({
            let s = split_spec(parent_ends, child_count);
            let q = effective_children(child_count) / effective_ends(parent_ends);
            s[i] == q || s[i] == q + 1
        }),
{
    lemma_split_spec_exact(parent_ends, child_count);
}

/// The extra slings sit at the outer ends: the first end never carries
/// fewer than any other end, and the shares mirror each other from the
/// outside in, with the left side taking the odd one.
pub proof fn lemma_split_outer_first(parent_ends: u32, child_count: u32, i: int)
    requires
        0 <= i < effective_ends(parent_ends),
    ensures
        ({
            let s = split_spec(parent_ends, child_count);
            let e = effective_ends(parent_ends) as int;
            &&& s[0] >= s[i]
            &&& i < e - 1 - i ==> s[e - 1 - i] <= s[i] <= s[e - 1 - i] + 1
        }),
{
    let e = effective_ends(parent_ends);
    let c = effective_children(child_count);
    lemma_split_spec_exact(parent_ends, child_count);
    assert(c % e < e);
}

} // verus!
