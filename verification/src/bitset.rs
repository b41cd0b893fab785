//! Fixed-width candidate sets: a subset of the values 1..=9 packed into the
//! low nine bits of a `u16`, with value `v` stored at bit `v - 1`.

use vstd::prelude::*;

verus! {

/// Does candidate set `s` contain the value `v`?  Values outside 1..=9 are
/// never members.
pub open spec fn set_has(s: u16, v: int) -> bool {
    1 <= v <= 9 && (s >> ((v - 1) as u16)) & 1 == 1
}

/// Number of values in `v..=9` that `s` holds.
pub open spec fn count_from(s: u16, v: int) -> nat
    decreases 10 - v,
{
    if v < 1 || v > 9 {
        0
    } else {
        (if set_has(s, v) {
            1nat
        } else {
            0nat
        }) + count_from(s, v + 1)
    }
}

/// Number of values the set holds.
pub open spec fn set_count(s: u16) -> nat {
    count_from(s, 1)
}

proof fn lemma_shifted_or_bit(s: u16, i: u16, j: u16)
    requires
        i < 9,
        j < 9,
    ensures
        ((s | (1u16 << i)) >> j) & 1 == if i == j {
            1u16
        } else {
            (s >> j) & 1
        },
{
    assert(((s | (1u16 << i)) >> j) & 1 == if i == j {
        1u16
    } else {
        (s >> j) & 1
    }) by (bit_vector)
        requires
            i < 9 && j < 9,
    ;
}

proof fn lemma_shifted_clear_bit(s: u16, i: u16, j: u16)
    requires
        i < 9,
        j < 9,
    ensures
        ((s & !(1u16 << i)) >> j) & 1 == if i == j {
            0u16
        } else {
            (s >> j) & 1
        },
{
    assert(((s & !(1u16 << i)) >> j) & 1 == if i == j {
        0u16
    } else {
        (s >> j) & 1
    }) by (bit_vector)
        requires
            i < 9 && j < 9,
    ;
}

/// Membership test for a candidate set.
pub fn contains(s: u16, v: u8) -> (r: bool)
    requires
        1 <= v <= 9,
    ensures
        r == set_has(s, v as int),
{
    (s >> ((v - 1) as u16)) & 1 == 1
}

/// The set `s` with the value `v` added.
pub fn with_value(s: u16, v: u8) -> (r: u16)
    requires
        1 <= v <= 9,
    ensures
        forall|w: int| set_has(r, w) <==> (set_has(s, w) || w == v as int),
{
    let r = s | (1u16 << ((v - 1) as u16));
    proof {
        assert forall|w: int| set_has(r, w) <==> (set_has(s, w) || w == v as int) by {
            if 1 <= w <= 9 {
                lemma_shifted_or_bit(s, (v - 1) as u16, (w - 1) as u16);
            }
        }
    }
    r
}

/// The candidate set `s` without the value `v`, as a spec-level value.
pub open spec fn clear_value(s: u16, v: int) -> u16 {
    s & !(1u16 << ((v - 1) as u16))
}

/// The set `s` with the value `v` removed.
pub fn without_value(s: u16, v: u8) -> (r: u16)
    requires
        1 <= v <= 9,
    ensures
        r == clear_value(s, v as int),
        forall|w: int| set_has(r, w) <==> (set_has(s, w) && w != v as int),
{
    let r = s & !(1u16 << ((v - 1) as u16));
    proof {
        assert forall|w: int| set_has(r, w) <==> (set_has(s, w) && w != v as int) by {
            if 1 <= w <= 9 {
                lemma_shifted_clear_bit(s, (v - 1) as u16, (w - 1) as u16);
            }
        }
    }
    r
}

/// The zero word is the empty set.
pub proof fn lemma_no_members_of_zero()
    ensures
        forall|w: int| !set_has(0u16, w),
{
    assert forall|w: int| !set_has(0u16, w) by {
        if 1 <= w <= 9 {
            let j = (w - 1) as u16;
            assert((0u16 >> j) & 1 == 0) by (bit_vector);
        }
    }
}

/// What `clear_value` holds, by membership: everything of `s` but `v`.
pub proof fn lemma_clear_value(s: u16, v: int)
    requires
        1 <= v <= 9,
    ensures
        forall|w: int|
            (#[trigger] set_has(clear_value(s, v), w)) <==> (set_has(s, w) && w != v),
{
    assert forall|w: int|
        (#[trigger] set_has(clear_value(s, v), w)) <==> (set_has(s, w) && w != v) by {
        if 1 <= w <= 9 {
            lemma_shifted_clear_bit(s, (v - 1) as u16, (w - 1) as u16);
        }
    }
}

/// A count never exceeds the width of the remaining range.
pub proof fn lemma_count_from_bound(s: u16, v: int)
    requires
        1 <= v <= 10,
    ensures
        count_from(s, v) <= 10 - v,
    decreases 10 - v,
{
    if v < 10 {
        lemma_count_from_bound(s, v + 1);
    }
}

/// A set with no member in `v..=9` counts zero there, and conversely.
pub proof fn lemma_count_from_zero(s: u16, v: int)
    requires
        1 <= v <= 10,
    ensures
        count_from(s, v) == 0 <==> (forall|w: int| v <= w <= 9 ==> !set_has(s, w)),
    decreases 10 - v,
{
    if v < 10 {
        lemma_count_from_zero(s, v + 1);
    }
}

/// A member of `m..=9` contributes to the count from `v` on, `v <= m`.
proof fn lemma_count_from_member(s: u16, v: int, m: int)
    requires
        1 <= v <= m <= 9,
        set_has(s, m),
    ensures
        count_from(s, v) >= 1 + count_from(s, m + 1),
    decreases m - v,
{
    if v < m {
        lemma_count_from_member(s, v + 1, m);
    }
}

/// Three distinct members force a count of at least three.
pub proof fn lemma_count_three_members(s: u16, a: int, b: int, c: int)
    requires
        1 <= a < b < c <= 9,
        set_has(s, a),
        set_has(s, b),
        set_has(s, c),
    ensures
        set_count(s) >= 3,
{
    lemma_count_from_member(s, 1, a);
    lemma_count_from_member(s, a + 1, b);
    lemma_count_from_member(s, b + 1, c);
}

/// A set whose every member is the one value `a` holds at most one value.
pub proof fn lemma_count_from_single(s: u16, v: int, a: int)
    requires
        1 <= v <= 10,
        forall|w: int| set_has(s, w) ==> w == a,
    ensures
        count_from(s, v) <= 1,
    decreases 10 - v,
{
    if v <= 9 {
        lemma_count_from_single(s, v + 1, a);
        if set_has(s, v) {
            assert forall|w: int| v + 1 <= w <= 9 implies !set_has(s, w) by {
                if set_has(s, w) {
                    assert(w == a);
                }
            }
            lemma_count_from_zero(s, v + 1);
        }
    }
}

/// How many values the set holds.
pub fn count_values(s: u16) -> (c: u8)
    ensures
        c as nat == set_count(s),
        c <= 9,
{
    proof {
        lemma_count_from_bound(s, 1);
    }
    let mut c: u8 = 0;
    let mut v: u8 = 1;
    while v <= 9
        invariant
            1 <= v <= 10,
            c as nat + count_from(s, v as int) == set_count(s),
            c as nat <= 9 - count_from(s, v as int),
        decreases 10 - v,
    {
        proof {
            lemma_count_from_bound(s, v as int + 1);
        }
        if contains(s, v) {
            c = c + 1;
        }
        v = v + 1;
    }
    c
}

/// The smallest value the set holds, if any.
pub fn lowest_value(s: u16) -> (r: Option<u8>)
    ensures
        r matches Some(v) ==> 1 <= v <= 9 && set_has(s, v as int) && (forall|w: int|
            1 <= w < v as int ==> !set_has(s, w)),
        r is None <==> (forall|w: int| !set_has(s, w)),
{
    let mut v: u8 = 1;
    while v <= 9
        invariant
            1 <= v <= 10,
            forall|w: int| 1 <= w < v as int ==> !set_has(s, w),
        decreases 10 - v,
    {
        if contains(s, v) {
            return Some(v);
        }
        v = v + 1;
    }
    None
}

} // verus!
