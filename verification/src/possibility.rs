use vstd::prelude::*;

use crate::mark::Mark;

verus! {

/// Whether candidate digit `m` is present in the 9-bit mask `bits`
/// (bit `m - 1` stands for digit `m`).
pub open spec fn mask_has(bits: u16, m: int) -> bool {
    1 <= m <= 9 && (bits >> (m - 1) as u16) & 1u16 == 1u16
}

/// A mask holds `m` and nothing else.
pub open spec fn mask_singleton(bits: u16, m: int) -> bool {
    mask_has(bits, m) && forall|k: int| mask_has(bits, k) ==> k == m
}

/// Bit-vector of the marks still allowed in an undetermined cell.
///
/// Invariant (`wf`): only the low 9 bits are ever set.
#[derive(Clone, Copy, PartialEq, Eq, Structural, Debug)]
pub struct Possibility {
    pub bits: u16,
}

pub proof fn lemma_full_mask(k: int)
    requires
        1 <= k <= 9,
    ensures
        mask_has(0x1ffu16, k),
{
    let ku = (k - 1) as u16;
    assert(ku <= 8 ==> (0x1ffu16 >> ku) & 1u16 == 1u16) by (bit_vector);
}

pub proof fn lemma_empty_mask(k: int)
    ensures
        !mask_has(0u16, k),
{
    if 1 <= k <= 9 {
        let ku = (k - 1) as u16;
        assert((0u16 >> ku) & 1u16 == 0u16) by (bit_vector);
    }
}

/// What unsetting bit `m` does to every bit of a well-formed mask.
pub proof fn lemma_mask_unset(b: u16, m: int)
    requires
        b < 512,
        1 <= m <= 9,
    ensures
        (b & !(1u16 << (m - 1) as u16)) < 512,
        forall|k: int| 1 <= k <= 9 ==> (#[trigger] mask_has(b & !(1u16 << (m - 1) as u16), k) <==> (
        mask_has(b, k) && k != m)),
        mask_has(b, m) ==> (b & !(1u16 << (m - 1) as u16)) != b,
{
    let mu = (m - 1) as u16;
    assert(b < 512 ==> (b & !(1u16 << mu)) < 512) by (bit_vector);
    assert(mu <= 8 && (b >> mu) & 1u16 == 1u16 ==> (b & !(1u16 << mu)) != b) by (bit_vector);
    assert forall|k: int| 1 <= k <= 9 implies (#[trigger] mask_has(b & !(1u16 << mu), k) <==> (
    mask_has(b, k) && k != m)) by {
        let ku = (k - 1) as u16;
        assert(mu <= 8 && ku <= 8 ==> ((((b & !(1u16 << mu)) >> ku) & 1u16 == 1u16) <==> (((b
            >> ku) & 1u16 == 1u16) && ku != mu))) by (bit_vector);
    }
}

/// What setting bit `m` does to every bit of a well-formed mask.
pub proof fn lemma_mask_set(b: u16, m: int)
    requires
        b < 512,
        1 <= m <= 9,
    ensures
        (b | (1u16 << (m - 1) as u16)) < 512,
        forall|k: int| 1 <= k <= 9 ==> (#[trigger] mask_has(b | (1u16 << (m - 1) as u16), k) <==> (
        mask_has(b, k) || k == m)),
{
    let mu = (m - 1) as u16;
    assert(b < 512 && mu <= 8 ==> (b | (1u16 << mu)) < 512) by (bit_vector);
    assert forall|k: int| 1 <= k <= 9 implies (#[trigger] mask_has(b | (1u16 << mu), k) <==> (
    mask_has(b, k) || k == m)) by {
        let ku = (k - 1) as u16;
        assert(mu <= 8 && ku <= 8 ==> ((((b | (1u16 << mu)) >> ku) & 1u16 == 1u16) <==> (((b >> ku)
            & 1u16 == 1u16) || ku == mu))) by (bit_vector);
    }
}

/// Two well-formed masks with the same members are equal.
pub proof fn lemma_mask_ext(b1: u16, b2: u16)
    requires
        b1 < 512,
        b2 < 512,
        forall|k: int| 1 <= k <= 9 ==> (mask_has(b1, k) <==> mask_has(b2, k)),
    ensures
        b1 == b2,
{
    assert forall|ku: u16| ku <= 8 implies (((b1 >> ku) & 1u16 == 1u16) <==> ((b2 >> ku) & 1u16
        == 1u16)) by {
        let k = ku + 1;
        assert(mask_has(b1, k as int) <==> mask_has(b2, k as int));
    }
    assert(b1 < 512 && b2 < 512 && (((b1 >> 0u16) & 1u16 == 1u16) <==> ((b2 >> 0u16) & 1u16
        == 1u16)) && (((b1 >> 1u16) & 1u16 == 1u16) <==> ((b2 >> 1u16) & 1u16 == 1u16)) && (((b1
        >> 2u16) & 1u16 == 1u16) <==> ((b2 >> 2u16) & 1u16 == 1u16)) && (((b1 >> 3u16) & 1u16
        == 1u16) <==> ((b2 >> 3u16) & 1u16 == 1u16)) && (((b1 >> 4u16) & 1u16 == 1u16) <==> ((b2
        >> 4u16) & 1u16 == 1u16)) && (((b1 >> 5u16) & 1u16 == 1u16) <==> ((b2 >> 5u16) & 1u16
        == 1u16)) && (((b1 >> 6u16) & 1u16 == 1u16) <==> ((b2 >> 6u16) & 1u16 == 1u16)) && (((b1
        >> 7u16) & 1u16 == 1u16) <==> ((b2 >> 7u16) & 1u16 == 1u16)) && (((b1 >> 8u16) & 1u16
        == 1u16) <==> ((b2 >> 8u16) & 1u16 == 1u16)) ==> b1 == b2) by (bit_vector);
}

/// Membership distributes over bitwise or.
pub proof fn lemma_mask_or(x: u16, y: u16)
    ensures
        x < 512 && y < 512 ==> (x | y) < 512,
        forall|k: int| #[trigger] mask_has(x | y, k) <==> (mask_has(x, k) || mask_has(y, k)),
{
    assert(x < 512 && y < 512 ==> (x | y) < 512) by (bit_vector);
    assert forall|k: int| #[trigger] mask_has(x | y, k) <==> (mask_has(x, k) || mask_has(y, k)) by {
        if 1 <= k <= 9 {
            let ku = (k - 1) as u16;
            assert((((x | y) >> ku) & 1u16 == 1u16) <==> (((x >> ku) & 1u16 == 1u16) || ((y >> ku)
                & 1u16 == 1u16))) by (bit_vector);
        }
    }
}

/// Isolating one bit with a bitwise and agrees with membership.
pub proof fn lemma_mask_isolate(x: u16, m: int)
    requires
        1 <= m <= 9,
    ensures
        (x & (1u16 << (m - 1) as u16)) != 0 <==> mask_has(x, m),
{
    let mu = (m - 1) as u16;
    assert(mu <= 8 ==> ((x & (1u16 << mu)) != 0 <==> ((x >> mu) & 1u16 == 1u16))) by (bit_vector);
}

/// The mask with exactly digit `v` set.
pub proof fn lemma_mask_single(v: int)
    requires
        1 <= v <= 9,
    ensures
        (1u16 << (v - 1) as u16) < 512,
        forall|k: int| #[trigger] mask_has(1u16 << (v - 1) as u16, k) <==> k == v,
{
    let vu = (v - 1) as u16;
    assert(vu <= 8 ==> (1u16 << vu) < 512) by (bit_vector);
    assert forall|k: int| #[trigger] mask_has(1u16 << vu, k) <==> k == v by {
        if 1 <= k <= 9 {
            let ku = (k - 1) as u16;
            assert(vu <= 8 && ku <= 8 ==> ((((1u16 << vu) >> ku) & 1u16 == 1u16) <==> ku == vu))
                by (bit_vector);
        }
    }
}

/// The mark standing for digit `m`.
pub open spec fn mark_spec(m: int) -> Mark {
    if m == 1 {
        Mark::N1
    } else if m == 2 {
        Mark::N2
    } else if m == 3 {
        Mark::N3
    } else if m == 4 {
        Mark::N4
    } else if m == 5 {
        Mark::N5
    } else if m == 6 {
        Mark::N6
    } else if m == 7 {
        Mark::N7
    } else if m == 8 {
        Mark::N8
    } else {
        Mark::N9
    }
}

pub proof fn lemma_mark_spec_unique(m: Mark)
    ensures
        mark_spec(m.as_int()) == m,
{
}

/// The marks of `bits` from digit `m` upward, in ascending order.
pub open spec fn marks_from(bits: u16, m: int) -> Seq<Mark>
    decreases 10 - m,
{
    if m >= 10 || m < 1 {
        Seq::empty()
    } else {
        (if mask_has(bits, m) {
            seq![mark_spec(m)]
        } else {
            Seq::empty()
        }) + marks_from(bits, m + 1)
    }
}

impl Possibility {
    pub open spec fn wf(self) -> bool {
        self.bits < 512
    }

    pub open spec fn has(self, m: int) -> bool {
        mask_has(self.bits, m)
    }

    /// A fresh set: every digit still possible.
    pub fn new() -> (r: Possibility)
        ensures
            r.bits == 0x1ffu16,
            r.wf(),
            forall|k: int| 1 <= k <= 9 ==> r.has(k),
    {
        proof {
            assert forall|k: int| 1 <= k <= 9 implies mask_has(0x1ffu16, k) by {
                lemma_full_mask(k);
            }
        }
        Possibility { bits: 0x1ff }
    }

    /// A set with no digit possible.
    pub fn new_empty() -> (r: Possibility)
        ensures
            r.bits == 0u16,
            r.wf(),
            forall|k: int| !r.has(k),
    {
        proof {
            assert forall|k: int| !mask_has(0u16, k) by {
                lemma_empty_mask(k);
            }
        }
        Possibility { bits: 0 }
    }

    pub fn is_possible(&self, mark: Mark) -> (r: bool)
        ensures
            r == self.has(mark.as_int()),
    {
        let m = mark.to_value();
        (self.bits >> (m - 1) as u16) & 1u16 == 1u16
    }

    pub fn set_possible(&mut self, mark: Mark)
        requires
            old(self).wf(),
        ensures
            final(self).wf(),
            final(self).bits == old(self).bits | (1u16 << (mark.as_int() - 1) as u16),
            forall|k: int| 1 <= k <= 9 ==> (final(self).has(k) <==> (old(self).has(k) || k
                == mark.as_int())),
    {
        let m = mark.to_value();
        proof {
            lemma_mask_set(self.bits, mark.as_int());
        }
        self.bits = self.bits | (1u16 << (m - 1) as u16);
    }

    pub fn unset_possible(&mut self, mark: Mark)
        requires
            old(self).wf(),
        ensures
            final(self).wf(),
            final(self).bits == old(self).bits & !(1u16 << (mark.as_int() - 1) as u16),
            forall|k: int| 1 <= k <= 9 ==> (final(self).has(k) <==> (old(self).has(k) && k
                != mark.as_int())),
    {
        let m = mark.to_value();
        proof {
            lemma_mask_unset(self.bits, mark.as_int());
        }
        self.bits = self.bits & !(1u16 << (m - 1) as u16);
    }

    /// The still-possible marks, in ascending order.  A finite,
    /// restartable enumeration: each call walks the set afresh.
    pub fn iter_possible(&self) -> (r: Vec<Mark>)
        ensures
            r@ == marks_from(self.bits, 1),
    {
        let mut r: Vec<Mark> = Vec::new();
        for v in 1u8..10u8
            invariant
                r@ + marks_from(self.bits, v as int) == marks_from(self.bits, 1),
        {
            proof {
                assert(marks_from(self.bits, v as int) == (if mask_has(self.bits, v as int) {
                    seq![mark_spec(v as int)]
                } else {
                    Seq::<Mark>::empty()
                }) + marks_from(self.bits, v as int + 1));
            }
            if (self.bits >> (v - 1) as u16) & 1u16 == 1u16 {
                let ghost before = r@;
                r.push(Mark::from_value(v));
                proof {
                    assert(r@[before.len() as int].as_int() == v as int);
                    assert(r@[before.len() as int] == mark_spec(v as int)) by {
                        lemma_mark_spec_unique(r@[before.len() as int]);
                    }
                    assert(r@ + marks_from(self.bits, v as int + 1) =~= before + marks_from(
                        self.bits,
                        v as int,
                    ));
                }
            } else {
                proof {
                    assert(r@ + marks_from(self.bits, v as int + 1) == r@ + marks_from(
                        self.bits,
                        v as int,
                    ));
                }
            }
        }
        proof {
            assert(marks_from(self.bits, 10) =~= Seq::<Mark>::empty());
            assert(r@ + marks_from(self.bits, 10) =~= r@);
        }
        r
    }

    /// The single remaining mark, iff exactly one digit is still possible.
    pub fn only_possible(&self) -> (r: Option<Mark>)
        ensures
            match r {
                Some(m) => mask_singleton(self.bits, m.as_int()),
                None => forall|m: int| !mask_singleton(self.bits, m),
            },
    {
        let mut found: Option<u8> = None;
        let mut count: u32 = 0;
        for v in 1u8..10u8
            invariant
                count < v,
                count == 0 <==> (forall|k: int| 1 <= k < v ==> !self.has(k)),
                match found {
                    Some(f) => 1 <= f < v && self.has(f as int) && count >= 1,
                    None => count == 0,
                },
                count == 1 ==> (match found {
                    Some(f) => forall|k: int| 1 <= k < v && self.has(k) ==> k == f as int,
                    None => false,
                }),
                count >= 2 ==> (exists|k1: int, k2: int|
                    1 <= k1 < v && 1 <= k2 < v && k1 != k2 && self.has(k1) && self.has(k2)),
        {
            let ghost oldfound = found;
            let ghost oldcount = count;
            if (self.bits >> (v - 1) as u16) & 1u16 == 1u16 {
                assert(self.has(v as int));
                found = Some(v);
                count = count + 1;
                proof {
                    if oldcount == 1 {
                        let f = oldfound->Some_0;
                        assert(f < v && self.has(f as int) && self.has(v as int));
                    }
                }
            }
        }
        if count == 1 {
            match found {
                Some(f) => {
                    proof {
                        assert forall|k: int| mask_has(self.bits, k) implies k == f as int by {
                            assert(self.has(k));
                        }
                    }
                    Some(Mark::from_value(f))
                },
                None => None,
            }
        } else {
            proof {
                assert forall|m: int| !mask_singleton(self.bits, m) by {
                    if mask_has(self.bits, m) {
                        if count == 0 {
                            assert(!self.has(m));
                        } else {
                            let (k1, k2) = choose|k1: int, k2: int|
                                1 <= k1 < 10 && 1 <= k2 < 10 && k1 != k2 && self.has(k1)
                                    && self.has(k2);
                            if k1 != m {
                                assert(mask_has(self.bits, k1));
                            } else {
                                assert(mask_has(self.bits, k2));
                            }
                        }
                    }
                }
            }
            None
        }
    }
}

} // verus!
