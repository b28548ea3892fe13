//! Packing of the held key-code set into the fixed-capacity boot-protocol
//! report: one modifier bit per modifier code present, the remaining codes
//! filled into at most `REPORT_KEYS` slots in held-set order, excess silently
//! truncated.

use vstd::prelude::*;

verus! {

/// Number of non-modifier key slots in the wire report.
pub const REPORT_KEYS: usize = 6;

/// A key code is a modifier when it lies in the modifier range
/// `0xE0 ..= 0xE7`; its report bit is its offset in that range.
pub open spec fn is_modifier(k: u8) -> bool {
    0xE0 <= k && k <= 0xE7
}

/// Whether bit `j` of mask `m` is set.
pub open spec fn bit_set(m: u8, j: u8) -> bool {
    (m >> j) & 1u8 == 1u8
}

/// The subsequence of non-modifier codes of `s`, in order.
pub open spec fn nonmods(s: Seq<u8>) -> Seq<u8>
    decreases s.len(),
{
    if s.len() == 0 {
        Seq::empty()
    } else {
        let rest = nonmods(s.drop_last());
        if is_modifier(s.last()) {
            rest
        } else {
            rest.push(s.last())
        }
    }
}

/// The first `REPORT_KEYS` elements of `s`, or all of `s` if it is shorter.
pub open spec fn truncate_keys(s: Seq<u8>) -> Seq<u8> {
    if s.len() <= REPORT_KEYS {
        s
    } else {
        s.take(REPORT_KEYS as int)
    }
}

/// The modifier bitmask of `s`: bit `k - 0xE0` set for each modifier `k` in `s`.
pub open spec fn mods_mask(s: Seq<u8>) -> u8
    decreases s.len(),
{
    if s.len() == 0 {
        0u8
    } else {
        let rest = mods_mask(s.drop_last());
        if is_modifier(s.last()) {
            rest | (1u8 << ((s.last() - 0xE0) as u8))
        } else {
            rest
        }
    }
}

/// The wire report: a modifier bitmask and at most `REPORT_KEYS`
/// non-modifier key codes in held-set order.
pub struct Report {
    pub modifiers: u8,
    pub keys: Vec<u8>,
}

impl Report {
    /// A report is well formed when its key list fits the wire slots and
    /// holds only non-modifier codes.
    pub open spec fn wf(self) -> bool {
        &&& self.keys@.len() <= REPORT_KEYS
        &&& forall|i: int| 0 <= i < self.keys@.len() ==> !is_modifier(self.keys@[i])
    }

    /// The 8-byte boot-protocol payload: modifier mask, reserved zero byte,
    /// then the key slots padded with zeros.
    pub fn to_bytes(&self) -> (out: Vec<u8>)
        requires
            self.wf(),
        ensures
            out@.len() == 8,
            out@[0] == self.modifiers,
            out@[1] == 0u8,
            forall|i: int| 0 <= i < self.keys@.len() ==> out@[2 + i] == self.keys@[i],
            forall|i: int| self.keys@.len() <= i < 6 ==> #[trigger] out@[2 + i] == 0u8,
    {
        let mut out: Vec<u8> = Vec::new();
        out.push(self.modifiers);
        out.push(0u8);
        let mut i: usize = 0;
        while i < self.keys.len()
            invariant
                i <= self.keys@.len(),
                self.keys@.len() <= REPORT_KEYS,
                out@.len() == 2 + i,
                out@[0] == self.modifiers,
                out@[1] == 0u8,
                forall|j: int| 0 <= j < i ==> out@[2 + j] == self.keys@[j],
            decreases self.keys@.len() - i,
        {
            out.push(self.keys[i]);
            i += 1;
        }
        while i < 6
            invariant
                self.keys@.len() <= i <= 6,
                out@.len() == 2 + i,
                out@[0] == self.modifiers,
                out@[1] == 0u8,
                forall|j: int| 0 <= j < self.keys@.len() ==> out@[2 + j] == self.keys@[j],
                forall|j: int| self.keys@.len() <= j < i ==> #[trigger] out@[2 + j] == 0u8,
            decreases 6 - i,
        {
            out.push(0u8);
            i += 1;
        }
        out
    }
}

/// Whether two reports carry the same payload.
pub fn report_eq(a: &Report, b: &Report) -> (r: bool)
    ensures
        r <==> (a.modifiers == b.modifiers && a.keys@ == b.keys@),
{
    if a.modifiers != b.modifiers {
        return false;
    }
    if a.keys.len() != b.keys.len() {
        assert(a.keys@ != b.keys@);
        return false;
    }
    let mut i: usize = 0;
    while i < a.keys.len()
        invariant
            i <= a.keys@.len(),
            a.keys@.len() == b.keys@.len(),
            forall|j: int| 0 <= j < i ==> a.keys@[j] == b.keys@[j],
        decreases a.keys@.len() - i,
    {
        if a.keys[i] != b.keys[i] {
            return false;
        }
        i += 1;
    }
    proof {
        assert(a.keys@ =~= b.keys@);
    }
    true
}

/// Exec mirror of `is_modifier`.
pub fn is_modifier_code(k: u8) -> (r: bool)
    ensures
        r == is_modifier(k),
{
    0xE0 <= k && k <= 0xE7
}

proof fn lemma_bit_or_same(m: u8, j: u8)
    requires
        j < 8,
    ensures
        ((m | (1u8 << j)) >> j) & 1u8 == 1u8,
{
    assert(((m | (1u8 << j)) >> j) & 1u8 == 1u8) by (bit_vector)
        requires
            j < 8,
    ;
}

proof fn lemma_bit_or_other(m: u8, j: u8, j2: u8)
    requires
        j < 8,
        j2 < 8,
        j != j2,
    ensures
        ((m | (1u8 << j)) >> j2) & 1u8 == (m >> j2) & 1u8,
{
    assert(((m | (1u8 << j)) >> j2) & 1u8 == (m >> j2) & 1u8) by (bit_vector)
        requires
            j < 8 && j2 < 8 && j != j2,
    ;
}

proof fn lemma_bit_zero(j: u8)
    requires
        j < 8,
    ensures
        !bit_set(0u8, j),
{
    assert((0u8 >> j) & 1u8 == 0u8) by (bit_vector);
}

/// Bit `j` of the modifier mask of `s` is set exactly when `s` contains the
/// modifier code `0xE0 + j`.
pub proof fn lemma_mods_mask_bits(s: Seq<u8>, j: u8)
    requires
        j < 8,
    ensures
        bit_set(mods_mask(s), j) <==> s.contains((0xE0 + j) as u8),
    decreases s.len(),
{
    if s.len() == 0 {
        lemma_bit_zero(j);
    } else {
        lemma_mods_mask_bits(s.drop_last(), j);
        let rest = mods_mask(s.drop_last());
        let last = s.last();
        assert(s.contains((0xE0 + j) as u8) <==> (last == (0xE0 + j) as u8
            || s.drop_last().contains((0xE0 + j) as u8))) by {
            if s.contains((0xE0 + j) as u8) {
                let i = choose|i: int| 0 <= i < s.len() && s[i] == (0xE0 + j) as u8;
                if i < s.len() - 1 {
                    assert(s.drop_last()[i] == (0xE0 + j) as u8);
                }
            }
            if s.drop_last().contains((0xE0 + j) as u8) {
                let i = choose|i: int|
                    0 <= i < s.drop_last().len() && s.drop_last()[i] == (0xE0 + j) as u8;
                assert(s[i] == (0xE0 + j) as u8);
            }
        }
        if is_modifier(last) {
            let jl = (last - 0xE0) as u8;
            if jl == j {
                lemma_bit_or_same(rest, j);
                assert(last == (0xE0 + j) as u8);
            } else {
                lemma_bit_or_other(rest, jl, j);
                assert(last != (0xE0 + j) as u8);
            }
        } else {
            assert(last != (0xE0 + j) as u8);
        }
    }
}

/// Every element of `nonmods(s)` comes from `s` and is not a modifier.
pub proof fn lemma_nonmods_elems(s: Seq<u8>)
    ensures
        forall|i: int|
            0 <= i < nonmods(s).len() ==> s.contains(#[trigger] nonmods(s)[i]) && !is_modifier(
                nonmods(s)[i],
            ),
    decreases s.len(),
{
    if s.len() != 0 {
        lemma_nonmods_elems(s.drop_last());
        assert forall|i: int| 0 <= i < nonmods(s).len() implies s.contains(
            #[trigger] nonmods(s)[i],
        ) && !is_modifier(nonmods(s)[i]) by {
            let rest = nonmods(s.drop_last());
            if i < rest.len() {
                let k = rest[i];
                assert(s.drop_last().contains(k));
                let w = choose|w: int| 0 <= w < s.drop_last().len() && s.drop_last()[w] == k;
                assert(s[w] == k);
            } else {
                assert(nonmods(s)[i] == s.last());
            }
        }
    }
}

/// Builds the wire report for a held-set: the modifier mask of `held` and the
/// first `REPORT_KEYS` non-modifier codes of `held` in order; any further
/// non-modifier codes are dropped, so the result is always well formed.
pub fn build_report(held: &Vec<u8>) -> (r: Report)
    ensures
        r.modifiers == mods_mask(held@),
        r.keys@ == truncate_keys(nonmods(held@)),
        r.wf(),
        forall|i: int| 0 <= i < r.keys@.len() ==> held@.contains(#[trigger] r.keys@[i]),
        forall|j: u8| j < 8 ==> (bit_set(r.modifiers, j) <==> held@.contains((0xE0 + j) as u8)),
{
    let mut mods: u8 = 0;
    let mut keys: Vec<u8> = Vec::new();
    let mut i: usize = 0;
    while i < held.len()
        invariant
            i <= held@.len(),
            mods == mods_mask(held@.take(i as int)),
            keys@ == truncate_keys(nonmods(held@.take(i as int))),
        decreases held@.len() - i,
    {
        let k = held[i];
        proof {
            assert(held@.take(i + 1).drop_last() =~= held@.take(i as int));
            assert(held@.take(i + 1).last() == held@[i as int]);
        }
        if is_modifier_code(k) {
            mods = mods | (1u8 << (k - 0xE0));
        } else {
            let ghost old_nm = nonmods(held@.take(i as int));
            if keys.len() < REPORT_KEYS {
                assert(old_nm.len() == keys@.len());
                keys.push(k);
            } else {
                proof {
                    assert(old_nm.len() > REPORT_KEYS || old_nm.len() == keys@.len());
                    assert(old_nm.push(k).take(REPORT_KEYS as int) =~= truncate_keys(old_nm));
                }
            }
        }
        i += 1;
    }
    proof {
        assert(held@.take(held@.len() as int) =~= held@);
        lemma_nonmods_elems(held@);
        assert forall|i2: int|
            0 <= i2 < truncate_keys(nonmods(held@)).len() implies held@.contains(
            #[trigger] truncate_keys(nonmods(held@))[i2],
        ) && !is_modifier(truncate_keys(nonmods(held@))[i2]) by {
            assert(truncate_keys(nonmods(held@))[i2] == nonmods(held@)[i2]);
        }
        assert forall|j: u8| j < 8 implies (bit_set(mods, j) <==> held@.contains(
            (0xE0 + j) as u8,
        )) by {
            lemma_mods_mask_bits(held@, j);
        }
    }
    Report { modifiers: mods, keys }
}

} // verus!
