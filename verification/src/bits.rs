use vstd::prelude::*;

verus! {

#[verifier::external_type_specification]
#[verifier::external_body]
#[verifier::reject_recursive_types(B)]
pub struct ExBitVec<B>(bit_vec::BitVec<B>);

/// The bits that a `bit_vec::BitVec` holds, in order.
pub uninterp spec fn bitvec_bits(v: bit_vec::BitVec) -> Seq<bool>;

/// How many entries of `s` are false.
pub open spec fn count_false(s: Seq<bool>) -> int
    decreases s.len(),
{
    if s.len() == 0 {
        0
    } else {
        count_false(s.drop_last()) + if s.last() {
            0int
        } else {
            1int
        }
    }
}

pub proof fn lemma_count_false_le_len(s: Seq<bool>)
    ensures
        0 <= count_false(s) <= s.len(),
    decreases s.len(),
{
    if s.len() > 0 {
        lemma_count_false_le_len(s.drop_last());
    }
}

/// Relies on `bit_vec::BitVec::from_elem`: a vector of `len` bits, each set
/// to `bit`.
#[verifier::external_body]
pub(crate) fn bits_from_elem(len: usize, bit: bool) -> (r: bit_vec::BitVec)
    ensures
        bitvec_bits(r) == Seq::new(len as nat, |i: int| bit),
{
    bit_vec::BitVec::from_elem(len, bit)
}

/// Relies on `bit_vec::BitVec::set`: writes one bit in place. It panics when
/// the index is out of range, which the precondition rules out.
#[verifier::external_body]
pub(crate) fn bits_set(v: &mut bit_vec::BitVec, i: usize, x: bool)
    requires
        i < bitvec_bits(*old(v)).len(),
    ensures
        bitvec_bits(*final(v)) == bitvec_bits(*old(v)).update(i as int, x),
{
    v.set(i, x)
}

/// Relies on `bit_vec::BitVec::count_zeros`: the number of stored bits that
/// are false (spare bits of the last block are not counted).
#[verifier::external_body]
pub(crate) fn bits_count_zeros(v: &bit_vec::BitVec) -> (r: u64)
    ensures
        r == count_false(bitvec_bits(*v)),
{
    v.count_zeros()
}

} // verus!
