use vstd::prelude::*;
use vstd::std_specs::btree::increasing_seq;
use vstd::std_specs::cmp::OrdSpec;

verus! {

/// Keys handed out by an ordered map iterator over `u32` keys come in strictly increasing order.
pub proof fn lemma_increasing_keys(s: Seq<&u32>)
    requires
        increasing_seq(s),
    ensures
        forall|i: int, j: int| 0 <= i < j < s.len() ==> *s[i] < *s[j],
{
    broadcast use vstd::laws_cmp::group_laws_cmp, vstd::laws_cmp::lemma_ref_obeys_cmp_spec;
    assert(vstd::laws_cmp::obeys_cmp::<u32>());
    assert(vstd::laws_cmp::obeys_cmp::<&u32>());
    vstd::std_specs::btree::axiom_increasing_seq_meaning::<&u32>(s);
    assert forall|i: int, j: int| 0 <= i < j < s.len() implies *s[i] < *s[j] by {
        assert(OrdSpec::cmp_spec(&s[i], &s[j]) is Less);
    }
}

/// Keys of type `u32` are compared as integers by the ordered collections of std.
pub proof fn lemma_u32_keys_ordered()
    ensures
        vstd::laws_cmp::obeys_cmp::<u32>(),
{
    broadcast use vstd::laws_cmp::group_laws_cmp;
}

} // verus!
