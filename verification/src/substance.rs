//! Substances: blocks of elements with stoichiometric indices and
//! oxidation states, and the taxonomic classes they fall into.

use vstd::prelude::*;

use crate::element::{Element, ElementModel, element_wf, is_metal};
use vstd::multiset::Multiset;

verus! {

broadcast use vstd::seq_lib::group_to_multiset_ensures;

/// The seven taxonomic classes a substance can belong to.
#[derive(Clone, Copy, Debug, PartialEq, Eq, Structural)]
pub enum SubstanceClass {
    Simple,
    Hydride,
    Oxide,
    Peroxide,
    Base,
    Acid,
    Salt,
}

/// One element inside a substance: the element record, its stoichiometric
/// index, and its oxidation state (0 until a classification assigns it).
pub struct SubstanceBlock {
    pub element: Element,
    pub index: u8,
    pub oxidation_state: i8,
}

/// The mathematical image of a [`SubstanceBlock`].
#[verifier::ext_equal]
pub ghost struct BlockModel {
    pub element: ElementModel,
    pub index: int,
    pub oxidation_state: int,
}

impl View for SubstanceBlock {
    type V = BlockModel;

    open spec fn view(&self) -> BlockModel {
        BlockModel {
            element: self.element@,
            index: self.index as int,
            oxidation_state: self.oxidation_state as int,
        }
    }
}

impl DeepView for SubstanceBlock {
    type V = BlockModel;

    open spec fn deep_view(&self) -> BlockModel {
        self.view()
    }
}

impl SubstanceBlock {
    /// A block from its parts.
    pub fn new(element: Element, index: u8, oxidation_state: i8) -> (r: Self)
        ensures
            r@.element == element@,
            r@.index == index as int,
            r@.oxidation_state == oxidation_state as int,
    {
        Self { element, index, oxidation_state }
    }
}

/// `b` with its oxidation state replaced.
pub open spec fn with_state(b: BlockModel, ox: int) -> BlockModel {
    BlockModel { oxidation_state: ox, ..b }
}

/// `b` with its oxidation state reset to the unassigned value 0.
pub open spec fn reset_state(b: BlockModel) -> BlockModel {
    with_state(b, 0)
}

/// Every block holds a well-formed element and an index of at least one.
pub open spec fn blocks_wf(s: Seq<BlockModel>) -> bool {
    forall|i: int| 0 <= i < s.len() ==> element_wf(#[trigger] s[i].element) && 1 <= s[i].index
        <= u8::MAX
}

/// No two blocks share an element.
pub open spec fn distinct_charges(s: Seq<BlockModel>) -> bool {
    forall|i: int, j: int|
        0 <= i < j < s.len() ==> #[trigger] s[i].element.charge != #[trigger] s[j].element.charge
}

/// The blocks are ordered by strictly increasing element charge.
pub open spec fn charges_sorted(s: Seq<BlockModel>) -> bool {
    forall|i: int, j: int|
        0 <= i < j < s.len() ==> #[trigger] s[i].element.charge < #[trigger] s[j].element.charge
}

/// No block has been given an oxidation state yet.
pub open spec fn unassigned(s: Seq<BlockModel>) -> bool {
    forall|i: int| 0 <= i < s.len() ==> #[trigger] s[i].oxidation_state == 0
}

/// A classifiable multiset of blocks, in canonical charge order.
pub open spec fn input_wf(s: Seq<BlockModel>) -> bool {
    blocks_wf(s) && charges_sorted(s) && unassigned(s)
}

/// The weighted charge contribution of a group of blocks: the sum of
/// oxidation state times stoichiometric index.
pub open spec fn total_contribution(s: Seq<BlockModel>) -> int
    decreases s.len(),
{
    if s.len() == 0 {
        0
    } else {
        s[0].oxidation_state * s[0].index + total_contribution(s.drop_first())
    }
}

/// The index of the first block carrying the element of charge `c`, or -1.
pub open spec fn charge_index(s: Seq<BlockModel>, c: int) -> int
    decreases s.len(),
{
    if s.len() == 0 {
        -1
    } else if s[0].element.charge == c {
        0
    } else {
        let r = charge_index(s.drop_first(), c);
        if r == -1 {
            -1
        } else {
            r + 1
        }
    }
}

/// A block of the element of charge `c` is present.
pub open spec fn has_charge(s: Seq<BlockModel>, c: int) -> bool {
    charge_index(s, c) >= 0
}

/// The block carrying the element of charge `c`.
pub open spec fn block_of(s: Seq<BlockModel>, c: int) -> BlockModel {
    s[charge_index(s, c)]
}

/// `s` without the block carrying the element of charge `c`.
pub open spec fn remove_charge(s: Seq<BlockModel>, c: int) -> Seq<BlockModel> {
    s.remove(charge_index(s, c))
}

/// The index of the first block whose element charge is minimal in `s`.
pub open spec fn min_charge_index(s: Seq<BlockModel>) -> int
    decreases s.len(),
{
    if s.len() <= 1 {
        0
    } else {
        let r = min_charge_index(s.drop_first());
        if s[0].element.charge <= s[r + 1].element.charge {
            0
        } else {
            r + 1
        }
    }
}

/// The blocks of `s` brought into canonical order: ascending element charge.
pub open spec fn canon(s: Seq<BlockModel>) -> Seq<BlockModel>
    decreases s.len(),
{
    if s.len() == 0 {
        s
    } else {
        let k = if 0 <= min_charge_index(s) < s.len() {
            min_charge_index(s)
        } else {
            0
        };
        seq![s[k]] + canon(s.remove(k))
    }
}

pub proof fn lemma_min_charge_index(s: Seq<BlockModel>)
    requires
        s.len() > 0,
    ensures
        0 <= min_charge_index(s) < s.len(),
        forall|i: int|
            0 <= i < s.len() ==> s[min_charge_index(s)].element.charge
                <= #[trigger] s[i].element.charge,
    decreases s.len(),
{
    if s.len() > 1 {
        lemma_min_charge_index(s.drop_first());
        assert(forall|i: int|
            1 <= i < s.len() ==> #[trigger] s[i] == s.drop_first()[i - 1]);
    }
}

/// Removing one block keeps the remaining charges distinct.
pub proof fn lemma_remove_distinct(s: Seq<BlockModel>, k: int)
    requires
        distinct_charges(s),
        0 <= k < s.len(),
    ensures
        distinct_charges(s.remove(k)),
{
    assert forall|i: int, j: int| 0 <= i < j < s.remove(k).len() implies #[trigger] s.remove(
        k,
    )[i].element.charge != #[trigger] s.remove(k)[j].element.charge by {
        let i0 = if i < k {
            i
        } else {
            i + 1
        };
        let j0 = if j < k {
            j
        } else {
            j + 1
        };
        assert(s.remove(k)[i] == s[i0] && s.remove(k)[j] == s[j0]);
    }
}

/// Removing one block keeps the rest in canonical order and well-formed.
pub proof fn lemma_remove_input_wf(s: Seq<BlockModel>, k: int)
    requires
        0 <= k < s.len(),
    ensures
        blocks_wf(s) ==> blocks_wf(s.remove(k)),
        charges_sorted(s) ==> charges_sorted(s.remove(k)),
        unassigned(s) ==> unassigned(s.remove(k)),
{
    assert(forall|i: int|
        0 <= i < s.remove(k).len() ==> #[trigger] s.remove(k)[i] == s[if i < k {
            i
        } else {
            i + 1
        }]);
    if charges_sorted(s) {
        assert forall|i: int, j: int| 0 <= i < j < s.remove(k).len() implies #[trigger] s.remove(
            k,
        )[i].element.charge < #[trigger] s.remove(k)[j].element.charge by {
            let i0 = if i < k {
                i
            } else {
                i + 1
            };
            let j0 = if j < k {
                j
            } else {
                j + 1
            };
            assert(s.remove(k)[i] == s[i0] && s.remove(k)[j] == s[j0]);
        }
    }
}

/// Canonical ordering keeps exactly the original blocks and sorts them by
/// strictly ascending charge.
pub proof fn lemma_canon_ensures(s: Seq<BlockModel>)
    requires
        distinct_charges(s),
    ensures
        canon(s).to_multiset() == s.to_multiset(),
        canon(s).len() == s.len(),
        charges_sorted(canon(s)),
    decreases s.len(),
{
    broadcast use vstd::seq_lib::group_to_multiset_ensures;

    if s.len() == 0 {
        assert(canon(s).to_multiset() =~= s.to_multiset());
    } else {
        let k = min_charge_index(s);
        lemma_min_charge_index(s);
        let m = s[k];
        let rest = s.remove(k);
        lemma_remove_distinct(s, k);
        lemma_canon_ensures(rest);
        assert(canon(s) == seq![m] + canon(rest));
        assert(canon(s)[0] == m);
        // multiset equality
        assert(rest.to_multiset() =~= s.to_multiset().remove(m));
        assert(s.to_multiset().contains(m)) by {
            assert(s[k] == m);
        }
        vstd::seq_lib::lemma_multiset_commutative(seq![m], canon(rest));
        assert(seq![m].to_multiset() =~= Multiset::empty().insert(m)) by {
            assert(seq![m] =~= Seq::empty().push(m));
        }
        assert(canon(s).to_multiset() =~= s.to_multiset());
        // sortedness: the head charge is strictly below every charge in the tail
        assert forall|i: int, j: int| 0 <= i < j < canon(s).len() implies #[trigger] canon(
            s,
        )[i].element.charge < #[trigger] canon(s)[j].element.charge by {
            if i == 0 {
                let b = canon(s)[j];
                assert(canon(rest)[j - 1] == b);
                assert(canon(rest).to_multiset().contains(b)) by {
                    assert(canon(rest).contains(b));
                }
                assert(rest.contains(b));
                let jr = choose|t: int| 0 <= t < rest.len() && rest[t] == b;
                let j0 = if jr < k {
                    jr
                } else {
                    jr + 1
                };
                assert(s[j0] == b);
                assert(m.element.charge <= b.element.charge);
                assert(j0 != k);
                assert(m.element.charge != b.element.charge);
            } else {
                assert(canon(rest)[i - 1] == canon(s)[i]);
                assert(canon(rest)[j - 1] == canon(s)[j]);
            }
        }
    }
}

/// Two sequences in canonical charge order holding the same multiset of
/// blocks are the same sequence.
pub proof fn lemma_sorted_charges_unique(x: Seq<BlockModel>, y: Seq<BlockModel>)
    requires
        charges_sorted(x),
        charges_sorted(y),
        x.to_multiset() == y.to_multiset(),
    ensures
        x == y,
    decreases x.len(),
{
    broadcast use vstd::seq_lib::group_to_multiset_ensures;

    if x.len() == 0 {
        assert(y.len() == x.to_multiset().len());
        assert(x =~= y);
    } else {
        assert(x.to_multiset().contains(x[0])) by {
            assert(x.contains(x[0]));
        }
        assert(y.len() > 0);
        assert(y.to_multiset().contains(y[0])) by {
            assert(y.contains(y[0]));
        }
        assert(x.contains(y[0]));
        assert(y.contains(x[0]));
        let i = choose|t: int| 0 <= t < x.len() && x[t] == y[0];
        let j = choose|t: int| 0 <= t < y.len() && y[t] == x[0];
        assert(x[0].element.charge <= x[i].element.charge);
        assert(y[0].element.charge <= y[j].element.charge);
        assert(x[0].element.charge == y[0].element.charge);
        assert(i == 0) by {
            if i > 0 {
                assert(x[0].element.charge < x[i].element.charge);
            }
        }
        assert(x[0] == y[0]);
        assert(x.drop_first().to_multiset() =~= y.drop_first().to_multiset()) by {
            assert(x.remove(0) =~= x.drop_first());
            assert(y.remove(0) =~= y.drop_first());
            assert(x.remove(0).to_multiset() =~= x.to_multiset().remove(x[0]));
            assert(y.remove(0).to_multiset() =~= y.to_multiset().remove(y[0]));
        }
        assert(charges_sorted(x.drop_first())) by {
            assert(forall|t: int|
                0 <= t < x.drop_first().len() ==> #[trigger] x.drop_first()[t] == x[t + 1]);
        }
        assert(charges_sorted(y.drop_first())) by {
            assert(forall|t: int|
                0 <= t < y.drop_first().len() ==> #[trigger] y.drop_first()[t] == y[t + 1]);
        }
        lemma_sorted_charges_unique(x.drop_first(), y.drop_first());
        assert(x =~= y) by {
            assert(forall|t: int|
                1 <= t < x.len() ==> #[trigger] x[t] == x.drop_first()[t - 1] && y[t]
                    == y.drop_first()[t - 1]);
        }
    }
}

/// What `charge_index` finds: the first position holding charge `c`, with
/// nothing before it holding `c`; or nothing at all.
pub proof fn lemma_charge_index(s: Seq<BlockModel>, c: int)
    ensures
        has_charge(s, c) ==> {
            &&& 0 <= charge_index(s, c) < s.len()
            &&& s[charge_index(s, c)].element.charge == c
            &&& forall|i: int| 0 <= i < charge_index(s, c) ==> #[trigger] s[i].element.charge != c
        },
        !has_charge(s, c) ==> forall|i: int|
            0 <= i < s.len() ==> #[trigger] s[i].element.charge != c,
    decreases s.len(),
{
    if s.len() == 0 {
    } else if s[0].element.charge == c {
    } else {
        lemma_charge_index(s.drop_first(), c);
        assert(forall|i: int|
            1 <= i < s.len() ==> #[trigger] s[i] == s.drop_first()[i - 1]);
    }
}

/// A classified substance: the electropositive blocks (`me`), the
/// electronegative blocks (`anti_me`), and the taxonomic class.
pub struct Substance {
    pub me: Vec<SubstanceBlock>,
    pub anti_me: Vec<SubstanceBlock>,
    pub class: SubstanceClass,
}

/// The mathematical image of a [`Substance`].
#[verifier::ext_equal]
pub ghost struct SubstanceModel {
    pub me: Seq<BlockModel>,
    pub anti_me: Seq<BlockModel>,
    pub class: SubstanceClass,
}

impl View for Substance {
    type V = SubstanceModel;

    open spec fn view(&self) -> SubstanceModel {
        SubstanceModel {
            me: self.me.deep_view(),
            anti_me: self.anti_me.deep_view(),
            class: self.class,
        }
    }
}

impl SubstanceModel {
    /// All blocks of the substance: the `me` group followed by `anti_me`.
    pub open spec fn blocks(self) -> Seq<BlockModel> {
        self.me + self.anti_me
    }
}

/// Removes and returns the block carrying the element of charge `c` and its
/// position, leaving the rest in their order; `None` when no block carries
/// it.
pub fn take_charge(sbs: &mut Vec<SubstanceBlock>, c: u16) -> (r: Option<(usize, SubstanceBlock)>)
    ensures
        match r {
            Some((pos, b)) => {
                &&& has_charge(old(sbs).deep_view(), c as int)
                &&& pos as int == charge_index(old(sbs).deep_view(), c as int)
                &&& b@ == block_of(old(sbs).deep_view(), c as int)
                &&& final(sbs).deep_view() == remove_charge(old(sbs).deep_view(), c as int)
                &&& final(sbs).deep_view().len() + 1 == old(sbs).deep_view().len()
            },
            None => {
                &&& !has_charge(old(sbs).deep_view(), c as int)
                &&& *final(sbs) == *old(sbs)
            },
        },
{
    let ghost orig = old(sbs).deep_view();
    let mut i: usize = 0;
    while i < sbs.len()
        invariant
            *sbs == *old(sbs),
            i <= sbs.len(),
            forall|t: int| 0 <= t < i ==> #[trigger] orig[t].element.charge != c as int,
            orig == old(sbs).deep_view(),
        decreases sbs.len() - i,
    {
        if sbs[i].element.charge == c {
            proof {
                lemma_charge_index(orig, c as int);
                assert(orig[i as int].element.charge == c as int);
                assert(charge_index(orig, c as int) == i as int) by {
                    let ci = charge_index(orig, c as int);
                    if ci > i as int {
                        assert(orig[i as int].element.charge != c as int);
                    }
                    if 0 <= ci < i as int {
                        assert(orig[ci].element.charge != c as int);
                    }
                }
            }
            let b = sbs.remove(i);
            proof {
                assert(sbs.deep_view() =~= remove_charge(orig, c as int));
            }
            return Some((i, b));
        }
        i = i + 1;
    }
    proof {
        lemma_charge_index(orig, c as int);
        if has_charge(orig, c as int) {
            let ci = charge_index(orig, c as int);
            assert(orig[ci].element.charge != c as int);
        }
    }
    None
}

/// A rearrangement of blocks with pairwise distinct charges again has
/// pairwise distinct charges.
pub proof fn lemma_multiset_distinct_charges(s0: Seq<BlockModel>, s: Seq<BlockModel>)
    requires
        distinct_charges(s0),
        s.to_multiset() == s0.to_multiset(),
    ensures
        distinct_charges(s),
{
    assert(s0.no_duplicates()) by {
        assert forall|i: int, j: int| 0 <= i < j < s0.len() implies s0[i] != s0[j] by {
            assert(s0[i].element.charge != s0[j].element.charge);
        }
    }
    s0.lemma_multiset_has_no_duplicates();
    s.lemma_multiset_has_no_duplicates_conv();
    assert forall|i: int, j: int| 0 <= i < j < s.len() implies #[trigger] s[i].element.charge
        != #[trigger] s[j].element.charge by {
        assert(s[i] != s[j]);
        assert(s.to_multiset().contains(s[i])) by {
            assert(s.contains(s[i]));
        }
        assert(s.to_multiset().contains(s[j])) by {
            assert(s.contains(s[j]));
        }
        assert(s0.contains(s[i]) && s0.contains(s[j]));
        if s[i].element.charge == s[j].element.charge {
            let i0 = choose|t: int| 0 <= t < s0.len() && s0[t] == s[i];
            let j0 = choose|t: int| 0 <= t < s0.len() && s0[t] == s[j];
            assert(i0 != j0);
            assert(s0[i0].element.charge != s0[j0].element.charge);
        }
    }
}

/// A sequence already in canonical order is its own canonical form.
pub proof fn lemma_sorted_canon_identity(s: Seq<BlockModel>)
    requires
        charges_sorted(s),
    ensures
        canon(s) == s,
{
    lemma_canon_ensures(s);
    lemma_sorted_charges_unique(canon(s), s);
}

/// In canonical order a hydrogen block can only sit first: no element
/// charge lies below 1.
pub proof fn lemma_hydrogen_first(s: Seq<BlockModel>)
    requires
        blocks_wf(s),
        charges_sorted(s),
        has_charge(s, 1),
    ensures
        charge_index(s, 1) == 0,
        s[0].element.charge == 1,
    decreases s.len(),
{
    lemma_charge_index(s, 1);
    let ci = charge_index(s, 1);
    if ci > 0 {
        assert(s[0].element.charge < s[ci].element.charge);
        assert(element_wf(s[0].element));
    }
}

/// Rebuilds the blocks in canonical order: ascending element charge.
pub fn into_canonical_order(sbs: Vec<SubstanceBlock>) -> (r: Vec<SubstanceBlock>)
    requires
        distinct_charges(sbs.deep_view()),
    ensures
        r.deep_view() == canon(sbs.deep_view()),
        charges_sorted(r.deep_view()),
        r.deep_view().to_multiset() == sbs.deep_view().to_multiset(),
{
    let ghost orig = sbs.deep_view();
    let mut rem = sbs;
    let mut out: Vec<SubstanceBlock> = Vec::new();
    proof {
        assert(out.deep_view() =~= Seq::<BlockModel>::empty());
        assert(out.deep_view().to_multiset().add(rem.deep_view().to_multiset()) =~= orig.to_multiset());
    }
    while rem.len() > 0
        invariant
            distinct_charges(rem.deep_view()),
            charges_sorted(out.deep_view()),
            out.deep_view().to_multiset().add(rem.deep_view().to_multiset()) == orig.to_multiset(),
            forall|i: int, j: int|
                0 <= i < out.deep_view().len() && 0 <= j < rem.deep_view().len()
                    ==> #[trigger] out.deep_view()[i].element.charge < #[trigger] rem.deep_view()[j].element.charge,
        decreases rem.len(),
    {
        // find the position of the least remaining charge
        let mut k: usize = 0;
        let mut i: usize = 1;
        while i < rem.len()
            invariant
                k < i <= rem.len() || (i <= rem.len() && k == 0),
                k < rem.len(),
                rem.len() > 0,
                forall|t: int|
                    0 <= t < i ==> rem.deep_view()[k as int].element.charge
                        <= #[trigger] rem.deep_view()[t].element.charge,
            decreases rem.len() - i,
        {
            if rem[i].element.charge < rem[k].element.charge {
                k = i;
            }
            i = i + 1;
        }
        let ghost rem0 = rem.deep_view();
        let ghost out0 = out.deep_view();
        let b = rem.remove(k);
        out.push(b);
        proof {
            assert(rem.deep_view() =~= rem0.remove(k as int));
            assert(out.deep_view() =~= out0.push(b@));
            assert(b@ == rem0[k as int]);
            lemma_remove_distinct(rem0, k as int);
            assert(rem0.remove(k as int).to_multiset() =~= rem0.to_multiset().remove(b@));
            assert(rem0.to_multiset().contains(b@)) by {
                assert(rem0[k as int] == b@);
            }
            assert(out.deep_view().to_multiset() =~= out0.to_multiset().insert(b@));
            assert(out.deep_view().to_multiset().add(rem.deep_view().to_multiset())
                =~= orig.to_multiset());
            // the pushed block is above everything already placed and below
            // everything still remaining
            assert forall|i2: int, j2: int|
                0 <= i2 < out.deep_view().len() && 0 <= j2 < rem.deep_view().len()
                    implies #[trigger] out.deep_view()[i2].element.charge
                    < #[trigger] rem.deep_view()[j2].element.charge by {
                let j0 = if j2 < k as int {
                    j2
                } else {
                    j2 + 1
                };
                assert(rem.deep_view()[j2] == rem0[j0]);
                if i2 < out0.len() {
                    assert(out.deep_view()[i2] == out0[i2]);
                } else {
                    assert(out.deep_view()[i2] == b@);
                    assert(b@.element.charge <= rem0[j0].element.charge);
                    assert(j0 != k as int);
                    assert(rem0[j0].element.charge != rem0[k as int].element.charge);
                }
            }
            assert(charges_sorted(out.deep_view())) by {
                assert(forall|t: int| 0 <= t < out0.len() ==> #[trigger] out.deep_view()[t] == out0[t]);
            }
        }
    }
    proof {
        assert(rem.deep_view() =~= Seq::<BlockModel>::empty());
        assert(rem.deep_view().to_multiset() =~= Multiset::<BlockModel>::empty());
        assert(out.deep_view().to_multiset() =~= orig.to_multiset());
        lemma_canon_ensures(orig);
        lemma_sorted_charges_unique(out.deep_view(), canon(orig));
    }
    out
}

/// Why a classification request failed.
#[derive(Clone, Copy, Debug, PartialEq, Eq, Structural)]
pub enum ClassificationError {
    /// Every recognizer rejected the multiset.
    UnknownSubstance,
    /// The caller supplied other than exactly one substance.
    WrongArity,
}

/// Canonical ordering keeps every block well-formed and unassigned.
pub proof fn lemma_canon_input_wf(s: Seq<BlockModel>)
    requires
        blocks_wf(s),
        distinct_charges(s),
        unassigned(s),
    ensures
        input_wf(canon(s)),
{
    broadcast use vstd::seq_lib::group_to_multiset_ensures;

    lemma_canon_ensures(s);
    assert forall|i: int|
        #![trigger canon(s)[i].element]
        #![trigger canon(s)[i].oxidation_state]
        0 <= i < canon(s).len() implies element_wf(canon(s)[i].element) && 1 <= canon(s)[i].index
        <= u8::MAX && canon(s)[i].oxidation_state == 0 by {
        assert(canon(s).to_multiset().contains(canon(s)[i])) by {
            assert(canon(s).contains(canon(s)[i]));
        }
        assert(s.contains(canon(s)[i]));
        let j = choose|t: int| 0 <= t < s.len() && s[t] == canon(s)[i];
        assert(element_wf(s[j].element));
        assert(s[j].oxidation_state == 0);
    }
}

/// The classification pipeline: the recognizers in their fixed precedence
/// order, on blocks in canonical order; the first that accepts decides.
pub open spec fn classify_spec(s: Seq<BlockModel>) -> Option<SubstanceModel> {
    if crate::recognizers::simple_spec(s) is Some {
        crate::recognizers::simple_spec(s)
    } else if crate::recognizers::hydride_spec(s) is Some {
        crate::recognizers::hydride_spec(s)
    } else if crate::recognizers::peroxide_spec(s) is Some {
        crate::recognizers::peroxide_spec(s)
    } else if crate::recognizers::oxide_spec(s) is Some {
        crate::recognizers::oxide_spec(s)
    } else if crate::recognizers::base_spec(s) is Some {
        crate::recognizers::base_spec(s)
    } else if crate::salt::salt_spec(s) is Some {
        crate::salt::salt_spec(s)
    } else {
        crate::salt::acid_spec(s)
    }
}

impl Substance {
    /// Classifies a multiset of element blocks: tries the recognizers in
    /// their fixed precedence order and returns the first acceptance, or
    /// `UnknownSubstance` after the last rejection.
    pub fn from_elements(sb: Vec<SubstanceBlock>) -> (r: Result<Self, ClassificationError>)
        requires
            blocks_wf(sb.deep_view()),
            distinct_charges(sb.deep_view()),
            unassigned(sb.deep_view()),
        ensures
            match r {
                Ok(sub) => classify_spec(canon(sb.deep_view())) == Some(sub@),
                Err(e) => {
                    &&& e == ClassificationError::UnknownSubstance
                    &&& classify_spec(canon(sb.deep_view())) is None
                },
            },
    {
        let ghost s0 = sb.deep_view();
        proof {
            lemma_canon_input_wf(s0);
        }
        let sorted = into_canonical_order(sb);
        let ghost cs = canon(s0);
        let sorted = match crate::recognizers::try_simple(sorted) {
            Ok(sub) => {
                return Ok(sub);
            },
            Err(v) => v,
        };
        let sorted = match crate::recognizers::try_hydride(sorted) {
            Ok(sub) => {
                return Ok(sub);
            },
            Err(v) => v,
        };
        let sorted = match crate::recognizers::try_peroxide(sorted) {
            Ok(sub) => {
                return Ok(sub);
            },
            Err(v) => v,
        };
        let sorted = match crate::recognizers::try_oxide(sorted) {
            Ok(sub) => {
                return Ok(sub);
            },
            Err(v) => v,
        };
        let sorted = match crate::recognizers::try_base(sorted) {
            Ok(sub) => {
                return Ok(sub);
            },
            Err(v) => v,
        };
        let sorted = match crate::salt::try_salt(sorted) {
            Ok(sub) => {
                return Ok(sub);
            },
            Err(v) => v,
        };
        match crate::salt::try_acid(sorted) {
            Ok(sub) => Ok(sub),
            Err(_) => Err(ClassificationError::UnknownSubstance),
        }
    }
}

} // verus!
