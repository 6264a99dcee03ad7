//! The acid and salt recognizers: the general residue patterns that rest
//! on the combinatorial valency search.

use vstd::prelude::*;
use vstd::multiset::Multiset;

use crate::element::{element_wf, is_metal, oxidant_eligible};
use crate::search::{
    apply_assignment, assigned, find_assignment, find_match, search_assignment, search_match,
    vals_view,
};
use crate::substance::{
    BlockModel, Substance, SubstanceBlock, SubstanceClass, SubstanceModel, block_of, blocks_wf,
    charges_sorted, charge_index, has_charge, input_wf, into_canonical_order, lemma_charge_index,
    lemma_hydrogen_first, lemma_remove_input_wf, lemma_sorted_canon_identity, remove_charge,
    take_charge, unassigned, with_state,
};

verus! {

/// The predicate that sends a block to the cation side.
pub open spec fn metal_pred() -> spec_fn(BlockModel) -> bool {
    |b: BlockModel| is_metal(b.element)
}

/// The predicate that sends a block to the anion side.
pub open spec fn nonmetal_pred() -> spec_fn(BlockModel) -> bool {
    |b: BlockModel| !is_metal(b.element)
}

/// The index of the first block, among those eligible as an oxidant, with
/// maximal electronegativity; -1 when none is eligible.
pub open spec fn best_oxidant_index(s: Seq<BlockModel>) -> int
    decreases s.len(),
{
    if s.len() == 0 {
        -1
    } else {
        let r = best_oxidant_index(s.drop_first());
        if oxidant_eligible(s[0].element) {
            if r == -1 || s[0].element.electronegativity_e2 >= s[r
                + 1].element.electronegativity_e2 {
                0
            } else {
                r + 1
            }
        } else {
            if r == -1 {
                -1
            } else {
                r + 1
            }
        }
    }
}

/// What `best_oxidant_index` selects: nothing when nothing is eligible,
/// else the earliest among the eligible blocks of maximal
/// electronegativity.
pub proof fn lemma_best_oxidant_index(s: Seq<BlockModel>)
    ensures
        best_oxidant_index(s) == -1 ==> forall|i: int|
            0 <= i < s.len() ==> !oxidant_eligible(#[trigger] s[i].element),
        best_oxidant_index(s) != -1 ==> {
            let b = best_oxidant_index(s);
            &&& 0 <= b < s.len()
            &&& oxidant_eligible(s[b].element)
            &&& forall|i: int|
                0 <= i < s.len() && oxidant_eligible(#[trigger] s[i].element)
                    ==> s[i].element.electronegativity_e2 <= s[b].element.electronegativity_e2
            &&& forall|i: int|
                0 <= i < b && oxidant_eligible(#[trigger] s[i].element)
                    ==> s[i].element.electronegativity_e2 < s[b].element.electronegativity_e2
        },
    decreases s.len(),
{
    if s.len() > 0 {
        lemma_best_oxidant_index(s.drop_first());
        assert(forall|i: int| 1 <= i < s.len() ==> #[trigger] s[i] == s.drop_first()[i - 1]);
    }
}

/// A block that may be moved from the cation to the anion side: a metal
/// outside the first two groups.
pub open spec fn demotable(b: BlockModel) -> bool {
    is_metal(b.element) && b.element.group > 2
}

/// The index of the first demotable block with minimal electronegativity;
/// -1 when none is demotable.
pub open spec fn demote_index(s: Seq<BlockModel>) -> int
    decreases s.len(),
{
    if s.len() == 0 {
        -1
    } else {
        let r = demote_index(s.drop_first());
        if demotable(s[0]) {
            if r == -1 || s[0].element.electronegativity_e2 <= s[r
                + 1].element.electronegativity_e2 {
                0
            } else {
                r + 1
            }
        } else {
            if r == -1 {
                -1
            } else {
                r + 1
            }
        }
    }
}

/// What `demote_index` selects: nothing when nothing is demotable, else
/// the earliest among the demotable blocks of minimal electronegativity.
pub proof fn lemma_demote_index(s: Seq<BlockModel>)
    ensures
        demote_index(s) == -1 ==> forall|i: int| 0 <= i < s.len() ==> !demotable(#[trigger] s[i]),
        demote_index(s) != -1 ==> {
            let b = demote_index(s);
            &&& 0 <= b < s.len()
            &&& demotable(s[b])
            &&& forall|i: int|
                0 <= i < s.len() && demotable(#[trigger] s[i]) ==> s[i].element.electronegativity_e2
                    >= s[b].element.electronegativity_e2
            &&& forall|i: int|
                0 <= i < b && demotable(#[trigger] s[i]) ==> s[i].element.electronegativity_e2
                    > s[b].element.electronegativity_e2
        },
    decreases s.len(),
{
    if s.len() > 0 {
        lemma_demote_index(s.drop_first());
        assert(forall|i: int| 1 <= i < s.len() ==> #[trigger] s[i] == s.drop_first()[i - 1]);
    }
}

/// Splitting the blocks into the metal and non-metal groups keeps exactly
/// the original blocks.
pub proof fn lemma_filter_partition(s: Seq<BlockModel>)
    ensures
        s.filter(metal_pred()).to_multiset().add(s.filter(nonmetal_pred()).to_multiset())
            == s.to_multiset(),
    decreases s.len(),
{
    broadcast use vstd::seq_lib::group_to_multiset_ensures;

    reveal(Seq::filter);
    let pred = metal_pred();
    let npred = nonmetal_pred();
    if s.len() == 0 {
        assert(s.filter(pred).to_multiset().add(s.filter(npred).to_multiset()) =~= s.to_multiset());
    } else {
        let dl = s.drop_last();
        lemma_filter_partition(dl);
        assert(s =~= dl.push(s.last()));
        assert(s.to_multiset() =~= dl.to_multiset().insert(s.last()));
        if pred(s.last()) {
            assert(s.filter(pred) == dl.filter(pred).push(s.last()));
            assert(s.filter(npred) == dl.filter(npred));
            assert(s.filter(pred).to_multiset() =~= dl.filter(pred).to_multiset().insert(s.last()));
            assert(s.filter(pred).to_multiset().add(s.filter(npred).to_multiset())
                =~= s.to_multiset());
        } else {
            assert(s.filter(pred) == dl.filter(pred));
            assert(s.filter(npred) == dl.filter(npred).push(s.last()));
            assert(s.filter(npred).to_multiset() =~= dl.filter(npred).to_multiset().insert(
                s.last(),
            ));
            assert(s.filter(pred).to_multiset().add(s.filter(npred).to_multiset())
                =~= s.to_multiset());
        }
    }
}

/// Splits the blocks into the metal and non-metal groups, keeping order.
fn partition_metals(sbs: Vec<SubstanceBlock>) -> (r: (Vec<SubstanceBlock>, Vec<SubstanceBlock>))
    requires
        blocks_wf(sbs.deep_view()),
        charges_sorted(sbs.deep_view()),
    ensures
        r.0.deep_view() == sbs.deep_view().filter(metal_pred()),
        r.1.deep_view() == sbs.deep_view().filter(nonmetal_pred()),
        blocks_wf(r.0.deep_view()) && charges_sorted(r.0.deep_view()),
        blocks_wf(r.1.deep_view()) && charges_sorted(r.1.deep_view()),
        forall|i: int|
            0 <= i < r.0.deep_view().len() ==> is_metal(#[trigger] r.0.deep_view()[i].element),
        forall|i: int|
            0 <= i < r.1.deep_view().len() ==> !is_metal(#[trigger] r.1.deep_view()[i].element),
        unassigned(sbs.deep_view()) ==> unassigned(r.0.deep_view()) && unassigned(r.1.deep_view()),
{
    let ghost s0 = sbs.deep_view();
    let mut rem = sbs;
    let mut mes: Vec<SubstanceBlock> = Vec::new();
    let mut ants: Vec<SubstanceBlock> = Vec::new();
    let ghost n = s0.len();
    let mut i: usize = 0;
    proof {
        reveal(Seq::filter);
        assert(s0.subrange(0, 0) =~= Seq::<BlockModel>::empty());
        assert(mes.deep_view() =~= s0.subrange(0, 0).filter(metal_pred()));
        assert(ants.deep_view() =~= s0.subrange(0, 0).filter(nonmetal_pred()));
    }
    while i < rem.len()
        invariant
            i <= rem.len(),
            rem.deep_view() == s0,
            blocks_wf(s0),
            charges_sorted(s0),
            mes.deep_view() == s0.subrange(0, i as int).filter(metal_pred()),
            ants.deep_view() == s0.subrange(0, i as int).filter(nonmetal_pred()),
            forall|t: int|
                0 <= t < mes.deep_view().len() ==> exists|q: int|
                    0 <= q < i && #[trigger] mes.deep_view()[t] == s0[q],
            forall|t: int|
                0 <= t < ants.deep_view().len() ==> exists|q: int|
                    0 <= q < i && #[trigger] ants.deep_view()[t] == s0[q],
            blocks_wf(mes.deep_view()) && charges_sorted(mes.deep_view()),
            blocks_wf(ants.deep_view()) && charges_sorted(ants.deep_view()),
            forall|t: int|
                0 <= t < mes.deep_view().len() ==> is_metal(
                    #[trigger] mes.deep_view()[t].element,
                ),
            forall|t: int|
                0 <= t < ants.deep_view().len() ==> !is_metal(
                    #[trigger] ants.deep_view()[t].element,
                ),
            unassigned(s0) ==> unassigned(mes.deep_view()) && unassigned(ants.deep_view()),
            forall|t: int, q: int|
                0 <= t < mes.deep_view().len() && i <= q < s0.len()
                    ==> #[trigger] mes.deep_view()[t].element.charge < #[trigger] s0[
                    q].element.charge,
            forall|t: int, q: int|
                0 <= t < ants.deep_view().len() && i <= q < s0.len()
                    ==> #[trigger] ants.deep_view()[t].element.charge < #[trigger] s0[
                    q].element.charge,
        decreases rem.len() - i,
    {
        let metal = rem[i].element.is_me();
        let b = rem[i].element.duplicate();
        let blk = SubstanceBlock {
            element: b,
            index: rem[i].index,
            oxidation_state: rem[i].oxidation_state,
        };
        proof {
            assert(blk@ == s0[i as int]);
            reveal(Seq::filter);
            assert(s0.subrange(0, i + 1).drop_last() =~= s0.subrange(0, i as int));
            assert(s0.subrange(0, i + 1).last() == s0[i as int]);
        }
        let ghost mes0 = mes.deep_view();
        let ghost ants0 = ants.deep_view();
        if metal {
            mes.push(blk);
            proof {
                assert(mes.deep_view() =~= mes0.push(s0[i as int]));
                assert(mes.deep_view() =~= s0.subrange(0, i + 1).filter(metal_pred()));
                assert(ants.deep_view() =~= s0.subrange(0, i + 1).filter(nonmetal_pred()));
            }
        } else {
            ants.push(blk);
            proof {
                assert(ants.deep_view() =~= ants0.push(s0[i as int]));
                assert(ants.deep_view() =~= s0.subrange(0, i + 1).filter(nonmetal_pred()));
                assert(mes.deep_view() =~= s0.subrange(0, i + 1).filter(metal_pred()));
            }
        }
        i = i + 1;
    }
    proof {
        assert(s0.subrange(0, n as int) =~= s0);
    }
    (mes, ants)
}

/// Finds the position `best_oxidant_index` names, if any.
fn find_best_oxidant(sbs: &Vec<SubstanceBlock>) -> (r: Option<usize>)
    ensures
        match r {
            Some(i) => i as int == best_oxidant_index(sbs.deep_view()),
            None => best_oxidant_index(sbs.deep_view()) == -1,
        },
{
    let ghost s = sbs.deep_view();
    let mut best: usize = 0;
    let mut found = false;
    let mut i: usize = 0;
    while i < sbs.len()
        invariant
            s == sbs.deep_view(),
            i <= s.len(),
            !found ==> forall|t: int| 0 <= t < i ==> !oxidant_eligible(#[trigger] s[t].element),
            found ==> {
                &&& (best as int) < i as int
                &&& oxidant_eligible(s[best as int].element)
                &&& forall|t: int|
                    0 <= t < i && oxidant_eligible(#[trigger] s[t].element)
                        ==> s[t].element.electronegativity_e2 <= s[
                        best as int].element.electronegativity_e2
                &&& forall|t: int|
                    0 <= t < best as int && oxidant_eligible(#[trigger] s[t].element)
                        ==> s[t].element.electronegativity_e2 < s[
                        best as int].element.electronegativity_e2
            },
        decreases sbs.len() - i,
    {
        let eligible = sbs[i].element.group > 15 || sbs[i].element.electronegativity_e2 > 280;
        proof {
            assert(eligible == oxidant_eligible(s[i as int].element));
        }
        if eligible {
            if !found {
                best = i;
                found = true;
            } else if sbs[i].element.electronegativity_e2 > sbs[best].element.electronegativity_e2 {
                best = i;
            }
        }
        i = i + 1;
    }
    proof {
        lemma_best_oxidant_index(s);
    }
    if found {
        Some(best)
    } else {
        None
    }
}

/// Finds the position `demote_index` names, if any.
fn find_demote(sbs: &Vec<SubstanceBlock>) -> (r: Option<usize>)
    ensures
        match r {
            Some(i) => i as int == demote_index(sbs.deep_view()),
            None => demote_index(sbs.deep_view()) == -1,
        },
{
    let ghost s = sbs.deep_view();
    let mut best: usize = 0;
    let mut found = false;
    let mut i: usize = 0;
    while i < sbs.len()
        invariant
            s == sbs.deep_view(),
            i <= s.len(),
            !found ==> forall|t: int| 0 <= t < i ==> !demotable(#[trigger] s[t]),
            found ==> {
                &&& (best as int) < i as int
                &&& demotable(s[best as int])
                &&& forall|t: int|
                    0 <= t < i && demotable(#[trigger] s[t]) ==> s[t].element.electronegativity_e2
                        >= s[best as int].element.electronegativity_e2
                &&& forall|t: int|
                    0 <= t < best as int && demotable(#[trigger] s[t])
                        ==> s[t].element.electronegativity_e2 > s[
                        best as int].element.electronegativity_e2
            },
        decreases sbs.len() - i,
    {
        let can = sbs[i].element.is_me() && sbs[i].element.group > 2;
        proof {
            assert(can == demotable(s[i as int]));
        }
        if can {
            if !found {
                best = i;
                found = true;
            } else if sbs[i].element.electronegativity_e2 < sbs[best].element.electronegativity_e2 {
                best = i;
            }
        }
        i = i + 1;
    }
    proof {
        lemma_demote_index(s);
    }
    if found {
        Some(best)
    } else {
        None
    }
}

/// Acid: hydrogen against a residue of groups three and up that carries at
/// least one oxidant.  Hydrogen takes +1, the oxidant its group-derived
/// anchor, and the rest of the residue the first valency draw that leaves
/// the species neutral.
pub open spec fn acid_spec(s: Seq<BlockModel>) -> Option<SubstanceModel> {
    if !has_charge(s, 1) {
        None
    } else {
        let h = block_of(s, 1);
        let r = remove_charge(s, 1);
        if exists|i: int| 0 <= i < r.len() && #[trigger] r[i].element.group < 3 {
            None
        } else {
            let oi = best_oxidant_index(r);
            if oi == -1 {
                None
            } else {
                let ox = r[oi];
                let rest = r.remove(oi);
                let anchor = ox.element.group - 18;
                match find_assignment(rest, anchor * ox.index, -h.index) {
                    Some(vals) => {
                        let committed = assigned(rest, vals);
                        Some(
                            SubstanceModel {
                                me: committed.filter(metal_pred()),
                                anti_me: seq![with_state(h, 1), with_state(ox, anchor)]
                                    + committed.filter(nonmetal_pred()),
                                class: SubstanceClass::Acid,
                            },
                        )
                    },
                    None => None,
                }
            }
        }
    }
}

/// Tries the acid shape.  On failure the input comes back untouched.
pub fn try_acid(sbs: Vec<SubstanceBlock>) -> (r: Result<Substance, Vec<SubstanceBlock>>)
    requires
        input_wf(sbs.deep_view()),
    ensures
        match r {
            Ok(sub) => acid_spec(sbs.deep_view()) == Some(sub@),
            Err(v) => acid_spec(sbs.deep_view()) is None && v.deep_view() == sbs.deep_view(),
        },
{
    let ghost s0 = sbs.deep_view();
    let mut sbs = sbs;
    let (hpos, h) = match take_charge(&mut sbs, 1) {
        Some(ph) => ph,
        None => {
            return Err(sbs);
        },
    };
    proof {
        lemma_hydrogen_first(s0);
        assert(hpos == 0);
        lemma_charge_index(s0, 1);
        lemma_remove_input_wf(s0, 0);
        assert(remove_charge(s0, 1) =~= s0.remove(0));
    }
    let ghost rv = remove_charge(s0, 1);
    let ghost hm = h@;
    // an alkali or alkaline-earth residue member makes this a base or salt
    let mut low = false;
    let mut i: usize = 0;
    while i < sbs.len()
        invariant
            rv == sbs.deep_view(),
            i <= rv.len(),
            low == exists|t: int| 0 <= t < i && #[trigger] rv[t].element.group < 3,
        decreases sbs.len() - i,
    {
        if sbs[i].element.group < 3 {
            low = true;
            proof {
                assert(rv[i as int].element.group < 3);
            }
        }
        i = i + 1;
    }
    if low {
        let ghost cur = sbs.deep_view();
        sbs.insert(0, h);
        proof {
            assert(sbs.deep_view() =~= cur.insert(0, hm));
            assert(cur.insert(0, hm) =~= s0);
        }
        return Err(sbs);
    }
    let oi = match find_best_oxidant(&sbs) {
        Some(oi) => oi,
        None => {
            let ghost cur = sbs.deep_view();
            sbs.insert(0, h);
            proof {
                assert(sbs.deep_view() =~= cur.insert(0, hm));
                assert(cur.insert(0, hm) =~= s0);
            }
            return Err(sbs);
        },
    };
    proof {
        lemma_best_oxidant_index(rv);
    }
    let ox = sbs.remove(oi);
    let ghost oxm = ox@;
    let ghost restv = rv.remove(oi as int);
    proof {
        assert(sbs.deep_view() =~= restv);
        lemma_remove_input_wf(rv, oi as int);
        assert(element_wf(oxm.element) && 1 <= oxm.index <= 255) by {
            assert(rv[oi as int] == oxm);
        }
        assert(element_wf(hm.element) && 1 <= hm.index <= 255) by {
            assert(s0[0] == hm);
        }
    }
    let anchor: i8 = ox.element.group as i8 - 18;
    proof {
        assert(-17 <= anchor as int <= 0);
        assert(-4335 <= (anchor as int) * (oxm.index) <= 0) by (nonlinear_arith)
            requires
                -17 <= anchor as int <= 0,
                1 <= oxm.index <= 255,
        ;
    }
    let start: i64 = (anchor as i64) * (ox.index as i64);
    let target: i64 = -(h.index as i64);
    proof {
        assert(start as int == (oxm.element.group - 18) * oxm.index);
    }
    match search_assignment(&sbs, start, target) {
        Some(vals) => {
            proof {
                crate::search::lemma_first_solution_sound(restv, 0, start as int, target as int);
                assert forall|t: int| 0 <= t < vals@.len() implies #[trigger] vals@[t] <= 127 by {
                    assert(restv.subrange(0, restv.len() as int) =~= restv);
                    assert(restv[t].element.valencies.contains(vals_view(vals@)[t]));
                    crate::recognizers::lemma_valency_bound(restv[t].element, vals_view(vals@)[t]);
                }
            }
            apply_assignment(&mut sbs, &vals);
            let ghost committed = assigned(restv, vals_view(vals@));
            let (mev, antv) = partition_metals(sbs);
            let mut h = h;
            let mut ox = ox;
            h.oxidation_state = 1;
            ox.oxidation_state = anchor;
            let mut anti: Vec<SubstanceBlock> = Vec::new();
            anti.push(h);
            anti.push(ox);
            let mut antv = antv;
            anti.append(&mut antv);
            let sub = Substance { me: mev, anti_me: anti, class: SubstanceClass::Acid };
            proof {
                assert(h@ == with_state(hm, 1));
                assert(ox@ == with_state(oxm, oxm.element.group - 18));
                assert(sub@.me == committed.filter(metal_pred()));
                assert(sub@.anti_me =~= seq![with_state(hm, 1), with_state(oxm, oxm.element.group - 18)]
                    + committed.filter(nonmetal_pred()));
                assert(sub@ =~= acid_spec(s0)->Some_0);
            }
            Ok(sub)
        },
        None => {
            sbs.insert(oi, ox);
            sbs.insert(0, h);
            proof {
                assert(sbs.deep_view() =~= rv.remove(oi as int).insert(oi as int, oxm).insert(
                    0,
                    hm,
                ));
                assert(rv.remove(oi as int).insert(oi as int, oxm) =~= rv);
                assert(rv.insert(0, hm) =~= s0);
                assert(sbs.deep_view() =~= s0);
            }
            Err(sbs)
        },
    }
}

/// The plain phase of the salt search: the cation side (starting from the
/// hydrogen surplus, if any) against the anion side anchored by the
/// oxidant's group-derived state.
pub open spec fn salt_generic(
    mes: Seq<BlockModel>,
    ants: Seq<BlockModel>,
    ox: BlockModel,
    anchor: int,
    h: Option<BlockModel>,
) -> Option<SubstanceModel> {
    let me_start = match h {
        Some(hb) => hb.index,
        None => 0,
    };
    match find_match(mes, me_start, ants, anchor * ox.index) {
        Some(pair) => Some(
            SubstanceModel {
                me: assigned(mes, pair.0),
                anti_me: assigned(ants, pair.1) + seq![with_state(ox, anchor)] + (match h {
                    Some(hb) => seq![with_state(hb, 1)],
                    None => Seq::empty(),
                }),
                class: SubstanceClass::Salt,
            },
        ),
        None => None,
    }
}

/// The salt search once both sides and the oxidant are fixed: when both
/// hydrogen and oxygen are present, the basic-salt interpretation
/// (hydrogen bound as hydroxide) is tried before the plain phase.
pub open spec fn salt_phase2(
    mes: Seq<BlockModel>,
    ants: Seq<BlockModel>,
    ox: BlockModel,
    anchor: int,
    h: Option<BlockModel>,
) -> Option<SubstanceModel> {
    if h is Some && ox.element.charge == 8 && (ox.index > h->Some_0.index || (ox.index
        == h->Some_0.index && best_oxidant_index(ants) != -1)) {
        let hb = h->Some_0;
        let use_oxi = !(ox.index > hb.index);
        let oi2 = best_oxidant_index(ants);
        let oxi = ants[oi2];
        let ants2 = if use_oxi {
            ants.remove(oi2)
        } else {
            ants
        };
        let res_start = if use_oxi {
            (oxi.element.group - 18) * oxi.index
        } else {
            2 * (hb.index - ox.index)
        };
        match find_match(mes, -hb.index, ants2, res_start) {
            Some(pair) => Some(
                SubstanceModel {
                    me: assigned(mes, pair.0),
                    anti_me: assigned(ants2, pair.1) + (if use_oxi {
                        seq![with_state(oxi, oxi.element.group - 18)]
                    } else {
                        Seq::empty()
                    }) + seq![with_state(ox, -2), with_state(hb, 1)],
                    class: SubstanceClass::Salt,
                },
            ),
            None => salt_generic(mes, ants, ox, anchor, h),
        }
    } else {
        salt_generic(mes, ants, ox, anchor, h)
    }
}

/// The salt search once the oxidant is fixed: a possible demotion of the
/// least electronegative later-group metal to the anion side, then the
/// two-phase search.
pub open spec fn salt_after_ox(
    mes0: Seq<BlockModel>,
    ants1: Seq<BlockModel>,
    ox: BlockModel,
    anchor: int,
    h: Option<BlockModel>,
) -> Option<SubstanceModel> {
    let di = demote_index(mes0);
    let dm = ants1.len() == 0 && di != -1;
    let mes = if dm {
        mes0.remove(di)
    } else {
        mes0
    };
    let ants = if dm {
        seq![mes0[di]]
    } else {
        ants1
    };
    salt_phase2(mes, ants, ox, anchor, h)
}

/// Salt: hydrogen and oxygen set aside, the rest split into cation and
/// anion groups, an oxidant fixed (oxygen itself, or the most
/// electronegative eligible non-metal), and a balanced pair of valency
/// draws searched for.
pub open spec fn salt_spec(s: Seq<BlockModel>) -> Option<SubstanceModel> {
    let hh = has_charge(s, 1);
    let h = if hh {
        Some(block_of(s, 1))
    } else {
        None
    };
    let s1 = if hh {
        remove_charge(s, 1)
    } else {
        s
    };
    let ho = has_charge(s1, 8);
    let o = block_of(s1, 8);
    let r = if ho {
        remove_charge(s1, 8)
    } else {
        s1
    };
    let mes0 = r.filter(metal_pred());
    let ants0 = r.filter(nonmetal_pred());
    if mes0.len() == 0 {
        None
    } else if ho {
        salt_after_ox(mes0, ants0, o, o.element.group - 18, h)
    } else {
        let oi = best_oxidant_index(ants0);
        if oi == -1 {
            None
        } else {
            salt_after_ox(
                mes0,
                ants0.remove(oi),
                ants0[oi],
                ants0[oi].element.group - 18,
                h,
            )
        }
    }
}

/// Every drawn valency of a found pair fits the narrow oxidation-state
/// range.
proof fn lemma_pair_bounds(
    mes: Seq<BlockModel>,
    me_start: int,
    ants: Seq<BlockModel>,
    res_start: int,
    mvals: Seq<int>,
    avals: Seq<int>,
)
    requires
        blocks_wf(mes),
        blocks_wf(ants),
        find_match(mes, me_start, ants, res_start) == Some((mvals, avals)),
    ensures
        forall|t: int| 0 <= t < mvals.len() ==> 0 <= #[trigger] mvals[t] <= 18,
        forall|t: int| 0 <= t < avals.len() ==> 0 <= #[trigger] avals[t] <= 18,
        mvals.len() == mes.len(),
        avals.len() == ants.len(),
{
    crate::search::lemma_match_at_sound(mes, 0, me_start, ants, res_start);
    assert(mes.subrange(0, mes.len() as int) =~= mes);
    assert forall|t: int| 0 <= t < mvals.len() implies 0 <= #[trigger] mvals[t] <= 18 by {
        assert(mes[t].element.valencies.contains(mvals[t]));
        crate::recognizers::lemma_valency_bound(mes[t].element, mvals[t]);
    }
    assert forall|t: int| 0 <= t < avals.len() implies 0 <= #[trigger] avals[t] <= 18 by {
        assert(ants[t].element.valencies.contains(avals[t]));
        crate::recognizers::lemma_valency_bound(ants[t].element, avals[t]);
    }
}

/// Returns the gathered blocks in the canonical order `target` already has.
fn restore_sorted(all: Vec<SubstanceBlock>, Ghost(target): Ghost<Seq<BlockModel>>) -> (r: Vec<
    SubstanceBlock,
>)
    requires
        charges_sorted(target),
        all.deep_view().to_multiset() == target.to_multiset(),
    ensures
        r.deep_view() == target,
{
    proof {
        crate::substance::lemma_multiset_distinct_charges(target, all.deep_view());
    }
    let out = into_canonical_order(all);
    proof {
        crate::substance::lemma_sorted_charges_unique(out.deep_view(), target);
    }
    out
}

/// The executable plain phase: search, then either commit the drawn states
/// or hand every block back (in some order).
fn salt_generic_exec(
    mes: Vec<SubstanceBlock>,
    ants: Vec<SubstanceBlock>,
    ox: SubstanceBlock,
    h: Option<SubstanceBlock>,
) -> (r: Result<Substance, Vec<SubstanceBlock>>)
    requires
        blocks_wf(mes.deep_view()),
        blocks_wf(ants.deep_view()),
        charges_sorted(mes.deep_view()),
        charges_sorted(ants.deep_view()),
        element_wf(ox@.element),
        1 <= ox@.index <= 255,
        h is Some ==> 1 <= h->Some_0@.index <= 255,
    ensures
        ({
            let spec_r = salt_generic(
                mes.deep_view(),
                ants.deep_view(),
                ox@,
                ox@.element.group - 18,
                h.deep_view(),
            );
            match r {
                Ok(sub) => spec_r == Some(sub@),
                Err(v) => spec_r is None && v.deep_view().to_multiset() == mes.deep_view()
                    .to_multiset().add(ants.deep_view().to_multiset()).insert(ox@).add(
                    match h {
                        Some(hb) => Multiset::empty().insert(hb@),
                        None => Multiset::empty(),
                    },
                ),
            }
        }),
{
    broadcast use vstd::seq_lib::group_to_multiset_ensures;

    let ghost mesv = mes.deep_view();
    let ghost antsv = ants.deep_view();
    let ghost oxm = ox@;
    let anchor: i8 = ox.element.group as i8 - 18;
    proof {
        assert(-17 <= anchor as int <= 0);
        assert(-4335 <= (anchor as int) * (oxm.index) <= 0) by (nonlinear_arith)
            requires
                -17 <= anchor as int <= 0,
                1 <= oxm.index <= 255,
        ;
    }
    let res_start: i64 = (anchor as i64) * (ox.index as i64);
    let me_start: i64 = match &h {
        Some(hb) => hb.index as i64,
        None => 0,
    };
    match search_match(&mes, me_start, &ants, res_start) {
        Some(pair) => {
            let (mvals, avals) = pair;
            proof {
                lemma_pair_bounds(
                    mesv,
                    me_start as int,
                    antsv,
                    res_start as int,
                    vals_view(mvals@),
                    vals_view(avals@),
                );
                assert forall|t: int| 0 <= t < mvals@.len() implies #[trigger] mvals@[t]
                    <= 127 by {
                    assert(vals_view(mvals@)[t] == mvals@[t] as int);
                }
                assert forall|t: int| 0 <= t < avals@.len() implies #[trigger] avals@[t]
                    <= 127 by {
                    assert(vals_view(avals@)[t] == avals@[t] as int);
                }
            }
            let mut mes = mes;
            let mut ants = ants;
            apply_assignment(&mut mes, &mvals);
            apply_assignment(&mut ants, &avals);
            let mut ox = ox;
            ox.oxidation_state = anchor;
            let mut anti = ants;
            anti.push(ox);
            match h {
                Some(hb) => {
                    let mut hb = hb;
                    hb.oxidation_state = 1;
                    anti.push(hb);
                    let sub = Substance { me: mes, anti_me: anti, class: SubstanceClass::Salt };
                    proof {
                        assert(sub@.anti_me =~= assigned(antsv, vals_view(avals@)) + seq![
                            with_state(oxm, oxm.element.group - 18),
                        ] + seq![with_state(hb@, 1)]);
                        assert(sub@ =~= salt_generic(
                            mesv,
                            antsv,
                            oxm,
                            oxm.element.group - 18,
                            Some(hb@),
                        )->Some_0);
                    }
                    Ok(sub)
                },
                None => {
                    let sub = Substance { me: mes, anti_me: anti, class: SubstanceClass::Salt };
                    proof {
                        assert(sub@.anti_me =~= assigned(antsv, vals_view(avals@)) + seq![
                            with_state(oxm, oxm.element.group - 18),
                        ] + Seq::<BlockModel>::empty());
                        assert(sub@ =~= salt_generic(
                            mesv,
                            antsv,
                            oxm,
                            oxm.element.group - 18,
                            None,
                        )->Some_0);
                    }
                    Ok(sub)
                },
            }
        },
        None => {
            let mut all = mes;
            let mut ants = ants;
            let ghost before = all.deep_view();
            all.append(&mut ants);
            proof {
                assert(all.deep_view() =~= mesv + antsv);
                vstd::seq_lib::lemma_multiset_commutative(mesv, antsv);
            }
            let ghost mid = all.deep_view();
            all.push(ox);
            proof {
                assert(all.deep_view() =~= mid.push(oxm));
            }
            match h {
                Some(hb) => {
                    let ghost mid2 = all.deep_view();
                    all.push(hb);
                    proof {
                        assert(all.deep_view() =~= mid2.push(hb@));
                    }
                    Err(all)
                },
                None => {
                    proof {
                        assert(all.deep_view().to_multiset() =~= mesv.to_multiset().add(
                            antsv.to_multiset(),
                        ).insert(oxm));
                    }
                    Err(all)
                },
            }
        },
    }
}

/// The executable two-phase search: the basic-salt interpretation where
/// it applies, then the plain phase.  On failure every block comes back,
/// in some order.
#[verifier::rlimit(60)]
#[verifier::spinoff_prover]
fn salt_phase2_exec(
    mes: Vec<SubstanceBlock>,
    ants: Vec<SubstanceBlock>,
    ox: SubstanceBlock,
    h: Option<SubstanceBlock>,
) -> (r: Result<Substance, Vec<SubstanceBlock>>)
    requires
        blocks_wf(mes.deep_view()),
        blocks_wf(ants.deep_view()),
        charges_sorted(mes.deep_view()),
        charges_sorted(ants.deep_view()),
        element_wf(ox@.element),
        1 <= ox@.index <= 255,
        h is Some ==> 1 <= h->Some_0@.index <= 255,
    ensures
        ({
            let spec_r = salt_phase2(
                mes.deep_view(),
                ants.deep_view(),
                ox@,
                ox@.element.group - 18,
                h.deep_view(),
            );
            match r {
                Ok(sub) => spec_r == Some(sub@),
                Err(v) => spec_r is None && v.deep_view().to_multiset() == mes.deep_view()
                    .to_multiset().add(ants.deep_view().to_multiset()).insert(ox@).add(
                    match h {
                        Some(hb) => Multiset::empty().insert(hb@),
                        None => Multiset::empty(),
                    },
                ),
            }
        }),
{
    let ghost mes_g = mes.deep_view();
    let ghost ants_g = ants.deep_view();
    let ghost oxm = ox@;
    let ghost hmopt = h.deep_view();
    let hb = match h {
        Some(hb) => hb,
        None => {
            return salt_generic_exec(mes, ants, ox, None);
        },
    };
    let ghost hm = hb@;
    let mut mesv = mes;
    let mut ants1v = ants;
    if ox.element.charge == 8 && ox.index > hb.index {
        let res_start: i64 = 2 * ((hb.index as i64) - (ox.index as i64));
        let me_start: i64 = -(hb.index as i64);
        match search_match(&mesv, me_start, &ants1v, res_start) {
            Some(pair) => {
                let (mvals, avals) = pair;
                proof {
                    lemma_pair_bounds(
                        mes_g,
                        -hm.index,
                        ants_g,
                        res_start as int,
                        vals_view(mvals@),
                        vals_view(avals@),
                    );
                    assert forall|t: int| 0 <= t < mvals@.len() implies #[trigger] mvals@[t]
                        <= 127 by {
                        assert(vals_view(mvals@)[t] == mvals@[t] as int);
                    }
                    assert forall|t: int| 0 <= t < avals@.len() implies #[trigger] avals@[t]
                        <= 127 by {
                        assert(vals_view(avals@)[t] == avals@[t] as int);
                    }
                }
                apply_assignment(&mut mesv, &mvals);
                apply_assignment(&mut ants1v, &avals);
                let mut ox = ox;
                let mut hb = hb;
                ox.oxidation_state = -2;
                hb.oxidation_state = 1;
                let mut anti = ants1v;
                anti.push(ox);
                anti.push(hb);
                let sub = Substance { me: mesv, anti_me: anti, class: SubstanceClass::Salt };
                proof {
                    assert(sub@.anti_me =~= assigned(ants_g, vals_view(avals@))
                        + Seq::<BlockModel>::empty() + seq![
                        with_state(oxm, -2),
                        with_state(hm, 1),
                    ]);
                    assert(sub@ =~= salt_phase2(
                        mes_g,
                        ants_g,
                        oxm,
                        oxm.element.group - 18,
                        hmopt,
                    )->Some_0);
                }
                Ok(sub)
            },
            None => {
                salt_generic_exec(mesv, ants1v, ox, Some(hb))
            },
        }
    } else if ox.element.charge == 8 && ox.index == hb.index {
        let oi2 = match find_best_oxidant(&ants1v) {
            Some(oi2) => oi2,
            None => {
                return salt_generic_exec(mesv, ants1v, ox, Some(hb));
            },
        };
        let ghost boi2 = best_oxidant_index(ants_g);
        proof {
            lemma_best_oxidant_index(ants_g);
        }
        let oxi = ants1v.remove(oi2);
        let ghost oxim = oxi@;
        proof {
            assert(oxim == ants_g[boi2]);
            lemma_remove_input_wf(ants_g, boi2);
            assert(ants1v.deep_view() =~= ants_g.remove(boi2));
            assert(element_wf(oxim.element) && 1 <= oxim.index <= 255);
            assert(-17 <= oxim.element.group - 18 <= 0);
            assert(-4335 <= (oxim.element.group - 18) * oxim.index <= 0) by (nonlinear_arith)
                requires
                    -17 <= oxim.element.group - 18 <= 0,
                    1 <= oxim.index <= 255,
            ;
        }
        let anchor2: i8 = oxi.element.group as i8 - 18;
        let res_start: i64 = (anchor2 as i64) * (oxi.index as i64);
        let me_start: i64 = -(hb.index as i64);
        match search_match(&mesv, me_start, &ants1v, res_start) {
            Some(pair) => {
                let (mvals, avals) = pair;
                proof {
                    lemma_pair_bounds(
                        mes_g,
                        -hm.index,
                        ants_g.remove(boi2),
                        res_start as int,
                        vals_view(mvals@),
                        vals_view(avals@),
                    );
                    assert forall|t: int| 0 <= t < mvals@.len() implies #[trigger] mvals@[t]
                        <= 127 by {
                        assert(vals_view(mvals@)[t] == mvals@[t] as int);
                    }
                    assert forall|t: int| 0 <= t < avals@.len() implies #[trigger] avals@[t]
                        <= 127 by {
                        assert(vals_view(avals@)[t] == avals@[t] as int);
                    }
                }
                apply_assignment(&mut mesv, &mvals);
                apply_assignment(&mut ants1v, &avals);
                let mut oxi = oxi;
                let mut ox = ox;
                let mut hb = hb;
                oxi.oxidation_state = anchor2;
                ox.oxidation_state = -2;
                hb.oxidation_state = 1;
                let mut anti = ants1v;
                anti.push(oxi);
                anti.push(ox);
                anti.push(hb);
                let sub = Substance { me: mesv, anti_me: anti, class: SubstanceClass::Salt };
                proof {
                    assert(sub@.anti_me =~= assigned(ants_g.remove(boi2), vals_view(avals@))
                        + seq![with_state(oxim, oxim.element.group - 18)] + seq![
                        with_state(oxm, -2),
                        with_state(hm, 1),
                    ]);
                    assert(sub@ =~= salt_phase2(
                        mes_g,
                        ants_g,
                        oxm,
                        oxm.element.group - 18,
                        hmopt,
                    )->Some_0);
                }
                Ok(sub)
            },
            None => {
                let ghost cur = ants1v.deep_view();
                ants1v.insert(oi2, oxi);
                proof {
                    assert(ants1v.deep_view() =~= cur.insert(oi2 as int, oxim));
                    assert(cur.insert(oi2 as int, oxim) =~= ants_g);
                }
                salt_generic_exec(mesv, ants1v, ox, Some(hb))
            },
        }
    } else {
        salt_generic_exec(mesv, ants1v, ox, Some(hb))
    }
}

/// Tries the salt shape.  On failure the input comes back untouched.
#[verifier::rlimit(100)]
#[verifier::spinoff_prover]
pub fn try_salt(sbs: Vec<SubstanceBlock>) -> (r: Result<Substance, Vec<SubstanceBlock>>)
    requires
        input_wf(sbs.deep_view()),
    ensures
        match r {
            Ok(sub) => salt_spec(sbs.deep_view()) == Some(sub@),
            Err(v) => salt_spec(sbs.deep_view()) is None && v.deep_view() == sbs.deep_view(),
        },
{
    broadcast use vstd::seq_lib::group_to_multiset_ensures;

    let ghost s0 = sbs.deep_view();
    let mut sbs = sbs;
    let h_t = take_charge(&mut sbs, 1);
    let ghost hh = has_charge(s0, 1);
    let ghost hmopt: Option<BlockModel> = if hh {
        Some(block_of(s0, 1))
    } else {
        None
    };
    let ghost s1 = if hh {
        remove_charge(s0, 1)
    } else {
        s0
    };
    proof {
        lemma_charge_index(s0, 1);
        if hh {
            lemma_hydrogen_first(s0);
            lemma_remove_input_wf(s0, 0);
        }
        assert(sbs.deep_view() == s1);
        assert(input_wf(s1));
        if hh {
            assert(s1.to_multiset() =~= s0.to_multiset().remove(block_of(s0, 1))) by {
                assert(s1 == s0.remove(0));
                assert(s0[0] == block_of(s0, 1));
            }
            assert(s0.to_multiset().contains(block_of(s0, 1))) by {
                assert(s0[0] == block_of(s0, 1));
            }
        }
    }
    let o_t = take_charge(&mut sbs, 8);
    let ghost ho = has_charge(s1, 8);
    let ghost om = block_of(s1, 8);
    let ghost rv = if ho {
        remove_charge(s1, 8)
    } else {
        s1
    };
    proof {
        lemma_charge_index(s1, 8);
        if ho {
            lemma_remove_input_wf(s1, charge_index(s1, 8));
            assert(rv.to_multiset() =~= s1.to_multiset().remove(om)) by {
                assert(s1[charge_index(s1, 8)] == om);
            }
            assert(s1.to_multiset().contains(om)) by {
                assert(s1[charge_index(s1, 8)] == om);
            }
        }
        assert(sbs.deep_view() == rv);
        assert(input_wf(rv));
    }
    let parts = partition_metals(sbs);
    let mut mesv = parts.0;
    let mut ants1v = parts.1;
    let ghost mes0 = rv.filter(metal_pred());
    let ghost ants0 = rv.filter(nonmetal_pred());
    proof {
        lemma_filter_partition(rv);
    }
    if mesv.len() == 0 {
        let mut all = mesv;
        let mut a = ants1v;
        all.append(&mut a);
        proof {
            assert(all.deep_view() =~= mes0 + ants0);
            vstd::seq_lib::lemma_multiset_commutative(mes0, ants0);
        }
        if let Some(po) = o_t {
            let ghost mid = all.deep_view();
            all.push(po.1);
            proof {
                assert(all.deep_view() =~= mid.push(om));
            }
        }
        if let Some(ph) = h_t {
            let ghost mid = all.deep_view();
            all.push(ph.1);
            proof {
                assert(all.deep_view() =~= mid.push(block_of(s0, 1)));
            }
        }
        proof {
            assert(all.deep_view().to_multiset() =~= s0.to_multiset());
            assert(salt_spec(s0) is None);
        }
        let out = restore_sorted(all, Ghost(s0));
        return Err(out);
    }
    // fix the oxidant: oxygen itself, or the most electronegative eligible
    // non-metal
    let ghost boi = best_oxidant_index(ants0);
    let oxb: SubstanceBlock;
    if o_t.is_none() {
        match find_best_oxidant(&ants1v) {
            Some(oi) => {
                proof {
                    lemma_best_oxidant_index(ants0);
                }
                oxb = ants1v.remove(oi);
                proof {
                    lemma_remove_input_wf(ants0, oi as int);
                    assert(ants1v.deep_view() =~= ants0.remove(boi));
                }
            },
            None => {
                let mut all = mesv;
                let mut a = ants1v;
                all.append(&mut a);
                proof {
                    assert(all.deep_view() =~= mes0 + ants0);
                    vstd::seq_lib::lemma_multiset_commutative(mes0, ants0);
                }
                if let Some(ph) = h_t {
                    let ghost mid = all.deep_view();
                    all.push(ph.1);
                    proof {
                        assert(all.deep_view() =~= mid.push(block_of(s0, 1)));
                    }
                }
                proof {
                    assert(all.deep_view().to_multiset() =~= s0.to_multiset());
                    assert(salt_spec(s0) is None);
                }
                let out = restore_sorted(all, Ghost(s0));
                return Err(out);
            },
        }
    } else {
        let po = match o_t {
            Some(po) => po,
            None => {
                proof {
                    assert(false);
                }
                return Err(Vec::new());
            },
        };
        oxb = po.1;
    }
    let ghost oxm = oxb@;
    let ghost ants1 = if ho {
        ants0
    } else {
        ants0.remove(boi)
    };
    proof {
        if ho {
            assert(oxm == om);
        } else {
            lemma_best_oxidant_index(ants0);
            assert(oxm == ants0[boi]);
            assert(ants0.to_multiset().contains(oxm)) by {
                assert(ants0[boi] == oxm);
            }
            assert(ants1.to_multiset() =~= ants0.to_multiset().remove(oxm));
        }
        assert(ants1v.deep_view() == ants1);
        assert(element_wf(oxm.element) && 1 <= oxm.index <= 255) by {
            if ho {
                assert(s1[charge_index(s1, 8)] == om);
            } else {
                assert(blocks_wf(ants0));
            }
        }
    }
    // a later-group metal may have to serve as the anion when nothing else
    // can
    let ghost di = demote_index(mes0);
    if ants1v.len() == 0 {
        if let Some(dpos) = find_demote(&mesv) {
            proof {
                lemma_demote_index(mes0);
            }
            let d = mesv.remove(dpos);
            ants1v.push(d);
            proof {
                lemma_remove_input_wf(mes0, di);
                assert(mesv.deep_view() =~= mes0.remove(di));
                assert(ants1v.deep_view() =~= ants1 + seq![mes0[di]]);
                assert(ants1v.deep_view() =~= seq![mes0[di]]);
            }
        }
    }
    let ghost dm = ants1.len() == 0 && di != -1;
    let ghost mes_g = if dm {
        mes0.remove(di)
    } else {
        mes0
    };
    let ghost ants_g = if dm {
        seq![mes0[di]]
    } else {
        ants1
    };
    proof {
        lemma_demote_index(mes0);
        if dm {
            lemma_remove_input_wf(mes0, di);
        }
        assert(mesv.deep_view() == mes_g);
        assert(ants1v.deep_view() == ants_g);
        assert(blocks_wf(mes_g) && charges_sorted(mes_g));
        assert(blocks_wf(ants_g) && charges_sorted(ants_g));
        // the demotion moves one block across, so together the two groups
        // still hold exactly the cation and anion blocks
        assert(mes_g.to_multiset().add(ants_g.to_multiset()) =~= mes0.to_multiset().add(
            ants1.to_multiset(),
        )) by {
            if dm {
                assert(mes0.to_multiset().contains(mes0[di])) by {
                    assert(mes0[di] == mes0[di]);
                }
                assert(mes_g.to_multiset() =~= mes0.to_multiset().remove(mes0[di]));
                assert(ants_g.to_multiset() =~= Multiset::empty().insert(mes0[di])) by {
                    assert(ants_g =~= Seq::<BlockModel>::empty().push(mes0[di]));
                }
            }
        }
        assert(salt_spec(s0) == salt_after_ox(mes0, ants1, oxm, oxm.element.group - 18, hmopt));
        assert(salt_after_ox(mes0, ants1, oxm, oxm.element.group - 18, hmopt) == salt_phase2(
            mes_g,
            ants_g,
            oxm,
            oxm.element.group - 18,
            hmopt,
        ));
        if hh {
            assert(block_of(s0, 1).index >= 1 && block_of(s0, 1).index <= 255) by {
                assert(s0[0] == block_of(s0, 1));
            }
        }
    }
    let hopt: Option<SubstanceBlock> = match h_t {
        Some(ph) => Some(ph.1),
        None => None,
    };
    proof {
        assert(hopt.deep_view() == hmopt);
    }
    match salt_phase2_exec(mesv, ants1v, oxb, hopt) {
        Ok(sub) => {
            proof {
                assert(salt_spec(s0) == Some(sub@));
            }
            Ok(sub)
        },
        Err(all) => {
            proof {
                assert(salt_spec(s0) is None);
                assert(all.deep_view().to_multiset() =~= s0.to_multiset());
            }
            let out = restore_sorted(all, Ghost(s0));
            Err(out)
        },
    }
}

} // verus!
