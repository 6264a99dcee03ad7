//! The laws of the classification pipeline: what holds of every substance
//! it returns.

use vstd::prelude::*;
use vstd::multiset::Multiset;

use crate::element::anchor_consistent;
use crate::recognizers::{base_spec, hydride_spec, oxide_spec, peroxide_spec, simple_spec};
use crate::salt::{
    acid_spec, best_oxidant_index, demote_index, lemma_best_oxidant_index, lemma_demote_index,
    lemma_filter_partition, metal_pred, nonmetal_pred, salt_after_ox, salt_generic, salt_phase2,
    salt_spec,
};
use crate::search::{
    assigned, choice_sum, find_assignment, find_match, lemma_first_solution_sound,
    lemma_match_at_sound, valid_choice,
};
use crate::substance::{
    BlockModel, SubstanceClass, SubstanceModel, block_of, blocks_wf, canon, charge_index,
    charges_sorted, classify_spec, distinct_charges, has_charge, input_wf, lemma_canon_ensures,
    lemma_canon_input_wf, lemma_charge_index, lemma_multiset_distinct_charges,
    lemma_remove_input_wf, lemma_sorted_canon_identity, lemma_sorted_charges_unique, remove_charge,
    reset_state, total_contribution, unassigned, with_state,
};

verus! {

broadcast use vstd::seq_lib::group_to_multiset_ensures;

/// An assigned oxidation state is zero, belongs to one of the two anchor
/// elements, or has a magnitude drawn from the element's valency list.
pub open spec fn state_respects_valencies(b: BlockModel) -> bool {
    ||| b.element.charge == 1
    ||| b.element.charge == 8
    ||| b.oxidation_state == 0
    ||| b.element.valencies.contains(
        if b.oxidation_state >= 0 {
            b.oxidation_state
        } else {
            -b.oxidation_state
        },
    )
}

proof fn lemma_total_push(s: Seq<BlockModel>, b: BlockModel)
    ensures
        total_contribution(s.push(b)) == total_contribution(s) + b.oxidation_state * b.index,
    decreases s.len(),
{
    if s.len() == 0 {
        assert(s.push(b)[0] == b);
        assert(s.push(b).drop_first() =~= Seq::<BlockModel>::empty());
        assert(total_contribution(s.push(b).drop_first()) == 0);
        assert(total_contribution(s) == 0);
        assert(total_contribution(s.push(b)) == b.oxidation_state * b.index
            + total_contribution(s.push(b).drop_first()));
    } else {
        assert(s.push(b).drop_first() =~= s.drop_first().push(b));
        lemma_total_push(s.drop_first(), b);
        assert(s.push(b)[0] == s[0]);
        assert(total_contribution(s.push(b)) == s[0].oxidation_state * s[0].index
            + total_contribution(s.push(b).drop_first()));
        assert(total_contribution(s) == s[0].oxidation_state * s[0].index + total_contribution(
            s.drop_first(),
        ));
    }
}

proof fn lemma_total_concat(a: Seq<BlockModel>, b: Seq<BlockModel>)
    ensures
        total_contribution(a + b) == total_contribution(a) + total_contribution(b),
    decreases b.len(),
{
    if b.len() == 0 {
        assert(a + b =~= a);
    } else {
        assert(a + b =~= (a + b.drop_last()).push(b.last()));
        lemma_total_concat(a, b.drop_last());
        lemma_total_push(a + b.drop_last(), b.last());
        assert(b =~= b.drop_last().push(b.last()));
        lemma_total_push(b.drop_last(), b.last());
    }
}

proof fn lemma_total_assigned(s: Seq<BlockModel>, vals: Seq<int>)
    requires
        vals.len() == s.len(),
    ensures
        total_contribution(assigned(s, vals)) == choice_sum(s, vals),
    decreases s.len(),
{
    if s.len() == 0 {
    } else {
        assert(assigned(s, vals).drop_first() =~= assigned(s.drop_first(), vals.drop_first()));
        lemma_total_assigned(s.drop_first(), vals.drop_first());
        assert(assigned(s, vals)[0] == with_state(s[0], vals[0]));
    }
}

proof fn lemma_total_filter_split(s: Seq<BlockModel>)
    ensures
        total_contribution(s.filter(metal_pred())) + total_contribution(s.filter(nonmetal_pred()))
            == total_contribution(s),
    decreases s.len(),
{
    reveal(Seq::filter);
    if s.len() == 0 {
    } else {
        let dl = s.drop_last();
        lemma_total_filter_split(dl);
        assert(s =~= dl.push(s.last()));
        lemma_total_push(dl, s.last());
        if metal_pred()(s.last()) {
            assert(s.filter(metal_pred()) == dl.filter(metal_pred()).push(s.last()));
            assert(s.filter(nonmetal_pred()) == dl.filter(nonmetal_pred()));
            lemma_total_push(dl.filter(metal_pred()), s.last());
        } else {
            assert(s.filter(metal_pred()) == dl.filter(metal_pred()));
            assert(s.filter(nonmetal_pred()) == dl.filter(nonmetal_pred()).push(s.last()));
            lemma_total_push(dl.filter(nonmetal_pred()), s.last());
        }
    }
}

proof fn lemma_div_exact(a: int, b: int)
    requires
        b > 0,
        a % b == 0,
    ensures
        (a / b) * b == a,
{
    vstd::arithmetic::div_mod::lemma_fundamental_div_mod(a, b);
    assert(b * (a / b) == (a / b) * b) by (nonlinear_arith);
}

/// Neutrality of the plain salt phase.
proof fn lemma_salt_generic_neutral(
    mes: Seq<BlockModel>,
    ants: Seq<BlockModel>,
    ox: BlockModel,
    anchor: int,
    h: Option<BlockModel>,
    m: SubstanceModel,
)
    requires
        salt_generic(mes, ants, ox, anchor, h) == Some(m),
    ensures
        total_contribution(m.me + m.anti_me) == 0,
{
    let me_start: int = match h {
        Some(hb) => hb.index,
        None => 0,
    };
    let res_start = anchor * ox.index;
    let pair = find_match(mes, me_start, ants, res_start)->Some_0;
    lemma_match_at_sound(mes, 0, me_start, ants, res_start);
    assert(mes.subrange(0, mes.len() as int) =~= mes);
    lemma_total_assigned(mes, pair.0);
    lemma_total_assigned(ants, pair.1);
    let hseq: Seq<BlockModel> = match h {
        Some(hb) => seq![with_state(hb, 1)],
        None => Seq::empty(),
    };
    assert(m.anti_me == assigned(ants, pair.1) + seq![with_state(ox, anchor)] + hseq);
    lemma_total_concat(m.me, m.anti_me);
    lemma_total_concat(assigned(ants, pair.1) + seq![with_state(ox, anchor)], hseq);
    lemma_total_concat(assigned(ants, pair.1), seq![with_state(ox, anchor)]);
    lemma_one_block_total(with_state(ox, anchor));
    assert(total_contribution(Seq::<BlockModel>::empty()) == 0);
    assert(m.me == assigned(mes, pair.0));
    match h {
        Some(hb) => {
            lemma_one_block_total(with_state(hb, 1));
        },
        None => {},
    }
}

/// Neutrality of the basic-salt phase.
proof fn lemma_salt_phase2_neutral(
    mes: Seq<BlockModel>,
    ants: Seq<BlockModel>,
    ox: BlockModel,
    anchor: int,
    h: Option<BlockModel>,
    m: SubstanceModel,
)
    requires
        salt_phase2(mes, ants, ox, anchor, h) == Some(m),
    ensures
        total_contribution(m.me + m.anti_me) == 0,
{
    if h is Some && ox.element.charge == 8 && (ox.index > h->Some_0.index || (ox.index
        == h->Some_0.index && best_oxidant_index(ants) != -1)) {
        let hb = h->Some_0;
        let use_oxi = !(ox.index > hb.index);
        let oi2 = best_oxidant_index(ants);
        let oxi = ants[oi2];
        let ants2 = if use_oxi {
            ants.remove(oi2)
        } else {
            ants
        };
        let res_start = if use_oxi {
            (oxi.element.group - 18) * oxi.index
        } else {
            2 * (hb.index - ox.index)
        };
        if find_match(mes, -hb.index, ants2, res_start) is Some {
            let pair = find_match(mes, -hb.index, ants2, res_start)->Some_0;
            lemma_match_at_sound(mes, 0, -hb.index, ants2, res_start);
            assert(mes.subrange(0, mes.len() as int) =~= mes);
            lemma_total_assigned(mes, pair.0);
            lemma_total_assigned(ants2, pair.1);
            assert(total_contribution(Seq::<BlockModel>::empty()) == 0);
            assert(m.me == assigned(mes, pair.0));
            let oxiseq: Seq<BlockModel> = if use_oxi {
                seq![with_state(oxi, oxi.element.group - 18)]
            } else {
                Seq::empty()
            };
            let tailseq = seq![with_state(ox, -2), with_state(hb, 1)];
            assert(m.anti_me == assigned(ants2, pair.1) + oxiseq + tailseq);
            lemma_total_concat(m.me, m.anti_me);
            lemma_total_concat(assigned(ants2, pair.1) + oxiseq, tailseq);
            lemma_total_concat(assigned(ants2, pair.1), oxiseq);
            lemma_two_block_total(with_state(ox, -2), with_state(hb, 1));
            if use_oxi {
                lemma_one_block_total(with_state(oxi, oxi.element.group - 18));
            }
            assert(pair.0.len() == mes.len());
            assert(pair.1.len() == ants2.len());
            assert(total_contribution(m.me) == choice_sum(mes, pair.0));
            assert(total_contribution(assigned(ants2, pair.1)) == choice_sum(ants2, pair.1));
            assert((-hb.index + choice_sum(mes, pair.0)) + (res_start + choice_sum(ants2, pair.1))
                == 0);
            let oxtail: int = (-2) * ox.index + 1 * hb.index;
            assert(total_contribution(tailseq) == oxtail);
            assert(m.anti_me == assigned(ants2, pair.1) + oxiseq + tailseq);
            assert(total_contribution(m.anti_me) == choice_sum(ants2, pair.1)
                + total_contribution(oxiseq) + oxtail);
            if use_oxi {
                assert(ox.index == hb.index);
                assert(total_contribution(oxiseq) == (oxi.element.group - 18) * oxi.index);
                assert(res_start == (oxi.element.group - 18) * oxi.index);
            } else {
                assert(total_contribution(oxiseq) == 0);
            }
            assert(total_contribution(m.me + m.anti_me) == 0);
        } else {
            lemma_salt_generic_neutral(mes, ants, ox, anchor, h, m);
        }
    } else {
        lemma_salt_generic_neutral(mes, ants, ox, anchor, h, m);
    }
}

/// Every substance the salt recognizer returns is electrically neutral.
proof fn lemma_salt_neutral(s: Seq<BlockModel>, m: SubstanceModel)
    requires
        input_wf(s),
        salt_spec(s) == Some(m),
    ensures
        total_contribution(m.me + m.anti_me) == 0,
{
    let hh = has_charge(s, 1);
    let h = if hh {
        Some(block_of(s, 1))
    } else {
        None
    };
    let s1 = if hh {
        remove_charge(s, 1)
    } else {
        s
    };
    let ho = has_charge(s1, 8);
    let o = block_of(s1, 8);
    let r = if ho {
        remove_charge(s1, 8)
    } else {
        s1
    };
    let mes0 = r.filter(metal_pred());
    let ants0 = r.filter(nonmetal_pred());
    if ho {
        assert(salt_after_ox(mes0, ants0, o, o.element.group - 18, h) == Some(m));
        let di = demote_index(mes0);
        let dm = ants0.len() == 0 && di != -1;
        let mes = if dm {
            mes0.remove(di)
        } else {
            mes0
        };
        let ants = if dm {
            seq![mes0[di]]
        } else {
            ants0
        };
        lemma_salt_phase2_neutral(mes, ants, o, o.element.group - 18, h, m);
    } else {
        let oi = best_oxidant_index(ants0);
        let ox = ants0[oi];
        assert(salt_after_ox(mes0, ants0.remove(oi), ox, ox.element.group - 18, h) == Some(m));
        let ants1 = ants0.remove(oi);
        let di = demote_index(mes0);
        let dm = ants1.len() == 0 && di != -1;
        let mes = if dm {
            mes0.remove(di)
        } else {
            mes0
        };
        let ants = if dm {
            seq![mes0[di]]
        } else {
            ants1
        };
        lemma_salt_phase2_neutral(mes, ants, ox, ox.element.group - 18, h, m);
    }
}

/// Every substance the acid recognizer returns is electrically neutral.
proof fn lemma_acid_neutral(s: Seq<BlockModel>, m: SubstanceModel)
    requires
        input_wf(s),
        acid_spec(s) == Some(m),
    ensures
        total_contribution(m.me + m.anti_me) == 0,
{
    let h = block_of(s, 1);
    let r = remove_charge(s, 1);
    let oi = best_oxidant_index(r);
    lemma_best_oxidant_index(r);
    let ox = r[oi];
    let rest = r.remove(oi);
    let anchor = ox.element.group - 18;
    let vals = find_assignment(rest, anchor * ox.index, -h.index)->Some_0;
    assert(total_contribution(Seq::<BlockModel>::empty()) == 0);
    lemma_first_solution_sound(rest, 0, anchor * ox.index, -h.index);
    assert(rest.subrange(0, rest.len() as int) =~= rest);
    let committed = assigned(rest, vals);
    lemma_total_assigned(rest, vals);
    lemma_total_filter_split(committed);
    assert(m.me == committed.filter(metal_pred()));
    let headseq = seq![with_state(h, 1), with_state(ox, anchor)];
    assert(m.anti_me == headseq + committed.filter(nonmetal_pred()));
    lemma_total_concat(m.me, m.anti_me);
    lemma_total_concat(headseq, committed.filter(nonmetal_pred()));
    lemma_two_block_total(with_state(h, 1), with_state(ox, anchor));
    assert(vals.len() == rest.len());
    assert(total_contribution(committed) == choice_sum(rest, vals));
    assert((anchor * ox.index) + choice_sum(rest, vals) == -h.index);
    assert(total_contribution(headseq) == 1 * h.index + anchor * ox.index);
    assert(total_contribution(m.anti_me) == total_contribution(headseq) + total_contribution(
        committed.filter(nonmetal_pred()),
    ));
    assert(total_contribution(m.me) + total_contribution(m.anti_me) == 0);
}

/// A substance of exactly one distinct element is always classified, as a
/// simple substance, and its element keeps the elemental oxidation state 0.
pub proof fn lemma_single_element_is_simple(s: Seq<BlockModel>)
    requires
        input_wf(s),
        s.len() == 1,
    ensures
        classify_spec(s) is Some,
        classify_spec(s)->Some_0.class == SubstanceClass::Simple,
        forall|b: BlockModel|
            (classify_spec(s)->Some_0.me + classify_spec(s)->Some_0.anti_me).contains(b)
                ==> b.oxidation_state == 0,
{
    let m = classify_spec(s)->Some_0;
    assert(s[0].oxidation_state == 0);
    assert forall|b: BlockModel| (m.me + m.anti_me).contains(b) implies b.oxidation_state
        == 0 by {
        assert((m.me + m.anti_me).len() == 1);
        assert((m.me + m.anti_me)[0] == s[0]);
    }
}

/// Neutrality of a classified hydride.
proof fn lemma_hydride_neutral(s: Seq<BlockModel>, m: SubstanceModel)
    requires
        input_wf(s),
        hydride_spec(s) == Some(m),
    ensures
        total_contribution(m.me + m.anti_me) == 0,
{
    let h = block_of(s, 1);
    let p = remove_charge(s, 1)[0];
    let ox = h.index / p.index;
    lemma_charge_index(s, 1);
    assert(1 <= p.index) by {
        let ci = charge_index(s, 1);
        assert(remove_charge(s, 1)[0] == s[if ci == 0 { 1int } else { 0int }]);
    }
    lemma_div_exact(h.index, p.index);
    lemma_total_concat(m.me, m.anti_me);
    lemma_one_block_total(with_state(p, ox));
    lemma_one_block_total(with_state(h, -1));
    lemma_two_block_total(with_state(h, -1), with_state(p, ox));
    assert((h.index / p.index) * p.index == h.index);
    assert(total_contribution(Seq::<BlockModel>::empty()) == 0);
    if crate::element::is_metal(p.element) {
        assert(m.me == seq![with_state(p, ox)]);
        assert(m.anti_me == seq![with_state(h, -1)]);
    } else {
        assert(m.me == Seq::<BlockModel>::empty());
        assert(m.anti_me == seq![with_state(h, -1), with_state(p, ox)]);
    }
}

/// Neutrality of a classified base.
#[verifier::rlimit(100)]
#[verifier::spinoff_prover]
proof fn lemma_base_neutral(s: Seq<BlockModel>, m: SubstanceModel)
    requires
        input_wf(s),
        base_spec(s) == Some(m),
    ensures
        total_contribution(m.me + m.anti_me) == 0,
{
    let o = block_of(s, 8);
    let s1 = remove_charge(s, 8);
    let h = block_of(s1, 1);
    let t = remove_charge(s1, 1)[0];
    lemma_total_concat(m.me, m.anti_me);
    assert(total_contribution(Seq::<BlockModel>::empty()) == 0);
    if t.element.charge == 7 && t.index == 1 && o.index == 1 && h.index == 5 {
        lemma_three_block_total(with_state(t, -3), with_state(o, -2), with_state(h, 1));
        assert(m.me == Seq::<BlockModel>::empty());
        assert(m.anti_me == seq![with_state(t, -3), with_state(o, -2), with_state(h, 1)]);
        assert(total_contribution(m.me) == 0);
        assert(total_contribution(m.anti_me) == 0);
        assert(total_contribution(m.me + m.anti_me) == total_contribution(m.me)
            + total_contribution(m.anti_me));
    } else {
        let ox = o.index / t.index;
        lemma_charge_index(s, 8);
        lemma_charge_index(s1, 1);
        assert(1 <= t.index) by {
            let c1 = charge_index(s1, 1);
            assert(remove_charge(s1, 1)[0] == s1[if c1 == 0 { 1int } else { 0int }]);
            let ci = charge_index(s, 8);
            assert(forall|q: int|
                0 <= q < s1.len() ==> #[trigger] s1[q] == s[if q < ci {
                    q
                } else {
                    q + 1
                }]);
        }
        lemma_div_exact(o.index, t.index);
        lemma_one_block_total(with_state(t, ox));
        lemma_two_block_total(with_state(o, -2), with_state(h, 1));
        assert((o.index / t.index) * t.index == o.index);
        assert(m.me == seq![with_state(t, ox)]);
        assert(m.anti_me == seq![with_state(o, -2), with_state(h, 1)]);
        assert(o.index == h.index);
        assert(total_contribution(m.me) == o.index);
        assert(total_contribution(seq![with_state(o, -2), with_state(h, 1)]) == (-2) * o.index + 1
            * h.index);
        assert(total_contribution(m.anti_me) == (-2) * o.index + h.index);
        assert(total_contribution(m.me + m.anti_me) == total_contribution(m.me)
            + total_contribution(m.anti_me));
    }
}

/// Charge neutrality: the weighted sum of oxidation state times index over
/// every block of a classified substance is exactly zero.
#[verifier::rlimit(100)]
#[verifier::spinoff_prover]
pub proof fn lemma_classified_neutral(s: Seq<BlockModel>, m: SubstanceModel)
    requires
        input_wf(s),
        classify_spec(s) == Some(m),
    ensures
        total_contribution(m.me + m.anti_me) == 0,
{
    if simple_spec(s) is Some {
        assert(s[0].oxidation_state == 0);
        lemma_total_concat(m.me, m.anti_me);
        assert(total_contribution(s) == 0 * s[0].index + total_contribution(s.drop_first()));
        assert(s.drop_first() =~= Seq::<BlockModel>::empty());
        assert(total_contribution(Seq::<BlockModel>::empty()) == 0);
        assert(total_contribution(m.me) + total_contribution(m.anti_me) == 0);
    } else if hydride_spec(s) is Some {
        lemma_hydride_neutral(s, m);
    } else if peroxide_spec(s) is Some {
        let o = block_of(s, 8);
        let p = remove_charge(s, 8)[0];
        lemma_total_concat(m.me, m.anti_me);
        lemma_two_block_total(with_state(o, -1), with_state(p, p.element.valencies[0]));
        lemma_one_block_total(with_state(o, -1));
        lemma_one_block_total(with_state(p, p.element.valencies[0]));
        assert(total_contribution(m.me) + total_contribution(m.anti_me) == 0);
    } else if oxide_spec(s) is Some {
        let o = block_of(s, 8);
        let p = remove_charge(s, 8)[0];
        let ox = (2 * o.index) / p.index;
        lemma_charge_index(s, 8);
        assert(1 <= p.index) by {
            let ci = charge_index(s, 8);
            assert(remove_charge(s, 8)[0] == s[if ci == 0 { 1int } else { 0int }]);
        }
        lemma_div_exact(2 * o.index, p.index);
        lemma_total_concat(m.me, m.anti_me);
        lemma_two_block_total(with_state(o, -2), with_state(p, ox));
        lemma_one_block_total(with_state(o, -2));
        lemma_one_block_total(with_state(p, ox));
        assert(((2 * o.index) / p.index) * p.index == 2 * o.index);
        assert(total_contribution(m.me) + total_contribution(m.anti_me) == 0);
    } else if base_spec(s) is Some {
        lemma_base_neutral(s, m);
    } else if salt_spec(s) is Some {
        lemma_salt_neutral(s, m);
    } else {
        lemma_acid_neutral(s, m);
    }
}

proof fn lemma_one_block_total(a: BlockModel)
    ensures
        total_contribution(seq![a]) == a.oxidation_state * a.index,
{
    let s = seq![a];
    assert(s.len() == 1);
    assert(s[0] == a);
    assert(s.drop_first() =~= Seq::<BlockModel>::empty());
    assert(total_contribution(s.drop_first()) == 0);
    assert(total_contribution(s) == a.oxidation_state * a.index + total_contribution(
        s.drop_first(),
    ));
}

proof fn lemma_two_block_total(a: BlockModel, b: BlockModel)
    ensures
        total_contribution(seq![a, b]) == a.oxidation_state * a.index + b.oxidation_state * b.index,
{
    let s = seq![a, b];
    assert(s[0] == a);
    assert(s.drop_first() =~= seq![b]);
    lemma_one_block_total(b);
    assert(total_contribution(s) == a.oxidation_state * a.index + total_contribution(
        s.drop_first(),
    ));
}

proof fn lemma_three_block_total(a: BlockModel, b: BlockModel, c: BlockModel)
    ensures
        total_contribution(seq![a, b, c]) == a.oxidation_state * a.index + b.oxidation_state
            * b.index + c.oxidation_state * c.index,
{
    let s = seq![a, b, c];
    assert(s[0] == a);
    assert(s.drop_first() =~= seq![b, c]);
    lemma_two_block_total(b, c);
    assert(total_contribution(s) == a.oxidation_state * a.index + total_contribution(
        s.drop_first(),
    ));
}

} // verus!
