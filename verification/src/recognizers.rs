//! The elemental recognizers: simple substance, hydride, oxide, peroxide
//! and base.  Each receives the full multiset of blocks in canonical order
//! and either classifies it completely or returns it untouched.

use vstd::prelude::*;

use crate::element::{Element, element_wf, is_metal};
use crate::substance::{
    BlockModel, Substance, SubstanceBlock, SubstanceClass, SubstanceModel, block_of, charge_index,
    has_charge, input_wf, lemma_charge_index, lemma_hydrogen_first, remove_charge, take_charge,
    with_state,
};

verus! {

/// Simple substance: exactly one distinct element, oxidation state left at
/// the elemental 0, grouped by the metal test.
pub open spec fn simple_spec(s: Seq<BlockModel>) -> Option<SubstanceModel> {
    if s.len() != 1 {
        None
    } else if is_metal(s[0].element) {
        Some(SubstanceModel { me: s, anti_me: Seq::empty(), class: SubstanceClass::Simple })
    } else {
        Some(SubstanceModel { me: Seq::empty(), anti_me: s, class: SubstanceClass::Simple })
    }
}

/// Hydride: exactly two distinct elements, one of them hydrogen, the
/// partner no more electronegative than hydrogen.  Hydrogen takes -1; the
/// partner's state solves the neutrality equation and must be one of its
/// valencies.
pub open spec fn hydride_spec(s: Seq<BlockModel>) -> Option<SubstanceModel> {
    if s.len() != 2 || !has_charge(s, 1) {
        None
    } else {
        let h = block_of(s, 1);
        let p = remove_charge(s, 1)[0];
        if p.element.electronegativity_e2 > h.element.electronegativity_e2 {
            None
        } else if h.index % p.index == 0 && p.element.valencies.contains(h.index / p.index) {
            let hb = with_state(h, -1);
            let pb = with_state(p, h.index / p.index);
            if is_metal(p.element) {
                Some(
                    SubstanceModel {
                        me: seq![pb],
                        anti_me: seq![hb],
                        class: SubstanceClass::Hydride,
                    },
                )
            } else {
                Some(
                    SubstanceModel {
                        me: Seq::empty(),
                        anti_me: seq![hb, pb],
                        class: SubstanceClass::Hydride,
                    },
                )
            }
        } else {
            None
        }
    }
}

/// Oxide: exactly two distinct elements, one of them oxygen at its fixed
/// -2; the partner's state solves the neutrality equation and must be one
/// of its valencies.
pub open spec fn oxide_spec(s: Seq<BlockModel>) -> Option<SubstanceModel> {
    if s.len() != 2 || !has_charge(s, 8) {
        None
    } else {
        let o = block_of(s, 8);
        let p = remove_charge(s, 8)[0];
        if (2 * o.index) % p.index == 0 && p.element.valencies.contains((2 * o.index) / p.index) {
            let ob = with_state(o, -2);
            let pb = with_state(p, (2 * o.index) / p.index);
            if is_metal(p.element) {
                Some(
                    SubstanceModel { me: seq![pb], anti_me: seq![ob], class: SubstanceClass::Oxide },
                )
            } else {
                Some(
                    SubstanceModel {
                        me: Seq::empty(),
                        anti_me: seq![ob, pb],
                        class: SubstanceClass::Oxide,
                    },
                )
            }
        } else {
            None
        }
    }
}

/// Peroxide: an O2 pair at -1 each against an active metal of the first
/// two groups (beryllium excluded by `group != period`) whose single
/// first-listed valency exactly balances the pair.
pub open spec fn peroxide_spec(s: Seq<BlockModel>) -> Option<SubstanceModel> {
    if s.len() != 2 || !has_charge(s, 8) {
        None
    } else {
        let o = block_of(s, 8);
        let p = remove_charge(s, 8)[0];
        if p.element.group > 2 || p.element.group == p.element.period || o.index != 2
            || p.element.valencies.len() == 0 || p.element.valencies[0] * p.index != 2 {
            None
        } else {
            let ob = with_state(o, -1);
            let pb = with_state(p, p.element.valencies[0]);
            if is_metal(p.element) {
                Some(
                    SubstanceModel {
                        me: seq![pb],
                        anti_me: seq![ob],
                        class: SubstanceClass::Peroxide,
                    },
                )
            } else {
                Some(
                    SubstanceModel {
                        me: Seq::empty(),
                        anti_me: seq![ob, pb],
                        class: SubstanceClass::Peroxide,
                    },
                )
            }
        }
    }
}

/// Base: oxygen, hydrogen and one further element.  Either the hard-coded
/// ammonium shape NH4OH, or a general hydroxide: as many OH groups as the
/// metal's solved state demands.
pub open spec fn base_spec(s: Seq<BlockModel>) -> Option<SubstanceModel> {
    if s.len() != 3 || !has_charge(s, 8) {
        None
    } else {
        let o = block_of(s, 8);
        let s1 = remove_charge(s, 8);
        if !has_charge(s1, 1) {
            None
        } else {
            let h = block_of(s1, 1);
            let t = remove_charge(s1, 1)[0];
            if t.element.charge == 7 && t.index == 1 && o.index == 1 && h.index == 5 {
                Some(
                    SubstanceModel {
                        me: Seq::empty(),
                        anti_me: seq![with_state(t, -3), with_state(o, -2), with_state(h, 1)],
                        class: SubstanceClass::Base,
                    },
                )
            } else if o.index == h.index && is_metal(t.element) && o.index % t.index == 0
                && t.element.valencies.contains(o.index / t.index) {
                Some(
                    SubstanceModel {
                        me: seq![with_state(t, o.index / t.index)],
                        anti_me: seq![with_state(o, -2), with_state(h, 1)],
                        class: SubstanceClass::Base,
                    },
                )
            } else {
                None
            }
        }
    }
}

/// A valency value drawn from a well-formed list is a small magnitude.
pub proof fn lemma_valency_bound(e: crate::element::ElementModel, v: int)
    requires
        element_wf(e),
        e.valencies.contains(v),
    ensures
        0 <= v <= 18,
{
    let i = choose|i: int| 0 <= i < e.valencies.len() && e.valencies[i] == v;
}

/// Whether `v` appears in the element's valency list.
pub fn valencies_contain(e: &Element, v: i32) -> (r: bool)
    ensures
        r == e@.valencies.contains(v as int),
{
    let mut i: usize = 0;
    while i < e.valencies.len()
        invariant
            i <= e.valencies.len(),
            e@.valencies.len() == e.valencies@.len(),
            forall|t: int| 0 <= t < i ==> #[trigger] e@.valencies[t] != v as int,
        decreases e.valencies.len() - i,
    {
        if e.valencies[i] as i32 == v {
            proof {
                assert(e@.valencies[i as int] == v as int);
            }
            return true;
        }
        proof {
            assert(e@.valencies[i as int] == e.valencies@[i as int] as int);
        }
        i = i + 1;
    }
    proof {
        if e@.valencies.contains(v as int) {
            let t = choose|t: int| 0 <= t < e@.valencies.len() && e@.valencies[t] == v as int;
            assert(e@.valencies[t] != v as int);
        }
    }
    false
}

/// Solves the neutrality equation for a partner block: the state `x` with
/// `x * o_idx == -c_oxy`, when the division is exact.
pub fn other_oxy(c_oxy: i32, o_idx: u8) -> (r: Option<i32>)
    requires
        -100_000 <= c_oxy <= 0,
        o_idx >= 1,
    ensures
        match r {
            Some(x) => (-c_oxy) % (o_idx as int) == 0 && x == (-c_oxy) / (o_idx as int) && 0 <= x
                <= -c_oxy,
            None => (-c_oxy) % (o_idx as int) != 0,
        },
{
    let m: i32 = -c_oxy;
    if m % (o_idx as i32) == 0 {
        Some(m / (o_idx as i32))
    } else {
        None
    }
}

/// Tries the simple-substance shape.  On failure the input comes back
/// untouched.
pub fn try_simple(sbs: Vec<SubstanceBlock>) -> (r: Result<Substance, Vec<SubstanceBlock>>)
    requires
        input_wf(sbs.deep_view()),
    ensures
        match r {
            Ok(sub) => simple_spec(sbs.deep_view()) == Some(sub@),
            Err(v) => simple_spec(sbs.deep_view()) is None && v.deep_view() == sbs.deep_view(),
        },
{
    let ghost s0 = sbs.deep_view();
    if sbs.len() != 1 {
        return Err(sbs);
    }
    let metal = sbs[0].element.is_me();
    proof {
        assert(s0[0] == sbs@[0]@);
    }
    if metal {
        let sub = Substance { me: sbs, anti_me: Vec::new(), class: SubstanceClass::Simple };
        proof {
            assert(sub@.anti_me =~= Seq::<BlockModel>::empty());
            assert(sub@ =~= simple_spec(s0)->Some_0);
        }
        Ok(sub)
    } else {
        let sub = Substance { me: Vec::new(), anti_me: sbs, class: SubstanceClass::Simple };
        proof {
            assert(sub@.me =~= Seq::<BlockModel>::empty());
            assert(sub@ =~= simple_spec(s0)->Some_0);
        }
        Ok(sub)
    }
}

/// Tries the hydride shape.  On failure the input comes back untouched.
pub fn try_hydride(sbs: Vec<SubstanceBlock>) -> (r: Result<Substance, Vec<SubstanceBlock>>)
    requires
        input_wf(sbs.deep_view()),
    ensures
        match r {
            Ok(sub) => hydride_spec(sbs.deep_view()) == Some(sub@),
            Err(v) => hydride_spec(sbs.deep_view()) is None && v.deep_view() == sbs.deep_view(),
        },
{
    let ghost s0 = sbs.deep_view();
    if sbs.len() != 2 {
        return Err(sbs);
    }
    let mut sbs = sbs;
    let (hpos, h) = match take_charge(&mut sbs, 1) {
        Some(ph) => ph,
        None => {
            return Err(sbs);
        },
    };
    proof {
        lemma_hydrogen_first(s0);
        assert(hpos == 0);
    }
    let p = sbs.remove(0);
    let ghost hm = h@;
    let ghost pm = p@;
    proof {
        assert(pm == remove_charge(s0, 1)[0]);
        assert(hm == block_of(s0, 1));
        assert(element_wf(pm.element) && element_wf(hm.element)) by {
            assert(s0[0].element == hm.element);
            assert(s0[1] == remove_charge(s0, 1)[0]);
        }
        assert(1 <= pm.index <= 255 && 1 <= hm.index <= 255);
    }
    let mut failed = p.element.electronegativity_e2 > h.element.electronegativity_e2;
    let mut ox: i32 = 0;
    if !failed {
        match other_oxy(-(h.index as i32), p.index) {
            Some(x) => {
                ox = x;
                failed = !valencies_contain(&p.element, x);
            },
            None => {
                failed = true;
            },
        }
    }
    if failed {
        proof {
            assert(hydride_spec(s0) is None);
        }
        sbs.insert(0, p);
        sbs.insert(0, h);
        proof {
            assert(sbs.deep_view() =~= s0);
        }
        return Err(sbs);
    }
    proof {
        assert(ox as int == hm.index / pm.index);
        assert(pm.element.valencies.contains(ox as int));
        lemma_valency_bound(pm.element, ox as int);
    }
    let mut h = h;
    let mut p = p;
    h.oxidation_state = -1;
    p.oxidation_state = ox as i8;
    proof {
        assert(h@ == with_state(hm, -1));
        assert(p@ == with_state(pm, hm.index / pm.index));
    }
    let metal = p.element.is_me();
    if metal {
        let mut me: Vec<SubstanceBlock> = Vec::new();
        let mut anti: Vec<SubstanceBlock> = Vec::new();
        me.push(p);
        anti.push(h);
        let sub = Substance { me, anti_me: anti, class: SubstanceClass::Hydride };
        proof {
            assert(sub@ =~= hydride_spec(s0)->Some_0);
        }
        Ok(sub)
    } else {
        let mut anti: Vec<SubstanceBlock> = Vec::new();
        anti.push(h);
        anti.push(p);
        let sub = Substance { me: Vec::new(), anti_me: anti, class: SubstanceClass::Hydride };
        proof {
            assert(sub@.me =~= Seq::<BlockModel>::empty());
            assert(sub@ =~= hydride_spec(s0)->Some_0);
        }
        Ok(sub)
    }
}

/// Tries the oxide shape.  On failure the input comes back untouched.
pub fn try_oxide(sbs: Vec<SubstanceBlock>) -> (r: Result<Substance, Vec<SubstanceBlock>>)
    requires
        input_wf(sbs.deep_view()),
    ensures
        match r {
            Ok(sub) => oxide_spec(sbs.deep_view()) == Some(sub@),
            Err(v) => oxide_spec(sbs.deep_view()) is None && v.deep_view() == sbs.deep_view(),
        },
{
    let ghost s0 = sbs.deep_view();
    if sbs.len() != 2 {
        return Err(sbs);
    }
    let mut sbs = sbs;
    let (opos, o) = match take_charge(&mut sbs, 8) {
        Some(po) => po,
        None => {
            return Err(sbs);
        },
    };
    let p = sbs.remove(0);
    let ghost om = o@;
    let ghost pm = p@;
    proof {
        lemma_charge_index(s0, 8);
        assert(pm == remove_charge(s0, 8)[0]);
        assert(om == block_of(s0, 8));
        assert(element_wf(pm.element)) by {
            let ci = charge_index(s0, 8);
            assert(remove_charge(s0, 8)[0] == s0[if ci == 0 { 1int } else { 0int }]);
        }
        assert(element_wf(om.element));
        assert(1 <= pm.index <= 255 && 1 <= om.index <= 255);
    }
    let mut failed = false;
    let mut ox: i32 = 0;
    match other_oxy(-2 * (o.index as i32), p.index) {
        Some(x) => {
            ox = x;
            failed = !valencies_contain(&p.element, x);
        },
        None => {
            failed = true;
        },
    }
    if failed {
        proof {
            assert(oxide_spec(s0) is None);
        }
        sbs.insert(0, p);
        sbs.insert(opos, o);
        proof {
            assert(sbs.deep_view() =~= s0);
        }
        return Err(sbs);
    }
    proof {
        assert(ox as int == (2 * om.index) / pm.index);
        assert(pm.element.valencies.contains(ox as int));
        lemma_valency_bound(pm.element, ox as int);
    }
    let mut o = o;
    let mut p = p;
    o.oxidation_state = -2;
    p.oxidation_state = ox as i8;
    proof {
        assert(o@ == with_state(om, -2));
        assert(p@ == with_state(pm, (2 * om.index) / pm.index));
    }
    let metal = p.element.is_me();
    if metal {
        let mut me: Vec<SubstanceBlock> = Vec::new();
        let mut anti: Vec<SubstanceBlock> = Vec::new();
        me.push(p);
        anti.push(o);
        let sub = Substance { me, anti_me: anti, class: SubstanceClass::Oxide };
        proof {
            assert(sub@ =~= oxide_spec(s0)->Some_0);
        }
        Ok(sub)
    } else {
        let mut anti: Vec<SubstanceBlock> = Vec::new();
        anti.push(o);
        anti.push(p);
        let sub = Substance { me: Vec::new(), anti_me: anti, class: SubstanceClass::Oxide };
        proof {
            assert(sub@.me =~= Seq::<BlockModel>::empty());
            assert(sub@ =~= oxide_spec(s0)->Some_0);
        }
        Ok(sub)
    }
}

/// Tries the peroxide shape.  On failure the input comes back untouched.
pub fn try_peroxide(sbs: Vec<SubstanceBlock>) -> (r: Result<Substance, Vec<SubstanceBlock>>)
    requires
        input_wf(sbs.deep_view()),
    ensures
        match r {
            Ok(sub) => peroxide_spec(sbs.deep_view()) == Some(sub@),
            Err(v) => peroxide_spec(sbs.deep_view()) is None && v.deep_view() == sbs.deep_view(),
        },
{
    let ghost s0 = sbs.deep_view();
    if sbs.len() != 2 {
        return Err(sbs);
    }
    let mut sbs = sbs;
    let (opos, o) = match take_charge(&mut sbs, 8) {
        Some(po) => po,
        None => {
            return Err(sbs);
        },
    };
    let p = sbs.remove(0);
    let ghost om = o@;
    let ghost pm = p@;
    proof {
        lemma_charge_index(s0, 8);
        assert(pm == remove_charge(s0, 8)[0]);
        assert(om == block_of(s0, 8));
        assert(element_wf(pm.element)) by {
            let ci = charge_index(s0, 8);
            assert(remove_charge(s0, 8)[0] == s0[if ci == 0 { 1int } else { 0int }]);
        }
        assert(element_wf(om.element));
        assert(1 <= pm.index <= 255 && 1 <= om.index <= 255);
        assert(pm.element.valencies.len() >= 1);
        assert(pm.element.valencies[0] == p.element.valencies@[0] as int);
        assert(0 <= pm.element.valencies[0] <= 18);
    }
    let val0 = p.element.valencies[0];
    proof {
        assert(val0 as int == pm.element.valencies[0]);
        assert((val0 as int) * (pm.index) <= 4590) by (nonlinear_arith)
            requires
                0 <= val0 as int <= 18,
                1 <= pm.index <= 255,
        ;
    }
    if p.element.group > 2 || p.element.group == p.element.period || o.index != 2 || (val0 as u16)
        * (p.index as u16) != 2 {
        proof {
            assert(peroxide_spec(s0) is None);
        }
        sbs.insert(0, p);
        sbs.insert(opos, o);
        proof {
            assert(sbs.deep_view() =~= s0);
        }
        return Err(sbs);
    }
    let mut o = o;
    let mut p = p;
    o.oxidation_state = -1;
    p.oxidation_state = val0 as i8;
    proof {
        assert(o@ == with_state(om, -1));
        assert(p@ == with_state(pm, pm.element.valencies[0]));
    }
    let metal = p.element.is_me();
    if metal {
        let mut me: Vec<SubstanceBlock> = Vec::new();
        let mut anti: Vec<SubstanceBlock> = Vec::new();
        me.push(p);
        anti.push(o);
        let sub = Substance { me, anti_me: anti, class: SubstanceClass::Peroxide };
        proof {
            assert(sub@ =~= peroxide_spec(s0)->Some_0);
        }
        Ok(sub)
    } else {
        let mut anti: Vec<SubstanceBlock> = Vec::new();
        anti.push(o);
        anti.push(p);
        let sub = Substance { me: Vec::new(), anti_me: anti, class: SubstanceClass::Peroxide };
        proof {
            assert(sub@.me =~= Seq::<BlockModel>::empty());
            assert(sub@ =~= peroxide_spec(s0)->Some_0);
        }
        Ok(sub)
    }
}

/// Tries the base shape.  On failure the input comes back untouched.
pub fn try_base(sbs: Vec<SubstanceBlock>) -> (r: Result<Substance, Vec<SubstanceBlock>>)
    requires
        input_wf(sbs.deep_view()),
    ensures
        match r {
            Ok(sub) => base_spec(sbs.deep_view()) == Some(sub@),
            Err(v) => base_spec(sbs.deep_view()) is None && v.deep_view() == sbs.deep_view(),
        },
{
    let ghost s0 = sbs.deep_view();
    if sbs.len() != 3 {
        return Err(sbs);
    }
    let mut sbs = sbs;
    let (opos, o) = match take_charge(&mut sbs, 8) {
        Some(po) => po,
        None => {
            return Err(sbs);
        },
    };
    let ghost s1 = remove_charge(s0, 8);
    let (hpos, h) = match take_charge(&mut sbs, 1) {
        Some(ph) => ph,
        None => {
            proof {
                lemma_charge_index(s0, 8);
            }
            let ghost s1v = sbs.deep_view();
            sbs.insert(opos, o);
            proof {
                assert(sbs.deep_view() =~= s1v.insert(opos as int, o@));
                assert(s1v.insert(opos as int, o@) =~= s0);
            }
            return Err(sbs);
        },
    };
    let t = sbs.remove(0);
    let ghost om = o@;
    let ghost hm = h@;
    let ghost tm = t@;
    proof {
        lemma_charge_index(s0, 8);
        lemma_charge_index(s1, 1);
        assert(om == block_of(s0, 8));
        assert(hm == block_of(s1, 1));
        assert(tm == remove_charge(s1, 1)[0]);
        assert(element_wf(tm.element) && 1 <= tm.index <= 255) by {
            let c1 = charge_index(s1, 1);
            assert(remove_charge(s1, 1)[0] == s1[if c1 == 0 { 1int } else { 0int }]);
            let ci = charge_index(s0, 8);
            assert(forall|q: int|
                0 <= q < s1.len() ==> #[trigger] s1[q] == s0[if q < ci {
                    q
                } else {
                    q + 1
                }]);
        }
        assert(element_wf(om.element) && element_wf(hm.element));
        assert(1 <= om.index <= 255 && 1 <= hm.index <= 255) by {
            let c1 = charge_index(s1, 1);
            let ci = charge_index(s0, 8);
            assert(s1[c1] == s0[if c1 < ci {
                c1
            } else {
                c1 + 1
            }]);
        }
    }
    // the hard-coded ammonium exception NH4OH
    if t.element.charge == 7 && t.index == 1 && o.index == 1 && h.index == 5 {
        let mut t = t;
        let mut o = o;
        let mut h = h;
        t.oxidation_state = -3;
        o.oxidation_state = -2;
        h.oxidation_state = 1;
        let mut anti: Vec<SubstanceBlock> = Vec::new();
        anti.push(t);
        anti.push(o);
        anti.push(h);
        let sub = Substance { me: Vec::new(), anti_me: anti, class: SubstanceClass::Base };
        proof {
            assert(sub@.me =~= Seq::<BlockModel>::empty());
            assert(sub@ =~= base_spec(s0)->Some_0);
        }
        return Ok(sub);
    }
    let mut failed = !(o.index == h.index && t.element.is_me());
    let mut ox: i32 = 0;
    if !failed {
        match other_oxy(-(o.index as i32), t.index) {
            Some(x) => {
                ox = x;
                failed = !valencies_contain(&t.element, x);
            },
            None => {
                failed = true;
            },
        }
    }
    if failed {
        proof {
            assert(base_spec(s0) is None);
        }
        sbs.insert(0, t);
        sbs.insert(hpos, h);
        sbs.insert(opos, o);
        proof {
            assert(sbs.deep_view() =~= s0);
        }
        return Err(sbs);
    }
    proof {
        assert(ox as int == om.index / tm.index);
        assert(tm.element.valencies.contains(ox as int));
        lemma_valency_bound(tm.element, ox as int);
    }
    let mut t = t;
    let mut o = o;
    let mut h = h;
    t.oxidation_state = ox as i8;
    o.oxidation_state = -2;
    h.oxidation_state = 1;
    proof {
        assert(t@ == with_state(tm, om.index / tm.index));
        assert(o@ == with_state(om, -2));
        assert(h@ == with_state(hm, 1));
    }
    let mut me: Vec<SubstanceBlock> = Vec::new();
    let mut anti: Vec<SubstanceBlock> = Vec::new();
    me.push(t);
    anti.push(o);
    anti.push(h);
    let sub = Substance { me, anti_me: anti, class: SubstanceClass::Base };
    proof {
        assert(sub@ =~= base_spec(s0)->Some_0);
    }
    Ok(sub)
}

} // verus!
