//! A chemical element and the analytic metal test.

use vstd::prelude::*;

verus! {

/// Immutable physical constants of one chemical element.
///
/// Fractional constants are stored as scaled integers: the relative atomic
/// mass times 100000 and the electronegativity times 100.  `valencies` holds
/// the magnitudes of the oxidation states the element is permitted to take.
pub struct Element {
    pub charge: u16,
    pub group: u8,
    pub period: u8,
    pub atomic_mass_e5: u64,
    pub valencies: Vec<u8>,
    pub electronegativity_e2: u16,
}

/// The mathematical image of an [`Element`].
#[verifier::ext_equal]
pub ghost struct ElementModel {
    pub charge: int,
    pub group: int,
    pub period: int,
    pub atomic_mass_e5: int,
    pub valencies: Seq<int>,
    pub electronegativity_e2: int,
}

impl View for Element {
    type V = ElementModel;

    open spec fn view(&self) -> ElementModel {
        ElementModel {
            charge: self.charge as int,
            group: self.group as int,
            period: self.period as int,
            atomic_mass_e5: self.atomic_mass_e5 as int,
            valencies: self.valencies@.map(|i: int, v: u8| v as int),
            electronegativity_e2: self.electronegativity_e2 as int,
        }
    }
}

impl DeepView for Element {
    type V = ElementModel;

    open spec fn deep_view(&self) -> ElementModel {
        self.view()
    }
}

/// A well-formed element record: the bounds the periodic system gives to
/// every field.  Valencies are small magnitudes, at most one per oxidation
/// state an element can take.
pub open spec fn element_wf(e: ElementModel) -> bool {
    &&& 1 <= e.charge <= u16::MAX
    &&& 1 <= e.group <= 18
    &&& 1 <= e.period <= 7
    &&& 1 <= e.valencies.len() <= 8
    &&& forall|i: int| 0 <= i < e.valencies.len() ==> 0 <= #[trigger] e.valencies[i] <= 18
}

/// The analytic metal test: inside the first five periods the staircase runs
/// diagonally (one group further right for each period down); from period six
/// on everything left of group 16 behaves as a metal.
pub open spec fn is_metal(e: ElementModel) -> bool {
    if e.period < 6 {
        e.group < 11 + e.period
    } else {
        e.group < 16
    }
}

/// An element may appear as the anion-forming oxidant of an acid or salt:
/// either far right in the periodic system or strongly electronegative.
pub open spec fn oxidant_eligible(e: ElementModel) -> bool {
    e.group > 15 || e.electronegativity_e2 > 280
}

/// The fixed oxidation states the recognizers anchor on (the nitrogen of
/// ammonium and the group-derived state of an oxidant) are consistent with
/// the element's own valency list.  Every record of the real periodic table
/// satisfies this; it is what charge-neutral assignments need in order to
/// also respect the valency lists.
pub open spec fn anchor_consistent(e: ElementModel) -> bool {
    &&& (e.charge == 7 ==> e.valencies.contains(3))
    &&& (oxidant_eligible(e) ==> e.valencies.contains(18 - e.group))
}

impl Element {
    /// The executable metal test.
    pub fn is_me(&self) -> (r: bool)
        ensures
            r == is_metal(self@),
    {
        let mut res = false;
        if self.period < 6 {
            if self.group < 11 + self.period {
                res = true;
            }
        } else if self.group < 16 {
            res = true;
        }
        res
    }

    /// An owned copy of this element.
    pub fn duplicate(&self) -> (r: Element)
        ensures
            r@ == self@,
    {
        let mut vals: Vec<u8> = Vec::new();
        let mut i: usize = 0;
        while i < self.valencies.len()
            invariant
                i <= self.valencies.len(),
                vals@ == self.valencies@.subrange(0, i as int),
            decreases self.valencies.len() - i,
        {
            vals.push(self.valencies[i]);
            proof {
                assert(vals@ =~= self.valencies@.subrange(0, i + 1));
            }
            i = i + 1;
        }
        proof {
            assert(vals@ =~= self.valencies@);
        }
        let r = Element {
            charge: self.charge,
            group: self.group,
            period: self.period,
            atomic_mass_e5: self.atomic_mass_e5,
            valencies: vals,
            electronegativity_e2: self.electronegativity_e2,
        };
        proof {
            assert(r@.valencies =~= self@.valencies);
        }
        r
    }
}

} // verus!
