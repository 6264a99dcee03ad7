//! The periodic table: the element records the classifier works from,
//! keyed by symbol.

use vstd::prelude::*;
use vstd::string::StringExecFns;

use crate::element::{Element, ElementModel, element_wf};

verus! {

/// Every record is a well-formed element and no two records share a
/// nuclear charge.
pub open spec fn table_entries_wf(s: Seq<(String, Element)>) -> bool {
    &&& forall|i: int| 0 <= i < s.len() ==> element_wf((#[trigger] s[i].1)@)
    &&& forall|i: int, j: int|
        0 <= i < j < s.len() ==> (#[trigger] s[i].1)@.charge != (#[trigger] s[j].1)@.charge
}

/// The position of the first record under `name`, or -1.
pub open spec fn name_index(s: Seq<(String, Element)>, name: Seq<char>) -> int
    decreases s.len(),
{
    if s.len() == 0 {
        -1
    } else if s[0].0@ == name {
        0
    } else {
        let r = name_index(s.drop_first(), name);
        if r == -1 {
            -1
        } else {
            r + 1
        }
    }
}

/// The element the table holds under `name`.
pub open spec fn table_lookup(s: Seq<(String, Element)>, name: Seq<char>) -> Option<ElementModel> {
    if name_index(s, name) >= 0 {
        Some(s[name_index(s, name)].1@)
    } else {
        None
    }
}

/// What `name_index` finds: the first record under the name, with nothing
/// before it under the name; or nothing at all.
pub proof fn lemma_name_index(s: Seq<(String, Element)>, name: Seq<char>)
    ensures
        name_index(s, name) >= 0 ==> {
            &&& 0 <= name_index(s, name) < s.len()
            &&& s[name_index(s, name)].0@ == name
            &&& forall|i: int| 0 <= i < name_index(s, name) ==> (#[trigger] s[i].0)@ != name
        },
        name_index(s, name) < 0 ==> forall|i: int| 0 <= i < s.len() ==> (#[trigger] s[i].0)@
            != name,
    decreases s.len(),
{
    if s.len() > 0 {
        lemma_name_index(s.drop_first(), name);
        assert(forall|i: int| 1 <= i < s.len() ==> #[trigger] s[i] == s.drop_first()[i - 1]);
    }
}

/// Appends one record whose charge lies above everything already present.
fn push_element(
    t: &mut Vec<(String, Element)>,
    name: &str,
    charge: u16,
    group: u8,
    period: u8,
    mass: u64,
    valencies: Vec<u8>,
    eneg: u16,
)
    requires
        table_entries_wf(old(t)@),
        forall|i: int| 0 <= i < old(t)@.len() ==> (#[trigger] old(t)@[i].1)@.charge < charge as int,
        1 <= charge,
        1 <= group <= 18,
        1 <= period <= 7,
        1 <= valencies@.len() <= 8,
        forall|i: int| 0 <= i < valencies@.len() ==> #[trigger] valencies@[i] <= 18,
    ensures
        table_entries_wf(final(t)@),
        forall|i: int| 0 <= i < final(t)@.len() ==> (#[trigger] final(t)@[i].1)@.charge
            <= charge as int,
        final(t)@.len() == old(t)@.len() + 1,
{
    let e = Element {
        charge,
        group,
        period,
        atomic_mass_e5: mass,
        valencies,
        electronegativity_e2: eneg,
    };
    proof {
        assert(element_wf(e@));
    }
    let entry = (String::from_str(name), e);
    t.push(entry);
    proof {
        assert(forall|i: int| 0 <= i < old(t)@.len() ==> #[trigger] t@[i] == old(t)@[i]);
        assert(t@[t@.len() - 1].1@.charge == charge as int);
    }
}

fn fill_band_0(t: &mut Vec<(String, Element)>)
    requires
        table_entries_wf(old(t)@),
        forall|i: int| 0 <= i < old(t)@.len() ==> (#[trigger] old(t)@[i].1)@.charge < 1,
    ensures
        table_entries_wf(final(t)@),
        forall|i: int| 0 <= i < final(t)@.len() ==> (#[trigger] final(t)@[i].1)@.charge <= 15,
{
    let mut v: Vec<u8> = Vec::new();
    v.push(1);
    push_element(t, "H", 1, 1, 1, 100790, v, 220);
    let mut v: Vec<u8> = Vec::new();
    v.push(8);
    push_element(t, "He", 2, 18, 1, 400260, v, 0);
    let mut v: Vec<u8> = Vec::new();
    v.push(1);
    push_element(t, "Li", 3, 1, 2, 694100, v, 98);
    let mut v: Vec<u8> = Vec::new();
    v.push(1);
    v.push(2);
    push_element(t, "Be", 4, 2, 2, 901218, v, 157);
    let mut v: Vec<u8> = Vec::new();
    v.push(3);
    push_element(t, "B", 5, 13, 2, 1081000, v, 204);
    let mut v: Vec<u8> = Vec::new();
    v.push(2);
    v.push(4);
    push_element(t, "C", 6, 14, 2, 1201100, v, 255);
    let mut v: Vec<u8> = Vec::new();
    v.push(1);
    v.push(2);
    v.push(3);
    v.push(4);
    push_element(t, "N", 7, 15, 2, 1400670, v, 304);
    let mut v: Vec<u8> = Vec::new();
    v.push(2);
    push_element(t, "O", 8, 16, 2, 1599940, v, 344);
    let mut v: Vec<u8> = Vec::new();
    v.push(1);
    push_element(t, "F", 9, 17, 2, 1899840, v, 398);
    let mut v: Vec<u8> = Vec::new();
    v.push(0);
    push_element(t, "Ne", 10, 18, 2, 2017970, v, 0);
    let mut v: Vec<u8> = Vec::new();
    v.push(1);
    push_element(t, "Na", 11, 1, 3, 2298977, v, 93);
    let mut v: Vec<u8> = Vec::new();
    v.push(2);
    push_element(t, "Mg", 12, 2, 3, 2430500, v, 131);
    let mut v: Vec<u8> = Vec::new();
    v.push(3);
    push_element(t, "Al", 13, 13, 3, 2698150, v, 161);
    let mut v: Vec<u8> = Vec::new();
    v.push(2);
    v.push(4);
    push_element(t, "Si", 14, 14, 3, 2808550, v, 190);
    let mut v: Vec<u8> = Vec::new();
    v.push(3);
    v.push(5);
    push_element(t, "P", 15, 15, 3, 3097376, v, 219);
}

fn fill_band_1(t: &mut Vec<(String, Element)>)
    requires
        table_entries_wf(old(t)@),
        forall|i: int| 0 <= i < old(t)@.len() ==> (#[trigger] old(t)@[i].1)@.charge < 16,
    ensures
        table_entries_wf(final(t)@),
        forall|i: int| 0 <= i < final(t)@.len() ==> (#[trigger] final(t)@[i].1)@.charge <= 30,
{
    let mut v: Vec<u8> = Vec::new();
    v.push(2);
    v.push(4);
    v.push(6);
    push_element(t, "S", 16, 16, 3, 3206500, v, 258);
    let mut v: Vec<u8> = Vec::new();
    v.push(1);
    v.push(3);
    v.push(5);
    v.push(7);
    push_element(t, "Cl", 17, 17, 3, 3545300, v, 316);
    let mut v: Vec<u8> = Vec::new();
    v.push(0);
    push_element(t, "Ar", 18, 18, 3, 3994800, v, 0);
    let mut v: Vec<u8> = Vec::new();
    v.push(1);
    push_element(t, "K", 19, 1, 4, 3909830, v, 82);
    let mut v: Vec<u8> = Vec::new();
    v.push(2);
    push_element(t, "Ca", 20, 2, 4, 4007800, v, 100);
    let mut v: Vec<u8> = Vec::new();
    v.push(3);
    push_element(t, "Sc", 21, 3, 4, 4495590, v, 136);
    let mut v: Vec<u8> = Vec::new();
    v.push(2);
    v.push(3);
    v.push(4);
    push_element(t, "Ti", 22, 4, 4, 4786700, v, 154);
    let mut v: Vec<u8> = Vec::new();
    v.push(2);
    v.push(3);
    v.push(4);
    v.push(5);
    push_element(t, "V", 23, 5, 4, 5094150, v, 163);
    let mut v: Vec<u8> = Vec::new();
    v.push(2);
    v.push(3);
    v.push(6);
    push_element(t, "Cr", 24, 6, 4, 5199600, v, 166);
    let mut v: Vec<u8> = Vec::new();
    v.push(2);
    v.push(4);
    v.push(6);
    v.push(7);
    push_element(t, "Mn", 25, 7, 4, 5493800, v, 155);
    let mut v: Vec<u8> = Vec::new();
    v.push(2);
    v.push(3);
    push_element(t, "Fe", 26, 8, 4, 5584500, v, 183);
    let mut v: Vec<u8> = Vec::new();
    v.push(2);
    v.push(3);
    push_element(t, "Co", 27, 9, 4, 5893320, v, 188);
    let mut v: Vec<u8> = Vec::new();
    v.push(2);
    v.push(3);
    push_element(t, "Ni", 28, 10, 4, 5869340, v, 191);
    let mut v: Vec<u8> = Vec::new();
    v.push(1);
    v.push(2);
    push_element(t, "Cu", 29, 11, 4, 6354600, v, 190);
    let mut v: Vec<u8> = Vec::new();
    v.push(2);
    push_element(t, "Zn", 30, 12, 4, 6540900, v, 165);
}

fn fill_band_2(t: &mut Vec<(String, Element)>)
    requires
        table_entries_wf(old(t)@),
        forall|i: int| 0 <= i < old(t)@.len() ==> (#[trigger] old(t)@[i].1)@.charge < 31,
    ensures
        table_entries_wf(final(t)@),
        forall|i: int| 0 <= i < final(t)@.len() ==> (#[trigger] final(t)@[i].1)@.charge <= 45,
{
    let mut v: Vec<u8> = Vec::new();
    v.push(1);
    v.push(2);
    v.push(3);
    push_element(t, "Ga", 31, 13, 4, 6972300, v, 181);
    let mut v: Vec<u8> = Vec::new();
    v.push(2);
    v.push(4);
    push_element(t, "Ge", 32, 14, 4, 7264000, v, 201);
    let mut v: Vec<u8> = Vec::new();
    v.push(3);
    v.push(5);
    push_element(t, "As", 33, 15, 4, 7492160, v, 218);
    let mut v: Vec<u8> = Vec::new();
    v.push(2);
    v.push(4);
    v.push(6);
    push_element(t, "Se", 34, 16, 4, 7896000, v, 255);
    let mut v: Vec<u8> = Vec::new();
    v.push(1);
    v.push(3);
    v.push(5);
    v.push(7);
    push_element(t, "Br", 35, 17, 4, 7990400, v, 296);
    let mut v: Vec<u8> = Vec::new();
    v.push(0);
    push_element(t, "Kr", 36, 18, 4, 8379800, v, 300);
    let mut v: Vec<u8> = Vec::new();
    v.push(1);
    push_element(t, "Rb", 37, 1, 5, 8546780, v, 82);
    let mut v: Vec<u8> = Vec::new();
    v.push(2);
    push_element(t, "Sr", 38, 2, 5, 8762000, v, 95);
    let mut v: Vec<u8> = Vec::new();
    v.push(3);
    push_element(t, "Y", 39, 3, 5, 8890600, v, 122);
    let mut v: Vec<u8> = Vec::new();
    v.push(2);
    v.push(3);
    v.push(4);
    push_element(t, "Zr", 40, 4, 5, 9122400, v, 133);
    let mut v: Vec<u8> = Vec::new();
    v.push(1);
    v.push(2);
    v.push(3);
    v.push(4);
    v.push(5);
    push_element(t, "Nb", 41, 5, 5, 9290640, v, 160);
    let mut v: Vec<u8> = Vec::new();
    v.push(2);
    v.push(3);
    v.push(4);
    v.push(5);
    v.push(6);
    push_element(t, "Mo", 42, 6, 5, 9594000, v, 216);
    let mut v: Vec<u8> = Vec::new();
    v.push(2);
    v.push(3);
    v.push(4);
    v.push(5);
    v.push(6);
    v.push(7);
    push_element(t, "Tc", 43, 7, 5, 9800000, v, 190);
    let mut v: Vec<u8> = Vec::new();
    v.push(2);
    v.push(3);
    v.push(4);
    v.push(5);
    v.push(6);
    v.push(7);
    v.push(8);
    push_element(t, "Ru", 44, 8, 5, 10107000, v, 220);
    let mut v: Vec<u8> = Vec::new();
    v.push(2);
    v.push(3);
    v.push(4);
    v.push(5);
    v.push(6);
    push_element(t, "Rh", 45, 9, 5, 10290550, v, 228);
}

fn fill_band_3(t: &mut Vec<(String, Element)>)
    requires
        table_entries_wf(old(t)@),
        forall|i: int| 0 <= i < old(t)@.len() ==> (#[trigger] old(t)@[i].1)@.charge < 46,
    ensures
        table_entries_wf(final(t)@),
        forall|i: int| 0 <= i < final(t)@.len() ==> (#[trigger] final(t)@[i].1)@.charge <= 60,
{
    let mut v: Vec<u8> = Vec::new();
    v.push(2);
    v.push(4);
    push_element(t, "Pd", 46, 10, 5, 10642000, v, 220);
    let mut v: Vec<u8> = Vec::new();
    v.push(1);
    v.push(2);
    v.push(3);
    push_element(t, "Ag", 47, 11, 5, 10786820, v, 193);
    let mut v: Vec<u8> = Vec::new();
    v.push(1);
    v.push(2);
    push_element(t, "Cd", 48, 12, 5, 11241000, v, 169);
    let mut v: Vec<u8> = Vec::new();
    v.push(1);
    v.push(2);
    v.push(3);
    push_element(t, "In", 49, 13, 5, 11481800, v, 178);
    let mut v: Vec<u8> = Vec::new();
    v.push(2);
    v.push(4);
    push_element(t, "Sn", 50, 14, 5, 11871000, v, 196);
    let mut v: Vec<u8> = Vec::new();
    v.push(3);
    v.push(5);
    push_element(t, "Sb", 51, 15, 5, 12176000, v, 205);
    let mut v: Vec<u8> = Vec::new();
    v.push(2);
    v.push(4);
    v.push(6);
    push_element(t, "Te", 52, 16, 5, 12760000, v, 210);
    let mut v: Vec<u8> = Vec::new();
    v.push(1);
    v.push(3);
    v.push(5);
    v.push(7);
    push_element(t, "I", 53, 17, 5, 12690450, v, 266);
    let mut v: Vec<u8> = Vec::new();
    v.push(0);
    push_element(t, "Xe", 54, 18, 5, 13129000, v, 260);
    let mut v: Vec<u8> = Vec::new();
    v.push(1);
    push_element(t, "Cs", 55, 1, 6, 13290540, v, 79);
    let mut v: Vec<u8> = Vec::new();
    v.push(2);
    push_element(t, "Ba", 56, 2, 6, 13732700, v, 89);
    let mut v: Vec<u8> = Vec::new();
    v.push(3);
    push_element(t, "La", 57, 3, 6, 13890550, v, 110);
    let mut v: Vec<u8> = Vec::new();
    v.push(3);
    v.push(4);
    push_element(t, "Ce", 58, 3, 6, 14011600, v, 112);
    let mut v: Vec<u8> = Vec::new();
    v.push(2);
    v.push(3);
    v.push(4);
    push_element(t, "Pr", 59, 3, 6, 14090760, v, 113);
    let mut v: Vec<u8> = Vec::new();
    v.push(2);
    v.push(3);
    push_element(t, "Nd", 60, 3, 6, 14424200, v, 114);
}

fn fill_band_4(t: &mut Vec<(String, Element)>)
    requires
        table_entries_wf(old(t)@),
        forall|i: int| 0 <= i < old(t)@.len() ==> (#[trigger] old(t)@[i].1)@.charge < 61,
    ensures
        table_entries_wf(final(t)@),
        forall|i: int| 0 <= i < final(t)@.len() ==> (#[trigger] final(t)@[i].1)@.charge <= 75,
{
    let mut v: Vec<u8> = Vec::new();
    v.push(3);
    push_element(t, "Pm", 61, 3, 6, 14500000, v, 113);
    let mut v: Vec<u8> = Vec::new();
    v.push(2);
    v.push(3);
    push_element(t, "Sm", 62, 3, 6, 15036000, v, 117);
    let mut v: Vec<u8> = Vec::new();
    v.push(2);
    v.push(3);
    push_element(t, "Eu", 63, 3, 6, 15196400, v, 120);
    let mut v: Vec<u8> = Vec::new();
    v.push(2);
    v.push(3);
    push_element(t, "Gd", 64, 3, 6, 15725000, v, 120);
    let mut v: Vec<u8> = Vec::new();
    v.push(2);
    v.push(3);
    v.push(4);
    push_element(t, "Tb", 65, 3, 6, 15892530, v, 120);
    let mut v: Vec<u8> = Vec::new();
    v.push(2);
    v.push(3);
    push_element(t, "Dy", 66, 3, 6, 16250000, v, 122);
    let mut v: Vec<u8> = Vec::new();
    v.push(3);
    push_element(t, "Ho", 67, 3, 6, 16593030, v, 123);
    let mut v: Vec<u8> = Vec::new();
    v.push(3);
    push_element(t, "Er", 68, 3, 6, 16725900, v, 124);
    let mut v: Vec<u8> = Vec::new();
    v.push(2);
    v.push(3);
    push_element(t, "Tm", 69, 3, 6, 16893420, v, 125);
    let mut v: Vec<u8> = Vec::new();
    v.push(2);
    v.push(3);
    push_element(t, "Yb", 70, 3, 6, 17304000, v, 110);
    let mut v: Vec<u8> = Vec::new();
    v.push(3);
    push_element(t, "Lu", 71, 3, 6, 17496700, v, 127);
    let mut v: Vec<u8> = Vec::new();
    v.push(1);
    v.push(2);
    v.push(3);
    v.push(4);
    push_element(t, "Hf", 72, 4, 6, 17849000, v, 130);
    let mut v: Vec<u8> = Vec::new();
    v.push(1);
    v.push(2);
    v.push(3);
    v.push(4);
    v.push(5);
    push_element(t, "Ta", 73, 5, 6, 18094790, v, 150);
    let mut v: Vec<u8> = Vec::new();
    v.push(2);
    v.push(3);
    v.push(4);
    v.push(5);
    v.push(6);
    push_element(t, "W", 74, 6, 6, 18384000, v, 236);
    let mut v: Vec<u8> = Vec::new();
    v.push(1);
    v.push(2);
    v.push(3);
    v.push(4);
    v.push(5);
    v.push(6);
    v.push(7);
    push_element(t, "Re", 75, 7, 6, 18620700, v, 190);
}

fn fill_band_5(t: &mut Vec<(String, Element)>)
    requires
        table_entries_wf(old(t)@),
        forall|i: int| 0 <= i < old(t)@.len() ==> (#[trigger] old(t)@[i].1)@.charge < 76,
    ensures
        table_entries_wf(final(t)@),
        forall|i: int| 0 <= i < final(t)@.len() ==> (#[trigger] final(t)@[i].1)@.charge <= 91,
{
    let mut v: Vec<u8> = Vec::new();
    v.push(1);
    v.push(2);
    v.push(3);
    v.push(4);
    v.push(5);
    v.push(6);
    v.push(7);
    v.push(8);
    push_element(t, "Os", 76, 8, 6, 19023000, v, 220);
    let mut v: Vec<u8> = Vec::new();
    v.push(1);
    v.push(2);
    v.push(3);
    v.push(4);
    v.push(5);
    v.push(6);
    push_element(t, "Ir", 77, 9, 6, 19221700, v, 220);
    let mut v: Vec<u8> = Vec::new();
    v.push(2);
    v.push(3);
    v.push(4);
    v.push(5);
    v.push(6);
    push_element(t, "Pt", 78, 10, 6, 19508500, v, 228);
    let mut v: Vec<u8> = Vec::new();
    v.push(1);
    v.push(2);
    v.push(3);
    v.push(5);
    push_element(t, "Au", 79, 11, 6, 19696657, v, 254);
    let mut v: Vec<u8> = Vec::new();
    v.push(1);
    v.push(2);
    push_element(t, "Hg", 80, 12, 6, 20059000, v, 200);
    let mut v: Vec<u8> = Vec::new();
    v.push(1);
    v.push(2);
    v.push(3);
    push_element(t, "Tl", 81, 13, 6, 20438330, v, 162);
    let mut v: Vec<u8> = Vec::new();
    v.push(2);
    v.push(4);
    push_element(t, "Pb", 82, 14, 6, 20720000, v, 233);
    let mut v: Vec<u8> = Vec::new();
    v.push(3);
    v.push(5);
    push_element(t, "Bi", 83, 15, 6, 20898040, v, 202);
    let mut v: Vec<u8> = Vec::new();
    v.push(2);
    v.push(4);
    v.push(6);
    push_element(t, "Po", 84, 16, 6, 20900000, v, 200);
    let mut v: Vec<u8> = Vec::new();
    v.push(0);
    push_element(t, "Rn", 86, 18, 6, 22200000, v, 0);
    let mut v: Vec<u8> = Vec::new();
    v.push(1);
    push_element(t, "Fr", 87, 1, 7, 22300000, v, 70);
    let mut v: Vec<u8> = Vec::new();
    v.push(2);
    push_element(t, "Ra", 88, 2, 7, 22600000, v, 89);
    let mut v: Vec<u8> = Vec::new();
    v.push(3);
    push_element(t, "Ac", 89, 3, 7, 22700000, v, 110);
    let mut v: Vec<u8> = Vec::new();
    v.push(2);
    v.push(3);
    v.push(4);
    push_element(t, "Th", 90, 3, 7, 23203800, v, 130);
    let mut v: Vec<u8> = Vec::new();
    v.push(2);
    v.push(3);
    v.push(4);
    v.push(5);
    push_element(t, "Pa", 91, 3, 7, 23103590, v, 150);
}

fn fill_band_6(t: &mut Vec<(String, Element)>)
    requires
        table_entries_wf(old(t)@),
        forall|i: int| 0 <= i < old(t)@.len() ==> (#[trigger] old(t)@[i].1)@.charge < 92,
    ensures
        table_entries_wf(final(t)@),
        forall|i: int| 0 <= i < final(t)@.len() ==> (#[trigger] final(t)@[i].1)@.charge <= 100,
{
    let mut v: Vec<u8> = Vec::new();
    v.push(3);
    v.push(4);
    v.push(5);
    v.push(6);
    push_element(t, "U", 92, 3, 7, 23802890, v, 138);
    let mut v: Vec<u8> = Vec::new();
    v.push(3);
    v.push(4);
    v.push(5);
    v.push(6);
    v.push(7);
    push_element(t, "Np", 93, 3, 7, 23700000, v, 136);
    let mut v: Vec<u8> = Vec::new();
    v.push(3);
    v.push(4);
    v.push(5);
    v.push(6);
    v.push(7);
    push_element(t, "Pu", 94, 3, 7, 24400000, v, 128);
    let mut v: Vec<u8> = Vec::new();
    v.push(2);
    v.push(3);
    v.push(4);
    v.push(5);
    v.push(6);
    push_element(t, "Am", 95, 3, 7, 24300000, v, 130);
    let mut v: Vec<u8> = Vec::new();
    v.push(2);
    v.push(3);
    v.push(4);
    push_element(t, "Cm", 96, 3, 7, 24700000, v, 130);
    let mut v: Vec<u8> = Vec::new();
    v.push(3);
    v.push(4);
    push_element(t, "Bk", 97, 3, 7, 24700000, v, 130);
    let mut v: Vec<u8> = Vec::new();
    v.push(2);
    v.push(3);
    v.push(4);
    push_element(t, "Cf", 98, 3, 7, 25100000, v, 130);
    let mut v: Vec<u8> = Vec::new();
    v.push(2);
    v.push(3);
    push_element(t, "Es", 99, 3, 7, 25200000, v, 130);
    let mut v: Vec<u8> = Vec::new();
    v.push(2);
    v.push(3);
    push_element(t, "Fm", 100, 3, 7, 25700000, v, 130);
}

/// The periodic table: a read-only collection of element records.
pub struct PeriodicTable {
    table: Vec<(String, Element)>,
}

impl PeriodicTable {
    /// The records of the table.
    pub closed spec fn entries(self) -> Seq<(String, Element)> {
        self.table@
    }

    /// The table's records are well-formed with distinct charges.
    pub open spec fn wf(self) -> bool {
        table_entries_wf(self.entries())
    }

    /// The standard table.
    pub fn new() -> (r: PeriodicTable)
        ensures
            r.wf(),
    {
        let mut t: Vec<(String, Element)> = Vec::new();
        fill_band_0(&mut t);
        fill_band_1(&mut t);
        fill_band_2(&mut t);
        fill_band_3(&mut t);
        fill_band_4(&mut t);
        fill_band_5(&mut t);
        fill_band_6(&mut t);
        PeriodicTable { table: t }
    }

    /// Looks a symbol up; the first record under it, if any.
    pub fn get(&self, key: &str) -> (r: Option<&Element>)
        ensures
            match r {
                Some(e) => table_lookup(self.entries(), key@) == Some(e@) && (self.wf()
                    ==> element_wf(e@)),
                None => table_lookup(self.entries(), key@) is None,
            },
    {
        let ks = String::from_str(key);
        let mut i: usize = 0;
        while i < self.table.len()
            invariant
                i <= self.table@.len(),
                ks@ == key@,
                forall|q: int| 0 <= q < i ==> (#[trigger] self.table@[q].0)@ != key@,
            decreases self.table@.len() - i,
        {
            if self.table[i].0 == ks {
                proof {
                    lemma_name_index(self.table@, key@);
                    let ni = name_index(self.table@, key@);
                    assert(ni == i as int) by {
                        if ni > i as int {
                            assert(self.table@[i as int].0@ != key@);
                        }
                        if 0 <= ni < i as int {
                            assert(self.table@[ni].0@ != key@);
                        }
                    }
                }
                return Some(&self.table[i].1);
            }
            i = i + 1;
        }
        proof {
            lemma_name_index(self.table@, key@);
            if name_index(self.table@, key@) >= 0 {
                assert(self.table@[name_index(self.table@, key@)].0@ != key@);
            }
        }
        None
    }

    /// Adds a record, unless its symbol or charge is already present or
    /// the record falls outside the element bounds; such calls leave the
    /// table unchanged.
    pub fn insert(&mut self, name: String, el: Element)
        requires
            old(self).wf(),
        ensures
            final(self).wf(),
            final(self).entries() == old(self).entries() || final(self).entries() == old(
                self,
            ).entries().push((name, el)),
    {
        let mut i: usize = 0;
        while i < self.table.len()
            invariant
                i <= self.table@.len(),
                *self == *old(self),
                old(self).wf(),
                forall|q: int| 0 <= q < i ==> (#[trigger] self.table@[q].0)@ != name@,
                forall|q: int| 0 <= q < i ==> (#[trigger] self.table@[q].1)@.charge != el@.charge,
            decreases self.table@.len() - i,
        {
            if self.table[i].0 == name || self.table[i].1.charge == el.charge {
                return ;
            }
            proof {
                assert(self.table@[i as int].0@ != name@);
                assert(self.table@[i as int].1@.charge != el@.charge);
            }
            i = i + 1;
        }
        if el.group < 1 || el.group > 18 || el.period < 1 || el.period > 7 || el.charge < 1
            || el.valencies.len() < 1 || el.valencies.len() > 8 {
            return ;
        }
        let mut j: usize = 0;
        while j < el.valencies.len()
            invariant
                j <= el.valencies@.len(),
                *self == *old(self),
                old(self).wf(),
                1 <= el@.charge && 1 <= el@.group <= 18 && 1 <= el@.period <= 7,
                1 <= el.valencies@.len() <= 8,
                forall|q: int| 0 <= q < self.table@.len() ==> (#[trigger] self.table@[q].0)@ != name@,
                forall|q: int|
                    0 <= q < self.table@.len() ==> (#[trigger] self.table@[q].1)@.charge != el@.charge,
                forall|q: int| 0 <= q < j ==> #[trigger] el.valencies@[q] <= 18,
            decreases el.valencies@.len() - j,
        {
            if el.valencies[j] > 18 {
                return ;
            }
            j = j + 1;
        }
        proof {
            assert(element_wf(el@));
        }
        let ghost before = self.table@;
        let ghost elg = el@;
        self.table.push((name, el));
        proof {
            assert(forall|q: int| 0 <= q < before.len() ==> #[trigger] self.table@[q] == before[q]);
            assert(self.table@[before.len() as int].1@ == elg);
            assert forall|a: int, b: int| 0 <= a < b < self.table@.len() implies (
            #[trigger] self.table@[a].1)@.charge != (#[trigger] self.table@[b].1)@.charge by {
                if b == before.len() as int {
                    assert(self.table@[a] == before[a]);
                }
            }
        }
    }

    /// Removes and returns the first record under `name`, if any.
    pub fn remove(&mut self, name: &str) -> (r: Option<(String, Element)>)
        requires
            old(self).wf(),
        ensures
            final(self).wf(),
            match r {
                Some(p) => {
                    &&& p.0@ == name@
                    &&& table_lookup(old(self).entries(), name@) == Some(p.1@)
                    &&& final(self).entries() == old(self).entries().remove(
                        name_index(old(self).entries(), name@),
                    )
                },
                None => {
                    &&& table_lookup(old(self).entries(), name@) is None
                    &&& *final(self) == *old(self)
                },
            },
    {
        let ghost orig = self.table@;
        let ks = String::from_str(name);
        let mut i: usize = 0;
        while i < self.table.len()
            invariant
                i <= self.table@.len(),
                ks@ == name@,
                *self == *old(self),
                old(self).wf(),
                orig == self.table@,
                forall|q: int| 0 <= q < i ==> (#[trigger] orig[q].0)@ != name@,
            decreases self.table@.len() - i,
        {
            if self.table[i].0 == ks {
                proof {
                    lemma_name_index(orig, name@);
                    let ni = name_index(orig, name@);
                    assert(ni == i as int) by {
                        if ni > i as int {
                            assert(orig[i as int].0@ != name@);
                        }
                        if 0 <= ni < i as int {
                            assert(orig[ni].0@ != name@);
                        }
                    }
                }
                let p = self.table.remove(i);
                proof {
                    assert forall|a: int, b: int|
                        0 <= a < b < self.table@.len() implies (#[trigger] self.table@[
                        a].1)@.charge != (#[trigger] self.table@[b].1)@.charge by {
                        let a0 = if a < i as int {
                            a
                        } else {
                            a + 1
                        };
                        let b0 = if b < i as int {
                            b
                        } else {
                            b + 1
                        };
                        assert(self.table@[a] == orig[a0] && self.table@[b] == orig[b0]);
                    }
                    assert(forall|a: int|
                        0 <= a < self.table@.len() ==> #[trigger] self.table@[a] == orig[if a
                            < i as int {
                            a
                        } else {
                            a + 1
                        }]);
                }
                return Some(p);
            }
            i = i + 1;
        }
        proof {
            lemma_name_index(orig, name@);
            if name_index(orig, name@) >= 0 {
                assert(orig[name_index(orig, name@)].0@ != name@);
            }
        }
        None
    }
}

} // verus!
