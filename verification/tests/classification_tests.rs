use al_chemistry::periodic_table::PeriodicTable;
use al_chemistry::substance::{Substance, SubstanceBlock, SubstanceClass};

fn blocks(p_t: &PeriodicTable, parts: &[(&str, u8)]) -> Vec<SubstanceBlock> {
    let mut v = Vec::new();
    for (sym, idx) in parts {
        let e = p_t.get(sym).expect("element must be in the table").duplicate();
        v.push(SubstanceBlock::new(e, *idx, 0));
    }
    v
}

fn classify(p_t: &PeriodicTable, parts: &[(&str, u8)]) -> Result<Substance, al_chemistry::substance::ClassificationError> {
    Substance::from_elements(blocks(p_t, parts))
}

fn anti_me_state(s: &Substance, p_t: &PeriodicTable, sym: &str) -> i8 {
    let c = p_t.get(sym).unwrap().charge;
    for b in &s.anti_me {
        if b.element.charge == c {
            return b.oxidation_state;
        }
    }
    panic!("element not on the anion side");
}

fn is_substance_class(
    g_class: Vec<Vec<(&str, u8)>>, // g stands for "group"
    g_not_class: Vec<Vec<(&str, u8)>>,
    g_not_sb: Vec<Vec<(&str, u8)>>,
    class: SubstanceClass,
    imp_anti_me: Vec<(&str, i8)>,
) {
    let p_t = PeriodicTable::new();
    for c in g_class {
        let c = classify(&p_t, &c).unwrap();
        assert!(c.class == class);
        for i in &imp_anti_me {
            assert!(anti_me_state(&c, &p_t, i.0) == i.1);
        }
    }

    for n_c in g_not_class {
        assert!(classify(&p_t, &n_c).unwrap().class != class);
    }

    for n in g_not_sb {
        assert!(classify(&p_t, &n).is_err());
    }
}

#[test]
fn substance_simple() {
    let p_t = PeriodicTable::new();
    let mes = ["K", "Al", "Ti", "Sm"];
    let anti_mes = ["O", "Cl", "S", "Xe"];
    let not_elements = ["Pm O", "op", "Pol"];

    for m in mes {
        let s = classify(&p_t, &[(m, 1)]).unwrap();
        assert!(s.class == SubstanceClass::Simple);
        assert!(s.me.len() == 1);
        assert!(s.me[0].index == 1);
        assert!(s.me[0].oxidation_state == 0);
        assert!(s.anti_me.len() == 0);
    }
    for a in anti_mes {
        let s = classify(&p_t, &[(a, 1)]).unwrap();
        assert!(s.class == SubstanceClass::Simple);
        assert!(s.anti_me.len() == 1);
        assert!(s.anti_me[0].index == 1);
        assert!(s.anti_me[0].oxidation_state == 0);
        assert!(s.me.len() == 0);
    }
    for name in not_elements {
        assert!(p_t.get(name).is_none());
    }
}

#[test]
fn substance_oxide() {
    // SiO2, CO, CO2, H2O
    let o = vec![
        vec![("Si", 1), ("O", 2)],
        vec![("C", 1), ("O", 1)],
        vec![("C", 1), ("O", 2)],
        vec![("H", 2), ("O", 1)],
    ];
    // Al(OH)3, HClO, Na2O2
    let n_o = vec![
        vec![("Al", 1), ("O", 3), ("H", 3)],
        vec![("H", 1), ("Cl", 1), ("O", 1)],
        vec![("Na", 2), ("O", 2)],
    ];
    // Si2O, XeO
    let n = vec![vec![("Si", 2), ("O", 1)], vec![("Xe", 1), ("O", 1)]];

    is_substance_class(o, n_o, n, SubstanceClass::Oxide, vec![("O", -2)]);
}

#[test]
fn substance_peroxide() {
    // Na2O2, MgO2, SrO2
    let p = vec![
        vec![("Na", 2), ("O", 2)],
        vec![("Mg", 1), ("O", 2)],
        vec![("Sr", 1), ("O", 2)],
    ];
    // CaO, RaO, Li2O
    let n_p = vec![
        vec![("Ca", 1), ("O", 1)],
        vec![("Ra", 1), ("O", 1)],
        vec![("Li", 2), ("O", 1)],
    ];
    // Ca3O2, CoO2, MoO5
    let n = vec![
        vec![("Ca", 3), ("O", 2)],
        vec![("Co", 1), ("O", 2)],
        vec![("Mo", 1), ("O", 5)],
    ];

    is_substance_class(p, n_p, n, SubstanceClass::Peroxide, vec![("O", -1)]);
}

#[test]
fn substance_hydride() {
    // NaH, CaH2, SiH2, OsH3
    let h = vec![
        vec![("Na", 1), ("H", 1)],
        vec![("Ca", 1), ("H", 2)],
        vec![("Si", 1), ("H", 2)],
        vec![("Os", 1), ("H", 3)],
    ];
    // HCl, HI, H2O
    let n_h = vec![
        vec![("H", 1), ("Cl", 1)],
        vec![("H", 1), ("I", 1)],
        vec![("H", 2), ("O", 1)],
    ];
    // SiH, XeH
    let n = vec![vec![("Si", 1), ("H", 1)], vec![("Xe", 1), ("H", 1)]];

    is_substance_class(h, n_h, n, SubstanceClass::Hydride, vec![("H", -1)]);
}

#[test]
fn substance_base() {
    // Al(OH)3, NaOH, H2BeO2
    let b = vec![
        vec![("Al", 1), ("O", 3), ("H", 3)],
        vec![("Na", 1), ("O", 1), ("H", 1)],
        vec![("H", 2), ("Be", 1), ("O", 2)],
    ];
    // B(OH)3, H2SO4, HClO
    let n_b = vec![
        vec![("B", 1), ("O", 3), ("H", 3)],
        vec![("H", 2), ("S", 1), ("O", 4)],
        vec![("H", 1), ("Cl", 1), ("O", 1)],
    ];
    // AlOH2, Na(OH)3, KH2O
    let n = vec![
        vec![("Al", 1), ("O", 1), ("H", 2)],
        vec![("Na", 1), ("O", 3), ("H", 3)],
        vec![("K", 1), ("H", 2), ("O", 1)],
    ];

    is_substance_class(b, n_b, n, SubstanceClass::Base, vec![("O", -2), ("H", 1)]);
}

#[test]
fn substance_acid() {
    // B(OH)3, HCl, H2SiO3, H3PO4
    let a = vec![
        vec![("B", 1), ("O", 3), ("H", 3)],
        vec![("H", 1), ("Cl", 1)],
        vec![("H", 2), ("Si", 1), ("O", 3)],
        vec![("H", 3), ("P", 1), ("O", 4)],
    ];
    // H4TiO4, H2CaO2, H2O
    let n_a = vec![
        vec![("H", 4), ("Ti", 1), ("O", 4)],
        vec![("H", 2), ("Ca", 1), ("O", 2)],
        vec![("H", 2), ("O", 1)],
    ];
    // HPO4, H3Cl, H2ClO
    let n = vec![
        vec![("H", 1), ("P", 1), ("O", 4)],
        vec![("H", 3), ("Cl", 1)],
        vec![("H", 2), ("Cl", 1), ("O", 1)],
    ];

    is_substance_class(a, n_a, n, SubstanceClass::Acid, vec![("H", 1)]);
}

#[test]
fn substance_salt() {
    // NaCl, NaHCO3, Al(OH)CO3, Al(OH)2I, LiKRbPO4, CsAuCl4
    let s = vec![
        vec![("Na", 1), ("Cl", 1)],
        vec![("Na", 1), ("H", 1), ("C", 1), ("O", 3)],
        vec![("Al", 1), ("O", 4), ("H", 1), ("C", 1)],
        vec![("Al", 1), ("O", 2), ("H", 2), ("I", 1)],
        vec![("Li", 1), ("K", 1), ("Rb", 1), ("P", 1), ("O", 4)],
        vec![("Cs", 1), ("Au", 1), ("Cl", 4)],
    ];
    // HCl, Na(OH)
    let n_s = vec![
        vec![("H", 1), ("Cl", 1)],
        vec![("Na", 1), ("O", 1), ("H", 1)],
    ];
    // NaCl2, CaPO4, B5P3
    let n = vec![
        vec![("Na", 1), ("Cl", 2)],
        vec![("Ca", 1), ("P", 1), ("O", 4)],
        vec![("B", 5), ("P", 3)],
    ];

    is_substance_class(s, n_s, n, SubstanceClass::Salt, vec![]);
}
