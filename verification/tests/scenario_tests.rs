use al_chemistry::math_util::{gcd, lcm};
use al_chemistry::periodic_table::PeriodicTable;
use al_chemistry::substance::{ClassificationError, Substance, SubstanceBlock, SubstanceClass};

fn blocks_of(p_t: &PeriodicTable, parts: &[(&str, u8)]) -> Vec<SubstanceBlock> {
    let mut v = Vec::new();
    for (sym, idx) in parts {
        let e = p_t.get(sym).expect("element must be in the table").duplicate();
        v.push(SubstanceBlock::new(e, *idx, 0));
    }
    v
}

fn state_of(s: &Substance, p_t: &PeriodicTable, sym: &str) -> i8 {
    let c = p_t.get(sym).unwrap().charge;
    for b in s.me.iter().chain(s.anti_me.iter()) {
        if b.element.charge == c {
            return b.oxidation_state;
        }
    }
    panic!("element not in the substance");
}

fn weighted_sum(s: &Substance) -> i32 {
    let mut total: i32 = 0;
    for b in s.me.iter().chain(s.anti_me.iter()) {
        total += (b.oxidation_state as i32) * (b.index as i32);
    }
    total
}

#[test]
fn sodium_chloride_is_a_salt() {
    let p_t = PeriodicTable::new();
    let s = Substance::from_elements(blocks_of(&p_t, &[("Na", 1), ("Cl", 1)])).unwrap();
    assert_eq!(s.class, SubstanceClass::Salt);
    assert_eq!(state_of(&s, &p_t, "Na"), 1);
    assert_eq!(state_of(&s, &p_t, "Cl"), -1);
    assert_eq!(weighted_sum(&s), 0);
}

#[test]
fn calcium_hydride_states() {
    let p_t = PeriodicTable::new();
    let s = Substance::from_elements(blocks_of(&p_t, &[("Ca", 1), ("H", 2)])).unwrap();
    assert_eq!(s.class, SubstanceClass::Hydride);
    assert_eq!(state_of(&s, &p_t, "H"), -1);
    assert_eq!(state_of(&s, &p_t, "Ca"), 2);
    assert_eq!(weighted_sum(&s), 0);
}

#[test]
fn aluminium_hydroxide_states() {
    let p_t = PeriodicTable::new();
    let s = Substance::from_elements(blocks_of(&p_t, &[("Al", 1), ("O", 3), ("H", 3)])).unwrap();
    assert_eq!(s.class, SubstanceClass::Base);
    assert_eq!(state_of(&s, &p_t, "O"), -2);
    assert_eq!(state_of(&s, &p_t, "H"), 1);
    assert_eq!(state_of(&s, &p_t, "Al"), 3);
    assert_eq!(weighted_sum(&s), 0);
}

#[test]
fn sodium_peroxide_is_not_an_oxide() {
    let p_t = PeriodicTable::new();
    let s = Substance::from_elements(blocks_of(&p_t, &[("Na", 2), ("O", 2)])).unwrap();
    assert_eq!(s.class, SubstanceClass::Peroxide);
    assert_eq!(state_of(&s, &p_t, "O"), -1);
    assert_eq!(state_of(&s, &p_t, "Na"), 1);
    assert_eq!(weighted_sum(&s), 0);
}

#[test]
fn sulphuric_acid_states() {
    let p_t = PeriodicTable::new();
    let s = Substance::from_elements(blocks_of(&p_t, &[("H", 2), ("S", 1), ("O", 4)])).unwrap();
    assert_eq!(s.class, SubstanceClass::Acid);
    assert_eq!(state_of(&s, &p_t, "H"), 1);
    assert_eq!(weighted_sum(&s), 0);
}

#[test]
fn sodium_dichloride_is_unknown() {
    let p_t = PeriodicTable::new();
    let r = Substance::from_elements(blocks_of(&p_t, &[("Na", 1), ("Cl", 2)]));
    assert!(matches!(r, Err(ClassificationError::UnknownSubstance)));
}

#[test]
fn ammonium_hydroxide_exception() {
    let p_t = PeriodicTable::new();
    let s = Substance::from_elements(blocks_of(&p_t, &[("N", 1), ("H", 5), ("O", 1)])).unwrap();
    assert_eq!(s.class, SubstanceClass::Base);
    assert_eq!(state_of(&s, &p_t, "N"), -3);
    assert_eq!(weighted_sum(&s), 0);
}

#[test]
fn classified_substances_are_neutral() {
    let p_t = PeriodicTable::new();
    let samples: Vec<Vec<(&str, u8)>> = vec![
        vec![("Na", 1), ("H", 1), ("C", 1), ("O", 3)],
        vec![("Al", 1), ("O", 4), ("H", 1), ("C", 1)],
        vec![("Cs", 1), ("Au", 1), ("Cl", 4)],
        vec![("Li", 1), ("K", 1), ("Rb", 1), ("P", 1), ("O", 4)],
        vec![("H", 4), ("Ti", 1), ("O", 4)],
        vec![("B", 1), ("O", 3), ("H", 3)],
    ];
    for parts in samples {
        let s = Substance::from_elements(blocks_of(&p_t, &parts)).unwrap();
        assert_eq!(weighted_sum(&s), 0);
    }
}

#[test]
fn classification_rejects_a_changed_stoichiometry() {
    let p_t = PeriodicTable::new();
    // the same elements as table salt, but an index sodium cannot balance
    let r = Substance::from_elements(blocks_of(&p_t, &[("Na", 2), ("Cl", 3)]));
    assert!(r.is_err());
}

#[test]
fn input_order_does_not_matter() {
    let p_t = PeriodicTable::new();
    let a = Substance::from_elements(blocks_of(&p_t, &[("H", 2), ("S", 1), ("O", 4)])).unwrap();
    let b = Substance::from_elements(blocks_of(&p_t, &[("O", 4), ("H", 2), ("S", 1)])).unwrap();
    assert_eq!(a.class, b.class);
    assert_eq!(state_of(&a, &p_t, "S"), state_of(&b, &p_t, "S"));
}

#[test]
fn reclassifying_an_output_gives_the_same_answer() {
    let p_t = PeriodicTable::new();
    let first = Substance::from_elements(blocks_of(&p_t, &[("Na", 1), ("Cl", 1)])).unwrap();
    let mut again = Vec::new();
    for b in first.me.iter().chain(first.anti_me.iter()) {
        again.push(SubstanceBlock::new(b.element.duplicate(), b.index, 0));
    }
    let second = Substance::from_elements(again).unwrap();
    assert_eq!(second.class, first.class);
    assert_eq!(state_of(&second, &p_t, "Na"), state_of(&first, &p_t, "Na"));
    assert_eq!(state_of(&second, &p_t, "Cl"), state_of(&first, &p_t, "Cl"));
}

#[test]
fn gcd_and_lcm_values() {
    assert_eq!(gcd(12, 18), 6);
    assert_eq!(gcd(7, 13), 1);
    assert_eq!(gcd(0, 5), 5);
    assert_eq!(gcd(5, 0), 5);
    assert_eq!(gcd(0, 0), 0);
    assert_eq!(lcm(4, 6), 12);
    assert_eq!(lcm(3, 5), 15);
    assert_eq!(lcm(1, 9), 9);
}
