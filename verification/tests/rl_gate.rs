use kfire_client::rl::gate::MatchGate;

#[test]
fn au_depart_une_trame_detat_peut_demarrer_un_match() {
    let gate = MatchGate::new();
    assert!(gate.may_start());
}

#[test]
fn apres_une_fin_une_trame_detat_ne_peut_pas_demarrer_un_match() {
    let mut gate = MatchGate::new();
    gate.closed();
    assert!(!gate.may_start());
}

#[test]
fn apres_une_fin_puis_une_ouverture_une_trame_detat_peut_de_nouveau_demarrer_un_match() {
    let mut gate = MatchGate::new();
    gate.closed();
    gate.opened();
    assert!(gate.may_start());
}

#[test]
fn deux_fins_consecutives_laissent_la_porte_fermee() {
    let mut gate = MatchGate::new();
    gate.closed();
    gate.closed();
    assert!(!gate.may_start());
}

#[test]
fn after_any_run_of_events_the_last_one_decides() {
    let mut gate = MatchGate::new();
    gate.opened();
    gate.closed();
    gate.opened();
    gate.closed();
    assert!(!gate.may_start());
    gate.opened();
    assert!(gate.may_start());
}
