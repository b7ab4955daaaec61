use kfire_client::lol::parser::{find_member, identities, Live, PlayerNames};
use kfire_client::lol::{ended_payload, live_payload, Watch, SLUG};
use kfire_client::payload::FieldValue;

fn a_live() -> Live {
    Live {
        champion: "Ahri".into(),
        level: 11,
        kills: 7,
        deaths: 2,
        assists: 9,
        creep_score: 142,
        gold: 8350,
        game_time_seconds: 843,
    }
}

fn sorted_keys(p: &[(String, FieldValue)]) -> Vec<String> {
    let mut keys: Vec<String> = p.iter().map(|(k, _)| k.clone()).collect();
    keys.sort();
    keys
}

fn get<'a>(p: &'a [(String, FieldValue)], key: &str) -> Option<&'a FieldValue> {
    p.iter().find(|(k, _)| k == key).map(|(_, v)| v)
}

fn names(riot_id: Option<&str>, summoner: Option<&str>, game_name: Option<&str>, tag: Option<&str>) -> PlayerNames {
    PlayerNames {
        riot_id: riot_id.map(String::from),
        summoner_name: summoner.map(String::from),
        riot_id_game_name: game_name.map(String::from),
        riot_id_tag_line: tag.map(String::from),
    }
}

/// The two players of the game, the opponent first, as the API lists them.
fn players() -> Vec<PlayerNames> {
    vec![
        names(Some("Adversaire#EUW"), Some(""), Some("Adversaire"), Some("EUW")),
        names(Some("Ouranos#KOE"), Some(""), Some("Ouranos"), Some("KOE")),
    ]
}

fn active() -> PlayerNames {
    names(Some("Ouranos#KOE"), Some(""), Some("Ouranos"), Some("KOE"))
}

#[test]
fn le_direct_ne_porte_exactement_que_les_neuf_champs_autorises() {
    let v = live_payload(&a_live(), SLUG);
    assert_eq!(
        sorted_keys(&v),
        vec![
            "assists",
            "champion",
            "creep_score",
            "deaths",
            "game_slug",
            "game_time_seconds",
            "gold",
            "kills",
            "level",
        ]
    );
    assert_eq!(get(&v, "game_slug"), Some(&FieldValue::Text(SLUG.to_string())));
    assert_eq!(get(&v, "champion"), Some(&FieldValue::Text("Ahri".to_string())));
    assert_eq!(get(&v, "level"), Some(&FieldValue::Int(11)));
    assert_eq!(get(&v, "kills"), Some(&FieldValue::Int(7)));
    assert_eq!(get(&v, "deaths"), Some(&FieldValue::Int(2)));
    assert_eq!(get(&v, "assists"), Some(&FieldValue::Int(9)));
    assert_eq!(get(&v, "creep_score"), Some(&FieldValue::Int(142)));
    assert_eq!(get(&v, "gold"), Some(&FieldValue::Int(8350)));
    assert_eq!(get(&v, "game_time_seconds"), Some(&FieldValue::Int(843)));
}

#[test]
fn le_direct_ne_porte_le_nom_de_personne() {
    let raw = format!("{:?}", live_payload(&a_live(), SLUG));
    for forbidden in [
        "riotId",
        "summonerName",
        "riotIdGameName",
        "riotIdTagLine",
        "allPlayers",
        "team",
        "items",
        "events",
        "#",
    ] {
        assert!(!raw.contains(forbidden), "{forbidden} a fuité dans {raw}");
    }
}

#[test]
fn la_fin_dune_partie_ne_porte_que_le_jeu_et_le_drapeau() {
    let v = ended_payload(SLUG);
    assert_eq!(sorted_keys(&v), vec!["ended", "game_slug"]);
    assert_eq!(get(&v, "game_slug"), Some(&FieldValue::Text(SLUG.to_string())));
    assert_eq!(get(&v, "ended"), Some(&FieldValue::Bool(true)));
}

#[test]
fn le_slug_est_celui_que_le_serveur_connait() {
    assert_eq!(SLUG, "league-of-legends");
}

#[test]
fn le_membre_est_retrouve_dans_la_liste_des_joueurs() {
    assert_eq!(find_member(&players(), &active()), Some(1));
}

#[test]
fn les_faits_dun_autre_joueur_ne_sont_jamais_pris_pour_ceux_du_membre() {
    // The opponent comes first in the list: taking the first line would be
    // taking his.
    assert_ne!(find_member(&players(), &active()), Some(0));
}

#[test]
fn un_membre_introuvable_nemet_rien() {
    let mut ps = players();
    ps[1] = names(Some("PersonneDeConnu#XXX"), Some(""), Some("PersonneDeConnu"), Some("XXX"));
    assert_eq!(find_member(&ps, &active()), None);
}

#[test]
fn lancien_protocole_par_nom_dinvocateur_marche_encore() {
    let ps = vec![names(None, Some("Riot Tuxedo"), None, None)];
    let me = names(None, Some("Riot Tuxedo"), None, None);
    assert_eq!(find_member(&ps, &me), Some(0));
}

#[test]
fn un_bloc_actif_sans_identite_ne_correspond_a_personne() {
    let ps = vec![names(None, Some(""), None, None)];
    let me = names(None, Some(""), None, None);
    assert!(identities(&me).is_empty());
    assert_eq!(find_member(&ps, &me), None);
}

#[test]
fn a_riot_id_is_put_back_together_from_its_halves() {
    let p = names(None, Some("  "), Some("Ouranos"), Some("KOE"));
    assert_eq!(identities(&p), vec!["Ouranos#KOE".to_string()]);
    let me = names(Some("Ouranos#KOE"), None, None, None);
    assert_eq!(find_member(&[p], &me), Some(0));
    let half = names(None, None, Some("Ouranos"), Some(" "));
    assert!(identities(&half).is_empty());
}

#[test]
fn the_first_matching_line_is_the_members() {
    let ps = vec![
        names(Some("Autre#1"), None, None, None),
        names(None, Some("Riot Tuxedo"), None, None),
        names(Some("Ouranos#KOE"), None, None, None),
    ];
    let me = names(Some("Ouranos#KOE"), Some("Riot Tuxedo"), None, None);
    assert_eq!(find_member(&ps, &me), Some(1));
}

#[test]
fn a_game_ends_once_when_the_api_goes_away() {
    let mut w = Watch::new();
    assert!(!w.gone());
    w.seen();
    assert!(w.gone());
    assert!(!w.gone());
}
