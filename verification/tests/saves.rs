use cartographer::eu4_date::{EU4Date, Month};
use cartographer::eu4_raw_parser::RawEU4Object;
use cartographer::eu4_save::{save_is_readable, tag_player, NationError, NationRecord, SaveGameRecord};
use cartographer::save_parser::{ColorError, Mod, WarResult};

fn obj(text: &str) -> RawEU4Object<'_> {
    RawEU4Object::parse_object_inner(text).unwrap().1
}

fn s(t: &str) -> String {
    t.to_string()
}

const SWEDEN: &str = r#"
    colors={ map_color={ 10 20 30 } country_color={ 1 2 3 } }
    previous_country_tags="SCA" previous_country_tags=KAL previous_country_tags={ x }
    raw_development=123.456 prestige=-12.5 stability=2.000 treasury=77.25
    loan={ amount=100.5 } loan={ amount={ 1 } } loan=7 loan={ lender=DAN }
    ledger={ lastmonthincome=12.5 lastmonthexpense={ 3 } }
    army={ regiment={ strength=0.5 } regiment={ morale=3 } name=x }
    army={ regiment={ strength=1.000 } }
    navy={ ship={ home=1 } ship={ home=1 } name=y } navy={ ship=3 } navy=4
    score_place=3 capital=1 capital=2 overlord="DAN"
    allies={ NOR "FIN" { x } } subjects={ }
"#;

#[test]
fn nation_record_reads_a_country() {
    let o = obj(SWEDEN);
    let n = NationRecord::from_parsed_obj(s("SWE"), &o).unwrap();
    assert_eq!(n.tag, "SWE");
    assert_eq!(n.other_tags, vec![s("SCA"), s("KAL")]);
    assert_eq!(n.raw_development, Some(s("123.456")));
    assert_eq!(n.prestige, "-12.5");
    assert_eq!(n.stability, "2.000");
    assert_eq!(n.treasury, "77.25");
    assert_eq!(n.loan_amounts, vec![Some(s("100.5")), None, None]);
    assert_eq!(n.last_month_income, Some(s("12.5")));
    assert_eq!(n.last_month_expense, None);
    assert_eq!(n.regiment_strengths, vec![Some(s("0.5")), None, Some(s("1.000"))]);
    assert_eq!(n.navy, 3);
    assert_eq!(n.score_place, 3);
    assert_eq!(n.capital, 1);
    assert_eq!(n.overlord, Some(s("DAN")));
    assert_eq!(n.allies, vec![s("NOR"), s("FIN")]);
    assert_eq!(n.subjects, Vec::<String>::new());
    assert_eq!(n.map_color, [10, 20, 30]);
    assert_eq!(n.nation_color, [1, 2, 3]);
}

#[test]
fn nation_record_needs_colors() {
    let err = |t: &str| NationRecord::from_parsed_obj(s("AAA"), &obj(t)).err();
    assert_eq!(err("treasury=1"), Some(NationError::NoColors));
    assert_eq!(err("colors={ country_color={ 1 2 3 } }"), Some(NationError::NoMapColor));
    assert_eq!(
        err("colors={ map_color={ 1 2 } country_color={ 1 2 3 } }"),
        Some(NationError::MapColor(ColorError::WrongLength))
    );
    assert_eq!(err("colors={ map_color={ 1 2 3 } }"), Some(NationError::NoCountryColor));
    assert_eq!(
        err("colors={ map_color={ 1 2 3 } country_color={ 1 2 300 } }"),
        Some(NationError::CountryColor(ColorError::NotAByte))
    );
    assert_eq!(NationError::NoColors.message(), "Found no colors for a country");
}

#[test]
fn nation_record_needs_its_numbers() {
    let colors = "colors={ map_color={ 1 2 3 } country_color={ 4 5 6 } }";
    let err = |t: &str| NationRecord::from_parsed_obj(s("AAA"), &obj(&format!("{colors} {t}"))).err();
    // Colors come first, then the treasury, prestige, stability, score place and capital.
    assert_eq!(NationRecord::from_parsed_obj(s("AAA"), &obj("treasury=x")).err(), Some(NationError::NoColors));
    assert_eq!(err(""), Some(NationError::NoTreasury));
    assert_eq!(err("treasury=\"1.5\" prestige=1"), Some(NationError::NoTreasury));
    assert_eq!(err("treasury={ 1 } prestige=1"), Some(NationError::NoTreasury));
    assert_eq!(err("treasury=1.5"), Some(NationError::NoPrestige));
    assert_eq!(err("treasury=1.5 prestige=1 stability=x"), Some(NationError::NoStability));
    assert_eq!(err("treasury=1.5 prestige=1 stability=-inf"), Some(NationError::NoScorePlace));
    assert_eq!(err("treasury=1.5 prestige=1 stability=1 score_place=1.5"), Some(NationError::NoScorePlace));
    assert_eq!(err("treasury=1.5 prestige=1 stability=1 score_place=2"), Some(NationError::NoCapital));
    assert_eq!(NationError::NoTreasury.message(), "no float 'treasury'");
    assert_eq!(NationError::NoPrestige.message(), "no float 'prestige");
    assert_eq!(NationError::NoCapital.message(), "No int 'capital'");
    // With those, every other part may be missing.
    let bare = NationRecord::from_parsed_obj(
        s("AAA"),
        &obj(&format!("{colors} treasury=.5 prestige=1e2 stability=NaN score_place=-2 capital=7")),
    )
    .unwrap();
    assert_eq!(bare.treasury, ".5");
    assert_eq!(bare.prestige, "1e2");
    assert_eq!(bare.score_place, -2);
    assert_eq!(bare.capital, 7);
    assert_eq!(bare.raw_development, None);
    assert_eq!(bare.navy, 0);
    assert!(bare.loan_amounts.is_empty());
}

const SAVE: &str = r#"
    date=1444.11.11 multi_player=yes current_age="age_of_discovery"
    players_countries={ "Alice" "SWE" "Bob" "DAN" "Carl" }
    countries={
        SWE={ colors={ map_color={ 1 1 1 } country_color={ 2 2 2 } } treasury=1.5
            prestige=0 stability=1 score_place=1 capital=1 }
        ---=7
        "DAN"={ colors={ map_color={ 3 3 3 } country_color={ 4 4 4 } } treasury=0
            prestige=0 stability=0 score_place=2 capital=12 }
    }
    provinces={ -1={ owner="SWE" } -2={ name=x } -3={ owner=DAN } notanumber={ owner=NOR } }
    dlc_enabled={ "Art of War" "Conquest of Paradise" }
    empire={ emperor="HAB" }
    celestial_empire={ emperor=MNG }
    previous_war={ name="War A" history={ 1444.11.11={ add_attacker=SWE add_defender=DAN }
        1450.1.1={ rem_attacker=SWE } } outcome=3 }
    active_war={ name="Nobody's" history={ 1444.11.11={ rem_attacker=SWE } } }
    active_war={ name="War B" history={ 1445.1.1={ add_defender=SWE add_attacker=NOR } } }
"#;

#[test]
fn save_record_reads_a_save() {
    let o = obj(SAVE);
    let save = SaveGameRecord::new_parser(&o).unwrap();
    assert_eq!(save.all_nations.len(), 2);
    assert_eq!(save.all_nations[0].0, "SWE");
    assert_eq!(save.all_nations[0].1.treasury, "1.5");
    assert_eq!(save.all_nations[1].0, "\"DAN\"");
    assert_eq!(save.all_nations[1].1.map_color, [3, 3, 3]);
    assert_eq!(save.player_tags, vec![(s("SWE"), s("Alice")), (s("DAN"), s("Bob"))]);
    assert_eq!(save.provinces, vec![(1, s("SWE")), (3, s("DAN"))]);
    assert_eq!(save.dlc, vec![s("Art of War"), s("Conquest of Paradise")]);
    assert!(save.great_powers.is_empty());
    assert_eq!(save.date, EU4Date { year: 1444, month: Month::NOV, day: 11 });
    assert!(save.multiplayer);
    assert_eq!(save.age, Some(s("age_of_discovery")));
    assert_eq!(save.hre, Some(s("HAB")));
    assert_eq!(save.china, Some(s("MNG")));
    assert_eq!(save.crusade, None);
    assert_eq!(save.game_mod, Mod::Vanilla);
    assert_eq!(save.player_wars.len(), 2);
    assert_eq!(save.player_wars[0].name, "War A");
    assert_eq!(save.player_wars[0].result, Some(WarResult::DefenderVictory));
    assert_eq!(save.player_wars[1].name, "War B");
    assert_eq!(save.player_wars[1].attackers, vec![s("NOR")]);
}

#[test]
fn save_record_needs_players_provinces_and_dlc() {
    let base = "date=1444.11.11 multi_player=no countries={ }";
    let with = |extra: &str| format!("{base} {extra}");
    let t = with("provinces={ } dlc_enabled={ }");
    assert!(SaveGameRecord::new_parser(&obj(&t)).is_none());
    let t = with("players_countries={ } dlc_enabled={ }");
    assert!(SaveGameRecord::new_parser(&obj(&t)).is_none());
    let t = with("players_countries={ } provinces={ }");
    assert!(SaveGameRecord::new_parser(&obj(&t)).is_none());
    let t = with("players_countries={ } provinces={ } dlc_enabled={ }");
    let save = SaveGameRecord::new_parser(&obj(&t)).unwrap();
    assert!(!save.multiplayer);
    assert!(save.all_nations.is_empty());
    assert_eq!(save.age, None);
    assert_eq!(save.hre, None);
}

#[test]
fn player_of_a_tag_or_a_former_tag() {
    let players = vec![
        (s("RUS"), s("Alice"), Some(vec![s("MOS"), s("NOV")])),
        (s("GBR"), s("Bob"), Some(vec![s("ENG")])),
        (s("ENG"), s("Carl"), None),
        (s("SCO"), s("Dana"), Some(vec![s("NOV")])),
    ];
    assert_eq!(tag_player(&players, "GBR"), Some(s("Bob")));
    // A tag that is played wins over a former tag.
    assert_eq!(tag_player(&players, "ENG"), Some(s("Carl")));
    assert_eq!(tag_player(&players, "MOS"), Some(s("Alice")));
    // Of two players whose countries had the tag, the first given.
    assert_eq!(tag_player(&players, "NOV"), Some(s("Alice")));
    assert_eq!(tag_player(&players, "FRA"), None);
    assert_eq!(tag_player(&Vec::new(), "FRA"), None);
}

#[test]
fn saves_that_read() {
    assert!(save_is_readable(&obj(SAVE)));
    // No countries object, or a country that cannot be read.
    assert!(!save_is_readable(&obj("players_countries={ }")));
    assert!(!save_is_readable(&obj("countries={ SWE={ treasury=1 } }")));
    // Without players, nothing else is looked at.
    assert!(save_is_readable(&obj("countries={ } date=x")));
    assert!(!save_is_readable(&obj("countries={ } players_countries={ { x } }")));
    assert!(!save_is_readable(&obj("countries={ } players_countries={ } provinces={ -9223372036854775808={ } }")));
    let base = "countries={ } players_countries={ } provinces={ } dlc_enabled={ }";
    assert!(save_is_readable(&obj(&format!("{base} date=1444.11.11 multi_player=no"))));
    assert!(!save_is_readable(&obj(&format!("{base} date=1444.13.11 multi_player=no"))));
    assert!(!save_is_readable(&obj(&format!("{base} date=1444.11.11 multi_player=maybe"))));
    assert!(!save_is_readable(&obj(&format!("{base} date=1444.11.11 multi_player=no active_war={{ name=x }}"))));
    assert!(!save_is_readable(&obj(&format!(
        "{base} date=1444.11.11 multi_player=no previous_war={{ history={{ 1444.11.11={{ add_attacker=A }} }} }}"
    ))));
}
