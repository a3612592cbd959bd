use cartographer::eu4_date::{EU4Date, Month};
use cartographer::eu4_raw_parser::RawEU4Object;
use cartographer::save_parser::{eu4_obj_as_color, war_is_readable, ColorError, War, WarError, WarResult};

fn obj(text: &str) -> RawEU4Object<'_> {
    RawEU4Object::parse_object_inner(text).unwrap().1
}

fn tags(t: &[&str]) -> Vec<String> {
    t.iter().map(|s| s.to_string()).collect()
}

const WAR: &str = r#"name="Test War"
history={
    1444.11.11={ add_attacker=AAA add_defender="BBB" }
    1444.11.10={ add_attacker=CCC }
    1450.1.1={ rem_attacker=AAA rem_defender=BBB }
    1449.5.5={ rem_defender=BBB }
    notadate={ add_attacker=ZZZ }
}
participants={ tag=AAA losses={ members={ 10 20 x 5 } } }
participants={ tag="BBB" losses={ members={ 7 } } }
participants={ tag=CCC losses={ members={ 1 } } }
participants={ tag=DDD losses={ members={ 100 } } }
outcome=2
"#;

#[test]
fn war_read_from_save_object() {
    let o = obj(WAR);
    let w = War::from_parsed_obj(&o).unwrap().unwrap();
    assert_eq!(w.name, "Test War");
    assert_eq!(w.attackers, tags(&["AAA", "CCC"]));
    assert_eq!(w.defenders, tags(&["BBB"]));
    assert_eq!(w.attacker_losses, 36);
    assert_eq!(w.defender_losses, 7);
    assert_eq!(w.start_date, EU4Date { year: 1444, month: Month::NOV, day: 10 });
    assert_eq!(w.end_date, Some(EU4Date { year: 1450, month: Month::JAN, day: 1 }));
    assert_eq!(w.result, Some(WarResult::AttackerVictory));
}

#[test]
fn war_outcomes_and_errors() {
    let peace = obj("name=P history={ 1444.11.11={ add_attacker=AAA } } outcome=1");
    let w = War::from_parsed_obj(&peace).unwrap().unwrap();
    assert_eq!(w.result, Some(WarResult::WhitePeace));
    assert_eq!(w.end_date, None);
    assert_eq!(w.attacker_losses, 0);

    let ongoing = obj("name=P history={ 1444.11.11={ add_defender=AAA } } outcome=7");
    assert_eq!(War::from_parsed_obj(&ongoing).unwrap().unwrap().result, None);

    assert_eq!(War::from_parsed_obj(&obj("name=P")).err(), Some(WarError::NoHistory));
    assert_eq!(
        War::from_parsed_obj(&obj("history={ 1444.11.11={ add_attacker=AAA } }")).err(),
        Some(WarError::NoName)
    );
    // A war that nobody joined is no war, with or without a name.
    assert!(War::from_parsed_obj(&obj("history={ 1444.11.11={ rem_attacker=AAA } }"))
        .unwrap()
        .is_none());
    assert_eq!(WarError::NoName.message(), "No name in war");
}

fn war(attackers: &[&str], defenders: &[&str]) -> War {
    War {
        name: "W".to_string(),
        attackers: tags(attackers),
        defenders: tags(defenders),
        attacker_losses: 1000,
        defender_losses: 500,
        start_date: EU4Date { year: 1444, month: Month::NOV, day: 11 },
        end_date: None,
        result: None,
    }
}

#[test]
fn war_players_and_scale() {
    let players = tags(&["AAA", "BBB", "CCC", "DDD", "EEE"]);
    let w = war(&["AAA", "XXX", "BBB", "CCC"], &["DDD", "YYY", "EEE"]);
    assert_eq!(w.player_attackers(&players), tags(&["AAA", "BBB", "CCC"]));
    assert_eq!(w.player_defenders(&players), tags(&["DDD", "EEE"]));
    assert!(w.is_player_war(&players));
    // Both sides have several players: the casualties times the smaller side's count.
    assert_eq!(w.war_scale(&players), 3000);

    let one_side = war(&["AAA", "BBB"], &["YYY"]);
    assert!(!one_side.is_player_war(&players));
    assert_eq!(one_side.war_scale(&players), 1500);

    let single = war(&["AAA", "BBB"], &["DDD"]);
    assert!(single.is_player_war(&players));
    assert_eq!(single.war_scale(&players), 1500);
}

#[test]
fn color_objects() {
    assert_eq!(eu4_obj_as_color(&obj("10 +20 255")), Ok([10, 20, 255]));
    assert_eq!(eu4_obj_as_color(&obj("10 20")), Err(ColorError::WrongLength));
    assert_eq!(eu4_obj_as_color(&obj("1 2 3 4")), Err(ColorError::WrongLength));
    assert_eq!(eu4_obj_as_color(&obj("10 256 1")), Err(ColorError::NotAByte));
    assert_eq!(eu4_obj_as_color(&obj("10 -1 1")), Err(ColorError::NotAByte));
    assert_eq!(eu4_obj_as_color(&obj("{ 1 } 2 3")), Err(ColorError::NonScalar));
    assert_eq!(eu4_obj_as_color(&obj("a=1 2 3 4")), Ok([2, 3, 4]));
}

#[test]
fn wars_whose_losses_fit() {
    assert!(war_is_readable(&obj(WAR)));
    // No history, or nobody joined: nothing is added up.
    assert!(war_is_readable(&obj("name=x")));
    assert!(war_is_readable(&obj("history={ } participants={ tag=A losses={ members={ 9223372036854775807 1 } } }")));
    let joined = "history={ 1444.11.11={ add_attacker=A add_defender=B } }";
    // One participant's own sum overflows.
    let t = format!("{joined} participants={{ tag=C losses={{ members={{ 9223372036854775807 1 }} }} }}");
    assert!(!war_is_readable(&obj(&t)));
    // Two attackers' sums overflow together, while the defenders' stay small.
    let t = format!(
        "{joined} participants={{ tag=A losses={{ members={{ 9223372036854775807 }} }} }} \
         participants={{ tag=A losses={{ members={{ 1 }} }} }} participants={{ tag=B losses={{ members={{ 1 }} }} }}"
    );
    assert!(!war_is_readable(&obj(&t)));
    // Down to the lowest `i64` is fine.
    let t = format!("{joined} participants={{ tag=B losses={{ members={{ -9223372036854775808 }} }} }}");
    assert!(war_is_readable(&obj(&t)));
    // A dated history entry that is no object.
    assert!(!war_is_readable(&obj("history={ 1444.11.11=5 }")));
}
