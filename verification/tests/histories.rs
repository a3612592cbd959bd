use cartographer::country_history::{self, CountryHistoryEvent, WarHistoryEvent};
use cartographer::eu4_date::{EU4Date, Month};
use cartographer::eu4_raw_parser::RawEU4Object;
use cartographer::map_history::{self, ProvinceHistoryEvent};
use cartographer::save_parser::WarError;

fn obj(text: &str) -> RawEU4Object<'_> {
    RawEU4Object::parse_object_inner(text).unwrap().1
}

fn d(year: u64, month: Month, day: u8) -> EU4Date {
    EU4Date { year, month, day }
}

fn s(t: &str) -> String {
    t.to_string()
}

#[test]
fn province_history_events() {
    let history = obj(
        r#"owner=SWE
        1444.11.11={ owner="DAN" fake_owner=KOR controller={ tag=SWE } religion=catholic
            add_core=DAN remove_core=NOR add_claim=SWE remove_claim=FIN base_tax=3
            controller=REB }
        notadate={ owner=XXX }
        1450.1.1=7
        1450.1.2={ add_core=SWE }"#,
    );
    assert_eq!(
        ProvinceHistoryEvent::extract_events(&history),
        vec![
            (d(1444, Month::NOV, 11), ProvinceHistoryEvent::Owner(s("DAN"))),
            (d(1444, Month::NOV, 11), ProvinceHistoryEvent::FakeOwner(s("KOR"))),
            (d(1444, Month::NOV, 11), ProvinceHistoryEvent::Controller(s("SWE"))),
            (d(1444, Month::NOV, 11), ProvinceHistoryEvent::Religion(s("catholic"))),
            (d(1444, Month::NOV, 11), ProvinceHistoryEvent::AddCore(s("DAN"))),
            (d(1444, Month::NOV, 11), ProvinceHistoryEvent::RemoveCore(s("NOR"))),
            (d(1444, Month::NOV, 11), ProvinceHistoryEvent::AddClaim(s("SWE"))),
            (d(1444, Month::NOV, 11), ProvinceHistoryEvent::RemoveClaim(s("FIN"))),
            (d(1450, Month::JAN, 2), ProvinceHistoryEvent::AddCore(s("SWE"))),
        ]
    );
}

#[test]
fn province_histories_grouped_by_date() {
    let save = obj(
        r#"provinces={
            -1={ history={ 1444.11.12={ owner=AAA } 1444.11.11={ controller={ tag=BBB } } } }
            -2={ name=x }
            -3={ history={ 1444.11.12={ owner=CCC } } }
            other={ history={ 1444.11.12={ owner=DDD } } }
        }"#,
    );
    let provinces = save.get_first_obj("provinces").unwrap();
    let per_province = map_history::province_events(provinces);
    assert_eq!(per_province.len(), 2);
    assert_eq!(per_province[0].0, 1);
    assert_eq!(per_province[1].0, 3);
    assert_eq!(per_province[1].1, vec![(d(1444, Month::NOV, 12), ProvinceHistoryEvent::Owner(s("CCC")))]);

    assert_eq!(
        map_history::make_combined_events(&save),
        vec![
            (
                d(1444, Month::NOV, 12),
                vec![(1, ProvinceHistoryEvent::Owner(s("AAA"))), (3, ProvinceHistoryEvent::Owner(s("CCC")))],
            ),
            (d(1444, Month::NOV, 11), vec![(1, ProvinceHistoryEvent::Controller(s("BBB")))]),
        ]
    );
}

#[test]
fn country_tag_changes() {
    let history = obj(r#"1500.1.1={ changed_tag_from="MOS" capital=1 } 1600.2.2={ changed_tag_from={ x } }"#);
    assert_eq!(
        CountryHistoryEvent::extract_events(&history),
        vec![(d(1500, Month::JAN, 1), CountryHistoryEvent::ChangedTagFrom(s("MOS")))]
    );
    let save = obj(
        r#"countries={
            RUS={ history={ 1500.1.1={ changed_tag_from=MOS } } }
            GBR={ history={ 1500.1.1={ changed_tag_from=ENG } 1450.1.1={ changed_tag_from=XXX } } }
            FRA={ name=x }
        }"#,
    );
    assert_eq!(
        country_history::make_combined_events(&save),
        vec![
            (
                d(1500, Month::JAN, 1),
                vec![
                    (s("RUS"), CountryHistoryEvent::ChangedTagFrom(s("MOS"))),
                    (s("GBR"), CountryHistoryEvent::ChangedTagFrom(s("ENG"))),
                ],
            ),
            (d(1450, Month::JAN, 1), vec![(s("GBR"), CountryHistoryEvent::ChangedTagFrom(s("XXX")))]),
        ]
    );
}

#[test]
fn war_ends_remove_occupations() {
    let save = obj(
        r#"previous_war={ name=A history={ 1444.11.11={ add_attacker=AAA add_attacker=BBB add_defender=CCC }
                1450.1.1={ rem_attacker=AAA } } }
        previous_war={ name=B history={ 1444.11.11={ add_attacker=DDD add_defender=EEE } } }
        previous_war={ name=C history={ 1445.1.1={ rem_attacker=FFF } } }
        active_war={ name=D history={ 1444.11.11={ add_attacker=GGG add_defender=HHH } 1446.1.1={ rem_defender=HHH } } }"#,
    );
    assert_eq!(
        WarHistoryEvent::make_war_events(&save).unwrap(),
        vec![(
            d(1450, Month::JAN, 1),
            vec![
                WarHistoryEvent::RemoveOccupations(s("AAA"), s("CCC")),
                WarHistoryEvent::RemoveOccupations(s("CCC"), s("AAA")),
                WarHistoryEvent::RemoveOccupations(s("BBB"), s("CCC")),
                WarHistoryEvent::RemoveOccupations(s("CCC"), s("BBB")),
            ],
        )]
    );
    let broken = obj("previous_war={ history={ 1444.11.11={ add_attacker=AAA } 1445.1.1={ rem_attacker=AAA } } }");
    assert_eq!(WarHistoryEvent::make_war_events(&broken).err(), Some(WarError::NoName));
    assert_eq!(
        WarHistoryEvent::make_war_events(&obj("previous_war={ name=x }")).err(),
        Some(WarError::NoHistory)
    );
}

#[test]
fn web_map_provinces_numbered_in_sixteen_bits() {
    let save = obj(
        r#"provinces={
            -65537={ history={ 1444.11.11={ owner=AAA } } }
            -2={ history={ 1444.11.11={ owner=BBB } } }
        }"#,
    );
    assert_eq!(
        cartographer::web_map_history::make_combined_events(&save),
        vec![(
            d(1444, Month::NOV, 11),
            vec![(1u16, ProvinceHistoryEvent::Owner(s("AAA"))), (2u16, ProvinceHistoryEvent::Owner(s("BBB")))],
        )]
    );
}
