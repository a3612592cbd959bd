use cartographer::color_map::{ColorMapEvent, ColorMapManager, MapColor};
use cartographer::country_history::{CountryHistoryEvent, WarHistoryEvent};
use cartographer::eu4_date::{EU4Date, Month};
use cartographer::map_history::{all_i_frame_color_maps, ProvinceHistoryEvent};
use cartographer::eu4_date::DateError;
use cartographer::serialized_map::{decode_events, SerializedColorMapManager, SerializedMapError};

const RED: MapColor = MapColor { r: 255, g: 0, b: 0 };
const BLUE: MapColor = MapColor { r: 0, g: 0, b: 255 };
const GREEN: MapColor = MapColor { r: 0, g: 255, b: 0 };
const BLACK: MapColor = MapColor { r: 0, g: 0, b: 0 };

fn date(year: u64, month: Month, day: u8) -> EU4Date {
    EU4Date { year, month, day }
}

fn nations() -> Vec<(String, MapColor)> {
    vec![
        ("AAA".to_string(), RED),
        ("BBB".to_string(), BLUE),
        ("CCC".to_string(), GREEN),
        ("---".to_string(), MapColor { r: 1, g: 1, b: 1 }),
    ]
}

fn manager() -> ColorMapManager {
    let provinces = vec![
        (
            date(1444, Month::DEC, 31),
            vec![
                (1, ProvinceHistoryEvent::Controller("BBB".to_string())),
                (2, ProvinceHistoryEvent::Owner("CCC".to_string())),
                (0, ProvinceHistoryEvent::Owner("AAA".to_string())),
                (2, ProvinceHistoryEvent::FakeOwner("AAA".to_string())),
                (2, ProvinceHistoryEvent::Controller("AAA".to_string())),
            ],
        ),
        (date(1445, Month::JAN, 1), vec![(0, ProvinceHistoryEvent::Controller("BBB".to_string()))]),
    ];
    let countries = vec![(
        date(1445, Month::JAN, 2),
        vec![
            ("DDD".to_string(), CountryHistoryEvent::ChangedTagFrom("AAA".to_string())),
            ("CCC".to_string(), CountryHistoryEvent::ChangedTagFrom("AAA".to_string())),
        ],
    )];
    let wars = vec![(
        date(1445, Month::JAN, 2),
        vec![WarHistoryEvent::RemoveOccupations("AAA".to_string(), "BBB".to_string())],
    )];
    ColorMapManager::new(
        vec![RED, RED, BLUE],
        vec![BLACK, BLACK, BLACK],
        &provinces,
        &countries,
        &wars,
        &nations(),
        date(1444, Month::DEC, 30),
        date(1445, Month::JAN, 2),
    )
}

#[test]
fn color_map_manager_records_changes_and_frames() {
    let m = manager();
    assert_eq!(m.start_date, date(1444, Month::DEC, 30));
    assert_eq!(m.end_date, date(1445, Month::JAN, 2));
    assert_eq!(
        m.diffs,
        vec![
            (
                date(1444, Month::DEC, 31),
                vec![(1, ColorMapEvent::Controller(BLUE)), (2, ColorMapEvent::Owner(GREEN))],
            ),
            (date(1445, Month::JAN, 1), vec![(0, ColorMapEvent::Controller(BLUE))]),
            (
                date(1445, Month::JAN, 2),
                vec![
                    (0, ColorMapEvent::Controller(BLACK)),
                    (1, ColorMapEvent::Controller(BLACK)),
                    (0, ColorMapEvent::Owner(GREEN)),
                    (1, ColorMapEvent::Owner(GREEN)),
                ],
            ),
        ]
    );
    assert_eq!(
        m.i_frames,
        vec![
            (date(1444, Month::DEC, 30), (vec![RED, RED, BLUE], vec![BLACK, BLACK, BLACK])),
            (date(1445, Month::JAN, 1), (vec![RED, RED, GREEN], vec![BLUE, BLUE, BLACK])),
        ]
    );
}

#[test]
fn color_map_replaying_changes_gives_every_frame() {
    let m = manager();
    let mut maps = (vec![RED, RED, BLUE], vec![BLACK, BLACK, BLACK]);
    for (d, events) in &m.diffs {
        ColorMapEvent::apply_many(&mut maps, events);
        if *d == date(1445, Month::JAN, 1) {
            assert_eq!(maps, m.i_frames[1].1);
        }
    }
    assert_eq!(maps, (vec![GREEN, GREEN, GREEN], vec![BLACK, BLACK, BLACK]));
}

#[test]
fn color_map_get_date() {
    let m = manager();
    assert_eq!(
        m.get_date(&date(1445, Month::JAN, 1)),
        Some((vec![RED, RED, GREEN], vec![BLUE, BLUE, BLACK]))
    );
    // A date without kept maps gets those of the day before it.
    assert_eq!(
        m.get_date(&date(1445, Month::JAN, 2)),
        Some((vec![RED, RED, GREEN], vec![BLUE, BLUE, BLACK]))
    );
    assert_eq!(
        m.get_date(&date(1444, Month::DEC, 31)),
        Some((vec![RED, RED, BLUE], vec![BLACK, BLACK, BLACK]))
    );
    assert_eq!(m.get_date(&date(1444, Month::DEC, 29)), None);
}

#[test]
fn color_map_apply_events() {
    let mut maps = (vec![RED, RED], vec![BLACK, BLACK]);
    ColorMapEvent::apply(&mut maps, &(1, ColorMapEvent::Owner(BLUE)));
    assert_eq!(maps, (vec![RED, BLUE], vec![BLACK, BLACK]));
    ColorMapEvent::apply(&mut maps, &(0, ColorMapEvent::Controller(GREEN)));
    assert_eq!(maps, (vec![RED, BLUE], vec![GREEN, BLACK]));
    let m = manager();
    let mut maps = (vec![RED, RED, BLUE], vec![BLACK, BLACK, BLACK]);
    m.apply_diffs(&date(1444, Month::DEC, 31), &mut maps);
    assert_eq!(maps, (vec![RED, RED, GREEN], vec![BLACK, BLUE, BLACK]));
    m.apply_diffs(&date(1444, Month::DEC, 30), &mut maps);
    assert_eq!(maps, (vec![RED, RED, GREEN], vec![BLACK, BLUE, BLACK]));
}

#[test]
fn color_map_new_year_start_keeps_maps_after_the_day() {
    let provinces = vec![(date(1445, Month::JAN, 1), vec![(0, ProvinceHistoryEvent::Owner("BBB".to_string()))])];
    let m = ColorMapManager::new(
        vec![RED],
        vec![BLACK],
        &provinces,
        &Vec::new(),
        &Vec::new(),
        &nations(),
        date(1445, Month::JAN, 1),
        date(1445, Month::JAN, 1),
    );
    assert_eq!(m.i_frames, vec![(date(1445, Month::JAN, 1), (vec![BLUE], vec![BLACK]))]);
    assert_eq!(m.diffs, vec![(date(1445, Month::JAN, 1), vec![(0, ColorMapEvent::Owner(BLUE))])]);
}

#[test]
fn color_map_unknown_and_placeholder_tags() {
    let unclaimed = MapColor::unclaimed();
    let provinces = vec![(
        date(1500, Month::MAR, 3),
        vec![
            (0, ProvinceHistoryEvent::Owner("---".to_string())),
            (1, ProvinceHistoryEvent::Controller("ZZZ".to_string())),
            (1, ProvinceHistoryEvent::Controller("BBB".to_string())),
        ],
    )];
    let m = ColorMapManager::new(
        vec![RED, RED],
        vec![BLUE, BLUE],
        &provinces,
        &Vec::new(),
        &Vec::new(),
        &nations(),
        date(1500, Month::MAR, 3),
        date(1500, Month::MAR, 3),
    );
    assert_eq!(
        m.diffs,
        vec![(
            date(1500, Month::MAR, 3),
            vec![(0, ColorMapEvent::Owner(unclaimed)), (1, ColorMapEvent::Controller(BLACK))],
        )]
    );
    assert_eq!(MapColor::black(), BLACK);
}

#[test]
fn serialized_map_encodes_dates_and_changes() {
    let m = manager();
    let s = SerializedColorMapManager::encode(&m);
    assert_eq!(s.start_date, "1444.12.30");
    assert_eq!(s.end_date, "1445.1.2");
    assert_eq!(
        s.diffs[0],
        ("1444.12.31".to_string(), "AAEBAAD/AAIAAP8A".to_string())
    );
    assert_eq!(s.diffs[1], ("1445.1.1".to_string(), "AAABAAD/".to_string()));
    assert_eq!(s.diffs.len(), 3);
}

#[test]
fn serialized_map_reads_back() {
    let m = manager();
    let s = SerializedColorMapManager::encode(&m);
    let back = s.decode(vec![RED, RED, BLUE], vec![BLACK, BLACK, BLACK]);
    assert_eq!(back, Ok(m));
}

#[test]
fn serialized_map_errors() {
    let good = SerializedColorMapManager {
        start_date: "1444.12.30".to_string(),
        end_date: "1445.1.2".to_string(),
        diffs: vec![("1444.12.31".to_string(), "AAkAAQID".to_string())],
    };
    // Province 9 is beyond maps of three provinces.
    assert_eq!(good.decode(vec![RED; 3], vec![BLACK; 3]), Err(SerializedMapError::Province));
    let ok = good.decode(vec![RED; 10], vec![BLACK; 10]).unwrap();
    assert_eq!(ok.diffs, vec![(date(1444, Month::DEC, 31), vec![(9, ColorMapEvent::Owner(MapColor { r: 1, g: 2, b: 3 }))])]);
    assert_eq!(ok.i_frames[0].1 .0[9], RED);
    assert_eq!(ok.i_frames[1].1 .0[9], MapColor { r: 1, g: 2, b: 3 });
    let mut bad = good.clone();
    bad.start_date = "1444.12".to_string();
    assert_eq!(bad.decode(vec![RED; 10], vec![BLACK; 10]), Err(SerializedMapError::StartDate(DateError::Parts)));
    let mut bad = good.clone();
    bad.end_date = "1445.1.x".to_string();
    assert_eq!(bad.decode(vec![RED; 10], vec![BLACK; 10]), Err(SerializedMapError::EndDate(DateError::DayNumber)));
    let mut bad = good.clone();
    bad.diffs[0].0 = "1444.13.1".to_string();
    assert_eq!(bad.decode(vec![RED; 10], vec![BLACK; 10]), Err(SerializedMapError::Date(DateError::Month)));
    let mut bad = good.clone();
    bad.diffs[0].1 = "not base64!".to_string();
    assert_eq!(bad.decode(vec![RED; 10], vec![BLACK; 10]), Err(SerializedMapError::Events));
}

#[test]
fn serialized_map_change_bytes() {
    assert_eq!(
        decode_events(&[0, 9, 1, 1, 2, 3, 0, 1, 7]),
        vec![(9, ColorMapEvent::Controller(MapColor { r: 1, g: 2, b: 3 }))]
    );
    assert_eq!(decode_events(&[0, 9, 2, 1, 2, 3]), vec![]);
    assert_eq!(decode_events(&[]), vec![]);
}

#[test]
fn all_i_frames_day_by_day() {
    let provinces: Vec<(EU4Date, Vec<(u64, ProvinceHistoryEvent)>)> = vec![
        (date(1444, Month::NOV, 11), vec![(0, ProvinceHistoryEvent::Owner("CCC".to_string()))]),
        (
            date(1444, Month::NOV, 12),
            vec![
                (1, ProvinceHistoryEvent::Owner("BBB".to_string())),
                (0, ProvinceHistoryEvent::Controller("BBB".to_string())),
            ],
        ),
    ];
    let countries = vec![(
        date(1444, Month::NOV, 13),
        vec![("CCC".to_string(), CountryHistoryEvent::ChangedTagFrom("AAA".to_string()))],
    )];
    let frames = all_i_frame_color_maps(
        vec![RED, RED],
        vec![BLACK, BLACK],
        &provinces,
        &countries,
        &nations(),
        date(1444, Month::NOV, 11),
        date(1444, Month::NOV, 13),
    );
    assert_eq!(
        frames,
        vec![
            (date(1444, Month::NOV, 11), vec![RED, RED], vec![BLACK, BLACK]),
            (date(1444, Month::NOV, 12), vec![RED, BLUE], vec![BLUE, BLACK]),
            (date(1444, Month::NOV, 13), vec![GREEN, BLUE], vec![BLUE, BLACK]),
        ]
    );
    let single = all_i_frame_color_maps(
        vec![RED],
        vec![BLACK],
        &Vec::new(),
        &Vec::new(),
        &nations(),
        date(1444, Month::NOV, 13),
        date(1444, Month::NOV, 11),
    );
    assert_eq!(single, vec![(date(1444, Month::NOV, 13), vec![RED], vec![BLACK])]);
}
