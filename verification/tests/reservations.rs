use cartographer::assets::Tags;
use cartographer::reservations::{GameType, Reservation, ReservationsData};

fn res(timestamp: i64, tag: &str, user_id: u64) -> Reservation {
    Reservation { timestamp, timestamp_nanos: 0, tag: tag.to_string(), user_id }
}

fn tags() -> Tags {
    Tags::parse_new("GBR;Great Britain;England\nFRA;France\n").unwrap()
}

#[test]
fn reservation_line_names_the_country() {
    let t = tags();
    assert_eq!(res(1700000000, "GBR", 42).format_with_tags(&t), "<@42>: Great Britain <t:1700000000>");
    assert_eq!(res(-5, "XXX", 7).format_with_tags(&t), "<@7>: XXX <t:-5>");
}

#[test]
fn reservations_one_per_tag_and_user() {
    let mut data = ReservationsData::new(GameType::EU4);
    assert_eq!(data.try_add(res(10, "GBR", 1)), Ok(()));
    assert_eq!(data.try_add(res(5, "FRA", 2)), Ok(()));
    // A new user's reservation comes last, unsorted.
    assert_eq!(data.reservations, vec![res(10, "GBR", 1), res(5, "FRA", 2)]);
    // A taken tag is refused and nothing changes.
    assert_eq!(data.try_add(res(30, "GBR", 3)), Err(()));
    assert_eq!(data.len(), 2);
    // A user's new reservation replaces the old one, and the list is put in order.
    assert_eq!(data.try_add(res(20, "CAS", 1)), Ok(()));
    assert_eq!(data.reservations, vec![res(5, "FRA", 2), res(20, "CAS", 1)]);
    assert_eq!(data.reserved_tags(), vec!["FRA".to_string(), "CAS".to_string()]);
    data.remove(2);
    assert_eq!(data.reservations, vec![res(20, "CAS", 1)]);
    data.remove(99);
    assert_eq!(data.reservations, vec![res(20, "CAS", 1)]);
    assert_eq!(data.game_type, GameType::EU4);
}

#[test]
fn reservations_order_ties() {
    let mut data = ReservationsData::new(GameType::EU5);
    data.try_add(res(7, "SWE", 3)).unwrap();
    data.try_add(res(7, "DAN", 4)).unwrap();
    data.try_add(res(7, "NOR", 3)).unwrap();
    assert_eq!(data.reservations, vec![res(7, "DAN", 4), res(7, "NOR", 3)]);
}

#[test]
fn reservations_listing() {
    let t = tags();
    let mut data = ReservationsData::new(GameType::EU4);
    assert_eq!(data.format_with_game(GameType::EU4, &t), "EU4 Game Reservations\n\n*none*\n");
    data.try_add(res(20, "FRA", 1)).unwrap();
    data.try_add(res(25, "CAS", 2)).unwrap();
    assert_eq!(
        data.format_with_game(GameType::EU5, &t),
        "EU5 Game Reservations\n\n<@1>: France <t:20>\n<@2>: CAS <t:25>\n"
    );
}

#[test]
fn game_type_names_and_paths() {
    assert_eq!(GameType::EU4.to_text(), "EU4");
    assert_eq!("EU5".parse::<GameType>(), Ok(GameType::EU5));
    assert_eq!("eu5".parse::<GameType>(), Err(()));
    assert_eq!(GameType::EU4.get_base_image_path("/app/assets"), "/app/assets/eu4/vanilla/1444.png");
    assert_eq!(GameType::EU5.get_icon_path("/app/assets/"), "/app/assets/eu5/player.png");
    assert_eq!(GameType::EU4.get_capital_locations_path(""), "eu4/vanilla/capitals.txt");
    assert_eq!(GameType::EU5.get_tags_path("base"), "base/eu5/vanilla/tags.txt");
}

#[test]
fn reservation_added_then_taken_back() {
    let mut data = ReservationsData::new(GameType::EU4);
    data.try_add(res(10, "GBR", 1)).unwrap();
    data.try_add(res(5, "FRA", 2)).unwrap();
    let before = data.reservations.clone();
    data.try_add(res(30, "CAS", 3)).unwrap();
    data.remove(3);
    assert_eq!(data.reservations, before);
}
