use cartographer::raw_parser::RawPDXObject;
use cartographer::stellaris_save_parser::{
    entry_index, read_planets, read_players, system_owner, IndexError, Planet, PlanetError, PlanetsError,
    PlayerError,
};

fn obj(text: &str) -> RawPDXObject<'_> {
    RawPDXObject::parse_object_inner(text).unwrap().1
}

#[test]
fn planet_read_from_save_object() {
    let o = obj(r#"name={ key="NAME_Earth" } planet_class="pc_continental" orbit=30 planet_size=16
        owner=0 controller=none num_sapient_pops=42 orbit=99"#);
    let p = Planet::try_from_obj(&o).unwrap();
    assert_eq!(p.planet_class, "pc_continental");
    assert_eq!(p.orbit, 30);
    assert_eq!(p.planet_size, 16);
    assert_eq!(p.owner, Some(0));
    assert_eq!(p.controller, None);
    assert_eq!(p.num_sapient_pops, 42);
}

#[test]
fn planet_errors() {
    let err = |t: &str| Planet::try_from_obj(&obj(t)).err();
    assert_eq!(err("orbit=1 planet_size=2 num_sapient_pops=3"), Some(PlanetError::Missing));
    assert_eq!(err("planet_class={ x } orbit=1 planet_size=2 num_sapient_pops=3"), Some(PlanetError::Missing));
    assert_eq!(err("planet_class=pc planet_size=2 num_sapient_pops=3"), Some(PlanetError::Missing));
    assert_eq!(err("planet_class=pc orbit=-1 planet_size=2 num_sapient_pops=3"), Some(PlanetError::NotANumber));
    assert_eq!(err("planet_class=pc orbit=1 planet_size=4294967296 num_sapient_pops=3"), Some(PlanetError::NotANumber));
    assert_eq!(err("planet_class=pc orbit=1 planet_size=2"), Some(PlanetError::Missing));
    assert!(err("planet_class=pc orbit=1 planet_size=2 num_sapient_pops=4294967295").is_none());
}

fn planet(owner: Option<u32>, controller: Option<u32>) -> Planet {
    Planet {
        planet_class: "pc_barren".to_string(),
        orbit: 0,
        planet_size: 10,
        owner,
        controller,
        num_sapient_pops: 0,
    }
}

#[test]
fn system_owner_from_colonies_then_planets() {
    let planets = vec![
        planet(None, None),
        planet(Some(7), Some(8)),
        planet(None, Some(9)),
        planet(Some(5), None),
    ];
    // The first colony decides, by its owner and then its controller.
    assert_eq!(system_owner(&vec![1, 3], &vec![0, 1, 2, 3], &planets), Some(7));
    assert_eq!(system_owner(&vec![2, 1], &vec![0, 1, 2, 3], &planets), Some(9));
    assert_eq!(system_owner(&vec![0, 1], &vec![0, 1, 2, 3], &planets), None);
    assert_eq!(system_owner(&vec![40, 1], &vec![0, 1, 2, 3], &planets), None);
    // Without colonies: the first owner among the planets, else the first controller.
    assert_eq!(system_owner(&vec![], &vec![0, 2, 3, 1], &planets), Some(5));
    assert_eq!(system_owner(&vec![], &vec![40, 0, 2], &planets), Some(9));
    assert_eq!(system_owner(&vec![], &vec![0, 40], &planets), None);
    assert_eq!(system_owner(&vec![], &vec![], &planets), None);
}

#[test]
fn planets_of_a_save_count_up_from_zero() {
    let p = "planet_class=pc orbit=1 planet_size=2 num_sapient_pops=0";
    let text = format!("0={{ {p} owner=3 }} 1={{ {p} }}");
    let ok = obj2(&text);
    let planets = read_planets(&ok).unwrap();
    assert_eq!(planets.len(), 2);
    assert_eq!(planets[0].owner, Some(3));
    assert_eq!(planets[1].owner, None);
    assert_eq!(read_planets(&obj2(&format!("1={{ {p} }}"))).err(), Some(PlanetsError::Index(IndexError::OutOfOrder)));
    assert_eq!(read_planets(&obj2(&format!("x={{ {p} }}"))).err(), Some(PlanetsError::Index(IndexError::NotANumber)));
    assert_eq!(read_planets(&obj2("0=5")).err(), Some(PlanetsError::NotAnObject));
    // The first entry's error comes first.
    assert_eq!(
        read_planets(&obj2(&format!("0={{ orbit=1 }} 5={{ {p} }}"))).err(),
        Some(PlanetsError::Planet(PlanetError::Missing))
    );
    assert!(read_planets(&obj2("")).unwrap().is_empty());
}

fn obj2(text: &str) -> RawPDXObject<'_> {
    obj(text)
}

#[test]
fn entry_indices() {
    let o = obj("0=a 7=b +2=c");
    let kvs = o.iter_all_KVs();
    assert_eq!(entry_index(kvs[0].0, 0), Ok(0));
    assert_eq!(entry_index(kvs[1].0, 1), Err(IndexError::OutOfOrder));
    assert_eq!(entry_index(kvs[1].0, 7), Ok(7));
    assert_eq!(entry_index(kvs[2].0, 2), Ok(2));
}

#[test]
fn players_of_a_save() {
    let o = obj(r#"{ name="Alice" country=3 } { name=Bob country=0 }"#);
    assert_eq!(read_players(&o), Ok(vec![(3, "Alice".to_string()), (0, "Bob".to_string())]));
    // Every value must be an object before any player is read.
    assert_eq!(read_players(&obj(r#"{ country=3 } x"#)), Err(PlayerError::NotAnObject));
    assert_eq!(read_players(&obj(r#"{ country=3 }"#)), Err(PlayerError::NoName));
    assert_eq!(read_players(&obj(r#"{ name=A }"#)), Err(PlayerError::NoCountry));
    assert_eq!(read_players(&obj(r#"{ name=A country=-1 }"#)), Err(PlayerError::BadCountry));
}
