use cartographer::color_map::MapColor;
use cartographer::map_parsers::{get_province_list, read_definition_csv, read_wasteland_provinces, read_water_provinces, ProvinceListError};
use cartographer::web_map_parsers::{DefinitionError, FlagImages, MapAssets, MapAssetsError, WastelandError};

fn c(r: u8, g: u8, b: u8) -> MapColor {
    MapColor { r, g, b }
}

const DEFS: &str = "province;red;green;blue;x;x\n1;10;20;30;Stockholm;x\n2;40;50;60;Uppsala; x \n3;1;2;3;Kalmar;\n1;10;20;30;Dup;x\r\n";

#[test]
fn definitions_web_trims_the_mark() {
    assert_eq!(
        MapAssets::read_definition_csv(DEFS),
        Ok(vec![(c(10, 20, 30), 1), (c(40, 50, 60), 2)])
    );
}

#[test]
fn definitions_plain_keeps_the_mark() {
    assert_eq!(read_definition_csv(DEFS), Ok(vec![(c(10, 20, 30), 1)]));
}

#[test]
fn definitions_errors() {
    assert_eq!(read_definition_csv("h\n1;2;3\n"), Err(DefinitionError::InvalidLine("1;2;3".to_string())));
    assert_eq!(read_definition_csv("h\n1;2;3;300;n;x\n"), Err(DefinitionError::InvalidNumber));
    assert_eq!(read_definition_csv("h\nx;2;3;3;n;x\n"), Err(DefinitionError::InvalidNumber));
    assert_eq!(read_definition_csv("only a header"), Ok(vec![]));
}

#[test]
fn wasteland_rows() {
    assert_eq!(
        MapAssets::read_wasteland_provinces("1;2;3\n4;5\n1;9\n"),
        Ok(vec![(1, vec![9]), (4, vec![5])])
    );
    assert_eq!(MapAssets::read_wasteland_provinces("x;1"), Err(WastelandError::MissingFirst));
    assert_eq!(MapAssets::read_wasteland_provinces("1;x"), Err(WastelandError::InvalidNumber));
    assert_eq!(MapAssets::read_wasteland_provinces("1;2;"), Err(WastelandError::InvalidNumber));
    assert_eq!(MapAssets::read_wasteland_provinces("7"), Ok(vec![(7, vec![])]));
}

#[test]
fn water_words() {
    assert_eq!(MapAssets::read_water_provinces("1 2\n 3\t4"), Ok(vec![1, 2, 3, 4]));
    assert_eq!(MapAssets::read_water_provinces("1 x"), Err(ProvinceListError::InvalidNumber));
}

#[test]
fn flag_positions() {
    let flags = FlagImages::new("SWE DAN\nNOR SWE");
    assert_eq!(
        flags.tags,
        vec![("SWE".to_string(), 3), ("DAN".to_string(), 1), ("NOR".to_string(), 2)]
    );
    assert_eq!(flags.get_normal_flag("SWE"), Some((384, 0)));
    assert_eq!(flags.get_normal_flag("NOR"), Some((256, 0)));
    assert_eq!(flags.get_normal_flag("FRA"), None);
    let many = FlagImages::new("A B C D E F G H I J K L M N O P Q");
    assert_eq!(many.get_normal_flag("Q"), Some((0, 128)));
}

#[test]
fn map_assets_new() {
    let a = MapAssets::new("h\n5;1;1;1;a;x\n2;2;2;2;b;x\n", "1;2", "3 4", "SWE").unwrap();
    assert_eq!(a.provinces_len, 6);
    assert_eq!(a.wasteland, vec![(1, vec![2])]);
    assert_eq!(a.water, vec![3, 4]);
    assert_eq!(a.definitions, vec![(c(1, 1, 1), 5), (c(2, 2, 2), 2)]);
    assert_eq!(a.flags.get_normal_flag("SWE"), Some((0, 0)));
    assert!(matches!(MapAssets::new("h\n1;2\n", "", "", ""), Err(MapAssetsError::Definition(_))));
    assert_eq!(MapAssets::new("h", "x", "", "").err(), Some(MapAssetsError::Wasteland(WastelandError::MissingFirst)));
    assert_eq!(MapAssets::new("h", "", "y", "").err(), Some(MapAssetsError::Water(ProvinceListError::InvalidNumber)));
    assert_eq!(MapAssets::new("", "", "", "").map(|a| a.provinces_len), Ok(0));
}

#[test]
fn climate_and_default_map_blocks() {
    let climate = "tropical = {\n 1 2\n}\nimpassable = {\n  10 11 # mountains\n  12\n}\n";
    assert_eq!(read_wasteland_provinces(climate), Ok(vec![10, 11, 12]));
    let default_map = "sea_starts = {\n 100 101\n}\nlakes = {\n 200\n}\n";
    assert_eq!(read_water_provinces(default_map), Ok(vec![100, 101, 200]));
    assert_eq!(get_province_list("k = {\n 1 x\n}", "k"), Err(ProvinceListError::InvalidNumber));
    assert_eq!(get_province_list("nothing here", "k"), Ok(vec![]));
}
