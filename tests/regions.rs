use route_finder::city::{AreaCode, City, CityData};
use route_finder::data::{region_multiplier, Country, MapData, Region};
use route_finder::json_data::JsonCountryCode;

fn country(code: &str, region: &str, sub: &str, inter: &str) -> Country {
    Country {
        code: code.to_string(),
        name: "N".to_string(),
        region: region.to_string(),
        intermediate_region: inter.to_string(),
        sub_region: sub.to_string(),
    }
}

fn record(code: &str, region: &str, sub: &str, inter: &str) -> JsonCountryCode {
    JsonCountryCode {
        name: "N".to_string(),
        code: code.to_string(),
        region: region.to_string(),
        intermediate_region: inter.to_string(),
        sub_region: sub.to_string(),
    }
}

#[test]
fn region_names() {
    assert_eq!(Region::NorthAmerica.to_string(), "North America");
    assert_eq!(Region::Japan.to_string(), "Japan");
    assert_eq!(Region::SouthAmerica.to_string(), "South America");
}

#[test]
fn region_rules() {
    let tz = "9".to_string();
    let jp = country("JP", "Asia", "Eastern Asia", "");
    assert_eq!(MapData::region(&"JP".to_string(), &tz, &jp), Region::Japan);
    let tr = country("TR", "Asia", "Western Asia", "");
    assert_eq!(MapData::region(&"TR".to_string(), &tz, &tr), Region::Europe);
    let ir = country("IR", "Asia", "Southern Asia", "");
    assert_eq!(MapData::region(&"IR".to_string(), &tz, &ir), Region::Europe);
    let ru = country("RU", "Europe", "Eastern Europe", "");
    assert_eq!(MapData::region(&"RU".to_string(), &tz, &ru), Region::Asia);
    assert_eq!(MapData::region(&"RU".to_string(), &"3".to_string(), &ru), Region::Europe);
    let eg = country("EG", "Africa", "Northern Africa", "");
    assert_eq!(MapData::region(&"EG".to_string(), &tz, &eg), Region::Europe);
    let ke = country("KE", "Africa", "Sub-Saharan Africa", "Eastern Africa");
    assert_eq!(MapData::region(&"KE".to_string(), &tz, &ke), Region::Africa);
    let mx = country("MX", "Americas", "Latin America and the Caribbean", "Central America");
    assert_eq!(MapData::region(&"MX".to_string(), &tz, &mx), Region::NorthAmerica);
    let br = country("BR", "Americas", "Latin America and the Caribbean", "South America");
    assert_eq!(MapData::region(&"BR".to_string(), &tz, &br), Region::SouthAmerica);
    let au = country("AU", "Oceania", "Australia and New Zealand", "");
    assert_eq!(MapData::region(&"AU".to_string(), &tz, &au), Region::Oceania);
}

#[test]
fn area_rules() {
    let tz = "10".to_string();
    assert_eq!(CityData::find_area(&record("JP", "Asia", "Eastern Asia", ""), &tz), Some(AreaCode::Japan));
    assert_eq!(CityData::find_area(&record("SG", "Asia", "South-eastern Asia", ""), &tz), Some(AreaCode::Asia));
    assert_eq!(CityData::find_area(&record("AE", "Asia", "Western Asia", ""), &tz), Some(AreaCode::EuropeMiddleEast));
    assert_eq!(CityData::find_area(&record("RU", "Europe", "Eastern Europe", ""), &tz), Some(AreaCode::Asia));
    assert_eq!(
        CityData::find_area(&record("RU", "Europe", "Eastern Europe", ""), &"3".to_string()),
        Some(AreaCode::EuropeMiddleEast)
    );
    assert_eq!(CityData::find_area(&record("MA", "Africa", "Northern Africa", ""), &tz), Some(AreaCode::EuropeMiddleEast));
    assert_eq!(CityData::find_area(&record("US", "Americas", "Northern America", ""), &tz), Some(AreaCode::NorthAmerica));
    assert_eq!(CityData::find_area(&record("CL", "Americas", "Latin America", "South America"), &tz), Some(AreaCode::SouthAmerica));
    assert_eq!(CityData::find_area(&record("AQ", "", "", ""), &tz), None);
}

#[test]
fn country_from_json_object() {
    let v = json::parse(
        r#"{"alpha-2":"JP","name":"Japan","region":"Asia","intermediate-region":"","sub-region":"Eastern Asia"}"#,
    )
    .unwrap();
    let c = Country::convert_from_json(&v).unwrap();
    assert_eq!(c.code, "JP");
    assert_eq!(c.name, "Japan");
    assert_eq!(c.region, "Asia");
    assert_eq!(c.intermediate_region, "");
    assert_eq!(c.sub_region, "Eastern Asia");
}

#[test]
fn country_from_json_missing_member() {
    let v = json::parse(r#"{"alpha-2":"JP","name":"Japan","region":"Asia","sub-region":"Eastern Asia"}"#).unwrap();
    assert!(Country::convert_from_json(&v).is_none());
    let v = json::parse(r#"{"alpha-2":1,"name":"Japan","region":"Asia","intermediate-region":"","sub-region":"E"}"#).unwrap();
    assert!(Country::convert_from_json(&v).is_none());
    let v = json::parse(r#"[1, 2]"#).unwrap();
    assert!(Country::convert_from_json(&v).is_none());
}

#[test]
fn point_multipliers_by_area() {
    let mk = |area: AreaCode, country: &str| City::new(area, "X".to_string(), country.to_string(), false, vec![], 0);
    let jp = mk(AreaCode::Japan, "JP");
    let sg = mk(AreaCode::Asia, "SG");
    let ru = mk(AreaCode::Asia, "RU");
    let us = mk(AreaCode::NorthAmerica, "US");
    let gb = mk(AreaCode::EuropeMiddleEast, "GB");
    assert_eq!(City::point_multiplier(&jp, &jp), (4, 400));
    assert_eq!(City::point_multiplier(&jp, &sg), (3, 400));
    assert_eq!(City::point_multiplier(&sg, &jp), (3, 400));
    assert_eq!(City::point_multiplier(&ru, &jp), (2, 400));
    assert_eq!(City::point_multiplier(&jp, &us), (2, 400));
    assert_eq!(City::point_multiplier(&us, &gb), (2, 0));
}

#[test]
fn point_multipliers_by_region() {
    let (jp, au, ru, fr) = ("JP".to_string(), "AU".to_string(), "RU".to_string(), "FR".to_string());
    assert_eq!(region_multiplier(Region::Japan, &jp, Region::Japan, &jp), (4, 400));
    assert_eq!(region_multiplier(Region::Oceania, &au, Region::Japan, &jp), (3, 400));
    assert_eq!(region_multiplier(Region::Japan, &jp, Region::Asia, &ru), (2, 400));
    assert_eq!(region_multiplier(Region::Europe, &fr, Region::Asia, &ru), (2, 0));
}

#[test]
fn lock_cities_by_code() {
    let mk = |code: &str| City::new(AreaCode::NorthAmerica, code.to_string(), "US".to_string(), false, vec![], 0);
    assert!(mk("HNL").is_lock());
    assert!(mk("OGG").is_lock());
    assert!(!mk("LAX").is_lock());
    assert!(!mk("HN").is_lock());
}
