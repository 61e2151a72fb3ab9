use vstd::prelude::*;

verus! {

/// One route of an airport's route list.
pub struct JsonFr24Route {
    pub iata: Option<String>,
    pub icao: Option<String>,
}

/// A country record of the reference data.
pub struct JsonCountryCode {
    pub name: String,
    pub code: String,
    pub region: String,
    pub intermediate_region: String,
    pub sub_region: String,
}

/// A city record of the map data.
#[allow(non_snake_case)]
pub struct JsonCityData {
    pub cityCode: String,
    pub countryCode: String,
    pub lat: String,
    pub lon: String,
    pub timeZone: String,
    pub name: String,
}

/// The list of city records.
pub struct JsonCities {
    pub city: Vec<JsonCityData>,
}

/// The contents of the map data.
pub struct JsonMapDataContents {
    pub cities: JsonCities,
}

/// The map data document.
#[allow(non_snake_case)]
pub struct JsonMapData {
    pub mapData: JsonMapDataContents,
}

/// A hub city and the airports that serve it.
pub struct JsonHubInfo {
    pub city_code: String,
    pub airports: Vec<String>,
}

} // verus!
