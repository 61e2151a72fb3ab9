use vstd::prelude::*;
use crate::walk::{edge, is_square};

verus! {

/// Region of a city, for the point multipliers of a flight.
#[derive(Clone, Copy, PartialEq, Eq, Structural, Debug)]
pub enum Region {
    Japan,
    Asia,
    Oceania,
    Europe,
    Africa,
    NorthAmerica,
    SouthAmerica,
}

/// Display name of a region.
pub open spec fn region_label(r: Region) -> Seq<char> {
    match r {
        Region::Japan => "Japan"@,
        Region::Asia => "Asia"@,
        Region::Oceania => "Oceania"@,
        Region::Europe => "Europe"@,
        Region::Africa => "Africa"@,
        Region::NorthAmerica => "North America"@,
        Region::SouthAmerica => "South America"@,
    }
}

impl Region {
    /// The display name of the region.
    pub fn to_string(&self) -> (r: String)
        ensures
            r@ == region_label(*self),
    {
        match self {
            Region::Japan => "Japan".to_owned(),
            Region::Asia => "Asia".to_owned(),
            Region::Oceania => "Oceania".to_owned(),
            Region::Europe => "Europe".to_owned(),
            Region::Africa => "Africa".to_owned(),
            Region::NorthAmerica => "North America".to_owned(),
            Region::SouthAmerica => "South America".to_owned(),
        }
    }
}

/// A country record of the reference data.
#[derive(Clone)]
pub struct Country {
    pub code: String,
    pub name: String,
    pub region: String,
    pub intermediate_region: String,
    pub sub_region: String,
}

#[verifier::external_type_specification]
#[verifier::external_body]
pub struct ExJsonValue(json::JsonValue);

/// The string members of a JSON object, by key; empty for any other JSON value.
pub uninterp spec fn json_string_members(v: json::JsonValue) -> Map<Seq<char>, Seq<char>>;

/// Relies on json's `Index<&str>` for `JsonValue` and `JsonValue::as_str`: the member
/// `key` of an object when it is a string; `None` when it is missing or not a string.
#[verifier::external_body]
fn string_member(v: &json::JsonValue, key: &str) -> (r: Option<String>)
    ensures
        r is Some <==> json_string_members(*v).contains_key(key@),
        r matches Some(s) ==> s@ == json_string_members(*v)[key@],
{
    v[key].as_str().map(String::from)
}

impl Country {
    /// Reads a country record from a JSON object with the string members `alpha-2`,
    /// `name`, `region`, `intermediate-region` and `sub-region`; `None` when one is missing.
    pub fn convert_from_json(country: &json::JsonValue) -> (r: Option<Country>)
        ensures
            ({
                let m = json_string_members(*country);
                &&& r is Some <==> m.contains_key("alpha-2"@) && m.contains_key("name"@) && m.contains_key("region"@)
                    && m.contains_key("intermediate-region"@) && m.contains_key("sub-region"@)
                &&& r matches Some(c) ==> c.code@ == m["alpha-2"@] && c.name@ == m["name"@] && c.region@ == m["region"@]
                    && c.intermediate_region@ == m["intermediate-region"@] && c.sub_region@ == m["sub-region"@]
            }),
    {
        let code = string_member(country, "alpha-2");
        let name = string_member(country, "name");
        let region = string_member(country, "region");
        let intermediate_region = string_member(country, "intermediate-region");
        let sub_region = string_member(country, "sub-region");
        match (code, name, region, intermediate_region, sub_region) {
            (Some(code), Some(name), Some(region), Some(intermediate_region), Some(sub_region)) => Some(
                Country { code, name, region, intermediate_region, sub_region },
            ),
            _ => None,
        }
    }
}

/// Region of a city in country `cc` with time zone `tz`, whose country record is `c`.
pub open spec fn region_of(cc: Seq<char>, tz: Seq<char>, c: Country) -> Region {
    if cc == "JP"@ {
        Region::Japan
    } else if c.region@ == "Asia"@ {
        if c.sub_region@ == "Western Asia"@ || cc == "IR"@ {
            Region::Europe
        } else {
            Region::Asia
        }
    } else if c.region@ == "Oceania"@ {
        Region::Oceania
    } else if c.region@ == "Europe"@ {
        if c.code@ == "RU"@ && is_east_of_ural(tz) {
            Region::Asia
        } else {
            Region::Europe
        }
    } else if c.region@ == "Africa"@ {
        if c.code@ == "DZ"@ || c.code@ == "MA"@ || c.code@ == "EG"@ || c.code@ == "LY"@ || c.code@ == "SD"@ {
            Region::Europe
        } else {
            Region::Africa
        }
    } else if c.region@ == "Americas"@ {
        if c.sub_region@ == "Northern America"@ || c.intermediate_region@ == "Caribbean"@
            || c.intermediate_region@ == "Central America"@ {
            Region::NorthAmerica
        } else {
            Region::SouthAmerica
        }
    } else {
        Region::SouthAmerica
    }
}

/// Time zones of Russia east of the Urals, which counts as Asia.
pub open spec fn is_east_of_ural(tz: Seq<char>) -> bool {
    tz == "6"@ || tz == "7"@ || tz == "8"@ || tz == "9"@ || tz == "10"@ || tz == "11"@
}

/// Whether `s` reads `lit`.
pub fn reads_as(s: &String, lit: &str) -> (r: bool)
    ensures
        r == (s@ == lit@),
{
    *s == lit.to_owned()
}

/// Whether the Russian time zone `tz` lies east of the Urals.
pub fn east_of_ural(tz: &String) -> (r: bool)
    ensures
        r == is_east_of_ural(tz@),
{
    reads_as(tz, "6") || reads_as(tz, "7") || reads_as(tz, "8") || reads_as(tz, "9") || reads_as(tz, "10") || reads_as(tz, "11")
}

/// The fare multiplier, in halves, and the fixed bonus of a flight between two regions,
/// from a city of country `c1` to one of country `c2`.
pub open spec fn region_point_rule(r1: Region, c1: Seq<char>, r2: Region, c2: Seq<char>) -> (u32, u32) {
    let asia_pacific = |r: Region| r == Region::Asia || r == Region::Oceania;
    let halves: u32 = if r1 == Region::Japan && r2 == Region::Japan {
        4
    } else if (r1 == Region::Japan && asia_pacific(r2)) || (r2 == Region::Japan && asia_pacific(r1)) {
        if c1 == "RU"@ || c2 == "RU"@ {
            2
        } else {
            3
        }
    } else {
        2
    };
    let extra: u32 = if r1 == Region::Japan || r2 == Region::Japan {
        400
    } else {
        0
    };
    (halves, extra)
}

/// Multiplier in halves and fixed bonus for a flight between regions `r1` and `r2`,
/// from a city of country `c1` to one of country `c2`.
pub fn region_multiplier(r1: Region, c1: &String, r2: Region, c2: &String) -> (r: (u32, u32))
    ensures
        r == region_point_rule(r1, c1@, r2, c2@),
{
    let halves: u32 = if r1 == Region::Japan && r2 == Region::Japan {
        4
    } else if (r1 == Region::Japan && (r2 == Region::Asia || r2 == Region::Oceania))
        || (r2 == Region::Japan && (r1 == Region::Asia || r1 == Region::Oceania)) {
        if reads_as(c1, "RU") || reads_as(c2, "RU") {
            2
        } else {
            3
        }
    } else {
        2
    };
    let extra: u32 = if r1 == Region::Japan || r2 == Region::Japan {
        400
    } else {
        0
    };
    (halves, extra)
}

/// A dense directed point-value table between cities, with the city codes.
pub struct MapData {
    codes: Vec<String>,
    mileage_table: Vec<Vec<u32>>,
}

impl View for MapData {
    type V = Seq<Seq<u32>>;

    closed spec fn view(&self) -> Seq<Seq<u32>> {
        Seq::new(self.mileage_table@.len(), |i: int| self.mileage_table@[i]@)
    }
}

/// A valid table is square and gives no value to staying in place.
pub open spec fn table_ok(t: Seq<Seq<u32>>) -> bool {
    &&& is_square(t)
    &&& forall|i: int| 0 <= i < t.len() ==> #[trigger] t[i][i] == 0
}

impl MapData {
    pub open spec fn wf(&self) -> bool {
        &&& table_ok(self@)
        &&& self.code_list().len() == self@.len()
    }

    /// The city codes, by index.
    pub closed spec fn code_list(&self) -> Seq<Seq<char>> {
        Seq::new(self.codes@.len(), |i: int| self.codes@[i]@)
    }

    /// Region of a city in country `city_country` with time zone `timezone`, given the
    /// record of that country.
    pub fn region(city_country: &String, timezone: &String, country: &Country) -> (r: Region)
        ensures
            r == region_of(city_country@, timezone@, *country),
    {
        if reads_as(city_country, "JP") {
            Region::Japan
        } else if reads_as(&country.region, "Asia") {
            if reads_as(&country.sub_region, "Western Asia") {
                Region::Europe
            } else if reads_as(city_country, "IR") {
                Region::Europe
            } else {
                Region::Asia
            }
        } else if reads_as(&country.region, "Oceania") {
            Region::Oceania
        } else if reads_as(&country.region, "Europe") {
            if reads_as(&country.code, "RU") {
                if east_of_ural(timezone) {
                    Region::Asia
                } else {
                    Region::Europe
                }
            } else {
                Region::Europe
            }
        } else if reads_as(&country.region, "Africa") {
            if reads_as(&country.code, "DZ") || reads_as(&country.code, "MA") {
                Region::Europe
            } else if reads_as(&country.code, "EG") || reads_as(&country.code, "LY") || reads_as(&country.code, "SD") {
                Region::Europe
            } else {
                Region::Africa
            }
        } else if reads_as(&country.region, "Americas") {
            if reads_as(&country.sub_region, "Northern America") {
                Region::NorthAmerica
            } else if reads_as(&country.intermediate_region, "Caribbean") || reads_as(&country.intermediate_region, "Central America") {
                Region::NorthAmerica
            } else {
                Region::SouthAmerica
            }
        } else {
            Region::SouthAmerica
        }
    }

    /// Index of the first city with code `code`; `None` when there is none.
    pub fn find_city_by_code(&self, code: &str) -> (r: Option<usize>)
        ensures
            r matches Some(i) ==> i < self.code_list().len() && self.code_list()[i as int] == code@
                && forall|k: int| 0 <= k < i ==> self.code_list()[k] != code@,
            r is None ==> forall|k: int| 0 <= k < self.code_list().len() ==> self.code_list()[k] != code@,
    {
        let key = code.to_owned();
        let mut i: usize = 0;
        while i < self.codes.len()
            invariant
                key@ == code@,
                i <= self.codes@.len(),
                forall|k: int| 0 <= k < i ==> self.code_list()[k] != code@,
            decreases self.codes@.len() - i,
        {
            if self.codes[i] == key {
                return Some(i);
            }
            i += 1;
        }
        None
    }

    /// Wraps the city codes and their table; `None` when the table is not square, a
    /// diagonal entry is not zero, or there is not one code per row.
    pub fn new(codes: Vec<String>, table: Vec<Vec<u32>>) -> (r: Option<MapData>)
        ensures
            r is Some <==> table_ok(Seq::new(table@.len(), |i: int| table@[i]@)) && codes@.len() == table@.len(),
            r matches Some(m) ==> m@ == Seq::new(table@.len(), |i: int| table@[i]@) && m.wf()
                && m.code_list() == Seq::new(codes@.len(), |i: int| codes@[i]@),
    {
        if codes.len() != table.len() {
            return None;
        }
        let ghost t = Seq::new(table@.len(), |i: int| table@[i]@);
        let n = table.len();
        let mut i: usize = 0;
        while i < n
            invariant
                n == table@.len(),
                t == Seq::new(table@.len(), |i: int| table@[i]@),
                i <= n,
                forall|k: int| 0 <= k < i ==> (#[trigger] t[k]).len() == n && t[k][k] == 0,
            decreases n - i,
        {
            assert(t[i as int] == table@[i as int]@);
            if table[i].len() != n || table[i][i] != 0 {
                return None;
            }
            i += 1;
        }
        let m = MapData { codes, mileage_table: table };
        assert(m@ =~= t);
        Some(m)
    }

    /// Number of cities in the table.
    pub fn size(&self) -> (r: usize)
        ensures
            r == self@.len(),
    {
        self.mileage_table.len()
    }

    /// Point value of flying from `from` to `to`.
    pub fn mileage(&self, from: usize, to: usize) -> (r: u32)
        requires
            self.wf(),
            from < self@.len(),
            to < self@.len(),
        ensures
            r as int == edge(self@, from, to),
    {
        assert(self@[from as int] == self.mileage_table@[from as int]@);
        self.mileage_table[from][to]
    }
}

} // verus!
