use vstd::prelude::*;
use crate::walk::{edge, is_square};
use crate::data::{east_of_ural, is_east_of_ural, reads_as};
use crate::json_data::JsonCountryCode;

verus! {

/// The area a city belongs to for itinerary purposes.
#[derive(Clone, Copy, PartialEq, Eq, Structural, Debug)]
pub enum AreaCode {
    Japan,
    Asia,
    EuropeMiddleEast,
    Oceania,
    Africa,
    NorthAmerica,
    SouthAmerica,
}

/// A city of the route graph with its outgoing point values, one per city.
pub struct City {
    pub area: AreaCode,
    pub code: String,
    pub country: String,
    pub hub: bool,
    pub distances: Vec<u32>,
    pub index: usize,
}

/// Cities of the region that, once visited, every later stop must also belong to.
pub open spec fn is_lock_code(code: Seq<char>) -> bool {
    code == "HNL"@ || code == "OGG"@
}

impl City {
    /// Point values from this city to each city, by index.
    pub open spec fn dist(&self) -> Seq<u32> {
        self.distances@
    }

    pub fn new(area: AreaCode, code: String, country: String, hub: bool, distances: Vec<u32>, index: usize) -> (r: City)
        ensures
            r.area == area,
            r.code@ == code@,
            r.country@ == country@,
            r.hub == hub,
            r.dist() == distances@,
            r.index == index,
    {
        City { area, code, country, hub, distances, index }
    }

    /// Point value of the direct flight from this city to `to`.
    pub fn distance(&self, to: &City) -> (r: u32)
        requires
            to.index < self.dist().len(),
        ensures
            r == self.dist()[to.index as int],
    {
        self.distances[to.index]
    }

    /// Whether this city is one of the lock cities.
    pub fn is_lock(&self) -> (r: bool)
        ensures
            r == is_lock_code(self.code@),
    {
        let hnl = "HNL".to_owned();
        let ogg = "OGG".to_owned();
        self.code == hnl || self.code == ogg
    }
}

/// The city graph: city `i` sits at position `i`, and staying in place earns nothing.
pub struct CityData {
    pub cities: Vec<City>,
}

impl View for CityData {
    type V = Seq<Seq<u32>>;

    open spec fn view(&self) -> Seq<Seq<u32>> {
        Seq::new(self.cities@.len(), |i: int| self.cities@[i].dist())
    }
}

impl CityData {
    pub open spec fn wf(&self) -> bool {
        &&& is_square(self@)
        &&& forall|i: int| 0 <= i < self@.len() ==> #[trigger] self@[i][i] == 0
        &&& forall|i: int| 0 <= i < self.cities@.len() ==> (#[trigger] self.cities@[i]).index == i
    }

    /// Which cities are lock cities, by index.
    pub open spec fn locks(&self) -> Seq<bool> {
        Seq::new(self.cities@.len(), |i: int| is_lock_code(self.cities@[i].code@))
    }

    pub fn is_well_formed(&self) -> (r: bool)
        ensures
            r == self.wf(),
    {
        let n = self.cities.len();
        let mut i: usize = 0;
        while i < n
            invariant
                n == self.cities@.len(),
                i <= n,
                forall|k: int| 0 <= k < i ==> (#[trigger] self@[k]).len() == n,
                forall|k: int| 0 <= k < i ==> #[trigger] self@[k][k] == 0,
                forall|k: int| 0 <= k < i ==> (#[trigger] self.cities@[k]).index == k,
            decreases n - i,
        {
            assert(self@[i as int] == self.cities@[i as int].dist());
            if self.cities[i].distances.len() != n || self.cities[i].index != i || self.cities[i].distances[i] != 0 {
                return false;
            }
            i += 1;
        }
        true
    }

    /// Point value of the flight from city `from` to city `to`.
    pub fn weight(&self, from: usize, to: usize) -> (r: u32)
        requires
            self.wf(),
            from < self@.len(),
            to < self@.len(),
        ensures
            r as int == edge(self@, from, to),
    {
        let c = city(self, from);
        let d = city(self, to);
        assert(self@[from as int] == c.dist());
        c.distance(d)
    }

    /// The lock flag of every city.
    pub fn lock_flags(&self) -> (r: Vec<bool>)
        ensures
            r@ == self.locks(),
    {
        let mut flags: Vec<bool> = Vec::new();
        let mut i: usize = 0;
        while i < self.cities.len()
            invariant
                i <= self.cities@.len(),
                flags@ =~= self.locks().subrange(0, i as int),
            decreases self.cities@.len() - i,
        {
            flags.push(self.cities[i].is_lock());
            i += 1;
        }
        assert(flags@ =~= self.locks());
        flags
    }
}

/// The city at `index`.
pub fn city(city_data: &CityData, index: usize) -> (r: &City)
    requires
        index < city_data.cities@.len(),
    ensures
        *r == city_data.cities@[index as int],
{
    &city_data.cities[index]
}

/// Area of a city with time zone `tz` in the country `c`; `None` when the country's
/// region is not one of the known ones.
pub open spec fn area_of(c: JsonCountryCode, tz: Seq<char>) -> Option<AreaCode> {
    if c.code@ == "JP"@ {
        Some(AreaCode::Japan)
    } else if c.region@ == "Asia"@ {
        if c.sub_region@ == "Western Asia"@ || c.code@ == "IR"@ {
            Some(AreaCode::EuropeMiddleEast)
        } else {
            Some(AreaCode::Asia)
        }
    } else if c.region@ == "Oceania"@ {
        Some(AreaCode::Oceania)
    } else if c.region@ == "Europe"@ {
        if c.code@ == "RU"@ && is_east_of_ural(tz) {
            Some(AreaCode::Asia)
        } else {
            Some(AreaCode::EuropeMiddleEast)
        }
    } else if c.region@ == "Africa"@ {
        if c.code@ == "DZ"@ || c.code@ == "MA"@ || c.code@ == "EG"@ || c.code@ == "LY"@ || c.code@ == "SD"@ {
            Some(AreaCode::EuropeMiddleEast)
        } else {
            Some(AreaCode::Africa)
        }
    } else if c.region@ == "Americas"@ {
        if c.sub_region@ == "Northern America"@ || c.intermediate_region@ == "Caribbean"@
            || c.intermediate_region@ == "Central America"@ {
            Some(AreaCode::NorthAmerica)
        } else {
            Some(AreaCode::SouthAmerica)
        }
    } else {
        None
    }
}

/// Which of the three searchable continents a city of area `a` belongs to:
/// 0 for Asia (with Japan), 1 for Europe and the Middle East, 2 for North America.
pub open spec fn continent_of(a: AreaCode) -> Option<int> {
    match a {
        AreaCode::Asia | AreaCode::Japan => Some(0),
        AreaCode::EuropeMiddleEast => Some(1),
        AreaCode::NorthAmerica => Some(2),
        _ => None,
    }
}

/// Indices `i` of `cities` with `continent_of(cities[i].area) == Some(k)`, in order, among the first `n`.
pub open spec fn continent_members(cities: Seq<City>, k: int, n: nat) -> Seq<usize>
    decreases n,
{
    if n == 0 {
        Seq::empty()
    } else {
        let prev = continent_members(cities, k, (n - 1) as nat);
        if continent_of(cities[n - 1].area) == Some(k) {
            prev.push((n - 1) as usize)
        } else {
            prev
        }
    }
}

impl CityData {
    /// Area of a city with time zone `time_zone` in the country `country`; `None` when
    /// the country's region is not one of the known ones.
    pub fn find_area(country: &JsonCountryCode, time_zone: &String) -> (r: Option<AreaCode>)
        ensures
            r == area_of(*country, time_zone@),
    {
        if reads_as(&country.code, "JP") {
            Some(AreaCode::Japan)
        } else if reads_as(&country.region, "Asia") {
            if reads_as(&country.sub_region, "Western Asia") || reads_as(&country.code, "IR") {
                Some(AreaCode::EuropeMiddleEast)
            } else {
                Some(AreaCode::Asia)
            }
        } else if reads_as(&country.region, "Oceania") {
            Some(AreaCode::Oceania)
        } else if reads_as(&country.region, "Europe") {
            if reads_as(&country.code, "RU") && east_of_ural(time_zone) {
                Some(AreaCode::Asia)
            } else {
                Some(AreaCode::EuropeMiddleEast)
            }
        } else if reads_as(&country.region, "Africa") {
            if reads_as(&country.code, "DZ") || reads_as(&country.code, "MA") || reads_as(&country.code, "EG")
                || reads_as(&country.code, "LY") || reads_as(&country.code, "SD") {
                Some(AreaCode::EuropeMiddleEast)
            } else {
                Some(AreaCode::Africa)
            }
        } else if reads_as(&country.region, "Americas") {
            if reads_as(&country.sub_region, "Northern America") || reads_as(&country.intermediate_region, "Caribbean")
                || reads_as(&country.intermediate_region, "Central America") {
                Some(AreaCode::NorthAmerica)
            } else {
                Some(AreaCode::SouthAmerica)
            }
        } else {
            None
        }
    }
}

/// Splits the cities into the three searchable continents: Asia with Japan, Europe with
/// the Middle East, and North America, each list in index order.
pub fn prepare_area_data(city_data: &CityData) -> (r: (Vec<usize>, Vec<usize>, Vec<usize>))
    ensures
        r.0@ == continent_members(city_data.cities@, 0, city_data.cities@.len()),
        r.1@ == continent_members(city_data.cities@, 1, city_data.cities@.len()),
        r.2@ == continent_members(city_data.cities@, 2, city_data.cities@.len()),
{
    let mut cities_asia: Vec<usize> = Vec::new();
    let mut cities_europe: Vec<usize> = Vec::new();
    let mut cities_na: Vec<usize> = Vec::new();
    let mut i: usize = 0;
    while i < city_data.cities.len()
        invariant
            i <= city_data.cities@.len(),
            cities_asia@ == continent_members(city_data.cities@, 0, i as nat),
            cities_europe@ == continent_members(city_data.cities@, 1, i as nat),
            cities_na@ == continent_members(city_data.cities@, 2, i as nat),
        decreases city_data.cities@.len() - i,
    {
        match city_data.cities[i].area {
            AreaCode::Asia | AreaCode::Japan => cities_asia.push(i),
            AreaCode::EuropeMiddleEast => cities_europe.push(i),
            AreaCode::NorthAmerica => cities_na.push(i),
            _ => {},
        }
        i += 1;
    }
    (cities_asia, cities_europe, cities_na)
}

/// The fare multiplier, in halves, and the fixed bonus of a flight between two areas:
/// Japan domestic doubles; Japan to or from Asia or Oceania counts one and a half, unless
/// Russia is one end; any flight touching Japan earns 400 more.
pub open spec fn point_rule(fa: AreaCode, fc: Seq<char>, ta: AreaCode, tc: Seq<char>) -> (u32, u32) {
    let asia_pacific = |a: AreaCode| a == AreaCode::Asia || a == AreaCode::Oceania;
    let halves: u32 = if fa == AreaCode::Japan && ta == AreaCode::Japan {
        4
    } else if (fa == AreaCode::Japan && asia_pacific(ta)) || (ta == AreaCode::Japan && asia_pacific(fa)) {
        if fc == "RU"@ || tc == "RU"@ {
            2
        } else {
            3
        }
    } else {
        2
    };
    let extra: u32 = if fa == AreaCode::Japan || ta == AreaCode::Japan {
        400
    } else {
        0
    };
    (halves, extra)
}

impl City {
    /// Multiplier in halves and fixed bonus for a flight from `from` to `to`.
    pub fn point_multiplier(from: &City, to: &City) -> (r: (u32, u32))
        ensures
            r == point_rule(from.area, from.country@, to.area, to.country@),
    {
        let fa = from.area;
        let ta = to.area;
        let halves: u32 = if fa == AreaCode::Japan && ta == AreaCode::Japan {
            4
        } else if (fa == AreaCode::Japan && (ta == AreaCode::Asia || ta == AreaCode::Oceania))
            || (ta == AreaCode::Japan && (fa == AreaCode::Asia || fa == AreaCode::Oceania)) {
            if reads_as(&from.country, "RU") || reads_as(&to.country, "RU") {
                2
            } else {
                3
            }
        } else {
            2
        };
        let extra: u32 = if fa == AreaCode::Japan || ta == AreaCode::Japan {
            400
        } else {
            0
        };
        (halves, extra)
    }
}

} // verus!
