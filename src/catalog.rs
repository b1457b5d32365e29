use vstd::prelude::*;

use crate::error::OrbitError;
use crate::instant::{Instant, REFERENCE_EPOCH_SECONDS};
use crate::planet::Planet;

verus! {

/// The planets of the solar system, in order from the sun: name, mean
/// longitude in millionths of a degree, period in thousandths of a day.
pub open spec fn catalog() -> Seq<(Seq<char>, int, int)> {
    seq![
        ("Mercury"@, 250_200_000, 87_969),
        ("Venus"@, 181_200_000, 224_701),
        ("Earth"@, 100_000_000, 365_256),
        ("Mars"@, 355_200_000, 686_980),
        ("Jupiter"@, 34_300_000, 4_332_590),
        ("Saturn"@, 50_100_000, 10_759_200),
        ("Uranus"@, 313_232_180, 30_687_150),
        ("Neptune"@, 304_880_030, 60_190_030),
    ]
}

/// `p` is the planet that catalog entry `e` describes, measured from
/// 2000-01-01T00:00:00 UTC.
pub open spec fn is_entry(p: Planet, e: (Seq<char>, int, int)) -> bool {
    &&& p.wf()
    &&& p.name@ == e.0
    &&& p.mean_longitude == e.1
    &&& p.period == e.2
    &&& p.ref_date.seconds == REFERENCE_EPOCH_SECONDS
}

/// `planets` holds the whole catalog, in its order.
pub open spec fn is_catalog(planets: Seq<Planet>) -> bool {
    &&& planets.len() == catalog().len()
    &&& forall|i: int| 0 <= i < planets.len() ==> is_entry(#[trigger] planets[i], catalog()[i])
}

/// Entry `i` of the catalog is named `name`.
pub open spec fn names_entry(name: Seq<char>, i: int) -> bool {
    0 <= i < catalog().len() && catalog()[i].0 == name
}

/// Entry `i` is the first of the catalog named `name`.
pub open spec fn first_named(name: Seq<char>, i: int) -> bool {
    names_entry(name, i) && forall|j: int| 0 <= j < i ==> !names_entry(name, j)
}

fn catalog_planet(name: &str, mean_longitude: i64, period: u32) -> (r: Planet)
    requires
        period > 0,
    ensures
        r.wf(),
        r.name@ == name@,
        r.mean_longitude == mean_longitude,
        r.period == period,
        r.ref_date.seconds == REFERENCE_EPOCH_SECONDS,
{
    Planet {
        name: String::from_str(name),
        mean_longitude,
        period,
        ref_date: Instant::reference_epoch(),
    }
}

/// All planets of the catalog, in order from the sun.
pub fn get_planets() -> (r: Vec<Planet>)
    ensures
        is_catalog(r@),
{
    let mut planets: Vec<Planet> = Vec::new();
    planets.push(catalog_planet("Mercury", 250_200_000, 87_969));
    planets.push(catalog_planet("Venus", 181_200_000, 224_701));
    planets.push(catalog_planet("Earth", 100_000_000, 365_256));
    planets.push(catalog_planet("Mars", 355_200_000, 686_980));
    planets.push(catalog_planet("Jupiter", 34_300_000, 4_332_590));
    planets.push(catalog_planet("Saturn", 50_100_000, 10_759_200));
    planets.push(catalog_planet("Uranus", 313_232_180, 30_687_150));
    planets.push(catalog_planet("Neptune", 304_880_030, 60_190_030));
    assert(is_entry(planets@[0], catalog()[0]));
    assert(is_entry(planets@[1], catalog()[1]));
    assert(is_entry(planets@[2], catalog()[2]));
    assert(is_entry(planets@[3], catalog()[3]));
    assert(is_entry(planets@[4], catalog()[4]));
    assert(is_entry(planets@[5], catalog()[5]));
    assert(is_entry(planets@[6], catalog()[6]));
    assert(is_entry(planets@[7], catalog()[7]));
    planets
}

/// The planet of the catalog whose name is exactly `name`, the first such.
pub fn get_planet_by_name(name: String) -> (r: Result<Planet, OrbitError>)
    ensures
        r is Ok <==> exists|i: int| names_entry(name@, i),
        r matches Ok(p) ==> exists|i: int| first_named(name@, i) && is_entry(p, catalog()[i]),
        r is Err ==> r == Err::<Planet, OrbitError>(OrbitError::PlanetNotFound),
{
    let mut planets = get_planets();
    let mut i: usize = 0;
    while i < planets.len()
        invariant
            is_catalog(planets@),
            0 <= i <= planets@.len(),
            forall|j: int| 0 <= j < i ==> !names_entry(name@, j),
        decreases planets@.len() - i,
    {
        if planets[i].name == name {
            assert(is_entry(planets@[i as int], catalog()[i as int]));
            assert(first_named(name@, i as int));
            let found = planets.remove(i);
            return Ok(found);
        }
        assert(is_entry(planets@[i as int], catalog()[i as int]));
        i += 1;
    }
    Err(OrbitError::PlanetNotFound)
}

/// The planets a selector asks for: `all` gives the whole catalog, any other
/// text the one planet of that name.
pub fn select_planets(selector: String) -> (r: Result<Vec<Planet>, OrbitError>)
    ensures
        selector@ == "all"@ ==> (r matches Ok(v) && is_catalog(v@)),
        selector@ != "all"@ ==> {
            &&& r is Ok <==> exists|i: int| names_entry(selector@, i)
            &&& r matches Ok(v) ==> (v@.len() == 1 && exists|i: int|
                first_named(selector@, i) && is_entry(v@[0], catalog()[i]))
            &&& r is Err ==> r == Err::<Vec<Planet>, OrbitError>(OrbitError::PlanetNotFound)
        },
{
    let all_word = String::from_str("all");
    if selector == all_word {
        return Ok(get_planets());
    }
    match get_planet_by_name(selector) {
        Ok(p) => {
            let mut v: Vec<Planet> = Vec::new();
            v.push(p);
            Ok(v)
        },
        Err(e) => Err(e),
    }
}

} // verus!
