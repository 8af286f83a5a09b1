//! Merging city records into one list, keyed by their trimmed id.

use vstd::prelude::*;
use crate::models::City;
use crate::text::{chars_of, collect_range, trim, trim_bounds};

verus! {

/// Why a set of city records cannot be used.
#[derive(Debug, Clone, Copy, PartialEq, Eq, Structural)]
pub enum CatalogError {
    /// A record's id is empty once trimmed.
    EmptyCityId,
    /// No record was given.
    EmptyDataset,
}

/// The key a city is known by: its id, trimmed.
pub open spec fn city_key(c: City) -> Seq<char> {
    trim(c.id@)
}

/// Index of the city with key `key`, or -1.
pub open spec fn index_of_key(cities: Seq<City>, key: Seq<char>) -> int
    decreases cities.len(),
{
    if cities.len() == 0 {
        -1
    } else if city_key(cities.last()) == key {
        cities.len() - 1
    } else {
        index_of_key(cities.drop_last(), key)
    }
}

/// No two cities share a key.
pub open spec fn distinct_keys(cities: Seq<City>) -> bool {
    forall|i: int, j: int|
        0 <= i < cities.len() && 0 <= j < cities.len() && i != j ==> city_key(#[trigger] cities[i])
            != city_key(#[trigger] cities[j])
}

/// The list after adding `city`: it replaces the city with the same key where there is
/// one, and goes last otherwise.
pub open spec fn merged(cities: Seq<City>, city: City) -> Seq<City> {
    let k = index_of_key(cities, city_key(city));
    if k >= 0 {
        cities.update(k, city)
    } else {
        cities.push(city)
    }
}

pub proof fn lemma_index_of_key(cities: Seq<City>, key: Seq<char>)
    ensures
        -1 <= index_of_key(cities, key) < cities.len(),
        index_of_key(cities, key) >= 0 ==> city_key(cities[index_of_key(cities, key)]) == key,
        index_of_key(cities, key) == -1 ==> forall|i: int|
            0 <= i < cities.len() ==> city_key(#[trigger] cities[i]) != key,
    decreases cities.len(),
{
    if cities.len() > 0 {
        lemma_index_of_key(cities.drop_last(), key);
        if city_key(cities.last()) != key {
            assert forall|i: int| 0 <= i < cities.len() - 1 implies cities.drop_last()[i] == cities[i] by {}
        }
    }
}

/// Cities merged by key, later records replacing earlier ones with the same key.
pub struct CityCatalog {
    cities: Vec<City>,
    keys: Vec<String>,
}

impl View for CityCatalog {
    type V = Seq<City>;

    closed spec fn view(&self) -> Seq<City> {
        self.cities@
    }
}

impl CityCatalog {
    /// The keys are those of the cities, and distinct.
    pub closed spec fn wf(&self) -> bool {
        &&& self.keys@.len() == self.cities@.len()
        &&& forall|i: int| 0 <= i < self.keys@.len() ==> #[trigger] self.keys@[i]@ == city_key(self.cities@[i])
        &&& distinct_keys(self.cities@)
    }

    /// An empty catalog.
    pub fn new() -> (c: CityCatalog)
        ensures
            c.wf(),
            c@ == Seq::<City>::empty(),
    {
        CityCatalog { cities: Vec::new(), keys: Vec::new() }
    }

    /// Adds a record: refused when its trimmed id is empty; otherwise it replaces the city
    /// with the same trimmed id, or goes last. The result is the position it took.
    pub fn add(&mut self, city: City) -> (r: Result<usize, CatalogError>)
        requires
            old(self).wf(),
        ensures
            final(self).wf(),
            city_key(city).len() == 0 ==> r == Err::<usize, CatalogError>(CatalogError::EmptyCityId)
                && final(self)@ == old(self)@,
            city_key(city).len() != 0 ==> r is Ok && final(self)@ == merged(old(self)@, city),
            r matches Ok(k) ==> k == if index_of_key(old(self)@, city_key(city)) >= 0 {
                index_of_key(old(self)@, city_key(city))
            } else {
                old(self)@.len() as int
            },
    {
        let chars = chars_of(city.id.as_str());
        let (start, end) = trim_bounds(&chars);
        if start == end {
            return Err(CatalogError::EmptyCityId);
        }
        let key = collect_range(&chars, start, end);
        let ghost cs = self.cities@;
        proof {
            lemma_index_of_key(cs, key@);
        }
        let mut i: usize = 0;
        while i < self.keys.len()
            invariant
                self.wf(),
                self.cities@ == cs,
                cs == old(self)@,
                key@ == city_key(city),
                key@.len() > 0,
                i <= self.keys@.len(),
                forall|j: int| 0 <= j < i ==> city_key(#[trigger] cs[j]) != key@,
            decreases self.keys@.len() - i,
        {
            if self.keys[i] == key {
                proof {
                    lemma_index_of_key(cs, key@);
                    assert(city_key(cs[i as int]) == key@);
                    assert(index_of_key(cs, key@) == i);
                }
                self.cities.set(i, city);
                proof {
                    assert(self.cities@ == cs.update(i as int, city));
                    assert(merged(cs, city) == cs.update(i as int, city));
                    assert forall|a: int, b: int|
                        0 <= a < self.cities@.len() && 0 <= b < self.cities@.len() && a != b implies city_key(
                            #[trigger] self.cities@[a],
                        ) != city_key(#[trigger] self.cities@[b]) by {
                        if a != i && b != i {
                            assert(self.cities@[a] == cs[a]);
                            assert(self.cities@[b] == cs[b]);
                        } else if a == i {
                            assert(self.cities@[b] == cs[b]);
                        } else {
                            assert(self.cities@[a] == cs[a]);
                        }
                    }
                }
                return Ok(i);
            }
            i = i + 1;
        }
        let position = self.cities.len();
        self.cities.push(city);
        self.keys.push(key);
        proof {
            lemma_index_of_key(cs, city_key(city));
            if index_of_key(cs, city_key(city)) >= 0 {
                let k = index_of_key(cs, city_key(city));
                assert(city_key(cs[k]) == city_key(city));
            }
            assert forall|a: int, b: int|
                0 <= a < self.cities@.len() && 0 <= b < self.cities@.len() && a != b implies city_key(
                    #[trigger] self.cities@[a],
                ) != city_key(#[trigger] self.cities@[b]) by {
                if a < cs.len() && b < cs.len() {
                    assert(self.cities@[a] == cs[a]);
                    assert(self.cities@[b] == cs[b]);
                } else if a < cs.len() {
                    assert(self.cities@[a] == cs[a]);
                } else {
                    assert(self.cities@[b] == cs[b]);
                }
            }
        }
        Ok(position)
    }

    /// The merged cities, refused when there are none.
    pub fn into_cities(self) -> (r: Result<Vec<City>, CatalogError>)
        requires
            self.wf(),
        ensures
            match r {
                Ok(v) => v@ == self@ && v@.len() > 0 && distinct_keys(v@),
                Err(e) => e == CatalogError::EmptyDataset && self@.len() == 0,
            },
    {
        if self.cities.len() == 0 {
            Err(CatalogError::EmptyDataset)
        } else {
            Ok(self.cities)
        }
    }
}

} // verus!
