//! The client's resolution pipeline: geocoded candidate locations are
//! sorted by (state, country) in descending order, adjacent entries
//! with an equal (country, state) key are collapsed to the first one,
//! and the weather fetched for each surviving location is assembled
//! into the final list.  Failures of one per-location fetch never
//! remove the others from the result.
//!
//! The HTTP transport itself is asynchronous and lives outside this
//! crate; the functions here take each exchange's outcome as a value
//! and make every decision the pipeline needs.

use core::marker::PhantomData;

use reqwest::Client as HttpClient;
use vstd::prelude::*;

use crate::order::{
    lemma_lex_le_antisymmetric, lemma_lex_le_reflexive, lemma_lex_le_total,
    lemma_lex_le_transitive, lemma_opt_lex_le_antisymmetric, lemma_opt_lex_le_total,
    lemma_opt_lex_le_transitive, lex_le, lex_le_exec, opt_lex_le, opt_str_eq_exec, opt_str_le_exec,
    opt_str_view,
};

verus! {

/// The API key and language that every outbound request carries.
pub struct Config {
    pub api_key: String,
    pub lang: String,
}

impl Config {
    pub fn new(api_key: String, lang: String) -> (r: Config)
        ensures
            r.api_key == api_key,
            r.lang == lang,
    {
        Config { api_key, lang }
    }

    pub fn api_key(&self) -> (r: &String)
        ensures
            *r == self.api_key,
    {
        &self.api_key
    }

    pub fn lang(&self) -> (r: &String)
        ensures
            *r == self.lang,
    {
        &self.lang
    }
}

/// One candidate location from the geocoder: coordinates are carried
/// as the decimal text that the weather query will send back.
#[derive(Debug)]
pub struct CityLocation {
    pub lat: String,
    pub lon: String,
    pub country: String,
    pub state: Option<String>,
    pub name: String,
}

/// One entry of the weather endpoint's `weather` array.
#[derive(Debug)]
pub struct Weather {
    pub description: String,
}

/// The `main` part of a weather response; the temperature is carried
/// in hundredths of a degree.
#[derive(Debug)]
pub struct MainWeather {
    pub temp: i32,
}

/// A parsed weather response body.
#[derive(Debug)]
pub struct WeatherResponse {
    pub weather: Vec<Weather>,
    pub main: MainWeather,
}

/// What one successful per-location fetch contributes to the result.
#[derive(Debug)]
pub struct Observation {
    pub description: String,
    pub temp: i32,
}

/// One line of the final result; the temperature is carried in
/// hundredths of a degree.
#[derive(Debug)]
pub struct CityWeather {
    pub weather: String,
    pub country: String,
    pub state: Option<String>,
    pub city_name: String,
    pub temperature: i32,
}

impl CityWeather {
    pub fn weather(&self) -> (r: &String)
        ensures
            *r == self.weather,
    {
        &self.weather
    }

    pub fn country(&self) -> (r: &String)
        ensures
            *r == self.country,
    {
        &self.country
    }

    pub fn state(&self) -> (r: &Option<String>)
        ensures
            *r == self.state,
    {
        &self.state
    }

    pub fn city_name(&self) -> (r: &String)
        ensures
            *r == self.city_name,
    {
        &self.city_name
    }

    pub fn temperature(&self) -> (r: i32)
        ensures
            r == self.temperature,
    {
        self.temperature
    }
}

/// How a query can fail: a bad API key is distinguishable from every
/// other transport or parse failure.
#[derive(Clone, Copy, PartialEq, Eq, Structural, Debug)]
pub enum ApiError {
    Unauthorized,
    RequestFailed,
}

/// Failure of the initial probe query, wrapping its cause.
#[derive(Clone, Copy, PartialEq, Eq, Structural, Debug)]
pub struct ConnectionError {
    pub cause: ApiError,
}

/// The observable outcome of one HTTP exchange: either no response
/// arrived at all, or a response with a status code whose body could
/// or could not be parsed.
#[derive(Clone, Copy, PartialEq, Eq, Structural, Debug)]
pub enum FetchOutcome {
    NoResponse,
    Response { status: u16, body_ok: bool },
}

/// The error classification rule: 401 means a bad key, anything else
/// that went wrong is a plain request failure.
pub open spec fn classified(outcome: FetchOutcome) -> Result<(), ApiError> {
    match outcome {
        FetchOutcome::NoResponse => Err(ApiError::RequestFailed),
        FetchOutcome::Response { status, body_ok } => {
            if status == 401 {
                Err(ApiError::Unauthorized)
            } else if !body_ok {
                Err(ApiError::RequestFailed)
            } else {
                Ok(())
            }
        },
    }
}

/// Classify one exchange.  `Unauthorized` comes out exactly on a 401
/// status, never for a transport or parse failure.
pub fn classify_response(outcome: &FetchOutcome) -> (r: Result<(), ApiError>)
    ensures
        r == classified(*outcome),
        r == Result::<(), ApiError>::Err(ApiError::Unauthorized) <==> (*outcome matches
            FetchOutcome::Response { status, .. } && status == 401),
{
    match outcome {
        FetchOutcome::NoResponse => Err(ApiError::RequestFailed),
        FetchOutcome::Response { status, body_ok } => {
            if *status == 401 {
                Err(ApiError::Unauthorized)
            } else if !*body_ok {
                Err(ApiError::RequestFailed)
            } else {
                Ok(())
            }
        },
    }
}

/// Two locations that the deduplication must collapse: same country
/// and same (possibly absent) state.
pub open spec fn key_eq(a: CityLocation, b: CityLocation) -> bool {
    a.country@ == b.country@ && opt_str_view(a.state) == opt_str_view(b.state)
}

/// `a` may stand before `b`: descending by state, then descending by
/// country.
pub open spec fn loc_ge(a: CityLocation, b: CityLocation) -> bool {
    if opt_str_view(a.state) == opt_str_view(b.state) {
        lex_le(b.country@, a.country@)
    } else {
        opt_lex_le(opt_str_view(b.state), opt_str_view(a.state))
    }
}

pub proof fn lemma_loc_ge_total(a: CityLocation, b: CityLocation)
    ensures
        loc_ge(a, b) || loc_ge(b, a),
{
    if opt_str_view(a.state) == opt_str_view(b.state) {
        lemma_lex_le_total(a.country@, b.country@);
    } else {
        lemma_opt_lex_le_total(opt_str_view(a.state), opt_str_view(b.state));
    }
}

pub proof fn lemma_loc_ge_transitive(a: CityLocation, b: CityLocation, c: CityLocation)
    requires
        loc_ge(a, b),
        loc_ge(b, c),
    ensures
        loc_ge(a, c),
{
    let sa = opt_str_view(a.state);
    let sb = opt_str_view(b.state);
    let sc = opt_str_view(c.state);
    if sa == sb && sb == sc {
        lemma_lex_le_transitive(c.country@, b.country@, a.country@);
    } else if sa != sb && sb != sc {
        lemma_opt_lex_le_transitive(sc, sb, sa);
        if sa == sc {
            lemma_opt_lex_le_antisymmetric(sb, sa);
        }
    }
}

/// Mutual order is exactly key equality.
pub proof fn lemma_loc_ge_mutual(a: CityLocation, b: CityLocation)
    ensures
        (loc_ge(a, b) && loc_ge(b, a)) <==> key_eq(a, b),
{
    let sa = opt_str_view(a.state);
    let sb = opt_str_view(b.state);
    if loc_ge(a, b) && loc_ge(b, a) {
        if sa == sb {
            lemma_lex_le_antisymmetric(a.country@, b.country@);
        } else {
            lemma_opt_lex_le_antisymmetric(sa, sb);
        }
    }
    if key_eq(a, b) {
        lemma_lex_le_reflexive(a.country@);
    }
}

/// Decide `loc_ge` on two locations.
fn loc_ge_exec(a: &CityLocation, b: &CityLocation) -> (r: bool)
    ensures
        r == loc_ge(*a, *b),
{
    if opt_str_eq_exec(&a.state, &b.state) {
        lex_le_exec(b.country.as_str(), a.country.as_str())
    } else {
        opt_str_le_exec(&b.state, &a.state)
    }
}

/// Decide `key_eq` on two locations.
fn key_eq_exec(a: &CityLocation, b: &CityLocation) -> (r: bool)
    ensures
        r == key_eq(*a, *b),
{
    a.country.eq(&b.country) && opt_str_eq_exec(&a.state, &b.state)
}

/// Insert `x` into a descending list, after every entry that may
/// stand before it; equal keys therefore keep their arrival order.
pub open spec fn insert_sorted(s: Seq<CityLocation>, x: CityLocation) -> Seq<CityLocation>
    decreases s.len(),
{
    if s.len() == 0 {
        seq![x]
    } else if loc_ge(s.last(), x) {
        s.push(x)
    } else {
        insert_sorted(s.drop_last(), x).push(s.last())
    }
}

/// The stable descending sort of the geocoder's list.
pub open spec fn sort_locations(s: Seq<CityLocation>) -> Seq<CityLocation>
    decreases s.len(),
{
    if s.len() == 0 {
        Seq::empty()
    } else {
        insert_sorted(sort_locations(s.drop_last()), s.last())
    }
}

/// Every entry may stand before every later one.
pub open spec fn sorted_desc(s: Seq<CityLocation>) -> bool {
    forall|i: int, j: int| 0 <= i < j < s.len() ==> loc_ge(s[i], s[j])
}

/// Collapse adjacent entries with an equal key, keeping the first.
pub open spec fn dedup_adjacent(s: Seq<CityLocation>) -> Seq<CityLocation>
    decreases s.len(),
{
    if s.len() == 0 {
        Seq::empty()
    } else if s.len() >= 2 && key_eq(s[s.len() - 2], s.last()) {
        dedup_adjacent(s.drop_last())
    } else {
        dedup_adjacent(s.drop_last()).push(s.last())
    }
}

/// What deduplication returns: the sorted list with adjacent equal
/// keys collapsed.
pub open spec fn dedup_locations_spec(s: Seq<CityLocation>) -> Seq<CityLocation> {
    dedup_adjacent(sort_locations(s))
}

proof fn lemma_insert_sorted_props(s: Seq<CityLocation>, x: CityLocation)
    requires
        sorted_desc(s),
    ensures
        insert_sorted(s, x).len() == s.len() + 1,
        sorted_desc(insert_sorted(s, x)),
        forall|k: int|
            0 <= k < insert_sorted(s, x).len() ==> (s.contains(
                #[trigger] insert_sorted(s, x)[k],
            ) || insert_sorted(s, x)[k] == x),
        forall|y: CityLocation| s.contains(y) ==> insert_sorted(s, x).contains(y),
        insert_sorted(s, x).contains(x),
    decreases s.len(),
{
    let res = insert_sorted(s, x);
    if s.len() == 0 {
        assert(res[0] == x);
        assert(res.contains(x));
    } else if loc_ge(s.last(), x) {
        // res == s.push(x)
        assert forall|i: int, j: int| 0 <= i < j < res.len() implies loc_ge(res[i], res[j]) by {
            if j < s.len() {
                assert(loc_ge(s[i], s[j]));
            } else {
                assert(res[j] == x);
                if i < s.len() - 1 {
                    assert(loc_ge(s[i], s[s.len() - 1]));
                    lemma_loc_ge_transitive(s[i], s.last(), x);
                }
            }
        }
        assert forall|k: int| 0 <= k < res.len() implies (s.contains(#[trigger] res[k]) || res[k]
            == x) by {
            if k < s.len() {
                assert(s[k] == res[k]);
                assert(s.contains(res[k]));
            }
        }
        assert forall|y: CityLocation| s.contains(y) implies res.contains(y) by {
            let m = choose|m: int| 0 <= m < s.len() && s[m] == y;
            assert(res[m] == y);
        }
        assert(res[s.len() as int] == x);
        assert(res.contains(x));
    } else {
        let front = s.drop_last();
        assert(sorted_desc(front)) by {
            assert(forall|i: int, j: int|
                0 <= i < j < front.len() ==> loc_ge(s[i], s[j]) && front[i] == s[i] && front[j]
                    == s[j]);
        }
        lemma_insert_sorted_props(front, x);
        let rp = insert_sorted(front, x);
        lemma_loc_ge_total(s.last(), x);
        assert(loc_ge(x, s.last()));
        // every element of rp may stand before s.last()
        assert forall|k: int| 0 <= k < rp.len() implies loc_ge(rp[k], s.last()) by {
            if rp[k] == x {
                assert(loc_ge(x, s.last()));
            } else {
                assert(front.contains(rp[k]));
                let m = choose|m: int| 0 <= m < front.len() && front[m] == rp[k];
                assert(s[m] == rp[k]);
                assert(loc_ge(s[m], s[s.len() - 1]));
            }
        }
        // res == rp.push(s.last())
        assert forall|i: int, j: int| 0 <= i < j < res.len() implies loc_ge(res[i], res[j]) by {
            if j < rp.len() {
                assert(loc_ge(rp[i], rp[j]));
            } else {
                assert(res[j] == s.last());
                assert(loc_ge(rp[i], s.last()));
            }
        }
        assert forall|k: int| 0 <= k < res.len() implies (s.contains(#[trigger] res[k]) || res[k]
            == x) by {
            if k < rp.len() {
                assert(res[k] == rp[k]);
                if front.contains(rp[k]) {
                    let m = choose|m: int| 0 <= m < front.len() && front[m] == rp[k];
                    assert(s[m] == res[k]);
                    assert(s.contains(res[k]));
                }
            } else {
                assert(res[k] == s.last());
                assert(s.contains(s.last()));
            }
        }
        assert forall|y: CityLocation| s.contains(y) implies res.contains(y) by {
            let m = choose|m: int| 0 <= m < s.len() && s[m] == y;
            if m < s.len() - 1 {
                assert(front[m] == y);
                assert(front.contains(y));
                assert(rp.contains(y));
                let n = choose|n: int| 0 <= n < rp.len() && rp[n] == y;
                assert(res[n] == y);
            } else {
                assert(res[res.len() - 1] == y);
            }
        }
        let n = choose|n: int| 0 <= n < rp.len() && rp[n] == x;
        assert(res[n] == x);
        assert(res.contains(x));
    }
}

proof fn lemma_sort_locations_props(s: Seq<CityLocation>)
    ensures
        sort_locations(s).len() == s.len(),
        sorted_desc(sort_locations(s)),
        forall|k: int|
            0 <= k < sort_locations(s).len() ==> s.contains(#[trigger] sort_locations(s)[k]),
        forall|y: CityLocation| s.contains(y) ==> sort_locations(s).contains(y),
    decreases s.len(),
{
    let res = sort_locations(s);
    if s.len() == 0 {
    } else {
        let front = s.drop_last();
        lemma_sort_locations_props(front);
        lemma_insert_sorted_props(sort_locations(front), s.last());
        assert forall|k: int| 0 <= k < res.len() implies s.contains(#[trigger] res[k]) by {
            if sort_locations(front).contains(res[k]) {
                assert(front.contains(res[k]));
                let m = choose|m: int| 0 <= m < front.len() && front[m] == res[k];
                assert(s[m] == res[k]);
                assert(s.contains(res[k]));
            } else {
                assert(res[k] == s.last());
                assert(s.contains(s.last()));
            }
        }
        assert forall|y: CityLocation| s.contains(y) implies res.contains(y) by {
            let m = choose|m: int| 0 <= m < s.len() && s[m] == y;
            if m < s.len() - 1 {
                assert(front[m] == y);
                assert(front.contains(y));
                assert(sort_locations(front).contains(y));
            } else {
                assert(y == s.last());
            }
        }
    }
}

proof fn lemma_sorted_drop_last(s: Seq<CityLocation>)
    requires
        sorted_desc(s),
        s.len() > 0,
    ensures
        sorted_desc(s.drop_last()),
{
    let front = s.drop_last();
    assert forall|i: int, j: int| 0 <= i < j < front.len() implies loc_ge(front[i], front[j]) by {
        assert(front[i] == s[i]);
        assert(front[j] == s[j]);
        assert(loc_ge(s[i], s[j]));
    }
}

proof fn lemma_dedup_adjacent_basic(s: Seq<CityLocation>)
    requires
        sorted_desc(s),
    ensures
        s.len() == 0 ==> dedup_adjacent(s).len() == 0,
        s.len() > 0 ==> dedup_adjacent(s).len() > 0 && key_eq(dedup_adjacent(s).last(), s.last()),
        dedup_adjacent(s).len() <= s.len(),
        forall|k: int|
            0 <= k < dedup_adjacent(s).len() ==> s.contains(#[trigger] dedup_adjacent(s)[k]),
        sorted_desc(dedup_adjacent(s)),
    decreases s.len(),
{
    if s.len() > 0 {
        let front = s.drop_last();
        lemma_sorted_drop_last(s);
        lemma_dedup_adjacent_basic(front);
        let d = dedup_adjacent(s);
        let dp = dedup_adjacent(front);
        assert forall|k: int| 0 <= k < dp.len() implies s.contains(#[trigger] dp[k]) by {
            assert(front.contains(dp[k]));
            let m = choose|m: int| 0 <= m < front.len() && front[m] == dp[k];
            assert(s[m] == dp[k]);
        }
        if s.len() >= 2 && key_eq(s[s.len() - 2], s.last()) {
            assert(d == dp);
            assert(front.last() == s[s.len() - 2]);
            assert(key_eq(d.last(), s.last()));
        } else {
            assert(d == dp.push(s.last()));
            assert forall|k: int| 0 <= k < dp.len() implies loc_ge(dp[k], s.last()) by {
                assert(front.contains(dp[k]));
                let m = choose|m: int| 0 <= m < front.len() && front[m] == dp[k];
                assert(s[m] == dp[k]);
                assert(loc_ge(s[m], s[s.len() - 1]));
            }
            assert forall|i: int, j: int| 0 <= i < j < d.len() implies loc_ge(d[i], d[j]) by {
                if j < dp.len() {
                    assert(d[i] == dp[i] && d[j] == dp[j]);
                    assert(loc_ge(dp[i], dp[j]));
                } else {
                    assert(d[j] == s.last());
                    assert(d[i] == dp[i]);
                }
            }
            assert forall|k: int| 0 <= k < d.len() implies s.contains(#[trigger] d[k]) by {
                if k < dp.len() {
                    assert(d[k] == dp[k]);
                } else {
                    assert(d[k] == s.last());
                    assert(s[s.len() - 1] == s.last());
                }
            }
        }
    }
}

proof fn lemma_dedup_adjacent_unique(s: Seq<CityLocation>)
    requires
        sorted_desc(s),
    ensures
        forall|i: int, j: int|
            0 <= i < j < dedup_adjacent(s).len() ==> !key_eq(
                #[trigger] dedup_adjacent(s)[i],
                #[trigger] dedup_adjacent(s)[j],
            ),
    decreases s.len(),
{
    if s.len() > 0 {
        let front = s.drop_last();
        lemma_sorted_drop_last(s);
        lemma_dedup_adjacent_unique(front);
        lemma_dedup_adjacent_basic(front);
        lemma_dedup_adjacent_basic(s);
        let d = dedup_adjacent(s);
        let dp = dedup_adjacent(front);
        if !(s.len() >= 2 && key_eq(s[s.len() - 2], s.last())) {
            assert(d == dp.push(s.last()));
            assert forall|k: int| 0 <= k < dp.len() implies !key_eq(
                #[trigger] dp[k],
                s.last(),
            ) by {
                assert(front.len() > 0);
                assert(key_eq(dp.last(), front.last()));
                assert(front.last() == s[s.len() - 2]);
                if key_eq(dp[k], s.last()) {
                    if k < dp.len() - 1 {
                        assert(loc_ge(dp[k], dp[dp.len() - 1]));
                        lemma_loc_ge_mutual(dp[k], s.last());
                        assert(front.contains(dp.last()));
                        let m = choose|m: int| 0 <= m < front.len() && front[m] == dp.last();
                        assert(s[m] == dp.last());
                        assert(loc_ge(s[m], s[s.len() - 1]));
                        lemma_loc_ge_transitive(dp.last(), s.last(), dp[k]);
                        lemma_loc_ge_mutual(dp[k], dp.last());
                        assert(key_eq(dp[k], dp.last()));
                    }
                    assert(key_eq(s[s.len() - 2], s.last()));
                    assert(false);
                }
            }
            assert forall|i: int, j: int| 0 <= i < j < d.len() implies !key_eq(
                #[trigger] d[i],
                #[trigger] d[j],
            ) by {
                if j < dp.len() {
                    assert(d[i] == dp[i] && d[j] == dp[j]);
                } else {
                    assert(d[j] == s.last());
                    assert(d[i] == dp[i]);
                }
            }
        }
    }
}

proof fn lemma_dedup_adjacent_complete(s: Seq<CityLocation>)
    requires
        sorted_desc(s),
    ensures
        forall|j: int|
            0 <= j < s.len() ==> exists|k: int|
                0 <= k < dedup_adjacent(s).len() && key_eq(
                    #[trigger] s[j],
                    #[trigger] dedup_adjacent(s)[k],
                ),
    decreases s.len(),
{
    if s.len() > 0 {
        let front = s.drop_last();
        lemma_sorted_drop_last(s);
        lemma_dedup_adjacent_complete(front);
        let d = dedup_adjacent(s);
        let dp = dedup_adjacent(front);
        if s.len() >= 2 && key_eq(s[s.len() - 2], s.last()) {
            assert(d == dp);
            assert forall|j: int| 0 <= j < s.len() implies exists|k: int|
                0 <= k < d.len() && key_eq(#[trigger] s[j], #[trigger] d[k]) by {
                if j < s.len() - 1 {
                    assert(front[j] == s[j]);
                    let k = choose|k: int| 0 <= k < dp.len() && key_eq(front[j], dp[k]);
                    assert(key_eq(s[j], d[k]));
                } else {
                    assert(front[s.len() - 2] == s[s.len() - 2]);
                    let k = choose|k: int|
                        0 <= k < dp.len() && key_eq(front[s.len() - 2], dp[k]);
                    assert(key_eq(s[j], d[k]));
                }
            }
        } else {
            assert(d == dp.push(s.last()));
            assert forall|j: int| 0 <= j < s.len() implies exists|k: int|
                0 <= k < d.len() && key_eq(#[trigger] s[j], #[trigger] d[k]) by {
                if j < s.len() - 1 {
                    assert(front[j] == s[j]);
                    let k = choose|k: int| 0 <= k < dp.len() && key_eq(front[j], dp[k]);
                    assert(d[k] == dp[k]);
                    assert(key_eq(s[j], d[k]));
                } else {
                    assert(d[d.len() - 1] == s.last());
                    assert(key_eq(s[j], d[d.len() - 1]));
                }
            }
        }
    }
}

/// Insert one location into an already sorted vector.
fn insert_location(v: Vec<CityLocation>, x: CityLocation) -> (r: Vec<CityLocation>)
    ensures
        r@ == insert_sorted(v@, x),
    decreases v@.len(),
{
    let mut v = v;
    if v.len() == 0 {
        v.push(x);
        v
    } else {
        let n = v.len();
        if loc_ge_exec(&v[n - 1], &x) {
            proof {
                assert(v@.last() == v@[n - 1]);
            }
            v.push(x);
            v
        } else {
            let ghost before = v@;
            let last = v.pop().unwrap();
            proof {
                assert(v@ =~= before.drop_last());
                assert(last == before.last());
            }
            let mut r = insert_location(v, x);
            r.push(last);
            r
        }
    }
}

/// Sort the geocoder's list by (state, country), descending, keeping
/// the arrival order of entries with an equal key.
fn sort_locations_exec(locs: Vec<CityLocation>) -> (r: Vec<CityLocation>)
    ensures
        r@ == sort_locations(locs@),
{
    let ghost orig = locs@;
    let mut rest = locs;
    let mut out: Vec<CityLocation> = Vec::new();
    while rest.len() > 0
        invariant
            rest@.len() <= orig.len(),
            rest@ == orig.skip(orig.len() - rest@.len()),
            out@ == sort_locations(orig.take(orig.len() - rest@.len())),
        decreases rest@.len(),
    {
        let ghost k: int = orig.len() - rest@.len();
        let ghost rest_before = rest@;
        let x = rest.remove(0);
        proof {
            assert(x == rest_before[0]);
            assert(rest_before[0] == orig[k]);
            assert(rest@ =~= orig.skip(k + 1));
            assert(orig.take(k + 1).drop_last() =~= orig.take(k));
            assert(orig.take(k + 1).last() == orig[k]);
        }
        out = insert_location(out, x);
        proof {
            assert(out@ == insert_sorted(sort_locations(orig.take(k)), orig[k]));
            assert(out@ == sort_locations(orig.take(k + 1)));
        }
    }
    proof {
        assert(orig.take(orig.len() as int) =~= orig);
    }
    out
}

/// Collapse the candidate locations so that at most one entry per
/// (country, state) pair survives, in descending (state, country)
/// order.  The result is exactly `dedup_locations_spec` of the input.
pub fn dedup_locations(locs: Vec<CityLocation>) -> (r: Vec<CityLocation>)
    ensures
        r@ == dedup_locations_spec(locs@),
{
    let sorted = sort_locations_exec(locs);
    let ghost ss = sorted@;
    let mut rest = sorted;
    let mut out: Vec<CityLocation> = Vec::new();
    while rest.len() > 0
        invariant
            rest@.len() <= ss.len(),
            rest@ == ss.skip(ss.len() - rest@.len()),
            out@ == dedup_adjacent(ss.take(ss.len() - rest@.len())),
            ss.len() - rest@.len() > 0 ==> out@.len() > 0 && key_eq(
                out@.last(),
                ss[ss.len() - rest@.len() - 1],
            ),
        decreases rest@.len(),
    {
        let ghost k: int = ss.len() - rest@.len();
        let ghost rest_before = rest@;
        let x = rest.remove(0);
        proof {
            assert(x == rest_before[0]);
            assert(rest_before[0] == ss[k]);
            assert(rest@ =~= ss.skip(k + 1));
            assert(ss.take(k + 1).drop_last() =~= ss.take(k));
            assert(ss.take(k + 1).last() == ss[k]);
            if k > 0 {
                assert(ss.take(k + 1)[k - 1] == ss[k - 1]);
            }
        }
        if out.len() > 0 {
            let n = out.len();
            if key_eq_exec(&out[n - 1], &x) {
                proof {
                    assert(out@.last() == out@[n - 1]);
                    assert(key_eq(ss[k - 1], ss[k]));
                    assert(dedup_adjacent(ss.take(k + 1)) == dedup_adjacent(ss.take(k)));
                }
            } else {
                proof {
                    assert(out@.last() == out@[n - 1]);
                    assert(!key_eq(ss[k - 1], ss[k]));
                    assert(dedup_adjacent(ss.take(k + 1)) == dedup_adjacent(ss.take(k)).push(
                        ss[k],
                    ));
                }
                out.push(x);
            }
        } else {
            proof {
                assert(k == 0);
                assert(dedup_adjacent(ss.take(1)) == dedup_adjacent(ss.take(1).drop_last()).push(
                    ss[0],
                ));
                assert(ss.take(1).drop_last() =~= Seq::<CityLocation>::empty());
            }
            out.push(x);
        }
    }
    proof {
        assert(ss.take(ss.len() as int) =~= ss);
    }
    out
}

/// No two entries of the deduplicated list share a (country, state)
/// key: the output has one representative per key.
pub proof fn lemma_dedup_unique_keys(locs: Seq<CityLocation>)
    ensures
        forall|i: int, j: int|
            0 <= i < j < dedup_locations_spec(locs).len() ==> !key_eq(
                #[trigger] dedup_locations_spec(locs)[i],
                #[trigger] dedup_locations_spec(locs)[j],
            ),
{
    lemma_sort_locations_props(locs);
    lemma_dedup_adjacent_basic(sort_locations(locs));
    lemma_dedup_adjacent_unique(sort_locations(locs));
}

/// Deduplication invents nothing: every surviving entry is one of
/// the geocoder's entries, the list never grows, and it is empty
/// exactly when the geocoder's list was.
pub proof fn lemma_dedup_members(locs: Seq<CityLocation>)
    ensures
        forall|k: int|
            0 <= k < dedup_locations_spec(locs).len() ==> locs.contains(
                #[trigger] dedup_locations_spec(locs)[k],
            ),
        dedup_locations_spec(locs).len() <= locs.len(),
        locs.len() == 0 ==> dedup_locations_spec(locs).len() == 0,
        locs.len() > 0 ==> dedup_locations_spec(locs).len() > 0,
{
    lemma_sort_locations_props(locs);
    let ss = sort_locations(locs);
    lemma_dedup_adjacent_basic(ss);
    let d = dedup_locations_spec(locs);
    assert forall|k: int| 0 <= k < d.len() implies locs.contains(#[trigger] d[k]) by {
        assert(ss.contains(d[k]));
        let m = choose|m: int| 0 <= m < ss.len() && ss[m] == d[k];
        assert(locs.contains(ss[m]));
    }
}

/// Deduplication loses no key: every geocoded entry shares its
/// (country, state) key with some surviving entry.
pub proof fn lemma_dedup_covers(locs: Seq<CityLocation>)
    ensures
        forall|j: int|
            0 <= j < locs.len() ==> exists|k: int|
                0 <= k < dedup_locations_spec(locs).len() && key_eq(
                    #[trigger] locs[j],
                    #[trigger] dedup_locations_spec(locs)[k],
                ),
{
    lemma_sort_locations_props(locs);
    let ss = sort_locations(locs);
    lemma_dedup_adjacent_complete(ss);
    let d = dedup_locations_spec(locs);
    assert forall|j: int| 0 <= j < locs.len() implies exists|k: int|
        0 <= k < d.len() && key_eq(#[trigger] locs[j], #[trigger] d[k]) by {
        assert(locs[j] == locs[j]);
        assert(locs.contains(locs[j]));
        assert(ss.contains(locs[j]));
        let m = choose|m: int| 0 <= m < ss.len() && ss[m] == locs[j];
        let k = choose|k: int| 0 <= k < d.len() && key_eq(ss[m], d[k]);
        assert(key_eq(locs[j], d[k]));
    }
}

/// Pick what one weather response contributes: its first `weather`
/// entry's description and the temperature, or nothing when the
/// `weather` array is empty.
pub fn observation_of(resp: WeatherResponse) -> (r: Option<Observation>)
    ensures
        resp.weather@.len() == 0 ==> r is None,
        resp.weather@.len() > 0 ==> r == Some(
            (Observation {
                description: resp.weather@[0].description,
                temp: resp.main.temp,
            }),
        ),
{
    let mut entries = resp.weather;
    if entries.len() == 0 {
        None
    } else {
        let first = entries.remove(0);
        Some(Observation { description: first.description, temp: resp.main.temp })
    }
}

/// The result line built for one location from one observation.
pub open spec fn city_weather_of(loc: CityLocation, ob: Observation) -> CityWeather {
    CityWeather {
        weather: ob.description,
        temperature: ob.temp,
        country: loc.country,
        city_name: loc.name,
        state: loc.state,
    }
}

/// The final list: one line per location whose fetch succeeded, in
/// order; locations whose fetch failed contribute nothing.
pub open spec fn assembled(pairs: Seq<(CityLocation, Option<Observation>)>) -> Seq<CityWeather>
    decreases pairs.len(),
{
    if pairs.len() == 0 {
        Seq::empty()
    } else {
        let rest = assembled(pairs.drop_last());
        match pairs.last().1 {
            Some(ob) => rest.push(city_weather_of(pairs.last().0, ob)),
            None => rest,
        }
    }
}

/// A location whose weather fetch failed contributes nothing:
/// removing its entry leaves the assembled list unchanged, so the
/// other locations' results survive.
pub proof fn lemma_failed_fetch_skipped(pairs: Seq<(CityLocation, Option<Observation>)>, i: int)
    requires
        0 <= i < pairs.len(),
        pairs[i].1 is None,
    ensures
        assembled(pairs) == assembled(pairs.remove(i)),
    decreases pairs.len(),
{
    if i == pairs.len() - 1 {
        assert(pairs.remove(i) =~= pairs.drop_last());
    } else {
        let shorter = pairs.drop_last();
        lemma_failed_fetch_skipped(shorter, i);
        assert(pairs.remove(i).drop_last() =~= shorter.remove(i));
        assert(pairs.remove(i).last() == pairs.last());
    }
}

/// A location whose weather fetch succeeded appears in the assembled
/// list.
pub proof fn lemma_successful_fetch_included(
    pairs: Seq<(CityLocation, Option<Observation>)>,
    i: int,
)
    requires
        0 <= i < pairs.len(),
        pairs[i].1 is Some,
    ensures
        assembled(pairs).contains(city_weather_of(pairs[i].0, pairs[i].1->0)),
    decreases pairs.len(),
{
    let res = assembled(pairs);
    if i == pairs.len() - 1 {
        assert(res[res.len() - 1] == city_weather_of(pairs[i].0, pairs[i].1->0));
    } else {
        lemma_successful_fetch_included(pairs.drop_last(), i);
        let v = city_weather_of(pairs[i].0, pairs[i].1->0);
        let m = choose|m: int|
            0 <= m < assembled(pairs.drop_last()).len() && assembled(pairs.drop_last())[m] == v;
        assert(res[m] == v);
    }
}

/// An empty geocoder response leads to an empty result, not an error.
pub proof fn lemma_empty_geocode_empty_result()
    ensures
        dedup_locations_spec(Seq::empty()) =~= Seq::<CityLocation>::empty(),
        assembled(Seq::empty()) =~= Seq::<CityWeather>::empty(),
{
}

/// An unvalidated client: only the connectivity probe is permitted.
pub struct Offline;

/// A validated client: real queries are permitted.
pub struct Connected;

#[verifier::external_type_specification]
#[verifier::external_body]
pub struct ExReqwestClient(HttpClient);

/// Relies on reqwest::ClientBuilder::build: constructs the HTTP
/// transport handle, or reports the builder's failure.
#[verifier::external_body]
fn build_http_client() -> (r: Option<HttpClient>) {
    reqwest::ClientBuilder::new().build().ok()
}

/// The two-state client: its type parameter records whether the
/// connectivity probe has succeeded, so real queries are only
/// reachable on a `Client<Connected>`.
#[verifier::reject_recursive_types(T)]
pub struct Client<T> {
    pub config: Config,
    pub http: HttpClient,
    pub state: PhantomData<T>,
}

impl<T> Client<T> {
    pub fn config(&self) -> (r: &Config)
        ensures
            *r == self.config,
    {
        &self.config
    }

    pub fn http(&self) -> (r: &HttpClient)
        ensures
            *r == self.http,
    {
        &self.http
    }
}

/// The known-good query issued to validate connectivity before any
/// real query is accepted.
pub fn probe_city() -> (r: &'static str)
    ensures
        r@ == "London"@,
{
    "London"
}

impl Client<Offline> {
    /// Build an unvalidated client around a configuration; nothing is
    /// sent yet.
    pub fn new(config: Config) -> (r: Option<Client<Offline>>)
        ensures
            r matches Some(c) ==> c.config == config,
    {
        match build_http_client() {
            Some(http) => Some(Client { config, http, state: PhantomData }),
            None => None,
        }
    }

    /// Consume the probe query's outcome: a successful probe yields
    /// the validated client with the same configuration and
    /// transport, a failed one yields a connection error wrapping the
    /// probe's own error.  There is no way back to `Offline`.
    pub fn connect(self, probe: Result<Vec<CityLocation>, ApiError>) -> (r: Result<
        Client<Connected>,
        ConnectionError,
    >)
        ensures
            r is Ok <==> probe is Ok,
            r matches Ok(c) ==> c.config == self.config && c.http == self.http,
            probe matches Err(e) ==> r == Result::<Client<Connected>, ConnectionError>::Err(
                (ConnectionError { cause: e }),
            ),
    {
        match probe {
            Ok(_) => Ok(Client { config: self.config, http: self.http, state: PhantomData }),
            Err(e) => Err(ConnectionError { cause: e }),
        }
    }
}

impl Client<Connected> {
    /// The locations one query must fetch weather for: the geocoder's
    /// error propagates unchanged, its list is deduplicated, and an
    /// empty list stays an empty list rather than an error.
    pub fn locations_to_fetch(&self, geocoded: Result<Vec<CityLocation>, ApiError>) -> (r: Result<
        Vec<CityLocation>,
        ApiError,
    >)
        ensures
            geocoded matches Err(e) ==> r == Result::<Vec<CityLocation>, ApiError>::Err(e),
            geocoded matches Ok(locs) ==> r matches Ok(d) && d@ == dedup_locations_spec(locs@),
    {
        match geocoded {
            Err(e) => Err(e),
            Ok(locs) => Ok(dedup_locations(locs)),
        }
    }

    /// Assemble the final list from each fetched location's outcome:
    /// one line per successful fetch, in order, and nothing for a
    /// failed one.
    pub fn get_weather(&self, fetched: Vec<(CityLocation, Option<Observation>)>) -> (r: Vec<
        CityWeather,
    >)
        ensures
            r@ == assembled(fetched@),
            fetched@.len() == 0 ==> r@.len() == 0,
    {
        let ghost orig = fetched@;
        let mut rest = fetched;
        let mut out: Vec<CityWeather> = Vec::new();
        while rest.len() > 0
            invariant
                rest@.len() <= orig.len(),
                rest@ == orig.skip(orig.len() - rest@.len()),
                out@ == assembled(orig.take(orig.len() - rest@.len())),
            decreases rest@.len(),
        {
            let ghost k: int = orig.len() - rest@.len();
            let ghost rest_before = rest@;
            let pair = rest.remove(0);
            proof {
                assert(pair == rest_before[0]);
                assert(rest_before[0] == orig[k]);
                assert(rest@ =~= orig.skip(k + 1));
                assert(orig.take(k + 1).drop_last() =~= orig.take(k));
                assert(orig.take(k + 1).last() == orig[k]);
            }
            let (loc, ob) = pair;
            match ob {
                Some(o) => {
                    out.push(
                        CityWeather {
                            weather: o.description,
                            temperature: o.temp,
                            country: loc.country,
                            city_name: loc.name,
                            state: loc.state,
                        },
                    );
                },
                None => {},
            }
            proof {
                assert(out@ == assembled(orig.take(k + 1)));
            }
        }
        proof {
            assert(orig.take(orig.len() as int) =~= orig);
        }
        out
    }
}

} // verus!
