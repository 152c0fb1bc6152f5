use weather::app::{AppConfig, OutputType};
use weather::weather_client::{
    classify_response, observation_of, ApiError, CityLocation, Client, Config, FetchOutcome,
    MainWeather, Observation, Weather, WeatherResponse,
};

fn loc(country: &str, state: Option<&str>, name: &str) -> CityLocation {
    CityLocation {
        lat: "51.50".to_string(),
        lon: "-0.12".to_string(),
        country: country.to_string(),
        state: state.map(|s| s.to_string()),
        name: name.to_string(),
    }
}

fn obs(description: &str, temp: i32) -> Observation {
    Observation { description: description.to_string(), temp }
}

fn connected() -> Client<weather::weather_client::Connected> {
    let config = Config::new("key".to_string(), "en".to_string());
    let client = Client::new(config).expect("client builds");
    client.connect(Ok(Vec::new())).expect("probe succeeded")
}

#[test]
fn test() {}

#[test]
fn london_duplicates_collapse_to_one() {
    let client = connected();
    let geocoded = vec![loc("GB", None, "London"), loc("GB", None, "London")];
    let to_fetch = client.locations_to_fetch(Ok(geocoded)).unwrap();
    assert_eq!(to_fetch.len(), 1);
    assert_eq!(to_fetch[0].country, "GB");
    assert_eq!(to_fetch[0].state, None);

    let mut fetched = Vec::new();
    for l in to_fetch {
        fetched.push((l, Some(obs("light rain", 1250))));
    }
    let weathers = client.get_weather(fetched);
    assert_eq!(weathers.len(), 1);
    assert_eq!(weathers[0].weather, "light rain");
    assert_eq!(weathers[0].city_name, "London");
    assert_eq!(weathers[0].temperature, 1250);
}

#[test]
fn springfield_states_both_survive() {
    let client = connected();
    let geocoded = vec![
        loc("US", Some("IL"), "Springfield"),
        loc("US", Some("MO"), "Springfield"),
    ];
    let to_fetch = client.locations_to_fetch(Ok(geocoded)).unwrap();
    assert_eq!(to_fetch.len(), 2);
    // descending by state: MO before IL
    assert_eq!(to_fetch[0].state.as_deref(), Some("MO"));
    assert_eq!(to_fetch[1].state.as_deref(), Some("IL"));

    let mut fetched = Vec::new();
    for l in to_fetch {
        fetched.push((l, Some(obs("clear sky", 2000))));
    }
    let weathers = client.get_weather(fetched);
    assert_eq!(weathers.len(), 2);
}

#[test]
fn first_arrival_is_the_representative() {
    let client = connected();
    let geocoded = vec![
        loc("GB", None, "First"),
        loc("GB", None, "Second"),
        loc("GB", None, "Third"),
    ];
    let to_fetch = client.locations_to_fetch(Ok(geocoded)).unwrap();
    assert_eq!(to_fetch.len(), 1);
    assert_eq!(to_fetch[0].name, "First");
}

#[test]
fn absent_state_sorts_after_present_ones() {
    let client = connected();
    let geocoded = vec![
        loc("DE", None, "Berlin"),
        loc("US", Some("CA"), "Berlin"),
        loc("DE", Some("BE"), "Berlin"),
    ];
    let to_fetch = client.locations_to_fetch(Ok(geocoded)).unwrap();
    assert_eq!(to_fetch.len(), 3);
    assert_eq!(to_fetch[0].state.as_deref(), Some("CA"));
    assert_eq!(to_fetch[1].state.as_deref(), Some("BE"));
    assert_eq!(to_fetch[2].state, None);
}

#[test]
fn empty_geocoder_response_is_empty_result_not_error() {
    let client = connected();
    let to_fetch = client.locations_to_fetch(Ok(Vec::new())).unwrap();
    assert!(to_fetch.is_empty());
    let weathers = client.get_weather(Vec::new());
    assert!(weathers.is_empty());
}

#[test]
fn geocoder_error_propagates() {
    let client = connected();
    let r = client.locations_to_fetch(Err(ApiError::Unauthorized));
    assert_eq!(r.unwrap_err(), ApiError::Unauthorized);
    let r = client.locations_to_fetch(Err(ApiError::RequestFailed));
    assert_eq!(r.unwrap_err(), ApiError::RequestFailed);
}

#[test]
fn one_failed_fetch_keeps_the_others() {
    let client = connected();
    let fetched = vec![
        (loc("US", Some("MO"), "Springfield"), Some(obs("mist", 900))),
        (loc("US", Some("IL"), "Springfield"), None),
        (loc("US", Some("AA"), "Springfield"), Some(obs("snow", -450))),
    ];
    let weathers = client.get_weather(fetched);
    assert_eq!(weathers.len(), 2);
    assert_eq!(weathers[0].state.as_deref(), Some("MO"));
    assert_eq!(weathers[0].weather, "mist");
    assert_eq!(weathers[1].state.as_deref(), Some("AA"));
    assert_eq!(weathers[1].temperature, -450);
}

#[test]
fn unauthorized_only_on_status_401() {
    let r = classify_response(&FetchOutcome::Response { status: 401, body_ok: true });
    assert_eq!(r.unwrap_err(), ApiError::Unauthorized);
    let r = classify_response(&FetchOutcome::Response { status: 401, body_ok: false });
    assert_eq!(r.unwrap_err(), ApiError::Unauthorized);
    let r = classify_response(&FetchOutcome::NoResponse);
    assert_eq!(r.unwrap_err(), ApiError::RequestFailed);
    let r = classify_response(&FetchOutcome::Response { status: 500, body_ok: false });
    assert_eq!(r.unwrap_err(), ApiError::RequestFailed);
    let r = classify_response(&FetchOutcome::Response { status: 200, body_ok: true });
    assert!(r.is_ok());
}

#[test]
fn failed_probe_wraps_its_cause() {
    let config = Config::new("bad".to_string(), "en".to_string());
    let client = Client::new(config).expect("client builds");
    let err = client.connect(Err(ApiError::Unauthorized)).err().unwrap();
    assert_eq!(err.cause, ApiError::Unauthorized);
}

#[test]
fn connected_client_keeps_its_config() {
    let config = Config::new("key".to_string(), "de".to_string());
    let client = Client::new(config).expect("client builds");
    let client = client.connect(Ok(Vec::new())).expect("probe succeeded");
    assert_eq!(client.config().api_key(), "key");
    assert_eq!(client.config().lang(), "de");
}

#[test]
fn observation_takes_the_first_weather_entry() {
    let resp = WeatherResponse {
        weather: vec![
            Weather { description: "drizzle".to_string() },
            Weather { description: "ignored".to_string() },
        ],
        main: MainWeather { temp: 731 },
    };
    let ob = observation_of(resp).unwrap();
    assert_eq!(ob.description, "drizzle");
    assert_eq!(ob.temp, 731);
}

#[test]
fn missing_weather_entry_skips_the_location() {
    let resp = WeatherResponse { weather: Vec::new(), main: MainWeather { temp: 731 } };
    assert!(observation_of(resp).is_none());
}

#[test]
fn probe_city_is_london() {
    assert_eq!(weather::weather_client::probe_city(), "London");
}

#[test]
fn app_config_carries_its_parts() {
    let config = Config::new("key".to_string(), "en".to_string());
    let app = AppConfig::new(config, OutputType::Json, Some("debug".to_string()));
    assert!(matches!(app.output(), OutputType::Json));
    assert_eq!(app.level().as_deref(), Some("debug"));
    assert_eq!(app.client().lang(), "en");
}

#[test]
fn timing_keeps_its_label() {
    let t = weather::utils::Timing::new("city_weather");
    assert_eq!(t.identifier, "city_weather");
    let _ = t.start().elapsed();
}
