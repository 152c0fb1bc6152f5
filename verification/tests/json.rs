use weather::json::{weathers_from_json, weathers_to_json};
use weather::weather_client::CityWeather;

fn cw(
    weather: &str,
    country: &str,
    state: Option<&str>,
    city_name: &str,
    temperature: i32,
) -> CityWeather {
    CityWeather {
        weather: weather.to_string(),
        country: country.to_string(),
        state: state.map(|s| s.to_string()),
        city_name: city_name.to_string(),
        temperature,
    }
}

#[test]
fn json_round_trip_is_field_equal() {
    let list = vec![
        cw("light \"rain\"", "GB", None, "Lon\\don", -1250),
        cw("clear sky", "US", Some("MO"), "Springfield", 2147483647),
        cw("", "DE", Some(""), "Berlin", -2147483648),
    ];
    let text = weathers_to_json(&list);
    let back = weathers_from_json(text.as_str()).expect("canonical text parses");
    assert_eq!(back.len(), list.len());
    for (a, b) in list.iter().zip(back.iter()) {
        assert_eq!(a.weather, b.weather);
        assert_eq!(a.country, b.country);
        assert_eq!(a.state, b.state);
        assert_eq!(a.city_name, b.city_name);
        assert_eq!(a.temperature, b.temperature);
    }
}

#[test]
fn json_exact_text() {
    let list = vec![cw("mist", "DE", None, "Berlin", 950)];
    let text = weathers_to_json(&list);
    assert_eq!(
        text,
        "[{\"weather\":\"mist\",\"country\":\"DE\",\"state\":null,\"city_name\":\"Berlin\",\"temperature\":950}]"
    );
}

#[test]
fn json_exact_text_with_state_and_escapes() {
    let list = vec![cw("a\"b\\c", "US", Some("IL"), "Springfield", -5)];
    let text = weathers_to_json(&list);
    assert_eq!(
        text,
        "[{\"weather\":\"a\\\"b\\\\c\",\"country\":\"US\",\"state\":\"IL\",\"city_name\":\"Springfield\",\"temperature\":-5}]"
    );
}

#[test]
fn json_empty_list_round_trip() {
    let list: Vec<CityWeather> = Vec::new();
    let text = weathers_to_json(&list);
    assert_eq!(text, "[]");
    let back = weathers_from_json(text.as_str()).expect("canonical text parses");
    assert!(back.is_empty());
}

#[test]
fn json_rejects_other_text() {
    assert!(weathers_from_json("").is_none());
    assert!(weathers_from_json("{}").is_none());
    assert!(weathers_from_json("[{\"weather\":\"x\"}]").is_none());
    assert!(weathers_from_json("[] ").is_none());
}
