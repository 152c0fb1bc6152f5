//! A canonical JSON form for the result list, with a round trip
//! proof: parsing what was written yields field-equal records.
//!
//! The writer escapes quotes and backslashes and emits no whitespace;
//! other characters are carried as they are.  The reader accepts
//! exactly this canonical form.

use vstd::prelude::*;

use crate::order::opt_str_view;
use crate::weather_client::CityWeather;

verus! {

/// The fields of one result line as mathematical values.
pub struct CityWeatherV {
    pub weather: Seq<char>,
    pub country: Seq<char>,
    pub state: Option<Seq<char>>,
    pub city_name: Seq<char>,
    pub temperature: int,
}

/// The mathematical view of one result line.
pub open spec fn cw_view(w: CityWeather) -> CityWeatherV {
    CityWeatherV {
        weather: w.weather@,
        country: w.country@,
        state: opt_str_view(w.state),
        city_name: w.city_name@,
        temperature: w.temperature as int,
    }
}

/// The views of a whole list.
pub open spec fn views_of(s: Seq<CityWeather>) -> Seq<CityWeatherV> {
    s.map_values(|w: CityWeather| cw_view(w))
}

/// How one character is written inside a JSON string.
pub open spec fn esc_char(c: char) -> Seq<char> {
    if c == '"' || c == '\\' {
        seq!['\\', c]
    } else {
        seq![c]
    }
}

/// The escaped body of a JSON string.
pub open spec fn enc_str_body(s: Seq<char>) -> Seq<char>
    decreases s.len(),
{
    if s.len() == 0 {
        Seq::empty()
    } else {
        enc_str_body(s.drop_last()) + esc_char(s.last())
    }
}

/// A JSON string: the escaped body between quotes.
pub open spec fn enc_string(s: Seq<char>) -> Seq<char> {
    seq!['"'] + enc_str_body(s) + seq!['"']
}

/// The character for one decimal digit.
pub open spec fn digit_char(n: int) -> char {
    if n == 0 {
        '0'
    } else if n == 1 {
        '1'
    } else if n == 2 {
        '2'
    } else if n == 3 {
        '3'
    } else if n == 4 {
        '4'
    } else if n == 5 {
        '5'
    } else if n == 6 {
        '6'
    } else if n == 7 {
        '7'
    } else if n == 8 {
        '8'
    } else {
        '9'
    }
}

pub open spec fn is_digit(c: char) -> bool {
    c == '0' || c == '1' || c == '2' || c == '3' || c == '4' || c == '5' || c == '6' || c == '7'
        || c == '8' || c == '9'
}

pub open spec fn digit_val(c: char) -> int {
    if c == '0' {
        0
    } else if c == '1' {
        1
    } else if c == '2' {
        2
    } else if c == '3' {
        3
    } else if c == '4' {
        4
    } else if c == '5' {
        5
    } else if c == '6' {
        6
    } else if c == '7' {
        7
    } else if c == '8' {
        8
    } else {
        9
    }
}

/// The decimal digits of a non-negative number, most significant
/// first.
pub open spec fn dec_digits(n: int) -> Seq<char>
    recommends
        n >= 0,
    decreases n,
{
    if n < 10 {
        seq![digit_char(n)]
    } else {
        dec_digits(n / 10) + seq![digit_char(n % 10)]
    }
}

/// A JSON integer, with a minus sign when negative.
pub open spec fn enc_int(t: int) -> Seq<char> {
    if t < 0 {
        seq!['-'] + dec_digits(-t)
    } else {
        dec_digits(t)
    }
}

/// A JSON string or `null` for the optional state.
pub open spec fn enc_opt_string(s: Option<Seq<char>>) -> Seq<char> {
    match s {
        Option::None => "null"@,
        Option::Some(x) => enc_string(x),
    }
}

/// One record in canonical form.
pub open spec fn enc_weather(v: CityWeatherV) -> Seq<char> {
    "{\"weather\":"@ + enc_string(v.weather) + ",\"country\":"@ + enc_string(v.country)
        + ",\"state\":"@ + enc_opt_string(v.state) + ",\"city_name\":"@ + enc_string(v.city_name)
        + ",\"temperature\":"@ + enc_int(v.temperature) + "}"@
}

/// The comma-led records after the first one.
pub open spec fn enc_list_tail(vs: Seq<CityWeatherV>) -> Seq<char>
    decreases vs.len(),
{
    if vs.len() == 0 {
        Seq::empty()
    } else {
        ","@ + enc_weather(vs[0]) + enc_list_tail(vs.drop_first())
    }
}

/// The whole list in canonical form.
pub open spec fn json_of(vs: Seq<CityWeatherV>) -> Seq<char> {
    if vs.len() == 0 {
        "[]"@
    } else {
        "["@ + enc_weather(vs[0]) + enc_list_tail(vs.drop_first()) + "]"@
    }
}

/// Consume an expected literal prefix.
pub open spec fn parse_lit(s: Seq<char>, lit: Seq<char>) -> Option<Seq<char>> {
    if s.len() >= lit.len() && s.take(lit.len() as int) == lit {
        Some(s.skip(lit.len() as int))
    } else {
        None
    }
}

/// Consume a string body up to its closing quote, undoing escapes.
pub open spec fn parse_str_body(s: Seq<char>) -> Option<(Seq<char>, Seq<char>)>
    decreases s.len(),
{
    if s.len() == 0 {
        None
    } else if s[0] == '"' {
        Some((Seq::empty(), s.drop_first()))
    } else if s[0] == '\\' {
        if s.len() >= 2 {
            match parse_str_body(s.skip(2)) {
                Some(p) => Some((seq![s[1]] + p.0, p.1)),
                None => None,
            }
        } else {
            None
        }
    } else {
        match parse_str_body(s.drop_first()) {
            Some(p) => Some((seq![s[0]] + p.0, p.1)),
            None => None,
        }
    }
}

/// Consume a quoted string.
pub open spec fn parse_string(s: Seq<char>) -> Option<(Seq<char>, Seq<char>)> {
    if s.len() > 0 && s[0] == '"' {
        parse_str_body(s.drop_first())
    } else {
        None
    }
}

/// Consume a quoted string or `null`.
pub open spec fn parse_opt_string(s: Seq<char>) -> Option<(Option<Seq<char>>, Seq<char>)> {
    match parse_lit(s, "null"@) {
        Some(r) => Some((Option::None, r)),
        None => match parse_string(s) {
            Some(p) => Some((Option::Some(p.0), p.1)),
            None => None,
        },
    }
}

/// The length of the leading run of decimal digits.
pub open spec fn digit_run_len(s: Seq<char>) -> int
    decreases s.len(),
{
    if s.len() == 0 || !is_digit(s[0]) {
        0
    } else {
        1 + digit_run_len(s.drop_first())
    }
}

/// The value of a digit sequence, most significant first.
pub open spec fn val_of_digits(d: Seq<char>) -> int
    decreases d.len(),
{
    if d.len() == 0 {
        0
    } else {
        val_of_digits(d.drop_last()) * 10 + digit_val(d.last())
    }
}

/// Consume a JSON integer that fits the temperature field: at most
/// ten digits and within the range of 32-bit values.
pub open spec fn parse_int(s: Seq<char>) -> Option<(int, Seq<char>)> {
    if s.len() > 0 && s[0] == '-' {
        let body = s.drop_first();
        let n = digit_run_len(body);
        if 1 <= n <= 10 && val_of_digits(body.take(n)) <= 2147483648 {
            Some((-val_of_digits(body.take(n)), body.skip(n)))
        } else {
            None
        }
    } else {
        let n = digit_run_len(s);
        if 1 <= n <= 10 && val_of_digits(s.take(n)) <= 2147483647 {
            Some((val_of_digits(s.take(n)), s.skip(n)))
        } else {
            None
        }
    }
}

/// Consume one record in canonical form.
pub open spec fn parse_weather(s: Seq<char>) -> Option<(CityWeatherV, Seq<char>)> {
    match parse_lit(s, "{\"weather\":"@) {
        None => None,
        Some(s1) => match parse_string(s1) {
            None => None,
            Some((weather, s2)) => match parse_lit(s2, ",\"country\":"@) {
                None => None,
                Some(s3) => match parse_string(s3) {
                    None => None,
                    Some((country, s4)) => match parse_lit(s4, ",\"state\":"@) {
                        None => None,
                        Some(s5) => match parse_opt_string(s5) {
                            None => None,
                            Some((state, s6)) => match parse_lit(s6, ",\"city_name\":"@) {
                                None => None,
                                Some(s7) => match parse_string(s7) {
                                    None => None,
                                    Some((city_name, s8)) => match parse_lit(
                                        s8,
                                        ",\"temperature\":"@,
                                    ) {
                                        None => None,
                                        Some(s9) => match parse_int(s9) {
                                            None => None,
                                            Some((temperature, s10)) => match parse_lit(
                                                s10,
                                                "}"@,
                                            ) {
                                                None => None,
                                                Some(s11) => Some(
                                                    (
                                                        CityWeatherV {
                                                            weather,
                                                            country,
                                                            state,
                                                            city_name,
                                                            temperature,
                                                        },
                                                        s11,
                                                    ),
                                                ),
                                            },
                                        },
                                    },
                                },
                            },
                        },
                    },
                },
            },
        },
    }
}

/// Consume the comma-led records after the first one, then the
/// closing bracket.
pub open spec fn parse_list_tail(s: Seq<char>) -> Option<(Seq<CityWeatherV>, Seq<char>)>
    decreases s.len(),
{
    match parse_lit(s, "]"@) {
        Some(r) => Some((Seq::empty(), r)),
        None => {
            if s.len() > 0 && s[0] == ',' {
                match parse_weather(s.drop_first()) {
                    Some((w, r)) => {
                        if r.len() < s.len() {
                            match parse_list_tail(r) {
                                Some((ws, r2)) => Some((seq![w] + ws, r2)),
                                None => None,
                            }
                        } else {
                            None
                        }
                    },
                    None => None,
                }
            } else {
                None
            }
        },
    }
}

/// Parse a whole list in canonical form; the input must hold nothing
/// else.
pub open spec fn parse_weathers(s: Seq<char>) -> Option<Seq<CityWeatherV>> {
    if s.len() > 0 && s[0] == '[' {
        let t = s.drop_first();
        match parse_lit(t, "]"@) {
            Some(r) => {
                if r.len() == 0 {
                    Some(Seq::empty())
                } else {
                    None
                }
            },
            None => match parse_weather(t) {
                Some((w, r)) => match parse_list_tail(r) {
                    Some((ws, r2)) => {
                        if r2.len() == 0 {
                            Some(seq![w] + ws)
                        } else {
                            None
                        }
                    },
                    None => None,
                },
                None => None,
            },
        }
    } else {
        None
    }
}

proof fn lemma_parse_lit(lit: Seq<char>, rest: Seq<char>)
    ensures
        parse_lit(lit + rest, lit) == Some(rest),
{
    let s = lit + rest;
    assert(s.take(lit.len() as int) =~= lit);
    assert(s.skip(lit.len() as int) =~= rest);
}

proof fn lemma_enc_str_front(x: Seq<char>)
    requires
        x.len() > 0,
    ensures
        enc_str_body(x) == esc_char(x[0]) + enc_str_body(x.drop_first()),
    decreases x.len(),
{
    if x.len() == 1 {
        assert(x.drop_last() =~= Seq::<char>::empty());
        assert(x.drop_first() =~= Seq::<char>::empty());
        assert(enc_str_body(x) =~= esc_char(x[0]) + enc_str_body(x.drop_first()));
    } else {
        let y = x.drop_last();
        lemma_enc_str_front(y);
        assert(y[0] == x[0]);
        assert(y.drop_first() =~= x.drop_first().drop_last());
        assert(x.drop_first().last() == x.last());
        assert(enc_str_body(x.drop_first()) == enc_str_body(x.drop_first().drop_last())
            + esc_char(x.last()));
        assert(enc_str_body(x) == (esc_char(x[0]) + enc_str_body(x.drop_first().drop_last()))
            + esc_char(x.last()));
        assert((esc_char(x[0]) + enc_str_body(x.drop_first().drop_last())) + esc_char(x.last())
            =~= esc_char(x[0]) + (enc_str_body(x.drop_first().drop_last()) + esc_char(x.last())));
    }
}

proof fn lemma_str_body_rt(x: Seq<char>, rest: Seq<char>)
    ensures
        parse_str_body(enc_str_body(x) + seq!['"'] + rest) == Some((x, rest)),
    decreases x.len(),
{
    let s = enc_str_body(x) + seq!['"'] + rest;
    if x.len() == 0 {
        assert(s =~= seq!['"'] + rest);
        assert(s[0] == '"');
        assert(s.drop_first() =~= rest);
        assert(parse_str_body(s) == Some((Seq::<char>::empty(), rest)));
        assert(x =~= Seq::<char>::empty());
    } else {
        lemma_enc_str_front(x);
        let tail_in = enc_str_body(x.drop_first()) + seq!['"'] + rest;
        lemma_str_body_rt(x.drop_first(), rest);
        if x[0] == '"' || x[0] == '\\' {
            assert(s =~= seq!['\\', x[0]] + tail_in);
            assert(s[0] == '\\');
            assert(s[1] == x[0]);
            assert(s.len() >= 2);
            assert(s.skip(2) =~= tail_in);
            assert(parse_str_body(s) == Some((seq![x[0]] + x.drop_first(), rest)));
            assert(seq![x[0]] + x.drop_first() =~= x);
        } else {
            assert(s =~= seq![x[0]] + tail_in);
            assert(s[0] == x[0]);
            assert(s.drop_first() =~= tail_in);
            assert(parse_str_body(s) == Some((seq![x[0]] + x.drop_first(), rest)));
            assert(seq![x[0]] + x.drop_first() =~= x);
        }
    }
}

proof fn lemma_string_rt(x: Seq<char>, rest: Seq<char>)
    ensures
        parse_string(enc_string(x) + rest) == Some((x, rest)),
        (enc_string(x) + rest)[0] == '"',
{
    let s = enc_string(x) + rest;
    assert(s[0] == '"');
    assert(s.drop_first() =~= enc_str_body(x) + seq!['"'] + rest);
    lemma_str_body_rt(x, rest);
}

proof fn lemma_dec_digits_basic(n: int)
    requires
        n >= 0,
    ensures
        dec_digits(n).len() >= 1,
        forall|i: int| 0 <= i < dec_digits(n).len() ==> is_digit(#[trigger] dec_digits(n)[i]),
        val_of_digits(dec_digits(n)) == n,
    decreases n,
{
    let d = dec_digits(n);
    if n < 10 {
        assert(d =~= seq![digit_char(n)]);
        assert(d.drop_last() =~= Seq::<char>::empty());
        assert(val_of_digits(Seq::<char>::empty()) == 0);
        assert(d.last() == digit_char(n));
        assert(val_of_digits(d) == digit_val(digit_char(n)));
    } else {
        lemma_dec_digits_basic(n / 10);
        let front = dec_digits(n / 10);
        assert(d == front + seq![digit_char(n % 10)]);
        assert(d.drop_last() =~= front);
        assert(d.last() == digit_char(n % 10));
        assert(val_of_digits(d) == val_of_digits(front) * 10 + digit_val(digit_char(n % 10)));
        assert(val_of_digits(d) == (n / 10) * 10 + n % 10);
        assert forall|i: int| 0 <= i < d.len() implies is_digit(#[trigger] d[i]) by {
            if i < front.len() {
                assert(d[i] == front[i]);
            } else {
                assert(d[i] == digit_char(n % 10));
            }
        }
    }
}

/// Powers of ten, for bounding how many digits a value needs.
pub open spec fn pow10(k: int) -> int
    recommends
        k >= 0,
    decreases k,
{
    if k <= 0 {
        1
    } else {
        10 * pow10(k - 1)
    }
}

proof fn lemma_dec_digits_len(n: int, k: int)
    requires
        n >= 0,
        k >= 1,
        n < pow10(k),
    ensures
        dec_digits(n).len() <= k,
    decreases k,
{
    if n >= 10 {
        assert(pow10(0) == 1);
        assert(pow10(1) == 10);
        if k == 1 {
            assert(false);
        } else {
            assert(pow10(k) == 10 * pow10(k - 1));
            assert(n / 10 >= pow10(k - 1) ==> n >= 10 * pow10(k - 1));
            lemma_dec_digits_len(n / 10, k - 1);
        }
    }
}

proof fn lemma_digit_run(ds: Seq<char>, rest: Seq<char>)
    requires
        forall|i: int| 0 <= i < ds.len() ==> is_digit(#[trigger] ds[i]),
        rest.len() == 0 || !is_digit(rest[0]),
    ensures
        digit_run_len(ds + rest) == ds.len(),
    decreases ds.len(),
{
    let s = ds + rest;
    if ds.len() == 0 {
        assert(s =~= rest);
    } else {
        assert(s[0] == ds[0]);
        assert(is_digit(s[0]));
        assert(s.drop_first() =~= ds.drop_first() + rest);
        assert forall|i: int| 0 <= i < ds.drop_first().len() implies is_digit(
            #[trigger] ds.drop_first()[i],
        ) by {
            assert(ds.drop_first()[i] == ds[i + 1]);
        }
        lemma_digit_run(ds.drop_first(), rest);
    }
}

proof fn lemma_pow10_ten()
    ensures
        pow10(10) == 10000000000,
{
    assert(pow10(0) == 1);
    assert(pow10(1) == 10);
    assert(pow10(2) == 100);
    assert(pow10(3) == 1000);
    assert(pow10(4) == 10000);
    assert(pow10(5) == 100000);
    assert(pow10(6) == 1000000);
    assert(pow10(7) == 10000000);
    assert(pow10(8) == 100000000);
    assert(pow10(9) == 1000000000);
    assert(pow10(10) == 10000000000);
}

proof fn lemma_int_rt(t: int, rest: Seq<char>)
    requires
        -2147483648 <= t <= 2147483647,
        rest.len() > 0,
        !is_digit(rest[0]),
    ensures
        parse_int(enc_int(t) + rest) == Some((t, rest)),
{
    lemma_pow10_ten();
    if t >= 0 {
        let ds = dec_digits(t);
        lemma_dec_digits_basic(t);
        lemma_dec_digits_len(t, 10);
        lemma_digit_run(ds, rest);
        let s = ds + rest;
        assert(s[0] == ds[0]);
        assert(is_digit(s[0]));
        assert(s[0] != '-');
        let n = digit_run_len(s);
        assert(n == ds.len());
        assert(s.take(n) =~= ds);
        assert(s.skip(n) =~= rest);
        assert(val_of_digits(ds) == t);
    } else {
        let m = -t;
        let ds = dec_digits(m);
        lemma_dec_digits_basic(m);
        lemma_dec_digits_len(m, 10);
        lemma_digit_run(ds, rest);
        let s = enc_int(t) + rest;
        assert(s =~= seq!['-'] + (ds + rest));
        assert(s[0] == '-');
        let body = s.drop_first();
        assert(body =~= ds + rest);
        let n = digit_run_len(body);
        assert(n == ds.len());
        assert(body.take(n) =~= ds);
        assert(body.skip(n) =~= rest);
        assert(val_of_digits(ds) == m);
        assert(m <= 2147483648);
    }
}

proof fn lemma_weather_rt(v: CityWeatherV, rest: Seq<char>)
    requires
        -2147483648 <= v.temperature <= 2147483647,
    ensures
        parse_weather(enc_weather(v) + rest) == Some((v, rest)),
        (enc_weather(v) + rest)[0] == '{',
{
    reveal_strlit("{\"weather\":");
    reveal_strlit(",\"country\":");
    reveal_strlit(",\"state\":");
    reveal_strlit(",\"city_name\":");
    reveal_strlit(",\"temperature\":");
    reveal_strlit("}");
    reveal_strlit("null");
    let l1 = "{\"weather\":"@;
    let l2 = ",\"country\":"@;
    let l3 = ",\"state\":"@;
    let l4 = ",\"city_name\":"@;
    let l5 = ",\"temperature\":"@;
    let l6 = "}"@;
    let e1 = enc_string(v.weather);
    let e2 = enc_string(v.country);
    let e3 = enc_opt_string(v.state);
    let e4 = enc_string(v.city_name);
    let e5 = enc_int(v.temperature);
    let r10 = l6 + rest;
    let r9 = e5 + r10;
    let r8 = l5 + r9;
    let r7 = e4 + r8;
    let r6 = l4 + r7;
    let r5 = e3 + r6;
    let r4 = l3 + r5;
    let r3 = e2 + r4;
    let r2 = l2 + r3;
    let r1 = e1 + r2;
    let s = l1 + r1;
    assert(enc_weather(v) + rest =~= s);
    lemma_parse_lit(l1, r1);
    lemma_string_rt(v.weather, r2);
    lemma_parse_lit(l2, r3);
    lemma_string_rt(v.country, r4);
    lemma_parse_lit(l3, r5);
    match v.state {
        Option::None => {
            assert(e3 == "null"@);
            lemma_parse_lit("null"@, r6);
            assert(r5 =~= "null"@ + r6);
            assert(parse_opt_string(r5) == Some((Option::<Seq<char>>::None, r6)));
        },
        Option::Some(x) => {
            lemma_string_rt(x, r6);
            assert(r5[0] == '"');
            assert("null"@[0] == 'n');
            if parse_lit(r5, "null"@) is Some {
                assert(r5.take(4)[0] == r5[0]);
                assert(false);
            }
            assert(parse_opt_string(r5) == Some((Option::Some(x), r6)));
        },
    }
    lemma_parse_lit(l4, r7);
    lemma_string_rt(v.city_name, r8);
    lemma_parse_lit(l5, r9);
    assert(r10.len() > 0);
    assert(r10[0] == '}');
    assert(!is_digit('}'));
    lemma_int_rt(v.temperature, r10);
    lemma_parse_lit(l6, rest);
    assert(s[0] == '{');
}

#[verifier::rlimit(100)]
proof fn lemma_list_tail_rt(vs: Seq<CityWeatherV>)
    requires
        forall|k: int|
            0 <= k < vs.len() ==> -2147483648 <= (#[trigger] vs[k]).temperature <= 2147483647,
    ensures
        parse_list_tail(enc_list_tail(vs) + "]"@) == Some((vs, Seq::<char>::empty())),
    decreases vs.len(),
{
    reveal_strlit("]");
    reveal_strlit(",");
    let s = enc_list_tail(vs) + "]"@;
    if vs.len() == 0 {
        assert(s =~= "]"@ + Seq::<char>::empty());
        lemma_parse_lit("]"@, Seq::<char>::empty());
        assert(parse_list_tail(s) == Some((Seq::<CityWeatherV>::empty(), Seq::<char>::empty())));
        assert(vs =~= Seq::<CityWeatherV>::empty());
    } else {
        let rest_enc = enc_list_tail(vs.drop_first()) + "]"@;
        assert(s =~= ","@ + (enc_weather(vs[0]) + rest_enc));
        assert(s[0] == ',');
        assert("]"@[0] == ']');
        if parse_lit(s, "]"@) is Some {
            assert(s.take(1)[0] == s[0]);
            assert(false);
        }
        assert(s.drop_first() =~= enc_weather(vs[0]) + rest_enc);
        lemma_weather_rt(vs[0], rest_enc);
        assert(parse_weather(s.drop_first()) == Some((vs[0], rest_enc)));
        assert(rest_enc.len() < s.len());
        assert forall|k: int| 0 <= k < vs.drop_first().len() implies -2147483648 <= (
        #[trigger] vs.drop_first()[k]).temperature <= 2147483647 by {
            assert(vs.drop_first()[k] == vs[k + 1]);
        }
        lemma_list_tail_rt(vs.drop_first());
        assert(parse_list_tail(s) == Some(
            (seq![vs[0]] + vs.drop_first(), Seq::<char>::empty()),
        ));
        assert(seq![vs[0]] + vs.drop_first() =~= vs);
    }
}

/// Writing a list of result lines and reading the text back yields
/// the same field values, for every list whose temperatures fit the
/// field's 32-bit range.
pub proof fn lemma_json_round_trip(vs: Seq<CityWeatherV>)
    requires
        forall|k: int|
            0 <= k < vs.len() ==> -2147483648 <= (#[trigger] vs[k]).temperature <= 2147483647,
    ensures
        parse_weathers(json_of(vs)) == Some(vs),
{
    reveal_strlit("[");
    reveal_strlit("]");
    reveal_strlit("[]");
    let s = json_of(vs);
    if vs.len() == 0 {
        assert(s == "[]"@);
        assert(s.len() == 2 && s[0] == '[' && s[1] == ']');
        let t = s.drop_first();
        assert(t =~= "]"@ + Seq::<char>::empty());
        lemma_parse_lit("]"@, Seq::<char>::empty());
        assert(parse_weathers(s) == Some(Seq::<CityWeatherV>::empty()));
        assert(vs =~= Seq::<CityWeatherV>::empty());
    } else {
        let rest_enc = enc_list_tail(vs.drop_first()) + "]"@;
        assert(s =~= "["@ + (enc_weather(vs[0]) + rest_enc));
        assert(s[0] == '[');
        let t = s.drop_first();
        assert(t =~= enc_weather(vs[0]) + rest_enc);
        lemma_weather_rt(vs[0], rest_enc);
        assert(t[0] == '{');
        assert("]"@[0] == ']');
        if parse_lit(t, "]"@) is Some {
            assert(t.take(1)[0] == t[0]);
            assert(false);
        }
        assert forall|k: int| 0 <= k < vs.drop_first().len() implies -2147483648 <= (
        #[trigger] vs.drop_first()[k]).temperature <= 2147483647 by {
            assert(vs.drop_first()[k] == vs[k + 1]);
        }
        lemma_list_tail_rt(vs.drop_first());
        assert(parse_weathers(s) == Some(seq![vs[0]] + vs.drop_first()));
        assert(seq![vs[0]] + vs.drop_first() =~= vs);
    }
}

/// Relies on String::push: appends the character to the string.
#[verifier::external_body]
fn push_char(s: &mut String, c: char)
    ensures
        final(s)@ == old(s)@.push(c),
{
    s.push(c);
}

proof fn lemma_pow10_pos(k: int)
    ensures
        pow10(k) >= 1,
    decreases k,
{
    if k > 0 {
        lemma_pow10_pos(k - 1);
    }
}

proof fn lemma_pow10_mono(a: int, b: int)
    requires
        0 <= a <= b,
    ensures
        pow10(a) <= pow10(b),
    decreases b,
{
    if a < b {
        lemma_pow10_mono(a, b - 1);
        lemma_pow10_pos(b - 1);
    }
}

proof fn lemma_pow10_nine()
    ensures
        pow10(9) == 1000000000,
{
    assert(pow10(0) == 1);
    assert(pow10(1) == 10);
    assert(pow10(2) == 100);
    assert(pow10(3) == 1000);
    assert(pow10(4) == 10000);
    assert(pow10(5) == 100000);
    assert(pow10(6) == 1000000);
    assert(pow10(7) == 10000000);
    assert(pow10(8) == 100000000);
    assert(pow10(9) == 1000000000);
}

proof fn lemma_run_le_len(s: Seq<char>)
    ensures
        0 <= digit_run_len(s) <= s.len(),
    decreases s.len(),
{
    if s.len() > 0 && is_digit(s[0]) {
        lemma_run_le_len(s.drop_first());
    }
}

proof fn lemma_run_digits(s: Seq<char>, j: int)
    requires
        0 <= j < digit_run_len(s),
    ensures
        is_digit(s[j]),
    decreases j,
{
    lemma_run_le_len(s);
    if j > 0 {
        lemma_run_le_len(s.drop_first());
        lemma_run_digits(s.drop_first(), j - 1);
        assert(s.drop_first()[j - 1] == s[j]);
    }
}

fn digit_char_exec(d: u64) -> (r: char)
    requires
        d < 10,
    ensures
        r == digit_char(d as int),
{
    if d == 0 {
        '0'
    } else if d == 1 {
        '1'
    } else if d == 2 {
        '2'
    } else if d == 3 {
        '3'
    } else if d == 4 {
        '4'
    } else if d == 5 {
        '5'
    } else if d == 6 {
        '6'
    } else if d == 7 {
        '7'
    } else if d == 8 {
        '8'
    } else {
        '9'
    }
}

fn is_digit_exec(c: char) -> (r: bool)
    ensures
        r == is_digit(c),
{
    c == '0' || c == '1' || c == '2' || c == '3' || c == '4' || c == '5' || c == '6' || c == '7'
        || c == '8' || c == '9'
}

fn digit_val_exec(c: char) -> (r: u64)
    requires
        is_digit(c),
    ensures
        r as int == digit_val(c),
{
    if c == '0' {
        0
    } else if c == '1' {
        1
    } else if c == '2' {
        2
    } else if c == '3' {
        3
    } else if c == '4' {
        4
    } else if c == '5' {
        5
    } else if c == '6' {
        6
    } else if c == '7' {
        7
    } else if c == '8' {
        8
    } else {
        9
    }
}

/// Append the escaped body of one string.
fn write_escaped(out: &mut String, s: &str)
    ensures
        final(out)@ == old(out)@ + enc_str_body(s@),
{
    let ghost base = out@;
    let n = s.unicode_len();
    let mut i: usize = 0;
    while i < n
        invariant
            n == s@.len(),
            i <= n,
            out@ == base + enc_str_body(s@.take(i as int)),
        decreases n - i,
    {
        let c = s.get_char(i);
        proof {
            assert(s@.take(i as int + 1).drop_last() =~= s@.take(i as int));
            assert(s@.take(i as int + 1).last() == s@[i as int]);
        }
        if c == '"' || c == '\\' {
            push_char(out, '\\');
            push_char(out, c);
        } else {
            push_char(out, c);
        }
        proof {
            assert(out@ =~= base + enc_str_body(s@.take(i as int + 1)));
        }
        i = i + 1;
    }
    proof {
        assert(s@.take(n as int) =~= s@);
    }
}

/// Append one JSON string.
fn write_string(out: &mut String, s: &str)
    ensures
        final(out)@ == old(out)@ + enc_string(s@),
{
    let ghost base = out@;
    push_char(out, '"');
    write_escaped(out, s);
    push_char(out, '"');
    proof {
        assert(out@ =~= base + enc_string(s@));
    }
}

/// Append the decimal digits of a non-negative number.
fn write_digits(out: &mut String, n: u64)
    ensures
        final(out)@ == old(out)@ + dec_digits(n as int),
    decreases n,
{
    let ghost base = out@;
    if n < 10 {
        push_char(out, digit_char_exec(n));
        proof {
            assert(out@ =~= base + dec_digits(n as int));
        }
    } else {
        write_digits(out, n / 10);
        push_char(out, digit_char_exec(n % 10));
        proof {
            assert(out@ =~= base + (dec_digits(n as int / 10) + seq![digit_char(n as int % 10)]));
        }
    }
}

/// Append one JSON integer.
fn write_int(out: &mut String, t: i32)
    ensures
        final(out)@ == old(out)@ + enc_int(t as int),
{
    let ghost base = out@;
    if t < 0 {
        push_char(out, '-');
        let m: u64 = (-(t as i64)) as u64;
        write_digits(out, m);
        proof {
            assert(m as int == -(t as int));
            assert(out@ =~= base + (seq!['-'] + dec_digits(-(t as int))));
        }
    } else {
        write_digits(out, t as u64);
    }
}

/// Append one record.
fn write_weather(out: &mut String, w: &CityWeather)
    ensures
        final(out)@ == old(out)@ + enc_weather(cw_view(*w)),
{
    let ghost base = out@;
    out.append("{\"weather\":");
    write_string(out, w.weather.as_str());
    out.append(",\"country\":");
    write_string(out, w.country.as_str());
    out.append(",\"state\":");
    match &w.state {
        Option::None => out.append("null"),
        Option::Some(x) => write_string(out, x.as_str()),
    }
    out.append(",\"city_name\":");
    write_string(out, w.city_name.as_str());
    out.append(",\"temperature\":");
    write_int(out, w.temperature);
    out.append("}");
    proof {
        assert(out@ =~= base + enc_weather(cw_view(*w)));
    }
}

/// Append the comma-led records from position `i` on.
fn write_tail(out: &mut String, v: &Vec<CityWeather>, i: usize)
    requires
        i <= v@.len(),
    ensures
        final(out)@ == old(out)@ + enc_list_tail(views_of(v@).skip(i as int)),
    decreases v@.len() - i,
{
    let ghost base = out@;
    if i < v.len() {
        out.append(",");
        write_weather(out, &v[i]);
        write_tail(out, v, i + 1);
        proof {
            let vs = views_of(v@);
            assert(vs.skip(i as int)[0] == cw_view(v@[i as int]));
            assert(vs.skip(i as int).drop_first() =~= vs.skip(i as int + 1));
            assert(out@ =~= base + (","@ + enc_weather(cw_view(v@[i as int])) + enc_list_tail(
                vs.skip(i as int + 1),
            )));
        }
    } else {
        proof {
            assert(views_of(v@).skip(i as int) =~= Seq::<CityWeatherV>::empty());
            assert(out@ =~= base + enc_list_tail(Seq::<CityWeatherV>::empty()));
        }
    }
}

/// Write the whole list in the canonical form that `json_of` states.
pub fn weathers_to_json(v: &Vec<CityWeather>) -> (r: String)
    ensures
        r@ == json_of(views_of(v@)),
{
    let mut out = String::new();
    if v.len() == 0 {
        out.append("[]");
        proof {
            assert(views_of(v@).len() == 0);
            assert(out@ =~= "[]"@);
        }
        out
    } else {
        out.append("[");
        write_weather(&mut out, &v[0]);
        write_tail(&mut out, v, 1);
        out.append("]");
        proof {
            let vs = views_of(v@);
            assert(vs[0] == cw_view(v@[0]));
            assert(vs.drop_first() =~= vs.skip(1));
            assert(out@ =~= "["@ + enc_weather(vs[0]) + enc_list_tail(vs.drop_first()) + "]"@);
        }
        out
    }
}

/// Consume an expected literal prefix.
fn p_lit<'a>(s: &'a str, lit: &str) -> (r: Option<&'a str>)
    ensures
        match parse_lit(s@, lit@) {
            Some(rest) => r matches Some(t) && t@ == rest,
            None => r is None,
        },
{
    let n = s.unicode_len();
    let m = lit.unicode_len();
    if n < m {
        None
    } else {
        let pre = s.substring_char(0, m);
        let a = String::from_str(pre);
        let b = String::from_str(lit);
        if a.eq(&b) {
            let rest = s.substring_char(m, n);
            proof {
                assert(s@.take(m as int) =~= pre@);
                assert(rest@ =~= s@.skip(m as int));
            }
            Some(rest)
        } else {
            proof {
                assert(s@.take(m as int) =~= pre@);
            }
            None
        }
    }
}

/// Consume a string body up to its closing quote, undoing escapes.
fn p_str_body<'a>(s: &'a str) -> (r: Option<(String, &'a str)>)
    ensures
        match parse_str_body(s@) {
            Some(p) => r matches Some(q) && q.0@ == p.0 && q.1@ == p.1,
            None => r is None,
        },
    decreases s@.len(),
{
    let n = s.unicode_len();
    if n == 0 {
        None
    } else {
        let c = s.get_char(0);
        if c == '"' {
            let rest = s.substring_char(1, n);
            proof {
                assert(rest@ =~= s@.drop_first());
            }
            Some((String::new(), rest))
        } else if c == '\\' {
            if n < 2 {
                None
            } else {
                let e = s.get_char(1);
                let tail = s.substring_char(2, n);
                proof {
                    assert(tail@ =~= s@.skip(2));
                }
                match p_str_body(tail) {
                    None => None,
                    Some((t, r2)) => {
                        let mut piece = String::new();
                        push_char(&mut piece, e);
                        piece.append(t.as_str());
                        proof {
                            assert(piece@ =~= seq![s@[1]] + t@);
                        }
                        Some((piece, r2))
                    },
                }
            }
        } else {
            let tail = s.substring_char(1, n);
            proof {
                assert(tail@ =~= s@.drop_first());
            }
            match p_str_body(tail) {
                None => None,
                Some((t, r2)) => {
                    let mut piece = String::new();
                    push_char(&mut piece, c);
                    piece.append(t.as_str());
                    proof {
                        assert(piece@ =~= seq![s@[0]] + t@);
                    }
                    Some((piece, r2))
                },
            }
        }
    }
}

/// Consume a quoted string.
fn p_string<'a>(s: &'a str) -> (r: Option<(String, &'a str)>)
    ensures
        match parse_string(s@) {
            Some(p) => r matches Some(q) && q.0@ == p.0 && q.1@ == p.1,
            None => r is None,
        },
{
    let n = s.unicode_len();
    if n > 0 && s.get_char(0) == '"' {
        let body = s.substring_char(1, n);
        proof {
            assert(body@ =~= s@.drop_first());
        }
        p_str_body(body)
    } else {
        None
    }
}

/// Consume a quoted string or `null`.
fn p_opt_string<'a>(s: &'a str) -> (r: Option<(Option<String>, &'a str)>)
    ensures
        match parse_opt_string(s@) {
            Some(p) => r matches Some(q) && crate::order::opt_str_view(q.0) == p.0 && q.1@ == p.1,
            None => r is None,
        },
{
    match p_lit(s, "null") {
        Some(r2) => Some((Option::None, r2)),
        None => match p_string(s) {
            Some((t, r2)) => Some((Option::Some(t), r2)),
            None => None,
        },
    }
}

/// The length of the leading digit run.
fn digit_run_exec(s: &str) -> (r: usize)
    ensures
        r as int == digit_run_len(s@),
        r <= s@.len(),
    decreases s@.len(),
{
    let n = s.unicode_len();
    if n == 0 {
        0
    } else {
        let c = s.get_char(0);
        if is_digit_exec(c) {
            let tail = s.substring_char(1, n);
            proof {
                assert(tail@ =~= s@.drop_first());
            }
            1 + digit_run_exec(tail)
        } else {
            0
        }
    }
}

/// The value of the leading digit run of at most ten digits.
fn p_digits_val(s: &str, run: usize) -> (r: u64)
    requires
        run as int == digit_run_len(s@),
        run <= 10,
        run <= s@.len(),
    ensures
        r as int == val_of_digits(s@.take(run as int)),
        r < 10000000000,
{
    let mut acc: u64 = 0;
    let mut j: usize = 0;
    while j < run
        invariant
            j <= run,
            run as int == digit_run_len(s@),
            run <= 10,
            run <= s@.len(),
            acc as int == val_of_digits(s@.take(j as int)),
            (acc as int) < pow10(j as int),
        decreases run - j,
    {
        proof {
            lemma_run_digits(s@, j as int);
            lemma_pow10_nine();
            lemma_pow10_mono(j as int, 9);
            assert(pow10(j as int + 1) == 10 * pow10(j as int));
            assert(s@.take(j as int + 1).drop_last() =~= s@.take(j as int));
            assert(s@.take(j as int + 1).last() == s@[j as int]);
        }
        let c = s.get_char(j);
        let dv = digit_val_exec(c);
        acc = acc * 10 + dv;
        j = j + 1;
    }
    proof {
        lemma_pow10_mono(run as int, 10);
        lemma_pow10_ten();
    }
    acc
}

/// Consume a JSON integer within the temperature field's range.
fn p_int<'a>(s: &'a str) -> (r: Option<(i32, &'a str)>)
    ensures
        match parse_int(s@) {
            Some(p) => r matches Some(q) && q.0 as int == p.0 && q.1@ == p.1,
            None => r is None,
        },
{
    let n = s.unicode_len();
    if n > 0 && s.get_char(0) == '-' {
        let body = s.substring_char(1, n);
        proof {
            assert(body@ =~= s@.drop_first());
        }
        let run = digit_run_exec(body);
        if run < 1 || run > 10 {
            None
        } else {
            let v = p_digits_val(body, run);
            if v <= 2147483648 {
                let t: i64 = -(v as i64);
                let rest = body.substring_char(run, body.unicode_len());
                proof {
                    assert(rest@ =~= body@.skip(run as int));
                }
                Some((t as i32, rest))
            } else {
                None
            }
        }
    } else {
        let run = digit_run_exec(s);
        if run < 1 || run > 10 {
            None
        } else {
            let v = p_digits_val(s, run);
            if v <= 2147483647 {
                let rest = s.substring_char(run, n);
                proof {
                    assert(rest@ =~= s@.skip(run as int));
                }
                Some((v as i32, rest))
            } else {
                None
            }
        }
    }
}

/// Consume one record in canonical form.
fn p_weather<'a>(s: &'a str) -> (r: Option<(CityWeather, &'a str)>)
    ensures
        match parse_weather(s@) {
            Some(p) => r matches Some(q) && cw_view(q.0) == p.0 && q.1@ == p.1,
            None => r is None,
        },
{
    match p_lit(s, "{\"weather\":") {
        None => None,
        Some(s1) => match p_string(s1) {
            None => None,
            Some((weather, s2)) => match p_lit(s2, ",\"country\":") {
                None => None,
                Some(s3) => match p_string(s3) {
                    None => None,
                    Some((country, s4)) => match p_lit(s4, ",\"state\":") {
                        None => None,
                        Some(s5) => match p_opt_string(s5) {
                            None => None,
                            Some((state, s6)) => match p_lit(s6, ",\"city_name\":") {
                                None => None,
                                Some(s7) => match p_string(s7) {
                                    None => None,
                                    Some((city_name, s8)) => match p_lit(
                                        s8,
                                        ",\"temperature\":",
                                    ) {
                                        None => None,
                                        Some(s9) => match p_int(s9) {
                                            None => None,
                                            Some((temperature, s10)) => match p_lit(s10, "}") {
                                                None => None,
                                                Some(s11) => Some(
                                                    (
                                                        CityWeather {
                                                            weather,
                                                            country,
                                                            state,
                                                            city_name,
                                                            temperature,
                                                        },
                                                        s11,
                                                    ),
                                                ),
                                            },
                                        },
                                    },
                                },
                            },
                        },
                    },
                },
            },
        },
    }
}

/// Consume the comma-led records after the first one, then the
/// closing bracket.
fn p_list_tail<'a>(s: &'a str) -> (r: Option<(Vec<CityWeather>, &'a str)>)
    ensures
        match parse_list_tail(s@) {
            Some(p) => r matches Some(q) && views_of(q.0@) == p.0 && q.1@ == p.1,
            None => r is None,
        },
    decreases s@.len(),
{
    match p_lit(s, "]") {
        Some(r2) => {
            let out: Vec<CityWeather> = Vec::new();
            proof {
                assert(views_of(out@) =~= Seq::<CityWeatherV>::empty());
            }
            Some((out, r2))
        },
        None => {
            let n = s.unicode_len();
            if n > 0 && s.get_char(0) == ',' {
                let t = s.substring_char(1, n);
                proof {
                    assert(t@ =~= s@.drop_first());
                }
                match p_weather(t) {
                    Some((w, r2)) => {
                        if r2.unicode_len() < n {
                            match p_list_tail(r2) {
                                Some((ws, r3)) => {
                                    let mut ws = ws;
                                    let ghost before = ws@;
                                    ws.insert(0, w);
                                    proof {
                                        assert(views_of(ws@) =~= seq![cw_view(w)] + views_of(
                                            before,
                                        ));
                                    }
                                    Some((ws, r3))
                                },
                                None => None,
                            }
                        } else {
                            None
                        }
                    },
                    None => None,
                }
            } else {
                None
            }
        },
    }
}

/// Read a whole list back from the canonical form; anything else is
/// rejected.
pub fn weathers_from_json(s: &str) -> (r: Option<Vec<CityWeather>>)
    ensures
        match parse_weathers(s@) {
            Some(vs) => r matches Some(v) && views_of(v@) == vs,
            None => r is None,
        },
{
    let n = s.unicode_len();
    if n > 0 && s.get_char(0) == '[' {
        let t = s.substring_char(1, n);
        proof {
            assert(t@ =~= s@.drop_first());
        }
        match p_lit(t, "]") {
            Some(r2) => {
                if r2.unicode_len() == 0 {
                    let out: Vec<CityWeather> = Vec::new();
                    proof {
                        assert(views_of(out@) =~= Seq::<CityWeatherV>::empty());
                    }
                    Some(out)
                } else {
                    None
                }
            },
            None => match p_weather(t) {
                Some((w, r2)) => match p_list_tail(r2) {
                    Some((ws, r3)) => {
                        if r3.unicode_len() == 0 {
                            let mut ws = ws;
                            let ghost before = ws@;
                            ws.insert(0, w);
                            proof {
                                assert(views_of(ws@) =~= seq![cw_view(w)] + views_of(before));
                            }
                            Some(ws)
                        } else {
                            None
                        }
                    },
                    None => None,
                },
                None => None,
            },
        }
    } else {
        None
    }
}

} // verus!
