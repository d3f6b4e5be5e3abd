use pf_dashboard::logs::{log_url, test_metric, test_scale, LogError};
use pf_dashboard::text::IntError;

#[test]
fn addresses_of_logs() {
    assert_eq!(
        log_url("http://buildbot", 12),
        "http://buildbot/api/v2/logs/12/raw_inline"
    );
    assert_eq!(log_url("", -1), "/api/v2/logs/-1/raw_inline");
    assert_ne!(log_url("u", 1), log_url("u", 11));
}

#[test]
fn scales_of_known_tests() {
    assert_eq!(
        test_scale("dbt2", b"x\nSCALE FACTOR (WAREHOUSES): 100\nSCALE FACTOR (WAREHOUSES): 7"),
        Ok(100)
    );
    assert_eq!(test_scale("dbt3", b"SCALE: 10"), Ok(10));
    assert_eq!(test_scale("dbt5", b"Configured Customers:     5000 (x)"), Ok(5000));
    assert_eq!(test_scale("dbt7", b"Scale: 1\n"), Ok(1));
    assert_eq!(test_scale("dbt7", b"Scale: x Scale:   0042y"), Ok(42));
    assert_eq!(test_scale("dbt3", b"SCALE: 4294967295"), Ok(4294967295));
}

#[test]
fn metrics_of_known_tests() {
    assert_eq!(
        test_metric("dbt2", b"Throughput: 1234.56 new-order transactions").as_deref(),
        Ok("1234.56")
    );
    assert_eq!(
        test_metric("dbt3", b"a\n  Composite Score:       90.10\n").as_deref(),
        Ok("90.10")
    );
    assert_eq!(
        test_metric("dbt5", b"Throughput: 1.1\nReported Throughput: 2.25").as_deref(),
        Ok("2.25")
    );
    assert_eq!(
        test_metric("dbt7", b"Queries per Hour: 77.7").as_deref(),
        Ok("77.7")
    );
}

#[test]
fn any_one_character_can_stand_in_a_metric() {
    assert_eq!(test_metric("dbt2", b"Throughput: 12e3").as_deref(), Ok("12e3"));
    assert_eq!(test_metric("dbt2", b"Throughput: 12345").as_deref(), Ok("12345"));
    assert_eq!(test_metric("dbt2", b"Throughput: 123 45").as_deref(), Ok("123 45"));
    assert_eq!(test_metric("dbt2", b"Throughput: 12.x").as_deref(), Err(&LogError::NoMatch));
    assert_eq!(test_metric("dbt2", b"Throughput: 123.x").as_deref(), Ok("123"));
    assert_eq!(test_metric("dbt2", b"Throughput: 1.2.3").as_deref(), Ok("1.2"));
    assert_eq!(test_metric("dbt2", b"Throughput: 12\n34").as_deref(), Err(&LogError::NoMatch));
    assert_eq!(test_metric("dbt2", b"Throughput: 123\n45").as_deref(), Ok("123"));
    assert_eq!(
        test_metric("dbt2", "Throughput: 1\u{20ac}2".as_bytes()).as_deref(),
        Ok("1\u{20ac}2")
    );
}

#[test]
fn the_first_place_counts() {
    assert_eq!(
        test_metric("dbt2", b"Throughput: x Throughput: 1.5 Throughput: 22.5").as_deref(),
        Ok("1.5")
    );
    assert_eq!(test_scale("dbt3", b"SCALE: SCALE: 3 SCALE: 4"), Ok(3));
}

#[test]
fn whole_metrics_have_three_digits_or_more() {
    assert_eq!(test_metric("dbt3", b"Composite Score:  100").as_deref(), Ok("100"));
    assert_eq!(test_metric("dbt3", b"Composite Score:  0100 x").as_deref(), Ok("0100"));
    assert_eq!(test_metric("dbt3", b"Composite Score: 100\n5").as_deref(), Ok("100"));
    assert_eq!(test_metric("dbt3", b"Composite Score: 100 5").as_deref(), Ok("100 5"));
    assert_eq!(test_metric("dbt3", b"Composite Score: 10").as_deref(), Err(&LogError::NoMatch));
    assert_eq!(
        test_metric("dbt3", b"Composite Score: 10 x Composite Score: 2.5").as_deref(),
        Ok("2.5")
    );
}

#[test]
fn later_lines_change_nothing() {
    for more in ["", "9", ".9", "Throughput: 8.5", "SCALE FACTOR (WAREHOUSES): 9"] {
        let log = format!("Throughput: 7.5\nSCALE FACTOR (WAREHOUSES): 3\n{}", more);
        assert_eq!(test_metric("dbt2", log.as_bytes()).as_deref(), Ok("7.5"));
        assert_eq!(test_scale("dbt2", log.as_bytes()), Ok(3));
    }
    let large = b"SCALE: 4294967296\nSCALE: 1";
    assert_eq!(test_scale("dbt3", large), Err(LogError::NotNumber(IntError::PosOverflow)));
}

#[test]
fn gaps_are_spaces() {
    assert_eq!(test_scale("dbt2", b"SCALE FACTOR (WAREHOUSES):  1"), Err(LogError::NoMatch));
    assert_eq!(test_scale("dbt7", b"Scale:1"), Err(LogError::NoMatch));
    assert_eq!(test_scale("dbt7", b"Scale:\t1"), Err(LogError::NoMatch));
    assert_eq!(test_scale("dbt7", b"scale: 1"), Err(LogError::NoMatch));
}

#[test]
fn each_log_error_has_an_input() {
    assert_eq!(test_scale("dbt3", &[0xff, 0x31]), Err(LogError::NotUtf8));
    assert_eq!(test_metric("dbt3", &[0xc3]).unwrap_err(), LogError::NotUtf8);
    assert_eq!(test_scale("dbt3", b""), Err(LogError::NoMatch));
    assert_eq!(
        test_scale("dbt3", b"SCALE: 4294967296"),
        Err(LogError::NotNumber(IntError::PosOverflow))
    );
}

#[test]
fn unknown_tests_have_no_numbers() {
    assert_eq!(test_scale("dbt1", b"SCALE: 10"), Err(LogError::NoMatch));
    assert_eq!(
        test_metric("dbt1", b"Throughput: 1.5").unwrap_err(),
        LogError::NoMatch
    );
}

#[test]
fn captures_agree_with_the_pattern() {
    let pieces = ["Throughput: ", "Throughput:", "1", "23", ".", " ", "\n", "x", "4"];
    let regex = regex::Regex::new(r"Throughput: ([0-9]+.[0-9]+)").unwrap();
    let n = pieces.len();
    for code in 0..n * n * n * n {
        let mut text = String::from("Throughput: ");
        let mut rest = code;
        for _ in 0..4 {
            text.push_str(pieces[rest % n]);
            rest /= n;
        }
        let expected = longest_first(&text);
        if code % 7 == 0 {
            assert_eq!(test_metric("dbt2", text.as_bytes()).ok(), expected, "{:?}", text);
        }
        let direct = regex.captures(&text).map(|c| c.get(1).unwrap().as_str().to_string());
        assert_eq!(direct, expected, "{:?}", text);
    }
}

/// The longest number at the first place where there is one.
fn longest_first(text: &str) -> Option<String> {
    let t: Vec<char> = text.chars().collect();
    let lead: Vec<char> = "Throughput: ".chars().collect();
    let digits = |a: usize, b: usize| a < b && t[a..b].iter().all(|c| c.is_ascii_digit());
    for at in 0..t.len() {
        let from = at + lead.len();
        if from > t.len() || t[at..from] != lead[..] {
            continue;
        }
        for to in (from..=t.len()).rev() {
            for point in from..to {
                if digits(from, point) && t[point] != '\n' && digits(point + 1, to) {
                    return Some(t[from..to].iter().collect());
                }
            }
        }
    }
    None
}
