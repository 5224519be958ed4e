use screen_time::config::Config;

fn generate_random_number() -> u64 {
    rand::random::<u64>()
}

fn generate_random_number_as_str() -> (u64, String) {
    let rand_number = generate_random_number();
    let rand_number_as_str = rand_number.to_string();
    (rand_number, rand_number_as_str)
}

#[test]
fn build_config_passes_with_valid_inputs() {
    let (rand_number, rand_number_as_str) = generate_random_number_as_str();
    let config = Config::build(rand_number_as_str.as_str()).unwrap();
    assert_eq!(config.get_alert_screen_time(), rand_number);
}

#[test]
fn get_alert_screen_time_is_correct() {
    let (rand_number, rand_number_as_str) = generate_random_number_as_str();
    let config = Config::build(rand_number_as_str.as_str()).unwrap();
    assert_eq!(config.get_alert_screen_time(), rand_number);
}

#[test]
fn build_trims_whitespace() {
    let config = Config::build(" 45 \n").unwrap();
    assert_eq!(config.get_alert_screen_time(), 45);
}

#[test]
fn build_accepts_leading_plus() {
    let config = Config::build("+7").unwrap();
    assert_eq!(config.get_alert_screen_time(), 7);
}

#[test]
fn build_rejects_non_numeric() {
    let err = Config::build("abc").unwrap_err();
    assert_eq!(err, "Invalid work session duration");
}

#[test]
fn build_rejects_empty() {
    assert!(Config::build("").is_err());
    assert!(Config::build("   ").is_err());
    assert!(Config::build("+").is_err());
}

#[test]
fn build_rejects_too_large() {
    assert!(Config::build("99999999999999999999999").is_err());
    assert_eq!(
        Config::build("18446744073709551615").unwrap().get_alert_screen_time(),
        u64::MAX
    );
    assert!(Config::build("18446744073709551616").is_err());
}
