use barcode_match::normalize::expand_barcode;
use barcode_match::upc::{check_digit, is_valid_upc};

fn strings(v: &[&str]) -> Vec<String> {
    v.iter().map(|s| s.to_string()).collect()
}

#[test]
fn check_digit_of_known_upc() {
    assert_eq!(check_digit("03600029145"), Some(2));
    assert!(is_valid_upc("036000291452"));
}

#[test]
fn check_digit_of_scenario_payload() {
    // 8*3 + 1 + 1*3 + 0 + 7*3 + 9 + 0 + 0 + 0 + 0 + 0 = 58, so the digit is 2.
    assert_eq!(check_digit("81107900000"), Some(2));
}

#[test]
fn check_digit_zero_when_sum_is_multiple_of_ten() {
    assert_eq!(check_digit("00000000000"), Some(0));
    // 1*3 + 7*1 = 10.
    assert_eq!(check_digit("10000000070"), Some(0));
    // 1*3 + 7*3 = 24: the last payload digit carries weight 3.
    assert_eq!(check_digit("10000000007"), Some(6));
}

#[test]
fn check_digit_rejects_bad_payloads() {
    assert_eq!(check_digit("8110790000"), None);
    assert_eq!(check_digit("811079000000"), None);
    assert_eq!(check_digit("8110790000a"), None);
    assert_eq!(check_digit(""), None);
}

#[test]
fn completed_payloads_validate() {
    for payload in ["81107900000", "03600029145", "12345678901", "99999999999", "00000000000"] {
        let d = check_digit(payload).unwrap();
        assert!(d <= 9);
        let code = format!("{payload}{d}");
        assert!(is_valid_upc(&code), "{code}");
    }
}

#[test]
fn invalid_upcs_are_rejected() {
    assert!(!is_valid_upc("036000291453"));
    assert!(!is_valid_upc("03600029145"));
    assert!(!is_valid_upc("0360002914520"));
    assert!(!is_valid_upc("03600029145x"));
}

#[test]
fn expand_strips_single_zero_of_ean13() {
    let r = expand_barcode("0811079000005");
    assert_eq!(r, strings(&["0811079000005", "811079000005"]));
}

#[test]
fn expand_strips_single_zero_of_ean13_zero_tail() {
    let r = expand_barcode("0811079000000");
    assert!(r.contains(&"811079000000".to_string()));
    assert_eq!(r[0], "0811079000000");
}

#[test]
fn expand_strips_zero_pair() {
    let r = expand_barcode("00811079000005");
    assert_eq!(r, strings(&["00811079000005", "811079000005"]));
}

#[test]
fn expand_completes_eleven_digits() {
    let r = expand_barcode("81107900000");
    assert_eq!(r, strings(&["81107900000", "811079000002"]));
}

#[test]
fn expand_applies_all_three_rules() {
    // 13 digits starting "00": the pair strip gives 11 digits, the single
    // strip 12, and the 11-digit form gets its check digit.
    let r = expand_barcode("0003600029145");
    assert_eq!(
        r,
        strings(&["0003600029145", "03600029145", "003600029145", "036000291452"])
    );
}

#[test]
fn expand_skips_repeated_candidate() {
    let r = expand_barcode("0000000000000");
    assert_eq!(r, strings(&["0000000000000", "00000000000", "000000000000"]));
}

#[test]
fn expand_keeps_twelve_digits_alone() {
    let r = expand_barcode("036000291452");
    assert_eq!(r, strings(&["036000291452"]));
}

#[test]
fn expand_skips_check_digit_for_non_digits() {
    let r = expand_barcode("8110790000X");
    assert_eq!(r, strings(&["8110790000X"]));
}

#[test]
fn expand_empty_and_short_inputs() {
    assert_eq!(expand_barcode(""), strings(&[""]));
    assert_eq!(expand_barcode("0"), strings(&["0"]));
    assert_eq!(expand_barcode("00"), strings(&["00", ""]));
}

#[test]
fn expand_first_thirteen_only() {
    // 15 characters starting "00": the pair strip yields a 13-character
    // candidate starting with '0', which is then stripped once more.
    let r = expand_barcode("000811079000005");
    assert_eq!(
        r,
        strings(&["000811079000005", "0811079000005", "811079000005"])
    );
}
