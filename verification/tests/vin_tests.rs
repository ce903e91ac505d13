use rxing::client::result::vin_result_parser::{
    check_char, check_checksum, country_code, model_year, parse, parse_cleaned, vin_char_value,
    vin_position_weight,
};
use rxing::client::result::BarcodeFormat;
use rxing::Exceptions;

#[test]
fn parses_a_vehicle_identification_number() {
    let vin = parse(BarcodeFormat::CODE_39, "1M8GDM9AXKP042788").unwrap();
    assert_eq!(vin.vin, "1M8GDM9AXKP042788");
    assert_eq!(vin.world_manufacturer_id, "1M8");
    assert_eq!(vin.vehicle_descriptor_section, "GDM9AX");
    assert_eq!(vin.vehicle_identifier_section, "KP042788");
    assert_eq!(vin.country_code, "US");
    assert_eq!(vin.vehicle_attributes, "GDM9A");
    assert_eq!(vin.model_year, 1989);
    assert_eq!(vin.plant_code, 'P');
    assert_eq!(vin.sequential_number, "042788");
}

#[test]
fn parse_trims_and_drops_the_letters_i_o_and_q() {
    let vin = parse(BarcodeFormat::CODE_39, "  I1M8GDM9AXKP042788\n").unwrap();
    assert_eq!(vin.vin, "1M8GDM9AXKP042788");
    let with_letters = parse(BarcodeFormat::CODE_39, "1M8GDMQ9AXKOP042788").unwrap();
    assert_eq!(with_letters.vin, "1M8GDM9AXKP042788");
}

#[test]
fn parse_wants_code_39() {
    assert_eq!(parse(BarcodeFormat::CODE_128, "1M8GDM9AXKP042788"), None);
    assert_eq!(parse(BarcodeFormat::QR_CODE, "1M8GDM9AXKP042788"), None);
}

#[test]
fn parse_rejects_what_is_no_vin() {
    // a wrong check character
    assert_eq!(parse(BarcodeFormat::CODE_39, "1M8GDM9A1KP042788"), None);
    // too short, too long
    assert_eq!(parse(BarcodeFormat::CODE_39, "1M8GDM9AXKP04278"), None);
    assert_eq!(parse(BarcodeFormat::CODE_39, "1M8GDM9AXKP0427888"), None);
    // small letters
    assert_eq!(parse(BarcodeFormat::CODE_39, "1m8gdm9axkp042788"), None);
    assert_eq!(parse(BarcodeFormat::CODE_39, ""), None);
    // a valid checksum, but no model year: the tenth character is a zero
    assert_eq!(check_checksum("11111111100000000"), Ok(true));
    assert_eq!(parse(BarcodeFormat::CODE_39, "11111111100000000"), None);
    assert_eq!(parse_cleaned("11111111100000000"), None);
}

#[test]
fn country_without_a_code() {
    let vin = parse_cleaned("AAAAAAAA3AAAAAAAA");
    match vin {
        Some(v) => {
            assert_eq!(v.country_code, "");
            assert_eq!(v.model_year, 2010);
        }
        None => {
            // the checksum decides; make sure that it was the reason
            assert_ne!(check_checksum("AAAAAAAA3AAAAAAAA"), Ok(true));
        }
    }
}

#[test]
fn checksum_of_a_vin() {
    assert_eq!(check_checksum("1M8GDM9AXKP042788"), Ok(true));
    assert_eq!(check_checksum("1M8GDM9A1KP042788"), Ok(false));
    assert_eq!(
        check_checksum("1M8GDM9A"),
        Err(Exceptions::IllegalArgumentException)
    );
    assert_eq!(
        check_checksum("1M8GDM9AXKP0427888"),
        Err(Exceptions::IllegalArgumentException)
    );
    assert_eq!(
        check_checksum("1M8GDM9AXKP04278-"),
        Err(Exceptions::IllegalArgumentException)
    );
}

#[test]
fn values_of_characters() {
    assert_eq!(vin_char_value('A'), Ok(1));
    assert_eq!(vin_char_value('I'), Ok(9));
    assert_eq!(vin_char_value('J'), Ok(1));
    assert_eq!(vin_char_value('R'), Ok(9));
    assert_eq!(vin_char_value('S'), Ok(2));
    assert_eq!(vin_char_value('Z'), Ok(9));
    assert_eq!(vin_char_value('0'), Ok(0));
    assert_eq!(vin_char_value('9'), Ok(9));
    assert_eq!(vin_char_value('a'), Err(Exceptions::IllegalArgumentException));
    assert_eq!(vin_char_value('-'), Err(Exceptions::IllegalArgumentException));
}

#[test]
fn weights_of_positions() {
    assert_eq!(vin_position_weight(1), Ok(8));
    assert_eq!(vin_position_weight(7), Ok(2));
    assert_eq!(vin_position_weight(8), Ok(10));
    assert_eq!(vin_position_weight(9), Ok(0));
    assert_eq!(vin_position_weight(10), Ok(9));
    assert_eq!(vin_position_weight(17), Ok(2));
    assert_eq!(
        vin_position_weight(0),
        Err(Exceptions::IllegalArgumentException)
    );
    assert_eq!(
        vin_position_weight(18),
        Err(Exceptions::IllegalArgumentException)
    );
}

#[test]
fn check_characters() {
    assert_eq!(check_char(0), Ok('0'));
    assert_eq!(check_char(9), Ok('9'));
    assert_eq!(check_char(10), Ok('X'));
    assert_eq!(check_char(11), Err(Exceptions::IllegalArgumentException));
}

#[test]
fn model_years() {
    assert_eq!(model_year('E'), Ok(1984));
    assert_eq!(model_year('H'), Ok(1987));
    assert_eq!(model_year('J'), Ok(1988));
    assert_eq!(model_year('N'), Ok(1992));
    assert_eq!(model_year('P'), Ok(1993));
    assert_eq!(model_year('R'), Ok(1994));
    assert_eq!(model_year('T'), Ok(1996));
    assert_eq!(model_year('V'), Ok(1997));
    assert_eq!(model_year('Y'), Ok(2000));
    assert_eq!(model_year('1'), Ok(2001));
    assert_eq!(model_year('9'), Ok(2009));
    assert_eq!(model_year('A'), Ok(2010));
    assert_eq!(model_year('D'), Ok(2013));
    for c in ['0', 'I', 'O', 'Q', 'U', 'Z', 'a'] {
        assert_eq!(model_year(c), Err(Exceptions::IllegalArgumentException));
    }
}

#[test]
fn countries() {
    assert_eq!(country_code("1M8"), Some("US"));
    assert_eq!(country_code("2AA"), Some("CA"));
    assert_eq!(country_code("3AX"), Some("MX"));
    assert_eq!(country_code("3XA"), None);
    assert_eq!(country_code("93A"), Some("BR"));
    assert_eq!(country_code("JTA"), Some("JP"));
    assert_eq!(country_code("KMA"), Some("KO"));
    assert_eq!(country_code("LZZ"), Some("CN"));
    assert_eq!(country_code("MAA"), Some("IN"));
    assert_eq!(country_code("SAJ"), Some("UK"));
    assert_eq!(country_code("SNA"), Some("DE"));
    assert_eq!(country_code("VF1"), Some("FR"));
    assert_eq!(country_code("VSA"), Some("ES"));
    assert_eq!(country_code("WBA"), Some("DE"));
    assert_eq!(country_code("X3A"), Some("RU"));
    assert_eq!(country_code("X1A"), None);
    assert_eq!(country_code("ZFA"), Some("IT"));
    assert_eq!(country_code("AAA"), None);
    assert_eq!(country_code("1"), None);
}
