use rxing::common::CharacterSetECI;
use rxing::Exceptions;

#[test]
fn values_of_character_sets() {
    assert_eq!(CharacterSetECI::getValue(&CharacterSetECI::Cp437), 0);
    assert_eq!(CharacterSetECI::getValue(&CharacterSetECI::ISO8859_1), 1);
    assert_eq!(CharacterSetECI::getValue(&CharacterSetECI::ISO8859_2), 4);
    assert_eq!(CharacterSetECI::getValue(&CharacterSetECI::ISO8859_11), 13);
    assert_eq!(CharacterSetECI::getValue(&CharacterSetECI::ISO8859_13), 15);
    assert_eq!(CharacterSetECI::getValue(&CharacterSetECI::ISO8859_16), 18);
    assert_eq!(CharacterSetECI::getValue(&CharacterSetECI::SJIS), 20);
    assert_eq!(CharacterSetECI::getValue(&CharacterSetECI::Cp1250), 21);
    assert_eq!(CharacterSetECI::getValue(&CharacterSetECI::Cp1256), 24);
    assert_eq!(CharacterSetECI::getValue(&CharacterSetECI::UnicodeBigUnmarked), 25);
    assert_eq!(CharacterSetECI::getValue(&CharacterSetECI::UTF8), 26);
    assert_eq!(CharacterSetECI::getValue(&CharacterSetECI::ASCII), 27);
    assert_eq!(CharacterSetECI::getValue(&CharacterSetECI::Big5), 28);
    assert_eq!(CharacterSetECI::getValue(&CharacterSetECI::GB18030), 29);
    assert_eq!(CharacterSetECI::getValue(&CharacterSetECI::EUC_KR), 30);
    assert_eq!(CharacterSetECI::UTF8.getValueSelf(), 26);
}

#[test]
fn recognized_values_round_trip() {
    let mut recognized = 0;
    for v in 0..1000u32 {
        match CharacterSetECI::getCharacterSetECIByValue(v) {
            Ok(cs) => {
                recognized += 1;
                if v == 2 || v == 3 || v == 170 {
                    assert_ne!(CharacterSetECI::getValue(&cs), v);
                } else {
                    assert_eq!(CharacterSetECI::getValue(&cs), v);
                }
            }
            Err(e) => assert_eq!(e, Exceptions::NotFoundException),
        }
    }
    assert_eq!(recognized, 30);
}

#[test]
fn second_designations() {
    assert_eq!(
        CharacterSetECI::getCharacterSetECIByValue(2),
        Ok(CharacterSetECI::Cp437)
    );
    assert_eq!(
        CharacterSetECI::getCharacterSetECIByValue(3),
        Ok(CharacterSetECI::ISO8859_1)
    );
    assert_eq!(
        CharacterSetECI::getCharacterSetECIByValue(170),
        Ok(CharacterSetECI::ASCII)
    );
}

#[test]
fn unknown_values_are_not_found() {
    for v in [14u32, 19, 31, 169, 171, 899, u32::MAX] {
        assert_eq!(
            CharacterSetECI::getCharacterSetECIByValue(v),
            Err(Exceptions::NotFoundException)
        );
    }
}

#[test]
fn every_set_is_designated_by_its_value() {
    for i in 0..27 {
        let cs = CharacterSetECI::entry(i);
        assert_eq!(
            CharacterSetECI::getCharacterSetECIByValue(cs.getValueSelf()),
            Ok(cs)
        );
        assert_eq!(
            CharacterSetECI::getCharacterSetECIByName(CharacterSetECI::getCharset(&cs)),
            Some(cs)
        );
        assert_eq!(
            CharacterSetECI::getCharacterSetECI(CharacterSetECI::getEncodingName(&cs)),
            Some(cs)
        );
    }
}

#[test]
fn character_sets_by_name() {
    assert_eq!(
        CharacterSetECI::getCharacterSetECIByName("UTF-8"),
        Some(CharacterSetECI::UTF8)
    );
    assert_eq!(
        CharacterSetECI::getCharacterSetECIByName("Shift_JIS"),
        Some(CharacterSetECI::SJIS)
    );
    assert_eq!(
        CharacterSetECI::getCharacterSetECIByName("GB2312"),
        Some(CharacterSetECI::GB18030)
    );
    assert_eq!(CharacterSetECI::getCharacterSetECIByName("utf-8"), None);
    assert_eq!(CharacterSetECI::getCharacterSetECIByName("IBM437"), None);
    assert_eq!(CharacterSetECI::getCharacterSetECIByName(""), None);
    assert_eq!(CharacterSetECI::getCharacterSetECIByName("UTF-88"), None);
}

#[test]
fn character_sets_by_encoding_name() {
    assert_eq!(
        CharacterSetECI::getCharacterSetECI("iso-8859-1"),
        Some(CharacterSetECI::ISO8859_1)
    );
    assert_eq!(
        CharacterSetECI::getCharacterSetECI("utf-16be"),
        Some(CharacterSetECI::UnicodeBigUnmarked)
    );
    assert_eq!(CharacterSetECI::getCharacterSetECI("ISO-8859-1"), None);
    assert_eq!(CharacterSetECI::getCharacterSetECI("windows-31j"), None);
}
