use classic_ciphers::alphabet::{validate_key, validate_text, AlphabetVariant};
use classic_ciphers::codec::{decrypt_playfair, encrypt_playfair};
use classic_ciphers::matrix::{create_matrix, find_position, remove_duplicates, CipherError};

fn monarchy_matrix() -> Vec<Vec<char>> {
    create_matrix("MONARCHY", AlphabetVariant::Standard).unwrap()
}

#[test]
fn monarchy_grid_layout() {
    let m = monarchy_matrix();
    assert_eq!(
        m,
        vec![
            vec!['M', 'O', 'N', 'A', 'R'],
            vec!['C', 'H', 'Y', 'B', 'D'],
            vec!['E', 'F', 'G', 'I', 'K'],
            vec!['L', 'P', 'Q', 'S', 'T'],
            vec!['U', 'V', 'W', 'X', 'Z'],
        ]
    );
}

#[test]
fn matrix_construction_is_deterministic() {
    let a = create_matrix("MONARCHY", AlphabetVariant::Standard).unwrap();
    let b = create_matrix("MONARCHY", AlphabetVariant::Standard).unwrap();
    assert_eq!(a, b);
}

#[test]
fn matrix_holds_every_symbol_once() {
    let m = monarchy_matrix();
    let mut cells: Vec<char> = m.iter().flatten().copied().collect();
    cells.sort();
    let mut expected: Vec<char> = "ABCDEFGHIKLMNOPQRSTUVWXYZ".chars().collect();
    expected.sort();
    assert_eq!(cells, expected);
}

#[test]
fn short_keyword_rejected() {
    let r = create_matrix("AB", AlphabetVariant::Standard);
    assert_eq!(r.unwrap_err(), CipherError::InvalidKeyword);
}

#[test]
fn keyword_with_digit_rejected() {
    let r = create_matrix("MONARCH1", AlphabetVariant::Standard);
    assert_eq!(r.unwrap_err(), CipherError::InvalidKeyword);
}

#[test]
fn lowercase_keyword_accepted() {
    let m = create_matrix("monarchy", AlphabetVariant::Standard).unwrap();
    assert_eq!(m, monarchy_matrix());
}

#[test]
fn odd_message_padded_to_three_bigrams() {
    let m = monarchy_matrix();
    let c = encrypt_playfair(&m, "HELLO");
    assert_eq!(c.chars().count(), 6);
    assert_eq!(c, "CFPPAV");
}

#[test]
fn encryption_is_case_insensitive() {
    let m = monarchy_matrix();
    assert_eq!(encrypt_playfair(&m, "hello"), "CFPPAV");
}

#[test]
fn decryption_round_trip() {
    let m = monarchy_matrix();
    let back = decrypt_playfair(&m, "CFPPAV").unwrap();
    assert_eq!(back, "HELLOX");
}

#[test]
fn j_merges_into_i() {
    let m = monarchy_matrix();
    let c = encrypt_playfair(&m, "JAZZ");
    assert_eq!(c, "SBUU");
    assert_eq!(decrypt_playfair(&m, &c).unwrap(), "IAZZ");
}

#[test]
fn odd_ciphertext_rejected() {
    let m = monarchy_matrix();
    assert_eq!(
        decrypt_playfair(&m, "CFP").unwrap_err(),
        CipherError::InvalidMessage
    );
}

#[test]
fn unknown_symbol_passes_through() {
    let m = monarchy_matrix();
    assert_eq!(encrypt_playfair(&m, "A1"), "A1");
    assert_eq!(decrypt_playfair(&m, "A1").unwrap(), "A1");
}

#[test]
fn find_position_locates_symbols() {
    let m = monarchy_matrix();
    assert_eq!(find_position(&m, 'M'), Some((0, 0)));
    assert_eq!(find_position(&m, 'Z'), Some((4, 4)));
    assert_eq!(find_position(&m, 'S'), Some((3, 3)));
    assert_eq!(find_position(&m, 'J'), None);
    assert_eq!(find_position(&m, '7'), None);
}

#[test]
fn remove_duplicates_keeps_first_occurrences() {
    assert_eq!(remove_duplicates("MONARCHY"), "MONARCHY");
    assert_eq!(remove_duplicates("BALLOON"), "BALON");
    assert_eq!(remove_duplicates(""), "");
}

#[test]
fn validation_rules() {
    assert!(validate_key("MONARCHY", AlphabetVariant::Standard));
    assert!(!validate_key("AB", AlphabetVariant::Standard));
    assert!(!validate_key("MONARCH1", AlphabetVariant::Standard));
    assert!(validate_text("HELLO", AlphabetVariant::Standard));
    assert!(validate_text("", AlphabetVariant::Standard));
    assert!(!validate_text("HELLO WORLD", AlphabetVariant::Standard));
    // Romanian letters belong only to the extended variant's class.
    assert!(!validate_text("\u{103}", AlphabetVariant::Standard));
    assert!(validate_text("\u{103}", AlphabetVariant::RomanianExtended));
}

#[test]
fn romanian_grid_layout() {
    let m = create_matrix("BUCURE\u{218}TI", AlphabetVariant::RomanianExtended).unwrap();
    assert_eq!(m.len(), 6);
    assert_eq!(m[0], vec!['B', 'U', 'C', 'R', 'E']);
    assert_eq!(m[1], vec!['\u{218}', 'T', 'I', 'A', 'D']);
    assert_eq!(
        m[5],
        vec!['Z', '\u{102}', '\u{c2}', '\u{ce}', '\u{21a}']
    );
}

#[test]
fn romanian_round_trip() {
    let m = create_matrix("BUCURE\u{218}TI", AlphabetVariant::RomanianExtended).unwrap();
    let c = encrypt_playfair(&m, "salutare");
    assert_eq!(c, "X\u{218}GEIDEB");
    assert_eq!(decrypt_playfair(&m, &c).unwrap(), "SALUTARE");
}

#[test]
fn romanian_diacritics_encode() {
    let m = create_matrix("BUCURE\u{218}TI", AlphabetVariant::RomanianExtended).unwrap();
    let c = encrypt_playfair(&m, "\u{103}\u{e2}\u{ee}\u{219}\u{21b}A");
    assert_eq!(c, "\u{c2}\u{ce}ZA\u{ce}D");
    assert_eq!(
        decrypt_playfair(&m, &c).unwrap(),
        "\u{102}\u{c2}\u{ce}\u{218}\u{21a}A"
    );
}
