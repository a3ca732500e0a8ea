use word_frequency::validate::{
    input_path_is_file, read_u32, validate_input_dir, validate_language_code,
    validate_minimum_word_length, validate_number_of_words, validate_pieces,
};

fn error(text: &str) -> Result<(), String> {
    Err(text.to_string())
}

#[test]
fn read_u32_reads_what_parse_reads() {
    for sample in ["", "0", "12", "+12", "-12", "4294967295", "4294967296", "1e3", " 1"].iter() {
        assert_eq!(read_u32(sample), sample.parse::<u32>().ok(), "sample {:?}", sample);
    }
}

#[test]
fn pieces_are_from_one_to_1024() {
    assert_eq!(validate_pieces("1".to_string()), Ok(()));
    assert_eq!(validate_pieces("12".to_string()), Ok(()));
    assert_eq!(validate_pieces("1024".to_string()), Ok(()));
    assert_eq!(validate_pieces("0".to_string()), error("Pieces cannot be 0."));
    assert_eq!(validate_pieces("000".to_string()), error("Pieces cannot be 0."));
    assert_eq!(
        validate_pieces("1025".to_string()),
        error("Pieces too large, must be smaller than 1024.")
    );
    assert_eq!(
        validate_pieces("4294967295".to_string()),
        error("Pieces too large, must be smaller than 1024.")
    );
    assert_eq!(validate_pieces("4294967296".to_string()), error("Pieces is not a valid integer."));
    assert_eq!(validate_pieces("twelve".to_string()), error("Pieces is not a valid integer."));
    assert_eq!(validate_pieces("-1".to_string()), error("Pieces is not a valid integer."));
    assert_eq!(validate_pieces("".to_string()), error("Pieces is not a valid integer."));
}

#[test]
fn number_of_words_is_from_one_to_100000() {
    assert_eq!(validate_number_of_words("1".to_string()), Ok(()));
    assert_eq!(validate_number_of_words("10000".to_string()), Ok(()));
    assert_eq!(validate_number_of_words("100000".to_string()), Ok(()));
    assert_eq!(validate_number_of_words("0".to_string()), error("Number of words cannot be 0."));
    assert_eq!(
        validate_number_of_words("100001".to_string()),
        error("Number of words too large, must be smaller than 100,000.")
    );
    assert_eq!(
        validate_number_of_words("many".to_string()),
        error("Pieces is not a valid integer.")
    );
}

#[test]
fn minimum_word_length_is_one_or_more() {
    assert_eq!(validate_minimum_word_length("3".to_string()), Ok(()));
    assert_eq!(validate_minimum_word_length("4294967295".to_string()), Ok(()));
    assert_eq!(
        validate_minimum_word_length("0".to_string()),
        error("Minimum word length cannot be 0.")
    );
    assert_eq!(
        validate_minimum_word_length("3.5".to_string()),
        error("Pieces is not a valid integer.")
    );
    assert_eq!(
        validate_minimum_word_length("4294967296".to_string()),
        error("Pieces is not a valid integer.")
    );
}

#[test]
fn paths_are_judged_by_what_they_name() {
    assert_eq!(input_path_is_file(true), Ok(()));
    assert_eq!(
        input_path_is_file(false),
        error("Input filepath does not exist or isn't a file.")
    );
    assert_eq!(validate_input_dir(true), Ok(()));
    assert_eq!(
        validate_input_dir(false),
        error("Input path doesn't exist or isn't a directory.")
    );
}

#[test]
fn language_code_is_en_or_pl() {
    assert_eq!(validate_language_code("en".to_string()), Ok(()));
    assert_eq!(validate_language_code("pl".to_string()), Ok(()));
    for code in ["de", "EN", "", "en ", "english"].iter() {
        assert_eq!(
            validate_language_code(code.to_string()),
            error("Unsupported dictionary language code. Currently support ['en', 'pl']")
        );
    }
}
