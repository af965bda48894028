use words2num::{words_to_number_concat, words_to_number_additive, replace_number_words,
    scan_and_replace};

#[test]
fn standalone_words_read_as_their_value() {
    assert_eq!(words_to_number_concat("seven"), Some(7));
    assert_eq!(words_to_number_concat("fifteen"), Some(15));
    assert_eq!(words_to_number_concat("forty"), Some(40));
    assert_eq!(words_to_number_concat("oh"), Some(0));
    assert_eq!(words_to_number_concat("zero"), Some(0));
}

#[test]
fn concatenative_digit_assembly() {
    assert_eq!(words_to_number_concat("twenty oh five"), Some(2005));
    assert_eq!(words_to_number_concat("twenty one"), Some(21));
    assert_eq!(words_to_number_concat("nineteen hundred"), Some(1900));
    assert_eq!(words_to_number_concat("four hundred sixty two"), Some(462));
}

#[test]
fn concatenative_is_not_arithmetic() {
    assert_eq!(words_to_number_concat("nine nine"), Some(99));
    assert_eq!(words_to_number_concat("twenty twenty"), Some(2020));
    assert_eq!(words_to_number_concat("hundred"), Some(100));
    assert_eq!(words_to_number_concat("thousand"), Some(1000));
}

#[test]
fn additive_true_arithmetic() {
    assert_eq!(words_to_number_additive("four hundred sixty two"), Some(462));
    assert_eq!(words_to_number_additive("twenty twenty"), Some(40));
    assert_eq!(words_to_number_additive("one million two hundred thousand"), Some(1_200_000));
    assert_eq!(words_to_number_additive("nine billion"), Some(9_000_000_000));
}

#[test]
fn hyphens_equal_spaces() {
    assert_eq!(words_to_number_concat("twenty-one"), words_to_number_concat("twenty one"));
    assert_eq!(words_to_number_concat("twenty-one"), Some(21));
    assert_eq!(words_to_number_additive("twenty-one"), words_to_number_additive("twenty one"));
    assert_eq!(words_to_number_additive("twenty-one"), Some(21));
}

#[test]
fn and_changes_nothing() {
    assert_eq!(words_to_number_additive("one hundred and one"), Some(101));
    assert_eq!(words_to_number_additive("one hundred one"), Some(101));
    assert_eq!(words_to_number_concat("one hundred and one"), Some(101));
    assert_eq!(words_to_number_concat("one hundred one"), Some(101));
}

#[test]
fn unknown_words_fail() {
    assert_eq!(words_to_number_concat("banana"), None);
    assert_eq!(words_to_number_additive("banana"), None);
    assert_eq!(words_to_number_concat("twenty banana"), None);
    assert_eq!(words_to_number_additive("twenty banana"), None);
}

#[test]
fn case_is_ignored() {
    assert_eq!(words_to_number_concat("TWENTY One"), Some(21));
    assert_eq!(words_to_number_additive("Four HUNDRED sixty TWO"), Some(462));
}

#[test]
fn empty_input_is_zero() {
    assert_eq!(words_to_number_concat(""), Some(0));
    assert_eq!(words_to_number_additive(""), Some(0));
}

#[test]
fn additive_trims_punctuation_concatenative_does_not() {
    assert_eq!(words_to_number_additive("four hundred, sixty two."), Some(462));
    assert_eq!(words_to_number_concat("four hundred, sixty two."), None);
}

#[test]
fn concatenative_fails_past_the_signed_64_bit_bound() {
    let twenty_nines = ["nine"; 20].join(" ");
    assert_eq!(words_to_number_concat(&twenty_nines), None);
    let eighteen_nines = ["nine"; 18].join(" ");
    assert_eq!(words_to_number_concat(&eighteen_nines), Some(999_999_999_999_999_999));
}

#[test]
fn replace_in_context() {
    assert_eq!(scan_and_replace("Chapter Twenty-One", None), "Chapter 21");
    assert_eq!(replace_number_words("Chapter Twenty-One", None), "Chapter 21");
    assert_eq!(replace_number_words("Hello world", None), "Hello world");
}

#[test]
fn replace_keeps_whole_input_quotes() {
    assert_eq!(scan_and_replace("\"four sixty seven\"", None), "\"467\"");
    assert_eq!(scan_and_replace("\"", None), "\"");
    assert_eq!(scan_and_replace("say \"one\" twice", None), "say \"1\" twice");
}

#[test]
fn replace_with_padding() {
    assert_eq!(replace_number_words("four sixty seven", Some(5)), "00467");
    assert_eq!(replace_number_words("Chapter Twenty-One", Some(4)), "Chapter 0021");
    assert_eq!(replace_number_words("Chapter Twenty-One", Some(1)), "Chapter 21");
}

#[test]
fn replace_multiplier_only_leads() {
    assert_eq!(replace_number_words("one hundred", None), "1 100");
    assert_eq!(replace_number_words("one hundred and one", None), "1 100 and 1");
}

#[test]
fn replace_respects_word_boundaries() {
    assert_eq!(replace_number_words("twenty1", None), "twenty1");
    assert_eq!(replace_number_words("atwenty", None), "atwenty");
    assert_eq!(replace_number_words("3 twenty", None), "3 20");
    assert_eq!(replace_number_words("twenty.one", None), "20.1");
}

#[test]
fn replace_strips_only_a_wrapping_quote_pair() {
    assert_eq!(scan_and_replace("\"four", None), "\"4");
    assert_eq!(scan_and_replace("four\"", None), "4\"");
    assert_eq!(scan_and_replace("\"\"one\"\"", None), "\"\"1\"\"");
}

#[test]
fn replace_keeps_a_phrase_the_interpreter_rejects() {
    let too_long = ["nine"; 20].join(" ");
    assert_eq!(replace_number_words(&too_long, None), too_long);
    assert_eq!(replace_number_words(&replace_number_words(&too_long, None), None), too_long);
}

#[test]
fn replace_is_idempotent_on_its_output() {
    let once = scan_and_replace("Chapter Twenty-One and more", None);
    assert_eq!(scan_and_replace(&once, None), once);
    let padded = replace_number_words("four sixty seven items", Some(6));
    assert_eq!(replace_number_words(&padded, Some(6)), padded);
    let quoted = scan_and_replace("\"four sixty seven\"", None);
    assert_eq!(scan_and_replace(&quoted, None), quoted);
}
