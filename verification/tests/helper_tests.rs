use ternary_tools::helper::{
    char_to_digit, code_to_i16, code_would_overflow, digit_to_char, i16_to_code, i16_to_trit,
    trit_to_i16, HALF_WORD,
};

#[test]
fn letters_read_as_sips() {
    assert_eq!(char_to_digit('.'), Some(0));
    assert_eq!(char_to_digit('a'), Some(1));
    assert_eq!(char_to_digit('m'), Some(13));
    assert_eq!(char_to_digit('n'), Some(-13));
    assert_eq!(char_to_digit('z'), Some(-1));
    assert_eq!(char_to_digit('A'), Some(1));
    assert_eq!(char_to_digit('M'), Some(13));
    assert_eq!(char_to_digit('N'), Some(-13));
    assert_eq!(char_to_digit('Z'), Some(-1));
    assert_eq!(char_to_digit('1'), None);
    assert_eq!(char_to_digit(' '), None);
    assert_eq!(char_to_digit('é'), None);
}

#[test]
fn sips_write_as_letters() {
    assert_eq!(digit_to_char(0), Some('.'));
    assert_eq!(digit_to_char(1), Some('a'));
    assert_eq!(digit_to_char(13), Some('m'));
    assert_eq!(digit_to_char(-13), Some('n'));
    assert_eq!(digit_to_char(-1), Some('z'));
    assert_eq!(digit_to_char(14), None);
    assert_eq!(digit_to_char(-14), None);
}

#[test]
fn letter_round_trip_on_every_sip() {
    for d in -13i16..=13 {
        let c = digit_to_char(d).unwrap();
        assert_eq!(char_to_digit(c), Some(d));
        assert_eq!(char_to_digit(c.to_ascii_uppercase()), Some(d));
    }
}

#[test]
fn words_write_as_three_letter_codes() {
    assert_eq!(i16_to_code(0), "...");
    assert_eq!(i16_to_code(1), "..a");
    assert_eq!(i16_to_code(-1), "..z");
    assert_eq!(i16_to_code(13), "..m");
    assert_eq!(i16_to_code(14), ".an");
    assert_eq!(i16_to_code(27), ".a.");
    assert_eq!(i16_to_code(9841), "mmm");
    assert_eq!(i16_to_code(-9841), "nnn");
}

#[test]
fn numbers_beyond_the_words_take_more_letters() {
    assert_eq!(i16_to_code(9842), "annn");
    assert_eq!(i16_to_code(-9842), "zmmm");
    assert_eq!(i16_to_code(i16::MAX).len(), 4);
    assert_eq!(i16_to_code(i16::MIN).len(), 4);
}

#[test]
fn codes_read_as_words() {
    assert_eq!(code_to_i16("mmm"), Ok(9841));
    assert_eq!(code_to_i16("MMM"), Ok(9841));
    assert_eq!(code_to_i16("nnn"), Ok(-9841));
    assert_eq!(code_to_i16(".an"), Ok(14));
    assert_eq!(code_to_i16("an"), Ok(14));
    assert_eq!(code_to_i16(""), Ok(0));
    assert_eq!(code_to_i16("..."), Ok(0));
}

#[test]
fn decimal_numbers_read_as_words() {
    assert_eq!(code_to_i16("5"), Ok(5));
    assert_eq!(code_to_i16("-7"), Ok(-7));
    assert_eq!(code_to_i16("+12"), Ok(12));
    assert_eq!(code_to_i16("9841"), Ok(9841));
}

#[test]
fn reading_reports_bad_tokens() {
    assert_eq!(code_to_i16("abc1"), Err("Invalid number: abc1".to_string()));
    assert_eq!(code_to_i16("-"), Err("Invalid number: -".to_string()));
    assert_eq!(code_to_i16("40000"), Err("Invalid number: 40000".to_string()));
    assert_eq!(code_to_i16("9842"), Err("Value out of word range: 9842".to_string()));
    assert_eq!(code_to_i16("-9842"), Err("Value out of word range: -9842".to_string()));
    assert_eq!(code_to_i16("annn"), Err("Value out of word range: 9842".to_string()));
    assert_eq!(code_to_i16("zzzz"), Err("Value out of word range: -20440".to_string()));
}

#[test]
fn long_letter_codes_overflow() {
    assert!(code_would_overflow("mmmm"));
    assert!(code_would_overflow("aaaaaaaa"));
    assert!(!code_would_overflow("zzzz"));
    assert!(!code_would_overflow("mmm"));
    assert!(!code_would_overflow("12345"));
}

#[test]
fn every_word_survives_a_code_round_trip() {
    for v in -HALF_WORD..=HALF_WORD {
        let code = i16_to_code(v);
        assert_eq!(code.len(), 3);
        assert!(!code_would_overflow(&code));
        assert_eq!(code_to_i16(&code), Ok(v));
    }
}

#[test]
fn numbers_write_as_trits() {
    assert_eq!(i16_to_trit(0), vec![0]);
    assert_eq!(i16_to_trit(1), vec![1]);
    assert_eq!(i16_to_trit(-1), vec![-1]);
    assert_eq!(i16_to_trit(2), vec![-1, 1]);
    assert_eq!(i16_to_trit(-2), vec![1, -1]);
    assert_eq!(i16_to_trit(5), vec![-1, -1, 1]);
    assert_eq!(i16_to_trit(9841), vec![1; 9]);
}

#[test]
fn trits_sum_to_numbers() {
    assert_eq!(trit_to_i16(&[0]), 0);
    assert_eq!(trit_to_i16(&[]), 0);
    assert_eq!(trit_to_i16(&[-1, -1, 1]), 5);
    assert_eq!(trit_to_i16(&[1, 1, 1, 1, 1, 1, 1, 1, 1]), 9841);
    assert_eq!(trit_to_i16(&[2, 0, 1]), 11);
}

#[test]
fn every_word_survives_a_trit_round_trip() {
    for n in -HALF_WORD..=HALF_WORD {
        let trits = i16_to_trit(n);
        assert!(trits.len() <= 9);
        assert!(trits.iter().all(|t| (-1..=1).contains(t)));
        assert_eq!(trit_to_i16(&trits), n);
    }
}

#[test]
fn every_three_letter_code_names_one_word() {
    let letters: Vec<char> = std::iter::once('.').chain('a'..='z').collect();
    let mut seen = std::collections::HashSet::new();
    for &x in &letters {
        for &y in &letters {
            for &z in &letters {
                let code: String = [x, y, z].iter().collect();
                let v = code_to_i16(&code).unwrap();
                assert!((-HALF_WORD..=HALF_WORD).contains(&v));
                assert_eq!(i16_to_code(v), code);
                assert!(seen.insert(v));
            }
        }
    }
    assert_eq!(seen.len(), 19683);
}
