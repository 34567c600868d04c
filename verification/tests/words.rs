use toolbox::file_organizer::{plan_organization, FileOrganizer};
use toolbox::palindrome::{
    clean, is_palindrome_iterator, is_palindrome_optimized, is_palindrome_simple, reads_both_ways,
    reversed, same_chars,
};
use toolbox::password_generator::{
    contains_char, password_from, PasswordConfig, PasswordError, PasswordGenerator,
};
use toolbox::calculator::{tokenize, Calculator, Token, TokenError};
use toolbox::prime_number::{generate_primes_sieve, is_prime_basic, is_prime_sqrt, prime_factors};
use toolbox::word_frequency::WordFrequencyAnalyzer;

#[test]
fn palindromes_are_recognized_three_ways() {
    let palindromes = [
        "racecar",
        "A man, a plan, a canal: Panama",
        "Madam",
        "Was it a car or a cat I saw?",
        "No 'x' in Nixon",
        "",
        "!!",
        "a",
        "été",
    ];
    let others = ["race a car", "hello", "ab", "Été", "Ésope reste ici et se repose"];
    for text in palindromes {
        assert!(is_palindrome_simple(text), "{}", text);
        assert!(is_palindrome_optimized(text), "{}", text);
        assert!(is_palindrome_iterator(text), "{}", text);
    }
    for text in others {
        assert!(!is_palindrome_simple(text), "{}", text);
        assert!(!is_palindrome_optimized(text), "{}", text);
        assert!(!is_palindrome_iterator(text), "{}", text);
    }
}

#[test]
fn cleaning_keeps_letters_and_digits() {
    assert_eq!(clean("A-b_C 1!é"), vec!['a', 'b', 'c', '1', 'é']);
    assert_eq!(clean(" ., "), Vec::<char>::new());
    assert_eq!(reversed(&vec!['a', 'b', 'c']), vec!['c', 'b', 'a']);
    assert!(same_chars(&vec!['a'], &vec!['a']));
    assert!(!same_chars(&vec!['a'], &vec!['a', 'b']));
    assert!(!same_chars(&vec!['a', 'c'], &vec!['a', 'b']));
    assert!(reads_both_ways(&vec!['a', 'b', 'a']));
    assert!(!reads_both_ways(&vec!['a', 'b']));
}

#[test]
fn primes_are_recognized() {
    let primes = [2u64, 3, 5, 7, 11, 13, 97, 7919, 2147483647, 18446744073709551557];
    let others = [0u64, 1, 4, 9, 15, 25, 35, 49, 91, 7917, 2147483649, 18446744073709551615];
    for n in primes {
        assert!(is_prime_basic(n), "{}", n);
    }
    for n in others {
        assert!(!is_prime_basic(n), "{}", n);
    }
    for n in 0..2000u64 {
        assert_eq!(is_prime_basic(n), is_prime_sqrt(n), "{}", n);
    }
    assert!(is_prime_sqrt(2147483647));
    assert!(!is_prime_sqrt(2147483649));
}

#[test]
fn sieve_lists_the_primes() {
    assert_eq!(generate_primes_sieve(0), Vec::<u64>::new());
    assert_eq!(generate_primes_sieve(1), Vec::<u64>::new());
    assert_eq!(generate_primes_sieve(2), vec![2]);
    assert_eq!(generate_primes_sieve(30), vec![2, 3, 5, 7, 11, 13, 17, 19, 23, 29]);
    assert_eq!(generate_primes_sieve(100).len(), 25);
    let thousand = generate_primes_sieve(1000);
    assert_eq!(thousand.len(), 168);
    assert!(thousand.iter().all(|p| is_prime_basic(*p)));
    assert_eq!(generate_primes_sieve(49).last(), Some(&47));
}

#[test]
fn default_password_settings() {
    let config = PasswordConfig::default();
    assert_eq!(config.length, 12);
    assert!(config.include_lowercase && config.include_uppercase && config.include_numbers);
    assert!(!config.include_symbols && !config.exclude_ambiguous);
    let generator = PasswordGenerator::new();
    assert_eq!(generator.lowercase, "abcdefghijklmnopqrstuvwxyz");
    assert_eq!(generator.symbols, "!@#$%^&*()_+-=[]{}|;:,.<>?");
    assert_eq!(generator.ambiguous, "0O1lI");
}

#[test]
fn charset_follows_the_settings() {
    let generator = PasswordGenerator::new();
    let mut config = PasswordConfig::default();
    assert_eq!(
        generator.build_charset(&config),
        "abcdefghijklmnopqrstuvwxyzABCDEFGHIJKLMNOPQRSTUVWXYZ0123456789"
    );
    config.exclude_ambiguous = true;
    assert_eq!(
        generator.build_charset(&config),
        "abcdefghijkmnopqrstuvwxyzABCDEFGHJKLMNPQRSTUVWXYZ23456789"
    );
    config.include_lowercase = false;
    config.include_uppercase = false;
    config.include_symbols = true;
    assert_eq!(generator.build_charset(&config), "23456789!@#$%^&*()_+-=[]{}|;:,.<>?");
    config.include_numbers = false;
    config.include_symbols = false;
    assert_eq!(generator.build_charset(&config), "");
    assert_eq!(generator.generate_password(&config), Err(PasswordError::NoCharacterTypes));
}

#[test]
fn passwords_are_drawn_from_the_charset() {
    let generator = PasswordGenerator::new();
    let mut config = PasswordConfig::default();
    config.length = 200;
    config.include_lowercase = false;
    config.include_uppercase = false;
    let password = generator.generate_password(&config).unwrap();
    assert_eq!(password.chars().count(), 200);
    assert!(password.chars().all(|c| c.is_ascii_digit()));
    assert!(password.chars().any(|c| c != password.chars().next().unwrap()));
    config.length = 0;
    assert_eq!(generator.generate_password(&config), Ok(String::new()));
    assert_eq!(password_from(&vec!['x', 'y', 'z'], &vec![2, 0, 0, 1]), "zxxy");
    assert!(contains_char(&vec!['x', 'y'], 'y'));
    assert!(!contains_char(&vec!['x', 'y'], 'z'));
}

#[test]
fn charset_size_counts_the_classes() {
    let generator = PasswordGenerator::new();
    assert_eq!(generator.charset_size(""), 0);
    assert_eq!(generator.charset_size("abc"), 26);
    assert_eq!(generator.charset_size("abC"), 52);
    assert_eq!(generator.charset_size("a1"), 36);
    assert_eq!(generator.charset_size("aB1!"), 94);
    assert_eq!(generator.charset_size("aa!!bb??"), 58);
    assert_eq!(generator.charset_size("é"), 0);
    assert_eq!(generator.charset_size("é "), 32);
}

#[test]
fn file_categories() {
    let organizer = FileOrganizer::new("in", "out");
    assert_eq!(organizer.source_dir, "in");
    assert_eq!(organizer.target_dir, "out");
    assert_eq!(organizer.file_types.len(), 30);
    assert_eq!(organizer.get_file_category("txt"), "Documents");
    assert_eq!(organizer.get_file_category("JPG"), "Images");
    assert_eq!(organizer.get_file_category("Flac"), "Audio");
    assert_eq!(organizer.get_file_category("mkv"), "Videos");
    assert_eq!(organizer.get_file_category("7z"), "Archives");
    assert_eq!(organizer.get_file_category("dmg"), "Programs");
    assert_eq!(organizer.get_file_category("rs"), "Others");
    assert_eq!(organizer.get_file_category(""), "Others");
    assert_eq!(organizer.category_of_lowercase("JPG"), "Others");
    assert_eq!(organizer.type_index("doc"), 1);
    let mut custom = FileOrganizer::new("a", "b");
    custom.set_category("rs", "Code");
    custom.set_category("txt", "Notes");
    assert_eq!(custom.file_types.len(), 31);
    assert_eq!(custom.get_file_category("RS"), "Code");
    assert_eq!(custom.get_file_category("txt"), "Notes");
}

#[test]
fn files_are_grouped_by_category() {
    let categories: Vec<String> =
        ["Images", "Others", "Images", "Audio", "Others"].iter().map(|s| s.to_string()).collect();
    let plan = plan_organization(&categories);
    assert_eq!(
        plan,
        vec![
            ("Images".to_string(), vec![0, 2]),
            ("Others".to_string(), vec![1, 4]),
            ("Audio".to_string(), vec![3])
        ]
    );
    assert!(plan_organization(&Vec::new()).is_empty());
}

#[test]
fn words_are_counted_in_lower_case() {
    let mut analyzer = WordFrequencyAnalyzer::new();
    assert_eq!(analyzer.get_unique_words(), 0);
    analyzer.analyze_text("The cat and the hat. The END, the end!  42 -- x2y");
    assert_eq!(analyzer.get_total_words(), 10);
    assert_eq!(analyzer.get_unique_words(), 6);
    assert_eq!(analyzer.get_word_frequency("the"), 4);
    assert_eq!(analyzer.get_word_frequency("THE"), 4);
    assert_eq!(analyzer.get_word_frequency("end"), 2);
    assert_eq!(analyzer.get_word_frequency("xy"), 1);
    assert_eq!(analyzer.get_word_frequency("dog"), 0);
    assert_eq!(analyzer.frequency_of_lowercase("THE"), 0);
    assert_eq!(
        analyzer.get_most_frequent(3),
        vec![("the".to_string(), 4), ("end".to_string(), 2), ("cat".to_string(), 1)]
    );
    assert_eq!(analyzer.get_most_frequent(0), vec![]);
    assert_eq!(analyzer.get_most_frequent(100).len(), 6);
    assert_eq!(analyzer.get_words_with_frequency(1), vec!["cat", "and", "hat", "xy"]);
    assert_eq!(analyzer.get_words_with_frequency(3), Vec::<String>::new());
    assert!(analyzer.try_analyze_text("cat"));
    assert_eq!(analyzer.get_word_frequency("cat"), 2);
    analyzer.count_word("dog".to_string());
    analyzer.analyze_lowercase("dog Dog");
    assert_eq!(analyzer.get_word_frequency("dog"), 2);
    assert_eq!(analyzer.get_word_frequency("Dog"), 2);
    assert_eq!(analyzer.frequency_of_lowercase("Dog"), 1);
    assert_eq!(analyzer.get_total_words(), 14);
}

#[test]
fn numbers_come_apart_into_primes() {
    assert_eq!(prime_factors(1), Vec::<u64>::new());
    assert_eq!(prime_factors(2), vec![2]);
    assert_eq!(prime_factors(12), vec![2, 2, 3]);
    assert_eq!(prime_factors(97), vec![97]);
    assert_eq!(prime_factors(360), vec![2, 2, 2, 3, 3, 5]);
    assert_eq!(prime_factors(1_000_000_007 * 2), vec![2, 1_000_000_007]);
    assert_eq!(prime_factors(u64::MAX), vec![3, 5, 17, 257, 641, 65537, 6700417]);
}

#[test]
fn frequencies_are_distributed() {
    let mut analyzer = WordFrequencyAnalyzer::new();
    assert_eq!(analyzer.frequency_distribution(), vec![]);
    analyzer.analyze_text("a b b c c c d d d e");
    assert_eq!(analyzer.frequency_distribution(), vec![(3, 2), (2, 1), (1, 2)]);
}

#[test]
fn expressions_come_apart_into_tokens() {
    assert_eq!(tokenize(""), Ok(vec![Token::End]));
    assert_eq!(
        tokenize(" 12.5 +\t(3*-4)/ .5"),
        Ok(vec![
            Token::Number("12.5".to_string()),
            Token::Plus,
            Token::LeftParen,
            Token::Number("3".to_string()),
            Token::Multiply,
            Token::Minus,
            Token::Number("4".to_string()),
            Token::RightParen,
            Token::Divide,
            Token::Number(".5".to_string()),
            Token::End,
        ])
    );
    assert_eq!(tokenize("7."), Ok(vec![Token::Number("7.".to_string()), Token::End]));
    assert_eq!(tokenize("1.2.3"), Err(TokenError::InvalidNumber("1.2.3".to_string())));
    assert_eq!(tokenize("2 + ."), Err(TokenError::InvalidNumber(".".to_string())));
    assert_eq!(tokenize("2 x 3"), Err(TokenError::UnexpectedCharacter('x')));
    assert_eq!(tokenize("1\n"), Err(TokenError::UnexpectedCharacter('\n')));
    for text in ["12.5", ".5", "7.", "007"] {
        assert!(text.parse::<f64>().is_ok());
    }
    for text in ["1.2.3", ".", ".."] {
        assert!(text.parse::<f64>().is_err());
    }
    let mut calculator = Calculator::new("1+2").unwrap();
    assert_eq!(calculator.current_token(), &Token::Number("1".to_string()));
    calculator.advance();
    assert_eq!(calculator.current_token(), &Token::Plus);
    calculator.advance();
    calculator.advance();
    assert_eq!(calculator.current_token(), &Token::End);
    calculator.advance();
    assert_eq!(calculator.position, 3);
    calculator.position = 9;
    assert_eq!(calculator.current_token(), &Token::End);
    assert!(Calculator::new("1 ? 2").is_err());
}
