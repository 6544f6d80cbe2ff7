use lesspass::{generate_password, CharRule, DerivationError, PasswordProfile};

fn profile(
    site: &str,
    login: &str,
    max_len: u8,
    counter: u64,
    char_rule: CharRule,
) -> PasswordProfile {
    PasswordProfile {
        site: site.to_string(),
        login: login.to_string(),
        max_len,
        counter,
        char_rule,
    }
}

fn is_lowercase(c: char) -> bool {
    ('a'..='z').contains(&c)
}

fn is_uppercase(c: char) -> bool {
    ('A'..='Z').contains(&c)
}

fn is_digit(c: char) -> bool {
    ('0'..='9').contains(&c)
}

fn is_symbol(c: char) -> bool {
    "!\"#$%&'()*+,-./:;<=>?@[\\]^_`{|}~".contains(c)
}

#[test]
pub fn test_all_letter() {
    let char_rule = CharRule::default();
    let site = "example.org".to_string();
    let login = "contact@example.org".to_string();

    let cases = vec![
        (site.clone(), login.clone(), 16, 1, char_rule),
        (
            site.clone(),
            login.clone(),
            14,
            2,
            char_rule.not_use_symbols(),
        ),
        (
            site.clone(),
            login.clone(),
            16,
            1,
            char_rule
                .not_use_lowercase()
                .not_use_uppercase()
                .not_use_symbols(),
        ),
        (
            site.clone(),
            login.clone(),
            16,
            1,
            char_rule.not_use_digits(),
        ),
    ];
    let expected = vec![
        "WHLpUL)e00[iHR+w",
        "MBAsB7b1Prt8Sl",
        "8742368585200667",
        "s>{F}RwkN/-fmM.X",
    ];

    let master_pass = "password";
    for (i, c) in cases.into_iter().enumerate() {
        let (site, login, max_len, counter, char_rule) = c;
        let profile = PasswordProfile {
            site,
            login,
            max_len,
            counter,
            char_rule,
        };
        let pass = generate_password(profile, master_pass.to_string()).unwrap();
        assert_eq!(&pass, expected[i]);
    }
}

#[test]
fn test_determinism() {
    let p1 = profile("example.org", "me@example.org", 20, 255, CharRule::new());
    let p2 = profile("example.org", "me@example.org", 20, 255, CharRule::new());
    let a = generate_password(p1, "secret".to_string()).unwrap();
    let b = generate_password(p2, "secret".to_string()).unwrap();
    assert_eq!(a, b);
}

#[test]
fn test_length_invariant() {
    for &len in &[4u8, 5, 16, 32, 255] {
        let rule = CharRule::new().not_use_symbols();
        let p = profile("example.org", "me", len, 1, rule);
        let pass = generate_password(p, "secret".to_string()).unwrap();
        assert_eq!(pass.chars().count(), len as usize);
    }
    let p = profile("example.org", "me", 5, 1, CharRule::new());
    let pass = generate_password(p, "secret".to_string()).unwrap();
    assert_eq!(pass.chars().count(), 5);
}

#[test]
fn test_class_coverage() {
    let p = profile("example.org", "me", 16, 1, CharRule::new());
    let pass = generate_password(p, "secret".to_string()).unwrap();
    assert!(pass.chars().any(is_lowercase));
    assert!(pass.chars().any(is_uppercase));
    assert!(pass.chars().any(is_digit));
    assert!(pass.chars().any(is_symbol));

    let p = profile("example.org", "me", 16, 1, CharRule::new().not_use_digits());
    let pass = generate_password(p, "secret".to_string()).unwrap();
    assert!(pass.chars().any(is_lowercase));
    assert!(pass.chars().any(is_uppercase));
    assert!(!pass.chars().any(is_digit));
    assert!(pass.chars().any(is_symbol));
}

#[test]
fn test_alphabet_closure() {
    let p = profile("example.org", "me", 40, 3, CharRule::new());
    let pass = generate_password(p, "secret".to_string()).unwrap();
    for c in pass.chars() {
        assert!(is_lowercase(c) || is_uppercase(c) || is_digit(c) || is_symbol(c));
    }
    let rule = CharRule::new().not_use_lowercase().not_use_symbols();
    let p = profile("example.org", "me", 40, 3, rule);
    let pass = generate_password(p, "secret".to_string()).unwrap();
    for c in pass.chars() {
        assert!(is_uppercase(c) || is_digit(c));
    }
}

#[test]
fn test_counter_sensitivity() {
    let a = generate_password(
        profile("example.org", "me", 16, 1, CharRule::new()),
        "secret".to_string(),
    )
    .unwrap();
    let b = generate_password(
        profile("example.org", "me", 16, 2, CharRule::new()),
        "secret".to_string(),
    )
    .unwrap();
    assert_ne!(a, b);
}

#[test]
fn test_secret_sensitivity() {
    let a = generate_password(
        profile("example.org", "me", 16, 1, CharRule::new()),
        "secret".to_string(),
    )
    .unwrap();
    let b = generate_password(
        profile("example.org", "me", 16, 1, CharRule::new()),
        "secred".to_string(),
    )
    .unwrap();
    assert_ne!(a, b);
}

#[test]
fn test_contract_rejection_short_length() {
    let p = profile("example.org", "me", 3, 1, CharRule::new());
    let r = generate_password(p, "secret".to_string());
    assert_eq!(r, Err(DerivationError::ContractViolation));
}

#[test]
fn test_contract_rejection_no_classes() {
    let rule = CharRule::new()
        .not_use_lowercase()
        .not_use_uppercase()
        .not_use_digits()
        .not_use_symbols();
    let p = profile("example.org", "me", 16, 1, rule);
    let r = generate_password(p, "secret".to_string());
    assert_eq!(r, Err(DerivationError::ContractViolation));
}

#[test]
fn test_contract_rejection_no_free_characters() {
    // All four classes enabled and length four: the scatter step would have
    // no free character to insert around, so the request is rejected.
    let p = profile("example.org", "me", 4, 1, CharRule::new());
    let r = generate_password(p, "secret".to_string());
    assert_eq!(r, Err(DerivationError::ContractViolation));
}

#[test]
fn test_char_rule_toggles() {
    let rule = CharRule::new();
    assert_eq!(rule.0, 0b1111);
    assert_eq!(CharRule::default().0, 0b1111);
    assert_eq!(rule.not_use_lowercase().0, 0b1110);
    assert_eq!(rule.not_use_uppercase().0, 0b1101);
    assert_eq!(rule.not_use_digits().0, 0b1011);
    assert_eq!(rule.not_use_symbols().0, 0b0111);
    // Toggling the same class twice restores the policy.
    assert_eq!(rule.not_use_digits().not_use_digits().0, 0b1111);
}

#[test]
fn test_empty_site_login_and_secret_are_valid() {
    let p = profile("", "", 12, 1, CharRule::new());
    let pass = generate_password(p, "".to_string()).unwrap();
    assert_eq!(pass.chars().count(), 12);
}
