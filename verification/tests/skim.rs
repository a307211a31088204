use fuzzy_matcher::SkimMatcher;
use fuzzy_matcher::SkimMatcherV2;
use fuzzy_matcher::SkimScoreConfig;
use fuzzy_matcher::cheap_matches;
use fuzzy_matcher::fuzzy_indices;
use fuzzy_matcher::fuzzy_match;

fn wrap_matches(line: &str, indices: &[usize]) -> String {
    let mut ret = String::new();
    let mut indices_iter = indices.iter().peekable();
    for (idx, ch) in line.chars().enumerate() {
        let mut matched = false;
        if let Some(&&next) = indices_iter.peek() {
            if next == idx {
                matched = true;
                let _ = indices_iter.next();
            }
        }
        if matched {
            ret.push('[');
            ret.push(ch);
            ret.push(']');
        } else {
            ret.push(ch);
        }
    }
    ret
}

fn assert_order<F: Fn(&str, &str) -> Option<i64>>(f: F, pattern: &str, choices: &[&str]) {
    let mut scored: Vec<(i64, &str)> = choices
        .iter()
        .filter_map(|&c| f(c, pattern).map(|s| (s, c)))
        .collect();
    scored.sort_by_key(|&(s, _)| std::cmp::Reverse(s));
    let result: Vec<&str> = scored.iter().map(|&(_, c)| c).collect();
    assert_eq!(result, choices, "order for pattern {:?}: {:?}", pattern, scored);
}

fn wrap_fuzzy_match_v1(line: &str, pattern: &str) -> Option<String> {
    let (_score, indices) = fuzzy_indices(line, pattern)?;
    Some(wrap_matches(line, &indices))
}

fn wrap_fuzzy_match_v2(matcher: &SkimMatcherV2, line: &str, pattern: &str) -> Option<String> {
    let (_score, indices) = matcher.fuzzy_indices(line, pattern)?;
    Some(wrap_matches(line, &indices))
}

#[test]
fn test_match_or_not() {
    let matcher = SkimMatcher::default();
    assert_eq!(Some(0), matcher.fuzzy_match("", ""));
    assert_eq!(Some(0), matcher.fuzzy_match("abcdefaghi", ""));
    assert_eq!(None, matcher.fuzzy_match("", "a"));
    assert_eq!(None, matcher.fuzzy_match("abcdefaghi", "中"));
    assert_eq!(None, matcher.fuzzy_match("abc", "abx"));
    assert!(matcher.fuzzy_match("axbycz", "abc").is_some());
    assert!(matcher.fuzzy_match("axbycz", "xyz").is_some());

    assert_eq!(
        "[a]x[b]y[c]z",
        &wrap_fuzzy_match_v1("axbycz", "abc").unwrap()
    );
    assert_eq!(
        "a[x]b[y]c[z]",
        &wrap_fuzzy_match_v1("axbycz", "xyz").unwrap()
    );
    assert_eq!(
        "[H]ello, [世]界",
        &wrap_fuzzy_match_v1("Hello, 世界", "H世").unwrap()
    );
}

#[test]
fn test_match_quality() {
    let matcher = SkimMatcher::default();
    let f = |c: &str, p: &str| matcher.fuzzy_match(c, p);

    // initials
    assert_order(f, "ab", &["ab", "aoo_boo", "acb"]);
    assert_order(f, "CC", &["CamelCase", "camelCase", "camelcase"]);
    assert_order(f, "cC", &["camelCase", "CamelCase", "camelcase"]);
    assert_order(
        f,
        "cc",
        &[
            "camel case",
            "camelCase",
            "camelcase",
            "CamelCase",
            "camel ace",
        ],
    );
    assert_order(
        f,
        "Da.Te",
        &["Data.Text", "Data.Text.Lazy", "Data.Aeson.Encoding.text"],
    );
    // prefix
    assert_order(f, "is", &["isIEEE", "inSuf"]);
    // shorter
    assert_order(f, "ma", &["map", "many", "maximum"]);
    assert_order(f, "print", &["printf", "sprintf"]);
    assert_order(f, "ast", &["ast", "AST", "INT_FAST16_MAX"]);
    assert_order(f, "Int", &["int", "INT", "PRINT"]);
}

#[test]
fn test_match_or_not_simple() {
    let matcher = SkimMatcherV2::default();
    assert_eq!(
        matcher
            .simple_match("axbycz", "xyz", false, true)
            .unwrap()
            .1,
        vec![1, 3, 5]
    );

    assert_eq!(
        matcher.simple_match("", "", false, false),
        Some((0, vec![]))
    );
    assert_eq!(
        matcher.simple_match("abcdefaghi", "", false, false),
        Some((0, vec![]))
    );
    assert_eq!(matcher.simple_match("", "a", false, false), None);
    assert_eq!(
        matcher.simple_match("abcdefaghi", "中", false, false,),
        None
    );
    assert_eq!(matcher.simple_match("abc", "abx", false, false,), None);
    assert_eq!(
        matcher
            .simple_match("axbycz", "abc", false, true)
            .unwrap()
            .1,
        vec![0, 2, 4]
    );
    assert_eq!(
        matcher
            .simple_match("axbycz", "xyz", false, true)
            .unwrap()
            .1,
        vec![1, 3, 5]
    );
    assert_eq!(
        matcher
            .simple_match("Hello, 世界", "H世", false, true)
            .unwrap()
            .1,
        vec![0, 7]
    );
}

#[test]
fn test_match_or_not_v2() {
    let matcher = SkimMatcherV2::default();

    assert_eq!(matcher.fuzzy_match("", ""), Some(0));
    assert_eq!(matcher.fuzzy_match("abcdefaghi", ""), Some(0));
    assert_eq!(matcher.fuzzy_match("", "a"), None);
    assert_eq!(matcher.fuzzy_match("abcdefaghi", "中"), None);
    assert_eq!(matcher.fuzzy_match("abc", "abx"), None);
    assert!(matcher.fuzzy_match("axbycz", "abc").is_some());
    assert!(matcher.fuzzy_match("axbycz", "xyz").is_some());

    assert_eq!(
        &wrap_fuzzy_match_v2(&matcher, "axbycz", "abc").unwrap(),
        "[a]x[b]y[c]z"
    );
    assert_eq!(
        &wrap_fuzzy_match_v2(&matcher, "axbycz", "xyz").unwrap(),
        "a[x]b[y]c[z]"
    );
    assert_eq!(
        &wrap_fuzzy_match_v2(&matcher, "Hello, 世界", "H世").unwrap(),
        "[H]ello, [世]界"
    );
}

#[test]
fn test_case_option_v2() {
    let matcher = SkimMatcherV2::default().ignore_case();
    assert!(matcher.fuzzy_match("aBc", "abc").is_some());
    assert!(matcher.fuzzy_match("aBc", "aBc").is_some());
    assert!(matcher.fuzzy_match("aBc", "aBC").is_some());

    let matcher = SkimMatcherV2::default().respect_case();
    assert!(matcher.fuzzy_match("aBc", "abc").is_none());
    assert!(matcher.fuzzy_match("aBc", "aBc").is_some());
    assert!(matcher.fuzzy_match("aBc", "aBC").is_none());

    let matcher = SkimMatcherV2::default().smart_case();
    assert!(matcher.fuzzy_match("aBc", "abc").is_some());
    assert!(matcher.fuzzy_match("aBc", "aBc").is_some());
    assert!(matcher.fuzzy_match("aBc", "aBC").is_none());
}

#[test]
fn test_matcher_quality_v2() {
    let matcher = SkimMatcherV2::default();
    let f = |c: &str, p: &str| matcher.fuzzy_match(c, p);
    assert_order(f, "ab", &["ab", "aoo_boo", "acb"]);
    assert_order(
        f,
        "cc",
        &[
            "camel case",
            "camelCase",
            "CamelCase",
            "camelcase",
            "camel ace",
        ],
    );
    assert_order(
        f,
        "Da.Te",
        &["Data.Text", "Data.Text.Lazy", "Data.Aeson.Encoding.Text"],
    );
    assert_order(f, "is", &["isIEEE", "inSuf"]);
    assert_order(f, "ma", &["map", "many", "maximum"]);
    assert_order(f, "print", &["printf", "sprintf"]);
    assert_order(f, "ast", &["ast", "AST", "INT_FAST16_MAX"]);
    assert_order(f, "int", &["int", "INT", "PRINT"]);
}

#[test]
fn test_empty_pattern_both_matchers() {
    // The empty pattern matches every choice with score 0 and no indices.
    for choice in ["", "a", "abcdefaghi", "Hello, 世界"] {
        assert_eq!(fuzzy_match(choice, ""), Some(0));
        assert_eq!(fuzzy_indices(choice, ""), Some((0, vec![])));
        let v2 = SkimMatcherV2::default();
        assert_eq!(v2.fuzzy_match(choice, ""), Some(0));
        assert_eq!(v2.fuzzy_indices(choice, ""), Some((0, vec![])));
    }
}

#[test]
fn test_no_match_when_subsequence_missing() {
    assert_eq!(fuzzy_match("abc", "abx"), None);
    assert_eq!(fuzzy_indices("abc", "abx"), None);
    assert_eq!(fuzzy_match("cba", "abc"), None);
    let v2 = SkimMatcherV2::default();
    assert_eq!(v2.fuzzy_match("abc", "abx"), None);
    assert_eq!(v2.fuzzy_indices("cba", "abc"), None);
}

#[test]
fn test_index_fidelity_v1() {
    let cases = [
        ("axbycz", "abc"),
        ("axbycz", "xyz"),
        ("Hello, 世界", "H世"),
        ("abcdefaghi", "ai"),
    ];
    for (choice, pattern) in cases {
        let (_score, indices) = fuzzy_indices(choice, pattern).unwrap();
        let cs: Vec<char> = choice.chars().collect();
        let ps: Vec<char> = pattern.chars().collect();
        assert_eq!(indices.len(), ps.len());
        for w in indices.windows(2) {
            assert!(w[0] < w[1]);
        }
        for (k, &ix) in indices.iter().enumerate() {
            assert_eq!(
                cs[ix].to_ascii_lowercase(),
                ps[k].to_ascii_lowercase()
            );
        }
    }
}

#[test]
fn test_row_compression_equivalence_v2() {
    // The score without positions (two-row matrices) equals the score with
    // positions (full matrices).
    let matcher = SkimMatcherV2::default();
    let cases = [
        ("axbycz", "abc"),
        ("axbycz", "xyz"),
        ("Hello, 世界", "H世"),
        ("CamelCase", "CC"),
        ("INT_FAST16_MAX", "ast"),
    ];
    for (choice, pattern) in cases {
        let compressed = matcher.fuzzy_match(choice, pattern).unwrap();
        let (full, _indices) = matcher.fuzzy_indices(choice, pattern).unwrap();
        assert_eq!(compressed, full);
    }
}

#[test]
fn test_simple_match_agrees_with_cheap_matches() {
    let matcher = SkimMatcherV2::default();
    let cases = [
        ("axbycz", "abc", false),
        ("axbycz", "abx", false),
        ("aBc", "abc", true),
        ("aBc", "aBc", true),
        ("", "", false),
        ("", "a", true),
        ("abcdefaghi", "", false),
    ];
    for (choice, pattern, case_sensitive) in cases {
        assert_eq!(
            matcher
                .simple_match(choice, pattern, case_sensitive, false)
                .is_some(),
            cheap_matches(choice, pattern, case_sensitive)
        );
    }
}

#[test]
fn test_smart_case_matches_explicit_policies() {
    // With an upper-case pattern, smart case scores as respect case;
    // otherwise as ignore case.
    let smart = SkimMatcherV2::default().smart_case();
    let respect = SkimMatcherV2::default().respect_case();
    let ignore = SkimMatcherV2::default().ignore_case();
    for choice in ["aBc", "abc", "Data.Text", "INT_FAST16_MAX"] {
        for pattern in ["aB", "ab", "dT", "int"] {
            let expected = if pattern.chars().any(|c| c.is_ascii_uppercase()) {
                respect.fuzzy_match(choice, pattern)
            } else {
                ignore.fuzzy_match(choice, pattern)
            };
            assert_eq!(smart.fuzzy_match(choice, pattern), expected);
        }
    }
}

#[test]
fn test_leading_penalty_cap_v1() {
    // The per-cell leading penalty is -6 per leading character, capped at
    // -18: from offset 3 on, single-character scores stop decreasing.
    let s1 = fuzzy_match("xa", "a").unwrap();
    let s2 = fuzzy_match("xxa", "a").unwrap();
    let s3 = fuzzy_match("xxxa", "a").unwrap();
    let s4 = fuzzy_match("xxxxa", "a").unwrap();
    let s5 = fuzzy_match("xxxxxa", "a").unwrap();
    assert_eq!(s1 - s2, 6);
    assert_eq!(s2 - s3, 6);
    assert_eq!(s3, s4);
    assert_eq!(s4, s5);
    assert_eq!(s1 - s3, 12);
}

#[test]
fn test_element_limit_routes_to_simple_match() {
    let limited = SkimMatcherV2::default().element_limit(4);
    let unlimited = SkimMatcherV2::default();
    let (choice, pattern) = ("axbycz", "xyz");
    let expected = unlimited.simple_match(choice, pattern, false, true);
    assert_eq!(limited.fuzzy_indices(choice, pattern), expected);
    assert!(limited.fuzzy_match(choice, pattern).is_some());
}

#[test]
fn test_use_cache_disabled_gives_same_results() {
    let cached = SkimMatcherV2::default();
    let uncached = SkimMatcherV2::default().use_cache(false);
    for (choice, pattern) in [("axbycz", "abc"), ("Hello, 世界", "H世"), ("abc", "abx")] {
        assert_eq!(
            cached.fuzzy_indices(choice, pattern),
            uncached.fuzzy_indices(choice, pattern)
        );
        // Repeated calls on the same thread reuse the scratch and must not
        // change the answer.
        assert_eq!(
            cached.fuzzy_indices(choice, pattern),
            cached.fuzzy_indices(choice, pattern)
        );
    }
}

#[test]
fn test_score_config_default_values() {
    let cfg = SkimScoreConfig::default();
    assert_eq!(cfg.score_match, 16);
    assert_eq!(cfg.gap_start, -3);
    assert_eq!(cfg.gap_extension, -1);
    assert_eq!(cfg.bonus_first_char_multiplier, 2);
    assert_eq!(cfg.bonus_head, 8);
    assert_eq!(cfg.bonus_break, 7);
    assert_eq!(cfg.bonus_camel, 6);
    assert_eq!(cfg.bonus_consecutive, 4);
    assert_eq!(cfg.penalty_case_mismatch, -2);
}

#[test]
fn test_cheap_matches_cases() {
    assert!(cheap_matches("axbycz", "abc", false));
    assert!(cheap_matches("axbycz", "xyz", false));
    assert!(!cheap_matches("abc", "abx", false));
    assert!(!cheap_matches("", "a", false));
    assert!(cheap_matches("", "", false));
    assert!(cheap_matches("aBc", "abc", false));
    assert!(!cheap_matches("aBc", "abc", true));
    assert!(cheap_matches("aBc", "aBc", true));
}
