use fuzzy_score::matching::{create_matches, is_valid_match};
use fuzzy_score::scoring::calculate_score;

#[test]
fn test_one() {
    let a = "Projects/config/nvim";
    let b = "Projects/neovim";

    let pattern = "convim";

    let score_a = calculate_score(pattern, a);
    let score_b = calculate_score(pattern, b);

    assert!(score_a < score_b, "Wrong order: {}, {}", score_a, score_b);
}

#[test]
fn test_upper_bad() {
    let a = "Projects/config/nvim";

    let pattern = "PRnvim";

    let text_matches = create_matches(pattern, a);

    assert!(!is_valid_match(&text_matches));
}

#[test]
fn test_search() {
    let a = "Projects/nvim-traveller-rs";
    let b = "/home/norlock/bin/google-cloud-sdk/lib/third_party/setuptools/_vendor/importlib_resources-5.10.2.dist-info";
    let pattern = "nvim-t-";

    println!("A: {a}");
    println!("b: {b}");
    println!("Pattern: {pattern}");

    let score_a = calculate_score(pattern, a);
    let score_b = calculate_score(pattern, b);

    assert!(score_a < score_b, "Wrong order: {}, {}", score_a, score_b);
}

#[test]
fn test_complex_pattern() {
    let a = "Projects/config/nvim";
    let b = "Projects/neovim";

    let pattern = "prnvi";
    println!("A: {a}");
    println!("b: {b}");
    println!("Pattern: {pattern}");

    let score_a = calculate_score(pattern, a);
    let score_b = calculate_score(pattern, b);

    assert!(score_a < score_b, "Wrong order: {}, {}", score_a, score_b);
}

#[test]
fn test_recurring_char() {
    let a = "Proasdlmasd/o";

    let pattern = "olmo";
    println!("{pattern}");

    let text_matches = create_matches(pattern, a);

    assert!(is_valid_match(&text_matches));
}

#[test]
fn test_short() {
    let a = "services/update.yaml";
    let b = "gateways/delete.yaml";

    let pattern = "de";

    let score_a = calculate_score(pattern, a);
    let score_b = calculate_score(pattern, b);

    assert!(
        score_b < score_a,
        "Wrong order: {:?}, {:?}",
        score_b,
        score_a
    );
}

#[test]
fn test_database() {
    let a = "Projects/neo-api-rs/database.rs";
    let b = "Android/Sdk/platform-tools/fastboot";

    let pattern = "datab";

    let score_a = calculate_score(pattern, a);
    let score_b = calculate_score(pattern, b);

    assert!(
        score_a < score_b,
        "Wrong order: {:?}, {:?}",
        score_a,
        score_b
    );
}

#[test]
fn test_neo() {
    let a = "Projects/neovim/";
    let b = "Projects/neo-api-rs/";
    let c = "bin/google-cloud-sdk/lib/surface/monitoring/snoozes/";

    let pattern = "neo";

    let score_a = calculate_score(pattern, a);
    println!("A: {:?}", score_a);
    let score_b = calculate_score(pattern, b);
    println!("B: {:?}", score_b);
    let score_c = calculate_score(pattern, c);
    println!("C: {:?}", score_c);

    assert!(
        score_a < score_b && score_b < score_c,
        "Wrong order: {:?}, {:?}, {:?}",
        score_a,
        score_b,
        score_c,
    );
}
