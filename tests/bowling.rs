use test_flight::bowling::{
    calculate_score, get_winner, Frame, ScoreCalculator, ScoreError, Variant1, Variant2, Variant3,
    Variant4, Variant5, WinnerError,
};

fn scored<V: ScoreCalculator>(line: &str, variant: &V) -> (String, u32) {
    calculate_score(line, variant).unwrap()
}

#[test]
fn test_calculate_score() {
    for (line, expected_result) in [
        ("Yattas Del Lana 3 5 3 5 7 2 3 0 10 4 3", ("Yattas Del Lana", 45)),
        ("Eve Stojbs 3 7 3 3 9 1 6 4 2 3 1 0", ("Eve Stojbs", 42)),
    ] {
        let variant = Variant1::default();
        let (name, score) = calculate_score(line, &variant).unwrap();
        assert_eq!((name.as_str(), score), expected_result);
    }
}

#[test]
fn test_calculate_score_variant2() {
    for (line, expected_result) in [
        ("Yattas Del Lana 3 5 3 5 7 2 3 0 10 4 3", ("Yattas Del Lana", 55)),
        ("Eve Stojbs 3 7 3 3 9 1 6 4 2 3 1 0", ("Eve Stojbs", 57)),
    ] {
        let variant = Variant2::default();
        let (name, score) = calculate_score(line, &variant).unwrap();
        assert_eq!((name.as_str(), score), expected_result);
    }
}

#[test]
fn test_calculate_score_variant3() {
    for (line, expected_result) in [
        ("Yattas Del Lana 3 5 3 5 7 2 3 0 10 4 3", ("Yattas Del Lana", 55)),
        ("Eve Stojbs 3 7 3 3 9 1 6 4 2 3 1 0", ("Eve Stojbs", 60)),
    ] {
        let variant = Variant3::default();
        let (name, score) = calculate_score(line, &variant).unwrap();
        assert_eq!((name.as_str(), score), expected_result);
    }
}

#[test]
fn test_calculate_score_variant4() {
    for (line, expected_result) in [
        ("Yattas Del Lana 3 5 3 5 7 2 3 0 10 4 3", ("Yattas Del Lana", 52)),
        ("Eve Stojbs 3 7 3 3 9 1 6 4 2 3 1 0", ("Eve Stojbs", 53)),
    ] {
        let variant = Variant4::default();
        let (name, score) = calculate_score(line, &variant).unwrap();
        assert_eq!((name.as_str(), score), expected_result);
    }
}

#[test]
fn test_calculate_score_variant5() {
    for (line, expected_result) in [
        ("Yattas Del Lana 3 5 3 5 7 2 3 0 10 4 3", ("Yattas Del Lana", 207)),
        ("Eve Stojbs 3 7 3 3 9 1 6 4 2 3 1 0", ("Eve Stojbs", 212)),
    ] {
        let variant = Variant5::default();
        let (name, score) = calculate_score(line, &variant).unwrap();
        assert_eq!((name.as_str(), score), expected_result);
    }
}

#[test]
fn line_without_rolls_scores_zero() {
    assert_eq!(scored("  Nobody Here  ", &Variant1::default()), ("Nobody Here".to_string(), 0));
    assert_eq!(scored("", &Variant1::default()), (String::new(), 0));
}

#[test]
fn line_errors() {
    assert_eq!(calculate_score("Eve 3 4 5", &Variant1::default()), Err(ScoreError::InvalidScorecard));
    assert_eq!(calculate_score("Eve 3 x", &Variant1::default()), Err(ScoreError::InvalidRoll));
    assert_eq!(calculate_score("Eve 3  4", &Variant1::default()), Err(ScoreError::InvalidRoll));
    assert_eq!(calculate_score("Eve 3 256", &Variant1::default()), Err(ScoreError::InvalidRoll));
    // a bad roll wins over a lone first roll
    assert_eq!(calculate_score("Eve 3 4 5 x", &Variant1::default()), Err(ScoreError::InvalidRoll));
}

#[test]
fn rolls_accept_plus_sign_and_leading_zeros() {
    assert_eq!(scored("Eve 3 +4 007 1", &Variant1::default()), ("Eve".to_string(), 15));
}

#[test]
fn variant_series_scores() {
    let series = [Frame::Strike, Frame::Spare(3), Frame::Regular(4, 2), Frame::Strike];
    assert_eq!(Variant1::default().calculate_score(&series), 36);
    assert_eq!(Variant2::default().calculate_score(&series), 61);
    // spare bonus 5; strike bonus 10 then 12
    assert_eq!(Variant3::default().calculate_score(&series), 63);
    // strike: 10 + 3 + 7; spare: 10 + 4; regular: 6; last strike: 10
    assert_eq!(Variant4::default().calculate_score(&series), 50);
    assert_eq!(Variant5::default().calculate_score(&series), 36 + 61 + 63 + 50);
    assert_eq!(Variant4::default().calculate_score(&[]), 0);
}

#[test]
fn test_get_winner() {
    // Given a scorecard and an aexpected winner
    for (input, expected_winner) in [
        ("Yattas Del Lana 3 5 3 5 7 2 3 0 10 4 3\nEve Stojbs 3 7 3 3 9 1 6 4 2 3 1 0\n", ("Yattas Del Lana", 45)),
        ("Yattas Del Lana 3 5 3 5 7 2 3 0 10 4 3\nEve Stojbs 3 7 3 3 9 1 6 4 2 3 1 5\n", ("Eve Stojbs", 47)),
    ] {
        // And scoring variant 1
        let variant = Variant1::default();

        // Expect the winner to be as expected
        let (name, total) = get_winner(&[input], &variant).unwrap();
        assert_eq!((name.as_str(), total), expected_winner)
    }
}

#[test]
fn test_get_winner_variant2() {
    for input in [
        "\
        Yattas Del Lana 3 5 3 5 7 2 3 0 10 4 3\n\
        Eve Stojbs 3 7 3 3 9 1 6 4 2 3 1 0\n\
        ",
        "\
        Eve Stojbs 3 7 3 3 9 1 6 4 2 3 1 0\n\
        Yattas Del Lana 1 5 3 2 7 3 3 0 10 4 3\n\
        ",
    ] {
        let variant = Variant2::default();
        let (name, total) = get_winner(&[input], &variant).unwrap();
        assert_eq!((name.as_str(), total), ("Eve Stojbs", 57))
    }
}

#[test]
fn test_get_winner_multiple_scorecards() {
    let input = [
        "\
        Yattas Del Lana 3 5 3 5 7 2 3 0 10 4 3\n\
        Eve Stojbs 3 7 3 3 9 1 6 4 2 3 1 0\n\
        ",
        "\
        Eve Stojbs 1 1\n\
        Yattas Del Lana 1 1\n\
        ",
    ];
    let variant = Variant2::default();
    let (name, total) = get_winner(&input, &variant).unwrap();
    assert_eq!((name.as_str(), total), ("Eve Stojbs", 59))
}

#[test]
fn winner_errors() {
    let none: [&str; 0] = [];
    assert_eq!(get_winner(&none, &Variant1::default()), Err(WinnerError::NoParticipants));
    assert_eq!(
        get_winner(&["Eve 1 1\nAda 3 x\nBob 3\n"], &Variant1::default()),
        Err(WinnerError::Score(ScoreError::InvalidRoll))
    );
    assert_eq!(
        get_winner(&["Eve 1 1\nBob 3\nAda 3 x\n"], &Variant1::default()),
        Err(WinnerError::Score(ScoreError::InvalidScorecard))
    );
}

#[test]
fn winner_with_tie_has_top_total() {
    let (name, total) = get_winner(&["Ada 1 2\nBob 2 1"], &Variant1::default()).unwrap();
    assert!(name == "Ada" || name == "Bob");
    assert_eq!(total, 3);
}
