use std::str::FromStr;
use test_flight::alpha::Alpha;
use test_flight::tpa::{marvin_tpa, marvin_tpa_12, TpaError, TpaGroup};

#[test]
fn test_marvin_tpa() {
    // Given a seed
    let seed = "ABCDEFGHIJKLMNOPQRSTUVWXYZ";

    // When the seed is reduced
    let reduction = marvin_tpa(seed).unwrap();

    // The it is reduced as expected
    assert_eq!("TTTNANHHHCZCXTGT", reduction);
}

#[test]
fn test_marvin_tpa_12() {
    // Given a seed
    let seed = "ABCDEFGHIJKLMNOPQRSTUVWXYZ";

    // When the seed is reduced
    let reduction = marvin_tpa_12(seed).unwrap();

    // The it is reduced as expected
    assert_eq!("HTVUNWOZVUNXZAPB", reduction);
}

#[test]
fn test_tpa_group_reduce() {
    // Given a string and it's expected transformation
    for (group, action, expected) in [
        ("ABCDEFGHIJKLMNOP", 'A', "OACYZXIUWTESQOAP"),
        ("QRSTUVWXYZ", 'A', "ESQOAPYMKIUJGEFD"),
        ("ABCDEFGHIJKLMNOP", 'B', "SFWJANERCPGTKXOB"),
        ("ABCDEFGHIJKLMNOP", 'C', "PPGGXOOXFFWAAWRR"),
        ("ABCDEFGHIJKLMNOP", 'D', "OOKKGGCCEEAAWWSS"),
        ("ABCDEFGHIJKLMNOP", 'E', "CNBMYKWHVGSDRCOA"),
        ("ABCDEFGHIJKLMNOP", 'F', "OAPEDFUITJYXAOZP"),
    ] {
        // and a TPA Group corresponding to the string
        let group = TpaGroup::from_str(group).unwrap();

        // When the group is transformed
        let reduction = group.transform(Alpha::new(action).unwrap()).unwrap();

        // Then the result is as expected
        assert_eq!(expected, reduction.to_string())
    }
}

#[test]
fn group_padding_starts_at_a() {
    assert_eq!(TpaGroup::parse("").unwrap().to_string(), "ABCDEFGHIJKLMNOP");
    assert_eq!(TpaGroup::parse("ZZZ").unwrap().to_string(), "ZZZABCDEFGHIJKLM");
    assert_eq!(TpaGroup::parse("QRSTUVWXYZ").unwrap().to_string(), "QRSTUVWXYZABCDEF");
}

#[test]
fn group_errors() {
    assert_eq!(
        TpaGroup::parse("ABCDEFGHIJKLMNOPQ").unwrap_err(),
        TpaError::InvalidLength(17)
    );
    assert_eq!(TpaGroup::parse("ABcD").unwrap_err(), TpaError::InvalidCharacter('c'));
    let g = TpaGroup::parse("ABCD").unwrap();
    assert_eq!(g.transform(Alpha(7)).unwrap_err(), TpaError::InvalidAction(Alpha(7)));
}

#[test]
fn group_add() {
    let a = TpaGroup::parse("ABCDEFGHIJKLMNOP").unwrap();
    let z = TpaGroup::parse("ZZZZZZZZZZZZZZZZ").unwrap();
    assert_eq!(a.add(&z).to_string(), "ABCDEFGHIJKLMNOP");
    assert_eq!(a.add(&a).to_string(), "BDFHJLNPRTVXZBDF");
}

#[test]
fn reduce_ignores_white_space() {
    assert_eq!(
        marvin_tpa_12(" ABCDEFGH\nIJKLMNOPQRS\tTUVWXYZ \r\n").unwrap(),
        "HTVUNWOZVUNXZAPB"
    );
    assert_eq!(marvin_tpa("ABCDEFGHIJKLM\nNOPQRSTUVWXYZ\n").unwrap(), "TTTNANHHHCZCXTGT");
}

#[test]
fn reduce_single_group() {
    // one selector A, then the group padded from A
    let expected = TpaGroup::parse("BCD").unwrap().transform(Alpha(1)).unwrap().to_string();
    assert_eq!(marvin_tpa_12("ABCD").unwrap(), expected);
    assert_eq!(marvin_tpa("BCD").unwrap(), expected);
}

#[test]
fn reduce_rejects_lowercase_and_digits() {
    assert_eq!(marvin_tpa_12("ABCDEFGHIJKLMNOPQRSTUVWXYz"), Err(TpaError::InvalidCharacter('z')));
    assert_eq!(marvin_tpa_12("aBCDEFGHIJKLMNOPQRSTUVWXYZ"), Err(TpaError::InvalidCharacter('a')));
    assert_eq!(marvin_tpa("SOL\nBETA 9\nSOL"), Err(TpaError::InvalidCharacter('9')));
    assert_eq!(marvin_tpa("sol"), Err(TpaError::InvalidCharacter('s')));
}

#[test]
fn reduce_rejects_invalid_selector() {
    assert_eq!(marvin_tpa_12("GBCD"), Err(TpaError::InvalidAction(Alpha(7))));
}

#[test]
fn reduce_empty_seed() {
    assert_eq!(marvin_tpa_12(""), Err(TpaError::EmptyReduction));
    assert_eq!(marvin_tpa(""), Err(TpaError::EmptyReduction));
    assert_eq!(marvin_tpa_12(" \n\t"), Err(TpaError::EmptyReduction));
    // a lone selector has no group to act on
    assert_eq!(marvin_tpa_12("A"), Err(TpaError::EmptyReduction));
}

#[test]
fn reduce_extra_selector_ignored() {
    // 18 characters: two selectors, one group of sixteen; the second selector is unused
    let with_z = marvin_tpa_12("AZBCDEFGHIJKLMNOPQ");
    let with_b = marvin_tpa_12("ABBCDEFGHIJKLMNOPQ");
    assert_eq!(with_z, with_b);
    assert!(with_b.is_ok());
}

#[test]
fn invalid_selector_before_non_letter_wins() {
    // three selectors, the first of them Z; the lowercase letter sits in the second group
    let seed = "ZAABCDEFGHIJKLMNOPQRSTUVWXYZABCDEFa";
    assert_eq!(seed.len(), 35);
    assert_eq!(marvin_tpa_12(seed), Err(TpaError::InvalidAction(Alpha(26))));
    // with a valid first selector the lowercase letter is what fails
    let seed = "AAABCDEFGHIJKLMNOPQRSTUVWXYZABCDEFa";
    assert_eq!(marvin_tpa_12(seed), Err(TpaError::InvalidCharacter('a')));
}

#[test]
fn reduce_three_groups_exact() {
    // implicit selectors: every group goes through action A, then the blocks are summed
    let a = TpaGroup::parse("ABCDEFGHIJKLMNOP").unwrap().transform(Alpha(1)).unwrap();
    let b = TpaGroup::parse("QRSTUVWXYZABCDEF").unwrap().transform(Alpha(1)).unwrap();
    let c = TpaGroup::parse("GH").unwrap().transform(Alpha(1)).unwrap();
    let expected = a.add(&b).add(&c).to_string();
    assert_eq!(marvin_tpa("ABCDEFGHIJKLMNOPQRSTUVWXYZABCDEFGH").unwrap(), expected);
}
