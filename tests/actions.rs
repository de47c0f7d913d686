use test_flight::actions::{
    combine_positions, consonant_rot13, even_rot13, reverse, swap_back_front, swap_vowels, Action,
};
use test_flight::alpha::{alphabet, Alpha};

fn to_alphas(source: &str) -> [Alpha; 16] {
    source
        .chars()
        .filter_map(Alpha::new)
        .collect::<Vec<_>>()
        .try_into()
        .unwrap()
}

fn letters(block: &[Alpha; 16]) -> String {
    block.iter().map(Alpha::as_char).collect()
}

#[test]
fn test_transforms() {
    let items: &[(fn([Alpha; 16]) -> [Alpha; 16], &str)] = &[
        (reverse, "PONMLKJIHGFEDCBA"),
        (consonant_rot13, "AOPQESTUIWXYZAOC"),
        (swap_vowels, "ABCEDFGIHJKLMONP"),
        (combine_positions, "CCGGKKOOSSWWAAEE"),
        (swap_back_front, "IJKLMNOPABCDEFGH"),
        (even_rot13, "AOCQESGUIWKYMAOC"),
    ];
    for (transform, expected) in items {
        // Given an input string
        let input: [Alpha; 16] = to_alphas("ABCDEFGHIJKLMNOP");

        // When the string is transformed
        let result = transform(input);

        // Then it should match the expected output
        assert_eq!(to_alphas(expected), result);
    }
}

#[test]
fn symbol_from_letters_only() {
    assert_eq!(Alpha::new('A'), Some(Alpha(1)));
    assert_eq!(Alpha::new('Z'), Some(Alpha(26)));
    assert_eq!(Alpha::new('a'), None);
    assert_eq!(Alpha::new('3'), None);
    assert_eq!(Alpha::new('@'), None);
    assert_eq!(Alpha::new('['), None);
    assert_eq!(Alpha(13).as_char(), 'M');
}

#[test]
fn symbol_vowels_include_y() {
    let vowels: String = alphabet().iter().filter(|a| a.is_vowel()).map(Alpha::as_char).collect();
    assert_eq!(vowels, "AEIOUY");
}

#[test]
fn symbol_rot13_twice_is_identity() {
    for a in alphabet() {
        assert_eq!(a.rot13().rot13(), a);
    }
    assert_eq!(Alpha(1).rot13(), Alpha(14));
    assert_eq!(Alpha(14).rot13(), Alpha(1));
    assert_eq!(Alpha(26).rot13(), Alpha(13));
}

#[test]
fn symbol_add_values() {
    // (2 + 3 - 1) mod 26 + 1 = 5: B + C is E
    assert_eq!(Alpha(2).add(&Alpha(3)), Alpha(5));
    // Z is the neutral symbol
    assert_eq!(Alpha(7).add(&Alpha(26)), Alpha(7));
    // wraps round the alphabet: Y + C = B
    assert_eq!(Alpha(25).add(&Alpha(3)), Alpha(2));
    assert_eq!(Alpha(1).add(&Alpha(1)), Alpha(2));
}

#[test]
fn symbol_add_commutative_and_associative() {
    for a in alphabet() {
        for b in alphabet() {
            assert_eq!(a.add(&b), b.add(&a));
            for c in alphabet() {
                assert_eq!(a.add(&b).add(&c), a.add(&b.add(&c)));
            }
        }
    }
}

#[test]
fn alphabet_in_order() {
    let all: String = alphabet().iter().map(Alpha::as_char).collect();
    assert_eq!(all, "ABCDEFGHIJKLMNOPQRSTUVWXYZ");
}

#[test]
fn reverse_and_rotate_halves_twice_give_back() {
    let b = to_alphas("QWERTYUIOPASDFGH");
    assert_eq!(reverse(reverse(b)), b);
    assert_eq!(swap_back_front(swap_back_front(b)), b);
}

#[test]
fn swap_vowels_cascades() {
    // the A moved to index 1 is read again at index 1 and moves on to the front
    let b = to_alphas("BAAAAAAAAAAAAAAA");
    assert_eq!(letters(&swap_vowels(b)), "AAAAAAAAAAAAAAAB");
    let b = to_alphas("BCDEFGHJKLMNPQRS");
    assert_eq!(letters(&swap_vowels(b)), "BCEDFGHJKLMNPQRS");
}

#[test]
fn action_selection() {
    assert_eq!(Action::new(Alpha(1)), Some(Action::A));
    assert_eq!(Action::new(Alpha(6)), Some(Action::F));
    assert_eq!(Action::new(Alpha(7)), None);
    assert_eq!(Action::new(Alpha(26)), None);
}

#[test]
fn action_compositions() {
    let input = to_alphas("ABCDEFGHIJKLMNOP");
    let expected = [
        (Action::A, "OACYZXIUWTESQOAP"),
        (Action::B, "SFWJANERCPGTKXOB"),
        (Action::C, "PPGGXOOXFFWAAWRR"),
        (Action::D, "OOKKGGCCEEAAWWSS"),
        (Action::E, "CNBMYKWHVGSDRCOA"),
        (Action::F, "OAPEDFUITJYXAOZP"),
    ];
    for (action, letters_out) in expected {
        assert_eq!(letters(&action.transform(input)), letters_out);
    }
}
