use vstd::prelude::*;

use crate::alpha::Alpha;

verus! {

/// The six composite transformations of a block.
#[derive(Clone, Copy, Debug, PartialEq, Eq, Structural)]
pub enum Action {
    A,
    B,
    C,
    D,
    E,
    F,
}

/// Sixteen symbols, each in range.
pub open spec fn block_wf(s: Seq<Alpha>) -> bool {
    s.len() == 16 && forall|i: int| 0 <= i < 16 ==> (#[trigger] s[i]).wf()
}

pub open spec fn reversed(s: Seq<Alpha>) -> Seq<Alpha> {
    Seq::new(s.len(), |i: int| s[s.len() - 1 - i])
}

pub open spec fn consonants_shifted(s: Seq<Alpha>) -> Seq<Alpha> {
    Seq::new(s.len(), |i: int| if s[i].spec_is_vowel() { s[i] } else { s[i].spec_rot13() })
}

/// The working buffer of the vowel swap once indices `1..n` have been visited: a vowel
/// found at index `n - 1` trades places with its left neighbour, as the buffer stands then.
pub open spec fn vowels_swapped_upto(s: Seq<Alpha>, n: int) -> Seq<Alpha>
    decreases n,
{
    if n <= 1 {
        s
    } else {
        let t = vowels_swapped_upto(s, n - 1);
        if t[n - 1].spec_is_vowel() {
            t.update(n - 2, t[n - 1]).update(n - 1, t[n - 2])
        } else {
            t
        }
    }
}

pub open spec fn vowels_swapped(s: Seq<Alpha>) -> Seq<Alpha> {
    vowels_swapped_upto(s, s.len() as int)
}

/// Both positions of each pair `(2k, 2k + 1)` take the sum of the pair.
pub open spec fn positions_combined(s: Seq<Alpha>) -> Seq<Alpha> {
    Seq::new(
        s.len(),
        |i: int|
            if i % 2 == 0 {
                s[i].spec_add(s[i + 1])
            } else {
                s[i - 1].spec_add(s[i])
            },
    )
}

/// The back half followed by the front half.
pub open spec fn halves_rotated(s: Seq<Alpha>) -> Seq<Alpha> {
    Seq::new(s.len(), |i: int| s[(i + 8) % 16])
}

/// Every odd index, that is every even 1-based position, shifted by thirteen.
pub open spec fn evens_shifted(s: Seq<Alpha>) -> Seq<Alpha> {
    Seq::new(s.len(), |i: int| if i % 2 == 1 { s[i].spec_rot13() } else { s[i] })
}

/// The symbol values that select an action: 1 to 6 for `A` to `F`.
pub open spec fn action_of(v: u8) -> Option<Action> {
    if v == 1 {
        Some(Action::A)
    } else if v == 2 {
        Some(Action::B)
    } else if v == 3 {
        Some(Action::C)
    } else if v == 4 {
        Some(Action::D)
    } else if v == 5 {
        Some(Action::E)
    } else if v == 6 {
        Some(Action::F)
    } else {
        None
    }
}

impl Action {
    /// The composition each action stands for, innermost step first in the source order.
    pub open spec fn spec_transform(self, s: Seq<Alpha>) -> Seq<Alpha> {
        match self {
            Action::A => vowels_swapped(consonants_shifted(reversed(s))),
            Action::B => halves_rotated(evens_shifted(positions_combined(s))),
            Action::C => vowels_swapped(positions_combined(consonants_shifted(s))),
            Action::D => positions_combined(reversed(halves_rotated(s))),
            Action::E => reversed(evens_shifted(vowels_swapped(s))),
            Action::F => consonants_shifted(vowels_swapped(evens_shifted(s))),
        }
    }
}

pub fn reverse(input: [Alpha; 16]) -> (r: [Alpha; 16])
    requires
        block_wf(input@),
    ensures
        r@ == reversed(input@),
        block_wf(r@),
{
    let mut t = input;
    let mut i: usize = 0;
    while i < 16
        invariant
            0 <= i <= 16,
            forall|j: int| 0 <= j < i ==> #[trigger] t[j] == input[15 - j],
        decreases 16 - i,
    {
        t[i] = input[15 - i];
        i = i + 1;
    }
    assert(t@ =~= reversed(input@));
    t
}

pub fn consonant_rot13(input: [Alpha; 16]) -> (r: [Alpha; 16])
    requires
        block_wf(input@),
    ensures
        r@ == consonants_shifted(input@),
        block_wf(r@),
{
    let mut t = input;
    let mut i: usize = 0;
    while i < 16
        invariant
            0 <= i <= 16,
            block_wf(input@),
            forall|j: int| 0 <= j < i ==> #[trigger] t[j] == consonants_shifted(input@)[j],
            forall|j: int| i <= j < 16 ==> #[trigger] t[j] == input[j],
        decreases 16 - i,
    {
        let a = input[i];
        if !a.is_vowel() {
            t[i] = a.rot13();
        }
        i = i + 1;
    }
    assert(t@ =~= consonants_shifted(input@));
    t
}

proof fn lemma_swap_step_wf(s: Seq<Alpha>, n: int)
    requires
        block_wf(s),
        1 <= n <= 16,
    ensures
        block_wf(vowels_swapped_upto(s, n)),
    decreases n,
{
    if n > 1 {
        lemma_swap_step_wf(s, n - 1);
    }
}

pub fn swap_vowels(input: [Alpha; 16]) -> (r: [Alpha; 16])
    requires
        block_wf(input@),
    ensures
        r@ == vowels_swapped(input@),
        block_wf(r@),
{
    let mut t = input;
    let mut i: usize = 1;
    while i < 16
        invariant
            1 <= i <= 16,
            t@ == vowels_swapped_upto(input@, i as int),
        decreases 16 - i,
    {
        if t[i].is_vowel() {
            let tmp = t[i - 1];
            t[i - 1] = t[i];
            t[i] = tmp;
        }
        i = i + 1;
    }
    proof {
        lemma_swap_step_wf(input@, 16);
    }
    t
}

pub fn combine_positions(input: [Alpha; 16]) -> (r: [Alpha; 16])
    requires
        block_wf(input@),
    ensures
        r@ == positions_combined(input@),
        block_wf(r@),
{
    let mut t = input;
    let mut i: usize = 0;
    while i < 16
        invariant
            0 <= i <= 16,
            i % 2 == 0,
            block_wf(input@),
            forall|j: int| 0 <= j < i ==> #[trigger] t[j] == positions_combined(input@)[j],
            forall|j: int| i <= j < 16 ==> #[trigger] t[j] == input[j],
        decreases 16 - i,
    {
        let a = t[i];
        let b = t[i + 1];
        let c = a.add(&b);
        t[i] = c;
        t[i + 1] = c;
        i = i + 2;
    }
    assert(t@ =~= positions_combined(input@));
    t
}

pub fn swap_back_front(input: [Alpha; 16]) -> (r: [Alpha; 16])
    requires
        block_wf(input@),
    ensures
        r@ == halves_rotated(input@),
        block_wf(r@),
{
    let mut t = input;
    let mut i: usize = 0;
    while i < 16
        invariant
            0 <= i <= 16,
            forall|j: int| 0 <= j < i ==> #[trigger] t[j] == input[(j + 8) % 16],
        decreases 16 - i,
    {
        t[i] = input[(i + 8) % 16];
        i = i + 1;
    }
    assert(t@ =~= halves_rotated(input@));
    t
}

pub fn even_rot13(input: [Alpha; 16]) -> (r: [Alpha; 16])
    requires
        block_wf(input@),
    ensures
        r@ == evens_shifted(input@),
        block_wf(r@),
{
    let mut t = input;
    let mut i: usize = 0;
    while i < 16
        invariant
            0 <= i <= 16,
            block_wf(input@),
            forall|j: int| 0 <= j < i ==> #[trigger] t[j] == evens_shifted(input@)[j],
            forall|j: int| i <= j < 16 ==> #[trigger] t[j] == input[j],
        decreases 16 - i,
    {
        if (i + 1) % 2 == 0 {
            t[i] = input[i].rot13();
        }
        i = i + 1;
    }
    assert(t@ =~= evens_shifted(input@));
    t
}

impl Action {
    /// The action that a symbol selects: `A` to `F` for values 1 to 6, else `None`.
    pub fn new(action: Alpha) -> (r: Option<Action>)
        ensures
            r == action_of(action.0),
    {
        match action.0 {
            1 => Some(Action::A),
            2 => Some(Action::B),
            3 => Some(Action::C),
            4 => Some(Action::D),
            5 => Some(Action::E),
            6 => Some(Action::F),
            _ => None,
        }
    }

    /// Applies the action; total on every well-formed block.
    pub fn transform(&self, input: [Alpha; 16]) -> (r: [Alpha; 16])
        requires
            block_wf(input@),
        ensures
            r@ == self.spec_transform(input@),
            block_wf(r@),
    {
        match self {
            Action::A => swap_vowels(consonant_rot13(reverse(input))),
            Action::B => swap_back_front(even_rot13(combine_positions(input))),
            Action::C => swap_vowels(combine_positions(consonant_rot13(input))),
            Action::D => combine_positions(reverse(swap_back_front(input))),
            Action::E => reverse(even_rot13(swap_vowels(input))),
            Action::F => consonant_rot13(swap_vowels(even_rot13(input))),
        }
    }
}

/// Reversing a block twice gives it back.
pub proof fn lemma_reverse_involutive(b: [Alpha; 16])
    ensures
        reversed(reversed(b@)) == b@,
{
    assert(reversed(reversed(b@)) =~= b@);
}

/// Swapping the halves of a block twice gives it back.
pub proof fn lemma_rotate_halves_involutive(b: [Alpha; 16])
    ensures
        halves_rotated(halves_rotated(b@)) == b@,
{
    assert(halves_rotated(halves_rotated(b@)) =~= b@);
}

} // verus!
