use vstd::prelude::*;

verus! {

/// A letter of the closed alphabet, held as its 1-based position: `A` is 1, `Z` is 26.
#[derive(Clone, Copy, Debug, PartialEq, Eq, Structural)]
pub struct Alpha(pub u8);

/// True of the ASCII uppercase letters, the only characters that name a symbol.
pub open spec fn is_upper(c: char) -> bool {
    'A' <= c && c <= 'Z'
}

/// The symbol that an uppercase letter names.
pub open spec fn alpha_of(c: char) -> Alpha
    recommends
        is_upper(c),
{
    Alpha((c as u32 - 'A' as u32 + 1) as u8)
}

/// The letter that a symbol value stands for.
pub open spec fn char_of(v: u8) -> char {
    ((v - 1 + 'A' as u32) as u32) as char
}

/// Positions 1, 5, 9, 15, 21 and 25: A, E, I, O, U and Y.
pub open spec fn vowel_value(v: u8) -> bool {
    v == 1 || v == 5 || v == 9 || v == 15 || v == 21 || v == 25
}

/// The position thirteen places further round the alphabet.
pub open spec fn rot13_value(v: u8) -> u8 {
    ((v - 1 + 13) % 26 + 1) as u8
}

/// Addition of zero-based positions modulo 26, brought back to 1..=26.
pub open spec fn sum_value(a: u8, b: u8) -> u8 {
    ((a + b - 1) % 26 + 1) as u8
}

impl Alpha {
    /// The value lies in 1..=26.
    pub open spec fn wf(self) -> bool {
        1 <= self.0 && self.0 <= 26
    }

    pub open spec fn spec_is_vowel(self) -> bool {
        vowel_value(self.0)
    }

    pub open spec fn spec_rot13(self) -> Alpha {
        Alpha(rot13_value(self.0))
    }

    pub open spec fn spec_add(self, rhs: Alpha) -> Alpha {
        Alpha(sum_value(self.0, rhs.0))
    }

    /// The symbol of an uppercase letter; `None` for any other character.
    pub fn new(c: char) -> (r: Option<Alpha>)
        ensures
            r == (if is_upper(c) { Some(alpha_of(c)) } else { None::<Alpha> }),
            r matches Some(a) ==> a.wf(),
    {
        if 'A' <= c && c <= 'Z' {
            Some(Alpha((c as u32 - 'A' as u32 + 1) as u8))
        } else {
            None
        }
    }

    pub fn is_vowel(&self) -> (r: bool)
        ensures
            r == self.spec_is_vowel(),
    {
        match self.0 {
            1 | 5 | 9 | 15 | 21 | 25 => true,
            _ => false,
        }
    }

    pub fn rot13(&self) -> (r: Alpha)
        requires
            self.wf(),
        ensures
            r == self.spec_rot13(),
            r.wf(),
    {
        Alpha((self.0 - 1 + 13) % 26 + 1)
    }

    pub fn as_char(&self) -> (r: char)
        requires
            self.wf(),
        ensures
            r == char_of(self.0),
            is_upper(r),
            alpha_of(r) == *self,
    {
        (self.0 - 1 + 65) as char
    }

    /// Element-wise combination of two symbols; the method behind `+` on symbols.
    pub fn add(&self, rhs: &Alpha) -> (r: Alpha)
        requires
            self.wf(),
            rhs.wf(),
        ensures
            r == self.spec_add(*rhs),
            r.wf(),
    {
        Alpha((self.0 + rhs.0 - 1) % 26 + 1)
    }
}

/// The 26 symbols from `A` to `Z`, in order.
pub fn alphabet() -> (r: [Alpha; 26])
    ensures
        forall|i: int| 0 <= i < 26 ==> #[trigger] r[i] == Alpha((i + 1) as u8),
{
    let mut r = [Alpha(1); 26];
    let mut i: usize = 0;
    while i < 26
        invariant
            0 <= i <= 26,
            forall|j: int| 0 <= j < i ==> #[trigger] r[j] == Alpha((j + 1) as u8),
        decreases 26 - i,
    {
        r[i] = Alpha((i + 1) as u8);
        i = i + 1;
    }
    r
}

/// Shifting a symbol by thirteen twice gives it back.
pub proof fn lemma_rot13_involutive(a: Alpha)
    requires
        a.wf(),
    ensures
        a.spec_rot13().wf(),
        a.spec_rot13().spec_rot13() == a,
{
}

/// Symbol addition does not depend on the order of its operands.
pub proof fn lemma_add_commutative(a: Alpha, b: Alpha)
    requires
        a.wf(),
        b.wf(),
    ensures
        a.spec_add(b) == b.spec_add(a),
{
}

/// Symbol addition does not depend on how a sum of three is grouped.
pub proof fn lemma_add_associative(a: Alpha, b: Alpha, c: Alpha)
    requires
        a.wf(),
        b.wf(),
        c.wf(),
    ensures
        a.spec_add(b).spec_add(c) == a.spec_add(b.spec_add(c)),
{
    let ab = a.0 as int + b.0 as int - 1;
    let bc = b.0 as int + c.0 as int - 1;
    assert(((ab % 26 + 1) + c.0 as int - 1) % 26 == (a.0 as int + (bc % 26 + 1) - 1) % 26)
        by (nonlinear_arith)
        requires
            1 <= a.0 <= 26,
            1 <= b.0 <= 26,
            1 <= c.0 <= 26,
            ab == a.0 as int + b.0 as int - 1,
            bc == b.0 as int + c.0 as int - 1,
    ;
}

} // verus!
