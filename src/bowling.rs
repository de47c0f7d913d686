use vstd::prelude::*;

use crate::text::{chars_of, is_space, string_of, white_space};

verus! {

/// The most frames a series may hold; it keeps every variant's total within `u32`.
pub const MAX_FRAMES: usize = 1024;

/// The longest score line accepted.
pub const MAX_LINE: usize = 1000;

/// One frame of a series.
#[derive(Clone, Copy, Debug, PartialEq, Eq, Structural)]
pub enum Frame {
    /// Two rolls that leave pins standing.
    Regular(u8, u8),
    /// Two rolls that clear the ten pins; holds the first.
    Spare(u8),
    /// Ten pins with the first roll.
    Strike,
}

/// The first roll of a spare leaves the second a count in `0..=10`.
pub open spec fn frame_wf(f: Frame) -> bool {
    f matches Frame::Spare(a) ==> a <= 10
}

pub open spec fn frames_wf(s: Seq<Frame>) -> bool {
    forall|i: int| 0 <= i < s.len() ==> frame_wf(#[trigger] s[i])
}

/// Why a score line could not be scored.
#[derive(Clone, Copy, Debug, PartialEq, Eq, Structural)]
pub enum ScoreError {
    /// A roll that is not a decimal count in `0..=255`.
    InvalidRoll,
    /// A first roll under ten with no second roll after it.
    InvalidScorecard,
}

/// A scoring policy for a series of frames.
pub trait ScoreCalculator {
    /// The policy's parameters are within the bounds that keep totals in `u32`.
    spec fn wf(&self) -> bool;

    /// The total that the policy gives a series.
    spec fn spec_score(&self, series: Seq<Frame>) -> int;

    fn calculate_score(&self, series: &[Frame]) -> (r: u32)
        requires
            self.wf(),
            series@.len() <= MAX_FRAMES,
            frames_wf(series@),
        ensures
            r as int == self.spec_score(series@),
    ;
}

/// Pins knocked down, ten for a spare or a strike.
#[derive(Clone, Copy, Debug)]
pub struct Variant1;

/// Pins knocked down, with a fixed bonus for each spare and each strike.
#[derive(Clone, Copy, Debug)]
pub struct Variant2 {
    pub spare_bonus: u32,
    pub strike_bonus: u32,
}

/// As `Variant2`, but each spare or strike raises the next bonus of its kind.
#[derive(Clone, Copy, Debug)]
pub struct Variant3 {
    pub spare_bonus: u32,
    pub spare_increment: u32,
    pub strike_bonus: u32,
    pub strike_increment: u32,
}

/// Traditional bowling: a spare adds the next roll, a strike the next two.
#[derive(Clone, Copy, Debug)]
pub struct Variant4 {}

/// The sum of the four other policies.
#[derive(Clone, Copy, Debug)]
pub struct Variant5 {
    pub variant1: Variant1,
    pub variant2: Variant2,
    pub variant3: Variant3,
    pub variant4: Variant4,
}

pub open spec fn v1_frame(f: Frame) -> int {
    match f {
        Frame::Regular(a, b) => a + b,
        _ => 10,
    }
}

pub open spec fn v1_score(s: Seq<Frame>) -> int
    decreases s.len(),
{
    if s.len() == 0 {
        0
    } else {
        v1_score(s.drop_last()) + v1_frame(s.last())
    }
}

pub open spec fn v2_frame(f: Frame, spare: int, strike: int) -> int {
    match f {
        Frame::Regular(a, b) => a + b,
        Frame::Spare(_) => 10 + spare,
        Frame::Strike => 10 + strike,
    }
}

pub open spec fn v2_score(s: Seq<Frame>, spare: int, strike: int) -> int
    decreases s.len(),
{
    if s.len() == 0 {
        0
    } else {
        v2_score(s.drop_last(), spare, strike) + v2_frame(s.last(), spare, strike)
    }
}

/// Total, spare bonus and strike bonus after the frames of `s`, left to right.
pub open spec fn v3_state(s: Seq<Frame>, v: Variant3) -> (int, int, int)
    decreases s.len(),
{
    if s.len() == 0 {
        (0, v.spare_bonus as int, v.strike_bonus as int)
    } else {
        let (score, spare, strike) = v3_state(s.drop_last(), v);
        let f = s.last();
        (
            score + v2_frame(f, spare, strike),
            if f is Spare {
                spare + v.spare_increment
            } else {
                spare
            },
            if f is Strike {
                strike + v.strike_increment
            } else {
                strike
            },
        )
    }
}

/// Total, next roll and the roll after it, for the frames of `s` taken right to left.
pub open spec fn v4_state(s: Seq<Frame>) -> (int, int, int)
    decreases s.len(),
{
    if s.len() == 0 {
        (0, 0, 0)
    } else {
        let (score, next, second) = v4_state(s.drop_first());
        match s[0] {
            Frame::Regular(a, b) => (score + a + b, a as int, b as int),
            Frame::Spare(a) => (score + 10 + next, a as int, 10 - a),
            Frame::Strike => (score + 10 + next + second, 10, next),
        }
    }
}

proof fn lemma_v1_bound(s: Seq<Frame>)
    ensures
        0 <= v1_score(s) <= 1100 * s.len(),
    decreases s.len(),
{
    if s.len() > 0 {
        lemma_v1_bound(s.drop_last());
    }
}

proof fn lemma_v2_bound(s: Seq<Frame>, spare: int, strike: int)
    requires
        0 <= spare <= 1000,
        0 <= strike <= 1000,
    ensures
        0 <= v2_score(s, spare, strike) <= 1100 * s.len(),
    decreases s.len(),
{
    if s.len() > 0 {
        lemma_v2_bound(s.drop_last(), spare, strike);
    }
}

proof fn lemma_v3_bound(s: Seq<Frame>, v: Variant3)
    requires
        v.wf(),
        s.len() <= MAX_FRAMES,
    ensures
        0 <= v3_state(s, v).0 <= 104000 * s.len(),
        v.spare_bonus <= v3_state(s, v).1 <= 1000 + 100 * s.len(),
        v.strike_bonus <= v3_state(s, v).2 <= 1000 + 100 * s.len(),
    decreases s.len(),
{
    if s.len() > 0 {
        lemma_v3_bound(s.drop_last(), v);
    }
}

proof fn lemma_v4_bound(s: Seq<Frame>)
    requires
        frames_wf(s),
    ensures
        0 <= v4_state(s).0 <= 1100 * s.len(),
        0 <= v4_state(s).1 <= 255,
        0 <= v4_state(s).2 <= 255,
    decreases s.len(),
{
    if s.len() > 0 {
        assert(frame_wf(s[0]));
        assert forall|i: int| 0 <= i < s.drop_first().len() implies frame_wf(
            #[trigger] s.drop_first()[i],
        ) by {
            assert(frame_wf(s[i + 1]));
        }
        lemma_v4_bound(s.drop_first());
    }
}

impl Variant3 {
    pub open spec fn wf(self) -> bool {
        self.spare_bonus <= 1000 && self.strike_bonus <= 1000 && self.spare_increment <= 100
            && self.strike_increment <= 100
    }
}

impl Default for Variant1 {
    fn default() -> (r: Variant1) {
        Variant1
    }
}

impl Default for Variant2 {
    fn default() -> (r: Variant2)
        ensures
            r.spare_bonus == 5,
            r.strike_bonus == 10,
    {
        Variant2 { spare_bonus: 5, strike_bonus: 10 }
    }
}

impl Default for Variant3 {
    fn default() -> (r: Variant3)
        ensures
            r.spare_bonus == 5,
            r.spare_increment == 1,
            r.strike_bonus == 10,
            r.strike_increment == 2,
    {
        Variant3 { spare_bonus: 5, spare_increment: 1, strike_bonus: 10, strike_increment: 2 }
    }
}

impl Default for Variant4 {
    fn default() -> (r: Variant4) {
        Variant4 {  }
    }
}

impl Default for Variant5 {
    fn default() -> (r: Variant5)
        ensures
            r.variant2.spare_bonus == 5,
            r.variant2.strike_bonus == 10,
            r.variant3.spare_bonus == 5,
            r.variant3.spare_increment == 1,
            r.variant3.strike_bonus == 10,
            r.variant3.strike_increment == 2,
    {
        Variant5 {
            variant1: Variant1::default(),
            variant2: Variant2::default(),
            variant3: Variant3::default(),
            variant4: Variant4::default(),
        }
    }
}

impl ScoreCalculator for Variant1 {
    open spec fn wf(&self) -> bool {
        true
    }

    open spec fn spec_score(&self, series: Seq<Frame>) -> int {
        v1_score(series)
    }

    fn calculate_score(&self, series: &[Frame]) -> (r: u32) {
        let mut score: u32 = 0;
        let mut i: usize = 0;
        while i < series.len()
            invariant
                0 <= i <= series@.len() <= MAX_FRAMES,
                score as int == v1_score(series@.subrange(0, i as int)),
            decreases series@.len() - i,
        {
            proof {
                assert(series@.subrange(0, i + 1).drop_last() =~= series@.subrange(0, i as int));
                lemma_v1_bound(series@.subrange(0, i + 1));
            }
            score = score + match series[i] {
                Frame::Regular(first, second) => first as u32 + second as u32,
                Frame::Spare(_) | Frame::Strike => 10u32,
            };
            i = i + 1;
        }
        assert(series@.subrange(0, i as int) =~= series@);
        score
    }
}

impl ScoreCalculator for Variant2 {
    open spec fn wf(&self) -> bool {
        self.spare_bonus <= 1000 && self.strike_bonus <= 1000
    }

    open spec fn spec_score(&self, series: Seq<Frame>) -> int {
        v2_score(series, self.spare_bonus as int, self.strike_bonus as int)
    }

    fn calculate_score(&self, series: &[Frame]) -> (r: u32) {
        let mut score: u32 = 0;
        let mut i: usize = 0;
        while i < series.len()
            invariant
                0 <= i <= series@.len() <= MAX_FRAMES,
                self.wf(),
                score as int == v2_score(
                    series@.subrange(0, i as int),
                    self.spare_bonus as int,
                    self.strike_bonus as int,
                ),
            decreases series@.len() - i,
        {
            proof {
                assert(series@.subrange(0, i + 1).drop_last() =~= series@.subrange(0, i as int));
                lemma_v2_bound(
                    series@.subrange(0, i + 1),
                    self.spare_bonus as int,
                    self.strike_bonus as int,
                );
            }
            score = score + match series[i] {
                Frame::Regular(first, second) => first as u32 + second as u32,
                Frame::Spare(_) => 10 + self.spare_bonus,
                Frame::Strike => 10 + self.strike_bonus,
            };
            i = i + 1;
        }
        assert(series@.subrange(0, i as int) =~= series@);
        score
    }
}

impl ScoreCalculator for Variant3 {
    open spec fn wf(&self) -> bool {
        Variant3::wf(*self)
    }

    open spec fn spec_score(&self, series: Seq<Frame>) -> int {
        v3_state(series, *self).0
    }

    fn calculate_score(&self, series: &[Frame]) -> (r: u32) {
        let mut score: u32 = 0;
        let mut spare_bonus: u32 = self.spare_bonus;
        let mut strike_bonus: u32 = self.strike_bonus;
        let mut i: usize = 0;
        while i < series.len()
            invariant
                0 <= i <= series@.len() <= MAX_FRAMES,
                Variant3::wf(*self),
                v3_state(series@.subrange(0, i as int), *self) == (
                    score as int,
                    spare_bonus as int,
                    strike_bonus as int,
                ),
            decreases series@.len() - i,
        {
            proof {
                assert(series@.subrange(0, i + 1).drop_last() =~= series@.subrange(0, i as int));
                lemma_v3_bound(series@.subrange(0, i as int), *self);
                lemma_v3_bound(series@.subrange(0, i + 1), *self);
            }
            let frame = series[i];
            score = score + match frame {
                Frame::Regular(first, second) => first as u32 + second as u32,
                Frame::Spare(_) => 10 + spare_bonus,
                Frame::Strike => 10 + strike_bonus,
            };
            match frame {
                Frame::Regular(_, _) => {},
                Frame::Spare(_) => {
                    spare_bonus = spare_bonus + self.spare_increment;
                },
                Frame::Strike => {
                    strike_bonus = strike_bonus + self.strike_increment;
                },
            }
            i = i + 1;
        }
        assert(series@.subrange(0, i as int) =~= series@);
        score
    }
}

impl ScoreCalculator for Variant4 {
    open spec fn wf(&self) -> bool {
        true
    }

    open spec fn spec_score(&self, series: Seq<Frame>) -> int {
        v4_state(series).0
    }

    fn calculate_score(&self, series: &[Frame]) -> (r: u32) {
        let n = series.len();
        let mut score: u32 = 0;
        let mut next_roll: u8 = 0;
        let mut second_next_roll: u8 = 0;
        let mut i: usize = n;
        assert(series@.subrange(n as int, n as int) =~= Seq::<Frame>::empty());
        while i > 0
            invariant
                0 <= i <= n == series@.len() <= MAX_FRAMES,
                frames_wf(series@),
                v4_state(series@.subrange(i as int, n as int)) == (
                    score as int,
                    next_roll as int,
                    second_next_roll as int,
                ),
            decreases i,
        {
            let ghost rest = series@.subrange(i - 1, n as int);
            proof {
                assert(rest.drop_first() =~= series@.subrange(i as int, n as int));
                assert forall|j: int| 0 <= j < rest.len() implies frame_wf(#[trigger] rest[j]) by {
                    assert(frame_wf(series@[i - 1 + j]));
                }
                lemma_v4_bound(rest);
            }
            let frame = series[i - 1];
            score = score + match frame {
                Frame::Regular(first, second) => first as u32 + second as u32,
                Frame::Spare(_) => 10 + next_roll as u32,
                Frame::Strike => 10 + next_roll as u32 + second_next_roll as u32,
            };
            let (a, b) = match frame {
                Frame::Regular(first, second) => (first, second),
                Frame::Spare(first) => (first, 10 - first),
                Frame::Strike => (10u8, next_roll),
            };
            next_roll = a;
            second_next_roll = b;
            i = i - 1;
        }
        assert(series@.subrange(0, n as int) =~= series@);
        score
    }
}

impl ScoreCalculator for Variant5 {
    open spec fn wf(&self) -> bool {
        self.variant2.wf() && Variant3::wf(self.variant3)
    }

    open spec fn spec_score(&self, series: Seq<Frame>) -> int {
        self.variant1.spec_score(series) + self.variant2.spec_score(series)
            + self.variant3.spec_score(series) + self.variant4.spec_score(series)
    }

    fn calculate_score(&self, series: &[Frame]) -> (r: u32) {
        let s1 = self.variant1.calculate_score(series);
        let s2 = self.variant2.calculate_score(series);
        let s3 = self.variant3.calculate_score(series);
        let s4 = self.variant4.calculate_score(series);
        proof {
            lemma_v1_bound(series@);
            lemma_v2_bound(
                series@,
                self.variant2.spare_bonus as int,
                self.variant2.strike_bonus as int,
            );
            lemma_v3_bound(series@, self.variant3);
            lemma_v4_bound(series@);
        }
        s1 + s2 + s3 + s4
    }
}

/// What `char::is_numeric` says of a character: one of Unicode's number categories.
pub uninterp spec fn numeric(c: char) -> bool;

/// Relies on char::is_numeric: a Unicode number; among ASCII exactly the digits.
#[verifier::external_body]
fn is_numeric(c: char) -> (r: bool)
    ensures
        r == numeric(c),
        (c as u32) < 128 ==> (r <==> ('0' <= c && c <= '9')),
{
    c.is_numeric()
}

pub open spec fn is_digit(c: char) -> bool {
    '0' <= c && c <= '9'
}

pub open spec fn decimal_value(s: Seq<char>) -> int
    decreases s.len(),
{
    if s.len() == 0 {
        0
    } else {
        decimal_value(s.drop_last()) * 10 + (s.last() as u32 - '0' as u32)
    }
}

/// The count that a decimal text names: an optional `+`, then one or more ASCII digits
/// whose value is at most 255.
pub open spec fn u8_text(s: Seq<char>) -> Option<u8> {
    let d = if s.len() > 0 && s[0] == '+' {
        s.drop_first()
    } else {
        s
    };
    if d.len() > 0 && (forall|i: int| 0 <= i < d.len() ==> is_digit(#[trigger] d[i]))
        && decimal_value(d) <= 255 {
        Some(decimal_value(d) as u8)
    } else {
        None
    }
}

/// Relies on u8's FromStr: accepts exactly the texts that `u8_text` describes.
#[verifier::external_body]
fn parse_u8(s: &str) -> (r: Option<u8>)
    ensures
        r == u8_text(s@),
{
    <u8 as core::str::FromStr>::from_str(s).ok()
}

/// The index of the first numeric character, or the length where there is none.
pub open spec fn numeric_index(s: Seq<char>) -> int
    decreases s.len(),
{
    if s.len() == 0 {
        0
    } else if numeric(s[0]) {
        0
    } else {
        1 + numeric_index(s.drop_first())
    }
}

pub open spec fn trim_start(s: Seq<char>) -> Seq<char>
    decreases s.len(),
{
    if s.len() > 0 && white_space(s[0]) {
        trim_start(s.drop_first())
    } else {
        s
    }
}

pub open spec fn trim_end(s: Seq<char>) -> Seq<char>
    decreases s.len(),
{
    if s.len() > 0 && white_space(s.last()) {
        trim_end(s.drop_last())
    } else {
        s
    }
}

/// The text without white space at either end.
pub open spec fn trimmed(s: Seq<char>) -> Seq<char> {
    trim_end(trim_start(s))
}

/// The pieces between single separators; `n` separators give `n + 1` pieces, empty ones
/// included.
pub open spec fn split_on(s: Seq<char>, sep: char) -> Seq<Seq<char>>
    decreases s.len(),
{
    if s.len() == 0 {
        seq![Seq::<char>::empty()]
    } else {
        let t = split_on(s.drop_last(), sep);
        if s.last() == sep {
            t.push(Seq::empty())
        } else {
            t.update(t.len() - 1, t.last().push(s.last()))
        }
    }
}

/// The counts of the pieces, or `None` where one of them names none.
pub open spec fn rolls_of(toks: Seq<Seq<char>>) -> Option<Seq<u8>>
    decreases toks.len(),
{
    if toks.len() == 0 {
        Some(Seq::empty())
    } else {
        match rolls_of(toks.drop_last()) {
            None => None,
            Some(r) => match u8_text(toks.last()) {
                None => None,
                Some(v) => Some(r.push(v)),
            },
        }
    }
}

/// The frames of a series of rolls: ten alone is a strike, two that make ten a spare,
/// any other two a regular frame. `None` where a first roll under ten ends the series.
pub open spec fn frames_of(rolls: Seq<u8>) -> Option<Seq<Frame>>
    decreases rolls.len(),
{
    if rolls.len() == 0 {
        Some(Seq::empty())
    } else if rolls[0] == 10 {
        match frames_of(rolls.drop_first()) {
            None => None,
            Some(f) => Some(seq![Frame::Strike] + f),
        }
    } else if rolls.len() == 1 {
        None
    } else {
        let fr = if rolls[0] + rolls[1] == 10 {
            Frame::Spare(rolls[0])
        } else {
            Frame::Regular(rolls[0], rolls[1])
        };
        match frames_of(rolls.subrange(2, rolls.len() as int)) {
            None => None,
            Some(f) => Some(seq![fr] + f),
        }
    }
}

/// The name and score of a line: the name runs up to the first numeric character and
/// is trimmed; the rolls follow, separated by single spaces. A line without a numeric
/// character scores 0.
pub open spec fn line_score<V: ScoreCalculator>(variant: V, line: Seq<char>) -> Result<
    (Seq<char>, int),
    ScoreError,
> {
    let k = numeric_index(line);
    if k >= line.len() {
        Ok((trimmed(line), 0))
    } else {
        match rolls_of(split_on(line.subrange(k, line.len() as int), ' ')) {
            None => Err(ScoreError::InvalidRoll),
            Some(rolls) => match frames_of(rolls) {
                None => Err(ScoreError::InvalidScorecard),
                Some(frames) => Ok((trimmed(line.subrange(0, k)), variant.spec_score(frames))),
            },
        }
    }
}

proof fn lemma_numeric_index(s: Seq<char>, i: int)
    requires
        0 <= i <= s.len(),
        forall|j: int| 0 <= j < i ==> !numeric(#[trigger] s[j]),
        i < s.len() ==> numeric(s[i]),
    ensures
        numeric_index(s) == i,
    decreases i,
{
    if i > 0 {
        assert forall|j: int| 0 <= j < i - 1 implies !numeric(#[trigger] s.drop_first()[j]) by {
            assert(!numeric(s[j + 1]));
        }
        lemma_numeric_index(s.drop_first(), i - 1);
    }
}

proof fn lemma_trim_start(s: Seq<char>, i: int)
    requires
        0 <= i <= s.len(),
        forall|j: int| 0 <= j < i ==> white_space(#[trigger] s[j]),
        i < s.len() ==> !white_space(s[i]),
    ensures
        trim_start(s) == s.subrange(i, s.len() as int),
    decreases i,
{
    if i > 0 {
        assert forall|j: int| 0 <= j < i - 1 implies white_space(#[trigger] s.drop_first()[j]) by {
            assert(white_space(s[j + 1]));
        }
        lemma_trim_start(s.drop_first(), i - 1);
        assert(s.drop_first().subrange(i - 1, s.len() - 1) =~= s.subrange(i, s.len() as int));
    } else {
        assert(s.subrange(0, s.len() as int) =~= s);
    }
}

proof fn lemma_trim_end(s: Seq<char>, j: int)
    requires
        0 <= j <= s.len(),
        forall|x: int| j <= x < s.len() ==> white_space(#[trigger] s[x]),
        j > 0 ==> !white_space(s[j - 1]),
    ensures
        trim_end(s) == s.subrange(0, j),
    decreases s.len() - j,
{
    if j < s.len() {
        lemma_trim_end(s.drop_last(), j);
        assert(s.drop_last().subrange(0, j) =~= s.subrange(0, j));
    } else {
        assert(s.subrange(0, j) =~= s);
    }
}

/// `s[0..end]` without white space at either end.
fn trim_range(s: &Vec<char>, end: usize) -> (r: Vec<char>)
    requires
        end <= s.len(),
    ensures
        r@ == trimmed(s@.subrange(0, end as int)),
{
    let ghost u = s@.subrange(0, end as int);
    let mut a: usize = 0;
    while a < end && is_space(s[a])
        invariant
            0 <= a <= end <= s.len(),
            u == s@.subrange(0, end as int),
            forall|j: int| 0 <= j < a ==> white_space(#[trigger] u[j]),
        decreases end - a,
    {
        a = a + 1;
    }
    proof {
        lemma_trim_start(u, a as int);
    }
    let ghost w = u.subrange(a as int, end as int);
    let mut b: usize = end;
    while b > a && is_space(s[b - 1])
        invariant
            0 <= a <= b <= end <= s.len(),
            u == s@.subrange(0, end as int),
            w == u.subrange(a as int, end as int),
            forall|x: int| b - a <= x < w.len() ==> white_space(#[trigger] w[x]),
        decreases b,
    {
        b = b - 1;
    }
    proof {
        lemma_trim_end(w, b - a);
    }
    let mut r: Vec<char> = Vec::new();
    let mut i: usize = a;
    while i < b
        invariant
            a <= i <= b <= end <= s.len(),
            r@ == s@.subrange(a as int, i as int),
        decreases b - i,
    {
        r.push(s[i]);
        assert(r@ =~= s@.subrange(a as int, i + 1));
        i = i + 1;
    }
    assert(w.subrange(0, b - a) =~= r@);
    r
}

/// The pieces of `s[start..]` between single separators.
fn split_range(s: &Vec<char>, start: usize, sep: char) -> (r: Vec<Vec<char>>)
    requires
        start <= s.len(),
    ensures
        r@.map_values(|v: Vec<char>| v@) == split_on(s@.subrange(start as int, s.len() as int), sep),
        r@.len() <= s.len() - start + 1,
{
    let mut toks: Vec<Vec<char>> = Vec::new();
    let mut cur: Vec<char> = Vec::new();
    let mut i: usize = start;
    assert(s@.subrange(start as int, start as int) =~= Seq::<char>::empty());
    assert(toks@.map_values(|v: Vec<char>| v@).push(cur@) =~= seq![Seq::<char>::empty()]);
    while i < s.len()
        invariant
            start <= i <= s.len(),
            toks@.len() <= i - start,
            toks@.map_values(|v: Vec<char>| v@).push(cur@) == split_on(
                s@.subrange(start as int, i as int),
                sep,
            ),
        decreases s.len() - i,
    {
        let c = s[i];
        let ghost before = toks@.map_values(|v: Vec<char>| v@).push(cur@);
        assert(s@.subrange(start as int, i + 1).drop_last() =~= s@.subrange(
            start as int,
            i as int,
        ));
        if c == sep {
            toks.push(cur);
            cur = Vec::new();
            assert(toks@.map_values(|v: Vec<char>| v@).push(cur@) =~= before.push(
                Seq::empty(),
            ));
        } else {
            cur.push(c);
            assert(toks@.map_values(|v: Vec<char>| v@).push(cur@) =~= before.update(
                before.len() - 1,
                before.last().push(c),
            ));
        }
        i = i + 1;
    }
    let ghost last = toks@.map_values(|v: Vec<char>| v@).push(cur@);
    toks.push(cur);
    assert(toks@.map_values(|v: Vec<char>| v@) =~= last);
    assert(s@.subrange(start as int, i as int) =~= s@.subrange(start as int, s.len() as int));
    toks
}

/// A piece that names no count is the failure of the whole line.
proof fn lemma_rolls_none_extends(toks: Seq<Seq<char>>, n: int)
    requires
        0 <= n <= toks.len(),
        rolls_of(toks.subrange(0, n)) is None,
    ensures
        rolls_of(toks) is None,
    decreases toks.len(),
{
    if n < toks.len() {
        assert(toks.drop_last().subrange(0, n) =~= toks.subrange(0, n));
        lemma_rolls_none_extends(toks.drop_last(), n);
    } else {
        assert(toks.subrange(0, n) =~= toks);
    }
}

/// The counts of all pieces, or `None` where one of them names none.
fn parse_rolls(toks: &Vec<Vec<char>>) -> (r: Option<Vec<u8>>)
    ensures
        match r {
            Some(v) => rolls_of(toks@.map_values(|t: Vec<char>| t@)) == Some(v@),
            None => rolls_of(toks@.map_values(|t: Vec<char>| t@)) is None,
        },
        r matches Some(v) ==> v@.len() == toks@.len(),
{
    let ghost all = toks@.map_values(|t: Vec<char>| t@);
    let mut rolls: Vec<u8> = Vec::new();
    let mut i: usize = 0;
    assert(all.subrange(0, 0) =~= Seq::<Seq<char>>::empty());
    while i < toks.len()
        invariant
            0 <= i <= toks@.len(),
            all == toks@.map_values(|t: Vec<char>| t@),
            rolls@.len() == i,
            rolls_of(all.subrange(0, i as int)) == Some(rolls@),
        decreases toks@.len() - i,
    {
        assert(all.subrange(0, i + 1).drop_last() =~= all.subrange(0, i as int));
        let text = string_of(&toks[i]);
        match parse_u8(text.as_str()) {
            Some(v) => rolls.push(v),
            None => {
                proof {
                    lemma_rolls_none_extends(all, i + 1);
                }
                return None;
            },
        }
        i = i + 1;
    }
    assert(all.subrange(0, i as int) =~= all);
    Some(rolls)
}

/// The frames of a series of rolls, or `None` where it ends on a lone first roll.
fn frames_from_rolls(rolls: &Vec<u8>) -> (r: Option<Vec<Frame>>)
    ensures
        match r {
            Some(f) => frames_of(rolls@) == Some(f@) && frames_wf(f@) && f@.len() <= rolls@.len(),
            None => frames_of(rolls@) is None,
        },
{
    let n = rolls.len();
    let mut frames: Vec<Frame> = Vec::new();
    let mut i: usize = 0;
    assert(rolls@.subrange(0, n as int) =~= rolls@);
    while i < n
        invariant
            0 <= i <= n == rolls@.len(),
            frames@.len() <= i,
            frames_wf(frames@),
            frames_of(rolls@) == match frames_of(rolls@.subrange(i as int, n as int)) {
                None => None,
                Some(t) => Some(frames@ + t),
            },
        decreases n - i,
    {
        let ghost rest = rolls@.subrange(i as int, n as int);
        let ghost before = frames@;
        let first = rolls[i];
        if first == 10 {
            assert(rest.drop_first() =~= rolls@.subrange(i + 1, n as int));
            frames.push(Frame::Strike);
            assert forall|t: Seq<Frame>| before + (seq![Frame::Strike] + t) == frames@ + t by {
                assert(before + (seq![Frame::Strike] + t) =~= frames@ + t);
            }
            i = i + 1;
        } else if i + 1 == n {
            return None;
        } else {
            let second = rolls[i + 1];
            let fr = if first as u32 + second as u32 == 10 {
                Frame::Spare(first)
            } else {
                Frame::Regular(first, second)
            };
            assert(rest.subrange(2, rest.len() as int) =~= rolls@.subrange(i + 2, n as int));
            frames.push(fr);
            assert forall|t: Seq<Frame>| before + (seq![fr] + t) == frames@ + t by {
                assert(before + (seq![fr] + t) =~= frames@ + t);
            }
            i = i + 2;
        }
    }
    assert(rolls@.subrange(n as int, n as int) =~= Seq::<u8>::empty());
    assert(frames@ + Seq::<Frame>::empty() =~= frames@);
    Some(frames)
}

/// Whether a line's result matches one of sequences.
pub open spec fn same_score(r: Result<(String, u32), ScoreError>, s: Result<(Seq<char>, int), ScoreError>) -> bool {
    match r {
        Ok((name, score)) => s == Ok::<(Seq<char>, int), ScoreError>((name@, score as int)),
        Err(e) => s == Err::<(Seq<char>, int), ScoreError>(e),
    }
}

/// Scores one line of a scorecard: its trimmed name and the total that `variant` gives
/// its frames.
pub fn calculate_score<V: ScoreCalculator>(line: &str, variant: &V) -> (r: Result<
    (String, u32),
    ScoreError,
>)
    requires
        variant.wf(),
        line@.len() <= MAX_LINE,
    ensures
        same_score(r, line_score(*variant, line@)),
{
    score_chars(&chars_of(line), variant)
}

fn score_chars<V: ScoreCalculator>(s: &Vec<char>, variant: &V) -> (r: Result<(String, u32), ScoreError>)
    requires
        variant.wf(),
        s@.len() <= MAX_LINE,
    ensures
        same_score(r, line_score(*variant, s@)),
{
    let n = s.len();
    let mut k: usize = 0;
    while k < n && !is_numeric(s[k])
        invariant
            0 <= k <= n == s@.len(),
            forall|j: int| 0 <= j < k ==> !numeric(#[trigger] s@[j]),
        decreases n - k,
    {
        k = k + 1;
    }
    proof {
        lemma_numeric_index(s@, k as int);
    }
    if k == n {
        assert(s@.subrange(0, n as int) =~= s@);
        let name = string_of(&trim_range(s, n));
        return Ok((name, 0));
    }
    let toks = split_range(s, k, ' ');
    let rolls = match parse_rolls(&toks) {
        Some(r) => r,
        None => {
            return Err(ScoreError::InvalidRoll);
        },
    };
    let frames = match frames_from_rolls(&rolls) {
        Some(f) => f,
        None => {
            return Err(ScoreError::InvalidScorecard);
        },
    };
    let score = variant.calculate_score(frames.as_slice());
    let name = string_of(&trim_range(s, k));
    Ok((name, score))
}

/// Why no winner could be named.
#[derive(Clone, Copy, Debug, PartialEq, Eq, Structural)]
pub enum WinnerError {
    /// The first line that could not be scored, and why.
    Score(ScoreError),
    /// No line at all.
    NoParticipants,
    /// A participant's total does not fit in `u32`.
    ScoreOverflow,
}

/// The lines of all scorecards, in order: each scorecard split at every `'\n'`.
pub open spec fn card_lines(cards: Seq<Seq<char>>) -> Seq<Seq<char>>
    decreases cards.len(),
{
    if cards.len() == 0 {
        Seq::empty()
    } else {
        card_lines(cards.drop_last()) + split_on(cards.last(), '\n')
    }
}

/// The name and score of every line, or the failure of the first line that has one.
pub open spec fn scored_lines<V: ScoreCalculator>(variant: V, lines: Seq<Seq<char>>) -> Result<
    Seq<(Seq<char>, int)>,
    ScoreError,
>
    decreases lines.len(),
{
    if lines.len() == 0 {
        Ok(Seq::empty())
    } else {
        match scored_lines(variant, lines.drop_last()) {
            Err(e) => Err(e),
            Ok(sc) => match line_score(variant, lines.last()) {
                Err(e) => Err(e),
                Ok(x) => Ok(sc.push(x)),
            },
        }
    }
}

/// The sum of the scores of the lines that carry `name`.
pub open spec fn total_of(sc: Seq<(Seq<char>, int)>, name: Seq<char>) -> int
    decreases sc.len(),
{
    if sc.len() == 0 {
        0
    } else {
        total_of(sc.drop_last(), name) + if sc.last().0 == name {
            sc.last().1
        } else {
            0
        }
    }
}

/// The outcome owed for these scorecards: the first line failure; else no participants;
/// else an overflowing total; else a participant whose total no other total exceeds.
pub open spec fn winner_of<V: ScoreCalculator>(
    variant: V,
    cards: Seq<Seq<char>>,
    r: Result<(String, u32), WinnerError>,
) -> bool {
    match scored_lines(variant, card_lines(cards)) {
        Err(e) => r == Err::<(String, u32), WinnerError>(WinnerError::Score(e)),
        Ok(sc) => if sc.len() == 0 {
            r == Err::<(String, u32), WinnerError>(WinnerError::NoParticipants)
        } else if exists|l: int| 0 <= l < sc.len() && total_of(sc, #[trigger] sc[l].0) > u32::MAX {
            r == Err::<(String, u32), WinnerError>(WinnerError::ScoreOverflow)
        } else {
            &&& r is Ok
            &&& exists|l: int| 0 <= l < sc.len() && #[trigger] sc[l].0 == r->Ok_0.0@
            &&& r->Ok_0.1 as int == total_of(sc, r->Ok_0.0@)
            &&& forall|l: int| 0 <= l < sc.len() ==> total_of(sc, #[trigger] sc[l].0) <= r->Ok_0.1
        },
    }
}

/// Every line of every scorecard is short enough to score.
pub open spec fn lines_within_limit(cards: Seq<Seq<char>>) -> bool {
    forall|c: int, j: int|
        0 <= c < cards.len() && 0 <= j < split_on(cards[c], '\n').len() ==> (#[trigger] split_on(
            cards[c],
            '\n',
        )[j]).len() <= MAX_LINE
}

pub open spec fn name_score_pairs(names: Seq<String>, scores: Seq<u32>) -> Seq<(Seq<char>, int)> {
    Seq::new(names.len(), |l: int| (names[l]@, scores[l] as int))
}

proof fn lemma_card_lines_concat(a: Seq<Seq<char>>, b: Seq<Seq<char>>)
    ensures
        card_lines(a + b) == card_lines(a) + card_lines(b),
    decreases b.len(),
{
    if b.len() == 0 {
        assert(a + b =~= a);
        assert(card_lines(a) + card_lines(b) =~= card_lines(a));
    } else {
        assert((a + b).drop_last() =~= a + b.drop_last());
        lemma_card_lines_concat(a, b.drop_last());
        assert(card_lines(a + b) =~= card_lines(a) + card_lines(b));
    }
}

proof fn lemma_scored_error_extends<V: ScoreCalculator>(
    variant: V,
    a: Seq<Seq<char>>,
    b: Seq<Seq<char>>,
)
    requires
        scored_lines(variant, a) is Err,
    ensures
        scored_lines(variant, a + b) == scored_lines(variant, a),
    decreases b.len(),
{
    if b.len() == 0 {
        assert(a + b =~= a);
    } else {
        assert((a + b).drop_last() =~= a + b.drop_last());
        lemma_scored_error_extends(variant, a, b.drop_last());
    }
}

proof fn lemma_total_absent(sc: Seq<(Seq<char>, int)>, name: Seq<char>)
    requires
        forall|l: int| 0 <= l < sc.len() ==> (#[trigger] sc[l]).0 != name,
    ensures
        total_of(sc, name) == 0,
    decreases sc.len(),
{
    if sc.len() > 0 {
        lemma_total_absent(sc.drop_last(), name);
    }
}

proof fn lemma_total_prefix(sc: Seq<(Seq<char>, int)>, i: int, name: Seq<char>)
    requires
        0 <= i <= sc.len(),
        forall|l: int| 0 <= l < sc.len() ==> (#[trigger] sc[l]).1 >= 0,
    ensures
        total_of(sc.take(i), name) <= total_of(sc, name),
    decreases sc.len(),
{
    if i == sc.len() {
        assert(sc.take(i) =~= sc);
    } else {
        assert(sc.drop_last().take(i) =~= sc.take(i));
        lemma_total_prefix(sc.drop_last(), i, name);
    }
}

/// Scores every line of every scorecard, in order.
fn score_all<V: ScoreCalculator>(scorecards: &[&str], variant: &V) -> (r: Result<
    (Vec<String>, Vec<u32>),
    ScoreError,
>)
    requires
        variant.wf(),
        lines_within_limit(scorecards@.map_values(|c: &str| c@)),
    ensures
        match r {
            Ok((names, scores)) => names@.len() == scores@.len() && scored_lines(
                *variant,
                card_lines(scorecards@.map_values(|c: &str| c@)),
            ) == Ok::<Seq<(Seq<char>, int)>, ScoreError>(name_score_pairs(names@, scores@)),
            Err(e) => scored_lines(*variant, card_lines(scorecards@.map_values(|c: &str| c@)))
                == Err::<Seq<(Seq<char>, int)>, ScoreError>(e),
        },
{
    let ghost cards = scorecards@.map_values(|c: &str| c@);
    let mut names: Vec<String> = Vec::new();
    let mut scores: Vec<u32> = Vec::new();
    let mut c: usize = 0;
    assert(cards.take(0) =~= Seq::<Seq<char>>::empty());
    assert(name_score_pairs(names@, scores@) =~= Seq::<(Seq<char>, int)>::empty());
    while c < scorecards.len()
        invariant
            0 <= c <= scorecards@.len(),
            cards == scorecards@.map_values(|c: &str| c@),
            variant.wf(),
            lines_within_limit(cards),
            names@.len() == scores@.len(),
            scored_lines(*variant, card_lines(cards.take(c as int))) == Ok::<
                Seq<(Seq<char>, int)>,
                ScoreError,
            >(name_score_pairs(names@, scores@)),
        decreases scorecards@.len() - c,
    {
        let chars = chars_of(scorecards[c]);
        assert(chars@.subrange(0, chars@.len() as int) =~= chars@);
        let pieces = split_range(&chars, 0, '\n');
        let ghost pv = pieces@.map_values(|v: Vec<char>| v@);
        let ghost done = card_lines(cards.take(c as int));
        assert(pv == split_on(cards[c as int], '\n'));
        assert(done + pv.take(0) =~= done);
        let mut j: usize = 0;
        while j < pieces.len()
            invariant
                0 <= j <= pieces@.len(),
                c < scorecards@.len(),
                cards == scorecards@.map_values(|c: &str| c@),
                pv == pieces@.map_values(|v: Vec<char>| v@),
                pv == split_on(cards[c as int], '\n'),
                done == card_lines(cards.take(c as int)),
                variant.wf(),
                lines_within_limit(cards),
                names@.len() == scores@.len(),
                scored_lines(*variant, done + pv.take(j as int)) == Ok::<
                    Seq<(Seq<char>, int)>,
                    ScoreError,
                >(name_score_pairs(names@, scores@)),
            decreases pieces@.len() - j,
        {
            let ghost upto = done + pv.take(j + 1);
            assert(upto.drop_last() =~= done + pv.take(j as int));
            assert(upto.last() == pv[j as int]);
            assert(pv[j as int].len() <= MAX_LINE);
            assert(pieces@[j as int]@ == pv[j as int]);
            let ghost old_pairs = name_score_pairs(names@, scores@);
            match score_chars(&pieces[j], variant) {
                Ok((name, score)) => {
                    let ghost nv = name@;
                    names.push(name);
                    scores.push(score);
                    assert(name_score_pairs(names@, scores@) =~= old_pairs.push((nv, score as int)));
                },
                Err(e) => {
                    proof {
                        let rest = pv.skip(j + 1) + card_lines(cards.skip(c + 1));
                        assert(cards =~= cards.take(c as int) + seq![cards[c as int]] + cards.skip(
                            c + 1,
                        ));
                        lemma_card_lines_concat(
                            cards.take(c as int) + seq![cards[c as int]],
                            cards.skip(c + 1),
                        );
                        lemma_card_lines_concat(cards.take(c as int), seq![cards[c as int]]);
                        let one = seq![cards[c as int]];
                        assert(one.drop_last() =~= Seq::<Seq<char>>::empty());
                        assert(card_lines(one.drop_last()) == Seq::<Seq<char>>::empty());
                        assert(card_lines(one) =~= pv);
                        assert(card_lines(cards) =~= upto + rest);
                        lemma_scored_error_extends(*variant, upto, rest);
                    }
                    return Err(e);
                },
            }
            j = j + 1;
        }
        proof {
            assert(cards.take(c + 1).drop_last() =~= cards.take(c as int));
            assert(pv.take(j as int) =~= pv);
        }
        c = c + 1;
    }
    assert(cards.take(c as int) =~= cards);
    Ok((names, scores))
}

/// `name` stands in the table.
pub open spec fn has_name(tn: Seq<Seq<char>>, name: Seq<char>) -> bool {
    exists|a: int| 0 <= a < tn.len() && tn[a] == name
}

/// A table of distinct names, each with its total over `sc`, holding exactly the names
/// of `sc`.
pub open spec fn table_ok(sc: Seq<(Seq<char>, int)>, tn: Seq<Seq<char>>, tt: Seq<u32>) -> bool {
    &&& tn.len() == tt.len()
    &&& forall|a: int, b: int| 0 <= a < b < tn.len() ==> tn[a] != tn[b]
    &&& forall|a: int| 0 <= a < tn.len() ==> #[trigger] tt[a] as int == total_of(sc, tn[a])
    &&& forall|l: int| 0 <= l < sc.len() ==> has_name(tn, #[trigger] sc[l].0)
    &&& forall|a: int|
        #![trigger tn[a]]
        0 <= a < tn.len() ==> exists|l: int| 0 <= l < sc.len() && #[trigger] sc[l].0 == tn[a]
}

proof fn lemma_table_add(sc: Seq<(Seq<char>, int)>, i: int, tn: Seq<Seq<char>>, tt: Seq<u32>, a: int, total: u32)
    requires
        0 <= i < sc.len(),
        table_ok(sc.take(i), tn, tt),
        0 <= a < tn.len(),
        tn[a] == sc[i].0,
        total as int == tt[a] + sc[i].1,
    ensures
        table_ok(sc.take(i + 1), tn, tt.update(a, total)),
{
    let s0 = sc.take(i);
    let s1 = sc.take(i + 1);
    assert(s1.drop_last() =~= s0);
    let tt1 = tt.update(a, total);
    assert forall|b: int| 0 <= b < tn.len() implies #[trigger] tt1[b] as int == total_of(s1, tn[b]) by {
        if b != a {
            if b < a {
                assert(tn[b] != tn[a]);
            } else {
                assert(tn[a] != tn[b]);
            }
        }
    }
    assert forall|l: int| 0 <= l < s1.len() implies has_name(tn, #[trigger] s1[l].0) by {
        if l < i {
            assert(s0[l] == s1[l]);
            assert(has_name(tn, s0[l].0));
        } else {
            assert(tn[a] == s1[l].0);
        }
    }
    assert forall|b: int| #![trigger tn[b]] 0 <= b < tn.len() implies exists|l: int| 0 <= l < s1.len() && #[trigger] s1[l].0 == tn[b] by {
        let l = choose|l: int| 0 <= l < s0.len() && #[trigger] s0[l].0 == tn[b];
        assert(s1[l] == s0[l]);
    }
}

proof fn lemma_table_new(sc: Seq<(Seq<char>, int)>, i: int, tn: Seq<Seq<char>>, tt: Seq<u32>, score: u32)
    requires
        0 <= i < sc.len(),
        table_ok(sc.take(i), tn, tt),
        !has_name(tn, sc[i].0),
        score as int == sc[i].1,
    ensures
        table_ok(sc.take(i + 1), tn.push(sc[i].0), tt.push(score)),
{
    let s0 = sc.take(i);
    let s1 = sc.take(i + 1);
    let name = sc[i].0;
    assert(s1.drop_last() =~= s0);
    assert forall|l: int| 0 <= l < s0.len() implies (#[trigger] s0[l]).0 != name by {
        assert(has_name(tn, s0[l].0));
    }
    lemma_total_absent(s0, name);
    let tn1 = tn.push(name);
    let tt1 = tt.push(score);
    let n = tn.len() as int;
    assert forall|b: int| 0 <= b < tn1.len() implies #[trigger] tt1[b] as int == total_of(s1, tn1[b]) by {
        if b < n {
            assert(tn[b] != name);
            assert(tt1[b] == tt[b]);
        }
    }
    assert forall|x: int, y: int| 0 <= x < y < tn1.len() implies tn1[x] != tn1[y] by {
        if y == n {
            assert(tn[x] != name);
        }
    }
    assert forall|l: int| 0 <= l < s1.len() implies has_name(tn1, #[trigger] s1[l].0) by {
        if l < i {
            assert(s0[l] == s1[l]);
            assert(has_name(tn, s0[l].0));
            let x = choose|x: int| 0 <= x < tn.len() && tn[x] == s0[l].0;
            assert(tn1[x] == tn[x]);
        } else {
            assert(tn1[n] == s1[l].0);
        }
    }
    assert forall|b: int| #![trigger tn1[b]] 0 <= b < tn1.len() implies exists|l: int| 0 <= l < s1.len() && #[trigger] s1[l].0 == tn1[b] by {
        if b == n {
            assert(s1[i].0 == tn1[b]);
        } else {
            let l = choose|l: int| 0 <= l < s0.len() && #[trigger] s0[l].0 == tn[b];
            assert(s1[l] == s0[l]);
        }
    }
}

/// The distinct names of the lines with their totals, or `None` where a total does not fit
/// in `u32`.
fn group_totals(names: &Vec<String>, scores: &Vec<u32>) -> (r: Option<(Vec<String>, Vec<u32>)>)
    requires
        names@.len() == scores@.len(),
    ensures
        match r {
            Some((tn, tt)) => table_ok(
                name_score_pairs(names@, scores@),
                tn@.map_values(|s: String| s@),
                tt@,
            ),
            None => exists|l: int|
                0 <= l < names@.len() && total_of(
                    name_score_pairs(names@, scores@),
                    #[trigger] name_score_pairs(names@, scores@)[l].0,
                ) > u32::MAX,
        },
{
    let ghost sc = name_score_pairs(names@, scores@);
    let m = names.len();
    let mut tn: Vec<String> = Vec::new();
    let mut tt: Vec<u32> = Vec::new();
    let mut i: usize = 0;
    assert(table_ok(sc.take(0), tn@.map_values(|s: String| s@), tt@));
    while i < m
        invariant
            0 <= i <= m == names@.len() == scores@.len(),
            sc == name_score_pairs(names@, scores@),
            table_ok(sc.take(i as int), tn@.map_values(|s: String| s@), tt@),
        decreases m - i,
    {
        let ghost tv = tn@.map_values(|s: String| s@);
        let mut a: usize = 0;
        while a < tn.len() && !(tn[a] == names[i])
            invariant
                0 <= a <= tn@.len(),
                i < names@.len(),
                tv == tn@.map_values(|s: String| s@),
                forall|x: int| 0 <= x < a ==> tv[x] != names@[i as int]@,
            decreases tn@.len() - a,
        {
            a = a + 1;
        }
        if a < tn.len() {
            assert(tv[a as int] == sc[i as int].0);
            if tt[a] as u64 + scores[i] as u64 > 4294967295u64 {
                proof {
                    let s1 = sc.take(i + 1);
                    assert(s1.drop_last() =~= sc.take(i as int));
                    assert forall|l: int| 0 <= l < sc.len() implies (#[trigger] sc[l]).1 >= 0 by {}
                    lemma_total_prefix(sc, i + 1, sc[i as int].0);
                }
                return None;
            }
            let total = tt[a] + scores[i];
            proof {
                lemma_table_add(sc, i as int, tv, tt@, a as int, total);
            }
            tt.set(a, total);
        } else {
            proof {
                lemma_table_new(sc, i as int, tv, tt@, scores@[i as int]);
            }
            tn.push(names[i].clone());
            tt.push(scores[i]);
            assert(tn@.map_values(|s: String| s@) =~= tv.push(sc[i as int].0));
        }
        i = i + 1;
    }
    assert(sc.take(m as int) =~= sc);
    Some((tn, tt))
}

/// A participant with the highest total over all lines of all scorecards, with that
/// total; lines that share a name add up. Among equal totals the contract names no one
/// in particular.
pub fn get_winner<V: ScoreCalculator>(scorecards: &[&str], variant: &V) -> (r: Result<
    (String, u32),
    WinnerError,
>)
    requires
        variant.wf(),
        lines_within_limit(scorecards@.map_values(|c: &str| c@)),
    ensures
        winner_of(*variant, scorecards@.map_values(|c: &str| c@), r),
{
    let (names, scores) = match score_all(scorecards, variant) {
        Ok(p) => p,
        Err(e) => {
            return Err(WinnerError::Score(e));
        },
    };
    let ghost sc = name_score_pairs(names@, scores@);
    if names.len() == 0 {
        return Err(WinnerError::NoParticipants);
    }
    let (tn, tt) = match group_totals(&names, &scores) {
        Some(t) => t,
        None => {
            return Err(WinnerError::ScoreOverflow);
        },
    };
    let ghost tv = tn@.map_values(|s: String| s@);
    proof {
        assert(has_name(tv, sc[0].0));
    }
    let mut best: usize = 0;
    let mut k: usize = 1;
    while k < tn.len()
        invariant
            1 <= k <= tn@.len() == tt@.len(),
            0 <= best < k,
            forall|a: int| 0 <= a < k ==> tt@[a] <= tt@[best as int],
        decreases tn@.len() - k,
    {
        if tt[k] > tt[best] {
            best = k;
        }
        k = k + 1;
    }
    proof {
        assert forall|l: int| 0 <= l < sc.len() implies total_of(sc, #[trigger] sc[l].0) <= tt@[best as int] by {
            assert(has_name(tv, sc[l].0));
            let x = choose|x: int| 0 <= x < tv.len() && tv[x] == sc[l].0;
            assert(tt@[x] as int == total_of(sc, tv[x]));
        }
        assert forall|l: int| 0 <= l < sc.len() implies total_of(sc, #[trigger] sc[l].0) <= u32::MAX by {
            assert(has_name(tv, sc[l].0));
            let x = choose|x: int| 0 <= x < tv.len() && tv[x] == sc[l].0;
            assert(tt@[x] as int == total_of(sc, tv[x]));
        }
        assert(tt@[best as int] as int == total_of(sc, tv[best as int]));
    }
    let name = tn[best].clone();
    Ok((name, tt[best]))
}
} // verus!
