use vstd::prelude::*;

use crate::actions::{action_of, block_wf, Action};
use crate::alpha::{alpha_of, alphabet, char_of, is_upper, Alpha};
use crate::text::{chars_of, remove_space, string_of, strip_space};

verus! {

/// Why a reduction, or the parsing of a group, failed.
#[derive(Clone, Copy, Debug, PartialEq, Eq, Structural)]
pub enum TpaError {
    /// A character outside `A..=Z`.
    InvalidCharacter(char),
    /// A group text longer than sixteen characters; holds its length.
    InvalidLength(usize),
    /// A selector outside `A..=F`.
    InvalidAction(Alpha),
    /// No pair of selector and group to fold.
    EmptyReduction,
}

/// A block of sixteen symbols.
#[derive(Clone, Copy, Debug)]
pub struct TpaGroup(pub [Alpha; 16]);

/// The symbols of a text, or the first character that names none.
pub open spec fn parse_symbols(s: Seq<char>) -> Result<Seq<Alpha>, TpaError>
    decreases s.len(),
{
    if s.len() == 0 {
        Ok(Seq::empty())
    } else {
        match parse_symbols(s.drop_last()) {
            Err(e) => Err(e),
            Ok(p) => if is_upper(s.last()) {
                Ok(p.push(alpha_of(s.last())))
            } else {
                Err(TpaError::InvalidCharacter(s.last()))
            },
        }
    }
}

/// The first `n` symbols of the alphabet.
pub open spec fn padding(n: int) -> Seq<Alpha> {
    Seq::new(n as nat, |i: int| Alpha((i + 1) as u8))
}

/// A group text parsed and padded from the front of the alphabet up to sixteen symbols.
pub open spec fn parse_group(s: Seq<char>) -> Result<Seq<Alpha>, TpaError> {
    if s.len() > 16 {
        Err(TpaError::InvalidLength(s.len() as usize))
    } else {
        match parse_symbols(s) {
            Err(e) => Err(e),
            Ok(p) => Ok(p + padding(16 - s.len())),
        }
    }
}

/// Position-wise sum of two blocks.
pub open spec fn blocks_added(a: Seq<Alpha>, b: Seq<Alpha>) -> Seq<Alpha> {
    Seq::new(16, |i: int| a[i].spec_add(b[i]))
}

/// The letters of a block.
pub open spec fn rendered(b: Seq<Alpha>) -> Seq<char> {
    Seq::new(b.len(), |i: int| char_of(b[i].0))
}

/// The number of selectors that lead a seed of `n` characters.
pub open spec fn preamble_len(n: int) -> int {
    (n + 16) / 17
}

/// The number of groups of at most sixteen characters in `n` characters.
pub open spec fn group_count(n: int) -> int {
    (n + 15) / 16
}

/// Group `k` of the body: characters `16k` up to `16k + 16`, or to the end.
pub open spec fn chunk(body: Seq<char>, k: int) -> Seq<char> {
    body.subrange(16 * k, if 16 * k + 16 < body.len() { 16 * k + 16 } else { body.len() as int })
}

/// The transformed block of pair `k`: its group parsed, then its selector applied.
pub open spec fn pair_result(pre: Seq<Alpha>, body: Seq<char>, k: int) -> Result<
    Seq<Alpha>,
    TpaError,
> {
    match parse_group(chunk(body, k)) {
        Err(e) => Err(e),
        Ok(b) => match action_of(pre[k].0) {
            None => Err(TpaError::InvalidAction(pre[k])),
            Some(a) => Ok(a.spec_transform(b)),
        },
    }
}

/// The first `n` pairs, transformed and summed from left to right; the first failure in
/// pair order, if any.
pub open spec fn fold_pairs(pre: Seq<Alpha>, body: Seq<char>, n: int) -> Result<
    Seq<Alpha>,
    TpaError,
>
    decreases n,
{
    if n <= 0 {
        Err(TpaError::EmptyReduction)
    } else if n == 1 {
        pair_result(pre, body, 0)
    } else {
        match fold_pairs(pre, body, n - 1) {
            Err(e) => Err(e),
            Ok(acc) => match pair_result(pre, body, n - 1) {
                Err(e) => Err(e),
                Ok(b) => Ok(blocks_added(acc, b)),
            },
        }
    }
}

/// The fingerprint of a seed without white space: its selectors, then its groups,
/// paired as far as both go.
pub open spec fn reduction(t: Seq<char>) -> Result<Seq<char>, TpaError> {
    let p = preamble_len(t.len() as int);
    let body = t.subrange(p, t.len() as int);
    match parse_symbols(t.subrange(0, p)) {
        Err(e) => Err(e),
        Ok(pre) => {
            let n = if group_count(body.len() as int) < p {
                group_count(body.len() as int)
            } else {
                p
            };
            match fold_pairs(pre, body, n) {
                Err(e) => Err(e),
                Ok(b) => Ok(rendered(b)),
            }
        },
    }
}

/// A seed led by one `A` selector per group of sixteen.
pub open spec fn with_implicit_preamble(t: Seq<char>) -> Seq<char> {
    Seq::new(group_count(t.len() as int) as nat, |i: int| 'A') + t
}

/// Whether a `Result` of the library matches one of sequences.
pub open spec fn same_result(r: Result<String, TpaError>, s: Result<Seq<char>, TpaError>) -> bool {
    match r {
        Ok(v) => s == Ok::<Seq<char>, TpaError>(v@),
        Err(e) => s == Err::<Seq<char>, TpaError>(e),
    }
}

/// Parses `s[start..end]` as symbols.
fn parse_range(s: &Vec<char>, start: usize, end: usize) -> (r: Result<Vec<Alpha>, TpaError>)
    requires
        start <= end <= s.len(),
    ensures
        match r {
            Ok(v) => parse_symbols(s@.subrange(start as int, end as int)) == Ok::<
                Seq<Alpha>,
                TpaError,
            >(v@),
            Err(e) => parse_symbols(s@.subrange(start as int, end as int)) == Err::<
                Seq<Alpha>,
                TpaError,
            >(e),
        },
{
    let mut v: Vec<Alpha> = Vec::new();
    let mut i: usize = start;
    assert(s@.subrange(start as int, start as int) =~= Seq::<char>::empty());
    while i < end
        invariant
            start <= i <= end <= s.len(),
            parse_symbols(s@.subrange(start as int, i as int)) == Ok::<Seq<Alpha>, TpaError>(v@),
        decreases end - i,
    {
        let c = s[i];
        assert(s@.subrange(start as int, i + 1).drop_last() =~= s@.subrange(
            start as int,
            i as int,
        ));
        match Alpha::new(c) {
            Some(a) => v.push(a),
            None => {
                proof {
                    let u = s@.subrange(start as int, end as int);
                    assert(u.subrange(0, i - start + 1) =~= s@.subrange(start as int, i + 1));
                    lemma_parse_error_extends(u, i - start + 1);
                }
                return Err(TpaError::InvalidCharacter(c));
            },
        }
        i = i + 1;
    }
    Ok(v)
}

/// A failure on a prefix is the failure of the whole text.
proof fn lemma_parse_error_extends(s: Seq<char>, n: int)
    requires
        0 <= n <= s.len(),
        parse_symbols(s.subrange(0, n)) is Err,
    ensures
        parse_symbols(s) == parse_symbols(s.subrange(0, n)),
    decreases s.len(),
{
    if n < s.len() {
        assert(s.drop_last().subrange(0, n) =~= s.subrange(0, n));
        lemma_parse_error_extends(s.drop_last(), n);
    } else {
        assert(s.subrange(0, n) =~= s);
    }
}

/// A failure among the first `n` pairs is the failure of any longer fold.
proof fn lemma_fold_error_extends(pre: Seq<Alpha>, body: Seq<char>, n: int, m: int)
    requires
        1 <= n <= m,
        fold_pairs(pre, body, n) is Err,
    ensures
        fold_pairs(pre, body, m) == fold_pairs(pre, body, n),
    decreases m - n,
{
    if n < m {
        lemma_fold_error_extends(pre, body, n, m - 1);
    }
}

proof fn lemma_parse_symbols_wf(s: Seq<char>)
    ensures
        parse_symbols(s) matches Ok(p) ==> p.len() == s.len() && forall|i: int|
            0 <= i < p.len() ==> (#[trigger] p[i]).wf(),
    decreases s.len(),
{
    if s.len() > 0 {
        lemma_parse_symbols_wf(s.drop_last());
    }
}

/// Parses `s[start..end]` as a group.
fn parse_group_range(s: &Vec<char>, start: usize, end: usize) -> (r: Result<TpaGroup, TpaError>)
    requires
        start <= end <= s.len(),
    ensures
        match r {
            Ok(g) => parse_group(s@.subrange(start as int, end as int)) == Ok::<
                Seq<Alpha>,
                TpaError,
            >(g.0@) && g.wf(),
            Err(e) => parse_group(s@.subrange(start as int, end as int)) == Err::<
                Seq<Alpha>,
                TpaError,
            >(e),
        },
{
    let len = end - start;
    if len > 16 {
        return Err(TpaError::InvalidLength(len));
    }
    let v = match parse_range(s, start, end) {
        Ok(v) => v,
        Err(e) => {
            return Err(e);
        },
    };
    proof {
        lemma_parse_symbols_wf(s@.subrange(start as int, end as int));
    }
    let abc = alphabet();
    let mut b = [Alpha(1); 16];
    let mut i: usize = 0;
    while i < 16
        invariant
            0 <= i <= 16,
            len <= 16,
            forall|x: int| 0 <= x < 26 ==> #[trigger] abc[x] == Alpha((x + 1) as u8),
            v@.len() == len,
            forall|j: int| 0 <= j < i ==> #[trigger] b[j] == (v@ + padding(16 - len))[j],
        decreases 16 - i,
    {
        if i < len {
            b[i] = v[i];
        } else {
            b[i] = abc[i - len];
        }
        i = i + 1;
    }
    assert(b@ =~= v@ + padding(16 - len));
    Ok(TpaGroup(b))
}

impl TpaGroup {
    /// Every symbol in range.
    pub open spec fn wf(self) -> bool {
        block_wf(self.0@)
    }

    pub fn new(group: [Alpha; 16]) -> (r: TpaGroup)
        ensures
            r.0 == group,
    {
        TpaGroup(group)
    }

    /// Parses a text of at most sixteen uppercase letters, padded from `A` onwards.
    pub fn parse(s: &str) -> (r: Result<TpaGroup, TpaError>)
        ensures
            match r {
                Ok(g) => parse_group(s@) == Ok::<Seq<Alpha>, TpaError>(g.0@) && g.wf(),
                Err(e) => parse_group(s@) == Err::<Seq<Alpha>, TpaError>(e),
            },
    {
        let v = chars_of(s);
        assert(v@.subrange(0, v@.len() as int) =~= v@);
        parse_group_range(&v, 0, v.len())
    }

    /// The group under the action that `action_group` selects; fails exactly when the
    /// selector is outside `A..=F`.
    pub fn transform(&self, action_group: Alpha) -> (r: Result<TpaGroup, TpaError>)
        requires
            self.wf(),
        ensures
            match action_of(action_group.0) {
                Some(a) => r matches Ok(g) && g.0@ == a.spec_transform(self.0@) && g.wf(),
                None => r == Err::<TpaGroup, TpaError>(TpaError::InvalidAction(action_group)),
            },
    {
        match Action::new(action_group) {
            Some(action) => Ok(TpaGroup(action.transform(self.0))),
            None => Err(TpaError::InvalidAction(action_group)),
        }
    }

    /// The sixteen letters of the group.
    pub fn to_string(&self) -> (r: String)
        requires
            self.wf(),
        ensures
            r@ == rendered(self.0@),
    {
        let mut v: Vec<char> = Vec::new();
        let mut i: usize = 0;
        while i < 16
            invariant
                0 <= i <= 16,
                self.wf(),
                v@ == rendered(self.0@).subrange(0, i as int),
            decreases 16 - i,
        {
            v.push(self.0[i].as_char());
            assert(v@ =~= rendered(self.0@).subrange(0, i + 1));
            i = i + 1;
        }
        assert(v@ =~= rendered(self.0@));
        string_of(&v)
    }

    /// Position-wise sum with another group.
    pub fn add(&self, rhs: &TpaGroup) -> (r: TpaGroup)
        requires
            self.wf(),
            rhs.wf(),
        ensures
            r.0@ == blocks_added(self.0@, rhs.0@),
            r.wf(),
    {
        let mut b = self.0;
        let mut i: usize = 0;
        while i < 16
            invariant
                0 <= i <= 16,
                self.wf(),
                rhs.wf(),
                forall|j: int| 0 <= j < i ==> #[trigger] b[j] == self.0[j].spec_add(rhs.0[j]),
                forall|j: int| 0 <= j < i ==> (#[trigger] b[j]).wf(),
            decreases 16 - i,
        {
            b[i] = self.0[i].add(&rhs.0[i]);
            i = i + 1;
        }
        assert(b@ =~= blocks_added(self.0@, rhs.0@));
        TpaGroup(b)
    }
}

impl core::str::FromStr for TpaGroup {
    type Err = TpaError;

    fn from_str(s: &str) -> Result<TpaGroup, TpaError> {
        TpaGroup::parse(s)
    }
}

/// Pair `k` of a seed whose body starts at `p`.
fn reduce_pair(t: &Vec<char>, p: usize, pre: &Vec<Alpha>, k: usize) -> (r: Result<TpaGroup, TpaError>)
    requires
        p <= t.len(),
        k < pre.len(),
        16 * k < t.len() - p,
    ensures
        match r {
            Ok(g) => pair_result(pre@, t@.subrange(p as int, t.len() as int), k as int) == Ok::<
                Seq<Alpha>,
                TpaError,
            >(g.0@) && g.wf(),
            Err(e) => pair_result(pre@, t@.subrange(p as int, t.len() as int), k as int) == Err::<
                Seq<Alpha>,
                TpaError,
            >(e),
        },
{
    let start = p + 16 * k;
    let end = if t.len() - start > 16 {
        start + 16
    } else {
        t.len()
    };
    assert(chunk(t@.subrange(p as int, t.len() as int), k as int) =~= t@.subrange(
        start as int,
        end as int,
    ));
    let g = parse_group_range(t, start, end)?;
    g.transform(pre[k])
}

/// The reduction of a seed that holds no white space.
fn reduce_stripped(t: &Vec<char>) -> (r: Result<String, TpaError>)
    ensures
        same_result(r, reduction(t@)),
{
    let n = t.len();
    let p = n / 17 + if n % 17 == 0 {
        0
    } else {
        1
    };
    assert(p == preamble_len(n as int));
    let pre = parse_range(t, 0, p)?;
    proof {
        lemma_parse_symbols_wf(t@.subrange(0, p as int));
    }
    let blen = n - p;
    let groups = blen / 16 + if blen % 16 == 0 {
        0
    } else {
        1
    };
    assert(groups == group_count(blen as int));
    let count = if groups < p {
        groups
    } else {
        p
    };
    let ghost body = t@.subrange(p as int, n as int);
    if count == 0 {
        return Err(TpaError::EmptyReduction);
    }
    let mut acc = match reduce_pair(t, p, &pre, 0) {
        Ok(g) => g,
        Err(e) => {
            proof {
                lemma_fold_error_extends(pre@, body, 1, count as int);
            }
            return Err(e);
        },
    };
    let mut k: usize = 1;
    while k < count
        invariant
            1 <= k <= count <= p,
            count == (if groups < p { groups } else { p }),
            p == preamble_len(n as int),
            parse_symbols(t@.subrange(0, p as int)) == Ok::<Seq<Alpha>, TpaError>(pre@),
            groups == group_count(blen as int),
            blen == n - p,
            n == t.len(),
            pre@.len() == p,
            body == t@.subrange(p as int, n as int),
            acc.wf(),
            fold_pairs(pre@, body, k as int) == Ok::<Seq<Alpha>, TpaError>(acc.0@),
        decreases count - k,
    {
        let g = match reduce_pair(t, p, &pre, k) {
            Ok(g) => g,
            Err(e) => {
                proof {
                    lemma_fold_error_extends(pre@, body, k + 1, count as int);
                }
                return Err(e);
            },
        };
        acc = acc.add(&g);
        k = k + 1;
    }
    Ok(acc.to_string())
}

/// Reduces a seed to its sixteen-letter fingerprint. White space is dropped first; the
/// leading `ceil(len / 17)` characters select the action of each group of sixteen.
pub fn marvin_tpa_12(seed: &str) -> (r: Result<String, TpaError>)
    ensures
        same_result(r, reduction(strip_space(seed@))),
{
    let t = remove_space(&chars_of(seed));
    reduce_stripped(&t)
}

/// Reduces a seed that carries no selectors: each group of sixteen gets action `A`.
pub fn marvin_tpa(seed: &str) -> (r: Result<String, TpaError>)
    ensures
        same_result(r, reduction(with_implicit_preamble(strip_space(seed@)))),
{
    let t = remove_space(&chars_of(seed));
    let n = t.len();
    let groups = n / 16 + if n % 16 == 0 {
        0
    } else {
        1
    };
    assert(groups == group_count(n as int));
    let mut s: Vec<char> = Vec::new();
    let mut i: usize = 0;
    while i < groups
        invariant
            0 <= i <= groups,
            s@ == Seq::new(i as nat, |j: int| 'A'),
        decreases groups - i,
    {
        s.push('A');
        assert(s@ =~= Seq::new((i + 1) as nat, |j: int| 'A'));
        i = i + 1;
    }
    let mut j: usize = 0;
    while j < n
        invariant
            0 <= j <= n,
            n == t.len(),
            s@ == Seq::new(groups as nat, |x: int| 'A') + t@.subrange(0, j as int),
        decreases n - j,
    {
        s.push(t[j]);
        assert(s@ =~= Seq::new(groups as nat, |x: int| 'A') + t@.subrange(0, j + 1));
        j = j + 1;
    }
    assert(t@.subrange(0, n as int) =~= t@);
    reduce_stripped(&s)
}

/// Every failure of symbol parsing names a character.
proof fn lemma_parse_error_is_char(s: Seq<char>)
    ensures
        parse_symbols(s) is Err ==> parse_symbols(s) matches Err(TpaError::InvalidCharacter(_)),
    decreases s.len(),
{
    if s.len() > 0 {
        lemma_parse_error_is_char(s.drop_last());
    }
}

/// A text with a character outside `A..=Z` does not parse.
proof fn lemma_parse_rejects(s: Seq<char>, j: int)
    requires
        0 <= j < s.len(),
        !is_upper(s[j]),
    ensures
        parse_symbols(s) matches Err(TpaError::InvalidCharacter(_)),
    decreases s.len(),
{
    lemma_parse_error_is_char(s.drop_last());
    if j < s.len() - 1 {
        lemma_parse_rejects(s.drop_last(), j);
    }
}

/// A text of uppercase letters parses.
proof fn lemma_parse_accepts(s: Seq<char>)
    requires
        forall|x: int| 0 <= x < s.len() ==> is_upper(#[trigger] s[x]),
    ensures
        parse_symbols(s) is Ok,
        parse_symbols(s) matches Ok(p) ==> p.len() == s.len() && forall|x: int|
            0 <= x < s.len() ==> #[trigger] p[x] == alpha_of(s[x]),
    decreases s.len(),
{
    if s.len() > 0 {
        lemma_parse_accepts(s.drop_last());
    }
}

/// The pairs before the first group holding a non-letter fold without failure when their
/// selectors are valid.
proof fn lemma_fold_accepts(pre: Seq<Alpha>, body: Seq<char>, m: int)
    requires
        1 <= m <= pre.len(),
        16 * m <= body.len(),
        forall|x: int| 0 <= x < 16 * m ==> is_upper(#[trigger] body[x]),
        forall|k: int| 0 <= k < m ==> action_of((#[trigger] pre[k]).0) is Some,
    ensures
        fold_pairs(pre, body, m) is Ok,
    decreases m,
{
    let c = chunk(body, m - 1);
    assert forall|x: int| 0 <= x < c.len() implies is_upper(#[trigger] c[x]) by {
        assert(is_upper(body[16 * (m - 1) + x]));
    }
    lemma_parse_accepts(c);
    assert(action_of(pre[m - 1].0) is Some);
    if m > 1 {
        lemma_fold_accepts(pre, body, m - 1);
    }
}

/// The fold fails on the group holding the first non-letter, unless an earlier selector
/// fails first.
proof fn lemma_fold_rejects(pre: Seq<Alpha>, body: Seq<char>, m: int, j: int)
    requires
        0 <= j < body.len(),
        j < 16 * m,
        m <= pre.len(),
        !is_upper(body[j]),
        forall|x: int| 0 <= x < j ==> is_upper(#[trigger] body[x]),
        forall|k: int| 0 <= k < j / 16 ==> action_of((#[trigger] pre[k]).0) is Some,
    ensures
        fold_pairs(pre, body, m) matches Err(TpaError::InvalidCharacter(_)),
{
    let kb = j / 16;
    let c = chunk(body, kb);
    assert(c[j - 16 * kb] == body[j]);
    lemma_parse_rejects(c, j - 16 * kb);
    assert(pair_result(pre, body, kb) matches Err(TpaError::InvalidCharacter(_)));
    if kb >= 1 {
        lemma_fold_accepts(pre, body, kb);
    }
    lemma_fold_error_extends(pre, body, kb + 1, m);
}

/// True of a character that is a lowercase ASCII letter or an ASCII digit.
pub open spec fn lower_or_digit(c: char) -> bool {
    ('a' <= c && c <= 'z') || ('0' <= c && c <= '9')
}

/// The selectors of the groups before the one that holds the first non-letter of `t`
/// all lie in `A..=F`.
pub open spec fn selectors_valid_before_first_non_letter(t: Seq<char>) -> bool {
    let p = preamble_len(t.len() as int);
    forall|j: int|
        #![trigger t[j]]
        0 <= j < t.len() && !is_upper(t[j]) && (forall|x: int| 0 <= x < j ==> is_upper(t[x]))
            && j >= p ==> forall|k: int| 0 <= k < (j - p) / 16 ==> 'A' <= #[trigger] t[k] <= 'F'
}

proof fn lemma_strip_keeps(s: Seq<char>, i: int)
    requires
        0 <= i < s.len(),
        !crate::text::white_space(s[i]),
    ensures
        exists|j: int| 0 <= j < strip_space(s).len() && #[trigger] strip_space(s)[j] == s[i],
    decreases s.len(),
{
    if i < s.len() - 1 {
        lemma_strip_keeps(s.drop_last(), i);
        let j = choose|j: int|
            0 <= j < strip_space(s.drop_last()).len() && #[trigger] strip_space(s.drop_last())[j]
                == s.drop_last()[i];
        assert(strip_space(s)[j] == s[i]);
    } else {
        assert(strip_space(s)[strip_space(s).len() - 1] == s[i]);
    }
}

proof fn lemma_first_non_letter(t: Seq<char>, j: int) -> (f: int)
    requires
        0 <= j < t.len(),
        !is_upper(t[j]),
    ensures
        0 <= f <= j,
        !is_upper(t[f]),
        forall|x: int| 0 <= x < f ==> is_upper(#[trigger] t[x]),
    decreases j,
{
    if forall|x: int| 0 <= x < j ==> is_upper(#[trigger] t[x]) {
        j
    } else {
        let x = choose|x: int| 0 <= x < j && !is_upper(#[trigger] t[x]);
        lemma_first_non_letter(t, x)
    }
}

/// The groups of the body never outnumber the selectors.
proof fn lemma_groups_within_preamble(n: int)
    requires
        n >= 0,
    ensures
        group_count(n - preamble_len(n)) <= preamble_len(n),
        0 <= preamble_len(n) <= n,
{
    let p = preamble_len(n);
    assert(17 * p >= n && 17 * p <= n + 16) by (nonlinear_arith)
        requires
            p == (n + 16) / 17,
            n >= 0,
    ;
    assert((n - p + 15) / 16 <= p) by (nonlinear_arith)
        requires
            17 * p >= n,
            p >= 0,
    ;
}

/// A reduction of a seed that still holds a non-letter fails with `InvalidCharacter`,
/// where the reducer reads the selectors of its groups.
proof fn lemma_reduction_rejects(t: Seq<char>, j: int)
    requires
        0 <= j < t.len(),
        !is_upper(t[j]),
        selectors_valid_before_first_non_letter(t),
    ensures
        reduction(t) matches Err(TpaError::InvalidCharacter(_)),
{
    let f = lemma_first_non_letter(t, j);
    let n = t.len() as int;
    let p = preamble_len(n);
    lemma_groups_within_preamble(n);
    let head = t.subrange(0, p);
    let body = t.subrange(p, n);
    if f < p {
        assert(head[f] == t[f]);
        lemma_parse_rejects(head, f);
    } else {
        assert forall|x: int| 0 <= x < head.len() implies is_upper(#[trigger] head[x]) by {
            assert(head[x] == t[x]);
        }
        lemma_parse_accepts(head);
        let pre = parse_symbols(head)->Ok_0;
        let jb = f - p;
        assert(body[jb] == t[f]);
        assert forall|x: int| 0 <= x < jb implies is_upper(#[trigger] body[x]) by {
            assert(body[x] == t[x + p]);
        }
        assert forall|k: int| 0 <= k < jb / 16 implies action_of((#[trigger] pre[k]).0) is Some by {
            assert('A' <= t[k] <= 'F');
            assert(head[k] == t[k]);
        }
        let g = group_count(body.len() as int);
        assert(jb < 16 * g);
        lemma_fold_rejects(pre, body, g, jb);
    }
}

/// A seed that holds a lowercase letter or a digit is refused with `InvalidCharacter`,
/// unless a selector outside `A..=F` comes before the group that holds its first
/// non-letter; the refusal gives no fingerprint.
pub proof fn lemma_rejects_lowercase_and_digits(seed: Seq<char>, i: int)
    requires
        0 <= i < seed.len(),
        lower_or_digit(seed[i]),
        selectors_valid_before_first_non_letter(strip_space(seed)),
    ensures
        reduction(strip_space(seed)) matches Err(TpaError::InvalidCharacter(_)),
{
    lemma_strip_keeps(seed, i);
    let t = strip_space(seed);
    let j = choose|j: int| 0 <= j < t.len() && #[trigger] t[j] == seed[i];
    lemma_reduction_rejects(t, j);
}

/// Without selectors of its own, a seed that holds a lowercase letter or a digit is
/// always refused with `InvalidCharacter`.
pub proof fn lemma_implicit_rejects_lowercase_and_digits(seed: Seq<char>, i: int)
    requires
        0 <= i < seed.len(),
        lower_or_digit(seed[i]),
    ensures
        reduction(with_implicit_preamble(strip_space(seed))) matches Err(
            TpaError::InvalidCharacter(_),
        ),
{
    lemma_strip_keeps(seed, i);
    let t = strip_space(seed);
    let j = choose|j: int| 0 <= j < t.len() && #[trigger] t[j] == seed[i];
    let u = with_implicit_preamble(t);
    let g = group_count(t.len() as int);
    let n = u.len() as int;
    assert(preamble_len(n) == g) by (nonlinear_arith)
        requires
            g == (t.len() + 15) / 16,
            n == g + t.len(),
            preamble_len(n) == (n + 16) / 17,
    ;
    assert(u[g + j] == t[j]);
    assert forall|k: int| 0 <= k < g implies #[trigger] u[k] == 'A' by {}
    lemma_reduction_rejects(u, g + j);
}

/// A seed of nothing but white space has no pair to fold, with or without selectors.
pub proof fn lemma_empty_seed(seed: Seq<char>)
    requires
        strip_space(seed).len() == 0,
    ensures
        reduction(strip_space(seed)) == Err::<Seq<char>, TpaError>(TpaError::EmptyReduction),
        reduction(with_implicit_preamble(strip_space(seed))) == Err::<Seq<char>, TpaError>(
            TpaError::EmptyReduction,
        ),
{
    let t = strip_space(seed);
    assert(t.subrange(0, 0) =~= Seq::<char>::empty());
    assert(with_implicit_preamble(t) =~= Seq::<char>::empty());
}

} // verus!
