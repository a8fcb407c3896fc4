//! The mathematical model of the search space: all strings of lowercase
//! letters up to a bounded length, ordered first by length and then
//! lexicographically.  Each candidate has a `rank`, its position in that
//! order, and the lemmas here show that `rank` is injective, bounded by the
//! size of the space, and compatible with the length/lexicographic order.
use vstd::prelude::*;

verus! {

/// A lowercase ASCII letter, the only characters candidates are drawn from.
pub open spec fn is_lower_letter(c: char) -> bool {
    97 <= (c as u32) && (c as u32) <= 122
}

pub open spec fn all_lower(s: Seq<char>) -> bool {
    forall|i: int| 0 <= i < s.len() ==> is_lower_letter(#[trigger] s[i])
}

/// A candidate for the bound `n`: non-empty, at most `n` letters long.
pub open spec fn is_candidate(s: Seq<char>, n: nat) -> bool {
    1 <= s.len() <= n && all_lower(s)
}

/// The digit value of a letter: 'a' is 0, 'z' is 25.
pub open spec fn letter_val(c: char) -> int {
    (c as u32) - 97
}

/// 26 to the power `k`.
pub open spec fn pow26(k: nat) -> int
    decreases k,
{
    if k == 0 {
        1
    } else {
        26 * pow26((k - 1) as nat)
    }
}

/// The number of candidates up to length `n`: the sum of 26^L for L in 1..=n.
pub open spec fn space_size(n: nat) -> int
    decreases n,
{
    if n == 0 {
        0
    } else {
        space_size((n - 1) as nat) + pow26(n)
    }
}

/// A word read as a base-26 number, 'a' as digit 0.
pub open spec fn word_value(s: Seq<char>) -> int
    decreases s.len(),
{
    if s.len() == 0 {
        0
    } else {
        26 * word_value(s.drop_last()) + letter_val(s.last())
    }
}

/// The position of a candidate in generation order: all shorter words come
/// first, then the words of the same length in base-26 order.
pub open spec fn rank(s: Seq<char>) -> int
    recommends
        s.len() >= 1,
{
    space_size((s.len() - 1) as nat) + word_value(s)
}

/// The sequence of `m` copies of the letter `c`.
pub open spec fn repeat_char(c: char, m: nat) -> Seq<char> {
    Seq::new(m, |i: int| c)
}

/// Strict lexicographic order on words of equal length.
pub open spec fn lex_less(a: Seq<char>, b: Seq<char>) -> bool
    decreases a.len(),
{
    if a.len() == 0 || b.len() == 0 {
        a.len() == 0 && b.len() > 0
    } else if a[0] != b[0] {
        letter_val(a[0]) < letter_val(b[0])
    } else {
        lex_less(a.drop_first(), b.drop_first())
    }
}

pub proof fn lemma_pow26_pos(k: nat)
    ensures
        pow26(k) >= 1,
    decreases k,
{
    if k > 0 {
        lemma_pow26_pos((k - 1) as nat);
    }
}

pub proof fn lemma_space_size_nonneg(n: nat)
    ensures
        space_size(n) >= 0,
    decreases n,
{
    if n > 0 {
        lemma_space_size_nonneg((n - 1) as nat);
        lemma_pow26_pos(n);
    }
}

/// The space only grows with the bound, strictly so.
pub proof fn lemma_space_size_increasing(m: nat, n: nat)
    requires
        m <= n,
    ensures
        space_size(m) <= space_size(n),
        m < n ==> space_size(m) < space_size(n),
    decreases n,
{
    if m < n {
        lemma_space_size_increasing(m, (n - 1) as nat);
        lemma_pow26_pos(n);
    }
}

/// A word of length L has a value in [0, 26^L).
pub proof fn lemma_word_value_bounds(s: Seq<char>)
    requires
        all_lower(s),
    ensures
        0 <= word_value(s) < pow26(s.len() as nat),
    decreases s.len(),
{
    if s.len() > 0 {
        assert(all_lower(s.drop_last())) by {
            assert(forall|i: int|
                0 <= i < s.len() - 1 ==> #[trigger] s.drop_last()[i] == s[i]);
        }
        lemma_word_value_bounds(s.drop_last());
        let v = word_value(s.drop_last());
        let p = pow26((s.len() - 1) as nat);
        assert(0 <= letter_val(s.last()) < 26);
        assert(26 * v + 25 < 26 * p) by (nonlinear_arith)
            requires
                v < p,
        ;
        assert(26 * v >= 0) by (nonlinear_arith)
            requires
                v >= 0,
        ;
    }
}

/// Every candidate's rank lies in the window of its length, inside [0, space_size(n)).
pub proof fn lemma_rank_bounds(s: Seq<char>, n: nat)
    requires
        is_candidate(s, n),
    ensures
        space_size((s.len() - 1) as nat) <= rank(s) < space_size(s.len() as nat),
        0 <= rank(s) < space_size(n),
{
    lemma_word_value_bounds(s);
    lemma_space_size_nonneg((s.len() - 1) as nat);
    lemma_space_size_increasing(s.len() as nat, n);
}

/// Concatenation shifts the left part by 26^(length of the right part).
pub proof fn lemma_word_value_append(s: Seq<char>, t: Seq<char>)
    ensures
        word_value(s + t) == word_value(s) * pow26(t.len() as nat) + word_value(t),
    decreases t.len(),
{
    if t.len() == 0 {
        assert(s + t =~= s);
    } else {
        let t0 = t.drop_last();
        lemma_word_value_append(s, t0);
        assert((s + t).drop_last() =~= s + t0);
        assert((s + t).last() == t.last());
        let a = word_value(s);
        let p0 = pow26(t0.len() as nat);
        assert(word_value(s + t) == 26 * word_value((s + t).drop_last()) + letter_val(
            (s + t).last(),
        ));
        assert(word_value(s + t) == 26 * (a * p0 + word_value(t0)) + letter_val(t.last()));
        assert(word_value(t) == 26 * word_value(t0) + letter_val(t.last()));
        assert(pow26(t.len() as nat) == 26 * p0);
        assert(26 * (a * p0 + word_value(t0)) + letter_val(t.last()) == a * (26 * p0) + (26
            * word_value(t0) + letter_val(t.last()))) by (nonlinear_arith);
    }
}

pub proof fn lemma_word_value_repeat_a(m: nat)
    ensures
        word_value(repeat_char('a', m)) == 0,
    decreases m,
{
    if m > 0 {
        assert(repeat_char('a', m).drop_last() =~= repeat_char('a', (m - 1) as nat));
        lemma_word_value_repeat_a((m - 1) as nat);
        assert(letter_val('a') == 0);
    }
}

pub proof fn lemma_word_value_repeat_z(m: nat)
    ensures
        word_value(repeat_char('z', m)) == pow26(m) - 1,
    decreases m,
{
    if m > 0 {
        assert(repeat_char('z', m).drop_last() =~= repeat_char('z', (m - 1) as nat));
        lemma_word_value_repeat_z((m - 1) as nat);
        assert(letter_val('z') == 25);
    }
}

/// The all-'z' word of length m is the last word of its length.
pub proof fn lemma_rank_repeat_z(m: nat)
    requires
        m >= 1,
    ensures
        rank(repeat_char('z', m)) == space_size(m) - 1,
{
    lemma_word_value_repeat_z(m);
}

/// Words of equal length with equal values are equal.
pub proof fn lemma_word_value_injective(a: Seq<char>, b: Seq<char>)
    requires
        all_lower(a),
        all_lower(b),
        a.len() == b.len(),
        word_value(a) == word_value(b),
    ensures
        a =~= b,
    decreases a.len(),
{
    if a.len() > 0 {
        let a0 = a.drop_last();
        let b0 = b.drop_last();
        assert(all_lower(a0) && all_lower(b0)) by {
            assert(forall|i: int| 0 <= i < a.len() - 1 ==> #[trigger] a0[i] == a[i]);
            assert(forall|i: int| 0 <= i < b.len() - 1 ==> #[trigger] b0[i] == b[i]);
        }
        assert(0 <= letter_val(a.last()) < 26);
        assert(0 <= letter_val(b.last()) < 26);
        assert(word_value(a0) == word_value(b0) && letter_val(a.last()) == letter_val(b.last()))
            by (nonlinear_arith)
            requires
                26 * word_value(a0) + letter_val(a.last()) == 26 * word_value(b0) + letter_val(
                    b.last(),
                ),
                0 <= letter_val(a.last()) < 26,
                0 <= letter_val(b.last()) < 26,
        ;
        lemma_letter_val_injective(a.last(), b.last());
        lemma_word_value_injective(a0, b0);
        assert(a =~= a0.push(a.last()));
        assert(b =~= b0.push(b.last()));
    }
}

/// Two letters with the same digit value are the same character.
pub proof fn lemma_letter_val_injective(c: char, d: char)
    requires
        is_lower_letter(c),
        is_lower_letter(d),
        letter_val(c) == letter_val(d),
    ensures
        c == d,
{
    vstd::utf8::char_u32_cast(c, c as u32);
    vstd::utf8::char_u32_cast(d, d as u32);
}

/// Some candidate for the bound `n` occupies position `i`.
pub open spec fn rank_attained(i: int, n: nat) -> bool {
    exists|s: Seq<char>| is_candidate(s, n) && #[trigger] rank(s) == i
}

/// Coverage: `rank` is a bijection between the candidates for the bound `n`
/// and the positions 0 .. space_size(n).  The emitted sequence therefore has
/// exactly space_size(n) elements, with no duplicate and no omission.
pub proof fn lemma_coverage(n: nat)
    ensures
        forall|s: Seq<char>| is_candidate(s, n) ==> 0 <= #[trigger] rank(s) < space_size(n),
        forall|s: Seq<char>, t: Seq<char>|
            is_candidate(s, n) && is_candidate(t, n) && #[trigger] rank(s) == #[trigger] rank(t)
                ==> s =~= t,
        forall|i: int| 0 <= i < space_size(n) ==> #[trigger] rank_attained(i, n),
{
    assert forall|s: Seq<char>| is_candidate(s, n) implies 0 <= #[trigger] rank(s) < space_size(
        n,
    ) by {
        lemma_rank_bounds(s, n);
    }
    assert forall|s: Seq<char>, t: Seq<char>|
        is_candidate(s, n) && is_candidate(t, n) && #[trigger] rank(s) == #[trigger] rank(
            t,
        ) implies s =~= t by {
        lemma_rank_injective(s, t, n);
    }
    assert forall|i: int| 0 <= i < space_size(n) implies #[trigger] rank_attained(i, n) by {
        lemma_unrank(i, n);
    }
}

/// Candidates with the same rank are the same word.
pub proof fn lemma_rank_injective(s: Seq<char>, t: Seq<char>, n: nat)
    requires
        is_candidate(s, n),
        is_candidate(t, n),
        rank(s) == rank(t),
    ensures
        s =~= t,
{
    lemma_rank_bounds(s, n);
    lemma_rank_bounds(t, n);
    if s.len() < t.len() {
        lemma_space_size_increasing(s.len() as nat, (t.len() - 1) as nat);
        assert(false);
    }
    if t.len() < s.len() {
        lemma_space_size_increasing(t.len() as nat, (s.len() - 1) as nat);
        assert(false);
    }
    lemma_word_value_injective(s, t);
}

/// The base-26 digits of `v` as a word of length `m`, most significant first.
pub open spec fn word_of(v: int, m: nat) -> Seq<char>
    decreases m,
{
    if m == 0 {
        Seq::empty()
    } else {
        word_of(v / 26, (m - 1) as nat).push((97 + v % 26) as u8 as char)
    }
}

pub proof fn lemma_word_of_value(v: int, m: nat)
    requires
        0 <= v < pow26(m),
    ensures
        word_of(v, m).len() == m,
        all_lower(word_of(v, m)),
        word_value(word_of(v, m)) == v,
    decreases m,
{
    if m > 0 {
        lemma_pow26_pos((m - 1) as nat);
        assert(0 <= v / 26 && 26 * (v / 26) + v % 26 == v && 0 <= v % 26 < 26);
        assert(v / 26 < pow26((m - 1) as nat)) by (nonlinear_arith)
            requires
                v < 26 * pow26((m - 1) as nat),
                0 <= v,
        ;
        lemma_word_of_value(v / 26, (m - 1) as nat);
        let w0 = word_of(v / 26, (m - 1) as nat);
        let c = (97 + v % 26) as u8 as char;
        assert((97 + v % 26) as u8 as char as u32 == 97 + v % 26);
        assert(is_lower_letter(c));
        let w = w0.push(c);
        assert(w.drop_last() =~= w0);
        assert(w.last() == c);
        assert(forall|i: int| 0 <= i < m - 1 ==> #[trigger] w[i] == w0[i]);
    }
}

/// Every position below space_size(n) is the rank of some candidate.
pub proof fn lemma_unrank(i: int, n: nat)
    requires
        0 <= i < space_size(n),
    ensures
        rank_attained(i, n),
    decreases n,
{
    if n > 0 {
        if i < space_size((n - 1) as nat) {
            lemma_unrank(i, (n - 1) as nat);
            let s = choose|s: Seq<char>|
                is_candidate(s, (n - 1) as nat) && #[trigger] rank(s) == i;
            assert(is_candidate(s, n) && rank(s) == i);
        } else {
            let v = i - space_size((n - 1) as nat);
            lemma_word_of_value(v, n);
            let s = word_of(v, n);
            assert(is_candidate(s, n) && rank(s) == i);
        }
    }
}


/// A word's value splits at the front: the first letter weighs 26^(L-1).
pub proof fn lemma_word_value_first(s: Seq<char>)
    requires
        s.len() >= 1,
    ensures
        word_value(s) == letter_val(s[0]) * pow26((s.len() - 1) as nat) + word_value(
            s.drop_first(),
        ),
{
    let head = seq![s[0]];
    lemma_word_value_append(head, s.drop_first());
    assert(head + s.drop_first() =~= s);
    assert(head.drop_last() =~= Seq::<char>::empty());
    assert(head.len() == 1 && head.last() == s[0]);
    assert(word_value(head) == 26 * word_value(head.drop_last()) + letter_val(head.last()));
    assert(word_value(head) == letter_val(s[0]));
}

/// At equal length, the lexicographic order coincides with the base-26 order.
pub proof fn lemma_lex_value(a: Seq<char>, b: Seq<char>)
    requires
        all_lower(a),
        all_lower(b),
        a.len() == b.len(),
    ensures
        lex_less(a, b) <==> word_value(a) < word_value(b),
    decreases a.len(),
{
    if a.len() > 0 {
        let a1 = a.drop_first();
        let b1 = b.drop_first();
        assert(all_lower(a1) && all_lower(b1)) by {
            assert(forall|i: int| 0 <= i < a.len() - 1 ==> #[trigger] a1[i] == a[i + 1]);
            assert(forall|i: int| 0 <= i < b.len() - 1 ==> #[trigger] b1[i] == b[i + 1]);
        }
        lemma_word_value_first(a);
        lemma_word_value_first(b);
        lemma_word_value_bounds(a1);
        lemma_word_value_bounds(b1);
        let p = pow26((a.len() - 1) as nat);
        let la = letter_val(a[0]);
        let lb = letter_val(b[0]);
        if a[0] == b[0] {
            lemma_lex_value(a1, b1);
        } else {
            if la == lb {
                lemma_letter_val_injective(a[0], b[0]);
            }
            assert(la != lb);
            if la < lb {
                assert(la * p + word_value(a1) < lb * p + word_value(b1)) by (nonlinear_arith)
                    requires
                        la + 1 <= lb,
                        0 <= word_value(a1) < p,
                        0 <= word_value(b1),
                ;
            } else {
                assert(lb * p + word_value(b1) < la * p + word_value(a1)) by (nonlinear_arith)
                    requires
                        lb + 1 <= la,
                        0 <= word_value(b1) < p,
                        0 <= word_value(a1),
                ;
            }
        }
    }
}

/// Order: generation order never decreases in length, and within one length
/// it increases strictly lexicographically.
pub proof fn lemma_generation_order(a: Seq<char>, b: Seq<char>, n: nat)
    requires
        is_candidate(a, n),
        is_candidate(b, n),
        rank(a) < rank(b),
    ensures
        a.len() <= b.len(),
        a.len() == b.len() ==> lex_less(a, b),
{
    lemma_rank_bounds(a, n);
    lemma_rank_bounds(b, n);
    if b.len() < a.len() {
        lemma_space_size_increasing(b.len() as nat, (a.len() - 1) as nat);
        assert(false);
    }
    if a.len() == b.len() {
        lemma_lex_value(a, b);
    }
}


/// Two characters with the same code point are the same character.
pub proof fn lemma_char_u32_injective(c: char, d: char)
    requires
        c as u32 == d as u32,
    ensures
        c == d,
{
    vstd::utf8::char_u32_cast(c, c as u32);
    vstd::utf8::char_u32_cast(d, d as u32);
}

/// The odometer step within one length: bumping the last letter below 'z'
/// and resetting the 'z' tail to 'a' advances the rank by exactly one.
pub proof fn lemma_succ_bump(s: Seq<char>, w: Seq<char>, k: int)
    requires
        all_lower(s),
        all_lower(w),
        s.len() == w.len(),
        1 <= k <= s.len(),
        forall|j: int| 0 <= j < k - 1 ==> w[j] == s[j],
        letter_val(s[k - 1]) < 25,
        letter_val(w[k - 1]) == letter_val(s[k - 1]) + 1,
        forall|j: int| k <= j < s.len() ==> letter_val(#[trigger] s[j]) == 25,
        forall|j: int| k <= j < w.len() ==> letter_val(#[trigger] w[j]) == 0,
    ensures
        rank(w) == rank(s) + 1,
{
    let m = (s.len() - k) as nat;
    assert forall|j: int| k <= j < s.len() implies s[j] == 'z' && w[j] == 'a' by {
        lemma_char_u32_injective(s[j], 'z');
        lemma_char_u32_injective(w[j], 'a');
    }
    assert(s =~= s.take(k) + repeat_char('z', m));
    assert(w =~= w.take(k) + repeat_char('a', m));
    lemma_word_value_append(s.take(k), repeat_char('z', m));
    lemma_word_value_append(w.take(k), repeat_char('a', m));
    lemma_word_value_repeat_z(m);
    lemma_word_value_repeat_a(m);
    let sp = s.take(k - 1);
    assert(s.take(k).drop_last() =~= sp);
    assert(w.take(k).drop_last() =~= sp);
    assert(s.take(k).last() == s[k - 1]);
    assert(w.take(k).last() == w[k - 1]);
    let vs = word_value(s.take(k));
    let vw = word_value(w.take(k));
    assert(vs == 26 * word_value(sp) + letter_val(s[k - 1]));
    assert(vw == 26 * word_value(sp) + letter_val(w[k - 1]));
    assert(vw == vs + 1);
    let pm = pow26(m);
    assert((vs + 1) * pm == vs * pm + pm) by (nonlinear_arith);
    assert(word_value(w) == word_value(s) + 1);
}

/// The odometer step that grows the length: after the all-'z' word the
/// all-'a' word one letter longer is next; the very first word is "a".
pub proof fn lemma_succ_grow(s: Seq<char>, w: Seq<char>)
    requires
        all_lower(s),
        all_lower(w),
        w.len() == s.len() + 1,
        forall|j: int| 0 <= j < s.len() ==> letter_val(#[trigger] s[j]) == 25,
        forall|j: int| 0 <= j < w.len() ==> letter_val(#[trigger] w[j]) == 0,
    ensures
        s.len() == 0 ==> rank(w) == 0,
        s.len() >= 1 ==> rank(w) == rank(s) + 1,
{
    assert forall|j: int| 0 <= j < w.len() implies w[j] == 'a' by {
        lemma_char_u32_injective(w[j], 'a');
    }
    assert(w =~= repeat_char('a', w.len() as nat));
    lemma_word_value_repeat_a(w.len() as nat);
    if s.len() >= 1 {
        assert forall|j: int| 0 <= j < s.len() implies s[j] == 'z' by {
            lemma_char_u32_injective(s[j], 'z');
        }
        assert(s =~= repeat_char('z', s.len() as nat));
        lemma_rank_repeat_z(s.len() as nat);
    }
}

} // verus!
