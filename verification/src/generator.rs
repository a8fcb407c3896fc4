//! The candidate generator: an odometer over a variable-length buffer of
//! lowercase letters.  Each call to `next` emits the candidate whose rank is
//! the number of candidates emitted so far, until the space for the bound is
//! exhausted; from then on every call returns `None`.
use vstd::prelude::*;

use crate::space::{
    all_lower, is_candidate, lemma_char_u32_injective, lemma_rank_bounds, lemma_rank_injective,
    lemma_rank_repeat_z, lemma_space_size_increasing, lemma_succ_bump, lemma_succ_grow, rank,
    repeat_char, space_size,
};

verus! {

/// The characters spelled by a buffer of ASCII bytes.
pub open spec fn chars_of(bs: Seq<u8>) -> Seq<char> {
    bs.map(|i: int, b: u8| b as char)
}

/// Lazily enumerates every string of 1 to `max_len` lowercase letters, in
/// length order and lexicographically within one length.
pub struct CandidateGenerator {
    buf: Vec<u8>,
    max_len: u8,
}

impl CandidateGenerator {
    /// The buffer always holds the candidate emitted last (or nothing, at
    /// the start), spelled in lowercase ASCII bytes.
    pub closed spec fn wf(self) -> bool {
        &&& self.buf@.len() <= self.max_len
        &&& forall|i: int| 0 <= i < self.buf@.len() ==> 97 <= #[trigger] self.buf@[i] <= 122
    }

    /// The length bound the generator was constructed with.
    pub closed spec fn bound(self) -> nat {
        self.max_len as nat
    }

    /// How many candidates have been emitted so far: the rank of the last
    /// emitted candidate plus one.
    pub closed spec fn emitted(self) -> int {
        if self.buf@.len() == 0 {
            0
        } else {
            rank(chars_of(self.buf@)) + 1
        }
    }

    /// The emission count never passes the size of the search space.
    pub proof fn lemma_emitted_in_range(self)
        requires
            self.wf(),
        ensures
            0 <= self.emitted() <= space_size(self.bound()),
    {
        crate::space::lemma_space_size_nonneg(self.bound());
        if self.buf@.len() > 0 {
            self.lemma_buf_candidate();
            lemma_rank_bounds(chars_of(self.buf@), self.bound());
        }
    }

    proof fn lemma_buf_candidate(self)
        requires
            self.wf(),
            self.buf@.len() > 0,
        ensures
            is_candidate(chars_of(self.buf@), self.bound()),
    {
        assert forall|i: int|
            0 <= i < chars_of(self.buf@).len() implies crate::space::is_lower_letter(
            #[trigger] chars_of(self.buf@)[i],
        ) by {
            assert(chars_of(self.buf@)[i] == self.buf@[i] as char);
        }
    }

    /// A fresh generator for the given length bound; nothing emitted yet.
    pub fn new(max_length: u8) -> (g: CandidateGenerator)
        ensures
            g.wf(),
            g.emitted() == 0,
            g.bound() == max_length as nat,
    {
        CandidateGenerator { buf: Vec::new(), max_len: max_length }
    }

    /// Whether the space is exhausted: the buffer spells the all-'z' word of
    /// the maximum length (or the bound is zero).
    fn is_terminal(&self) -> (b: bool)
        requires
            self.wf(),
        ensures
            b == (self.emitted() == space_size(self.bound())),
    {
        proof {
            self.lemma_emitted_in_range();
        }
        if self.buf.len() != self.max_len as usize {
            proof {
                if self.buf@.len() == 0 {
                    lemma_space_size_increasing(0, self.bound());
                } else {
                    self.lemma_buf_candidate();
                    let s = chars_of(self.buf@);
                    lemma_rank_bounds(s, self.bound());
                    lemma_space_size_increasing(s.len() as nat, self.bound());
                }
            }
            return false;
        }
        let mut i: usize = 0;
        while i < self.buf.len()
            invariant
                self.wf(),
                i <= self.buf@.len(),
                self.buf@.len() == self.max_len as int,
                forall|j: int| 0 <= j < i ==> #[trigger] self.buf@[j] == 122,
            decreases self.buf@.len() - i,
        {
            if self.buf[i] != 122u8 {
                proof {
                    let s = chars_of(self.buf@);
                    let z = repeat_char('z', self.bound());
                    self.lemma_buf_candidate();
                    lemma_rank_repeat_z(self.bound());
                    assert(all_lower(z)) by {
                        assert(forall|j: int| 0 <= j < z.len() ==> #[trigger] z[j] == 'z');
                    }
                    if rank(s) == space_size(self.bound()) - 1 {
                        lemma_rank_injective(s, z, self.bound());
                        assert(s[i as int] == z[i as int]);
                        assert((self.buf@[i as int] as char) as u32 == 'z' as u32);
                        assert(false);
                    }
                }
                return false;
            }
            i += 1;
        }
        proof {
            if self.max_len == 0 {
                assert(self.emitted() == 0 && space_size(self.bound()) == 0);
            } else {
                let s = chars_of(self.buf@);
                let z = repeat_char('z', self.bound());
                assert forall|j: int| 0 <= j < s.len() implies s[j] == z[j] by {
                    assert(self.buf@[j] == 122);
                    assert((self.buf@[j] as char) as u32 == 122);
                    lemma_char_u32_injective(self.buf@[j] as char, 'z');
                }
                assert(s =~= z);
                lemma_rank_repeat_z(self.bound());
            }
        }
        true
    }

    /// Emits the next candidate in generation order, or `None` once the
    /// space for the bound is exhausted; exhaustion is terminal.
    pub fn next(&mut self) -> (r: Option<String>)
        requires
            old(self).wf(),
        ensures
            final(self).wf(),
            final(self).bound() == old(self).bound(),
            old(self).emitted() < space_size(old(self).bound()) ==> {
                &&& r is Some
                &&& is_candidate(r.unwrap()@, old(self).bound())
                &&& rank(r.unwrap()@) == old(self).emitted()
                &&& final(self).emitted() == old(self).emitted() + 1
            },
            old(self).emitted() >= space_size(old(self).bound()) ==> {
                &&& r is None
                &&& final(self).emitted() == old(self).emitted()
            },
    {
        proof {
            self.lemma_emitted_in_range();
        }
        if self.is_terminal() {
            return None;
        }
        let ghost obuf = self.buf@;
        let ghost s = chars_of(obuf);
        let ghost n = self.bound();
        let ghost old_emitted = self.emitted();
        let orig_len = self.buf.len();

        while self.buf.len() > 0 && self.buf[self.buf.len() - 1] == 122u8
            invariant
                self.max_len == old(self).max_len,
                self.buf@.len() <= obuf.len(),
                forall|j: int| 0 <= j < self.buf@.len() ==> #[trigger] self.buf@[j] == obuf[j],
                forall|j: int| self.buf@.len() <= j < obuf.len() ==> #[trigger] obuf[j] == 122,
            decreases self.buf@.len(),
        {
            self.buf.pop();
        }

        let k = self.buf.len();
        let target_len: usize;
        if k == 0 {
            target_len = orig_len + 1;
        } else {
            let c = self.buf.pop().unwrap();
            self.buf.push(c + 1);
            target_len = orig_len;
        }
        let ghost mid = self.buf@;

        while self.buf.len() < target_len
            invariant
                self.max_len == old(self).max_len,
                mid.len() <= self.buf@.len() <= target_len,
                forall|j: int| 0 <= j < mid.len() ==> #[trigger] self.buf@[j] == mid[j],
                forall|j: int| mid.len() <= j < self.buf@.len() ==> #[trigger] self.buf@[j] == 97,
            decreases target_len - self.buf@.len(),
        {
            self.buf.push(97u8);
        }

        proof {
            let w = chars_of(self.buf@);
            assert(all_lower(s) && all_lower(w)) by {
                assert(forall|j: int|
                    0 <= j < s.len() ==> #[trigger] s[j] == obuf[j] as char);
                assert(forall|j: int|
                    0 <= j < w.len() ==> #[trigger] w[j] == self.buf@[j] as char);
            }
            if k == 0 {
                assert(w.len() == orig_len + 1);
                assert forall|j: int| 0 <= j < s.len() implies crate::space::letter_val(
                    #[trigger] s[j],
                ) == 25 by {
                    assert(obuf[j] == 122);
                }
                assert forall|j: int| 0 <= j < w.len() implies crate::space::letter_val(
                    #[trigger] w[j],
                ) == 0 by {
                    assert(self.buf@[j] == 97);
                }
                lemma_succ_grow(s, w);
                if orig_len > 0 {
                    assert(rank(w) == old_emitted);
                } else {
                    assert(old_emitted == 0);
                }
                assert(w.len() <= self.max_len) by {
                    if orig_len >= self.max_len as int {
                        assert forall|j: int| 0 <= j < s.len() implies s[j] == repeat_char(
                            'z',
                            n,
                        )[j] by {
                            lemma_char_u32_injective(s[j], 'z');
                        }
                        assert(s =~= repeat_char('z', n));
                        lemma_rank_repeat_z(n);
                        assert(old_emitted == space_size(n));
                        assert(false);
                    }
                }
            } else {
                assert(w.len() == orig_len && s.len() == orig_len);
                assert(forall|j: int| 0 <= j < k - 1 ==> #[trigger] w[j] == s[j]);
                assert(obuf[k - 1] != 122 && 97 <= obuf[k - 1] <= 122);
                assert(crate::space::letter_val(s[k - 1]) < 25);
                assert(self.buf@[k - 1] == obuf[k - 1] + 1);
                assert(crate::space::letter_val(w[k - 1]) == crate::space::letter_val(
                    s[k - 1],
                ) + 1);
                assert forall|j: int| k <= j < s.len() implies crate::space::letter_val(
                    #[trigger] s[j],
                ) == 25 by {
                    assert(obuf[j] == 122);
                }
                assert forall|j: int| k <= j < w.len() implies crate::space::letter_val(
                    #[trigger] w[j],
                ) == 0 by {
                    assert(self.buf@[j] == 97);
                }
                lemma_succ_bump(s, w, k as int);
                assert(rank(w) == old_emitted);
            }
            self.lemma_buf_candidate();
        }
        let out = ascii_string(&self.buf);
        proof {
            assert(out@ =~= chars_of(self.buf@));
        }
        Some(out)
    }
}

/// Relies on String::from_utf8: bytes below 128 decode to the characters
/// with the same code points.
#[verifier::external_body]
fn ascii_string(v: &Vec<u8>) -> (r: String)
    requires
        forall|i: int| 0 <= i < v@.len() ==> #[trigger] v@[i] < 128,
    ensures
        r@ == chars_of(v@),
{
    String::from_utf8(v.clone()).unwrap()
}

} // verus!
