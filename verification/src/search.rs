//! The parallel matcher: candidates are pulled in generation order from the
//! generator, fanned out across a worker pool in batches, and the earliest
//! candidate in generation order whose predicate holds is returned.  The
//! batch scan preserves order because every index below a reported match is
//! evaluated and refuted before the scan stops.
use vstd::prelude::*;

use rayon::iter::IndexedParallelIterator;
use rayon::iter::IntoParallelIterator;
use rayon::iter::ParallelIterator;

use crate::generator::CandidateGenerator;
use crate::hashes::{
    bcrypt_check, bcrypt_envelope_ok, bcrypt_matches, hash_matches, md5_hex, md5_hex_string,
    HashKind, SearchError,
};
use crate::space::{
    is_candidate, lemma_rank_bounds, lemma_rank_injective, rank, space_size,
};

verus! {

/// How many candidates each parallel scan takes on at once.
pub const BATCH_SIZE: usize = 1024;

/// Some call of the predicate on a string spelling `t` returned false.
pub open spec fn refuted_on<F: Fn(String) -> bool>(f: F, t: Seq<char>) -> bool {
    exists|u: String| u@ == t && call_ensures(f, (u,), false)
}

/// Relies on rayon's position_first over an index range (via
/// into_par_iter): the returned index is the sequentially first whose
/// predicate call returned true, and every smaller index was evaluated by
/// some worker and returned false.
#[verifier::external_body]
fn par_position_first<G: Fn(usize) -> bool + Sync + Send>(n: usize, g: &G) -> (r: Option<usize>)
    requires
        forall|i: usize| i < n ==> #[trigger] call_requires(g, (i,)),
    ensures
        match r {
            Some(i) => {
                &&& i < n
                &&& call_ensures(g, (i,), true)
                &&& forall|j: usize| j < i ==> #[trigger] call_ensures(g, (j,), false)
            },
            None => forall|j: usize| j < n ==> #[trigger] call_ensures(g, (j,), false),
        },
{
    (0..n).into_par_iter().position_first(|i| g(i))
}

/// Searches the whole space for the bound in generation order and returns
/// the earliest candidate the predicate accepts, or `None` after covering
/// every candidate.  The predicate may be evaluated concurrently; the
/// earliest match is preferred regardless of completion order.
pub fn search_first<F: Fn(String) -> bool + Sync + Send>(max_length: u8, f: &F) -> (r: Option<
    String,
>)
    requires
        forall|c: String| #[trigger] call_requires(f, (c,)),
    ensures
        match r {
            Some(s) => {
                &&& is_candidate(s@, max_length as nat)
                &&& call_ensures(f, (s,), true)
                &&& forall|t: Seq<char>|
                    is_candidate(t, max_length as nat) && rank(t) < rank(s@)
                        ==> #[trigger] refuted_on(*f, t)
            },
            None => forall|t: Seq<char>|
                is_candidate(t, max_length as nat) ==> #[trigger] refuted_on(*f, t),
        },
{
    let ghost n = max_length as nat;
    let mut gen = CandidateGenerator::new(max_length);
    proof {
        crate::space::lemma_space_size_nonneg(n);
        assert forall|t: Seq<char>|
            is_candidate(t, n) && rank(t) < gen.emitted() implies #[trigger] refuted_on(
            *f,
            t,
        ) by {
            lemma_rank_bounds(t, n);
        }
    }
    loop
        invariant
            gen.wf(),
            gen.bound() == n,
            n == max_length as nat,
            0 <= gen.emitted() <= space_size(n),
            forall|c: String| #[trigger] call_requires(f, (c,)),
            forall|t: Seq<char>|
                is_candidate(t, n) && rank(t) < gen.emitted() ==> #[trigger] refuted_on(*f, t),
        decreases space_size(n) - gen.emitted(),
    {
        let ghost base = gen.emitted();
        let mut batch: Vec<String> = Vec::new();
        let mut exhausted = false;
        while batch.len() < BATCH_SIZE && !exhausted
            invariant
                gen.wf(),
                gen.bound() == n,
                gen.emitted() == base + batch@.len(),
                0 <= base,
                base + batch@.len() <= space_size(n),
                exhausted ==> gen.emitted() == space_size(n),
                forall|j: int|
                    0 <= j < batch@.len() ==> is_candidate(#[trigger] batch@[j]@, n) && rank(
                        batch@[j]@,
                    ) == base + j,
            decreases space_size(n) - gen.emitted() + (if exhausted {
                0int
            } else {
                1int
            }),
        {
            proof {
                gen.lemma_emitted_in_range();
            }
            match gen.next() {
                Some(c) => {
                    batch.push(c);
                },
                None => {
                    exhausted = true;
                },
            }
        }
        if batch.len() == 0 {
            proof {
                assert(exhausted);
                assert forall|t: Seq<char>| is_candidate(t, n) implies #[trigger] refuted_on(
                    *f,
                    t,
                ) by {
                    lemma_rank_bounds(t, n);
                }
            }
            return None;
        }
        let g = |i: usize| -> (b: bool)
            requires
                i < batch@.len(),
                forall|c: String| #[trigger] call_requires(f, (c,)),
            ensures
                call_ensures(f, (batch@[i as int],), b),
            {
                let c = batch[i].clone();
                f(c)
            };
        let pos = par_position_first(batch.len(), &g);
        match pos {
            Some(i) => {
                let found = batch[i].clone();
                proof {
                    assert(call_ensures(f, (found,), true));
                    assert forall|t: Seq<char>|
                        is_candidate(t, n) && rank(t) < rank(found@) implies #[trigger] refuted_on(
                        *f,
                        t,
                    ) by {
                        if rank(t) >= base {
                            let j = rank(t) - base;
                            assert(0 <= j < i);
                            assert(call_ensures(g, (j as usize,), false));
                            assert(call_ensures(f, (batch@[j],), false));
                            lemma_rank_injective(t, batch@[j]@, n);
                            assert(batch@[j]@ == t);
                        }
                    }
                }
                return Some(found);
            },
            None => {
                proof {
                    assert forall|t: Seq<char>|
                        is_candidate(t, n) && rank(t) < gen.emitted() implies #[trigger] refuted_on(
                        *f,
                        t,
                    ) by {
                        if rank(t) >= base {
                            let j = rank(t) - base;
                            assert(0 <= j < batch@.len());
                            assert(call_ensures(g, (j as usize,), false));
                            assert(call_ensures(f, (batch@[j],), false));
                            lemma_rank_injective(t, batch@[j]@, n);
                        }
                    }
                }
            },
        }
    }
}

/// Runs the brute-force search: enumerates every string of 1 to
/// `max_length` lowercase letters in generation order and returns the
/// earliest one whose hash under `kind` equals `target_hash`, `None` after
/// exhausting the space, or an error before any search work when a bcrypt
/// target is not a well-formed envelope.
pub fn brute_force(kind: HashKind, target_hash: &String, max_length: u8) -> (r: Result<
    Option<String>,
    SearchError,
>)
    ensures
        match r {
            Ok(found) => {
                &&& (kind is Bcrypt ==> bcrypt_envelope_ok(target_hash@))
                &&& match found {
                    Some(s) => {
                        &&& is_candidate(s@, max_length as nat)
                        &&& hash_matches(kind, s@, target_hash@)
                        &&& forall|t: Seq<char>|
                            is_candidate(t, max_length as nat) && rank(t) < rank(s@)
                                ==> !#[trigger] hash_matches(kind, t, target_hash@)
                    },
                    None => forall|t: Seq<char>|
                        is_candidate(t, max_length as nat) ==> !#[trigger] hash_matches(
                            kind,
                            t,
                            target_hash@,
                        ),
                }
            },
            Err(e) => {
                &&& e is MalformedTargetHash
                &&& kind is Bcrypt
                &&& !bcrypt_envelope_ok(target_hash@)
            },
        },
{
    match kind {
        HashKind::Md5 => {
            let f = |c: String| -> (b: bool)
                ensures
                    b == (md5_hex(c@) == target_hash@),
                {
                    let h = md5_hex_string(c.as_str());
                    h.eq(target_hash)
                };
            let found = search_first(max_length, &f);
            proof {
                let ghost n = max_length as nat;
                if found is Some {
                    let s = found.unwrap();
                    assert forall|t: Seq<char>|
                        is_candidate(t, n) && rank(t) < rank(s@) implies !#[trigger] hash_matches(
                        kind,
                        t,
                        target_hash@,
                    ) by {
                        assert(refuted_on(f, t));
                        let u = choose|u: String| u@ == t && call_ensures(f, (u,), false);
                        assert(!(md5_hex(u@) == target_hash@));
                    }
                } else {
                    assert forall|t: Seq<char>| is_candidate(t, n) implies !#[trigger] hash_matches(
                        kind,
                        t,
                        target_hash@,
                    ) by {
                        assert(refuted_on(f, t));
                        let u = choose|u: String| u@ == t && call_ensures(f, (u,), false);
                        assert(!(md5_hex(u@) == target_hash@));
                    }
                }
            }
            Ok(found)
        },
        HashKind::Bcrypt => {
            match bcrypt_check("a", target_hash.as_str()) {
                Err(_) => Err(SearchError::MalformedTargetHash),
                Ok(_) => {
                    let f = |c: String| -> (b: bool)
                        requires
                            bcrypt_envelope_ok(target_hash@),
                        ensures
                            b == bcrypt_matches(c@, target_hash@),
                        {
                            match bcrypt_check(c.as_str(), target_hash.as_str()) {
                                Ok(b) => b,
                                Err(_) => {
                                    proof {
                                        assert(false);
                                    }
                                    false
                                },
                            }
                        };
                    let found = search_first(max_length, &f);
                    proof {
                        let ghost n = max_length as nat;
                        if found is Some {
                            let s = found.unwrap();
                            assert forall|t: Seq<char>|
                                is_candidate(t, n) && rank(t) < rank(
                                    s@,
                                ) implies !#[trigger] hash_matches(kind, t, target_hash@) by {
                                assert(refuted_on(f, t));
                                let u = choose|u: String|
                                    u@ == t && call_ensures(f, (u,), false);
                                assert(!bcrypt_matches(u@, target_hash@));
                            }
                        } else {
                            assert forall|t: Seq<char>|
                                is_candidate(t, n) implies !#[trigger] hash_matches(
                                kind,
                                t,
                                target_hash@,
                            ) by {
                                assert(refuted_on(f, t));
                                let u = choose|u: String|
                                    u@ == t && call_ensures(f, (u,), false);
                                assert(!bcrypt_matches(u@, target_hash@));
                            }
                        }
                    }
                    Ok(found)
                },
            }
        },
    }
}

} // verus!
