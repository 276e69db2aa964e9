//! The memo of digests computed during one build.
//!
//! A path is digested at most once per cache: the first successful
//! computation is kept and answers every later lookup of that path. A failed
//! computation leaves no trace, so the same path may be tried again.

use vstd::prelude::*;

use crate::digest::Digest;
use crate::lex::{compare_text, Rank};

verus! {

/// One remembered digest.
struct Slot {
    path: String,
    digest: Digest,
}

/// The digests computed so far in a build, by the path of the file.
pub struct Cache {
    slots: Vec<Slot>,
}

/// Whether a lookup of `path` has to run the computation.
pub open spec fn computes(known: Map<Seq<char>, Digest>, path: Seq<char>) -> bool {
    !known.contains_key(path)
}

/// What a lookup of `path` answers, where `computed` is the outcome of the
/// computation if it had to run.
pub open spec fn answer<E>(
    known: Map<Seq<char>, Digest>,
    path: Seq<char>,
    computed: Result<Digest, E>,
) -> Result<Digest, E> {
    if known.contains_key(path) {
        Ok(known[path])
    } else {
        computed
    }
}

/// What is known after a lookup of `path`: a digest that had to be computed
/// is remembered, a failure is not, and a digest already known is never
/// replaced.
pub open spec fn after_lookup<E>(
    known: Map<Seq<char>, Digest>,
    path: Seq<char>,
    computed: Result<Digest, E>,
) -> Map<Seq<char>, Digest> {
    if known.contains_key(path) {
        known
    } else {
        match computed {
            Ok(digest) => known.insert(path, digest),
            Err(_) => known,
        }
    }
}

impl View for Cache {
    type V = Map<Seq<char>, Digest>;

    closed spec fn view(&self) -> Map<Seq<char>, Digest> {
        Map::new(
            |path: Seq<char>| self.holds(path),
            |path: Seq<char>| self.slots[self.slot_of(path)].digest,
        )
    }
}

impl Cache {
    spec fn holds(self, path: Seq<char>) -> bool {
        exists|i: int| 0 <= i < self.slots.len() && (#[trigger] self.slots[i]).path@ == path
    }

    spec fn slot_of(self, path: Seq<char>) -> int {
        choose|i: int| 0 <= i < self.slots.len() && (#[trigger] self.slots[i]).path@ == path
    }

    #[verifier::type_invariant]
    spec fn each_path_once(self) -> bool {
        forall|i: int, j: int|
            0 <= i < j < self.slots.len() ==> (#[trigger] self.slots[i]).path@ != (
            #[trigger] self.slots[j]).path@
    }

    /// A cache that knows no digest yet.
    pub fn new() -> (cache: Cache)
        ensures
            cache@ == Map::<Seq<char>, Digest>::empty(),
    {
        let cache = Cache { slots: Vec::new() };
        assert(cache@ =~= Map::<Seq<char>, Digest>::empty());
        cache
    }

    /// The digest remembered for `path`, if there is one.
    pub fn get(&self, path: &str) -> (found: Option<Digest>)
        ensures
            found == if self@.contains_key(path@) {
                Some(self@[path@])
            } else {
                None
            },
    {
        proof {
            use_type_invariant(self);
        }
        let mut i: usize = 0;
        while i < self.slots.len()
            invariant
                i <= self.slots.len(),
                self.each_path_once(),
                forall|j: int| 0 <= j < i ==> (#[trigger] self.slots[j]).path@ != path@,
            decreases self.slots.len() - i,
        {
            match compare_text(self.slots[i].path.as_str(), path) {
                Rank::Same => {
                    proof {
                        assert(self.holds(path@));
                        let j = self.slot_of(path@);
                        assert(self.slots[j].path@ == self.slots[i as int].path@);
                        assert(j == i);
                    }
                    return Some(self.slots[i].digest);
                },
                _ => {},
            }
            i += 1;
        }
        None
    }

    /// Remembers `digest` for `path`, of which nothing is known yet.
    fn remember(&mut self, path: &str, digest: Digest)
        requires
            !old(self)@.contains_key(path@),
        ensures
            final(self)@ == old(self)@.insert(path@, digest),
    {
        proof {
            use_type_invariant(&*self);
        }
        let ghost before = *self;
        assert(!before.holds(path@));
        let mut slots: Vec<Slot> = Vec::new();
        core::mem::swap(&mut self.slots, &mut slots);
        slots.push(Slot { path: path.to_owned(), digest });
        self.slots = slots;
        proof {
            let last = before.slots.len() as int;
            assert(self.slots[last].path@ == path@);
            assert forall|p: Seq<char>| self.holds(p) <==> (before.holds(p) || p == path@) by {
                if before.holds(p) {
                    let i = before.slot_of(p);
                    assert(self.slots[i].path@ == p);
                }
            }
            assert forall|p: Seq<char>| #[trigger]
                self.holds(p) implies self.slots[self.slot_of(p)].digest == before@.insert(
                path@,
                digest,
            )[p] by {
                let i = self.slot_of(p);
                if p != path@ {
                    assert(before.slots[i] == self.slots[i]);
                    let j = before.slot_of(p);
                    assert(before.slots[j].path@ == p);
                    assert(i == j);
                }
            }
            assert(self@ =~= before@.insert(path@, digest));
        }
    }

    /// Takes note of how the computation for `path` ended, and answers as the
    /// lookup that asked for it does: a digest is remembered unless one is
    /// known already, which then stands; a failure is handed on and not
    /// remembered.
    pub fn settle<E>(&mut self, path: &str, computed: Result<Digest, E>) -> (found: Result<
        Digest,
        E,
    >)
        ensures
            found == answer(old(self)@, path@, computed),
            final(self)@ == after_lookup(old(self)@, path@, computed),
    {
        match self.get(path) {
            Some(digest) => Ok(digest),
            None => match computed {
                Ok(digest) => {
                    self.remember(path, digest);
                    Ok(digest)
                },
                Err(error) => Err(error),
            },
        }
    }

    /// The digest of `k`: the one remembered, or else the one that `f`
    /// computes, which is then remembered. `f` runs only if no digest is
    /// known for `k`; if it fails, its error is handed on and nothing is
    /// remembered.
    pub fn get_or_try_set<F, E>(&mut self, k: &str, f: F) -> (found: Result<Digest, E>) where
        F: FnOnce(&str) -> Result<Digest, E>,

        requires
            computes(old(self)@, k@) ==> call_requires(f, (k,)),
        ensures
            computes(old(self)@, k@) ==> call_ensures(f, (k,), found),
            found == answer(old(self)@, k@, found),
            final(self)@ == after_lookup(old(self)@, k@, found),
    {
        match self.get(k) {
            Some(digest) => Ok(digest),
            None => match f(k) {
                Ok(digest) => {
                    self.remember(k, digest);
                    Ok(digest)
                },
                Err(error) => Err(error),
            },
        }
    }
}

/// A path is digested at most once: after a lookup that answered with a
/// digest, every later lookup of the same path answers with that digest,
/// runs no computation, and leaves the cache as it is.
pub proof fn lemma_computed_at_most_once<E>(
    known: Map<Seq<char>, Digest>,
    path: Seq<char>,
    first: Result<Digest, E>,
    second: Result<Digest, E>,
)
    requires
        answer(known, path, first) is Ok,
    ensures
        !computes(after_lookup(known, path, first), path),
        answer(after_lookup(known, path, first), path, second) == answer(known, path, first),
        after_lookup(after_lookup(known, path, first), path, second) == after_lookup(
            known,
            path,
            first,
        ),
{
}

/// A failure is not remembered: after a lookup whose computation failed the
/// cache is as before, and the next lookup of the path computes again.
pub proof fn lemma_failure_not_remembered<E>(
    known: Map<Seq<char>, Digest>,
    path: Seq<char>,
    computed: Result<Digest, E>,
)
    requires
        answer(known, path, computed) is Err,
    ensures
        after_lookup(known, path, computed) == known,
        computes(after_lookup(known, path, computed), path),
{
}

} // verus!
