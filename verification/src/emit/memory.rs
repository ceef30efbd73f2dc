//! Allocation that can be refused.

use vstd::prelude::*;

use crate::emit::error;
use crate::emit::error::EmitError;

verus! {

/// How an allocator answers requests for room: the `n`-th request, counted from
/// zero, for room for `additional` items is granted where the function returns
/// `true` of the two.
pub type Grants = spec_fn(nat, nat) -> bool;

/// Room for `additional` items is granted after `asked` requests. A request for
/// nothing never reaches the allocator.
pub open spec fn allows(g: Grants, asked: nat, additional: nat) -> bool {
    additional == 0 || g(asked, additional)
}

/// The number of requests after one for `additional` items.
pub open spec fn counted(asked: nat, additional: nat) -> nat {
    if additional == 0 {
        asked
    } else {
        asked + 1
    }
}

/// Whether `times` requests for `additional` items each are granted, made one after
/// the other up to the first that is not, and the number of requests after them.
pub open spec fn repeated(g: Grants, asked: nat, additional: nat, times: nat) -> (bool, nat)
    decreases times,
{
    if times == 0 {
        (true, asked)
    } else if !allows(g, asked, additional) {
        (false, counted(asked, additional))
    } else {
        repeated(g, counted(asked, additional), additional, (times - 1) as nat)
    }
}

/// A result, and the number of requests made when it is there.
#[verifier::ext_equal]
pub struct Answered<T> {
    pub out: Result<T, EmitError>,
    pub asked: nat,
}

/// What a refused request gives.
pub open spec fn refused<T>(asked: nat) -> Answered<T> {
    Answered { out: Err(error::out_of_memory()), asked }
}

/// A result with its list taken by its view.
pub open spec fn listed<T>(r: Result<Vec<T>, EmitError>) -> Result<Seq<T>, EmitError> {
    match r {
        Ok(list) => Ok(list@),
        Err(error) => Err(error),
    }
}

/// Makes one request for `additional` items, and then gives `out`.
pub open spec fn once<T>(
    g: Grants,
    asked: nat,
    additional: nat,
    out: Result<T, EmitError>,
) -> Answered<T> {
    if allows(g, asked, additional) {
        Answered { out, asked: counted(asked, additional) }
    } else {
        refused(counted(asked, additional))
    }
}

/// Asks the allocator for room. Its answers are known to the proofs alone.
pub struct Memory {
    answers: Ghost<Seq<(nat, bool)>>,
}

impl Memory {
    /// The number of requests made so far.
    pub closed spec fn asked(&self) -> nat {
        self.answers@.len()
    }

    /// The answers so far are those that `g` gives to the requests made.
    pub closed spec fn agrees(&self, g: Grants) -> bool {
        forall|i: int|
            0 <= i < self.answers@.len() ==> (#[trigger] self.answers@[i]).1 == g(
                i as nat,
                self.answers@[i].0,
            )
    }

    /// Answers that were given are the answers of some allocator.
    pub proof fn lemma_some_grants(&self) -> (g: Grants)
        ensures
            self.agrees(g),
    {
        let answers = self.answers@;
        |n: nat, additional: nat| answers[n as int].1
    }

    /// No request was made yet.
    pub fn new() -> (memory: Self)
        ensures
            memory.asked() == 0,
            forall|g: Grants| memory.agrees(g),
    {
        Memory { answers: Ghost(Seq::empty()) }
    }

    /// Notes that the allocator granted or refused one request.
    fn note_answer(&mut self, additional: usize, granted: bool)
        ensures
            final(self).asked() == old(self).asked() + 1,
            forall|g: Grants| #[trigger]
                final(self).agrees(g) ==> old(self).agrees(g) && g(
                    old(self).asked(),
                    additional as nat,
                ) == granted,
    {
        let ghost before = *self;
        self.answers = Ghost(self.answers@.push((additional as nat, granted)));
        proof {
            assert forall|g: Grants| #[trigger] self.agrees(g) implies before.agrees(g) && g(
                before.asked(),
                additional as nat,
            ) == granted by {
                let last = before.answers@.len() as int;
                assert(self.answers@[last] == (additional as nat, granted));
                assert forall|i: int| 0 <= i < before.answers@.len() implies (
                #[trigger] before.answers@[i]).1 == g(i as nat, before.answers@[i].0) by {
                    assert(self.answers@[i] == before.answers@[i]);
                }
            }
        }
    }

    /// Asks for room for `additional` more items. A request for nothing is always
    /// granted, and one that no vector could hold never is; in between the
    /// allocator decides.
    pub fn reserve<T>(&mut self, items: &mut Vec<T>, additional: usize) -> (granted: bool)
        ensures
            final(items)@ == old(items)@,
            final(self).asked() == counted(old(self).asked(), additional as nat),
            forall|g: Grants| #[trigger]
                final(self).agrees(g) ==> old(self).agrees(g) && granted == allows(
                    g,
                    old(self).asked(),
                    additional as nat,
                ),
            additional == 0 ==> granted,
            old(items)@.len() + additional > usize::MAX ==> !granted,
    {
        let len = items.len();
        if additional == 0 {
            return true;
        }
        if len.checked_add(additional).is_none() {
            self.note_answer(additional, false);
            return false;
        }
        match items.try_reserve(additional) {
            Ok(_) => {
                self.note_answer(additional, true);
                true
            },
            Err(_) => {
                self.note_answer(additional, false);
                false
            },
        }
    }
}

} // verus!
