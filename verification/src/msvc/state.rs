//! The output budget of one attempt, and its back-reference tables.

use std::collections::TryReserveError;
use vstd::prelude::*;
use vstd::string::*;

use crate::error::ParseFailure;
use crate::limits::{MAX_BACKREFERENCES, MAX_OUTPUT_BYTES};
use crate::text;
use crate::text::{byte_len, Text};

verus! {

/// `String::try_reserve_exact` asks the allocator for room and changes no text.
/// Whether the request is granted is not stated: the allocator decides.
pub assume_specification[ String::try_reserve_exact ](
    s: &mut String,
    additional: usize,
) -> (r: Result<(), TryReserveError>)
    ensures
        final(s)@ == old(s)@,
;

/// How an allocator answers the requests of one attempt, in order: the `n`-th
/// request, counted from zero, is granted where the function returns `true`.
pub type Grants = spec_fn(nat) -> bool;

/// What an attempt has spent and asked for.
pub struct Ledger {
    pub used: usize,
    pub limit: usize,
    /// The number of requests made to the allocator.
    pub asked: nat,
}

/// A result together with the ledger after it.
pub struct Charged<T> {
    pub out: Result<T, ParseFailure>,
    pub ledger: Ledger,
}

impl Ledger {
    /// The use after `additional` more bytes, if they fit.
    pub open spec fn preflight(self, additional: nat) -> Result<usize, ParseFailure> {
        if additional > MAX_OUTPUT_BYTES {
            Err(
                ParseFailure::OutputLimitExceeded {
                    attempted: additional as usize,
                    limit: MAX_OUTPUT_BYTES,
                },
            )
        } else if self.used + additional > usize::MAX {
            Err(ParseFailure::OutputLimitExceeded { attempted: usize::MAX, limit: self.limit })
        } else if self.used + additional > self.limit {
            Err(
                ParseFailure::OutputLimitExceeded {
                    attempted: (self.used + additional) as usize,
                    limit: self.limit,
                },
            )
        } else {
            Ok((self.used + additional) as usize)
        }
    }

    /// The ledger after a request for `additional` units. A request for nothing
    /// never reaches the allocator.
    pub open spec fn after_request(self, additional: nat) -> Ledger {
        if additional == 0 {
            self
        } else {
            Ledger { asked: self.asked + 1, ..self }
        }
    }

    /// Whether a request for `additional` units is granted.
    pub open spec fn granted(self, grants: Grants, additional: nat) -> bool {
        additional == 0 || grants(self.asked)
    }

    /// Produces `text`: the bytes are accounted for, then room is requested, and
    /// only then are the bytes counted as used.
    #[verifier::opaque]
    pub open spec fn produce(self, grants: Grants, text: Text) -> Charged<Text> {
        let width = text::byte_width(text);
        if width > usize::MAX {
            Charged {
                out: Err(
                    ParseFailure::OutputLimitExceeded {
                        attempted: usize::MAX,
                        limit: MAX_OUTPUT_BYTES,
                    },
                ),
                ledger: self,
            }
        } else {
            match self.preflight(width) {
                Err(error) => Charged { out: Err(error), ledger: self },
                Ok(used) => if self.granted(grants, width) {
                    Charged { out: Ok(text), ledger: Ledger { used, ..self.after_request(width) } }
                } else {
                    Charged {
                        out: Err(
                            ParseFailure::OutputAllocationFailed { additional: width as usize },
                        ),
                        ledger: self.after_request(width),
                    }
                },
            }
        }
    }
}

/// Nothing that was used is given back, and a use within the limit stays within it.
pub open spec fn spent(before: Ledger, after: Ledger) -> bool {
    &&& after.limit == before.limit
    &&& before.used <= after.used
    &&& before.used <= before.limit ==> after.used <= after.limit
}

/// Room in a budget that was found sufficient and not yet taken.
#[derive(Debug, Clone, Copy, PartialEq, Eq)]
pub struct BudgetReservation {
    next_used: usize,
}

impl BudgetReservation {
    /// The use that a commit of this reservation records.
    pub closed spec fn target(self) -> usize {
        self.next_used
    }
}

/// The number of bytes of text that one attempt has produced, and its bound.
pub struct AttemptBudget {
    used: usize,
    limit: usize,
    answers: Ghost<Seq<bool>>,
}

impl AttemptBudget {
    /// What was spent and asked for so far.
    pub closed spec fn ledger(&self) -> Ledger {
        Ledger { used: self.used, limit: self.limit, asked: self.answers@.len() }
    }

    /// The allocator's answers so far are those that `grants` gives.
    pub closed spec fn agrees(&self, grants: Grants) -> bool {
        forall|i: int|
            0 <= i < self.answers@.len() ==> #[trigger] self.answers@[i] == grants(i as nat)
    }

    /// Answers that were given are the answers of some allocator.
    pub proof fn lemma_some_grants(&self) -> (grants: Grants)
        ensures
            self.agrees(grants),
    {
        let answers = self.answers@;
        |i: nat| answers[i as int]
    }

    /// A budget of `MAX_OUTPUT_BYTES`, with nothing used.
    pub fn new() -> (budget: Self)
        ensures
            budget.ledger() == (Ledger { used: 0, limit: MAX_OUTPUT_BYTES, asked: 0 }),
            forall|g: Grants| budget.agrees(g),
    {
        AttemptBudget::with_limit(MAX_OUTPUT_BYTES)
    }

    /// A budget of `limit` bytes, with nothing used.
    pub fn with_limit(limit: usize) -> (budget: Self)
        ensures
            budget.ledger() == (Ledger { used: 0, limit, asked: 0 }),
            forall|g: Grants| budget.agrees(g),
    {
        AttemptBudget::with_used_and_limit(0, limit)
    }

    /// A budget of `limit` bytes of which `used` are used.
    pub fn with_used_and_limit(used: usize, limit: usize) -> (budget: Self)
        ensures
            budget.ledger() == (Ledger { used, limit, asked: 0 }),
            forall|g: Grants| budget.agrees(g),
    {
        AttemptBudget { used, limit, answers: Ghost(Seq::empty()) }
    }

    /// Finds out whether `additional` more bytes fit.
    pub fn preflight(&self, additional: usize) -> (r: Result<BudgetReservation, ParseFailure>)
        ensures
            match self.ledger().preflight(additional as nat) {
                Ok(used) => r matches Ok(reservation) && reservation.target() == used,
                Err(error) => r == Err::<BudgetReservation, ParseFailure>(error),
            },
    {
        if additional > MAX_OUTPUT_BYTES {
            return Err(
                ParseFailure::OutputLimitExceeded {
                    attempted: additional,
                    limit: MAX_OUTPUT_BYTES,
                },
            );
        }
        let next_used = match self.used.checked_add(additional) {
            Some(next_used) => next_used,
            None => return Err(
                ParseFailure::OutputLimitExceeded { attempted: usize::MAX, limit: self.limit },
            ),
        };
        if next_used > self.limit {
            return Err(
                ParseFailure::OutputLimitExceeded { attempted: next_used, limit: self.limit },
            );
        }
        Ok(BudgetReservation { next_used })
    }

    /// Takes the room that `reservation` found.
    pub fn commit(&mut self, reservation: BudgetReservation)
        ensures
            final(self).ledger() == (Ledger { used: reservation.target(), ..old(self).ledger() }),
            forall|g: Grants| #[trigger] final(self).agrees(g) == old(self).agrees(g),
    {
        let ghost before = *self;
        self.used = reservation.next_used;
        proof {
            assert forall|g: Grants| #[trigger] self.agrees(g) == before.agrees(g) by {
                if before.agrees(g) {
                    assert forall|i: int| 0 <= i < self.answers@.len() implies #[trigger]
                        self.answers@[i] == g(i as nat) by {
                        assert(before.answers@[i] == g(i as nat));
                    }
                }
                if self.agrees(g) {
                    assert forall|i: int| 0 <= i < before.answers@.len() implies #[trigger]
                        before.answers@[i] == g(i as nat) by {
                        assert(self.answers@[i] == g(i as nat));
                    }
                }
            }
        }
    }

    /// The number of bytes used.
    pub fn used(&self) -> (used: usize)
        ensures
            used == self.ledger().used,
    {
        self.used
    }

    /// Notes that the allocator granted or refused one request.
    fn note_answer(&mut self, granted: bool)
        ensures
            final(self).ledger() == old(self).ledger().after_request(1),
            forall|g: Grants| #[trigger]
                final(self).agrees(g) ==> old(self).agrees(g) && g(old(self).ledger().asked)
                    == granted,
    {
        let ghost before = *self;
        self.answers = Ghost(self.answers@.push(granted));
        proof {
            assert forall|g: Grants| #[trigger] self.agrees(g) implies before.agrees(g) && g(
                before.ledger().asked,
            ) == granted by {
                assert(self.answers@[before.answers@.len() as int] == granted);
                assert forall|i: int| 0 <= i < before.answers@.len() implies #[trigger]
                    before.answers@[i] == g(i as nat) by {
                    assert(self.answers@[i] == before.answers@[i]);
                }
            }
        }
    }

    /// An empty string with room for `additional` bytes, if the allocator grants it.
    pub fn reserve_text(&mut self, additional: usize) -> (r: Option<String>)
        ensures
            final(self).ledger() == old(self).ledger().after_request(additional as nat),
            r matches Some(room) ==> room@ == Seq::<char>::empty(),
            forall|g: Grants| #[trigger]
                final(self).agrees(g) ==> old(self).agrees(g) && r is Some == old(
                    self,
                ).ledger().granted(g, additional as nat),
    {
        let mut room = String::new();
        if additional == 0 {
            return Some(room);
        }
        match room.try_reserve_exact(additional) {
            Ok(_) => {
                self.note_answer(true);
                Some(room)
            },
            Err(_) => {
                self.note_answer(false);
                None
            },
        }
    }

    /// Asks for room for `additional` more strings in `items`.
    pub fn reserve_items(&mut self, items: &mut Vec<String>, additional: usize) -> (granted: bool)
        ensures
            final(self).ledger() == old(self).ledger().after_request(additional as nat),
            final(items)@ == old(items)@,
            forall|g: Grants| #[trigger]
                final(self).agrees(g) ==> old(self).agrees(g) && granted == old(
                    self,
                ).ledger().granted(g, additional as nat),
    {
        if additional == 0 {
            return true;
        }
        match items.try_reserve(additional) {
            Ok(_) => {
                self.note_answer(true);
                true
            },
            Err(_) => {
                self.note_answer(false);
                false
            },
        }
    }

    /// Copies `value`, within the budget.
    pub fn copy_string(&mut self, value: &str) -> (r: Result<String, ParseFailure>)
        ensures
            r matches Ok(owned) ==> owned@ == value@ && final(self).ledger().used == old(
                self,
            ).ledger().used + text::byte_width(value@),
            r is Err ==> final(self).ledger().used == old(self).ledger().used,
            spent(old(self).ledger(), final(self).ledger()),
            forall|g: Grants| #[trigger]
                final(self).agrees(g) ==> old(self).agrees(g) && (Charged {
                    out: text::text_result(r),
                    ledger: final(self).ledger(),
                }) == old(self).ledger().produce(g, value@),
    {
        proof {
            reveal(Ledger::produce);
        }
        let len = byte_len(value);
        let reservation = self.preflight(len)?;
        let mut owned = match self.reserve_text(len) {
            Some(owned) => owned,
            None => return Err(ParseFailure::OutputAllocationFailed { additional: len }),
        };
        owned.append(value);
        self.commit(reservation);
        assert(owned@ =~= value@);
        Ok(owned)
    }
}

/// The mathematical view of a `RefArray`.
#[verifier::ext_equal]
pub struct Table {
    pub start: usize,
    pub num: usize,
    pub max: usize,
    pub slots: Seq<Text>,
    pub limit: usize,
}

/// A result together with the table and the ledger after it.
#[verifier::ext_equal]
pub struct Stored {
    pub out: Result<(), ParseFailure>,
    pub table: Table,
    pub ledger: Ledger,
}

impl Table {
    /// An empty table for at most `limit` entries.
    pub open spec fn empty(limit: usize) -> Table {
        Table { start: 0, num: 0, max: 0, slots: Seq::empty(), limit }
    }

    /// The active entries lie below the high-water mark, and the slots reach
    /// exactly up to it.
    pub open spec fn well_formed(self) -> bool {
        self.num <= self.max && self.max == self.slots.len()
    }

    /// What `preflight_invariants` returns.
    pub open spec fn integrity(self) -> Result<(), ParseFailure> {
        let slots_len = self.slots.len() as usize;
        if self.num > self.max {
            Err(
                ParseFailure::ReferenceStateCorrupt { index: self.num, slots_len, max: self.max },
            )
        } else if self.max != self.slots.len() {
            Err(
                ParseFailure::ReferenceStateCorrupt { index: self.max, slots_len, max: self.max },
            )
        } else {
            Ok(())
        }
    }

    /// The number of active entries after `additional` more, if the limit allows it.
    pub open spec fn capacity(self, additional: nat) -> Result<usize, ParseFailure> {
        if self.num + additional > usize::MAX {
            Err(ParseFailure::ReferenceLimitExceeded { attempted: usize::MAX, limit: self.limit })
        } else if self.num + additional > self.limit {
            Err(
                ParseFailure::ReferenceLimitExceeded {
                    attempted: (self.num + additional) as usize,
                    limit: self.limit,
                },
            )
        } else {
            Ok((self.num + additional) as usize)
        }
    }

    /// The table with `value` as its next active entry. A slot that an earlier
    /// entry left behind is written over.
    pub open spec fn put(self, value: Text) -> Table {
        let num = (self.num + 1) as usize;
        Table {
            num,
            max: if num > self.max {
                num
            } else {
                self.max
            },
            slots: if self.num < self.slots.len() {
                self.slots.update(self.num as int, value)
            } else {
                self.slots.push(value)
            },
            ..self
        }
    }

    /// The number of slots missing for `num` active entries.
    pub open spec fn missing(self, num: usize) -> nat {
        if num > self.max {
            (num - self.max) as nat
        } else {
            0
        }
    }

    /// Adds one entry.
    pub open spec fn push(self, grants: Grants, ledger: Ledger, value: Text) -> Stored {
        let refused = |error: ParseFailure, ledger: Ledger|
            Stored { out: Err(error), table: self, ledger };
        match self.integrity() {
            Err(error) => refused(error, ledger),
            Ok(_) => match self.capacity(1) {
                Err(error) => refused(error, ledger),
                Ok(num) => {
                    let tail = self.missing(num);
                    let asked = ledger.after_request(tail);
                    if !ledger.granted(grants, tail) {
                        refused(
                            ParseFailure::ReferenceAllocationFailed { additional: tail as usize },
                            asked,
                        )
                    } else {
                        let copied = asked.produce(grants, value);
                        match copied.out {
                            Err(error) => refused(error, copied.ledger),
                            Ok(_) => Stored {
                                out: Ok(()),
                                table: self.put(value),
                                ledger: copied.ledger,
                            },
                        }
                    }
                },
            },
        }
    }

    /// Adds two entries, or none.
    pub open spec fn push_pair(
        self,
        grants: Grants,
        ledger: Ledger,
        left: Text,
        right: Text,
    ) -> Stored {
        let refused = |error: ParseFailure, ledger: Ledger|
            Stored { out: Err(error), table: self, ledger };
        let left_width = text::byte_width(left);
        let right_width = text::byte_width(right);
        match self.integrity() {
            Err(error) => refused(error, ledger),
            Ok(_) => match self.capacity(2) {
                Err(error) => refused(error, ledger),
                Ok(num) => {
                    let tail = self.missing(num);
                    let l1 = ledger.after_request(tail);
                    let l2 = l1.after_request(left_width);
                    let l3 = l2.after_request(right_width);
                    if !ledger.granted(grants, tail) {
                        refused(
                            ParseFailure::ReferenceAllocationFailed { additional: tail as usize },
                            l1,
                        )
                    } else if left_width + right_width > usize::MAX {
                        refused(
                            ParseFailure::OutputLimitExceeded {
                                attempted: usize::MAX,
                                limit: MAX_OUTPUT_BYTES,
                            },
                            l1,
                        )
                    } else {
                        match l1.preflight(left_width + right_width) {
                            Err(error) => refused(error, l1),
                            Ok(used) => if !l1.granted(grants, left_width) {
                                refused(
                                    ParseFailure::OutputAllocationFailed {
                                        additional: left_width as usize,
                                    },
                                    l2,
                                )
                            } else if !l2.granted(grants, right_width) {
                                refused(
                                    ParseFailure::OutputAllocationFailed {
                                        additional: right_width as usize,
                                    },
                                    l3,
                                )
                            } else {
                                Stored {
                                    out: Ok(()),
                                    table: self.put(left).put(right),
                                    ledger: Ledger { used, ..l3 },
                                }
                            },
                        }
                    }
                },
            },
        }
    }

    /// Writes `value` over the last active entry.
    pub open spec fn replace_last(self, grants: Grants, ledger: Ledger, value: Text) -> Stored {
        let refused = |error: ParseFailure, ledger: Ledger|
            Stored { out: Err(error), table: self, ledger };
        match self.integrity() {
            Err(error) => refused(error, ledger),
            Ok(_) => if self.start > self.max {
                refused(
                    ParseFailure::ReferenceStateCorrupt {
                        index: self.start,
                        slots_len: self.slots.len() as usize,
                        max: self.max,
                    },
                    ledger,
                )
            } else if self.num == 0 {
                refused(ParseFailure::ActiveReferenceOutOfRange { index: 0, num: 0 }, ledger)
            } else {
                let copied = ledger.produce(grants, value);
                match copied.out {
                    Err(error) => refused(error, copied.ledger),
                    Ok(_) => Stored {
                        out: Ok(()),
                        table: Table { slots: self.slots.update(self.num - 1, value), ..self },
                        ledger: copied.ledger,
                    },
                }
            },
        }
    }

    /// Why `index` does not name an active entry, or the table with that entry
    /// written over.
    pub open spec fn replace(self, index: usize, value: Text) -> Result<Table, ParseFailure> {
        match self.integrity() {
            Err(error) => Err(error),
            Ok(_) => if index >= self.num {
                Err(ParseFailure::ActiveReferenceOutOfRange { index, num: self.num })
            } else {
                Ok(Table { slots: self.slots.update(index as int, value), ..self })
            },
        }
    }

    /// The active entry `index`.
    pub open spec fn active(self, index: usize) -> Result<Text, ParseFailure> {
        if index >= self.num {
            Err(ParseFailure::ActiveReferenceOutOfRange { index, num: self.num })
        } else if index >= self.slots.len() {
            Err(
                ParseFailure::ActiveReferenceStateCorrupt {
                    index,
                    num: self.num,
                    slots_len: self.slots.len() as usize,
                },
            )
        } else {
            Ok(self.slots[index as int])
        }
    }

    /// The entry that a back-reference `index` denotes: it counts from the start
    /// of the table and may reach any slot below the high-water mark.
    pub open spec fn reference(self, index: usize) -> Result<Text, ParseFailure> {
        if self.start + index > usize::MAX {
            Err(ParseFailure::ReferenceIndexOverflow { start: self.start, index })
        } else if self.start + index >= self.max {
            Err(ParseFailure::ReferenceOutOfHighWater { start: self.start, index, max: self.max })
        } else if self.start + index >= self.slots.len() {
            Err(
                ParseFailure::ReferenceStateCorrupt {
                    index: (self.start + index) as usize,
                    slots_len: self.slots.len() as usize,
                    max: self.max,
                },
            )
        } else {
            Ok(self.slots[self.start + index])
        }
    }

    /// Why the active entries cannot be cut or regrown to `requested`.
    pub open spec fn restore_error(self, requested: usize) -> Option<ParseFailure> {
        if requested > self.max {
            Some(ParseFailure::InvalidReferenceRestore { requested, max: self.max })
        } else {
            None
        }
    }

    /// The table after an attempt to have `requested` active entries.
    pub open spec fn restored(self, requested: usize) -> Table {
        if requested > self.max {
            self
        } else {
            Table { num: requested, ..self }
        }
    }

    /// Why the table cannot start at `requested`.
    pub open spec fn start_error(self, requested: usize) -> Option<ParseFailure> {
        if requested > self.max {
            Some(ParseFailure::InvalidReferenceStart { requested, max: self.max })
        } else {
            None
        }
    }

    /// The table after an attempt to start it at `requested`.
    pub open spec fn started(self, requested: usize) -> Table {
        if requested > self.max {
            self
        } else {
            Table { start: requested, ..self }
        }
    }

    /// Why the start cannot move up by one entry.
    pub open spec fn increment_error(self) -> Option<ParseFailure> {
        if self.start == usize::MAX {
            Some(ParseFailure::InvalidReferenceStart { requested: usize::MAX, max: self.max })
        } else {
            self.start_error((self.start + 1) as usize)
        }
    }

    /// The table after an attempt to move the start up by one entry.
    pub open spec fn incremented(self) -> Table {
        if self.start == usize::MAX {
            self
        } else {
            self.started((self.start + 1) as usize)
        }
    }
}

/// The high-water mark never falls, and counters that fit the slots go on to fit
/// them.
pub open spec fn grown(before: Table, after: Table) -> bool {
    &&& after.limit == before.limit
    &&& before.max <= after.max
    &&& before.well_formed() ==> after.well_formed()
}

/// A result that holds nothing but a possible error.
pub open spec fn outcome(error: Option<ParseFailure>) -> Result<(), ParseFailure> {
    match error {
        Some(error) => Err(error),
        None => Ok(()),
    }
}

/// A result with its borrowed text taken by its view.
pub open spec fn borrowed_text(r: Result<&str, ParseFailure>) -> Result<Text, ParseFailure> {
    match r {
        Ok(text) => Ok(text@),
        Err(error) => Err(error),
    }
}

/// A table of back-references. The first `num` slots are active; slots up to
/// `max` may hold entries that were active before.
pub struct RefArray {
    pub start: usize,
    pub num: usize,
    pub max: usize,
    pub slots: Vec<String>,
    pub limit: usize,
}

/// How new entries reach the slots of a table.
#[derive(Debug, Clone, Copy)]
pub enum InsertTransition {
    Overwrite,
    OverwriteThenAppend,
    Append,
}

impl View for RefArray {
    type V = Table;

    open spec fn view(&self) -> Table {
        Table {
            start: self.start,
            num: self.num,
            max: self.max,
            slots: text::owned_texts(self.slots@),
            limit: self.limit,
        }
    }
}

impl RefArray {
    /// An empty table for at most `MAX_BACKREFERENCES` entries.
    pub fn new() -> (table: Self)
        ensures
            table@ == Table::empty(MAX_BACKREFERENCES),
    {
        RefArray::with_limit(MAX_BACKREFERENCES)
    }

    /// An empty table for at most `limit` entries.
    pub fn with_limit(limit: usize) -> (table: Self)
        ensures
            table@ == Table::empty(limit),
    {
        let table = RefArray { start: 0, num: 0, max: 0, slots: Vec::new(), limit };
        assert(table@ =~= Table::empty(limit));
        table
    }

    /// Adds a copy of `value` as the next active entry.
    pub fn push(&mut self, value: &str, budget: &mut AttemptBudget) -> (r: Result<
        (),
        ParseFailure,
    >)
        ensures
            spent(old(budget).ledger(), final(budget).ledger()),
            grown(old(self)@, final(self)@),
            final(self)@.start == old(self)@.start,
            forall|g: Grants| #[trigger]
                final(budget).agrees(g) ==> old(budget).agrees(g) && (Stored {
                    out: r,
                    table: final(self)@,
                    ledger: final(budget).ledger(),
                }) == old(self)@.push(g, old(budget).ledger(), value@),
    {
        self.preflight_invariants()?;
        let next_num = self.preflight_capacity(1)?;
        let transition = if self.num < self.max {
            InsertTransition::Overwrite
        } else {
            InsertTransition::Append
        };
        let required_tail: usize = if next_num > self.max {
            1
        } else {
            0
        };
        if !budget.reserve_items(&mut self.slots, required_tail) {
            return Err(ParseFailure::ReferenceAllocationFailed { additional: required_tail });
        }
        let value = budget.copy_string(value)?;
        match transition {
            InsertTransition::Overwrite => {
                self.slots.set(self.num, value);
            },
            _ => {
                self.slots.push(value);
            },
        }
        self.num = next_num;
        if self.num > self.max {
            self.max = self.num;
        }
        assert(self@ =~= old(self)@.put(value@));
        Ok(())
    }

    /// Writes a copy of `value` over the last active entry.
    pub fn replace_last_active(&mut self, value: &str, budget: &mut AttemptBudget) -> (r: Result<
        (),
        ParseFailure,
    >)
        ensures
            spent(old(budget).ledger(), final(budget).ledger()),
            grown(old(self)@, final(self)@),
            final(self)@.start == old(self)@.start,
            forall|g: Grants| #[trigger]
                final(budget).agrees(g) ==> old(budget).agrees(g) && (Stored {
                    out: r,
                    table: final(self)@,
                    ledger: final(budget).ledger(),
                }) == old(self)@.replace_last(g, old(budget).ledger(), value@),
    {
        self.preflight_invariants()?;
        if self.start > self.max {
            return Err(
                ParseFailure::ReferenceStateCorrupt {
                    index: self.start,
                    slots_len: self.slots.len(),
                    max: self.max,
                },
            );
        }
        if self.num == 0 {
            return Err(ParseFailure::ActiveReferenceOutOfRange { index: 0, num: self.num });
        }
        let index: usize = self.num - 1;
        let owned = budget.copy_string(value)?;
        let ghost written = owned@;
        self.slots.set(index, owned);
        assert(self@.slots =~= old(self)@.slots.update(index as int, written));
        Ok(())
    }

    /// Writes `value` over the active entry `index`.
    pub fn replace_active_owned(&mut self, index: usize, value: String) -> (r: Result<
        (),
        ParseFailure,
    >)
        ensures
            match old(self)@.replace(index, value@) {
                Ok(table) => r == Ok::<(), ParseFailure>(()) && final(self)@ == table,
                Err(error) => r == Err::<(), ParseFailure>(error) && final(self)@ == old(self)@,
            },
    {
        self.preflight_invariants()?;
        if index >= self.num {
            return Err(ParseFailure::ActiveReferenceOutOfRange { index, num: self.num });
        }
        let ghost written = value@;
        self.slots.set(index, value);
        assert(self@.slots =~= old(self)@.slots.update(index as int, written));
        Ok(())
    }

    /// Adds copies of `left` and `right` as the next two active entries, or none.
    pub fn push_pair(&mut self, left: &str, right: &str, budget: &mut AttemptBudget) -> (r: Result<
        (),
        ParseFailure,
    >)
        ensures
            spent(old(budget).ledger(), final(budget).ledger()),
            grown(old(self)@, final(self)@),
            final(self)@.start == old(self)@.start,
            forall|g: Grants| #[trigger]
                final(budget).agrees(g) ==> old(budget).agrees(g) && (Stored {
                    out: r,
                    table: final(self)@,
                    ledger: final(budget).ledger(),
                }) == old(self)@.push_pair(g, old(budget).ledger(), left@, right@),
    {
        self.preflight_invariants()?;
        let next_num = self.preflight_capacity(2)?;
        let transition = if next_num <= self.max {
            InsertTransition::Overwrite
        } else if self.num < self.max {
            InsertTransition::OverwriteThenAppend
        } else {
            InsertTransition::Append
        };
        let required_tail: usize = if next_num > self.max {
            next_num - self.max
        } else {
            0
        };
        if !budget.reserve_items(&mut self.slots, required_tail) {
            return Err(ParseFailure::ReferenceAllocationFailed { additional: required_tail });
        }
        let left_len = byte_len(left);
        let right_len = byte_len(right);
        let total_len = match left_len.checked_add(right_len) {
            Some(total_len) => total_len,
            None => return Err(
                ParseFailure::OutputLimitExceeded {
                    attempted: usize::MAX,
                    limit: MAX_OUTPUT_BYTES,
                },
            ),
        };
        let reservation = budget.preflight(total_len)?;
        let mut left_owned = match budget.reserve_text(left_len) {
            Some(left_owned) => left_owned,
            None => return Err(ParseFailure::OutputAllocationFailed { additional: left_len }),
        };
        left_owned.append(left);
        assert(left_owned@ =~= left@);
        let mut right_owned = match budget.reserve_text(right_len) {
            Some(right_owned) => right_owned,
            None => return Err(ParseFailure::OutputAllocationFailed { additional: right_len }),
        };
        right_owned.append(right);
        assert(right_owned@ =~= right@);
        budget.commit(reservation);
        match transition {
            InsertTransition::Overwrite => {
                self.slots.set(self.num, left_owned);
                self.slots.set(self.num + 1, right_owned);
            },
            InsertTransition::OverwriteThenAppend => {
                self.slots.set(self.num, left_owned);
                self.slots.push(right_owned);
            },
            InsertTransition::Append => {
                self.slots.push(left_owned);
                self.slots.push(right_owned);
            },
        }
        self.num = next_num;
        if next_num > self.max {
            self.max = next_num;
        }
        assert(self@ =~= old(self)@.put(left@).put(right@));
        Ok(())
    }

    /// Finds out whether the counters and the slots fit together.
    pub fn preflight_invariants(&self) -> (r: Result<(), ParseFailure>)
        ensures
            r == self@.integrity(),
            r is Ok ==> self@.well_formed(),
    {
        let slots_len = self.slots.len();
        if self.num > self.max {
            return Err(
                ParseFailure::ReferenceStateCorrupt { index: self.num, slots_len, max: self.max },
            );
        }
        if self.max != slots_len {
            return Err(
                ParseFailure::ReferenceStateCorrupt { index: self.max, slots_len, max: self.max },
            );
        }
        Ok(())
    }

    /// The number of active entries after `additional` more.
    pub fn preflight_capacity(&self, additional: usize) -> (r: Result<usize, ParseFailure>)
        ensures
            r == self@.capacity(additional as nat),
    {
        let next_num = match self.num.checked_add(additional) {
            Some(next_num) => next_num,
            None => return Err(
                ParseFailure::ReferenceLimitExceeded { attempted: usize::MAX, limit: self.limit },
            ),
        };
        if next_num > self.limit {
            return Err(
                ParseFailure::ReferenceLimitExceeded { attempted: next_num, limit: self.limit },
            );
        }
        Ok(next_num)
    }

    /// The slot that back-reference 0 denotes.
    pub fn logical_start(&self) -> (start: usize)
        ensures
            start == self@.start,
    {
        self.start
    }

    /// The number of active entries.
    pub fn logical_num(&self) -> (num: usize)
        ensures
            num == self@.num,
    {
        self.num
    }

    /// The active entry `index`, counted from the first slot.
    pub fn active_absolute_reference(&self, index: usize) -> (r: Result<&str, ParseFailure>)
        ensures
            borrowed_text(r) == self@.active(index),
    {
        if index >= self.num {
            return Err(ParseFailure::ActiveReferenceOutOfRange { index, num: self.num });
        }
        if index >= self.slots.len() {
            return Err(
                ParseFailure::ActiveReferenceStateCorrupt {
                    index,
                    num: self.num,
                    slots_len: self.slots.len(),
                },
            );
        }
        Ok(self.slots[index].as_str())
    }

    /// Makes the first `requested` slots the active ones.
    pub fn restore_num(&mut self, requested: usize) -> (r: Result<(), ParseFailure>)
        ensures
            r == outcome(old(self)@.restore_error(requested)),
            final(self)@ == old(self)@.restored(requested),
    {
        if requested > self.max {
            return Err(ParseFailure::InvalidReferenceRestore { requested, max: self.max });
        }
        self.num = requested;
        Ok(())
    }

    /// Makes `requested` the slot that back-reference 0 denotes.
    pub fn set_start(&mut self, requested: usize) -> (r: Result<(), ParseFailure>)
        ensures
            r == outcome(old(self)@.start_error(requested)),
            final(self)@ == old(self)@.started(requested),
    {
        if requested > self.max {
            return Err(ParseFailure::InvalidReferenceStart { requested, max: self.max });
        }
        self.start = requested;
        Ok(())
    }

    /// Moves the start up by one slot.
    pub fn increment_start(&mut self) -> (r: Result<(), ParseFailure>)
        ensures
            r == outcome(old(self)@.increment_error()),
            final(self)@ == old(self)@.incremented(),
    {
        let requested = match self.start.checked_add(1) {
            Some(requested) => requested,
            None => return Err(
                ParseFailure::InvalidReferenceStart { requested: usize::MAX, max: self.max },
            ),
        };
        self.set_start(requested)
    }

    /// The entry that back-reference `index` denotes.
    pub fn reference(&self, index: usize) -> (r: Result<&str, ParseFailure>)
        ensures
            borrowed_text(r) == self@.reference(index),
    {
        let absolute = match self.start.checked_add(index) {
            Some(absolute) => absolute,
            None => return Err(
                ParseFailure::ReferenceIndexOverflow { start: self.start, index },
            ),
        };
        if absolute >= self.max {
            return Err(
                ParseFailure::ReferenceOutOfHighWater { start: self.start, index, max: self.max },
            );
        }
        if absolute >= self.slots.len() {
            return Err(
                ParseFailure::ReferenceStateCorrupt {
                    index: absolute,
                    slots_len: self.slots.len(),
                    max: self.max,
                },
            );
        }
        Ok(self.slots[absolute].as_str())
    }
}

} // verus!
