//! Special pots of money: the collected fees and the treasury.

use vstd::prelude::*;

verus! {

/// An amount of currency, counted in the smallest unit.
#[derive(Clone, Copy, Debug, PartialEq, Eq, Structural)]
pub struct Value(pub u64);

/// Why value arithmetic refused to produce an amount.
#[derive(Clone, Copy, Debug, PartialEq, Eq, Structural)]
pub enum ValueError {
    /// The exact result does not fit the machine word.
    Overflow,
}

impl Value {
    /// The zero amount.
    pub fn zero() -> (r: Value)
        ensures
            r.0 == 0,
    {
        Value(0)
    }

    /// The exact sum of two amounts, or `Overflow` iff it does not fit.
    pub fn checked_add(self, other: Value) -> (r: Result<Value, ValueError>)
        ensures
            match r {
                Result::Ok(v) => self.0 + other.0 <= u64::MAX && v.0 == self.0 + other.0,
                Result::Err(e) => e == ValueError::Overflow && self.0 + other.0 > u64::MAX,
            },
    {
        if self.0 <= u64::MAX - other.0 {
            Result::Ok(Value(self.0 + other.0))
        } else {
            Result::Err(ValueError::Overflow)
        }
    }
}

/// The funds held by the treasury.
#[derive(Clone, Copy, Debug)]
pub struct Treasury(Value);

impl Treasury {
    /// The held amount.
    pub closed spec fn amount(self) -> u64 {
        self.0.0
    }

    /// Opens a treasury holding the given amount.
    pub fn initial(v: Value) -> (r: Self)
        ensures
            r.amount() == v.0,
    {
        Treasury(v)
    }

    /// The held amount.
    pub fn value(&self) -> (r: Value)
        ensures
            r.0 == self.amount(),
    {
        self.0
    }
}

/// The special pots: fees collected and the treasury.
#[derive(Clone, Copy, Debug)]
pub struct Pots {
    fees: Value,
    treasury: Treasury,
}

/// One pot's reading: which pot it is and how much it holds.
#[derive(Clone, Copy, Debug)]
pub enum Entry {
    Fees(Value),
    Treasury(Value),
}

/// Which pot an entry reads.
#[derive(Clone, Copy, Debug, PartialEq, Eq, Structural)]
pub enum EntryType {
    Fees,
    Treasury,
}

impl Entry {
    /// The amount the entry reads.
    pub fn value(&self) -> (r: Value)
        ensures
            match *self {
                Entry::Fees(v) => r == v,
                Entry::Treasury(v) => r == v,
            },
    {
        match self {
            Entry::Fees(v) => *v,
            Entry::Treasury(v) => *v,
        }
    }

    /// Which pot the entry reads.
    pub fn entry_type(&self) -> (r: EntryType)
        ensures
            match *self {
                Entry::Fees(_) => r == EntryType::Fees,
                Entry::Treasury(_) => r == EntryType::Treasury,
            },
    {
        match self {
            Entry::Fees(_) => EntryType::Fees,
            Entry::Treasury(_) => EntryType::Treasury,
        }
    }
}

/// Where a walk over the pots stands: the pot it will read next.
pub enum IterState {
    Fees,
    Treasury,
    Done,
}

/// A walk over the pots, one entry at a time: first the fees, then the
/// treasury, then nothing more.
pub struct Entries<'a> {
    pots: &'a Pots,
    it: IterState,
}

/// A walk over the pots that hands out the amounts alone.
pub struct Values<'a>(Entries<'a>);

impl Pots {
    /// The fees collected so far.
    pub closed spec fn fees_amount(self) -> u64 {
        self.fees.0
    }

    /// The amount the treasury holds.
    pub closed spec fn treasury_amount(self) -> u64 {
        self.treasury.amount()
    }

    /// Creates pots with nothing in them.
    pub fn zero() -> (r: Self)
        ensures
            r.fees_amount() == 0,
            r.treasury_amount() == 0,
    {
        Pots { fees: Value::zero(), treasury: Treasury::initial(Value::zero()) }
    }

    /// Starts a fresh walk over the pots.
    pub fn entries<'a>(&'a self) -> (r: Entries<'a>)
        ensures
            r.stage() is Fees,
            r.fees_of() == self.fees_amount(),
            r.treasury_of() == self.treasury_amount(),
    {
        Entries { pots: self, it: IterState::Fees }
    }

    /// Starts a fresh walk over the pots' amounts.
    pub fn values<'a>(&'a self) -> (r: Values<'a>)
        ensures
            r.stage() is Fees,
            r.fees_of() == self.fees_amount(),
            r.treasury_of() == self.treasury_amount(),
    {
        Values(self.entries())
    }

    /// The exact total held over all pots, or `Overflow` iff it does not
    /// fit the machine word.
    pub fn total_value(&self) -> (r: Result<Value, ValueError>)
        ensures
            match r {
                Result::Ok(v) => self.fees_amount() + self.treasury_amount() <= u64::MAX && v.0
                    == self.fees_amount() + self.treasury_amount(),
                Result::Err(e) => e == ValueError::Overflow && self.fees_amount()
                    + self.treasury_amount() > u64::MAX,
            },
    {
        self.fees.checked_add(self.treasury.value())
    }

    /// Adds newly collected fees into the fee pot. On overflow nothing
    /// changes and `Overflow` comes back.
    pub fn append_fees(&mut self, fees: Value) -> (r: Result<(), ValueError>)
        ensures
            final(self).treasury_amount() == old(self).treasury_amount(),
            match r {
                Result::Ok(()) => old(self).fees_amount() + fees.0 <= u64::MAX && final(self).fees_amount() == old(self).fees_amount() + fees.0,
                Result::Err(e) => {
                    &&& e == ValueError::Overflow
                    &&& old(self).fees_amount() + fees.0 > u64::MAX
                    &&& final(self).fees_amount() == old(self).fees_amount()
                },
            },
    {
        match self.fees.checked_add(fees) {
            Result::Ok(v) => {
                self.fees = v;
                Result::Ok(())
            },
            Result::Err(e) => Result::Err(e),
        }
    }

    /// Overwrites one pot from an entry, leaving the other untouched.
    pub fn set_from_entry(&mut self, e: &Entry)
        ensures
            match *e {
                Entry::Fees(v) => final(self).fees_amount() == v.0 && final(self).treasury_amount() == old(self).treasury_amount(),
                Entry::Treasury(v) => final(self).treasury_amount() == v.0 && final(self).fees_amount() == old(self).fees_amount(),
            },
    {
        match e {
            Entry::Fees(v) => {
                self.fees = *v;
            },
            Entry::Treasury(v) => {
                self.treasury = Treasury::initial(*v);
            },
        }
    }
}

impl<'a> Entries<'a> {
    /// The pot the walk will read next.
    pub closed spec fn stage(self) -> IterState {
        self.it
    }

    /// The fee amount the walk reads from.
    pub closed spec fn fees_of(self) -> u64 {
        self.pots.fees_amount()
    }

    /// The treasury amount the walk reads from.
    pub closed spec fn treasury_of(self) -> u64 {
        self.pots.treasury_amount()
    }

    /// The next pot reading: the fees first, then the treasury, then
    /// nothing more.
    pub fn next(&mut self) -> (r: Option<Entry>)
        ensures
            final(self).fees_of() == old(self).fees_of(),
            final(self).treasury_of() == old(self).treasury_of(),
            match old(self).stage() {
                IterState::Fees => r == Some(Entry::Fees(Value(old(self).fees_of()))) && final(self).stage() is Treasury,
                IterState::Treasury => r == Some(Entry::Treasury(Value(old(self).treasury_of())))
                    && final(self).stage() is Done,
                IterState::Done => r is None && final(self).stage() is Done,
            },
    {
        match self.it {
            IterState::Fees => {
                self.it = IterState::Treasury;
                Some(Entry::Fees(self.pots.fees))
            },
            IterState::Treasury => {
                self.it = IterState::Done;
                Some(Entry::Treasury(self.pots.treasury.value()))
            },
            IterState::Done => None,
        }
    }
}

impl<'a> Values<'a> {
    /// The pot the walk will read next.
    pub closed spec fn stage(self) -> IterState {
        self.0.stage()
    }

    /// The fee amount the walk reads from.
    pub closed spec fn fees_of(self) -> u64 {
        self.0.fees_of()
    }

    /// The treasury amount the walk reads from.
    pub closed spec fn treasury_of(self) -> u64 {
        self.0.treasury_of()
    }

    /// The next amount: the fees first, then the treasury, then nothing
    /// more.
    pub fn next(&mut self) -> (r: Option<Value>)
        ensures
            final(self).fees_of() == old(self).fees_of(),
            final(self).treasury_of() == old(self).treasury_of(),
            match old(self).stage() {
                IterState::Fees => r == Some(Value(old(self).fees_of())) && final(self).stage() is Treasury,
                IterState::Treasury => r == Some(Value(old(self).treasury_of())) && final(self).stage() is Done,
                IterState::Done => r is None && final(self).stage() is Done,
            },
    {
        match self.0.next() {
            None => None,
            Some(e) => Some(e.value()),
        }
    }
}

} // verus!
