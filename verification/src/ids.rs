//! Stable identities for panes, pane collections and delegation records,
//! with the allocators that hand them out.
//!
//! Allocation state is an explicit value: whoever owns an allocator owns the
//! sequence of identities it hands out.

use vstd::prelude::*;
use crate::text::{decimal, parse_u64, parse_u64_spec, strip_prefix, u64_to_decimal};

verus! {

// ---------------------------------------------------------------- PaneId

/// Identity of a pane.
#[derive(Debug, Clone, Copy, PartialEq, Eq, Hash, Structural)]
pub struct PaneId(u32);

impl PaneId {
    /// The number this identity stands for.
    pub closed spec fn value(self) -> u32 {
        self.0
    }

    pub fn raw(self) -> (r: u32)
        ensures
            r == self.value(),
    {
        self.0
    }

    /// Reconstruct an identity from a saved number.
    pub fn from_raw(id: u32) -> (r: Self)
        ensures
            r.value() == id,
    {
        PaneId(id)
    }

    /// Take the next identity from `ids`; the counter wraps around at `u32::MAX`.
    pub fn allocate(ids: &mut PaneIdAllocator) -> (r: Self)
        ensures
            r.value() == old(ids).next,
            final(ids).next == if old(ids).next == u32::MAX { 0 } else { (old(ids).next + 1) as u32 },
    {
        let id = ids.next;
        ids.next = id.wrapping_add(1);
        PaneId(id)
    }
}

pub broadcast proof fn lemma_pane_id_value_injective(a: PaneId, b: PaneId)
    ensures
        #![trigger a.value(), b.value()]
        (a.value() == b.value()) == (a == b),
{
}

/// Hands out pane identities in increasing order, starting at 1.
pub struct PaneIdAllocator {
    pub next: u32,
}

impl PaneIdAllocator {
    pub fn new() -> (r: Self)
        ensures
            r.next == 1,
    {
        PaneIdAllocator { next: 1 }
    }
}


// ---------------------------------------------------------- CollectionId

/// Stable identity of a pane collection, independent of pane identity and of
/// the slot the collection occupies in a layout.
#[derive(Debug, Clone, Copy, PartialEq, Eq, Hash, Structural)]
pub struct CollectionId(u64);

#[derive(Debug, Clone, Copy, PartialEq, Eq, Structural)]
pub enum CollectionIdError {
    Invalid,
    Exhausted,
}

/// The text every serialized collection identity begins with.
pub open spec fn collection_prefix() -> Seq<char> {
    "collection_"@
}

/// Numbers that are valid collection identities.
pub open spec fn valid_collection_number(n: u64) -> bool {
    0 < n && n < u64::MAX
}

/// The number named by a serialized collection identity, where the text is one.
pub open spec fn parse_collection_spec(s: Seq<char>) -> Option<u64> {
    let p = collection_prefix();
    if p.len() <= s.len() && s.subrange(0, p.len() as int) == p {
        match parse_u64_spec(s.subrange(p.len() as int, s.len() as int)) {
            Some(n) => if valid_collection_number(n) { Some(n) } else { None },
            None => None,
        }
    } else {
        None
    }
}

impl CollectionId {
    pub closed spec fn value(self) -> u64 {
        self.0
    }

    /// Take the next identity from `ids`. The counter never wraps: once it
    /// reaches `u64::MAX` (or was set to zero) allocation fails and leaves it as is.
    pub fn allocate(ids: &mut CollectionIdAllocator) -> (r: Result<Self, CollectionIdError>)
        ensures
            valid_collection_number(old(ids).next) ==> r is Ok && final(ids).next == old(ids).next
                + 1,
            !valid_collection_number(old(ids).next) ==> r == Err::<Self, CollectionIdError>(
                CollectionIdError::Exhausted,
            ) && final(ids).next == old(ids).next,
            r is Ok ==> r->Ok_0.value() == old(ids).next,
    {
        let current = ids.next;
        if current > 0 && current < u64::MAX {
            ids.next = current + 1;
            Ok(CollectionId(current))
        } else {
            Err(CollectionIdError::Exhausted)
        }
    }

    pub fn raw(self) -> (r: u64)
        ensures
            r == self.value(),
    {
        self.0
    }

    /// Reconstruct an identity from persisted state while reserving it from
    /// allocation: afterwards `ids` hands out only larger numbers.
    pub fn from_raw(id: u64, ids: &mut CollectionIdAllocator) -> (r: Result<Self, CollectionIdError>)
        ensures
            valid_collection_number(id) ==> r is Ok && r->Ok_0.value() == id && final(ids).next == (
            if old(ids).next <= id { (id + 1) as u64 } else { old(ids).next }),
            !valid_collection_number(id) ==> r == Err::<Self, CollectionIdError>(
                CollectionIdError::Invalid,
            ) && final(ids).next == old(ids).next,
    {
        let parsed = Self::parse_raw(id);
        match parsed {
            Ok(value) => {
                if ids.next <= id {
                    ids.next = id + 1;
                }
                Ok(value)
            },
            Err(e) => Err(e),
        }
    }

    /// Parse an untrusted public identity (`collection_<n>`) without touching
    /// any allocator.
    pub fn parse(raw: &str) -> (r: Result<Self, CollectionIdError>)
        ensures
            match parse_collection_spec(raw@) {
                Some(n) => r is Ok && r->Ok_0.value() == n,
                None => r == Err::<Self, CollectionIdError>(CollectionIdError::Invalid),
            },
    {
        let rest = match strip_prefix(raw, "collection_") {
            Some(rest) => rest,
            None => return Err(CollectionIdError::Invalid),
        };
        match parse_u64(rest) {
            Some(n) => Self::parse_raw(n),
            None => Err(CollectionIdError::Invalid),
        }
    }

    fn parse_raw(id: u64) -> (r: Result<Self, CollectionIdError>)
        ensures
            valid_collection_number(id) ==> r == Ok::<Self, CollectionIdError>(CollectionId(id)),
            !valid_collection_number(id) ==> r == Err::<Self, CollectionIdError>(
                CollectionIdError::Invalid,
            ),
    {
        if id > 0 && id < u64::MAX {
            Ok(CollectionId(id))
        } else {
            Err(CollectionIdError::Invalid)
        }
    }

    /// The serialized form, `collection_<n>`.
    pub fn to_string(&self) -> (r: String)
        ensures
            r@ == collection_prefix() + decimal(self.value() as nat),
    {
        let mut text = String::from_str("collection_");
        let digits = u64_to_decimal(self.0);
        text.append(digits.as_str());
        text
    }
}

/// Hands out collection identities in increasing order, starting at 1.
pub struct CollectionIdAllocator {
    pub next: u64,
}

impl CollectionIdAllocator {
    pub fn new() -> (r: Self)
        ensures
            r.next == 1,
    {
        CollectionIdAllocator { next: 1 }
    }
}

// ---------------------------------------------------------- DelegationId

/// Stable session identity of a delegation record. Zero is never an identity.
#[derive(Debug, Clone, Copy, PartialEq, Eq, Hash, PartialOrd, Ord, Structural)]
pub struct DelegationId(u64);

/// The text does not name a delegation.
#[derive(Debug, Clone, Copy, PartialEq, Eq, Structural)]
pub struct ParseDelegationIdError;

/// No delegation identity is left to allocate.
#[derive(Debug, Clone, Copy, PartialEq, Eq, Structural)]
pub struct DelegationIdAllocationError;

/// The number named by a public delegation identity (`d<n>`, `n > 0`).
pub open spec fn parse_delegation_spec(s: Seq<char>) -> Option<u64> {
    if s.len() >= 1 && s[0] == 'd' {
        match parse_u64_spec(s.drop_first()) {
            Some(n) => if n > 0 { Some(n) } else { None },
            None => None,
        }
    } else {
        None
    }
}

impl DelegationId {
    #[verifier::type_invariant]
    closed spec fn positive(self) -> bool {
        self.0 != 0
    }

    pub closed spec fn value(self) -> u64 {
        self.0
    }

    /// Take the next identity from `ids`; fails without wrapping once the
    /// counter has reached `u64::MAX`.
    pub fn allocate(ids: &mut DelegationIdAllocator) -> (r: Result<Self, DelegationIdAllocationError>)
        ensures
            old(ids).next() < u64::MAX ==> r is Ok && r->Ok_0.value() == old(ids).next()
                && final(ids).next() == old(ids).next() + 1,
            old(ids).next() == u64::MAX ==> r == Err::<Self, DelegationIdAllocationError>(
                DelegationIdAllocationError,
            ) && final(ids).next() == old(ids).next(),
            r is Ok ==> r->Ok_0.value() > 0,
        no_unwind
    {
        ids.take()
    }

    pub fn raw(self) -> (r: u64)
        ensures
            r == self.value(),
            r != 0,
    {
        proof {
            use_type_invariant(&self);
        }
        self.0
    }

    /// Reconstruct an identity from persisted state while reserving it from
    /// allocation. Reserving `u64::MAX` exhausts the allocator.
    pub fn from_raw(raw: u64, ids: &mut DelegationIdAllocator) -> (r: Result<Self, ParseDelegationIdError>)
        ensures
            raw == 0 ==> r == Err::<Self, ParseDelegationIdError>(ParseDelegationIdError)
                && final(ids).next() == old(ids).next(),
            raw != 0 ==> r is Ok && r->Ok_0.value() == raw && final(ids).next()
                == reserved_after(old(ids).next(), raw),
    {
        if raw == 0 {
            return Err(ParseDelegationIdError);
        }
        ids.reserve_after(raw);
        Ok(DelegationId(raw))
    }

    /// Parse an untrusted public identity (`d<n>`) without touching any allocator.
    pub fn parse(text: &str) -> (r: Result<Self, ParseDelegationIdError>)
        ensures
            match parse_delegation_spec(text@) {
                Some(n) => r is Ok && r->Ok_0.value() == n,
                None => r == Err::<Self, ParseDelegationIdError>(ParseDelegationIdError),
            },
    {
        proof {
            reveal_strlit("d");
            if text@.len() >= 1 && text@[0] == 'd' {
                assert(text@.subrange(0, 1) =~= "d"@);
            }
        }
        let rest = match strip_prefix(text, "d") {
            Some(rest) => rest,
            None => return Err(ParseDelegationIdError),
        };
        assert(text@.subrange(0, 1)[0] == text@[0]);
        assert(text@.len() >= 1 && text@[0] == 'd');
        assert(rest@ =~= text@.drop_first());
        match parse_u64(rest) {
            Some(n) => if n > 0 { Ok(DelegationId(n)) } else { Err(ParseDelegationIdError) },
            None => Err(ParseDelegationIdError),
        }
    }

    /// The public form, `d<n>`.
    pub fn to_string(&self) -> (r: String)
        ensures
            r@ == seq!['d'] + decimal(self.value() as nat),
    {
        let mut text = String::from_str("d");
        proof {
            reveal_strlit("d");
        }
        let digits = u64_to_decimal(self.0);
        text.append(digits.as_str());
        text
    }
}

impl core::str::FromStr for DelegationId {
    type Err = ParseDelegationIdError;

    /// Parse a public identity (`d<n>`, `n > 0`), as `parse` does.
    fn from_str(text: &str) -> (r: Result<Self, Self::Err>)
        ensures
            match parse_delegation_spec(text@) {
                Some(n) => r is Ok && r->Ok_0.value() == n,
                None => r == Err::<Self, ParseDelegationIdError>(ParseDelegationIdError),
            },
    {
        DelegationId::parse(text)
    }
}

pub broadcast proof fn lemma_delegation_id_value_injective(a: DelegationId, b: DelegationId)
    ensures
        #![trigger a.value(), b.value()]
        (a.value() == b.value()) == (a == b),
{
}

/// The allocator state after reserving `raw`: numbers up to `raw` are never
/// handed out again.
pub open spec fn reserved_after(next: u64, raw: u64) -> u64 {
    if raw == u64::MAX {
        u64::MAX
    } else if next < raw + 1 {
        (raw + 1) as u64
    } else {
        next
    }
}

/// Hands out delegation identities in increasing order, starting at 1.
pub struct DelegationIdAllocator {
    next: u64,
}

impl DelegationIdAllocator {
    #[verifier::type_invariant]
    closed spec fn positive(self) -> bool {
        self.next >= 1
    }

    /// The number the next allocation hands out.
    pub closed spec fn next(self) -> u64 {
        self.next
    }

    pub fn new() -> (r: Self)
        ensures
            r.next() == 1,
    {
        DelegationIdAllocator { next: 1 }
    }

    fn take(&mut self) -> (r: Result<DelegationId, DelegationIdAllocationError>)
        ensures
            old(self).next() < u64::MAX ==> r is Ok && r->Ok_0.value() == old(self).next()
                && final(self).next() == old(self).next() + 1,
            old(self).next() == u64::MAX ==> r == Err::<DelegationId, DelegationIdAllocationError>(
                DelegationIdAllocationError,
            ) && final(self).next() == old(self).next(),
            old(self).next() >= 1,
        no_unwind
    {
        proof {
            use_type_invariant(&*self);
        }
        let current = self.next;
        if current == u64::MAX {
            return Err(DelegationIdAllocationError);
        }
        self.next = current + 1;
        Ok(DelegationId(current))
    }

    /// An allocator that hands out the same numbers as this one.
    pub(crate) fn duplicate(&self) -> (r: Self)
        ensures
            r.next() == self.next(),
    {
        proof {
            use_type_invariant(self);
        }
        DelegationIdAllocator { next: self.next }
    }

    /// Make sure `raw` and every smaller number is never handed out.
    pub fn reserve_after(&mut self, raw: u64)
        ensures
            final(self).next() == reserved_after(old(self).next(), raw),
    {
        if raw == u64::MAX {
            self.next = u64::MAX;
        } else if self.next < raw + 1 {
            self.next = raw + 1;
        }
    }
}

/// A delegation identity read back from its public form is the same identity.
pub proof fn lemma_delegation_text_round_trip(n: u64)
    requires
        n > 0,
    ensures
        parse_delegation_spec(seq!['d'] + decimal(n as nat)) == Some(n),
{
    crate::text::lemma_decimal_round_trip(n);
    assert((seq!['d'] + decimal(n as nat)).drop_first() =~= decimal(n as nat));
}

/// A collection identity read back from its serialized form is the same identity.
pub proof fn lemma_collection_text_round_trip(n: u64)
    requires
        valid_collection_number(n),
    ensures
        parse_collection_spec(collection_prefix() + decimal(n as nat)) == Some(n),
{
    crate::text::lemma_decimal_round_trip(n);
    let s = collection_prefix() + decimal(n as nat);
    let p = collection_prefix();
    assert(s.subrange(0, p.len() as int) =~= p);
    assert(s.subrange(p.len() as int, s.len() as int) =~= decimal(n as nat));
}

/// A restored identity reserves its number: every later allocation is larger
/// (or none is left when the restored number is the largest).
pub proof fn lemma_restored_delegation_ids_are_reserved(next: u64, raw: u64)
    ensures
        raw < reserved_after(next, raw) || reserved_after(next, raw) == u64::MAX,
        next <= reserved_after(next, raw),
{
}

} // verus!
