//! A borrow-tracked cell: shared/exclusive access is checked at run time
//! through an integer flag rather than by the host language's aliasing rules.

use vstd::prelude::*;

verus! {

/// Error returned when a cell is already mutably borrowed.
#[derive(Clone, Copy, Debug, PartialEq, Eq, Structural)]
pub struct MutablyBorrowed;

/// Error returned when a cell has existing immutable borrows.
#[derive(Clone, Copy, Debug, PartialEq, Eq, Structural)]
pub struct ImmutablyBorrowed;

/// Guard token witnessing one live shared borrow of an `AtomicRefCell`.
/// It is handed back through `release_ref` when the access window ends.
pub struct AtomicRef;

/// Guard token witnessing the live exclusive borrow of an `AtomicRefCell`.
/// It is handed back through `release_mut` when the access window ends.
pub struct AtomicRefMut;

/// Flag value at and above which the cell counts as mutably borrowed.
/// The flag's remaining bits count live shared borrows, so the borrow
/// state is: `0` free, `1..` that many shared borrows, the high bit one
/// exclusive borrow.
pub const MUTABLE_MASK: u32 = 0x8000_0000;

/// A cell tracking its borrows in an integer flag.
///
/// Shared acquisition increments the flag, then inspects the exclusive bit:
/// if it is set, the acquisition fails and the increment remains as a
/// harmless phantom that the exclusive release clears. Exclusive acquisition
/// succeeds only from the free state and sets the exclusive bit. A value is
/// read only while some borrow is live and written only under the exclusive
/// borrow.
pub struct AtomicRefCell<T> {
    value: T,
    /// High bit set if currently mutably borrowed; the other bits count
    /// the current immutable borrows.
    flag: u32,
}

impl<T> AtomicRefCell<T> {
    /// The borrow flag.
    pub closed spec fn flag(self) -> u32 {
        self.flag
    }

    /// The stored value.
    pub closed spec fn value(self) -> T {
        self.value
    }

    /// Whether the exclusive borrow is live.
    pub open spec fn exclusively_borrowed(self) -> bool {
        self.flag() >= MUTABLE_MASK
    }

    /// The number of live shared borrows; while the exclusive borrow is
    /// live this counts the phantom increments left by failed shared
    /// acquisitions instead.
    pub open spec fn shared_borrows(self) -> u32 {
        if self.exclusively_borrowed() {
            (self.flag() - MUTABLE_MASK) as u32
        } else {
            self.flag()
        }
    }

    /// Whether a shared acquisition would succeed.
    pub open spec fn can_borrow(self) -> bool {
        !self.exclusively_borrowed()
    }

    /// Whether an exclusive acquisition would succeed: no borrows of
    /// either kind may be outstanding.
    pub open spec fn can_borrow_mut(self) -> bool {
        self.flag() == 0
    }

    /// Creates a new `AtomicRefCell` initialized with the given value.
    pub fn new(value: T) -> (r: Self)
        ensures
            r.value() == value,
            r.flag() == 0,
    {
        AtomicRefCell { value, flag: 0 }
    }

    /// Attempts to immutably borrow the value.
    ///
    /// Fails if the value is already borrowed mutably; the increment then
    /// stays behind as a phantom that `release_mut` clears.
    pub fn try_borrow(&mut self) -> (r: Result<AtomicRef, MutablyBorrowed>)
        requires
            old(self).flag() < u32::MAX,
            !old(self).exclusively_borrowed() ==> old(self).flag() + 1 < MUTABLE_MASK,
        ensures
            final(self).value() == old(self).value(),
            final(self).flag() == old(self).flag() + 1,
            r is Ok <==> old(self).can_borrow(),
    {
        let flag = self.flag;
        self.flag = flag + 1;
        if flag >= MUTABLE_MASK {
            Err(MutablyBorrowed)
        } else {
            Ok(AtomicRef)
        }
    }

    /// Immutably borrows the value.
    ///
    /// The borrow must be possible: the aborting convenience form of
    /// `try_borrow` is left to unverified callers.
    pub fn borrow(&mut self) -> (r: AtomicRef)
        requires
            old(self).can_borrow(),
            old(self).flag() + 1 < MUTABLE_MASK,
        ensures
            final(self).value() == old(self).value(),
            final(self).flag() == old(self).flag() + 1,
    {
        let flag = self.flag;
        self.flag = flag + 1;
        AtomicRef
    }

    /// Attempts to mutably borrow the value.
    ///
    /// Fails if any borrow — shared or exclusive — is outstanding.
    pub fn try_borrow_mut(&mut self) -> (r: Result<AtomicRefMut, ImmutablyBorrowed>)
        ensures
            final(self).value() == old(self).value(),
            r is Ok <==> old(self).can_borrow_mut(),
            old(self).can_borrow_mut() ==> final(self).flag() == MUTABLE_MASK,
            !old(self).can_borrow_mut() ==> final(self).flag() == old(self).flag(),
    {
        if self.flag == 0 {
            self.flag = MUTABLE_MASK;
            Ok(AtomicRefMut)
        } else {
            Err(ImmutablyBorrowed)
        }
    }

    /// Mutably borrows the value.
    ///
    /// The borrow must be possible: the aborting convenience form of
    /// `try_borrow_mut` is left to unverified callers.
    pub fn borrow_mut(&mut self) -> (r: AtomicRefMut)
        requires
            old(self).can_borrow_mut(),
        ensures
            final(self).value() == old(self).value(),
            final(self).flag() == MUTABLE_MASK,
    {
        self.flag = MUTABLE_MASK;
        AtomicRefMut
    }

    /// Releases one shared borrow by decrementing the flag.
    pub fn release_ref(&mut self, guard: AtomicRef)
        requires
            !old(self).exclusively_borrowed(),
            old(self).flag() > 0,
        ensures
            final(self).value() == old(self).value(),
            final(self).flag() == old(self).flag() - 1,
    {
        let AtomicRef = guard;
        self.flag = self.flag - 1;
    }

    /// Releases the exclusive borrow. Since it required exclusivity, no
    /// borrows remain afterwards; phantom increments left by failed shared
    /// acquisitions are cleared along with it.
    pub fn release_mut(&mut self, guard: AtomicRefMut)
        requires
            old(self).exclusively_borrowed(),
        ensures
            final(self).value() == old(self).value(),
            final(self).flag() == 0,
    {
        let AtomicRefMut = guard;
        self.flag = 0;
    }

    /// Reads the value under a live borrow.
    pub fn read(&self) -> (r: &T)
        requires
            self.flag() != 0,
        ensures
            *r == self.value(),
    {
        &self.value
    }

    /// Replaces the value under the live exclusive borrow.
    pub fn set(&mut self, value: T)
        requires
            old(self).exclusively_borrowed(),
        ensures
            final(self).value() == value,
            final(self).flag() == old(self).flag(),
    {
        self.value = value;
    }
}

/// The flag after `k` shared releases, each of which decrements it by one.
pub open spec fn flag_after_releases(flag: u32, k: nat) -> u32
    decreases k,
{
    if k == 0 {
        flag
    } else {
        flag_after_releases((flag - 1) as u32, (k - 1) as nat)
    }
}

/// The flag after `k` further successful shared acquisitions, each of
/// which increments it by one.
pub open spec fn flag_after_borrows(flag: u32, k: nat) -> int {
    flag + k
}

/// Borrow exclusivity: while any shared borrow of a cell is outstanding an
/// exclusive borrow cannot succeed, and while the exclusive borrow is
/// outstanding a shared borrow cannot succeed.
pub proof fn lemma_borrow_exclusivity<T>(cell: AtomicRefCell<T>)
    ensures
        !cell.exclusively_borrowed() && cell.shared_borrows() > 0 ==> !cell.can_borrow_mut(),
        cell.exclusively_borrowed() ==> !cell.can_borrow(),
{
}

/// Any number of shared borrows of one cell may coexist: from a free cell,
/// `n` shared acquisitions in a row all succeed, leaving the flag at `n`,
/// a state where a further shared borrow is still possible but the
/// exclusive borrow is refused until every one of them is released.
pub proof fn lemma_shared_borrows_coexist(n: u32)
    requires
        n < MUTABLE_MASK,
    ensures
        flag_after_borrows(0, n as nat) == n,
        n < MUTABLE_MASK ==> flag_after_borrows(0, n as nat) < MUTABLE_MASK,
        n > 0 ==> flag_after_borrows(0, n as nat) != 0,
{
}

/// Release restores availability: from a state with only shared borrows
/// outstanding, releasing every one of them leaves the flag at zero, where
/// an exclusive borrow succeeds.
pub proof fn lemma_release_restores_availability(flag: u32)
    requires
        flag < MUTABLE_MASK,
    ensures
        flag_after_releases(flag, flag as nat) == 0,
    decreases flag,
{
    if flag > 0 {
        lemma_release_restores_availability((flag - 1) as u32);
    }
}

} // verus!
