//! How fast an account may write.

use vstd::prelude::*;
use vstd::std_specs::hash::*;
use vstd::string::*;

use crate::error::AppError;
use crate::state::{AppState, CELL_BUCKET_MAX};

verus! {

/// What is left in the bucket of an account, and when it was last looked at.
/// An account that has not written yet has a full bucket.
pub open spec fn bucket(rates: Map<u32, (u64, u64)>, user_id: u32, now: u64) -> (u64, u64) {
    if rates.contains_key(user_id) {
        rates[user_id]
    } else {
        (CELL_BUCKET_MAX, now)
    }
}

/// The bucket cannot hold more than its size.
pub open spec fn capped(n: u64) -> u64 {
    if n <= CELL_BUCKET_MAX {
        n
    } else {
        CELL_BUCKET_MAX
    }
}

impl AppState {
    /// What is left in the bucket of an account, and when it was last looked
    /// at.
    pub fn cell_bucket(&self, user_id: u32, now: u64) -> (r: (u64, u64))
        ensures
            r == bucket(self.cell_rate@, user_id, now),
    {
        broadcast use group_hash_axioms;

        match self.cell_rate.get(&user_id) {
            Some(e) => *e,
            None => (CELL_BUCKET_MAX, now),
        }
    }

    /// Takes `cost` cells out of the bucket of an account, which has been
    /// filled to `refilled` since it was last looked at. The system account
    /// writes as much as it likes, and writing nothing costs nothing.
    pub fn check_cell_rate(
        &mut self,
        user_id: u32,
        cost: u64,
        refilled: u64,
        now: u64,
    ) -> (r: Result<(), AppError>)
        ensures
            r is Ok <==> user_id == 0 || cost == 0 || capped(refilled) >= cost,
            r matches Err(e) ==> e is BadInput && e.text() == "rate limited: slow down"@,
            user_id == 0 || cost == 0 ==> *final(self) == *old(self),
            user_id != 0 && cost != 0 ==> {
                &&& final(self).cell_rate@ == old(self).cell_rate@.insert(
                    user_id,
                    (
                        if r is Ok {
                            (capped(refilled) - cost) as u64
                        } else {
                            capped(refilled)
                        },
                        now,
                    ),
                )
                &&& *final(self) == (AppState { cell_rate: final(self).cell_rate, ..*old(self) })
            },
    {
        broadcast use group_hash_axioms;

        if user_id == 0 || cost == 0 {
            return Ok(());
        }
        let tokens: u64 = if refilled <= CELL_BUCKET_MAX {
            refilled
        } else {
            CELL_BUCKET_MAX
        };
        if tokens >= cost {
            self.cell_rate.insert(user_id, (tokens - cost, now));
            Ok(())
        } else {
            self.cell_rate.insert(user_id, (tokens, now));
            Err(AppError::BadInput("rate limited: slow down".to_string()))
        }
    }
}

} // verus!
