//! Modification times.

use vstd::prelude::*;

verus! {

pub const NANOS_PER_SECOND: u32 = 1_000_000_000;

/// The time of a file's last modification: seconds since the Unix epoch,
/// negative before it, and the nanoseconds of the second that has begun.
#[derive(Clone, Copy, Debug, PartialEq, Eq, Structural)]
pub struct MTime {
    seconds: i64,
    nanos: u32,
}

impl MTime {
    pub closed spec fn seconds(self) -> int {
        self.seconds as int
    }

    pub closed spec fn nanos(self) -> int {
        self.nanos as int
    }

    /// The time with these seconds and nanoseconds.
    pub closed spec fn at(seconds: int, nanos: int) -> MTime {
        MTime { seconds: seconds as i64, nanos: nanos as u32 }
    }

    /// The nanoseconds make up less than a second.
    pub closed spec fn normal(self) -> bool {
        self.nanos < NANOS_PER_SECOND
    }

    #[verifier::type_invariant]
    closed spec fn less_than_a_second(&self) -> bool {
        self.normal()
    }

    /// A time is determined by its seconds and nanoseconds.
    pub proof fn lemma_determined(self)
        ensures
            MTime::at(self.seconds(), self.nanos()) == self,
            i64::MIN <= self.seconds() <= i64::MAX,
            self.normal() ==> 0 <= self.nanos() < NANOS_PER_SECOND,
    {
    }

    /// The time at given seconds and nanoseconds has just these.
    pub proof fn lemma_at(seconds: int, nanos: int)
        requires
            i64::MIN <= seconds <= i64::MAX,
            0 <= nanos <= u32::MAX,
        ensures
            MTime::at(seconds, nanos).seconds() == seconds,
            MTime::at(seconds, nanos).nanos() == nanos,
            MTime::at(seconds, nanos).normal() <==> nanos < 1_000_000_000,
    {
    }

    /// The time `nanos` nanoseconds into the second that begins `seconds`
    /// seconds after the epoch, if there are as few nanoseconds in it.
    pub fn new(seconds: i64, nanos: u32) -> (time: Option<MTime>)
        ensures
            time is Some <==> nanos < NANOS_PER_SECOND,
            time matches Some(t) ==> t.normal() && t.seconds() == seconds && t.nanos() == nanos,
    {
        if nanos < NANOS_PER_SECOND {
            Some(MTime { seconds, nanos })
        } else {
            None
        }
    }

    /// The time `secs` seconds and `nanos` nanoseconds after the epoch. Whole
    /// seconds among the nanoseconds are carried over.
    pub fn from_seconds_and_nanos(secs: u64, nanos: u32) -> (time: MTime)
        requires
            secs + nanos / NANOS_PER_SECOND <= i64::MAX,
        ensures
            time.normal(),
            time.seconds() == secs + nanos / NANOS_PER_SECOND,
            time.nanos() == nanos % NANOS_PER_SECOND,
            time == MTime::at(
                secs + nanos / NANOS_PER_SECOND,
                (nanos % NANOS_PER_SECOND) as int,
            ),
    {
        let carried: u32 = nanos / NANOS_PER_SECOND;
        MTime { seconds: (secs + carried as u64) as i64, nanos: nanos % NANOS_PER_SECOND }
    }

    /// The seconds and nanoseconds since the epoch; nothing for a time before
    /// it, which cannot be persisted.
    pub fn to_seconds_and_nanos_for_persistence(self) -> (parts: Option<(u64, u32)>)
        ensures
            self.normal(),
            parts is Some <==> self.seconds() >= 0,
            parts matches Some((secs, nanos)) ==> {
                &&& secs == self.seconds()
                &&& secs <= i64::MAX
                &&& nanos == self.nanos()
                &&& nanos < NANOS_PER_SECOND
            },
    {
        proof {
            use_type_invariant(&self);
        }
        if self.seconds >= 0 {
            Some((self.seconds as u64, self.nanos))
        } else {
            None
        }
    }
}

} // verus!
