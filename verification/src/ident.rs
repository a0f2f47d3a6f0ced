//! Identifiers: a creation time and an ordinal, typed by what they identify.

use crate::digits::{
    digits, find_hyphen, hyphen_from, lemma_digits_plain, lemma_digits_read_back,
    lemma_hyphen_from, numeral, read_number, write_number,
};
use crate::table::Identifier;
use vstd::string::StrSliceExecFns;
use vstd::string::StringExecFns;
use std::time::{Duration, SystemTime, UNIX_EPOCH};
use vstd::prelude::*;

verus! {

/// `std::time::SystemTime`, a reading of the system clock. Nothing is known
/// of a value of it.
#[verifier::external_type_specification]
#[verifier::external_body]
pub struct ExSystemTime(SystemTime);

/// `SystemTime::now`: the current reading of the system clock. Nothing is
/// promised of it.
#[verifier::external_body]
fn clock_now() -> (now: SystemTime) {
    SystemTime::now()
}

/// `SystemTime::duration_since`, from the Unix epoch to the given reading:
/// the time elapsed, or nothing where the reading lies before the epoch.
/// Which of the two, and how long, is not promised.
#[verifier::external_body]
fn since_epoch(time: &SystemTime) -> (elapsed: Option<Duration>) {
    time.duration_since(UNIX_EPOCH).ok()
}

/// `Duration::as_nanos`: a duration as a whole number of nanoseconds. Nothing
/// is promised of the number.
#[verifier::external_body]
fn whole_nanos(elapsed: &Duration) -> (nanos: u128) {
    elapsed.as_nanos()
}

/// The nanoseconds from the Unix epoch to now; 0 where the clock stands
/// before the epoch.
pub fn epoch_nanos() -> (nanos: u128) {
    let now = clock_now();
    nanos_or_zero(match since_epoch(&now) {
        Some(elapsed) => Some(whole_nanos(&elapsed)),
        None => None,
    })
}

/// The milliseconds from the Unix epoch to now; 0 where the clock stands
/// before the epoch.
pub fn epoch_millis() -> (millis: u128)
    ensures
        exists|nanos: u128| millis == #[trigger] whole_millis(nanos),
{
    let nanos = epoch_nanos();
    let millis = millis_of(nanos);
    assert(millis == whole_millis(nanos));
    millis
}

/// What a reading of the clock counts as, in nanoseconds since the Unix
/// epoch: the nanoseconds that have elapsed since, and 0 for a clock that
/// stands before the epoch and so has no such reading.
pub fn nanos_or_zero(elapsed: Option<u128>) -> (nanos: u128)
    ensures
        nanos == match elapsed {
            Some(elapsed) => elapsed,
            None => 0,
        },
{
    match elapsed {
        Some(elapsed) => elapsed,
        None => 0,
    }
}

/// A number of nanoseconds in whole milliseconds: what is left of a
/// millisecond is dropped.
pub open spec fn whole_millis(nanos: u128) -> u128 {
    nanos / 1_000_000
}

/// A number of nanoseconds in whole milliseconds.
pub fn millis_of(nanos: u128) -> (millis: u128)
    ensures
        millis == whole_millis(nanos),
{
    nanos / 1_000_000
}

/// The identifier under all items of a ring, entities, specters and
/// operations alike: the time of its creation and an ordinal. Two identifiers
/// are the same where both parts are.
#[derive(Debug, Clone, Copy, PartialEq, Eq, Hash, Structural)]
pub struct RingId {
    /// The time of creation, in nanoseconds since the Unix epoch.
    pub epoch: u128,
    /// The ordinal, which no two live identifiers share.
    pub ord: usize,
}

impl RingId {
    /// An identifier with the given ordinal, stamped with the current time.
    pub fn now(ord: usize) -> (id: RingId)
        ensures
            id.ord == ord,
    {
        RingId { epoch: epoch_nanos(), ord }
    }
}

/// The stem of an identifier, by which its file is named: the time in
/// base sixteen, a hyphen, and the ordinal in base ten.
pub open spec fn stem_of(id: RingId) -> Seq<char> {
    digits(id.epoch as nat, 16) + seq!['-'] + digits(id.ord as nat, 10)
}

/// The identifier that a stem reads as: the text up to its first hyphen
/// reads as the time, in base sixteen, and the text from there up to the next
/// hyphen, or to the end, as the ordinal, in base ten. What comes after a
/// second hyphen is not read. A text without a hyphen, or with a part that
/// does not read as a number of its range, is no stem.
pub open spec fn parsed_stem(text: Seq<char>) -> Option<RingId> {
    let first = hyphen_from(text, 0);
    if first >= text.len() {
        None
    } else {
        let second = hyphen_from(text, first + 1);
        match (
            numeral(text.subrange(0, first), 16, u128::MAX as nat),
            numeral(text.subrange(first + 1, second), 10, usize::MAX as nat),
        ) {
            (Some(epoch), Some(ord)) => Some(RingId { epoch: epoch as u128, ord: ord as usize }),
            _ => None,
        }
    }
}

/// Round trip: the stem of an identifier reads back as that identifier.
pub proof fn lemma_stem_round_trip(id: RingId)
    ensures
        parsed_stem(stem_of(id)) == Some(id),
{
    let time = digits(id.epoch as nat, 16);
    let ordinal = digits(id.ord as nat, 10);
    let text = stem_of(id);
    lemma_digits_read_back(id.epoch as nat, 16);
    lemma_digits_read_back(id.ord as nat, 10);
    assert forall|k: int| 0 <= k < time.len() implies text[k] != '-' by {
        lemma_digits_plain(id.epoch as nat, 16, k);
    }
    assert forall|k: int| time.len() + 1 <= k < text.len() implies text[k] != '-' by {
        lemma_digits_plain(id.ord as nat, 10, k - time.len() - 1);
        assert(text[k] == ordinal[k - time.len() - 1]);
    }
    assert(text[time.len() as int] == '-');
    lemma_hyphen_from(text, 0, time.len() as int);
    lemma_hyphen_from(text, time.len() as int + 1, text.len() as int);
    assert(text.subrange(0, time.len() as int) =~= time);
    assert(text.subrange(time.len() as int + 1, text.len() as int) =~= ordinal);
    lemma_digits_plain(id.epoch as nat, 16, 0);
    lemma_digits_plain(id.ord as nat, 10, 0);
}

impl RingId {
    /// The stem of the identifier.
    pub fn stem(&self) -> (stem: String)
        ensures
            stem@ == stem_of(*self),
    {
        let mut stem = String::new();
        write_number(&mut stem, self.epoch, 16);
        stem.append("-");
        proof {
            reveal_strlit("-");
            assert("-"@ =~= seq!['-']);
        }
        write_number(&mut stem, self.ord as u128, 10);
        stem
    }

    /// The identifier that a stem reads as, if it is one.
    pub fn parse(stem: &str) -> (id: Option<RingId>)
        ensures
            id == parsed_stem(stem@),
    {
        let len = stem.unicode_len();
        let first = find_hyphen(stem, 0);
        if first >= len {
            return None;
        }
        let second = find_hyphen(stem, first + 1);
        let epoch = read_number(stem, 0, first, 16, u128::MAX);
        let ord = read_number(stem, first + 1, second, 10, usize::MAX as u128);
        match (epoch, ord) {
            (Some(epoch), Some(ord)) => Some(RingId { epoch, ord: ord as usize }),
            _ => None,
        }
    }
}

impl MioId {
    /// The stem of the identifier.
    pub fn stem(&self) -> (stem: String)
        ensures
            stem@ == stem_of(self.0),
    {
        self.0.stem()
    }
}

impl OpId {
    /// The stem of the identifier.
    pub fn stem(&self) -> (stem: String)
        ensures
            stem@ == stem_of(self.0),
    {
        self.0.stem()
    }
}

impl Identifier for RingId {
    fn same(&self, other: &Self) -> (same: bool) {
        self.epoch == other.epoch && self.ord == other.ord
    }
}

/// The identifier of an entity or a specter.
#[derive(Debug, Clone, Copy, PartialEq, Eq, Hash, Structural)]
pub struct MioId(pub RingId);

/// The identifier of an operation.
#[derive(Debug, Clone, Copy, PartialEq, Eq, Hash, Structural)]
pub struct OpId(pub RingId);

impl Identifier for MioId {
    fn same(&self, other: &Self) -> (same: bool) {
        self.0.same(&other.0)
    }
}

impl Identifier for OpId {
    fn same(&self, other: &Self) -> (same: bool) {
        self.0.same(&other.0)
    }
}

impl From<RingId> for MioId {
    fn from(id: RingId) -> (mio_id: MioId) {
        MioId(id)
    }
}

impl vstd::std_specs::convert::FromSpecImpl<RingId> for MioId {
    open spec fn obeys_from_spec() -> bool {
        true
    }

    open spec fn from_spec(id: RingId) -> MioId {
        MioId(id)
    }
}

impl From<MioId> for RingId {
    fn from(id: MioId) -> (ring_id: RingId) {
        id.0
    }
}

impl vstd::std_specs::convert::FromSpecImpl<MioId> for RingId {
    open spec fn obeys_from_spec() -> bool {
        true
    }

    open spec fn from_spec(id: MioId) -> RingId {
        id.0
    }
}

impl From<RingId> for OpId {
    fn from(id: RingId) -> (op_id: OpId) {
        OpId(id)
    }
}

impl vstd::std_specs::convert::FromSpecImpl<RingId> for OpId {
    open spec fn obeys_from_spec() -> bool {
        true
    }

    open spec fn from_spec(id: RingId) -> OpId {
        OpId(id)
    }
}

impl From<OpId> for RingId {
    fn from(id: OpId) -> (ring_id: RingId) {
        id.0
    }
}

impl vstd::std_specs::convert::FromSpecImpl<OpId> for RingId {
    open spec fn obeys_from_spec() -> bool {
        true
    }

    open spec fn from_spec(id: OpId) -> RingId {
        id.0
    }
}

} // verus!
