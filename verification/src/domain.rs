//! Domain records that carry no measurement: hitch kinds, project folders,
//! and the wall clock and identifier sources they use.
use vstd::prelude::*;
use vstd::string::*;

verus! {

/// Hitch configuration for a round sling.
#[derive(Debug, Clone, Copy, PartialEq, Eq, Structural)]
pub enum Hitch {
    Vertical,
    Choker,
    Basket,
}

impl Default for Hitch {
    fn default() -> (h: Self)
        ensures
            h == Hitch::Vertical,
    {
        Hitch::Vertical
    }
}

/// Display name of a hitch.
pub open spec fn hitch_label(h: Hitch) -> Seq<char> {
    match h {
        Hitch::Vertical => "Vertical"@,
        Hitch::Choker => "Choker"@,
        Hitch::Basket => "Basket"@,
    }
}

impl Hitch {
    pub fn label(self) -> (s: &'static str)
        ensures
            s@ == hitch_label(self),
    {
        match self {
            Hitch::Vertical => "Vertical",
            Hitch::Choker => "Choker",
            Hitch::Basket => "Basket",
        }
    }

    /// Every hitch, in menu order.
    pub fn all() -> (a: [Hitch; 3])
        ensures
            a@ == seq![Hitch::Vertical, Hitch::Choker, Hitch::Basket],
    {
        let a = [Hitch::Vertical, Hitch::Choker, Hitch::Basket];
        assert(a@ =~= seq![Hitch::Vertical, Hitch::Choker, Hitch::Basket]);
        a
    }
}

/// Bits that `uuid::Uuid::new_v4` always fixes: version nibble and variant.
pub open spec fn v4_mask() -> u128 {
    0x0000_0000_0000_f000_c000_0000_0000_0000u128
}

/// Value of the fixed bits of a version-4 identifier.
pub open spec fn v4_bits() -> u128 {
    0x0000_0000_0000_4000_8000_0000_0000_0000u128
}

/// A fresh random identifier (`uuid::Uuid::new_v4`) as its 128-bit value.
/// The value is random; the version and variant bits are always set.
#[verifier::external_body]
pub(crate) fn random_uuid() -> (v: u128)
    ensures
        v & v4_mask() == v4_bits(),
{
    uuid::Uuid::new_v4().as_u128()
}

/// A version-4 identifier is never the nil identifier.
pub proof fn lemma_v4_not_nil(v: u128)
    requires
        v & v4_mask() == v4_bits(),
    ensures
        v != 0,
{
    assert(v & 0x0000_0000_0000_f000_c000_0000_0000_0000u128
        == 0x0000_0000_0000_4000_8000_0000_0000_0000u128 ==> v != 0) by (bit_vector);
}

#[verifier::external_type_specification]
#[verifier::external_body]
pub struct ExSystemTime(std::time::SystemTime);

/// The current wall-clock time (`std::time::SystemTime::now`).
#[verifier::external_body]
fn system_now() -> (t: std::time::SystemTime) {
    std::time::SystemTime::now()
}

/// Time elapsed since the Unix epoch (`SystemTime::duration_since`),
/// `None` when the clock reads earlier than the epoch.
#[verifier::external_body]
fn since_unix_epoch(t: &std::time::SystemTime) -> (d: Option<core::time::Duration>) {
    t.duration_since(std::time::UNIX_EPOCH).ok()
}

/// Whole milliseconds in a duration (`Duration::as_millis`).
#[verifier::external_body]
fn duration_millis(d: &core::time::Duration) -> (ms: u128) {
    d.as_millis()
}

/// Milliseconds since the Unix epoch as stored: the elapsed milliseconds
/// cut to 64 bits, or 0 when the clock read earlier than the epoch.
pub fn epoch_millis(elapsed_ms: Option<u128>) -> (ms: u64)
    ensures
        ms == match elapsed_ms {
            Some(m) => m as u64,
            None => 0u64,
        },
{
    match elapsed_ms {
        Some(m) => {
            #[verifier::truncate]
            (m as u64)
        },
        None => 0,
    }
}

/// Unix time in milliseconds; 0 when the clock reads before 1970.
pub fn now_millis() -> (ms: u64) {
    let now = system_now();
    let elapsed = match since_unix_epoch(&now) {
        Some(d) => Some(duration_millis(&d)),
        None => None,
    };
    epoch_millis(elapsed)
}

/// A job folder that holds one or more picks.
pub struct Project {
    pub id: u128,
    pub name: String,
    pub notes: String,
    /// Unix millis for sorting.
    pub updated_at: u64,
}

impl Project {
    /// A new project with a fresh identifier, empty notes and the current time.
    pub fn new(name: &str) -> (p: Self)
        ensures
            p.name@ == name@,
            p.notes@ == Seq::<char>::empty(),
            p.id != 0,
            p.id & v4_mask() == v4_bits(),
    {
        let id = random_uuid();
        proof {
            lemma_v4_not_nil(id);
        }
        Project { id, name: String::from_str(name), notes: String::new(), updated_at: now_millis() }
    }

    /// Marks the project as modified at `now` (ms since the Unix epoch);
    /// nothing but the timestamp changes.
    pub fn touch_at(&mut self, now: u64)
        ensures
            final(self).id == old(self).id,
            final(self).name == old(self).name,
            final(self).notes == old(self).notes,
            final(self).updated_at == now,
    {
        self.updated_at = now;
    }

    /// Marks the project as just modified, at the clock's current reading;
    /// nothing but the timestamp changes.
    pub fn touch(&mut self)
        ensures
            final(self).id == old(self).id,
            final(self).name == old(self).name,
            final(self).notes == old(self).notes,
    {
        let now = now_millis();
        self.touch_at(now);
    }
}

/// Where a layer's pick-point spacing came from.
#[derive(Debug, Clone, Copy, PartialEq, Eq, Structural)]
pub enum SpacingSource {
    /// Spreader span on this layer.
    Spreader,
    /// Entered pick-point spacing / width.
    Entered,
    /// Single sling: pick point sits directly under its apex.
    SingleSling,
}

} // verus!
