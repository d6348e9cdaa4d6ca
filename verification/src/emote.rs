//! Data model: inline emote references and per-emote counter rows.

use vstd::prelude::*;

verus! {

/// One inline emote reference as it occurs in message text.
///
/// `name` holds the ASCII word characters between the two colons.
pub struct EmoteRef {
    pub id: u64,
    pub name: Vec<u8>,
    pub animated: bool,
}

/// Mathematical value of an [`EmoteRef`].
pub ghost struct RefView {
    pub id: u64,
    pub name: Seq<u8>,
    pub animated: bool,
}

impl View for EmoteRef {
    type V = RefView;

    open spec fn view(&self) -> RefView {
        RefView { id: self.id, name: self.name@, animated: self.animated }
    }
}

/// One persisted counter row, keyed by emote id.
pub struct EmoteStats {
    pub id: u64,
    pub name: Vec<u8>,
    pub uses: u64,
    pub uniq: u64,
    pub reacts: u64,
    pub animated: bool,
}

/// Mathematical value of an [`EmoteStats`] row.
pub ghost struct StatsView {
    pub id: u64,
    pub name: Seq<u8>,
    pub uses: u64,
    pub uniq: u64,
    pub reacts: u64,
    pub animated: bool,
}

impl View for EmoteStats {
    type V = StatsView;

    open spec fn view(&self) -> StatsView {
        StatsView {
            id: self.id,
            name: self.name@,
            uses: self.uses,
            uniq: self.uniq,
            reacts: self.reacts,
            animated: self.animated,
        }
    }
}

impl StatsView {
    /// Counter sanity: every message counted in `uniq` contributed at
    /// least one occurrence to `uses`, so `uses` dominates `uniq`.
    pub open spec fn wf(self) -> bool {
        self.uniq <= self.uses
    }
}

/// Addition on counters, capped at the largest representable value.
pub open spec fn sat_add(a: u64, b: u64) -> u64 {
    if a + b > u64::MAX {
        u64::MAX
    } else {
        (a + b) as u64
    }
}

/// Executable counterpart of [`sat_add`].
pub fn sat_add_u64(a: u64, b: u64) -> (r: u64)
    ensures
        r == sat_add(a, b),
{
    if a <= u64::MAX - b {
        a + b
    } else {
        u64::MAX
    }
}

/// Byte-for-byte copy of a byte vector; the copy's contents equal the
/// original's.
pub fn copy_bytes(src: &Vec<u8>) -> (r: Vec<u8>)
    ensures
        r@ == src@,
{
    let mut out: Vec<u8> = Vec::new();
    let mut i: usize = 0;
    while i < src.len()
        invariant
            i <= src.len(),
            out@ == src@.subrange(0, i as int),
        decreases src.len() - i,
    {
        out.push(src[i]);
        i = i + 1;
        proof {
            assert(out@ =~= src@.subrange(0, i as int));
        }
    }
    proof {
        assert(out@ =~= src@);
    }
    out
}

impl EmoteStats {
    /// A copy of this row with equal field values.
    pub fn duplicate(&self) -> (r: EmoteStats)
        ensures
            r@ == self@,
    {
        EmoteStats {
            id: self.id,
            name: copy_bytes(&self.name),
            uses: self.uses,
            uniq: self.uniq,
            reacts: self.reacts,
            animated: self.animated,
        }
    }
}

impl EmoteRef {
    /// A copy of this reference with equal field values.
    pub fn duplicate(&self) -> (r: EmoteRef)
        ensures
            r@ == self@,
    {
        EmoteRef { id: self.id, name: copy_bytes(&self.name), animated: self.animated }
    }
}

} // verus!
