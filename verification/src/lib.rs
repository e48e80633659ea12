//! A minimally compact, reversible alias engine.
//!
//! A [`StringCompressor`] assigns to every string it is shown a short,
//! unique alias: the first new string receives id 0, the next id 1, and so
//! on.  An id is encoded as its minimal little-endian byte form (trailing
//! zero bytes trimmed, but at least one byte kept) and then rendered as
//! URL-safe, unpadded base64 text.  The engine keeps the assignment
//! reversible: `expand` maps an alias back to the original string.

use vstd::prelude::*;

verus! {

/// Length of the unpadded base64 rendering of `n` bytes.
pub open spec fn b64_len(n: nat) -> nat {
    ((4 * n + 2) / 3) as nat
}

/// The minimal little-endian byte form of `n`: least significant byte
/// first, trailing zero bytes trimmed, but never fewer than one byte.
pub open spec fn le_bytes_trimmed(n: nat) -> Seq<u8>
    decreases n,
{
    if n < 256 {
        seq![n as u8]
    } else {
        seq![(n % 256) as u8] + le_bytes_trimmed(n / 256)
    }
}

/// The URL-safe, unpadded base64 text for a byte sequence, as produced by
/// the base64 crate.
pub uninterp spec fn b64_of(bytes: Seq<u8>) -> Seq<char>;

/// The alias assigned to a numeric id.
pub open spec fn alias_of(id: nat) -> Seq<char> {
    b64_of(le_bytes_trimmed(id))
}

/// Length of the alias assigned to a numeric id.
pub open spec fn spec_alias_len(id: nat) -> nat {
    b64_len(le_bytes_trimmed(id).len())
}

/// Relies on `base64::encode_config` with `base64::URL_SAFE_NO_PAD`: the
/// output is a pure function of the input bytes, its length is the unpadded
/// base64 length `ceil(4 * n / 3)`, and the encoding is injective (every
/// output decodes back to exactly the bytes that produced it).
#[verifier::external_body]
fn b64_encode(bytes: &Vec<u8>) -> (text: String)
    requires
        4 * bytes@.len() <= usize::MAX,
    ensures
        text@ == b64_of(bytes@),
        text@.len() == b64_len(bytes@.len()),
        forall|other: Seq<u8>| other != bytes@ ==> b64_of(other) != text@,
{
    base64::encode_config(bytes, base64::URL_SAFE_NO_PAD)
}

/// Encode an id as its minimal little-endian byte form: least significant
/// byte first, with trailing zero bytes trimmed away, but always at least
/// one byte, so that id 0 still has a non-empty form.
pub fn u64_min_le_bytes(id: u64) -> (bytes: Vec<u8>)
    ensures
        bytes@ == le_bytes_trimmed(id as nat),
        1 <= bytes@.len() <= 8,
{
    let mut bytes: Vec<u8> = Vec::new();
    bytes.push((id % 256) as u8);
    let mut rest: u64 = id / 256;
    proof {
        assert(le_bytes_trimmed(id as nat) =~= bytes@ + rest_bytes(rest as nat));
    }
    while rest > 0
        invariant
            le_bytes_trimmed(id as nat) =~= bytes@ + rest_bytes(rest as nat),
            1 <= bytes@.len(),
        decreases rest,
    {
        bytes.push((rest % 256) as u8);
        let next: u64 = rest / 256;
        proof {
            assert(rest_bytes(rest as nat) =~= seq![(rest % 256) as u8] + rest_bytes(next as nat));
            assert(le_bytes_trimmed(id as nat) =~= bytes@ + rest_bytes(next as nat));
        }
        rest = next;
    }
    proof {
        assert(bytes@ =~= le_bytes_trimmed(id as nat));
        lemma_le_bytes_trimmed_len(id as nat);
    }
    bytes
}

/// The bytes still owed by the encoding loop once `rest` is what remains of
/// the id after the bytes emitted so far.
spec fn rest_bytes(rest: nat) -> Seq<u8> {
    if rest > 0 {
        le_bytes_trimmed(rest)
    } else {
        Seq::empty()
    }
}

/// The minimal byte form is never empty, never longer than eight bytes for
/// a 64-bit id, and its length steps up exactly at each 256-power boundary.
proof fn lemma_le_bytes_trimmed_len(n: nat)
    ensures
        1 <= le_bytes_trimmed(n).len(),
        n < 256 ==> le_bytes_trimmed(n).len() == 1,
        256 <= n ==> le_bytes_trimmed(n).len() >= 2,
        256 <= n < 65536 ==> le_bytes_trimmed(n).len() == 2,
        n <= u64::MAX ==> le_bytes_trimmed(n).len() <= 8,
{
    if n >= 256 {
        assert(le_bytes_trimmed(n).len() == 1 + le_bytes_trimmed(n / 256).len());
        assert(1 <= le_bytes_trimmed(n / 256).len());
        if n < 65536 {
            assert(n / 256 < 256);
            assert(le_bytes_trimmed(n / 256).len() == 1);
        }
    }
    if n <= u64::MAX {
        assert(pow256(0) == 1);
        assert(pow256(1) == 256);
        assert(pow256(2) == 65536);
        assert(pow256(3) == 0x100_0000);
        assert(pow256(4) == 0x1_0000_0000);
        assert(pow256(5) == 0x100_0000_0000);
        assert(pow256(6) == 0x1_0000_0000_0000);
        assert(pow256(7) == 0x100_0000_0000_0000);
        assert(pow256(8) == 0x1_0000_0000_0000_0000);
        lemma_le_len_bound(n, 8);
    }
}

/// The minimal byte form of an id below `256^k` has at most `k` bytes.
proof fn lemma_le_len_bound(n: nat, k: nat)
    requires
        k >= 1,
        n < pow256(k),
    ensures
        le_bytes_trimmed(n).len() <= k,
    decreases k,
{
    if n >= 256 {
        assert(n / 256 < pow256((k - 1) as nat)) by {
            assert(pow256(k) == 256 * pow256((k - 1) as nat));
        }
        lemma_le_len_bound(n / 256, (k - 1) as nat);
    }
}

/// `256^k`.
spec fn pow256(k: nat) -> nat
    decreases k,
{
    if k == 0 {
        1
    } else {
        256 * pow256((k - 1) as nat)
    }
}

/// The entries of an engine, seen abstractly: the originals it has been
/// shown, in order of first sight, each with the alias assigned to it.
/// The original of entry `i` is `entries[i].0`, its alias `entries[i].1`.
///
/// No two entries share an original.
pub open spec fn originals_distinct(entries: Seq<(Seq<char>, Seq<char>)>) -> bool {
    forall|i: int, j: int| 0 <= i < j < entries.len() ==> entries[i].0 != entries[j].0
}

/// No two entries share an alias.
pub open spec fn aliases_distinct(entries: Seq<(Seq<char>, Seq<char>)>) -> bool {
    forall|i: int, j: int| 0 <= i < j < entries.len() ==> entries[i].1 != entries[j].1
}

/// Entry `i` carries the alias of id `i`.
pub open spec fn aliases_assigned(entries: Seq<(Seq<char>, Seq<char>)>) -> bool {
    forall|i: int| 0 <= i < entries.len() ==> #[trigger] entries[i].1 == alias_of(i as nat)
}

/// Entry `i`'s alias has the length the encoding scheme gives id `i`.
pub open spec fn alias_lens_assigned(entries: Seq<(Seq<char>, Seq<char>)>) -> bool {
    forall|i: int|
        0 <= i < entries.len() ==> (#[trigger] entries[i].1).len() == spec_alias_len(i as nat)
}

/// A valid engine state: the forward direction (original to alias) and the
/// reverse direction (alias to original) are both functional, so together
/// the entries form a bijection, and every alias is the encoding of its
/// entry's id.
pub open spec fn entries_wf(entries: Seq<(Seq<char>, Seq<char>)>) -> bool {
    &&& originals_distinct(entries)
    &&& aliases_distinct(entries)
    &&& aliases_assigned(entries)
    &&& alias_lens_assigned(entries)
}

/// Whether some entry records `original`.
pub open spec fn spec_has_original(
    entries: Seq<(Seq<char>, Seq<char>)>,
    original: Seq<char>,
) -> bool {
    exists|i: int| 0 <= i < entries.len() && (#[trigger] entries[i]).0 == original
}

/// The index of the entry that records `original`.
pub open spec fn spec_index_of(entries: Seq<(Seq<char>, Seq<char>)>, original: Seq<char>) -> int {
    choose|i: int| 0 <= i < entries.len() && (#[trigger] entries[i]).0 == original
}

/// The id that a call of `compress` with `original` uses: the id already
/// recorded for it, or the next free one.
pub open spec fn spec_compress_id(
    entries: Seq<(Seq<char>, Seq<char>)>,
    original: Seq<char>,
) -> int {
    if spec_has_original(entries, original) {
        spec_index_of(entries, original)
    } else {
        entries.len() as int
    }
}

/// The alias that a call of `compress` with `original` returns.
pub open spec fn spec_compress_alias(
    entries: Seq<(Seq<char>, Seq<char>)>,
    original: Seq<char>,
) -> Seq<char> {
    if spec_has_original(entries, original) {
        entries[spec_index_of(entries, original)].1
    } else {
        alias_of(entries.len() as nat)
    }
}

/// The entries after a successful call of `compress` with `original`.
pub open spec fn spec_compress_next(
    entries: Seq<(Seq<char>, Seq<char>)>,
    original: Seq<char>,
) -> Seq<(Seq<char>, Seq<char>)> {
    if spec_has_original(entries, original) {
        entries
    } else {
        entries.push((original, alias_of(entries.len() as nat)))
    }
}

/// The one failure `compress` can report: a new original arrived while the
/// id counter already stood at its maximum, so no fresh id was left.
#[derive(Clone, Copy, Debug, PartialEq, Eq)]
pub enum CompressError {
    CounterExhausted,
}

/// An alias engine: assigns to each string it is shown a short, unique,
/// reversible alias.
///
/// Ids are handed out by a counter that starts at 0 and grows by exactly 1
/// for every original not seen before.  An id's alias is its minimal
/// little-endian byte form rendered as URL-safe, unpadded base64.  The
/// engine records every (original, alias) pair and keeps the two directions
/// in exact correspondence, so `expand` inverts `compress`.
pub struct StringCompressor {
    entries: Vec<(String, String)>,
    counter: u64,
}

impl View for StringCompressor {
    type V = Seq<(Seq<char>, Seq<char>)>;

    closed spec fn view(&self) -> Seq<(Seq<char>, Seq<char>)> {
        self.entries@.map_values(|pair: (String, String)| (pair.0@, pair.1@))
    }
}

impl StringCompressor {
    /// A valid engine: its entries are a bijection keyed by consecutive
    /// ids, and the counter stands at the next free id.
    pub closed spec fn wf(&self) -> bool {
        &&& self.counter as int == self@.len()
        &&& entries_wf(self@)
    }

    /// Create an empty engine: no entries, counter at 0.
    pub fn new() -> (engine: StringCompressor)
        ensures
            engine.wf(),
            entries_wf(engine@),
            engine@ == Seq::<(Seq<char>, Seq<char>)>::empty(),
    {
        let engine = StringCompressor { entries: Vec::new(), counter: 0 };
        proof {
            assert(engine@ =~= Seq::<(Seq<char>, Seq<char>)>::empty());
        }
        engine
    }

    /// Create a compressed alias for `expanded`.
    ///
    /// An original seen before yields its recorded alias again and leaves
    /// the engine untouched.  A new original is assigned the next id's
    /// alias, which differs from every alias handed out so far, and the
    /// pair is recorded in both directions.  Only a new original arriving
    /// when no fresh id is left is refused.
    pub fn compress(&mut self, expanded: String) -> (result: Result<String, CompressError>)
        requires
            old(self).wf(),
        ensures
            final(self).wf(),
            entries_wf(final(self)@),
            match result {
                Ok(alias) => {
                    &&& alias@ == spec_compress_alias(old(self)@, expanded@)
                    &&& alias@.len() == spec_alias_len(spec_compress_id(old(self)@, expanded@) as nat)
                    &&& final(self)@ == spec_compress_next(old(self)@, expanded@)
                    &&& !spec_has_original(old(self)@, expanded@) ==> forall|k: int|
                        0 <= k < old(self)@.len() ==> alias@ != (#[trigger] old(self)@[k]).1
                },
                Err(e) => {
                    &&& e == CompressError::CounterExhausted
                    &&& !spec_has_original(old(self)@, expanded@)
                    &&& old(self)@.len() == u64::MAX
                    &&& *final(self) == *old(self)
                },
            },
            result is Ok <==> spec_has_original(old(self)@, expanded@) || old(self)@.len()
                < u64::MAX,
            spec_has_original(old(self)@, expanded@) ==> *final(self) == *old(self),
    {
        let count = self.entries.len();
        let mut idx: usize = 0;
        while idx < count
            invariant
                *self == *old(self),
                self.wf(),
                count == self.entries.len(),
                idx <= count,
                forall|k: int| 0 <= k < idx ==> (#[trigger] self@[k]).0 != expanded@,
            decreases count - idx,
        {
            if self.entries[idx].0 == expanded {
                proof {
                    assert(self@[idx as int].0 == expanded@);
                    assert(spec_has_original(self@, expanded@));
                    let w = spec_index_of(self@, expanded@);
                    assert(0 <= w < self@.len() && self@[w].0 == expanded@);
                    if w != idx as int {
                        assert(self@[w].0 != self@[idx as int].0);
                        assert(false);
                    }
                }
                let alias = self.entries[idx].1.clone();
                proof {
                    assert(alias@ == self@[idx as int].1);
                    assert(alias@ == spec_compress_alias(self@, expanded@));
                    assert(alias@.len() == spec_alias_len(idx as nat));
                    assert(spec_compress_next(self@, expanded@) == self@);
                }
                return Ok(alias);
            }
            idx += 1;
        }
        assert(!spec_has_original(self@, expanded@));
        if self.counter == u64::MAX {
            return Err(CompressError::CounterExhausted);
        }
        let ghost prior = self@;
        let bytes = u64_min_le_bytes(self.counter);
        let alias = b64_encode(&bytes);
        let result = alias.clone();
        proof {
            assert(alias@ == alias_of(prior.len() as nat));
            assert forall|k: int| 0 <= k < prior.len() implies alias@ != (#[trigger] prior[k]).1 by {
                lemma_le_bytes_trimmed_injective(k as nat, prior.len() as nat);
            }
        }
        self.entries.push((expanded, alias));
        self.counter = self.counter + 1;
        proof {
            assert(self@ =~= prior.push((expanded@, alias_of(prior.len() as nat))));
        }
        Ok(result)
    }

    /// Return the original that yielded `compressed`, or `None` for an
    /// alias this engine never handed out.  A pure read: the engine is
    /// untouched either way.
    pub fn expand(&self, compressed: String) -> (result: Option<String>)
        ensures
            match result {
                Some(original) => exists|i: int|
                    0 <= i < self@.len() && #[trigger] self@[i] == (original@, compressed@),
                None => forall|i: int| 0 <= i < self@.len() ==> (#[trigger] self@[i]).1
                    != compressed@,
            },
            result is Some <==> exists|i: int|
                0 <= i < self@.len() && (#[trigger] self@[i]).1 == compressed@,
    {
        let count = self.entries.len();
        let mut idx: usize = 0;
        while idx < count
            invariant
                count == self.entries.len(),
                idx <= count,
                forall|k: int| 0 <= k < idx ==> (#[trigger] self@[k]).1 != compressed@,
            decreases count - idx,
        {
            if self.entries[idx].1 == compressed {
                proof {
                    assert(self@[idx as int] == (self.entries@[idx as int].0@, compressed@));
                }
                return Some(self.entries[idx].0.clone());
            }
            idx += 1;
        }
        None
    }
}

/// Determinism: compressing the same original twice in a row yields the
/// same alias, and the second call leaves the entries exactly as the first
/// left them, whatever state the engine was in.
pub proof fn lemma_compress_deterministic(
    entries: Seq<(Seq<char>, Seq<char>)>,
    original: Seq<char>,
)
    ensures
        spec_compress_alias(spec_compress_next(entries, original), original)
            == spec_compress_alias(entries, original),
        spec_compress_next(spec_compress_next(entries, original), original)
            == spec_compress_next(entries, original),
{
    if !spec_has_original(entries, original) {
        let next = spec_compress_next(entries, original);
        assert(next[entries.len() as int].0 == original);
        assert(spec_has_original(next, original));
        let w = spec_index_of(next, original);
        assert(0 <= w < next.len() && next[w].0 == original);
        if w < entries.len() {
            assert(entries[w].0 == next[w].0);
            assert(false);
        }
        assert(next[w].1 == alias_of(entries.len() as nat));
    }
}

/// Injectivity: entries recorded for two distinct originals always carry
/// two distinct aliases, so `compress` never answers two different inputs
/// with the same alias within one engine's lifetime.
pub proof fn lemma_compress_injective(entries: Seq<(Seq<char>, Seq<char>)>, i: int, j: int)
    requires
        aliases_distinct(entries),
        0 <= i < entries.len(),
        0 <= j < entries.len(),
        entries[i].0 != entries[j].0,
    ensures
        entries[i].1 != entries[j].1,
{
}

/// Round trip: within a valid engine an alias names exactly one entry, so
/// `expand` on an alias that `compress` returned can only answer with the
/// very original that earned it.
pub proof fn lemma_round_trip(entries: Seq<(Seq<char>, Seq<char>)>, i: int, j: int)
    requires
        aliases_distinct(entries),
        0 <= i < entries.len(),
        0 <= j < entries.len(),
        entries[j].1 == entries[i].1,
    ensures
        j == i,
        entries[j].0 == entries[i].0,
{
}

/// Minimality on the first call: a fresh engine assigns id 0, whose minimal
/// byte form is the single zero byte, and no id's alias is ever shorter
/// than that first one.
pub proof fn lemma_first_alias_minimal(original: Seq<char>)
    ensures
        spec_compress_alias(Seq::empty(), original) == b64_of(seq![0u8]),
        spec_alias_len(0) == 2,
        forall|id: nat| #[trigger] spec_alias_len(id) >= 2,
{
    assert(le_bytes_trimmed(0) =~= seq![0u8]);
    assert(spec_compress_alias(Seq::empty(), original) == alias_of(0));
    assert forall|id: nat| #[trigger] spec_alias_len(id) >= 2 by {
        lemma_le_bytes_trimmed_len(id);
    }
}

/// Growth boundary: an id below 256 fits in one byte and an id from 256 up
/// to 65535 needs two, so every alias of the first group is strictly
/// shorter than every alias of the second.
pub proof fn lemma_growth_boundary(id1: nat, id2: nat)
    requires
        id1 < 256,
        256 <= id2 < 65536,
    ensures
        le_bytes_trimmed(id1).len() == 1,
        le_bytes_trimmed(id2).len() == 2,
        spec_alias_len(id1) == 2,
        spec_alias_len(id2) == 3,
        spec_alias_len(id1) < spec_alias_len(id2),
{
    lemma_le_bytes_trimmed_len(id1);
    lemma_le_bytes_trimmed_len(id2);
}

/// Distinct ids have distinct minimal byte forms.
proof fn lemma_le_bytes_trimmed_injective(a: nat, b: nat)
    requires
        a != b,
    ensures
        le_bytes_trimmed(a) != le_bytes_trimmed(b),
    decreases a + b,
{
    lemma_le_bytes_trimmed_len(a);
    lemma_le_bytes_trimmed_len(b);
    if a < 256 && b < 256 {
        assert(le_bytes_trimmed(a)[0] == a as u8);
        assert(le_bytes_trimmed(b)[0] == b as u8);
    } else if a < 256 || b < 256 {
        assert(le_bytes_trimmed(a).len() != le_bytes_trimmed(b).len());
    } else {
        if a % 256 != b % 256 {
            assert(le_bytes_trimmed(a)[0] != le_bytes_trimmed(b)[0]);
        } else {
            assert(a / 256 != b / 256) by {
                vstd::arithmetic::div_mod::lemma_fundamental_div_mod(a as int, 256);
                vstd::arithmetic::div_mod::lemma_fundamental_div_mod(b as int, 256);
            }
            lemma_le_bytes_trimmed_injective(a / 256, b / 256);
            let ta = le_bytes_trimmed(a / 256);
            let tb = le_bytes_trimmed(b / 256);
            if le_bytes_trimmed(a) == le_bytes_trimmed(b) {
                assert(ta =~= tb) by {
                    assert forall|i: int| 0 <= i < ta.len() implies ta[i] == tb[i] by {
                        assert(le_bytes_trimmed(a)[i + 1] == ta[i]);
                        assert(le_bytes_trimmed(b)[i + 1] == tb[i]);
                    }
                }
            }
        }
    }
}

} // verus!
