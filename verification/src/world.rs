//! The bookkeeping of a physics world: its bodies under their stable
//! identifiers, its tick count, and the canonical hash of its state.
//!
//! The physics engine itself is not part of this module. Each body carries
//! a payload chosen by the caller (the engine's handles for the body); the
//! engine reports what the hash reads of each body as a `BodySnapshot`.
use crate::canonical::{
    f32_encoding, hash_f32, hash_string, hash_vec3, stable_id_hash, stable_id_hash_of,
    string_encoding, vec3_encoding,
};
use crate::fnv::{fnv, hash_u64, le_bytes_u64, lemma_fnv_concat, FNV64_OFFSET};
use crate::order::{
    bytes_less, id_lt, lemma_canonical_order_is_sort, lemma_id_lt_total, lemma_id_lt_transitive,
    lemma_sort_by_id, lemma_sorted_unique, same_entries, sort_by_id, strictly_sorted, unique_ids,
};
use crate::snapshot::{body_encoding, collider_encoding, hash_body, hash_collider, BodySnapshot};
use vstd::prelude::*;
use vstd::string::{StringExecFns, StringSliceAdditionalSpecFns};
use vstd::utf8::{encode_utf8, encode_utf8_decode_utf8};

verus! {

/// The profile that this world implements.
pub const PROFILE: &'static str = "SceneSyncRapierParity-0.30";

/// The version of the physics engine whose state the hash describes.
pub const RAPIER_CORE_VERSION: &'static str = "0.30.0";

/// The version of the canonical hash layout.
pub const HASH_VERSION: &'static str = "SceneSyncCanonicalPhysicsHashV1";

/// The first PID controller id that the engine hands out.
pub const INITIAL_NEXT_PID_CONTROLLER_ID: u64 = 1;

/// Why a body was not added.
#[derive(Clone, Copy, Debug, PartialEq, Eq, Structural)]
pub enum AddBodyError {
    /// The stable identifier is empty.
    EmptyId,
    /// Another body already has the stable identifier.
    DuplicateId,
}

impl AddBodyError {
    /// The message that reports this error.
    pub fn message(&self) -> (res: &'static str)
        ensures
            *self == AddBodyError::EmptyId ==> res@ == "stable id must not be empty"@,
            *self == AddBodyError::DuplicateId ==> res@ == "stable id must be unique"@,
    {
        match self {
            AddBodyError::EmptyId => "stable id must not be empty",
            AddBodyError::DuplicateId => "stable id must be unique",
        }
    }
}

/// Why the world could not step to a tick.
#[derive(Clone, Copy, Debug, PartialEq, Eq, Structural)]
pub enum StepError {
    /// The target tick lies before the current tick.
    Backwards,
    /// The target tick is negative.
    NegativeTarget,
}

impl StepError {
    /// The message that reports this error.
    pub fn message(&self) -> (res: &'static str)
        ensures
            *self == StepError::Backwards ==> res@ == "cannot step backwards"@,
            *self == StepError::NegativeTarget ==> res@ == "target tick must not be negative"@,
    {
        match self {
            StepError::Backwards => "cannot step backwards",
            StepError::NegativeTarget => "target tick must not be negative",
        }
    }
}

/// A body of the world: its stable identifier and the caller's payload.
pub struct BodyRecord<P> {
    pub id: String,
    pub payload: P,
}

/// The abstract state of a world.
pub struct WorldView<P> {
    /// Gravity, as binary32 bit patterns.
    pub gravity: [u32; 3],
    /// The timestep, as a binary32 bit pattern.
    pub timestep: u32,
    pub tick: u64,
    /// The bodies, in the order in which they were added.
    pub records: Seq<BodyRecord<P>>,
}

impl<P> WorldView<P> {
    /// Every identifier is non-empty and no identifier occurs twice.
    pub open spec fn well_formed(self) -> bool {
        &&& forall|i: int| 0 <= i < self.records.len() ==> #[trigger] self.records[i].id@.len() > 0
        &&& forall|i: int, j: int|
            0 <= i < j < self.records.len() ==> #[trigger] self.records[i].id@
                != #[trigger] self.records[j].id@
    }

    /// Some body has the identifier `id`.
    pub open spec fn contains_id(self, id: Seq<char>) -> bool {
        exists|i: int| 0 <= i < self.records.len() && #[trigger] self.records[i].id@ == id
    }

    /// The position of the body with identifier `id`, or -1.
    pub open spec fn index_of(self, id: Seq<char>) -> int {
        if self.contains_id(id) {
            choose|i: int| 0 <= i < self.records.len() && #[trigger] self.records[i].id@ == id
        } else {
            -1
        }
    }

    /// The payload of the body with identifier `id`.
    pub open spec fn lookup(self, id: Seq<char>) -> Option<P> {
        if self.contains_id(id) {
            Some(self.records[self.index_of(id)].payload)
        } else {
            None
        }
    }

    /// Whether a body with identifier `id` may be added.
    pub open spec fn admits(self, id: Seq<char>) -> Result<(), AddBodyError> {
        if id.len() == 0 {
            Err(AddBodyError::EmptyId)
        } else if self.contains_id(id) {
            Err(AddBodyError::DuplicateId)
        } else {
            Ok(())
        }
    }

    /// The state after adding `record` as the last body.
    pub open spec fn added(self, record: BodyRecord<P>) -> WorldView<P> {
        WorldView { records: self.records.push(record), ..self }
    }

    /// The state after removing the body with identifier `id`, if any.
    pub open spec fn removed(self, id: Seq<char>) -> WorldView<P> {
        if self.contains_id(id) {
            WorldView { records: self.records.remove(self.index_of(id)), ..self }
        } else {
            self
        }
    }

    /// The state after one more physics step.
    pub open spec fn stepped(self) -> WorldView<P> {
        WorldView { tick: (self.tick + 1) as u64, ..self }
    }

    /// The state after `n` more physics steps.
    pub open spec fn stepped_n(self, n: nat) -> WorldView<P>
        decreases n,
    {
        if n == 0 {
            self
        } else {
            self.stepped_n((n - 1) as nat).stepped()
        }
    }

    /// How many steps reach `target`, or why it cannot be reached.
    pub open spec fn steps_until(self, target: u64) -> Result<u64, StepError> {
        if target < self.tick {
            Err(StepError::Backwards)
        } else {
            Ok((target - self.tick) as u64)
        }
    }
}

/// The bodies paired with their snapshots, each keyed by its identifier's
/// UTF-8 bytes.
pub open spec fn entries<P>(records: Seq<BodyRecord<P>>, bodies: Seq<BodySnapshot>) -> Seq<
    (Seq<u8>, BodySnapshot),
> {
    Seq::new(records.len(), |i: int| (encode_utf8(records[i].id@), bodies[i]))
}

/// The bytes that the rigid bodies contribute to the state hash, in order.
pub open spec fn bodies_encoding(s: Seq<(Seq<u8>, BodySnapshot)>) -> Seq<u8>
    decreases s.len(),
{
    if s.len() == 0 {
        Seq::empty()
    } else {
        bodies_encoding(s.drop_last()) + body_encoding(s.last().0, s.last().1)
    }
}

/// The bytes that the colliders contribute to the state hash, in order.
pub open spec fn colliders_encoding(s: Seq<(Seq<u8>, BodySnapshot)>) -> Seq<u8>
    decreases s.len(),
{
    if s.len() == 0 {
        Seq::empty()
    } else {
        colliders_encoding(s.drop_last()) + collider_encoding(s.last().0, s.last().1)
    }
}

/// The bytes that open the state hash: the layout version, the engine's
/// name and version, gravity, the timestep, the engine's PID controller
/// counter and free-list size, and the number of bodies.
pub open spec fn header_encoding(gravity: [u32; 3], timestep: u32, count: u64) -> Seq<u8> {
    string_encoding(HASH_VERSION.spec_bytes()) + string_encoding("rapier".spec_bytes())
        + string_encoding(RAPIER_CORE_VERSION.spec_bytes()) + vec3_encoding(gravity)
        + f32_encoding(timestep) + le_bytes_u64(INITIAL_NEXT_PID_CONTROLLER_ID) + le_bytes_u64(0)
        + le_bytes_u64(count)
}

/// The canonical byte serialisation of a world's state: the header, the
/// bodies in canonical order, their count again, and their colliders in
/// canonical order.
pub open spec fn canonical_encoding<P>(v: WorldView<P>, bodies: Seq<BodySnapshot>) -> Seq<u8> {
    let s = sort_by_id(entries(v.records, bodies));
    let n = v.records.len() as u64;
    header_encoding(v.gravity, v.timestep, n) + bodies_encoding(s) + le_bytes_u64(n)
        + colliders_encoding(s)
}

/// The canonical state hash: FNV-1a of the canonical serialisation.
pub open spec fn canonical_hash_of<P>(v: WorldView<P>, bodies: Seq<BodySnapshot>) -> u64 {
    fnv(FNV64_OFFSET, canonical_encoding(v, bodies))
}

/// The lower-case hexadecimal digit of `d`.
pub open spec fn hex_char(d: u64) -> char {
    if d < 10 {
        (('0' as u64) + d) as char
    } else {
        (('a' as u64) + d - 10) as char
    }
}

/// `value` as sixteen lower-case hexadecimal digits, most significant first.
pub open spec fn hex16(value: u64) -> Seq<char> {
    Seq::new(16, |i: int| hex_char((value >> ((60 - 4 * i) as u64)) & 0xf))
}

/// Adding an admitted body keeps identifiers non-empty and distinct.
pub proof fn lemma_added_well_formed<P>(v: WorldView<P>, record: BodyRecord<P>)
    requires
        v.well_formed(),
        v.admits(record.id@) is Ok,
    ensures
        v.added(record).well_formed(),
{
    let r = v.added(record).records;
    assert forall|i: int| 0 <= i < r.len() implies #[trigger] r[i].id@.len() > 0 by {
        if i < v.records.len() {
            assert(r[i] == v.records[i]);
        }
    }
    assert forall|i: int, j: int| 0 <= i < j < r.len() implies #[trigger] r[i].id@
        != #[trigger] r[j].id@ by {
        assert(r[i] == v.records[i]);
        if j == v.records.len() {
            if v.records[i].id@ == record.id@ {
                assert(v.contains_id(record.id@));
            }
        } else {
            assert(r[j] == v.records[j]);
        }
    }
}

/// The position of a present identifier is the one position that holds it.
pub proof fn lemma_index_of<P>(v: WorldView<P>, id: Seq<char>, k: int)
    requires
        v.well_formed(),
        0 <= k < v.records.len(),
        v.records[k].id@ == id,
    ensures
        v.contains_id(id),
        v.index_of(id) == k,
{
    assert(v.contains_id(id));
    let m = v.index_of(id);
    if m < k {
        assert(v.records[m].id@ != v.records[k].id@);
    } else if m > k {
        assert(v.records[k].id@ != v.records[m].id@);
    }
}

/// Removing a body keeps identifiers non-empty and distinct.
pub proof fn lemma_removed_well_formed<P>(v: WorldView<P>, id: Seq<char>)
    requires
        v.well_formed(),
    ensures
        v.removed(id).well_formed(),
{
    if v.contains_id(id) {
        let k = v.index_of(id);
        let r = v.removed(id).records;
        assert forall|a: int| 0 <= a < r.len() implies #[trigger] r[a].id@.len() > 0 by {
            let oa = if a < k { a } else { a + 1 };
            assert(r[a] == v.records[oa]);
        }
        assert forall|a: int, b: int| 0 <= a < b < r.len() implies #[trigger] r[a].id@
            != #[trigger] r[b].id@ by {
            let oa = if a < k { a } else { a + 1 };
            let ob = if b < k { b } else { b + 1 };
            assert(r[a] == v.records[oa]);
            assert(r[b] == v.records[ob]);
        }
    }
}

/// Hashes the header of the canonical serialisation.
fn hash_header(gravity: &[u32; 3], timestep: u32, count: u64) -> (res: u64)
    ensures
        res == fnv(FNV64_OFFSET, header_encoding(*gravity, timestep, count)),
{
    let ghost h0 = FNV64_OFFSET;
    let ghost e1 = string_encoding(HASH_VERSION.spec_bytes());
    let ghost e2 = string_encoding("rapier".spec_bytes());
    let ghost e3 = string_encoding(RAPIER_CORE_VERSION.spec_bytes());
    let ghost e4 = vec3_encoding(*gravity);
    let ghost e5 = f32_encoding(timestep);
    let ghost e6 = le_bytes_u64(INITIAL_NEXT_PID_CONTROLLER_ID);
    let ghost e7 = le_bytes_u64(0);
    let ghost e8 = le_bytes_u64(count);
    let mut h = FNV64_OFFSET;
    h = hash_string(h, HASH_VERSION);
    h = hash_string(h, "rapier");
    proof {
        lemma_fnv_concat(h0, e1, e2);
    }
    h = hash_string(h, RAPIER_CORE_VERSION);
    proof {
        lemma_fnv_concat(h0, e1 + e2, e3);
    }
    h = hash_vec3(h, gravity);
    proof {
        lemma_fnv_concat(h0, e1 + e2 + e3, e4);
    }
    h = hash_f32(h, timestep);
    proof {
        lemma_fnv_concat(h0, e1 + e2 + e3 + e4, e5);
    }
    h = hash_u64(h, INITIAL_NEXT_PID_CONTROLLER_ID);
    proof {
        lemma_fnv_concat(h0, e1 + e2 + e3 + e4 + e5, e6);
    }
    h = hash_u64(h, 0);
    proof {
        lemma_fnv_concat(h0, e1 + e2 + e3 + e4 + e5 + e6, e7);
    }
    h = hash_u64(h, count);
    proof {
        lemma_fnv_concat(h0, e1 + e2 + e3 + e4 + e5 + e6 + e7, e8);
    }
    h
}

/// The digit of `d` as a one-character string.
fn hex_digit(d: u64) -> (res: &'static str)
    requires
        d < 16,
    ensures
        res@ == seq![hex_char(d)],
{
    match d {
        0 => {
            proof {
                reveal_strlit("0");
            }
            "0"
        },
        1 => {
            proof {
                reveal_strlit("1");
            }
            "1"
        },
        2 => {
            proof {
                reveal_strlit("2");
            }
            "2"
        },
        3 => {
            proof {
                reveal_strlit("3");
            }
            "3"
        },
        4 => {
            proof {
                reveal_strlit("4");
            }
            "4"
        },
        5 => {
            proof {
                reveal_strlit("5");
            }
            "5"
        },
        6 => {
            proof {
                reveal_strlit("6");
            }
            "6"
        },
        7 => {
            proof {
                reveal_strlit("7");
            }
            "7"
        },
        8 => {
            proof {
                reveal_strlit("8");
            }
            "8"
        },
        9 => {
            proof {
                reveal_strlit("9");
            }
            "9"
        },
        10 => {
            proof {
                reveal_strlit("a");
            }
            "a"
        },
        11 => {
            proof {
                reveal_strlit("b");
            }
            "b"
        },
        12 => {
            proof {
                reveal_strlit("c");
            }
            "c"
        },
        13 => {
            proof {
                reveal_strlit("d");
            }
            "d"
        },
        14 => {
            proof {
                reveal_strlit("e");
            }
            "e"
        },
        _ => {
            proof {
                reveal_strlit("f");
            }
            "f"
        },
    }
}

/// `value` as sixteen lower-case hexadecimal digits, zero-padded.
pub fn format_hex16(value: u64) -> (res: String)
    ensures
        res@ == hex16(value),
{
    let mut out = String::new();
    let mut i: u64 = 0;
    while i < 16
        invariant
            i <= 16,
            out@ == hex16(value).take(i as int),
        decreases 16 - i,
    {
        let shift: u64 = 60 - 4 * i;
        let d = (value >> shift) & 0xf;
        assert(d < 16) by (bit_vector)
            requires
                d == (value >> shift) & 0xf,
        ;
        out.append(hex_digit(d));
        assert(hex16(value).take(i + 1) =~= hex16(value).take(i as int) + seq![hex_char(d)]);
        i = i + 1;
    }
    assert(hex16(value).take(16) =~= hex16(value));
    out
}

/// A physics world's bodies, tick count and hash parameters.
pub struct World<P> {
    gravity: [u32; 3],
    timestep: u32,
    records: Vec<BodyRecord<P>>,
    tick: u64,
}

impl<P> View for World<P> {
    type V = WorldView<P>;

    closed spec fn view(&self) -> WorldView<P> {
        WorldView {
            gravity: self.gravity,
            timestep: self.timestep,
            tick: self.tick,
            records: self.records@,
        }
    }
}

/// Distinct character sequences have distinct UTF-8 encodings.
pub proof fn lemma_encode_utf8_injective(a: Seq<char>, b: Seq<char>)
    requires
        encode_utf8(a) == encode_utf8(b),
    ensures
        a == b,
{
    encode_utf8_decode_utf8(a);
    encode_utf8_decode_utf8(b);
}

impl<P> World<P> {
    #[verifier::type_invariant]
    spec fn inv(self) -> bool {
        self@.well_formed()
    }

    /// An empty world at tick 0 with the given gravity and timestep (as
    /// binary32 bit patterns).
    pub fn new(gravity: [u32; 3], timestep: u32) -> (res: World<P>)
        ensures
            res@.gravity == gravity,
            res@.timestep == timestep,
            res@.tick == 0,
            res@.records == Seq::<BodyRecord<P>>::empty(),
            res@.well_formed(),
    {
        World { gravity, timestep, records: Vec::new(), tick: 0 }
    }

    /// The number of physics steps taken.
    pub fn tick(&self) -> (res: u64)
        ensures
            res == self@.tick,
    {
        self.tick
    }

    /// Gravity, as binary32 bit patterns.
    pub fn gravity(&self) -> (res: [u32; 3])
        ensures
            res == self@.gravity,
    {
        self.gravity
    }

    /// The timestep, as a binary32 bit pattern.
    pub fn timestep(&self) -> (res: u32)
        ensures
            res == self@.timestep,
    {
        self.timestep
    }

    /// The bodies, in the order in which they were added.
    pub fn records(&self) -> (res: &[BodyRecord<P>])
        ensures
            res@ == self@.records,
            self@.well_formed(),
    {
        proof {
            use_type_invariant(self);
        }
        self.records.as_slice()
    }

    /// Whether a body with identifier `id` may be added: the identifier
    /// must be non-empty and not yet used.
    pub fn check_new_body(&self, id: &str) -> (res: Result<(), AddBodyError>)
        ensures
            res == self@.admits(id@),
            self@.well_formed(),
    {
        proof {
            use_type_invariant(self);
        }
        if id.is_empty() {
            return Err(AddBodyError::EmptyId);
        }
        let key = id.to_owned();
        let mut i: usize = 0;
        while i < self.records.len()
            invariant
                i <= self.records@.len(),
                key@ == id@,
                id@.len() > 0,
                self@.well_formed(),
                forall|j: int| 0 <= j < i ==> #[trigger] self.records@[j].id@ != id@,
            decreases self.records@.len() - i,
        {
            if self.records[i].id == key {
                proof {
                    lemma_index_of(self@, id@, i as int);
                }
                return Err(AddBodyError::DuplicateId);
            }
            i = i + 1;
        }
        proof {
            if self@.contains_id(id@) {
                let k = choose|k: int|
                    0 <= k < self.records@.len() && #[trigger] self.records@[k].id@ == id@;
                assert(self.records@[k].id@ != id@);
            }
        }
        Ok(())
    }

    /// Adds a body with identifier `id` after the existing ones, unless the
    /// identifier is empty or already used.
    pub fn add_body(&mut self, id: String, payload: P) -> (res: Result<(), AddBodyError>)
        ensures
            res == old(self)@.admits(id@),
            res is Ok ==> final(self)@ == old(self)@.added(BodyRecord { id, payload }),
            res is Err ==> final(self)@ == old(self)@,
            final(self)@.well_formed(),
    {
        proof {
            use_type_invariant(&*self);
        }
        match self.check_new_body(id.as_str()) {
            Err(e) => Err(e),
            Ok(()) => {
                let ghost old_records = self.records@;
                let ghost record = BodyRecord { id, payload };
                let mut records = Vec::new();
                std::mem::swap(&mut records, &mut self.records);
                records.push(BodyRecord { id, payload });
                proof {
                    lemma_added_well_formed(old(self)@, record);
                    assert(records@ == old(self)@.added(record).records);
                }
                self.records = records;
                Ok(())
            },
        }
    }

    /// Removes the body with identifier `id` and hands back its payload, or
    /// `None` when no body has that identifier.
    pub fn remove_body(&mut self, id: &str) -> (res: Option<P>)
        ensures
            res == old(self)@.lookup(id@),
            final(self)@ == old(self)@.removed(id@),
            final(self)@.well_formed(),
    {
        proof {
            use_type_invariant(&*self);
        }
        let key = id.to_owned();
        let mut i: usize = 0;
        while i < self.records.len()
            invariant
                i <= self.records@.len(),
                key@ == id@,
                self@.well_formed(),
                forall|j: int| 0 <= j < i ==> #[trigger] self.records@[j].id@ != id@,
            self@ == old(self)@,
                decreases self.records@.len() - i,
        {
            if self.records[i].id == key {
                let ghost before = self@;
                proof {
                    lemma_index_of(before, id@, i as int);
                    lemma_removed_well_formed(before, id@);
                }
                let mut records = Vec::new();
                std::mem::swap(&mut records, &mut self.records);
                let record = records.remove(i);
                proof {
                    assert(records@ == before.removed(id@).records);
                }
                self.records = records;
                proof {
                    assert(self@ == before.removed(id@));
                }
                return Some(record.payload);
            }
            i = i + 1;
        }
        proof {
            if self@.contains_id(id@) {
                let k = choose|k: int|
                    0 <= k < self.records@.len() && #[trigger] self.records@[k].id@ == id@;
                assert(self.records@[k].id@ != id@);
            }
        }
        None
    }

    /// The payload of the body with identifier `id`, if any.
    pub fn body(&self, id: &str) -> (res: Option<&P>)
        ensures
            match res {
                Some(p) => self@.lookup(id@) == Some(*p),
                None => self@.lookup(id@) is None,
            },
    {
        proof {
            use_type_invariant(self);
        }
        let key = id.to_owned();
        let mut i: usize = 0;
        while i < self.records.len()
            invariant
                i <= self.records@.len(),
                key@ == id@,
                self@.well_formed(),
                forall|j: int| 0 <= j < i ==> #[trigger] self.records@[j].id@ != id@,
            decreases self.records@.len() - i,
        {
            if self.records[i].id == key {
                proof {
                    lemma_index_of(self@, id@, i as int);
                }
                return Some(&self.records[i].payload);
            }
            i = i + 1;
        }
        proof {
            if self@.contains_id(id@) {
                let k = choose|k: int|
                    0 <= k < self.records@.len() && #[trigger] self.records@[k].id@ == id@;
                assert(self.records@[k].id@ != id@);
            }
        }
        None
    }

    /// The UTF-8 bytes of the identifier of body `i`.
    pub closed spec fn id_bytes(self, i: int) -> Seq<u8> {
        encode_utf8(self@.records[i].id@)
    }

    /// Whether body `a` comes before body `b` in canonical order.
    fn id_less(&self, keys: &Vec<u64>, a: usize, b: usize) -> (res: bool)
        requires
            keys@.len() == self@.records.len(),
            forall|k: int|
                0 <= k < keys@.len() ==> #[trigger] keys@[k] == stable_id_hash_of(
                    self.id_bytes(k),
                ),
            a < keys@.len(),
            b < keys@.len(),
        ensures
            res == id_lt(self.id_bytes(a as int), self.id_bytes(b as int)),
    {
        if keys[a] < keys[b] {
            true
        } else if keys[a] == keys[b] {
            bytes_less(self.records[a].id.as_str().as_bytes(), self.records[b].id.as_str().as_bytes())
        } else {
            false
        }
    }

    /// The positions of the bodies, listed in canonical order.
    fn canonical_order(&self) -> (order: Vec<usize>)
        ensures
            order@.len() == self@.records.len(),
            forall|k: int| 0 <= k < order@.len() ==> #[trigger] order@[k] < self@.records.len(),
            forall|j: usize| j < self@.records.len() ==> #[trigger] order@.contains(j),
            forall|a: int, b: int|
                0 <= a < b < order@.len() ==> id_lt(
                    self.id_bytes(#[trigger] order@[a] as int),
                    self.id_bytes(#[trigger] order@[b] as int),
                ),
    {
        proof {
            use_type_invariant(self);
        }
        let n = self.records.len();
        let mut keys: Vec<u64> = Vec::new();
        let mut i: usize = 0;
        while i < n
            invariant
                n == self@.records.len(),
                i <= n,
                keys@.len() == i,
                forall|k: int|
                    0 <= k < i ==> #[trigger] keys@[k] == stable_id_hash_of(self.id_bytes(k)),
            decreases n - i,
        {
            keys.push(stable_id_hash(self.records[i].id.as_str()));
            i = i + 1;
        }
        let mut order: Vec<usize> = Vec::new();
        let mut i: usize = 0;
        while i < n
            invariant
                n == self@.records.len(),
                self@.well_formed(),
                keys@.len() == n,
                forall|k: int|
                    0 <= k < n ==> #[trigger] keys@[k] == stable_id_hash_of(self.id_bytes(k)),
                i <= n,
                order@.len() == i,
                forall|k: int| 0 <= k < order@.len() ==> #[trigger] order@[k] < i,
                forall|j: usize| j < i ==> #[trigger] order@.contains(j),
                forall|a: int, b: int|
                    0 <= a < b < order@.len() ==> id_lt(
                        self.id_bytes(#[trigger] order@[a] as int),
                        self.id_bytes(#[trigger] order@[b] as int),
                    ),
            decreases n - i,
        {
            let mut p: usize = 0;
            while p < order.len() && !self.id_less(&keys, i, order[p])
                invariant
                    n == self@.records.len(),
                    self@.well_formed(),
                    keys@.len() == n,
                    forall|k: int|
                        0 <= k < n ==> #[trigger] keys@[k] == stable_id_hash_of(self.id_bytes(k)),
                    i < n,
                    p <= order@.len(),
                    forall|k: int| 0 <= k < order@.len() ==> #[trigger] order@[k] < i,
                    forall|a: int|
                        0 <= a < p ==> id_lt(
                            self.id_bytes(#[trigger] order@[a] as int),
                            self.id_bytes(i as int),
                        ),
                decreases order@.len() - p,
            {
                proof {
                    let o = order@[p as int] as int;
                    if self.id_bytes(o) == self.id_bytes(i as int) {
                        lemma_encode_utf8_injective(self@.records[o].id@, self@.records[i as int].id@);
                    }
                    lemma_id_lt_total(self.id_bytes(o), self.id_bytes(i as int));
                }
                p = p + 1;
            }
            let ghost old_order = order@;
            order.insert(p, i);
            proof {
                old_order.insert_ensures(p as int, i);
                assert(order@ == old_order.insert(p as int, i));
                assert forall|k: int| 0 <= k < order@.len() implies #[trigger] order@[k] < i + 1 by {
                    if k < p {
                        assert(order@[k] == old_order[k]);
                    } else if k > p {
                        assert(order@[k] == old_order[k - 1]);
                    }
                }
                assert forall|j: usize| j < i + 1 implies #[trigger] order@.contains(j) by {
                    if j == i {
                        assert(order@[p as int] == j);
                    } else {
                        assert(old_order.contains(j));
                        let k = choose|k: int| 0 <= k < old_order.len() && old_order[k] == j;
                        if k < p {
                            assert(order@[k] == j);
                        } else {
                            assert(order@[k + 1] == j);
                        }
                    }
                }
                assert forall|a: int, b: int| 0 <= a < b < order@.len() implies id_lt(
                    self.id_bytes(#[trigger] order@[a] as int),
                    self.id_bytes(#[trigger] order@[b] as int),
                ) by {
                    let bi = self.id_bytes(i as int);
                    if b < p {
                        assert(order@[a] == old_order[a] && order@[b] == old_order[b]);
                    } else if b == p {
                        assert(order@[a] == old_order[a]);
                    } else if a > p {
                        assert(order@[a] == old_order[a - 1] && order@[b] == old_order[b - 1]);
                    } else if a == p {
                        assert(order@[b] == old_order[b - 1]);
                        let first = self.id_bytes(old_order[p as int] as int);
                        assert(id_lt(bi, first));
                        if b - 1 > p {
                            assert(id_lt(first, self.id_bytes(old_order[b - 1] as int)));
                            lemma_id_lt_transitive(bi, first, self.id_bytes(old_order[b - 1] as int));
                        }
                    } else {
                        assert(order@[a] == old_order[a] && order@[b] == old_order[b - 1]);
                        assert(id_lt(self.id_bytes(old_order[a] as int), bi));
                        let first = self.id_bytes(old_order[p as int] as int);
                        assert(id_lt(bi, first));
                        lemma_id_lt_transitive(self.id_bytes(old_order[a] as int), bi, first);
                        if b - 1 > p {
                            lemma_id_lt_transitive(
                                self.id_bytes(old_order[a] as int),
                                first,
                                self.id_bytes(old_order[b - 1] as int),
                            );
                        }
                    }
                }
            }
            i = i + 1;
        }
        order
    }

    /// Listing the entries at the positions of `canonical_order` gives
    /// their canonical order.
    proof fn lemma_ordered_entries(&self, bodies: Seq<BodySnapshot>, order: Seq<usize>)
        requires
            self@.well_formed(),
            bodies.len() == self@.records.len(),
            self@.records.len() <= usize::MAX,
            order.len() == self@.records.len(),
            forall|k: int| 0 <= k < order.len() ==> #[trigger] order[k] < self@.records.len(),
            forall|j: usize| j < self@.records.len() ==> #[trigger] order.contains(j),
            forall|a: int, b: int|
                0 <= a < b < order.len() ==> id_lt(
                    self.id_bytes(#[trigger] order[a] as int),
                    self.id_bytes(#[trigger] order[b] as int),
                ),
        ensures
            Seq::new(order.len(), |k: int| entries(self@.records, bodies)[order[k] as int])
                == sort_by_id(entries(self@.records, bodies)),
    {
        let e = entries(self@.records, bodies);
        let s = Seq::new(order.len(), |k: int| e[order[k] as int]);
        assert(unique_ids(e)) by {
            assert forall|a: int, b: int| 0 <= a < b < e.len() implies #[trigger] e[a].0
                != #[trigger] e[b].0 by {
                if e[a].0 == e[b].0 {
                    lemma_encode_utf8_injective(self@.records[a].id@, self@.records[b].id@);
                }
            }
        }
        assert(strictly_sorted(s)) by {
            assert forall|a: int, b: int| 0 <= a < b < s.len() implies id_lt(
                #[trigger] s[a].0,
                #[trigger] s[b].0,
            ) by {
                assert(s[a].0 == self.id_bytes(order[a] as int));
                assert(s[b].0 == self.id_bytes(order[b] as int));
            }
        }
        assert forall|x: (Seq<u8>, BodySnapshot)| s.contains(x) <==> e.contains(x) by {
            if s.contains(x) {
                let k = choose|k: int| 0 <= k < s.len() && s[k] == x;
                assert(e[order[k] as int] == x);
            }
            if e.contains(x) {
                let j = choose|j: int| 0 <= j < e.len() && e[j] == x;
                assert(order.contains(j as usize));
                let k = choose|k: int| 0 <= k < order.len() && order[k] == j as usize;
                assert(s[k] == x);
            }
        }
        lemma_canonical_order_is_sort(s, e);
    }

    /// The canonical state hash. `bodies[i]` is what the engine reports of
    /// the `i`-th body of `records()`; the result does not depend on the
    /// order in which the bodies were added.
    pub fn canonical_state_hash_u64(&self, bodies: &[BodySnapshot]) -> (res: u64)
        requires
            bodies@.len() == self@.records.len(),
        ensures
            res == canonical_hash_of(self@, bodies@),
    {
        proof {
            use_type_invariant(self);
        }
        let n = self.records.len();
        let order = self.canonical_order();
        let ghost e = entries(self@.records, bodies@);
        let ghost s = Seq::new(n as nat, |k: int| e[order@[k] as int]);
        proof {
            self.lemma_ordered_entries(bodies@, order@);
        }
        let ghost header = header_encoding(self@.gravity, self@.timestep, n as u64);
        let mut h = hash_header(&self.gravity, self.timestep, n as u64);
        let mut k: usize = 0;
        assert(s.take(0) =~= Seq::<(Seq<u8>, BodySnapshot)>::empty());
        while k < n
            invariant
                n == self@.records.len(),
                n == order@.len(),
                bodies@.len() == n,
                s.len() == n,
                forall|m: int| 0 <= m < n ==> #[trigger] order@[m] < n,
                forall|m: int| 0 <= m < n ==> #[trigger] s[m] == e[order@[m] as int],
                e == entries(self@.records, bodies@),
                k <= n,
                h == fnv(FNV64_OFFSET, header + bodies_encoding(s.take(k as int))),
            decreases n - k,
        {
            let idx = order[k];
            let ghost before = header + bodies_encoding(s.take(k as int));
            h = hash_body(h, self.records[idx].id.as_str(), &bodies[idx]);
            proof {
                assert(s[k as int] == e[idx as int]);
                lemma_fnv_concat(FNV64_OFFSET, before, body_encoding(s[k as int].0, s[k as int].1));
                assert(s.take(k + 1).drop_last() =~= s.take(k as int));
                assert(bodies_encoding(s.take(k + 1)) == bodies_encoding(s.take(k as int))
                    + body_encoding(s[k as int].0, s[k as int].1));
                vstd::seq_lib::lemma_concat_associative(
                    header,
                    bodies_encoding(s.take(k as int)),
                    body_encoding(s[k as int].0, s[k as int].1),
                );
            }
            k = k + 1;
        }
        assert(s.take(n as int) =~= s);
        let ghost after_bodies = header + bodies_encoding(s);
        h = hash_u64(h, n as u64);
        proof {
            lemma_fnv_concat(FNV64_OFFSET, after_bodies, le_bytes_u64(n as u64));
        }
        let ghost prefix = after_bodies + le_bytes_u64(n as u64);
        let mut k: usize = 0;
        assert(prefix + colliders_encoding(s.take(0)) =~= prefix);
        while k < n
            invariant
                n == self@.records.len(),
                n == order@.len(),
                bodies@.len() == n,
                s.len() == n,
                forall|m: int| 0 <= m < n ==> #[trigger] order@[m] < n,
                forall|m: int| 0 <= m < n ==> #[trigger] s[m] == e[order@[m] as int],
                e == entries(self@.records, bodies@),
                k <= n,
                h == fnv(FNV64_OFFSET, prefix + colliders_encoding(s.take(k as int))),
            decreases n - k,
        {
            let idx = order[k];
            let ghost before = prefix + colliders_encoding(s.take(k as int));
            h = hash_collider(h, self.records[idx].id.as_str(), &bodies[idx]);
            proof {
                assert(s[k as int] == e[idx as int]);
                lemma_fnv_concat(
                    FNV64_OFFSET,
                    before,
                    collider_encoding(s[k as int].0, s[k as int].1),
                );
                assert(s.take(k + 1).drop_last() =~= s.take(k as int));
                assert(colliders_encoding(s.take(k + 1)) == colliders_encoding(s.take(k as int))
                    + collider_encoding(s[k as int].0, s[k as int].1));
                vstd::seq_lib::lemma_concat_associative(
                    prefix,
                    colliders_encoding(s.take(k as int)),
                    collider_encoding(s[k as int].0, s[k as int].1),
                );
            }
            k = k + 1;
        }
        assert(s.take(n as int) =~= s);
        assert(prefix + colliders_encoding(s) == canonical_encoding(self@, bodies@));
        h
    }

    /// The canonical state hash as sixteen lower-case hexadecimal digits.
    pub fn canonical_state_hash(&self, bodies: &[BodySnapshot]) -> (res: String)
        requires
            bodies@.len() == self@.records.len(),
        ensures
            res@ == hex16(canonical_hash_of(self@, bodies@)),
    {
        format_hex16(self.canonical_state_hash_u64(bodies))
    }

    /// Records one completed physics step.
    pub fn step(&mut self)
        requires
            old(self)@.tick < u64::MAX,
        ensures
            final(self)@ == old(self)@.stepped(),
    {
        proof {
            use_type_invariant(&*self);
        }
        let mut records = Vec::new();
        std::mem::swap(&mut records, &mut self.records);
        self.tick = self.tick + 1;
        assert(records@ == old(self)@.records);
        self.records = records;
    }

    /// How many physics steps bring the world to `target_tick`; an error
    /// when that tick has already passed.
    pub fn steps_until(&self, target_tick: u64) -> (res: Result<u64, StepError>)
        ensures
            res == self@.steps_until(target_tick),
    {
        if target_tick < self.tick {
            Err(StepError::Backwards)
        } else {
            Ok(target_tick - self.tick)
        }
    }
}

} // verus!

verus! {

/// After an admitted body is added, its identifier finds its payload and
/// every other identifier finds what it found before.
pub proof fn lemma_add_then_lookup<P>(v: WorldView<P>, record: BodyRecord<P>, other: Seq<char>)
    requires
        v.well_formed(),
        v.admits(record.id@) is Ok,
    ensures
        v.added(record).lookup(record.id@) == Some(record.payload),
        other != record.id@ ==> v.added(record).lookup(other) == v.lookup(other),
{
    let w = v.added(record);
    lemma_added_well_formed(v, record);
    lemma_index_of(w, record.id@, v.records.len() as int);
    if other != record.id@ {
        if v.contains_id(other) {
            let k = v.index_of(other);
            assert(w.records[k] == v.records[k]);
            lemma_index_of(w, other, k);
        } else if w.contains_id(other) {
            let k = choose|k: int| 0 <= k < w.records.len() && #[trigger] w.records[k].id@ == other;
            assert(k < v.records.len());
            assert(v.records[k] == w.records[k]);
        }
    }
}

/// Removing a body that was just added restores the world.
pub proof fn lemma_add_then_remove<P>(v: WorldView<P>, record: BodyRecord<P>)
    requires
        v.well_formed(),
        v.admits(record.id@) is Ok,
    ensures
        v.added(record).removed(record.id@) == v,
{
    let w = v.added(record);
    lemma_added_well_formed(v, record);
    lemma_index_of(w, record.id@, v.records.len() as int);
    assert(w.records.remove(v.records.len() as int) =~= v.records);
}

/// After a removal the identifier finds nothing and may be used again,
/// and every other identifier finds what it found before.
pub proof fn lemma_remove_then_lookup<P>(v: WorldView<P>, id: Seq<char>, other: Seq<char>)
    requires
        v.well_formed(),
    ensures
        v.removed(id).lookup(id) is None,
        id.len() > 0 ==> v.removed(id).admits(id) is Ok,
        other != id ==> v.removed(id).lookup(other) == v.lookup(other),
        !v.contains_id(id) ==> v.removed(id) == v,
{
    let w = v.removed(id);
    lemma_removed_well_formed(v, id);
    if v.contains_id(id) {
        let k = v.index_of(id);
        if w.contains_id(id) {
            let m = choose|m: int| 0 <= m < w.records.len() && #[trigger] w.records[m].id@ == id;
            let om = if m < k { m } else { m + 1 };
            assert(w.records[m] == v.records[om]);
            assert(v.records[om].id@ != v.records[k].id@);
        }
        if other != id {
            if v.contains_id(other) {
                let j = v.index_of(other);
                assert(j != k);
                let nj = if j < k { j } else { j - 1 };
                assert(w.records[nj] == v.records[j]);
                lemma_index_of(w, other, nj);
            } else if w.contains_id(other) {
                let m = choose|m: int|
                    0 <= m < w.records.len() && #[trigger] w.records[m].id@ == other;
                let om = if m < k { m } else { m + 1 };
                assert(w.records[m] == v.records[om]);
            }
        }
    }
}

/// Stepping `n` times from tick `t` reaches tick `t + n` and leaves the
/// bodies alone.
pub proof fn lemma_stepped_n<P>(v: WorldView<P>, n: nat)
    requires
        v.tick + n <= u64::MAX,
    ensures
        v.stepped_n(n).tick == v.tick + n,
        v.stepped_n(n).records == v.records,
        v.stepped_n(n).gravity == v.gravity,
        v.stepped_n(n).timestep == v.timestep,
    decreases n,
{
    if n > 0 {
        lemma_stepped_n(v, (n - 1) as nat);
    }
}

/// Taking the planned number of steps reaches the target tick; a target
/// in the past is refused, and the current tick needs no step.
pub proof fn lemma_steps_until_reaches_target<P>(v: WorldView<P>, target: u64)
    ensures
        v.steps_until(target) is Err <==> target < v.tick,
        v.steps_until(target) matches Ok(n) ==> v.stepped_n(n as nat).tick == target
            && v.stepped_n(n as nat).records == v.records,
        v.steps_until(v.tick) == Ok::<u64, StepError>(0),
{
    if target >= v.tick {
        lemma_stepped_n(v, (target - v.tick) as nat);
    }
}

/// The canonical state hash depends on gravity, the timestep and the set of
/// (identifier, snapshot) pairs only: not on the order in which the bodies
/// were added, nor on the payloads or the tick.
pub proof fn lemma_canonical_hash_order_independent<P, Q>(
    v1: WorldView<P>,
    bodies1: Seq<BodySnapshot>,
    v2: WorldView<Q>,
    bodies2: Seq<BodySnapshot>,
)
    requires
        v1.well_formed(),
        v2.well_formed(),
        bodies1.len() == v1.records.len(),
        bodies2.len() == v2.records.len(),
        v1.gravity == v2.gravity,
        v1.timestep == v2.timestep,
        v1.records.len() == v2.records.len(),
        same_entries(entries(v1.records, bodies1), entries(v2.records, bodies2)),
    ensures
        canonical_hash_of(v1, bodies1) == canonical_hash_of(v2, bodies2),
{
    let e1 = entries(v1.records, bodies1);
    let e2 = entries(v2.records, bodies2);
    assert(unique_ids(e1)) by {
        assert forall|a: int, b: int| 0 <= a < b < e1.len() implies #[trigger] e1[a].0
            != #[trigger] e1[b].0 by {
            if e1[a].0 == e1[b].0 {
                lemma_encode_utf8_injective(v1.records[a].id@, v1.records[b].id@);
            }
        }
    }
    assert(unique_ids(e2)) by {
        assert forall|a: int, b: int| 0 <= a < b < e2.len() implies #[trigger] e2[a].0
            != #[trigger] e2[b].0 by {
            if e2[a].0 == e2[b].0 {
                lemma_encode_utf8_injective(v2.records[a].id@, v2.records[b].id@);
            }
        }
    }
    lemma_sort_by_id(e1);
    lemma_sort_by_id(e2);
    lemma_sorted_unique(sort_by_id(e1), sort_by_id(e2));
}

} // verus!

verus! {

/// Every digit is the standard lower-case hexadecimal digit of its value.
pub proof fn lemma_hex_char_is_standard_digit(d: u64)
    requires
        d < 16,
    ensures
        hex_char(d) == "0123456789abcdef"@[d as int],
{
    reveal_strlit("0123456789abcdef");
    assert(('0' as u64) == 48);
    assert(('a' as u64) == 97);
    if d == 0 { assert(hex_char(d) == '0'); }
    else if d == 1 { assert(hex_char(d) == '1'); }
    else if d == 2 { assert(hex_char(d) == '2'); }
    else if d == 3 { assert(hex_char(d) == '3'); }
    else if d == 4 { assert(hex_char(d) == '4'); }
    else if d == 5 { assert(hex_char(d) == '5'); }
    else if d == 6 { assert(hex_char(d) == '6'); }
    else if d == 7 { assert(hex_char(d) == '7'); }
    else if d == 8 { assert(hex_char(d) == '8'); }
    else if d == 9 { assert(hex_char(d) == '9'); }
    else if d == 10 { assert(hex_char(d) == 'a'); }
    else if d == 11 { assert(hex_char(d) == 'b'); }
    else if d == 12 { assert(hex_char(d) == 'c'); }
    else if d == 13 { assert(hex_char(d) == 'd'); }
    else if d == 14 { assert(hex_char(d) == 'e'); }
    else { assert(hex_char(d) == 'f'); }
}

/// The `i`-th character of the sixteen-digit form is the standard
/// lower-case digit of the `i`-th nibble, most significant first.
pub proof fn lemma_hex16_digits(value: u64, i: int)
    requires
        0 <= i < 16,
    ensures
        hex16(value).len() == 16,
        hex16(value)[i] == "0123456789abcdef"@[((value >> ((60 - 4 * i) as u64)) & 0xf) as int],
{
    let shift = (60 - 4 * i) as u64;
    let d = (value >> shift) & 0xf;
    assert(d < 16) by (bit_vector)
        requires
            d == (value >> shift) & 0xf,
    ;
    lemma_hex_char_is_standard_digit(d);
}

/// Equal sixteen-digit forms have equal nibbles.
proof fn lemma_hex16_nibble(a: u64, b: u64, i: int)
    requires
        hex16(a) == hex16(b),
        0 <= i < 16,
    ensures
        ((a >> ((60 - 4 * i) as u64)) & 0xf) == ((b >> ((60 - 4 * i) as u64)) & 0xf),
{
    let shift = (60 - 4 * i) as u64;
    let da = (a >> shift) & 0xf;
    let db = (b >> shift) & 0xf;
    assert(da < 16 && db < 16) by (bit_vector)
        requires
            da == (a >> shift) & 0xf,
            db == (b >> shift) & 0xf,
    ;
    assert(hex16(a)[i] == hex16(b)[i]);
    lemma_hex_char_is_standard_digit(da);
    lemma_hex_char_is_standard_digit(db);
    reveal_strlit("0123456789abcdef");
    let digits = seq!['0', '1', '2', '3', '4', '5', '6', '7', '8', '9', 'a', 'b', 'c', 'd', 'e', 'f'];
    assert("0123456789abcdef"@ =~= digits);
    assert(forall|x: int, y: int| 0 <= x < 16 && 0 <= y < 16 && x != y ==> digits[x] != digits[y]);
    assert(hex16(a)[i] == hex_char(da));
    assert(hex16(b)[i] == hex_char(db));
    assert(digits[da as int] == digits[db as int]);
}

/// Distinct values have distinct sixteen-digit forms.
pub proof fn lemma_hex16_injective(a: u64, b: u64)
    requires
        hex16(a) == hex16(b),
    ensures
        a == b,
{
    lemma_hex16_nibble(a, b, 0);
    lemma_hex16_nibble(a, b, 1);
    lemma_hex16_nibble(a, b, 2);
    lemma_hex16_nibble(a, b, 3);
    lemma_hex16_nibble(a, b, 4);
    lemma_hex16_nibble(a, b, 5);
    lemma_hex16_nibble(a, b, 6);
    lemma_hex16_nibble(a, b, 7);
    lemma_hex16_nibble(a, b, 8);
    lemma_hex16_nibble(a, b, 9);
    lemma_hex16_nibble(a, b, 10);
    lemma_hex16_nibble(a, b, 11);
    lemma_hex16_nibble(a, b, 12);
    lemma_hex16_nibble(a, b, 13);
    lemma_hex16_nibble(a, b, 14);
    lemma_hex16_nibble(a, b, 15);
    assert(a == b) by (bit_vector)
        requires
            (a >> 60u64) & 0xf == (b >> 60u64) & 0xf,
            (a >> 56u64) & 0xf == (b >> 56u64) & 0xf,
            (a >> 52u64) & 0xf == (b >> 52u64) & 0xf,
            (a >> 48u64) & 0xf == (b >> 48u64) & 0xf,
            (a >> 44u64) & 0xf == (b >> 44u64) & 0xf,
            (a >> 40u64) & 0xf == (b >> 40u64) & 0xf,
            (a >> 36u64) & 0xf == (b >> 36u64) & 0xf,
            (a >> 32u64) & 0xf == (b >> 32u64) & 0xf,
            (a >> 28u64) & 0xf == (b >> 28u64) & 0xf,
            (a >> 24u64) & 0xf == (b >> 24u64) & 0xf,
            (a >> 20u64) & 0xf == (b >> 20u64) & 0xf,
            (a >> 16u64) & 0xf == (b >> 16u64) & 0xf,
            (a >> 12u64) & 0xf == (b >> 12u64) & 0xf,
            (a >> 8u64) & 0xf == (b >> 8u64) & 0xf,
            (a >> 4u64) & 0xf == (b >> 4u64) & 0xf,
            (a >> 0u64) & 0xf == (b >> 0u64) & 0xf,
    ;
}

} // verus!
