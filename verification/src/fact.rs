//! Fact identity: names of boolean properties are hashed into compact
//! identifiers, and a property paired with a truth value becomes a single
//! integer that the planner compares and stores instead of strings.

use vstd::prelude::*;

verus! {

/// Seed of the name hash. It is fixed so that identifiers are the same in
/// every process.
pub const HASH_SEED: u32 = 0;

/// The 32-bit Murmur3 hash of `data` under `seed`, as `mash_rs::murmur3_32`
/// computes it.
pub uninterp spec fn murmur3_32_hash(data: Seq<u8>, seed: u32) -> u32;

/// `mash_rs::murmur3_32` reads the whole slice and the seed, never panics, and
/// touches nothing else, so its result is a function of the bytes and the seed.
/// Nothing further is claimed of the value.
pub assume_specification[ mash_rs::murmur3_32 ](data: &[u8], seed: u32) -> (hash: u32)
    ensures
        hash == murmur3_32_hash(data@, seed),
;

/// The hash that identifies the property called `name`: Murmur3 over the
/// UTF-8 bytes of the name.
pub open spec fn property_hash(name: Seq<char>) -> u32 {
    murmur3_32_hash(vstd::utf8::encode_utf8(name), HASH_SEED)
}

/// The identifier of the fact "property = value": the whole property hash
/// moved up by one bit, with the truth value in the lowest bit.
pub open spec fn encode_fact(property: u32, value: bool) -> u64 {
    ((property as u64) << 1u64) | (if value { 1u64 } else { 0u64 })
}

/// The identifier of the fact that the property called `name` has `value`.
pub open spec fn fact_id(name: Seq<char>, value: bool) -> u64 {
    encode_fact(property_hash(name), value)
}

/// The identifier of the opposite fact: same property, other truth value.
pub open spec fn negation(fact: u64) -> u64 {
    fact ^ 1u64
}

/// The text kept with a fact for diagnostics: `name=true` or `name=false`.
pub open spec fn fact_label(name: Seq<char>, value: bool) -> Seq<char> {
    name + "="@ + (if value { "true"@ } else { "false"@ })
}

/// Negating a fact twice gives the fact back.
pub proof fn lemma_negation_involutive(fact: u64)
    ensures
        negation(negation(fact)) == fact,
        negation(fact) != fact,
{
    assert((fact ^ 1u64) ^ 1u64 == fact && (fact ^ 1u64) != fact) by (bit_vector);
}

/// The two facts about one property are each other's negation and differ.
/// The lowest bit of an identifier is the truth value, the bits above it
/// are the property hash, and every identifier is below 2^33.
pub proof fn lemma_encode_fact(property: u32, value: bool)
    ensures
        negation(encode_fact(property, value)) == encode_fact(property, !value),
        encode_fact(property, true) != encode_fact(property, false),
        encode_fact(property, value) < 0x2_0000_0000,
        encode_fact(property, value) % 2 == (if value { 1int } else { 0int }),
        encode_fact(property, value) >> 1u64 == property,
        encode_fact(property, value) == 2 * property + (if value { 1int } else { 0int }),
{
    let wide: u64 = property as u64;
    assert(wide <= 0xffff_ffff);
    assert({
        &&& ((wide << 1u64) | 1u64) ^ 1u64 == (wide << 1u64) | 0u64
        &&& ((wide << 1u64) | 0u64) ^ 1u64 == (wide << 1u64) | 1u64
        &&& ((wide << 1u64) | 1u64) == 2 * wide + 1
        &&& ((wide << 1u64) | 0u64) == 2 * wide
        &&& ((wide << 1u64) | 1u64) >> 1u64 == wide
        &&& ((wide << 1u64) | 0u64) >> 1u64 == wide
    }) by (bit_vector)
        requires
            wide <= 0xffff_ffff,
    ;
}

/// The encoding adds no collision to those of the hash: two facts have the
/// same identifier exactly when they have the same property hash and the
/// same truth value.
pub proof fn lemma_encode_fact_injective(p: u32, v: bool, q: u32, w: bool)
    ensures
        encode_fact(p, v) == encode_fact(q, w) <==> (p == q && v == w),
{
    lemma_encode_fact(p, v);
    lemma_encode_fact(q, w);
}

/// Identifier of a named boolean property.
pub struct PropertyId(u32);

impl PropertyId {
    /// The hash this identifier holds.
    pub closed spec fn value(self) -> u32 {
        self.0
    }

    /// Hashes `name` into its identifier. Equal names give equal identifiers.
    pub fn new(name: &str) -> (id: Self)
        ensures
            id.value() == property_hash(name@),
    {
        Self(mash_rs::murmur3_32(name.as_bytes(), HASH_SEED))
    }

    /// The raw 32-bit hash.
    pub fn inner(self) -> (raw: u32)
        ensures
            raw == self.value(),
    {
        self.0
    }
}

/// Encodes the fact "property = value" from the property's hash: the hash
/// is widened to 64 bits and moved up by one bit, so that none of its bits
/// is lost, and the truth value takes the lowest bit.
pub fn encode(property: u32, value: bool) -> (fact: u64)
    ensures
        fact == encode_fact(property, value),
{
    let bit: u64 = if value { 1 } else { 0 };
    let wide: u64 = property as u64;
    (wide << 1u64) | bit
}

/// A fact: a property together with a truth value. Two facts are equal when
/// their identifiers are; the label is carried for diagnostics only.
#[derive(Debug)]
pub struct ConditionId {
    id: u64,
    debug_str: String,
}

impl ConditionId {
    /// The integer that identifies this fact.
    pub closed spec fn fact(&self) -> u64 {
        self.id
    }

    /// The diagnostic text of this fact.
    pub closed spec fn label(&self) -> Seq<char> {
        self.debug_str@
    }

    /// The fact that the property called `name` has `value`.
    pub fn new(name: &str, value: bool) -> (condition: Self)
        ensures
            condition.fact() == fact_id(name@, value),
            condition.label() == fact_label(name@, value),
    {
        let property = PropertyId::new(name);
        let calculated_value = encode(property.inner(), value);
        let mut debug_str = String::from_str(name);
        debug_str.append("=");
        debug_str.append(if value { "true" } else { "false" });
        Self { id: calculated_value, debug_str }
    }

    /// The integer that identifies this fact.
    pub fn id(&self) -> (id: u64)
        ensures
            id == self.fact(),
    {
        self.id
    }

    /// The diagnostic text, `name=value`.
    pub fn debug_str(&self) -> (text: &str)
        ensures
            text@ == self.label(),
    {
        self.debug_str.as_str()
    }

    /// The identifier of the fact with the opposite truth value.
    pub fn negated_id(&self) -> (id: u64)
        ensures
            id == negation(self.fact()),
    {
        self.id ^ 1u64
    }
}

impl Clone for ConditionId {
    fn clone(&self) -> (copy: Self)
        ensures
            copy == *self,
    {
        Self { id: self.id, debug_str: self.debug_str.clone() }
    }
}

impl PartialEq for ConditionId {
    fn eq(&self, other: &Self) -> (same: bool) {
        self.id == other.id
    }
}

impl Eq for ConditionId {

}

/// `u64`'s own `hash` from std feeds the number to the hasher. Nothing is
/// claimed of what the hasher holds afterwards.
pub assume_specification<H: std::hash::Hasher>[ <u64 as std::hash::Hash>::hash ](
    value: &u64,
    state: &mut H,
);

impl std::hash::Hash for ConditionId {
    /// Feeds the identifier, and nothing else, to the hasher, so that equal
    /// facts hash alike.
    fn hash<H: std::hash::Hasher>(&self, state: &mut H) {
        self.id.hash(state);
    }
}

impl vstd::std_specs::cmp::PartialEqSpecImpl for ConditionId {
    open spec fn obeys_eq_spec() -> bool {
        true
    }

    open spec fn eq_spec(&self, other: &Self) -> bool {
        self.fact() == other.fact()
    }
}

} // verus!
