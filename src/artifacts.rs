//! Artifact transfer: capability gates, an identity codec, an FNV-1a integrity check and
//! an in-memory transport.
use vstd::prelude::*;

use crate::frame::{lemma_name_pos, name_pos};
use crate::label::compare_text;

verus! {

#[derive(Debug, Clone, Copy, PartialEq, Eq, Hash, Structural)]
pub enum CxCapability {
    Spawn,
    Time,
    Random,
    Io,
    Remote,
}

#[derive(Debug, Clone, Copy, PartialEq, Eq, Structural)]
pub struct CapabilitySet {
    pub spawn: bool,
    pub time: bool,
    pub random: bool,
    pub io: bool,
    pub remote: bool,
}

/// `have` grants everything `need` asks for.
pub open spec fn grants(have: CapabilitySet, need: CapabilitySet) -> bool {
    &&& (need.spawn ==> have.spawn)
    &&& (need.time ==> have.time)
    &&& (need.random ==> have.random)
    &&& (need.io ==> have.io)
    &&& (need.remote ==> have.remote)
}

impl CapabilitySet {
    pub fn none() -> (r: CapabilitySet)
        ensures
            !r.spawn && !r.time && !r.random && !r.io && !r.remote,
    {
        CapabilitySet { spawn: false, time: false, random: false, io: false, remote: false }
    }

    pub fn all() -> (r: CapabilitySet)
        ensures
            r.spawn && r.time && r.random && r.io && r.remote,
    {
        CapabilitySet { spawn: true, time: true, random: true, io: true, remote: true }
    }

    /// The set holding `capability` alone.
    pub fn for_capability(capability: CxCapability) -> (r: CapabilitySet)
        ensures
            r.spawn == (capability == CxCapability::Spawn),
            r.time == (capability == CxCapability::Time),
            r.random == (capability == CxCapability::Random),
            r.io == (capability == CxCapability::Io),
            r.remote == (capability == CxCapability::Remote),
    {
        let none = CapabilitySet::none();
        match capability {
            CxCapability::Spawn => CapabilitySet { spawn: true, ..none },
            CxCapability::Time => CapabilitySet { time: true, ..none },
            CxCapability::Random => CapabilitySet { random: true, ..none },
            CxCapability::Io => CapabilitySet { io: true, ..none },
            CxCapability::Remote => CapabilitySet { remote: true, ..none },
        }
    }

    pub fn union(self, other: CapabilitySet) -> (r: CapabilitySet)
        ensures
            r.spawn == (self.spawn || other.spawn),
            r.time == (self.time || other.time),
            r.random == (self.random || other.random),
            r.io == (self.io || other.io),
            r.remote == (self.remote || other.remote),
    {
        CapabilitySet {
            spawn: self.spawn || other.spawn,
            time: self.time || other.time,
            random: self.random || other.random,
            io: self.io || other.io,
            remote: self.remote || other.remote,
        }
    }

    /// Whether this set grants every capability of `required`.
    pub fn satisfies(self, required: CapabilitySet) -> (r: bool)
        ensures
            r == grants(self, required),
    {
        (!required.spawn || self.spawn) && (!required.time || self.time) && (!required.random
            || self.random) && (!required.io || self.io) && (!required.remote || self.remote)
    }
}

impl Default for CapabilitySet {
    fn default() -> (r: CapabilitySet)
        ensures
            !r.spawn && !r.time && !r.random && !r.io && !r.remote,
    {
        CapabilitySet::none()
    }
}

/// A component that states the capabilities it needs.
pub trait RequiresCapabilities {
    fn required_capabilities(&self) -> CapabilitySet;
}

#[derive(Debug, Clone, PartialEq, Eq)]
pub struct AsupersyncConfig {
    pub max_decode_attempts: u32,
    pub max_repair_symbols: u32,
    pub max_transfer_ms: u64,
    pub capabilities: CapabilitySet,
}

impl Default for AsupersyncConfig {
    fn default() -> (r: AsupersyncConfig)
        ensures
            r.max_decode_attempts == 3,
            r.max_repair_symbols == 32,
            r.max_transfer_ms == 5000,
            r.capabilities == (CapabilitySet {
                spawn: true,
                time: true,
                random: true,
                io: true,
                remote: true,
            }),
    {
        AsupersyncConfig {
            max_decode_attempts: 3,
            max_repair_symbols: 32,
            max_transfer_ms: 5_000,
            capabilities: CapabilitySet::all(),
        }
    }
}

impl AsupersyncConfig {
    pub fn with_capabilities(self, capabilities: CapabilitySet) -> (r: AsupersyncConfig)
        ensures
            r == (AsupersyncConfig { capabilities, ..self }),
    {
        AsupersyncConfig { capabilities, ..self }
    }
}

#[derive(Debug, Clone, PartialEq, Eq)]
pub enum AsupersyncError {
    Configuration(&'static str),
    CapabilityDenied { required: CapabilitySet, available: CapabilitySet },
    ArtifactNotFound(String),
    IntegrityMismatch { artifact_id: String, expected: String, observed: String },
    Codec(String),
    Transport(String),
    RecoveryExhausted { artifact_id: String, attempts: u32 },
}

/// Fails unless the configuration grants every required capability.
pub fn validate_capability_gate(config: &AsupersyncConfig, required: CapabilitySet) -> (r: Result<
    (),
    AsupersyncError,
>)
    ensures
        grants(config.capabilities, required) ==> r is Ok,
        !grants(config.capabilities, required) ==> r == Err::<(), AsupersyncError>(
            AsupersyncError::CapabilityDenied { required, available: config.capabilities },
        ),
{
    if config.capabilities.satisfies(required) {
        Ok(())
    } else {
        Err(AsupersyncError::CapabilityDenied { required, available: config.capabilities })
    }
}

#[derive(Debug, Clone, PartialEq, Eq)]
pub struct ArtifactPayload {
    pub artifact_id: String,
    pub bytes: Vec<u8>,
    pub expected_digest: Option<String>,
}

#[derive(Debug, Clone, PartialEq, Eq)]
pub struct EncodedArtifact {
    pub artifact_id: String,
    pub source_len: usize,
    pub encoded_bytes: Vec<u8>,
    pub repair_symbols: u32,
}

/// Turns payloads into transferable artifacts and back.
pub trait ArtifactCodec {
    fn encode(&self, payload: &ArtifactPayload, config: &AsupersyncConfig) -> Result<
        EncodedArtifact,
        AsupersyncError,
    >;

    fn decode(&self, encoded: &EncodedArtifact, config: &AsupersyncConfig) -> Result<
        ArtifactPayload,
        AsupersyncError,
    >;
}

/// The identity codec: the bytes travel as they are.
#[derive(Debug, Clone, Copy, Default)]
pub struct PassthroughCodec;

impl PassthroughCodec {
    /// Wraps the bytes as they are; needs room for at least one repair symbol.
    pub fn encode_payload(&self, payload: &ArtifactPayload, config: &AsupersyncConfig) -> (r: Result<
        EncodedArtifact,
        AsupersyncError,
    >)
        ensures
            config.max_repair_symbols == 0 ==> r is Err,
            config.max_repair_symbols != 0 ==> (r matches Ok(e) && e.artifact_id@
                == payload.artifact_id@ && e.source_len == payload.bytes@.len() && e.encoded_bytes@
                == payload.bytes@ && e.repair_symbols == config.max_repair_symbols),
    {
        if config.max_repair_symbols == 0 {
            return Err(AsupersyncError::Configuration("max_repair_symbols must be greater than zero"));
        }
        Ok(
            EncodedArtifact {
                artifact_id: payload.artifact_id.clone(),
                source_len: payload.bytes.len(),
                encoded_bytes: payload.bytes.clone(),
                repair_symbols: config.max_repair_symbols,
            },
        )
    }

    /// The first `source_len` encoded bytes; fails when there are fewer.
    pub fn decode_artifact(&self, encoded: &EncodedArtifact) -> (r: Result<
        ArtifactPayload,
        AsupersyncError,
    >)
        ensures
            encoded.source_len > encoded.encoded_bytes@.len() ==> r is Err,
            encoded.source_len <= encoded.encoded_bytes@.len() ==> (r matches Ok(p)
                && p.artifact_id@ == encoded.artifact_id@ && p.bytes@
                == encoded.encoded_bytes@.take(encoded.source_len as int) && p.expected_digest
                is None),
    {
        if encoded.source_len > encoded.encoded_bytes.len() {
            return Err(AsupersyncError::Codec("source_len exceeds encoded payload length".to_string()));
        }
        let mut bytes: Vec<u8> = Vec::new();
        let mut i: usize = 0;
        while i < encoded.source_len
            invariant
                encoded.source_len <= encoded.encoded_bytes@.len(),
                i <= encoded.source_len,
                bytes@ == encoded.encoded_bytes@.take(i as int),
            decreases encoded.source_len - i,
        {
            bytes.push(encoded.encoded_bytes[i]);
            assert(bytes@ =~= encoded.encoded_bytes@.take(i + 1));
            i = i + 1;
        }
        Ok(
            ArtifactPayload {
                artifact_id: encoded.artifact_id.clone(),
                bytes,
                expected_digest: None,
            },
        )
    }
}

impl ArtifactCodec for PassthroughCodec {
    fn encode(&self, payload: &ArtifactPayload, config: &AsupersyncConfig) -> Result<
        EncodedArtifact,
        AsupersyncError,
    > {
        self.encode_payload(payload, config)
    }

    fn decode(&self, encoded: &EncodedArtifact, _config: &AsupersyncConfig) -> Result<
        ArtifactPayload,
        AsupersyncError,
    > {
        self.decode_artifact(encoded)
    }
}

#[derive(Debug, Clone, PartialEq, Eq)]
pub struct IntegrityProof {
    pub algorithm: String,
    pub expected_digest: String,
    pub observed_digest: String,
    pub verified: bool,
}

/// Checks bytes against an expected digest.
pub trait IntegrityVerifier {
    fn verify(&self, artifact_id: &str, bytes: &[u8], expected_digest: &str) -> Result<
        IntegrityProof,
        AsupersyncError,
    >;
}

pub const FNV_OFFSET: u64 = 0xcbf29ce484222325;

pub const FNV_PRIME: u64 = 0x100000001b3;

/// The 64-bit FNV-1a hash of the first `n` bytes.
pub open spec fn fnv1a(bytes: Seq<u8>, n: int) -> u64
    decreases n,
{
    if n <= 0 {
        FNV_OFFSET
    } else {
        (((fnv1a(bytes, n - 1) ^ (bytes[n - 1] as u64)) as int * FNV_PRIME as int) % 0x1_0000_0000_0000_0000) as u64
    }
}

/// The lowercase hexadecimal digit of `d`.
pub open spec fn hex_char(d: int) -> char {
    if d < 10 {
        ('0' as int + d) as char
    } else {
        ('a' as int + d - 10) as char
    }
}

/// The 16 lowercase hexadecimal digits of `h`, most significant first.
pub open spec fn hex16(h: u64) -> Seq<char> {
    Seq::new(16, |k: int| hex_char((h as int / pow16(15 - k)) % 16))
}

pub open spec fn pow16(e: int) -> int
    decreases e,
{
    if e <= 0 {
        1
    } else {
        16 * pow16(e - 1)
    }
}

fn hex_digit_text(d: u64) -> (r: &'static str)
    requires
        d < 16,
    ensures
        r@ == seq![hex_char(d as int)],
{
    proof {
        reveal_strlit("0");
        reveal_strlit("1");
        reveal_strlit("2");
        reveal_strlit("3");
        reveal_strlit("4");
        reveal_strlit("5");
        reveal_strlit("6");
        reveal_strlit("7");
        reveal_strlit("8");
        reveal_strlit("9");
        reveal_strlit("a");
        reveal_strlit("b");
        reveal_strlit("c");
        reveal_strlit("d");
        reveal_strlit("e");
        reveal_strlit("f");
    }
    let r = match d {
        0 => "0",
        1 => "1",
        2 => "2",
        3 => "3",
        4 => "4",
        5 => "5",
        6 => "6",
        7 => "7",
        8 => "8",
        9 => "9",
        10 => "a",
        11 => "b",
        12 => "c",
        13 => "d",
        14 => "e",
        _ => "f",
    };
    assert(r@ =~= seq![hex_char(d as int)]);
    r
}

/// The FNV-1a hash of `bytes` as 16 lowercase hexadecimal digits.
pub fn fnv1a_hex(bytes: &[u8]) -> (r: String)
    ensures
        r@ == hex16(fnv1a(bytes@, bytes@.len() as int)),
{
    let mut hash: u64 = FNV_OFFSET;
    let mut i: usize = 0;
    while i < bytes.len()
        invariant
            i <= bytes@.len(),
            hash == fnv1a(bytes@, i as int),
        decreases bytes@.len() - i,
    {
        let mixed = hash ^ (bytes[i] as u64);
        let wide: u128 = (mixed as u128) * (FNV_PRIME as u128);
        hash = (wide % 0x1_0000_0000_0000_0000) as u64;
        i = i + 1;
    }
    let mut out = String::new();
    let mut divisor: u64 = 0x1000_0000_0000_0000;
    let mut k: usize = 0;
    proof {
        reveal_with_fuel(pow16, 16);
        assert(pow16(15) == 0x1000_0000_0000_0000);
    }
    while k < 16
        invariant
            k <= 16,
            k < 16 ==> divisor as int == pow16(15 - k as int),
            k < 16 ==> divisor >= 1,
            out@ == hex16(hash).take(k as int),
        decreases 16 - k,
    {
        let d = (hash / divisor) % 16;
        out.append(hex_digit_text(d));
        assert(out@ =~= hex16(hash).take(k + 1));
        if k < 15 {
            assert(pow16(15 - k as int) == 16 * pow16(14 - k as int));
            divisor = divisor / 16;
        }
        k = k + 1;
    }
    assert(hex16(hash).take(16) =~= hex16(hash));
    out
}

/// Verifies bytes by their FNV-1a digest.
#[derive(Debug, Clone, Copy, Default)]
pub struct Fnv1aVerifier;

impl Fnv1aVerifier {
    /// A proof when the digest of `bytes` is `expected_digest`, a mismatch error otherwise.
    pub fn verify_digest(&self, artifact_id: &str, bytes: &[u8], expected_digest: &str) -> (r: Result<
        IntegrityProof,
        AsupersyncError,
    >)
        ensures
            hex16(fnv1a(bytes@, bytes@.len() as int)) == expected_digest@ ==> (r matches Ok(p)
                && p.verified && p.observed_digest@ == expected_digest@),
            hex16(fnv1a(bytes@, bytes@.len() as int)) != expected_digest@ ==> r is Err,
    {
        let observed = fnv1a_hex(bytes);
        if compare_text(observed.as_str(), expected_digest) != 0 {
            return Err(
                AsupersyncError::IntegrityMismatch {
                    artifact_id: artifact_id.to_string(),
                    expected: expected_digest.to_string(),
                    observed,
                },
            );
        }
        Ok(
            IntegrityProof {
                algorithm: "fnv1a64".to_string(),
                expected_digest: expected_digest.to_string(),
                observed_digest: observed,
                verified: true,
            },
        )
    }
}

impl IntegrityVerifier for Fnv1aVerifier {
    fn verify(&self, artifact_id: &str, bytes: &[u8], expected_digest: &str) -> Result<
        IntegrityProof,
        AsupersyncError,
    > {
        self.verify_digest(artifact_id, bytes, expected_digest)
    }
}

#[derive(Debug, Clone, Copy, PartialEq, Eq, Structural)]
pub enum TransferStatus {
    Completed,
    RetryableFailure,
    PermanentFailure,
}

#[derive(Debug, Clone, PartialEq, Eq)]
pub struct TransferReport {
    pub artifact_id: String,
    pub bytes_transferred: usize,
    pub status: TransferStatus,
    pub detail: String,
}

/// Moves encoded artifacts between places.
pub trait TransportLayer {
    fn send(&mut self, artifact: EncodedArtifact, config: &AsupersyncConfig) -> Result<
        TransferReport,
        AsupersyncError,
    >;

    fn receive(&self, artifact_id: &str, config: &AsupersyncConfig) -> Result<
        EncodedArtifact,
        AsupersyncError,
    >;
}

/// A transport that keeps artifacts in memory, one per id.
#[derive(Debug, Clone, Default)]
pub struct InMemoryTransport {
    storage: Vec<EncodedArtifact>,
}

/// The stored artifacts keyed by id.
pub open spec fn by_id(s: Seq<EncodedArtifact>) -> Seq<(Seq<char>, EncodedArtifact)> {
    s.map_values(|a: EncodedArtifact| (a.artifact_id@, a))
}

/// The artifacts after storing `a`: in place of the first one with its id, else appended.
pub open spec fn stored_after(s: Seq<EncodedArtifact>, a: EncodedArtifact) -> Seq<EncodedArtifact> {
    let p = name_pos(by_id(s), a.artifact_id@);
    if p >= 0 {
        s.update(p, a)
    } else {
        s.push(a)
    }
}

/// The capabilities a transport needs: I/O and remote access.
pub open spec fn transport_needs() -> CapabilitySet {
    CapabilitySet { spawn: false, time: false, random: false, io: true, remote: true }
}

impl InMemoryTransport {
    pub fn new() -> (r: InMemoryTransport)
        ensures
            r.stored()@.len() == 0,
    {
        InMemoryTransport { storage: Vec::new() }
    }

    pub closed spec fn stored(&self) -> Vec<EncodedArtifact> {
        self.storage
    }

    /// The ids stored, each once.
    pub closed spec fn ids(&self) -> Seq<Seq<char>> {
        self.storage@.map_values(|a: EncodedArtifact| a.artifact_id@)
    }

    fn slot_of(&self, artifact_id: &str) -> (r: Option<usize>)
        ensures
            match r {
                Some(i) => i < self.storage@.len() && self.storage@[i as int].artifact_id@ == artifact_id@
                    && i as int == name_pos(by_id(self.storage@), artifact_id@),
                None => (forall|i: int| 0 <= i < self.storage@.len() ==> (#[trigger] self.storage@[i]).artifact_id@ != artifact_id@)
                    && name_pos(by_id(self.storage@), artifact_id@) == -1,
            },
    {
        proof {
            lemma_name_pos(by_id(self.storage@), artifact_id@);
            let p = name_pos(by_id(self.storage@), artifact_id@);
            if p >= 0 {
                assert(by_id(self.storage@)[p].0 == self.storage@[p].artifact_id@);
            }
        }
        let mut i: usize = 0;
        while i < self.storage.len()
            invariant
                i <= self.storage@.len(),
                forall|j: int| 0 <= j < i ==> (#[trigger] self.storage@[j]).artifact_id@ != artifact_id@,
            decreases self.storage@.len() - i,
        {
            if compare_text(self.storage[i].artifact_id.as_str(), artifact_id) == 0 {
                proof {
                    lemma_name_pos(by_id(self.storage@), artifact_id@);
                    let p = name_pos(by_id(self.storage@), artifact_id@);
                    assert(by_id(self.storage@)[i as int].0 == artifact_id@);
                    if p >= 0 && p < i {
                        assert(by_id(self.storage@)[p].0 == self.storage@[p].artifact_id@);
                    }
                }
                return Some(i);
            }
            i = i + 1;
        }
        proof {
            let p = name_pos(by_id(self.storage@), artifact_id@);
            if p >= 0 {
                assert(by_id(self.storage@)[p].0 == self.storage@[p].artifact_id@);
            }
        }
        None
    }

    /// Stores the artifact, replacing one with the same id.
    pub fn store(&mut self, artifact: EncodedArtifact, config: &AsupersyncConfig) -> (r: Result<
        TransferReport,
        AsupersyncError,
    >)
        ensures
            !grants(config.capabilities, transport_needs()) ==> r is Err && final(self).stored()@ == old(self).stored()@,
            grants(config.capabilities, transport_needs()) ==> (r matches Ok(rep) && rep.artifact_id@
                == artifact.artifact_id@ && rep.bytes_transferred == artifact.encoded_bytes@.len()
                && rep.status == TransferStatus::Completed && final(self).stored()@ == stored_after(
                old(self).stored()@,
                artifact,
            )),
    {
        match validate_capability_gate(config, self.required_capabilities()) {
            Ok(()) => {},
            Err(e) => {
                return Err(e);
            },
        }
        let bytes_transferred = artifact.encoded_bytes.len();
        let artifact_id = artifact.artifact_id.clone();
        match self.slot_of(artifact_id.as_str()) {
            Some(i) => {
                self.storage.set(i, artifact);
            },
            None => {
                self.storage.push(artifact);
            },
        }
        Ok(
            TransferReport {
                artifact_id,
                bytes_transferred,
                status: TransferStatus::Completed,
                detail: "stored in in-memory transport".to_string(),
            },
        )
    }

    /// A copy of the artifact stored under `artifact_id`.
    pub fn fetch(&self, artifact_id: &str, config: &AsupersyncConfig) -> (r: Result<
        EncodedArtifact,
        AsupersyncError,
    >)
        ensures
            !grants(config.capabilities, transport_needs()) ==> r is Err,
            r matches Ok(a) ==> {
                let p = name_pos(by_id(self.stored()@), artifact_id@);
                &&& 0 <= p < self.stored()@.len()
                &&& a.artifact_id@ == artifact_id@
                &&& a.source_len == self.stored()@[p].source_len
                &&& a.encoded_bytes@ == self.stored()@[p].encoded_bytes@
                &&& a.repair_symbols == self.stored()@[p].repair_symbols
            },
            grants(config.capabilities, transport_needs()) && name_pos(by_id(self.stored()@), artifact_id@)
                >= 0 ==> r is Ok,
            grants(config.capabilities, transport_needs()) && (forall|i: int|
                0 <= i < self.stored()@.len() ==> (#[trigger] self.stored()@[i]).artifact_id@
                    != artifact_id@) ==> r matches Err(AsupersyncError::ArtifactNotFound(_)),
    {
        match validate_capability_gate(config, self.required_capabilities()) {
            Ok(()) => {},
            Err(e) => {
                return Err(e);
            },
        }
        match self.slot_of(artifact_id) {
            Some(i) => {
                assert(self.stored()@[i as int] == self.storage@[i as int]);
                let a = &self.storage[i];
                Ok(
                    EncodedArtifact {
                        artifact_id: a.artifact_id.clone(),
                        source_len: a.source_len,
                        encoded_bytes: a.encoded_bytes.clone(),
                        repair_symbols: a.repair_symbols,
                    },
                )
            },
            None => {
                proof {
                    assert forall|i: int| 0 <= i < self.stored()@.len() implies (
                    #[trigger] self.stored()@[i]).artifact_id@ != artifact_id@ by {
                        assert(self.stored()@[i] == self.storage@[i]);
                    }
                }
                Err(AsupersyncError::ArtifactNotFound(artifact_id.to_string()))
            },
        }
    }
}

impl RequiresCapabilities for InMemoryTransport {
    fn required_capabilities(&self) -> (r: CapabilitySet)
        ensures
            r == transport_needs(),
    {
        CapabilitySet::for_capability(CxCapability::Io).union(
            CapabilitySet::for_capability(CxCapability::Remote),
        )
    }
}

impl TransportLayer for InMemoryTransport {
    fn send(&mut self, artifact: EncodedArtifact, config: &AsupersyncConfig) -> Result<
        TransferReport,
        AsupersyncError,
    > {
        self.store(artifact, config)
    }

    fn receive(&self, artifact_id: &str, config: &AsupersyncConfig) -> Result<
        EncodedArtifact,
        AsupersyncError,
    > {
        self.fetch(artifact_id, config)
    }
}

} // verus!
