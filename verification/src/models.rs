//! Shared data model: Argon2id cost parameters, the encrypted blob layout and
//! the library's error type.

use vstd::prelude::*;

verus! {

/// Lowest memory cost (KiB) accepted by `ArgonParams::validate`.
pub const MIN_MEMORY_KIB: u32 = 8192;

/// Highest parallelism accepted by `ArgonParams::validate`.
pub const MAX_PARALLELISM: u32 = 16;

/// Argon2id cost parameters.
#[derive(Debug, Clone, Copy, PartialEq, Eq, Structural)]
pub struct ArgonParams {
    /// Memory in KiB.
    pub memory_kib: u32,
    /// Number of passes.
    pub iterations: u32,
    /// Degree of parallelism.
    pub parallelism: u32,
}

/// Reason why hand-entered Argon2 parameters were refused.
#[derive(Debug, Clone, Copy, PartialEq, Eq, Structural)]
pub enum ParamsError {
    MemoryTooSmall,
    TooFewIterations,
    ParallelismOutOfRange,
}

impl ParamsError {
    /// The user-facing message for this refusal.
    pub fn message(&self) -> (s: String)
        ensures
            s@ == self.spec_message(),
    {
        match self {
            ParamsError::MemoryTooSmall => String::from_str("Minimum memory is 8 MB"),
            ParamsError::TooFewIterations => String::from_str("Minimum iterations is 1"),
            ParamsError::ParallelismOutOfRange => String::from_str(
                "Parallelism must be between 1 and 16",
            ),
        }
    }

    pub open spec fn spec_message(&self) -> Seq<char> {
        match self {
            ParamsError::MemoryTooSmall => "Minimum memory is 8 MB"@,
            ParamsError::TooFewIterations => "Minimum iterations is 1"@,
            ParamsError::ParallelismOutOfRange => "Parallelism must be between 1 and 16"@,
        }
    }
}

impl ArgonParams {
    /// Preset for slower devices.
    pub fn fast() -> (p: Self)
        ensures
            p == (ArgonParams { memory_kib: 19456, iterations: 2, parallelism: 1 }),
    {
        ArgonParams { memory_kib: 19456, iterations: 2, parallelism: 1 }
    }

    /// Balanced preset (the default).
    pub fn balanced() -> (p: Self)
        ensures
            p == (ArgonParams { memory_kib: 65536, iterations: 3, parallelism: 4 }),
    {
        ArgonParams { memory_kib: 65536, iterations: 3, parallelism: 4 }
    }

    /// Strong preset.
    pub fn strong() -> (p: Self)
        ensures
            p == (ArgonParams { memory_kib: 262144, iterations: 4, parallelism: 4 }),
    {
        ArgonParams { memory_kib: 262144, iterations: 4, parallelism: 4 }
    }

    /// Maximum preset.
    pub fn maximum() -> (p: Self)
        ensures
            p == (ArgonParams { memory_kib: 1048576, iterations: 6, parallelism: 4 }),
    {
        ArgonParams { memory_kib: 1048576, iterations: 6, parallelism: 4 }
    }

    /// The first rule that `self` breaks, checked in the order memory,
    /// iterations, parallelism; `None` when all hold.
    pub open spec fn spec_validate(&self) -> Option<ParamsError> {
        if self.memory_kib < MIN_MEMORY_KIB {
            Some(ParamsError::MemoryTooSmall)
        } else if self.iterations < 1 {
            Some(ParamsError::TooFewIterations)
        } else if self.parallelism < 1 || self.parallelism > MAX_PARALLELISM {
            Some(ParamsError::ParallelismOutOfRange)
        } else {
            None
        }
    }

    /// Checks hand-entered values: at least 8 MiB of memory, at least one
    /// iteration and a parallelism between 1 and 16.
    pub fn validate(&self) -> (r: Result<(), ParamsError>)
        ensures
            match self.spec_validate() {
                Some(e) => r == Err::<(), ParamsError>(e),
                None => r is Ok,
            },
    {
        if self.memory_kib < MIN_MEMORY_KIB {
            return Err(ParamsError::MemoryTooSmall);
        }
        if self.iterations < 1 {
            return Err(ParamsError::TooFewIterations);
        }
        if self.parallelism < 1 || self.parallelism > MAX_PARALLELISM {
            return Err(ParamsError::ParallelismOutOfRange);
        }
        Ok(())
    }
}

/// Length of the KDF salt.
pub const SALT_LEN: usize = 32;

/// Length of the AEAD nonce.
pub const NONCE_LEN: usize = 12;

/// Length of the header of a serialised `EncryptedFile` (salt then nonce).
pub const BLOB_HEADER_LEN: usize = 44;

/// An encrypted blob: KDF salt, AEAD nonce and ciphertext (with its tag).
#[derive(Debug)]
pub struct EncryptedFile {
    pub salt: [u8; 32],
    pub nonce: [u8; 12],
    pub ciphertext: Vec<u8>,
}

impl EncryptedFile {
    /// The byte layout `[32 salt][12 nonce][ciphertext]`.
    pub open spec fn spec_bytes(&self) -> Seq<u8> {
        self.salt@ + self.nonce@ + self.ciphertext@
    }

    /// Reading serialised bytes back gives the same blob: they are long
    /// enough for `from_bytes`, and its salt, nonce and ciphertext are where
    /// `from_bytes` takes them from.
    pub proof fn lemma_bytes_round_trip(&self)
        ensures
            self.spec_bytes().len() >= BLOB_HEADER_LEN,
            self.spec_bytes().subrange(0, 32) == self.salt@,
            self.spec_bytes().subrange(32, 44) == self.nonce@,
            self.spec_bytes().subrange(44, self.spec_bytes().len() as int) == self.ciphertext@,
    {
        let b = self.spec_bytes();
        assert(b.subrange(0, 32) =~= self.salt@);
        assert(b.subrange(32, 44) =~= self.nonce@);
        assert(b.subrange(44, b.len() as int) =~= self.ciphertext@);
    }

    /// Serialises to `[32 salt][12 nonce][ciphertext]`.
    pub fn to_bytes(&self) -> (out: Vec<u8>)
        ensures
            out@ == self.spec_bytes(),
    {
        let mut out: Vec<u8> = Vec::new();
        let mut i: usize = 0;
        while i < 32
            invariant
                i <= 32,
                out@ == self.salt@.subrange(0, i as int),
            decreases 32 - i,
        {
            out.push(self.salt[i]);
            i = i + 1;
        }
        assert(out@ == self.salt@);
        let mut j: usize = 0;
        while j < 12
            invariant
                j <= 12,
                out@ == self.salt@ + self.nonce@.subrange(0, j as int),
            decreases 12 - j,
        {
            out.push(self.nonce[j]);
            j = j + 1;
        }
        assert(self.nonce@.subrange(0, 12) == self.nonce@);
        let mut k: usize = 0;
        while k < self.ciphertext.len()
            invariant
                k <= self.ciphertext@.len(),
                out@ == self.salt@ + self.nonce@ + self.ciphertext@.subrange(0, k as int),
            decreases self.ciphertext@.len() - k,
        {
            out.push(self.ciphertext[k]);
            k = k + 1;
        }
        assert(self.ciphertext@.subrange(0, self.ciphertext@.len() as int) == self.ciphertext@);
        out
    }

    /// Parses `[32 salt][12 nonce][ciphertext]`; fails with `Format` when
    /// fewer than 44 bytes are given.
    pub fn from_bytes(data: &[u8]) -> (r: Result<Self, RuneError>)
        ensures
            data@.len() < BLOB_HEADER_LEN <==> r is Err,
            r is Err ==> r == Err::<Self, RuneError>(RuneError::Format),
            r matches Ok(e) ==> e.ciphertext@.len() + BLOB_HEADER_LEN <= usize::MAX,
            r matches Ok(e) ==> e.spec_bytes() == data@ && e.salt@ == data@.subrange(0, 32)
                && e.nonce@ == data@.subrange(32, 44) && e.ciphertext@ == data@.subrange(
                44,
                data@.len() as int,
            ),
    {
        if data.len() < BLOB_HEADER_LEN {
            return Err(RuneError::Format);
        }
        let mut salt = [0u8; 32];
        let mut i: usize = 0;
        while i < 32
            invariant
                i <= 32,
                data@.len() >= 44,
                forall|t: int| 0 <= t < i ==> salt@[t] == data@[t],
            decreases 32 - i,
        {
            salt[i] = data[i];
            i = i + 1;
        }
        let mut nonce = [0u8; 12];
        let mut j: usize = 0;
        while j < 12
            invariant
                j <= 12,
                data@.len() >= 44,
                forall|t: int| 0 <= t < j ==> nonce@[t] == data@[32 + t],
            decreases 12 - j,
        {
            nonce[j] = data[32 + j];
            j = j + 1;
        }
        let mut ciphertext: Vec<u8> = Vec::new();
        let mut k: usize = 44;
        while k < data.len()
            invariant
                44 <= k <= data@.len(),
                ciphertext@ == data@.subrange(44, k as int),
            decreases data@.len() - k,
        {
            ciphertext.push(data[k]);
            k = k + 1;
        }
        let e = EncryptedFile { salt, nonce, ciphertext };
        assert(e.salt@ =~= data@.subrange(0, 32));
        assert(e.nonce@ =~= data@.subrange(32, 44));
        assert(e.spec_bytes() =~= data@);
        Ok(e)
    }
}

/// Errors of the cryptographic and vault layer. They are deliberately
/// coarse: `Crypto` covers both a failed key derivation and a failed
/// decryption, so that a wrong password and damaged data look alike.
#[derive(Debug, Clone, Copy, PartialEq, Eq, Structural)]
pub enum RuneError {
    Crypto,
    Format,
    DataDir,
    Io,
    Serde,
}

/// Vault metadata (kept encrypted inside `vault.rune`).
#[derive(Debug, Clone, Copy, PartialEq, Eq, Structural)]
pub struct VaultMeta {
    pub version: u8,
    pub created_at: u64,
    pub has_duress: bool,
    pub argon_params: ArgonParams,
}

} // verus!
