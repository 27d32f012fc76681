//! Password hashing with Argon2id (version 0x13), as scripts call it: the
//! memory is given in mebibytes, and parameters that argon2 refuses are
//! replaced by its defaults.
use vstd::prelude::*;

verus! {

/// argon2's smallest memory cost, in kibibytes (two blocks per slice).
pub const MIN_M_COST: u32 = 8;

/// argon2's largest degree of parallelism.
pub const MAX_P_COST: u32 = 0xFF_FFFF;

/// argon2's shortest and longest outputs, and longest password and salt.
pub const MIN_OUTPUT_LEN: usize = 4;

/// The longest output argon2 produces, in bytes.
pub const MAX_OUTPUT_LEN: usize = 0xFFFF_FFFF;

/// The longest password argon2 takes, in bytes.
pub const MAX_PWD_LEN: usize = 0xFFFF_FFFF;

/// The shortest salt argon2 takes, in bytes.
pub const MIN_SALT_LEN: usize = 8;

/// The longest salt argon2 takes, in bytes.
pub const MAX_SALT_LEN: usize = 0xFFFF_FFFF;

/// argon2's default parameters: 19 MiB, 2 passes, one lane.
pub const DEFAULT_M_COST: u32 = 19456;

/// argon2's default number of passes.
pub const DEFAULT_T_COST: u32 = 2;

/// argon2's default number of lanes.
pub const DEFAULT_P_COST: u32 = 1;

/// Whether `argon2::Params::new` accepts these parameters: at least 8 KiB
/// and 8 KiB per lane, at least one pass, between 1 and `2^24 - 1` lanes,
/// and an output between 4 bytes and `2^32 - 1` bytes.
pub open spec fn params_accepted(m_cost: u32, t_cost: u32, p_cost: u32, output_len: usize) -> bool {
    &&& m_cost >= MIN_M_COST
    &&& m_cost >= 8 * p_cost
    &&& t_cost >= 1
    &&& 1 <= p_cost <= MAX_P_COST
    &&& MIN_OUTPUT_LEN <= output_len <= MAX_OUTPUT_LEN
}

/// Whether `argon2::Params::new` can be called without overflow: it
/// multiplies the lanes by 8 once the memory is at least 8 KiB.
pub open spec fn params_callable(m_cost: u32, p_cost: u32) -> bool {
    m_cost < MIN_M_COST || p_cost <= u32::MAX / 8
}

/// The Argon2id (version 0x13) hash of `pwd` with `salt`, `out_len` bytes
/// long, with memory `m_cost` KiB, `t_cost` passes and `p_cost` lanes, no
/// secret and no associated data.
pub uninterp spec fn argon2id(m_cost: u32, t_cost: u32, p_cost: u32, pwd: Seq<u8>, salt: Seq<u8>, out_len: usize) -> Seq<u8>;

/// Calls `argon2::Params::new` with an output length and tells whether it
/// accepts the parameters; trusted to accept exactly `params_accepted`
/// (read from the checks in `Params::new`).
#[verifier::external_body]
fn params_new_accepts(m_cost: u32, t_cost: u32, p_cost: u32, output_len: usize) -> (r: bool)
    requires
        params_callable(m_cost, p_cost),
    ensures
        r == params_accepted(m_cost, t_cost, p_cost, output_len),
{
    argon2::Params::new(m_cost, t_cost, p_cost, Some(output_len)).is_ok()
}

/// Calls `Argon2::hash_password_into` for Argon2id, version 0x13, with the
/// parameters built by `Params::new(m_cost, t_cost, p_cost, output_len)`.
/// Trusted: the call succeeds exactly when the output length is within the
/// parameters' output length (4 to `2^32 - 1` bytes when none is given),
/// the password is at most `2^32 - 1` bytes and the salt between 8 and
/// `2^32 - 1` bytes (the checks in `hash_password_into_with_memory` and
/// `verify_inputs`); its output is `argon2id` of the arguments, in the
/// `out_len` bytes allocated for it. That the
/// memory for the blocks can be allocated is not stated.
#[verifier::external_body]
fn argon2id_hash_into(m_cost: u32, t_cost: u32, p_cost: u32, output_len: Option<usize>, pwd: &[u8], salt: &[u8], out_len: usize) -> (r: Option<Vec<u8>>)
    requires
        params_callable(m_cost, p_cost),
        match output_len {
            Some(l) => params_accepted(m_cost, t_cost, p_cost, l),
            None => params_accepted(m_cost, t_cost, p_cost, MIN_OUTPUT_LEN),
        },
    ensures
        r is Some <==> ({
            &&& match output_len {
                Some(l) => out_len == l,
                None => MIN_OUTPUT_LEN <= out_len <= MAX_OUTPUT_LEN,
            }
            &&& pwd@.len() <= MAX_PWD_LEN
            &&& MIN_SALT_LEN <= salt@.len() <= MAX_SALT_LEN
        }),
        r matches Some(v) ==> v@ == argon2id(m_cost, t_cost, p_cost, pwd@, salt@, out_len) && v@.len() == out_len,
{
    let params = match argon2::Params::new(m_cost, t_cost, p_cost, output_len) {
        Ok(p) => p,
        Err(_) => return None,
    };
    let hasher = argon2::Argon2::new(argon2::Algorithm::Argon2id, argon2::Version::V0x13, params);
    let mut out = vec![0u8; out_len];
    match hasher.hash_password_into(pwd, salt, &mut out) {
        Ok(()) => Some(out),
        Err(_) => None,
    }
}

/// The parameters a hash runs with: those given (memory in KiB) when argon2
/// accepts them, else its defaults.
pub open spec fn effective_params(memory_usage_mb: u32, iterations: u32, parallelism: u32, output_length: u32) -> (u32, u32, u32) {
    if params_accepted((memory_usage_mb * 1024) as u32, iterations, parallelism, output_length as usize) {
        ((memory_usage_mb * 1024) as u32, iterations, parallelism)
    } else {
        (DEFAULT_M_COST, DEFAULT_T_COST, DEFAULT_P_COST)
    }
}

/// Hashes `input` with `salt` using Argon2id: `output_length` bytes, with
/// `memory_usage_mb` MiB, `iterations` passes and `parallelism` lanes, or
/// argon2's defaults when it refuses those. The cases in which the hashing
/// fails (and the script's class panics) are left out by `requires`: an
/// output shorter than 4 bytes, a salt shorter than 8 bytes, overlong input
/// or salt, and memory that overflows a `u32` of KiB.
pub fn hash(memory_usage_mb: u32, iterations: u32, parallelism: u32, input: &[u8], salt: &[u8], output_length: u32) -> (r: Vec<u8>)
    requires
        memory_usage_mb <= u32::MAX / 1024,
        memory_usage_mb == 0 || parallelism <= u32::MAX / 8,
        output_length >= MIN_OUTPUT_LEN,
        input@.len() <= MAX_PWD_LEN,
        MIN_SALT_LEN <= salt@.len() <= MAX_SALT_LEN,
    ensures
        ({
            let (m, t, p) = effective_params(memory_usage_mb, iterations, parallelism, output_length);
            r@ == argon2id(m, t, p, input@, salt@, output_length as usize)
        }),
        r@.len() == output_length,
{
    let m_cost = memory_usage_mb * 1024;
    let len = output_length as usize;
    let accepted = params_new_accepts(m_cost, iterations, parallelism, len);
    let out = if accepted {
        argon2id_hash_into(m_cost, iterations, parallelism, Some(len), input, salt, len)
    } else {
        argon2id_hash_into(DEFAULT_M_COST, DEFAULT_T_COST, DEFAULT_P_COST, None, input, salt, len)
    };
    match out {
        Some(v) => v,
        None => {
            assert(false);
            Vec::new()
        },
    }
}

} // verus!
