//! The bridge's configuration, decided from already-parsed command line
//! option values: exactly one free argument names the console's program
//! file, the API token is required, and the webhook port falls back to zero
//! — longpoll mode — whenever it does not read as a decimal port number.

use vstd::prelude::*;

verus! {

pub const PLUS: u8 = 43;

pub struct Config {
    pub token: String,
    pub proxy: Option<String>,
    pub webhook: u16,
    pub file: String,
}

/// Why a configuration was refused; the caller renders the wording.
#[derive(Debug)]
pub enum ConfigError {
    /// No free argument named the server file.
    ServerFileMissing,
    /// More than one free argument was given; the extra ones are carried.
    UnrecognizedArguments(Vec<String>),
    /// The help flag was set; the caller prints its usage text.
    HelpRequested,
    /// The API token option was not set.
    TokenMissing,
}

pub open spec fn all_digits(s: Seq<u8>) -> bool {
    forall|i: int| 0 <= i < s.len() ==> 48 <= #[trigger] s[i] <= 57
}

/// The number a row of decimal digits denotes.
pub open spec fn digits_value(s: Seq<u8>) -> int
    decreases s.len(),
{
    if s.len() == 0 {
        0
    } else {
        digits_value(s.drop_last()) * 10 + s.last() - 48
    }
}

/// An optional leading plus sign dropped.
pub open spec fn unsigned_body(s: Seq<u8>) -> Seq<u8> {
    if s.len() > 0 && s[0] == PLUS {
        s.drop_first()
    } else {
        s
    }
}

/// What a port option string parses to: its decimal value when it is an
/// optionally plus-signed row of digits that fits a `u16`, and zero — the
/// longpoll fallback — otherwise.
pub open spec fn parse_u16(s: Seq<u8>) -> u16 {
    let b = unsigned_body(s);
    if b.len() > 0 && all_digits(b) && 0 <= digits_value(b) <= 65535 {
        digits_value(b) as u16
    } else {
        0
    }
}

/// The webhook port an absent or present option stands for.
pub open spec fn port_of(webhook_port: Option<Vec<u8>>) -> u16 {
    match webhook_port {
        None => 0u16,
        Some(p) => parse_u16(p@),
    }
}

/// A digit row's value never shrinks when digits are appended.
pub proof fn lemma_digits_take_le(s: Seq<u8>, k: int)
    requires
        all_digits(s),
        0 <= k <= s.len(),
    ensures
        0 <= digits_value(s.take(k)) <= digits_value(s),
    decreases s.len() - k,
{
    if k == s.len() {
        assert(s.take(k) =~= s);
        lemma_digits_nonneg(s);
    } else {
        lemma_digits_take_le(s, k + 1);
        assert(s.take(k + 1).drop_last() =~= s.take(k));
        assert(s.take(k + 1).last() == s[k]);
        lemma_digits_nonneg(s.take(k));
    }
}

pub proof fn lemma_digits_nonneg(s: Seq<u8>)
    requires
        all_digits(s),
    ensures
        digits_value(s) >= 0,
    decreases s.len(),
{
    if s.len() > 0 {
        assert(all_digits(s.drop_last()));
        lemma_digits_nonneg(s.drop_last());
    }
}

/// Parses a port option's bytes as `parse_u16` says.
pub fn parse_port(s: &[u8]) -> (p: u16)
    ensures
        p == parse_u16(s@),
{
    let body: &[u8] = if s.len() > 0 && s[0] == PLUS {
        vstd::slice::slice_subrange(s, 1, s.len())
    } else {
        s
    };
    proof {
        assert(body@ =~= unsigned_body(s@));
    }
    if body.len() == 0 {
        return 0;
    }
    let ghost b = body@;
    let mut val: u32 = 0;
    let mut i: usize = 0;
    while i < body.len()
        invariant
            i <= body.len(),
            b == body@,
            b == unsigned_body(s@),
            b.len() > 0,
            all_digits(b.take(i as int)),
            val == digits_value(b.take(i as int)),
            val <= 65535,
        decreases body.len() - i,
    {
        let d = body[i];
        if d < 48 || d > 57 {
            proof {
                assert(!all_digits(b));
            }
            return 0;
        }
        proof {
            assert(b.take(i + 1).drop_last() =~= b.take(i as int));
            assert(b.take(i + 1).last() == b[i as int]);
            assert(all_digits(b.take(i + 1)));
        }
        let nv = val * 10 + (d - 48) as u32;
        if nv > 65535 {
            proof {
                if all_digits(b) {
                    lemma_digits_take_le(b, i + 1);
                }
            }
            return 0;
        }
        val = nv;
        i += 1;
    }
    proof {
        assert(b.take(b.len() as int) =~= b);
    }
    val as u16
}

impl Config {
    /// Decides the configuration from parsed option values. Exactly one
    /// free argument must name the server file — none refuses with
    /// `ServerFileMissing`, several with `UnrecognizedArguments` carrying
    /// the extras — then a set help flag wins, then a missing token
    /// refuses, and otherwise the configuration is returned with the
    /// webhook port read as `port_of` says.
    pub fn parse(
        free: Vec<String>,
        help_requested: bool,
        token: Option<String>,
        proxy: Option<String>,
        webhook_port: Option<Vec<u8>>,
    ) -> (r: Result<Config, ConfigError>)
        ensures
            free@.len() == 0 ==> (r matches Err(ConfigError::ServerFileMissing)),
            free@.len() > 1 ==> (r matches Err(ConfigError::UnrecognizedArguments(extra))
                && extra@ == free@.skip(1)),
            free@.len() == 1 && help_requested ==> (r matches Err(ConfigError::HelpRequested)),
            free@.len() == 1 && !help_requested && token is None ==> (r matches Err(
                ConfigError::TokenMissing,
            )),
            free@.len() == 1 && !help_requested ==> (token matches Some(t) ==> (r matches Ok(c)
                && c.token == t && c.proxy == proxy && c.file == free@[0] && c.webhook == port_of(
                webhook_port,
            ))),
    {
        let mut free = free;
        if free.len() == 0 {
            return Err(ConfigError::ServerFileMissing);
        }
        if free.len() > 1 {
            let ghost whole = free@;
            let mut extra: Vec<String> = Vec::new();
            let mut i: usize = 1;
            while i < free.len()
                invariant
                    1 <= i <= free@.len(),
                    free@ == whole,
                    extra@ =~= whole.subrange(1, i as int),
                decreases free@.len() - i,
            {
                let s = free[i].clone();
                extra.push(s);
                proof {
                    assert(extra@ =~= whole.subrange(1, i + 1));
                }
                i += 1;
            }
            proof {
                assert(extra@ =~= whole.skip(1));
            }
            return Err(ConfigError::UnrecognizedArguments(extra));
        }
        if help_requested {
            return Err(ConfigError::HelpRequested);
        }
        let token = match token {
            Some(t) => t,
            None => {
                return Err(ConfigError::TokenMissing);
            },
        };
        let webhook = match &webhook_port {
            Some(p) => parse_port(p.as_slice()),
            None => 0,
        };
        let file = free.pop().unwrap();
        Ok(Config { token, proxy, webhook, file })
    }
}

} // verus!
