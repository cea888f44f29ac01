//! Targets of a measurement: an address of one of the two families, taken from
//! a numeric literal, and a port. Names are never looked up: a text that is
//! not a literal of the chosen family is refused.

use crate::ipv4::{ipv4_literal, lemma_ipv4_characters, parse_ipv4};
use crate::ipv6::{ipv6_literal, lemma_ipv6_characters, parse_ipv6};
use vstd::prelude::*;

verus! {

/// The two address families.
#[derive(Clone, Copy, Debug, PartialEq, Eq, Structural)]
pub enum Family {
    V4,
    V6,
}

/// An address, held as the number that its bits make up, the first octet or
/// group the most significant.
#[derive(Clone, Copy, Debug, PartialEq, Eq, Structural)]
pub enum IpAddress {
    V4(u32),
    V6(u128),
}

/// Where connections are opened to.
#[derive(Clone, Copy, Debug, PartialEq, Eq, Structural)]
pub struct Target {
    pub address: IpAddress,
    pub port: u16,
}

/// Why a configuration cannot be run.
#[derive(Debug, PartialEq, Eq)]
pub enum ConfigError {
    /// The host text is no literal of the family asked for.
    InvalidAddress { host: String, family: Family },
    /// The port text is no number from 0 to 65535.
    InvalidPort { text: String },
    /// An option that takes a value stands last.
    MissingValue { option: String },
    /// The argument list is too short to name a target.
    TooFewArguments,
    /// No trial was asked for, so there is nothing to average.
    ZeroCount,
}

/// What a measurement is configured with.
#[derive(Debug)]
pub struct Cli {
    /// Whether the host is an IPv6 literal; an IPv4 literal otherwise.
    pub v6: bool,
    /// The address literal of the host.
    pub host: String,
    /// The port to connect to.
    pub port: u16,
    /// Seconds to wait between two trials.
    pub interval: u64,
    /// The number of trials.
    pub count: u32,
}

impl IpAddress {
    /// The family that the address belongs to.
    pub open spec fn spec_family(self) -> Family {
        match self {
            IpAddress::V4(_) => Family::V4,
            IpAddress::V6(_) => Family::V6,
        }
    }

    /// The family that the address belongs to.
    #[verifier::when_used_as_spec(spec_family)]
    pub fn family(self) -> (r: Family)
        ensures
            r == self.spec_family(),
    {
        match self {
            IpAddress::V4(_) => Family::V4,
            IpAddress::V6(_) => Family::V6,
        }
    }
}

impl ConfigError {
    /// What is said of the error, in short.
    pub open spec fn spec_message(&self) -> Seq<char> {
        match self {
            ConfigError::InvalidAddress { family: Family::V4, .. } => "Parse IPv4 address failed."@,
            ConfigError::InvalidAddress { family: Family::V6, .. } => "Parse IPv6 address failed."@,
            ConfigError::InvalidPort { .. } => "Parse port failed."@,
            ConfigError::MissingValue { .. } => "Option without a value."@,
            ConfigError::TooFewArguments => "too few arguments"@,
            ConfigError::ZeroCount => "Number of ping iterations is zero."@,
        }
    }

    /// What is said of the error, in short.
    pub fn message(&self) -> (r: &'static str)
        ensures
            r@ == self.spec_message(),
    {
        match self {
            ConfigError::InvalidAddress { family: Family::V4, .. } => "Parse IPv4 address failed.",
            ConfigError::InvalidAddress { family: Family::V6, .. } => "Parse IPv6 address failed.",
            ConfigError::InvalidPort { .. } => "Parse port failed.",
            ConfigError::MissingValue { .. } => "Option without a value.",
            ConfigError::TooFewArguments => "too few arguments",
            ConfigError::ZeroCount => "Number of ping iterations is zero.",
        }
    }
}

impl Cli {
    /// The family that the configuration selects.
    pub open spec fn spec_family(&self) -> Family {
        if self.v6 {
            Family::V6
        } else {
            Family::V4
        }
    }

    /// The family that the configuration selects.
    #[verifier::when_used_as_spec(spec_family)]
    pub fn family(&self) -> (r: Family)
        ensures
            r == self.spec_family(),
    {
        if self.v6 {
            Family::V6
        } else {
            Family::V4
        }
    }
}

/// The address that `s` denotes as a literal of `family`, if it is one.
pub open spec fn literal(s: Seq<char>, family: Family) -> Option<IpAddress> {
    match family {
        Family::V4 => match ipv4_literal(s) {
            Some(bits) => Some(IpAddress::V4(bits)),
            None => None,
        },
        Family::V6 => match ipv6_literal(s) {
            Some(bits) => Some(IpAddress::V6(bits)),
            None => None,
        },
    }
}

/// What resolving a configuration gives: the target, where the host is a
/// literal of the selected family, and otherwise the error that names the host
/// and the family.
pub open spec fn resolve(cli: Cli) -> Result<Target, ConfigError> {
    match literal(cli.host@, cli.spec_family()) {
        Some(address) => Ok(Target { address, port: cli.port }),
        None => Err(ConfigError::InvalidAddress { host: cli.host, family: cli.spec_family() }),
    }
}

/// Reads an address literal of the given family.
pub fn parse_address(text: &str, family: Family) -> (r: Option<IpAddress>)
    ensures
        r == literal(text@, family),
{
    match family {
        Family::V4 => match parse_ipv4(text) {
            Some(bits) => Some(IpAddress::V4(bits)),
            None => None,
        },
        Family::V6 => match parse_ipv6(text) {
            Some(bits) => Some(IpAddress::V6(bits)),
            None => None,
        },
    }
}

/// Resolves a configuration to the target that it names.
pub fn parse_args(cli: Cli) -> (r: Result<Target, ConfigError>)
    ensures
        r == resolve(cli),
{
    let family = cli.family();
    match parse_address(cli.host.as_str(), family) {
        Some(address) => Ok(Target { address, port: cli.port }),
        None => Err(ConfigError::InvalidAddress { host: cli.host, family }),
    }
}

/// No text is a literal of both families.
pub proof fn lemma_families_disjoint(s: Seq<char>)
    ensures
        !(ipv4_literal(s) is Some && ipv6_literal(s) is Some),
{
    if ipv4_literal(s) is Some && ipv6_literal(s) is Some {
        lemma_ipv4_characters(s);
        lemma_ipv6_characters(s);
        let i = choose|i: int| 0 <= i < s.len() && s[i] == ':';
        assert(s[i] == '.' || crate::text::is_digit(s[i]));
    }
}

/// Two configurations with the same host text, the same family and the same
/// port resolve alike: where one gives a target, the other gives that target.
pub proof fn lemma_resolve_repeatable(a: Cli, b: Cli)
    requires
        a.host@ == b.host@,
        a.v6 == b.v6,
        a.port == b.port,
    ensures
        resolve(a) is Ok <==> resolve(b) is Ok,
        resolve(a) is Ok ==> resolve(a) == resolve(b),
{
}

/// A host that resolves under one family is refused under the other, with the
/// error that names that host and the other family.
pub proof fn lemma_resolve_one_family(a: Cli, b: Cli)
    requires
        a.host == b.host,
        a.v6 != b.v6,
        resolve(a) is Ok,
    ensures
        resolve(b) == Err::<Target, ConfigError>(
            ConfigError::InvalidAddress { host: a.host, family: b.spec_family() },
        ),
{
    lemma_families_disjoint(a.host@);
}

} // verus!
